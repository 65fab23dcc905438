//! The general properties of the editing operations, stated over the
//! spec functions of `ops` and proved once and for all.

use vstd::prelude::*;

use crate::dom::ElementView;
use crate::dom::NodeView;
use crate::ops::insert_one;
use crate::ops::insert_seq;
use crate::ops::remove_one;
use crate::ops::remove_seq;
use crate::ops::rep_all;
use crate::ops::rep_children;
use crate::ops::rep_level;
use crate::ops::rep_node;
use crate::ops::trim_one;
use crate::ops::trim_seq;
use crate::selector::Selector;
use crate::selector::el_matches;
use crate::text::is_blank;
use crate::visit::VisitTrace;
use crate::visit::visit_level_tr;
use crate::visit::visit_node_tr;

verus! {

/// A node `trim` keeps at its own level: anything but a comment or a
/// blank text node; for an element, every descendant is clean too.
pub open spec fn clean_one(n: NodeView) -> bool
    decreases n, 0nat,
{
    match n {
        NodeView::Doctype(_) => true,
        NodeView::Comment(_) => false,
        NodeView::Text(t) => !is_blank(t),
        NodeView::Element(e) => clean_seq(e.children),
    }
}

/// A sequence of sibling trees free of comments and blank text nodes at
/// every depth.
pub open spec fn clean_seq(s: Seq<NodeView>) -> bool
    decreases s, 1nat,
{
    s.len() == 0 || (clean_seq(s.drop_last()) && clean_one(s.last()))
}

/// Cleanliness splits over concatenation.
proof fn lemma_clean_concat(a: Seq<NodeView>, b: Seq<NodeView>)
    ensures
        clean_seq(a + b) == (clean_seq(a) && clean_seq(b)),
    decreases b.len(),
{
    if b.len() == 0 {
        assert(a + b =~= a);
    } else {
        lemma_clean_concat(a, b.drop_last());
        assert((a + b).drop_last() =~= a + b.drop_last());
        assert((a + b).last() == b.last());
    }
}

/// Law: `trim` removes every comment and every blank text node, at every
/// depth — what it leaves is clean.
pub proof fn lemma_trim_clean(s: Seq<NodeView>)
    ensures
        clean_seq(trim_seq(s)),
    decreases s, 1nat,
{
    if s.len() > 0 {
        lemma_trim_clean(s.drop_last());
        lemma_trim_one_clean(s.last());
        lemma_clean_concat(trim_seq(s.drop_last()), trim_one(s.last()));
    }
}

/// A one-node sequence is clean exactly when its node is.
proof fn lemma_clean_singleton(x: NodeView)
    ensures
        clean_seq(seq![x]) == clean_one(x),
{
    assert(clean_seq(Seq::<NodeView>::empty()));
    assert(seq![x].drop_last() =~= Seq::<NodeView>::empty());
    assert(seq![x].last() == x);
}

/// Law, node form: what `trim` leaves of one node is clean.
pub proof fn lemma_trim_one_clean(n: NodeView)
    ensures
        clean_seq(trim_one(n)),
    decreases n, 0nat,
{
    match n {
        NodeView::Doctype(_) => {
            lemma_clean_singleton(n);
        },
        NodeView::Comment(_) => {},
        NodeView::Text(t) => {
            if !is_blank(t) {
                lemma_clean_singleton(n);
            }
        },
        NodeView::Element(e) => {
            lemma_trim_clean(e.children);
            lemma_clean_singleton(
                NodeView::Element(ElementView { children: trim_seq(e.children), ..e }),
            );
        },
    }
}

/// Law: `trim` removes exactly the comments and blank text nodes — a
/// tree already free of them, with its doctypes, elements and non-blank
/// texts in order, is left untouched.
pub proof fn lemma_trim_of_clean(s: Seq<NodeView>)
    requires
        clean_seq(s),
    ensures
        trim_seq(s) == s,
    decreases s, 1nat,
{
    if s.len() > 0 {
        lemma_trim_of_clean(s.drop_last());
        lemma_trim_one_of_clean(s.last());
        assert(trim_seq(s) =~= s.drop_last() + seq![s.last()]);
        assert(s.drop_last() + seq![s.last()] =~= s);
    }
}

/// Law, node form: `trim` leaves a clean node as it is.
pub proof fn lemma_trim_one_of_clean(n: NodeView)
    requires
        clean_one(n),
    ensures
        trim_one(n) == seq![n],
    decreases n, 0nat,
{
    match n {
        NodeView::Element(e) => {
            lemma_trim_of_clean(e.children);
            assert((ElementView { children: trim_seq(e.children), ..e }) =~= e);
        },
        _ => {},
    }
}

/// Law: `trim` is idempotent — applying it twice yields what applying it
/// once does.
pub proof fn lemma_trim_idempotent(s: Seq<NodeView>)
    ensures
        trim_seq(trim_seq(s)) == trim_seq(s),
{
    lemma_trim_clean(s);
    lemma_trim_of_clean(trim_seq(s));
}

/// Number of nodes in one tree, the root included.
pub open spec fn count_one(n: NodeView) -> nat
    decreases n, 0nat,
{
    match n {
        NodeView::Element(e) => 1 + count_seq(e.children),
        _ => 1,
    }
}

/// Number of nodes in a sequence of sibling trees.
pub open spec fn count_seq(s: Seq<NodeView>) -> nat
    decreases s, 1nat,
{
    if s.len() == 0 {
        0
    } else {
        count_seq(s.drop_last()) + count_one(s.last())
    }
}

/// Number of elements, at every depth, whose shape matches the selector
/// in one tree.
pub open spec fn match_count_one(n: NodeView, sel: Selector) -> nat
    decreases n, 0nat,
{
    match n {
        NodeView::Element(e) => (if el_matches(sel, e) {
            1nat
        } else {
            0nat
        }) + match_count_seq(e.children, sel),
        _ => 0,
    }
}

/// Number of matching elements, at every depth, in a sequence of sibling
/// trees.
pub open spec fn match_count_seq(s: Seq<NodeView>, sel: Selector) -> nat
    decreases s, 1nat,
{
    if s.len() == 0 {
        0
    } else {
        match_count_seq(s.drop_last(), sel) + match_count_one(s.last(), sel)
    }
}

/// Law: for a selector matching `k` elements in the tree, `insert_to`
/// appends exactly `k` copies of the inserted node and alters nothing
/// else — the node count grows by exactly `k` times the count of the
/// inserted tree.
pub proof fn lemma_insert_count(s: Seq<NodeView>, sel: Selector, t: NodeView)
    ensures
        count_seq(insert_seq(s, sel, t)) == count_seq(s) + match_count_seq(s, sel) * count_one(t),
    decreases s, 1nat,
{
    if s.len() == 0 {
        assert(match_count_seq(s, sel) * count_one(t) == 0) by (nonlinear_arith)
            requires
                match_count_seq(s, sel) == 0,
        ;
    } else {
        lemma_insert_count(s.drop_last(), sel, t);
        lemma_insert_count_one(s.last(), sel, t);
        let a = insert_seq(s.drop_last(), sel, t);
        let x = insert_one(s.last(), sel, t);
        assert(insert_seq(s, sel, t).drop_last() =~= a);
        assert(insert_seq(s, sel, t).last() == x);
        assert(count_seq(insert_seq(s, sel, t)) == count_seq(a) + count_one(x));
        assert(count_seq(s) == count_seq(s.drop_last()) + count_one(s.last()));
        assert(match_count_seq(s, sel) == match_count_seq(s.drop_last(), sel) + match_count_one(
            s.last(),
            sel,
        ));
        assert((match_count_seq(s.drop_last(), sel) + match_count_one(s.last(), sel)) * count_one(
            t,
        ) == match_count_seq(s.drop_last(), sel) * count_one(t) + match_count_one(s.last(), sel)
            * count_one(t)) by (nonlinear_arith);
    }
}

/// Law, node form: the node count of one tree grows by the match count
/// times the count of the inserted tree.
pub proof fn lemma_insert_count_one(n: NodeView, sel: Selector, t: NodeView)
    ensures
        count_one(insert_one(n, sel, t)) == count_one(n) + match_count_one(n, sel) * count_one(t),
    decreases n, 0nat,
{
    match n {
        NodeView::Element(e) => {
            lemma_insert_count(e.children, sel, t);
            let kids = insert_seq(e.children, sel, t);
            if !el_matches(sel, e) {
                assert(match_count_one(n, sel) == match_count_seq(e.children, sel));
            } else {
                assert(kids.push(t).drop_last() =~= kids);
                assert(kids.push(t).last() == t);
                assert(count_seq(kids.push(t)) == count_seq(kids) + count_one(t));
                assert((match_count_seq(e.children, sel) + 1) * count_one(t) == match_count_seq(
                    e.children,
                    sel,
                ) * count_one(t) + count_one(t)) by (nonlinear_arith);
                assert(match_count_one(n, sel) == 1 + match_count_seq(e.children, sel));
            }
            assert(count_one(insert_one(n, sel, t)) == 1 + count_seq(
                insert_one(n, sel, t)->Element_0.children,
            ));
        },
        _ => {
            assert(match_count_one(n, sel) * count_one(t) == 0) by (nonlinear_arith)
                requires
                    match_count_one(n, sel) == 0,
            ;
        },
    }
}

/// No element, at any depth, whose shape matches the selector.
pub open spec fn none_match_one(n: NodeView, sel: Selector) -> bool
    decreases n, 0nat,
{
    match n {
        NodeView::Element(e) => !el_matches(sel, e) && none_match_seq(e.children, sel),
        _ => true,
    }
}

/// No matching element, at any depth, in a sequence of sibling trees.
pub open spec fn none_match_seq(s: Seq<NodeView>, sel: Selector) -> bool
    decreases s, 1nat,
{
    s.len() == 0 || (none_match_seq(s.drop_last(), sel) && none_match_one(s.last(), sel))
}

/// Freedom from matches splits over concatenation.
proof fn lemma_none_match_concat(a: Seq<NodeView>, b: Seq<NodeView>, sel: Selector)
    ensures
        none_match_seq(a + b, sel) == (none_match_seq(a, sel) && none_match_seq(b, sel)),
    decreases b.len(),
{
    if b.len() == 0 {
        assert(a + b =~= a);
    } else {
        lemma_none_match_concat(a, b.drop_last(), sel);
        assert((a + b).drop_last() =~= a + b.drop_last());
        assert((a + b).last() == b.last());
    }
}

/// Law: after `remove_by`, no surviving element at any depth matches the
/// selector; removed elements' entire subtrees are gone with them.
pub proof fn lemma_remove_total(s: Seq<NodeView>, sel: Selector)
    ensures
        none_match_seq(remove_seq(s, sel), sel),
    decreases s, 1nat,
{
    if s.len() > 0 {
        lemma_remove_total(s.drop_last(), sel);
        lemma_remove_one_total(s.last(), sel);
        lemma_none_match_concat(remove_seq(s.drop_last(), sel), remove_one(s.last(), sel), sel);
    }
}

/// A one-node sequence is free of matches exactly when its node is.
proof fn lemma_none_match_singleton(x: NodeView, sel: Selector)
    ensures
        none_match_seq(seq![x], sel) == none_match_one(x, sel),
{
    assert(none_match_seq(Seq::<NodeView>::empty(), sel));
    assert(seq![x].drop_last() =~= Seq::<NodeView>::empty());
    assert(seq![x].last() == x);
}

/// Law, node form: what `remove_by` leaves of one node holds no matching
/// element at any depth.
pub proof fn lemma_remove_one_total(n: NodeView, sel: Selector)
    ensures
        none_match_seq(remove_one(n, sel), sel),
    decreases n, 0nat,
{
    match n {
        NodeView::Element(e) => {
            if !el_matches(sel, e) {
                lemma_remove_total(e.children, sel);
                lemma_none_match_singleton(
                    NodeView::Element(ElementView { children: remove_seq(e.children, sel), ..e }),
                    sel,
                );
            }
        },
        _ => {
            lemma_none_match_singleton(n, sel);
        },
    }
}

} // verus!

verus! {

/// Law: where no element's shape matches the selector, `insert_to`
/// changes nothing.
pub proof fn lemma_insert_none(s: Seq<NodeView>, sel: Selector, t: NodeView)
    requires
        none_match_seq(s, sel),
    ensures
        insert_seq(s, sel, t) == s,
    decreases s, 1nat,
{
    if s.len() > 0 {
        lemma_insert_none(s.drop_last(), sel, t);
        lemma_insert_none_one(s.last(), sel, t);
        assert(insert_seq(s, sel, t) =~= s.drop_last().push(s.last()));
        assert(s.drop_last().push(s.last()) =~= s);
    }
}

/// Law, node form: a node holding no matching element is left as it is
/// by `insert_to`.
pub proof fn lemma_insert_none_one(n: NodeView, sel: Selector, t: NodeView)
    requires
        none_match_one(n, sel),
    ensures
        insert_one(n, sel, t) == n,
    decreases n, 0nat,
{
    match n {
        NodeView::Element(e) => {
            lemma_insert_none(e.children, sel, t);
            assert((ElementView { children: insert_seq(e.children, sel, t), ..e }) =~= e);
        },
        _ => {},
    }
}

/// Law: where no element's shape matches the selector, `remove_by`
/// changes nothing.
pub proof fn lemma_remove_none(s: Seq<NodeView>, sel: Selector)
    requires
        none_match_seq(s, sel),
    ensures
        remove_seq(s, sel) == s,
    decreases s, 1nat,
{
    if s.len() > 0 {
        lemma_remove_none(s.drop_last(), sel);
        lemma_remove_none_one(s.last(), sel);
        assert(remove_seq(s, sel) =~= s.drop_last() + seq![s.last()]);
        assert(s.drop_last() + seq![s.last()] =~= s);
    }
}

/// Law, node form: a node holding no matching element is left as it is
/// by `remove_by`.
pub proof fn lemma_remove_none_one(n: NodeView, sel: Selector)
    requires
        none_match_one(n, sel),
    ensures
        remove_one(n, sel) == seq![n],
    decreases n, 0nat,
{
    match n {
        NodeView::Element(e) => {
            lemma_remove_none(e.children, sel);
            assert((ElementView { children: remove_seq(e.children, sel), ..e }) =~= e);
        },
        _ => {},
    }
}

/// Law: `remove_by` is idempotent — once every matching element is gone,
/// a second pass finds nothing to delete.
pub proof fn lemma_remove_idempotent(s: Seq<NodeView>, sel: Selector)
    ensures
        remove_seq(remove_seq(s, sel), sel) == remove_seq(s, sel),
{
    lemma_remove_total(s, sel);
    lemma_remove_none(remove_seq(s, sel), sel);
}

/// Law: where no element matches the selector, `replace_with` changes
/// nothing — only matching elements are ever replaced.
pub proof fn lemma_rep_level_none(
    a: Seq<NodeView>,
    b: Seq<NodeView>,
    sel: Selector,
    tf: spec_fn(ElementView, NodeView) -> bool,
    k: int,
)
    requires
        rep_level(a, b, sel, tf, k),
        none_match_seq(a, sel),
    ensures
        b =~= a,
    decreases a, 0nat,
{
    if a.len() > 0 {
        lemma_rep_level_none(a.drop_last(), b.drop_last(), sel, tf, k);
        if a.len() - 1 < k {
            lemma_rep_node_none(a.last(), b.last(), sel, tf);
        }
        assert(b =~= b.drop_last().push(b.last()));
        assert(a =~= a.drop_last().push(a.last()));
    }
}

/// Law, node form: a node holding no matching element is left as it is.
pub proof fn lemma_rep_node_none(
    o: NodeView,
    n: NodeView,
    sel: Selector,
    tf: spec_fn(ElementView, NodeView) -> bool,
)
    requires
        rep_node(o, n, sel, tf),
        none_match_one(o, sel),
    ensures
        n == o,
    decreases o, 2nat,
{
    match o {
        NodeView::Element(e) => {
            lemma_rep_children_none(e.children, n->Element_0.children, sel, tf);
            assert(n->Element_0 =~= e);
        },
        _ => {},
    }
}

/// Law, children form: a nested scan over match-free children changes
/// nothing, whether or not it ran to the end.
pub proof fn lemma_rep_children_none(
    a: Seq<NodeView>,
    b: Seq<NodeView>,
    sel: Selector,
    tf: spec_fn(ElementView, NodeView) -> bool,
)
    requires
        rep_children(a, b, sel, tf),
        none_match_seq(a, sel),
    ensures
        b =~= a,
    decreases a, 1nat,
{
    if a.len() > 0 {
        if rep_node(a.last(), b.last(), sel, tf) && rep_all(a.drop_last(), b.drop_last(), sel, tf) {
            lemma_rep_all_none(a.drop_last(), b.drop_last(), sel, tf);
            lemma_rep_node_none(a.last(), b.last(), sel, tf);
        } else {
            lemma_rep_children_none(a.drop_last(), b.drop_last(), sel, tf);
        }
        assert(b =~= b.drop_last().push(b.last()));
        assert(a =~= a.drop_last().push(a.last()));
    }
}

/// Law, full-scan form: a completed scan over match-free siblings changes
/// nothing.
pub proof fn lemma_rep_all_none(
    a: Seq<NodeView>,
    b: Seq<NodeView>,
    sel: Selector,
    tf: spec_fn(ElementView, NodeView) -> bool,
)
    requires
        rep_all(a, b, sel, tf),
        none_match_seq(a, sel),
    ensures
        b =~= a,
    decreases a, 1nat,
{
    if a.len() > 0 {
        lemma_rep_all_none(a.drop_last(), b.drop_last(), sel, tf);
        lemma_rep_node_none(a.last(), b.last(), sel, tf);
        assert(b =~= b.drop_last().push(b.last()));
        assert(a =~= a.drop_last().push(a.last()));
    }
}

/// Law: where no element's true value matches the selector, `execute_for`
/// visits nothing and changes nothing.
pub proof fn lemma_visit_level_none(
    a: Seq<NodeView>,
    b: Seq<NodeView>,
    sel: Selector,
    vf: spec_fn(ElementView, ElementView) -> bool,
    trs: Seq<VisitTrace>,
)
    requires
        visit_level_tr(a, b, sel, vf, trs),
        none_match_seq(a, sel),
    ensures
        b =~= a,
    decreases trs, 1nat,
{
    if a.len() > 0 {
        lemma_visit_level_none(a.drop_last(), b.drop_last(), sel, vf, trs.drop_last());
        lemma_visit_node_none(a.last(), b.last(), sel, vf, trs.last());
        assert(b =~= b.drop_last().push(b.last()));
        assert(a =~= a.drop_last().push(a.last()));
    }
}

/// Law, node form: a node holding no matching element is not visited and
/// keeps its value.
pub proof fn lemma_visit_node_none(
    o: NodeView,
    n: NodeView,
    sel: Selector,
    vf: spec_fn(ElementView, ElementView) -> bool,
    tr: VisitTrace,
)
    requires
        visit_node_tr(o, n, sel, vf, tr),
        none_match_one(o, sel),
    ensures
        n == o,
    decreases tr, 0nat,
{
    match o {
        NodeView::Element(e) => {
            lemma_visit_level_none(
                tr->Step_0.children,
                n->Element_0.children,
                sel,
                vf,
                tr->Step_1,
            );
            assert(n->Element_0 =~= e);
        },
        _ => {},
    }
}

} // verus!
