//! What each editing operation means on the image of a tree. These spec
//! functions are the contracts of the `Editable` operations; the
//! executable code in `edit` is proved against them.

use vstd::prelude::*;

use crate::dom::ElementView;
use crate::dom::NodeView;
use crate::selector::Selector;
use crate::selector::el_matches;
use crate::text::is_blank;

verus! {

/// The image of `trim` on a sequence of sibling nodes: at every nesting
/// level, every `Comment` node and every blank `Text` node is removed;
/// every `Doctype` and every `Element` is kept, and sibling order is
/// preserved.
pub open spec fn trim_seq(s: Seq<NodeView>) -> Seq<NodeView>
    decreases s,
{
    if s.len() == 0 {
        Seq::empty()
    } else {
        trim_seq(s.drop_last()) + trim_one(s.last())
    }
}

/// What `trim` leaves of one node: nothing for a comment or a blank text
/// node; the node itself otherwise, an element keeping its name and
/// attributes with its children trimmed in turn.
pub open spec fn trim_one(n: NodeView) -> Seq<NodeView>
    decreases n,
{
    match n {
        NodeView::Doctype(_) => seq![n],
        NodeView::Comment(_) => Seq::empty(),
        NodeView::Text(t) => if is_blank(t) {
            Seq::empty()
        } else {
            seq![n]
        },
        NodeView::Element(e) => seq![
            NodeView::Element(ElementView { children: trim_seq(e.children), ..e }),
        ],
    }
}

/// Unfolding `trim_seq` over an appended node.
pub proof fn lemma_trim_seq_push(s: Seq<NodeView>, x: NodeView)
    ensures
        trim_seq(s.push(x)) == trim_seq(s) + trim_one(x),
{
    assert(s.push(x).drop_last() =~= s);
}

/// The image of `insert_to` on a sequence of sibling nodes: every element
/// at every nesting level whose shape matches the selector receives a copy
/// of `t` as its last child, nested matches first; nothing else changes.
pub open spec fn insert_seq(s: Seq<NodeView>, sel: Selector, t: NodeView) -> Seq<NodeView>
    decreases s,
{
    if s.len() == 0 {
        Seq::empty()
    } else {
        insert_seq(s.drop_last(), sel, t).push(insert_one(s.last(), sel, t))
    }
}

/// The image of `insert_to` on one node: a non-element is unchanged; an
/// element keeps its name and attributes, its children receive the
/// insertion first, and then, if the element's shape matches, a copy of
/// `t` is appended to them.
pub open spec fn insert_one(n: NodeView, sel: Selector, t: NodeView) -> NodeView
    decreases n,
{
    match n {
        NodeView::Element(e) => NodeView::Element(
            ElementView {
                children: if el_matches(sel, e) {
                    insert_seq(e.children, sel, t).push(t)
                } else {
                    insert_seq(e.children, sel, t)
                },
                ..e
            },
        ),
        _ => n,
    }
}

/// Unfolding `insert_seq` over an appended node.
pub proof fn lemma_insert_seq_push(s: Seq<NodeView>, x: NodeView, sel: Selector, t: NodeView)
    ensures
        insert_seq(s.push(x), sel, t) == insert_seq(s, sel, t).push(insert_one(x, sel, t)),
{
    assert(s.push(x).drop_last() =~= s);
}

/// The image of `remove_by` on a sequence of sibling nodes: every element
/// at every nesting level whose shape matches the selector is deleted
/// together with its entire subtree; a removed element's descendants are
/// never visited on their own. Non-element nodes are never removed.
pub open spec fn remove_seq(s: Seq<NodeView>, sel: Selector) -> Seq<NodeView>
    decreases s,
{
    if s.len() == 0 {
        Seq::empty()
    } else {
        remove_seq(s.drop_last(), sel) + remove_one(s.last(), sel)
    }
}

/// What `remove_by` leaves of one node: nothing for an element whose shape
/// matches; otherwise the node itself, an element keeping its name and
/// attributes with the removal carried into its children.
pub open spec fn remove_one(n: NodeView, sel: Selector) -> Seq<NodeView>
    decreases n,
{
    match n {
        NodeView::Element(e) => if el_matches(sel, e) {
            Seq::empty()
        } else {
            seq![NodeView::Element(ElementView { children: remove_seq(e.children, sel), ..e })]
        },
        _ => seq![n],
    }
}

/// Unfolding `remove_seq` over an appended node.
pub proof fn lemma_remove_seq_push(s: Seq<NodeView>, x: NodeView, sel: Selector)
    ensures
        remove_seq(s.push(x), sel) == remove_seq(s, sel) + remove_one(x, sel),
{
    assert(s.push(x).drop_last() =~= s);
}

/// How a scanned level looks after `replace_with` stopped at position `k`:
/// the first `k` nodes have been processed (`rep_node`), the rest are
/// unchanged. `tf(e, n)` stands for "the transform may turn the element
/// `e` into the node `n`".
pub open spec fn rep_level(
    old: Seq<NodeView>,
    new: Seq<NodeView>,
    sel: Selector,
    tf: spec_fn(ElementView, NodeView) -> bool,
    k: int,
) -> bool
    decreases old, 0nat,
{
    &&& old.len() == new.len()
    &&& (old.len() == 0 || {
        &&& rep_level(old.drop_last(), new.drop_last(), sel, tf, k)
        &&& (if old.len() - 1 < k {
            rep_node(old.last(), new.last(), sel, tf)
        } else {
            new.last() == old.last()
        })
    })
}

/// How one processed node looks after `replace_with`: an element whose
/// true value matches the selector has been replaced, atomically and
/// exactly once, by a node the transform may produce for it — its
/// children are not visited; a non-matching element keeps its name and
/// attributes and its children have been scanned by a nested call whose
/// own failure, if any, was discarded; a non-element node is untouched.
pub open spec fn rep_node(
    o: NodeView,
    n: NodeView,
    sel: Selector,
    tf: spec_fn(ElementView, NodeView) -> bool,
) -> bool
    decreases o, 2nat,
{
    match o {
        NodeView::Element(e) => if el_matches(sel, e) {
            tf(e, n)
        } else {
            &&& n matches NodeView::Element(e2)
            &&& n->Element_0.name == e.name
            &&& n->Element_0.attrs == e.attrs
            &&& rep_children(e.children, n->Element_0.children, sel, tf)
        },
        _ => n == o,
    }
}

/// Every node of the level was processed.
pub open spec fn rep_all(
    old: Seq<NodeView>,
    new: Seq<NodeView>,
    sel: Selector,
    tf: spec_fn(ElementView, NodeView) -> bool,
) -> bool
    decreases old, 1nat,
{
    &&& old.len() == new.len()
    &&& (old.len() == 0 || {
        &&& rep_all(old.drop_last(), new.drop_last(), sel, tf)
        &&& rep_node(old.last(), new.last(), sel, tf)
    })
}

/// The children of a non-matching element after the nested call: processed
/// up to some position, unchanged beyond it; where the nested call stopped
/// short, its error was swallowed.
pub open spec fn rep_children(
    old: Seq<NodeView>,
    new: Seq<NodeView>,
    sel: Selector,
    tf: spec_fn(ElementView, NodeView) -> bool,
) -> bool
    decreases old, 1nat,
{
    &&& old.len() == new.len()
    &&& (old.len() == 0 || {
        ||| (new.last() == old.last() && rep_children(
            old.drop_last(),
            new.drop_last(),
            sel,
            tf,
        ))
        ||| (rep_node(old.last(), new.last(), sel, tf) && rep_all(
            old.drop_last(),
            new.drop_last(),
            sel,
            tf,
        ))
    })
}

/// A level processed throughout satisfies `rep_all`.
pub proof fn lemma_rep_all_of_level(
    a: Seq<NodeView>,
    b: Seq<NodeView>,
    sel: Selector,
    tf: spec_fn(ElementView, NodeView) -> bool,
    k: int,
)
    requires
        rep_level(a, b, sel, tf, k),
        a.len() <= k,
    ensures
        rep_all(a, b, sel, tf),
    decreases a.len(),
{
    if a.len() > 0 {
        lemma_rep_all_of_level(a.drop_last(), b.drop_last(), sel, tf, k);
    }
}

/// A level processed up to any position `k` and unchanged beyond it is a
/// level a nested call may leave behind.
pub proof fn lemma_rep_children_of_level(
    a: Seq<NodeView>,
    b: Seq<NodeView>,
    sel: Selector,
    tf: spec_fn(ElementView, NodeView) -> bool,
    k: int,
)
    requires
        0 <= k,
        rep_level(a, b, sel, tf, k),
    ensures
        rep_children(a, b, sel, tf),
    decreases a.len(),
{
    if a.len() == 0 {
    } else if a.len() - 1 < k {
        lemma_rep_all_of_level(a.drop_last(), b.drop_last(), sel, tf, k);
    } else {
        lemma_rep_children_of_level(a.drop_last(), b.drop_last(), sel, tf, k);
    }
}

/// A bound `k` at or beyond the length can be replaced by any other.
pub proof fn lemma_rep_level_widen(
    a: Seq<NodeView>,
    b: Seq<NodeView>,
    sel: Selector,
    tf: spec_fn(ElementView, NodeView) -> bool,
    k1: int,
    k2: int,
)
    requires
        rep_level(a, b, sel, tf, k1),
        a.len() <= k1,
        a.len() <= k2,
    ensures
        rep_level(a, b, sel, tf, k2),
    decreases a.len(),
{
    if a.len() > 0 {
        lemma_rep_level_widen(a.drop_last(), b.drop_last(), sel, tf, k1, k2);
    }
}

/// Extending a fully processed level by one more processed node.
pub proof fn lemma_rep_level_step(
    a: Seq<NodeView>,
    b: Seq<NodeView>,
    sel: Selector,
    tf: spec_fn(ElementView, NodeView) -> bool,
    i: int,
    x: NodeView,
    y: NodeView,
)
    requires
        rep_level(a, b, sel, tf, i),
        a.len() == i,
        rep_node(x, y, sel, tf),
    ensures
        rep_level(a.push(x), b.push(y), sel, tf, i + 1),
{
    lemma_rep_level_widen(a, b, sel, tf, i, i + 1);
    assert(a.push(x).drop_last() =~= a);
    assert(b.push(y).drop_last() =~= b);
}

/// A level that was processed up to `k` and then left alone satisfies the
/// stopped-at-`k` relation as a whole.
pub proof fn lemma_rep_level_stop(
    a: Seq<NodeView>,
    b0: Seq<NodeView>,
    sel: Selector,
    tf: spec_fn(ElementView, NodeView) -> bool,
    k: int,
)
    requires
        0 <= k <= a.len(),
        b0.len() == k,
        rep_level(a.take(k), b0, sel, tf, k),
    ensures
        rep_level(a, b0 + a.skip(k), sel, tf, k),
    decreases a.len(),
{
    if a.len() == k {
        assert(a.take(k) =~= a);
        assert(b0 + a.skip(k) =~= b0);
    } else {
        let a1 = a.drop_last();
        assert(a1.take(k) =~= a.take(k));
        lemma_rep_level_stop(a1, b0, sel, tf, k);
        let b = b0 + a.skip(k);
        assert(b.drop_last() =~= b0 + a1.skip(k));
        assert(b.last() == a.last());
    }
}

} // verus!
