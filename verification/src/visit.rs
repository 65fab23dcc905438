//! `execute_for`: visit every element, at every depth, whose true value
//! matches the selector, handing it to a visitor that returns the updated
//! element; descent continues into the updated children, so a visitor's
//! mutation is visible to the visits of descendants processed afterwards.
//! Non-matching elements are never visited. The visitor may reshape the
//! element freely — add or drop text, comments, attributes — but must
//! not increase the number of elements in the subtree it returns: the
//! traversal descends into the visitor's own output, so ever-growing
//! element content would never let it end.

use vstd::prelude::*;

use crate::dom::Element;
use crate::dom::ElementView;
use crate::dom::Node;
use crate::dom::NodeView;
use crate::dom::clone_attrs;
use crate::dom::elems_nodes;
use crate::dom::lemma_elems_nodes_index;
use crate::dom::lemma_view_nodes;
use crate::dom::lemma_view_nodes_push;
use crate::dom::view_element;
use crate::dom::view_node;
use crate::dom::view_nodes;
use crate::selector::Selector;
use crate::selector::el_matches;

verus! {

/// The record of one traversal: for every element node, the element the
/// visitor (or the identity, where the selector did not match) turned it
/// into, and the records of that element's children.
pub enum VisitTrace {
    /// A non-element node: left alone, nothing recorded.
    Skip,
    /// An element node: what it became before its children were walked,
    /// and one record per child of that intermediate element.
    Step(ElementView, Seq<VisitTrace>),
}

/// The visitor may turn the element imaged by `e` into the element imaged
/// by `m`.
pub open spec fn visitor_ok<F: Fn(&Element) -> Element>(f: F, e: ElementView, m: ElementView) -> bool {
    exists|x: Element, y: Element|
        view_element(x) == e && view_element(y) == m && call_ensures(f, (&x,), y)
}

/// `visitor_ok` as the relation the `visit_*` spec functions take.
pub open spec fn visitor_rel<F: Fn(&Element) -> Element>(f: F) -> spec_fn(
    ElementView,
    ElementView,
) -> bool {
    |e: ElementView, m: ElementView| visitor_ok(f, e, m)
}

/// One node after `execute_for`, as recorded by `tr`: a non-element node
/// is untouched; an element whose true value matches the selector was
/// visited exactly once, becoming the recorded intermediate, while a
/// non-matching element was not visited and its intermediate is itself;
/// either way the traversal then descended into the intermediate's
/// children, so the result keeps the intermediate's name and attributes
/// and its children continue as recorded.
pub open spec fn visit_node_tr(
    o: NodeView,
    n: NodeView,
    sel: Selector,
    vf: spec_fn(ElementView, ElementView) -> bool,
    tr: VisitTrace,
) -> bool
    decreases tr, 0nat,
{
    match o {
        NodeView::Element(e) => {
            &&& tr matches VisitTrace::Step(mid, subs)
            &&& (if el_matches(sel, e) {
                vf(e, tr->Step_0)
            } else {
                tr->Step_0 == e
            })
            &&& n matches NodeView::Element(e2)
            &&& n->Element_0.name == tr->Step_0.name
            &&& n->Element_0.attrs == tr->Step_0.attrs
            &&& visit_level_tr(tr->Step_0.children, n->Element_0.children, sel, vf, tr->Step_1)
        },
        _ => n == o,
    }
}

/// One level of siblings after `execute_for`, node by node, as recorded
/// by `trs`.
pub open spec fn visit_level_tr(
    old: Seq<NodeView>,
    new: Seq<NodeView>,
    sel: Selector,
    vf: spec_fn(ElementView, ElementView) -> bool,
    trs: Seq<VisitTrace>,
) -> bool
    decreases trs, 1nat,
{
    &&& old.len() == new.len()
    &&& trs.len() == old.len()
    &&& (old.len() == 0 || {
        &&& visit_level_tr(old.drop_last(), new.drop_last(), sel, vf, trs.drop_last())
        &&& visit_node_tr(old.last(), new.last(), sel, vf, trs.last())
    })
}

/// Extending a recorded level by one more recorded node.
pub proof fn lemma_visit_level_step(
    a: Seq<NodeView>,
    b: Seq<NodeView>,
    sel: Selector,
    vf: spec_fn(ElementView, ElementView) -> bool,
    trs: Seq<VisitTrace>,
    x: NodeView,
    y: NodeView,
    tr: VisitTrace,
)
    requires
        visit_level_tr(a, b, sel, vf, trs),
        visit_node_tr(x, y, sel, vf, tr),
    ensures
        visit_level_tr(a.push(x), b.push(y), sel, vf, trs.push(tr)),
{
    assert(a.push(x).drop_last() =~= a);
    assert(b.push(y).drop_last() =~= b);
    assert(trs.push(tr).drop_last() =~= trs);
}

/// The scanned siblings after `execute_for`: some record `trs` accounts
/// for every node.
#[verifier::loop_isolation(false)]
pub fn execute_vec<F: Fn(&Element) -> Element>(s: &Vec<Node>, sel: &Selector, f: &F) -> (r: Vec<
    Node,
>)
    requires
        forall|el: Element| call_requires(*f, (&el,)),
        forall|x: Element, y: Element|
            call_ensures(*f, (&x,), y) ==> elems_nodes(y.children@) <= elems_nodes(x.children@),
    ensures
        exists|trs: Seq<VisitTrace>| visit_level_tr(
            view_nodes(s@),
            view_nodes(r@),
            *sel,
            visitor_rel(*f),
            trs,
        ),
    decreases elems_nodes(s@),
{
    let ghost av = view_nodes(s@);
    let ghost vr = visitor_rel(*f);
    let mut r: Vec<Node> = Vec::new();
    let ghost mut trs: Seq<VisitTrace> = Seq::empty();
    let n = s.len();
    for i in 0..n
        invariant
            view_nodes(r@).len() == i,
            trs.len() == i,
            visit_level_tr(av.take(i as int), view_nodes(r@), *sel, vr, trs),
        decreases n - i,
    {
        proof {
            lemma_view_nodes(s@);
            lemma_elems_nodes_index(s@, i as int);
        }
        let ghost r0 = view_nodes(r@);
        let ghost trs0 = trs;
        match &s[i] {
            Node::Element(e) => {
                if sel.matches(e) {
                    let mut out = f(e);
                    let ghost out0 = out;
                    let ghost midv = view_element(out);
                    let kids = execute_vec(&out.children, sel, f);
                    let ghost sub = choose|t: Seq<VisitTrace>| visit_level_tr(
                        view_nodes(out.children@),
                        view_nodes(kids@),
                        *sel,
                        visitor_rel(*f),
                        t,
                    );
                    out.children = kids;
                    let ghost tr = VisitTrace::Step(midv, sub);
                    proof {
                        assert(call_ensures(*f, (e,), out0));
                        assert(visitor_ok(*f, view_element(*e), midv));
                        assert(visit_node_tr(av[i as int], view_node(Node::Element(out)), *sel, vr, tr));
                        lemma_visit_level_step(
                            av.take(i as int),
                            r0,
                            *sel,
                            vr,
                            trs0,
                            av[i as int],
                            view_node(Node::Element(out)),
                            tr,
                        );
                        assert(av.take(i as int).push(av[i as int]) =~= av.take(i + 1));
                        lemma_view_nodes_push(r@, Node::Element(out));
                        trs = trs0.push(tr);
                    }
                    r.push(Node::Element(out));
                } else {
                    let kids = execute_vec(&e.children, sel, f);
                    let ghost sub = choose|t: Seq<VisitTrace>| visit_level_tr(
                        view_nodes(e.children@),
                        view_nodes(kids@),
                        *sel,
                        visitor_rel(*f),
                        t,
                    );
                    let el2 = Element {
                        name: e.name.clone(),
                        attrs: clone_attrs(&e.attrs),
                        children: kids,
                    };
                    let ghost tr = VisitTrace::Step(view_element(*e), sub);
                    proof {
                        assert(visit_node_tr(
                            av[i as int],
                            view_node(Node::Element(el2)),
                            *sel,
                            vr,
                            tr,
                        ));
                        lemma_visit_level_step(
                            av.take(i as int),
                            r0,
                            *sel,
                            vr,
                            trs0,
                            av[i as int],
                            view_node(Node::Element(el2)),
                            tr,
                        );
                        assert(av.take(i as int).push(av[i as int]) =~= av.take(i + 1));
                        lemma_view_nodes_push(r@, Node::Element(el2));
                        trs = trs0.push(tr);
                    }
                    r.push(Node::Element(el2));
                }
            },
            other => {
                let c = other.deep_clone();
                proof {
                    assert(visit_node_tr(av[i as int], view_node(c), *sel, vr, VisitTrace::Skip));
                    lemma_visit_level_step(
                        av.take(i as int),
                        r0,
                        *sel,
                        vr,
                        trs0,
                        av[i as int],
                        view_node(c),
                        VisitTrace::Skip,
                    );
                    assert(av.take(i as int).push(av[i as int]) =~= av.take(i + 1));
                    lemma_view_nodes_push(r@, c);
                    trs = trs0.push(VisitTrace::Skip);
                }
                r.push(c);
            },
        }
    }
    proof {
        lemma_view_nodes(s@);
        assert(av.take(n as int) =~= av);
    }
    r
}

/// The traversal engine on a sequence of sibling nodes, shared by both
/// `execute_for` implementations: descends into every element, visiting
/// the matching ones.
pub fn nodes_execute_for_internal<F: Fn(&Element) -> Element>(
    nodes: &mut Vec<Node>,
    selector: &Selector,
    f: &F,
)
    requires
        forall|el: Element| call_requires(*f, (&el,)),
        forall|x: Element, y: Element|
            call_ensures(*f, (&x,), y) ==> elems_nodes(y.children@) <= elems_nodes(x.children@),
    ensures
        exists|trs: Seq<VisitTrace>| visit_level_tr(
            view_nodes(old(nodes)@),
            view_nodes(final(nodes)@),
            *selector,
            visitor_rel(*f),
            trs,
        ),
{
    let out = execute_vec(nodes, selector, f);
    let ghost trs0 = choose|t: Seq<VisitTrace>| visit_level_tr(
        view_nodes(old(nodes)@),
        view_nodes(out@),
        *selector,
        visitor_rel(*f),
        t,
    );
    *nodes = out;
    proof {
        assert(visit_level_tr(
            view_nodes(old(nodes)@),
            view_nodes(final(nodes)@),
            *selector,
            visitor_rel(*f),
            trs0,
        ));
    }
}

/// The traversal engine on a single element subtree: the element itself
/// is visited when its true value matches, then its (possibly updated)
/// children are walked.
pub fn element_execute_for_internal<F: Fn(&Element) -> Element>(
    element: &mut Element,
    selector: &Selector,
    f: &F,
)
    requires
        forall|el: Element| call_requires(*f, (&el,)),
        forall|x: Element, y: Element|
            call_ensures(*f, (&x,), y) ==> elems_nodes(y.children@) <= elems_nodes(x.children@),
    ensures
        exists|tr: VisitTrace| visit_node_tr(
            NodeView::Element(view_element(*old(element))),
            NodeView::Element(view_element(*final(element))),
            *selector,
            visitor_rel(*f),
            tr,
        ),
{
    if selector.matches(element) {
        let mut out = f(element);
        let ghost out0 = out;
        let ghost midv = view_element(out);
        let kids = execute_vec(&out.children, selector, f);
        let ghost sub = choose|t: Seq<VisitTrace>| visit_level_tr(
            view_nodes(out.children@),
            view_nodes(kids@),
            *selector,
            visitor_rel(*f),
            t,
        );
        out.children = kids;
        let ghost tr = VisitTrace::Step(midv, sub);
        *element = out;
        proof {
            assert(call_ensures(*f, (old(element),), out0));
            assert(visitor_ok(*f, view_element(*old(element)), midv));
            assert(visit_node_tr(
                NodeView::Element(view_element(*old(element))),
                NodeView::Element(view_element(*final(element))),
                *selector,
                visitor_rel(*f),
                tr,
            ));
        }
    } else {
        let kids = execute_vec(&element.children, selector, f);
        let ghost sub = choose|t: Seq<VisitTrace>| visit_level_tr(
            view_nodes(old(element).children@),
            view_nodes(kids@),
            *selector,
            visitor_rel(*f),
            t,
        );
        element.children = kids;
        let ghost tr = VisitTrace::Step(view_element(*old(element)), sub);
        proof {
            assert(visit_node_tr(
                NodeView::Element(view_element(*old(element))),
                NodeView::Element(view_element(*final(element))),
                *selector,
                visitor_rel(*f),
                tr,
            ));
        }
    }
}

} // verus!
