//! The editing operations: `trim`, `insert_to` and `remove_by`, each
//! implemented once for a sequence of sibling nodes and once for a single
//! element subtree, and proved against the spec functions of `ops`.

use vstd::prelude::*;

use crate::dom::Element;
use crate::dom::ElementView;
use crate::dom::Node;
use crate::dom::NodeView;
use crate::dom::clone_attrs;
use crate::dom::elems_nodes;
use crate::dom::lemma_size_nodes_index;
use crate::dom::lemma_view_nodes_push;
use crate::dom::size_nodes;
use crate::dom::view_element;
use crate::dom::view_node;
use crate::dom::view_nodes;
use crate::ops::insert_one;
use crate::ops::insert_seq;
use crate::ops::lemma_insert_seq_push;
use crate::ops::lemma_remove_seq_push;
use crate::ops::lemma_trim_seq_push;
use crate::ops::remove_one;
use crate::ops::remove_seq;
use crate::ops::rep_level;
use crate::ops::trim_one;
use crate::ops::trim_seq;
use crate::replace::replace_vec;
use crate::replace::transform_err;
use crate::replace::transform_rel;
use crate::selector::Selector;
use crate::selector::el_matches;
use crate::text::str_is_blank;
use crate::error::Error;
use crate::visit::VisitTrace;
use crate::visit::element_execute_for_internal;
use crate::visit::nodes_execute_for_internal;
use crate::visit::visit_level_tr;
use crate::visit::visit_node_tr;
use crate::visit::visitor_rel;

verus! {

/// Insert and remove elements by [`Selector`], and trim the tree.
pub trait Editable: Sized {
    /// Remove, at every nesting level, every comment node and every text
    /// node whose content is blank; keep everything else in order.
    fn trim(&mut self) -> (r: &mut Self);

    /// Append a copy of `target` as the last child of every element whose
    /// shape (name and attributes, children disregarded) matches
    /// `selector`, nested matches first.
    fn insert_to(&mut self, selector: &Selector, target: Node) -> (r: &mut Self);

    /// Delete every element whose shape matches `selector`, together with
    /// its entire subtree.
    fn remove_by(&mut self, selector: &Selector) -> (r: &mut Self);

    /// Replace every element of the scanned level whose true value matches
    /// `selector` by the node the transform returns for it. A transform
    /// failure on the scanned level aborts the call and is returned: nodes
    /// already replaced stay replaced, the failing node and everything
    /// after it stay unchanged. A failure inside a nested call on a
    /// non-matching element's children is discarded.
    fn replace_with<F: Fn(&Element) -> Result<Node, Error>>(
        &mut self,
        selector: &Selector,
        f: F,
    ) -> (res: Result<(), Error>)
        requires
            forall|el: Element| call_requires(f, (&el,)),
    ;

    /// Visit every element, at every depth, whose true value matches
    /// `selector`, replacing it by what the visitor returns for it and
    /// then descending into the returned element's children; elements
    /// that do not match are never visited. The visitor must accept every
    /// element, and may reshape it freely — add or drop text, comments,
    /// attributes — as long as it does not increase the number of
    /// elements in the subtree it returns: the traversal descends into
    /// the visitor's own output, so ever-growing element content would
    /// never let it end.
    fn execute_for<F: Fn(&Element) -> Element>(&mut self, selector: &Selector, f: F)
        requires
            forall|el: Element| call_requires(f, (&el,)),
            forall|x: Element, y: Element|
                call_ensures(f, (&x,), y) ==> elems_nodes(y.children@) <= elems_nodes(x.children@),
    ;
}

/// The trimmed copy of a sequence of sibling nodes.
#[verifier::loop_isolation(false)]
pub fn trim_vec(s: &Vec<Node>) -> (r: Vec<Node>)
    ensures
        view_nodes(r@) == trim_seq(view_nodes(s@)),
    decreases size_nodes(s@), 1nat,
{
    let mut r: Vec<Node> = Vec::new();
    let n = s.len();
    for i in 0..n
        invariant
            view_nodes(r@) == trim_seq(view_nodes(s@.take(i as int))),
        decreases n - i,
    {
        proof {
            lemma_size_nodes_index(s@, i as int);
            assert(s@.take(i + 1) =~= s@.take(i as int).push(s@[i as int]));
            lemma_view_nodes_push(s@.take(i as int), s@[i as int]);
            lemma_trim_seq_push(view_nodes(s@.take(i as int)), view_node(s@[i as int]));
        }
        let ghost r0 = r@;
        let ghost prev = trim_seq(view_nodes(s@.take(i as int)));
        match &s[i] {
            Node::Doctype(t) => {
                r.push(Node::Doctype(t.clone()));
                proof {
                    lemma_view_nodes_push(r0, Node::Doctype(*t));
                    assert(prev.push(view_node(s@[i as int])) =~= prev + trim_one(
                        view_node(s@[i as int]),
                    ));
                }
            },
            Node::Comment(_) => {
                proof {
                    assert(prev + trim_one(view_node(s@[i as int])) =~= prev);
                }
            },
            Node::Text(t) => {
                if !str_is_blank(t.as_str()) {
                    r.push(Node::Text(t.clone()));
                    proof {
                        lemma_view_nodes_push(r0, Node::Text(*t));
                        assert(prev.push(view_node(s@[i as int])) =~= prev + trim_one(
                            view_node(s@[i as int]),
                        ));
                    }
                } else {
                    proof {
                        assert(prev + trim_one(view_node(s@[i as int])) =~= prev);
                    }
                }
            },
            Node::Element(e) => {
                let kids = trim_vec(&e.children);
                let el2 = Element {
                    name: e.name.clone(),
                    attrs: clone_attrs(&e.attrs),
                    children: kids,
                };
                proof {
                    assert(view_element(el2) == (ElementView {
                        children: trim_seq(view_element(*e).children),
                        ..view_element(*e)
                    }));
                }
                r.push(Node::Element(el2));
                proof {
                    lemma_view_nodes_push(r0, Node::Element(el2));
                    assert(prev.push(view_node(Node::Element(el2))) =~= prev + trim_one(
                        view_node(s@[i as int]),
                    ));
                }
            },
        }
    }
    proof {
        assert(s@.take(n as int) =~= s@);
    }
    r
}

/// The copy of a sequence of sibling nodes in which every element whose
/// shape matches `sel` has received an independent copy of `target` as
/// its last child, nested matches first.
#[verifier::loop_isolation(false)]
pub fn insert_vec(s: &Vec<Node>, sel: &Selector, target: &Node) -> (r: Vec<Node>)
    ensures
        view_nodes(r@) == insert_seq(view_nodes(s@), *sel, view_node(*target)),
    decreases size_nodes(s@), 1nat,
{
    let ghost tv = view_node(*target);
    let mut r: Vec<Node> = Vec::new();
    let n = s.len();
    for i in 0..n
        invariant
            view_nodes(r@) == insert_seq(view_nodes(s@.take(i as int)), *sel, tv),
        decreases n - i,
    {
        proof {
            lemma_size_nodes_index(s@, i as int);
            assert(s@.take(i + 1) =~= s@.take(i as int).push(s@[i as int]));
            lemma_view_nodes_push(s@.take(i as int), s@[i as int]);
            lemma_insert_seq_push(view_nodes(s@.take(i as int)), view_node(s@[i as int]), *sel, tv);
        }
        let ghost r0 = r@;
        match &s[i] {
            Node::Element(e) => {
                let mut kids = insert_vec(&e.children, sel, target);
                if sel.matches_shape(e) {
                    let c = target.deep_clone();
                    proof {
                        lemma_view_nodes_push(kids@, c);
                    }
                    kids.push(c);
                }
                let el2 = Element {
                    name: e.name.clone(),
                    attrs: clone_attrs(&e.attrs),
                    children: kids,
                };
                proof {
                    if crate::selector::el_matches(*sel, view_element(*e)) {
                        assert(view_nodes(el2.children@) == insert_seq(
                            view_element(*e).children,
                            *sel,
                            tv,
                        ).push(tv));
                    }
                    assert(view_node(Node::Element(el2)) == insert_one(
                        view_node(s@[i as int]),
                        *sel,
                        tv,
                    ));
                }
                r.push(Node::Element(el2));
                proof {
                    lemma_view_nodes_push(r0, Node::Element(el2));
                }
            },
            other => {
                let c = other.deep_clone();
                proof {
                    assert(view_node(c) == insert_one(view_node(s@[i as int]), *sel, tv));
                }
                r.push(c);
                proof {
                    lemma_view_nodes_push(r0, c);
                }
            },
        }
    }
    proof {
        assert(s@.take(n as int) =~= s@);
    }
    r
}

/// The copy of a sequence of sibling nodes from which every element whose
/// shape matches `sel` has been deleted together with its subtree.
#[verifier::loop_isolation(false)]
pub fn remove_vec(s: &Vec<Node>, sel: &Selector) -> (r: Vec<Node>)
    ensures
        view_nodes(r@) == remove_seq(view_nodes(s@), *sel),
    decreases size_nodes(s@), 1nat,
{
    let mut r: Vec<Node> = Vec::new();
    let n = s.len();
    for i in 0..n
        invariant
            view_nodes(r@) == remove_seq(view_nodes(s@.take(i as int)), *sel),
        decreases n - i,
    {
        proof {
            lemma_size_nodes_index(s@, i as int);
            assert(s@.take(i + 1) =~= s@.take(i as int).push(s@[i as int]));
            lemma_view_nodes_push(s@.take(i as int), s@[i as int]);
            lemma_remove_seq_push(view_nodes(s@.take(i as int)), view_node(s@[i as int]), *sel);
        }
        let ghost r0 = r@;
        let ghost prev = remove_seq(view_nodes(s@.take(i as int)), *sel);
        match &s[i] {
            Node::Element(e) => {
                if !sel.matches_shape(e) {
                    let kids = remove_vec(&e.children, sel);
                    let el2 = Element {
                        name: e.name.clone(),
                        attrs: clone_attrs(&e.attrs),
                        children: kids,
                    };
                    proof {
                        assert(view_element(el2) == (ElementView {
                            children: remove_seq(view_element(*e).children, *sel),
                            ..view_element(*e)
                        }));
                    }
                    r.push(Node::Element(el2));
                    proof {
                        lemma_view_nodes_push(r0, Node::Element(el2));
                        assert(prev.push(view_node(Node::Element(el2))) =~= prev + remove_one(
                            view_node(s@[i as int]),
                            *sel,
                        ));
                    }
                } else {
                    proof {
                        assert(prev + remove_one(view_node(s@[i as int]), *sel) =~= prev);
                    }
                }
            },
            other => {
                let c = other.deep_clone();
                r.push(c);
                proof {
                    lemma_view_nodes_push(r0, c);
                    assert(prev.push(view_node(c)) =~= prev + remove_one(
                        view_node(s@[i as int]),
                        *sel,
                    ));
                }
            },
        }
    }
    proof {
        assert(s@.take(n as int) =~= s@);
    }
    r
}

impl Editable for Vec<Node> {
    fn trim(&mut self) -> (r: &mut Self)
        ensures
            view_nodes(r@) == trim_seq(view_nodes(old(self)@)),
            *final(self) == *final(r),
    {
        let t = trim_vec(self);
        *self = t;
        self
    }

    fn insert_to(&mut self, selector: &Selector, target: Node) -> (r: &mut Self)
        ensures
            view_nodes(r@) == insert_seq(view_nodes(old(self)@), *selector, view_node(target)),
            *final(self) == *final(r),
    {
        let t = insert_vec(self, selector, &target);
        *self = t;
        self
    }

    fn remove_by(&mut self, selector: &Selector) -> (r: &mut Self)
        ensures
            view_nodes(r@) == remove_seq(view_nodes(old(self)@), *selector),
            *final(self) == *final(r),
    {
        let t = remove_vec(self, selector);
        *self = t;
        self
    }

    fn replace_with<F: Fn(&Element) -> Result<Node, Error>>(
        &mut self,
        selector: &Selector,
        f: F,
    ) -> (res: Result<(), Error>)
        ensures
            res is Ok ==> rep_level(
                view_nodes(old(self)@),
                view_nodes(final(self)@),
                *selector,
                transform_rel(f),
                old(self)@.len() as int,
            ),
            res matches Err(er) ==> exists|k: int|
                {
                    &&& 0 <= k < old(self)@.len()
                    &&& #[trigger] rep_level(
                        view_nodes(old(self)@),
                        view_nodes(final(self)@),
                        *selector,
                        transform_rel(f),
                        k,
                    )
                    &&& view_nodes(old(self)@)[k] matches NodeView::Element(ev)
                    &&& el_matches(*selector, view_nodes(old(self)@)[k]->Element_0)
                    &&& transform_err(f, view_nodes(old(self)@)[k]->Element_0, er)
                },
    {
        let rr = replace_vec(self, selector, &f);
        let out = rr.0;
        *self = out;
        match rr.1 {
            None => Ok(()),
            Some(er) => {
                proof {
                    let k0 = choose|k: int|
                        {
                            &&& 0 <= k < old(self)@.len()
                            &&& #[trigger] rep_level(
                                view_nodes(old(self)@),
                                view_nodes(out@),
                                *selector,
                                transform_rel(f),
                                k,
                            )
                            &&& view_nodes(old(self)@)[k] matches NodeView::Element(ev)
                            &&& el_matches(*selector, view_nodes(old(self)@)[k]->Element_0)
                            &&& transform_err(f, view_nodes(old(self)@)[k]->Element_0, er)
                        };
                    assert(rep_level(
                        view_nodes(old(self)@),
                        view_nodes(final(self)@),
                        *selector,
                        transform_rel(f),
                        k0,
                    ));
                }
                Err(er)
            },
        }
    }

    fn execute_for<F: Fn(&Element) -> Element>(&mut self, selector: &Selector, f: F)
        ensures
            exists|trs: Seq<VisitTrace>| visit_level_tr(
                view_nodes(old(self)@),
                view_nodes(final(self)@),
                *selector,
                visitor_rel(f),
                trs,
            ),
    {
        nodes_execute_for_internal(self, selector, &f);
    }
}

impl Editable for Element {
    fn trim(&mut self) -> (r: &mut Self)
        ensures
            view_element(*r) == (ElementView {
                children: trim_seq(view_element(*old(self)).children),
                ..view_element(*old(self))
            }),
            *final(self) == *final(r),
    {
        let kids = trim_vec(&self.children);
        self.children = kids;
        self
    }

    fn insert_to(&mut self, selector: &Selector, target: Node) -> (r: &mut Self)
        ensures
            NodeView::Element(view_element(*r)) == insert_one(
                NodeView::Element(view_element(*old(self))),
                *selector,
                view_node(target),
            ),
            *final(self) == *final(r),
    {
        let kids = insert_vec(&self.children, selector, &target);
        self.children = kids;
        if selector.matches_shape(self) {
            proof {
                lemma_view_nodes_push(self.children@, target);
            }
            self.children.push(target);
        }
        self
    }

    fn remove_by(&mut self, selector: &Selector) -> (r: &mut Self)
        ensures
            view_element(*r) == (ElementView {
                children: remove_seq(view_element(*old(self)).children, *selector),
                ..view_element(*old(self))
            }),
            *final(self) == *final(r),
    {
        let kids = remove_vec(&self.children, selector);
        self.children = kids;
        self
    }

    fn replace_with<F: Fn(&Element) -> Result<Node, Error>>(
        &mut self,
        selector: &Selector,
        f: F,
    ) -> (res: Result<(), Error>)
        ensures
            final(self).name@ == old(self).name@,
            view_element(*final(self)).attrs == view_element(*old(self)).attrs,
            res is Ok ==> rep_level(
                view_element(*old(self)).children,
                view_element(*final(self)).children,
                *selector,
                transform_rel(f),
                old(self).children@.len() as int,
            ),
            res matches Err(er) ==> exists|k: int|
                {
                    &&& 0 <= k < old(self).children@.len()
                    &&& #[trigger] rep_level(
                        view_element(*old(self)).children,
                        view_element(*final(self)).children,
                        *selector,
                        transform_rel(f),
                        k,
                    )
                    &&& view_element(*old(self)).children[k] matches NodeView::Element(ev)
                    &&& el_matches(*selector, view_element(*old(self)).children[k]->Element_0)
                    &&& transform_err(f, view_element(*old(self)).children[k]->Element_0, er)
                },
    {
        let rr = replace_vec(&self.children, selector, &f);
        let out = rr.0;
        self.children = out;
        match rr.1 {
            None => Ok(()),
            Some(er) => {
                proof {
                    let k0 = choose|k: int|
                        {
                            &&& 0 <= k < old(self).children@.len()
                            &&& #[trigger] rep_level(
                                view_element(*old(self)).children,
                                view_nodes(out@),
                                *selector,
                                transform_rel(f),
                                k,
                            )
                            &&& view_element(*old(self)).children[k] matches NodeView::Element(ev)
                            &&& el_matches(
                                *selector,
                                view_element(*old(self)).children[k]->Element_0,
                            )
                            &&& transform_err(
                                f,
                                view_element(*old(self)).children[k]->Element_0,
                                er,
                            )
                        };
                    assert(rep_level(
                        view_element(*old(self)).children,
                        view_element(*final(self)).children,
                        *selector,
                        transform_rel(f),
                        k0,
                    ));
                }
                Err(er)
            },
        }
    }

    fn execute_for<F: Fn(&Element) -> Element>(&mut self, selector: &Selector, f: F)
        ensures
            exists|tr: VisitTrace| visit_node_tr(
                NodeView::Element(view_element(*old(self))),
                NodeView::Element(view_element(*final(self))),
                *selector,
                visitor_rel(f),
                tr,
            ),
    {
        element_execute_for_internal(self, selector, &f);
    }
}

} // verus!
