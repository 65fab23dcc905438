//! `replace_with`: replace every element of the scanned level whose true
//! value matches the selector by what the transform returns for it. A
//! transform failure on the scanned level aborts the call at once and is
//! handed to the caller: nodes already replaced stay replaced, the failing
//! node and everything after it stay unchanged. A failure inside a nested
//! call on a non-matching element's children is discarded — the
//! documented, if debatable, propagation rule.

use vstd::prelude::*;

use crate::dom::Element;
use crate::dom::ElementView;
use crate::dom::Node;
use crate::dom::NodeView;
use crate::dom::clone_attrs;
use crate::dom::clone_range;
use crate::dom::lemma_size_nodes_index;
use crate::dom::lemma_view_nodes;
use crate::dom::lemma_view_nodes_concat;
use crate::dom::lemma_view_nodes_push;
use crate::dom::size_nodes;
use crate::dom::view_element;
use crate::dom::view_node;
use crate::dom::view_nodes;
use crate::error::Error;
use crate::ops::lemma_rep_children_of_level;
use crate::ops::lemma_rep_level_step;
use crate::ops::lemma_rep_level_stop;
use crate::ops::rep_level;
use crate::ops::rep_node;
use crate::selector::Selector;
use crate::selector::el_matches;

verus! {

/// The transform may turn the element imaged by `e` into the node imaged
/// by `n`, that is, `Ok` with that node is a possible return of `f` on
/// some element with that image.
pub open spec fn transform_ok<F: Fn(&Element) -> Result<Node, Error>>(
    f: F,
    e: ElementView,
    n: NodeView,
) -> bool {
    exists|el: Element, nd: Node|
        view_element(el) == e && view_node(nd) == n && call_ensures(f, (&el,), Ok(nd))
}

/// The transform may fail on some element imaged by `e` with the error
/// `er`.
pub open spec fn transform_err<F: Fn(&Element) -> Result<Node, Error>>(
    f: F,
    e: ElementView,
    er: Error,
) -> bool {
    exists|el: Element| view_element(el) == e && call_ensures(f, (&el,), Err(er))
}

/// `transform_ok` as the relation the `rep_*` spec functions take.
pub open spec fn transform_rel<F: Fn(&Element) -> Result<Node, Error>>(f: F) -> spec_fn(
    ElementView,
    NodeView,
) -> bool {
    |e: ElementView, n: NodeView| transform_ok(f, e, n)
}

/// The scanned level after `replace_with`: on success, every node was
/// processed; on failure at position `k`, the first `k` were processed,
/// the failing matched element and everything after it are unchanged.
#[verifier::loop_isolation(false)]
pub fn replace_vec<F: Fn(&Element) -> Result<Node, Error>>(
    s: &Vec<Node>,
    sel: &Selector,
    f: &F,
) -> (res: (Vec<Node>, Option<Error>))
    requires
        forall|el: Element| call_requires(*f, (&el,)),
    ensures
        res.1 is None ==> rep_level(
            view_nodes(s@),
            view_nodes(res.0@),
            *sel,
            transform_rel(*f),
            s@.len() as int,
        ),
        res.1 matches Some(er) ==> exists|k: int|
            {
                &&& 0 <= k < s@.len()
                &&& #[trigger] rep_level(view_nodes(s@), view_nodes(res.0@), *sel, transform_rel(*f), k)
                &&& view_nodes(s@)[k] matches NodeView::Element(ev)
                &&& el_matches(*sel, view_nodes(s@)[k]->Element_0)
                &&& transform_err(*f, view_nodes(s@)[k]->Element_0, er)
            },
    decreases size_nodes(s@), 1nat,
{
    let ghost av = view_nodes(s@);
    let ghost tf = transform_rel(*f);
    proof {
        lemma_view_nodes(s@);
    }
    let mut r: Vec<Node> = Vec::new();
    let n = s.len();
    for i in 0..n
        invariant
            view_nodes(r@).len() == i,
            rep_level(av.take(i as int), view_nodes(r@), *sel, tf, i as int),
        decreases n - i,
    {
        proof {
            lemma_size_nodes_index(s@, i as int);
        }
        let ghost r0 = view_nodes(r@);
        match &s[i] {
            Node::Element(e) => {
                if sel.matches(e) {
                    match f(e) {
                        Ok(nd) => {
                            proof {
                                assert(call_ensures(*f, (e,), Ok(nd)));
                                assert(transform_ok(*f, view_element(*e), view_node(nd)));
                                lemma_rep_level_step(
                                    av.take(i as int),
                                    r0,
                                    *sel,
                                    tf,
                                    i as int,
                                    av[i as int],
                                    view_node(nd),
                                );
                                assert(av.take(i as int).push(av[i as int]) =~= av.take(i + 1));
                                lemma_view_nodes_push(r@, nd);
                            }
                            r.push(nd);
                        },
                        Err(er) => {
                            let mut rest = clone_range(s, i);
                            proof {
                                lemma_view_nodes_concat(r@, rest@);
                            }
                            let ghost rv = view_nodes(r@);
                            r.append(&mut rest);
                            proof {
                                lemma_view_nodes(s@);
                                assert(view_nodes(r@) =~= rv + av.skip(i as int));
                                lemma_rep_level_stop(av, rv, *sel, tf, i as int);
                                assert(rep_level(
                                    view_nodes(s@),
                                    view_nodes(r@),
                                    *sel,
                                    transform_rel(*f),
                                    i as int,
                                ));
                                assert(av[i as int] == NodeView::Element(view_element(*e)));
                                assert(view_nodes(s@)[i as int]->Element_0 == view_element(*e));
                                assert(el_matches(*sel, view_nodes(s@)[i as int]->Element_0));
                                assert(transform_err(
                                    *f,
                                    view_nodes(s@)[i as int]->Element_0,
                                    er,
                                ));
                            }
                            let rr = (r, Some(er));
                            proof {
                                assert(rr.1 == Some(er) && rr.0@ == r@);
                                assert(exists|k: int|
                                    {
                                        &&& 0 <= k < s@.len()
                                        &&& #[trigger] rep_level(
                                            view_nodes(s@),
                                            view_nodes(rr.0@),
                                            *sel,
                                            transform_rel(*f),
                                            k,
                                        )
                                        &&& view_nodes(s@)[k] matches NodeView::Element(ev)
                                        &&& el_matches(*sel, view_nodes(s@)[k]->Element_0)
                                        &&& transform_err(*f, view_nodes(s@)[k]->Element_0, er)
                                    });
                            }
                            return rr;
                        },
                    }
                } else {
                    let sub = replace_vec(&e.children, sel, f);
                    let kids = sub.0;
                    let el2 = Element {
                        name: e.name.clone(),
                        attrs: clone_attrs(&e.attrs),
                        children: kids,
                    };
                    proof {
                        let cv = view_nodes(e.children@);
                        let kv = view_nodes(el2.children@);
                        lemma_view_nodes(e.children@);
                        assert(kv == view_nodes(sub.0@));
                        if sub.1 is None {
                            lemma_rep_children_of_level(cv, kv, *sel, tf, cv.len() as int);
                        } else {
                            let k0 = choose|k: int|
                                0 <= k < e.children@.len() && rep_level(
                                    view_nodes(e.children@),
                                    view_nodes(sub.0@),
                                    *sel,
                                    transform_rel(*f),
                                    k,
                                );
                            lemma_rep_children_of_level(cv, kv, *sel, tf, k0);
                        }
                        assert(rep_node(av[i as int], view_node(Node::Element(el2)), *sel, tf));
                        lemma_rep_level_step(
                            av.take(i as int),
                            r0,
                            *sel,
                            tf,
                            i as int,
                            av[i as int],
                            view_node(Node::Element(el2)),
                        );
                        assert(av.take(i as int).push(av[i as int]) =~= av.take(i + 1));
                        lemma_view_nodes_push(r@, Node::Element(el2));
                    }
                    r.push(Node::Element(el2));
                }
            },
            other => {
                let c = other.deep_clone();
                proof {
                    assert(rep_node(av[i as int], view_node(c), *sel, tf));
                    lemma_rep_level_step(
                        av.take(i as int),
                        r0,
                        *sel,
                        tf,
                        i as int,
                        av[i as int],
                        view_node(c),
                    );
                    assert(av.take(i as int).push(av[i as int]) =~= av.take(i + 1));
                    lemma_view_nodes_push(r@, c);
                }
                r.push(c);
            },
        }
    }
    proof {
        assert(av.take(n as int) =~= av);
    }
    (r, None)
}

} // verus!
