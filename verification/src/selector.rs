//! The predicate elements are matched against: a pure, side-effect-free
//! function of an element's name and attributes alone.
//!
//! Because a selector never reads an element's children, matching an
//! element "by shape" (children disregarded) and "by true value" coincide
//! here; the operations still document which of the two they evaluate.

use vstd::prelude::*;

use crate::dom::Element;
use crate::dom::ElementView;
use crate::dom::view_element;

verus! {

/// A predicate over a single element.
#[derive(Debug, Clone, PartialEq)]
pub enum Selector {
    /// Matches every element with exactly this tag name.
    Tag(String),
    /// Matches every element carrying an attribute with exactly this key
    /// and this value.
    Attr(String, String),
}

/// What a selector means on the image of an element: a pure function of
/// the element's name and attributes; children are disregarded, so this is
/// at once the shape match and the true-value match.
pub open spec fn el_matches(sel: Selector, e: ElementView) -> bool {
    match sel {
        Selector::Tag(t) => e.name == t@,
        Selector::Attr(k, v) => exists|i: int|
            0 <= i < e.attrs.len() && e.attrs[i] == (k@, v@),
    }
}

impl Selector {
    /// Decides whether `el` is matched, evaluated on the element's true
    /// value.
    #[verifier::loop_isolation(false)]
    pub fn matches(&self, el: &Element) -> (r: bool)
        ensures
            r == el_matches(*self, view_element(*el)),
    {
        match self {
            Selector::Tag(t) => *t == el.name,
            Selector::Attr(k, v) => {
                let n = el.attrs.len();
                let ghost ev = view_element(*el);
                for j in 0..n
                    invariant
                        n == el.attrs.len(),
                        ev == view_element(*el),
                        ev.attrs.len() == n,
                        forall|i: int| 0 <= i < n ==> ev.attrs[i] == (el.attrs@[i].0@, el.attrs@[i].1@),
                        forall|i: int| 0 <= i < j ==> ev.attrs[i] != (k@, v@),
                {
                    let a = &el.attrs[j];
                    if a.0 == *k && a.1 == *v {
                        proof {
                            assert(ev.attrs[j as int] == (k@, v@));
                        }
                        return true;
                    }
                }
                false
            },
        }
    }

    /// Decides whether `el` is matched by shape: the predicate is evaluated
    /// as if the element's children were empty. A selector never reads the
    /// children, so this agrees with `matches`; operations that make
    /// structural edits call this entry point to make the rule visible.
    pub fn matches_shape(&self, el: &Element) -> (r: bool)
        ensures
            r == el_matches(
                *self,
                ElementView { children: Seq::empty(), ..view_element(*el) },
            ),
            r == el_matches(*self, view_element(*el)),
    {
        proof {
            let ev = view_element(*el);
            let shaped = (ElementView { children: Seq::empty(), ..ev });
            assert(el_matches(*self, shaped) == el_matches(*self, ev)) by {
                match *self {
                    Selector::Tag(t) => {},
                    Selector::Attr(k, v) => {
                        assert(shaped.attrs == ev.attrs);
                    },
                }
            }
        }
        self.matches(el)
    }
}

} // verus!
