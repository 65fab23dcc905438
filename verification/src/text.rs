//! The whitespace rule behind `trim`: a text node is removed exactly when
//! its content is blank, that is, empty once surrounding whitespace is
//! stripped. Whitespace is the Unicode White_Space set, the one
//! `str::trim` strips: the ASCII whitespace characters together with
//! next line, no-break space, ogham space mark, the en-quad-to-hair-space
//! range, line separator, paragraph separator, narrow no-break space,
//! medium mathematical space and ideographic space.

use vstd::prelude::*;

verus! {

use vstd::std_specs::iter::IteratorSpec;

/// Whether `c` has the Unicode White_Space property.
pub open spec fn is_space(c: char) -> bool {
    ||| c == '\u{0009}'
    ||| c == '\u{000A}'
    ||| c == '\u{000B}'
    ||| c == '\u{000C}'
    ||| c == '\u{000D}'
    ||| c == '\u{0020}'
    ||| c == '\u{0085}'
    ||| c == '\u{00A0}'
    ||| c == '\u{1680}'
    ||| c == '\u{2000}'
    ||| c == '\u{2001}'
    ||| c == '\u{2002}'
    ||| c == '\u{2003}'
    ||| c == '\u{2004}'
    ||| c == '\u{2005}'
    ||| c == '\u{2006}'
    ||| c == '\u{2007}'
    ||| c == '\u{2008}'
    ||| c == '\u{2009}'
    ||| c == '\u{200A}'
    ||| c == '\u{2028}'
    ||| c == '\u{2029}'
    ||| c == '\u{202F}'
    ||| c == '\u{205F}'
    ||| c == '\u{3000}'
}

/// Whether a text content is blank: stripping surrounding whitespace
/// leaves it empty, which is to say every character is whitespace.
pub open spec fn is_blank(t: Seq<char>) -> bool {
    forall|i: int| 0 <= i < t.len() ==> is_space(t[i])
}

/// Whether `c` has the Unicode White_Space property.
pub fn is_space_char(c: char) -> (r: bool)
    ensures
        r == is_space(c),
{
    c == '\u{0009}' || c == '\u{000A}' || c == '\u{000B}' || c == '\u{000C}' || c == '\u{000D}'
        || c == '\u{0020}' || c == '\u{0085}' || c == '\u{00A0}' || c == '\u{1680}'
        || c == '\u{2000}' || c == '\u{2001}' || c == '\u{2002}' || c == '\u{2003}'
        || c == '\u{2004}' || c == '\u{2005}' || c == '\u{2006}' || c == '\u{2007}'
        || c == '\u{2008}' || c == '\u{2009}' || c == '\u{200A}' || c == '\u{2028}'
        || c == '\u{2029}' || c == '\u{202F}' || c == '\u{205F}' || c == '\u{3000}'
}

/// Whether the content of `s` is blank.
#[verifier::loop_isolation(false)]
pub fn str_is_blank(s: &str) -> (r: bool)
    ensures
        r == is_blank(s@),
{
    broadcast use vstd::string::axiom_spec_iter;
    broadcast use vstd::string::next_postcondition;

    let ghost all = s@;
    let ghost mut k: int = 0;
    let mut it = s.chars();
    loop
        invariant
            0 <= k <= all.len(),
            it.remaining() == all.skip(k),
            forall|j: int| 0 <= j < k ==> is_space(all[j]),
        decreases all.len() - k,
    {
        match it.next() {
            Some(c) => {
                if !is_space_char(c) {
                    proof {
                        assert(all[k] == c);
                    }
                    return false;
                }
                proof {
                    assert(all.skip(k).drop_first() =~= all.skip(k + 1));
                    k = k + 1;
                }
            },
            None => {
                proof {
                    assert(all.skip(k).len() == 0);
                    assert(k == all.len());
                }
                return true;
            },
        }
    }
}

} // verus!
