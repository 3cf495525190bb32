//! The input alphabet: `'0'`, `'1'` and one character for a missing value.

use crate::text::{decimal, push_decimal};
use std::str::Chars;
use vstd::prelude::*;
use vstd::std_specs::iter::IteratorSpec;
use vstd::string::StringExecFns;

verus! {

/// Whether `c` may occur in the text of a sample whose missing values are
/// written as `na_char`.
pub open spec fn accepted(c: char, na_char: char) -> bool {
    c == '0' || c == '1' || c == na_char
}

/// What an accepted character stands for: `'0'` and `'1'` are observed
/// values, anything else is a missing one.
pub open spec fn observation(c: char) -> Option<bool> {
    if c == '0' {
        Some(false)
    } else if c == '1' {
        Some(true)
    } else {
        None
    }
}

/// The sample that a text of accepted characters stands for.
pub open spec fn observations(text: Seq<char>) -> Seq<Option<bool>> {
    Seq::new(text.len(), |i: int| observation(text[i]))
}

/// Every character of `text` is accepted.
pub open spec fn all_accepted(text: Seq<char>, na_char: char) -> bool {
    forall|i: int| 0 <= i < text.len() ==> accepted(#[trigger] text[i], na_char)
}

/// The observation that the character `c` stands for.
pub fn read_symbol(c: char) -> (r: Option<bool>)
    ensures
        r == observation(c),
{
    if c == '0' {
        Some(false)
    } else if c == '1' {
        Some(true)
    } else {
        None
    }
}

/// A character that is none of `'0'`, `'1'` and the missing marker.
#[derive(Debug, Clone, Copy, PartialEq, Eq, Structural)]
pub struct FormatError {
    /// Where the character stands, counted from one.
    pub position: usize,
    /// The character found there.
    pub found: char,
    /// The missing marker that was in force.
    pub na_char: char,
}

impl FormatError {
    /// Whether this error reports the first character of `text` that is
    /// not accepted.
    pub open spec fn reports(&self, text: Seq<char>, na_char: char) -> bool {
        &&& 1 <= self.position <= text.len()
        &&& all_accepted(text.take(self.position - 1), na_char)
        &&& !accepted(text[self.position - 1], na_char)
        &&& self.found == text[self.position - 1]
        &&& self.na_char == na_char
    }

    /// The wording of the error.
    pub open spec fn message_text(&self) -> Seq<char> {
        "Char at position "@ + decimal(self.position as nat) + " was '"@.push(self.found)
            + "'; expected '0', '1' or '"@.push(self.na_char) + "'."@
    }

    /// The error in words, naming the position, the character and what was
    /// expected in its place.
    pub fn message(&self) -> (m: String)
        ensures
            m@ == self.message_text(),
    {
        let mut m = String::from_str("Char at position ");
        push_decimal(&mut m, self.position);
        m.append(" was '");
        m.push(self.found);
        m.append("'; expected '0', '1' or '");
        m.push(self.na_char);
        m.append("'.");
        proof {
            assert(m@ =~= self.message_text());
        }
        m
    }
}

/// Looks for the first character of `text` that is not accepted.
pub fn check_text(text: &str, na_char: char) -> (r: Option<FormatError>)
    ensures
        match r {
            None => all_accepted(text@, na_char),
            Some(e) => e.reports(text@, na_char),
        },
{
    let size = text.unicode_len();
    let mut chars = text.chars();
    let mut i: usize = 0;
    loop
        invariant
            size == text@.len(),
            i <= size,
            chars.remaining() == text@.skip(i as int),
            all_accepted(text@.take(i as int), na_char),
        decreases text@.len() - i,
    {
        match chars.next() {
            None => {
                proof {
                    assert(text@.take(i as int) =~= text@);
                }
                return None;
            },
            Some(c) => {
                proof {
                    assert(c == text@[i as int]);
                    assert(text@.skip(i as int).drop_first() =~= text@.skip(i + 1));
                }
                if !(c == '0' || c == '1' || c == na_char) {
                    return Some(FormatError { position: i + 1, found: c, na_char });
                }
                proof {
                    assert forall|j: int| 0 <= j < i + 1 implies accepted(
                        #[trigger] text@.take(i + 1)[j],
                        na_char,
                    ) by {
                        if j < i {
                            assert(text@.take(i as int)[j] == text@[j]);
                        }
                    }
                }
                i = i + 1;
            },
        }
    }
}

} // verus!
