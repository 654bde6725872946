//! Cutting a string into words and single spaces.

use vstd::prelude::*;
use crate::text::{chars_of, string_of};

verus! {

/// The position of the first space of `s` from `from` on, or the length of
/// `s` if there is none.
pub open spec fn first_space(s: Seq<char>, from: int) -> int
    decreases s.len() - from,
{
    if from < s.len() && s[from] != ' ' {
        first_space(s, from + 1)
    } else {
        from
    }
}

/// The first piece of a string that is not empty: a single space if it
/// begins with one, or else all that comes before its first space.
pub open spec fn first_piece(s: Seq<char>) -> Seq<char> {
    if s[0] == ' ' {
        seq![' ']
    } else {
        s.subrange(0, first_space(s, 0))
    }
}

/// Where `first_space` ends.
pub proof fn lemma_first_space(s: Seq<char>, from: int)
    requires
        0 <= from <= s.len(),
    ensures
        from <= first_space(s, from) <= s.len(),
        first_space(s, from) < s.len() ==> s[first_space(s, from)] == ' ',
        forall|i: int| from <= i < first_space(s, from) ==> #[trigger] s[i] != ' ',
    decreases s.len() - from,
{
    if from < s.len() && s[from] != ' ' {
        lemma_first_space(s, from + 1);
    }
}

/// The pieces of a string, from left to right.
pub struct Words {
    chars: Vec<char>,
    at: usize,
}

impl Words {
    /// What is left of the string.
    pub closed spec fn remaining(&self) -> Seq<char> {
        self.chars@.subrange(self.at as int, self.chars@.len() as int)
    }

    /// The position in the string is within it.
    pub closed spec fn wf(&self) -> bool {
        self.at <= self.chars@.len()
    }

    /// Takes the next piece off what is left: nothing if nothing is left, a
    /// single space if a space comes next, or else the word up to the next
    /// space.
    pub fn next(&mut self) -> (r: Option<String>)
        requires
            old(self).wf(),
        ensures
            final(self).wf(),
            r is None <==> old(self).remaining().len() == 0,
            r is None ==> final(self).remaining() == old(self).remaining(),
            r is Some ==> r->0@ == first_piece(old(self).remaining()) && r->0@.len() > 0
                && final(self).remaining() == old(self).remaining().skip(r->0@.len() as int),
    {
        let n: usize = self.chars.len();
        if self.at >= n {
            return None;
        }
        let start: usize = self.at;
        let ghost rest = self.remaining();
        let mut end: usize = start;
        if self.chars[start] == ' ' {
            end = start + 1;
        } else {
            proof {
                lemma_first_space(rest, 0);
            }
            while end < n && self.chars[end] != ' '
                invariant
                    start <= end <= n,
                    n == self.chars@.len(),
                    rest == self.chars@.subrange(start as int, n as int),
                    first_space(rest, end - start) == first_space(rest, 0),
                decreases n - end,
            {
                proof {
                    assert(rest[end - start] == self.chars@[end as int]);
                }
                end += 1;
            }
            proof {
                if end < n {
                    assert(rest[end - start] == self.chars@[end as int]);
                }
            }
        }
        let piece = string_of(vstd::slice::slice_subrange(self.chars.as_slice(), start, end));
        self.at = end;
        proof {
            assert(rest[0] == self.chars@[start as int]);
            assert(piece@ =~= first_piece(rest));
            assert(self.remaining() =~= rest.skip(piece@.len() as int));
        }
        Some(piece)
    }
}

/// The pieces of a string: its words, and a single space for each space
/// between them.
pub fn words(s: &str) -> (r: Words)
    ensures
        r.wf(),
        r.remaining() == s@,
{
    let r = Words { chars: chars_of(s), at: 0 };
    assert(r.remaining() =~= s@);
    r
}

} // verus!
