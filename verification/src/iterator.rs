//! Character cursor: a decoded character sequence plus a position, with
//! bounded peeking, advancing, and slicing.
//!
//! The position never leaves `[0, length]`: an advance past the end stops
//! at the end.  This is deliberate.  Every span the parser records is made
//! of positions the cursor produced, and serialization slices the source
//! at those spans; keeping the position within the sequence keeps every
//! recorded span in bounds, so that a truncated trailing `\u` escape is
//! absorbed at the end of input and parsing, decoding and serialization
//! stay total on every input.

use vstd::prelude::*;
use vstd::string::StrSliceExecFns;

use crate::utils::push_char;

verus! {

pub struct Iterator {
    pub position: usize,
    pub length: usize,
    pub chars: Vec<char>,
}

impl Iterator {
    /// The character sequence the cursor walks over.
    pub open spec fn src(&self) -> Seq<char> {
        self.chars@
    }

    /// The cursor is consistent: the cached length matches the sequence and
    /// the position has not left it.
    pub open spec fn wf(&self) -> bool {
        self.length == self.chars@.len() && self.position <= self.length
    }

    pub fn new(s: &String) -> (it: Iterator)
        ensures
            it.wf(),
            it.src() == s@,
            it.position == 0,
    {
        let n = s.as_str().unicode_len();
        let mut chars: Vec<char> = Vec::new();
        let mut i: usize = 0;
        while i < n
            invariant
                i <= n,
                n == s@.len(),
                chars@ == s@.subrange(0, i as int),
            decreases n - i,
        {
            chars.push(s.as_str().get_char(i));
            proof {
                assert(chars@ =~= s@.subrange(0, i + 1));
            }
            i = i + 1;
        }
        proof {
            assert(chars@ =~= s@);
        }
        Iterator { position: 0, length: chars.len(), chars }
    }

    pub fn peek_x(&self, i: usize) -> (r: Option<char>)
        requires
            self.wf(),
        ensures
            r == (if self.position + i < self.src().len() {
                Some(self.src()[self.position + i])
            } else {
                None::<char>
            }),
    {
        if self.position >= self.length || i >= self.length - self.position {
            None
        } else {
            Some(self.chars[self.position + i])
        }
    }

    pub fn peek(&self) -> (r: Option<char>)
        requires
            self.wf(),
        ensures
            r == (if self.position < self.src().len() {
                Some(self.src()[self.position as int])
            } else {
                None::<char>
            }),
    {
        self.peek_x(0)
    }

    /// Returns the character under the cursor (or nothing at the end) and
    /// advances the position by `i`, stopping at the end of the sequence,
    /// so that a span recorded from any two cursor positions always lies
    /// within it.
    pub fn next_x(&mut self, i: usize) -> (r: Option<char>)
        requires
            old(self).wf(),
        ensures
            final(self).wf(),
            final(self).src() == old(self).src(),
            old(self).position < old(self).src().len() ==> {
                &&& r == Some(old(self).src()[old(self).position as int])
                &&& final(self).position == (if old(self).position + i
                    <= old(self).src().len() {
                    old(self).position + i
                } else {
                    old(self).src().len() as int
                })
            },
            old(self).position >= old(self).src().len() ==> {
                &&& r is None
                &&& final(self).position == old(self).position
            },
    {
        if self.position >= self.length {
            None
        } else {
            let pos = self.position;
            if i >= self.length - self.position {
                self.position = self.length;
            } else {
                self.position = self.position + i;
            }
            Some(self.chars[pos])
        }
    }

    pub fn next(&mut self) -> (r: Option<char>)
        requires
            old(self).wf(),
        ensures
            final(self).wf(),
            final(self).src() == old(self).src(),
            old(self).position < old(self).src().len() ==> {
                &&& r == Some(old(self).src()[old(self).position as int])
                &&& final(self).position == old(self).position + 1
            },
            old(self).position >= old(self).src().len() ==> {
                &&& r is None
                &&& final(self).position == old(self).position
            },
    {
        self.next_x(1)
    }

    pub fn get(&self, i: usize) -> (r: Option<char>)
        requires
            self.wf(),
        ensures
            r == (if i < self.src().len() {
                Some(self.src()[i as int])
            } else {
                None::<char>
            }),
    {
        if i >= self.length {
            None
        } else {
            Some(self.chars[i])
        }
    }

    /// The decoded substring `[start, end)`.  The bounds must lie within the
    /// sequence; every span the parser records does.
    pub fn get_range(&self, start: usize, end: usize) -> (r: String)
        requires
            self.wf(),
            start <= end,
            end <= self.src().len(),
        ensures
            r@ == self.src().subrange(start as int, end as int),
    {
        let mut s = String::new();
        let mut i: usize = start;
        while i < end
            invariant
                self.wf(),
                start <= i <= end,
                end <= self.src().len(),
                s@ == self.src().subrange(start as int, i as int),
            decreases end - i,
        {
            push_char(&mut s, self.chars[i]);
            proof {
                assert(s@ =~= self.src().subrange(start as int, i + 1));
            }
            i = i + 1;
        }
        proof {
            assert(s@ =~= self.src().subrange(start as int, end as int));
        }
        s
    }
}

} // verus!
