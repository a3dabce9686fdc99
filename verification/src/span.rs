//! Byte ranges of a buffer.

use vstd::prelude::*;

verus! {

/// The half-open byte range `[lo, hi)` of one snapshot of a buffer.
#[derive(Clone, Copy, Debug, PartialEq, Eq)]
pub struct Span {
    pub lo: usize,
    pub hi: usize,
}

impl Span {
    /// True where the span is a range of a buffer of `len` bytes.
    pub open spec fn within(self, len: nat) -> bool {
        self.lo <= self.hi && self.hi <= len
    }

    /// The bytes of `s` that the span covers.
    pub open spec fn text(self, s: Seq<u8>) -> Seq<u8> {
        s.subrange(self.lo as int, self.hi as int)
    }

    /// True where the covered text holds a line feed.
    pub open spec fn crosses_lines(self, s: Seq<u8>) -> bool {
        exists|k: int| self.lo <= k < self.hi && k < s.len() && s[k] == 10u8
    }

    /// Whether the covered text holds a line feed.
    pub fn spans_lines(&self, buffer: &[u8]) -> (r: bool)
        requires
            self.within(buffer@.len()),
        ensures
            r == self.crosses_lines(buffer@),
    {
        let mut k: usize = self.lo;
        while k < self.hi
            invariant
                self.lo <= k <= self.hi <= buffer@.len(),
                forall|j: int| self.lo <= j < k ==> buffer@[j] != 10u8,
            decreases self.hi - k,
        {
            if buffer[k] == 10u8 {
                return true;
            }
            k = k + 1;
        }
        false
    }
}

} // verus!
