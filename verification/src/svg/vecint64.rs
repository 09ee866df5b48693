//! A 64-entry vector of bit indexes, used to label the squares of a mask
//! while it is shifted around: entry i names the bit that now sits at
//! board position i, and -1 marks a position whose bit has been shifted
//! away or masked off.

use vstd::prelude::*;

use crate::board::bitboard::nth_bit;

verus! {

/// The index-tracking companion of a 64-bit mask.
#[derive(Debug)]
pub struct VecInt64 {
    pub v64: Vec<i8>,
}

impl VecInt64 {
    /// A fresh tracker: position i holds bit index 63 - i, matching an
    /// untouched mask whose bit 63 sits at board position 0.
    pub fn new() -> (r: VecInt64)
        ensures
            r.v64@.len() == 64,
            forall|i: int| 0 <= i < 64 ==> #[trigger] r.v64@[i] == 63 - i,
    {
        let mut v: Vec<i8> = Vec::new();
        let mut i: usize = 0;
        while i < 64
            invariant
                i <= 64,
                v@.len() == i,
                forall|k: int| 0 <= k < i ==> #[trigger] v@[k] == 63 - k,
            decreases 64 - i,
        {
            v.push((63 - i) as i8);
            i = i + 1;
        }
        VecInt64 { v64: v }
    }

    /// Track a right shift by `n` positions: `n` fresh -1 entries enter at
    /// the head and everything past position 63 falls off.
    pub fn rshift(&mut self, n: usize)
        requires
            old(self).v64@.len() == 64,
        ensures
            final(self).v64@.len() == 64,
            forall|i: int|
                0 <= i < 64 ==> #[trigger] final(self).v64@[i] == (if i < n {
                    -1i8
                } else {
                    old(self).v64@[i - n]
                }),
    {
        let mut out: Vec<i8> = Vec::new();
        let mut i: usize = 0;
        while i < 64
            invariant
                self.v64@.len() == 64,
                self.v64 == old(self).v64,
                i <= 64,
                out@.len() == i,
                forall|k: int|
                    0 <= k < i ==> #[trigger] out@[k] == (if k < n {
                        -1i8
                    } else {
                        old(self).v64@[k - n]
                    }),
            decreases 64 - i,
        {
            if i < n {
                out.push(-1);
            } else {
                out.push(self.v64[i - n]);
            }
            i = i + 1;
        }
        self.v64 = out;
    }

    /// Track a left shift by `n` positions: everything moves `n` positions
    /// toward the head and `n` fresh -1 entries enter at the tail.
    pub fn lshift(&mut self, n: usize)
        requires
            old(self).v64@.len() == 64,
        ensures
            final(self).v64@.len() == 64,
            forall|i: int|
                0 <= i < 64 ==> #[trigger] final(self).v64@[i] == (if i + n < 64 {
                    old(self).v64@[i + n]
                } else {
                    -1i8
                }),
    {
        let mut out: Vec<i8> = Vec::new();
        let mut i: usize = 0;
        while i < 64
            invariant
                self.v64@.len() == 64,
                self.v64 == old(self).v64,
                i <= 64,
                out@.len() == i,
                forall|k: int|
                    0 <= k < i ==> #[trigger] out@[k] == (if k + n < 64 {
                        old(self).v64@[k + n]
                    } else {
                        -1i8
                    }),
            decreases 64 - i,
        {
            if n < 64 && i < 64 - n {
                out.push(self.v64[i + n]);
            } else {
                out.push(-1);
            }
            i = i + 1;
        }
        self.v64 = out;
    }

    /// Blank every position whose bit is clear in `mask`: position i
    /// stands for bit index 63 - i of the mask.
    pub fn mask(&mut self, mask: u64)
        requires
            old(self).v64@.len() == 64,
        ensures
            final(self).v64@.len() == 64,
            forall|i: int|
                0 <= i < 64 ==> #[trigger] final(self).v64@[i] == (if nth_bit(
                    mask,
                    (63 - i) as u64,
                ) {
                    old(self).v64@[i]
                } else {
                    -1i8
                }),
    {
        let mut i: usize = 0;
        while i < 64
            invariant
                self.v64@.len() == 64,
                i <= 64,
                forall|k: int|
                    0 <= k < i ==> #[trigger] self.v64@[k] == (if nth_bit(mask, (63 - k) as u64) {
                        old(self).v64@[k]
                    } else {
                        -1i8
                    }),
                forall|k: int| i <= k < 64 ==> #[trigger] self.v64@[k] == old(self).v64@[k],
            decreases 64 - i,
        {
            let b: u64 = (63 - i) as u64;
            if (mask >> b) & 1 == 1 {
            } else {
                self.v64.set(i, -1);
            }
            i = i + 1;
        }
    }
}

} // verus!
