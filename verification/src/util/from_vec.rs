//! Building a bitboard value from a list of bit indexes.

use vstd::prelude::*;

use crate::board::bitboard::nth_bit;

verus! {

/// A value assembled from a list of positions to switch on.
pub trait FromVec: Sized {
    /// The value that the list of positions denotes.
    spec fn spec_from_vec(indexes: Seq<usize>) -> Self;

    /// Assemble the value from the list of positions.
    fn from_vec(indexes: Vec<usize>) -> (r: Self)
        requires
            forall|i: int| 0 <= i < indexes@.len() ==> (#[trigger] indexes@[i]) < 64,
        ensures
            r == Self::spec_from_vec(indexes@),
    ;
}

impl FromVec for u64 {
    /// The mask with exactly the listed bit indexes set.
    open spec fn spec_from_vec(indexes: Seq<usize>) -> u64
        decreases indexes.len(),
    {
        if indexes.len() == 0 {
            0u64
        } else {
            Self::spec_from_vec(indexes.drop_last()) | (1u64 << (indexes.last() as u64))
        }
    }

    fn from_vec(indexes: Vec<usize>) -> (r: u64)
        ensures
            r == <u64 as FromVec>::spec_from_vec(indexes@),
    {
        let mut r: u64 = 0;
        let mut i: usize = 0;
        while i < indexes.len()
            invariant
                i <= indexes@.len(),
                forall|k: int| 0 <= k < indexes@.len() ==> (#[trigger] indexes@[k]) < 64,
                r == <u64 as FromVec>::spec_from_vec(indexes@.subrange(0, i as int)),
            decreases indexes@.len() - i,
        {
            proof {
                assert(indexes@.subrange(0, (i + 1) as int).drop_last() =~= indexes@.subrange(
                    0,
                    i as int,
                ));
                assert(indexes@.subrange(0, (i + 1) as int).last() == indexes@[i as int]);
            }
            r = r | (1u64 << (indexes[i] as u64));
            i = i + 1;
        }
        proof {
            assert(indexes@.subrange(0, indexes@.len() as int) =~= indexes@);
        }
        r
    }
}

/// Which bits the assembled mask holds: exactly the listed positions.
pub proof fn lemma_from_vec_bits(indexes: Seq<usize>, b: u64)
    requires
        forall|i: int| 0 <= i < indexes.len() ==> (#[trigger] indexes[i]) < 64,
        b < 64,
    ensures
        nth_bit(<u64 as FromVec>::spec_from_vec(indexes), b) <==> indexes.contains(b as usize),
    decreases indexes.len(),
{
    assert(forall|a: u64, c: u64, n: u64|
        n < 64 ==> (#[trigger] nth_bit(a | c, n) == (nth_bit(a, n) || nth_bit(c, n))))
        by (bit_vector);
    assert(forall|k: u64, n: u64| k < 64 && n < 64 ==> (#[trigger] nth_bit(1u64 << k, n) == (k
        == n))) by (bit_vector);
    assert(forall|n: u64| n < 64 ==> !#[trigger] nth_bit(0u64, n)) by (bit_vector);
    if indexes.len() == 0 {
    } else {
        lemma_from_vec_bits(indexes.drop_last(), b);
        if indexes.contains(b as usize) {
            let j = choose|j: int| 0 <= j < indexes.len() && indexes[j] == b as usize;
            if j < indexes.len() - 1 {
                assert(indexes.drop_last()[j] == b as usize);
                assert(indexes.drop_last().contains(b as usize));
            } else {
                assert(indexes.last() == b as usize);
            }
        } else {
            assert(!indexes.drop_last().contains(b as usize)) by {
                if indexes.drop_last().contains(b as usize) {
                    let j = choose|j: int|
                        0 <= j < indexes.drop_last().len() && indexes.drop_last()[j] == (
                        b as usize);
                    assert(indexes[j] == b as usize);
                }
            }
            assert(indexes.last() != b as usize);
        }
    }
}

} // verus!
