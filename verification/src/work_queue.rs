//! The pending set of cells that were observed to reach a single candidate
//! and still await resolution, kept as an 81-bit set in a `u128`.

use vstd::prelude::*;

use crate::bits::idx_bit;
use crate::bits::lemma_u128_clear_bit;
use crate::bits::lemma_u128_or_bit;
use crate::bits::lemma_u128_test_bit;
use crate::indices::FlatIndex;

verus! {

/// A pending set of flat cell indices.
pub trait WorkQueue: Sized {
    fn new() -> Self;

    fn pop(&mut self) -> Option<FlatIndex>;
}

/// Work queue backed by a single bit per cell: membership is idempotent and
/// popping always yields the lowest pending index.
pub struct BitMaskWorkQueue(pub u128);

impl BitMaskWorkQueue {
    /// Mark a cell pending. Pushing an already pending cell is a no-op.
    pub fn push(&mut self, v: FlatIndex)
        ensures
            forall|b: int| #![trigger idx_bit(final(self).0, b)]
                idx_bit(final(self).0, b) <==> (idx_bit(old(self).0, b) || b == v@),
    {
        let idx = v.get();
        proof {
            assert forall|b: int| 0 <= b < 128 implies (idx_bit(
                self.0 | (1u128 << (idx as u128)),
                b,
            ) <==> (b == idx || idx_bit(self.0, b))) by {
                lemma_u128_or_bit(self.0, idx as u128, b as u128);
            }
        }
        self.0 = self.0 | (1u128 << (idx as u128));
    }

    /// Drop a cell from the pending set: used when a cell is resolved
    /// directly (a given) while a stale pending entry may still exist.
    pub(crate) fn remove(&mut self, v: FlatIndex)
        ensures
            forall|b: int| #![trigger idx_bit(final(self).0, b)]
                idx_bit(final(self).0, b) <==> (idx_bit(old(self).0, b) && b != v@),
    {
        let idx = v.get();
        proof {
            assert forall|b: int| 0 <= b < 128 implies (idx_bit(
                self.0 & !(1u128 << (idx as u128)),
                b,
            ) <==> (b != idx && idx_bit(self.0, b))) by {
                lemma_u128_clear_bit(self.0, idx as u128, b as u128);
            }
        }
        self.0 = self.0 & !(1u128 << (idx as u128));
    }
}

impl WorkQueue for BitMaskWorkQueue {
    fn new() -> (r: Self)
        ensures
            r.0 == 0,
    {
        BitMaskWorkQueue(0)
    }

    /// Pop the lowest pending cell index, if any. Bits outside the board
    /// (81 and above) are never considered.
    fn pop(&mut self) -> (r: Option<FlatIndex>)
        ensures
            r matches Some(i) ==> {
                &&& idx_bit(old(self).0, i@)
                &&& forall|b: int| 0 <= b < i@ ==> !idx_bit(old(self).0, b)
                &&& forall|b: int| #![trigger idx_bit(final(self).0, b)]
                    idx_bit(final(self).0, b) <==> (idx_bit(old(self).0, b) && b != i@)
            },
            r is None ==> {
                &&& final(self).0 == old(self).0
                &&& forall|b: int| 0 <= b < 81 ==> !idx_bit(old(self).0, b)
            },
    {
        let mut b: u8 = 0;
        while b < 81
            invariant
                b <= 81,
                self.0 == old(self).0,
                forall|c: int| 0 <= c < b ==> !idx_bit(self.0, c),
            decreases 81 - b,
        {
            proof {
                lemma_u128_test_bit(self.0, b as u128);
            }
            if (self.0 >> (b as u128)) & 1 == 1 {
                proof {
                    assert forall|c: int| 0 <= c < 128 implies (idx_bit(
                        self.0 & !(1u128 << (b as u128)),
                        c,
                    ) <==> (c != b && idx_bit(self.0, c))) by {
                        lemma_u128_clear_bit(self.0, b as u128, c as u128);
                    }
                }
                self.0 = self.0 & !(1u128 << (b as u128));
                return Some(FlatIndex::checked_new(b));
            }
            b = b + 1;
        }
        None
    }
}

} // verus!
