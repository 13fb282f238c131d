//! The rank capability: counting a bit value in a prefix.

use vstd::prelude::*;

use crate::bits::count_upto;
use crate::bits::lemma_count_range;
use crate::bits::lemma_rank_sum;

verus! {

/// Rank queries over a bit sequence.
pub trait Rankable {
    /// The bit sequence answered for.
    spec fn bits(&self) -> Seq<bool>;

    /// The internal counters describe that sequence.
    spec fn valid(&self) -> bool;

    /// The number of set bits strictly before position `idx`.
    fn rank1(&self, idx: usize) -> (r: usize)
        requires
            self.valid(),
            idx < self.bits().len(),
        ensures
            r == count_upto(self.bits(), true, idx as int),
    ;

    /// The number of clear bits strictly before position `idx`: what is
    /// not set before `idx` is clear.
    fn rank0(&self, idx: usize) -> (r: usize)
        requires
            self.valid(),
            idx < self.bits().len(),
        ensures
            r == count_upto(self.bits(), false, idx as int),
    {
        proof {
            lemma_rank_sum(self.bits(), idx as int);
            lemma_count_range(self.bits(), true, 0, idx as int);
            lemma_count_range(self.bits(), false, 0, idx as int);
        }
        idx - self.rank1(idx)
    }
}

} // verus!
