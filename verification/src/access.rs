//! The access capability: reading a single bit of the sequence.

use vstd::prelude::*;

use crate::storage::bits_of;
use crate::storage::Bits;

verus! {

/// Read access to a bit sequence.
pub trait Accessible {
    /// The bit sequence answered for.
    spec fn bits(&self) -> Seq<bool>;

    /// The answers are trustworthy: for an index, whatever internal
    /// state the implementation keeps is consistent.
    spec fn valid(&self) -> bool;

    /// The bit at position `idx`.
    fn access(&self, idx: usize) -> (r: bool)
        requires
            self.valid(),
            idx < self.bits().len(),
        ensures
            r == self.bits()[idx as int],
    ;
}

/// Access that reads the borrowed storage directly.
pub struct DirectAccess<'a> {
    pub bit_vec: &'a Bits,
}

impl<'a> Accessible for DirectAccess<'a> {
    open spec fn bits(&self) -> Seq<bool> {
        bits_of(*self.bit_vec)
    }

    open spec fn valid(&self) -> bool {
        true
    }

    fn access(&self, idx: usize) -> (r: bool) {
        self.bit_vec.get(idx)
    }
}

} // verus!
