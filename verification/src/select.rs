//! The select capability: locating the k-th occurrence of a bit value.

use vstd::prelude::*;

use crate::bits::count_upto;

verus! {

/// Select queries over a bit sequence.
///
/// The trait promises soundness of every returned position; whether a
/// position is returned at all is left to the implementation, so that an
/// engine without select support can answer `None` throughout. The
/// indexed vector's own `select0` and `select1` strengthen this to an
/// exact if-and-only-if.
pub trait Selectable {
    /// The bit sequence answered for.
    spec fn bits(&self) -> Seq<bool>;

    /// The internal counters describe that sequence.
    spec fn valid(&self) -> bool;

    /// A position of the `nth` set bit: any returned position holds a
    /// set bit whose rank is exactly `nth - 1`.
    fn select1(&self, nth: usize) -> (r: Option<usize>)
        requires
            self.valid(),
            1 <= nth <= self.bits().len(),
        ensures
            match r {
                Some(p) => p < self.bits().len() && self.bits()[p as int] && count_upto(
                    self.bits(),
                    true,
                    p as int,
                ) == nth - 1,
                None => true,
            },
    ;

    /// A position of the `nth` clear bit, under the same promise.
    fn select0(&self, nth: usize) -> (r: Option<usize>)
        requires
            self.valid(),
            1 <= nth <= self.bits().len(),
        ensures
            match r {
                Some(p) => p < self.bits().len() && !self.bits()[p as int] && count_upto(
                    self.bits(),
                    false,
                    p as int,
                ) == nth - 1,
                None => true,
            },
    ;
}

/// A select engine that never finds anything: for settings where only
/// access and rank are wanted.
pub struct NoSelect {}

impl Selectable for NoSelect {
    open spec fn bits(&self) -> Seq<bool> {
        Seq::<bool>::empty()
    }

    open spec fn valid(&self) -> bool {
        true
    }

    fn select1(&self, nth: usize) -> (r: Option<usize>) {
        None
    }

    fn select0(&self, nth: usize) -> (r: Option<usize>) {
        None
    }
}

} // verus!
