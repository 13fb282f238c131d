//! A succinct bit-vector index answering access, rank and select queries
//! over an immutable bit sequence, backed by a three-level interleaved
//! counter dictionary.

use vstd::prelude::*;

pub mod access;
pub mod bits;
pub mod query;
pub mod rank;
pub mod runaway_vector;
pub mod select;
pub mod storage;

use crate::access::Accessible;
use crate::query::query_in_range;
use crate::query::result_sound;
use crate::query::Query;
use crate::query::QueryResult;
use crate::rank::Rankable;
use crate::select::Selectable;

verus! {

/// A query answerer assembled from one engine per capability.
pub struct Concrete<A: Accessible, R: Rankable, S: Selectable> {
    pub a: A,
    pub r: R,
    pub s: S,
}

impl<A: Accessible, R: Rankable, S: Selectable> Concrete<A, R, S> {
    /// The three engines are each in working order and answer for one
    /// and the same bit sequence.
    pub open spec fn coherent(self) -> bool {
        &&& self.a.valid()
        &&& self.r.valid()
        &&& self.s.valid()
        &&& self.a.bits() == self.r.bits()
        &&& self.r.bits() == self.s.bits()
    }

    /// Dispatches one query to the engine of its kind.
    pub fn process_query(&self, query: &Query) -> (res: QueryResult)
        requires
            self.coherent(),
            query_in_range(*query, self.a.bits().len() as int),
        ensures
            result_sound(res, *query, self.a.bits()),
    {
        match query {
            Query::Access(idx) => QueryResult::Access(self.a.access(*idx)),
            Query::Rank(which, idx) => match which {
                true => QueryResult::Rank(self.r.rank1(*idx)),
                false => QueryResult::Rank(self.r.rank0(*idx)),
            },
            Query::Select(which, nth) => match which {
                true => QueryResult::Select(self.s.select1(*nth)),
                false => QueryResult::Select(self.s.select0(*nth)),
            },
        }
    }
}

} // verus!
