//! The mathematical model of the library: counting occurrences of a bit
//! value in a prefix or a range of a bit sequence, and the laws that rank
//! and select obey in terms of those counts.

use vstd::prelude::*;

verus! {

/// Number of positions `j < i` with `s[j] == b` (the rank of `i` for bit `b`).
pub open spec fn count_upto(s: Seq<bool>, b: bool, i: int) -> int
    decreases i,
{
    if i <= 0 {
        0
    } else {
        count_upto(s, b, i - 1) + if s[i - 1] == b {
            1int
        } else {
            0int
        }
    }
}

/// Number of positions `j` in `[lo, hi)` with `s[j] == b`.
pub open spec fn count_in(s: Seq<bool>, b: bool, lo: int, hi: int) -> int {
    count_upto(s, b, hi) - count_upto(s, b, lo)
}

/// A prefix count lies between 0 and the prefix length, and counts over
/// nested prefixes are monotone: for `i <= j`, the count up to `j` exceeds
/// the count up to `i` by at most `j - i`.
pub proof fn lemma_count_range(s: Seq<bool>, b: bool, i: int, j: int)
    requires
        0 <= i <= j,
    ensures
        0 <= count_upto(s, b, i) <= i,
        count_upto(s, b, i) <= count_upto(s, b, j),
        count_upto(s, b, j) - count_upto(s, b, i) <= j - i,
    decreases j,
{
    if j > i {
        lemma_count_range(s, b, i, j - 1);
    } else if i > 0 {
        lemma_count_range(s, b, i - 1, i - 1);
    }
}

/// The two rank values at one position account for every bit before it:
/// `rank0(i) + rank1(i) == i`.
pub proof fn lemma_rank_sum(s: Seq<bool>, i: int)
    requires
        0 <= i,
    ensures
        count_upto(s, true, i) + count_upto(s, false, i) == i,
    decreases i,
{
    if i > 0 {
        lemma_rank_sum(s, i - 1);
    }
}

/// Rank grows by one exactly across a position holding the queried bit:
/// `rank_b(i + 1) - rank_b(i)` is 1 if `s[i] == b` and 0 otherwise.
pub proof fn lemma_rank_step(s: Seq<bool>, b: bool, i: int)
    requires
        0 <= i,
    ensures
        count_upto(s, b, i + 1) - count_upto(s, b, i) == if s[i] == b {
            1int
        } else {
            0int
        },
{
}

/// Two positions holding bit `b` with the same rank are the same position:
/// together with the contracts of rank and select this gives the round
/// trip `select_b(rank_b(i) + 1) == i` whenever `s[i] == b`.
pub proof fn lemma_rank_position_unique(s: Seq<bool>, b: bool, p: int, q: int)
    requires
        0 <= p < s.len(),
        0 <= q < s.len(),
        s[p] == b,
        s[q] == b,
        count_upto(s, b, p) == count_upto(s, b, q),
    ensures
        p == q,
{
    if p < q {
        lemma_rank_step(s, b, p);
        lemma_count_range(s, b, p + 1, q);
    } else if q < p {
        lemma_rank_step(s, b, q);
        lemma_count_range(s, b, q + 1, p);
    }
}

/// A position holding bit `b` pushes the total count past its own rank:
/// used to show that the round-trip select argument `rank_b(i) + 1` is a
/// rank that exists in the sequence.
pub proof fn lemma_count_past_position(s: Seq<bool>, b: bool, i: int)
    requires
        0 <= i < s.len(),
        s[i] == b,
    ensures
        count_upto(s, b, i) + 1 <= count_upto(s, b, s.len() as int),
{
    lemma_rank_step(s, b, i);
    lemma_count_range(s, b, i + 1, s.len() as int);
}

} // verus!
