//! The succinct bit-vector index: a three-level counter dictionary over a
//! borrowed bit sequence, answering rank in constant time and select with
//! one binary search, after the design of Zhou, Andersen and Kaminsky.
//!
//! The sequence is cut into 2^32-bit super-super-blocks (L0), 2048-bit
//! super-blocks (L1) and 512-bit blocks (L2). One `u64` table entry per
//! L0 group counts the set bits before the group; one packed
//! `InterleavedIndex` per super-block carries the set bits since the
//! start of its group and the per-block counts of its first three blocks,
//! the fourth being implied.

use vstd::prelude::*;

use crate::bits::count_in;
use crate::bits::count_upto;
use crate::bits::lemma_count_range;
use crate::bits::lemma_rank_step;
use crate::bits::lemma_rank_sum;
use crate::query::query_in_range;
use crate::query::result_matches;
use crate::query::Query;
use crate::query::QueryResult;
use crate::storage::bits_of;
use crate::storage::Bits;

verus! {

pub const L0_BIT_SIZE: u64 = 0x1_0000_0000;

pub const L1_BIT_SIZE: u64 = 2048;

pub const L2_BIT_SIZE: u64 = 512;

pub const L1_IN_L0_COUNT: u64 = L0_BIT_SIZE / L1_BIT_SIZE;

pub const L2_IN_L0_COUNT: u64 = L0_BIT_SIZE / L2_BIT_SIZE;

/// Rejection of a malformed packed record request or an out-of-range
/// slot read.
#[derive(Clone, Copy, Debug, PartialEq, Eq, Structural)]
pub enum IndexError {
    InvalidArgument,
    OutOfRange,
}

/// One 64-bit interleaved record: bits [0, 32) hold the L1 counter, and
/// bit ranges [32, 42), [42, 52) and [52, 62) hold up to three 10-bit L2
/// counters. The second field is the number of valid L2 slots, at most 3,
/// reflecting trailing blocks at the end of the stored sequence.
#[derive(Clone, Copy, Debug, PartialEq, Eq, Structural)]
pub struct InterleavedIndex(u64, usize);

/// Extraction of every packed field stays within its width.
proof fn lemma_unpack_bounds(v: u64)
    by (bit_vector)
    ensures
        v & 0xFFFF_FFFF < 0x1_0000_0000,
        (v >> 32) & 0x3FF < 0x400,
        (v >> 42) & 0x3FF < 0x400,
        (v >> 52) & 0x3FF < 0x400,
{
}

/// Packing in-width fields at disjoint offsets loses nothing: each field
/// reads back as it was written.
proof fn lemma_pack_fields(l1: u64, a: u64, b: u64, c: u64)
    by (bit_vector)
    requires
        l1 < 0x1_0000_0000,
        a < 0x400,
        b < 0x400,
        c < 0x400,
    ensures
        (l1 | (a << 32) | (b << 42) | (c << 52)) & 0xFFFF_FFFF == l1,
        ((l1 | (a << 32) | (b << 42) | (c << 52)) >> 32) & 0x3FF == a,
        ((l1 | (a << 32) | (b << 42) | (c << 52)) >> 42) & 0x3FF == b,
        ((l1 | (a << 32) | (b << 42) | (c << 52)) >> 52) & 0x3FF == c,
{
}

impl InterleavedIndex {
    /// The packed L1 counter: bits [0, 32) of the record word.
    pub closed spec fn spec_l1(self) -> u64 {
        self.0 & 0xFFFF_FFFF
    }

    /// The packed L2 counter of slot `j`: ten bits starting at bit
    /// `32 + 10 * j` of the record word.
    pub closed spec fn spec_l2(self, j: int) -> u64 {
        if j == 0 {
            (self.0 >> 32) & 0x3FF
        } else if j == 1 {
            (self.0 >> 42) & 0x3FF
        } else {
            (self.0 >> 52) & 0x3FF
        }
    }

    /// The number of valid L2 slots.
    pub closed spec fn spec_len(self) -> int {
        self.1 as int
    }

    /// Packs the validated fields; `new` checks them first, and the index
    /// builder supplies counts that are in width by construction.
    pub(crate) fn pack(l1: u32, a: u16, b: u16, c: u16, len: usize) -> (r: Self)
        requires
            a < 1024,
            b < 1024,
            c < 1024,
            len <= 3,
        ensures
            r.spec_l1() == l1,
            r.spec_len() == len,
            r.spec_l2(0) == a,
            r.spec_l2(1) == b,
            r.spec_l2(2) == c,
    {
        let value: u64 = (l1 as u64) | ((a as u64) << 32u64) | ((b as u64) << 42u64) | ((c
            as u64) << 52u64);
        proof {
            lemma_pack_fields(l1 as u64, a as u64, b as u64, c as u64);
        }
        InterleavedIndex(value, len)
    }

    /// Packs one L1 counter and up to three L2 counters into a record.
    /// Rejects more than three slots, and any slot value that does not
    /// fit its ten-bit field.
    pub fn new(l1: u32, l2s: &[u16]) -> (r: Result<Self, IndexError>)
        ensures
            match r {
                Ok(rec) => {
                    &&& l2s@.len() <= 3
                    &&& forall|j: int| 0 <= j < l2s@.len() ==> l2s@[j] < 1024
                    &&& rec.spec_l1() == l1
                    &&& rec.spec_len() == l2s@.len()
                    &&& forall|j: int| 0 <= j < l2s@.len() ==> rec.spec_l2(j) == l2s@[j]
                },
                Err(e) => {
                    &&& e == IndexError::InvalidArgument
                    &&& (l2s@.len() > 3 || exists|j: int|
                        0 <= j < l2s@.len() && l2s@[j] >= 1024)
                },
            },
    {
        let n = l2s.len();
        if n > 3 {
            return Err(IndexError::InvalidArgument);
        }
        let mut j: usize = 0;
        while j < n
            invariant
                j <= n,
                n == l2s@.len() <= 3,
                forall|t: int| 0 <= t < j ==> l2s@[t] < 1024,
            decreases n - j,
        {
            if l2s[j] >= 1024 {
                return Err(IndexError::InvalidArgument);
            }
            j += 1;
        }
        let a: u16 = if n >= 1 { l2s[0] } else { 0 };
        let b: u16 = if n >= 2 { l2s[1] } else { 0 };
        let c: u16 = if n >= 3 { l2s[2] } else { 0 };
        let rec = Self::pack(l1, a, b, c, n);
        assert forall|t: int| 0 <= t < l2s@.len() implies rec.spec_l2(t) == l2s@[t] by {
            assert(t == 0 || t == 1 || t == 2);
        }
        Ok(rec)
    }

    /// The L1 counter of the record.
    pub fn l1(&self) -> (r: u32)
        ensures
            r == self.spec_l1(),
    {
        proof {
            lemma_unpack_bounds(self.0);
        }
        (self.0 & 0xFFFF_FFFF) as u32
    }

    /// The L2 counter of a valid slot; private to the engines, which
    /// prove their slot numbers in range.
    pub(crate) fn l2_at(&self, j: usize) -> (r: u16)
        requires
            j < self.spec_len(),
            self.spec_len() <= 3,
        ensures
            r == self.spec_l2(j as int),
    {
        proof {
            lemma_unpack_bounds(self.0);
        }
        if j == 0 {
            ((self.0 >> 32u64) & 0x3FF) as u16
        } else if j == 1 {
            ((self.0 >> 42u64) & 0x3FF) as u16
        } else {
            ((self.0 >> 52u64) & 0x3FF) as u16
        }
    }

    /// The L2 counter of slot `j`, or `OutOfRange` for a slot at or past
    /// the valid count.
    pub fn index(&self, j: usize) -> (r: Result<u16, IndexError>)
        requires
            self.spec_len() <= 3,
        ensures
            match r {
                Ok(v) => j < self.spec_len() && v == self.spec_l2(j as int),
                Err(e) => e == IndexError::OutOfRange && j >= self.spec_len(),
            },
    {
        if j < self.1 {
            Ok(self.l2_at(j))
        } else {
            Err(IndexError::OutOfRange)
        }
    }

    /// The number of valid L2 slots.
    pub fn len(&self) -> (r: usize)
        ensures
            r == self.spec_len(),
    {
        self.1
    }
}

/// Number of L0 table entries for a sequence of `n` bits: one per started
/// 2^32-bit group, and one for the empty sequence.
pub open spec fn l0_table_len(n: int) -> int {
    if n == 0 {
        1
    } else {
        (n + 0xFFFF_FFFF) / 0x1_0000_0000
    }
}

/// Number of L12 table entries for a sequence of `n` bits: one per
/// started 2048-bit super-block.
pub open spec fn l12_table_len(n: int) -> int {
    (n + 2047) / 2048
}

/// The L0 group that super-block `h` lies in.
pub open spec fn group_of(h: int) -> int {
    h / 2097152
}

/// Where the `j`-th L2 block of super-block `h` ends: at its 512-bit
/// boundary, or at `n` for a partial trailing block.
pub open spec fn block_top(n: int, h: int, j: int) -> int {
    let e = h * 2048 + (j + 1) * 512;
    if e <= n {
        e
    } else {
        n
    }
}

/// Number of L2 slots stored for super-block `h`: one per L2 block that
/// starts before `n`, at most three (the fourth block's count is implied).
pub open spec fn slot_count(n: int, h: int) -> int {
    let hi = if n <= (h + 1) * 2048 {
        n
    } else {
        (h + 1) * 2048
    };
    let started = (hi - h * 2048 + 511) / 512;
    if started >= 3 {
        3
    } else {
        started
    }
}

/// The invariant of one packed record: its slot count matches the blocks
/// that start before `n`, its L1 counter holds the set bits from the
/// start of its L0 group up to the super-block, and each valid slot holds
/// the set bits of its L2 block, clipped at `n`.
pub open spec fn record_wf(rec: InterleavedIndex, s: Seq<bool>, h: int) -> bool {
    let n = s.len() as int;
    &&& rec.spec_len() == slot_count(n, h)
    &&& rec.spec_l1() == count_in(s, true, group_of(h) * 0x1_0000_0000, h * 2048)
    &&& forall|j: int|
        0 <= j < slot_count(n, h) ==> rec.spec_l2(j) == count_in(
            s,
            true,
            h * 2048 + j * 512,
            block_top(n, h, j),
        )
}

/// A succinct bit vector which supports rank and select queries over a
/// borrowed bit sequence, with index tables whose size is a small
/// fraction of the sequence.
pub struct RunawayVector<'a> {
    pub bit_vec: &'a Bits,
    pub l12_indices: Vec<InterleavedIndex>,
    pub l0_indices: Vec<u64>,
}

impl<'a> RunawayVector<'a> {
    /// The bit sequence the index was built over.
    pub open spec fn bits(self) -> Seq<bool> {
        bits_of(*self.bit_vec)
    }

    /// Its length.
    pub open spec fn n(self) -> int {
        self.bits().len() as int
    }

    /// The index tables describe the borrowed sequence exactly: the
    /// tables have one entry per started L0 group and super-block, every
    /// L0 entry counts the set bits before its group, and every record
    /// satisfies `record_wf`.
    pub open spec fn wf(self) -> bool {
        let s = self.bits();
        let n = s.len() as int;
        &&& n <= usize::MAX as int
        &&& n + 0x1_0000_0000 <= u64::MAX as int
        &&& self.l0_indices@.len() == l0_table_len(n)
        &&& self.l12_indices@.len() == l12_table_len(n)
        &&& forall|g: int|
            0 <= g < self.l0_indices@.len() ==> self.l0_indices@[g] == count_upto(
                s,
                true,
                g * 0x1_0000_0000,
            )
        &&& forall|h: int|
            0 <= h < self.l12_indices@.len() ==> record_wf(self.l12_indices@[h], s, h)
    }

    /// Builds the two index tables in one forward pass over the sequence,
    /// 512 bits at a time.
    #[verifier::rlimit(100)]
    pub fn new(bit_vec: &'a Bits) -> (r: Self)
        requires
            bits_of(*bit_vec).len() + 0x1_0000_0000 <= u64::MAX as int,
        ensures
            r.wf(),
            r.bits() == bits_of(*bit_vec),
    {
        let ghost s = bits_of(*bit_vec);
        let n_usize: usize = bit_vec.len();
        let n: u64 = n_usize as u64;
        let nchunks: u64 = (n + 511) / 512;

        let mut l0_indices: Vec<u64> = Vec::with_capacity((n / L0_BIT_SIZE + 1) as usize);
        let mut l12_indices: Vec<InterleavedIndex> = Vec::with_capacity(
            (n / L1_BIT_SIZE + 1) as usize,
        );

        let mut l0_acc: u64 = 0;
        let mut l1: u64 = 0;
        let mut l2_0: u16 = 0;
        let mut l2_1: u16 = 0;
        let mut l2_2: u16 = 0;
        let mut phase: u64 = 0;
        let mut group_chunks: u64 = 0;

        let ws: &[u64] = bit_vec.words();
        let mut i: u64 = 0;
        while i < nchunks
            invariant
                s == bits_of(*bit_vec),
                ws@.len() == (s.len() + 63) / 64,
                forall|p: int|
                    0 <= p < s.len() ==> #[trigger] s[p] == (((ws@[p / 64] >> ((p
                        % 64) as u64)) & 1u64) == 1u64),
                n == s.len(),
                n <= usize::MAX,
                n + 0x1_0000_0000 <= u64::MAX,
                nchunks == (n + 511) / 512,
                i <= nchunks,
                phase <= 4,
                phase == 4 ==> i == nchunks && i * 512 > n,
                i as int == 4 * (l12_indices@.len() as int) + phase as int,
                i as int == 8388608 * (l0_indices@.len() as int) + group_chunks as int,
                phase <= group_chunks <= 8388608,
                group_chunks == 8388608 ==> phase == 4,
                (l12_indices@.len() as int) * 2048 <= n,
                (l0_indices@.len() as int) * 0x1_0000_0000 <= n,
                l0_acc == count_upto(s, true, (l0_indices@.len() as int) * 0x1_0000_0000),
                l1 == count_in(
                    s,
                    true,
                    (l0_indices@.len() as int) * 0x1_0000_0000,
                    (l12_indices@.len() as int) * 2048,
                ),
                l2_0 <= 512,
                l2_1 <= 512,
                l2_2 <= 512,
                phase >= 1 ==> l2_0 == count_in(
                    s,
                    true,
                    (l12_indices@.len() as int) * 2048,
                    block_top(n as int, l12_indices@.len() as int, 0),
                ),
                phase >= 2 ==> l2_1 == count_in(
                    s,
                    true,
                    (l12_indices@.len() as int) * 2048 + 512,
                    block_top(n as int, l12_indices@.len() as int, 1),
                ),
                phase >= 3 ==> l2_2 == count_in(
                    s,
                    true,
                    (l12_indices@.len() as int) * 2048 + 1024,
                    block_top(n as int, l12_indices@.len() as int, 2),
                ),
                forall|g: int|
                    0 <= g < l0_indices@.len() ==> l0_indices@[g] == count_upto(
                        s,
                        true,
                        g * 0x1_0000_0000,
                    ),
                forall|h: int|
                    0 <= h < l12_indices@.len() ==> record_wf(l12_indices@[h], s, h),
            decreases nchunks - i,
        {
            let lo: u64 = i * 512;
            let hi: u64 = if lo + 512 <= n {
                lo + 512
            } else {
                n
            };
            assert(lo < n) by {
                assert((i as int) * 512 <= ((nchunks - 1) as int) * 512);
            }
            let c: usize = if hi == lo + 512 {
                // A full chunk: sum its eight storage words in place.
                let w0: u64 = i * 8;
                let mut acc: u64 = 0;
                let mut t: u64 = 0;
                while t < 8
                    invariant
                        s == bits_of(*bit_vec),
                        ws@.len() == (s.len() + 63) / 64,
                        forall|p: int|
                            0 <= p < s.len() ==> #[trigger] s[p] == (((ws@[p / 64] >> ((p
                                % 64) as u64)) & 1u64) == 1u64),
                        n == s.len(),
                        n <= usize::MAX,
                        w0 == i * 8,
                        lo == i * 512,
                        lo + 512 <= n,
                        t <= 8,
                        acc == count_in(s, true, lo as int, lo as int + (t as int) * 64),
                        acc <= 512,
                    decreases 8 - t,
                {
                    let wi: usize = (w0 + t) as usize;
                    let w: u64 = ws[wi];
                    proof {
                        assert forall|j: int|
                            0 <= j < 64 implies #[trigger] s[lo as int + t as int * 64 + j] == (((w
                            >> (j as u64)) & 1u64) == 1u64) by {
                            assert((lo as int + t as int * 64 + j) / 64 == wi as int);
                            assert((lo as int + t as int * 64 + j) % 64 == j);
                        }
                        crate::storage::lemma_word_count(s, lo as int + t as int * 64, w, 64);
                        lemma_count_range(s, true, lo as int, lo as int + t as int * 64);
                        lemma_count_range(
                            s,
                            true,
                            lo as int + t as int * 64,
                            lo as int + t as int * 64 + 64,
                        );
                    }
                    acc = acc + (crate::storage::popcount64(w) as u64);
                    t = t + 1;
                }
                acc as usize
            } else {
                bit_vec.count_aligned(lo, hi - lo) as usize
            };
            proof {
                lemma_count_range(s, true, lo as int, hi as int);
            }
            if phase == 0 {
                l2_0 = c as u16;
            } else if phase == 1 {
                l2_1 = c as u16;
            } else if phase == 2 {
                l2_2 = c as u16;
            }
            phase = phase + 1;
            group_chunks = group_chunks + 1;
            if phase == 4 && hi == lo + 512 {
                let ghost h = l12_indices@.len() as int;
                let ghost g = l0_indices@.len() as int;
                assert(h * 2048 - g * 0x1_0000_0000 == (group_chunks - 4) * 512);
                assert(l1 < 0x1_0000_0000) by {
                    lemma_count_range(s, true, g * 0x1_0000_0000, h * 2048);
                }
                let rec = InterleavedIndex::pack(l1 as u32, l2_0, l2_1, l2_2, 3);
                proof {
                    assert(block_top(n as int, h, 0) == h * 2048 + 512);
                    assert(block_top(n as int, h, 1) == h * 2048 + 1024);
                    assert(block_top(n as int, h, 2) == h * 2048 + 1536);
                    assert(slot_count(n as int, h) == 3);
                    assert forall|j: int| 0 <= j < 3 implies rec.spec_l2(j) == count_in(
                        s,
                        true,
                        h * 2048 + j * 512,
                        block_top(n as int, h, j),
                    ) by {
                        assert(j == 0 || j == 1 || j == 2);
                    }
                    assert(record_wf(rec, s, h));
                }
                l12_indices.push(rec);
                l1 = l1 + (l2_0 as u64) + (l2_1 as u64) + (l2_2 as u64) + (c as u64);
                l2_0 = 0;
                l2_1 = 0;
                l2_2 = 0;
                phase = 0;
                if group_chunks == L2_IN_L0_COUNT {
                    l0_indices.push(l0_acc);
                    l0_acc = l0_acc + l1;
                    l1 = 0;
                    group_chunks = 0;
                }
            }
            i = i + 1;
        }
        proof {
            assert(i == nchunks);
            assert((nchunks as int) * 512 >= n);
            assert(((nchunks - 1) as int) * 512 < n || n == 0);
        }
        if n % 2048 != 0 {
            let ghost h = l12_indices@.len() as int;
            let ghost g = l0_indices@.len() as int;
            assert(phase >= 1) by {
                assert(phase == 0 ==> h * 2048 == i as int * 512);
            }
            assert(l1 < 0x1_0000_0000) by {
                lemma_count_range(s, true, g * 0x1_0000_0000, h * 2048);
            }
            let k: usize = if phase >= 3 {
                3
            } else {
                phase as usize
            };
            let rec = InterleavedIndex::pack(l1 as u32, l2_0, l2_1, l2_2, k);
            proof {
                assert(h * 2048 < n && n - h * 2048 < 2048);
                assert(slot_count(n as int, h) == k as int);
                assert forall|j: int| 0 <= j < slot_count(n as int, h) implies rec.spec_l2(j)
                    == count_in(s, true, h * 2048 + j * 512, block_top(n as int, h, j)) by {
                    assert(j == 0 || j == 1 || j == 2);
                }
                assert(record_wf(rec, s, h));
            }
            l12_indices.push(rec);
        }
        if n % L0_BIT_SIZE != 0 || n == 0 {
            l0_indices.push(l0_acc);
        }
        let r = RunawayVector { bit_vec, l0_indices, l12_indices };
        proof {
            assert(r.l12_indices@.len() == l12_table_len(n as int));
            assert(r.l0_indices@.len() == l0_table_len(n as int));
        }
        r
    }

    /// The bit at position `idx`.
    pub fn access(&self, idx: usize) -> (r: bool)
        requires
            self.wf(),
            idx < self.n(),
        ensures
            r == self.bits()[idx as int],
    {
        self.bit_vec.get(idx)
    }

    /// The number of set bits strictly before position `idx`: the sum of
    /// the L0 entry, the record's L1 counter, the record's L2 counters
    /// before the block of `idx`, and a popcount over the block's prefix.
    #[verifier::rlimit(100)]
    pub fn rank1(&self, idx: usize) -> (r: usize)
        requires
            self.wf(),
            idx < self.n(),
        ensures
            r == count_upto(self.bits(), true, idx as int),
    {
        let ghost s = self.bits();
        let ghost n = self.n();
        let idx64: u64 = idx as u64;
        let l0_pos: u64 = idx64 / L0_BIT_SIZE;
        let l1_pos: u64 = idx64 / L1_BIT_SIZE;
        let l2_pos: u64 = (idx64 / L2_BIT_SIZE) % 4;
        let bit_idx: u64 = idx64 % L2_BIT_SIZE;
        proof {
            vstd::arithmetic::div_mod::lemma_div_denominator(idx as int, 2048, 2097152);
            vstd::arithmetic::div_mod::lemma_div_denominator(idx as int, 512, 4);
            vstd::arithmetic::div_mod::lemma_fundamental_div_mod(idx as int, 512);
            vstd::arithmetic::div_mod::lemma_fundamental_div_mod(idx as int / 512, 4);
            assert(l0_pos as int == group_of(l1_pos as int));
            assert(l0_pos < self.l0_indices@.len());
            assert(l1_pos < self.l12_indices@.len());
            assert(l1_pos as int * 2048 + l2_pos as int * 512 + bit_idx as int == idx as int);
        }
        let l0: u64 = self.l0_indices[l0_pos as usize];
        let l12: InterleavedIndex = self.l12_indices[l1_pos as usize];
        let l1v: u64 = l12.l1() as u64;
        proof {
            lemma_count_range(s, true, 0, l1_pos as int * 2048);
            lemma_count_range(s, true, l1_pos as int * 2048, idx as int);
        }
        let mut l2: u64 = 0;
        let mut t: usize = 0;
        let stop: usize = l2_pos as usize;
        while t < stop
            invariant
                self.wf(),
                s == self.bits(),
                n == self.n(),
                idx < self.n(),
                stop == l2_pos,
                l2_pos as int * 512 + bit_idx as int + l1_pos as int * 2048 == idx as int,
                l2_pos < 4,
                l1_pos < self.l12_indices@.len(),
                l12 == self.l12_indices@[l1_pos as int],
                t <= stop,
                l2 == count_in(s, true, l1_pos as int * 2048, l1_pos as int * 2048 + t * 512),
            decreases stop - t,
        {
            proof {
                assert(t < slot_count(n, l1_pos as int));
                assert(block_top(n, l1_pos as int, t as int) == l1_pos as int * 2048 + (t + 1)
                    * 512);
                lemma_count_range(s, true, l1_pos as int * 2048, l1_pos as int * 2048 + (t + 1)
                    * 512);
                lemma_count_range(s, true, 0, l1_pos as int * 2048);
            }
            l2 = l2 + (l12.l2_at(t) as u64);
            t = t + 1;
        }
        let base_tail: u64 = idx64 - bit_idx;
        proof {
            assert(base_tail % 64 == 0) by {
                assert(base_tail == (idx64 / 512) * 512);
                assert((idx64 as int / 512) * 512 == ((idx64 as int / 512) * 8) * 64);
            }
        }
        let hand: u64 = self.bit_vec.count_aligned(base_tail, bit_idx);
        proof {
            lemma_count_range(s, true, 0, idx as int);
            lemma_count_range(s, true, 0, l1_pos as int * 2048 + l2_pos as int * 512);
            lemma_count_range(s, true, base_tail as int, idx as int);
        }
        ((l0 + l1v + l2 + hand) as usize)
    }

    /// The position of the `k`-th (1-based) occurrence of bit `b`, found
    /// by a linear scan of the L0 table, a binary search over the L1
    /// counters of the chosen group, a linear scan over at most three L2
    /// slots, and a bit scan. Sound for every path: each stage only ever
    /// subtracts counts of bits that lie before the next search window.
    fn select_impl(&self, b: bool, k: usize) -> (r: Option<usize>)
        requires
            self.wf(),
            1 <= k <= self.n(),
        ensures
            match r {
                Some(p) => p < self.n() && self.bits()[p as int] == b && count_upto(
                    self.bits(),
                    b,
                    p as int,
                ) == k - 1,
                None => count_upto(self.bits(), b, self.n()) < k,
            },
    {
        let ghost s = self.bits();
        let ghost n_i = self.n();
        let n_usize: usize = self.bit_vec.len();
        let n: u64 = n_usize as u64;
        let k64: u64 = k as u64;
        let l0_len: u64 = self.l0_indices.len() as u64;
        let l12_len: u64 = self.l12_indices.len() as u64;

        // Find the last L0 group whose entry counts fewer than k bits.
        let mut l0_pos: u64 = 0;
        loop
            invariant
                self.wf(),
                s == self.bits(),
                n_i == self.n(),
                n == n_i,
                k64 == k,
                1 <= k <= n_i,
                l0_len == self.l0_indices@.len(),
                l12_len == self.l12_indices@.len(),
                l0_pos < l0_len,
                l0_pos as int * 0x1_0000_0000 < n_i,
                count_upto(s, b, l0_pos as int * 0x1_0000_0000) < k,
            decreases l0_len - l0_pos,
        {
            if l0_pos + 1 >= l0_len {
                break ;
            }
            let entry: u64 = self.l0_indices[(l0_pos + 1) as usize];
            proof {
                lemma_count_range(s, true, 0, (l0_pos + 1) as int * 0x1_0000_0000);
                lemma_rank_sum(s, (l0_pos + 1) as int * 0x1_0000_0000);
            }
            let key: u64 = if b {
                entry
            } else {
                (l0_pos + 1) * L0_BIT_SIZE - entry
            };
            if key >= k64 {
                break ;
            }
            proof {
                assert((l0_pos + 2) as int * 0x1_0000_0000 <= n_i + 0x1_0000_0000);
            }
            l0_pos = l0_pos + 1;
        }
        let ghost base = l0_pos as int * 0x1_0000_0000;
        let base_entry: u64 = self.l0_indices[l0_pos as usize];
        proof {
            lemma_count_range(s, true, 0, base);
            lemma_rank_sum(s, base);
        }
        let key0: u64 = if b {
            base_entry
        } else {
            l0_pos * L0_BIT_SIZE - base_entry
        };
        let mut kr: u64 = k64 - key0;

        // Binary search over the super-blocks of the group for the last
        // one whose L1 counter counts fewer than the remaining rank.
        let first: u64 = l0_pos * L1_IN_L0_COUNT;
        let mut hi_b: u64 = (l0_pos + 1) * L1_IN_L0_COUNT;
        if hi_b > l12_len {
            hi_b = l12_len;
        }
        let mut lo_b: u64 = first;
        proof {
            assert(first as int * 2048 == base);
            assert(first < l12_len);
        }
        while lo_b + 1 < hi_b
            invariant
                self.wf(),
                s == self.bits(),
                n_i == self.n(),
                n == n_i,
                k64 == k,
                1 <= k <= n_i,
                l12_len == self.l12_indices@.len(),
                base == l0_pos as int * 0x1_0000_0000,
                base < n_i,
                first == l0_pos * L1_IN_L0_COUNT,
                first <= lo_b < hi_b <= l12_len,
                hi_b as int <= (l0_pos as int + 1) * 2097152,
                count_upto(s, b, lo_b as int * 2048) < k,
                kr == k - count_upto(s, b, base),
                kr >= 1,
            decreases hi_b - lo_b,
        {
            let m: u64 = lo_b + (hi_b - lo_b) / 2;
            let rec: InterleavedIndex = self.l12_indices[m as usize];
            proof {
                vstd::arithmetic::div_mod::lemma_fundamental_div_mod_converse(
                    m as int,
                    2097152,
                    l0_pos as int,
                    m as int - l0_pos as int * 2097152,
                );
                assert(group_of(m as int) == l0_pos as int);
                assert(record_wf(self.l12_indices@[m as int], s, m as int));
                lemma_count_range(s, true, base, m as int * 2048);
                lemma_rank_sum(s, m as int * 2048);
                lemma_rank_sum(s, base);
            }
            let relkey: u64 = if b {
                rec.l1() as u64
            } else {
                (m - first) * L1_BIT_SIZE - (rec.l1() as u64)
            };
            assert(relkey as int == count_in(s, b, base, m as int * 2048));
            if relkey < kr {
                lo_b = m;
            } else {
                hi_b = m;
            }
        }
        let h: u64 = lo_b;
        let rec: InterleavedIndex = self.l12_indices[h as usize];
        proof {
            vstd::arithmetic::div_mod::lemma_fundamental_div_mod_converse(
                h as int,
                2097152,
                l0_pos as int,
                h as int - l0_pos as int * 2097152,
            );
            assert(group_of(h as int) == l0_pos as int);
            assert(record_wf(self.l12_indices@[h as int], s, h as int));
            lemma_count_range(s, true, base, h as int * 2048);
            lemma_rank_sum(s, h as int * 2048);
        }
        let relkey: u64 = if b {
            rec.l1() as u64
        } else {
            (h - first) * L1_BIT_SIZE - (rec.l1() as u64)
        };
        let mut kr2: u64 = kr - relkey;

        // Walk the stored L2 slots, skipping whole blocks that hold fewer
        // than the remaining rank.
        let len_slots: usize = rec.len();
        let mut t: usize = 0;
        proof {
            assert(len_slots == slot_count(n_i, h as int));
            assert(h as int * 2048 < n_i) by {
                assert(h < l12_len);
                assert(l12_len as int * 2048 <= n_i + 2047);
            }
        }
        while t < len_slots
            invariant
                self.wf(),
                s == self.bits(),
                n_i == self.n(),
                n == n_i,
                k64 == k,
                1 <= k <= n_i,
                rec == self.l12_indices@[h as int],
                h < self.l12_indices@.len(),
                record_wf(rec, s, h as int),
                len_slots == slot_count(n_i, h as int),
                t <= len_slots,
                len_slots <= 3,
                kr2 >= 1,
                (h as int * 2048 + t as int * 512 <= n_i && count_upto(
                    s,
                    b,
                    h as int * 2048 + t as int * 512,
                ) == k - kr2) || (count_upto(s, b, n_i) < k && h as int * 2048 + t as int * 512
                    >= n_i),
            decreases len_slots - t,
        {
            let ghost start_t = h as int * 2048 + t as int * 512;
            proof {
                assert(start_t < n_i);
                lemma_count_range(s, true, start_t, block_top(n_i, h as int, t as int));
                lemma_rank_sum(s, start_t);
                lemma_rank_sum(s, block_top(n_i, h as int, t as int));
            }
            let slot: u16 = rec.l2_at(t);
            let bkey: u64 = if b {
                slot as u64
            } else {
                L2_BIT_SIZE - (slot as u64)
            };
            if kr2 > bkey {
                kr2 = kr2 - bkey;
                t = t + 1;
            } else {
                break ;
            }
        }

        // Bit scan from the start of the chosen block.
        let mut p: u64 = h * L1_BIT_SIZE + (t as u64) * L2_BIT_SIZE;
        while p < n
            invariant
                self.wf(),
                s == self.bits(),
                n_i == self.n(),
                n == n_i,
                k64 == k,
                1 <= k <= n_i,
                kr2 >= 1,
                (p as int <= n_i && count_upto(s, b, p as int) == k - kr2) || (count_upto(
                    s,
                    b,
                    n_i,
                ) < k && p as int >= n_i),
            decreases n - p,
        {
            let bit: bool = self.bit_vec.get(p as usize);
            proof {
                lemma_rank_step(s, b, p as int);
            }
            if bit == b {
                if kr2 == 1 {
                    return Some(p as usize);
                }
                kr2 = kr2 - 1;
            }
            p = p + 1;
        }
        None
    }

    /// The position of the `k`-th set bit, or `None` when fewer than `k`
    /// bits are set. A returned position holds a set bit whose rank is
    /// exactly `k - 1`, and a position is returned if and only if the
    /// sequence holds at least `k` set bits.
    pub fn select1(&self, rank: usize) -> (r: Option<usize>)
        requires
            self.wf(),
            1 <= rank <= self.n(),
        ensures
            match r {
                Some(p) => p < self.n() && self.bits()[p as int] && count_upto(
                    self.bits(),
                    true,
                    p as int,
                ) == rank - 1,
                None => count_upto(self.bits(), true, self.n()) < rank,
            },
            r is Some <==> rank <= count_upto(self.bits(), true, self.n()),
    {
        let r = self.select_impl(true, rank);
        proof {
            if let Some(p) = r {
                crate::bits::lemma_count_past_position(self.bits(), true, p as int);
            }
        }
        r
    }

    /// The position of the `k`-th clear bit, or `None` when fewer than
    /// `k` bits are clear; the mirror of `select1` over zero counts.
    pub fn select0(&self, rank: usize) -> (r: Option<usize>)
        requires
            self.wf(),
            1 <= rank <= self.n(),
        ensures
            match r {
                Some(p) => p < self.n() && !self.bits()[p as int] && count_upto(
                    self.bits(),
                    false,
                    p as int,
                ) == rank - 1,
                None => count_upto(self.bits(), false, self.n()) < rank,
            },
            r is Some <==> rank <= count_upto(self.bits(), false, self.n()),
    {
        let r = self.select_impl(false, rank);
        proof {
            if let Some(p) = r {
                crate::bits::lemma_count_past_position(self.bits(), false, p as int);
            }
        }
        r
    }

    /// The number of clear bits strictly before position `idx`.
    pub fn rank0(&self, idx: usize) -> (r: usize)
        requires
            self.wf(),
            idx < self.n(),
        ensures
            r == count_upto(self.bits(), false, idx as int),
    {
        proof {
            lemma_rank_sum(self.bits(), idx as int);
            lemma_count_range(self.bits(), true, 0, idx as int);
            lemma_count_range(self.bits(), false, 0, idx as int);
        }
        idx - self.rank1(idx)
    }

    /// Answers one query against the indexed sequence.
    pub fn process(&self, query: &Query) -> (res: QueryResult)
        requires
            self.wf(),
            query_in_range(*query, self.n()),
        ensures
            result_matches(res, *query, self.bits()),
    {
        match query {
            Query::Access(idx) => QueryResult::Access(self.access(*idx)),
            Query::Rank(w, idx) => QueryResult::Rank(
                if *w {
                    self.rank1(*idx)
                } else {
                    self.rank0(*idx)
                },
            ),
            Query::Select(w, nth) => QueryResult::Select(
                if *w {
                    self.select1(*nth)
                } else {
                    self.select0(*nth)
                },
            ),
        }
    }
}

impl<'a> crate::access::Accessible for RunawayVector<'a> {
    open spec fn bits(&self) -> Seq<bool> {
        bits_of(*self.bit_vec)
    }

    open spec fn valid(&self) -> bool {
        RunawayVector::wf(*self)
    }

    fn access(&self, idx: usize) -> (r: bool) {
        RunawayVector::access(self, idx)
    }
}

impl<'a> crate::rank::Rankable for RunawayVector<'a> {
    open spec fn bits(&self) -> Seq<bool> {
        bits_of(*self.bit_vec)
    }

    open spec fn valid(&self) -> bool {
        RunawayVector::wf(*self)
    }

    fn rank1(&self, idx: usize) -> (r: usize) {
        RunawayVector::rank1(self, idx)
    }

    fn rank0(&self, idx: usize) -> (r: usize) {
        RunawayVector::rank0(self, idx)
    }
}

impl<'a> crate::select::Selectable for RunawayVector<'a> {
    open spec fn bits(&self) -> Seq<bool> {
        bits_of(*self.bit_vec)
    }

    open spec fn valid(&self) -> bool {
        RunawayVector::wf(*self)
    }

    fn select1(&self, nth: usize) -> (r: Option<usize>) {
        RunawayVector::select1(self, nth)
    }

    fn select0(&self, nth: usize) -> (r: Option<usize>) {
        RunawayVector::select0(self, nth)
    }
}

} // verus!
