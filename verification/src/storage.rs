//! The bit storage.
//!
//! A `Bits` value owns an immutable-after-construction sequence of bits,
//! held in a `bitvec::vec::BitVec<u64, Lsb0>`. Verus cannot look inside
//! that vector, so the struct is opaque and its contents are named by the
//! uninterpreted sequence `bits_of`. Every operation the library performs
//! on the storage — building it up, and reading a length, a single bit,
//! or a popcount over a half-open range — is a wrapper here whose
//! contract speaks over `bits_of`.

use vstd::prelude::*;

use crate::bits::count_in;
use crate::bits::lemma_count_range;

verus! {

/// Bit storage: the sequence `B` that the index is built over.
#[verifier::external_body]
pub struct Bits {
    vec: bitvec::vec::BitVec<u64, bitvec::order::Lsb0>,
}

/// The bits held by the storage, in index order.
pub uninterp spec fn bits_of(b: Bits) -> Seq<bool>;

impl Bits {
    /// Relies on `BitVec::new`: an empty vector holds no bits.
    #[verifier::external_body]
    pub fn new() -> (r: Bits)
        ensures
            bits_of(r) == Seq::<bool>::empty(),
    {
        Bits { vec: bitvec::vec::BitVec::new() }
    }

    /// Relies on `BitVec::from_vec` and `BitVec::truncate`: the vector
    /// holds the words' bits in order, each word least significant bit
    /// first (the `u64`/`Lsb0` layout), cut down to the first `len`.
    /// `BitVec` spans at most `usize::MAX >> 6` bits over `u64`
    /// elements; larger word vectors abort.
    #[verifier::external_body]
    pub fn from_words(words: Vec<u64>, len: usize) -> (r: Bits)
        requires
            len as int <= words@.len() * 64,
            words@.len() * 64 <= usize::MAX as int / 64,
        ensures
            bits_of(r).len() == len,
            forall|i: int|
                0 <= i < len ==> #[trigger] bits_of(r)[i] == (((words@[i / 64] >> ((i
                    % 64) as u64)) & 1u64) == 1u64),
    {
        let mut vec = bitvec::vec::BitVec::from_vec(words);
        vec.truncate(len);
        Bits { vec }
    }

    /// `len` copies of `bit`, in order: whole words of all-zero or
    /// all-one bits, cut to length.
    pub fn repeat(bit: bool, len: usize) -> (r: Bits)
        requires
            len + 63 <= usize::MAX as int / 64,
        ensures
            bits_of(r) == Seq::<bool>::new(len as nat, |i: int| bit),
    {
        let word: u64 = if bit {
            0xFFFF_FFFF_FFFF_FFFFu64
        } else {
            0u64
        };
        let count: usize = len / 64 + if len % 64 == 0 {
            0
        } else {
            1
        };
        let mut words: Vec<u64> = fill_words(0u64, count);
        if bit {
            let mut j: usize = 0;
            while j < count
                invariant
                    words@.len() == count,
                    j <= count,
                    word == 0xFFFF_FFFF_FFFF_FFFFu64,
                    forall|t: int| 0 <= t < j ==> words@[t] == word,
                decreases count - j,
            {
                words[j] = 0xFFFF_FFFF_FFFF_FFFFu64;
                j += 1;
            }
        }
        let r = Self::from_words(words, len);
        proof {
            assert forall|i: int| 0 <= i < len implies bits_of(r)[i] == bit by {
                lemma_fill_word_bits((i % 64) as u64);
            }
            assert(bits_of(r) =~= Seq::<bool>::new(len as nat, |i: int| bit));
        }
        r
    }

    /// Relies on `BitVec::push`: appends one bit at the end. The span
    /// limit of `usize::MAX >> 6` bits must leave room for it.
    #[verifier::external_body]
    pub fn push(&mut self, bit: bool)
        requires
            bits_of(*old(self)).len() + 1 <= usize::MAX as int / 64,
        ensures
            bits_of(*final(self)) == bits_of(*old(self)).push(bit),
    {
        self.vec.push(bit);
    }

    /// Relies on `BitSlice::set`: replaces the bit at an in-range position.
    #[verifier::external_body]
    pub fn set(&mut self, index: usize, value: bool)
        requires
            index < bits_of(*old(self)).len(),
        ensures
            bits_of(*final(self)) == bits_of(*old(self)).update(index as int, value),
    {
        self.vec.set(index, value);
    }

    /// Relies on `BitSlice::len`, reached through `BitVec`'s deref: the
    /// number of live bits.
    #[verifier::external_body]
    pub fn len(&self) -> (n: usize)
        ensures
            n == bits_of(*self).len(),
    {
        self.vec.len()
    }

    /// Relies on `BitVec::as_raw_slice`: all storage words of the
    /// vector, one per 64 bits, each holding its bits least significant
    /// first (the `u64`/`Lsb0` layout). Bits past the end of the
    /// sequence are unspecified.
    #[verifier::external_body]
    #[inline(always)]
    pub fn words(&self) -> (ws: &[u64])
        ensures
            ws@.len() == (bits_of(*self).len() + 63) / 64,
            forall|i: int|
                0 <= i < bits_of(*self).len() ==> #[trigger] bits_of(*self)[i] == (((ws@[i
                    / 64] >> ((i % 64) as u64)) & 1u64) == 1u64),
    {
        self.vec.as_raw_slice()
    }

    /// Relies on `BitSlice`'s `Index<usize>`: the bit at one position.
    #[verifier::external_body]
    #[inline(always)]
    pub fn get(&self, i: usize) -> (b: bool)
        requires
            i < bits_of(*self).len(),
        ensures
            b == bits_of(*self)[i as int],
    {
        self.vec[i]
    }

    /// The number of set bits at positions in `[base, base + width)`,
    /// counted one storage word at a time; `base` must lie on a word
    /// boundary.
    pub fn count_aligned(&self, base: u64, width: u64) -> (c: u64)
        requires
            base % 64 == 0,
            base + width <= bits_of(*self).len(),
            bits_of(*self).len() <= usize::MAX as int,
        ensures
            c == count_in(bits_of(*self), true, base as int, base as int + width as int),
    {
        let ghost s = bits_of(*self);
        let ws: &[u64] = self.words();
        let full: u64 = width / 64;
        let rem: u64 = width % 64;
        let word_start: u64 = base / 64;
        proof {
            assert(word_start * 64 == base);
        }
        let mut c: u64 = 0;
        let mut t: u64 = 0;
        while t < full
            invariant
                s == bits_of(*self),
                ws@.len() == (s.len() + 63) / 64,
                forall|i: int|
                    0 <= i < s.len() ==> #[trigger] s[i] == (((ws@[i / 64] >> ((i
                        % 64) as u64)) & 1u64) == 1u64),
                base % 64 == 0,
                word_start * 64 == base,
                base + width <= s.len(),
                s.len() <= usize::MAX,
                full == width / 64,
                t <= full,
                c == count_in(s, true, base as int, base as int + t as int * 64),
                c <= t * 64,
            decreases full - t,
        {
            let wi: usize = (word_start + t) as usize;
            let w: u64 = ws[wi];
            proof {
                assert forall|j: int|
                    0 <= j < 64 implies #[trigger] s[base as int + t as int * 64 + j] == (((w >> (
                    j as u64)) & 1u64) == 1u64) by {
                    assert((base as int + t as int * 64 + j) / 64 == wi as int);
                    assert((base as int + t as int * 64 + j) % 64 == j);
                }
                lemma_word_count(s, base as int + t as int * 64, w, 64);
                lemma_count_range(s, true, base as int, base as int + t as int * 64);
                lemma_count_range(
                    s,
                    true,
                    base as int + t as int * 64,
                    base as int + t as int * 64 + 64,
                );
            }
            c = c + (popcount64(w) as u64);
            t = t + 1;
        }
        if rem > 0 {
            let wi: usize = (word_start + full) as usize;
            let w: u64 = ws[wi];
            assert((1u64 << rem) >= 1u64) by (bit_vector)
                requires
                    rem < 64u64,
            ;
            let wm: u64 = w & ((1u64 << rem) - 1);
            proof {
                let wbase = base as int + full as int * 64;
                assert(wbase == (wi as int) * 64);
                assert forall|j: int|
                    0 <= j < rem as int implies #[trigger] s[wbase + j] == (((wm >> (j as u64))
                        & 1u64) == 1u64) by {
                    assert((wbase + j) / 64 == wi as int);
                    assert((wbase + j) % 64 == j);
                    lemma_mask_bit(w, rem, j as u64);
                }
                lemma_word_count(s, wbase, wm, rem as int);
                assert forall|j: u64| rem <= j < 64 implies #[trigger] ((wm >> j) & 1u64)
                    == 0u64 by {
                    lemma_mask_bit(w, rem, j);
                }
                lemma_word_ones_flat(wm, rem as int, 64);
                lemma_count_range(s, true, base as int, wbase);
                lemma_count_range(s, true, wbase, wbase + rem as int);
            }
            c = c + (popcount64(wm) as u64);
        }
        c
    }
}

/// Number of set bits among the low `k` bits of a word.
pub open spec fn word_ones(w: u64, k: int) -> int
    decreases k,
{
    if k <= 0 {
        0
    } else {
        word_ones(w, k - 1) + if ((w >> ((k - 1) as u64)) & 1u64) == 1u64 {
            1int
        } else {
            0int
        }
    }
}

/// Relies on `vec![elem; len]`, std's `from_elem`: a vector of `count`
/// equal words.
#[verifier::external_body]
fn fill_words(word: u64, count: usize) -> (r: Vec<u64>)
    ensures
        r@ == Seq::new(count as nat, |i: int| word),
{
    vec![word; count]
}

/// An all-one word has every low bit set; an all-zero word none.
proof fn lemma_fill_word_bits(j: u64)
    by (bit_vector)
    requires
        j < 64,
    ensures
        ((0xFFFF_FFFF_FFFF_FFFFu64 >> j) & 1u64) == 1u64,
        ((0u64 >> j) & 1u64) == 0u64,
{
}

/// Masking a word below bit `m` keeps its low bits and clears the rest.
pub proof fn lemma_mask_bit(w: u64, m: u64, j: u64)
    by (bit_vector)
    requires
        m < 64,
        j < 64,
    ensures
        ((w & (((1u64 << m) - 1) as u64)) >> j) & 1u64 == (if j < m {
            (w >> j) & 1u64
        } else {
            0u64
        }),
{
}

/// Counting up to `k` sees nothing where the bits from `m` on are clear.
pub proof fn lemma_word_ones_flat(w: u64, m: int, k: int)
    requires
        0 <= m <= k <= 64,
        forall|j: u64| m <= j < k ==> #[trigger] ((w >> j) & 1u64) == 0u64,
    ensures
        word_ones(w, k) == word_ones(w, m),
    decreases k - m,
{
    if k > m {
        lemma_word_ones_flat(w, m, k - 1);
        assert(((w >> ((k - 1) as u64)) & 1u64) == 0u64);
    }
}

/// Relies on `u64::count_ones`: the number of set bits of the word.
#[verifier::external_body]
#[inline(always)]
pub fn popcount64(w: u64) -> (c: u32)
    ensures
        c == word_ones(w, 64),
{
    w.count_ones()
}

/// A word whose low bits agree with the sequence at `base` counts the
/// same ones the sequence holds there.
pub proof fn lemma_word_count(s: Seq<bool>, base: int, w: u64, k: int)
    requires
        0 <= k <= 64,
        0 <= base,
        base + k <= s.len(),
        forall|j: int| 0 <= j < k ==> #[trigger] s[base + j] == (((w >> (j as u64)) & 1u64)
            == 1u64),
    ensures
        count_in(s, true, base, base + k) == word_ones(w, k),
    decreases k,
{
    if k > 0 {
        lemma_word_count(s, base, w, k - 1);
        crate::bits::lemma_rank_step(s, true, base + k - 1);
    }
}

} // verus!
