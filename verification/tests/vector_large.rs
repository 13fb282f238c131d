use rayon::iter::ParallelIterator;
use rayon::slice::ParallelSliceMut;
use runaway_datastructures::runaway_vector::RunawayVector;
use runaway_datastructures::storage::Bits;

/// A vector of `len` set bits, built from whole storage words, filled in
/// parallel so that even multi-gibibit inputs are ready quickly.
fn all_ones(len: usize) -> Bits {
    let mut words = vec![0u64; (len + 63) / 64];
    words.par_chunks_mut(1 << 19).for_each(|chunk| {
        for w in chunk.iter_mut() {
            *w = u64::MAX;
        }
    });
    Bits::from_words(words, len)
}

const L0_BIT_SIZE: usize = 1 << 32;
const L1_BIT_SIZE: usize = 2048;

#[test]
fn empty_vector() {
    let mut bv = Bits::repeat(false, L0_BIT_SIZE);
    bv.set(0, true);
    RunawayVector::new(&bv);
}

#[test]
fn full_vector() {
    let mut bv = all_ones(L0_BIT_SIZE);
    bv.set(L0_BIT_SIZE - 1, false);
    bv.push(false);
    bv.push(true);
    let runaway = RunawayVector::new(&bv);
    assert_eq!(runaway.l0_indices.len(), 2);
    assert_eq!(runaway.l0_indices[0], 0);
    assert_eq!(runaway.l0_indices[1], u32::MAX as u64);
}

#[test]
fn select0_l0() {
    let mut bv = all_ones(L0_BIT_SIZE * 2 + 1);
    bv.set(0, false);
    bv.set(1 << 32, false);
    bv.set((1 << 32) * 2, false);
    let runaway = RunawayVector::new(&bv);
    assert_eq!(runaway.l0_indices[0], 0);
    assert_eq!(runaway.l0_indices[1], u32::MAX as u64);
    assert_eq!(runaway.l0_indices[2], 2 * u32::MAX as u64);
    assert_eq!(runaway.select0(1), Some(0));
    assert_eq!(runaway.select0(2), Some(1 << 32));
    assert_eq!(runaway.select0(3), Some((1 << 32) * 2));
}

#[test]
fn select0_l0_and_l1() {
    let mut bv = all_ones(L0_BIT_SIZE * 2);
    for i in 0..64 {
        bv.set(L1_BIT_SIZE + i, false);
        bv.set(L0_BIT_SIZE + L1_BIT_SIZE + i, false);
    }
    let runaway = RunawayVector::new(&bv);
    assert_eq!(runaway.l0_indices.len(), 2);
    assert_eq!(runaway.l0_indices[0], 0);
    assert_eq!(L0_BIT_SIZE as u64 - runaway.l0_indices[1], 64);
    assert_eq!(runaway.select0(64), Some(L1_BIT_SIZE + 63));
    assert_eq!(runaway.select0(128), Some(L0_BIT_SIZE + L1_BIT_SIZE + 63));
}

#[test]
fn select1_l0() {
    let mut bv = Bits::repeat(false, L0_BIT_SIZE * 3);
    bv.set(0, true);
    bv.set(1 << 32, true);
    bv.set((1 << 32) * 2, true);
    let runaway = RunawayVector::new(&bv);
    assert_eq!(runaway.l0_indices[0], 0);
    assert_eq!(runaway.l0_indices[1], 1);
    assert_eq!(runaway.l0_indices[2], 2);
    assert_eq!(runaway.select1(1), Some(0));
    assert_eq!(runaway.select1(2), Some(1 << 32));
    assert_eq!(runaway.select1(3), Some((1 << 32) * 2));
    assert_eq!(runaway.select1(4), None);
}

#[test]
fn select1_l0_and_l1() {
    let mut bv = Bits::repeat(false, L0_BIT_SIZE * 2);
    for i in 0..64 {
        bv.set(L1_BIT_SIZE + i, true);
        bv.set(L0_BIT_SIZE + L1_BIT_SIZE + i, true);
    }
    let runaway = RunawayVector::new(&bv);
    assert_eq!(runaway.select1(64), Some(L1_BIT_SIZE + 63));
    assert_eq!(runaway.select1(128), Some(L0_BIT_SIZE + L1_BIT_SIZE + 63));
}

#[test]
fn select1_somewhere() {
    const LEN: usize = L0_BIT_SIZE + L1_BIT_SIZE * ((L0_BIT_SIZE / L1_BIT_SIZE) / (11000));
    let mut bv = Bits::repeat(false, LEN);
    bv.set(0, true);
    for i in L0_BIT_SIZE..LEN {
        bv.set(i, true);
    }
    let runaway = RunawayVector::new(&bv);
    for i in 2..LEN - L0_BIT_SIZE {
        assert_eq!(runaway.select1(i), Some(i + L0_BIT_SIZE - 2));
    }
}

#[test]
fn rank1() {
    let bv = Bits::repeat(true, L1_BIT_SIZE * 8192);
    let runaway = RunawayVector::new(&bv);
    for i in 0..bv.len() {
        assert_eq!(runaway.rank1(i), i);
    }
}

#[test]
fn rank0() {
    let bv = Bits::repeat(false, L1_BIT_SIZE * 8192);
    let runaway = RunawayVector::new(&bv);
    for i in 0..bv.len() {
        assert_eq!(runaway.rank0(i), i);
    }
}

#[test]
fn rank1_l0() {
    let mut bv = Bits::repeat(false, L0_BIT_SIZE * 2);
    for i in 0..128 {
        bv.set(L1_BIT_SIZE + i, true);
        bv.set(L1_BIT_SIZE * 2 + i, true);
        bv.set(L1_BIT_SIZE * 3 + i, true);
        bv.set(L0_BIT_SIZE + L1_BIT_SIZE * 4689 + i, true);
    }
    let runaway = RunawayVector::new(&bv);
    for i in L1_BIT_SIZE..L1_BIT_SIZE + 128 {
        assert_eq!(runaway.rank1(i), i % L1_BIT_SIZE);
    }
    for i in L1_BIT_SIZE * 2..L1_BIT_SIZE * 2 + 128 {
        assert_eq!(runaway.rank1(i), i % L1_BIT_SIZE + 128);
    }
    for i in L1_BIT_SIZE * 3..L1_BIT_SIZE * 3 + 128 {
        assert_eq!(runaway.rank1(i), i % L1_BIT_SIZE + 128 * 2);
    }
    for i in L0_BIT_SIZE + L1_BIT_SIZE * 4689..L0_BIT_SIZE + L1_BIT_SIZE * 4689 + 128 {
        assert_eq!(runaway.rank1(i), i % L1_BIT_SIZE + 128 * 3);
    }
}

#[test]
fn len_l0_zeros() {
    let n = L0_BIT_SIZE;
    let bv = Bits::repeat(false, n);
    let v = RunawayVector::new(&bv);
    assert_eq!(v.l0_indices.len(), 1);
    assert_eq!(v.rank0(n - 1), n - 1);
    assert_eq!(v.select0(n), Some(n - 1));
    assert_eq!(v.select1(1), None);
}

#[test]
fn len_l0_ones() {
    let n = L0_BIT_SIZE;
    let bv = all_ones(n);
    let v = RunawayVector::new(&bv);
    assert_eq!(v.rank1(n - 1), n - 1);
    assert_eq!(v.select1(n), Some(n - 1));
    assert_eq!(v.select0(1), None);
}

#[test]
fn len_l0_plus_one_zeros() {
    let n = L0_BIT_SIZE + 1;
    let zeros = Bits::repeat(false, n);
    let v = RunawayVector::new(&zeros);
    assert_eq!(v.l0_indices.len(), 2);
    assert_eq!(v.select0(n), Some(n - 1));
    assert_eq!(v.select1(1), None);
}

#[test]
fn len_l0_plus_one_ones() {
    let n = L0_BIT_SIZE + 1;
    let ones = all_ones(n);
    let v = RunawayVector::new(&ones);
    assert_eq!(v.l0_indices[1], L0_BIT_SIZE as u64);
    assert_eq!(v.select1(n), Some(n - 1));
    assert_eq!(v.rank1(n - 1), n - 1);
    assert_eq!(v.select0(1), None);
}

#[test]
fn single_bit_l0_boundary() {
    let n = L0_BIT_SIZE + 2;
    for &pos in &[L0_BIT_SIZE - 1, L0_BIT_SIZE] {
        let mut bv = Bits::repeat(false, n);
        bv.set(pos, true);
        let v = RunawayVector::new(&bv);
        assert_eq!(v.select1(1), Some(pos));
        assert_eq!(v.rank1(pos), 0);
        assert_eq!(v.rank1(pos + 1), 1);
        assert_eq!(v.rank0(pos), pos);
        assert_eq!(v.select1(2), None);
    }
}

#[test]
fn super_block_straddles_l0() {
    // 100 set bits on each side of the L0 boundary.
    let n = L0_BIT_SIZE + 2 * L1_BIT_SIZE;
    let mut bv = Bits::repeat(false, n);
    for i in L0_BIT_SIZE - 100..L0_BIT_SIZE + 100 {
        bv.set(i, true);
    }
    let v = RunawayVector::new(&bv);
    assert_eq!(v.rank1(L0_BIT_SIZE), 100);
    assert_eq!(v.rank1(L0_BIT_SIZE + 100), 200);
    assert_eq!(v.select1(1), Some(L0_BIT_SIZE - 100));
    assert_eq!(v.select1(100), Some(L0_BIT_SIZE - 1));
    assert_eq!(v.select1(101), Some(L0_BIT_SIZE));
    assert_eq!(v.select1(200), Some(L0_BIT_SIZE + 99));
    assert_eq!(v.select1(201), None);
    assert_eq!(v.select0(L0_BIT_SIZE - 100), Some(L0_BIT_SIZE - 101));
    assert_eq!(v.select0(L0_BIT_SIZE - 99), Some(L0_BIT_SIZE + 100));
}
