use runaway_datastructures::runaway_vector::IndexError;
use runaway_datastructures::runaway_vector::InterleavedIndex;

#[test]
fn interleaved_index() {
    let l2s = [0b1001100111_u16, 0b1010101010_u16, 0b1100110011_u16];
    let l1 = 0b10101010_10101010_10101010_10101010_u32;
    let interleaved = InterleavedIndex::new(l1, &l2s).unwrap();
    assert_eq!(interleaved.l1(), l1);
    assert_eq!(interleaved.index(0).unwrap(), l2s[0]);
    assert_eq!(interleaved.index(1).unwrap(), l2s[1]);
    assert_eq!(interleaved.index(2).unwrap(), l2s[2]);
}

#[test]
fn interleaved_index_short() {
    let rec = InterleavedIndex::new(77, &[300, 511]).unwrap();
    assert_eq!(rec.l1(), 77);
    assert_eq!(rec.len(), 2);
    assert_eq!(rec.index(0).unwrap(), 300);
    assert_eq!(rec.index(1).unwrap(), 511);
}

#[test]
fn interleaved_index_too_many_slots() {
    let r = InterleavedIndex::new(1, &[1, 2, 3, 4]);
    assert_eq!(r, Err(IndexError::InvalidArgument));
}

#[test]
fn interleaved_index_slot_too_wide() {
    let r = InterleavedIndex::new(1, &[1024]);
    assert_eq!(r, Err(IndexError::InvalidArgument));
}

#[test]
fn interleaved_index_slot_out_of_range() {
    let rec = InterleavedIndex::new(5, &[9, 8, 7]).unwrap();
    assert_eq!(rec.len(), 3);
    assert_eq!(rec.index(3), Err(IndexError::OutOfRange));
    let empty = InterleavedIndex::new(5, &[]).unwrap();
    assert_eq!(empty.len(), 0);
    assert_eq!(empty.index(0), Err(IndexError::OutOfRange));
}
