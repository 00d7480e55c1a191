use kilojoule::byte_vec::{ByteVec, ByteVecTrait};

#[test]
fn byte_vec_test_basic() {
    let mut byte_vec = ByteVec::new();
    assert_eq!(byte_vec.len(), 0);

    byte_vec.push_u8(1);
    byte_vec.push_u8(2);
    byte_vec.push_u8(3);
    assert_eq!(byte_vec.len(), 3);
    assert_eq!(byte_vec.get_u8(0), 1);
    assert_eq!(byte_vec.get_u8(1), 2);
    assert_eq!(byte_vec.get_u8(2), 3);

    let big_n0 = byte_vec.push_u64(u64::MAX);
    assert_eq!(big_n0, 3);
    assert_eq!(byte_vec.len(), 11);
    assert_eq!(byte_vec.get_u64(big_n0), u64::MAX);
    byte_vec.set_u64(big_n0, 42);
    assert_eq!(byte_vec.len(), 11);
    assert_eq!(byte_vec.get_u64(big_n0), 42);

    let big_n1 = byte_vec.push_i64(i64::MIN);
    let big_n2 = byte_vec.push_i64(i64::MAX);
    assert_eq!(big_n1, 11);
    assert_eq!(big_n2, 19);

    assert_eq!(byte_vec.len(), 27);
    assert_eq!(byte_vec.get_i64(big_n1), i64::MIN);
    assert_eq!(byte_vec.get_i64(big_n2), i64::MAX);
}

#[test]
fn test_aligned_slice() {
    for n_leading_bytes in 0..7 {
        let mut byte_vec = ByteVec::new();

        for _ in 0..n_leading_bytes {
            byte_vec.push_u8(1);
        }
        byte_vec.pad_for_value::<u64>();
        assert_eq!(byte_vec.len(), if n_leading_bytes == 0 { 0 } else { 8 });
        let slice_start = byte_vec.len();
        byte_vec.push_u64(100);
        byte_vec.push_u64(101);
        byte_vec.push_u64(102);
        byte_vec.push_u64(103);

        let mut slice = byte_vec.get_mut_slice(slice_start, 4);
        assert_eq!(slice.len(), 4);
        assert_eq!(slice.get(0), 100);
        assert_eq!(slice.get(1), 101);
        assert_eq!(slice.get(2), 102);
        assert_eq!(slice.get(3), 103);

        slice.set(1, 201);

        assert_eq!(byte_vec.get_u64(slice_start + 8), 201);
    }
}

#[test]
fn test_align_repro_error() {
    let mut byte_vec = ByteVec::new();
    for _ in 0..9 {
        byte_vec.push_u8(1);
    }
    byte_vec.pad_for_value::<u64>();
    assert_eq!(byte_vec.len(), 16);
}

#[test]
fn byte_vec_slice_iterator_yields_range_once() {
    let mut byte_vec = ByteVec::new();
    for b in [10u8, 11, 12, 13, 14] {
        byte_vec.push_u8(b);
    }
    let mut iter = byte_vec.get_slice_iterator(1, 3);
    assert_eq!(iter.next(), Some(&[11u8, 12, 13][..]));
    assert_eq!(iter.next(), None);
    let mut empty = byte_vec.get_slice_iterator(2, 0);
    assert_eq!(empty.next(), None);
}

#[test]
fn byte_vec_padding_already_aligned() {
    let mut byte_vec = ByteVec::new();
    byte_vec.push_u64(7);
    byte_vec.pad_for_value::<u64>();
    assert_eq!(byte_vec.len(), 8);
    byte_vec.push_u8(1);
    byte_vec.pad_for_value::<u32>();
    assert_eq!(byte_vec.len(), 12);
}
