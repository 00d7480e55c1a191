use kilojoule::obj_core::{
    end_list, end_object, get_list_elem_idx, get_list_len, get_obj_len_bytes, get_object_key_idx,
    get_object_len, get_object_value_idx, obj_cmp, read_i64, read_string, read_u64, start_list,
    start_object, write_i64, write_string, write_u64,
};

#[test]
fn test_basic_i64() {
    let mut vec = Vec::<u8>::new();
    write_i64(&mut vec, 123456);
    assert_eq!(read_i64(&vec, 0), 123456);
    assert_eq!(get_obj_len_bytes(&vec, 0), 9);
}

#[test]
fn test_basic_u64() {
    let mut vec = Vec::<u8>::new();
    write_u64(&mut vec, 123456);
    assert_eq!(read_u64(&vec, 0), 123456);
}

#[test]
fn test_string() {
    let mut vec = Vec::<u8>::new();
    write_string(&mut vec, "stuff and things");
    assert_eq!(read_string(&vec, 0), "stuff and things");
}

#[test]
fn obj_core_test_list() {
    let mut vec = Vec::<u8>::new();
    write_i64(&mut vec, -1);
    let list_idx = vec.len();
    let lst = start_list(&mut vec);
    write_i64(&mut vec, 123);
    write_string(&mut vec, "stuff");
    write_i64(&mut vec, 321);
    end_list(&mut vec, &lst);

    assert_eq!(get_list_len(&vec, list_idx), 3);
    assert_eq!(read_i64(&vec, get_list_elem_idx(&vec, list_idx, 0)), 123);
    assert_eq!(read_string(&vec, get_list_elem_idx(&vec, list_idx, 1)), "stuff");
    assert_eq!(read_i64(&vec, get_list_elem_idx(&vec, list_idx, 2)), 321);
}

#[test]
fn test_obj() {
    let mut vec = Vec::<u8>::new();
    let mut sort_buf = Vec::<usize>::new();
    write_i64(&mut vec, -1);
    let obj_idx = vec.len();
    let obj = start_object(&mut vec);
    write_i64(&mut vec, 20);
    write_i64(&mut vec, 22);

    write_i64(&mut vec, 10);
    write_i64(&mut vec, 11);

    end_object(&mut vec, &obj, &mut sort_buf);

    assert_eq!(get_object_len(&vec, obj_idx), 2);

    let k0 = vec.len();
    write_i64(&mut vec, 20);
    assert_eq!(read_i64(&vec, get_object_value_idx(&vec, obj_idx, k0).unwrap()), 22);

    let k1 = vec.len();
    write_i64(&mut vec, 10);
    assert_eq!(read_i64(&vec, get_object_value_idx(&vec, obj_idx, k1).unwrap()), 11);

    let k2 = vec.len();
    write_i64(&mut vec, 999);
    assert_eq!(get_object_value_idx(&vec, obj_idx, k2), None);
}

#[test]
fn test_obj_dupe_vals() {
    let mut vec = Vec::<u8>::new();
    let mut sort_buf = Vec::<usize>::new();
    write_i64(&mut vec, -1);
    let obj_idx = vec.len();
    let obj = start_object(&mut vec);
    write_i64(&mut vec, 20);
    write_i64(&mut vec, 22);

    write_i64(&mut vec, 10);
    write_i64(&mut vec, 11);

    write_i64(&mut vec, 20);
    write_i64(&mut vec, 222);

    write_i64(&mut vec, 40);
    write_i64(&mut vec, 44);

    end_object(&mut vec, &obj, &mut sort_buf);

    assert_eq!(get_object_len(&vec, obj_idx), 3);

    let k0 = vec.len();
    write_i64(&mut vec, 20);
    assert_eq!(read_i64(&vec, get_object_value_idx(&vec, obj_idx, k0).unwrap()), 222);

    let k1 = vec.len();
    write_i64(&mut vec, 10);
    assert_eq!(read_i64(&vec, get_object_value_idx(&vec, obj_idx, k1).unwrap()), 11);

    let k2 = vec.len();
    write_i64(&mut vec, 40);
    assert_eq!(read_i64(&vec, get_object_value_idx(&vec, obj_idx, k2).unwrap()), 44);
}

#[test]
fn obj_core_completed_object_layout() {
    // three pairs, one key repeated: the body keeps the later pair and the order
    // in which pairs were written; the index table is ordered by key
    let mut vec = Vec::<u8>::new();
    let mut sort_buf = vec![7usize, 8];
    let obj = start_object(&mut vec);
    write_i64(&mut vec, 5);
    write_i64(&mut vec, 50);
    write_i64(&mut vec, 3);
    write_i64(&mut vec, 30);
    write_i64(&mut vec, 5);
    write_i64(&mut vec, 51);
    end_object(&mut vec, &obj, &mut sort_buf);
    assert!(sort_buf.is_empty());
    // header: LEN = 2, N_BYTES = 17 + 2 * 18 + 2 * 8
    assert_eq!(get_object_len(&vec, 0), 2);
    assert_eq!(vec.len(), 17 + 36 + 16);
    assert_eq!(u64::from_le_bytes(vec[9..17].try_into().unwrap()), 69);
    // body: (3, 30) then (5, 51)
    assert_eq!(read_i64(&vec, 17), 3);
    assert_eq!(read_i64(&vec, 26), 30);
    assert_eq!(read_i64(&vec, 35), 5);
    assert_eq!(read_i64(&vec, 44), 51);
    // index table: offsets of the keys, ordered by key
    assert_eq!(u64::from_le_bytes(vec[53..61].try_into().unwrap()), 17);
    assert_eq!(u64::from_le_bytes(vec[61..69].try_into().unwrap()), 35);
}

#[test]
fn obj_core_key_order_and_lookup() {
    let mut vec = Vec::<u8>::new();
    write_i64(&mut vec, -5);
    write_i64(&mut vec, 7);
    write_u64(&mut vec, 7);
    assert_eq!(obj_cmp(&vec, 0, 9), std::cmp::Ordering::Less);
    assert_eq!(obj_cmp(&vec, 9, 0), std::cmp::Ordering::Greater);
    assert_eq!(obj_cmp(&vec, 9, 9), std::cmp::Ordering::Equal);
    // an unsigned key sorts before any signed key
    assert_eq!(obj_cmp(&vec, 18, 0), std::cmp::Ordering::Less);

    let mut sort_buf = Vec::new();
    let obj_idx = vec.len();
    let obj = start_object(&mut vec);
    write_i64(&mut vec, 9);
    write_string(&mut vec, "nine");
    write_i64(&mut vec, -9);
    write_string(&mut vec, "minus nine");
    end_object(&mut vec, &obj, &mut sort_buf);
    let k = vec.len();
    write_i64(&mut vec, -9);
    let key_pos = get_object_key_idx(&vec, obj_idx, k).unwrap();
    assert_eq!(read_i64(&vec, key_pos), -9);
    let val = get_object_value_idx(&vec, obj_idx, k).unwrap();
    assert_eq!(read_string(&vec, val), "minus nine");
    let missing = vec.len();
    write_i64(&mut vec, 0);
    assert_eq!(get_object_key_idx(&vec, obj_idx, missing), None);
}

#[test]
fn obj_core_item_lengths() {
    let mut vec = Vec::<u8>::new();
    write_string(&mut vec, "abc");
    assert_eq!(get_obj_len_bytes(&vec, 0), 12);
    let lst = start_list(&mut vec);
    write_u64(&mut vec, 1);
    end_list(&mut vec, &lst);
    // header, one item, one offset
    assert_eq!(get_obj_len_bytes(&vec, 12), 17 + 9 + 8);
    assert_eq!(get_list_len(&vec, 12), 1);
    assert_eq!(read_u64(&vec, get_list_elem_idx(&vec, 12, 0)), 1);
}
