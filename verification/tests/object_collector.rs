use kilojoule::byte_vec::{ByteVec, ByteVecTrait};
use kilojoule::json_lexer::JsonLexer;
use kilojoule::object_collector::ObjectCollector;
use kilojoule::reader::StrReader;

#[test]
fn test_basic_int64() {
    let mut reader = StrReader::new("123");
    let mut lexer = JsonLexer::new(&mut reader);
    let mut byte_vec = ByteVec::new();
    ObjectCollector::populate_from_lexer(&mut lexer, &mut byte_vec);

    assert_eq!(ObjectCollector::get_i64(0, &byte_vec), 123);
}

#[test]
fn test_basic_list_of_ints() {
    let mut reader = StrReader::new("[3, 1, 2]");
    let mut lexer = JsonLexer::new(&mut reader);
    let mut byte_vec = ByteVec::new();
    ObjectCollector::populate_from_lexer(&mut lexer, &mut byte_vec);

    let list = ObjectCollector::get_list(0, &byte_vec);
    assert_eq!(list.len(&byte_vec), 3);
    assert_eq!(
        ObjectCollector::get_i64(list.get(0, &byte_vec), &byte_vec),
        3
    );
    assert_eq!(
        ObjectCollector::get_i64(list.get(1, &byte_vec), &byte_vec),
        1
    );
    assert_eq!(
        ObjectCollector::get_i64(list.get(2, &byte_vec), &byte_vec),
        2
    );
}

#[test]
fn test_empty_list() {
    let mut reader = StrReader::new("[]");
    let mut lexer = JsonLexer::new(&mut reader);
    let mut byte_vec = ByteVec::new();
    ObjectCollector::populate_from_lexer(&mut lexer, &mut byte_vec);

    let list = ObjectCollector::get_list(0, &byte_vec);
    assert_eq!(list.len(&byte_vec), 0);
}

#[test]
fn test_simple_list_of_lists() {
    let mut reader = StrReader::new("[[]]");
    let mut lexer = JsonLexer::new(&mut reader);
    let mut byte_vec = ByteVec::new();
    ObjectCollector::populate_from_lexer(&mut lexer, &mut byte_vec);
    let byte_vec = &byte_vec;

    let list0 = ObjectCollector::get_list(0, byte_vec);
    assert_eq!(list0.len(byte_vec), 1);

    let list1 = ObjectCollector::get_list(list0.get(0, byte_vec), byte_vec);
    assert_eq!(list1.len(byte_vec), 0);
}

#[test]
fn test_mixed_list_of_lists() {
    let mut reader = StrReader::new("[[1,2],3,[4,5,6],7]");
    let mut lexer = JsonLexer::new(&mut reader);
    let mut byte_vec = ByteVec::new();
    ObjectCollector::populate_from_lexer(&mut lexer, &mut byte_vec);
    let byte_vec = &byte_vec;

    let list0 = ObjectCollector::get_list(0, byte_vec);
    assert_eq!(list0.len(byte_vec), 4);

    let list1 = ObjectCollector::get_list(list0.get(0, byte_vec), byte_vec);
    assert_eq!(list1.len(byte_vec), 2);
    assert_eq!(
        ObjectCollector::get_i64(list1.get(0, byte_vec), byte_vec),
        1
    );
    assert_eq!(
        ObjectCollector::get_i64(list1.get(1, byte_vec), byte_vec),
        2
    );

    assert_eq!(
        ObjectCollector::get_i64(list0.get(1, byte_vec), byte_vec),
        3
    );

    let list2 = ObjectCollector::get_list(list0.get(2, byte_vec), byte_vec);
    assert_eq!(list2.len(byte_vec), 3);
    assert_eq!(
        ObjectCollector::get_i64(list2.get(0, byte_vec), byte_vec),
        4
    );
    assert_eq!(
        ObjectCollector::get_i64(list2.get(1, byte_vec), byte_vec),
        5
    );
}

#[test]
fn test_basic_string() {
    let mut reader = StrReader::new("\"hello world\"");
    let mut lexer = JsonLexer::new(&mut reader);
    let mut byte_vec = ByteVec::new();
    ObjectCollector::populate_from_lexer(&mut lexer, &mut byte_vec);
    let byte_vec = &byte_vec;

    let str0 = ObjectCollector::get_string(0, byte_vec);
    assert_eq!(str0.to_string(byte_vec), "hello world");
    assert_eq!(str0.len(byte_vec), 11);
}

#[test]
fn test_array_of_strings() {
    let mut reader = StrReader::new("[1, \"22\", 3, \"4\"]");
    let mut lexer = JsonLexer::new(&mut reader);
    let mut byte_vec = ByteVec::new();
    ObjectCollector::populate_from_lexer(&mut lexer, &mut byte_vec);
    let byte_vec = &byte_vec;

    let list = ObjectCollector::get_list(0, byte_vec);

    assert_eq!(ObjectCollector::get_i64(list.get(0, byte_vec), byte_vec), 1);

    let str0 = ObjectCollector::get_string(list.get(1, byte_vec), byte_vec);
    assert_eq!(str0.to_string(byte_vec), "22");
    assert_eq!(str0.len(byte_vec), 2);

    assert_eq!(ObjectCollector::get_i64(list.get(2, byte_vec), byte_vec), 3);

    let str1 = ObjectCollector::get_string(list.get(3, byte_vec), byte_vec);
    assert_eq!(str1.to_string(byte_vec), "4");
    assert_eq!(str1.len(byte_vec), 1);
}

#[test]
fn test_basic_object() {
    let mut reader = StrReader::new("{\"a\": 100, \"b\": 200}");
    let mut lexer = JsonLexer::new(&mut reader);
    let mut byte_vec = ByteVec::new();
    ObjectCollector::populate_from_lexer(&mut lexer, &mut byte_vec);
    let byte_vec = &byte_vec;

    let obj = ObjectCollector::get_object(0, byte_vec);
    assert_eq!(
        ObjectCollector::get_i64(obj.get_key(byte_vec, "a").unwrap(), byte_vec),
        100
    );
    assert_eq!(
        ObjectCollector::get_i64(obj.get_key(byte_vec, "b").unwrap(), byte_vec),
        200
    );
}

#[test]
fn object_collector_stores_bools_negatives_and_fractions() {
    let mut reader = StrReader::new("[true, false, -42, 3.75, 1e5, -2.5E-3]");
    let mut lexer = JsonLexer::new(&mut reader);
    let mut byte_vec = ByteVec::new();
    ObjectCollector::populate_from_lexer(&mut lexer, &mut byte_vec);
    let byte_vec = &byte_vec;

    let list = ObjectCollector::get_list(0, byte_vec);
    assert_eq!(list.len(byte_vec), 6);
    let t = list.get(0, byte_vec);
    assert_eq!(byte_vec.get_u8(t), 4);
    assert_eq!(byte_vec.get_u8(t + 1), 1);
    let f = list.get(1, byte_vec);
    assert_eq!(byte_vec.get_u8(f), 4);
    assert_eq!(byte_vec.get_u8(f + 1), 0);
    assert_eq!(ObjectCollector::get_i64(list.get(2, byte_vec), byte_vec), -42);
    // only the whole part of a number is kept
    assert_eq!(ObjectCollector::get_i64(list.get(3, byte_vec), byte_vec), 3);
    assert_eq!(ObjectCollector::get_i64(list.get(4, byte_vec), byte_vec), 1);
    assert_eq!(ObjectCollector::get_i64(list.get(5, byte_vec), byte_vec), -2);
    // header of the list: N_BYTES covers the header and all elements
    assert_eq!(byte_vec.get_u64(9), byte_vec.len());
}

#[test]
fn object_collector_object_layout_and_missing_key() {
    let mut reader = StrReader::new("{\"k\": [1], \"name\": \"x\\ny\"}");
    let mut lexer = JsonLexer::new(&mut reader);
    let mut byte_vec = ByteVec::new();
    ObjectCollector::populate_from_lexer(&mut lexer, &mut byte_vec);
    let byte_vec = &byte_vec;

    let obj = ObjectCollector::get_object(0, byte_vec);
    assert_eq!(obj.len(byte_vec), 2);
    assert_eq!(obj.get_key(byte_vec, "missing"), None);
    assert_eq!(obj.get_key(byte_vec, "nam"), None);
    let list = ObjectCollector::get_list(obj.get_key(byte_vec, "k").unwrap(), byte_vec);
    assert_eq!(list.len(byte_vec), 1);
    let s = ObjectCollector::get_string(obj.get_key(byte_vec, "name").unwrap(), byte_vec);
    assert_eq!(s.to_string(byte_vec), "x\ny");
    assert_eq!(s.len(byte_vec), 3);
}

#[test]
fn object_collector_empty_string_and_nested_objects() {
    let mut reader = StrReader::new("{\"a\": {\"b\": \"\"}}");
    let mut lexer = JsonLexer::new(&mut reader);
    let mut byte_vec = ByteVec::new();
    ObjectCollector::populate_from_lexer(&mut lexer, &mut byte_vec);
    let byte_vec = &byte_vec;

    let outer = ObjectCollector::get_object(0, byte_vec);
    let inner = ObjectCollector::get_object(outer.get_key(byte_vec, "a").unwrap(), byte_vec);
    assert_eq!(inner.len(byte_vec), 1);
    let s = ObjectCollector::get_string(inner.get_key(byte_vec, "b").unwrap(), byte_vec);
    assert_eq!(s.len(byte_vec), 0);
    assert_eq!(s.to_string(byte_vec), "");
}
