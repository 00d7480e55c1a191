use kilojoule::parser::{ParseError, ParseErrorType};
use kilojoule::parser_reducers::escape_string_literal;
use kilojoule::reader::{ReaderTrait, StrReader};
use kilojoule::ring_buffer::RingBufferAllocator;
use kilojoule::val::bytes_cmp;
use std::cmp::Ordering;

#[test]
fn parse_error_message() {
    let err = ParseError::new(5, ParseErrorType::IncompleteParse);
    assert_eq!(err.to_string(), "Parser error 'IncompleteParse' at index 5");
    let err = ParseError::new(0, ParseErrorType::NoClosingParen);
    assert_eq!(err.to_string(), "Parser error 'NoClosingParen' at index 0");
    let err = ParseError::new(1234567, ParseErrorType::NoExprInLetStmt);
    assert_eq!(err.to_string(), "Parser error 'NoExprInLetStmt' at index 1234567");
}

#[test]
fn escape_string_literal_drops_quotes_and_escapes() {
    assert_eq!(escape_string_literal("''"), "");
    assert_eq!(escape_string_literal("'string'"), "string");
    assert_eq!(escape_string_literal("\"a\\nb\\tc\\rd\""), "a\nb\tc\rd");
    assert_eq!(escape_string_literal("' \\{\\}\\\"\\'\\\\ '"), " {}\"'\\ ");
    assert_eq!(escape_string_literal("'\\q'"), "q");
    assert_eq!(escape_string_literal("'ab\\'"), "ab\\");
    assert_eq!(escape_string_literal("'é'"), "é");
}

#[test]
fn bytes_cmp_orders_lexicographically() {
    assert_eq!(bytes_cmp(&vec![1, 2, 3], &vec![1, 2, 3]), Ordering::Equal);
    assert_eq!(bytes_cmp(&vec![1, 2], &vec![1, 2, 3]), Ordering::Less);
    assert_eq!(bytes_cmp(&vec![1, 2, 3], &vec![1, 2]), Ordering::Greater);
    assert_eq!(bytes_cmp(&vec![1, 9], &vec![2]), Ordering::Less);
    assert_eq!(bytes_cmp(&vec![3], &vec![2, 9, 9]), Ordering::Greater);
    assert_eq!(bytes_cmp(&vec![], &vec![]), Ordering::Equal);
}

#[test]
fn str_reader_steps_through_bytes() {
    let mut reader = StrReader::new("ab");
    assert_eq!(reader.peek(), Some(b'a'));
    assert_eq!(reader.get_idx(), 0);
    reader.step();
    assert_eq!(reader.peek(), Some(b'b'));
    reader.step();
    assert_eq!(reader.peek(), None);
    assert_eq!(reader.get_idx(), 2);
}

#[test]
fn ring_buffer_fills_blocks_in_order() {
    let mut alloc = RingBufferAllocator::<u32>::new(3);
    let mut buf = alloc.new_buffer();
    assert_eq!(buf.end_block_id(), usize::MAX);
    buf.extend(&mut alloc, vec![1, 2]);
    let first = buf.end_block_id();
    assert_eq!(alloc.block_values(first), &vec![1, 2]);
    buf.extend(&mut alloc, vec![3, 4, 5, 6, 7]);
    assert_eq!(alloc.block_values(first), &vec![1, 2, 3]);
    let second = alloc.next_block_id(first);
    assert_eq!(alloc.block_values(second), &vec![4, 5, 6]);
    let third = alloc.next_block_id(second);
    assert_eq!(alloc.block_values(third), &vec![7]);
    assert_eq!(alloc.next_block_id(third), usize::MAX);
    assert_eq!(buf.end_block_id(), third);
    let mut other = alloc.new_buffer();
    other.extend(&mut alloc, vec![8]);
    let other_block = other.end_block_id();
    assert!(other_block != first && other_block != second && other_block != third);
    assert_eq!(alloc.block_values(other_block), &vec![8]);
    buf.extend(&mut alloc, vec![]);
    buf.extend(&mut alloc, vec![9]);
    assert_eq!(buf.end_block_id(), third);
    assert_eq!(alloc.block_values(third), &vec![7, 9]);
    assert_eq!(alloc.block_values(first), &vec![1, 2, 3]);
}

#[test]
fn bytes_cmp_is_antisymmetric_and_equal_only_on_same_bytes() {
    let a = vec![1u8, 2, 3];
    let b = vec![1u8, 2, 4];
    assert_eq!(bytes_cmp(&a, &b), Ordering::Less);
    assert_eq!(bytes_cmp(&b, &a), Ordering::Greater);
    assert_eq!(bytes_cmp(&a, &a.clone()), Ordering::Equal);
    assert_eq!(bytes_cmp(&vec![1u8, 2], &a), Ordering::Less);
}

#[test]
fn str_reader_peeks_the_text_byte_at_its_position() {
    let text = "a\u{e9}z";
    let mut reader = StrReader::new(text);
    let bytes = text.as_bytes();
    for k in 0..bytes.len() + 2 {
        assert_eq!(reader.get_idx(), k);
        assert_eq!(reader.peek(), bytes.get(k).copied());
        assert_eq!(reader.get_idx(), k);
        reader.step();
    }
}
