use kilojoule::list_access::{list_position, slice_bound, slice_range};
use kilojoule::parser_reducers::unescape_format_text;
use kilojoule::val::json_escape;

#[test]
fn format_text_escapes_are_replaced() {
    assert_eq!(unescape_format_text(b"a\\nb"), Some(b"a\nb".to_vec()));
    assert_eq!(unescape_format_text(b"\\{\\}\\t\\r\\\"\\'\\\\"), Some(b"{}\t\r\"'\\".to_vec()));
    assert_eq!(unescape_format_text(b"plain"), Some(b"plain".to_vec()));
    assert_eq!(unescape_format_text(b""), Some(Vec::new()));
}

#[test]
fn format_text_with_unknown_escape_is_refused() {
    assert_eq!(unescape_format_text(b"\\q"), None);
    assert_eq!(unescape_format_text(b"abc\\"), None);
}

#[test]
fn json_escape_quotes_and_escapes() {
    assert_eq!(json_escape(b"a\"b\\c\nd\te\rf"), b"\"a\\\"b\\\\c\\nd\\te\\rf\"".to_vec());
    assert_eq!(json_escape(b""), b"\"\"".to_vec());
}

#[test]
fn slice_bounds_clamp_and_count_from_the_end() {
    assert_eq!(slice_bound(5, 2, false), 2);
    assert_eq!(slice_bound(5, 9, false), 5);
    assert_eq!(slice_bound(5, 1, true), 4);
    assert_eq!(slice_bound(5, 9, true), 0);
    assert_eq!(slice_range(5, Some((1, false)), Some((4, false))), (1, 4));
    assert_eq!(slice_range(5, None, None), (0, 5));
    assert_eq!(slice_range(5, Some((1, false)), Some((0, false))), (1, 1));
    assert_eq!(slice_range(5, Some((4, true)), Some((1, true))), (1, 4));
    assert_eq!(slice_range(5, Some((6, false)), None), (5, 5));
}

#[test]
fn list_positions_from_either_end() {
    assert_eq!(list_position(5, 0, false), Some(0));
    assert_eq!(list_position(5, 0, true), Some(4));
    assert_eq!(list_position(5, 4, true), Some(0));
    assert_eq!(list_position(5, 5, false), None);
    assert_eq!(list_position(0, 0, true), None);
}
