//! Turning the text of tokens into values.
use vstd::prelude::*;
use vstd::string::StringSliceAdditionalSpecFns;
use vstd::utf8::{encode_utf8, valid_utf8};
use crate::obj_core::str_from_utf8;
use crate::val::{json_escape_body, json_escaped_byte, lemma_json_escape_concat};

verus! {

/// The byte that `\c` stands for in a string literal: a newline, carriage return or tab
/// for `n`, `r` and `t`, and `c` itself otherwise.
pub open spec fn escaped_byte(c: u8) -> u8 {
    if c == 110 {
        10
    } else if c == 114 {
        13
    } else if c == 116 {
        9
    } else {
        c
    }
}

/// The bytes of a string literal's body with its escapes replaced; a backslash at the
/// very end stays.
pub open spec fn unescape(t: Seq<u8>) -> Seq<u8>
    decreases t.len(),
{
    if t.len() == 0 {
        Seq::empty()
    } else if t[0] == 92 {
        if t.len() == 1 {
            seq![92u8]
        } else {
            seq![escaped_byte(t[1])] + unescape(t.skip(2))
        }
    } else {
        seq![t[0]] + unescape(t.skip(1))
    }
}

/// The body of a quoted literal: its bytes without the first and the last.
pub open spec fn literal_body(bytes: Seq<u8>) -> Seq<u8> {
    bytes.subrange(1, bytes.len() - 1)
}

/// The text of a quoted string literal: the quotes are dropped and the escapes
/// replaced. The result must be UTF-8, as it is for a literal quoted with ASCII quotes.
pub fn escape_string_literal(input: &str) -> (r: String)
    requires
        input.spec_bytes().len() >= 2,
        valid_utf8(unescape(literal_body(input.spec_bytes()))),
    ensures
        encode_utf8(r@) == unescape(literal_body(input.spec_bytes())),
{
    let bytes = input.as_bytes();
    let trimmed = vstd::slice::slice_subrange(bytes, 1, bytes.len() - 1);
    let ghost t = trimmed@;
    let mut escaped_bytes: Vec<u8> = Vec::new();
    let mut idx: usize = 0;
    proof {
        assert(t.skip(0) =~= t);
    }
    while idx < trimmed.len()
        invariant
            t == trimmed@,
            0 <= idx <= t.len(),
            escaped_bytes@ + unescape(t.skip(idx as int)) == unescape(t),
        decreases t.len() - idx,
    {
        let ghost rest = t.skip(idx as int);
        if trimmed[idx] == 92 {
            if idx + 1 >= trimmed.len() {
                escaped_bytes.push(trimmed[idx]);
                proof {
                    assert(t.skip(idx + 1) =~= Seq::<u8>::empty());
                    assert(unescape(t.skip(idx + 1)) =~= Seq::<u8>::empty());
                    assert(escaped_bytes@ + unescape(t.skip(idx + 1)) =~= unescape(t));
                }
                idx = idx + 1;
            } else {
                let next_char = trimmed[idx + 1];
                let b: u8 = if next_char == 110 {
                    10
                } else if next_char == 114 {
                    13
                } else if next_char == 116 {
                    9
                } else {
                    next_char
                };
                escaped_bytes.push(b);
                proof {
                    assert(rest.skip(2) =~= t.skip(idx + 2));
                    assert(escaped_bytes@ + unescape(t.skip(idx + 2)) =~= unescape(t));
                }
                idx = idx + 2;
            }
        } else {
            escaped_bytes.push(trimmed[idx]);
            proof {
                assert(rest.skip(1) =~= t.skip(idx + 1));
                assert(escaped_bytes@ + unescape(t.skip(idx + 1)) =~= unescape(t));
            }
            idx = idx + 1;
        }
    }
    proof {
        assert(t.skip(idx as int) =~= Seq::<u8>::empty());
        assert(unescape(t.skip(idx as int)) =~= Seq::<u8>::empty());
        assert(escaped_bytes@ =~= unescape(t));
    }
    let text = str_from_utf8(escaped_bytes.as_slice());
    text.to_owned()
}

/// The bytes that may follow a backslash in the text of a format string: `n`, `r`,
/// `t`, `\`, `"`, `'`, `{` and `}`.
pub open spec fn format_escape_ok(c: u8) -> bool {
    c == 110 || c == 114 || c == 116 || c == 92 || c == 34 || c == 39 || c == 123 || c == 125
}

/// Every backslash in `t` is followed by a byte that it escapes.
pub open spec fn format_text_ok(t: Seq<u8>) -> bool
    decreases t.len(),
{
    if t.len() == 0 {
        true
    } else if t[0] == 92 {
        t.len() >= 2 && format_escape_ok(t[1]) && format_text_ok(t.skip(2))
    } else {
        format_text_ok(t.skip(1))
    }
}

/// The text of a format string with its escapes replaced: `\n`, `\r` and `\t` stand
/// for a newline, a carriage return and a tab, and the other escapes for the byte after
/// the backslash.
pub open spec fn unescape_format(t: Seq<u8>) -> Seq<u8>
    decreases t.len(),
{
    if t.len() == 0 {
        Seq::empty()
    } else if t[0] == 92 && t.len() >= 2 {
        seq![escaped_byte(t[1])] + unescape_format(t.skip(2))
    } else {
        seq![t[0]] + unescape_format(t.skip(1))
    }
}

/// What JSON text writes for a byte string reads back as that byte string, both as the
/// body of a string literal and as the text of a format string: each escape the writer
/// makes (for a newline, a tab, a carriage return, a quote and a backslash) is one the
/// reader replaces by the byte it stands for.
pub proof fn lemma_escaped_text_reads_back(t: Seq<u8>)
    ensures
        unescape(json_escape_body(t)) == t,
        format_text_ok(json_escape_body(t)),
        unescape_format(json_escape_body(t)) == t,
    decreases t.len(),
{
    if t.len() == 0 {
        assert(json_escape_body(t) =~= Seq::<u8>::empty());
        assert(t =~= Seq::<u8>::empty());
    } else {
        let c = t[0];
        let rest = t.drop_first();
        lemma_escaped_text_reads_back(rest);
        assert(t =~= seq![c] + rest);
        lemma_json_escape_concat(seq![c], rest);
        let e = json_escape_body(seq![c]);
        let r = json_escape_body(rest);
        assert(seq![c].drop_last() =~= Seq::<u8>::empty());
        assert(json_escape_body(Seq::<u8>::empty()) =~= Seq::<u8>::empty());
        assert(e =~= json_escaped_byte(c));
        let w = e + r;
        assert(json_escape_body(t) == w);
        if e.len() == 1 {
            assert(w[0] == c);
            assert(w.skip(1) =~= r);
            assert(c != 92);
            assert(unescape(w) == seq![c] + unescape(r));
            assert(unescape_format(w) == seq![c] + unescape_format(r));
            assert(format_text_ok(w) == format_text_ok(r));
        } else {
            assert(w[0] == 92u8);
            assert(w.skip(2) =~= r);
            assert(w[1] == e[1]);
            assert(escaped_byte(e[1]) == c);
            assert(unescape(w) == seq![c] + unescape(r));
            assert(unescape_format(w) == seq![c] + unescape_format(r));
            assert(format_text_ok(w) == format_text_ok(r));
        }
    }
}

/// The text of a piece of a format string with its escapes replaced, or `None` when a
/// backslash is not followed by a byte that it escapes.
pub fn unescape_format_text(text: &[u8]) -> (r: Option<Vec<u8>>)
    ensures
        r is Some <==> format_text_ok(text@),
        r matches Some(v) ==> v@ == unescape_format(text@),
{
    let ghost t = text@;
    let mut buffer: Vec<u8> = Vec::new();
    let mut idx: usize = 0;
    proof {
        assert(t.skip(0) =~= t);
    }
    while idx < text.len()
        invariant
            t == text@,
            0 <= idx <= t.len(),
            format_text_ok(t) == format_text_ok(t.skip(idx as int)),
            buffer@ + unescape_format(t.skip(idx as int)) == unescape_format(t),
        decreases t.len() - idx,
    {
        let ghost rest = t.skip(idx as int);
        let ch = text[idx];
        if ch == 92 {
            if idx + 1 >= text.len() {
                return None;
            }
            let next = text[idx + 1];
            let b: u8 = if next == 110 {
                10
            } else if next == 114 {
                13
            } else if next == 116 {
                9
            } else if next == 92 || next == 34 || next == 39 || next == 123 || next == 125 {
                next
            } else {
                return None;
            };
            buffer.push(b);
            proof {
                assert(rest.skip(2) =~= t.skip(idx + 2));
                assert(buffer@ + unescape_format(t.skip(idx + 2)) =~= unescape_format(t));
            }
            idx = idx + 2;
        } else {
            buffer.push(ch);
            proof {
                assert(rest.skip(1) =~= t.skip(idx + 1));
                assert(buffer@ + unescape_format(t.skip(idx + 1)) =~= unescape_format(t));
            }
            idx = idx + 1;
        }
    }
    proof {
        assert(t.skip(idx as int) =~= Seq::<u8>::empty());
        assert(buffer@ =~= unescape_format(t));
    }
    Some(buffer)
}

} // verus!
