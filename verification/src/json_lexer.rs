//! A streaming JSON lexer: it reads bytes from a reader and hands out one token at a
//! time, keeping only a stack of the nested structures it is inside.
use vstd::prelude::*;
use crate::reader::ReaderTrait;
use crate::val::json_escaped_byte;

verus! {

/// Where the lexer stands inside the structure it is reading.
#[derive(Clone, Copy, PartialEq, Eq, Structural, Debug)]
pub enum ParseState {
    ParseError,
    JsonStart,
    JsonInside,
    ObjectParseKey,
    ObjectParseCommaThenKey,
    ObjectParseValue,
    ListParseElement,
    ListParseCommaThenElement,
    NumberBeforeDecimalPoint,
    NumberAfterDecimalPoint,
    NumberExponentStart,
    NumberExponentDigit,
    StringInside,
}

/// One token of JSON text.
#[derive(PartialEq, Eq, Structural, Debug)]
pub enum JsonToken {
    Error(ErrorInfo),
    Done,
    InErrorState,
    ObjectStart,
    ObjectEnd,
    ListStart,
    ListEnd,
    NumberStart { is_negative: bool, digit: u8 },
    NumberDigit(u8),
    NumberDecimalPoint,
    NumberExponentStart,
    NumberEnd,
    StringStart,
    StringUtf8CodePoint(u8),
    StringEnd,
    True,
    False,
}

/// What went wrong, and at which position of the reader.
#[derive(PartialEq, Eq, Structural, Debug)]
pub struct ErrorInfo {
    pub idx: usize,
    pub error: ParseError,
}

/// The kinds of malformed input.
#[derive(PartialEq, Eq, Structural, Debug)]
pub enum ParseError {
    UnexpectedReaderEnd,
    UnexpectedCharacterAfterParseDone,
    MissingFirstCharacter,
    UnexpectedCharacter,
    NoCharacterAfterNegativeNumberStart,
    InvalidDigitAtNegativeNumberStart,
    ReaderFinishedInMiddleOfString,
    StringInvalidEscapeCharacter,
    ReaderFinishedInMiddleOfCodepoint,
    InvalidHexCodePoint,
}

// ----- the bytes of JSON text

/// Space, newline, tab or carriage return.
pub open spec fn is_ws(c: u8) -> bool {
    c == 32 || c == 10 || c == 9 || c == 13
}

/// A decimal digit.
pub open spec fn is_digit(c: u8) -> bool {
    48 <= c <= 57
}

/// The value of a hexadecimal digit.
pub open spec fn hex_value(c: u8) -> Option<u8> {
    if 48 <= c <= 57 {
        Some((c - 48) as u8)
    } else if 65 <= c <= 70 {
        Some((c - 65 + 10) as u8)
    } else if 97 <= c <= 102 {
        Some((c - 97 + 10) as u8)
    } else {
        None
    }
}

/// The byte that the escape `\c` stands for.
pub open spec fn escaped(c: u8) -> Option<u8> {
    if c == 34 {
        Some(34u8)
    } else if c == 92 {
        Some(92u8)
    } else if c == 47 {
        Some(47u8)
    } else if c == 98 {
        Some(8u8)
    } else if c == 102 {
        Some(12u8)
    } else if c == 110 {
        Some(10u8)
    } else if c == 114 {
        Some(13u8)
    } else if c == 116 {
        Some(9u8)
    } else {
        None
    }
}

/// The number of whitespace bytes at the start of `r`.
pub open spec fn ws_len(r: Seq<u8>) -> nat
    decreases r.len(),
{
    if r.len() > 0 && is_ws(r[0]) {
        1 + ws_len(r.drop_first())
    } else {
        0
    }
}

/// Whitespace skipping stops at the first byte that is not a space, newline, tab or
/// carriage return, and skips every byte before it.
pub proof fn lemma_ws_len_skips_whitespace(r: Seq<u8>)
    ensures
        ws_len(r) <= r.len(),
        forall|i: int| 0 <= i < ws_len(r) ==> #[trigger] r[i] == 32u8 || r[i] == 10u8 || r[i] == 9u8 || r[i] == 13u8,
        ws_len(r) < r.len() ==> !(r[ws_len(r) as int] == 32u8 || r[ws_len(r) as int] == 10u8 || r[ws_len(r) as int]
            == 9u8 || r[ws_len(r) as int] == 13u8),
    decreases r.len(),
{
    if r.len() > 0 && is_ws(r[0]) {
        let rest = r.drop_first();
        lemma_ws_len_skips_whitespace(rest);
        assert forall|i: int| 0 <= i < ws_len(r) implies #[trigger] r[i] == 32u8 || r[i] == 10u8 || r[i] == 9u8 || r[i]
            == 13u8 by {
            if i > 0 {
                assert(r[i] == rest[i - 1]);
            }
        }
        if ws_len(r) < r.len() {
            assert(r[ws_len(r) as int] == rest[ws_len(rest) as int]);
        }
    }
}

/// How far, from `k` on, `r` agrees with `lit`.
pub open spec fn literal_match(r: Seq<u8>, lit: Seq<u8>, k: nat) -> nat
    decreases lit.len() - k,
{
    if k < lit.len() && k < r.len() && r[k as int] == lit[k as int] {
        literal_match(r, lit, k + 1)
    } else {
        k
    }
}

/// The bytes of `true`.
pub open spec fn true_literal() -> Seq<u8> {
    seq![116u8, 114u8, 117u8, 101u8]
}

/// The bytes of `false`.
pub open spec fn false_literal() -> Seq<u8> {
    seq![102u8, 97u8, 108u8, 115u8, 101u8]
}

/// Where the four hexadecimal digits of a `\u` escape, from `i` on, first fail, and why.
pub open spec fn hex_failure(r: Seq<u8>, i: nat) -> Option<(nat, ParseError)>
    decreases 4 - i,
{
    if i >= 4 {
        None
    } else if r.len() <= i {
        Some((i, ParseError::ReaderFinishedInMiddleOfCodepoint))
    } else if hex_value(r[i as int]) is None {
        Some((i, ParseError::InvalidHexCodePoint))
    } else {
        hex_failure(r, i + 1)
    }
}

/// The value of four hexadecimal digits.
pub open spec fn hex_quad(r: Seq<u8>) -> int {
    4096 * hex_value(r[0])->0 + 256 * hex_value(r[1])->0 + 16 * hex_value(r[2])->0 + hex_value(r[3])->0
}

// ----- one step of the lexer

/// A step of the lexer: the stack after it, the number of bytes it consumed, and the
/// token it hands out.
pub type LexStep = (Seq<ParseState>, int, JsonToken);

/// The stack with its top replaced.
pub open spec fn with_top(stack: Seq<ParseState>, s: ParseState) -> Seq<ParseState> {
    stack.update(stack.len() - 1, s)
}

/// A failed step: the lexer stays in its error state, and the error is reported at the
/// position reached.
pub open spec fn failed(pos: int, consumed: int, error: ParseError) -> LexStep {
    (seq![ParseState::ParseError], consumed, JsonToken::Error(ErrorInfo { idx: (pos + consumed) as usize, error }))
}

/// A step that consumed `extra` bytes before `s`.
pub open spec fn after(extra: int, s: LexStep) -> LexStep {
    (s.0, s.1 + extra, s.2)
}

/// Reading `lit`, whose first byte is the first byte of `r`, as a keyword.
pub open spec fn literal_step(base: Seq<ParseState>, r: Seq<u8>, pos: int, lit: Seq<u8>, token: JsonToken) -> LexStep {
    let k = literal_match(r, lit, 0);
    if k == lit.len() {
        (base, k as int, token)
    } else if k == r.len() {
        failed(pos, k as int, ParseError::UnexpectedReaderEnd)
    } else {
        failed(pos, k as int, ParseError::UnexpectedCharacter)
    }
}

/// Starting a value at the start of `r`, on top of `base`.
pub open spec fn start_value(base: Seq<ParseState>, r: Seq<u8>, pos: int) -> LexStep {
    if r.len() == 0 {
        failed(pos, 0, ParseError::UnexpectedReaderEnd)
    } else {
        let c = r[0];
        if c == 123 {
            (base.push(ParseState::ObjectParseKey), 1, JsonToken::ObjectStart)
        } else if c == 91 {
            (base.push(ParseState::ListParseElement), 1, JsonToken::ListStart)
        } else if c == 34 {
            (base.push(ParseState::StringInside), 1, JsonToken::StringStart)
        } else if is_digit(c) {
            (base.push(ParseState::NumberBeforeDecimalPoint), 1, JsonToken::NumberStart { is_negative: false, digit: c })
        } else if c == 45 {
            let w = ws_len(r.skip(1)) as int;
            let rest = r.skip(1 + w);
            if rest.len() == 0 {
                failed(pos, 1 + w, ParseError::NoCharacterAfterNegativeNumberStart)
            } else if is_digit(rest[0]) {
                (
                    base.push(ParseState::NumberBeforeDecimalPoint),
                    2 + w,
                    JsonToken::NumberStart { is_negative: true, digit: rest[0] },
                )
            } else {
                failed(pos, 1 + w, ParseError::InvalidDigitAtNegativeNumberStart)
            }
        } else if c == 116 {
            literal_step(base, r, pos, true_literal(), JsonToken::True)
        } else if c == 102 {
            literal_step(base, r, pos, false_literal(), JsonToken::False)
        } else {
            failed(pos, 0, ParseError::UnexpectedCharacter)
        }
    }
}

/// A step inside a number: digits continue it, `.` (where `dot` allows it) and an
/// exponent mark move on, and anything else ends it without being consumed.
pub open spec fn number_step(stack: Seq<ParseState>, r: Seq<u8>, dot: bool, exponent: bool) -> LexStep {
    if r.len() == 0 {
        (stack.drop_last(), 0, JsonToken::NumberEnd)
    } else {
        let c = r[0];
        if is_digit(c) {
            (stack, 1, JsonToken::NumberDigit(c))
        } else if dot && c == 46 {
            (with_top(stack, ParseState::NumberAfterDecimalPoint), 1, JsonToken::NumberDecimalPoint)
        } else if exponent && (c == 101 || c == 69) {
            (with_top(stack, ParseState::NumberExponentStart), 1, JsonToken::NumberExponentStart)
        } else {
            (stack.drop_last(), 0, JsonToken::NumberEnd)
        }
    }
}

/// A step inside a string.
pub open spec fn string_step(stack: Seq<ParseState>, r: Seq<u8>, pos: int) -> LexStep {
    if r.len() == 0 {
        failed(pos, 0, ParseError::ReaderFinishedInMiddleOfString)
    } else if r[0] == 34 {
        (stack.drop_last(), 1, JsonToken::StringEnd)
    } else if r[0] == 92 {
        if r.len() < 2 {
            failed(pos, 1, ParseError::ReaderFinishedInMiddleOfString)
        } else if r[1] == 117 {
            match hex_failure(r.skip(2), 0) {
                Some(f) => failed(pos, 2 + (f.0 as int), f.1),
                None => (stack, 0, JsonToken::InErrorState),
            }
        } else {
            match escaped(r[1]) {
                Some(b) => (stack, 2, JsonToken::StringUtf8CodePoint(b)),
                None => failed(pos, 1, ParseError::StringInvalidEscapeCharacter),
            }
        }
    } else {
        (stack, 1, JsonToken::StringUtf8CodePoint(r[0]))
    }
}

/// The one input that the lexer does not handle: inside a string, a `\u` escape with
/// four hexadecimal digits.
pub open spec fn unicode_escape_ahead(stack: Seq<ParseState>, r: Seq<u8>) -> bool {
    &&& stack.len() > 0
    &&& stack.last() == ParseState::StringInside
    &&& r.len() >= 2
    &&& r[0] == 92
    &&& r[1] == 117
    &&& hex_failure(r.skip(2), 0) is None
}

/// After an object's key or `{`: a key starts, or the object ends.
pub open spec fn object_key_step(stack: Seq<ParseState>, r: Seq<u8>, pos: int) -> LexStep {
    let w = ws_len(r) as int;
    let rest = r.skip(w);
    if rest.len() == 0 {
        failed(pos, w, ParseError::UnexpectedReaderEnd)
    } else if rest[0] == 34 {
        (with_top(stack, ParseState::ObjectParseValue).push(ParseState::StringInside), w + 1, JsonToken::StringStart)
    } else if rest[0] == 125 {
        (stack.drop_last(), w + 1, JsonToken::ObjectEnd)
    } else {
        failed(pos, w, ParseError::UnexpectedCharacter)
    }
}

/// After a value of an object: the object ends, or a comma and the next key follow.
pub open spec fn object_comma_step(stack: Seq<ParseState>, r: Seq<u8>, pos: int) -> LexStep {
    let w = ws_len(r) as int;
    let rest = r.skip(w);
    if rest.len() == 0 {
        failed(pos, w, ParseError::UnexpectedReaderEnd)
    } else if rest[0] == 125 {
        (stack.drop_last(), w + 1, JsonToken::ObjectEnd)
    } else if rest[0] == 44 {
        let w2 = ws_len(rest.skip(1)) as int;
        after(w + 1 + w2, start_value(with_top(stack, ParseState::ObjectParseValue), rest.skip(1 + w2), pos + w + 1 + w2))
    } else {
        failed(pos, w, ParseError::UnexpectedCharacter)
    }
}

/// After a key of an object: a colon and the value follow.
pub open spec fn object_colon_step(stack: Seq<ParseState>, r: Seq<u8>, pos: int) -> LexStep {
    let w = ws_len(r) as int;
    let rest = r.skip(w);
    if rest.len() == 0 {
        failed(pos, w, ParseError::UnexpectedReaderEnd)
    } else if rest[0] == 58 {
        let w2 = ws_len(rest.skip(1)) as int;
        after(
            w + 1 + w2,
            start_value(with_top(stack, ParseState::ObjectParseCommaThenKey), rest.skip(1 + w2), pos + w + 1 + w2),
        )
    } else {
        failed(pos, w, ParseError::UnexpectedCharacter)
    }
}

/// After `[`: the list ends, or its first element starts.
pub open spec fn list_element_step(stack: Seq<ParseState>, r: Seq<u8>, pos: int) -> LexStep {
    let w = ws_len(r) as int;
    let rest = r.skip(w);
    if rest.len() == 0 {
        failed(pos, w, ParseError::MissingFirstCharacter)
    } else if rest[0] == 93 {
        (stack.drop_last(), w + 1, JsonToken::ListEnd)
    } else {
        after(w, start_value(with_top(stack, ParseState::ListParseCommaThenElement), rest, pos + w))
    }
}

/// After an element of a list: the list ends, or a comma and the next element follow.
pub open spec fn list_comma_step(stack: Seq<ParseState>, r: Seq<u8>, pos: int) -> LexStep {
    let w = ws_len(r) as int;
    let rest = r.skip(w);
    if rest.len() == 0 {
        failed(pos, w, ParseError::MissingFirstCharacter)
    } else if rest[0] == 93 {
        (stack.drop_last(), w + 1, JsonToken::ListEnd)
    } else if rest[0] == 44 {
        let w2 = ws_len(rest.skip(1)) as int;
        after(w + 1 + w2, start_value(stack, rest.skip(1 + w2), pos + w + 1 + w2))
    } else {
        failed(pos, w, ParseError::UnexpectedCharacter)
    }
}

/// After an exponent mark: its first digit, possibly after a minus sign. The byte after
/// a minus sign is taken as the digit, whatever it is.
pub open spec fn exponent_start_step(stack: Seq<ParseState>, r: Seq<u8>, pos: int) -> LexStep {
    if r.len() == 0 {
        failed(pos, 0, ParseError::UnexpectedReaderEnd)
    } else if r[0] == 45 {
        if r.len() < 2 {
            failed(pos, 1, ParseError::UnexpectedReaderEnd)
        } else {
            (with_top(stack, ParseState::NumberExponentDigit), 2, JsonToken::NumberStart { is_negative: true, digit: r[1] })
        }
    } else if is_digit(r[0]) {
        (with_top(stack, ParseState::NumberExponentDigit), 1, JsonToken::NumberStart { is_negative: false, digit: r[0] })
    } else {
        failed(pos, 0, ParseError::UnexpectedCharacter)
    }
}

/// The step the lexer takes with `stack`, at position `pos` of the reader, with `r`
/// ahead.
pub open spec fn lex_step(stack: Seq<ParseState>, r: Seq<u8>, pos: int) -> LexStep {
    if stack.len() == 0 {
        (stack, 0, JsonToken::Done)
    } else {
        match stack.last() {
            ParseState::ParseError => (stack, 0, JsonToken::InErrorState),
            ParseState::JsonStart => {
                let w = ws_len(r) as int;
                after(w, start_value(with_top(stack, ParseState::JsonInside), r.skip(w), pos + w))
            },
            ParseState::JsonInside => (stack.drop_last(), 0, JsonToken::Done),
            ParseState::ObjectParseKey => object_key_step(stack, r, pos),
            ParseState::ObjectParseCommaThenKey => object_comma_step(stack, r, pos),
            ParseState::ObjectParseValue => object_colon_step(stack, r, pos),
            ParseState::ListParseElement => list_element_step(stack, r, pos),
            ParseState::ListParseCommaThenElement => list_comma_step(stack, r, pos),
            ParseState::NumberBeforeDecimalPoint => number_step(stack, r, true, true),
            ParseState::NumberAfterDecimalPoint => number_step(stack, r, false, true),
            ParseState::NumberExponentStart => exponent_start_step(stack, r, pos),
            ParseState::NumberExponentDigit => number_step(stack, r, false, false),
            ParseState::StringInside => string_step(stack, r, pos),
        }
    }
}

/// How a JSON value starts: `{` opens an object, `[` a list, `"` a string, a digit (or
/// `-` and a digit) a number with that first digit and sign, and the words `true` and
/// `false` are read whole as the booleans.
pub proof fn lemma_value_starts(base: Seq<ParseState>, d: u8, rest: Seq<u8>, pos: int)
    ensures
        start_value(base, seq![123u8] + rest, pos) == (base.push(ParseState::ObjectParseKey), 1int, JsonToken::ObjectStart),
        start_value(base, seq![91u8] + rest, pos) == (base.push(ParseState::ListParseElement), 1int, JsonToken::ListStart),
        start_value(base, seq![34u8] + rest, pos) == (base.push(ParseState::StringInside), 1int, JsonToken::StringStart),
        48 <= d <= 57 ==> start_value(base, seq![d] + rest, pos) == (
            base.push(ParseState::NumberBeforeDecimalPoint),
            1int,
            JsonToken::NumberStart { is_negative: false, digit: d },
        ),
        48 <= d <= 57 ==> start_value(base, seq![45u8, d] + rest, pos) == (
            base.push(ParseState::NumberBeforeDecimalPoint),
            2int,
            JsonToken::NumberStart { is_negative: true, digit: d },
        ),
        start_value(base, seq![116u8, 114u8, 117u8, 101u8] + rest, pos) == (base, 4int, JsonToken::True),
        start_value(base, seq![102u8, 97u8, 108u8, 115u8, 101u8] + rest, pos) == (base, 5int, JsonToken::False),
{
    assert((seq![123u8] + rest)[0] == 123u8);
    assert((seq![91u8] + rest)[0] == 91u8);
    assert((seq![34u8] + rest)[0] == 34u8);
    assert((seq![d] + rest)[0] == d);
    let m = seq![45u8, d] + rest;
    assert(m[0] == 45u8);
    assert(m.skip(1)[0] == d);
    if 48 <= d <= 57 {
        assert(ws_len(m.skip(1)) == 0);
        assert(m.skip(1 + 0int) =~= m.skip(1));
    }
    let t = seq![116u8, 114u8, 117u8, 101u8] + rest;
    assert(t[0] == 116u8 && t[1] == 114u8 && t[2] == 117u8 && t[3] == 101u8);
    assert(literal_match(t, true_literal(), 0) == 4) by {
        reveal_with_fuel(literal_match, 5);
    }
    let f = seq![102u8, 97u8, 108u8, 115u8, 101u8] + rest;
    assert(f[0] == 102u8 && f[1] == 97u8 && f[2] == 108u8 && f[3] == 115u8 && f[4] == 101u8);
    assert(literal_match(f, false_literal(), 0) == 5) by {
        reveal_with_fuel(literal_match, 6);
    }
}

/// Inside a number, a digit is read as the next digit, `.` (before any) starts the
/// fraction, `e` or `E` starts the exponent, and any other byte, or the end, ends the
/// number without being consumed.
pub proof fn lemma_number_continues(stack: Seq<ParseState>, c: u8, rest: Seq<u8>)
    ensures
        48 <= c <= 57 ==> number_step(stack, seq![c] + rest, true, true) == (stack, 1int, JsonToken::NumberDigit(c)),
        number_step(stack, seq![46u8] + rest, true, true).2 == JsonToken::NumberDecimalPoint,
        number_step(stack, seq![101u8] + rest, true, true).2 == JsonToken::NumberExponentStart,
        number_step(stack, seq![69u8] + rest, false, true).2 == JsonToken::NumberExponentStart,
        !(48 <= c <= 57) && c != 46u8 && c != 101u8 && c != 69u8 ==> number_step(stack, seq![c] + rest, true, true) == (
            stack.drop_last(),
            0int,
            JsonToken::NumberEnd,
        ),
        number_step(stack, Seq::<u8>::empty(), true, true) == (stack.drop_last(), 0int, JsonToken::NumberEnd),
{
    assert((seq![c] + rest)[0] == c);
    assert((seq![46u8] + rest)[0] == 46u8);
    assert((seq![101u8] + rest)[0] == 101u8);
    assert((seq![69u8] + rest)[0] == 69u8);
}

/// A hexadecimal digit is worth its value: `0` to `9` are 0 to 9, and `a` to `f` and
/// `A` to `F` are 10 to 15; no other byte is a hexadecimal digit.
pub proof fn lemma_hex_digits(k: u8, c: u8)
    ensures
        k < 10 ==> hex_value((48 + k) as u8) == Some(k),
        k < 6 ==> hex_value((97 + k) as u8) == Some((10 + k) as u8),
        k < 6 ==> hex_value((65 + k) as u8) == Some((10 + k) as u8),
        !(48 <= c <= 57 || 97 <= c <= 102 || 65 <= c <= 70) ==> hex_value(c) is None,
{
}

/// Inside a string, the lexer reads back what JSON text writes for a byte: the byte
/// itself, or the escape that stands for it, gives that byte; and a quote ends the
/// string. The standard's other escapes give a backspace (`\b`), a form feed (`\f`)
/// and a slash (`\/`).
pub proof fn lemma_string_reads_written_bytes(stack: Seq<ParseState>, c: u8, rest: Seq<u8>, pos: int)
    requires
        stack.len() > 0,
        stack.last() == ParseState::StringInside,
    ensures
        c != 34u8 ==> lex_step(stack, json_escaped_byte(c) + rest, pos) == (
            stack,
            json_escaped_byte(c).len() as int,
            JsonToken::StringUtf8CodePoint(c),
        ),
        lex_step(stack, seq![34u8] + rest, pos) == (stack.drop_last(), 1int, JsonToken::StringEnd),
        lex_step(stack, seq![92u8, 98u8] + rest, pos) == (stack, 2int, JsonToken::StringUtf8CodePoint(8u8)),
        lex_step(stack, seq![92u8, 102u8] + rest, pos) == (stack, 2int, JsonToken::StringUtf8CodePoint(12u8)),
        lex_step(stack, seq![92u8, 47u8] + rest, pos) == (stack, 2int, JsonToken::StringUtf8CodePoint(47u8)),
{
    let e = json_escaped_byte(c);
    let w = e + rest;
    if e.len() == 2 {
        assert(w[0] == e[0] && w[1] == e[1]);
    } else {
        assert(w[0] == c);
    }
    assert((seq![34u8] + rest)[0] == 34u8);
    assert((seq![92u8, 98u8] + rest)[0] == 92u8 && (seq![92u8, 98u8] + rest)[1] == 98u8);
    assert((seq![92u8, 102u8] + rest)[0] == 92u8 && (seq![92u8, 102u8] + rest)[1] == 102u8);
    assert((seq![92u8, 47u8] + rest)[0] == 92u8 && (seq![92u8, 47u8] + rest)[1] == 47u8);
}

// ----- the lexer

/// Produces the tokens of one JSON value.
pub trait JsonLexerTrait {
    /// The next call of `next` is on input that the lexer handles.
    spec fn next_is_defined(&self) -> bool;

    /// The next token.
    fn next(&mut self) -> JsonToken
        requires
            old(self).next_is_defined(),
    ;
}

/// A JSON lexer over a reader.
pub struct JsonLexer<'a, R: ReaderTrait> {
    /// The reader the lexer takes its bytes from.
    pub reader: &'a mut R,
    /// The structures the lexer is inside.
    pub state: LexerState,
}

/// The structures a lexer is inside, innermost last: always a stack that the lexer can
/// reach from its start.
pub struct LexerState {
    stack: Vec<ParseState>,
}

impl LexerState {
    /// The states, innermost last.
    pub closed spec fn states(&self) -> Seq<ParseState> {
        self.stack@
    }

    #[verifier::type_invariant]
    spec fn reachable(self) -> bool {
        valid_stack(self.stack@)
    }

    /// The state at the start of a value.
    fn start() -> (r: Self)
        ensures
            r.states() == seq![ParseState::JsonStart],
    {
        let mut stack = Vec::new();
        stack.push(ParseState::JsonStart);
        LexerState { stack }
    }

    /// Takes the states out, leaving none.
    fn take(&mut self) -> (r: Vec<ParseState>)
        ensures
            r@ == old(self).states(),
            valid_stack(r@),
            final(self).states() == Seq::<ParseState>::empty(),
    {
        proof {
            use_type_invariant(&*self);
        }
        let mut r = Vec::new();
        std::mem::swap(&mut r, &mut self.stack);
        r
    }

    /// Puts states back.
    fn put(&mut self, stack: Vec<ParseState>)
        requires
            valid_stack(stack@),
        ensures
            final(self).states() == stack@,
    {
        self.stack = stack;
    }
}

/// A lexer's reader and states while it takes one step.
struct Cursor<'b, R: ReaderTrait> {
    reader: &'b mut R,
    stack: Vec<ParseState>,
}

/// Skipping in two steps is skipping once.
proof fn lemma_skip_skip(r: Seq<u8>, a: int, b: int)
    requires
        0 <= a,
        0 <= b,
        a + b <= r.len(),
    ensures
        r.skip(a).skip(b) == r.skip(a + b),
        a < r.len() ==> r.skip(a).drop_first() == r.skip(a + 1),
        a < r.len() ==> r.skip(a)[0] == r[a],
{
    assert(r.skip(a).skip(b) =~= r.skip(a + b));
    if a < r.len() {
        assert(r.skip(a).drop_first() =~= r.skip(a + 1));
    }
}

impl<'a, R: ReaderTrait> JsonLexer<'a, R> {
    /// The stack of structures the lexer is inside, innermost last.
    pub open spec fn stack(&self) -> Seq<ParseState> {
        self.state.states()
    }

    /// The bytes still ahead in the reader.
    pub open spec fn input(&self) -> Seq<u8> {
        (*self.reader).remaining()
    }

    /// The reader's position.
    pub open spec fn pos(&self) -> nat {
        (*self.reader).position()
    }

    /// `new` took the step `e` from `old`: the stack, the bytes consumed and the token are
    /// those of `e`.
    pub open spec fn took(old: &Self, new: &Self, token: JsonToken, e: LexStep) -> bool {
        &&& new.stack() == e.0
        &&& 0 <= e.1 <= old.input().len()
        &&& new.input() == old.input().skip(e.1)
        &&& new.pos() == old.pos() + e.1
        &&& token == e.2
    }

    /// `new` is in the state of `old`.
    pub open spec fn same(old: &Self, new: &Self) -> bool {
        &&& new.stack() == old.stack()
        &&& new.input() == old.input()
        &&& new.pos() == old.pos()
    }

    /// A lexer at the start of the reader's next JSON value.
    pub fn new(reader: &'a mut R) -> (r: Self)
        ensures
            r.stack() == seq![ParseState::JsonStart],
            r.input() == old(reader).remaining(),
            r.pos() == old(reader).position(),
            *final(reader) == *final(r.reader),
            valid_stack(r.stack()),
    {
        JsonLexer { reader, state: LexerState::start() }
    }
}

impl<'b, R: ReaderTrait> Cursor<'b, R> {
    spec fn stack(&self) -> Seq<ParseState> {
        self.stack@
    }

    spec fn input(&self) -> Seq<u8> {
        (*self.reader).remaining()
    }

    spec fn pos(&self) -> nat {
        (*self.reader).position()
    }

    spec fn took(old: &Self, new: &Self, token: JsonToken, e: LexStep) -> bool {
        &&& new.stack() == e.0
        &&& 0 <= e.1 <= old.input().len()
        &&& new.input() == old.input().skip(e.1)
        &&& new.pos() == old.pos() + e.1
        &&& token == e.2
    }

    spec fn same(old: &Self, new: &Self) -> bool {
        &&& new.stack() == old.stack()
        &&& new.input() == old.input()
        &&& new.pos() == old.pos()
    }

    /// Takes the states out, leaving none.
    fn take_stack(&mut self) -> (r: Vec<ParseState>)
        ensures
            *final(final(self).reader) == *final(old(self).reader),
            r@ == old(self).stack(),
            final(self).input() == old(self).input(),
            final(self).pos() == old(self).pos(),
    {
        let mut r = Vec::new();
        std::mem::swap(&mut r, &mut self.stack);
        r
    }

    fn set_top_state(&mut self, state: ParseState)
        requires
            old(self).stack().len() > 0,
        ensures
            *final(final(self).reader) == *final(old(self).reader),
            final(self).stack() == with_top(old(self).stack(), state),
            final(self).input() == old(self).input(),
            final(self).pos() == old(self).pos(),
    {
        let idx = self.stack.len() - 1;
        self.stack.set(idx, state);
    }

    /// Moves the reader past one byte; there must be one.
    fn advance(&mut self)
        requires
            old(self).input().len() > 0,
        ensures
            *final(final(self).reader) == *final(old(self).reader),
            final(self).stack() == old(self).stack(),
            final(self).input() == old(self).input().drop_first(),
            final(self).input() == old(self).input().skip(1),
            final(self).pos() == old(self).pos() + 1,
    {
        proof {
            (*self.reader).lemma_bounded();
            assert(old(self).input().skip(1) =~= old(self).input().drop_first());
        }
        self.reader.step();
    }

    /// The next byte, if any.
    fn peek(&mut self) -> (r: Option<u8>)
        ensures
            *final(final(self).reader) == *final(old(self).reader),
            Self::same(old(self), final(self)),
            r == (if old(self).input().len() > 0 {
                Some(old(self).input()[0])
            } else {
                None::<u8>
            }),
    {
        self.reader.peek()
    }

    fn report_error(&mut self, error: ParseError) -> (r: JsonToken)
        ensures
            *final(final(self).reader) == *final(old(self).reader),
            Self::took(old(self), final(self), r, failed(old(self).pos() as int, 0, error)),
            final(self).input() == old(self).input(),
            final(self).pos() == old(self).pos(),
    {
        self.stack.clear();
        self.stack.push(ParseState::ParseError);
        let idx = self.reader.get_idx();
        proof {
            assert(old(self).input().skip(0) =~= old(self).input());
        }
        JsonToken::Error(ErrorInfo { idx, error })
    }

    fn parse_ws(&mut self)
        ensures
            *final(final(self).reader) == *final(old(self).reader),
            final(self).stack() == old(self).stack(),
            ws_len(old(self).input()) <= old(self).input().len(),
            final(self).input() == old(self).input().skip(ws_len(old(self).input()) as int),
            final(self).pos() == old(self).pos() + ws_len(old(self).input()),
    {
        let ghost r0 = self.input();
        let ghost mut k: int = 0;
        proof {
            assert(r0.skip(0) =~= r0);
        }
        loop
            invariant
                *final(self.reader) == *final(old(self).reader),
                self.stack() == old(self).stack(),
                r0 == old(self).input(),
                0 <= k <= r0.len(),
                self.input() == r0.skip(k),
                self.pos() == old(self).pos() + k,
                ws_len(r0) == k + ws_len(self.input()),
            ensures
                *final(self.reader) == *final(old(self).reader),
                ws_len(self.input()) == 0,
                self.stack() == old(self).stack(),
                0 <= k <= r0.len(),
                self.input() == r0.skip(k),
                self.pos() == old(self).pos() + k,
                ws_len(r0) == k + ws_len(self.input()),
            decreases r0.len() - k,
        {
            match self.peek() {
                None => {
                    break;
                },
                Some(ch) => {
                    if !is_whitespace(ch) {
                        break;
                    }
                },
            }
            let ghost before = self.input();
            self.advance();
            proof {
                assert(r0.skip(k + 1) =~= before.drop_first());
                k = k + 1;
            }
        }
    }

    fn parse_string_literal(&mut self, first_char: u8, text: &[u8]) -> (r: Result<bool, JsonToken>)
        requires
            text@.len() >= 1,
            old(self).input().len() > 0,
            first_char == old(self).input()[0],
        ensures
            *final(final(self).reader) == *final(old(self).reader),
            first_char != text@[0] ==> r == Ok::<bool, JsonToken>(false) && Self::same(old(self), final(self)),
            first_char == text@[0] ==> {
                let k = literal_match(old(self).input(), text@, 0);
                if k == text@.len() {
                    &&& r == Ok::<bool, JsonToken>(true)
                    &&& Self::took(old(self), final(self), JsonToken::True, (old(self).stack(), k as int, JsonToken::True))
                } else {
                    &&& r is Err
                    &&& Self::took(
                        old(self),
                        final(self),
                        r->Err_0,
                        failed(
                            old(self).pos() as int,
                            k as int,
                            if k == old(self).input().len() {
                                ParseError::UnexpectedReaderEnd
                            } else {
                                ParseError::UnexpectedCharacter
                            },
                        ),
                    )
                }
            },
    {
        if first_char == text[0] {
            let ghost r0 = self.input();
            let ghost p0 = self.pos();
            self.advance();
            let mut idx: usize = 1;
            while idx < text.len()
                invariant
                    *final(self.reader) == *final(old(self).reader),
                    1 <= idx <= text@.len(),
                    first_char == text@[0],
                    r0 == old(self).input(),
                    p0 == old(self).pos(),
                    idx <= r0.len(),
                    self.stack() == old(self).stack(),
                    self.input() == r0.skip(idx as int),
                    self.pos() == p0 + idx,
                    literal_match(r0, text@, 0) == literal_match(r0, text@, idx as nat),
                decreases text@.len() - idx,
            {
                let match_char = text[idx];
                match self.peek() {
                    None => {
                        proof {
                            assert(idx == r0.len());
                            assert(literal_match(r0, text@, idx as nat) == idx);
                        }
                        let e = self.report_error(ParseError::UnexpectedReaderEnd);
                        return Err(e);
                    },
                    Some(char) => {
                        if char == match_char {
                            self.advance();
                            proof {
                                assert(r0[idx as int] == char);
                                assert(r0.skip(idx as int).drop_first() =~= r0.skip(idx + 1));
                            }
                        } else {
                            proof {
                                assert(r0[idx as int] == char);
                                assert(literal_match(r0, text@, idx as nat) == idx);
                            }
                            let e = self.report_error(ParseError::UnexpectedCharacter);
                            return Err(e);
                        }
                    },
                }
                idx = idx + 1;
            }
            Ok(true)
        } else {
            Ok(false)
        }
    }

    fn try_parse_number_exponent(&mut self, first_char: u8) -> (r: Option<JsonToken>)
        requires
            old(self).stack().len() > 0,
            old(self).input().len() > 0,
            first_char == old(self).input()[0],
        ensures
            *final(final(self).reader) == *final(old(self).reader),
            (first_char == 101 || first_char == 69) ==> r == Some(JsonToken::NumberExponentStart) && Self::took(
                old(self),
                final(self),
                JsonToken::NumberExponentStart,
                (with_top(old(self).stack(), ParseState::NumberExponentStart), 1, JsonToken::NumberExponentStart),
            ),
            !(first_char == 101 || first_char == 69) ==> r is None && Self::same(old(self), final(self)),
    {
        if first_char == 101 || first_char == 69 {
            self.advance();
            self.set_top_state(ParseState::NumberExponentStart);
            return Some(JsonToken::NumberExponentStart);
        }
        None
    }

    /// One hexadecimal digit of a code point.
    fn parse_hex_digit(&mut self) -> (r: Result<u8, ParseError>)
        ensures
            *final(final(self).reader) == *final(old(self).reader),
            final(self).stack() == old(self).stack(),
            old(self).input().len() == 0 ==> r == Err::<u8, ParseError>(ParseError::ReaderFinishedInMiddleOfCodepoint)
                && Self::same(old(self), final(self)),
            old(self).input().len() > 0 && hex_value(old(self).input()[0]) is None ==> r == Err::<u8, ParseError>(
                ParseError::InvalidHexCodePoint,
            ) && Self::same(old(self), final(self)),
            old(self).input().len() > 0 && hex_value(old(self).input()[0]) is Some ==> r == Ok::<u8, ParseError>(
                hex_value(old(self).input()[0])->0,
            ) && final(self).input() == old(self).input().drop_first() && final(self).pos() == old(self).pos() + 1,
    {
        match self.peek() {
            None => Err(ParseError::ReaderFinishedInMiddleOfCodepoint),
            Some(char) => match get_hex_value_from_char(char) {
                None => Err(ParseError::InvalidHexCodePoint),
                Some(val) => {
                    self.advance();
                    Ok(val)
                },
            },
        }
    }

    fn parse_hex_u16(&mut self) -> (r: Result<u16, ParseError>)
        ensures
            *final(final(self).reader) == *final(old(self).reader),
            final(self).stack() == old(self).stack(),
            match hex_failure(old(self).input(), 0) {
                Some(f) => {
                    &&& r == Err::<u16, ParseError>(f.1)
                    &&& f.0 <= old(self).input().len()
                    &&& final(self).input() == old(self).input().skip(f.0 as int)
                    &&& final(self).pos() == old(self).pos() + f.0
                },
                None => {
                    &&& r == Ok::<u16, ParseError>(hex_quad(old(self).input()) as u16)
                    &&& 4 <= old(self).input().len()
                    &&& final(self).input() == old(self).input().skip(4)
                    &&& final(self).pos() == old(self).pos() + 4
                },
            },
    {
        let ghost r0 = self.input();
        proof {
            reveal_with_fuel(hex_failure, 5);
            assert(r0.skip(0) =~= r0);
            assert(r0.len() > 0 ==> r0.skip(1) =~= r0.drop_first());
            assert(r0.len() > 1 ==> r0.skip(2) =~= r0.skip(1).drop_first());
            assert(r0.len() > 2 ==> r0.skip(3) =~= r0.skip(2).drop_first());
            assert(r0.len() > 3 ==> r0.skip(4) =~= r0.skip(3).drop_first());
        }
        let d0 = match self.parse_hex_digit() {
            Err(e) => return Err(e),
            Ok(v) => v,
        };
        let d1 = match self.parse_hex_digit() {
            Err(e) => return Err(e),
            Ok(v) => v,
        };
        let d2 = match self.parse_hex_digit() {
            Err(e) => return Err(e),
            Ok(v) => v,
        };
        let d3 = match self.parse_hex_digit() {
            Err(e) => return Err(e),
            Ok(v) => v,
        };
        proof {
            assert(r0.skip(1)[0] == r0[1]);
            assert(r0.skip(2)[0] == r0[2]);
            assert(r0.skip(3)[0] == r0[3]);
        }
        let result: u16 = (d0 as u16) * 4096 + (d1 as u16) * 256 + (d2 as u16) * 16 + (d3 as u16);
        Ok(result)
    }

    fn start_next_object(&mut self) -> (r: JsonToken)
        ensures
            *final(final(self).reader) == *final(old(self).reader),
            Self::took(old(self), final(self), r, start_value(old(self).stack(), old(self).input(), old(self).pos() as int)),
    {
        let ghost r0 = self.input();
        match self.peek() {
            None => self.report_error(ParseError::UnexpectedReaderEnd),
            Some(char) => {
                if char == 123 {
                    self.advance();
                    self.stack.push(ParseState::ObjectParseKey);
                    return JsonToken::ObjectStart;
                }
                if char == 91 {
                    self.advance();
                    self.stack.push(ParseState::ListParseElement);
                    return JsonToken::ListStart;
                }
                if char == 34 {
                    self.advance();
                    self.stack.push(ParseState::StringInside);
                    return JsonToken::StringStart;
                }
                if is_numeric(char) {
                    self.advance();
                    self.stack.push(ParseState::NumberBeforeDecimalPoint);
                    return JsonToken::NumberStart { is_negative: false, digit: char };
                }
                if char == 45 {
                    self.advance();
                    self.parse_ws();
                    proof {
                        let w = ws_len(r0.skip(1)) as int;
                        lemma_skip_skip(r0, 1, w);
                    }
                    match self.peek() {
                        None => {
                            return self.report_error(ParseError::NoCharacterAfterNegativeNumberStart);
                        },
                        Some(first_digit) => {
                            if is_numeric(first_digit) {
                                self.advance();
                                self.stack.push(ParseState::NumberBeforeDecimalPoint);
                                proof {
                                    let w = ws_len(r0.skip(1)) as int;
                                    lemma_skip_skip(r0, 1 + w, 1);
                                }
                                return JsonToken::NumberStart { is_negative: true, digit: first_digit };
                            }
                            return self.report_error(ParseError::InvalidDigitAtNegativeNumberStart);
                        },
                    }
                }
                let lit_true: [u8; 4] = [116, 114, 117, 101];
                proof {
                    assert(lit_true@ =~= true_literal());
                }
                match self.parse_string_literal(char, lit_true.as_slice()) {
                    Err(err) => {
                        return err;
                    },
                    Ok(matches) => {
                        if matches {
                            return JsonToken::True;
                        }
                    },
                }
                let lit_false: [u8; 5] = [102, 97, 108, 115, 101];
                proof {
                    assert(lit_false@ =~= false_literal());
                }
                match self.parse_string_literal(char, lit_false.as_slice()) {
                    Err(err) => {
                        return err;
                    },
                    Ok(matches) => {
                        if matches {
                            return JsonToken::False;
                        }
                    },
                }
                self.report_error(ParseError::UnexpectedCharacter)
            },
        }
    }

    /// Inside an object, where a key or its end is expected.
    fn next_object_key(&mut self) -> (r: JsonToken)
        requires
            old(self).stack().len() > 0,
        ensures
            *final(final(self).reader) == *final(old(self).reader),
            Self::took(old(self), final(self), r, object_key_step(old(self).stack(), old(self).input(), old(self).pos() as int)),
    {
        let ghost r0 = self.input();
        let ghost w = ws_len(r0) as int;
        self.parse_ws();
        match self.peek() {
            None => self.report_error(ParseError::UnexpectedReaderEnd),
            Some(char) => {
                proof {
                    lemma_skip_skip(r0, w, 1);
                }
                if char == 34 {
                    self.advance();
                    self.set_top_state(ParseState::ObjectParseValue);
                    self.stack.push(ParseState::StringInside);
                    return JsonToken::StringStart;
                }
                if char == 125 {
                    self.advance();
                    self.stack.pop();
                    return JsonToken::ObjectEnd;
                }
                self.report_error(ParseError::UnexpectedCharacter)
            },
        }
    }

    /// Inside an object, after a value.
    fn next_object_comma(&mut self) -> (r: JsonToken)
        requires
            old(self).stack().len() > 0,
        ensures
            *final(final(self).reader) == *final(old(self).reader),
            Self::took(old(self), final(self), r, object_comma_step(old(self).stack(), old(self).input(), old(self).pos() as int)),
    {
        let ghost r0 = self.input();
        let ghost s0 = self.stack();
        let ghost p0 = self.pos() as int;
        let ghost w = ws_len(r0) as int;
        self.parse_ws();
        match self.peek() {
            None => self.report_error(ParseError::UnexpectedReaderEnd),
            Some(char) => {
                proof {
                    lemma_skip_skip(r0, w, 1);
                }
                if char == 125 {
                    self.advance();
                    self.stack.pop();
                    return JsonToken::ObjectEnd;
                }
                if char == 44 {
                    self.advance();
                    self.set_top_state(ParseState::ObjectParseValue);
                    self.parse_ws();
                    let ghost rest = r0.skip(w);
                    let ghost w2 = ws_len(rest.skip(1)) as int;
                    proof {
                        lemma_skip_skip(rest, 1, w2);
                        lemma_skip_skip(r0, w + 1, w2);
                        lemma_skip_skip(r0, w, 1 + w2);
                    }
                    let t = self.start_next_object();
                    proof {
                        let sv = start_value(with_top(s0, ParseState::ObjectParseValue), rest.skip(1 + w2), p0 + w + 1 + w2);
                        lemma_skip_skip(r0, w + 1 + w2, sv.1);
                    }
                    return t;
                }
                self.report_error(ParseError::UnexpectedCharacter)
            },
        }
    }

    /// Inside an object, after a key.
    fn next_object_colon(&mut self) -> (r: JsonToken)
        requires
            old(self).stack().len() > 0,
        ensures
            *final(final(self).reader) == *final(old(self).reader),
            Self::took(old(self), final(self), r, object_colon_step(old(self).stack(), old(self).input(), old(self).pos() as int)),
    {
        let ghost r0 = self.input();
        let ghost s0 = self.stack();
        let ghost p0 = self.pos() as int;
        let ghost w = ws_len(r0) as int;
        self.parse_ws();
        match self.peek() {
            None => self.report_error(ParseError::UnexpectedReaderEnd),
            Some(char) => {
                proof {
                    lemma_skip_skip(r0, w, 1);
                }
                if char == 58 {
                    self.advance();
                    self.parse_ws();
                    self.set_top_state(ParseState::ObjectParseCommaThenKey);
                    let ghost rest = r0.skip(w);
                    let ghost w2 = ws_len(rest.skip(1)) as int;
                    proof {
                        lemma_skip_skip(rest, 1, w2);
                        lemma_skip_skip(r0, w + 1, w2);
                        lemma_skip_skip(r0, w, 1 + w2);
                    }
                    let t = self.start_next_object();
                    proof {
                        let sv = start_value(with_top(s0, ParseState::ObjectParseCommaThenKey), rest.skip(1 + w2), p0 + w + 1 + w2);
                        lemma_skip_skip(r0, w + 1 + w2, sv.1);
                    }
                    return t;
                }
                self.report_error(ParseError::UnexpectedCharacter)
            },
        }
    }

    /// Right after the start of a list.
    fn next_list_element(&mut self) -> (r: JsonToken)
        requires
            old(self).stack().len() > 0,
        ensures
            *final(final(self).reader) == *final(old(self).reader),
            Self::took(old(self), final(self), r, list_element_step(old(self).stack(), old(self).input(), old(self).pos() as int)),
    {
        let ghost r0 = self.input();
        let ghost s0 = self.stack();
        let ghost p0 = self.pos() as int;
        let ghost w = ws_len(r0) as int;
        self.parse_ws();
        match self.peek() {
            None => self.report_error(ParseError::MissingFirstCharacter),
            Some(char) => {
                proof {
                    lemma_skip_skip(r0, w, 1);
                }
                if char == 93 {
                    self.advance();
                    self.stack.pop();
                    return JsonToken::ListEnd;
                }
                self.set_top_state(ParseState::ListParseCommaThenElement);
                let t = self.start_next_object();
                proof {
                    let sv = start_value(with_top(s0, ParseState::ListParseCommaThenElement), r0.skip(w), p0 + w);
                    lemma_skip_skip(r0, w, sv.1);
                }
                t
            },
        }
    }

    /// Inside a list, after an element.
    fn next_list_comma(&mut self) -> (r: JsonToken)
        requires
            old(self).stack().len() > 0,
        ensures
            *final(final(self).reader) == *final(old(self).reader),
            Self::took(old(self), final(self), r, list_comma_step(old(self).stack(), old(self).input(), old(self).pos() as int)),
    {
        let ghost r0 = self.input();
        let ghost s0 = self.stack();
        let ghost p0 = self.pos() as int;
        let ghost w = ws_len(r0) as int;
        self.parse_ws();
        match self.peek() {
            None => self.report_error(ParseError::MissingFirstCharacter),
            Some(char) => {
                proof {
                    lemma_skip_skip(r0, w, 1);
                }
                if char == 93 {
                    self.advance();
                    self.stack.pop();
                    return JsonToken::ListEnd;
                }
                if char == 44 {
                    self.advance();
                    self.parse_ws();
                    let ghost rest = r0.skip(w);
                    let ghost w2 = ws_len(rest.skip(1)) as int;
                    proof {
                        lemma_skip_skip(rest, 1, w2);
                        lemma_skip_skip(r0, w + 1, w2);
                        lemma_skip_skip(r0, w, 1 + w2);
                    }
                    let t = self.start_next_object();
                    proof {
                        let sv = start_value(s0, rest.skip(1 + w2), p0 + w + 1 + w2);
                        lemma_skip_skip(r0, w + 1 + w2, sv.1);
                    }
                    return t;
                }
                self.report_error(ParseError::UnexpectedCharacter)
            },
        }
    }

    /// Inside the digits of a number, its fraction (`dot` false) or its exponent
    /// (`exponent` false as well).
    fn next_in_number(&mut self, dot: bool, exponent: bool) -> (r: JsonToken)
        requires
            old(self).stack().len() > 0,
        ensures
            *final(final(self).reader) == *final(old(self).reader),
            Self::took(old(self), final(self), r, number_step(old(self).stack(), old(self).input(), dot, exponent)),
    {
        let ghost r0 = self.input();
        proof {
            assert(r0.skip(0) =~= r0);
        }
        match self.peek() {
            None => {
                self.stack.pop();
                JsonToken::NumberEnd
            },
            Some(char) => {
                if is_numeric(char) {
                    self.advance();
                    return JsonToken::NumberDigit(char);
                }
                if dot && char == 46 {
                    self.advance();
                    self.set_top_state(ParseState::NumberAfterDecimalPoint);
                    return JsonToken::NumberDecimalPoint;
                }
                if exponent {
                    match self.try_parse_number_exponent(char) {
                        None => {},
                        Some(token) => {
                            return token;
                        },
                    }
                }
                self.stack.pop();
                JsonToken::NumberEnd
            },
        }
    }

    /// Right after the exponent mark of a number.
    fn next_exponent_start(&mut self) -> (r: JsonToken)
        requires
            old(self).stack().len() > 0,
        ensures
            *final(final(self).reader) == *final(old(self).reader),
            Self::took(old(self), final(self), r, exponent_start_step(old(self).stack(), old(self).input(), old(self).pos() as int)),
    {
        let ghost r0 = self.input();
        match self.peek() {
            None => self.report_error(ParseError::UnexpectedReaderEnd),
            Some(char) => {
                let mut is_negative = false;
                let mut digit = char;
                if char == 45 {
                    self.advance();
                    match self.peek() {
                        None => {
                            return self.report_error(ParseError::UnexpectedReaderEnd);
                        },
                        Some(next_char) => {
                            is_negative = true;
                            digit = next_char;
                            proof {
                                lemma_skip_skip(r0, 1, 1);
                            }
                        },
                    }
                } else if !is_numeric(char) {
                    return self.report_error(ParseError::UnexpectedCharacter);
                }
                self.advance();
                self.set_top_state(ParseState::NumberExponentDigit);
                JsonToken::NumberStart { is_negative, digit }
            },
        }
    }

    /// Inside a string.
    fn next_in_string(&mut self) -> (r: JsonToken)
        requires
            old(self).stack().len() > 0,
            !unicode_escape_ahead(old(self).stack(), old(self).input()),
            old(self).stack().last() == ParseState::StringInside,
        ensures
            *final(final(self).reader) == *final(old(self).reader),
            Self::took(old(self), final(self), r, string_step(old(self).stack(), old(self).input(), old(self).pos() as int)),
    {
        let ghost r0 = self.input();
        match self.peek() {
            None => self.report_error(ParseError::ReaderFinishedInMiddleOfString),
            Some(char) => {
                if char == 34 {
                    self.advance();
                    self.stack.pop();
                    return JsonToken::StringEnd;
                }
                if char == 92 {
                    self.advance();
                    match self.peek() {
                        None => {
                            return self.report_error(ParseError::ReaderFinishedInMiddleOfString);
                        },
                        Some(esc) => {
                            proof {
                                lemma_skip_skip(r0, 1, 1);
                            }
                            if esc == 117 {
                                self.advance();
                                proof {
                                    lemma_skip_skip(r0, 2, 0);
                                }
                                match self.parse_hex_u16() {
                                    Err(err) => {
                                        let t = self.report_error(err);
                                        proof {
                                            let f = hex_failure(r0.skip(2), 0)->0;
                                            lemma_skip_skip(r0, 2, f.0 as int);
                                        }
                                        return t;
                                    },
                                    Ok(_code_point) => {
                                        proof {
                                            assert(unicode_escape_ahead(old(self).stack(), r0));
                                        }
                                        return vstd::pervasive::unreached();
                                    },
                                }
                            }
                            let escaped_char: u8 = if esc == 34 {
                                34
                            } else if esc == 92 {
                                92
                            } else if esc == 47 {
                                47
                            } else if esc == 98 {
                                8
                            } else if esc == 102 {
                                12
                            } else if esc == 110 {
                                10
                            } else if esc == 114 {
                                13
                            } else if esc == 116 {
                                9
                            } else {
                                return self.report_error(ParseError::StringInvalidEscapeCharacter);
                            };
                            self.advance();
                            return JsonToken::StringUtf8CodePoint(escaped_char);
                        },
                    }
                }
                self.advance();
                JsonToken::StringUtf8CodePoint(char)
            },
        }
    }

    /// The next token, and the states after it, as `lex_step` says.
    fn step(&mut self) -> (r: JsonToken)
        requires
            !unicode_escape_ahead(old(self).stack(), old(self).input()),
        ensures
            Self::took(old(self), final(self), r, lex_step(old(self).stack(), old(self).input(), old(self).pos() as int)),
            *final(final(self).reader) == *final(old(self).reader),
    {
        let ghost r0 = self.input();
        proof {
            assert(r0.skip(0) =~= r0);
        }
        if self.stack.len() == 0 {
            return JsonToken::Done;
        }
        let state = self.stack[self.stack.len() - 1];
        match state {
            ParseState::ParseError => JsonToken::InErrorState,
            ParseState::JsonStart => {
                let ghost s0 = self.stack();
                let ghost p0 = self.pos() as int;
                let ghost w = ws_len(r0) as int;
                self.parse_ws();
                self.set_top_state(ParseState::JsonInside);
                let t = self.start_next_object();
                proof {
                    let sv = start_value(with_top(s0, ParseState::JsonInside), r0.skip(w), p0 + w);
                    lemma_skip_skip(r0, w, sv.1);
                }
                t
            },
            ParseState::JsonInside => {
                self.stack.pop();
                JsonToken::Done
            },
            ParseState::ObjectParseKey => self.next_object_key(),
            ParseState::ObjectParseCommaThenKey => self.next_object_comma(),
            ParseState::ObjectParseValue => self.next_object_colon(),
            ParseState::ListParseElement => self.next_list_element(),
            ParseState::ListParseCommaThenElement => self.next_list_comma(),
            ParseState::NumberBeforeDecimalPoint => self.next_in_number(true, true),
            ParseState::NumberAfterDecimalPoint => self.next_in_number(false, true),
            ParseState::NumberExponentStart => self.next_exponent_start(),
            ParseState::NumberExponentDigit => self.next_in_number(false, false),
            ParseState::StringInside => self.next_in_string(),
        }
    }
}

impl<'a, R: ReaderTrait> JsonLexerTrait for JsonLexer<'a, R> {
    open spec fn next_is_defined(&self) -> bool {
        !unicode_escape_ahead(self.stack(), self.input())
    }

    /// The next token, and the lexer's state after it, as `lex_step` says. The stack is
    /// always one the lexer can reach, so once the lexer has handed out `Done` its stack
    /// is empty, and once it has reported an error it is in its error state.
    fn next(&mut self) -> (r: JsonToken)
        ensures
            Self::took(old(self), final(self), r, lex_step(old(self).stack(), old(self).input(), old(self).pos() as int)),
            *final(final(self).reader) == *final(old(self).reader),
            valid_stack(old(self).stack()),
            valid_stack(final(self).stack()),
            r == JsonToken::Done ==> final(self).stack().len() == 0,
            r is Error ==> final(self).stack() == seq![ParseState::ParseError],
    {
        let stack = self.state.take();
        proof {
            lemma_step_keeps_stack_valid(old(self).stack(), old(self).input(), old(self).pos() as int);
        }
        let mut cursor = Cursor { reader: &mut *self.reader, stack };
        let r = cursor.step();
        let stack = cursor.take_stack();
        self.state.put(stack);
        r
    }
}

/// Space, newline, tab or carriage return.
fn is_whitespace(val: u8) -> (r: bool)
    ensures
        r == is_ws(val),
{
    val == 32 || val == 10 || val == 9 || val == 13
}

/// A letter.
fn is_alpha(val: u8) -> (r: bool)
    ensures
        r == (65 <= val <= 90 || 97 <= val <= 122),
{
    65 <= val && val <= 90 || 97 <= val && val <= 122
}

/// A letter or an underscore.
fn is_alpha_underscore(val: u8) -> (r: bool)
    ensures
        r == (65 <= val <= 90 || 97 <= val <= 122 || val == 95),
{
    is_alpha(val) || val == 95
}

/// A decimal digit.
fn is_numeric(val: u8) -> (r: bool)
    ensures
        r == is_digit(val),
{
    48 <= val && val <= 57
}

/// A letter, an underscore or a digit.
fn is_alpha_underscore_numeric(val: u8) -> (r: bool)
    ensures
        r == (65 <= val <= 90 || 97 <= val <= 122 || val == 95 || is_digit(val)),
{
    is_alpha_underscore(val) || is_numeric(val)
}

/// The value of a hexadecimal digit.
fn get_hex_value_from_char(val: u8) -> (r: Option<u8>)
    ensures
        r == hex_value(val),
{
    if 48 <= val && val <= 57 {
        return Some(val - 48);
    }
    if 65 <= val && val <= 70 {
        return Some(val - 65 + 10);
    }
    if 97 <= val && val <= 102 {
        return Some(val - 97 + 10);
    }
    None
}

// ----- laws of the lexer

/// A stack the lexer can reach from its start: empty, in the error state, or a value
/// being read at the bottom with nested structures above it.
pub open spec fn valid_stack(s: Seq<ParseState>) -> bool {
    ||| s.len() == 0
    ||| s == seq![ParseState::ParseError]
    ||| {
        &&& (s[0] == ParseState::JsonStart || s[0] == ParseState::JsonInside)
        &&& forall|i: int|
            1 <= i < s.len() ==> #[trigger] s[i] != ParseState::JsonStart && s[i] != ParseState::JsonInside && s[i]
                != ParseState::ParseError
    }
}

/// Starting a value keeps the stack valid.
proof fn lemma_start_value_valid(base: Seq<ParseState>, r: Seq<u8>, pos: int)
    requires
        base.len() > 0,
        base[0] == ParseState::JsonStart || base[0] == ParseState::JsonInside,
        forall|i: int|
            1 <= i < base.len() ==> #[trigger] base[i] != ParseState::JsonStart && base[i] != ParseState::JsonInside
                && base[i] != ParseState::ParseError,
    ensures
        valid_stack(start_value(base, r, pos).0),
{
    let t = start_value(base, r, pos).0;
    if t != base && t != seq![ParseState::ParseError] {
        assert(t.len() == base.len() + 1);
        assert forall|i: int| 1 <= i < t.len() implies #[trigger] t[i] != ParseState::JsonStart && t[i]
            != ParseState::JsonInside && t[i] != ParseState::ParseError by {
            if i < base.len() {
                assert(t[i] == base[i]);
            }
        }
    }
}

/// Replacing the top of a valid stack with a nested state, pushing another, or popping
/// a nested state keeps it valid.
proof fn lemma_with_top_valid(s: Seq<ParseState>, st: ParseState, st2: ParseState)
    requires
        s.len() >= 2,
        s[0] == ParseState::JsonStart || s[0] == ParseState::JsonInside,
        forall|i: int|
            1 <= i < s.len() ==> #[trigger] s[i] != ParseState::JsonStart && s[i] != ParseState::JsonInside && s[i]
                != ParseState::ParseError,
        st != ParseState::JsonStart && st != ParseState::JsonInside && st != ParseState::ParseError,
        st2 != ParseState::JsonStart && st2 != ParseState::JsonInside && st2 != ParseState::ParseError,
    ensures
        valid_stack(with_top(s, st)),
        valid_stack(with_top(s, st).push(st2)),
        valid_stack(s.drop_last()),
{
    let b = with_top(s, st);
    assert forall|i: int| 1 <= i < b.len() implies #[trigger] b[i] != ParseState::JsonStart && b[i]
        != ParseState::JsonInside && b[i] != ParseState::ParseError by {
        if i < b.len() - 1 {
            assert(b[i] == s[i]);
        }
    }
    let b1 = b.push(st2);
    assert forall|i: int| 1 <= i < b1.len() implies #[trigger] b1[i] != ParseState::JsonStart && b1[i]
        != ParseState::JsonInside && b1[i] != ParseState::ParseError by {
        if i < b.len() {
            assert(b1[i] == b[i]);
        }
    }
    let d = s.drop_last();
    assert forall|i: int| 1 <= i < d.len() implies #[trigger] d[i] != ParseState::JsonStart && d[i]
        != ParseState::JsonInside && d[i] != ParseState::ParseError by {
        assert(d[i] == s[i]);
    }
}

/// Every step keeps the stack valid; a step that hands out `Done` leaves the stack
/// empty; and a step that reports an error leaves the lexer in its error state.
pub proof fn lemma_step_keeps_stack_valid(s: Seq<ParseState>, r: Seq<u8>, pos: int)
    requires
        valid_stack(s),
        !unicode_escape_ahead(s, r),
    ensures
        valid_stack(lex_step(s, r, pos).0),
        lex_step(s, r, pos).2 == JsonToken::Done ==> lex_step(s, r, pos).0.len() == 0,
        lex_step(s, r, pos).2 is Error ==> lex_step(s, r, pos).0 == seq![ParseState::ParseError],
{
    let t = lex_step(s, r, pos);
    if s.len() > 0 && s != seq![ParseState::ParseError] {
        let top = s.last();
        if s.len() > 1 {
            assert(s[s.len() - 1] == top);
        }
        let w = ws_len(r) as int;
        let rest = r.skip(w);
        let ws = with_top(s, ParseState::JsonInside);
        assert forall|i: int| 1 <= i < s.len() - 1 implies #[trigger] s.drop_last()[i] == s[i] by {}
        match top {
            ParseState::JsonStart => {
                assert(s.len() == 1);
                lemma_start_value_valid(ws, rest, pos + w);
            },
            ParseState::JsonInside => {
                assert(s.len() == 1);
                assert(s.drop_last().len() == 0);
            },
            ParseState::ObjectParseCommaThenKey => {
                let w2 = ws_len(rest.skip(1)) as int;
                let b = with_top(s, ParseState::ObjectParseValue);
                assert forall|i: int| 1 <= i < b.len() implies #[trigger] b[i] != ParseState::JsonStart && b[i]
                    != ParseState::JsonInside && b[i] != ParseState::ParseError by {
                    if i < b.len() - 1 {
                        assert(b[i] == s[i]);
                    }
                }
                lemma_start_value_valid(b, rest.skip(1 + w2), pos + w + 1 + w2);
            },
            ParseState::ObjectParseValue => {
                let w2 = ws_len(rest.skip(1)) as int;
                let b = with_top(s, ParseState::ObjectParseCommaThenKey);
                assert forall|i: int| 1 <= i < b.len() implies #[trigger] b[i] != ParseState::JsonStart && b[i]
                    != ParseState::JsonInside && b[i] != ParseState::ParseError by {
                    if i < b.len() - 1 {
                        assert(b[i] == s[i]);
                    }
                }
                lemma_start_value_valid(b, rest.skip(1 + w2), pos + w + 1 + w2);
            },
            ParseState::ListParseElement => {
                let b = with_top(s, ParseState::ListParseCommaThenElement);
                assert forall|i: int| 1 <= i < b.len() implies #[trigger] b[i] != ParseState::JsonStart && b[i]
                    != ParseState::JsonInside && b[i] != ParseState::ParseError by {
                    if i < b.len() - 1 {
                        assert(b[i] == s[i]);
                    }
                }
                lemma_start_value_valid(b, rest, pos + w);
            },
            ParseState::ListParseCommaThenElement => {
                let w2 = ws_len(rest.skip(1)) as int;
                lemma_start_value_valid(s, rest.skip(1 + w2), pos + w + 1 + w2);
            },
            _ => {
                assert(s.len() >= 2);
                lemma_with_top_valid(s, ParseState::ObjectParseValue, ParseState::StringInside);
                lemma_with_top_valid(s, ParseState::NumberAfterDecimalPoint, ParseState::StringInside);
                lemma_with_top_valid(s, ParseState::NumberExponentStart, ParseState::StringInside);
                lemma_with_top_valid(s, ParseState::NumberExponentDigit, ParseState::StringInside);
            },
        }
    }
}

/// Once the lexer has handed out `Done` from a valid stack (as every stack is that `new`
/// starts with and `next` leads to), it hands out `Done` again
/// and consumes nothing; once it has reported an error, it answers `InErrorState` and
/// consumes nothing.
pub proof fn lemma_finished_lexer_stays(s: Seq<ParseState>, r: Seq<u8>, pos: int, r2: Seq<u8>, pos2: int)
    requires
        valid_stack(s),
        !unicode_escape_ahead(s, r),
    ensures
        lex_step(s, r, pos).2 == JsonToken::Done ==> lex_step(lex_step(s, r, pos).0, r2, pos2) == (
            lex_step(s, r, pos).0,
            0int,
            JsonToken::Done,
        ),
        lex_step(s, r, pos).2 is Error ==> lex_step(lex_step(s, r, pos).0, r2, pos2) == (
            lex_step(s, r, pos).0,
            0int,
            JsonToken::InErrorState,
        ),
{
    lemma_step_keeps_stack_valid(s, r, pos);
}

} // verus!
