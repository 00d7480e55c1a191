use kilojoule::json_lexer::{ErrorInfo, JsonLexer, JsonLexerTrait, JsonToken, ParseError};
use kilojoule::reader::{ReaderTrait, StrReader};

fn get_all_tokens_from_lexer<R: ReaderTrait>(lexer: &mut JsonLexer<R>) -> Vec<JsonToken> {
    let mut tokens = Vec::<JsonToken>::new();

    loop {
        let next_token = lexer.next();
        match next_token {
            JsonToken::Done => {
                // Be extra sure that calling .next() on a finished lexer
                // still returns Done.
                assert_eq!(lexer.next(), JsonToken::Done);
                break;
            }
            JsonToken::Error(_) => {
                // Be extra sure that calling .next() on a finished lexer
                // still returns Error.
                let next_error = lexer.next();
                assert_eq!(next_error, JsonToken::InErrorState);

                tokens.push(next_token);
                break;
            }
            _ => {
                tokens.push(next_token);
            }
        }
    }

    return tokens;
}

fn parse_into_vec(text: &str) -> Vec<JsonToken> {
    let mut reader = StrReader::new(text);
    let mut lexer = JsonLexer::new(&mut reader);

    return get_all_tokens_from_lexer(&mut lexer);
}

#[test]
fn test_number() {
    assert_eq!(
        parse_into_vec(" 1"),
        vec![
            JsonToken::NumberStart {
                is_negative: false,
                digit: '1' as u8
            },
            JsonToken::NumberEnd
        ]
    );
    assert_eq!(
        parse_into_vec("132"),
        vec![
            JsonToken::NumberStart {
                is_negative: false,
                digit: '1' as u8
            },
            JsonToken::NumberDigit('3' as u8),
            JsonToken::NumberDigit('2' as u8),
            JsonToken::NumberEnd
        ]
    );
    assert_eq!(
        parse_into_vec("-7"),
        vec![
            JsonToken::NumberStart {
                is_negative: true,
                digit: '7' as u8
            },
            JsonToken::NumberEnd
        ]
    );
    assert_eq!(
        parse_into_vec("-72"),
        vec![
            JsonToken::NumberStart {
                is_negative: true,
                digit: '7' as u8
            },
            JsonToken::NumberDigit('2' as u8),
            JsonToken::NumberEnd
        ]
    );

    assert_eq!(
        parse_into_vec("-  7"),
        vec![
            JsonToken::NumberStart {
                is_negative: true,
                digit: '7' as u8
            },
            JsonToken::NumberEnd
        ]
    );
    assert_eq!(
        parse_into_vec("-  72"),
        vec![
            JsonToken::NumberStart {
                is_negative: true,
                digit: '7' as u8
            },
            JsonToken::NumberDigit('2' as u8),
            JsonToken::NumberEnd
        ]
    );
    assert_eq!(
        parse_into_vec("12.34"),
        vec![
            JsonToken::NumberStart {
                is_negative: false,
                digit: '1' as u8
            },
            JsonToken::NumberDigit('2' as u8),
            JsonToken::NumberDecimalPoint,
            JsonToken::NumberDigit('3' as u8),
            JsonToken::NumberDigit('4' as u8),
            JsonToken::NumberEnd
        ]
    );
    assert_eq!(
        parse_into_vec("1e2"),
        vec![
            JsonToken::NumberStart {
                is_negative: false,
                digit: '1' as u8
            },
            JsonToken::NumberExponentStart,
            JsonToken::NumberStart {
                is_negative: false,
                digit: '2' as u8
            },
            JsonToken::NumberEnd
        ]
    );
    assert_eq!(
        parse_into_vec("1e-2"),
        vec![
            JsonToken::NumberStart {
                is_negative: false,
                digit: '1' as u8
            },
            JsonToken::NumberExponentStart,
            JsonToken::NumberStart {
                is_negative: true,
                digit: '2' as u8
            },
            JsonToken::NumberEnd
        ]
    );
    assert_eq!(
        parse_into_vec("1e-23"),
        vec![
            JsonToken::NumberStart {
                is_negative: false,
                digit: '1' as u8
            },
            JsonToken::NumberExponentStart,
            JsonToken::NumberStart {
                is_negative: true,
                digit: '2' as u8
            },
            JsonToken::NumberDigit('3' as u8),
            JsonToken::NumberEnd
        ]
    );
}

#[test]
fn json_lexer_test_list() {
    assert_eq!(
        parse_into_vec("[]"),
        vec![JsonToken::ListStart, JsonToken::ListEnd,]
    );
    assert_eq!(
        parse_into_vec("[ ]"),
        vec![JsonToken::ListStart, JsonToken::ListEnd,]
    );
    assert_eq!(
        parse_into_vec("[1]"),
        vec![
            JsonToken::ListStart,
            JsonToken::NumberStart {
                is_negative: false,
                digit: '1' as u8
            },
            JsonToken::NumberEnd,
            JsonToken::ListEnd,
        ]
    );
    assert_eq!(
        parse_into_vec("[ 1 ]"),
        vec![
            JsonToken::ListStart,
            JsonToken::NumberStart {
                is_negative: false,
                digit: '1' as u8
            },
            JsonToken::NumberEnd,
            JsonToken::ListEnd,
        ]
    );
    assert_eq!(
        parse_into_vec("[1,2]"),
        vec![
            JsonToken::ListStart,
            JsonToken::NumberStart {
                is_negative: false,
                digit: '1' as u8
            },
            JsonToken::NumberEnd,
            JsonToken::NumberStart {
                is_negative: false,
                digit: '2' as u8
            },
            JsonToken::NumberEnd,
            JsonToken::ListEnd,
        ]
    );
    assert_eq!(
        parse_into_vec("[ 1 , 2 ]"),
        vec![
            JsonToken::ListStart,
            JsonToken::NumberStart {
                is_negative: false,
                digit: '1' as u8
            },
            JsonToken::NumberEnd,
            JsonToken::NumberStart {
                is_negative: false,
                digit: '2' as u8
            },
            JsonToken::NumberEnd,
            JsonToken::ListEnd,
        ]
    );
    assert_eq!(
        parse_into_vec("[[]]"),
        vec![
            JsonToken::ListStart,
            JsonToken::ListStart,
            JsonToken::ListEnd,
            JsonToken::ListEnd,
        ]
    );
    assert_eq!(
        parse_into_vec("[[],9, []]"),
        vec![
            JsonToken::ListStart,
            JsonToken::ListStart,
            JsonToken::ListEnd,
            JsonToken::NumberStart {
                is_negative: false,
                digit: '9' as u8
            },
            JsonToken::NumberEnd,
            JsonToken::ListStart,
            JsonToken::ListEnd,
            JsonToken::ListEnd,
        ]
    );
}

#[test]
fn test_parse_multiple_objects() {
    // This is a cool example of three valid JSON objects together in a
    // single string. This test creates three separate lexers to parse each
    // object.
    // In real use cases, each object would probably be on a separate line.
    let text = "[]-12[2]";
    let mut reader = StrReader::new(text);

    let mut lexer0 = JsonLexer::new(&mut reader);
    assert_eq!(
        get_all_tokens_from_lexer(&mut lexer0),
        vec![JsonToken::ListStart, JsonToken::ListEnd,]
    );

    let mut lexer1 = JsonLexer::new(&mut reader);
    assert_eq!(
        get_all_tokens_from_lexer(&mut lexer1),
        vec![
            JsonToken::NumberStart {
                is_negative: true,
                digit: '1' as u8
            },
            JsonToken::NumberDigit('2' as u8),
            JsonToken::NumberEnd,
        ]
    );

    let mut lexer2 = JsonLexer::new(&mut reader);
    assert_eq!(
        get_all_tokens_from_lexer(&mut lexer2),
        vec![
            JsonToken::ListStart,
            JsonToken::NumberStart {
                is_negative: false,
                digit: '2' as u8
            },
            JsonToken::NumberEnd,
            JsonToken::ListEnd,
        ]
    );
}

#[test]
fn test_parse_string() {
    assert_eq!(
        parse_into_vec(r#""""#),
        vec![JsonToken::StringStart, JsonToken::StringEnd,]
    );
    assert_eq!(
        parse_into_vec(r#""a""#),
        vec![
            JsonToken::StringStart,
            JsonToken::StringUtf8CodePoint('a' as u8),
            JsonToken::StringEnd,
        ]
    );
    assert_eq!(
        parse_into_vec(r#""asdf""#),
        vec![
            JsonToken::StringStart,
            JsonToken::StringUtf8CodePoint('a' as u8),
            JsonToken::StringUtf8CodePoint('s' as u8),
            JsonToken::StringUtf8CodePoint('d' as u8),
            JsonToken::StringUtf8CodePoint('f' as u8),
            JsonToken::StringEnd,
        ]
    );
    assert_eq!(
        parse_into_vec(r#""\"\\\/\b\f\n\r\t""#),
        vec![
            JsonToken::StringStart,
            JsonToken::StringUtf8CodePoint('"' as u8),
            JsonToken::StringUtf8CodePoint('\\' as u8),
            JsonToken::StringUtf8CodePoint('/' as u8),
            JsonToken::StringUtf8CodePoint(8),
            JsonToken::StringUtf8CodePoint(12),
            JsonToken::StringUtf8CodePoint('\n' as u8),
            JsonToken::StringUtf8CodePoint('\r' as u8),
            JsonToken::StringUtf8CodePoint('\t' as u8),
            JsonToken::StringEnd,
        ]
    );
    assert_eq!(
        parse_into_vec(r#""\q""#),
        vec![
            JsonToken::StringStart,
            JsonToken::Error(ErrorInfo {
                idx: 2,
                error: ParseError::StringInvalidEscapeCharacter
            })
        ]
    );
}

#[test]
fn test_parse_object() {
    assert_eq!(
        parse_into_vec(r#"{}"#),
        vec![JsonToken::ObjectStart, JsonToken::ObjectEnd,]
    );
    assert_eq!(
        parse_into_vec(r#" { "a" : 1 } "#),
        vec![
            JsonToken::ObjectStart,
            JsonToken::StringStart,
            JsonToken::StringUtf8CodePoint('a' as u8),
            JsonToken::StringEnd,
            JsonToken::NumberStart {
                is_negative: false,
                digit: '1' as u8
            },
            JsonToken::NumberEnd,
            JsonToken::ObjectEnd,
        ]
    );
    assert_eq!(
        parse_into_vec(r#" { "a" : 1 , "b" : 2 } "#),
        vec![
            JsonToken::ObjectStart,
            JsonToken::StringStart,
            JsonToken::StringUtf8CodePoint('a' as u8),
            JsonToken::StringEnd,
            JsonToken::NumberStart {
                is_negative: false,
                digit: '1' as u8
            },
            JsonToken::NumberEnd,
            JsonToken::StringStart,
            JsonToken::StringUtf8CodePoint('b' as u8),
            JsonToken::StringEnd,
            JsonToken::NumberStart {
                is_negative: false,
                digit: '2' as u8
            },
            JsonToken::NumberEnd,
            JsonToken::ObjectEnd,
        ]
    );
    assert_eq!(
        parse_into_vec(r#" { "a" : 1 , "b" : 2, "c": 3 } "#),
        vec![
            JsonToken::ObjectStart,
            JsonToken::StringStart,
            JsonToken::StringUtf8CodePoint('a' as u8),
            JsonToken::StringEnd,
            JsonToken::NumberStart {
                is_negative: false,
                digit: '1' as u8
            },
            JsonToken::NumberEnd,
            JsonToken::StringStart,
            JsonToken::StringUtf8CodePoint('b' as u8),
            JsonToken::StringEnd,
            JsonToken::NumberStart {
                is_negative: false,
                digit: '2' as u8
            },
            JsonToken::NumberEnd,
            JsonToken::StringStart,
            JsonToken::StringUtf8CodePoint('c' as u8),
            JsonToken::StringEnd,
            JsonToken::NumberStart {
                is_negative: false,
                digit: '3' as u8
            },
            JsonToken::NumberEnd,
            JsonToken::ObjectEnd,
        ]
    );
}

#[test]
fn test_bools() {
    assert_eq!(
        parse_into_vec(r#"[false,true]"#),
        vec![
            JsonToken::ListStart,
            JsonToken::False,
            JsonToken::True,
            JsonToken::ListEnd,
        ]
    );
}

fn err(idx: usize, error: ParseError) -> JsonToken {
    JsonToken::Error(ErrorInfo { idx, error })
}

#[test]
fn json_lexer_reports_errors_with_position() {
    assert_eq!(parse_into_vec(""), vec![err(0, ParseError::UnexpectedReaderEnd)]);
    assert_eq!(parse_into_vec("  x"), vec![err(2, ParseError::UnexpectedCharacter)]);
    assert_eq!(parse_into_vec("-"), vec![err(1, ParseError::NoCharacterAfterNegativeNumberStart)]);
    assert_eq!(parse_into_vec("- a"), vec![err(2, ParseError::InvalidDigitAtNegativeNumberStart)]);
    assert_eq!(parse_into_vec("tru"), vec![err(3, ParseError::UnexpectedReaderEnd)]);
    assert_eq!(parse_into_vec("fals3"), vec![err(4, ParseError::UnexpectedCharacter)]);
    assert_eq!(
        parse_into_vec("[1 2]"),
        vec![
            JsonToken::ListStart,
            JsonToken::NumberStart { is_negative: false, digit: b'1' },
            JsonToken::NumberEnd,
            err(3, ParseError::UnexpectedCharacter),
        ]
    );
    assert_eq!(parse_into_vec("["), vec![JsonToken::ListStart, err(1, ParseError::MissingFirstCharacter)]);
    assert_eq!(
        parse_into_vec("\"ab"),
        vec![
            JsonToken::StringStart,
            JsonToken::StringUtf8CodePoint(b'a'),
            JsonToken::StringUtf8CodePoint(b'b'),
            err(3, ParseError::ReaderFinishedInMiddleOfString),
        ]
    );
    assert_eq!(
        parse_into_vec("{\"a\" 1}"),
        vec![
            JsonToken::ObjectStart,
            JsonToken::StringStart,
            JsonToken::StringUtf8CodePoint(b'a'),
            JsonToken::StringEnd,
            err(5, ParseError::UnexpectedCharacter),
        ]
    );
}

#[test]
fn json_lexer_unicode_escape_errors() {
    assert_eq!(
        parse_into_vec("\"\\u12"),
        vec![JsonToken::StringStart, err(5, ParseError::ReaderFinishedInMiddleOfCodepoint)]
    );
    assert_eq!(
        parse_into_vec("\"\\u1g34\""),
        vec![JsonToken::StringStart, err(4, ParseError::InvalidHexCodePoint)]
    );
}

#[test]
fn json_lexer_exponent_takes_any_byte_after_minus() {
    assert_eq!(
        parse_into_vec("2E-x"),
        vec![
            JsonToken::NumberStart { is_negative: false, digit: b'2' },
            JsonToken::NumberExponentStart,
            JsonToken::NumberStart { is_negative: true, digit: b'x' },
            JsonToken::NumberEnd,
        ]
    );
    assert_eq!(
        parse_into_vec("3.5e"),
        vec![
            JsonToken::NumberStart { is_negative: false, digit: b'3' },
            JsonToken::NumberDecimalPoint,
            JsonToken::NumberDigit(b'5'),
            JsonToken::NumberExponentStart,
            err(4, ParseError::UnexpectedReaderEnd),
        ]
    );
}

#[test]
fn json_lexer_stops_after_one_value() {
    let mut reader = StrReader::new("1 2");
    let mut lexer = JsonLexer::new(&mut reader);
    assert_eq!(lexer.next(), JsonToken::NumberStart { is_negative: false, digit: b'1' });
    assert_eq!(lexer.next(), JsonToken::NumberEnd);
    assert_eq!(lexer.next(), JsonToken::Done);
    assert_eq!(lexer.next(), JsonToken::Done);
    drop(lexer);
    assert_eq!(reader.get_idx(), 1);
    assert_eq!(reader.peek(), Some(b' '));
}
