use json_lexer::{render, tokenize, JSONLexer, LexError, Token};

fn s(text: &str) -> String {
    String::from(text)
}

fn quoted(text: &str) -> String {
    format!("\"{}\"", text)
}

#[test]
fn test_next_token() {
    let input = String::from(r#"{"field_1":89,"field_2":{},"field_3":[]}"#);
    let expected = vec![
        Token::OpenBrace('{'),
        Token::StringLiteral(quoted("field_1")),
        Token::Colon(':'),
        Token::NumericLiteral(s("89")),
        Token::Comma(','),
        Token::StringLiteral(quoted("field_2")),
        Token::Colon(':'),
        Token::OpenBrace('{'),
        Token::CloseBrace('}'),
        Token::Comma(','),
        Token::StringLiteral(quoted("field_3")),
        Token::Colon(':'),
        Token::OpenBrack('['),
        Token::CloseBrack(']'),
        Token::CloseBrace('}'),
    ];
    let mut lex = JSONLexer::from(input, true);
    for expected_token in expected.iter() {
        match lex.next_token() {
            Err(_) => break,
            Ok(token) => {
                assert_eq!(token, *expected_token);
            }
        }
    }
}

#[test]
fn test_next_token_neg_sign_invalid() {
    let input = String::from(r#"{"field":-a}"#);
    let expected = vec![
        Token::OpenBrace('{'),
        Token::StringLiteral(quoted("field")),
        Token::Colon(':'),
    ];
    let mut lex = JSONLexer::from(input, true);
    for expected_token in expected.iter() {
        match lex.next_token() {
            Err(err) => {
                assert_eq!(err, LexError::InvalidNegativeNumber { offset: 10 });
            }
            Ok(token) => {
                assert_eq!(token, *expected_token);
            }
        }
    }
}

#[test]
fn test_next_token_neg_sign_valid() {
    let input = String::from(r#"{"field":-314159}"#);
    let expected = vec![
        Token::OpenBrace('{'),
        Token::StringLiteral(quoted("field")),
        Token::Colon(':'),
        Token::NumericLiteral(s("-314159")),
    ];
    let mut lex = JSONLexer::from(input, true);
    for expected_token in expected.iter() {
        match lex.next_token() {
            Err(_) => break,
            Ok(token) => {
                assert_eq!(token, *expected_token);
            }
        }
    }
}

#[test]
fn test_next_token_array() {
    let input = String::from(
        r#"
            {
                "an_array": [1, 2, 3, 4, 5]
            }
        "#,
    );
    let expected = vec![
        Token::OpenBrace('{'),
        Token::StringLiteral(quoted("an_array")),
        Token::Colon(':'),
        Token::OpenBrack('['),
        Token::NumericLiteral(s("1")),
        Token::Comma(','),
        Token::NumericLiteral(s("2")),
        Token::Comma(','),
        Token::NumericLiteral(s("3")),
        Token::Comma(','),
        Token::NumericLiteral(s("4")),
        Token::Comma(','),
        Token::NumericLiteral(s("5")),
        Token::CloseBrack(']'),
        Token::CloseBrace('}'),
    ];
    let mut lex = JSONLexer::from(input, true);
    for expected_token in expected.iter() {
        match lex.next_token() {
            Err(_) => break,
            Ok(token) => {
                assert_eq!(token, *expected_token);
            }
        }
    }
}

#[test]
fn test_next_token_ignore_ws() {
    let input = String::from(
        r#"
            {
                "field_1": "value_1",
                "field_2": -69,
                "field_3": [],
                "field_4": {}
            }
        "#,
    );
    let expected = vec![
        Token::OpenBrace('{'),
        Token::StringLiteral(quoted("field_1")),
        Token::Colon(':'),
        Token::StringLiteral(quoted("value_1")),
        Token::Comma(','),
        Token::StringLiteral(quoted("field_2")),
        Token::Colon(':'),
        Token::NumericLiteral(s("-69")),
        Token::Comma(','),
        Token::StringLiteral(quoted("field_3")),
        Token::Colon(':'),
        Token::OpenBrack('['),
        Token::CloseBrack(']'),
        Token::Comma(','),
        Token::StringLiteral(quoted("field_4")),
        Token::Colon(':'),
        Token::OpenBrace('{'),
        Token::CloseBrace('}'),
        Token::CloseBrace('}'),
    ];
    let mut lex = JSONLexer::from(input, true);
    for expected_token in expected.iter() {
        match lex.next_token() {
            Err(_) => break,
            Ok(token) => {
                assert_eq!(token, *expected_token);
            }
        }
    }
}

#[test]
fn test_next_token_no_ignore_ws() {
    let input = String::from(
        r#"
{
    "field_1": "value_1",
    "field_2": -69,
    "field_3": [],
    "field_4": {}
}
"#,
    );
    let sp = || Token::WhiteSpace(' ');
    let nl = || Token::WhiteSpace('\n');
    let expected = vec![
        nl(),
        Token::OpenBrace('{'),
        nl(),
        sp(),
        sp(),
        sp(),
        sp(),
        Token::StringLiteral(quoted("field_1")),
        Token::Colon(':'),
        sp(),
        Token::StringLiteral(quoted("value_1")),
        Token::Comma(','),
        nl(),
        sp(),
        sp(),
        sp(),
        sp(),
        Token::StringLiteral(quoted("field_2")),
        Token::Colon(':'),
        sp(),
        Token::NumericLiteral(s("-69")),
        Token::Comma(','),
        nl(),
        sp(),
        sp(),
        sp(),
        sp(),
        Token::StringLiteral(quoted("field_3")),
        Token::Colon(':'),
        sp(),
        Token::OpenBrack('['),
        Token::CloseBrack(']'),
        Token::Comma(','),
        nl(),
        sp(),
        sp(),
        sp(),
        sp(),
        Token::StringLiteral(quoted("field_4")),
        Token::Colon(':'),
        sp(),
        Token::OpenBrace('{'),
        Token::CloseBrace('}'),
        nl(),
        Token::CloseBrace('}'),
        nl(),
    ];
    let mut lex = JSONLexer::from(input, false);
    for expected_token in expected.iter() {
        match lex.next_token() {
            Err(_) => break,
            Ok(token) => {
                assert_eq!(token, *expected_token);
            }
        }
    }
}

#[test]
fn tokenize_scenario_object_with_number() {
    let tokens = tokenize(s("{\"field\":10}"), false).unwrap();
    assert_eq!(
        tokens,
        vec![
            Token::OpenBrace('{'),
            Token::StringLiteral(s("\"field\"")),
            Token::Colon(':'),
            Token::NumericLiteral(s("10")),
            Token::CloseBrace('}'),
            Token::Eof,
        ]
    );
}

#[test]
fn tokenize_scenario_invalid_negative_number() {
    let r = tokenize(s("{\"field\":-a}"), false);
    assert_eq!(r, Err(LexError::InvalidNegativeNumber { offset: 10 }));
}

#[test]
fn tokenize_booleans_and_parens() {
    let tokens = tokenize(s("(true,false) "), false).unwrap();
    assert_eq!(
        tokens,
        vec![
            Token::OpenParen('('),
            Token::BoolLiteral(s("true")),
            Token::Comma(','),
            Token::BoolLiteral(s("false")),
            Token::CloseParen(')'),
            Token::Eof,
        ]
    );
}

#[test]
fn tokenize_empty_input_is_eof() {
    assert_eq!(tokenize(s(""), false).unwrap(), vec![Token::Eof]);
    assert_eq!(tokenize(s("   \n\t"), false).unwrap(), vec![Token::Eof]);
}

#[test]
fn tokenize_nul_is_an_ordinary_character() {
    let r = tokenize(s("[\0]"), true);
    assert_eq!(r, Err(LexError::UnrecognizedLiteral { text: s("\0"), offset: 2 }));
    let text = s("[\"a\0b\"]");
    let tokens = tokenize(text.clone(), true).unwrap();
    assert_eq!(tokens[1], Token::StringLiteral(s("\"a\0b\"")));
    assert_eq!(render(&tokens), text);
}

#[test]
fn tokenize_string_keeps_backslash_and_whitespace() {
    let tokens = tokenize(s("\"a \\\"b"), false);
    // the string ends at the first quote after the opening one
    assert_eq!(
        tokens,
        Err(LexError::UnrecognizedLiteral { text: s("b"), offset: 6 })
    );
    let tokens = tokenize(s("[\"x y\"]"), false).unwrap();
    assert_eq!(tokens[1], Token::StringLiteral(s("\"x y\"")));
}

#[test]
fn keyword_with_nothing_after_it_is_rejected() {
    let r = tokenize(s("true"), false);
    assert_eq!(r, Err(LexError::UnrecognizedLiteral { text: s("t"), offset: 1 }));
    let r = tokenize(s("[true]"), false).unwrap();
    assert_eq!(r[1], Token::BoolLiteral(s("true")));
}

#[test]
fn keyword_mismatch_reports_attempted_text() {
    let r = tokenize(s("[fals] "), false);
    assert_eq!(r, Err(LexError::UnrecognizedLiteral { text: s("fals]"), offset: 2 }));
}

#[test]
fn unknown_character_is_unrecognized() {
    let r = tokenize(s("{x}"), false);
    assert_eq!(r, Err(LexError::UnrecognizedLiteral { text: s("x"), offset: 2 }));
}

#[test]
fn unterminated_string_is_an_error() {
    let r = tokenize(s("{\"abc"), false);
    assert_eq!(r, Err(LexError::UnterminatedString { offset: 1 }));
}

#[test]
fn cursor_reads_and_peeks() {
    let mut lex = JSONLexer::from(s("abcdef"), false);
    assert_eq!(lex.ch, 'a');
    assert_eq!(lex.peek_char(), 'b');
    assert_eq!(lex.peek_n_chars(3), Ok("bcd"));
    assert_eq!(lex.peek_n_chars(5), Err(LexError::OutOfBoundsLookahead));
    lex.read_char();
    assert_eq!((lex.pos, lex.read_pos, lex.ch), (1, 2, 'b'));
    assert_eq!(lex.read_n_chars(3), Ok(()));
    assert_eq!((lex.pos, lex.read_pos, lex.ch), (4, 5, 'e'));
    assert_eq!(lex.read_n_chars(1), Err(LexError::OutOfBoundsLookahead));
    assert_eq!((lex.pos, lex.read_pos, lex.ch), (4, 5, '\0'));
    lex.read_char();
    lex.read_char();
    assert_eq!(lex.ch, '\0');
    assert_eq!(lex.peek_char(), '\0');
    lex.read_char();
    assert_eq!((lex.pos, lex.read_pos, lex.ch), (7, 8, '\0'));
}

#[test]
fn numeric_and_bool_sub_scanners() {
    let mut lex = JSONLexer::from(s("-42,"), false);
    assert_eq!(lex.next_numeric_literal(), Ok(Token::NumericLiteral(s("-42"))));
    assert_eq!(lex.ch, '2');
    let mut lex = JSONLexer::from(s("false}"), false);
    assert_eq!(lex.next_bool_literal(), Ok(Token::BoolLiteral(s("false"))));
    assert_eq!(lex.ch, 'e');
}

#[test]
fn lex_appends_every_token_and_eof() {
    let mut lex = JSONLexer::from(s("[1, 2]"), false);
    assert_eq!(lex.lex(), Ok(()));
    assert_eq!(lex.lexed_input.len(), 7);
    assert_eq!(lex.lexed_input[6], Token::Eof);
    assert_eq!(lex.tokens_to_string(), s("[1, 2]"));
}

#[test]
fn extract_value_gives_literal_text() {
    assert_eq!(Token::Colon(':').extract_value(), s(":"));
    assert_eq!(Token::WhiteSpace('\t').extract_value(), s("\t"));
    assert_eq!(Token::NumericLiteral(s("12")).extract_value(), s("12"));
    assert_eq!(Token::Eof.extract_value(), s(""));
}

#[test]
fn lex_error_leaves_tokens_as_they_were() {
    let mut lex = JSONLexer::from(s("[1, -x]"), true);
    assert_eq!(lex.lex(), Err(LexError::InvalidNegativeNumber { offset: 5 }));
    assert!(lex.lexed_input.is_empty());
}

#[test]
fn next_token_error_leaves_cursor_at_failed_token() {
    let mut lex = JSONLexer::from(s("  -x"), true);
    assert_eq!(lex.next_token(), Err(LexError::InvalidNegativeNumber { offset: 3 }));
    assert_eq!((lex.pos, lex.ch), (2, '-'));
    let mut lex = JSONLexer::from(s("{\"ab"), true);
    assert_eq!(lex.next_token(), Ok(Token::OpenBrace('{')));
    assert_eq!(lex.next_token(), Err(LexError::UnterminatedString { offset: 1 }));
    assert_eq!((lex.pos, lex.read_pos, lex.ch), (1, 2, '"'));
}

#[test]
fn eof_past_the_end_keeps_advancing() {
    let mut lex = JSONLexer::from(s("1"), true);
    assert_eq!(lex.next_token(), Ok(Token::NumericLiteral(s("1"))));
    assert_eq!(lex.next_token(), Ok(Token::Eof));
    assert_eq!(lex.pos, 2);
    assert_eq!(lex.next_token(), Ok(Token::Eof));
    assert_eq!(lex.pos, 3);
}
