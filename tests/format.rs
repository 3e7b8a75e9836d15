use json_lexer::{
    apply_insertions, indent_tokens, minify_json, plan_insertions, prettify_json, render, tokenize,
    LexError, Token,
};

fn s(text: &str) -> String {
    String::from(text)
}

#[test]
fn prettify_scenario_flat_object() {
    assert_eq!(prettify_json(s("{\"field\":10}")), Ok(s("{\n \"field\":10\n}")));
}

#[test]
fn prettify_scenario_array_in_object() {
    assert_eq!(
        prettify_json(s("{\"field\":[1,2,3,4]}")),
        Ok(s("{\n \"field\":[\n  1,\n  2,\n  3,\n  4\n ]\n}"))
    );
}

#[test]
fn prettify_scenario_empty_array_keeps_blank_line() {
    assert_eq!(
        prettify_json(s("{\"field\":{\"inner_field\":[]}}")),
        Ok(s("{\n \"field\":{\n  \"inner_field\":[\n   \n  ]\n }\n}"))
    );
}

#[test]
fn prettify_ignores_existing_layout() {
    let a = prettify_json(s("{\"field\":[1,2,3,4]}"));
    let b = prettify_json(s("  {\n\"field\" :\t[ 1 , 2,3 ,4 ] }\r\n"));
    assert_eq!(a, b);
}

#[test]
fn prettify_nested_depths() {
    assert_eq!(prettify_json(s("[[[]]]")), Ok(s("[\n [\n  [\n   \n  ]\n ]\n]")));
}

#[test]
fn prettify_comma_before_bracket_gets_no_newline() {
    assert_eq!(prettify_json(s("[[1],[2]]")), Ok(s("[\n [\n  1\n ],[\n  2\n ]\n]")));
}

#[test]
fn prettify_comma_before_brace_gets_newline() {
    assert_eq!(prettify_json(s("[{},{}]")), Ok(s("[\n {\n  \n },\n {\n  \n }\n]")));
}

#[test]
fn prettify_closer_at_depth_zero_stays_at_zero() {
    assert_eq!(prettify_json(s("]]")), Ok(s("\n]\n]")));
}

#[test]
fn prettify_reports_lexing_errors() {
    assert_eq!(
        prettify_json(s("{\"field\":-a}")),
        Err(LexError::InvalidNegativeNumber { offset: 10 })
    );
}

#[test]
fn minify_drops_whitespace_outside_strings() {
    let m = minify_json(s("{ \"a b\" : [ 1 ,\n\ttrue ] }\n")).unwrap();
    assert_eq!(m, s("{\"a b\":[1,true]}"));
    let outside: String = m.split('"').step_by(2).collect();
    assert!(!outside.chars().any(|c| c.is_whitespace()));
}

#[test]
fn minify_empty_and_error() {
    assert_eq!(minify_json(s("")), Ok(s("")));
    assert_eq!(minify_json(s("{\"a\":-}")), Err(LexError::InvalidNegativeNumber { offset: 6 }));
}

#[test]
fn render_of_preserved_tokens_gives_text_back() {
    let text = s(" { \"k\" :\t[1, -2, false] }\n");
    let tokens = tokenize(text.clone(), true).unwrap();
    assert_eq!(render(&tokens), text);
}

#[test]
fn prettify_of_minified_equals_prettify() {
    let text = s("{ \"a\": [1, 2, {\"b\": true}],\n \"c\": {} }\n");
    let m = minify_json(text.clone()).unwrap();
    assert_eq!(prettify_json(m), prettify_json(text));
}

#[test]
fn indent_tokens_inserts_planned_whitespace() {
    let tokens = tokenize(s("{\"field\":10}"), false).unwrap();
    let laid = indent_tokens(&tokens);
    assert_eq!(
        laid,
        vec![
            Token::OpenBrace('{'),
            Token::WhiteSpace('\n'),
            Token::WhiteSpace(' '),
            Token::StringLiteral(s("\"field\"")),
            Token::Colon(':'),
            Token::NumericLiteral(s("10")),
            Token::WhiteSpace('\n'),
            Token::CloseBrace('}'),
            Token::Eof,
        ]
    );
}

#[test]
fn render_concatenates_token_texts() {
    let tokens = vec![
        Token::OpenBrack('['),
        Token::BoolLiteral(s("true")),
        Token::WhiteSpace(' '),
        Token::CloseBrack(']'),
        Token::Eof,
    ];
    assert_eq!(render(&tokens), s("[true ]"));
}

#[test]
fn prettify_of_minified_equals_prettify_when_numbers_merge() {
    let text = s("[1 2, 3]\n");
    let m = minify_json(text.clone()).unwrap();
    assert_eq!(m, s("[12,3]"));
    assert_eq!(prettify_json(m), prettify_json(text));
}

#[test]
fn minified_keyword_at_the_end_cannot_be_read_again() {
    let text = s("true\n");
    let m = minify_json(text.clone()).unwrap();
    assert_eq!(m, s("true"));
    assert_eq!(prettify_json(text), Ok(s("true")));
    assert_eq!(
        prettify_json(m),
        Err(LexError::UnrecognizedLiteral { text: s("t"), offset: 1 })
    );
}

#[test]
fn plan_insertions_counts_original_tokens_before_each() {
    let tokens = tokenize(s("{\"field\":10}"), false).unwrap();
    let plan = plan_insertions(&tokens);
    assert_eq!(
        plan,
        vec![
            (1, Token::WhiteSpace('\n')),
            (1, Token::WhiteSpace(' ')),
            (4, Token::WhiteSpace('\n')),
        ]
    );
}

#[test]
fn plan_insertions_for_nested_closers() {
    let tokens = tokenize(s("[[]]"), false).unwrap();
    let plan = plan_insertions(&tokens);
    let nl = Token::WhiteSpace('\n');
    let sp = Token::WhiteSpace(' ');
    assert_eq!(
        plan,
        vec![
            (1, nl.clone()),
            (1, sp.clone()),
            (2, nl.clone()),
            (2, sp.clone()),
            (2, sp.clone()),
            (2, nl.clone()),
            (2, sp.clone()),
            (3, nl.clone()),
        ]
    );
}

#[test]
fn apply_insertions_merges_in_order() {
    let tokens = vec![Token::Colon(':'), Token::Comma(',')];
    let plan = vec![
        (0, Token::WhiteSpace('a')),
        (5, Token::WhiteSpace('b')),
        (1, Token::WhiteSpace('c')),
    ];
    assert_eq!(
        apply_insertions(&tokens, &plan),
        vec![
            Token::WhiteSpace('a'),
            Token::Colon(':'),
            Token::Comma(','),
            Token::WhiteSpace('b'),
            Token::WhiteSpace('c'),
        ]
    );
}
