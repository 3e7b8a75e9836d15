use vstd::prelude::*;

verus! {

/// The kind of a token, without its literal text.
#[derive(Clone, Copy, Debug, PartialEq, Eq)]
pub enum TokenKind {
    WhiteSpace,
    OpenBrace,
    CloseBrace,
    OpenParen,
    CloseParen,
    OpenBrack,
    CloseBrack,
    Colon,
    Comma,
    StringLiteral,
    NumericLiteral,
    BoolLiteral,
    Eof,
}

/// One lexical unit. Every variant carries exactly the text that stands for
/// it in rendered output; `Eof` stands for no text at all.
#[derive(Debug, Clone, PartialEq, Eq)]
pub enum Token {
    WhiteSpace(char),
    OpenBrace(char),
    CloseBrace(char),
    OpenParen(char),
    CloseParen(char),
    OpenBrack(char),
    CloseBrack(char),
    Colon(char),
    Comma(char),
    StringLiteral(String),
    NumericLiteral(String),
    BoolLiteral(String),
    Eof,
}

/// A token seen as its kind and its literal text.
pub type TokenView = (TokenKind, Seq<char>);

impl View for Token {
    type V = TokenView;

    open spec fn view(&self) -> TokenView {
        match self {
            Token::WhiteSpace(c) => (TokenKind::WhiteSpace, seq![*c]),
            Token::OpenBrace(c) => (TokenKind::OpenBrace, seq![*c]),
            Token::CloseBrace(c) => (TokenKind::CloseBrace, seq![*c]),
            Token::OpenParen(c) => (TokenKind::OpenParen, seq![*c]),
            Token::CloseParen(c) => (TokenKind::CloseParen, seq![*c]),
            Token::OpenBrack(c) => (TokenKind::OpenBrack, seq![*c]),
            Token::CloseBrack(c) => (TokenKind::CloseBrack, seq![*c]),
            Token::Colon(c) => (TokenKind::Colon, seq![*c]),
            Token::Comma(c) => (TokenKind::Comma, seq![*c]),
            Token::StringLiteral(s) => (TokenKind::StringLiteral, s@),
            Token::NumericLiteral(s) => (TokenKind::NumericLiteral, s@),
            Token::BoolLiteral(s) => (TokenKind::BoolLiteral, s@),
            Token::Eof => (TokenKind::Eof, Seq::empty()),
        }
    }
}

/// The views of a sequence of tokens.
pub open spec fn views(ts: Seq<Token>) -> Seq<TokenView> {
    ts.map_values(|t: Token| t@)
}

/// Relies on std's `impl From<char> for String`: a string of that one character.
#[verifier::external_body]
pub(crate) fn char_to_string(c: char) -> (r: String)
    ensures
        r@ == seq![c],
{
    String::from(c)
}

impl Token {
    /// The literal text of this token.
    pub fn extract_value(self) -> (r: String)
        ensures
            r@ == self@.1,
    {
        match self {
            Token::WhiteSpace(val) => char_to_string(val),
            Token::OpenBrace(val) => char_to_string(val),
            Token::CloseBrace(val) => char_to_string(val),
            Token::OpenParen(val) => char_to_string(val),
            Token::CloseParen(val) => char_to_string(val),
            Token::OpenBrack(val) => char_to_string(val),
            Token::CloseBrack(val) => char_to_string(val),
            Token::Colon(val) => char_to_string(val),
            Token::Comma(val) => char_to_string(val),
            Token::StringLiteral(val) => val,
            Token::NumericLiteral(val) => val,
            Token::BoolLiteral(val) => val,
            Token::Eof => String::new(),
        }
    }
}

} // verus!
