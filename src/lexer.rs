use vstd::prelude::*;
use crate::format::{render, text_of};
use crate::token::{Token, TokenKind, TokenView, views, char_to_string};

verus! {

/// Why scanning stopped.
#[derive(Debug, Clone, PartialEq, Eq)]
pub enum LexError {
    /// A `-` that is not followed by a digit; the offset is that of the
    /// character after the `-`.
    InvalidNegativeNumber { offset: usize },
    /// A bulk lookahead or advance asked for more characters than remain.
    OutOfBoundsLookahead,
    /// A character that starts no token, or a keyword that did not match;
    /// `text` is what was tried and `offset` the cursor's lookahead position.
    UnrecognizedLiteral { text: String, offset: usize },
    /// A `"` with no closing `"` before the end of input; the offset is that
    /// of the opening quote.
    UnterminatedString { offset: usize },
}

/// A scanning error seen with plain values.
pub enum LexFault {
    InvalidNegativeNumber(int),
    OutOfBoundsLookahead,
    UnrecognizedLiteral(Seq<char>, int),
    UnterminatedString(int),
}

impl View for LexError {
    type V = LexFault;

    open spec fn view(&self) -> LexFault {
        match self {
            LexError::InvalidNegativeNumber { offset } => LexFault::InvalidNegativeNumber(*offset as int),
            LexError::OutOfBoundsLookahead => LexFault::OutOfBoundsLookahead,
            LexError::UnrecognizedLiteral { text, offset } => LexFault::UnrecognizedLiteral(text@, *offset as int),
            LexError::UnterminatedString { offset } => LexFault::UnterminatedString(*offset as int),
        }
    }
}

/// The character under position `p`, or the sentinel `'\0'` past the end.
pub open spec fn char_at(s: Seq<char>, p: int) -> char {
    if 0 <= p < s.len() {
        s[p]
    } else {
        '\0'
    }
}

/// Tab, newline, carriage return or space.
pub open spec fn is_ws(c: char) -> bool {
    c == '\t' || c == '\n' || c == '\r' || c == ' '
}

/// A decimal digit.
pub open spec fn is_digit(c: char) -> bool {
    '0' <= c && c <= '9'
}

/// The kind of a one-character delimiter token, if `c` is one.
pub open spec fn delimiter_kind(c: char) -> Option<TokenKind> {
    if c == '{' {
        Some(TokenKind::OpenBrace)
    } else if c == '}' {
        Some(TokenKind::CloseBrace)
    } else if c == '(' {
        Some(TokenKind::OpenParen)
    } else if c == ')' {
        Some(TokenKind::CloseParen)
    } else if c == '[' {
        Some(TokenKind::OpenBrack)
    } else if c == ']' {
        Some(TokenKind::CloseBrack)
    } else if c == ':' {
        Some(TokenKind::Colon)
    } else if c == ',' {
        Some(TokenKind::Comma)
    } else {
        None
    }
}

/// The first position at or after `p` that is not whitespace to be skipped.
pub open spec fn skip_ws(s: Seq<char>, p: int, ignore_ws: bool) -> int
    decreases s.len() - p,
{
    if ignore_ws && 0 <= p < s.len() && is_ws(s[p]) {
        skip_ws(s, p + 1, ignore_ws)
    } else {
        p
    }
}

/// The first position at or after `p` that holds no decimal digit.
pub open spec fn digits_end(s: Seq<char>, p: int) -> int
    decreases s.len() - p,
{
    if 0 <= p < s.len() && is_digit(s[p]) {
        digits_end(s, p + 1)
    } else {
        p
    }
}

/// The first position at or after `p` that holds a `"`, or the end of input.
pub open spec fn string_end(s: Seq<char>, p: int) -> int
    decreases s.len() - p,
{
    if 0 <= p < s.len() && s[p] != '"' {
        string_end(s, p + 1)
    } else {
        p
    }
}

/// The keywords that the lexer reads as boolean literals.
pub open spec fn true_word() -> Seq<char> {
    seq!['t', 'r', 'u', 'e']
}

pub open spec fn false_word() -> Seq<char> {
    seq!['f', 'a', 'l', 's', 'e']
}

/// Confirms the keyword `w` at `p`. The window must end strictly before the
/// last character of the input: exactly enough characters left is a failure.
pub open spec fn keyword(s: Seq<char>, p: int, w: Seq<char>) -> Result<(TokenView, int), LexFault> {
    if p + w.len() < s.len() {
        if s.subrange(p, p + w.len()) == w {
            Ok(((TokenKind::BoolLiteral, w), p + w.len()))
        } else {
            Err(LexFault::UnrecognizedLiteral(s.subrange(p, p + w.len()), p + 1))
        }
    } else {
        Err(LexFault::UnrecognizedLiteral(seq![char_at(s, p)], p + 1))
    }
}

/// A literal that starts with none of the other token's characters: a
/// boolean keyword, or an error.
pub open spec fn scan_word(s: Seq<char>, p: int) -> Result<(TokenView, int), LexFault> {
    let c = char_at(s, p);
    if c == 't' {
        keyword(s, p, true_word())
    } else if c == 'f' {
        keyword(s, p, false_word())
    } else {
        Err(LexFault::UnrecognizedLiteral(seq![c], p + 1))
    }
}

/// The token that starts at `p`, and the position where the next one starts.
/// Past the end of input it is `Eof`; a NUL inside the input is an ordinary
/// character.
pub open spec fn scan_token(s: Seq<char>, p: int) -> Result<(TokenView, int), LexFault> {
    let c = char_at(s, p);
    if p >= s.len() {
        Ok(((TokenKind::Eof, Seq::empty()), p + 1))
    } else if is_ws(c) {
        Ok(((TokenKind::WhiteSpace, seq![c]), p + 1))
    } else if delimiter_kind(c).is_some() {
        Ok(((delimiter_kind(c).unwrap(), seq![c]), p + 1))
    } else if c == '"' {
        let q = string_end(s, p + 1);
        if char_at(s, q) == '"' {
            Ok(((TokenKind::StringLiteral, s.subrange(p, q + 1)), q + 1))
        } else {
            Err(LexFault::UnterminatedString(p))
        }
    } else if is_digit(c) || (c == '-' && is_digit(char_at(s, p + 1))) {
        let q = digits_end(s, p + 1);
        Ok(((TokenKind::NumericLiteral, s.subrange(p, q)), q))
    } else if c == '-' {
        Err(LexFault::InvalidNegativeNumber(p + 1))
    } else {
        scan_word(s, p)
    }
}

/// One lexer step from `p`: skip whitespace if asked to, then scan a token.
pub open spec fn scan(s: Seq<char>, p: int, ignore_ws: bool) -> Result<(TokenView, int), LexFault> {
    scan_token(s, skip_ws(s, p, ignore_ws))
}

/// All tokens from `p` on, up to and including `Eof`, or the first error.
pub open spec fn lex_from(s: Seq<char>, p: int, ignore_ws: bool) -> Result<Seq<TokenView>, LexFault>
    decreases s.len() + 1 - p,
{
    match scan(s, p, ignore_ws) {
        Err(e) => Err(e),
        Ok((t, q)) => {
            if t.0 == TokenKind::Eof || !(0 <= p < q <= s.len()) {
                Ok(seq![t])
            } else {
                match lex_from(s, q, ignore_ws) {
                    Ok(ts) => Ok(seq![t] + ts),
                    Err(e) => Err(e),
                }
            }
        },
    }
}

/// The token stream of a whole text.
pub open spec fn lexed(s: Seq<char>, preserve_whitespace: bool) -> Result<Seq<TokenView>, LexFault> {
    lex_from(s, 0, !preserve_whitespace)
}

pub proof fn lemma_skip_ws_bounds(s: Seq<char>, p: int, ignore_ws: bool)
    requires
        0 <= p <= s.len(),
    ensures
        p <= skip_ws(s, p, ignore_ws) <= s.len(),
        !(ignore_ws && is_ws(char_at(s, skip_ws(s, p, ignore_ws)))),
    decreases s.len() - p,
{
    if ignore_ws && 0 <= p < s.len() && is_ws(s[p]) {
        lemma_skip_ws_bounds(s, p + 1, ignore_ws);
    }
}

pub proof fn lemma_digits_end_bounds(s: Seq<char>, p: int)
    requires
        0 <= p <= s.len(),
    ensures
        p <= digits_end(s, p) <= s.len(),
        !is_digit(char_at(s, digits_end(s, p))),
        forall|i: int| p <= i < digits_end(s, p) ==> is_digit(#[trigger] s[i]),
    decreases s.len() - p,
{
    if 0 <= p < s.len() && is_digit(s[p]) {
        lemma_digits_end_bounds(s, p + 1);
    }
}

pub proof fn lemma_string_end_bounds(s: Seq<char>, p: int)
    requires
        0 <= p <= s.len(),
    ensures
        p <= string_end(s, p) <= s.len(),
        string_end(s, p) < s.len() ==> s[string_end(s, p)] == '"',
        forall|i: int| p <= i < string_end(s, p) ==> #[trigger] s[i] != '"',
    decreases s.len() - p,
{
    if 0 <= p < s.len() && s[p] != '"' {
        lemma_string_end_bounds(s, p + 1);
    }
}

/// A token other than `Eof` is the text between where it starts and where
/// the next one starts; `Eof` has no text and stands at the end of input.
pub proof fn lemma_scan_token_text(s: Seq<char>, p: int)
    requires
        0 <= p <= s.len(),
    ensures
        scan_token(s, p) matches Ok((t, q)) ==> (t.0 != TokenKind::Eof ==> p < q <= s.len() && t.1
            == s.subrange(p, q)) && (t.0 == TokenKind::Eof ==> t.1.len() == 0 && p == s.len() && q
            == p + 1),
{
    if p + 1 <= s.len() {
        lemma_digits_end_bounds(s, p + 1);
        lemma_string_end_bounds(s, p + 1);
    }
    let c = char_at(s, p);
    if p < s.len() {
        if !is_ws(c) && delimiter_kind(c).is_none() && c != '"' && !is_digit(c) && c != '-' {
            if scan_token(s, p) is Ok {
                if c == 't' {
                    assert(s.subrange(p, p + 4) == true_word());
                } else {
                    assert(s.subrange(p, p + 5) == false_word());
                }
            }
        } else {
            assert(seq![c] =~= s.subrange(p, p + 1));
        }
    }
}

/// Every step that yields a token other than `Eof` moves forward and stays
/// within the text; `Eof` comes only past the end, one step further on.
pub proof fn lemma_scan_progress(s: Seq<char>, p: int, ignore_ws: bool)
    requires
        0 <= p,
    ensures
        scan(s, p, ignore_ws) matches Ok((t, q)) ==> (t.0 != TokenKind::Eof ==> p < q <= s.len()) && (
        t.0 == TokenKind::Eof ==> s.len() <= skip_ws(s, p, ignore_ws) && q == skip_ws(s, p, ignore_ws)
            + 1 && (p <= s.len() ==> skip_ws(s, p, ignore_ws) == s.len())),
{
    let p1 = skip_ws(s, p, ignore_ws);
    if p <= s.len() {
        lemma_skip_ws_bounds(s, p, ignore_ws);
        lemma_scan_token_text(s, p1);
    } else {
        assert(p1 == p);
    }
}

/// A result paired with its expected value from the model: the same token,
/// or the same error.
pub open spec fn yields(r: Result<Token, LexError>, expected: Result<(TokenView, int), LexFault>) -> bool {
    match expected {
        Ok((t, _)) => r matches Ok(tok) && tok@ == t,
        Err(f) => r matches Err(e) && e@ == f,
    }
}

/// Pushing a token pushes its view.
pub proof fn lemma_views_push(v: Seq<Token>, t: Token)
    ensures
        views(v.push(t)) == views(v).push(t@),
{
    assert(views(v.push(t)) =~= views(v).push(t@));
}

/// `r` with `done` put in front of its tokens.
pub open spec fn prefixed(done: Seq<TokenView>, r: Result<Seq<TokenView>, LexFault>) -> Result<
    Seq<TokenView>,
    LexFault,
> {
    match r {
        Ok(ts) => Ok(done + ts),
        Err(e) => Err(e),
    }
}

fn is_space(c: char) -> (r: bool)
    ensures
        r == is_ws(c),
{
    c == '\t' || c == '\n' || c == '\r' || c == ' '
}

fn is_decimal_digit(c: char) -> (r: bool)
    ensures
        r == is_digit(c),
{
    '0' <= c && c <= '9'
}

/// A cursor over a text that produces one token per call.
#[derive(Debug)]
pub struct JSONLexer {
    pub input: String,
    pub lexed_input: Vec<Token>,
    pub pos: usize,
    pub read_pos: usize,
    pub ch: char,
    pub ignore_ws: bool,
}

impl JSONLexer {
    /// The cursor's own invariant: the lookahead position is one past the
    /// current one, and the current character is the one under it, or the
    /// sentinel once the end of input is reached.
    pub open spec fn wf(&self) -> bool {
        &&& self.input@.len() + 1 < usize::MAX
        &&& self.read_pos == self.pos + 1
        &&& self.ch == char_at(self.input@, self.pos as int)
    }

    /// `self` is `prev` with the cursor moved to `p`.
    pub open spec fn moved_to(&self, prev: JSONLexer, p: int) -> bool {
        &&& self.wf()
        &&& self.input == prev.input
        &&& self.lexed_input == prev.lexed_input
        &&& self.ignore_ws == prev.ignore_ws
        &&& self.pos == p
    }

    /// A cursor at the start of `s`, with no tokens yet.
    pub fn from(s: String, ignore_ws: bool) -> (r: Self)
        requires
            s@.len() + 1 < usize::MAX,
        ensures
            r.wf(),
            r.input == s,
            r.lexed_input@ == Seq::<Token>::empty(),
            r.ignore_ws == ignore_ws,
            r.pos == 0,
    {
        let len = s.as_str().unicode_len();
        let ch = if len == 0 {
            '\0'
        } else {
            s.as_str().get_char(0)
        };
        JSONLexer { input: s, lexed_input: Vec::new(), pos: 0, read_pos: 1, ch, ignore_ws }
    }

    /// Moves one character forward; from the end of input on, the current
    /// character is the sentinel.
    pub fn read_char(&mut self)
        requires
            old(self).wf(),
            old(self).read_pos < usize::MAX,
        ensures
            final(self).moved_to(*old(self), old(self).read_pos as int),
    {
        let len = self.input.as_str().unicode_len();
        if self.read_pos >= len {
            self.ch = '\0';
        } else {
            self.ch = self.input.as_str().get_char(self.read_pos);
        }
        self.pos = self.read_pos;
        self.read_pos = self.read_pos + 1;
    }

    /// Moves `n` characters forward. Fails unless the new position is before
    /// the last character of input; a failed advance keeps both positions
    /// and leaves the sentinel as the current character.
    pub fn read_n_chars(&mut self, n: usize) -> (r: Result<(), LexError>)
        requires
            old(self).wf(),
        ensures
            old(self).read_pos + n < old(self).input@.len() ==> r is Ok && final(self).moved_to(
                *old(self),
                old(self).pos + n,
            ),
            old(self).read_pos + n >= old(self).input@.len() ==> r == Err::<(), LexError>(
                LexError::OutOfBoundsLookahead,
            ) && final(self).ch == '\0' && final(self).pos == old(self).pos && final(self).read_pos
                == old(self).read_pos && final(self).input == old(self).input && final(
                self).lexed_input == old(self).lexed_input && final(self).ignore_ws == old(
                self).ignore_ws,
    {
        let len = self.input.as_str().unicode_len();
        if self.read_pos >= len || n >= len - self.read_pos {
            self.ch = '\0';
            return Err(LexError::OutOfBoundsLookahead);
        }
        self.pos = self.pos + n;
        self.read_pos = self.pos + 1;
        self.ch = self.input.as_str().get_char(self.pos);
        Ok(())
    }

    /// The character after the current one, or the sentinel.
    pub fn peek_char(&mut self) -> (r: char)
        requires
            old(self).wf(),
        ensures
            *final(self) == *old(self),
            r == char_at(old(self).input@, old(self).read_pos as int),
    {
        let len = self.input.as_str().unicode_len();
        if self.read_pos >= len {
            '\0'
        } else {
            self.input.as_str().get_char(self.read_pos)
        }
    }

    /// The `n` characters after the current one. Fails unless at least one
    /// more character follows them.
    pub fn peek_n_chars(&mut self, n: usize) -> (r: Result<&str, LexError>)
        requires
            old(self).wf(),
        ensures
            *final(self) == *old(self),
            old(self).read_pos + n < old(self).input@.len() ==> (r matches Ok(w) && w@
                == old(self).input@.subrange(old(self).read_pos as int, old(self).read_pos + n)),
            old(self).read_pos + n >= old(self).input@.len() ==> (r matches Err(
                LexError::OutOfBoundsLookahead,
            )),
    {
        let len = self.input.as_str().unicode_len();
        if self.read_pos >= len || n >= len - self.read_pos {
            Err(LexError::OutOfBoundsLookahead)
        } else {
            Ok(self.input.as_str().substring_char(self.read_pos, self.read_pos + n))
        }
    }

    /// `self` is `prev` with the same text, tokens and mode.
    pub open spec fn same_source(&self, prev: JSONLexer) -> bool {
        &&& self.wf()
        &&& self.input == prev.input
        &&& self.lexed_input == prev.lexed_input
        &&& self.ignore_ws == prev.ignore_ws
    }

    /// What a sub-scanner leaves behind: the expected token with the cursor
    /// on its last character, or the expected error with the cursor unmoved.
    pub open spec fn scanned(
        &self,
        prev: JSONLexer,
        r: Result<Token, LexError>,
        expected: Result<(TokenView, int), LexFault>,
    ) -> bool {
        &&& yields(r, expected)
        &&& match expected {
            Ok((_, q)) => self.moved_to(prev, q - 1),
            Err(_) => *self == prev,
        }
    }

    /// Scans a number that starts at the current character: an optional
    /// `-`, then every decimal digit that follows.
    pub fn next_numeric_literal(&mut self) -> (r: Result<Token, LexError>)
        requires
            old(self).wf(),
            is_digit(old(self).ch) || old(self).ch == '-',
        ensures
            final(self).scanned(
                *old(self),
                r,
                Ok(
                    (
                        (
                            TokenKind::NumericLiteral,
                            old(self).input@.subrange(
                                old(self).pos as int,
                                digits_end(old(self).input@, old(self).pos + 1),
                            ),
                        ),
                        digits_end(old(self).input@, old(self).pos + 1),
                    ),
                ),
            ),
    {
        let ghost s = self.input@;
        let start = self.pos;
        proof {
            lemma_digits_end_bounds(s, start + 1);
        }
        loop
            invariant
                self.moved_to(*old(self), self.pos as int),
                self.input@ == s,
                start <= self.pos < s.len(),
                digits_end(s, start + 1) == digits_end(s, self.pos + 1),
            ensures
                self.moved_to(*old(self), self.pos as int),
                self.input@ == s,
                start <= self.pos < s.len(),
                digits_end(s, start + 1) == self.pos + 1,
            decreases s.len() - self.pos,
        {
            let next = self.peek_char();
            if !is_decimal_digit(next) {
                break;
            }
            self.read_char();
        }
        let text = self.input.as_str().substring_char(start, self.pos + 1);
        Ok(Token::NumericLiteral(String::from_str(text)))
    }

    /// Confirms the keyword `word`, whose first character is the current one.
    fn next_keyword(&mut self, word: &str) -> (r: Result<Token, LexError>)
        requires
            old(self).wf(),
            old(self).pos < old(self).input@.len(),
            word@.len() >= 1,
            old(self).ch == word@[0],
        ensures
            final(self).scanned(*old(self), r, keyword(old(self).input@, old(self).pos as int, word@)),
    {
        let ghost s = self.input@;
        let ghost p = self.pos as int;
        let n = word.unicode_len();
        let first = self.ch;
        let offset = self.read_pos;
        let attempt = match self.peek_n_chars(n - 1) {
            Ok(rest) => {
                let mut a = char_to_string(first);
                a.append(rest);
                a
            },
            Err(_) => {
                return Err(LexError::UnrecognizedLiteral { text: char_to_string(first), offset });
            },
        };
        assert(attempt@ =~= s.subrange(p, p + n));
        if attempt == String::from_str(word) {
            let _ = self.read_n_chars(n - 1);
            Ok(Token::BoolLiteral(attempt))
        } else {
            Err(LexError::UnrecognizedLiteral { text: attempt, offset })
        }
    }

    /// Scans a literal that starts with none of the other tokens' characters:
    /// `true` or `false`, or else an error.
    pub fn next_bool_literal(&mut self) -> (r: Result<Token, LexError>)
        requires
            old(self).wf(),
        ensures
            final(self).scanned(*old(self), r, scan_word(old(self).input@, old(self).pos as int)),
    {
        proof {
            reveal_strlit("true");
            reveal_strlit("false");
            assert("true"@ =~= true_word());
            assert("false"@ =~= false_word());
        }
        if self.ch == 't' {
            self.next_keyword("true")
        } else if self.ch == 'f' {
            self.next_keyword("false")
        } else {
            Err(LexError::UnrecognizedLiteral { text: char_to_string(self.ch), offset: self.read_pos })
        }
    }

    /// Produces the next token, skipping whitespace first if the lexer
    /// ignores it, and moves the cursor past it.
    /// On an error the cursor stands where the token that failed starts.
    pub fn next_token(&mut self) -> (r: Result<Token, LexError>)
        requires
            old(self).wf(),
            old(self).read_pos < usize::MAX,
        ensures
            yields(r, scan(old(self).input@, old(self).pos as int, old(self).ignore_ws)),
            final(self).same_source(*old(self)),
            scan(old(self).input@, old(self).pos as int, old(self).ignore_ws) matches Ok((_, q))
                ==> final(self).pos == q,
            scan(old(self).input@, old(self).pos as int, old(self).ignore_ws) is Err
                ==> final(self).pos == skip_ws(old(self).input@, old(self).pos as int, old(self).ignore_ws),
    {
        let ghost s = self.input@;
        let len = self.input.as_str().unicode_len();
        proof {
            if self.pos <= s.len() {
                lemma_skip_ws_bounds(s, self.pos as int, self.ignore_ws);
            }
        }
        if self.ignore_ws {
            while is_space(self.ch)
                invariant
                    self.moved_to(*old(self), self.pos as int),
                    self.input@ == s,
                    self.ignore_ws,
                    skip_ws(s, old(self).pos as int, true) == skip_ws(s, self.pos as int, true),
                decreases s.len() - self.pos,
            {
                self.read_char();
            }
        }
        let ghost p = self.pos as int;
        assert(p == skip_ws(s, old(self).pos as int, old(self).ignore_ws));
        let token: Token;
        if self.pos >= len {
            token = Token::Eof;
        } else {
            match self.ch {
                '{' => token = Token::OpenBrace('{'),
                '}' => token = Token::CloseBrace('}'),
                '(' => token = Token::OpenParen('('),
                ')' => token = Token::CloseParen(')'),
                '[' => token = Token::OpenBrack('['),
                ']' => token = Token::CloseBrack(']'),
                ':' => token = Token::Colon(':'),
                ',' => token = Token::Comma(','),
                '\t' | '\n' | '\r' | ' ' => token = Token::WhiteSpace(self.ch),
                '"' => {
                    let start = self.pos;
                    proof {
                        lemma_string_end_bounds(s, p + 1);
                    }
                    loop
                        invariant_except_break
                            string_end(s, p + 1) == string_end(s, self.pos + 1),
                        invariant
                            p == skip_ws(s, old(self).pos as int, old(self).ignore_ws),
                            char_at(s, p) == '"',
                            self.moved_to(*old(self), self.pos as int),
                            self.input@ == s,
                            len == s.len(),
                            start <= self.pos < s.len(),
                            start == p,
                        ensures
                            self.moved_to(*old(self), self.pos as int),
                            self.input@ == s,
                            start < self.pos < s.len(),
                            string_end(s, p + 1) == self.pos,
                            self.ch == '"',
                        decreases s.len() - self.pos,
                    {
                        self.read_char();
                        if self.ch == '"' {
                            break;
                        }
                        if self.pos >= len {
                            self.pos = start;
                            self.read_pos = start + 1;
                            self.ch = '"';
                            return Err(LexError::UnterminatedString { offset: start });
                        }
                    }
                    let text = self.input.as_str().substring_char(start, self.pos + 1);
                    token = Token::StringLiteral(String::from_str(text));
                },
                '-' => {
                    if !is_decimal_digit(self.peek_char()) {
                        return Err(LexError::InvalidNegativeNumber { offset: self.read_pos });
                    }
                    proof {
                        lemma_digits_end_bounds(s, p + 1);
                    }
                    match self.next_numeric_literal() {
                        Ok(t) => token = t,
                        Err(e) => return Err(e),
                    }
                },
                c => {
                    if is_decimal_digit(c) {
                        proof {
                            lemma_digits_end_bounds(s, p + 1);
                        }
                        match self.next_numeric_literal() {
                            Ok(t) => token = t,
                            Err(e) => return Err(e),
                        }
                    } else {
                        match self.next_bool_literal() {
                            Ok(t) => token = t,
                            Err(e) => return Err(e),
                        }
                    }
                },
            }
        }
        self.read_char();
        Ok(token)
    }

    /// Appends every remaining token, up to and including `Eof`, to
    /// `lexed_input`. Stops at the first error, and then leaves `lexed_input`
    /// as it was.
    pub fn lex(&mut self) -> (r: Result<(), LexError>)
        requires
            old(self).wf(),
            old(self).read_pos < usize::MAX,
        ensures
            final(self).wf(),
            final(self).input == old(self).input,
            final(self).ignore_ws == old(self).ignore_ws,
            match lex_from(old(self).input@, old(self).pos as int, old(self).ignore_ws) {
                Ok(ts) => r is Ok && views(final(self).lexed_input@) == views(old(self).lexed_input@)
                    + ts,
                Err(f) => r matches Err(e) && e@ == f
                    && final(self).lexed_input@ == old(self).lexed_input@,
            },
    {
        let kept = self.lexed_input.len();
        let ghost s = self.input@;
        let ghost ig = self.ignore_ws;
        let ghost p0 = self.pos as int;
        let ghost start = self.lexed_input@;
        let ghost mut done: Seq<TokenView> = Seq::empty();
        assert(views(start) + done =~= views(start));
        loop
            invariant_except_break
                lex_from(s, p0, ig) == prefixed(done, lex_from(s, self.pos as int, ig)),
                self.pos <= s.len() || self.pos == p0,
                self.read_pos < usize::MAX,
            invariant
                self.wf(),
                self.input == old(self).input,
                self.input@ == s,
                ig == old(self).ignore_ws,
                p0 == old(self).pos,
                start == old(self).lexed_input@,
                self.ignore_ws == ig,
                views(self.lexed_input@) == views(start) + done,
                kept == start.len(),
                self.lexed_input@.len() >= kept,
                self.lexed_input@.subrange(0, kept as int) == start,
            ensures
                self.wf(),
                self.input == old(self).input,
                self.input@ == s,
                ig == old(self).ignore_ws,
                p0 == old(self).pos,
                start == old(self).lexed_input@,
                self.ignore_ws == ig,
                views(self.lexed_input@) == views(start) + done,
                lex_from(s, p0, ig) == Ok::<Seq<TokenView>, LexFault>(done),
            decreases if self.pos <= s.len() {
                s.len() + 1 - self.pos
            } else {
                0
            },
        {
            let ghost p = self.pos as int;
            proof {
                lemma_scan_progress(s, p, ig);
            }
            match self.next_token() {
                Err(e) => {
                    self.lexed_input.truncate(kept);
                    return Err(e);
                },
                Ok(token) => {
                    let is_eof = matches!(token, Token::Eof);
                    let ghost t = token@;
                    let ghost tok_ghost = token;
                    let ghost old_tokens = self.lexed_input@;
                    self.lexed_input.push(token);
                    proof {
                        assert(self.lexed_input@.subrange(0, kept as int) =~= old_tokens.subrange(
                            0,
                            kept as int,
                        ));
                        lemma_views_push(old_tokens, tok_ghost);
                        assert(views(start) + done.push(t) =~= (views(start) + done).push(t));
                        assert(done.push(t) =~= done + seq![t]);
                        if is_eof {
                            assert(lex_from(s, p, ig) == Ok::<Seq<TokenView>, LexFault>(seq![t]));
                        } else {
                            let q = self.pos as int;
                            assert(lex_from(s, p, ig) == prefixed(seq![t], lex_from(s, q, ig)));
                            match lex_from(s, q, ig) {
                                Ok(ts) => {
                                    assert(done + (seq![t] + ts) =~= done.push(t) + ts);
                                },
                                Err(_) => {},
                            }
                        }
                        done = done.push(t);
                    }
                    if is_eof {
                        break;
                    }
                },
            }
        }
        Ok(())
    }


    /// The text of every token lexed so far, in order.
    pub fn tokens_to_string(&self) -> (r: String)
        ensures
            r@ == text_of(views(self.lexed_input@)),
    {
        render(&self.lexed_input)
    }

}


impl Default for JSONLexer {
    /// A cursor over the empty text that keeps whitespace.
    fn default() -> (r: Self)
        ensures
            r.wf(),
            r.input@ == Seq::<char>::empty(),
            r.lexed_input@ == Seq::<Token>::empty(),
            r.pos == 0,
            !r.ignore_ws,
    {
        JSONLexer::from(String::new(), false)
    }
}

/// The token stream of `s`, up to and including `Eof`. Whitespace becomes
/// tokens of its own when `preserve_whitespace` holds, and is skipped otherwise.
pub fn tokenize(s: String, preserve_whitespace: bool) -> (r: Result<Vec<Token>, LexError>)
    requires
        s@.len() + 1 < usize::MAX,
    ensures
        match lexed(s@, preserve_whitespace) {
            Ok(ts) => r matches Ok(v) && views(v@) == ts,
            Err(f) => r matches Err(e) && e@ == f,
        },
{
    let mut lexer = JSONLexer::from(s, !preserve_whitespace);
    match lexer.lex() {
        Ok(()) => {
            assert(views(Seq::<Token>::empty()) + views(lexer.lexed_input@) =~= views(lexer.lexed_input@));
            Ok(lexer.lexed_input)
        },
        Err(e) => Err(e),
    }
}

} // verus!
