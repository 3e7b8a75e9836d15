use vstd::prelude::*;
use crate::format::{
    depth_after, depth_at, first_kind, is_close, is_open, lay, lemma_layout_is_lay, lemma_text_of_concat,
    minified, piece, prettified, text_of,
};
use crate::lexer::{
    char_at, delimiter_kind, digits_end, false_word, is_digit, is_ws, lemma_digits_end_bounds,
    lemma_scan_token_text, lemma_skip_ws_bounds, lemma_string_end_bounds, lex_from, lexed, scan,
    scan_token, skip_ws, string_end, true_word,
};
use crate::token::{TokenKind, TokenView};

verus! {

proof fn lemma_text_of_cons(t: TokenView, rest: Seq<TokenView>)
    ensures
        text_of(seq![t] + rest) == t.1 + text_of(rest),
{
    assert((seq![t] + rest).drop_first() =~= rest);
}

proof fn lemma_round_trip_from(s: Seq<char>, p: int)
    requires
        0 <= p <= s.len(),
        lex_from(s, p, false) is Ok,
    ensures
        lex_from(s, p, false) matches Ok(ts) && text_of(ts) == s.subrange(p, s.len() as int),
    decreases s.len() - p,
{
    assert(skip_ws(s, p, false) == p);
    lemma_scan_token_text(s, p);
    let (t, q) = scan(s, p, false)->Ok_0;
    if t.0 == TokenKind::Eof {
        lemma_text_of_cons(t, Seq::empty());
        assert(text_of(Seq::<TokenView>::empty()) == Seq::<char>::empty());
        assert(t.1 + Seq::<char>::empty() =~= s.subrange(p, s.len() as int));
    } else {
        lemma_round_trip_from(s, q);
        let rest = lex_from(s, q, false)->Ok_0;
        lemma_text_of_cons(t, rest);
        assert(s.subrange(p, q) + s.subrange(q, s.len() as int) =~= s.subrange(p, s.len() as int));
    }
}

/// Round trip: lexing with whitespace kept and rendering the tokens gives
/// back the text, for every text that lexes without error.
pub proof fn lemma_round_trip(s: Seq<char>)
    requires
        lexed(s, true) is Ok,
    ensures
        lexed(s, true) matches Ok(ts) && text_of(ts) == s,
{
    lemma_round_trip_from(s, 0);
    assert(s.subrange(0, s.len() as int) =~= s);
}

/// A token that minified output may hold: not whitespace, and with no
/// whitespace character in its text unless it is a string literal.
pub open spec fn bare(t: TokenView) -> bool {
    &&& t.0 != TokenKind::WhiteSpace
    &&& t.0 != TokenKind::StringLiteral ==> forall|j: int| 0 <= j < t.1.len() ==> !is_ws(#[trigger] t.1[j])
}

proof fn lemma_scan_bare(s: Seq<char>, p: int)
    requires
        0 <= p <= s.len(),
        scan(s, p, true) is Ok,
    ensures
        bare((scan(s, p, true)->Ok_0).0),
{
    lemma_skip_ws_bounds(s, p, true);
    let p1 = skip_ws(s, p, true);
    lemma_scan_token_text(s, p1);
    let (t, q) = scan_token(s, p1)->Ok_0;
    let c = char_at(s, p1);
    if t.0 == TokenKind::NumericLiteral {
        lemma_digits_end_bounds(s, p1 + 1);
        assert forall|j: int| 0 <= j < t.1.len() implies !is_ws(#[trigger] t.1[j]) by {
            if j > 0 {
                assert(is_digit(s[p1 + j]));
            }
        }
    } else if t.0 == TokenKind::BoolLiteral {
        let w = if c == 't' { true_word() } else { false_word() };
        assert(t.1 == w);
        assert forall|j: int| 0 <= j < t.1.len() implies !is_ws(#[trigger] t.1[j]) by {
            assert(t.1[j] == w[j]);
        }
    } else if t.0 != TokenKind::StringLiteral && t.0 != TokenKind::Eof {
        assert(t.1 == seq![c]);
    }
}

proof fn lemma_minify_bare_from(s: Seq<char>, p: int)
    requires
        0 <= p <= s.len(),
        lex_from(s, p, true) is Ok,
    ensures
        lex_from(s, p, true) matches Ok(ts) && forall|i: int| 0 <= i < ts.len() ==> bare(#[trigger] ts[i]),
    decreases s.len() - p,
{
    lemma_scan_bare(s, p);
    crate::lexer::lemma_scan_progress(s, p, true);
    let (t, q) = scan(s, p, true)->Ok_0;
    if t.0 != TokenKind::Eof {
        lemma_minify_bare_from(s, q);
        let rest = lex_from(s, q, true)->Ok_0;
        let ts = seq![t] + rest;
        assert forall|i: int| 0 <= i < ts.len() implies bare(#[trigger] ts[i]) by {
            if i > 0 {
                assert(ts[i] == rest[i - 1]);
            }
        }
    }
}

/// Minifying purges whitespace: the minified text is the text of tokens of
/// which none is whitespace, and whitespace characters stand only inside
/// string literals.
pub proof fn lemma_minify_drops_whitespace(s: Seq<char>)
    requires
        lexed(s, false) is Ok,
    ensures
        lexed(s, false) matches Ok(ts) && minified(s) == Ok::<Seq<char>, crate::lexer::LexFault>(text_of(ts))
            && forall|i: int| 0 <= i < ts.len() ==> bare(#[trigger] ts[i]),
{
    lemma_minify_bare_from(s, 0);
}

/// The nesting depth before token `i`, counted without any floor: openers
/// minus closers among the tokens before it.
pub open spec fn nesting(ts: Seq<TokenView>, i: int) -> int
    decreases i,
{
    if i <= 0 {
        0
    } else {
        nesting(ts, i - 1) + if is_open(ts[i - 1].0) {
            1int
        } else if is_close(ts[i - 1].0) {
            -1int
        } else {
            0int
        }
    }
}

/// No prefix closes more than it opens, and the whole stream closes all it
/// opens.
pub open spec fn well_nested(ts: Seq<TokenView>) -> bool {
    &&& forall|i: int| 0 <= i <= ts.len() ==> #[trigger] nesting(ts, i) >= 0
    &&& nesting(ts, ts.len() as int) == 0
}

/// Depth never goes negative during planning: on a stream in which no prefix
/// closes more than it opens, the depth that planning tracks is the nesting
/// depth at every token, so it never has to stop at zero.
pub proof fn lemma_depth_never_negative(ts: Seq<TokenView>)
    requires
        forall|i: int| 0 <= i <= ts.len() ==> #[trigger] nesting(ts, i) >= 0,
    ensures
        forall|i: int| 0 <= i <= ts.len() ==> #[trigger] depth_at(ts, i) == nesting(ts, i),
{
    assert forall|i: int| 0 <= i <= ts.len() implies #[trigger] depth_at(ts, i) == nesting(ts, i) by {
        lemma_depth_is_nesting(ts, i);
    }
}

proof fn lemma_depth_is_nesting(ts: Seq<TokenView>, i: int)
    requires
        0 <= i <= ts.len(),
        forall|j: int| 0 <= j <= ts.len() ==> #[trigger] nesting(ts, j) >= 0,
    ensures
        depth_at(ts, i) == nesting(ts, i),
    decreases i,
{
    if i > 0 {
        lemma_depth_is_nesting(ts, i - 1);
        assert(nesting(ts, i) >= 0);
    }
}

proof fn lemma_nesting_rises_after(ts: Seq<TokenView>, k: int, j: int)
    requires
        0 <= k < j <= ts.len(),
        forall|m: int| k < m < ts.len() ==> !is_close(#[trigger] ts[m].0),
    ensures
        nesting(ts, j) <= nesting(ts, ts.len() as int),
    decreases ts.len() - j,
{
    if j < ts.len() {
        lemma_nesting_rises_after(ts, k, j + 1);
        assert(!is_close(ts[j].0));
    }
}

/// Depth returns to 0 exactly at the final closing delimiter of a
/// well-nested stream: it is 1 just before that delimiter, and 0 from just
/// after it to the end.
pub proof fn lemma_depth_returns_to_zero(ts: Seq<TokenView>, k: int)
    requires
        well_nested(ts),
        0 <= k < ts.len(),
        is_close(ts[k].0),
        forall|m: int| k < m < ts.len() ==> !is_close(#[trigger] ts[m].0),
    ensures
        depth_at(ts, k) == 1,
        forall|j: int| k < j <= ts.len() ==> #[trigger] depth_at(ts, j) == 0,
{
    lemma_depth_never_negative(ts);
    assert forall|j: int| k < j <= ts.len() implies #[trigger] depth_at(ts, j) == 0 by {
        lemma_nesting_rises_after(ts, k, j);
        assert(nesting(ts, j) >= 0);
    }
    assert(depth_at(ts, k + 1) == 0);
    assert(nesting(ts, k) >= 0);
    assert(depth_at(ts, k) == nesting(ts, k));
}

/// The shape of a token that the lexer produces with whitespace skipped.
#[verifier::opaque]
pub open spec fn shaped(t: TokenView) -> bool {
    let w = t.1;
    match t.0 {
        TokenKind::Eof => w.len() == 0,
        TokenKind::WhiteSpace => false,
        TokenKind::StringLiteral => {
            &&& w.len() >= 2
            &&& w[0] == '"'
            &&& w[w.len() - 1] == '"'
            &&& forall|j: int| 1 <= j < w.len() - 1 ==> #[trigger] w[j] != '"'
        },
        TokenKind::NumericLiteral => {
            &&& w.len() >= 1
            &&& is_digit(w[0]) || (w[0] == '-' && w.len() >= 2)
            &&& forall|j: int| 1 <= j < w.len() ==> is_digit(#[trigger] w[j])
        },
        TokenKind::BoolLiteral => w == true_word() || w == false_word(),
        _ => w.len() == 1 && delimiter_kind(w[0]) == Some(t.0),
    }
}

/// A stream as the lexer hands it out with whitespace skipped: shaped
/// tokens, with `Eof` last and nowhere else.
pub open spec fn shaped_stream(ts: Seq<TokenView>) -> bool {
    &&& ts.len() >= 1
    &&& ts.last().0 == TokenKind::Eof
    &&& forall|i: int| 0 <= i < ts.len() - 1 ==> (#[trigger] ts[i]).0 != TokenKind::Eof
    &&& forall|i: int| 0 <= i < ts.len() ==> shaped(#[trigger] ts[i])
}

/// The token before the final `Eof`, if any, is not a keyword.
pub open spec fn keyword_not_last(ts: Seq<TokenView>) -> bool {
    ts.len() < 2 || ts[ts.len() - 2].0 != TokenKind::BoolLiteral
}

/// A number directly followed by a number that starts with a digit: once
/// the whitespace between them is gone they read as one number.
spec fn fusable(ts: Seq<TokenView>) -> bool {
    &&& ts.len() >= 2
    &&& ts[0].0 == TokenKind::NumericLiteral
    &&& ts[1].0 == TokenKind::NumericLiteral
    &&& is_digit(ts[1].1[0])
}

/// `ts` with every such pair of numbers read as one number.
spec fn fuse(ts: Seq<TokenView>) -> Seq<TokenView>
    decreases ts.len(),
{
    if ts.len() == 0 {
        ts
    } else if fusable(ts) {
        fuse(seq![(TokenKind::NumericLiteral, ts[0].1 + ts[1].1)] + ts.subrange(2, ts.len() as int))
    } else {
        seq![ts[0]] + fuse(ts.drop_first())
    }
}

proof fn lemma_text_of_cons2(a: TokenView, b: TokenView, rest: Seq<TokenView>)
    ensures
        text_of(seq![a, b] + rest) == a.1 + b.1 + text_of(rest),
{
    lemma_text_of_cons(b, rest);
    lemma_text_of_cons(a, seq![b] + rest);
    assert(seq![a, b] + rest =~= seq![a] + (seq![b] + rest));
    assert(a.1 + (b.1 + text_of(rest)) =~= a.1 + b.1 + text_of(rest));
}

/// Reading two numbers as one changes neither the first kind nor the text of
/// the layout: numbers get no whitespace and leave the depth alone.
proof fn lemma_fuse_lay(ts: Seq<TokenView>, d: nat)
    ensures
        first_kind(fuse(ts)) == first_kind(ts),
        text_of(lay(fuse(ts), d)) == text_of(lay(ts, d)),
    decreases ts.len(),
{
    if ts.len() == 0 {
    } else if fusable(ts) {
        let a = ts[0];
        let b = ts[1];
        let x = ts.subrange(2, ts.len() as int);
        let m = (TokenKind::NumericLiteral, a.1 + b.1);
        let tm = seq![m] + x;
        lemma_fuse_lay(tm, d);
        assert(tm[0] == m);
        assert(tm.drop_first() =~= x);
        assert(ts.drop_first()[0] == b);
        assert(ts.drop_first().drop_first() =~= x);
        assert(lay(tm, d) == seq![m] + lay(x, d));
        assert(lay(ts.drop_first(), d) == seq![b] + lay(x, d));
        assert(lay(ts, d) == seq![a] + (seq![b] + lay(x, d)));
        assert(seq![a] + (seq![b] + lay(x, d)) =~= seq![a, b] + lay(x, d));
        lemma_text_of_cons(m, lay(x, d));
        lemma_text_of_cons2(a, b, lay(x, d));
    } else {
        let t = ts[0];
        let rest = ts.drop_first();
        lemma_fuse_lay(rest, depth_after(t.0, d));
        let f = seq![t] + fuse(rest);
        assert(f[0] == t);
        assert(f.drop_first() =~= fuse(rest));
        assert(lay(f, d) == piece(t, first_kind(fuse(rest)), d) + lay(fuse(rest), depth_after(t.0, d)));
        lemma_text_of_concat(piece(t, first_kind(rest), d), lay(fuse(rest), depth_after(t.0, d)));
        lemma_text_of_concat(piece(t, first_kind(rest), d), lay(rest, depth_after(t.0, d)));
    }
}

proof fn lemma_scan_shaped(s: Seq<char>, p: int)
    requires
        0 <= p <= s.len(),
        scan(s, p, true) is Ok,
    ensures
        shaped((scan(s, p, true)->Ok_0).0),
{
    reveal(shaped);
    lemma_skip_ws_bounds(s, p, true);
    let p1 = skip_ws(s, p, true);
    lemma_scan_token_text(s, p1);
    let (t, q) = scan_token(s, p1)->Ok_0;
    let c = char_at(s, p1);
    if p1 + 1 <= s.len() {
        lemma_digits_end_bounds(s, p1 + 1);
        lemma_string_end_bounds(s, p1 + 1);
    }
    if t.0 == TokenKind::NumericLiteral {
        assert forall|j: int| 1 <= j < t.1.len() implies is_digit(#[trigger] t.1[j]) by {
            assert(t.1[j] == s[p1 + j]);
        }
    } else if t.0 == TokenKind::StringLiteral {
        assert forall|j: int| 1 <= j < t.1.len() - 1 implies #[trigger] t.1[j] != '"' by {
            assert(t.1[j] == s[p1 + j]);
        }
    } else if t.0 == TokenKind::BoolLiteral {
        assert(t.1 == true_word() || t.1 == false_word());
    } else if t.0 != TokenKind::Eof {
        assert(t.1 == seq![c]);
    }
}

proof fn lemma_lexed_shaped_from(s: Seq<char>, p: int)
    requires
        0 <= p <= s.len(),
        lex_from(s, p, true) is Ok,
    ensures
        shaped_stream(lex_from(s, p, true)->Ok_0),
    decreases s.len() - p,
{
    lemma_scan_shaped(s, p);
    crate::lexer::lemma_scan_progress(s, p, true);
    let (t, q) = scan(s, p, true)->Ok_0;
    if t.0 != TokenKind::Eof {
        lemma_lexed_shaped_from(s, q);
        let rest = lex_from(s, q, true)->Ok_0;
        let ts = seq![t] + rest;
        assert(ts.last() == rest.last());
        assert forall|i: int| 0 <= i < ts.len() implies shaped(#[trigger] ts[i]) by {
            if i > 0 {
                assert(ts[i] == rest[i - 1]);
            }
        }
        assert forall|i: int| 0 <= i < ts.len() - 1 implies (#[trigger] ts[i]).0 != TokenKind::Eof by {
            if i > 0 {
                assert(ts[i] == rest[i - 1]);
            }
        }
    }
}

proof fn lemma_digits_run(r: Seq<char>, a: int, b: int)
    requires
        0 <= a <= b <= r.len(),
        forall|j: int| a <= j < b ==> is_digit(#[trigger] r[j]),
        !is_digit(char_at(r, b)),
    ensures
        digits_end(r, a) == b,
    decreases b - a,
{
    if a < b {
        lemma_digits_run(r, a + 1, b);
    }
}

proof fn lemma_string_run(r: Seq<char>, a: int, b: int)
    requires
        0 <= a <= b < r.len(),
        forall|j: int| a <= j < b ==> #[trigger] r[j] != '"',
        r[b] == '"',
    ensures
        string_end(r, a) == b,
    decreases b - a,
{
    if a < b {
        lemma_string_run(r, a + 1, b);
    }
}

/// A shaped token, written at `p` and followed by what lets it end there,
/// scans back as itself.
proof fn lemma_rescan(r: Seq<char>, p: int, t: TokenView)
    requires
        0 <= p,
        p + t.1.len() <= r.len(),
        r.subrange(p, p + t.1.len()) == t.1,
        shaped(t),
        t.0 != TokenKind::Eof,
        t.0 == TokenKind::NumericLiteral ==> !is_digit(char_at(r, p + t.1.len())),
        t.0 == TokenKind::BoolLiteral ==> p + t.1.len() < r.len(),
    ensures
        scan(r, p, true) == Ok::<(TokenView, int), crate::lexer::LexFault>((t, p + t.1.len())),
{
    reveal(shaped);
    let w = t.1;
    let n = w.len() as int;
    assert(r[p] == w[0]);
    assert(skip_ws(r, p, true) == p);
    if t.0 == TokenKind::NumericLiteral {
        assert forall|j: int| p + 1 <= j < p + n implies is_digit(#[trigger] r[j]) by {
            assert(r[j] == w[j - p]);
        }
        if w[0] == '-' {
            assert(r[p + 1] == w[1]);
        }
        lemma_digits_run(r, p + 1, p + n);
    } else if t.0 == TokenKind::StringLiteral {
        assert forall|j: int| p + 1 <= j < p + n - 1 implies #[trigger] r[j] != '"' by {
            assert(r[j] == w[j - p]);
        }
        assert(r[p + n - 1] == w[n - 1]);
        lemma_string_run(r, p + 1, p + n - 1);
    } else if t.0 == TokenKind::BoolLiteral {
        assert(true_word()[0] == 't');
        assert(false_word()[0] == 'f');
    } else {
        assert(w =~= seq![w[0]]);
    }
}

proof fn lemma_stream_tail(ts: Seq<TokenView>)
    requires
        shaped_stream(ts),
        keyword_not_last(ts),
        ts.len() >= 2,
    ensures
        shaped_stream(ts.drop_first()),
        keyword_not_last(ts.drop_first()),
{
    let rest = ts.drop_first();
    assert(rest.last() == ts.last());
    assert forall|i: int| 0 <= i < rest.len() implies shaped(#[trigger] rest[i]) by {
        assert(rest[i] == ts[i + 1]);
    }
    assert forall|i: int| 0 <= i < rest.len() - 1 implies (#[trigger] rest[i]).0 != TokenKind::Eof by {
        assert(rest[i] == ts[i + 1]);
    }
    if rest.len() >= 2 {
        assert(rest[rest.len() - 2] == ts[ts.len() - 2]);
    }
}

/// Two numbers read as one form a shaped number, and the stream stays a
/// shaped stream with the same text.
proof fn lemma_fused_stream(ts: Seq<TokenView>)
    requires
        shaped_stream(ts),
        keyword_not_last(ts),
        fusable(ts),
    ensures
        ({
            let tm = seq![(TokenKind::NumericLiteral, ts[0].1 + ts[1].1)] + ts.subrange(2, ts.len() as int);
            &&& shaped_stream(tm)
            &&& keyword_not_last(tm)
            &&& text_of(tm) == text_of(ts)
            &&& tm.len() < ts.len()
        }),
{
    let a = ts[0];
    let b = ts[1];
    let x = ts.subrange(2, ts.len() as int);
    let m = (TokenKind::NumericLiteral, a.1 + b.1);
    let tm = seq![m] + x;
    assert(shaped(a) && shaped(b));
    assert(ts.len() >= 3) by {
        if ts.len() == 2 {
            assert(ts.last() == b);
        }
    }
    assert(shaped(m)) by {
        reveal(shaped);
        assert forall|j: int| 1 <= j < m.1.len() implies is_digit(#[trigger] m.1[j]) by {
            if j < a.1.len() {
                assert(m.1[j] == a.1[j]);
            } else {
                assert(m.1[j] == b.1[j - a.1.len()]);
            }
        }
    }
    assert(tm.last() == ts.last());
    assert forall|i: int| 0 <= i < tm.len() implies shaped(#[trigger] tm[i]) by {
        if i > 0 {
            assert(tm[i] == ts[i + 1]);
        }
    }
    assert forall|i: int| 0 <= i < tm.len() - 1 implies (#[trigger] tm[i]).0 != TokenKind::Eof by {
        if i > 0 {
            assert(tm[i] == ts[i + 1]);
        }
    }
    if tm.len() >= 2 && tm.len() - 2 > 0 {
        assert(tm[tm.len() - 2] == ts[ts.len() - 2]);
    }
    assert(ts =~= seq![a, b] + x);
    lemma_text_of_cons2(a, b, x);
    lemma_text_of_cons(m, x);
}

proof fn lemma_split_text(r: Seq<char>, p: int, a: Seq<char>, b: Seq<char>)
    requires
        0 <= p <= r.len(),
        r.subrange(p, r.len() as int) == a + b,
    ensures
        p + a.len() <= r.len(),
        r.subrange(p, p + a.len()) == a,
        r.subrange(p + a.len(), r.len() as int) == b,
{
    let n = a.len() as int;
    assert(r.subrange(p, r.len() as int).len() == r.len() - p);
    assert((a + b).len() == a.len() + b.len());
    assert(r.subrange(p, p + n) =~= (a + b).subrange(0, n));
    assert(r.subrange(p + n, r.len() as int) =~= (a + b).subrange(n, n + b.len()));
}

/// The text of a stream that does not start with `Eof` starts with the first
/// character of its first token.
proof fn lemma_text_starts(ts: Seq<TokenView>)
    requires
        shaped_stream(ts),
        ts[0].0 != TokenKind::Eof,
    ensures
        ts[0].1.len() >= 1,
        text_of(ts).len() >= 1,
        text_of(ts)[0] == ts[0].1[0],
        !is_digit(ts[0].1[0]) || ts[0].0 == TokenKind::NumericLiteral,
{
    reveal(shaped);
    let u = ts[0];
    assert(shaped(u));
    if u.0 == TokenKind::BoolLiteral {
        assert(true_word()[0] == 't' && true_word().len() == 4);
        assert(false_word()[0] == 'f' && false_word().len() == 5);
    }
    lemma_text_of_cons(u, ts.drop_first());
    assert(ts =~= seq![u] + ts.drop_first());
}

proof fn lemma_relex(r: Seq<char>, p: int, ts: Seq<TokenView>)
    requires
        0 <= p <= r.len(),
        r.subrange(p, r.len() as int) == text_of(ts),
        shaped_stream(ts),
        keyword_not_last(ts),
    ensures
        lex_from(r, p, true) == Ok::<Seq<TokenView>, crate::lexer::LexFault>(fuse(ts)),
    decreases ts.len(),
{
    let t = ts[0];
    let rest = ts.drop_first();
    assert(ts =~= seq![t] + rest);
    lemma_text_of_cons(t, rest);
    assert(shaped(t));
    if t.0 == TokenKind::Eof {
        assert(ts.len() == 1);
        assert(rest =~= Seq::<TokenView>::empty());
        assert(text_of(rest) == Seq::<char>::empty());
        assert(t.1 =~= Seq::<char>::empty()) by {
            reveal(shaped);
        }
        assert(r.subrange(p, r.len() as int).len() == 0);
        assert(fuse(rest) =~= rest);
        assert(fuse(ts) =~= seq![t]);
    } else if fusable(ts) {
        lemma_fused_stream(ts);
        let tm = seq![(TokenKind::NumericLiteral, ts[0].1 + ts[1].1)] + ts.subrange(2, ts.len() as int);
        lemma_relex(r, p, tm);
    } else {
        let q = p + t.1.len();
        lemma_split_text(r, p, t.1, text_of(rest));
        assert(ts.len() >= 2);
        lemma_stream_tail(ts);
        let u = rest[0];
        assert(u == ts[1]);
        if u.0 == TokenKind::Eof {
            assert(rest.len() == 1) by {
                if rest.len() > 1 {
                    assert(ts[1].0 != TokenKind::Eof);
                }
            }
            assert(rest =~= seq![u]);
            lemma_text_of_cons(u, Seq::empty());
            assert(text_of(Seq::<TokenView>::empty()) == Seq::<char>::empty());
            assert(shaped(u));
            assert(u.1.len() == 0) by {
                reveal(shaped);
            }
            assert(text_of(rest).len() == 0);
            assert(q == r.len());
            assert(ts[ts.len() - 2] == t);
        } else {
            lemma_text_starts(rest);
            assert(r.subrange(q, r.len() as int)[0] == r[q]);
        }
        lemma_rescan(r, p, t);
        lemma_relex(r, q, rest);
        assert(t.1.len() >= 1) by {
            reveal(shaped);
            if t.0 == TokenKind::BoolLiteral {
                assert(true_word().len() == 4);
                assert(false_word().len() == 5);
            }
        }
        assert(fuse(ts) == seq![t] + fuse(rest));
    }
}

/// Idempotence: prettifying a minified text gives what prettifying the text
/// gives. A keyword needs a character after it to be read, so this holds of
/// every text whose last token before `Eof` is not a keyword.
pub proof fn lemma_prettify_after_minify(s: Seq<char>)
    requires
        lexed(s, false) matches Ok(ts) && keyword_not_last(ts),
    ensures
        minified(s) matches Ok(m) && prettified(m) == prettified(s),
{
    let ts = lexed(s, false)->Ok_0;
    lemma_lexed_shaped_from(s, 0);
    let m = text_of(ts);
    assert(m.subrange(0, m.len() as int) =~= m);
    lemma_relex(m, 0, ts);
    lemma_layout_is_lay(ts);
    lemma_layout_is_lay(fuse(ts));
    lemma_fuse_lay(ts, 0);
}

/// Position `k` of the text of `ts` lies strictly between the two quotes of
/// a string literal.
pub open spec fn inside_string(ts: Seq<TokenView>, k: int) -> bool {
    exists|i: int|
        0 <= i < ts.len() && (#[trigger] ts[i]).0 == TokenKind::StringLiteral && text_of(ts.take(i)).len()
            < k < text_of(ts.take(i)).len() + ts[i].1.len() - 1
}

proof fn lemma_ws_inside_strings(ts: Seq<TokenView>, k: int)
    requires
        forall|i: int| 0 <= i < ts.len() ==> bare(#[trigger] ts[i]),
        forall|i: int| 0 <= i < ts.len() ==> shaped(#[trigger] ts[i]),
        0 <= k < text_of(ts).len(),
        is_ws(text_of(ts)[k]),
    ensures
        inside_string(ts, k),
    decreases ts.len(),
{
    let t = ts[0];
    let rest = ts.drop_first();
    assert(ts =~= seq![t] + rest);
    lemma_text_of_cons(t, rest);
    assert(bare(t) && shaped(t));
    if k < t.1.len() {
        assert(text_of(ts)[k] == t.1[k]);
        assert(t.0 == TokenKind::StringLiteral);
        assert(t.1[0] == '"' && t.1[t.1.len() - 1] == '"') by {
            reveal(shaped);
        }
        assert(ts.take(0) =~= Seq::<TokenView>::empty());
        assert(text_of(Seq::<TokenView>::empty()).len() == 0);
        assert(ts[0] == t);
    } else {
        let k1 = k - t.1.len();
        assert(text_of(ts)[k] == text_of(rest)[k1]);
        assert forall|i: int| 0 <= i < rest.len() implies bare(#[trigger] rest[i]) && shaped(rest[i]) by {
            assert(rest[i] == ts[i + 1]);
        }
        lemma_ws_inside_strings(rest, k1);
        let i = choose|i: int|
            0 <= i < rest.len() && (#[trigger] rest[i]).0 == TokenKind::StringLiteral && text_of(
                rest.take(i),
            ).len() < k1 < text_of(rest.take(i)).len() + rest[i].1.len() - 1;
        assert(ts.take(i + 1) =~= seq![t] + rest.take(i));
        lemma_text_of_cons(t, rest.take(i));
        assert(ts[i + 1] == rest[i]);
    }
}

/// Minifying purges whitespace, character by character: every whitespace
/// character of the minified text lies strictly between the two quotes of
/// one of its string literals.
pub proof fn lemma_minified_whitespace_only_in_strings(s: Seq<char>)
    requires
        lexed(s, false) is Ok,
    ensures
        lexed(s, false) matches Ok(ts) && minified(s) == Ok::<Seq<char>, crate::lexer::LexFault>(text_of(ts))
            && forall|k: int|
            0 <= k < text_of(ts).len() && is_ws(#[trigger] text_of(ts)[k]) ==> inside_string(ts, k),
{
    let ts = lexed(s, false)->Ok_0;
    lemma_minify_bare_from(s, 0);
    lemma_lexed_shaped_from(s, 0);
    assert forall|k: int| 0 <= k < text_of(ts).len() && is_ws(#[trigger] text_of(ts)[k]) implies inside_string(
        ts,
        k,
    ) by {
        lemma_ws_inside_strings(ts, k);
    }
}

} // verus!
