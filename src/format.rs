use vstd::prelude::*;
use crate::lexer::{LexError, LexFault, lexed, tokenize};
use crate::token::{Token, TokenKind, TokenView, views, char_to_string};

verus! {

/// The text of a token stream: each token's literal text, in order.
pub open spec fn text_of(ts: Seq<TokenView>) -> Seq<char>
    decreases ts.len(),
{
    if ts.len() == 0 {
        Seq::empty()
    } else {
        ts[0].1 + text_of(ts.drop_first())
    }
}

pub proof fn lemma_text_of_concat(a: Seq<TokenView>, b: Seq<TokenView>)
    ensures
        text_of(a + b) == text_of(a) + text_of(b),
    decreases a.len(),
{
    if a.len() == 0 {
        assert(a + b =~= b);
        assert(text_of(a) + text_of(b) =~= text_of(b));
    } else {
        lemma_text_of_concat(a.drop_first(), b);
        assert((a + b).drop_first() =~= a.drop_first() + b);
        assert(text_of(a) + text_of(b) =~= a[0].1 + (text_of(a.drop_first()) + text_of(b)));
    }
}

pub proof fn lemma_text_of_push(a: Seq<TokenView>, t: TokenView)
    ensures
        text_of(a.push(t)) == text_of(a) + t.1,
{
    lemma_text_of_concat(a, seq![t]);
    assert(a.push(t) =~= a + seq![t]);
    let e = Seq::<TokenView>::empty();
    assert(seq![t].drop_first() =~= e);
    assert(text_of(e) == Seq::<char>::empty());
    assert(text_of(seq![t]) == t.1 + text_of(seq![t].drop_first()));
    assert(t.1 + Seq::<char>::empty() =~= t.1);
}

/// Appends the literal text of `t` to `out`.
fn push_text(out: &mut String, t: &Token)
    ensures
        final(out)@ == old(out)@ + t@.1,
{
    match t {
        Token::WhiteSpace(c) => out.append(char_to_string(*c).as_str()),
        Token::OpenBrace(c) => out.append(char_to_string(*c).as_str()),
        Token::CloseBrace(c) => out.append(char_to_string(*c).as_str()),
        Token::OpenParen(c) => out.append(char_to_string(*c).as_str()),
        Token::CloseParen(c) => out.append(char_to_string(*c).as_str()),
        Token::OpenBrack(c) => out.append(char_to_string(*c).as_str()),
        Token::CloseBrack(c) => out.append(char_to_string(*c).as_str()),
        Token::Colon(c) => out.append(char_to_string(*c).as_str()),
        Token::Comma(c) => out.append(char_to_string(*c).as_str()),
        Token::StringLiteral(v) => out.append(v.as_str()),
        Token::NumericLiteral(v) => out.append(v.as_str()),
        Token::BoolLiteral(v) => out.append(v.as_str()),
        Token::Eof => {
            assert(out@ + Seq::<char>::empty() =~= out@);
        },
    }
}

/// Concatenates the literal text of every token, in order.
pub fn render(tokens: &Vec<Token>) -> (r: String)
    ensures
        r@ == text_of(views(tokens@)),
{
    let mut out = String::new();
    let mut i: usize = 0;
    while i < tokens.len()
        invariant
            i <= tokens@.len(),
            out@ == text_of(views(tokens@.take(i as int))),
        decreases tokens@.len() - i,
    {
        proof {
            lemma_text_of_push(views(tokens@.take(i as int)), tokens@[i as int]@);
            assert(views(tokens@.take(i + 1)) =~= views(tokens@.take(i as int)).push(tokens@[i as int]@));
        }
        push_text(&mut out, &tokens[i]);
        i = i + 1;
    }
    assert(tokens@.take(i as int) =~= tokens@);
    out
}

/// The minified form of `s`: its tokens with whitespace skipped, rendered.
pub open spec fn minified(s: Seq<char>) -> Result<Seq<char>, LexFault> {
    match lexed(s, false) {
        Ok(ts) => Ok(text_of(ts)),
        Err(e) => Err(e),
    }
}

/// `in_json` with all whitespace between tokens removed.
pub fn minify_json(in_json: String) -> (r: Result<String, LexError>)
    requires
        in_json@.len() + 1 < usize::MAX,
    ensures
        match minified(in_json@) {
            Ok(m) => r matches Ok(out) && out@ == m,
            Err(f) => r matches Err(e) && e@ == f,
        },
{
    match tokenize(in_json, false) {
        Ok(tokens) => Ok(render(&tokens)),
        Err(e) => Err(e),
    }
}

/// An opening delimiter: `{`, `(` or `[`.
pub open spec fn is_open(k: TokenKind) -> bool {
    k == TokenKind::OpenBrace || k == TokenKind::OpenParen || k == TokenKind::OpenBrack
}

/// A closing delimiter: `}`, `)` or `]`.
pub open spec fn is_close(k: TokenKind) -> bool {
    k == TokenKind::CloseBrace || k == TokenKind::CloseParen || k == TokenKind::CloseBrack
}

/// Kinds after which a comma starts a new line.
pub open spec fn starts_value(k: TokenKind) -> bool {
    k == TokenKind::StringLiteral || k == TokenKind::NumericLiteral || k == TokenKind::BoolLiteral
        || k == TokenKind::OpenBrace
}

/// A newline whitespace token.
pub open spec fn newline() -> TokenView {
    (TokenKind::WhiteSpace, seq!['\n'])
}

/// `n` single-space whitespace tokens: one per nesting level.
pub open spec fn indent(n: nat) -> Seq<TokenView> {
    Seq::new(n, |i: int| (TokenKind::WhiteSpace, seq![' ']))
}

/// The kind of the token after position `i`; `Eof` past the end.
pub open spec fn next_kind(ts: Seq<TokenView>, i: int) -> TokenKind {
    if i + 1 < ts.len() {
        ts[i + 1].0
    } else {
        TokenKind::Eof
    }
}

/// The nesting depth after a token of kind `k` at depth `d`. A closer at
/// depth 0 leaves it at 0.
pub open spec fn depth_after(k: TokenKind, d: nat) -> nat {
    if is_open(k) {
        d + 1
    } else if is_close(k) && d > 0 {
        (d - 1) as nat
    } else {
        d
    }
}

/// The nesting depth that planning has reached before token `i`.
pub open spec fn depth_at(ts: Seq<TokenView>, i: int) -> nat
    decreases i,
{
    if i <= 0 {
        0
    } else {
        depth_after(ts[i - 1].0, depth_at(ts, i - 1))
    }
}

/// The whitespace planned just before token `t` at depth `d`, when a token
/// of kind `next` follows it: before a closer, a newline, then the new
/// depth's spaces unless `Eof` follows.
pub open spec fn before(t: TokenView, next: TokenKind, d: nat) -> Seq<TokenView> {
    if is_close(t.0) {
        if next != TokenKind::Eof {
            seq![newline()] + indent(depth_after(t.0, d))
        } else {
            seq![newline()]
        }
    } else {
        Seq::empty()
    }
}

/// The whitespace planned just after token `t` at depth `d`, when a token
/// of kind `next` follows it: after an opener, a newline and `d + 1` spaces;
/// after a comma that a value or `{` follows, a newline and `d` spaces.
pub open spec fn after(t: TokenView, next: TokenKind, d: nat) -> Seq<TokenView> {
    if is_open(t.0) {
        seq![newline()] + indent(d + 1)
    } else if t.0 == TokenKind::Comma && starts_value(next) {
        seq![newline()] + indent(d)
    } else {
        Seq::empty()
    }
}

/// Token `t` with the whitespace planned around it.
pub open spec fn piece(t: TokenView, next: TokenKind, d: nat) -> Seq<TokenView> {
    before(t, next, d) + seq![t] + after(t, next, d)
}

/// The first `n` tokens of `ts` with their planned whitespace.
pub open spec fn layout_prefix(ts: Seq<TokenView>, n: int) -> Seq<TokenView>
    decreases n,
{
    if n <= 0 {
        Seq::empty()
    } else {
        layout_prefix(ts, n - 1) + piece(ts[n - 1], next_kind(ts, n - 1), depth_at(ts, n - 1))
    }
}

/// `ts` with the whitespace insertions of prettifying applied.
pub open spec fn layout(ts: Seq<TokenView>) -> Seq<TokenView> {
    layout_prefix(ts, ts.len() as int)
}

/// The prettified form of `s`: its tokens with whitespace skipped, laid out,
/// rendered.
pub open spec fn prettified(s: Seq<char>) -> Result<Seq<char>, LexFault> {
    match lexed(s, false) {
        Ok(ts) => Ok(text_of(layout(ts))),
        Err(e) => Err(e),
    }
}

/// The kind of the first token of `ts`; `Eof` when there is none.
pub open spec fn first_kind(ts: Seq<TokenView>) -> TokenKind {
    if ts.len() > 0 {
        ts[0].0
    } else {
        TokenKind::Eof
    }
}

/// The layout of `ts` from depth `d`, token by token from the front.
pub open spec fn lay(ts: Seq<TokenView>, d: nat) -> Seq<TokenView>
    decreases ts.len(),
{
    if ts.len() == 0 {
        Seq::empty()
    } else {
        piece(ts[0], first_kind(ts.drop_first()), d) + lay(ts.drop_first(), depth_after(ts[0].0, d))
    }
}

pub proof fn lemma_lay_suffix(ts: Seq<TokenView>, i: int)
    requires
        0 <= i <= ts.len(),
    ensures
        layout_prefix(ts, i) + lay(ts.subrange(i, ts.len() as int), depth_at(ts, i)) == layout(ts),
    decreases ts.len() - i,
{
    let n = ts.len() as int;
    if i == n {
        assert(ts.subrange(i, n) =~= Seq::<TokenView>::empty());
        assert(layout_prefix(ts, i) + Seq::<TokenView>::empty() =~= layout_prefix(ts, i));
    } else {
        lemma_lay_suffix(ts, i + 1);
        let tail = ts.subrange(i, n);
        assert(tail[0] == ts[i]);
        assert(tail.drop_first() =~= ts.subrange(i + 1, n));
        assert(first_kind(tail.drop_first()) == next_kind(ts, i));
        let pc = piece(ts[i], next_kind(ts, i), depth_at(ts, i));
        assert(layout_prefix(ts, i + 1) == layout_prefix(ts, i) + pc);
        assert(layout_prefix(ts, i) + (pc + lay(ts.subrange(i + 1, n), depth_at(ts, i + 1))) =~= (
        layout_prefix(ts, i) + pc) + lay(ts.subrange(i + 1, n), depth_at(ts, i + 1)));
    }
}

/// The layout built token by token from the front is the layout.
pub proof fn lemma_layout_is_lay(ts: Seq<TokenView>)
    ensures
        layout(ts) == lay(ts, 0),
{
    lemma_lay_suffix(ts, 0);
    assert(ts.subrange(0, ts.len() as int) =~= ts);
    assert(layout_prefix(ts, 0) + lay(ts, 0) =~= lay(ts, 0));
}

/// A planned insertion seen with plain values: how many tokens of the
/// original stream come before it, and the token to insert.
pub type InsertionView = (int, TokenView);

/// The views of planned insertions.
pub open spec fn insertion_views(v: Seq<(usize, Token)>) -> Seq<InsertionView> {
    v.map_values(|e: (usize, Token)| (e.0 as int, e.1@))
}

/// Each of `ws` planned to go in before original token `i`.
pub open spec fn at_index(ws: Seq<TokenView>, i: int) -> Seq<InsertionView> {
    ws.map_values(|w: TokenView| (i, w))
}

/// The insertions planned for tokens `i` onwards, when token `i` is at
/// depth `d`: what goes before each token, then what goes after it, which
/// is placed before the next one.
pub open spec fn plan_from(ts: Seq<TokenView>, i: int, d: nat) -> Seq<InsertionView>
    decreases ts.len() - i,
{
    if i < 0 || i >= ts.len() {
        Seq::empty()
    } else {
        let nk = next_kind(ts, i);
        at_index(before(ts[i], nk, d), i) + at_index(after(ts[i], nk, d), i + 1) + plan_from(
            ts,
            i + 1,
            depth_after(ts[i].0, d),
        )
    }
}

/// The insertion plan of prettifying, in the order the insertions go in.
pub open spec fn plan(ts: Seq<TokenView>) -> Seq<InsertionView> {
    plan_from(ts, 0, 0)
}

/// The tokens of `ts` from `j` on merged with the insertions `q`: an
/// insertion goes in as soon as no more than its index of original tokens
/// precede it; what is left of `q` after the last token goes at the end.
pub open spec fn merge(ts: Seq<TokenView>, j: int, q: Seq<InsertionView>) -> Seq<TokenView>
    decreases q.len() + if j < ts.len() {
        ts.len() - j
    } else {
        0
    },
{
    if q.len() > 0 && (q[0].0 <= j || j >= ts.len()) {
        seq![q[0].1] + merge(ts, j, q.drop_first())
    } else if 0 <= j < ts.len() {
        seq![ts[j]] + merge(ts, j + 1, q)
    } else {
        Seq::empty()
    }
}

/// Insertions planned at index `i` go in before anything else once `i`
/// original tokens are out.
pub proof fn lemma_merge_at_index(ts: Seq<TokenView>, i: int, e: Seq<TokenView>, rest: Seq<InsertionView>)
    requires
        0 <= i,
    ensures
        merge(ts, i, at_index(e, i) + rest) == e + merge(ts, i, rest),
    decreases e.len(),
{
    if e.len() == 0 {
        assert(at_index(e, i) + rest =~= rest);
        assert(e + merge(ts, i, rest) =~= merge(ts, i, rest));
    } else {
        let q = at_index(e, i) + rest;
        assert(q[0] == (i, e[0]));
        assert(q.drop_first() =~= at_index(e.drop_first(), i) + rest);
        lemma_merge_at_index(ts, i, e.drop_first(), rest);
        assert(seq![e[0]] + (e.drop_first() + merge(ts, i, rest)) =~= e + merge(ts, i, rest));
    }
}

/// The plan from token `i` on places nothing before token `i`.
pub proof fn lemma_plan_from_starts(ts: Seq<TokenView>, i: int, d: nat)
    requires
        0 <= i,
    ensures
        plan_from(ts, i, d).len() > 0 ==> plan_from(ts, i, d)[0].0 >= i,
    decreases ts.len() - i,
{
    if 0 <= i < ts.len() {
        let nk = next_kind(ts, i);
        let b = at_index(before(ts[i], nk, d), i);
        let a = at_index(after(ts[i], nk, d), i + 1);
        let r = plan_from(ts, i + 1, depth_after(ts[i].0, d));
        lemma_plan_from_starts(ts, i + 1, depth_after(ts[i].0, d));
        if b.len() > 0 {
            assert((b + a + r)[0] == b[0]);
        } else if a.len() > 0 {
            assert((b + a + r)[0] == a[0]);
        } else if r.len() > 0 {
            assert((b + a + r)[0] == r[0]);
        }
    }
}

proof fn lemma_merge_plan_from(ts: Seq<TokenView>, i: int, e: Seq<TokenView>)
    requires
        0 <= i <= ts.len(),
    ensures
        merge(ts, i, at_index(e, i) + plan_from(ts, i, depth_at(ts, i))) == e + lay(
            ts.subrange(i, ts.len() as int),
            depth_at(ts, i),
        ),
    decreases ts.len() - i,
{
    let n = ts.len() as int;
    if i == n {
        lemma_merge_at_index(ts, i, e, Seq::empty());
        assert(at_index(e, i) + plan_from(ts, i, depth_at(ts, i)) =~= at_index(e, i) + Seq::<
            InsertionView,
        >::empty());
        assert(ts.subrange(i, n) =~= Seq::<TokenView>::empty());
        assert(e + Seq::<TokenView>::empty() =~= e);
    } else {
        let d = depth_at(ts, i);
        let t = ts[i];
        let nk = next_kind(ts, i);
        let b = before(t, nk, d);
        let a = after(t, nk, d);
        let d1 = depth_after(t.0, d);
        assert(d1 == depth_at(ts, i + 1));
        let r = plan_from(ts, i + 1, d1);
        let x = at_index(a, i + 1) + r;
        assert(plan_from(ts, i, d) == at_index(b, i) + at_index(a, i + 1) + r);
        assert(at_index(e, i) + plan_from(ts, i, d) =~= at_index(e, i) + (at_index(b, i) + x));
        lemma_merge_at_index(ts, i, e, at_index(b, i) + x);
        lemma_merge_at_index(ts, i, b, x);
        lemma_plan_from_starts(ts, i + 1, d1);
        if a.len() > 0 {
            assert(x[0] == (i + 1, a[0]));
        } else if x.len() > 0 {
            assert(x =~= r);
        }
        assert(merge(ts, i, x) == seq![t] + merge(ts, i + 1, x));
        lemma_merge_plan_from(ts, i + 1, a);
        let tail = ts.subrange(i, n);
        assert(tail[0] == t);
        assert(tail.drop_first() =~= ts.subrange(i + 1, n));
        assert(first_kind(tail.drop_first()) == nk);
        let rest_lay = lay(ts.subrange(i + 1, n), d1);
        assert(lay(tail, d) == piece(t, nk, d) + rest_lay);
        assert(e + (b + (seq![t] + (a + rest_lay))) =~= e + (piece(t, nk, d) + rest_lay));
    }
}

/// Applying the insertion plan gives the layout.
pub proof fn lemma_plan_applied(ts: Seq<TokenView>)
    ensures
        merge(ts, 0, plan(ts)) == layout(ts),
{
    lemma_merge_plan_from(ts, 0, Seq::empty());
    assert(at_index(Seq::<TokenView>::empty(), 0) + plan(ts) =~= plan(ts));
    assert(ts.subrange(0, ts.len() as int) =~= ts);
    assert(Seq::<TokenView>::empty() + lay(ts, 0) =~= lay(ts, 0));
    lemma_layout_is_lay(ts);
}

pub proof fn lemma_depth_at_bound(ts: Seq<TokenView>, i: int)
    requires
        0 <= i,
    ensures
        depth_at(ts, i) <= i,
    decreases i,
{
    if i > 0 {
        lemma_depth_at_bound(ts, i - 1);
    }
}

/// A token with the same kind and text as `t`.
fn copy_token(t: &Token) -> (r: Token)
    ensures
        r@ == t@,
{
    match t {
        Token::WhiteSpace(c) => Token::WhiteSpace(*c),
        Token::OpenBrace(c) => Token::OpenBrace(*c),
        Token::CloseBrace(c) => Token::CloseBrace(*c),
        Token::OpenParen(c) => Token::OpenParen(*c),
        Token::CloseParen(c) => Token::CloseParen(*c),
        Token::OpenBrack(c) => Token::OpenBrack(*c),
        Token::CloseBrack(c) => Token::CloseBrack(*c),
        Token::Colon(c) => Token::Colon(*c),
        Token::Comma(c) => Token::Comma(*c),
        Token::StringLiteral(v) => Token::StringLiteral(v.clone()),
        Token::NumericLiteral(v) => Token::NumericLiteral(v.clone()),
        Token::BoolLiteral(v) => Token::BoolLiteral(v.clone()),
        Token::Eof => Token::Eof,
    }
}

/// Appends the insertion of `t` before original token `at`.
fn push_insertion(out: &mut Vec<(usize, Token)>, at: usize, t: Token)
    ensures
        insertion_views(final(out)@) == insertion_views(old(out)@).push((at as int, t@)),
{
    let ghost g = t;
    out.push((at, t));
    proof {
        assert(insertion_views(out@) =~= insertion_views(old(out)@).push((at as int, g@)));
    }
}

/// Appends the insertion of `n` single spaces before original token `at`.
fn push_indent_at(out: &mut Vec<(usize, Token)>, at: usize, n: usize)
    ensures
        insertion_views(final(out)@) == insertion_views(old(out)@) + at_index(indent(n as nat), at as int),
{
    let mut k: usize = 0;
    while k < n
        invariant
            k <= n,
            insertion_views(out@) == insertion_views(old(out)@) + at_index(indent(k as nat), at as int),
        decreases n - k,
    {
        push_insertion(out, at, Token::WhiteSpace(' '));
        proof {
            assert(at_index(indent((k + 1) as nat), at as int) =~= at_index(indent(k as nat), at as int).push(
                (at as int, (TokenKind::WhiteSpace, seq![' '])),
            ));
        }
        k = k + 1;
    }
}

/// Plans the whitespace that prettifying inserts into a token stream lexed
/// with whitespace skipped, in one read-only pass that tracks the nesting
/// depth. Each entry holds the number of original tokens that precede the
/// insertion, and the entries are in the order they go in.
pub fn plan_insertions(tokens: &Vec<Token>) -> (r: Vec<(usize, Token)>)
    ensures
        insertion_views(r@) == plan(views(tokens@)),
{
    let ghost ts = views(tokens@);
    let n = tokens.len();
    let mut out: Vec<(usize, Token)> = Vec::new();
    let mut depth: usize = 0;
    let mut i: usize = 0;
    assert(insertion_views(out@) + plan_from(ts, 0, depth_at(ts, 0)) =~= plan(ts));
    while i < n
        invariant
            n == tokens@.len(),
            ts == views(tokens@),
            i <= n,
            depth == depth_at(ts, i as int),
            insertion_views(out@) + plan_from(ts, i as int, depth_at(ts, i as int)) == plan(ts),
        decreases n - i,
    {
        proof {
            lemma_depth_at_bound(ts, i as int);
        }
        let next_is_eof = i + 1 >= n || matches!(tokens[i + 1], Token::Eof);
        let next_starts_value = i + 1 < n && match &tokens[i + 1] {
            Token::StringLiteral(_) | Token::NumericLiteral(_) | Token::BoolLiteral(_) | Token::OpenBrace(_) => true,
            _ => false,
        };
        let ghost t = ts[i as int];
        let ghost nk = next_kind(ts, i as int);
        let ghost d = depth as nat;
        assert(next_is_eof == (nk == TokenKind::Eof));
        assert(next_starts_value == starts_value(nk));
        let ghost prev = insertion_views(out@);
        match &tokens[i] {
            Token::OpenBrace(_) | Token::OpenParen(_) | Token::OpenBrack(_) => {
                push_insertion(&mut out, i + 1, Token::WhiteSpace('\n'));
                push_indent_at(&mut out, i + 1, depth + 1);
                depth = depth + 1;
            },
            Token::CloseBrace(_) | Token::CloseParen(_) | Token::CloseBrack(_) => {
                push_insertion(&mut out, i, Token::WhiteSpace('\n'));
                if depth > 0 {
                    depth = depth - 1;
                }
                if !next_is_eof {
                    push_indent_at(&mut out, i, depth);
                }
            },
            Token::Comma(_) => {
                if next_starts_value {
                    push_insertion(&mut out, i + 1, Token::WhiteSpace('\n'));
                    push_indent_at(&mut out, i + 1, depth);
                }
            },
            _ => {},
        }
        proof {
            let bw = at_index(before(t, nk, d), i as int);
            let aw = at_index(after(t, nk, d), i + 1);
            assert(insertion_views(out@) =~= prev + bw + aw);
            let r = plan_from(ts, i + 1, depth_at(ts, i + 1));
            assert(plan_from(ts, i as int, d) == bw + aw + r);
            assert(prev + (bw + aw + r) =~= (prev + bw + aw) + r);
        }
        i = i + 1;
    }
    assert(plan_from(ts, n as int, depth_at(ts, n as int)) =~= Seq::<InsertionView>::empty());
    assert(insertion_views(out@) + Seq::<InsertionView>::empty() =~= insertion_views(out@));
    out
}

/// Appends `t`.
fn push_token(out: &mut Vec<Token>, t: Token)
    ensures
        views(final(out)@) == views(old(out)@).push(t@),
{
    let ghost before_push = out@;
    let ghost g = t;
    out.push(t);
    proof {
        crate::lexer::lemma_views_push(before_push, g);
    }
}

/// Merges the planned insertions into the token stream: an insertion goes
/// in once as many original tokens as its index are out, and insertions
/// keep their order.
pub fn apply_insertions(tokens: &Vec<Token>, plan: &Vec<(usize, Token)>) -> (r: Vec<Token>)
    ensures
        views(r@) == merge(views(tokens@), 0, insertion_views(plan@)),
{
    let ghost ts = views(tokens@);
    let ghost q = insertion_views(plan@);
    let n = tokens.len();
    let m = plan.len();
    let mut out: Vec<Token> = Vec::new();
    let mut j: usize = 0;
    let mut k: usize = 0;
    assert(q.subrange(0, m as int) =~= q);
    assert(views(out@) + merge(ts, 0, q) =~= merge(ts, 0, q));
    loop
        invariant
            n == tokens@.len(),
            m == plan@.len(),
            ts == views(tokens@),
            q == insertion_views(plan@),
            j <= n,
            k <= m,
            views(out@) + merge(ts, j as int, q.subrange(k as int, m as int)) == merge(ts, 0, q),
        ensures
            views(out@) == merge(ts, 0, q),
        decreases (n - j) + (m - k),
    {
        let ghost rest = q.subrange(k as int, m as int);
        let ghost prev = views(out@);
        if k < m && (plan[k].0 <= j || j >= n) {
            assert(rest[0] == q[k as int]);
            assert(rest.drop_first() =~= q.subrange(k + 1, m as int));
            push_token(&mut out, copy_token(&plan[k].1));
            assert(prev + (seq![q[k as int].1] + merge(ts, j as int, rest.drop_first())) =~= views(out@)
                + merge(ts, j as int, rest.drop_first()));
            k = k + 1;
        } else if j < n {
            push_token(&mut out, copy_token(&tokens[j]));
            assert(prev + (seq![ts[j as int]] + merge(ts, j + 1, rest)) =~= views(out@) + merge(
                ts,
                j + 1,
                rest,
            ));
            j = j + 1;
        } else {
            assert(rest.len() == 0);
            assert(merge(ts, j as int, rest) == Seq::<TokenView>::empty());
            assert(views(out@) + Seq::<TokenView>::empty() =~= views(out@));
            break;
        }
    }
    out
}

/// Applies the whitespace insertions of prettifying to a token stream
/// lexed with whitespace skipped: plans them, then merges them in.
pub fn indent_tokens(tokens: &Vec<Token>) -> (r: Vec<Token>)
    ensures
        views(r@) == layout(views(tokens@)),
{
    let plan = plan_insertions(tokens);
    proof {
        lemma_plan_applied(views(tokens@));
    }
    apply_insertions(tokens, &plan)
}

/// `in_json` laid out with one token per line where the layout asks for it,
/// each line indented by one space per nesting level.
pub fn prettify_json(in_json: String) -> (r: Result<String, LexError>)
    requires
        in_json@.len() + 1 < usize::MAX,
    ensures
        match prettified(in_json@) {
            Ok(p) => r matches Ok(out) && out@ == p,
            Err(f) => r matches Err(e) && e@ == f,
        },
{
    match tokenize(in_json, false) {
        Ok(tokens) => {
            let laid = indent_tokens(&tokens);
            Ok(render(&laid))
        },
        Err(e) => Err(e),
    }
}

} // verus!
