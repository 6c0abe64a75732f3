//! Properties that relate the scanner's and the tree builder's results
//! across inputs.
use vstd::prelude::*;

use crate::parser::{build, closer, opener, parse_block, Bracket, BuildError, Node};
use crate::text::{ascii_digit, letter, white_space};
use crate::tokeniser::{
    cons, in_run, lemma_run_len_bound, run_len, scan, scan_from, word_token, Run, ScanError,
    TokenView,
};

verus! {

proof fn lemma_blank_from(s: Seq<char>, i: int)
    requires
        0 <= i <= s.len(),
        forall|k: int| 0 <= k < s.len() ==> white_space(#[trigger] s[k]),
    ensures
        scan_from(s, i) == Ok::<Seq<TokenView>, ScanError>(seq![]),
    decreases s.len() - i,
{
    if i < s.len() {
        lemma_blank_from(s, i + 1);
    }
}

/// Text made of whitespace alone scans to no tokens.
pub proof fn whitespace_scans_to_nothing(s: Seq<char>)
    requires
        forall|k: int| 0 <= k < s.len() ==> white_space(#[trigger] s[k]),
    ensures
        scan(s) == Ok::<Seq<TokenView>, ScanError>(seq![]),
{
    lemma_blank_from(s, 0);
}

/// The token that opens a group of family `k`.
pub open spec fn open_token(k: Bracket) -> TokenView {
    match k {
        Bracket::Paren => TokenView::LeftParen,
        Bracket::Curly => TokenView::LeftCurlyBracket,
        Bracket::Square => TokenView::LeftSqreBracket,
        Bracket::Angle => TokenView::LeftAngleBracket,
    }
}

/// The token that closes a group of family `k`.
pub open spec fn close_token(k: Bracket) -> TokenView {
    match k {
        Bracket::Paren => TokenView::RightParen,
        Bracket::Curly => TokenView::RightCurlyBracket,
        Bracket::Square => TokenView::RightSqreBracket,
        Bracket::Angle => TokenView::RightAngleBracket,
    }
}

/// Tokens put in front of a sequence do not change how it parses from a
/// position past them.
proof fn lemma_block_shift(x: TokenView, w: Seq<TokenView>, j: int, close: Option<Bracket>)
    requires
        0 <= j,
    ensures
        parse_block(seq![x] + w, j + 1, close) == parse_block(w, j, close),
    decreases w.len() - j,
{
    let u = seq![x] + w;
    if j < w.len() {
        assert(u[j + 1] == w[j]);
        match closer(w[j]) {
            Some(_) => {},
            None => match opener(w[j]) {
                Some(k) => {
                    lemma_block_shift(x, w, j + 1, Some(k));
                    match parse_block(w, j + 1, Some(k)) {
                        Ok((_, n)) => {
                            if j + 1 + n <= w.len() {
                                lemma_block_shift(x, w, j + 1 + n, close);
                            }
                        },
                        Err(_) => {},
                    }
                },
                None => {
                    lemma_block_shift(x, w, j + 1, close);
                },
            },
        }
    }
}

/// A group that closes within `a` parses the same when more tokens follow.
proof fn lemma_block_extend(a: Seq<TokenView>, b: Seq<TokenView>, i: int, k0: Bracket)
    requires
        0 <= i,
        parse_block(a, i, Some(k0)) is Ok,
    ensures
        parse_block(a + b, i, Some(k0)) == parse_block(a, i, Some(k0)),
        i + parse_block(a, i, Some(k0))->Ok_0.1 <= a.len(),
    decreases a.len() - i,
{
    let u = a + b;
    assert(i < a.len());
    assert(u[i] == a[i]);
    match closer(a[i]) {
        Some(_) => {},
        None => match opener(a[i]) {
            Some(k) => {
                lemma_block_extend(a, b, i + 1, k);
                let n = parse_block(a, i + 1, Some(k))->Ok_0.1;
                lemma_block_extend(a, b, i + 1 + n, k0);
            },
            None => {
                lemma_block_extend(a, b, i + 1, k0);
            },
        },
    }
}

/// A sequence that parses at top level, followed by a closer of family `k`,
/// parses as the inside of a group of family `k`, the closer included.
proof fn lemma_block_closed(inner: Seq<TokenView>, i: int, k0: Bracket)
    requires
        0 <= i <= inner.len(),
        parse_block(inner, i, None) is Ok,
    ensures
        i + parse_block(inner, i, None)->Ok_0.1 == inner.len(),
        parse_block(inner + seq![close_token(k0)], i, Some(k0)) == Ok::<
            (Seq<Node>, nat),
            BuildError,
        >((parse_block(inner, i, None)->Ok_0.0, parse_block(inner, i, None)->Ok_0.1 + 1)),
    decreases inner.len() - i,
{
    let w = inner + seq![close_token(k0)];
    if i == inner.len() {
        assert(w[i] == close_token(k0));
    } else {
        assert(w[i] == inner[i]);
        match closer(inner[i]) {
            Some(_) => {},
            None => match opener(inner[i]) {
                Some(k) => {
                    lemma_block_extend(inner, seq![close_token(k0)], i + 1, k);
                    let n = parse_block(inner, i + 1, Some(k))->Ok_0.1;
                    lemma_block_closed(inner, i + 1 + n, k0);
                },
                None => {
                    lemma_block_closed(inner, i + 1, k0);
                },
            },
        }
    }
}

/// Grouping is transparent: a token sequence that builds into a tree, put
/// between an opening bracket and the closer of the same family, builds into
/// a `Body` whose one child is exactly that tree.
pub proof fn group_is_transparent(inner: Seq<TokenView>, k: Bracket)
    requires
        build(inner) is Ok,
    ensures
        build(seq![open_token(k)] + inner + seq![close_token(k)]) == Ok::<Node, BuildError>(
            Node::Body { expressions: seq![build(inner)->Ok_0] },
        ),
{
    let w = inner + seq![close_token(k)];
    let u = seq![open_token(k)] + w;
    assert(seq![open_token(k)] + inner + seq![close_token(k)] =~= u);
    lemma_block_closed(inner, 0, k);
    lemma_block_shift(open_token(k), w, 0, Some(k));
    let n: int = parse_block(inner, 0, None)->Ok_0.1 as int;
    assert(u[0] == open_token(k));
    assert(parse_block(u, n + 2, None) == Ok::<(Seq<Node>, nat), BuildError>((seq![], 0)));
    let ns = parse_block(inner, 0, None)->Ok_0.0;
    assert(seq![Node::Body { expressions: ns }] + seq![] =~= seq![Node::Body { expressions: ns }]);
}

/// The text that spells token `t`: a string's content between two quotes of
/// a kind that it does not hold.
pub open spec fn token_text(t: TokenView) -> Seq<char> {
    match t {
        TokenView::Let => seq!['l', 'e', 't'],
        TokenView::While => seq!['w', 'h', 'i', 'l', 'e'],
        TokenView::For => seq!['f', 'o', 'r'],
        TokenView::Fn => seq!['f', 'n'],
        TokenView::If => seq!['i', 'f'],
        TokenView::Else => seq!['e', 'l', 's', 'e'],
        TokenView::Match => seq!['m', 'a', 't', 'c', 'h'],
        TokenView::Return => seq!['r', 'e', 't', 'u', 'r', 'n'],
        TokenView::Identifier(w) => w,
        TokenView::Plus => seq!['+'],
        TokenView::Hyphen => seq!['-'],
        TokenView::Asterisk => seq!['*'],
        TokenView::ForSlash => seq!['/'],
        TokenView::Equals => seq!['='],
        TokenView::Comma => seq![','],
        TokenView::EqualArrow => seq!['=', '>'],
        TokenView::HyphenArrow => seq!['-', '>'],
        TokenView::LogNot => seq!['!'],
        TokenView::LogAnd => seq!['&', '&'],
        TokenView::LogOr => seq!['|', '|'],
        TokenView::Semicolon => seq![';'],
        TokenView::Colon => seq![':'],
        TokenView::Period => seq!['.'],
        TokenView::BackSlash => seq!['\\'],
        TokenView::LeftParen => seq!['('],
        TokenView::RightParen => seq![')'],
        TokenView::LeftCurlyBracket => seq!['{'],
        TokenView::RightCurlyBracket => seq!['}'],
        TokenView::LeftAngleBracket => seq!['<'],
        TokenView::RightAngleBracket => seq!['>'],
        TokenView::LeftSqreBracket => seq!['['],
        TokenView::RightSqreBracket => seq![']'],
        TokenView::I8 => seq!['i', '8'],
        TokenView::I16 => seq!['i', '1', '6'],
        TokenView::I32 => seq!['i', '3', '2'],
        TokenView::I64 => seq!['i', '6', '4'],
        TokenView::U8 => seq!['u', '8'],
        TokenView::U16 => seq!['u', '1', '6'],
        TokenView::U32 => seq!['u', '3', '2'],
        TokenView::U64 => seq!['u', '6', '4'],
        TokenView::Usize => seq!['u', 's', 'i', 'z', 'e'],
        TokenView::Isize => seq!['i', 's', 'i', 'z', 'e'],
        TokenView::Str => seq!['s', 't', 'r', 'i', 'n', 'g'],
        TokenView::F32 => seq!['f', '3', '2'],
        TokenView::F64 => seq!['f', '6', '4'],
        TokenView::Bool => seq!['b', 'o', 'o', 'l'],
        TokenView::String(w) => if !w.contains('"') {
            seq!['"'] + w + seq!['"']
        } else {
            seq!['\''] + w + seq!['\'']
        },
        TokenView::Number(w) => w,
        TokenView::Boolean(b) => if b {
            seq!['t', 'r', 'u', 'e']
        } else {
            seq!['f', 'a', 'l', 's', 'e']
        },
    }
}

/// The text of a token sequence: each token's text followed by one space.
pub open spec fn render(ts: Seq<TokenView>) -> Seq<char>
    decreases ts.len(),
{
    if ts.len() == 0 {
        seq![]
    } else {
        token_text(ts[0]) + seq![' '] + render(ts.drop_first())
    }
}

/// `w` is shaped as the scanner reads a word: a letter that is no whitespace,
/// then letters, digits and `_`.
pub open spec fn word_shaped(w: Seq<char>) -> bool {
    &&& w.len() >= 1
    &&& letter(w[0])
    &&& !white_space(w[0])
    &&& forall|k: int| 1 <= k < w.len() ==> in_run(#[trigger] w[k], Run::Word)
}

/// `w` is shaped as the scanner reads a number: a digit, then digits and `.`.
pub open spec fn number_shaped(w: Seq<char>) -> bool {
    &&& w.len() >= 1
    &&& ascii_digit(w[0])
    &&& forall|k: int| 1 <= k < w.len() ==> in_run(#[trigger] w[k], Run::Digits)
}

/// `t` is a token that the scanner can produce.
pub open spec fn scannable(t: TokenView) -> bool {
    match t {
        TokenView::Identifier(w) => word_shaped(w) && word_token(w) == t,
        TokenView::Number(w) => number_shaped(w),
        TokenView::String(w) => !w.contains('"') || !w.contains('\''),
        _ => true,
    }
}

proof fn lemma_scan_scannable(s: Seq<char>, i: int)
    requires
        0 <= i,
        scan_from(s, i) is Ok,
    ensures
        forall|k: int|
            0 <= k < scan_from(s, i)->Ok_0.len() ==> scannable(#[trigger] scan_from(s, i)->Ok_0[k]),
    decreases s.len() - i,
{
    if i < s.len() {
        let c = s[i];
        if white_space(c) {
            lemma_scan_scannable(s, i + 1);
        } else {
            let j: int;
            let t: TokenView;
            if c == '"' || c == '\'' {
                let n = run_len(s, i + 1, Run::Until(c));
                lemma_run_len_bound(s, i + 1, Run::Until(c));
                j = i + 2 + n;
                t = TokenView::String(s.subrange(i + 1, i + 1 + n));
                let w = s.subrange(i + 1, i + 1 + n);
                assert(!w.contains(c)) by {
                    assert forall|k: int| 0 <= k < w.len() implies w[k] != c by {
                        assert(w[k] == s[i + 1 + k]);
                    }
                }
            } else if ascii_digit(c) {
                let n = run_len(s, i + 1, Run::Digits);
                lemma_run_len_bound(s, i + 1, Run::Digits);
                j = i + 1 + n;
                t = TokenView::Number(s.subrange(i, i + 1 + n));
                let w = s.subrange(i, i + 1 + n);
                assert forall|k: int| 1 <= k < w.len() implies in_run(#[trigger] w[k], Run::Digits) by {
                    assert(w[k] == s[i + k]);
                }
            } else if letter(c) {
                let n = run_len(s, i + 1, Run::Word);
                lemma_run_len_bound(s, i + 1, Run::Word);
                j = i + 1 + n;
                let w = s.subrange(i, i + 1 + n);
                t = word_token(w);
                assert forall|k: int| 1 <= k < w.len() implies in_run(#[trigger] w[k], Run::Word) by {
                    assert(w[k] == s[i + k]);
                }
            } else if c == '-' || c == '=' {
                j = if i + 1 < s.len() && s[i + 1] == '>' { i + 2 } else { i + 1 };
                t = scan_from(s, i)->Ok_0[0];
            } else if c == '|' || c == '&' {
                j = i + 2;
                t = scan_from(s, i)->Ok_0[0];
            } else {
                j = i + 1;
                t = scan_from(s, i)->Ok_0[0];
            }
            assert(scan_from(s, i) == cons(t, scan_from(s, j)));
            lemma_scan_scannable(s, j);
            assert(scannable(t));
            let rest = scan_from(s, j)->Ok_0;
            assert forall|k: int| 0 <= k < scan_from(s, i)->Ok_0.len() implies scannable(
                #[trigger] scan_from(s, i)->Ok_0[k],
            ) by {
                if k > 0 {
                    assert(scan_from(s, i)->Ok_0[k] == rest[k - 1]);
                }
            }
        }
    }
}

proof fn lemma_run_shift(p: Seq<char>, w: Seq<char>, j: int, r: Run)
    requires
        0 <= j,
    ensures
        run_len(p + w, p.len() + j, r) == run_len(w, j, r),
    decreases w.len() - j,
{
    if j < w.len() {
        assert((p + w)[p.len() + j] == w[j]);
        lemma_run_shift(p, w, j + 1, r);
    }
}

/// Text put in front does not change how the scan goes on from a position
/// past it.
proof fn lemma_scan_shift(p: Seq<char>, w: Seq<char>, j: int)
    requires
        0 <= j,
    ensures
        scan_from(p + w, p.len() + j) == scan_from(w, j),
    decreases w.len() - j,
{
    let u = p + w;
    let i = p.len() + j;
    if j < w.len() {
        let c = w[j];
        assert(u[i] == c);
        if j + 1 < w.len() {
            assert(u[i + 1] == w[j + 1]);
        }
        if white_space(c) {
            lemma_scan_shift(p, w, j + 1);
        } else if c == '"' || c == '\'' {
            lemma_run_shift(p, w, j + 1, Run::Until(c));
            lemma_run_len_bound(w, j + 1, Run::Until(c));
            let n = run_len(w, j + 1, Run::Until(c));
            assert(u.subrange(i + 1, i + 1 + n) =~= w.subrange(j + 1, j + 1 + n));
            if j + 2 + n <= w.len() {
                lemma_scan_shift(p, w, j + 2 + n);
            }
        } else if ascii_digit(c) {
            lemma_run_shift(p, w, j + 1, Run::Digits);
            lemma_run_len_bound(w, j + 1, Run::Digits);
            let n = run_len(w, j + 1, Run::Digits);
            assert(u.subrange(i, i + 1 + n) =~= w.subrange(j, j + 1 + n));
            lemma_scan_shift(p, w, j + 1 + n);
        } else if letter(c) {
            lemma_run_shift(p, w, j + 1, Run::Word);
            lemma_run_len_bound(w, j + 1, Run::Word);
            let n = run_len(w, j + 1, Run::Word);
            assert(u.subrange(i, i + 1 + n) =~= w.subrange(j, j + 1 + n));
            lemma_scan_shift(p, w, j + 1 + n);
        } else {
            lemma_scan_shift(p, w, j + 1);
            if j + 2 <= w.len() {
                lemma_scan_shift(p, w, j + 2);
            }
        }
    }
}

/// A run that stops at position `m` is `m - j` long.
proof fn lemma_run_exact(s: Seq<char>, j: int, m: int, r: Run)
    requires
        0 <= j <= m < s.len(),
        forall|k: int| j <= k < m ==> in_run(#[trigger] s[k], r),
        !in_run(s[m], r),
    ensures
        run_len(s, j, r) == m - j,
    decreases m - j,
{
    if j < m {
        lemma_run_exact(s, j + 1, m, r);
    }
}

/// `t` is read as a word: a keyword, a type name, a boolean or an identifier.
pub open spec fn is_word(t: TokenView) -> bool {
    match t {
        TokenView::Let | TokenView::While | TokenView::For | TokenView::Fn | TokenView::If
        | TokenView::Else | TokenView::Match | TokenView::Return | TokenView::I8
        | TokenView::I16 | TokenView::I32 | TokenView::I64 | TokenView::U8 | TokenView::U16
        | TokenView::U32 | TokenView::U64 | TokenView::Usize | TokenView::Isize
        | TokenView::Str | TokenView::F32 | TokenView::F64 | TokenView::Bool
        | TokenView::Boolean(_) | TokenView::Identifier(_) => true,
        _ => false,
    }
}

proof fn lemma_word_text(t: TokenView)
    requires
        is_word(t),
        scannable(t),
    ensures
        word_shaped(token_text(t)),
        word_token(token_text(t)) == t,
{
    let x = token_text(t);
    match t {
        TokenView::Identifier(_) => {},
        _ => {
            assert(word_shaped(x));
            assert(word_token(x) == t);
        },
    }
}

/// Scanning a token's text followed by a space and more text yields that
/// token, then the tokens of the rest.
proof fn lemma_token_step(t: TokenView, r: Seq<char>)
    requires
        scannable(t),
    ensures
        scan_from(token_text(t) + seq![' '] + r, 0) == cons(t, scan_from(r, 0)),
{
    let x = token_text(t);
    let m = x.len() as int;
    let u = x + seq![' '] + r;
    assert forall|k: int| 0 <= k < m implies #[trigger] u[k] == x[k] by {}
    assert(u[m] == ' ');
    lemma_scan_shift(x + seq![' '], r, 0);
    assert(scan_from(u, m) == scan_from(r, 0));
    if is_word(t) {
        lemma_word_text(t);
        assert forall|k: int| 1 <= k < m implies in_run(#[trigger] u[k], Run::Word) by {
            assert(u[k] == x[k]);
        }
        lemma_run_exact(u, 1, m, Run::Word);
        assert(u.subrange(0, m) =~= x);
        assert(scan_from(u, 0) == cons(t, scan_from(u, m)));
    } else {
        match t {
            TokenView::Number(w) => {
                assert forall|k: int| 1 <= k < m implies in_run(#[trigger] u[k], Run::Digits) by {
                    assert(u[k] == x[k]);
                }
                lemma_run_exact(u, 1, m, Run::Digits);
                assert(u.subrange(0, m) =~= x);
                assert(scan_from(u, 0) == cons(t, scan_from(u, m)));
            },
            TokenView::String(w) => {
                let q = if !w.contains('"') { '"' } else { '\'' };
                let e: int = w.len() as int + 1;
                assert(!w.contains(q));
                assert(x == seq![q] + w + seq![q]);
                assert(u[0] == q);
                assert(u[e] == q);
                assert forall|k: int| 1 <= k < e implies in_run(
                    #[trigger] u[k],
                    Run::Until(q),
                ) by {
                    assert(u[k] == w[k - 1]);
                }
                lemma_run_exact(u, 1, e, Run::Until(q));
                assert(u.subrange(1, e) =~= w);
                assert(scan_from(u, 0) == cons(t, scan_from(u, m)));
            },
            _ => {
                assert(scan_from(u, 0) == cons(t, scan_from(u, m)));
            },
        }
    }
}

proof fn lemma_rescan(ts: Seq<TokenView>)
    requires
        forall|k: int| 0 <= k < ts.len() ==> scannable(#[trigger] ts[k]),
    ensures
        scan(render(ts)) == Ok::<Seq<TokenView>, ScanError>(ts),
    decreases ts.len(),
{
    if ts.len() > 0 {
        let rest = ts.drop_first();
        assert forall|k: int| 0 <= k < rest.len() implies scannable(#[trigger] rest[k]) by {
            assert(rest[k] == ts[k + 1]);
        }
        lemma_rescan(rest);
        assert(scannable(ts[0]));
        lemma_token_step(ts[0], render(rest));
        assert(seq![ts[0]] + rest =~= ts);
    } else {
        assert(ts =~= seq![]);
    }
}

/// Scanning is idempotent on its own output: the text of the tokens of a
/// successful scan, each followed by a space, scans to the same tokens.
pub proof fn rescan_of_token_text_is_identity(s: Seq<char>)
    requires
        scan(s) is Ok,
    ensures
        scan(render(scan(s)->Ok_0)) == scan(s),
{
    lemma_scan_scannable(s, 0);
    lemma_rescan(scan(s)->Ok_0);
}

} // verus!
