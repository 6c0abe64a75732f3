//! The scanner: one left-to-right pass that turns source text into tokens.
use vstd::prelude::*;

use crate::text::{
    ascii_digit, letter, letter_or_digit, char_vec, is_alphabetic, is_alphanumeric,
    is_ascii_digit, is_whitespace, string_of, white_space,
};

verus! {

/// One lexical unit.
#[derive(Debug, PartialEq)]
pub enum Token {
    // Keywords
    Let, While, For,
    Fn, If, Else, Match,
    Return,

    // Identifier
    Identifier(String),

    // Arithmetic Operators
    Plus, Hyphen,
    Asterisk, ForSlash,

    // Syntax Operators
    Equals, Comma,
    EqualArrow, HyphenArrow,
    LogNot, LogAnd, LogOr,
    Semicolon, Colon, Period, BackSlash,
    LeftParen, RightParen,
    LeftCurlyBracket, RightCurlyBracket,
    LeftAngleBracket, RightAngleBracket,
    LeftSqreBracket, RightSqreBracket,

    // Types
    I8, I16, I32, I64,
    U8, U16, U32, U64,
    Usize, Isize, Str,
    F32, F64, Bool,

    // Values
    String(String),
    Number(String),
    Boolean(bool),
}

/// The mathematical value of a [`Token`]: the same tag, with text as a
/// sequence of characters.
pub enum TokenView {
    Let, While, For,
    Fn, If, Else, Match,
    Return,
    Identifier(Seq<char>),
    Plus, Hyphen,
    Asterisk, ForSlash,
    Equals, Comma,
    EqualArrow, HyphenArrow,
    LogNot, LogAnd, LogOr,
    Semicolon, Colon, Period, BackSlash,
    LeftParen, RightParen,
    LeftCurlyBracket, RightCurlyBracket,
    LeftAngleBracket, RightAngleBracket,
    LeftSqreBracket, RightSqreBracket,
    I8, I16, I32, I64,
    U8, U16, U32, U64,
    Usize, Isize, Str,
    F32, F64, Bool,
    String(Seq<char>),
    Number(Seq<char>),
    Boolean(bool),
}

impl View for Token {
    type V = TokenView;

    open spec fn view(&self) -> TokenView {
        match self {
            Token::Let => TokenView::Let,
            Token::While => TokenView::While,
            Token::For => TokenView::For,
            Token::Fn => TokenView::Fn,
            Token::If => TokenView::If,
            Token::Else => TokenView::Else,
            Token::Match => TokenView::Match,
            Token::Return => TokenView::Return,
            Token::Identifier(s) => TokenView::Identifier(s@),
            Token::Plus => TokenView::Plus,
            Token::Hyphen => TokenView::Hyphen,
            Token::Asterisk => TokenView::Asterisk,
            Token::ForSlash => TokenView::ForSlash,
            Token::Equals => TokenView::Equals,
            Token::Comma => TokenView::Comma,
            Token::EqualArrow => TokenView::EqualArrow,
            Token::HyphenArrow => TokenView::HyphenArrow,
            Token::LogNot => TokenView::LogNot,
            Token::LogAnd => TokenView::LogAnd,
            Token::LogOr => TokenView::LogOr,
            Token::Semicolon => TokenView::Semicolon,
            Token::Colon => TokenView::Colon,
            Token::Period => TokenView::Period,
            Token::BackSlash => TokenView::BackSlash,
            Token::LeftParen => TokenView::LeftParen,
            Token::RightParen => TokenView::RightParen,
            Token::LeftCurlyBracket => TokenView::LeftCurlyBracket,
            Token::RightCurlyBracket => TokenView::RightCurlyBracket,
            Token::LeftAngleBracket => TokenView::LeftAngleBracket,
            Token::RightAngleBracket => TokenView::RightAngleBracket,
            Token::LeftSqreBracket => TokenView::LeftSqreBracket,
            Token::RightSqreBracket => TokenView::RightSqreBracket,
            Token::I8 => TokenView::I8,
            Token::I16 => TokenView::I16,
            Token::I32 => TokenView::I32,
            Token::I64 => TokenView::I64,
            Token::U8 => TokenView::U8,
            Token::U16 => TokenView::U16,
            Token::U32 => TokenView::U32,
            Token::U64 => TokenView::U64,
            Token::Usize => TokenView::Usize,
            Token::Isize => TokenView::Isize,
            Token::Str => TokenView::Str,
            Token::F32 => TokenView::F32,
            Token::F64 => TokenView::F64,
            Token::Bool => TokenView::Bool,
            Token::String(s) => TokenView::String(s@),
            Token::Number(s) => TokenView::Number(s@),
            Token::Boolean(b) => TokenView::Boolean(*b),
        }
    }
}

/// The views of a sequence of tokens.
pub open spec fn tokens_view(ts: Seq<Token>) -> Seq<TokenView> {
    ts.map_values(|t: Token| t@)
}

/// Why a scan stopped.
#[derive(Debug, Clone, Copy, PartialEq, Eq, Structural)]
pub enum ScanError {
    /// A string literal whose closing quote never comes.
    UnterminatedLiteral,
    /// A character that starts no token.
    UnknownCharacter(char),
}

/// The classes of characters that extend a token once it has started.
#[derive(Clone, Copy)]
pub enum Run {
    /// Digits and `.`, after the first digit of a number.
    Digits,
    /// Letters, digits and `_`, after the first letter of a word.
    Word,
    /// Anything but the given quote, inside a string literal.
    Until(char),
}

/// Whether `c` extends a token of run `r`.
pub open spec fn in_run(c: char, r: Run) -> bool {
    match r {
        Run::Digits => ascii_digit(c) || c == '.',
        Run::Word => letter_or_digit(c) || c == '_',
        Run::Until(q) => c != q,
    }
}

/// How many characters of `s` from position `i` on belong to run `r`.
pub open spec fn run_len(s: Seq<char>, i: int, r: Run) -> nat
    decreases s.len() - i,
{
    if 0 <= i < s.len() && in_run(s[i], r) {
        1 + run_len(s, i + 1, r)
    } else {
        0
    }
}

/// A run stays within the text, and each of its characters belongs to it.
pub proof fn lemma_run_len_bound(s: Seq<char>, i: int, r: Run)
    requires
        0 <= i <= s.len(),
    ensures
        i + run_len(s, i, r) <= s.len(),
        forall|k: int| i <= k < i + run_len(s, i, r) ==> in_run(#[trigger] s[k], r),
    decreases s.len() - i,
{
    if i < s.len() && in_run(s[i], r) {
        lemma_run_len_bound(s, i + 1, r);
    }
}

/// The token that a word (a letter followed by letters, digits and `_`) spells.
pub open spec fn word_token(w: Seq<char>) -> TokenView {
    if w == seq!['l', 'e', 't'] { TokenView::Let }
    else if w == seq!['w', 'h', 'i', 'l', 'e'] { TokenView::While }
    else if w == seq!['f', 'o', 'r'] { TokenView::For }
    else if w == seq!['f', 'n'] { TokenView::Fn }
    else if w == seq!['i', 'f'] { TokenView::If }
    else if w == seq!['e', 'l', 's', 'e'] { TokenView::Else }
    else if w == seq!['m', 'a', 't', 'c', 'h'] { TokenView::Match }
    else if w == seq!['r', 'e', 't', 'u', 'r', 'n'] { TokenView::Return }
    else if w == seq!['i', '8'] { TokenView::I8 }
    else if w == seq!['i', '1', '6'] { TokenView::I16 }
    else if w == seq!['i', '3', '2'] { TokenView::I32 }
    else if w == seq!['i', '6', '4'] { TokenView::I64 }
    else if w == seq!['u', '8'] { TokenView::U8 }
    else if w == seq!['u', '1', '6'] { TokenView::U16 }
    else if w == seq!['u', '3', '2'] { TokenView::U32 }
    else if w == seq!['u', '6', '4'] { TokenView::U64 }
    else if w == seq!['u', 's', 'i', 'z', 'e'] { TokenView::Usize }
    else if w == seq!['i', 's', 'i', 'z', 'e'] { TokenView::Isize }
    else if w == seq!['s', 't', 'r', 'i', 'n', 'g'] { TokenView::Str }
    else if w == seq!['b', 'o', 'o', 'l'] { TokenView::Bool }
    else if w == seq!['f', '3', '2'] { TokenView::F32 }
    else if w == seq!['f', '6', '4'] { TokenView::F64 }
    else if w == seq!['t', 'r', 'u', 'e'] { TokenView::Boolean(true) }
    else if w == seq!['f', 'a', 'l', 's', 'e'] { TokenView::Boolean(false) }
    else { TokenView::Identifier(w) }
}

/// The token of a character that stands alone, if it is one.
pub open spec fn single_token(c: char) -> Option<TokenView> {
    match c {
        '+' => Some(TokenView::Plus),
        '*' => Some(TokenView::Asterisk),
        '/' => Some(TokenView::ForSlash),
        ';' => Some(TokenView::Semicolon),
        ':' => Some(TokenView::Colon),
        '.' => Some(TokenView::Period),
        ',' => Some(TokenView::Comma),
        '!' => Some(TokenView::LogNot),
        '(' => Some(TokenView::LeftParen),
        ')' => Some(TokenView::RightParen),
        '{' => Some(TokenView::LeftCurlyBracket),
        '}' => Some(TokenView::RightCurlyBracket),
        '<' => Some(TokenView::LeftAngleBracket),
        '>' => Some(TokenView::RightAngleBracket),
        '[' => Some(TokenView::LeftSqreBracket),
        ']' => Some(TokenView::RightSqreBracket),
        '\\' => Some(TokenView::BackSlash),
        _ => None,
    }
}

/// `t` in front of the tokens of `rest`, or the failure of `rest`.
pub open spec fn cons(t: TokenView, rest: Result<Seq<TokenView>, ScanError>) -> Result<
    Seq<TokenView>,
    ScanError,
> {
    match rest {
        Ok(ts) => Ok(seq![t] + ts),
        Err(e) => Err(e),
    }
}

/// The tokens of `s` from position `i` on, or the first failure.
pub open spec fn scan_from(s: Seq<char>, i: int) -> Result<Seq<TokenView>, ScanError>
    decreases s.len() - i,
{
    if i < 0 || i >= s.len() {
        Ok(seq![])
    } else {
        let c = s[i];
        if white_space(c) {
            scan_from(s, i + 1)
        } else if c == '"' || c == '\'' {
            let n = run_len(s, i + 1, Run::Until(c));
            proof {
                lemma_run_len_bound(s, i + 1, Run::Until(c));
            }
            if i + 1 + n >= s.len() {
                Err(ScanError::UnterminatedLiteral)
            } else {
                cons(TokenView::String(s.subrange(i + 1, i + 1 + n)), scan_from(s, i + 2 + n))
            }
        } else if ascii_digit(c) {
            let n = run_len(s, i + 1, Run::Digits);
            proof {
                lemma_run_len_bound(s, i + 1, Run::Digits);
            }
            cons(TokenView::Number(s.subrange(i, i + 1 + n)), scan_from(s, i + 1 + n))
        } else if letter(c) {
            let n = run_len(s, i + 1, Run::Word);
            proof {
                lemma_run_len_bound(s, i + 1, Run::Word);
            }
            cons(word_token(s.subrange(i, i + 1 + n)), scan_from(s, i + 1 + n))
        } else if c == '-' || c == '=' {
            if i + 1 < s.len() && s[i + 1] == '>' {
                cons(
                    if c == '-' { TokenView::HyphenArrow } else { TokenView::EqualArrow },
                    scan_from(s, i + 2),
                )
            } else {
                cons(
                    if c == '-' { TokenView::Hyphen } else { TokenView::Equals },
                    scan_from(s, i + 1),
                )
            }
        } else if c == '|' || c == '&' {
            if i + 1 < s.len() && s[i + 1] == c {
                cons(
                    if c == '|' { TokenView::LogOr } else { TokenView::LogAnd },
                    scan_from(s, i + 2),
                )
            } else {
                Err(ScanError::UnknownCharacter(c))
            }
        } else {
            match single_token(c) {
                Some(t) => cons(t, scan_from(s, i + 1)),
                None => Err(ScanError::UnknownCharacter(c)),
            }
        }
    }
}

/// The tokens of the whole text `s`, or the first failure.
pub open spec fn scan(s: Seq<char>) -> Result<Seq<TokenView>, ScanError> {
    scan_from(s, 0)
}

/// Where the run `r` that goes on from position `i` of `chars` ends.
fn run_end(chars: &Vec<char>, i: usize, r: Run) -> (j: usize)
    requires
        i <= chars@.len(),
    ensures
        j == i + run_len(chars@, i as int, r),
        j <= chars@.len(),
{
    proof {
        lemma_run_len_bound(chars@, i as int, r);
    }
    let mut j = i;
    while j < chars.len() && in_run_exec(chars[j], r)
        invariant
            i <= j <= chars@.len(),
            run_len(chars@, i as int, r) == (j - i) + run_len(chars@, j as int, r),
        decreases chars@.len() - j,
    {
        j += 1;
    }
    j
}

fn in_run_exec(c: char, r: Run) -> (b: bool)
    ensures
        b == in_run(c, r),
{
    match r {
        Run::Digits => is_ascii_digit(c) || c == '.',
        Run::Word => is_alphanumeric(c) || c == '_',
        Run::Until(q) => c != q,
    }
}

/// Whether `chars[start..end]` spells `word`.
fn spells(chars: &Vec<char>, start: usize, end: usize, word: &[char]) -> (b: bool)
    requires
        start <= end <= chars@.len(),
    ensures
        b == (chars@.subrange(start as int, end as int) == word@),
{
    if end - start != word.len() {
        return false;
    }
    let mut k: usize = 0;
    while k < word.len()
        invariant
            end - start == word@.len(),
            start <= end <= chars@.len(),
            0 <= k <= word@.len(),
            forall|m: int| 0 <= m < k ==> chars@[start + m] == word@[m],
        decreases word@.len() - k,
    {
        if chars[start + k] != word[k] {
            assert(chars@.subrange(start as int, end as int)[k as int] != word@[k as int]);
            return false;
        }
        k += 1;
    }
    assert(chars@.subrange(start as int, end as int) =~= word@);
    true
}

/// The token that `chars[start..end]` spells as a word.
fn word_token_exec(chars: &Vec<char>, start: usize, end: usize) -> (t: Token)
    requires
        start <= end <= chars@.len(),
    ensures
        t@ == word_token(chars@.subrange(start as int, end as int)),
{
    if spells(chars, start, end, &['l', 'e', 't']) { Token::Let }
    else if spells(chars, start, end, &['w', 'h', 'i', 'l', 'e']) { Token::While }
    else if spells(chars, start, end, &['f', 'o', 'r']) { Token::For }
    else if spells(chars, start, end, &['f', 'n']) { Token::Fn }
    else if spells(chars, start, end, &['i', 'f']) { Token::If }
    else if spells(chars, start, end, &['e', 'l', 's', 'e']) { Token::Else }
    else if spells(chars, start, end, &['m', 'a', 't', 'c', 'h']) { Token::Match }
    else if spells(chars, start, end, &['r', 'e', 't', 'u', 'r', 'n']) { Token::Return }
    else if spells(chars, start, end, &['i', '8']) { Token::I8 }
    else if spells(chars, start, end, &['i', '1', '6']) { Token::I16 }
    else if spells(chars, start, end, &['i', '3', '2']) { Token::I32 }
    else if spells(chars, start, end, &['i', '6', '4']) { Token::I64 }
    else if spells(chars, start, end, &['u', '8']) { Token::U8 }
    else if spells(chars, start, end, &['u', '1', '6']) { Token::U16 }
    else if spells(chars, start, end, &['u', '3', '2']) { Token::U32 }
    else if spells(chars, start, end, &['u', '6', '4']) { Token::U64 }
    else if spells(chars, start, end, &['u', 's', 'i', 'z', 'e']) { Token::Usize }
    else if spells(chars, start, end, &['i', 's', 'i', 'z', 'e']) { Token::Isize }
    else if spells(chars, start, end, &['s', 't', 'r', 'i', 'n', 'g']) { Token::Str }
    else if spells(chars, start, end, &['b', 'o', 'o', 'l']) { Token::Bool }
    else if spells(chars, start, end, &['f', '3', '2']) { Token::F32 }
    else if spells(chars, start, end, &['f', '6', '4']) { Token::F64 }
    else if spells(chars, start, end, &['t', 'r', 'u', 'e']) { Token::Boolean(true) }
    else if spells(chars, start, end, &['f', 'a', 'l', 's', 'e']) { Token::Boolean(false) }
    else { Token::Identifier(string_of(chars, start, end)) }
}

/// The token of a character that stands alone, if it is one.
fn single_token_exec(c: char) -> (t: Option<Token>)
    ensures
        match t {
            Some(t) => single_token(c) == Some(t@),
            None => single_token(c) is None,
        },
{
    match c {
        '+' => Some(Token::Plus),
        '*' => Some(Token::Asterisk),
        '/' => Some(Token::ForSlash),
        ';' => Some(Token::Semicolon),
        ':' => Some(Token::Colon),
        '.' => Some(Token::Period),
        ',' => Some(Token::Comma),
        '!' => Some(Token::LogNot),
        '(' => Some(Token::LeftParen),
        ')' => Some(Token::RightParen),
        '{' => Some(Token::LeftCurlyBracket),
        '}' => Some(Token::RightCurlyBracket),
        '<' => Some(Token::LeftAngleBracket),
        '>' => Some(Token::RightAngleBracket),
        '[' => Some(Token::LeftSqreBracket),
        ']' => Some(Token::RightSqreBracket),
        '\\' => Some(Token::BackSlash),
        _ => None,
    }
}

/// `pre` in front of the tokens of `rest`, or the failure of `rest`.
pub open spec fn after(pre: Seq<TokenView>, rest: Result<Seq<TokenView>, ScanError>) -> Result<
    Seq<TokenView>,
    ScanError,
> {
    match rest {
        Ok(ts) => Ok(pre + ts),
        Err(e) => Err(e),
    }
}

/// The mathematical value of a scan's result.
pub open spec fn scan_view(r: Result<Vec<Token>, ScanError>) -> Result<Seq<TokenView>, ScanError> {
    match r {
        Ok(ts) => Ok(tokens_view(ts@)),
        Err(e) => Err(e),
    }
}

/// The scanner over one source text.
pub struct Tokeniser {
    input: String,
}

impl Tokeniser {
    /// The text that this scanner reads.
    pub closed spec fn source(&self) -> Seq<char> {
        self.input@
    }

    /// A scanner over `input`.
    pub fn new(input: String) -> (r: Self)
        ensures
            r.source() == input@,
    {
        Self { input }
    }

    /// Scans the whole source: its tokens in document order, or the first
    /// failure. A string literal must be closed by the quote that opened it,
    /// and a lone `|` or `&` is an unknown character.
    pub fn run(&mut self) -> (r: Result<Vec<Token>, ScanError>)
        ensures
            final(self).source() == old(self).source(),
            scan_view(r) == scan(old(self).source()),
    {
        let chars = char_vec(self.input.as_str());
        let ghost s = chars@;
        let mut tokens: Vec<Token> = Vec::new();
        let mut i: usize = 0;
        while i < chars.len()
            invariant
                s == chars@,
                s == self.input@,
                i <= s.len(),
                scan(s) == after(tokens_view(tokens@), scan_from(s, i as int)),
            decreases s.len() - i,
        {
            let c = chars[i];
            let ghost pre = tokens_view(tokens@);
            let next: usize;
            let tok: Token;
            if is_whitespace(c) {
                i += 1;
                continue;
            } else if c == '"' || c == '\'' {
                let j = run_end(&chars, i + 1, Run::Until(c));
                if j >= chars.len() {
                    return Err(ScanError::UnterminatedLiteral);
                }
                tok = Token::String(string_of(&chars, i + 1, j));
                next = j + 1;
            } else if is_ascii_digit(c) {
                let j = run_end(&chars, i + 1, Run::Digits);
                tok = Token::Number(string_of(&chars, i, j));
                next = j;
            } else if is_alphabetic(c) {
                let j = run_end(&chars, i + 1, Run::Word);
                tok = word_token_exec(&chars, i, j);
                next = j;
            } else if c == '-' || c == '=' {
                if i + 1 < chars.len() && chars[i + 1] == '>' {
                    tok = if c == '-' { Token::HyphenArrow } else { Token::EqualArrow };
                    next = i + 2;
                } else {
                    tok = if c == '-' { Token::Hyphen } else { Token::Equals };
                    next = i + 1;
                }
            } else if c == '|' || c == '&' {
                if i + 1 < chars.len() && chars[i + 1] == c {
                    tok = if c == '|' { Token::LogOr } else { Token::LogAnd };
                    next = i + 2;
                } else {
                    return Err(ScanError::UnknownCharacter(c));
                }
            } else {
                match single_token_exec(c) {
                    Some(t) => {
                        tok = t;
                        next = i + 1;
                    },
                    None => {
                        return Err(ScanError::UnknownCharacter(c));
                    },
                }
            }
            assert(scan_from(s, i as int) == cons(tok@, scan_from(s, next as int)));
            tokens.push(tok);
            assert(tokens_view(tokens@) =~= pre.push(tok@));
            assert(pre + (seq![tok@] + seq![]) =~= pre.push(tok@) + seq![]);
            proof {
                match scan_from(s, next as int) {
                    Ok(rest) => {
                        assert(pre + (seq![tok@] + rest) =~= pre.push(tok@) + rest);
                    },
                    Err(_) => {},
                }
            }
            i = next;
        }
        assert(tokens_view(tokens@) + seq![] =~= tokens_view(tokens@));
        Ok(tokens)
    }
}

} // verus!
