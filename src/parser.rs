//! The tree builder: recursive descent over a token sequence, producing a
//! syntax tree whose root is a `Body`.
use vstd::prelude::*;

use crate::text::{ascii_digit, char_vec, is_ascii_digit};
use crate::tokeniser::{tokens_view, Token, TokenView};

verus! {

/// A node of the syntax tree. Each child is owned by exactly one parent.
#[derive(Debug, PartialEq)]
pub enum Expr {
    // Arithmetic Operators
    Add { left: Box<Expr>, right: Box<Expr> },
    Subtract { left: Box<Expr>, right: Box<Expr> },
    Multiply { left: Box<Expr>, right: Box<Expr> },
    Divide { left: Box<Expr>, right: Box<Expr> },

    // Logical Operators
    Not { expr: Box<Expr> },
    And { left: Box<Expr>, right: Box<Expr> },
    Or { left: Box<Expr>, right: Box<Expr> },

    // Functions and Variables
    Function { name: String, parameters: Box<Expr>, body: Box<Expr> },
    Variable { name: String, value: Box<Expr> },

    // Control Flow
    If { cond: Box<Expr>, body_true: Box<Expr>, body_false: Box<Expr> },
    While { cond: Box<Expr>, body: Box<Expr> },

    // Body
    Body { expressions: Vec<Box<Expr>> },

    Int(i128),
    Str(String),
    Bool(bool),
}

/// The mathematical value of an [`Expr`].
pub enum Node {
    Add { left: Box<Node>, right: Box<Node> },
    Subtract { left: Box<Node>, right: Box<Node> },
    Multiply { left: Box<Node>, right: Box<Node> },
    Divide { left: Box<Node>, right: Box<Node> },
    Not { expr: Box<Node> },
    And { left: Box<Node>, right: Box<Node> },
    Or { left: Box<Node>, right: Box<Node> },
    Function { name: Seq<char>, parameters: Box<Node>, body: Box<Node> },
    Variable { name: Seq<char>, value: Box<Node> },
    If { cond: Box<Node>, body_true: Box<Node>, body_false: Box<Node> },
    While { cond: Box<Node>, body: Box<Node> },
    Body { expressions: Seq<Node> },
    Int(int),
    Str(Seq<char>),
    Bool(bool),
}

/// The mathematical value of a tree, children included.
pub open spec fn expr_view(e: Expr) -> Node
    decreases e, 1int,
{
    match e {
        Expr::Add { left, right } => Node::Add {
            left: Box::new(expr_view(*left)),
            right: Box::new(expr_view(*right)),
        },
        Expr::Subtract { left, right } => Node::Subtract {
            left: Box::new(expr_view(*left)),
            right: Box::new(expr_view(*right)),
        },
        Expr::Multiply { left, right } => Node::Multiply {
            left: Box::new(expr_view(*left)),
            right: Box::new(expr_view(*right)),
        },
        Expr::Divide { left, right } => Node::Divide {
            left: Box::new(expr_view(*left)),
            right: Box::new(expr_view(*right)),
        },
        Expr::Not { expr } => Node::Not { expr: Box::new(expr_view(*expr)) },
        Expr::And { left, right } => Node::And {
            left: Box::new(expr_view(*left)),
            right: Box::new(expr_view(*right)),
        },
        Expr::Or { left, right } => Node::Or {
            left: Box::new(expr_view(*left)),
            right: Box::new(expr_view(*right)),
        },
        Expr::Function { name, parameters, body } => Node::Function {
            name: name@,
            parameters: Box::new(expr_view(*parameters)),
            body: Box::new(expr_view(*body)),
        },
        Expr::Variable { name, value } => Node::Variable {
            name: name@,
            value: Box::new(expr_view(*value)),
        },
        Expr::If { cond, body_true, body_false } => Node::If {
            cond: Box::new(expr_view(*cond)),
            body_true: Box::new(expr_view(*body_true)),
            body_false: Box::new(expr_view(*body_false)),
        },
        Expr::While { cond, body } => Node::While {
            cond: Box::new(expr_view(*cond)),
            body: Box::new(expr_view(*body)),
        },
        Expr::Body { expressions } => Node::Body { expressions: body_view(expressions@) },
        Expr::Int(v) => Node::Int(v as int),
        Expr::Str(s) => Node::Str(s@),
        Expr::Bool(b) => Node::Bool(b),
    }
}

/// The views of a sequence of children, in order.
pub open spec fn body_view(es: Seq<Box<Expr>>) -> Seq<Node>
    decreases es, 0int,
{
    if es.len() == 0 {
        seq![]
    } else {
        body_view(es.drop_last()).push(expr_view(*es.last()))
    }
}

impl View for Expr {
    type V = Node;

    open spec fn view(&self) -> Node {
        expr_view(*self)
    }
}

/// Why a tree could not be built.
#[derive(Debug, Clone, Copy, PartialEq, Eq, Structural)]
pub enum BuildError {
    /// A number's text is not a decimal integer that fits an `i128`.
    MalformedNumber,
    /// A token that cannot start a construct where it stands.
    UnexpectedToken,
    /// An opening bracket whose closer is missing or of another family.
    ExpectedClosingBracket,
    /// A keyword whose construct has no parser yet.
    UnsupportedConstruct,
}

/// The four bracket families.
#[derive(Debug, Clone, Copy, PartialEq, Eq, Structural)]
pub enum Bracket {
    Paren,
    Curly,
    Square,
    Angle,
}

/// The family that `t` opens, if it is an opening bracket.
pub open spec fn opener(t: TokenView) -> Option<Bracket> {
    match t {
        TokenView::LeftParen => Some(Bracket::Paren),
        TokenView::LeftCurlyBracket => Some(Bracket::Curly),
        TokenView::LeftSqreBracket => Some(Bracket::Square),
        TokenView::LeftAngleBracket => Some(Bracket::Angle),
        _ => None,
    }
}

/// The family that `t` closes, if it is a closing bracket.
pub open spec fn closer(t: TokenView) -> Option<Bracket> {
    match t {
        TokenView::RightParen => Some(Bracket::Paren),
        TokenView::RightCurlyBracket => Some(Bracket::Curly),
        TokenView::RightSqreBracket => Some(Bracket::Square),
        TokenView::RightAngleBracket => Some(Bracket::Angle),
        _ => None,
    }
}

/// Every character of `s` is an ASCII digit.
pub open spec fn all_digits(s: Seq<char>) -> bool {
    forall|i: int| 0 <= i < s.len() ==> ascii_digit(#[trigger] s[i])
}

/// The value of a string of decimal digits.
pub open spec fn digits_value(s: Seq<char>) -> int
    decreases s.len(),
{
    if s.len() == 0 {
        0
    } else {
        digits_value(s.drop_last()) * 10 + (s.last() as u32 - 0x30)
    }
}

/// Whether `s` is a decimal integer that an `i128` holds.
pub open spec fn is_number(s: Seq<char>) -> bool {
    s.len() > 0 && all_digits(s) && digits_value(s) <= i128::MAX
}

/// The leaf that a one-token construct stands for, or why `t` starts none.
pub open spec fn leaf(t: TokenView) -> Result<Node, BuildError> {
    match t {
        TokenView::Number(s) => if is_number(s) {
            Ok(Node::Int(digits_value(s)))
        } else {
            Err(BuildError::MalformedNumber)
        },
        TokenView::String(s) => Ok(Node::Str(s)),
        TokenView::Boolean(b) => Ok(Node::Bool(b)),
        TokenView::Let | TokenView::Fn | TokenView::If | TokenView::While | TokenView::Match
        | TokenView::For | TokenView::Return => Err(BuildError::UnsupportedConstruct),
        _ => Err(BuildError::UnexpectedToken),
    }
}

/// `node` in front of the nodes of `rest`, `k` more tokens consumed.
pub open spec fn then_block(node: Node, k: nat, rest: Result<(Seq<Node>, nat), BuildError>) -> Result<
    (Seq<Node>, nat),
    BuildError,
> {
    match rest {
        Ok((ns, n)) => Ok((seq![node] + ns, n + k)),
        Err(e) => Err(e),
    }
}

/// The constructs of `t` from position `i` on, up to the end (when `close` is
/// `None`) or up to and including the closer of family `close`: the nodes in
/// order and the number of tokens consumed; or the first failure.
pub open spec fn parse_block(t: Seq<TokenView>, i: int, close: Option<Bracket>) -> Result<
    (Seq<Node>, nat),
    BuildError,
>
    decreases t.len() - i,
{
    if i < 0 || i >= t.len() {
        if close is None {
            Ok((seq![], 0))
        } else {
            Err(BuildError::ExpectedClosingBracket)
        }
    } else {
        match closer(t[i]) {
            Some(k) => if close == Some(k) {
                Ok((seq![], 1))
            } else if close is Some {
                Err(BuildError::ExpectedClosingBracket)
            } else {
                Err(BuildError::UnexpectedToken)
            },
            None => match opener(t[i]) {
                Some(k) => match parse_block(t, i + 1, Some(k)) {
                    Ok((inner, n)) => {
                        // a nested block never consumes past the end
                        if i + 1 + n <= t.len() {
                            then_block(
                                Node::Body { expressions: inner },
                                n + 1,
                                parse_block(t, i + 1 + n, close),
                            )
                        } else {
                            Err(BuildError::ExpectedClosingBracket)
                        }
                    },
                    Err(e) => Err(e),
                },
                None => match leaf(t[i]) {
                    Ok(node) => then_block(node, 1, parse_block(t, i + 1, close)),
                    Err(e) => Err(e),
                },
            },
        }
    }
}

/// The tree of the tokens of `t` from position `i` on: one `Body` holding the
/// constructs in order.
pub open spec fn program_from(t: Seq<TokenView>, i: int) -> Result<Node, BuildError> {
    match parse_block(t, i, None) {
        Ok((ns, _)) => Ok(Node::Body { expressions: ns }),
        Err(e) => Err(e),
    }
}

/// The tree of the whole token sequence `t`.
pub open spec fn build(t: Seq<TokenView>) -> Result<Node, BuildError> {
    program_from(t, 0)
}

pub open spec fn expr_result_view(r: Result<Expr, BuildError>) -> Result<Node, BuildError> {
    match r {
        Ok(e) => Ok(e@),
        Err(e) => Err(e),
    }
}

pub proof fn lemma_body_view_push(es: Seq<Box<Expr>>, e: Box<Expr>)
    ensures
        body_view(es.push(e)) == body_view(es).push(expr_view(*e)),
{
    assert(es.push(e).drop_last() =~= es);
}

pub proof fn lemma_digits_value_step(s: Seq<char>, i: int)
    requires
        0 <= i < s.len(),
    ensures
        digits_value(s.take(i + 1)) == digits_value(s.take(i)) * 10 + (s[i] as u32 - 0x30),
{
    assert(s.take(i + 1).drop_last() =~= s.take(i));
}

/// The value of a digit string is at least that of each of its prefixes.
pub proof fn lemma_digits_value_prefix(s: Seq<char>, i: int)
    requires
        0 <= i <= s.len(),
        all_digits(s),
    ensures
        digits_value(s.take(i)) <= digits_value(s),
        0 <= digits_value(s.take(i)),
    decreases s.len() - i,
{
    if i < s.len() {
        lemma_digits_value_step(s, i);
        lemma_digits_value_prefix(s, i + 1);
        assert(ascii_digit(s[i]));
    } else {
        assert(s.take(i) =~= s);
        lemma_digits_value_nonneg(s);
    }
}

pub proof fn lemma_digits_value_nonneg(s: Seq<char>)
    requires
        all_digits(s),
    ensures
        0 <= digits_value(s),
    decreases s.len(),
{
    if s.len() > 0 {
        assert(all_digits(s.drop_last())) by {
            assert forall|i: int| 0 <= i < s.drop_last().len() implies ascii_digit(
                #[trigger] s.drop_last()[i],
            ) by {
                assert(s.drop_last()[i] == s[i]);
            }
        }
        lemma_digits_value_nonneg(s.drop_last());
        assert(ascii_digit(s[s.len() - 1]));
    }
}

/// The integer that a number's text spells, if it is a decimal integer that
/// fits an `i128`.
fn decimal(text: &String) -> (r: Option<i128>)
    ensures
        match r {
            Some(v) => is_number(text@) && v == digits_value(text@),
            None => !is_number(text@),
        },
{
    let chars = char_vec(text.as_str());
    let ghost s = chars@;
    if chars.len() == 0 {
        return None;
    }
    let mut acc: i128 = 0;
    let mut i: usize = 0;
    assert(s.take(0) =~= seq![]);
    while i < chars.len()
        invariant
            s == chars@,
            s == text@,
            i <= s.len(),
            s.len() > 0,
            acc == digits_value(s.take(i as int)),
            0 <= acc,
            forall|k: int| 0 <= k < i ==> ascii_digit(#[trigger] s[k]),
        decreases s.len() - i,
    {
        let c = chars[i];
        if !is_ascii_digit(c) {
            return None;
        }
        let d = (c as u32 - 0x30) as i128;
        proof {
            lemma_digits_value_step(s, i as int);
        }
        if acc > (i128::MAX - d) / 10 {
            proof {
                assert(acc * 10 + d > i128::MAX) by (nonlinear_arith)
                    requires
                        acc > (i128::MAX - d) / 10,
                        0 <= d <= 9,
                ;
                if all_digits(s) {
                    lemma_digits_value_prefix(s, i + 1);
                }
            }
            return None;
        }
        assert(acc * 10 + d <= i128::MAX) by (nonlinear_arith)
            requires
                acc <= (i128::MAX - d) / 10,
                0 <= d <= 9,
        ;
        acc = acc * 10 + d;
        i += 1;
    }
    assert(s.take(s.len() as int) =~= s);
    Some(acc)
}

/// The leaf that a one-token construct stands for, or why `t` starts none.
fn leaf_expr(t: &Token) -> (r: Result<Expr, BuildError>)
    ensures
        expr_result_view(r) == leaf(t@),
{
    match t {
        Token::Number(s) => match decimal(s) {
            Some(v) => Ok(Expr::Int(v)),
            None => Err(BuildError::MalformedNumber),
        },
        Token::String(s) => Ok(Expr::Str(s.clone())),
        Token::Boolean(b) => Ok(Expr::Bool(*b)),
        Token::Let | Token::Fn | Token::If | Token::While | Token::Match | Token::For
        | Token::Return => Err(BuildError::UnsupportedConstruct),
        _ => Err(BuildError::UnexpectedToken),
    }
}

fn opener_exec(t: &Token) -> (r: Option<Bracket>)
    ensures
        r == opener(t@),
{
    match t {
        Token::LeftParen => Some(Bracket::Paren),
        Token::LeftCurlyBracket => Some(Bracket::Curly),
        Token::LeftSqreBracket => Some(Bracket::Square),
        Token::LeftAngleBracket => Some(Bracket::Angle),
        _ => None,
    }
}

fn closer_exec(t: &Token) -> (r: Option<Bracket>)
    ensures
        r == closer(t@),
{
    match t {
        Token::RightParen => Some(Bracket::Paren),
        Token::RightCurlyBracket => Some(Bracket::Curly),
        Token::RightSqreBracket => Some(Bracket::Square),
        Token::RightAngleBracket => Some(Bracket::Angle),
        _ => None,
    }
}

/// `pre` in front of the nodes of `rest`, `k` more tokens consumed.
pub open spec fn then_all(pre: Seq<Node>, k: nat, rest: Result<(Seq<Node>, nat), BuildError>) -> Result<
    (Seq<Node>, nat),
    BuildError,
> {
    match rest {
        Ok((ns, n)) => Ok((pre + ns, n + k)),
        Err(e) => Err(e),
    }
}

pub proof fn lemma_then_all_step(pre: Seq<Node>, k: nat, node: Node, m: nat, rest: Result<(Seq<Node>, nat), BuildError>)
    ensures
        then_all(pre, k, then_block(node, m, rest)) == then_all(pre.push(node), k + m, rest),
{
    match rest {
        Ok((ns, n)) => {
            assert(pre + (seq![node] + ns) =~= pre.push(node) + ns);
        },
        Err(_) => {},
    }
}

/// The mathematical value of a built block, `consumed` tokens long.
pub open spec fn block_view(r: Result<Vec<Box<Expr>>, BuildError>, consumed: int) -> Result<
    (Seq<Node>, nat),
    BuildError,
> {
    match r {
        Ok(items) => Ok((body_view(items@), consumed as nat)),
        Err(e) => Err(e),
    }
}

/// The tree builder: a cursor over a token sequence that only moves forward.
pub struct Parser {
    tokens: Vec<Token>,
    pos: usize,
}

impl Parser {
    /// The tokens this builder reads.
    pub closed spec fn input(&self) -> Seq<TokenView> {
        tokens_view(self.tokens@)
    }

    /// The cursor: how many tokens have been consumed.
    pub closed spec fn position(&self) -> int {
        self.pos as int
    }

    /// The cursor lies within the tokens.
    pub closed spec fn wf(&self) -> bool {
        self.pos <= self.tokens@.len()
    }

    /// A builder whose cursor stands before the first of `tokens`.
    pub fn new(tokens: Vec<Token>) -> (r: Self)
        ensures
            r.wf(),
            r.input() == tokens_view(tokens@),
            r.position() == 0,
    {
        Self { tokens, pos: 0 }
    }

    /// The token under the cursor, which is then consumed.
    fn next(&mut self) -> (r: Option<&Token>)
        requires
            old(self).wf(),
        ensures
            final(self).wf(),
            final(self).tokens@ == old(self).tokens@,
            old(self).pos < old(self).tokens@.len() ==> r == Some(&old(self).tokens@[old(self).pos as int])
                && final(self).pos == old(self).pos + 1,
            old(self).pos >= old(self).tokens@.len() ==> r is None && final(self).pos == old(self).pos,
    {
        if self.pos < self.tokens.len() {
            let token = &self.tokens[self.pos];
            self.pos += 1;
            Some(token)
        } else {
            None
        }
    }

    /// The token under the cursor, if any.
    fn peek(&self) -> (r: Option<&Token>)
        requires
            self.wf(),
        ensures
            self.pos < self.tokens@.len() ==> r == Some(&self.tokens@[self.pos as int]),
            self.pos >= self.tokens@.len() ==> r is None,
    {
        if self.pos < self.tokens.len() {
            Some(&self.tokens[self.pos])
        } else {
            None
        }
    }

    /// Builds the constructs from the cursor on, up to the end (when `close` is
    /// `None`) or up to and including the closer of family `close`.
    fn parse_block(&mut self, close: Option<Bracket>) -> (r: Result<Vec<Box<Expr>>, BuildError>)
        requires
            old(self).wf(),
        ensures
            final(self).wf(),
            final(self).tokens@ == old(self).tokens@,
            final(self).pos >= old(self).pos,
            parse_block(old(self).input(), old(self).pos as int, close) == block_view(
                r,
                final(self).pos - old(self).pos,
            ),
        decreases old(self).tokens@.len() - old(self).pos,
    {
        let ghost t = self.input();
        let ghost toks = self.tokens@;
        let ghost p0 = self.pos as int;
        let mut items: Vec<Box<Expr>> = Vec::new();
        loop
            invariant
                self.wf(),
                self.tokens@ == toks,
                toks == old(self).tokens@,
                p0 == old(self).pos,
                t == tokens_view(toks),
                t.len() == toks.len(),
                p0 <= self.pos,
                parse_block(t, p0, close) == then_all(
                    body_view(items@),
                    (self.pos - p0) as nat,
                    parse_block(t, self.pos as int, close),
                ),
            decreases self.tokens@.len() - self.pos,
        {
            let ghost p = self.pos as int;
            let ghost pre = body_view(items@);
            let tok = match self.peek() {
                None => {
                    assert(pre + seq![] =~= pre);
                    return match close {
                        None => Ok(items),
                        Some(_) => Err(BuildError::ExpectedClosingBracket),
                    };
                },
                Some(tok) => tok,
            };
            assert(t[p] == tok@);
            if let Some(k) = closer_exec(tok) {
                let matched = match close {
                    Some(c) => c == k,
                    None => false,
                };
                if matched {
                    self.next();
                    assert(pre + seq![] =~= pre);
                    return Ok(items);
                }
                return match close {
                    Some(_) => Err(BuildError::ExpectedClosingBracket),
                    None => Err(BuildError::UnexpectedToken),
                };
            }
            if let Some(k) = opener_exec(tok) {
                self.next();
                let inner = match self.parse_block(Some(k)) {
                    Ok(inner) => inner,
                    Err(e) => {
                        return Err(e);
                    },
                };
                let node = Box::new(Expr::Body { expressions: inner });
                proof {
                    lemma_then_all_step(pre, (p - p0) as nat, expr_view(*node), (self.pos - p) as nat,
                        parse_block(t, self.pos as int, close));
                    lemma_body_view_push(items@, node);
                }
                items.push(node);
            } else {
                let e = match leaf_expr(tok) {
                    Ok(e) => e,
                    Err(e) => {
                        return Err(e);
                    },
                };
                self.next();
                let node = Box::new(e);
                proof {
                    lemma_then_all_step(pre, (p - p0) as nat, expr_view(*node), 1,
                        parse_block(t, self.pos as int, close));
                    lemma_body_view_push(items@, node);
                }
                items.push(node);
            }
        }
    }

    /// Builds the tree of the tokens from the cursor on: one `Body` holding
    /// each construct in order. Bracket groups must close with the family
    /// that opened them.
    pub fn parse(&mut self) -> (r: Result<Expr, BuildError>)
        requires
            old(self).wf(),
        ensures
            final(self).wf(),
            final(self).input() == old(self).input(),
            expr_result_view(r) == program_from(old(self).input(), old(self).position()),
    {
        match self.parse_block(None) {
            Ok(items) => Ok(Expr::Body { expressions: items }),
            Err(e) => Err(e),
        }
    }
}

} // verus!
