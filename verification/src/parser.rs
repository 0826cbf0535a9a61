//! The parser: consumes the token sequence and produces statement nodes,
//! each holding an expression tree, under the operator-precedence grammar
//!
//! ```text
//! program    -> statement* EOF
//! statement  -> "print" expression ";" | expression ";"
//! expression -> equality
//! equality   -> comparison ( ( "!=" | "==" ) comparison )*
//! comparison -> term ( ( ">" | ">=" | "<" | "<=" ) term )*
//! term       -> factor ( ( "-" | "+" ) factor )*
//! factor     -> unary ( ( "/" | "*" ) unary )*
//! unary      -> ( "!" | "-" ) unary | primary
//! primary    -> NUMBER | STRING | "true" | "false" | "nil"
//!             | "(" expression ")"
//! ```
//!
//! Each level parses its higher-precedence operand first and then folds
//! same-level operators in left-associatively.  The behaviour is fixed by a
//! recursive specification ([`spec_parse_program`], [`spec_parse_expression`]);
//! the executable parser is proven to return exactly what it says.  A
//! nesting-depth guard turns overly deep nesting of unary operators and
//! parentheses into a reported error instead of unbounded recursion.

use vstd::prelude::*;
use crate::num::Num;
use crate::scanner::{Token, SpecToken, token_views};

verus! {

/// An expression tree node.
#[derive(PartialEq, Debug)]
pub enum Expr {
    /// A binary operation: left operand, operator token, right operand.
    Binary(Box<Expr>, Token, Box<Expr>),
    /// An explicitly parenthesized expression.
    Grouping(Box<Expr>),
    /// A prefix operation: operator token and operand.
    Unary(Token, Box<Expr>),
    /// A string literal.
    String(String),
    /// A number literal.
    Number(Num),
    /// A boolean literal.
    Boolean(bool),
    /// The nil literal.
    Nil,
}

/// A statement node.
#[derive(PartialEq, Debug)]
pub enum Stmt {
    /// An expression evaluated for effect, its value discarded.
    Expression(Expr),
    /// An expression whose value is printed.
    Print(Expr),
}

/// The mathematical form of an expression tree.
pub enum SpecExpr {
    Binary(Box<SpecExpr>, SpecToken, Box<SpecExpr>),
    Grouping(Box<SpecExpr>),
    Unary(SpecToken, Box<SpecExpr>),
    StrLit(Seq<char>),
    Number(Num),
    Boolean(bool),
    Nil,
}

/// The mathematical form of a statement.
pub enum SpecStmt {
    Expression(SpecExpr),
    Print(SpecExpr),
}

/// The mathematical form of an expression tree.
pub open spec fn expr_view(e: Expr) -> SpecExpr
    decreases e,
{
    match e {
        Expr::Binary(l, op, r) => SpecExpr::Binary(
            Box::new(expr_view(*l)),
            op@,
            Box::new(expr_view(*r)),
        ),
        Expr::Grouping(inner) => SpecExpr::Grouping(Box::new(expr_view(*inner))),
        Expr::Unary(op, inner) => SpecExpr::Unary(op@, Box::new(expr_view(*inner))),
        Expr::String(t) => SpecExpr::StrLit(t@),
        Expr::Number(n) => SpecExpr::Number(n),
        Expr::Boolean(b) => SpecExpr::Boolean(b),
        Expr::Nil => SpecExpr::Nil,
    }
}

impl View for Expr {
    type V = SpecExpr;

    open spec fn view(&self) -> SpecExpr {
        expr_view(*self)
    }
}

/// The mathematical form of a statement.
pub open spec fn stmt_view(st: Stmt) -> SpecStmt {
    match st {
        Stmt::Expression(e) => SpecStmt::Expression(expr_view(e)),
        Stmt::Print(e) => SpecStmt::Print(expr_view(e)),
    }
}

impl View for Stmt {
    type V = SpecStmt;

    open spec fn view(&self) -> SpecStmt {
        stmt_view(*self)
    }
}

/// The sequence view of a statement vector.
pub open spec fn stmt_views(ss: Seq<Stmt>) -> Seq<SpecStmt> {
    ss.map_values(|st: Stmt| st@)
}

/// What went wrong at a grammar position.
#[derive(PartialEq, Eq, Structural, Clone, Copy, Debug)]
pub enum ParseErrorKind {
    /// A token that cannot start an expression where one was expected.
    ExpectedExpression,
    /// A parenthesized expression without its closing parenthesis.
    ExpectedClosingParen,
    /// A statement without its terminating semicolon.
    ExpectedSemicolon,
    /// Nesting beyond the depth guard [`MAX_NEST_DEPTH`].
    TooDeep,
    /// The token sequence ended without the end marker.
    UnexpectedEnd,
}

/// A parse error: the kind and the index of the offending token in the
/// token sequence handed to the parser.  The scanner's position list
/// (`scan_tokens_with_positions`) maps that index to a source line and
/// column.
#[derive(PartialEq, Eq, Structural, Clone, Copy, Debug)]
pub struct ParseError {
    /// What went wrong.
    pub kind: ParseErrorKind,
    /// Index of the offending position in the token sequence.
    pub at: usize,
}

/// Nesting-depth guard: deeper nesting of unary operators and parentheses is
/// reported as a parse error rather than risking stack exhaustion.
pub const MAX_NEST_DEPTH: usize = 200;

/// Remaining token count, clamped at zero.
pub open spec fn toks_rem(ts: Seq<SpecToken>, i: nat) -> nat {
    if i <= ts.len() {
        (ts.len() - i) as nat
    } else {
        0
    }
}

/// Whether `t` is an equality operator.
pub open spec fn is_equality_op(t: SpecToken) -> bool {
    t is BangEqual || t is EqualEqual
}

/// Whether `t` is a comparison operator.
pub open spec fn is_comparison_op(t: SpecToken) -> bool {
    t is Greater || t is GreaterEqual || t is Less || t is LessEqual
}

/// Whether `t` is a term operator.
pub open spec fn is_term_op(t: SpecToken) -> bool {
    t is Plus || t is Minus
}

/// Whether `t` is a factor operator.
pub open spec fn is_factor_op(t: SpecToken) -> bool {
    t is Star || t is Slash
}

/// A parsed `primary`, or the first error.  A result `(e, extra)` means the
/// production matched `1 + extra` tokens starting at `i` and built `e`.
/// `d` is the remaining nesting budget.
#[verifier::opaque]
pub open spec fn spec_primary(ts: Seq<SpecToken>, i: nat, d: nat) -> Result<
    (SpecExpr, nat),
    ParseError,
>
    decreases toks_rem(ts, i), 1int,
{
    if i >= ts.len() {
        Err(ParseError { kind: ParseErrorKind::UnexpectedEnd, at: i as usize })
    } else {
        match ts[i as int] {
            SpecToken::Number(n) => Ok((SpecExpr::Number(n), 0)),
            SpecToken::StrLit(t) => Ok((SpecExpr::StrLit(t), 0)),
            SpecToken::True => Ok((SpecExpr::Boolean(true), 0)),
            SpecToken::False => Ok((SpecExpr::Boolean(false), 0)),
            SpecToken::Nil => Ok((SpecExpr::Nil, 0)),
            SpecToken::LeftParen => {
                if d == 0 {
                    Err(ParseError { kind: ParseErrorKind::TooDeep, at: i as usize })
                } else {
                    match spec_expression(ts, i + 1, (d - 1) as nat) {
                        Ok((e, k)) => {
                            if i + 2 + k < ts.len() && ts[i as int + 2 + k] is RightParen {
                                Ok((SpecExpr::Grouping(Box::new(e)), k + 2))
                            } else {
                                Err(
                                    ParseError {
                                        kind: ParseErrorKind::ExpectedClosingParen,
                                        at: (i + 2 + k) as usize,
                                    },
                                )
                            }
                        },
                        Err(pe) => Err(pe),
                    }
                }
            },
            _ => Err(ParseError { kind: ParseErrorKind::ExpectedExpression, at: i as usize }),
        }
    }
}

/// A parsed `unary`, or the first error.
#[verifier::opaque]
pub open spec fn spec_unary(ts: Seq<SpecToken>, i: nat, d: nat) -> Result<
    (SpecExpr, nat),
    ParseError,
>
    decreases toks_rem(ts, i), 2int,
{
    if i < ts.len() && (ts[i as int] is Minus || ts[i as int] is Bang) {
        if d == 0 {
            Err(ParseError { kind: ParseErrorKind::TooDeep, at: i as usize })
        } else {
            match spec_unary(ts, i + 1, (d - 1) as nat) {
                Ok((e, k)) => Ok((SpecExpr::Unary(ts[i as int], Box::new(e)), k + 1)),
                Err(pe) => Err(pe),
            }
        }
    } else {
        spec_primary(ts, i, d)
    }
}

/// The left-associative fold of factor operators onto `acc`, starting at
/// `j`.  A result `(e, c)` means `c` further tokens were matched.
#[verifier::opaque]
pub open spec fn spec_factor_rest(ts: Seq<SpecToken>, j: nat, d: nat, acc: SpecExpr) -> Result<
    (SpecExpr, nat),
    ParseError,
>
    decreases toks_rem(ts, j), 0int,
{
    if j < ts.len() && is_factor_op(ts[j as int]) {
        match spec_unary(ts, j + 1, d) {
            Ok((rhs, k)) => {
                let acc2 = SpecExpr::Binary(Box::new(acc), ts[j as int], Box::new(rhs));
                match spec_factor_rest(ts, j + 2 + k, d, acc2) {
                    Ok(p) => Ok((p.0, 2 + k + p.1)),
                    Err(pe) => Err(pe),
                }
            },
            Err(pe) => Err(pe),
        }
    } else {
        Ok((acc, 0))
    }
}

/// A parsed `factor`, or the first error.
#[verifier::opaque]
pub open spec fn spec_factor(ts: Seq<SpecToken>, i: nat, d: nat) -> Result<
    (SpecExpr, nat),
    ParseError,
>
    decreases toks_rem(ts, i), 3int,
{
    match spec_unary(ts, i, d) {
        Ok((e, k)) => match spec_factor_rest(ts, i + 1 + k, d, e) {
            Ok(p) => Ok((p.0, k + p.1)),
            Err(pe) => Err(pe),
        },
        Err(pe) => Err(pe),
    }
}

/// The left-associative fold of term operators onto `acc`, starting at `j`.
#[verifier::opaque]
pub open spec fn spec_term_rest(ts: Seq<SpecToken>, j: nat, d: nat, acc: SpecExpr) -> Result<
    (SpecExpr, nat),
    ParseError,
>
    decreases toks_rem(ts, j), 0int,
{
    if j < ts.len() && is_term_op(ts[j as int]) {
        match spec_factor(ts, j + 1, d) {
            Ok((rhs, k)) => {
                let acc2 = SpecExpr::Binary(Box::new(acc), ts[j as int], Box::new(rhs));
                match spec_term_rest(ts, j + 2 + k, d, acc2) {
                    Ok(p) => Ok((p.0, 2 + k + p.1)),
                    Err(pe) => Err(pe),
                }
            },
            Err(pe) => Err(pe),
        }
    } else {
        Ok((acc, 0))
    }
}

/// A parsed `term`, or the first error.
#[verifier::opaque]
pub open spec fn spec_term(ts: Seq<SpecToken>, i: nat, d: nat) -> Result<
    (SpecExpr, nat),
    ParseError,
>
    decreases toks_rem(ts, i), 4int,
{
    match spec_factor(ts, i, d) {
        Ok((e, k)) => match spec_term_rest(ts, i + 1 + k, d, e) {
            Ok(p) => Ok((p.0, k + p.1)),
            Err(pe) => Err(pe),
        },
        Err(pe) => Err(pe),
    }
}

/// The left-associative fold of comparison operators onto `acc`, starting at
/// `j`.
#[verifier::opaque]
pub open spec fn spec_comparison_rest(ts: Seq<SpecToken>, j: nat, d: nat, acc: SpecExpr) -> Result<
    (SpecExpr, nat),
    ParseError,
>
    decreases toks_rem(ts, j), 0int,
{
    if j < ts.len() && is_comparison_op(ts[j as int]) {
        match spec_term(ts, j + 1, d) {
            Ok((rhs, k)) => {
                let acc2 = SpecExpr::Binary(Box::new(acc), ts[j as int], Box::new(rhs));
                match spec_comparison_rest(ts, j + 2 + k, d, acc2) {
                    Ok(p) => Ok((p.0, 2 + k + p.1)),
                    Err(pe) => Err(pe),
                }
            },
            Err(pe) => Err(pe),
        }
    } else {
        Ok((acc, 0))
    }
}

/// A parsed `comparison`, or the first error.
#[verifier::opaque]
pub open spec fn spec_comparison(ts: Seq<SpecToken>, i: nat, d: nat) -> Result<
    (SpecExpr, nat),
    ParseError,
>
    decreases toks_rem(ts, i), 5int,
{
    match spec_term(ts, i, d) {
        Ok((e, k)) => match spec_comparison_rest(ts, i + 1 + k, d, e) {
            Ok(p) => Ok((p.0, k + p.1)),
            Err(pe) => Err(pe),
        },
        Err(pe) => Err(pe),
    }
}

/// The left-associative fold of equality operators onto `acc`, starting at
/// `j`.
#[verifier::opaque]
pub open spec fn spec_equality_rest(ts: Seq<SpecToken>, j: nat, d: nat, acc: SpecExpr) -> Result<
    (SpecExpr, nat),
    ParseError,
>
    decreases toks_rem(ts, j), 0int,
{
    if j < ts.len() && is_equality_op(ts[j as int]) {
        match spec_comparison(ts, j + 1, d) {
            Ok((rhs, k)) => {
                let acc2 = SpecExpr::Binary(Box::new(acc), ts[j as int], Box::new(rhs));
                match spec_equality_rest(ts, j + 2 + k, d, acc2) {
                    Ok(p) => Ok((p.0, 2 + k + p.1)),
                    Err(pe) => Err(pe),
                }
            },
            Err(pe) => Err(pe),
        }
    } else {
        Ok((acc, 0))
    }
}

/// A parsed `equality`, or the first error.
#[verifier::opaque]
pub open spec fn spec_equality(ts: Seq<SpecToken>, i: nat, d: nat) -> Result<
    (SpecExpr, nat),
    ParseError,
>
    decreases toks_rem(ts, i), 6int,
{
    match spec_comparison(ts, i, d) {
        Ok((e, k)) => match spec_equality_rest(ts, i + 1 + k, d, e) {
            Ok(p) => Ok((p.0, k + p.1)),
            Err(pe) => Err(pe),
        },
        Err(pe) => Err(pe),
    }
}

/// A parsed `expression`, or the first error.
#[verifier::opaque]
pub open spec fn spec_expression(ts: Seq<SpecToken>, i: nat, d: nat) -> Result<
    (SpecExpr, nat),
    ParseError,
>
    decreases toks_rem(ts, i), 7int,
{
    spec_equality(ts, i, d)
}

/// A parsed `statement`, or the first error.  Each statement starts with the
/// full nesting budget.
#[verifier::opaque]
pub open spec fn spec_statement(ts: Seq<SpecToken>, i: nat) -> Result<(SpecStmt, nat), ParseError>
    decreases toks_rem(ts, i), 8int,
{
    if i < ts.len() && ts[i as int] is Print {
        match spec_expression(ts, i + 1, MAX_NEST_DEPTH as nat) {
            Ok((e, k)) => {
                if i + 2 + k < ts.len() && ts[i as int + 2 + k] is Semicolon {
                    Ok((SpecStmt::Print(e), k + 2))
                } else {
                    Err(
                        ParseError {
                            kind: ParseErrorKind::ExpectedSemicolon,
                            at: (i + 2 + k) as usize,
                        },
                    )
                }
            },
            Err(pe) => Err(pe),
        }
    } else {
        match spec_expression(ts, i, MAX_NEST_DEPTH as nat) {
            Ok((e, k)) => {
                if i + 1 + k < ts.len() && ts[i as int + 1 + k] is Semicolon {
                    Ok((SpecStmt::Expression(e), k + 1))
                } else {
                    Err(
                        ParseError {
                            kind: ParseErrorKind::ExpectedSemicolon,
                            at: (i + 1 + k) as usize,
                        },
                    )
                }
            },
            Err(pe) => Err(pe),
        }
    }
}

/// The statements of the token sequence from `i` up to the end marker, or
/// the first error.
#[verifier::opaque]
pub open spec fn spec_program(ts: Seq<SpecToken>, i: nat) -> Result<Seq<SpecStmt>, ParseError>
    decreases toks_rem(ts, i), 9int,
{
    if i >= ts.len() {
        Err(ParseError { kind: ParseErrorKind::UnexpectedEnd, at: i as usize })
    } else if ts[i as int] is Eof {
        Ok(Seq::empty())
    } else {
        match spec_statement(ts, i) {
            Ok((st, k)) => match spec_program(ts, i + 1 + k) {
                Ok(rest) => Ok(seq![st] + rest),
                Err(pe) => Err(pe),
            },
            Err(pe) => Err(pe),
        }
    }
}

/// The statement sequence of a whole token sequence, which must reach the
/// end marker, or the first parse error.
pub open spec fn spec_parse_program(ts: Seq<SpecToken>) -> Result<Seq<SpecStmt>, ParseError> {
    spec_program(ts, 0)
}

/// The single expression parsed from the front of a token sequence (tokens
/// after it are ignored), or the first parse error.
pub open spec fn spec_parse_expression(ts: Seq<SpecToken>) -> Result<SpecExpr, ParseError> {
    match spec_expression(ts, 0, MAX_NEST_DEPTH as nat) {
        Ok(p) => Ok(p.0),
        Err(pe) => Err(pe),
    }
}

/// Whether `t` is an equality operator token.
fn is_equality_op_exec(t: &Token) -> (r: bool)
    ensures
        r == is_equality_op(t@),
{
    matches!(t, Token::BANG_EQUAL | Token::EQUAL_EQUAL)
}

/// Whether `t` is a comparison operator token.
fn is_comparison_op_exec(t: &Token) -> (r: bool)
    ensures
        r == is_comparison_op(t@),
{
    matches!(t, Token::GREATER | Token::GREATER_EQUAL | Token::LESS | Token::LESS_EQUAL)
}

/// Whether `t` is a term operator token.
fn is_term_op_exec(t: &Token) -> (r: bool)
    ensures
        r == is_term_op(t@),
{
    matches!(t, Token::PLUS | Token::MINUS)
}

/// Whether `t` is a unary operator token.
fn is_unary_op_exec(t: &Token) -> (r: bool)
    ensures
        r == (t@ is Minus || t@ is Bang),
{
    matches!(t, Token::MINUS | Token::BANG)
}

/// Whether `t` is a factor operator token.
fn is_factor_op_exec(t: &Token) -> (r: bool)
    ensures
        r == is_factor_op(t@),
{
    matches!(t, Token::STAR | Token::SLASH)
}

/// A fresh copy of a payload-free operator token.
fn op_copy(t: &Token) -> (r: Token)
    requires
        is_equality_op(t@) || is_comparison_op(t@) || is_term_op(t@) || is_factor_op(t@) || t@
            is Bang,
    ensures
        r@ == t@,
{
    match t {
        Token::BANG_EQUAL => Token::BANG_EQUAL,
        Token::EQUAL_EQUAL => Token::EQUAL_EQUAL,
        Token::GREATER => Token::GREATER,
        Token::GREATER_EQUAL => Token::GREATER_EQUAL,
        Token::LESS => Token::LESS,
        Token::LESS_EQUAL => Token::LESS_EQUAL,
        Token::PLUS => Token::PLUS,
        Token::MINUS => Token::MINUS,
        Token::STAR => Token::STAR,
        Token::SLASH => Token::SLASH,
        _ => Token::BANG,
    }
}

/// A parsed `primary`, exactly as [`spec_primary`] says.  On success the
/// returned index is just past the matched tokens.
#[verifier::loop_isolation(false)]
#[verifier::rlimit(100)]
#[verifier::spinoff_prover]
fn primary(toks: &Vec<Token>, i: usize, d: usize) -> (r: Result<(Expr, usize), ParseError>)
    requires
        i <= toks@.len(),
    ensures
        ({
            let ts = token_views(toks@);
            match r {
                Ok(p) => i < p.1 <= toks@.len() && spec_primary(ts, i as nat, d as nat) == Ok::<
                    (SpecExpr, nat),
                    ParseError,
                >((p.0@, (p.1 - i - 1) as nat)),
                Err(pe) => spec_primary(ts, i as nat, d as nat) == Err::<
                    (SpecExpr, nat),
                    ParseError,
                >(pe),
            }
        }),
    decreases toks@.len() - i, 1int,
{
    proof {
        reveal(spec_primary);
        reveal(spec_expression);
    }
    let ghost ts = token_views(toks@);
    let n = toks.len();
    if i >= n {
        return Err(ParseError { kind: ParseErrorKind::UnexpectedEnd, at: i });
    }
    proof {
        assert(ts[i as int] == toks@[i as int]@);
    }
    match &toks[i] {
        Token::NUMBER(num) => Ok((Expr::Number(*num), i + 1)),
        Token::STRING(st) => Ok((Expr::String(st.clone()), i + 1)),
        Token::TRUE => Ok((Expr::Boolean(true), i + 1)),
        Token::FALSE => Ok((Expr::Boolean(false), i + 1)),
        Token::NIL => Ok((Expr::Nil, i + 1)),
        Token::LEFT_PAREN => {
            if d == 0 {
                return Err(ParseError { kind: ParseErrorKind::TooDeep, at: i });
            }
            match expression(toks, i + 1, d - 1) {
                Ok(p) => {
                    let e = p.0;
                    let j = p.1;
                    if j < n && matches!(&toks[j], Token::RIGHT_PAREN) {
                        proof {
                            assert(ts[j as int] == toks@[j as int]@);
                        }
                        Ok((Expr::Grouping(Box::new(e)), j + 1))
                    } else {
                        proof {
                            if j < n {
                                assert(ts[j as int] == toks@[j as int]@);
                            }
                        }
                        Err(ParseError { kind: ParseErrorKind::ExpectedClosingParen, at: j })
                    }
                },
                Err(pe) => Err(pe),
            }
        },
        _ => Err(ParseError { kind: ParseErrorKind::ExpectedExpression, at: i }),
    }
}

/// A parsed `unary`, exactly as [`spec_unary`] says.
#[verifier::loop_isolation(false)]
fn unary(toks: &Vec<Token>, i: usize, d: usize) -> (r: Result<(Expr, usize), ParseError>)
    requires
        i <= toks@.len(),
    ensures
        ({
            let ts = token_views(toks@);
            match r {
                Ok(p) => i < p.1 <= toks@.len() && spec_unary(ts, i as nat, d as nat) == Ok::<
                    (SpecExpr, nat),
                    ParseError,
                >((p.0@, (p.1 - i - 1) as nat)),
                Err(pe) => spec_unary(ts, i as nat, d as nat) == Err::<
                    (SpecExpr, nat),
                    ParseError,
                >(pe),
            }
        }),
    decreases toks@.len() - i, 2int,
{
    proof {
        reveal(spec_unary);
        reveal(spec_primary);
    }
    let ghost ts = token_views(toks@);
    let n = toks.len();
    if i < n && is_unary_op_exec(&toks[i]) {
        proof {
            assert(ts[i as int] == toks@[i as int]@);
        }
        if d == 0 {
            return Err(ParseError { kind: ParseErrorKind::TooDeep, at: i });
        }
        let op = op_copy(&toks[i]);
        match unary(toks, i + 1, d - 1) {
            Ok(p) => Ok((Expr::Unary(op, Box::new(p.0)), p.1)),
            Err(pe) => Err(pe),
        }
    } else {
        proof {
            reveal(spec_unary);
            reveal(spec_primary);
            if i < n {
                assert(ts[i as int] == toks@[i as int]@);
            }
            assert(spec_unary(ts, i as nat, d as nat) == spec_primary(ts, i as nat, d as nat));
        }
        primary(toks, i, d)
    }
}

/// A parsed `factor`, exactly as [`spec_factor`] says: a `unary`, then a
/// left-associative fold of `*` and `/`.
#[verifier::loop_isolation(false)]
fn factor(toks: &Vec<Token>, i: usize, d: usize) -> (r: Result<(Expr, usize), ParseError>)
    requires
        i <= toks@.len(),
    ensures
        ({
            let ts = token_views(toks@);
            match r {
                Ok(p) => i < p.1 <= toks@.len() && spec_factor(ts, i as nat, d as nat) == Ok::<
                    (SpecExpr, nat),
                    ParseError,
                >((p.0@, (p.1 - i - 1) as nat)),
                Err(pe) => spec_factor(ts, i as nat, d as nat) == Err::<
                    (SpecExpr, nat),
                    ParseError,
                >(pe),
            }
        }),
    decreases toks@.len() - i, 3int,
{
    proof {
        reveal(spec_factor);
        reveal(spec_factor_rest);
        reveal(spec_unary);
    }
    let ghost ts = token_views(toks@);
    let n = toks.len();
    let first = unary(toks, i, d);
    let mut e: Expr;
    let mut j: usize;
    match first {
        Ok(p) => {
            e = p.0;
            j = p.1;
        },
        Err(pe) => {
            return Err(pe);
        },
    }
    while j < n && is_factor_op_exec(&toks[j])
        invariant
            i < j <= n,
            (match spec_factor_rest(ts, j as nat, d as nat, e@) {
                Ok(p) => spec_factor(ts, i as nat, d as nat) == Ok::<(SpecExpr, nat), ParseError>(
                    (p.0, (j - i - 1) as nat + p.1),
                ),
                Err(pe) => spec_factor(ts, i as nat, d as nat) == Err::<
                    (SpecExpr, nat),
                    ParseError,
                >(pe),
            }),
        decreases n - j,
    {
        proof {
            assert(ts[j as int] == toks@[j as int]@);
        }
        let op = op_copy(&toks[j]);
        match unary(toks, j + 1, d) {
            Ok(p) => {
                let ghost old_e = e@;
                let ghost k = (p.1 - j - 2) as nat;
                e = Expr::Binary(Box::new(e), op, Box::new(p.0));
                proof {
                    assert(e@ == SpecExpr::Binary(Box::new(old_e), ts[j as int], Box::new(p.0@)));
                }
                j = p.1;
            },
            Err(pe) => {
                return Err(pe);
            },
        }
    }
    proof {
        if j < n {
            assert(ts[j as int] == toks@[j as int]@);
        }
    }
    Ok((e, j))
}

/// A parsed `term`, exactly as [`spec_term`] says: a `factor`, then a
/// left-associative fold of `+` and `-`.
#[verifier::loop_isolation(false)]
#[verifier::rlimit(100)]
#[verifier::spinoff_prover]
fn term(toks: &Vec<Token>, i: usize, d: usize) -> (r: Result<(Expr, usize), ParseError>)
    requires
        i <= toks@.len(),
    ensures
        ({
            let ts = token_views(toks@);
            match r {
                Ok(p) => i < p.1 <= toks@.len() && spec_term(ts, i as nat, d as nat) == Ok::<
                    (SpecExpr, nat),
                    ParseError,
                >((p.0@, (p.1 - i - 1) as nat)),
                Err(pe) => spec_term(ts, i as nat, d as nat) == Err::<
                    (SpecExpr, nat),
                    ParseError,
                >(pe),
            }
        }),
    decreases toks@.len() - i, 4int,
{
    proof {
        reveal(spec_term);
        reveal(spec_term_rest);
        reveal(spec_factor);
    }
    let ghost ts = token_views(toks@);
    let n = toks.len();
    let first = factor(toks, i, d);
    let mut e: Expr;
    let mut j: usize;
    match first {
        Ok(p) => {
            e = p.0;
            j = p.1;
        },
        Err(pe) => {
            return Err(pe);
        },
    }
    while j < n && is_term_op_exec(&toks[j])
        invariant
            i < j <= n,
            (match spec_term_rest(ts, j as nat, d as nat, e@) {
                Ok(p) => spec_term(ts, i as nat, d as nat) == Ok::<(SpecExpr, nat), ParseError>(
                    (p.0, (j - i - 1) as nat + p.1),
                ),
                Err(pe) => spec_term(ts, i as nat, d as nat) == Err::<
                    (SpecExpr, nat),
                    ParseError,
                >(pe),
            }),
        decreases n - j,
    {
        proof {
            assert(ts[j as int] == toks@[j as int]@);
        }
        let op = op_copy(&toks[j]);
        match factor(toks, j + 1, d) {
            Ok(p) => {
                let ghost old_e = e@;
                e = Expr::Binary(Box::new(e), op, Box::new(p.0));
                proof {
                    assert(e@ == SpecExpr::Binary(Box::new(old_e), ts[j as int], Box::new(p.0@)));
                }
                j = p.1;
            },
            Err(pe) => {
                return Err(pe);
            },
        }
    }
    proof {
        if j < n {
            assert(ts[j as int] == toks@[j as int]@);
        }
    }
    Ok((e, j))
}

/// A parsed `comparison`, exactly as [`spec_comparison`] says: a `term`,
/// then a left-associative fold of `>`, `>=`, `<` and `<=`.
#[verifier::loop_isolation(false)]
#[verifier::rlimit(100)]
#[verifier::spinoff_prover]
fn comparison(toks: &Vec<Token>, i: usize, d: usize) -> (r: Result<(Expr, usize), ParseError>)
    requires
        i <= toks@.len(),
    ensures
        ({
            let ts = token_views(toks@);
            match r {
                Ok(p) => i < p.1 <= toks@.len() && spec_comparison(ts, i as nat, d as nat) == Ok::<
                    (SpecExpr, nat),
                    ParseError,
                >((p.0@, (p.1 - i - 1) as nat)),
                Err(pe) => spec_comparison(ts, i as nat, d as nat) == Err::<
                    (SpecExpr, nat),
                    ParseError,
                >(pe),
            }
        }),
    decreases toks@.len() - i, 5int,
{
    proof {
        reveal(spec_comparison);
        reveal(spec_comparison_rest);
        reveal(spec_term);
    }
    let ghost ts = token_views(toks@);
    let n = toks.len();
    let first = term(toks, i, d);
    let mut e: Expr;
    let mut j: usize;
    match first {
        Ok(p) => {
            e = p.0;
            j = p.1;
        },
        Err(pe) => {
            return Err(pe);
        },
    }
    while j < n && is_comparison_op_exec(&toks[j])
        invariant
            i < j <= n,
            (match spec_comparison_rest(ts, j as nat, d as nat, e@) {
                Ok(p) => spec_comparison(ts, i as nat, d as nat) == Ok::<
                    (SpecExpr, nat),
                    ParseError,
                >((p.0, (j - i - 1) as nat + p.1)),
                Err(pe) => spec_comparison(ts, i as nat, d as nat) == Err::<
                    (SpecExpr, nat),
                    ParseError,
                >(pe),
            }),
        decreases n - j,
    {
        proof {
            assert(ts[j as int] == toks@[j as int]@);
        }
        let op = op_copy(&toks[j]);
        match term(toks, j + 1, d) {
            Ok(p) => {
                let ghost old_e = e@;
                e = Expr::Binary(Box::new(e), op, Box::new(p.0));
                proof {
                    assert(e@ == SpecExpr::Binary(Box::new(old_e), ts[j as int], Box::new(p.0@)));
                }
                j = p.1;
            },
            Err(pe) => {
                return Err(pe);
            },
        }
    }
    proof {
        if j < n {
            assert(ts[j as int] == toks@[j as int]@);
        }
    }
    Ok((e, j))
}

/// A parsed `equality`, exactly as [`spec_equality`] says: a `comparison`,
/// then a left-associative fold of `!=` and `==`.
#[verifier::loop_isolation(false)]
#[verifier::rlimit(100)]
#[verifier::spinoff_prover]
fn equality(toks: &Vec<Token>, i: usize, d: usize) -> (r: Result<(Expr, usize), ParseError>)
    requires
        i <= toks@.len(),
    ensures
        ({
            let ts = token_views(toks@);
            match r {
                Ok(p) => i < p.1 <= toks@.len() && spec_equality(ts, i as nat, d as nat) == Ok::<
                    (SpecExpr, nat),
                    ParseError,
                >((p.0@, (p.1 - i - 1) as nat)),
                Err(pe) => spec_equality(ts, i as nat, d as nat) == Err::<
                    (SpecExpr, nat),
                    ParseError,
                >(pe),
            }
        }),
    decreases toks@.len() - i, 6int,
{
    proof {
        reveal(spec_equality);
        reveal(spec_equality_rest);
        reveal(spec_comparison);
    }
    let ghost ts = token_views(toks@);
    let n = toks.len();
    let first = comparison(toks, i, d);
    let mut e: Expr;
    let mut j: usize;
    match first {
        Ok(p) => {
            e = p.0;
            j = p.1;
        },
        Err(pe) => {
            return Err(pe);
        },
    }
    while j < n && is_equality_op_exec(&toks[j])
        invariant
            i < j <= n,
            (match spec_equality_rest(ts, j as nat, d as nat, e@) {
                Ok(p) => spec_equality(ts, i as nat, d as nat) == Ok::<(SpecExpr, nat), ParseError>(
                    (p.0, (j - i - 1) as nat + p.1),
                ),
                Err(pe) => spec_equality(ts, i as nat, d as nat) == Err::<
                    (SpecExpr, nat),
                    ParseError,
                >(pe),
            }),
        decreases n - j,
    {
        proof {
            assert(ts[j as int] == toks@[j as int]@);
        }
        let op = op_copy(&toks[j]);
        match comparison(toks, j + 1, d) {
            Ok(p) => {
                let ghost old_e = e@;
                e = Expr::Binary(Box::new(e), op, Box::new(p.0));
                proof {
                    assert(e@ == SpecExpr::Binary(Box::new(old_e), ts[j as int], Box::new(p.0@)));
                }
                j = p.1;
            },
            Err(pe) => {
                return Err(pe);
            },
        }
    }
    proof {
        if j < n {
            assert(ts[j as int] == toks@[j as int]@);
        }
    }
    Ok((e, j))
}

/// A parsed `expression`, exactly as [`spec_expression`] says.
#[verifier::loop_isolation(false)]
fn expression(toks: &Vec<Token>, i: usize, d: usize) -> (r: Result<(Expr, usize), ParseError>)
    requires
        i <= toks@.len(),
    ensures
        ({
            let ts = token_views(toks@);
            match r {
                Ok(p) => i < p.1 <= toks@.len() && spec_expression(ts, i as nat, d as nat) == Ok::<
                    (SpecExpr, nat),
                    ParseError,
                >((p.0@, (p.1 - i - 1) as nat)),
                Err(pe) => spec_expression(ts, i as nat, d as nat) == Err::<
                    (SpecExpr, nat),
                    ParseError,
                >(pe),
            }
        }),
    decreases toks@.len() - i, 7int,
{
    proof {
        reveal(spec_expression);
        reveal(spec_equality);
    }
    equality(toks, i, d)
}

/// A parsed `statement`, exactly as [`spec_statement`] says: a print
/// statement or a bare expression statement, ending in a semicolon.
#[verifier::rlimit(100)]
#[verifier::spinoff_prover]
fn statement(toks: &Vec<Token>, i: usize) -> (r: Result<(Stmt, usize), ParseError>)
    requires
        i <= toks@.len(),
    ensures
        ({
            let ts = token_views(toks@);
            match r {
                Ok(p) => i < p.1 <= toks@.len() && spec_statement(ts, i as nat) == Ok::<
                    (SpecStmt, nat),
                    ParseError,
                >((p.0@, (p.1 - i - 1) as nat)),
                Err(pe) => spec_statement(ts, i as nat) == Err::<(SpecStmt, nat), ParseError>(pe),
            }
        }),
{
    proof {
        reveal(spec_statement);
        reveal(spec_expression);
    }
    let ghost ts = token_views(toks@);
    let n = toks.len();
    if i < n && matches!(&toks[i], Token::PRINT) {
        proof {
            assert(ts[i as int] == toks@[i as int]@);
        }
        match expression(toks, i + 1, MAX_NEST_DEPTH) {
            Ok(p) => {
                let j = p.1;
                if j < n && matches!(&toks[j], Token::SEMICOLON) {
                    proof {
                        assert(ts[j as int] == toks@[j as int]@);
                    }
                    Ok((Stmt::Print(p.0), j + 1))
                } else {
                    proof {
                        if j < n {
                            assert(ts[j as int] == toks@[j as int]@);
                        }
                    }
                    Err(ParseError { kind: ParseErrorKind::ExpectedSemicolon, at: j })
                }
            },
            Err(pe) => Err(pe),
        }
    } else {
        proof {
            if i < n {
                assert(ts[i as int] == toks@[i as int]@);
            }
        }
        match expression(toks, i, MAX_NEST_DEPTH) {
            Ok(p) => {
                let j = p.1;
                if j < n && matches!(&toks[j], Token::SEMICOLON) {
                    proof {
                        assert(ts[j as int] == toks@[j as int]@);
                    }
                    Ok((Stmt::Expression(p.0), j + 1))
                } else {
                    proof {
                        if j < n {
                            assert(ts[j as int] == toks@[j as int]@);
                        }
                    }
                    Err(ParseError { kind: ParseErrorKind::ExpectedSemicolon, at: j })
                }
            },
            Err(pe) => Err(pe),
        }
    }
}

/// Parse a whole token sequence into its statement list, consuming
/// statements up to the end marker, exactly as [`spec_parse_program`] says.
#[verifier::loop_isolation(false)]
#[verifier::rlimit(100)]
#[verifier::spinoff_prover]
pub fn program(toks: &Vec<Token>) -> (r: Result<Vec<Stmt>, ParseError>)
    ensures
        match r {
            Ok(stmts) => spec_parse_program(token_views(toks@)) == Ok::<Seq<SpecStmt>, ParseError>(
                stmt_views(stmts@),
            ),
            Err(pe) => spec_parse_program(token_views(toks@)) == Err::<Seq<SpecStmt>, ParseError>(
                pe,
            ),
        },
{
    proof {
        reveal(spec_program);
        reveal(spec_statement);
    }
    let ghost ts = token_views(toks@);
    let n = toks.len();
    let mut stmts: Vec<Stmt> = Vec::new();
    let mut i: usize = 0;
    proof {
        assert(stmt_views(stmts@) =~= Seq::<SpecStmt>::empty());
    }
    loop
        invariant
            i <= n,
            (spec_program(ts, i as nat) matches Ok(rest) ==> spec_parse_program(ts) == Ok::<
                Seq<SpecStmt>,
                ParseError,
            >(stmt_views(stmts@) + rest)),
            (spec_program(ts, i as nat) matches Err(pe) ==> spec_parse_program(ts) == Err::<
                Seq<SpecStmt>,
                ParseError,
            >(pe)),
        decreases n - i,
    {
        if i >= n {
            return Err(ParseError { kind: ParseErrorKind::UnexpectedEnd, at: i });
        }
        proof {
            assert(ts[i as int] == toks@[i as int]@);
        }
        if matches!(&toks[i], Token::EOF) {
            proof {
                assert(stmt_views(stmts@) + Seq::<SpecStmt>::empty() =~= stmt_views(stmts@));
            }
            return Ok(stmts);
        }
        match statement(toks, i) {
            Ok(p) => {
                let ghost old_views = stmt_views(stmts@);
                let ghost sv = p.0@;
                stmts.push(p.0);
                proof {
                    assert(stmt_views(stmts@) =~= old_views.push(sv));
                    let next = spec_program(ts, p.1 as nat);
                    match next {
                        Ok(rest) => {
                            assert(old_views + (seq![sv] + rest) =~= old_views.push(sv) + rest);
                        },
                        Err(_) => {},
                    }
                }
                i = p.1;
            },
            Err(pe) => {
                return Err(pe);
            },
        }
    }
}

/// Parse the single expression at the front of a token sequence, exactly as
/// [`spec_parse_expression`] says.  Tokens after the expression are ignored.
pub fn parse(token_list: &Vec<Token>) -> (r: Result<Expr, ParseError>)
    ensures
        match r {
            Ok(e) => spec_parse_expression(token_views(token_list@)) == Ok::<SpecExpr, ParseError>(
                e@,
            ),
            Err(pe) => spec_parse_expression(token_views(token_list@)) == Err::<
                SpecExpr,
                ParseError,
            >(pe),
        },
{
    match expression(token_list, 0, MAX_NEST_DEPTH) {
        Ok(p) => Ok(p.0),
        Err(pe) => Err(pe),
    }
}

} // verus!
