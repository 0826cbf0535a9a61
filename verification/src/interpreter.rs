//! The evaluator: walks an expression tree to a runtime value and executes
//! statement semantics.
//!
//! Expression evaluation is pure.  Equality is defined only between values
//! of the same kind and is never an error; arithmetic and comparison require
//! number operands, except `+`, which also concatenates two strings; unary
//! `!` negates truthiness and is total.  The behaviour is fixed by
//! [`spec_eval`]; the executable evaluator is proven to return exactly what
//! it says.

use vstd::prelude::*;
use crate::num::{
    Num, NumError, spec_add, spec_sub, spec_mul, spec_div, spec_neg, num_lt, num_eq_val,
    num_add, num_sub, num_mul, num_div, num_neg, num_less, num_equal, spec_num_text,
    num_text_chars,
};
use crate::scanner::{Token, SpecToken, string_from_chars};
use crate::parser::{Expr, Stmt, SpecExpr, SpecStmt};
use vstd::string::StringExecFns;

verus! {

/// A runtime value.
#[derive(PartialEq, Debug, Clone)]
pub enum ValueType {
    /// A number.
    Number(Num),
    /// A boolean.
    Boolean(bool),
    /// An owned string.
    String(String),
    /// The absence value.
    Nil,
}

/// The mathematical form of a runtime value.
pub enum SpecVal {
    Number(Num),
    Boolean(bool),
    StrLit(Seq<char>),
    Nil,
}

impl View for ValueType {
    type V = SpecVal;

    open spec fn view(&self) -> SpecVal {
        match self {
            ValueType::Number(n) => SpecVal::Number(*n),
            ValueType::Boolean(b) => SpecVal::Boolean(*b),
            ValueType::String(s) => SpecVal::StrLit(s@),
            ValueType::Nil => SpecVal::Nil,
        }
    }
}

/// The kind of a runtime value, as reported in errors.
#[derive(PartialEq, Eq, Structural, Clone, Copy, Debug)]
pub enum ValueKind {
    /// A number.
    Number,
    /// A boolean.
    Boolean,
    /// A string.
    String,
    /// The absence value.
    Nil,
}

/// The operator named in a runtime error.
#[derive(PartialEq, Eq, Structural, Clone, Copy, Debug)]
pub enum OpSym {
    Plus,
    Minus,
    Star,
    Slash,
    Greater,
    GreaterEqual,
    Less,
    LessEqual,
}

/// A runtime error: the operator and the offending kinds or numeric fault.
#[derive(PartialEq, Eq, Structural, Clone, Copy, Debug)]
pub enum RuntimeError {
    /// A binary operator applied to an unsupported kind combination.
    BadBinaryOperands { op: OpSym, left: ValueKind, right: ValueKind },
    /// Unary minus applied to a value that is not a number.
    BadUnaryOperand { op: OpSym, operand: ValueKind },
    /// An exact decimal operation failed.
    Numeric { op: OpSym, err: NumError },
    /// A tree node whose operator token is not an operator.
    NotAnOperator,
    /// A number node outside canonical form.
    InvalidNumber,
}

/// The kind of a value.
pub open spec fn val_kind(v: SpecVal) -> ValueKind {
    match v {
        SpecVal::Number(_) => ValueKind::Number,
        SpecVal::Boolean(_) => ValueKind::Boolean,
        SpecVal::StrLit(_) => ValueKind::String,
        SpecVal::Nil => ValueKind::Nil,
    }
}

/// A number value is canonical; other values are unconstrained.
pub open spec fn val_wf(v: SpecVal) -> bool {
    match v {
        SpecVal::Number(n) => n.wf(),
        _ => true,
    }
}

/// Truthiness: only nil and false are falsy; every number and every string
/// is truthy.
pub open spec fn truthy(v: SpecVal) -> bool {
    match v {
        SpecVal::Nil => false,
        SpecVal::Boolean(b) => b,
        _ => true,
    }
}

/// Value equality: defined only between values of the same kind; numbers
/// compare as rationals, strings by content, and any cross-kind comparison
/// is unequal, never an error.
pub open spec fn vals_equal(a: SpecVal, b: SpecVal) -> bool {
    match (a, b) {
        (SpecVal::Nil, SpecVal::Nil) => true,
        (SpecVal::Number(x), SpecVal::Number(y)) => num_eq_val(x, y),
        (SpecVal::Boolean(x), SpecVal::Boolean(y)) => x == y,
        (SpecVal::StrLit(x), SpecVal::StrLit(y)) => x == y,
        _ => false,
    }
}

/// A binary operator applied to two values: the result value, or the runtime
/// error it raises.
pub open spec fn spec_apply_binary(op: SpecToken, l: SpecVal, r: SpecVal) -> Result<
    SpecVal,
    RuntimeError,
> {
    match op {
        SpecToken::Star => match (l, r) {
            (SpecVal::Number(x), SpecVal::Number(y)) => match spec_mul(x, y) {
                Ok(n) => Ok(SpecVal::Number(n)),
                Err(ne) => Err(RuntimeError::Numeric { op: OpSym::Star, err: ne }),
            },
            _ => Err(
                RuntimeError::BadBinaryOperands {
                    op: OpSym::Star,
                    left: val_kind(l),
                    right: val_kind(r),
                },
            ),
        },
        SpecToken::Slash => match (l, r) {
            (SpecVal::Number(x), SpecVal::Number(y)) => match spec_div(x, y) {
                Ok(n) => Ok(SpecVal::Number(n)),
                Err(ne) => Err(RuntimeError::Numeric { op: OpSym::Slash, err: ne }),
            },
            _ => Err(
                RuntimeError::BadBinaryOperands {
                    op: OpSym::Slash,
                    left: val_kind(l),
                    right: val_kind(r),
                },
            ),
        },
        SpecToken::Minus => match (l, r) {
            (SpecVal::Number(x), SpecVal::Number(y)) => match spec_sub(x, y) {
                Ok(n) => Ok(SpecVal::Number(n)),
                Err(ne) => Err(RuntimeError::Numeric { op: OpSym::Minus, err: ne }),
            },
            _ => Err(
                RuntimeError::BadBinaryOperands {
                    op: OpSym::Minus,
                    left: val_kind(l),
                    right: val_kind(r),
                },
            ),
        },
        SpecToken::Plus => match (l, r) {
            (SpecVal::Number(x), SpecVal::Number(y)) => match spec_add(x, y) {
                Ok(n) => Ok(SpecVal::Number(n)),
                Err(ne) => Err(RuntimeError::Numeric { op: OpSym::Plus, err: ne }),
            },
            (SpecVal::StrLit(x), SpecVal::StrLit(y)) => Ok(SpecVal::StrLit(x + y)),
            _ => Err(
                RuntimeError::BadBinaryOperands {
                    op: OpSym::Plus,
                    left: val_kind(l),
                    right: val_kind(r),
                },
            ),
        },
        SpecToken::Greater => match (l, r) {
            (SpecVal::Number(x), SpecVal::Number(y)) => Ok(SpecVal::Boolean(num_lt(y, x))),
            _ => Err(
                RuntimeError::BadBinaryOperands {
                    op: OpSym::Greater,
                    left: val_kind(l),
                    right: val_kind(r),
                },
            ),
        },
        SpecToken::GreaterEqual => match (l, r) {
            (SpecVal::Number(x), SpecVal::Number(y)) => Ok(SpecVal::Boolean(!num_lt(x, y))),
            _ => Err(
                RuntimeError::BadBinaryOperands {
                    op: OpSym::GreaterEqual,
                    left: val_kind(l),
                    right: val_kind(r),
                },
            ),
        },
        SpecToken::Less => match (l, r) {
            (SpecVal::Number(x), SpecVal::Number(y)) => Ok(SpecVal::Boolean(num_lt(x, y))),
            _ => Err(
                RuntimeError::BadBinaryOperands {
                    op: OpSym::Less,
                    left: val_kind(l),
                    right: val_kind(r),
                },
            ),
        },
        SpecToken::LessEqual => match (l, r) {
            (SpecVal::Number(x), SpecVal::Number(y)) => Ok(SpecVal::Boolean(!num_lt(y, x))),
            _ => Err(
                RuntimeError::BadBinaryOperands {
                    op: OpSym::LessEqual,
                    left: val_kind(l),
                    right: val_kind(r),
                },
            ),
        },
        SpecToken::BangEqual => Ok(SpecVal::Boolean(!vals_equal(l, r))),
        SpecToken::EqualEqual => Ok(SpecVal::Boolean(vals_equal(l, r))),
        _ => Err(RuntimeError::NotAnOperator),
    }
}

/// A unary operator applied to a value.  `-` requires a number; `!` negates
/// truthiness and is total.
pub open spec fn spec_apply_unary(op: SpecToken, v: SpecVal) -> Result<SpecVal, RuntimeError> {
    match op {
        SpecToken::Minus => match v {
            SpecVal::Number(n) => Ok(SpecVal::Number(spec_neg(n))),
            _ => Err(RuntimeError::BadUnaryOperand { op: OpSym::Minus, operand: val_kind(v) }),
        },
        SpecToken::Bang => Ok(SpecVal::Boolean(!truthy(v))),
        _ => Err(RuntimeError::NotAnOperator),
    }
}

/// The value of an expression, or the first runtime error raised while
/// evaluating it: operands left to right, sub-expressions before operators,
/// a grouping transparently.
pub open spec fn spec_eval(e: SpecExpr) -> Result<SpecVal, RuntimeError>
    decreases e,
{
    match e {
        SpecExpr::Binary(l, op, r) => match spec_eval(*l) {
            Ok(lv) => match spec_eval(*r) {
                Ok(rv) => spec_apply_binary(op, lv, rv),
                Err(er) => Err(er),
            },
            Err(er) => Err(er),
        },
        SpecExpr::Unary(op, inner) => match spec_eval(*inner) {
            Ok(v) => spec_apply_unary(op, v),
            Err(er) => Err(er),
        },
        SpecExpr::Grouping(inner) => spec_eval(*inner),
        SpecExpr::StrLit(t) => Ok(SpecVal::StrLit(t)),
        SpecExpr::Number(n) => if n.wf() {
            Ok(SpecVal::Number(n))
        } else {
            Err(RuntimeError::InvalidNumber)
        },
        SpecExpr::Boolean(b) => Ok(SpecVal::Boolean(b)),
        SpecExpr::Nil => Ok(SpecVal::Nil),
    }
}

/// Grouping is value-transparent: a parenthesized expression evaluates to
/// exactly the value of the expression inside it, and raises exactly the
/// same error if one is raised.
pub proof fn lemma_grouping_transparent(e: SpecExpr)
    ensures
        spec_eval(SpecExpr::Grouping(Box::new(e))) == spec_eval(e),
{
}

/// A successful evaluation yields a canonical value.
pub proof fn lemma_eval_wf(e: SpecExpr)
    ensures
        spec_eval(e) matches Ok(v) ==> val_wf(v),
    decreases e,
{
    crate::num::lemma_strip_val(0, 0);
    match e {
        SpecExpr::Binary(l, op, r) => {
            lemma_eval_wf(*l);
            lemma_eval_wf(*r);
            if spec_eval(*l) is Ok && spec_eval(*r) is Ok {
                lemma_apply_binary_wf(op, spec_eval(*l).unwrap(), spec_eval(*r).unwrap());
            }
        },
        SpecExpr::Unary(op, inner) => {
            lemma_eval_wf(*inner);
        },
        SpecExpr::Grouping(inner) => {
            lemma_eval_wf(*inner);
        },
        _ => {},
    }
}

/// A successful binary application on canonical values yields a canonical
/// value.
pub proof fn lemma_apply_binary_wf(op: SpecToken, l: SpecVal, r: SpecVal)
    requires
        val_wf(l),
        val_wf(r),
    ensures
        spec_apply_binary(op, l, r) matches Ok(v) ==> val_wf(v),
{
    match (l, r) {
        (SpecVal::Number(x), SpecVal::Number(y)) => {
            lemma_norm_wf(x, y);
        },
        _ => {},
    }
}

/// The normalized results of the arithmetic operations are canonical.
proof fn lemma_norm_wf(x: Num, y: Num)
    ensures
        spec_add(x, y) matches Ok(n) ==> n.wf(),
        spec_sub(x, y) matches Ok(n) ==> n.wf(),
        spec_mul(x, y) matches Ok(n) ==> n.wf(),
        spec_div(x, y) matches Ok(n) ==> n.wf(),
{
    let sadd = x.sval() * crate::num::p10(y.scale as nat) + y.sval() * crate::num::p10(
        x.scale as nat,
    );
    let ssub = x.sval() * crate::num::p10(spec_neg(y).scale as nat) + spec_neg(y).sval()
        * crate::num::p10(x.scale as nat);
    let smul = x.sval() * y.sval();
    if sadd < 0 {
        crate::num::lemma_strip_val((-sadd) as nat, (x.scale + y.scale) as nat);
    } else {
        crate::num::lemma_strip_val(sadd as nat, (x.scale + y.scale) as nat);
    }
    if ssub < 0 {
        crate::num::lemma_strip_val((-ssub) as nat, (x.scale + spec_neg(y).scale) as nat);
    } else {
        crate::num::lemma_strip_val(ssub as nat, (x.scale + spec_neg(y).scale) as nat);
    }
    if smul < 0 {
        crate::num::lemma_strip_val((-smul) as nat, (x.scale + y.scale) as nat);
    } else {
        crate::num::lemma_strip_val(smul as nat, (x.scale + y.scale) as nat);
    }
    if y.mag != 0 && x.scale <= crate::num::SCALE_MAX + y.scale {
        let e = (crate::num::SCALE_MAX + y.scale - x.scale) as nat;
        crate::num::lemma_p10_pos(e);
        vstd::arithmetic::mul::lemma_mul_nonnegative(x.mag as int, crate::num::p10(e));
        vstd::arithmetic::div_mod::lemma_div_pos_is_pos(
            x.mag as int * crate::num::p10(e),
            y.mag as int,
        );
        let q = (x.mag as int * crate::num::p10(e)) / (y.mag as int);
        crate::num::lemma_strip_val(q as nat, crate::num::SCALE_MAX as nat);
    }
}

/// The kind of a value.
fn val_kind_exec(v: &ValueType) -> (r: ValueKind)
    ensures
        r == val_kind(v@),
{
    match v {
        ValueType::Number(_) => ValueKind::Number,
        ValueType::Boolean(_) => ValueKind::Boolean,
        ValueType::String(_) => ValueKind::String,
        ValueType::Nil => ValueKind::Nil,
    }
}

/// Whether a value is truthy, as [`truthy`] says.
fn is_truthy(v: &ValueType) -> (r: bool)
    ensures
        r == truthy(v@),
{
    match v {
        ValueType::Nil => false,
        ValueType::Boolean(b) => *b,
        _ => true,
    }
}

/// Whether two values are equal, as [`vals_equal`] says.
fn is_equal(left: &ValueType, right: &ValueType) -> (r: bool)
    requires
        val_wf(left@),
        val_wf(right@),
    ensures
        r == vals_equal(left@, right@),
{
    match (left, right) {
        (ValueType::Nil, ValueType::Nil) => true,
        (ValueType::Number(x), ValueType::Number(y)) => num_equal(*x, *y),
        (ValueType::Boolean(x), ValueType::Boolean(y)) => *x == *y,
        (ValueType::String(x), ValueType::String(y)) => *x == *y,
        _ => false,
    }
}

/// Apply a binary operator to two evaluated operands, as
/// [`spec_apply_binary`] says.
fn binary_funct(operation: &Token, left: ValueType, right: ValueType) -> (r: Result<
    ValueType,
    RuntimeError,
>)
    requires
        val_wf(left@),
        val_wf(right@),
    ensures
        ({
            match r {
                Ok(v) => spec_apply_binary(operation@, left@, right@) == Ok::<
                    SpecVal,
                    RuntimeError,
                >(v@),
                Err(er) => spec_apply_binary(operation@, left@, right@) == Err::<
                    SpecVal,
                    RuntimeError,
                >(er),
            }
        }),
{
    match operation {
        Token::STAR => match (left, right) {
            (ValueType::Number(x), ValueType::Number(y)) => match num_mul(x, y) {
                Ok(n) => Ok(ValueType::Number(n)),
                Err(ne) => Err(RuntimeError::Numeric { op: OpSym::Star, err: ne }),
            },
            (a, b) => Err(
                RuntimeError::BadBinaryOperands {
                    op: OpSym::Star,
                    left: val_kind_exec(&a),
                    right: val_kind_exec(&b),
                },
            ),
        },
        Token::SLASH => match (left, right) {
            (ValueType::Number(x), ValueType::Number(y)) => match num_div(x, y) {
                Ok(n) => Ok(ValueType::Number(n)),
                Err(ne) => Err(RuntimeError::Numeric { op: OpSym::Slash, err: ne }),
            },
            (a, b) => Err(
                RuntimeError::BadBinaryOperands {
                    op: OpSym::Slash,
                    left: val_kind_exec(&a),
                    right: val_kind_exec(&b),
                },
            ),
        },
        Token::MINUS => match (left, right) {
            (ValueType::Number(x), ValueType::Number(y)) => match num_sub(x, y) {
                Ok(n) => Ok(ValueType::Number(n)),
                Err(ne) => Err(RuntimeError::Numeric { op: OpSym::Minus, err: ne }),
            },
            (a, b) => Err(
                RuntimeError::BadBinaryOperands {
                    op: OpSym::Minus,
                    left: val_kind_exec(&a),
                    right: val_kind_exec(&b),
                },
            ),
        },
        Token::PLUS => match (left, right) {
            (ValueType::Number(x), ValueType::Number(y)) => match num_add(x, y) {
                Ok(n) => Ok(ValueType::Number(n)),
                Err(ne) => Err(RuntimeError::Numeric { op: OpSym::Plus, err: ne }),
            },
            (ValueType::String(x), ValueType::String(y)) => Ok(
                ValueType::String(x.concat(y.as_str())),
            ),
            (a, b) => Err(
                RuntimeError::BadBinaryOperands {
                    op: OpSym::Plus,
                    left: val_kind_exec(&a),
                    right: val_kind_exec(&b),
                },
            ),
        },
        Token::GREATER => match (left, right) {
            (ValueType::Number(x), ValueType::Number(y)) => Ok(
                ValueType::Boolean(num_less(y, x)),
            ),
            (a, b) => Err(
                RuntimeError::BadBinaryOperands {
                    op: OpSym::Greater,
                    left: val_kind_exec(&a),
                    right: val_kind_exec(&b),
                },
            ),
        },
        Token::GREATER_EQUAL => match (left, right) {
            (ValueType::Number(x), ValueType::Number(y)) => Ok(
                ValueType::Boolean(!num_less(x, y)),
            ),
            (a, b) => Err(
                RuntimeError::BadBinaryOperands {
                    op: OpSym::GreaterEqual,
                    left: val_kind_exec(&a),
                    right: val_kind_exec(&b),
                },
            ),
        },
        Token::LESS => match (left, right) {
            (ValueType::Number(x), ValueType::Number(y)) => Ok(ValueType::Boolean(num_less(x, y))),
            (a, b) => Err(
                RuntimeError::BadBinaryOperands {
                    op: OpSym::Less,
                    left: val_kind_exec(&a),
                    right: val_kind_exec(&b),
                },
            ),
        },
        Token::LESS_EQUAL => match (left, right) {
            (ValueType::Number(x), ValueType::Number(y)) => Ok(
                ValueType::Boolean(!num_less(y, x)),
            ),
            (a, b) => Err(
                RuntimeError::BadBinaryOperands {
                    op: OpSym::LessEqual,
                    left: val_kind_exec(&a),
                    right: val_kind_exec(&b),
                },
            ),
        },
        Token::BANG_EQUAL => Ok(ValueType::Boolean(!is_equal(&left, &right))),
        Token::EQUAL_EQUAL => Ok(ValueType::Boolean(is_equal(&left, &right))),
        _ => Err(RuntimeError::NotAnOperator),
    }
}

/// Apply a unary operator to an evaluated operand, as [`spec_apply_unary`]
/// says.
fn unary_funct(operation: &Token, val: ValueType) -> (r: Result<ValueType, RuntimeError>)
    requires
        val_wf(val@),
    ensures
        ({
            match r {
                Ok(v) => spec_apply_unary(operation@, val@) == Ok::<SpecVal, RuntimeError>(v@),
                Err(er) => spec_apply_unary(operation@, val@) == Err::<SpecVal, RuntimeError>(er),
            }
        }),
{
    match operation {
        Token::MINUS => match val {
            ValueType::Number(n) => Ok(ValueType::Number(num_neg(n))),
            v => Err(
                RuntimeError::BadUnaryOperand { op: OpSym::Minus, operand: val_kind_exec(&v) },
            ),
        },
        Token::BANG => Ok(ValueType::Boolean(!is_truthy(&val))),
        _ => Err(RuntimeError::NotAnOperator),
    }
}

/// Evaluate an expression tree to a runtime value, or to the first runtime
/// error, exactly as [`spec_eval`] says.  On success the value is canonical.
pub fn evaluate(expression_tree: &Expr) -> (r: Result<ValueType, RuntimeError>)
    ensures
        ({
            match r {
                Ok(v) => spec_eval(expression_tree@) == Ok::<SpecVal, RuntimeError>(v@) && val_wf(
                    v@,
                ),
                Err(er) => spec_eval(expression_tree@) == Err::<SpecVal, RuntimeError>(er),
            }
        }),
    decreases *expression_tree,
{
    match expression_tree {
        Expr::Binary(l, op, r) => {
            let lv = match evaluate(l) {
                Ok(v) => v,
                Err(er) => {
                    return Err(er);
                },
            };
            let rv = match evaluate(r) {
                Ok(v) => v,
                Err(er) => {
                    return Err(er);
                },
            };
            let ghost lvv = lv@;
            let ghost rvv = rv@;
            let out = binary_funct(op, lv, rv);
            proof {
                lemma_apply_binary_wf(op@, lvv, rvv);
            }
            out
        },
        Expr::Unary(op, inner) => {
            let v = match evaluate(inner) {
                Ok(v) => v,
                Err(er) => {
                    return Err(er);
                },
            };
            unary_funct(op, v)
        },
        Expr::Grouping(inner) => evaluate(inner),
        Expr::String(s) => Ok(ValueType::String(s.clone())),
        Expr::Number(n) => {
            if n.mag <= crate::num::MANT_MAX && n.scale <= crate::num::SCALE_MAX && (n.scale == 0
                || n.mag % 10 != 0) && (n.mag != 0 || (n.scale == 0 && !n.neg)) {
                Ok(ValueType::Number(*n))
            } else {
                Err(RuntimeError::InvalidNumber)
            }
        },
        Expr::Boolean(b) => Ok(ValueType::Boolean(*b)),
        Expr::Nil => Ok(ValueType::Nil),
    }
}

/// The display text of a value: `Nil` for nil, `true`/`false` for booleans,
/// canonical decimal text for numbers, the raw content for strings.
pub open spec fn spec_stringify(v: SpecVal) -> Seq<char> {
    match v {
        SpecVal::Nil => seq!['N', 'i', 'l'],
        SpecVal::Boolean(b) => if b {
            seq!['t', 'r', 'u', 'e']
        } else {
            seq!['f', 'a', 'l', 's', 'e']
        },
        SpecVal::Number(n) => spec_num_text(n),
        SpecVal::StrLit(t) => t,
    }
}

/// The display text of a value, as [`spec_stringify`] says.
pub fn stringify_valuetype(val: &ValueType) -> (s: String)
    requires
        val_wf(val@),
    ensures
        s@ == spec_stringify(val@),
{
    match val {
        ValueType::Boolean(b) => {
            if *b {
                let s = String::from_str("true");
                proof {
                    reveal_strlit("true");
                    assert(s@ =~= seq!['t', 'r', 'u', 'e']);
                }
                s
            } else {
                let s = String::from_str("false");
                proof {
                    reveal_strlit("false");
                    assert(s@ =~= seq!['f', 'a', 'l', 's', 'e']);
                }
                s
            }
        },
        ValueType::Nil => {
            let s = String::from_str("Nil");
            proof {
                reveal_strlit("Nil");
                assert(s@ =~= seq!['N', 'i', 'l']);
            }
            s
        },
        ValueType::Number(n) => {
            let chars = num_text_chars(*n);
            string_from_chars(&chars)
        },
        ValueType::String(s) => s.clone(),
    }
}

/// What executing one statement yields: no text for an expression
/// statement, the display text for a print statement, or the runtime error
/// raised by its expression.
pub open spec fn spec_exec_stmt(st: SpecStmt) -> Result<Option<Seq<char>>, RuntimeError> {
    match st {
        SpecStmt::Expression(e) => match spec_eval(e) {
            Ok(_) => Ok(None),
            Err(er) => Err(er),
        },
        SpecStmt::Print(e) => match spec_eval(e) {
            Ok(v) => Ok(Some(spec_stringify(v))),
            Err(er) => Err(er),
        },
    }
}

/// Execute one statement: evaluate its expression, and for a print
/// statement hand back the display text to emit, as [`spec_exec_stmt`]
/// says.
pub fn stmt_eval(statement: &Stmt) -> (r: Result<Option<String>, RuntimeError>)
    ensures
        ({
            match r {
                Ok(Some(s)) => spec_exec_stmt(statement@) == Ok::<
                    Option<Seq<char>>,
                    RuntimeError,
                >(Some(s@)),
                Ok(None) => spec_exec_stmt(statement@) == Ok::<Option<Seq<char>>, RuntimeError>(
                    None,
                ),
                Err(er) => spec_exec_stmt(statement@) == Err::<
                    Option<Seq<char>>,
                    RuntimeError,
                >(er),
            }
        }),
{
    match statement {
        Stmt::Expression(e) => match evaluate(e) {
            Ok(_) => Ok(None),
            Err(er) => Err(er),
        },
        Stmt::Print(e) => match evaluate(e) {
            Ok(v) => Ok(Some(stringify_valuetype(&v))),
            Err(er) => Err(er),
        },
    }
}

} // verus!
