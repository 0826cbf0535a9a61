use rlox::interpreter::{
    evaluate, stmt_eval, stringify_valuetype, OpSym, RuntimeError, ValueKind, ValueType,
};
use rlox::num::{Num, NumError};
use rlox::parser::{Expr, Stmt};
use rlox::run;
use rlox::scanner::Token;

fn num(mag: u64, scale: u32) -> Num {
    Num { neg: false, mag, scale }
}

fn neg_num(mag: u64, scale: u32) -> Num {
    Num { neg: true, mag, scale }
}

#[test]
fn eval_bang_true_is_false() {
    let e = Expr::Unary(Token::BANG, Box::new(Expr::Boolean(true)));
    assert_eq!(evaluate(&e).unwrap(), ValueType::Boolean(false));
}

#[test]
fn eval_bang_is_total_over_all_kinds() {
    // only nil and false are falsy; numbers (even zero) and strings (even
    // empty) are truthy
    let cases = vec![
        (Expr::Nil, true),
        (Expr::Boolean(false), true),
        (Expr::Boolean(true), false),
        (Expr::Number(num(0, 0)), false),
        (Expr::Number(num(5, 0)), false),
        (Expr::String(String::new()), false),
        (Expr::String(String::from("x")), false),
    ];
    for (inner, expected) in cases {
        let e = Expr::Unary(Token::BANG, Box::new(inner));
        assert_eq!(evaluate(&e).unwrap(), ValueType::Boolean(expected));
    }
}

#[test]
fn eval_number_plus_string_is_type_error() {
    let e = Expr::Binary(
        Box::new(Expr::Number(num(1, 0))),
        Token::PLUS,
        Box::new(Expr::String(String::from("a"))),
    );
    assert_eq!(
        evaluate(&e),
        Err(RuntimeError::BadBinaryOperands {
            op: OpSym::Plus,
            left: ValueKind::Number,
            right: ValueKind::String,
        })
    );
}

#[test]
fn eval_string_concatenation() {
    let e = Expr::Binary(
        Box::new(Expr::String(String::from("a"))),
        Token::PLUS,
        Box::new(Expr::String(String::from("b"))),
    );
    assert_eq!(evaluate(&e).unwrap(), ValueType::String(String::from("ab")));
}

#[test]
fn eval_nil_equals_nil() {
    let e = Expr::Binary(Box::new(Expr::Nil), Token::EQUAL_EQUAL, Box::new(Expr::Nil));
    assert_eq!(evaluate(&e).unwrap(), ValueType::Boolean(true));
}

#[test]
fn eval_cross_kind_equality_is_false_not_error() {
    let e = Expr::Binary(
        Box::new(Expr::Number(num(1, 0))),
        Token::EQUAL_EQUAL,
        Box::new(Expr::String(String::from("1"))),
    );
    assert_eq!(evaluate(&e).unwrap(), ValueType::Boolean(false));
    let ne = Expr::Binary(
        Box::new(Expr::Number(num(1, 0))),
        Token::BANG_EQUAL,
        Box::new(Expr::String(String::from("1"))),
    );
    assert_eq!(evaluate(&ne).unwrap(), ValueType::Boolean(true));
}

#[test]
fn eval_grouping_is_value_transparent() {
    let inner = Expr::Binary(
        Box::new(Expr::Number(num(2, 0))),
        Token::PLUS,
        Box::new(Expr::Number(num(3, 0))),
    );
    let grouped = Expr::Grouping(Box::new(Expr::Binary(
        Box::new(Expr::Number(num(2, 0))),
        Token::PLUS,
        Box::new(Expr::Number(num(3, 0))),
    )));
    assert_eq!(evaluate(&inner), evaluate(&grouped));
    assert_eq!(evaluate(&grouped).unwrap(), ValueType::Number(num(5, 0)));
}

#[test]
fn eval_arithmetic_exact_decimals() {
    // 0.1 + 0.2 is exactly 0.3 in the exact decimal model
    let outcome = run(&String::from("print 0.1 + 0.2;")).unwrap();
    assert_eq!(outcome.outputs, vec![String::from("0.3")]);
    assert_eq!(outcome.error, None);

    let outcome2 = run(&String::from("print 2 * 3.5;")).unwrap();
    assert_eq!(outcome2.outputs, vec![String::from("7")]);

    let outcome3 = run(&String::from("print 1 - 2;")).unwrap();
    assert_eq!(outcome3.outputs, vec![String::from("-1")]);

    let outcome4 = run(&String::from("print 1 / 4;")).unwrap();
    assert_eq!(outcome4.outputs, vec![String::from("0.25")]);
}

#[test]
fn eval_comparisons() {
    let outcome = run(&String::from(
        "print 1 < 2; print 2 <= 2; print 3 > 4; print 0.5 >= 0.25;",
    ))
    .unwrap();
    assert_eq!(
        outcome.outputs,
        vec![
            String::from("true"),
            String::from("true"),
            String::from("false"),
            String::from("true")
        ]
    );
    assert_eq!(outcome.error, None);
}

#[test]
fn eval_unary_minus_requires_number() {
    let e = Expr::Unary(Token::MINUS, Box::new(Expr::String(String::from("a"))));
    assert_eq!(
        evaluate(&e),
        Err(RuntimeError::BadUnaryOperand {
            op: OpSym::Minus,
            operand: ValueKind::String,
        })
    );
    let ok = Expr::Unary(Token::MINUS, Box::new(Expr::Number(num(25, 1))));
    assert_eq!(evaluate(&ok).unwrap(), ValueType::Number(neg_num(25, 1)));
}

#[test]
fn eval_division_by_zero_is_error() {
    let outcome = run(&String::from("1 / 0;")).unwrap();
    assert_eq!(
        outcome.error,
        Some(RuntimeError::Numeric {
            op: OpSym::Slash,
            err: NumError::DivideByZero,
        })
    );
}

#[test]
fn eval_inexact_division_is_error() {
    let outcome = run(&String::from("1 / 3;")).unwrap();
    assert_eq!(
        outcome.error,
        Some(RuntimeError::Numeric {
            op: OpSym::Slash,
            err: NumError::NotExact,
        })
    );
}

#[test]
fn eval_overflowing_multiplication_is_error() {
    let outcome = run(&String::from("999999999999999999 * 10;")).unwrap();
    assert_eq!(
        outcome.error,
        Some(RuntimeError::Numeric {
            op: OpSym::Star,
            err: NumError::OutOfRange,
        })
    );
}

#[test]
fn stringify_each_kind() {
    assert_eq!(stringify_valuetype(&ValueType::Nil), "Nil");
    assert_eq!(stringify_valuetype(&ValueType::Boolean(true)), "true");
    assert_eq!(stringify_valuetype(&ValueType::Boolean(false)), "false");
    assert_eq!(
        stringify_valuetype(&ValueType::String(String::from("hi"))),
        "hi"
    );
    assert_eq!(stringify_valuetype(&ValueType::Number(num(0, 0))), "0");
    assert_eq!(stringify_valuetype(&ValueType::Number(num(11, 1))), "1.1");
    assert_eq!(stringify_valuetype(&ValueType::Number(num(1, 2))), "0.01");
    assert_eq!(
        stringify_valuetype(&ValueType::Number(neg_num(15, 1))),
        "-1.5"
    );
}

#[test]
fn stmt_eval_print_yields_text_expression_yields_none() {
    let print_stmt = Stmt::Print(Expr::Number(num(42, 0)));
    assert_eq!(stmt_eval(&print_stmt).unwrap(), Some(String::from("42")));
    let expr_stmt = Stmt::Expression(Expr::Number(num(42, 0)));
    assert_eq!(stmt_eval(&expr_stmt).unwrap(), None);
}

#[test]
fn run_executes_statements_in_order_and_stops_at_first_error() {
    let outcome = run(&String::from("print 1; print 2;")).unwrap();
    assert_eq!(
        outcome.outputs,
        vec![String::from("1"), String::from("2")]
    );
    assert_eq!(outcome.error, None);

    let stopped = run(&String::from("print 1; 1 + nil; print 2;")).unwrap();
    assert_eq!(stopped.outputs, vec![String::from("1")]);
    assert_eq!(
        stopped.error,
        Some(RuntimeError::BadBinaryOperands {
            op: OpSym::Plus,
            left: ValueKind::Number,
            right: ValueKind::Nil,
        })
    );
}

#[test]
fn run_reports_stage_errors() {
    assert!(matches!(
        run(&String::from("\"unterminated")),
        Err(rlox::RunError::Lex(_))
    ));
    assert!(matches!(
        run(&String::from("(1 + 2;")),
        Err(rlox::RunError::Parse(_))
    ));
}

#[test]
fn run_prints_string_content_unquoted() {
    let outcome = run(&String::from("print \"a\" + \"b\";")).unwrap();
    assert_eq!(outcome.outputs, vec![String::from("ab")]);
    assert_eq!(outcome.error, None);
}

#[test]
fn eval_comparison_on_non_numbers_is_type_error() {
    let outcome = run(&String::from("\"a\" < \"b\";")).unwrap();
    assert_eq!(
        outcome.error,
        Some(RuntimeError::BadBinaryOperands {
            op: OpSym::Less,
            left: ValueKind::String,
            right: ValueKind::String,
        })
    );
}

#[test]
fn eval_equality_of_equal_decimals_in_different_spellings() {
    // 1.10 and 1.1 lex to the same canonical number
    let outcome = run(&String::from("print 1.10 == 1.1; print 0.5 == 0.50;")).unwrap();
    assert_eq!(
        outcome.outputs,
        vec![String::from("true"), String::from("true")]
    );
}

#[test]
fn eval_double_negation() {
    let outcome = run(&String::from("print --3; print !!true;")).unwrap();
    assert_eq!(
        outcome.outputs,
        vec![String::from("3"), String::from("true")]
    );
}

#[test]
fn eval_division_exact_through_value_not_mantissa() {
    // the divisor's mantissa (2^20) does not divide a power of ten, yet the
    // quotient 953674316406.25 is an exact decimal, so division succeeds
    let outcome = run(&String::from("print 1 / 0.000000000001048576;")).unwrap();
    assert_eq!(outcome.outputs, vec![String::from("953674316406.25")]);
    assert_eq!(outcome.error, None);
    // and the reciprocal direction too
    let outcome2 = run(&String::from("print 0.000000000001048576 / 1;")).unwrap();
    assert_eq!(outcome2.outputs, vec![String::from("0.000000000001048576")]);
}
