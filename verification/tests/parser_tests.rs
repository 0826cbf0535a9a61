use rlox::num::Num;
use rlox::parser::{parse, program, Expr, ParseError, ParseErrorKind, Stmt};
use rlox::scanner::{scan_tokens, Token};

fn zero() -> Num {
    Num {
        neg: false,
        mag: 0,
        scale: 0,
    }
}

fn num(mag: u64, scale: u32) -> Num {
    Num { neg: false, mag, scale }
}

#[test]
fn parse_tests() {
    // terminals
    assert_eq!(
        parse(&vec![Token::TRUE, Token::EOF]).unwrap(),
        Expr::Boolean(true)
    );
    assert_eq!(
        parse(&vec![Token::FALSE, Token::EOF]).unwrap(),
        Expr::Boolean(false)
    );
    assert_eq!(parse(&vec![Token::NIL, Token::EOF]).unwrap(), Expr::Nil);
    assert_eq!(
        parse(&vec![Token::STRING(String::from("blah")), Token::EOF]).unwrap(),
        Expr::String(String::from("blah"))
    );
    assert_eq!(
        parse(&vec![Token::NUMBER(zero()), Token::EOF]).unwrap(),
        Expr::Number(zero())
    );

    // unary
    assert_eq!(
        parse(&vec![Token::BANG, Token::TRUE, Token::EOF]).unwrap(),
        Expr::Unary(Token::BANG, Box::new(Expr::Boolean(true)))
    );

    assert_eq!(
        parse(&vec![Token::MINUS, Token::NUMBER(zero()), Token::EOF]).unwrap(),
        Expr::Unary(Token::MINUS, Box::new(Expr::Number(zero())))
    );

    // factor
    assert_eq!(
        parse(&vec![
            Token::NUMBER(zero()),
            Token::STAR,
            Token::NUMBER(zero()),
            Token::SLASH,
            Token::NUMBER(zero()),
            Token::EOF
        ])
        .unwrap(),
        Expr::Binary(
            Box::new(Expr::Binary(
                Box::new(Expr::Number(zero())),
                Token::STAR,
                Box::new(Expr::Number(zero()))
            )),
            Token::SLASH,
            Box::new(Expr::Number(zero()))
        )
    );

    assert_eq!(
        parse(&vec![
            Token::MINUS,
            Token::NUMBER(zero()),
            Token::STAR,
            Token::MINUS,
            Token::NUMBER(zero()),
            Token::EOF
        ])
        .unwrap(),
        Expr::Binary(
            Box::new(Expr::Unary(
                Token::MINUS,
                Box::new(Expr::Number(zero()))
            )),
            Token::STAR,
            Box::new(Expr::Unary(
                Token::MINUS,
                Box::new(Expr::Number(zero()))
            ))
        )
    );

    // term
    assert_eq!(
        parse(&vec![
            Token::NUMBER(zero()),
            Token::MINUS,
            Token::NUMBER(zero()),
            Token::SLASH,
            Token::NUMBER(zero()),
            Token::EOF
        ])
        .unwrap(),
        Expr::Binary(
            Box::new(Expr::Number(zero())),
            Token::MINUS,
            Box::new(Expr::Binary(
                Box::new(Expr::Number(zero())),
                Token::SLASH,
                Box::new(Expr::Number(zero()))
            ))
        )
    );

    assert_eq!(
        parse(&vec![
            Token::NUMBER(zero()),
            Token::STAR,
            Token::NUMBER(zero()),
            Token::PLUS,
            Token::NUMBER(zero()),
            Token::EOF
        ])
        .unwrap(),
        Expr::Binary(
            Box::new(Expr::Binary(
                Box::new(Expr::Number(zero())),
                Token::STAR,
                Box::new(Expr::Number(zero()))
            )),
            Token::PLUS,
            Box::new(Expr::Number(zero()))
        )
    );

    // comparison
    assert_eq!(
        parse(&vec![
            Token::NUMBER(zero()),
            Token::GREATER,
            Token::NUMBER(zero()),
            Token::PLUS,
            Token::NUMBER(zero()),
            Token::EOF
        ])
        .unwrap(),
        Expr::Binary(
            Box::new(Expr::Number(zero())),
            Token::GREATER,
            Box::new(Expr::Binary(
                Box::new(Expr::Number(zero())),
                Token::PLUS,
                Box::new(Expr::Number(zero()))
            ))
        )
    );

    assert_eq!(
        parse(&vec![
            Token::NUMBER(zero()),
            Token::MINUS,
            Token::NUMBER(zero()),
            Token::LESS_EQUAL,
            Token::NUMBER(zero()),
            Token::EOF
        ])
        .unwrap(),
        Expr::Binary(
            Box::new(Expr::Binary(
                Box::new(Expr::Number(zero())),
                Token::MINUS,
                Box::new(Expr::Number(zero()))
            )),
            Token::LESS_EQUAL,
            Box::new(Expr::Number(zero()))
        )
    );

    // equality
    assert_eq!(
        parse(&vec![
            Token::NUMBER(zero()),
            Token::BANG_EQUAL,
            Token::NUMBER(zero()),
            Token::LESS,
            Token::NUMBER(zero()),
            Token::EOF
        ])
        .unwrap(),
        Expr::Binary(
            Box::new(Expr::Number(zero())),
            Token::BANG_EQUAL,
            Box::new(Expr::Binary(
                Box::new(Expr::Number(zero())),
                Token::LESS,
                Box::new(Expr::Number(zero()))
            ))
        )
    );

    assert_eq!(
        parse(&vec![
            Token::NUMBER(zero()),
            Token::GREATER_EQUAL,
            Token::NUMBER(zero()),
            Token::EQUAL_EQUAL,
            Token::NUMBER(zero()),
            Token::EOF
        ])
        .unwrap(),
        Expr::Binary(
            Box::new(Expr::Binary(
                Box::new(Expr::Number(zero())),
                Token::GREATER_EQUAL,
                Box::new(Expr::Number(zero()))
            )),
            Token::EQUAL_EQUAL,
            Box::new(Expr::Number(zero()))
        )
    );

    // parenthesis
    assert_eq!(
        parse(&vec![
            Token::NUMBER(zero()),
            Token::STAR,
            Token::LEFT_PAREN,
            Token::NUMBER(zero()),
            Token::PLUS,
            Token::NUMBER(zero()),
            Token::RIGHT_PAREN,
            Token::EOF
        ])
        .unwrap(),
        Expr::Binary(
            Box::new(Expr::Number(zero())),
            Token::STAR,
            Box::new(Expr::Grouping(Box::new(Expr::Binary(
                Box::new(Expr::Number(zero())),
                Token::PLUS,
                Box::new(Expr::Number(zero()))
            ))))
        )
    );
}

#[test]
fn parse_precedence_factor_over_term() {
    // "1 + 2 * 3;" parses as 1 + (2 * 3), with the left operand untouched
    let toks = scan_tokens(&String::from("1 + 2 * 3;")).unwrap();
    let stmts = program(&toks).unwrap();
    assert_eq!(
        stmts,
        vec![Stmt::Expression(Expr::Binary(
            Box::new(Expr::Number(num(1, 0))),
            Token::PLUS,
            Box::new(Expr::Binary(
                Box::new(Expr::Number(num(2, 0))),
                Token::STAR,
                Box::new(Expr::Number(num(3, 0)))
            ))
        ))]
    );
}

#[test]
fn parse_grouping_overrides_precedence() {
    // "(1 + 2) * 3;" keeps the grouping node
    let toks = scan_tokens(&String::from("(1 + 2) * 3;")).unwrap();
    let stmts = program(&toks).unwrap();
    assert_eq!(
        stmts,
        vec![Stmt::Expression(Expr::Binary(
            Box::new(Expr::Grouping(Box::new(Expr::Binary(
                Box::new(Expr::Number(num(1, 0))),
                Token::PLUS,
                Box::new(Expr::Number(num(2, 0)))
            )))),
            Token::STAR,
            Box::new(Expr::Number(num(3, 0)))
        ))]
    );
}

#[test]
fn parse_bang_true_statement() {
    let toks = scan_tokens(&String::from("!true;")).unwrap();
    let stmts = program(&toks).unwrap();
    assert_eq!(
        stmts,
        vec![Stmt::Expression(Expr::Unary(
            Token::BANG,
            Box::new(Expr::Boolean(true))
        ))]
    );
}

#[test]
fn parse_print_statement() {
    let toks = scan_tokens(&String::from("print 1;")).unwrap();
    let stmts = program(&toks).unwrap();
    assert_eq!(stmts, vec![Stmt::Print(Expr::Number(num(1, 0)))]);
}

#[test]
fn parse_empty_program() {
    let toks = scan_tokens(&String::from("")).unwrap();
    assert_eq!(program(&toks).unwrap(), vec![]);
    let toks2 = scan_tokens(&String::from("// only a comment\n")).unwrap();
    assert_eq!(program(&toks2).unwrap(), vec![]);
}

#[test]
fn parse_missing_closing_paren_is_error() {
    let toks = scan_tokens(&String::from("(1 + 2;")).unwrap();
    let r = program(&toks);
    assert_eq!(
        r,
        Err(ParseError {
            kind: ParseErrorKind::ExpectedClosingParen,
            at: 4
        })
    );
}

#[test]
fn parse_missing_semicolon_is_error() {
    let toks = scan_tokens(&String::from("1 + 2")).unwrap();
    let r = program(&toks);
    assert_eq!(
        r,
        Err(ParseError {
            kind: ParseErrorKind::ExpectedSemicolon,
            at: 3
        })
    );
}

#[test]
fn parse_expected_expression_is_error() {
    let toks = scan_tokens(&String::from("+ 1;")).unwrap();
    let r = program(&toks);
    assert_eq!(
        r,
        Err(ParseError {
            kind: ParseErrorKind::ExpectedExpression,
            at: 0
        })
    );
}

#[test]
fn parse_depth_guard_reports_too_deep() {
    let mut src = String::new();
    for _ in 0..300 {
        src.push('(');
    }
    src.push('1');
    for _ in 0..300 {
        src.push(')');
    }
    src.push(';');
    let toks = scan_tokens(&src).unwrap();
    let r = program(&toks);
    assert!(matches!(
        r,
        Err(ParseError {
            kind: ParseErrorKind::TooDeep,
            at: _
        })
    ));
}

#[test]
fn parse_missing_end_marker_is_error() {
    let r = program(&vec![Token::NUMBER(zero()), Token::SEMICOLON]);
    assert_eq!(
        r,
        Err(ParseError {
            kind: ParseErrorKind::UnexpectedEnd,
            at: 2
        })
    );
}
