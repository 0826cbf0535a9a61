use rlox::num::Num;
use rlox::scanner::{scan_tokens, LexError, Token};

fn num(mag: u64, scale: u32) -> Num {
    Num { neg: false, mag, scale }
}

#[test]
fn scan_tokens_tests() {
    assert_eq!(
        scan_tokens(&String::from("+")).unwrap(),
        vec![Token::PLUS, Token::EOF]
    );
    assert_eq!(scan_tokens(&String::from("")).unwrap(), vec![Token::EOF]);
    assert_eq!(
        scan_tokens(&String::from("     ")).unwrap(),
        vec![Token::EOF]
    );
    assert_eq!(
        scan_tokens(&String::from("!=")).unwrap(),
        vec![Token::BANG_EQUAL, Token::EOF]
    );
    assert_eq!(
        scan_tokens(&String::from("!!=")).unwrap(),
        vec![Token::BANG, Token::BANG_EQUAL, Token::EOF]
    );
    assert_eq!(
        scan_tokens(&String::from("/")).unwrap(),
        vec![Token::SLASH, Token::EOF]
    );

    assert_eq!(scan_tokens(&String::from("//")).unwrap(), vec![Token::EOF]);
    assert_eq!(scan_tokens(&String::from("//+")).unwrap(), vec![Token::EOF]);
    assert_eq!(scan_tokens(&String::from("//\n")).unwrap(), vec![Token::EOF]);
    assert_eq!(
        scan_tokens(&String::from("//\n+")).unwrap(),
        vec![Token::PLUS, Token::EOF]
    );
    assert_eq!(
        scan_tokens(&String::from("//asdsad asd \n+")).unwrap(),
        vec![Token::PLUS, Token::EOF]
    );

    assert_eq!(
        scan_tokens(&String::from(r#""blah""#)).unwrap(),
        vec![Token::STRING(String::from("blah")), Token::EOF]
    );

    assert_eq!(
        scan_tokens(&String::from("123")).unwrap(),
        vec![Token::NUMBER(num(123, 0)), Token::EOF]
    );
    assert_eq!(
        scan_tokens(&String::from("1.1")).unwrap(),
        vec![Token::NUMBER(num(11, 1)), Token::EOF]
    );
    assert_eq!(
        scan_tokens(&String::from("1.1 2.2")).unwrap(),
        vec![
            Token::NUMBER(num(11, 1)),
            Token::NUMBER(num(22, 1)),
            Token::EOF
        ]
    );

    assert_eq!(
        scan_tokens(&String::from("fuck")).unwrap(),
        vec![Token::IDENTIFIER(String::from("fuck")), Token::EOF]
    );
    assert_eq!(
        scan_tokens(&String::from("and")).unwrap(),
        vec![Token::AND, Token::EOF]
    );
    assert_eq!(
        scan_tokens(&String::from("and fuck")).unwrap(),
        vec![
            Token::AND,
            Token::IDENTIFIER(String::from("fuck")),
            Token::EOF
        ]
    );
}

#[test]
fn scan_number_canonicalizes_trailing_zeros() {
    assert_eq!(
        scan_tokens(&String::from("1.10")).unwrap(),
        vec![Token::NUMBER(num(11, 1)), Token::EOF]
    );
    assert_eq!(
        scan_tokens(&String::from("2.000")).unwrap(),
        vec![Token::NUMBER(num(2, 0)), Token::EOF]
    );
    assert_eq!(
        scan_tokens(&String::from("0.01")).unwrap(),
        vec![Token::NUMBER(num(1, 2)), Token::EOF]
    );
}

#[test]
fn scan_number_trailing_dot_is_not_part_of_number() {
    assert_eq!(
        scan_tokens(&String::from("123.")).unwrap(),
        vec![Token::NUMBER(num(123, 0)), Token::DOT, Token::EOF]
    );
}

#[test]
fn scan_two_char_operators() {
    assert_eq!(
        scan_tokens(&String::from("== = <= < >= >")).unwrap(),
        vec![
            Token::EQUAL_EQUAL,
            Token::EQUAL,
            Token::LESS_EQUAL,
            Token::LESS,
            Token::GREATER_EQUAL,
            Token::GREATER,
            Token::EOF
        ]
    );
}

#[test]
fn scan_keywords_table() {
    assert_eq!(
        scan_tokens(&String::from(
            "and class else false fun for if nil or print return super this true var while"
        ))
        .unwrap(),
        vec![
            Token::AND,
            Token::CLASS,
            Token::ELSE,
            Token::FALSE,
            Token::FUN,
            Token::FOR,
            Token::IF,
            Token::NIL,
            Token::OR,
            Token::PRINT,
            Token::RETURN,
            Token::SUPER,
            Token::THIS,
            Token::TRUE,
            Token::VAR,
            Token::WHILE,
            Token::EOF
        ]
    );
}

#[test]
fn scan_unterminated_string_is_error() {
    assert_eq!(
        scan_tokens(&String::from("\"abc")),
        Err(LexError::UnterminatedString { line: 1, col: 1 })
    );
}

#[test]
fn scan_unexpected_char_is_error_with_position() {
    assert_eq!(
        scan_tokens(&String::from("@")),
        Err(LexError::UnexpectedChar {
            ch: '@',
            line: 1,
            col: 1
        })
    );
    assert_eq!(
        scan_tokens(&String::from("+\n @")),
        Err(LexError::UnexpectedChar {
            ch: '@',
            line: 2,
            col: 2
        })
    );
}

#[test]
fn scan_number_out_of_range_is_error() {
    assert_eq!(
        scan_tokens(&String::from("11111111111111111111")),
        Err(LexError::NumberOutOfRange { line: 1, col: 1 })
    );
    assert_eq!(
        scan_tokens(&String::from("0.0000000000000000001")),
        Err(LexError::NumberOutOfRange { line: 1, col: 1 })
    );
    assert_eq!(
        scan_tokens(&String::from("999999999999999999")).unwrap(),
        vec![Token::NUMBER(num(999_999_999_999_999_999, 0)), Token::EOF]
    );
}

#[test]
fn number_display_round_trips_through_lexer() {
    let n = Num {
        neg: false,
        mag: 1234,
        scale: 2,
    };
    let text = rlox::interpreter::stringify_valuetype(&rlox::interpreter::ValueType::Number(n));
    assert_eq!(text, "12.34");
    assert_eq!(
        scan_tokens(&text).unwrap(),
        vec![Token::NUMBER(n), Token::EOF]
    );
    let whole = Num {
        neg: false,
        mag: 123,
        scale: 0,
    };
    let text2 = rlox::interpreter::stringify_valuetype(&rlox::interpreter::ValueType::Number(whole));
    assert_eq!(text2, "123");
    assert_eq!(
        scan_tokens(&text2).unwrap(),
        vec![Token::NUMBER(whole), Token::EOF]
    );
}

#[test]
fn scan_punctuation_tokens() {
    assert_eq!(
        scan_tokens(&String::from("(){},.;")).unwrap(),
        vec![
            Token::LEFT_PAREN,
            Token::RIGHT_PAREN,
            Token::LEFT_BRACE,
            Token::RIGHT_BRACE,
            Token::COMMA,
            Token::DOT,
            Token::SEMICOLON,
            Token::EOF
        ]
    );
}

#[test]
fn scan_string_with_newline_keeps_content() {
    assert_eq!(
        scan_tokens(&String::from("\"a\nb\" +")).unwrap(),
        vec![
            Token::STRING(String::from("a\nb")),
            Token::PLUS,
            Token::EOF
        ]
    );
}

#[test]
fn is_digit_on_every_digit_and_some_others() {
    for c in '0'..='9' {
        assert!(rlox::scanner::is_digit(c));
    }
    assert!(!rlox::scanner::is_digit('a'));
    assert!(!rlox::scanner::is_digit('.'));
    assert!(!rlox::scanner::is_digit(' '));
}

#[test]
fn get_numeric_string_takes_maximal_run() {
    let chars: Vec<char> = "12a34".chars().collect();
    let (text, end) = rlox::scanner::get_numeric_string(&chars, 0);
    assert_eq!(text, "12");
    assert_eq!(end, 2);
    let (rest, end2) = rlox::scanner::get_numeric_string(&chars, 2);
    assert_eq!(rest, "");
    assert_eq!(end2, 2);
    let (tail, end3) = rlox::scanner::get_numeric_string(&chars, 3);
    assert_eq!(tail, "34");
    assert_eq!(end3, 5);
}

#[test]
fn scan_underscore_does_not_continue_an_identifier() {
    // an identifier continues over letters and digits only; an underscore
    // ends it and starts the next identifier
    assert_eq!(
        scan_tokens(&String::from("a_b")).unwrap(),
        vec![
            Token::IDENTIFIER(String::from("a")),
            Token::IDENTIFIER(String::from("_b")),
            Token::EOF
        ]
    );
    assert_eq!(
        scan_tokens(&String::from("and_x")).unwrap(),
        vec![Token::AND, Token::IDENTIFIER(String::from("_x")), Token::EOF]
    );
    assert_eq!(
        scan_tokens(&String::from("_a9")).unwrap(),
        vec![Token::IDENTIFIER(String::from("_a9")), Token::EOF]
    );
}

#[test]
fn scan_positions_follow_lines_and_columns() {
    let (toks, poss) =
        rlox::scanner::scan_tokens_with_positions(&String::from("+\n  *")).unwrap();
    assert_eq!(toks, vec![Token::PLUS, Token::STAR, Token::EOF]);
    assert_eq!(poss, vec![(1, 1), (2, 3), (2, 4)]);
    assert_eq!(poss.len(), toks.len());
}

#[test]
fn parse_error_index_maps_to_a_source_position() {
    let src = String::from("(1 +\n 2;");
    let (toks, poss) = rlox::scanner::scan_tokens_with_positions(&src).unwrap();
    let err = rlox::parser::program(&toks).unwrap_err();
    assert_eq!(err.kind, rlox::parser::ParseErrorKind::ExpectedClosingParen);
    // the offending token is the semicolon on line 2
    assert_eq!(poss[err.at], (2, 3));
}
