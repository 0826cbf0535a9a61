//! The lexer: turns source text into an ordered token sequence terminated by
//! the end-of-input marker.
//!
//! The behaviour is fixed by a recursive specification ([`spec_tokenize`])
//! over the source characters: one step ([`spec_step`]) consumes whitespace,
//! a line comment, or exactly one token, with one character of lookahead for
//! the two-character operators.  The executable scanner is proven to return
//! exactly what the specification says.

use vstd::prelude::*;
use vstd::string::StrSliceExecFns;
use vstd::arithmetic::div_mod::{lemma_mod_mod, lemma_small_mod, lemma_fundamental_div_mod};
use crate::num::{
    Num, MANT_MAX, SCALE_MAX, is_digit_char, digits_val, digit_val, lemma_digits_val_push,
    lemma_digits_val_take_le, lemma_digits_val_last_mod, dec_digits, dec_digits_pad, digit_char,
    spec_num_text, p10, lemma_p10_pos, lemma_p10_adds, lemma_p10_values, lemma_dec_digits_digits,
    lemma_pad_digits, lemma_dec_digits_val, lemma_pad_val, lemma_digits_val_concat,
    lemma_digit_char_val,
};

verus! {

/// One lexical unit.
#[derive(PartialEq, Debug, Clone)]
#[allow(non_camel_case_types)]
pub enum Token {
    LEFT_PAREN,
    RIGHT_PAREN,
    LEFT_BRACE,
    RIGHT_BRACE,
    COMMA,
    DOT,
    MINUS,
    PLUS,
    SEMICOLON,
    SLASH,
    STAR,
    BANG,
    BANG_EQUAL,
    EQUAL,
    EQUAL_EQUAL,
    GREATER,
    GREATER_EQUAL,
    LESS,
    LESS_EQUAL,
    IDENTIFIER(String),
    STRING(String),
    NUMBER(Num),
    AND,
    CLASS,
    ELSE,
    FALSE,
    FUN,
    FOR,
    IF,
    NIL,
    OR,
    PRINT,
    RETURN,
    SUPER,
    THIS,
    TRUE,
    VAR,
    WHILE,
    EOF,
}

/// The mathematical form of a token: text payloads as character sequences.
pub enum SpecToken {
    LeftParen,
    RightParen,
    LeftBrace,
    RightBrace,
    Comma,
    Dot,
    Minus,
    Plus,
    Semicolon,
    Slash,
    Star,
    Bang,
    BangEqual,
    Equal,
    EqualEqual,
    Greater,
    GreaterEqual,
    Less,
    LessEqual,
    Identifier(Seq<char>),
    StrLit(Seq<char>),
    Number(Num),
    And,
    Class,
    Else,
    False,
    Fun,
    For,
    If,
    Nil,
    Or,
    Print,
    Return,
    Super,
    This,
    True,
    Var,
    While,
    Eof,
}

impl View for Token {
    type V = SpecToken;

    open spec fn view(&self) -> SpecToken {
        match self {
            Token::LEFT_PAREN => SpecToken::LeftParen,
            Token::RIGHT_PAREN => SpecToken::RightParen,
            Token::LEFT_BRACE => SpecToken::LeftBrace,
            Token::RIGHT_BRACE => SpecToken::RightBrace,
            Token::COMMA => SpecToken::Comma,
            Token::DOT => SpecToken::Dot,
            Token::MINUS => SpecToken::Minus,
            Token::PLUS => SpecToken::Plus,
            Token::SEMICOLON => SpecToken::Semicolon,
            Token::SLASH => SpecToken::Slash,
            Token::STAR => SpecToken::Star,
            Token::BANG => SpecToken::Bang,
            Token::BANG_EQUAL => SpecToken::BangEqual,
            Token::EQUAL => SpecToken::Equal,
            Token::EQUAL_EQUAL => SpecToken::EqualEqual,
            Token::GREATER => SpecToken::Greater,
            Token::GREATER_EQUAL => SpecToken::GreaterEqual,
            Token::LESS => SpecToken::Less,
            Token::LESS_EQUAL => SpecToken::LessEqual,
            Token::IDENTIFIER(t) => SpecToken::Identifier(t@),
            Token::STRING(t) => SpecToken::StrLit(t@),
            Token::NUMBER(n) => SpecToken::Number(*n),
            Token::AND => SpecToken::And,
            Token::CLASS => SpecToken::Class,
            Token::ELSE => SpecToken::Else,
            Token::FALSE => SpecToken::False,
            Token::FUN => SpecToken::Fun,
            Token::FOR => SpecToken::For,
            Token::IF => SpecToken::If,
            Token::NIL => SpecToken::Nil,
            Token::OR => SpecToken::Or,
            Token::PRINT => SpecToken::Print,
            Token::RETURN => SpecToken::Return,
            Token::SUPER => SpecToken::Super,
            Token::THIS => SpecToken::This,
            Token::TRUE => SpecToken::True,
            Token::VAR => SpecToken::Var,
            Token::WHILE => SpecToken::While,
            Token::EOF => SpecToken::Eof,
        }
    }
}

/// A number token is canonical; every other token is unconstrained.
pub open spec fn token_wf(t: SpecToken) -> bool {
    match t {
        SpecToken::Number(n) => n.wf(),
        _ => true,
    }
}

/// A lexical error, with the line and column (both starting at one) of the
/// offending position.
#[derive(PartialEq, Eq, Structural, Clone, Copy, Debug)]
pub enum LexError {
    /// The input ended inside a string literal.
    UnterminatedString { line: usize, col: usize },
    /// A character that starts no token.
    UnexpectedChar { ch: char, line: usize, col: usize },
    /// A number literal outside the representable decimal range.
    NumberOutOfRange { line: usize, col: usize },
}

/// Advance a line/column position over one character.
pub open spec fn adv_char(line: nat, col: nat, c: char) -> (nat, nat) {
    if c == '\n' {
        ((line + 1) as nat, 1 as nat)
    } else {
        (line, (col + 1) as nat)
    }
}

/// Advance a line/column position over a character sequence.
pub open spec fn adv_pos(line: nat, col: nat, cs: Seq<char>) -> (nat, nat)
    decreases cs.len(),
{
    if cs.len() == 0 {
        (line, col)
    } else {
        let first = adv_char(line, col, cs[0]);
        adv_pos(first.0, first.1, cs.subrange(1, cs.len() as int))
    }
}

/// Advancing over a concatenation advances over each part in turn.
pub proof fn lemma_adv_pos_concat(line: nat, col: nat, a: Seq<char>, b: Seq<char>)
    ensures
        adv_pos(line, col, a + b) == ({
            let mid = adv_pos(line, col, a);
            adv_pos(mid.0, mid.1, b)
        }),
    decreases a.len(),
{
    if a.len() == 0 {
        assert(a + b =~= b);
    } else {
        let first = adv_char(line, col, a[0]);
        assert((a + b).subrange(1, (a + b).len() as int) =~= a.subrange(1, a.len() as int) + b);
        lemma_adv_pos_concat(first.0, first.1, a.subrange(1, a.len() as int), b);
    }
}

/// Advancing over a single character is one character step.
pub proof fn lemma_adv_pos_single(line: nat, col: nat, c: char)
    ensures
        adv_pos(line, col, seq![c]) == adv_char(line, col, c),
{
    let cs = seq![c];
    let first = adv_char(line, col, c);
    assert(cs.subrange(1, 1) =~= Seq::<char>::empty());
    assert(adv_pos(first.0, first.1, Seq::<char>::empty()) == first);
    assert(adv_pos(line, col, cs) == adv_pos(first.0, first.1, cs.subrange(1, 1)));
}

/// The advanced line and column are bounded by the number of characters read.
pub proof fn lemma_adv_pos_bounds(line: nat, col: nat, cs: Seq<char>)
    ensures
        adv_pos(line, col, cs).0 <= line + cs.len(),
        adv_pos(line, col, cs).1 <= col + cs.len(),
        adv_pos(line, col, cs).0 >= 1 || adv_pos(line, col, cs).0 >= line,
    decreases cs.len(),
{
    if cs.len() > 0 {
        let first = adv_char(line, col, cs[0]);
        lemma_adv_pos_bounds(first.0, first.1, cs.subrange(1, cs.len() as int));
    }
}

/// First index at or after `j` that does not hold a decimal digit (or the
/// end of the input).
pub open spec fn digits_end(s: Seq<char>, j: nat) -> nat
    decreases s.len() - j when j <= s.len()
{
    if j >= s.len() || !is_digit_char(s[j as int]) {
        j
    } else {
        digits_end(s, j + 1)
    }
}

/// `digits_end` stays within the input and moves only forward over digits.
pub proof fn lemma_digits_end(s: Seq<char>, j: nat)
    requires
        j <= s.len(),
    ensures
        j <= digits_end(s, j) <= s.len(),
        forall|q: int| j <= q < digits_end(s, j) ==> is_digit_char(s[q]),
        digits_end(s, j) < s.len() ==> !is_digit_char(s[digits_end(s, j) as int]),
    decreases s.len() - j,
{
    if !(j >= s.len() || !is_digit_char(s[j as int])) {
        lemma_digits_end(s, j + 1);
    }
}

/// Whether `c` is an ASCII letter.
pub open spec fn is_ascii_letter(c: char) -> bool {
    ('a' <= c && c <= 'z') || ('A' <= c && c <= 'Z')
}

/// Whether `c` may start an identifier: an ASCII letter or an underscore.
pub open spec fn is_ident_start(c: char) -> bool {
    is_ascii_letter(c) || c == '_'
}

/// Whether `c` may continue an identifier: an ASCII letter or a digit.
pub open spec fn is_ident_cont(c: char) -> bool {
    is_ascii_letter(c) || is_digit_char(c)
}

/// First index at or after `j` that cannot continue an identifier.
pub open spec fn ident_end(s: Seq<char>, j: nat) -> nat
    decreases s.len() - j when j <= s.len()
{
    if j >= s.len() || !is_ident_cont(s[j as int]) {
        j
    } else {
        ident_end(s, j + 1)
    }
}

/// `ident_end` stays within the input and moves only forward.
pub proof fn lemma_ident_end(s: Seq<char>, j: nat)
    requires
        j <= s.len(),
    ensures
        j <= ident_end(s, j) <= s.len(),
        forall|q: int| j <= q < ident_end(s, j) ==> is_ident_cont(s[q]),
        ident_end(s, j) < s.len() ==> !is_ident_cont(s[ident_end(s, j) as int]),
    decreases s.len() - j,
{
    if !(j >= s.len() || !is_ident_cont(s[j as int])) {
        lemma_ident_end(s, j + 1);
    }
}

/// First index at or after `j` holding a newline, or the end of the input.
pub open spec fn line_end(s: Seq<char>, j: nat) -> nat
    decreases s.len() - j when j <= s.len()
{
    if j >= s.len() || s[j as int] == '\n' {
        j
    } else {
        line_end(s, j + 1)
    }
}

/// First index at or after `j` holding a double quote, or the end of the
/// input.
pub open spec fn string_end(s: Seq<char>, j: nat) -> nat
    decreases s.len() - j when j <= s.len()
{
    if j >= s.len() || s[j as int] == '"' {
        j
    } else {
        string_end(s, j + 1)
    }
}

/// `string_end` stays within the input and moves only forward.
pub proof fn lemma_string_end(s: Seq<char>, j: nat)
    requires
        j <= s.len(),
    ensures
        j <= string_end(s, j) <= s.len(),
        forall|q: int| j <= q < string_end(s, j) ==> s[q] != '"',
        string_end(s, j) < s.len() ==> s[string_end(s, j) as int] == '"',
    decreases s.len() - j,
{
    if !(j >= s.len() || s[j as int] == '"') {
        lemma_string_end(s, j + 1);
    }
}

/// Remove trailing zero digits.
pub open spec fn strip_trailing_zeros(ds: Seq<char>) -> Seq<char>
    decreases ds.len(),
{
    if ds.len() > 0 && ds.last() == '0' {
        strip_trailing_zeros(ds.drop_last())
    } else {
        ds
    }
}

/// The keyword token spelled `text`, if any.
pub open spec fn keyword_token(text: Seq<char>) -> Option<SpecToken> {
    if text == "and"@ {
        Some(SpecToken::And)
    } else if text == "class"@ {
        Some(SpecToken::Class)
    } else if text == "else"@ {
        Some(SpecToken::Else)
    } else if text == "false"@ {
        Some(SpecToken::False)
    } else if text == "fun"@ {
        Some(SpecToken::Fun)
    } else if text == "for"@ {
        Some(SpecToken::For)
    } else if text == "if"@ {
        Some(SpecToken::If)
    } else if text == "nil"@ {
        Some(SpecToken::Nil)
    } else if text == "or"@ {
        Some(SpecToken::Or)
    } else if text == "print"@ {
        Some(SpecToken::Print)
    } else if text == "return"@ {
        Some(SpecToken::Return)
    } else if text == "super"@ {
        Some(SpecToken::Super)
    } else if text == "this"@ {
        Some(SpecToken::This)
    } else if text == "true"@ {
        Some(SpecToken::True)
    } else if text == "var"@ {
        Some(SpecToken::Var)
    } else if text == "while"@ {
        Some(SpecToken::While)
    } else {
        None
    }
}

/// One step of the lexer: what stands at position `i` of the input, given
/// that the position is at line `line`, column `col`.
pub enum SpecStep {
    /// One token, consuming `1 + extra` characters: the token and `extra`.
    Tok(SpecToken, nat),
    /// No token (whitespace or a comment), consuming `1 + extra` characters.
    Skip(nat),
    /// The end of the input.
    End,
    /// A lexical error.
    Fail(LexError),
}

/// The number literal starting at `i` (a digit): the token and the extra
/// characters consumed, or an error for a literal outside the representable
/// range.
pub open spec fn spec_number_step(s: Seq<char>, i: nat, line: nat, col: nat) -> SpecStep {
    let j = digits_end(s, i + 1);
    let has_frac = j + 1 < s.len() && s[j as int] == '.' && is_digit_char(s[j as int + 1]);
    let k = if has_frac {
        digits_end(s, j + 1)
    } else {
        j
    };
    let int_digits = s.subrange(i as int, j as int);
    let frac_digits = if has_frac {
        strip_trailing_zeros(s.subrange(j as int + 1, k as int))
    } else {
        Seq::empty()
    };
    let mant = digits_val(int_digits + frac_digits);
    if frac_digits.len() > SCALE_MAX {
        SpecStep::Fail(LexError::NumberOutOfRange { line: line as usize, col: col as usize })
    } else if mant > MANT_MAX {
        SpecStep::Fail(LexError::NumberOutOfRange { line: line as usize, col: col as usize })
    } else {
        SpecStep::Tok(
            SpecToken::Number(
                Num { neg: false, mag: mant as u64, scale: frac_digits.len() as u32 },
            ),
            (k - i - 1) as nat,
        )
    }
}

/// One lexer step at position `i`, which must lie inside the input.
pub open spec fn spec_step(s: Seq<char>, i: nat, line: nat, col: nat) -> SpecStep {
    if i >= s.len() {
        SpecStep::End
    } else {
        let c = s[i as int];
        if c == '(' {
            SpecStep::Tok(SpecToken::LeftParen, 0)
        } else if c == ')' {
            SpecStep::Tok(SpecToken::RightParen, 0)
        } else if c == '{' {
            SpecStep::Tok(SpecToken::LeftBrace, 0)
        } else if c == '}' {
            SpecStep::Tok(SpecToken::RightBrace, 0)
        } else if c == ',' {
            SpecStep::Tok(SpecToken::Comma, 0)
        } else if c == '.' {
            SpecStep::Tok(SpecToken::Dot, 0)
        } else if c == '-' {
            SpecStep::Tok(SpecToken::Minus, 0)
        } else if c == '+' {
            SpecStep::Tok(SpecToken::Plus, 0)
        } else if c == ';' {
            SpecStep::Tok(SpecToken::Semicolon, 0)
        } else if c == '*' {
            SpecStep::Tok(SpecToken::Star, 0)
        } else if c == '!' {
            if i + 1 < s.len() && s[i as int + 1] == '=' {
                SpecStep::Tok(SpecToken::BangEqual, 1)
            } else {
                SpecStep::Tok(SpecToken::Bang, 0)
            }
        } else if c == '=' {
            if i + 1 < s.len() && s[i as int + 1] == '=' {
                SpecStep::Tok(SpecToken::EqualEqual, 1)
            } else {
                SpecStep::Tok(SpecToken::Equal, 0)
            }
        } else if c == '<' {
            if i + 1 < s.len() && s[i as int + 1] == '=' {
                SpecStep::Tok(SpecToken::LessEqual, 1)
            } else {
                SpecStep::Tok(SpecToken::Less, 0)
            }
        } else if c == '>' {
            if i + 1 < s.len() && s[i as int + 1] == '=' {
                SpecStep::Tok(SpecToken::GreaterEqual, 1)
            } else {
                SpecStep::Tok(SpecToken::Greater, 0)
            }
        } else if c == '/' {
            if i + 1 < s.len() && s[i as int + 1] == '/' {
                SpecStep::Skip((line_end(s, i + 2) - i - 1) as nat)
            } else {
                SpecStep::Tok(SpecToken::Slash, 0)
            }
        } else if c == ' ' || c == '\r' || c == '\t' || c == '\n' {
            SpecStep::Skip(0)
        } else if c == '"' {
            let j = string_end(s, i + 1);
            if j >= s.len() {
                SpecStep::Fail(
                    LexError::UnterminatedString { line: line as usize, col: col as usize },
                )
            } else {
                SpecStep::Tok(SpecToken::StrLit(s.subrange(i as int + 1, j as int)), (j - i) as nat)
            }
        } else if is_digit_char(c) {
            spec_number_step(s, i, line, col)
        } else if is_ident_start(c) {
            let j = ident_end(s, i + 1);
            let text = s.subrange(i as int, j as int);
            match keyword_token(text) {
                Some(t) => SpecStep::Tok(t, (j - i - 1) as nat),
                None => SpecStep::Tok(SpecToken::Identifier(text), (j - i - 1) as nat),
            }
        } else {
            SpecStep::Fail(
                LexError::UnexpectedChar { ch: c, line: line as usize, col: col as usize },
            )
        }
    }
}

/// Remaining input length, clamped at zero.
pub open spec fn rem_len(s: Seq<char>, i: nat) -> nat {
    if i <= s.len() {
        (s.len() - i) as nat
    } else {
        0
    }
}

/// The tokens of the input from position `i` on (line `line`, column `col`),
/// without the end marker, or the first lexical error.
pub open spec fn spec_scan(s: Seq<char>, i: nat, line: nat, col: nat) -> Result<
    Seq<SpecToken>,
    LexError,
>
    decreases rem_len(s, i),
{
    if i >= s.len() {
        Ok(Seq::empty())
    } else {
        match spec_step(s, i, line, col) {
            SpecStep::End => Ok(Seq::empty()),
            SpecStep::Fail(e) => Err(e),
            SpecStep::Skip(extra) => {
                let i2 = i + 1 + extra;
                let pos2 = adv_pos(line, col, s.subrange(i as int, min_nat(i2, s.len()) as int));
                spec_scan(s, i2, pos2.0, pos2.1)
            },
            SpecStep::Tok(t, extra) => {
                let i2 = i + 1 + extra;
                let pos2 = adv_pos(line, col, s.subrange(i as int, min_nat(i2, s.len()) as int));
                match spec_scan(s, i2, pos2.0, pos2.1) {
                    Ok(ts) => Ok(seq![t] + ts),
                    Err(e) => Err(e),
                }
            },
        }
    }
}

/// The smaller of two naturals.
pub open spec fn min_nat(a: nat, b: nat) -> nat {
    if a <= b {
        a
    } else {
        b
    }
}

/// The token sequence of a whole input, without the end marker, or the first
/// lexical error.  Lines and columns start at one.
pub open spec fn spec_tokenize(s: Seq<char>) -> Result<Seq<SpecToken>, LexError> {
    spec_scan(s, 0, 1, 1)
}

/// Relies on `String`'s `FromIterator` over `char`: the collected string
/// holds exactly the given characters, in order.
#[verifier::external_body]
pub(crate) fn string_from_chars(v: &Vec<char>) -> (s: String)
    ensures
        s@ == v@,
{
    v.iter().collect()
}

/// The characters of `s`, as a vector.
fn string_chars(s: &str) -> (r: Vec<char>)
    ensures
        r@ == s@,
{
    let n = s.unicode_len();
    let mut r: Vec<char> = Vec::new();
    let mut i: usize = 0;
    while i < n
        invariant
            i <= n,
            n == s@.len(),
            r@ == s@.take(i as int),
        decreases n - i,
    {
        let c = s.get_char(i);
        r.push(c);
        i = i + 1;
        assert(r@ =~= s@.take(i as int));
    }
    assert(s@.take(n as int) =~= s@);
    r
}

/// Whether `c` is a decimal digit.
pub fn is_digit(c: char) -> (r: bool)
    ensures
        r == is_digit_char(c),
{
    match c {
        '0' | '1' | '2' | '3' | '4' | '5' | '6' | '7' | '8' | '9' => true,
        _ => false,
    }
}

/// Whether `c` is an ASCII letter.
fn is_ascii_letter_exec(c: char) -> (r: bool)
    ensures
        r == is_ascii_letter(c),
{
    (c >= 'a' && c <= 'z') || (c >= 'A' && c <= 'Z')
}

/// Whether `c` may start an identifier.
fn is_ident_start_exec(c: char) -> (r: bool)
    ensures
        r == is_ident_start(c),
{
    is_ascii_letter_exec(c) || c == '_'
}

/// Whether `c` may continue an identifier.
fn is_ident_cont_exec(c: char) -> (r: bool)
    ensures
        r == is_ident_cont(c),
{
    is_ascii_letter_exec(c) || is_digit(c)
}

/// The maximal run of decimal digits starting at `start`: its text and the
/// index just past it.
pub fn get_numeric_string(src: &Vec<char>, start: usize) -> (r: (String, usize))
    requires
        start <= src@.len(),
    ensures
        r.1 as nat == digits_end(src@, start as nat),
        start <= r.1 <= src@.len(),
        r.0@ == src@.subrange(start as int, r.1 as int),
{
    let n = src.len();
    let mut p: usize = start;
    let mut text: Vec<char> = Vec::new();
    while p < n && is_digit(src[p])
        invariant
            start <= p <= n,
            n == src@.len(),
            digits_end(src@, p as nat) == digits_end(src@, start as nat),
            text@ == src@.subrange(start as int, p as int),
        decreases n - p,
    {
        text.push(src[p]);
        p = p + 1;
        assert(text@ =~= src@.subrange(start as int, p as int));
    }
    let s = string_from_chars(&text);
    (s, p)
}

/// The keyword token spelled by the characters `text`, if any, as
/// [`keyword_token`] says.  The reserved words are compared in place; no
/// table is built and nothing is allocated.
#[verifier::rlimit(60)]
fn keyword_lookup(text: &Vec<char>) -> (r: Option<Token>)
    ensures
        match r {
            Some(t) => keyword_token(text@) == Some(t@),
            None => keyword_token(text@) is None,
        },
{
    proof {
        reveal_strlit("and");
        assert("and"@ =~= seq!['a', 'n', 'd']);
        reveal_strlit("class");
        assert("class"@ =~= seq!['c', 'l', 'a', 's', 's']);
        reveal_strlit("else");
        assert("else"@ =~= seq!['e', 'l', 's', 'e']);
        reveal_strlit("false");
        assert("false"@ =~= seq!['f', 'a', 'l', 's', 'e']);
        reveal_strlit("fun");
        assert("fun"@ =~= seq!['f', 'u', 'n']);
        reveal_strlit("for");
        assert("for"@ =~= seq!['f', 'o', 'r']);
        reveal_strlit("if");
        assert("if"@ =~= seq!['i', 'f']);
        reveal_strlit("nil");
        assert("nil"@ =~= seq!['n', 'i', 'l']);
        reveal_strlit("or");
        assert("or"@ =~= seq!['o', 'r']);
        reveal_strlit("print");
        assert("print"@ =~= seq!['p', 'r', 'i', 'n', 't']);
        reveal_strlit("return");
        assert("return"@ =~= seq!['r', 'e', 't', 'u', 'r', 'n']);
        reveal_strlit("super");
        assert("super"@ =~= seq!['s', 'u', 'p', 'e', 'r']);
        reveal_strlit("this");
        assert("this"@ =~= seq!['t', 'h', 'i', 's']);
        reveal_strlit("true");
        assert("true"@ =~= seq!['t', 'r', 'u', 'e']);
        reveal_strlit("var");
        assert("var"@ =~= seq!['v', 'a', 'r']);
        reveal_strlit("while");
        assert("while"@ =~= seq!['w', 'h', 'i', 'l', 'e']);
    }
    if text.len() == 3 && text[0] == 'a' && text[1] == 'n' && text[2] == 'd' {
        proof {
            assert(text@ =~= "and"@);
        }
        Some(Token::AND)
    } else if text.len() == 5 && text[0] == 'c' && text[1] == 'l' && text[2] == 'a' && text[3] == 's' && text[4] == 's' {
        proof {
            assert(text@ =~= "class"@);
        }
        Some(Token::CLASS)
    } else if text.len() == 4 && text[0] == 'e' && text[1] == 'l' && text[2] == 's' && text[3] == 'e' {
        proof {
            assert(text@ =~= "else"@);
        }
        Some(Token::ELSE)
    } else if text.len() == 5 && text[0] == 'f' && text[1] == 'a' && text[2] == 'l' && text[3] == 's' && text[4] == 'e' {
        proof {
            assert(text@ =~= "false"@);
        }
        Some(Token::FALSE)
    } else if text.len() == 3 && text[0] == 'f' && text[1] == 'u' && text[2] == 'n' {
        proof {
            assert(text@ =~= "fun"@);
        }
        Some(Token::FUN)
    } else if text.len() == 3 && text[0] == 'f' && text[1] == 'o' && text[2] == 'r' {
        proof {
            assert(text@ =~= "for"@);
        }
        Some(Token::FOR)
    } else if text.len() == 2 && text[0] == 'i' && text[1] == 'f' {
        proof {
            assert(text@ =~= "if"@);
        }
        Some(Token::IF)
    } else if text.len() == 3 && text[0] == 'n' && text[1] == 'i' && text[2] == 'l' {
        proof {
            assert(text@ =~= "nil"@);
        }
        Some(Token::NIL)
    } else if text.len() == 2 && text[0] == 'o' && text[1] == 'r' {
        proof {
            assert(text@ =~= "or"@);
        }
        Some(Token::OR)
    } else if text.len() == 5 && text[0] == 'p' && text[1] == 'r' && text[2] == 'i' && text[3] == 'n' && text[4] == 't' {
        proof {
            assert(text@ =~= "print"@);
        }
        Some(Token::PRINT)
    } else if text.len() == 6 && text[0] == 'r' && text[1] == 'e' && text[2] == 't' && text[3] == 'u' && text[4] == 'r' && text[5] == 'n' {
        proof {
            assert(text@ =~= "return"@);
        }
        Some(Token::RETURN)
    } else if text.len() == 5 && text[0] == 's' && text[1] == 'u' && text[2] == 'p' && text[3] == 'e' && text[4] == 'r' {
        proof {
            assert(text@ =~= "super"@);
        }
        Some(Token::SUPER)
    } else if text.len() == 4 && text[0] == 't' && text[1] == 'h' && text[2] == 'i' && text[3] == 's' {
        proof {
            assert(text@ =~= "this"@);
        }
        Some(Token::THIS)
    } else if text.len() == 4 && text[0] == 't' && text[1] == 'r' && text[2] == 'u' && text[3] == 'e' {
        proof {
            assert(text@ =~= "true"@);
        }
        Some(Token::TRUE)
    } else if text.len() == 3 && text[0] == 'v' && text[1] == 'a' && text[2] == 'r' {
        proof {
            assert(text@ =~= "var"@);
        }
        Some(Token::VAR)
    } else if text.len() == 5 && text[0] == 'w' && text[1] == 'h' && text[2] == 'i' && text[3] == 'l' && text[4] == 'e' {
        proof {
            assert(text@ =~= "while"@);
        }
        Some(Token::WHILE)
    } else {
        None
    }
}

/// Pick between a one- and a two-character operator token: when the
/// character at `i` is `char_to_match` the two-character token applies and
/// one more character is consumed.
fn look_ahead_1_char(
    src: &Vec<char>,
    i: usize,
    char_to_match: char,
    if_match: Token,
    else_match: Token,
) -> (r: (Token, usize))
    ensures
        i < src@.len() && src@[i as int] == char_to_match ==> r == (if_match, 1usize),
        !(i < src@.len() && src@[i as int] == char_to_match) ==> r == (else_match, 0usize),
{
    if i < src.len() && src[i] == char_to_match {
        (if_match, 1)
    } else {
        (else_match, 0)
    }
}

/// The string literal whose opening quote stands just before `start`:
/// the token and the index of the closing quote, or `None` when the input
/// ends first.
fn get_string_literal_token(src: &Vec<char>, start: usize) -> (r: Option<(Token, usize)>)
    requires
        start <= src@.len(),
    ensures
        ({
            let j = string_end(src@, start as nat);
            match r {
                Some(p) => j < src@.len() && p.1 as nat == j && p.0@ == SpecToken::StrLit(
                    src@.subrange(start as int, j as int),
                ),
                None => j >= src@.len(),
            }
        }),
{
    let n = src.len();
    let mut p: usize = start;
    let mut content: Vec<char> = Vec::new();
    while p < n && src[p] != '"'
        invariant
            start <= p <= n,
            n == src@.len(),
            string_end(src@, p as nat) == string_end(src@, start as nat),
            content@ == src@.subrange(start as int, p as int),
        decreases n - p,
    {
        content.push(src[p]);
        p = p + 1;
        assert(content@ =~= src@.subrange(start as int, p as int));
    }
    if p >= n {
        None
    } else {
        let s = string_from_chars(&content);
        Some((Token::STRING(s), p))
    }
}

/// The number literal starting at `i` (which holds a digit): the token and
/// the index just past the literal, or a range error, exactly as
/// [`spec_number_step`] says.
#[verifier::loop_isolation(false)]
#[verifier::rlimit(50)]
fn get_numeric_literal(src: &Vec<char>, i: usize, line: usize, col: usize) -> (r: Result<
    (Token, usize),
    LexError,
>)
    requires
        i < src@.len(),
        is_digit_char(src@[i as int]),
    ensures
        match r {
            Ok(p) => spec_number_step(src@, i as nat, line as nat, col as nat) == SpecStep::Tok(
                p.0@,
                (p.1 - i - 1) as nat,
            ) && i < p.1 <= src@.len() && token_wf(p.0@),
            Err(e) => spec_number_step(src@, i as nat, line as nat, col as nat)
                == SpecStep::Fail(e),
        },
{
    let ghost s = src@;
    let n = src.len();
    let j = get_numeric_string(src, i + 1).1;
    proof {
        lemma_digits_end(s, (i + 1) as nat);
    }
    let has_frac = j < n && src[j] == '.' && j + 1 < n && is_digit(src[j + 1]);
    let k = if has_frac {
        get_numeric_string(src, j + 1).1
    } else {
        j
    };
    proof {
        if has_frac {
            lemma_digits_end(s, (j + 1) as nat);
        }
    }
    let mut e = k;
    if has_frac {
        while e > j + 1 && src[e - 1] == '0'
            invariant
                j + 1 <= e <= k <= n,
                n == s.len(),
                src@ == s,
                strip_trailing_zeros(s.subrange(j as int + 1, k as int)) == strip_trailing_zeros(
                    s.subrange(j as int + 1, e as int),
                ),
            decreases e,
        {
            proof {
                assert(s.subrange(j as int + 1, e as int).last() == s[e - 1]);
                assert(s.subrange(j as int + 1, e as int).drop_last() =~= s.subrange(
                    j as int + 1,
                    e as int - 1,
                ));
            }
            e = e - 1;
        }
    }
    let ghost frac: Seq<char> = if has_frac {
        s.subrange(j as int + 1, e as int)
    } else {
        Seq::empty()
    };
    proof {
        if has_frac {
            if e == j + 1 {
                assert(frac.len() == 0);
            }
            assert(strip_trailing_zeros(s.subrange(j as int + 1, k as int)) == frac);
        } else {
            assert(e == j);
        }
    }
    let frac_len: usize = if has_frac {
        e - (j + 1)
    } else {
        0
    };
    if frac_len > SCALE_MAX as usize {
        return Err(LexError::NumberOutOfRange { line, col });
    }
    let ghost combined = s.subrange(i as int, j as int) + frac;
    let mut acc: u64 = 0;
    let mut p: usize = i;
    proof {
        assert(combined.take(0) =~= Seq::<char>::empty());
    }
    while p < j
        invariant
            i <= p <= j <= n,
            n == s.len(),
            src@ == s,
            combined == s.subrange(i as int, j as int) + frac,
            forall|q: int| i <= q < j ==> is_digit_char(s[q]),
            acc as nat == digits_val(combined.take((p - i) as int)),
            acc <= MANT_MAX,
        decreases j - p,
    {
        let c = src[p];
        proof {
            assert(combined[(p - i) as int] == s[p as int]);
            lemma_digits_val_push(combined.take((p - i) as int), c);
            assert(combined.take((p - i + 1) as int) =~= combined.take((p - i) as int).push(
                combined[(p - i) as int],
            ));
        }
        let d: u64 = (c as u32 - 48) as u64;
        proof {
            assert(is_digit_char(c));
            assert(d as nat == digit_val(c));
        }
        let acc2: u64 = acc * 10 + d;
        if acc2 > MANT_MAX {
            proof {
                lemma_digits_val_take_le(combined, (p - i + 1) as int);
                assert(acc2 as nat == digits_val(combined.take((p - i + 1) as int)));
                assert(digits_val(combined) > MANT_MAX);
            }
            return Err(LexError::NumberOutOfRange { line, col });
        }
        acc = acc2;
        p = p + 1;
    }
    if has_frac {
        let mut p2: usize = j + 1;
        proof {
            assert(combined.take((j - i) as int) =~= combined.take((p2 - i - 1) as int));
        }
        while p2 < e
            invariant
                j + 1 <= p2 <= e <= k <= n,
                i < j + 1,
                n == s.len(),
                src@ == s,
                frac == s.subrange(j as int + 1, e as int),
                combined == s.subrange(i as int, j as int) + frac,
                forall|q: int| j + 1 <= q < k ==> is_digit_char(s[q]),
                acc as nat == digits_val(combined.take((p2 - i - 1) as int)),
                acc <= MANT_MAX,
            decreases e - p2,
        {
            let c = src[p2];
            proof {
                assert(combined[(p2 - i - 1) as int] == frac[(p2 - j - 1) as int]);
                assert(frac[(p2 - j - 1) as int] == s[p2 as int]);
                lemma_digits_val_push(combined.take((p2 - i - 1) as int), c);
                assert(combined.take((p2 - i) as int) =~= combined.take((p2 - i - 1) as int).push(
                    combined[(p2 - i - 1) as int],
                ));
            }
            let d: u64 = (c as u32 - 48) as u64;
            proof {
                assert(is_digit_char(c));
                assert(d as nat == digit_val(c));
            }
            let acc2: u64 = acc * 10 + d;
            if acc2 > MANT_MAX {
                proof {
                    lemma_digits_val_take_le(combined, (p2 - i) as int);
                    assert(acc2 as nat == digits_val(combined.take((p2 - i) as int)));
                    assert(digits_val(combined) > MANT_MAX);
                }
                return Err(LexError::NumberOutOfRange { line, col });
            }
            acc = acc2;
            p2 = p2 + 1;
        }
    }
    proof {
        assert(combined.take(combined.len() as int) =~= combined);
    }
    let scale: u32 = frac_len as u32;
    proof {
        if frac_len > 0 {
            assert(frac.len() > 0);
            assert(combined.last() == frac.last());
            assert(frac.last() == s[e - 1]);
            assert(is_digit_char(s[e - 1]));
            assert(s[e - 1] != '0');
            lemma_digits_val_last_mod(combined);
            assert(digit_val(s[e - 1]) != 0);
        }
    }
    Ok((Token::NUMBER(Num { neg: false, mag: acc, scale }), k))
}

/// The identifier or keyword starting at `i` (which holds an identifier
/// start character): the token and the index just past it.
#[verifier::loop_isolation(false)]
fn get_identifers_or_keywords(src: &Vec<char>, i: usize) -> (r: (Token, usize))
    requires
        i < src@.len(),
        is_ident_start(src@[i as int]),
    ensures
        ({
            let j = ident_end(src@, i as nat + 1);
            let text = src@.subrange(i as int, j as int);
            &&& r.1 as nat == j
            &&& i < r.1 <= src@.len()
            &&& (match keyword_token(text) {
                Some(t) => r.0@ == t,
                None => r.0@ == SpecToken::Identifier(text),
            })
            &&& token_wf(r.0@)
        }),
{
    let ghost s = src@;
    let n = src.len();
    let mut p: usize = i + 1;
    let mut text: Vec<char> = Vec::new();
    text.push(src[i]);
    proof {
        assert(text@ =~= s.subrange(i as int, i as int + 1));
        lemma_ident_end(s, i as nat + 1);
    }
    while p < n && is_ident_cont_exec(src[p])
        invariant
            i + 1 <= p <= n,
            ident_end(s, p as nat) == ident_end(s, i as nat + 1),
            text@ == s.subrange(i as int, p as int),
        decreases n - p,
    {
        text.push(src[p]);
        p = p + 1;
        assert(text@ =~= s.subrange(i as int, p as int));
    }
    match keyword_lookup(&text) {
        Some(t) => (t, p),
        None => (Token::IDENTIFIER(string_from_chars(&text)), p),
    }
}

/// The outcome of one scanner step: a token, skipped characters, the end of
/// the input, or an error.  A token or a skip consumes `1 + extra`
/// characters.
enum StepOut {
    Tok(Token, usize),
    Skip(usize),
    End,
    Fail(LexError),
}

/// One scanner step at position `i`, exactly as [`spec_step`] says.
#[verifier::loop_isolation(false)]
fn scan_single_token(src: &Vec<char>, i: usize, line: usize, col: usize) -> (r: StepOut)
    requires
        i <= src@.len(),
    ensures
        match r {
            StepOut::Tok(t, extra) => spec_step(src@, i as nat, line as nat, col as nat)
                == SpecStep::Tok(t@, extra as nat) && i + 1 + extra <= src@.len() && token_wf(t@),
            StepOut::Skip(extra) => spec_step(src@, i as nat, line as nat, col as nat)
                == SpecStep::Skip(extra as nat) && i + 1 + extra <= src@.len(),
            StepOut::End => i == src@.len(),
            StepOut::Fail(e) => spec_step(src@, i as nat, line as nat, col as nat)
                == SpecStep::Fail(e),
        },
{
    let ghost s = src@;
    let n = src.len();
    if i >= n {
        return StepOut::End;
    }
    let c = src[i];
    match c {
        '(' => StepOut::Tok(Token::LEFT_PAREN, 0),
        ')' => StepOut::Tok(Token::RIGHT_PAREN, 0),
        '{' => StepOut::Tok(Token::LEFT_BRACE, 0),
        '}' => StepOut::Tok(Token::RIGHT_BRACE, 0),
        ',' => StepOut::Tok(Token::COMMA, 0),
        '.' => StepOut::Tok(Token::DOT, 0),
        '-' => StepOut::Tok(Token::MINUS, 0),
        '+' => StepOut::Tok(Token::PLUS, 0),
        ';' => StepOut::Tok(Token::SEMICOLON, 0),
        '*' => StepOut::Tok(Token::STAR, 0),
        '!' => {
            let la = look_ahead_1_char(src, i + 1, '=', Token::BANG_EQUAL, Token::BANG);
            StepOut::Tok(la.0, la.1)
        },
        '=' => {
            let la = look_ahead_1_char(src, i + 1, '=', Token::EQUAL_EQUAL, Token::EQUAL);
            StepOut::Tok(la.0, la.1)
        },
        '<' => {
            let la = look_ahead_1_char(src, i + 1, '=', Token::LESS_EQUAL, Token::LESS);
            StepOut::Tok(la.0, la.1)
        },
        '>' => {
            let la = look_ahead_1_char(src, i + 1, '=', Token::GREATER_EQUAL, Token::GREATER);
            StepOut::Tok(la.0, la.1)
        },
        '/' => {
            if i + 1 < n && src[i + 1] == '/' {
                let mut q: usize = i + 2;
                while q < n && src[q] != '\n'
                    invariant
                        i + 2 <= q <= n,
                        line_end(s, q as nat) == line_end(s, i as nat + 2),
                    decreases n - q,
                {
                    q = q + 1;
                }
                StepOut::Skip(q - i - 1)
            } else {
                StepOut::Tok(Token::SLASH, 0)
            }
        },
        ' ' | '\r' | '\t' | '\n' => StepOut::Skip(0),
        '"' => {
            proof {
                lemma_string_end(s, i as nat + 1);
            }
            match get_string_literal_token(src, i + 1) {
                Some(tj) => StepOut::Tok(tj.0, tj.1 - i),
                None => StepOut::Fail(LexError::UnterminatedString { line, col }),
            }
        },
        other => {
            if is_digit(other) {
                match get_numeric_literal(src, i, line, col) {
                    Ok(tk) => StepOut::Tok(tk.0, tk.1 - i - 1),
                    Err(e) => StepOut::Fail(e),
                }
            } else if is_ident_start_exec(other) {
                let tj = get_identifers_or_keywords(src, i);
                StepOut::Tok(tj.0, tj.1 - i - 1)
            } else {
                StepOut::Fail(LexError::UnexpectedChar { ch: other, line, col })
            }
        },
    }
}

/// Advance the tracked line/column position from input offset `i` to `i2`.
#[verifier::loop_isolation(false)]
fn advance_pos(chars: &Vec<char>, i: usize, i2: usize, line: usize, col: usize) -> (r: (
    usize,
    usize,
))
    requires
        i <= i2 <= chars@.len(),
        chars@.len() < usize::MAX,
        line as nat == adv_pos(1, 1, chars@.take(i as int)).0,
        col as nat == adv_pos(1, 1, chars@.take(i as int)).1,
    ensures
        r.0 as nat == adv_pos(1, 1, chars@.take(i2 as int)).0,
        r.1 as nat == adv_pos(1, 1, chars@.take(i2 as int)).1,
{
    let ghost s = chars@;
    let mut p: usize = i;
    let mut l: usize = line;
    let mut c: usize = col;
    while p < i2
        invariant
            i <= p <= i2,
            l as nat == adv_pos(1, 1, s.take(p as int)).0,
            c as nat == adv_pos(1, 1, s.take(p as int)).1,
        decreases i2 - p,
    {
        proof {
            lemma_adv_pos_bounds(1, 1, s.take(p as int));
            assert(s.take(p as int + 1) =~= s.take(p as int) + seq![s[p as int]]);
            lemma_adv_pos_concat(1, 1, s.take(p as int), seq![s[p as int]]);
            lemma_adv_pos_single(l as nat, c as nat, s[p as int]);
        }
        if chars[p] == '\n' {
            l = l + 1;
            c = 1;
        } else {
            c = c + 1;
        }
        p = p + 1;
    }
    (l, c)
}

/// The sequence view of a token vector.
pub open spec fn token_views(ts: Seq<Token>) -> Seq<SpecToken> {
    ts.map_values(|t: Token| t@)
}

/// The line/column start positions of the tokens of the input from
/// position `i` on (line `line`, column `col`), one pair per token of
/// [`spec_scan`], or the first lexical error.
pub open spec fn spec_scan_starts(s: Seq<char>, i: nat, line: nat, col: nat) -> Result<
    Seq<(nat, nat)>,
    LexError,
>
    decreases rem_len(s, i),
{
    if i >= s.len() {
        Ok(Seq::empty())
    } else {
        match spec_step(s, i, line, col) {
            SpecStep::End => Ok(Seq::empty()),
            SpecStep::Fail(e) => Err(e),
            SpecStep::Skip(extra) => {
                let i2 = i + 1 + extra;
                let pos2 = adv_pos(line, col, s.subrange(i as int, min_nat(i2, s.len()) as int));
                spec_scan_starts(s, i2, pos2.0, pos2.1)
            },
            SpecStep::Tok(t, extra) => {
                let i2 = i + 1 + extra;
                let pos2 = adv_pos(line, col, s.subrange(i as int, min_nat(i2, s.len()) as int));
                match spec_scan_starts(s, i2, pos2.0, pos2.1) {
                    Ok(ps) => Ok(seq![(line, col)] + ps),
                    Err(e) => Err(e),
                }
            },
        }
    }
}

/// The line/column start position of each token of a whole input, without
/// the end marker, or the first lexical error.
pub open spec fn spec_token_starts(s: Seq<char>) -> Result<Seq<(nat, nat)>, LexError> {
    spec_scan_starts(s, 0, 1, 1)
}

/// The sequence view of a position vector.
pub open spec fn pos_views(ps: Seq<(usize, usize)>) -> Seq<(nat, nat)> {
    ps.map_values(|p: (usize, usize)| (p.0 as nat, p.1 as nat))
}

/// Scan a whole source string into its token list, ending in the
/// end-of-input marker, together with the line/column start position of
/// each token, or report the first lexical error.
///
/// On success the token list is exactly what [`spec_tokenize`] says,
/// followed by the end marker; the end marker is the last token and appears
/// exactly once; every number token is canonical; and the positions are one
/// per token, exactly what [`spec_token_starts`] says, with the end marker
/// placed just past the last character.  A parse error's token index thus
/// maps to a source line and column through the position list.
#[verifier::loop_isolation(false)]
pub fn scan_tokens_with_positions(source: &String) -> (r: Result<
    (Vec<Token>, Vec<(usize, usize)>),
    LexError,
>)
    requires
        source@.len() < usize::MAX,
    ensures
        match r {
            Ok(tp) => {
                &&& tp.0@.len() >= 1
                &&& tp.0@.last() == Token::EOF
                &&& (forall|q: int| 0 <= q < tp.0@.len() - 1 ==> tp.0@[q] != Token::EOF)
                &&& (forall|q: int| 0 <= q < tp.0@.len() ==> token_wf(#[trigger] tp.0@[q]@))
                &&& spec_tokenize(source@) == Ok::<Seq<SpecToken>, LexError>(
                    token_views(tp.0@).drop_last(),
                )
                &&& tp.1@.len() == tp.0@.len()
                &&& spec_token_starts(source@) == Ok::<Seq<(nat, nat)>, LexError>(
                    pos_views(tp.1@).drop_last(),
                )
                &&& pos_views(tp.1@).last() == adv_pos(1, 1, source@)
            },
            Err(e) => spec_tokenize(source@) == Err::<Seq<SpecToken>, LexError>(e)
                && spec_token_starts(source@) == Err::<Seq<(nat, nat)>, LexError>(e),
        },
{
    let chars = string_chars(source.as_str());
    let ghost s = source@;
    let n = chars.len();
    let mut toks: Vec<Token> = Vec::new();
    let mut poss: Vec<(usize, usize)> = Vec::new();
    let mut i: usize = 0;
    let mut line: usize = 1;
    let mut col: usize = 1;
    proof {
        assert(s.take(0) =~= Seq::<char>::empty());
        assert(token_views(toks@) =~= Seq::<SpecToken>::empty());
        assert(pos_views(poss@) =~= Seq::<(nat, nat)>::empty());
    }
    loop
        invariant
            i <= n,
            n == s.len(),
            chars@ == s,
            s.len() < usize::MAX,
            line as nat == adv_pos(1, 1, s.take(i as int)).0,
            col as nat == adv_pos(1, 1, s.take(i as int)).1,
            poss@.len() == toks@.len(),
            forall|q: int| 0 <= q < toks@.len() ==> toks@[q] != Token::EOF,
            forall|q: int| 0 <= q < toks@.len() ==> token_wf(#[trigger] toks@[q]@),
            (spec_scan(s, i as nat, line as nat, col as nat) matches Ok(ts) ==> spec_tokenize(s)
                == Ok::<Seq<SpecToken>, LexError>(token_views(toks@) + ts)),
            (spec_scan(s, i as nat, line as nat, col as nat) matches Err(e) ==> spec_tokenize(s)
                == Err::<Seq<SpecToken>, LexError>(e)),
            (spec_scan_starts(s, i as nat, line as nat, col as nat) matches Ok(ps)
                ==> spec_token_starts(s) == Ok::<Seq<(nat, nat)>, LexError>(
                pos_views(poss@) + ps,
            )),
            (spec_scan_starts(s, i as nat, line as nat, col as nat) matches Err(e)
                ==> spec_token_starts(s) == Err::<Seq<(nat, nat)>, LexError>(e)),
        decreases n - i,
    {
        let step = scan_single_token(&chars, i, line, col);
        match step {
            StepOut::End => {
                proof {
                    assert(spec_scan(s, i as nat, line as nat, col as nat) == Ok::<
                        Seq<SpecToken>,
                        LexError,
                    >(Seq::empty()));
                    assert(spec_scan_starts(s, i as nat, line as nat, col as nat) == Ok::<
                        Seq<(nat, nat)>,
                        LexError,
                    >(Seq::empty()));
                    assert(token_views(toks@) + Seq::<SpecToken>::empty() =~= token_views(toks@));
                    assert(pos_views(poss@) + Seq::<(nat, nat)>::empty() =~= pos_views(poss@));
                    assert(s.take(i as int) =~= s);
                }
                let ghost old_views = token_views(toks@);
                let ghost old_pviews = pos_views(poss@);
                toks.push(Token::EOF);
                poss.push((line, col));
                proof {
                    assert(token_views(toks@) =~= old_views.push(SpecToken::Eof));
                    assert(token_views(toks@).drop_last() =~= old_views);
                    assert(pos_views(poss@) =~= old_pviews.push((line as nat, col as nat)));
                    assert(pos_views(poss@).drop_last() =~= old_pviews);
                }
                return Ok((toks, poss));
            },
            StepOut::Fail(e) => {
                proof {
                    assert(spec_scan(s, i as nat, line as nat, col as nat) == Err::<
                        Seq<SpecToken>,
                        LexError,
                    >(e));
                    assert(spec_scan_starts(s, i as nat, line as nat, col as nat) == Err::<
                        Seq<(nat, nat)>,
                        LexError,
                    >(e));
                }
                return Err(e);
            },
            StepOut::Skip(extra) => {
                let i2 = i + 1 + extra;
                let pos = advance_pos(&chars, i, i2, line, col);
                proof {
                    assert(min_nat((i as nat + 1 + extra as nat), s.len()) == i2 as nat);
                    assert(s.take(i2 as int) =~= s.take(i as int) + s.subrange(
                        i as int,
                        i2 as int,
                    ));
                    lemma_adv_pos_concat(1, 1, s.take(i as int), s.subrange(i as int, i2 as int));
                }
                i = i2;
                line = pos.0;
                col = pos.1;
            },
            StepOut::Tok(t, extra) => {
                let i2 = i + 1 + extra;
                let pos = advance_pos(&chars, i, i2, line, col);
                proof {
                    assert(min_nat((i as nat + 1 + extra as nat), s.len()) == i2 as nat);
                    assert(s.take(i2 as int) =~= s.take(i as int) + s.subrange(
                        i as int,
                        i2 as int,
                    ));
                    lemma_adv_pos_concat(1, 1, s.take(i as int), s.subrange(i as int, i2 as int));
                }
                let ghost old_views = token_views(toks@);
                let ghost old_pviews = pos_views(poss@);
                let ghost tv = t@;
                let ghost pv = (line as nat, col as nat);
                toks.push(t);
                poss.push((line, col));
                proof {
                    assert(token_views(toks@) =~= old_views.push(tv));
                    assert(pos_views(poss@) =~= old_pviews.push(pv));
                    let next = spec_scan(
                        s,
                        i2 as nat,
                        adv_pos(1, 1, s.take(i2 as int)).0,
                        adv_pos(1, 1, s.take(i2 as int)).1,
                    );
                    match next {
                        Ok(rest) => {
                            assert(old_views + (seq![tv] + rest) =~= old_views.push(tv) + rest);
                        },
                        Err(_) => {},
                    }
                    let nextp = spec_scan_starts(
                        s,
                        i2 as nat,
                        adv_pos(1, 1, s.take(i2 as int)).0,
                        adv_pos(1, 1, s.take(i2 as int)).1,
                    );
                    match nextp {
                        Ok(ps) => {
                            assert(old_pviews + (seq![pv] + ps) =~= old_pviews.push(pv) + ps);
                        },
                        Err(_) => {},
                    }
                }
                i = i2;
                line = pos.0;
                col = pos.1;
            },
        }
    }
}

/// Scan a whole source string into its token list, ending in the
/// end-of-input marker, or report the first lexical error.
///
/// On success the token list is exactly what [`spec_tokenize`] says,
/// followed by the end marker; the end marker is the last token and appears
/// exactly once, and every number token is canonical.
pub fn scan_tokens(source: &String) -> (r: Result<Vec<Token>, LexError>)
    requires
        source@.len() < usize::MAX,
    ensures
        match r {
            Ok(toks) => {
                &&& toks@.len() >= 1
                &&& toks@.last() == Token::EOF
                &&& (forall|q: int| 0 <= q < toks@.len() - 1 ==> toks@[q] != Token::EOF)
                &&& (forall|q: int| 0 <= q < toks@.len() ==> token_wf(#[trigger] toks@[q]@))
                &&& spec_tokenize(source@) == Ok::<Seq<SpecToken>, LexError>(
                    token_views(toks@).drop_last(),
                )
            },
            Err(e) => spec_tokenize(source@) == Err::<Seq<SpecToken>, LexError>(e),
        },
{
    match scan_tokens_with_positions(source) {
        Ok(tp) => Ok(tp.0),
        Err(e) => Err(e),
    }
}

/// `digits_end` runs to exactly the end of a known digit run.
pub proof fn lemma_digits_end_reaches(s: Seq<char>, i: nat, m: nat)
    requires
        i <= m <= s.len(),
        forall|q: int| i <= q < m ==> is_digit_char(s[q]),
        m < s.len() ==> !is_digit_char(s[m as int]),
    ensures
        digits_end(s, i) == m,
    decreases m - i,
{
    if i < m {
        lemma_digits_end_reaches(s, i + 1, m);
    }
}

/// Display and lexing round-trip: lexing the canonical decimal text of a
/// canonical nonnegative number yields exactly that number token, followed
/// by nothing.
pub proof fn lemma_number_text_round_trip(n: Num)
    requires
        n.wf(),
        !n.neg,
    ensures
        spec_tokenize(spec_num_text(n)) == Ok::<Seq<SpecToken>, LexError>(
            seq![SpecToken::Number(n)],
        ),
{
    let text = spec_num_text(n);
    let mag = n.mag as nat;
    lemma_p10_values();
    if n.scale == 0 {
        let digits = dec_digits(mag);
        lemma_dec_digits_digits(mag);
        lemma_dec_digits_val(mag);
        assert(text =~= digits);
        let len = text.len();
        lemma_digits_end_reaches(text, 1, len as nat);
        assert(text.subrange(0, len as int) =~= text);
        assert(text.subrange(0, len as int) + Seq::<char>::empty() =~= text);
        assert(digits_val(text.subrange(0, len as int) + Seq::<char>::empty()) == mag);
        assert(Num { neg: false, mag: mag as u64, scale: 0u32 } == n);
        assert(spec_number_step(text, 0, 1, 1) == SpecStep::Tok(
            SpecToken::Number(n),
            (len - 1) as nat,
        ));
    } else {
        let scale = n.scale as nat;
        lemma_p10_pos(scale);
        let p = p10(scale) as nat;
        let ip = mag / p;
        let fp = mag % p;
        let idigits = dec_digits(ip);
        let fdigits = dec_digits_pad(fp, scale);
        lemma_dec_digits_digits(ip);
        lemma_pad_digits(fp, scale);
        lemma_dec_digits_val(ip);
        lemma_pad_val(fp, scale);
        assert(text =~= idigits + seq!['.'] + fdigits);
        let dl = idigits.len();
        let len = text.len();
        assert(len == dl + 1 + scale);
        assert forall|q: int| 0 <= q < dl implies is_digit_char(text[q]) by {
            assert(text[q] == idigits[q]);
        }
        assert(text[dl as int] == '.');
        assert forall|q: int| dl + 1 <= q < len implies is_digit_char(text[q]) by {
            assert(text[q] == fdigits[q - dl - 1]);
        }
        assert(!is_digit_char('.'));
        lemma_digits_end_reaches(text, 1, dl as nat);
        assert(dl + 1 < len);
        lemma_digits_end_reaches(text, dl as nat + 1, len as nat);
        assert(text.subrange(dl as int + 1, len as int) =~= fdigits);
        // the last fraction digit is not zero, so nothing is stripped
        assert(p10(scale) == 10 * p10((scale - 1) as nat)) by {
            lemma_p10_adds(1, (scale - 1) as nat);
        }
        lemma_p10_pos((scale - 1) as nat);
        lemma_mod_mod(mag as int, 10, p10((scale - 1) as nat));
        assert(fp % 10 == mag % 10);
        assert(mag % 10 != 0);
        lemma_digit_char_val(fp % 10);
        assert(fdigits.last() == digit_char(fp % 10));
        assert(fdigits.last() != '0');
        assert(strip_trailing_zeros(fdigits) == fdigits);
        // the digits read back to exactly the mantissa
        assert(text.subrange(0, dl as int) =~= idigits);
        lemma_digits_val_concat(idigits, fdigits);
        lemma_small_mod(fp, p);
        assert(digits_val(fdigits) == fp);
        lemma_fundamental_div_mod(mag as int, p10(scale));
        assert(digits_val(idigits + fdigits) == mag);
        assert(Num { neg: false, mag: mag as u64, scale: scale as u32 } == n);
        assert(spec_number_step(text, 0, 1, 1) == SpecStep::Tok(
            SpecToken::Number(n),
            (len - 1) as nat,
        ));
    }
    let len = text.len();
    assert(is_digit_char(text[0]));
    assert(spec_step(text, 0, 1, 1) == SpecStep::Tok(SpecToken::Number(n), (len - 1) as nat));
    let i2 = (1 + (len - 1) as nat) as nat;
    assert(i2 == len);
    assert(spec_scan(text, i2, adv_pos(1, 1, text.subrange(0, min_nat(i2, len as nat) as int)).0,
        adv_pos(1, 1, text.subrange(0, min_nat(i2, len as nat) as int)).1) == Ok::<
        Seq<SpecToken>,
        LexError,
    >(Seq::empty()));
    assert(seq![SpecToken::Number(n)] + Seq::<SpecToken>::empty() =~= seq![SpecToken::Number(n)]);
}

} // verus!
