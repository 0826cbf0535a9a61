//! Front end for a small dynamically typed expression language: a lexer that
//! turns source text into tokens, a precedence-climbing parser that builds an
//! expression/statement tree, and a tree-walking evaluator over a small value
//! model with exact decimal numbers.
//!
//! The pipeline is pure: [`run`] takes source text and hands back the lines
//! a `print` statement would emit, or the first error of the stage that
//! failed.  A driver owns all input and output.

pub mod interpreter;
pub mod num;
pub mod parser;
pub mod scanner;

use vstd::prelude::*;
use crate::scanner::{LexError, SpecToken, scan_tokens, spec_tokenize, token_views};
use crate::parser::{ParseError, SpecStmt, program, spec_parse_program};
use crate::interpreter::{RuntimeError, spec_exec_stmt, stmt_eval};

verus! {

/// An error of one of the front-end stages before execution.
#[derive(PartialEq, Eq, Structural, Clone, Copy, Debug)]
pub enum RunError {
    /// The lexer rejected the source text.
    Lex(LexError),
    /// The parser rejected the token sequence.
    Parse(ParseError),
}

/// What running a program yields: the print outputs of the statements that
/// ran, and the runtime error that stopped execution, if one did.
#[derive(PartialEq, Debug)]
pub struct RunOutcome {
    /// The display text of each `print` statement, in execution order.
    pub outputs: Vec<String>,
    /// The first runtime error, if execution stopped early.
    pub error: Option<RuntimeError>,
}

/// The sequence view of a string vector.
pub open spec fn string_views(ss: Seq<String>) -> Seq<Seq<char>> {
    ss.map_values(|s: String| s@)
}

/// Execute statements in order: collect each print output, stopping at the
/// first runtime error.
pub open spec fn spec_run_stmts(ss: Seq<SpecStmt>) -> (Seq<Seq<char>>, Option<RuntimeError>)
    decreases ss.len(),
{
    if ss.len() == 0 {
        (Seq::empty(), None)
    } else {
        match spec_exec_stmt(ss[0]) {
            Err(er) => (Seq::empty(), Some(er)),
            Ok(out) => {
                let rest = spec_run_stmts(ss.subrange(1, ss.len() as int));
                let head: Seq<Seq<char>> = match out {
                    Some(t) => seq![t],
                    None => Seq::empty(),
                };
                (head + rest.0, rest.1)
            },
        }
    }
}

/// The whole pipeline on source text: tokens, then statements, then
/// execution, or the first lexical or parse error.
pub open spec fn spec_run_source(s: Seq<char>) -> Result<
    (Seq<Seq<char>>, Option<RuntimeError>),
    RunError,
> {
    match spec_tokenize(s) {
        Err(le) => Err(RunError::Lex(le)),
        Ok(ts) => match spec_parse_program(ts.push(SpecToken::Eof)) {
            Err(pe) => Err(RunError::Parse(pe)),
            Ok(ss) => Ok(spec_run_stmts(ss)),
        },
    }
}

/// Run a source text: scan it, parse it, and execute its statements in
/// order, handing back the print outputs and the first runtime error if
/// execution stopped early, exactly as [`spec_run_source`] says.
#[verifier::loop_isolation(false)]
pub fn run(source: &String) -> (r: Result<RunOutcome, RunError>)
    requires
        source@.len() < usize::MAX,
    ensures
        match r {
            Ok(outcome) => spec_run_source(source@) == Ok::<
                (Seq<Seq<char>>, Option<RuntimeError>),
                RunError,
            >((string_views(outcome.outputs@), outcome.error)),
            Err(re) => spec_run_source(source@) == Err::<
                (Seq<Seq<char>>, Option<RuntimeError>),
                RunError,
            >(re),
        },
{
    let token_list = match scan_tokens(source) {
        Ok(ts) => ts,
        Err(le) => {
            return Err(RunError::Lex(le));
        },
    };
    proof {
        let tv = token_views(token_list@);
        assert(tv.drop_last().push(SpecToken::Eof) =~= tv);
    }
    let statements = match program(&token_list) {
        Ok(ss) => ss,
        Err(pe) => {
            return Err(RunError::Parse(pe));
        },
    };
    let ghost sv = crate::parser::stmt_views(statements@);
    let n = statements.len();
    let mut outputs: Vec<String> = Vec::new();
    let mut i: usize = 0;
    proof {
        assert(string_views(outputs@) =~= Seq::<Seq<char>>::empty());
        assert(sv.subrange(0, sv.len() as int) =~= sv);
    }
    while i < n
        invariant
            i <= n,
            n == sv.len(),
            spec_run_stmts(sv) == ({
                let rest = spec_run_stmts(sv.subrange(i as int, sv.len() as int));
                ((string_views(outputs@) + rest.0, rest.1))
            }),
        decreases n - i,
    {
        let ghost remaining = sv.subrange(i as int, sv.len() as int);
        proof {
            assert(remaining[0] == sv[i as int]);
            assert(remaining.subrange(1, remaining.len() as int) =~= sv.subrange(
                i as int + 1,
                sv.len() as int,
            ));
            assert(statements@[i as int]@ == sv[i as int]);
        }
        match stmt_eval(&statements[i]) {
            Ok(Some(text)) => {
                let ghost old_views = string_views(outputs@);
                let ghost tv = text@;
                outputs.push(text);
                proof {
                    assert(string_views(outputs@) =~= old_views.push(tv));
                    let rest2 = spec_run_stmts(sv.subrange(i as int + 1, sv.len() as int));
                    assert(old_views + (seq![tv] + rest2.0) =~= old_views.push(tv) + rest2.0);
                }
            },
            Ok(None) => {
                proof {
                    let rest2 = spec_run_stmts(sv.subrange(i as int + 1, sv.len() as int));
                    assert(string_views(outputs@) + (Seq::<Seq<char>>::empty() + rest2.0)
                        =~= string_views(outputs@) + rest2.0);
                }
            },
            Err(er) => {
                proof {
                    assert(string_views(outputs@) + Seq::<Seq<char>>::empty() =~= string_views(
                        outputs@,
                    ));
                }
                return Ok(RunOutcome { outputs, error: Some(er) });
            },
        }
        i = i + 1;
    }
    proof {
        assert(sv.subrange(n as int, sv.len() as int) =~= Seq::<SpecStmt>::empty());
        assert(string_views(outputs@) + Seq::<Seq<char>>::empty() =~= string_views(outputs@));
    }
    Ok(RunOutcome { outputs, error: None })
}

} // verus!
