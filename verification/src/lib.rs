//! Warden: a small language whose one rule is that every binding has a
//! single owner. A source text goes through four stages, each of which sees
//! only what the one before it produced:
//!
//! lexer (characters to tokens) → parser (tokens to a program) → checker
//! (ownership) → interpreter (runs the program, collecting what it prints).
//!
//! `check_source` runs the first three stages, `run_source` all four; the
//! interpreter runs a program only once the checker has approved it.

pub mod ast;
pub mod checker;
pub mod interpreter;
pub mod lexer;
pub mod names;
pub mod number;
pub mod parser;
pub mod sorting;
pub mod text;

use vstd::prelude::*;
use crate::ast::{stmts_view, SStmt, Stmt};
use crate::checker::{check_program_spec, Checker};
use crate::interpreter::{exec_as, law_more_fuel_same_outcome, run_spec, values_view, Exec, Interpreter, Stop, Value};
use crate::lexer::{
    has_malformed_number, law_lexed_tokens_end_with_eof, lex_from, tokens_view, unexpected_char_message,
    LexOutcome, Lexer,
};
use crate::parser::{law_parser_stays_within_eof_terminated_tokens, program_spec, Parsed, Parser};

verus! {

/// What lexing, parsing and checking `source` comes to: the program, or the
/// error of the first stage that refuses it, behind that stage's name.
pub open spec fn front_end_spec(source: Seq<char>) -> Result<Seq<SStmt>, Seq<char>> {
    match lex_from(source, 0) {
        LexOutcome::Tokens(ts) => match program_spec(ts, 0) {
            Parsed::Done(program, _) => match check_program_spec(program) {
                Ok(_) => Ok(program),
                Err(m) => Err("ownership error: "@ + m),
            },
            Parsed::Failed(m, _) => Err("parse error: "@ + m),
            // Never: the lexed tokens end with `Eof`.
            Parsed::OutOfTokens => Err(Seq::empty()),
        },
        LexOutcome::BadChar(i) => Err("lex error: "@ + unexpected_char_message(source[i])),
        // Left out by the callers' preconditions.
        LexOutcome::BadNumber(_) => Err(Seq::empty()),
    }
}

/// What `check_source` gives.
pub open spec fn check_source_spec(source: Seq<char>) -> Result<(), Seq<char>> {
    match front_end_spec(source) {
        Ok(_) => Ok(()),
        Err(m) => Err(m),
    }
}

/// A runtime error, behind the name of its stage.
pub open spec fn runtime_prefixed(r: Exec<()>) -> Exec<()> {
    match r {
        Exec::Failed(m, o) => Exec::Failed("runtime error: "@ + m, o),
        other => other,
    }
}

/// What `run_source` comes to, with the values it prints.
pub open spec fn run_source_spec(source: Seq<char>, fuel: nat) -> Exec<()> {
    match front_end_spec(source) {
        Ok(program) => runtime_prefixed(run_spec(program, Map::empty(), fuel)),
        Err(m) => Exec::Failed(m, Seq::empty()),
    }
}

/// `prefix`, then `message`.
fn prefixed(prefix: &str, message: &str) -> (r: String)
    ensures
        r@ == prefix@ + message@,
{
    let mut r = String::new();
    r.append(prefix);
    r.append(message);
    assert(r@ =~= prefix@ + message@);
    r
}

/// Lex → parse → check: the program, or the first error.
fn front_end(source: &str) -> (r: Result<Vec<Stmt>, String>)
    requires
        !(lex_from(source@, 0) is BadNumber),
    ensures
        match front_end_spec(source@) {
            Ok(program) => r matches Ok(p) && stmts_view(p@) == program,
            Err(m) => r matches Err(x) && x@ == m,
        },
{
    let mut lexer = Lexer::new(source);
    let tokens = match lexer.tokenize() {
        Ok(t) => t,
        Err(e) => {
            return Err(prefixed("lex error: ", e.as_str()));
        },
    };
    proof {
        law_lexed_tokens_end_with_eof(source@, 0);
        law_parser_stays_within_eof_terminated_tokens(tokens_view(tokens@));
    }
    let mut parser = Parser::new(tokens);
    let program = match parser.parse_program() {
        Ok(p) => p,
        Err(e) => {
            return Err(prefixed("parse error: ", e.as_str()));
        },
    };
    let mut checker = Checker::new();
    match checker.check_program(&program) {
        Ok(()) => Ok(program),
        Err(e) => Err(prefixed("ownership error: ", e.as_str())),
    }
}

/// Lex → parse → check only (no execution).
///
/// A source with a number literal of two dots or more (`1.2.3`) is left
/// out: no stage has an error for it. `try_check_source` takes any source.
pub fn check_source(source: &str) -> (r: Result<(), String>)
    requires
        !(lex_from(source@, 0) is BadNumber),
    ensures
        match check_source_spec(source@) {
            Ok(_) => r is Ok,
            Err(m) => r matches Err(x) && x@ == m,
        },
{
    match front_end(source) {
        Ok(_) => Ok(()),
        Err(e) => Err(e),
    }
}

/// Lex → parse → check → interpret, with `fuel` for the run; each value
/// that the program prints is appended to `printed`.
///
/// The source is left out as in `check_source`; `try_run_source` takes any
/// source.
pub fn run_source(source: &str, fuel: u64, printed: &mut Vec<Value>) -> (r: Result<(), Stop>)
    requires
        !(lex_from(source@, 0) is BadNumber),
    ensures
        exec_as(r, old(printed)@, final(printed)@, run_source_spec(source@, fuel as nat), |u: ()| u),
{
    let program = match front_end(source) {
        Ok(p) => p,
        Err(e) => {
            assert(values_view(printed@) =~= values_view(printed@) + Seq::empty());
            return Err(Stop::Error(e));
        },
    };
    let mut interpreter = Interpreter::new();
    match interpreter.run(&program, fuel, printed) {
        Ok(()) => Ok(()),
        Err(Stop::Error(m)) => Err(Stop::Error(prefixed("runtime error: ", m.as_str()))),
        Err(Stop::OutOfFuel) => Err(Stop::OutOfFuel),
    }
}

/// `check_source`, or `None` where the source holds a number literal with
/// two dots or more.
pub fn try_check_source(source: &str) -> (r: Option<Result<(), String>>)
    ensures
        r is None <==> lex_from(source@, 0) is BadNumber,
        r matches Some(res) ==> match check_source_spec(source@) {
            Ok(_) => res is Ok,
            Err(m) => res matches Err(x) && x@ == m,
        },
{
    if has_malformed_number(source) {
        None
    } else {
        Some(check_source(source))
    }
}

/// `run_source`, or `None`, with nothing printed, where the source holds a
/// number literal with two dots or more.
pub fn try_run_source(source: &str, fuel: u64, printed: &mut Vec<Value>) -> (r: Option<Result<(), Stop>>)
    ensures
        r is None <==> lex_from(source@, 0) is BadNumber,
        r is None ==> final(printed)@ == old(printed)@,
        r matches Some(res) ==> exec_as(
            res,
            old(printed)@,
            final(printed)@,
            run_source_spec(source@, fuel as nat),
            |u: ()| u,
        ),
{
    if has_malformed_number(source) {
        None
    } else {
        Some(run_source(source, fuel, printed))
    }
}

/// A source that `check_source` refuses is never run: `run_source` stops
/// with the same error and prints nothing. A source that it accepts is run,
/// and only a runtime error can stop it then.
pub proof fn law_run_source_runs_only_checked_programs(source: Seq<char>, fuel: nat)
    ensures
        check_source_spec(source) matches Err(m) ==> run_source_spec(source, fuel) == Exec::<()>::Failed(
            m,
            Seq::empty(),
        ),
        check_source_spec(source) is Ok ==> run_source_spec(source, fuel) == runtime_prefixed(
            run_spec(front_end_spec(source)->Ok_0, Map::empty(), fuel),
        ),
{
}


/// Fuel only bounds a run: a source whose run ends without running out of
/// fuel ends the same way, with the same values printed, given more fuel.
pub proof fn law_run_source_more_fuel_same_outcome(source: Seq<char>, f1: nat, f2: nat)
    requires
        f1 <= f2,
        !(run_source_spec(source, f1) is OutOfFuel),
    ensures
        run_source_spec(source, f2) == run_source_spec(source, f1),
{
    if front_end_spec(source) is Ok {
        law_more_fuel_same_outcome(front_end_spec(source)->Ok_0, Map::empty(), f1, f2);
    }
}

} // verus!
