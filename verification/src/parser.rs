//! Recursive descent parser: one function per grammar rule, each function
//! consumes exactly the tokens for its rule and returns the AST node for
//! it. This mirrors the grammar closely enough that you can read the
//! functions as the grammar — that's the whole appeal of hand-writing
//! a parser instead of generating one from a grammar file.
//!
//! Grammar (informal):
//!   program   := stmt* EOF
//!   stmt      := let_stmt | print_stmt | fn_def | expr_stmt
//!   let_stmt  := "let" IDENT "=" expr ";"
//!   print_stmt:= "print" "(" expr ")" ";"
//!   fn_def    := "fn" IDENT "(" params? ")" "{" stmt* "}"
//!   expr_stmt := expr ";"
//!   expr      := IDENT | NUMBER | call
//!   call      := IDENT "(" args? ")"
//!
//! The model of each rule is a function from the tokens and a position to
//! what the rule parses there (`Parsed`): a value and the position after
//! it, an error message and the position where parsing stopped, or
//! `OutOfTokens` where the parser would read past the last token (which
//! indexes out of bounds). A list that a lexer produced always ends in
//! `Eof`, and then the parser never runs out of tokens
//! (`law_parser_stays_within_eof_terminated_tokens`).

use vstd::prelude::*;
use crate::ast::{
    exprs_view, inits_view, lemma_call_view, lemma_fn_def_view, lemma_if_view,
    lemma_struct_lit_view, lemma_while_view, names_view, stmts_view, Expr, SExpr, SStmt, Stmt,
};
use crate::lexer::{tokens_view, SToken, Token};
use crate::text::{concat3, debug_quoted, quote_debug};

verus! {

/// What a grammar rule parses from a position.
pub enum Parsed<T> {
    /// The value and the position after it.
    Done(T, int),
    /// The error and the position where parsing stopped.
    Failed(Seq<char>, int),
    /// The rule reads past the last token.
    OutOfTokens,
}

/// The same failure, for a rule with another kind of value.
pub open spec fn fails<A, B>(r: Parsed<A>) -> Parsed<B> {
    match r {
        Parsed::Failed(m, p) => Parsed::Failed(m, p),
        _ => Parsed::OutOfTokens,
    }
}

/// The text that an error message writes for a token, in the form `{:?}`
/// gives. A number is written by its exact canonical decimal text, since
/// the library holds numbers exactly and has no floating point: `1e17`
/// appears as `Number(100000000000000000.0)`, `0.00001` as
/// `Number(0.00001)`, and a literal with more digits than a float keeps is
/// written with all of them, where a float's `Debug` would write `1e17`,
/// `1e-5` or the nearest float.
pub open spec fn token_debug(t: SToken) -> Seq<char> {
    match t {
        SToken::Ident(n) => "Ident("@ + debug_quoted(n) + ")"@,
        SToken::Number(x) => "Number("@ + x + ")"@,
        SToken::Let => "Let"@,
        SToken::Fn => "Fn"@,
        SToken::Print => "Print"@,
        SToken::Struct => "Struct"@,
        SToken::If => "If"@,
        SToken::Else => "Else"@,
        SToken::While => "While"@,
        SToken::Equals => "Equals"@,
        SToken::Semicolon => "Semicolon"@,
        SToken::LParen => "LParen"@,
        SToken::RParen => "RParen"@,
        SToken::LBrace => "LBrace"@,
        SToken::RBrace => "RBrace"@,
        SToken::Comma => "Comma"@,
        SToken::Dot => "Dot"@,
        SToken::Colon => "Colon"@,
        SToken::Eof => "Eof"@,
    }
}

pub open spec fn expected_message(expected: SToken, actual: SToken) -> Seq<char> {
    "expected "@ + token_debug(expected) + ", found "@ + token_debug(actual)
}

pub open spec fn ident_message(actual: SToken) -> Seq<char> {
    "expected identifier, found "@ + token_debug(actual)
}

pub open spec fn expr_message(actual: SToken) -> Seq<char> {
    "unexpected token in expression: "@ + token_debug(actual)
}

/// The token at `pos`, if there is one.
pub open spec fn tok_at(ts: Seq<SToken>, pos: int) -> Option<SToken> {
    if 0 <= pos < ts.len() {
        Some(ts[pos])
    } else {
        None
    }
}

/// Consuming the token at `pos`, which must be `expected`; a token that
/// does not match is left where it is.
pub open spec fn expect_spec(ts: Seq<SToken>, pos: int, expected: SToken) -> Parsed<()> {
    match tok_at(ts, pos) {
        None => Parsed::OutOfTokens,
        Some(t) => if t == expected {
            Parsed::Done((), pos + 1)
        } else {
            Parsed::Failed(expected_message(expected, t), pos)
        },
    }
}

/// Consuming an identifier at `pos`.
pub open spec fn expect_ident_spec(ts: Seq<SToken>, pos: int) -> Parsed<Seq<char>> {
    match tok_at(ts, pos) {
        None => Parsed::OutOfTokens,
        Some(SToken::Ident(n)) => Parsed::Done(n, pos + 1),
        Some(t) => Parsed::Failed(ident_message(t), pos + 1),
    }
}

/// `("," IDENT)*`
pub open spec fn more_names_spec(ts: Seq<SToken>, pos: int) -> Parsed<Seq<Seq<char>>>
    decreases ts.len() - pos,
{
    match tok_at(ts, pos) {
        None => Parsed::OutOfTokens,
        Some(SToken::Comma) => match expect_ident_spec(ts, pos + 1) {
            Parsed::Done(n, p) => match more_names_spec(ts, p) {
                Parsed::Done(ns, q) => Parsed::Done(seq![n] + ns, q),
                f => fails(f),
            },
            f => fails(f),
        },
        Some(_) => Parsed::Done(Seq::empty(), pos),
    }
}

/// `(IDENT ("," IDENT)*)?` before the token `close`.
pub open spec fn names_spec(ts: Seq<SToken>, pos: int, close: SToken) -> Parsed<Seq<Seq<char>>> {
    match tok_at(ts, pos) {
        None => Parsed::OutOfTokens,
        Some(t) => if t == close {
            Parsed::Done(Seq::empty(), pos)
        } else {
            match expect_ident_spec(ts, pos) {
                Parsed::Done(n, p) => match more_names_spec(ts, p) {
                    Parsed::Done(ns, q) => Parsed::Done(seq![n] + ns, q),
                    f => fails(f),
                },
                f => fails(f),
            }
        },
    }
}

/// `("." IDENT)*` after the expression `e`.
pub open spec fn postfix_spec(ts: Seq<SToken>, pos: int, e: SExpr) -> Parsed<SExpr>
    decreases ts.len() - pos,
{
    match tok_at(ts, pos) {
        None => Parsed::OutOfTokens,
        Some(SToken::Dot) => match expect_ident_spec(ts, pos + 1) {
            Parsed::Done(f, p) => postfix_spec(ts, p, SExpr::Field { base: Box::new(e), field: f }),
            f => fails(f),
        },
        Some(_) => Parsed::Done(e, pos),
    }
}

/// `program := stmt* EOF` (the statements up to `Eof`, which stays unread).
pub open spec fn program_spec(ts: Seq<SToken>, pos: int) -> Parsed<Seq<SStmt>>
    decreases ts.len() - pos, 6nat,
{
    match tok_at(ts, pos) {
        None => Parsed::OutOfTokens,
        Some(SToken::Eof) => Parsed::Done(Seq::empty(), pos),
        Some(_) => match stmt_spec(ts, pos) {
            Parsed::Done(s, p) => if pos < p <= ts.len() {
                match program_spec(ts, p) {
                    Parsed::Done(ss, q) => Parsed::Done(seq![s] + ss, q),
                    f => fails(f),
                }
            } else {
                Parsed::OutOfTokens
            },
            f => fails(f),
        },
    }
}

/// `stmt* "}"` (up to the closing brace, which stays unread).
pub open spec fn block_stmts_spec(ts: Seq<SToken>, pos: int) -> Parsed<Seq<SStmt>>
    decreases ts.len() - pos, 6nat,
{
    match tok_at(ts, pos) {
        None => Parsed::OutOfTokens,
        Some(SToken::RBrace) => Parsed::Done(Seq::empty(), pos),
        Some(_) => match stmt_spec(ts, pos) {
            Parsed::Done(s, p) => if pos < p <= ts.len() {
                match block_stmts_spec(ts, p) {
                    Parsed::Done(ss, q) => Parsed::Done(seq![s] + ss, q),
                    f => fails(f),
                }
            } else {
                Parsed::OutOfTokens
            },
            f => fails(f),
        },
    }
}

pub open spec fn stmt_spec(ts: Seq<SToken>, pos: int) -> Parsed<SStmt>
    decreases ts.len() - pos, 5nat,
{
    match tok_at(ts, pos) {
        None => Parsed::OutOfTokens,
        Some(SToken::Let) => let_spec(ts, pos),
        Some(SToken::Print) => print_spec(ts, pos),
        Some(SToken::Fn) => fn_def_spec(ts, pos),
        Some(SToken::Struct) => struct_def_spec(ts, pos),
        Some(SToken::If) => if_spec(ts, pos),
        Some(SToken::While) => while_spec(ts, pos),
        Some(_) => expr_stmt_spec(ts, pos),
    }
}

/// `"let" IDENT "=" expr ";"`
pub open spec fn let_spec(ts: Seq<SToken>, pos: int) -> Parsed<SStmt>
    decreases ts.len() - pos, 4nat,
{
    match expect_spec(ts, pos, SToken::Let) {
        Parsed::Done(_, p1) => match expect_ident_spec(ts, p1) {
            Parsed::Done(name, p2) => match expect_spec(ts, p2, SToken::Equals) {
                Parsed::Done(_, p3) => match expr_spec(ts, p3) {
                    Parsed::Done(value, p4) => match expect_spec(ts, p4, SToken::Semicolon) {
                        Parsed::Done(_, p5) => Parsed::Done(SStmt::Let { name, value }, p5),
                        f => fails(f),
                    },
                    f => fails(f),
                },
                f => fails(f),
            },
            f => fails(f),
        },
        f => fails(f),
    }
}

/// `"print" "(" expr ")" ";"`
pub open spec fn print_spec(ts: Seq<SToken>, pos: int) -> Parsed<SStmt>
    decreases ts.len() - pos, 4nat,
{
    match expect_spec(ts, pos, SToken::Print) {
        Parsed::Done(_, p1) => match expect_spec(ts, p1, SToken::LParen) {
            Parsed::Done(_, p2) => match expr_spec(ts, p2) {
                Parsed::Done(value, p3) => match expect_spec(ts, p3, SToken::RParen) {
                    Parsed::Done(_, p4) => match expect_spec(ts, p4, SToken::Semicolon) {
                        Parsed::Done(_, p5) => Parsed::Done(SStmt::Print(value), p5),
                        f => fails(f),
                    },
                    f => fails(f),
                },
                f => fails(f),
            },
            f => fails(f),
        },
        f => fails(f),
    }
}

/// `"fn" IDENT "(" params? ")" block`
pub open spec fn fn_def_spec(ts: Seq<SToken>, pos: int) -> Parsed<SStmt>
    decreases ts.len() - pos, 4nat,
{
    match expect_spec(ts, pos, SToken::Fn) {
        Parsed::Done(_, p1) => match expect_ident_spec(ts, p1) {
            Parsed::Done(name, p2) => match expect_spec(ts, p2, SToken::LParen) {
                Parsed::Done(_, p3) => match names_spec(ts, p3, SToken::RParen) {
                    Parsed::Done(params, p4) => match expect_spec(ts, p4, SToken::RParen) {
                        Parsed::Done(_, p5) => if pos < p5 <= ts.len() {
                            match block_spec(ts, p5) {
                                Parsed::Done(body, p6) => Parsed::Done(SStmt::FnDef { name, params, body }, p6),
                                f => fails(f),
                            }
                        } else {
                            Parsed::OutOfTokens
                        },
                        f => fails(f),
                    },
                    f => fails(f),
                },
                f => fails(f),
            },
            f => fails(f),
        },
        f => fails(f),
    }
}

/// `"struct" IDENT "{" fields? "}"`
pub open spec fn struct_def_spec(ts: Seq<SToken>, pos: int) -> Parsed<SStmt> {
    match expect_spec(ts, pos, SToken::Struct) {
        Parsed::Done(_, p1) => match expect_ident_spec(ts, p1) {
            Parsed::Done(name, p2) => match expect_spec(ts, p2, SToken::LBrace) {
                Parsed::Done(_, p3) => match names_spec(ts, p3, SToken::RBrace) {
                    Parsed::Done(fields, p4) => match expect_spec(ts, p4, SToken::RBrace) {
                        Parsed::Done(_, p5) => Parsed::Done(SStmt::StructDef { name, fields }, p5),
                        f => fails(f),
                    },
                    f => fails(f),
                },
                f => fails(f),
            },
            f => fails(f),
        },
        f => fails(f),
    }
}

/// `"{" stmt* "}"`
pub open spec fn block_spec(ts: Seq<SToken>, pos: int) -> Parsed<Seq<SStmt>>
    decreases ts.len() - pos, 4nat,
{
    match expect_spec(ts, pos, SToken::LBrace) {
        Parsed::Done(_, p1) => match block_stmts_spec(ts, p1) {
            Parsed::Done(stmts, p2) => match expect_spec(ts, p2, SToken::RBrace) {
                Parsed::Done(_, p3) => Parsed::Done(stmts, p3),
                f => fails(f),
            },
            f => fails(f),
        },
        f => fails(f),
    }
}

/// `"if" "(" expr ")" block ("else" block)?`
pub open spec fn if_spec(ts: Seq<SToken>, pos: int) -> Parsed<SStmt>
    decreases ts.len() - pos, 4nat,
{
    match expect_spec(ts, pos, SToken::If) {
        Parsed::Done(_, p1) => match expect_spec(ts, p1, SToken::LParen) {
            Parsed::Done(_, p2) => match expr_spec(ts, p2) {
                Parsed::Done(cond, p3) => match expect_spec(ts, p3, SToken::RParen) {
                    Parsed::Done(_, p4) => if pos < p4 <= ts.len() {
                        match block_spec(ts, p4) {
                            Parsed::Done(then_branch, p5) => match tok_at(ts, p5) {
                                None => Parsed::OutOfTokens,
                                Some(SToken::Else) => if pos < p5 + 1 <= ts.len() {
                                    match block_spec(ts, p5 + 1) {
                                        Parsed::Done(eb, p6) => Parsed::Done(
                                            SStmt::If { cond, then_branch, else_branch: Some(eb) },
                                            p6,
                                        ),
                                        f => fails(f),
                                    }
                                } else {
                                    Parsed::OutOfTokens
                                },
                                Some(_) => Parsed::Done(SStmt::If { cond, then_branch, else_branch: None }, p5),
                            },
                            f => fails(f),
                        }
                    } else {
                        Parsed::OutOfTokens
                    },
                    f => fails(f),
                },
                f => fails(f),
            },
            f => fails(f),
        },
        f => fails(f),
    }
}

/// `"while" "(" expr ")" block`
pub open spec fn while_spec(ts: Seq<SToken>, pos: int) -> Parsed<SStmt>
    decreases ts.len() - pos, 4nat,
{
    match expect_spec(ts, pos, SToken::While) {
        Parsed::Done(_, p1) => match expect_spec(ts, p1, SToken::LParen) {
            Parsed::Done(_, p2) => match expr_spec(ts, p2) {
                Parsed::Done(cond, p3) => match expect_spec(ts, p3, SToken::RParen) {
                    Parsed::Done(_, p4) => if pos < p4 <= ts.len() {
                        match block_spec(ts, p4) {
                            Parsed::Done(body, p5) => Parsed::Done(SStmt::While { cond, body }, p5),
                            f => fails(f),
                        }
                    } else {
                        Parsed::OutOfTokens
                    },
                    f => fails(f),
                },
                f => fails(f),
            },
            f => fails(f),
        },
        f => fails(f),
    }
}

/// `expr ";"`
pub open spec fn expr_stmt_spec(ts: Seq<SToken>, pos: int) -> Parsed<SStmt>
    decreases ts.len() - pos, 4nat,
{
    match expr_spec(ts, pos) {
        Parsed::Done(e, p1) => match expect_spec(ts, p1, SToken::Semicolon) {
            Parsed::Done(_, p2) => Parsed::Done(SStmt::ExprStmt(e), p2),
            f => fails(f),
        },
        f => fails(f),
    }
}

/// `expr := primary ("." IDENT)*`
pub open spec fn expr_spec(ts: Seq<SToken>, pos: int) -> Parsed<SExpr>
    decreases ts.len() - pos, 3nat,
{
    match primary_spec(ts, pos) {
        Parsed::Done(e, p1) => postfix_spec(ts, p1, e),
        f => fails(f),
    }
}

/// A number, a variable, a call or a struct literal.
pub open spec fn primary_spec(ts: Seq<SToken>, pos: int) -> Parsed<SExpr>
    decreases ts.len() - pos, 2nat,
{
    match tok_at(ts, pos) {
        None => Parsed::OutOfTokens,
        Some(SToken::Number(n)) => Parsed::Done(SExpr::Number(n), pos + 1),
        Some(SToken::Ident(name)) => match tok_at(ts, pos + 1) {
            None => Parsed::OutOfTokens,
            Some(SToken::LParen) => match tok_at(ts, pos + 2) {
                None => Parsed::OutOfTokens,
                Some(SToken::RParen) => Parsed::Done(SExpr::Call { callee: name, args: Seq::empty() }, pos + 3),
                Some(_) => match expr_spec(ts, pos + 2) {
                    Parsed::Done(a, p) => if pos < p <= ts.len() {
                        match args_spec(ts, p) {
                            Parsed::Done(rest, q) => match expect_spec(ts, q, SToken::RParen) {
                                Parsed::Done(_, r) => Parsed::Done(
                                    SExpr::Call { callee: name, args: seq![a] + rest },
                                    r,
                                ),
                                f => fails(f),
                            },
                            f => fails(f),
                        }
                    } else {
                        Parsed::OutOfTokens
                    },
                    f => fails(f),
                },
            },
            Some(SToken::LBrace) => struct_lit_spec(ts, pos + 1, name),
            Some(_) => Parsed::Done(SExpr::Ident(name), pos + 1),
        },
        Some(t) => Parsed::Failed(expr_message(t), pos + 1),
    }
}

/// `("," expr)*` in the arguments of a call.
pub open spec fn args_spec(ts: Seq<SToken>, pos: int) -> Parsed<Seq<SExpr>>
    decreases ts.len() - pos, 4nat,
{
    match tok_at(ts, pos) {
        None => Parsed::OutOfTokens,
        Some(SToken::Comma) => match expr_spec(ts, pos + 1) {
            Parsed::Done(a, p) => if pos < p <= ts.len() {
                match args_spec(ts, p) {
                    Parsed::Done(rest, q) => Parsed::Done(seq![a] + rest, q),
                    f => fails(f),
                }
            } else {
                Parsed::OutOfTokens
            },
            f => fails(f),
        },
        Some(_) => Parsed::Done(Seq::empty(), pos),
    }
}

/// `"{" (IDENT ":" expr ("," IDENT ":" expr)*)? "}"` after the struct's name.
pub open spec fn struct_lit_spec(ts: Seq<SToken>, pos: int, name: Seq<char>) -> Parsed<SExpr>
    decreases ts.len() - pos, 4nat,
{
    match expect_spec(ts, pos, SToken::LBrace) {
        Parsed::Done(_, p1) => match tok_at(ts, p1) {
            None => Parsed::OutOfTokens,
            Some(SToken::RBrace) => Parsed::Done(SExpr::StructLit { name, fields: Seq::empty() }, p1 + 1),
            Some(_) => match expect_ident_spec(ts, p1) {
                Parsed::Done(f, p2) => match expect_spec(ts, p2, SToken::Colon) {
                    Parsed::Done(_, p3) => match expr_spec(ts, p3) {
                        Parsed::Done(v, p4) => if pos < p4 <= ts.len() {
                            match inits_spec(ts, p4) {
                                Parsed::Done(rest, p5) => match expect_spec(ts, p5, SToken::RBrace) {
                                    Parsed::Done(_, p6) => Parsed::Done(
                                        SExpr::StructLit { name, fields: seq![(f, v)] + rest },
                                        p6,
                                    ),
                                    fl => fails(fl),
                                },
                                fl => fails(fl),
                            }
                        } else {
                            Parsed::OutOfTokens
                        },
                        fl => fails(fl),
                    },
                    fl => fails(fl),
                },
                fl => fails(fl),
            },
        },
        fl => fails(fl),
    }
}

/// `("," IDENT ":" expr)*` in a struct literal.
pub open spec fn inits_spec(ts: Seq<SToken>, pos: int) -> Parsed<Seq<(Seq<char>, SExpr)>>
    decreases ts.len() - pos, 4nat,
{
    match tok_at(ts, pos) {
        None => Parsed::OutOfTokens,
        Some(SToken::Comma) => match expect_ident_spec(ts, pos + 1) {
            Parsed::Done(f, p2) => match expect_spec(ts, p2, SToken::Colon) {
                Parsed::Done(_, p3) => match expr_spec(ts, p3) {
                    Parsed::Done(v, p4) => if pos < p4 <= ts.len() {
                        match inits_spec(ts, p4) {
                            Parsed::Done(rest, q) => Parsed::Done(seq![(f, v)] + rest, q),
                            fl => fails(fl),
                        }
                    } else {
                        Parsed::OutOfTokens
                    },
                    fl => fails(fl),
                },
                fl => fails(fl),
            },
            fl => fails(fl),
        },
        Some(_) => Parsed::Done(Seq::empty(), pos),
    }
}

} // verus!

verus! {

// ---------------------------------------------------------------------------
// The parser
// ---------------------------------------------------------------------------

/// An exec result stands for the model's result: the value (by `view`) and
/// the position after it, or the error and the position where parsing stopped.
pub open spec fn parsed_as<T, V>(r: Result<T, String>, pos: int, spec: Parsed<V>, view: spec_fn(T) -> V) -> bool {
    match spec {
        Parsed::Done(v, p) => r is Ok && view(r->Ok_0) == v && pos == p,
        Parsed::Failed(m, p) => r is Err && r->Err_0@ == m && pos == p,
        Parsed::OutOfTokens => false,
    }
}

/// `xs`, then the list that `r` parses.
pub open spec fn prepend<A>(xs: Seq<A>, r: Parsed<Seq<A>>) -> Parsed<Seq<A>> {
    match r {
        Parsed::Done(ys, q) => Parsed::Done(xs + ys, q),
        f => f,
    }
}

proof fn lemma_prepend_assoc<A>(xs: Seq<A>, ys: Seq<A>, r: Parsed<Seq<A>>)
    ensures
        prepend(xs, prepend(ys, r)) == prepend(xs + ys, r),
{
    match r {
        Parsed::Done(zs, q) => {
            assert(xs + (ys + zs) =~= (xs + ys) + zs);
        },
        _ => {},
    }
}

proof fn lemma_prepend_empty<A>(r: Parsed<Seq<A>>)
    ensures
        prepend(Seq::<A>::empty(), r) == r,
{
    match r {
        Parsed::Done(zs, q) => {
            assert(Seq::<A>::empty() + zs =~= zs);
        },
        _ => {},
    }
}

fn owned(t: &str) -> (r: String)
    ensures
        r@ == t@,
{
    let mut r = String::new();
    r.append(t);
    assert(r@ =~= t@);
    r
}

/// The text that `{:?}` writes for the token.
fn debug_token(t: &Token) -> (r: String)
    ensures
        r@ == token_debug(t@),
{
    match t {
        Token::Ident(n) => {
            let q = quote_debug(n.as_str());
            concat3("Ident(", q.as_str(), ")")
        },
        Token::Number(x) => concat3("Number(", x.text(), ")"),
        Token::Let => owned("Let"),
        Token::Fn => owned("Fn"),
        Token::Print => owned("Print"),
        Token::Struct => owned("Struct"),
        Token::If => owned("If"),
        Token::Else => owned("Else"),
        Token::While => owned("While"),
        Token::Equals => owned("Equals"),
        Token::Semicolon => owned("Semicolon"),
        Token::LParen => owned("LParen"),
        Token::RParen => owned("RParen"),
        Token::LBrace => owned("LBrace"),
        Token::RBrace => owned("RBrace"),
        Token::Comma => owned("Comma"),
        Token::Dot => owned("Dot"),
        Token::Colon => owned("Colon"),
        Token::Eof => owned("Eof"),
    }
}

/// Whether the two tokens are the same.
fn same_token(a: &Token, b: &Token) -> (r: bool)
    ensures
        r == (a@ == b@),
{
    match (a, b) {
        (Token::Ident(x), Token::Ident(y)) => *x == *y,
        (Token::Number(x), Token::Number(y)) => x.equals(y),
        (Token::Let, Token::Let) => true,
        (Token::Fn, Token::Fn) => true,
        (Token::Print, Token::Print) => true,
        (Token::Struct, Token::Struct) => true,
        (Token::If, Token::If) => true,
        (Token::Else, Token::Else) => true,
        (Token::While, Token::While) => true,
        (Token::Equals, Token::Equals) => true,
        (Token::Semicolon, Token::Semicolon) => true,
        (Token::LParen, Token::LParen) => true,
        (Token::RParen, Token::RParen) => true,
        (Token::LBrace, Token::LBrace) => true,
        (Token::RBrace, Token::RBrace) => true,
        (Token::Comma, Token::Comma) => true,
        (Token::Dot, Token::Dot) => true,
        (Token::Colon, Token::Colon) => true,
        (Token::Eof, Token::Eof) => true,
        _ => false,
    }
}

fn copy_token(t: &Token) -> (r: Token)
    ensures
        r@ == t@,
{
    match t {
        Token::Ident(n) => Token::Ident(n.clone()),
        Token::Number(x) => Token::Number(x.copy()),
        Token::Let => Token::Let,
        Token::Fn => Token::Fn,
        Token::Print => Token::Print,
        Token::Struct => Token::Struct,
        Token::If => Token::If,
        Token::Else => Token::Else,
        Token::While => Token::While,
        Token::Equals => Token::Equals,
        Token::Semicolon => Token::Semicolon,
        Token::LParen => Token::LParen,
        Token::RParen => Token::RParen,
        Token::LBrace => Token::LBrace,
        Token::RBrace => Token::RBrace,
        Token::Comma => Token::Comma,
        Token::Dot => Token::Dot,
        Token::Colon => Token::Colon,
        Token::Eof => Token::Eof,
    }
}

} // verus!

verus! {

pub struct Parser {
    tokens: Vec<Token>,
    pos: usize,
}

impl Parser {
    #[verifier::type_invariant]
    spec fn wf(self) -> bool {
        self.pos <= self.tokens.len()
    }

    /// The tokens to parse.
    pub closed spec fn tokens(&self) -> Seq<SToken> {
        tokens_view(self.tokens@)
    }

    /// The index of the next token to read.
    pub closed spec fn position(&self) -> int {
        self.pos as int
    }

    pub fn new(tokens: Vec<Token>) -> (p: Self)
        ensures
            p.tokens() == tokens_view(tokens@),
            p.position() == 0,
    {
        Parser { tokens, pos: 0 }
    }

    fn peek(&self) -> (t: &Token)
        requires
            0 <= self.position() < self.tokens().len(),
        ensures
            t@ == self.tokens()[self.position()],
    {
        assert(self.tokens().len() == self.tokens@.len());
        &self.tokens[self.pos]
    }

    fn advance(&mut self) -> (t: Token)
        requires
            0 <= old(self).position() < old(self).tokens().len(),
        ensures
            t@ == old(self).tokens()[old(self).position()],
            final(self).tokens() == old(self).tokens(),
            final(self).position() == old(self).position() + 1,
    {
        assert(self.tokens().len() == self.tokens@.len());
        let n = self.tokens.len();
        assert(self.pos < n);
        let t = copy_token(&self.tokens[self.pos]);
        self.pos = self.pos + 1;
        t
    }

    /// Consume the next token only if it exactly matches `expected`,
    /// otherwise return a descriptive error. Every grammar rule that
    /// requires a specific token (like the `;` at the end of a
    /// statement) goes through this, so error messages stay consistent.
    fn expect(&mut self, expected: Token) -> (r: Result<(), String>)
        requires
            !(expect_spec(old(self).tokens(), old(self).position(), expected@) is OutOfTokens),
        ensures
            final(self).tokens() == old(self).tokens(),
            parsed_as(
                r,
                final(self).position(),
                expect_spec(old(self).tokens(), old(self).position(), expected@),
                |x: ()| x,
            ),
    {
        let actual = self.peek();
        if same_token(actual, &expected) {
            self.advance();
            Ok(())
        } else {
            let e = debug_token(&expected);
            let a = debug_token(actual);
            let mut m = owned("expected ");
            m.append(e.as_str());
            m.append(", found ");
            m.append(a.as_str());
            assert(m@ =~= expected_message(expected@, actual@));
            Err(m)
        }
    }

    fn expect_ident(&mut self) -> (r: Result<String, String>)
        requires
            !(expect_ident_spec(old(self).tokens(), old(self).position()) is OutOfTokens),
        ensures
            final(self).tokens() == old(self).tokens(),
            parsed_as(
                r,
                final(self).position(),
                expect_ident_spec(old(self).tokens(), old(self).position()),
                |s: String| s@,
            ),
    {
        match self.advance() {
            Token::Ident(name) => Ok(name),
            other => {
                let a = debug_token(&other);
                let mut m = owned("expected identifier, found ");
                m.append(a.as_str());
                assert(m@ =~= ident_message(other@));
                Err(m)
            },
        }
    }
}


impl Parser {
    #[verifier::loop_isolation(false)]
    pub fn parse_program(&mut self) -> (r: Result<Vec<Stmt>, String>)
        requires
            !(program_spec(old(self).tokens(), old(self).position()) is OutOfTokens),
        ensures
            final(self).tokens() == old(self).tokens(),
            parsed_as(
                r,
                final(self).position(),
                program_spec(old(self).tokens(), old(self).position()),
                |v: Vec<Stmt>| stmts_view(v@),
            ),
    {
        let ghost ts = self.tokens();
        let ghost p0 = self.position();
        let mut stmts: Vec<Stmt> = Vec::new();
        proof {
            lemma_prepend_empty(program_spec(ts, p0));
            assert(stmts_view(stmts@) =~= Seq::<SStmt>::empty());
        }
        while !matches!(self.peek(), Token::Eof)
            invariant
                self.tokens() == ts,
                !(program_spec(ts, self.position()) is OutOfTokens),
                program_spec(ts, p0) == prepend(stmts_view(stmts@), program_spec(ts, self.position())),
            decreases ts.len() - self.position(),
        {
            proof {
                use_type_invariant(&*self);
            }
            let ghost before = stmts_view(stmts@);
            let ghost p = self.position();
            let s = self.parse_stmt()?;
            proof {
                use_type_invariant(&*self);
            }
            stmts.push(s);
            proof {
                assert(stmts_view(stmts@) =~= before + seq![s@]);
                lemma_prepend_assoc(before, seq![s@], program_spec(ts, self.position()));
            }
        }
        proof {
            assert(stmts_view(stmts@) + Seq::<SStmt>::empty() =~= stmts_view(stmts@));
        }
        Ok(stmts)
    }

    fn parse_stmt(&mut self) -> (r: Result<Stmt, String>)
        requires
            !(stmt_spec(old(self).tokens(), old(self).position()) is OutOfTokens),
        ensures
            final(self).tokens() == old(self).tokens(),
            parsed_as(r, final(self).position(), stmt_spec(old(self).tokens(), old(self).position()), |s: Stmt| s@),
        decreases old(self).tokens().len() - old(self).position(), 5nat,
    {
        proof {
            use_type_invariant(&*self);
        }
        match self.peek() {
            Token::Let => self.parse_let(),
            Token::Print => self.parse_print(),
            Token::Fn => self.parse_fn_def(),
            Token::Struct => self.parse_struct_def(),
            Token::If => self.parse_if(),
            Token::While => self.parse_while(),
            _ => self.parse_expr_stmt(),
        }
    }

    fn parse_let(&mut self) -> (r: Result<Stmt, String>)
        requires
            !(let_spec(old(self).tokens(), old(self).position()) is OutOfTokens),
        ensures
            final(self).tokens() == old(self).tokens(),
            parsed_as(r, final(self).position(), let_spec(old(self).tokens(), old(self).position()), |s: Stmt| s@),
        decreases old(self).tokens().len() - old(self).position(), 4nat,
    {
        proof {
            use_type_invariant(&*self);
        }
        self.expect(Token::Let)?;
        let name = self.expect_ident()?;
        self.expect(Token::Equals)?;
        let value = self.parse_expr()?;
        self.expect(Token::Semicolon)?;
        Ok(Stmt::Let { name, value })
    }

    fn parse_print(&mut self) -> (r: Result<Stmt, String>)
        requires
            !(print_spec(old(self).tokens(), old(self).position()) is OutOfTokens),
        ensures
            final(self).tokens() == old(self).tokens(),
            parsed_as(r, final(self).position(), print_spec(old(self).tokens(), old(self).position()), |s: Stmt| s@),
        decreases old(self).tokens().len() - old(self).position(), 4nat,
    {
        proof {
            use_type_invariant(&*self);
        }
        self.expect(Token::Print)?;
        self.expect(Token::LParen)?;
        let value = self.parse_expr()?;
        self.expect(Token::RParen)?;
        self.expect(Token::Semicolon)?;
        Ok(Stmt::Print(value))
    }

    /// `(IDENT ("," IDENT)*)?` up to the token `close`, which stays unread.
    #[verifier::loop_isolation(false)]
    fn parse_names(&mut self, close: &Token) -> (r: Result<Vec<String>, String>)
        requires
            !(names_spec(old(self).tokens(), old(self).position(), close@) is OutOfTokens),
        ensures
            final(self).tokens() == old(self).tokens(),
            parsed_as(
                r,
                final(self).position(),
                names_spec(old(self).tokens(), old(self).position(), close@),
                |v: Vec<String>| names_view(v@),
            ),
    {
        proof {
            use_type_invariant(&*self);
        }
        let ghost ts = self.tokens();
        let mut names: Vec<String> = Vec::new();
        if !same_token(self.peek(), close) {
            let first = self.expect_ident()?;
            names.push(first);
            let ghost p1 = self.position();
            proof {
                assert(names_view(names@) =~= seq![first@]);
            }
            while matches!(self.peek(), Token::Comma)
                invariant
                    self.tokens() == ts,
                    !(more_names_spec(ts, self.position()) is OutOfTokens),
                    more_names_spec(ts, p1) == prepend(names_view(names@).drop_first(), more_names_spec(ts, self.position())),
                    names_view(names@).len() > 0,
                    names_view(names@)[0] == first@,
                decreases ts.len() - self.position(),
            {
                proof {
                    use_type_invariant(&*self);
                }
                let ghost before = names_view(names@);
                self.advance();
                let n = self.expect_ident()?;
                names.push(n);
                proof {
                    use_type_invariant(&*self);
                    assert(names_view(names@) =~= before.push(n@));
                    assert(names_view(names@).drop_first() =~= before.drop_first() + seq![n@]);
                    lemma_prepend_assoc(before.drop_first(), seq![n@], more_names_spec(ts, self.position()));
                }
            }
            proof {
                assert(seq![first@] + (names_view(names@).drop_first() + Seq::<Seq<char>>::empty()) =~= names_view(names@));
            }
        } else {
            assert(names_view(names@) =~= Seq::<Seq<char>>::empty());
        }
        Ok(names)
    }

    fn parse_fn_def(&mut self) -> (r: Result<Stmt, String>)
        requires
            !(fn_def_spec(old(self).tokens(), old(self).position()) is OutOfTokens),
        ensures
            final(self).tokens() == old(self).tokens(),
            parsed_as(r, final(self).position(), fn_def_spec(old(self).tokens(), old(self).position()), |s: Stmt| s@),
        decreases old(self).tokens().len() - old(self).position(), 4nat,
    {
        proof {
            use_type_invariant(&*self);
        }
        self.expect(Token::Fn)?;
        let name = self.expect_ident()?;
        self.expect(Token::LParen)?;
        let params = self.parse_names(&Token::RParen)?;
        self.expect(Token::RParen)?;
        let body = self.parse_block()?;
        proof {
            lemma_fn_def_view(name, params, body);
        }
        Ok(Stmt::FnDef { name, params, body })
    }

    fn parse_struct_def(&mut self) -> (r: Result<Stmt, String>)
        requires
            !(struct_def_spec(old(self).tokens(), old(self).position()) is OutOfTokens),
        ensures
            final(self).tokens() == old(self).tokens(),
            parsed_as(r, final(self).position(), struct_def_spec(old(self).tokens(), old(self).position()), |s: Stmt| s@),
    {
        self.expect(Token::Struct)?;
        let name = self.expect_ident()?;
        self.expect(Token::LBrace)?;
        let fields = self.parse_names(&Token::RBrace)?;
        self.expect(Token::RBrace)?;
        Ok(Stmt::StructDef { name, fields })
    }

    /// Shared by fn bodies, if/else branches, and while bodies:
    /// "{" stmt* "}"
    #[verifier::loop_isolation(false)]
    fn parse_block(&mut self) -> (r: Result<Vec<Stmt>, String>)
        requires
            !(block_spec(old(self).tokens(), old(self).position()) is OutOfTokens),
        ensures
            final(self).tokens() == old(self).tokens(),
            parsed_as(
                r,
                final(self).position(),
                block_spec(old(self).tokens(), old(self).position()),
                |v: Vec<Stmt>| stmts_view(v@),
            ),
        decreases old(self).tokens().len() - old(self).position(), 4nat,
    {
        proof {
            use_type_invariant(&*self);
        }
        let ghost ts = self.tokens();
        let ghost p0 = self.position();
        self.expect(Token::LBrace)?;
        let ghost p1 = self.position();
        let mut stmts: Vec<Stmt> = Vec::new();
        proof {
            lemma_prepend_empty(block_stmts_spec(ts, p1));
            assert(stmts_view(stmts@) =~= Seq::<SStmt>::empty());
        }
        while !matches!(self.peek(), Token::RBrace)
            invariant
                self.tokens() == ts,
                p0 < p1 <= self.position(),
                !(block_stmts_spec(ts, self.position()) is OutOfTokens),
                block_stmts_spec(ts, p1) == prepend(stmts_view(stmts@), block_stmts_spec(ts, self.position())),
            decreases ts.len() - self.position(),
        {
            proof {
                use_type_invariant(&*self);
            }
            let ghost before = stmts_view(stmts@);
            let s = self.parse_stmt()?;
            proof {
                use_type_invariant(&*self);
            }
            stmts.push(s);
            proof {
                assert(stmts_view(stmts@) =~= before + seq![s@]);
                lemma_prepend_assoc(before, seq![s@], block_stmts_spec(ts, self.position()));
            }
        }
        proof {
            assert(stmts_view(stmts@) + Seq::<SStmt>::empty() =~= stmts_view(stmts@));
        }
        self.expect(Token::RBrace)?;
        Ok(stmts)
    }

    fn parse_if(&mut self) -> (r: Result<Stmt, String>)
        requires
            !(if_spec(old(self).tokens(), old(self).position()) is OutOfTokens),
        ensures
            final(self).tokens() == old(self).tokens(),
            parsed_as(r, final(self).position(), if_spec(old(self).tokens(), old(self).position()), |s: Stmt| s@),
        decreases old(self).tokens().len() - old(self).position(), 4nat,
    {
        proof {
            use_type_invariant(&*self);
        }
        self.expect(Token::If)?;
        self.expect(Token::LParen)?;
        let cond = self.parse_expr()?;
        self.expect(Token::RParen)?;
        let then_branch = self.parse_block()?;
        proof {
            use_type_invariant(&*self);
        }
        let else_branch = if matches!(self.peek(), Token::Else) {
            self.advance();
            Some(self.parse_block()?)
        } else {
            None
        };
        proof {
            lemma_if_view(cond, then_branch, else_branch);
        }
        Ok(Stmt::If { cond, then_branch, else_branch })
    }

    fn parse_while(&mut self) -> (r: Result<Stmt, String>)
        requires
            !(while_spec(old(self).tokens(), old(self).position()) is OutOfTokens),
        ensures
            final(self).tokens() == old(self).tokens(),
            parsed_as(r, final(self).position(), while_spec(old(self).tokens(), old(self).position()), |s: Stmt| s@),
        decreases old(self).tokens().len() - old(self).position(), 4nat,
    {
        proof {
            use_type_invariant(&*self);
        }
        self.expect(Token::While)?;
        self.expect(Token::LParen)?;
        let cond = self.parse_expr()?;
        self.expect(Token::RParen)?;
        let body = self.parse_block()?;
        proof {
            lemma_while_view(cond, body);
        }
        Ok(Stmt::While { cond, body })
    }

    fn parse_expr_stmt(&mut self) -> (r: Result<Stmt, String>)
        requires
            !(expr_stmt_spec(old(self).tokens(), old(self).position()) is OutOfTokens),
        ensures
            final(self).tokens() == old(self).tokens(),
            parsed_as(r, final(self).position(), expr_stmt_spec(old(self).tokens(), old(self).position()), |s: Stmt| s@),
        decreases old(self).tokens().len() - old(self).position(), 4nat,
    {
        proof {
            use_type_invariant(&*self);
        }
        let expr = self.parse_expr()?;
        self.expect(Token::Semicolon)?;
        Ok(Stmt::ExprStmt(expr))
    }

    /// expr := primary ("." IDENT)*
    /// The postfix loop is what lets `a.x.y` chain — each `.field` wraps
    /// the expression parsed so far in another `Expr::Field`.
    #[verifier::loop_isolation(false)]
    fn parse_expr(&mut self) -> (r: Result<Expr, String>)
        requires
            !(expr_spec(old(self).tokens(), old(self).position()) is OutOfTokens),
        ensures
            final(self).tokens() == old(self).tokens(),
            parsed_as(r, final(self).position(), expr_spec(old(self).tokens(), old(self).position()), |e: Expr| e@),
        decreases old(self).tokens().len() - old(self).position(), 3nat,
    {
        proof {
            use_type_invariant(&*self);
        }
        let ghost ts = self.tokens();
        let mut expr = self.parse_primary()?;
        let ghost p1 = self.position();
        let ghost e1 = expr@;
        while matches!(self.peek(), Token::Dot)
            invariant
                self.tokens() == ts,
                !(postfix_spec(ts, self.position(), expr@) is OutOfTokens),
                postfix_spec(ts, p1, e1) == postfix_spec(ts, self.position(), expr@),
            decreases ts.len() - self.position(),
        {
            proof {
                use_type_invariant(&*self);
            }
            self.advance();
            let field = self.expect_ident()?;
            expr = Expr::Field { base: Box::new(expr), field };
        }
        Ok(expr)
    }

    #[verifier::loop_isolation(false)]
    fn parse_primary(&mut self) -> (r: Result<Expr, String>)
        requires
            !(primary_spec(old(self).tokens(), old(self).position()) is OutOfTokens),
        ensures
            final(self).tokens() == old(self).tokens(),
            parsed_as(r, final(self).position(), primary_spec(old(self).tokens(), old(self).position()), |e: Expr| e@),
        decreases old(self).tokens().len() - old(self).position(), 2nat,
    {
        proof {
            use_type_invariant(&*self);
        }
        let ghost ts = self.tokens();
        let ghost p0 = self.position();
        match self.advance() {
            Token::Number(n) => Ok(Expr::Number(n)),
            Token::Ident(name) => {
                // Lookahead: `name(` = call, `name{` = struct literal,
                // otherwise it's a bare variable reference.
                proof {
                    use_type_invariant(&*self);
                }
                if matches!(self.peek(), Token::LParen) {
                    self.advance();
                    let mut args: Vec<Expr> = Vec::new();
                    proof {
                        use_type_invariant(&*self);
                    }
                    if !matches!(self.peek(), Token::RParen) {
                        let first = self.parse_expr()?;
                        args.push(first);
                        let ghost p1 = self.position();
                        proof {
                            assert(exprs_view(args@) =~= seq![first@]);
                            lemma_prepend_empty(args_spec(ts, p1));
                        }
                        while matches!(self.peek(), Token::Comma)
                            invariant
                                self.tokens() == ts,
                                p0 < p1 <= self.position(),
                                !(args_spec(ts, self.position()) is OutOfTokens),
                                args_spec(ts, p1) == prepend(exprs_view(args@).drop_first(), args_spec(ts, self.position())),
                                exprs_view(args@).len() > 0,
                                exprs_view(args@)[0] == first@,
                            decreases ts.len() - self.position(),
                        {
                            proof {
                                use_type_invariant(&*self);
                            }
                            let ghost before = exprs_view(args@);
                            self.advance();
                            let a = self.parse_expr()?;
                            args.push(a);
                            proof {
                                use_type_invariant(&*self);
                                assert(exprs_view(args@) =~= before.push(a@));
                                assert(exprs_view(args@).drop_first() =~= before.drop_first() + seq![a@]);
                                lemma_prepend_assoc(before.drop_first(), seq![a@], args_spec(ts, self.position()));
                            }
                        }
                        proof {
                            assert(seq![first@] + (exprs_view(args@).drop_first() + Seq::<SExpr>::empty()) =~= exprs_view(args@));
                        }
                    } else {
                        assert(exprs_view(args@) =~= Seq::<SExpr>::empty());
                    }
                    self.expect(Token::RParen)?;
                    proof {
                        lemma_call_view(name, args);
                    }
                    Ok(Expr::Call { callee: name, args })
                } else if matches!(self.peek(), Token::LBrace) {
                    self.parse_struct_lit(name)
                } else {
                    Ok(Expr::Ident(name))
                }
            },
            other => {
                let a = debug_token(&other);
                let mut m = owned("unexpected token in expression: ");
                m.append(a.as_str());
                assert(m@ =~= expr_message(other@));
                Err(m)
            },
        }
    }

    /// Point { x: 1, y: 2 }  — called after the type name has already
    /// been consumed by parse_primary.
    #[verifier::loop_isolation(false)]
    fn parse_struct_lit(&mut self, name: String) -> (r: Result<Expr, String>)
        requires
            !(struct_lit_spec(old(self).tokens(), old(self).position(), name@) is OutOfTokens),
        ensures
            final(self).tokens() == old(self).tokens(),
            parsed_as(
                r,
                final(self).position(),
                struct_lit_spec(old(self).tokens(), old(self).position(), name@),
                |e: Expr| e@,
            ),
        decreases old(self).tokens().len() - old(self).position(), 4nat,
    {
        proof {
            use_type_invariant(&*self);
        }
        let ghost ts = self.tokens();
        let ghost p0 = self.position();
        self.expect(Token::LBrace)?;
        let mut fields: Vec<(String, Expr)> = Vec::new();
        proof {
            use_type_invariant(&*self);
        }
        if !matches!(self.peek(), Token::RBrace) {
            let field_name = self.expect_ident()?;
            self.expect(Token::Colon)?;
            let value = self.parse_expr()?;
            let ghost first = (field_name@, value@);
            fields.push((field_name, value));
            let ghost p1 = self.position();
            proof {
                assert(inits_view(fields@) =~= seq![first]);
            }
            while matches!(self.peek(), Token::Comma)
                invariant
                    self.tokens() == ts,
                    p0 < p1 <= self.position(),
                    !(inits_spec(ts, self.position()) is OutOfTokens),
                    inits_spec(ts, p1) == prepend(inits_view(fields@).drop_first(), inits_spec(ts, self.position())),
                    inits_view(fields@).len() > 0,
                    inits_view(fields@)[0] == first,
                decreases ts.len() - self.position(),
            {
                proof {
                    use_type_invariant(&*self);
                }
                let ghost before = inits_view(fields@);
                self.advance();
                let field_name = self.expect_ident()?;
                self.expect(Token::Colon)?;
                let value = self.parse_expr()?;
                let ghost item = (field_name@, value@);
                fields.push((field_name, value));
                proof {
                    use_type_invariant(&*self);
                    assert(inits_view(fields@) =~= before.push(item));
                    assert(inits_view(fields@).drop_first() =~= before.drop_first() + seq![item]);
                    lemma_prepend_assoc(before.drop_first(), seq![item], inits_spec(ts, self.position()));
                }
            }
            proof {
                assert(seq![first] + (inits_view(fields@).drop_first() + Seq::<(Seq<char>, SExpr)>::empty()) =~= inits_view(fields@));
            }
        } else {
            assert(inits_view(fields@) =~= Seq::<(Seq<char>, SExpr)>::empty());
        }
        self.expect(Token::RBrace)?;
        proof {
            lemma_struct_lit_view(name, fields);
        }
        Ok(Expr::StructLit { name, fields })
    }
}

} // verus!

verus! {

// ---------------------------------------------------------------------------
// Tokens that end in `Eof` never run the parser out of tokens
// ---------------------------------------------------------------------------

/// The last token is `Eof`, as the lexer leaves it.
pub open spec fn eof_terminated(ts: Seq<SToken>) -> bool {
    ts.len() > 0 && ts.last() == SToken::Eof
}

/// A rule that starts at `pos` fails, or stops before the last token: after
/// `pos` where `strict`, at `pos` or after otherwise.
pub open spec fn stays_within<T>(ts: Seq<SToken>, pos: int, r: Parsed<T>, strict: bool) -> bool {
    match r {
        Parsed::Done(_, q) => (if strict {
            pos < q
        } else {
            pos <= q
        }) && q < ts.len(),
        Parsed::Failed(_, _) => true,
        Parsed::OutOfTokens => false,
    }
}

proof fn lemma_expect_within(ts: Seq<SToken>, pos: int, expected: SToken)
    requires
        eof_terminated(ts),
        0 <= pos < ts.len(),
        expected != SToken::Eof,
    ensures
        stays_within(ts, pos, expect_spec(ts, pos, expected), true),
{
}

proof fn lemma_expect_ident_within(ts: Seq<SToken>, pos: int)
    requires
        eof_terminated(ts),
        0 <= pos < ts.len(),
    ensures
        stays_within(ts, pos, expect_ident_spec(ts, pos), true),
{
}

proof fn lemma_more_names_within(ts: Seq<SToken>, pos: int)
    requires
        eof_terminated(ts),
        0 <= pos < ts.len(),
    ensures
        stays_within(ts, pos, more_names_spec(ts, pos), false),
    decreases ts.len() - pos,
{
    if tok_at(ts, pos) == Some(SToken::Comma) {
        lemma_expect_ident_within(ts, pos + 1);
        match expect_ident_spec(ts, pos + 1) {
            Parsed::Done(_, p) => lemma_more_names_within(ts, p),
            _ => {},
        }
    }
}

proof fn lemma_names_within(ts: Seq<SToken>, pos: int, close: SToken)
    requires
        eof_terminated(ts),
        0 <= pos < ts.len(),
    ensures
        stays_within(ts, pos, names_spec(ts, pos, close), false),
{
    lemma_expect_ident_within(ts, pos);
    match expect_ident_spec(ts, pos) {
        Parsed::Done(_, p) => lemma_more_names_within(ts, p),
        _ => {},
    }
}

proof fn lemma_postfix_within(ts: Seq<SToken>, pos: int, e: SExpr)
    requires
        eof_terminated(ts),
        0 <= pos < ts.len(),
    ensures
        stays_within(ts, pos, postfix_spec(ts, pos, e), false),
    decreases ts.len() - pos,
{
    if tok_at(ts, pos) == Some(SToken::Dot) {
        lemma_expect_ident_within(ts, pos + 1);
        match expect_ident_spec(ts, pos + 1) {
            Parsed::Done(f, p) => lemma_postfix_within(ts, p, SExpr::Field { base: Box::new(e), field: f }),
            _ => {},
        }
    }
}

proof fn lemma_program_within(ts: Seq<SToken>, pos: int)
    requires
        eof_terminated(ts),
        0 <= pos < ts.len(),
    ensures
        stays_within(ts, pos, program_spec(ts, pos), false),
    decreases ts.len() - pos, 6nat,
{
    if tok_at(ts, pos) != Some(SToken::Eof) {
        lemma_stmt_within(ts, pos);
        match stmt_spec(ts, pos) {
            Parsed::Done(_, p) => lemma_program_within(ts, p),
            _ => {},
        }
    }
}

proof fn lemma_block_stmts_within(ts: Seq<SToken>, pos: int)
    requires
        eof_terminated(ts),
        0 <= pos < ts.len(),
    ensures
        stays_within(ts, pos, block_stmts_spec(ts, pos), false),
    decreases ts.len() - pos, 6nat,
{
    if tok_at(ts, pos) != Some(SToken::RBrace) {
        lemma_stmt_within(ts, pos);
        match stmt_spec(ts, pos) {
            Parsed::Done(_, p) => lemma_block_stmts_within(ts, p),
            _ => {},
        }
    }
}

proof fn lemma_stmt_within(ts: Seq<SToken>, pos: int)
    requires
        eof_terminated(ts),
        0 <= pos < ts.len(),
    ensures
        stays_within(ts, pos, stmt_spec(ts, pos), true),
    decreases ts.len() - pos, 5nat,
{
    match ts[pos] {
        SToken::Let => lemma_let_within(ts, pos),
        SToken::Print => lemma_print_within(ts, pos),
        SToken::Fn => lemma_fn_def_within(ts, pos),
        SToken::Struct => lemma_struct_def_within(ts, pos),
        SToken::If => lemma_if_within(ts, pos),
        SToken::While => lemma_while_within(ts, pos),
        _ => lemma_expr_stmt_within(ts, pos),
    }
}

proof fn lemma_let_within(ts: Seq<SToken>, pos: int)
    requires
        eof_terminated(ts),
        0 <= pos < ts.len(),
    ensures
        stays_within(ts, pos, let_spec(ts, pos), true),
    decreases ts.len() - pos, 4nat,
{
    lemma_expect_within(ts, pos, SToken::Let);
    if let Parsed::Done(_, p1) = expect_spec(ts, pos, SToken::Let) {
        lemma_expect_ident_within(ts, p1);
        if let Parsed::Done(_, p2) = expect_ident_spec(ts, p1) {
            lemma_expect_within(ts, p2, SToken::Equals);
            if let Parsed::Done(_, p3) = expect_spec(ts, p2, SToken::Equals) {
                lemma_expr_within(ts, p3);
                if let Parsed::Done(_, p4) = expr_spec(ts, p3) {
                    lemma_expect_within(ts, p4, SToken::Semicolon);
                }
            }
        }
    }
}

proof fn lemma_print_within(ts: Seq<SToken>, pos: int)
    requires
        eof_terminated(ts),
        0 <= pos < ts.len(),
    ensures
        stays_within(ts, pos, print_spec(ts, pos), true),
    decreases ts.len() - pos, 4nat,
{
    lemma_expect_within(ts, pos, SToken::Print);
    if let Parsed::Done(_, p1) = expect_spec(ts, pos, SToken::Print) {
        lemma_expect_within(ts, p1, SToken::LParen);
        if let Parsed::Done(_, p2) = expect_spec(ts, p1, SToken::LParen) {
            lemma_expr_within(ts, p2);
            if let Parsed::Done(_, p3) = expr_spec(ts, p2) {
                lemma_expect_within(ts, p3, SToken::RParen);
                if let Parsed::Done(_, p4) = expect_spec(ts, p3, SToken::RParen) {
                    lemma_expect_within(ts, p4, SToken::Semicolon);
                }
            }
        }
    }
}

proof fn lemma_fn_def_within(ts: Seq<SToken>, pos: int)
    requires
        eof_terminated(ts),
        0 <= pos < ts.len(),
    ensures
        stays_within(ts, pos, fn_def_spec(ts, pos), true),
    decreases ts.len() - pos, 4nat,
{
    lemma_expect_within(ts, pos, SToken::Fn);
    if let Parsed::Done(_, p1) = expect_spec(ts, pos, SToken::Fn) {
        lemma_expect_ident_within(ts, p1);
        if let Parsed::Done(_, p2) = expect_ident_spec(ts, p1) {
            lemma_expect_within(ts, p2, SToken::LParen);
            if let Parsed::Done(_, p3) = expect_spec(ts, p2, SToken::LParen) {
                lemma_names_within(ts, p3, SToken::RParen);
                if let Parsed::Done(_, p4) = names_spec(ts, p3, SToken::RParen) {
                    lemma_expect_within(ts, p4, SToken::RParen);
                    if let Parsed::Done(_, p5) = expect_spec(ts, p4, SToken::RParen) {
                        lemma_block_within(ts, p5);
                    }
                }
            }
        }
    }
}

proof fn lemma_struct_def_within(ts: Seq<SToken>, pos: int)
    requires
        eof_terminated(ts),
        0 <= pos < ts.len(),
    ensures
        stays_within(ts, pos, struct_def_spec(ts, pos), true),
{
    lemma_expect_within(ts, pos, SToken::Struct);
    if let Parsed::Done(_, p1) = expect_spec(ts, pos, SToken::Struct) {
        lemma_expect_ident_within(ts, p1);
        if let Parsed::Done(_, p2) = expect_ident_spec(ts, p1) {
            lemma_expect_within(ts, p2, SToken::LBrace);
            if let Parsed::Done(_, p3) = expect_spec(ts, p2, SToken::LBrace) {
                lemma_names_within(ts, p3, SToken::RBrace);
                if let Parsed::Done(_, p4) = names_spec(ts, p3, SToken::RBrace) {
                    lemma_expect_within(ts, p4, SToken::RBrace);
                }
            }
        }
    }
}

proof fn lemma_block_within(ts: Seq<SToken>, pos: int)
    requires
        eof_terminated(ts),
        0 <= pos < ts.len(),
    ensures
        stays_within(ts, pos, block_spec(ts, pos), true),
    decreases ts.len() - pos, 4nat,
{
    lemma_expect_within(ts, pos, SToken::LBrace);
    if let Parsed::Done(_, p1) = expect_spec(ts, pos, SToken::LBrace) {
        lemma_block_stmts_within(ts, p1);
        if let Parsed::Done(_, p2) = block_stmts_spec(ts, p1) {
            lemma_expect_within(ts, p2, SToken::RBrace);
        }
    }
}

proof fn lemma_if_within(ts: Seq<SToken>, pos: int)
    requires
        eof_terminated(ts),
        0 <= pos < ts.len(),
    ensures
        stays_within(ts, pos, if_spec(ts, pos), true),
    decreases ts.len() - pos, 4nat,
{
    lemma_expect_within(ts, pos, SToken::If);
    if let Parsed::Done(_, p1) = expect_spec(ts, pos, SToken::If) {
        lemma_expect_within(ts, p1, SToken::LParen);
        if let Parsed::Done(_, p2) = expect_spec(ts, p1, SToken::LParen) {
            lemma_expr_within(ts, p2);
            if let Parsed::Done(_, p3) = expr_spec(ts, p2) {
                lemma_expect_within(ts, p3, SToken::RParen);
                if let Parsed::Done(_, p4) = expect_spec(ts, p3, SToken::RParen) {
                    lemma_block_within(ts, p4);
                    if let Parsed::Done(_, p5) = block_spec(ts, p4) {
                        if tok_at(ts, p5) == Some(SToken::Else) {
                            lemma_block_within(ts, p5 + 1);
                        }
                    }
                }
            }
        }
    }
}

proof fn lemma_while_within(ts: Seq<SToken>, pos: int)
    requires
        eof_terminated(ts),
        0 <= pos < ts.len(),
    ensures
        stays_within(ts, pos, while_spec(ts, pos), true),
    decreases ts.len() - pos, 4nat,
{
    lemma_expect_within(ts, pos, SToken::While);
    if let Parsed::Done(_, p1) = expect_spec(ts, pos, SToken::While) {
        lemma_expect_within(ts, p1, SToken::LParen);
        if let Parsed::Done(_, p2) = expect_spec(ts, p1, SToken::LParen) {
            lemma_expr_within(ts, p2);
            if let Parsed::Done(_, p3) = expr_spec(ts, p2) {
                lemma_expect_within(ts, p3, SToken::RParen);
                if let Parsed::Done(_, p4) = expect_spec(ts, p3, SToken::RParen) {
                    lemma_block_within(ts, p4);
                }
            }
        }
    }
}

proof fn lemma_expr_stmt_within(ts: Seq<SToken>, pos: int)
    requires
        eof_terminated(ts),
        0 <= pos < ts.len(),
    ensures
        stays_within(ts, pos, expr_stmt_spec(ts, pos), true),
    decreases ts.len() - pos, 4nat,
{
    lemma_expr_within(ts, pos);
    if let Parsed::Done(_, p1) = expr_spec(ts, pos) {
        lemma_expect_within(ts, p1, SToken::Semicolon);
    }
}

proof fn lemma_expr_within(ts: Seq<SToken>, pos: int)
    requires
        eof_terminated(ts),
        0 <= pos < ts.len(),
    ensures
        stays_within(ts, pos, expr_spec(ts, pos), true),
    decreases ts.len() - pos, 3nat,
{
    lemma_primary_within(ts, pos);
    if let Parsed::Done(e, p1) = primary_spec(ts, pos) {
        lemma_postfix_within(ts, p1, e);
    }
}

proof fn lemma_primary_within(ts: Seq<SToken>, pos: int)
    requires
        eof_terminated(ts),
        0 <= pos < ts.len(),
    ensures
        stays_within(ts, pos, primary_spec(ts, pos), true),
    decreases ts.len() - pos, 2nat,
{
    if let SToken::Ident(name) = ts[pos] {
        assert(pos + 1 < ts.len());
        if ts[pos + 1] == SToken::LParen {
            assert(pos + 2 < ts.len());
            if ts[pos + 2] != SToken::RParen {
                lemma_expr_within(ts, pos + 2);
                if let Parsed::Done(_, p) = expr_spec(ts, pos + 2) {
                    lemma_args_within(ts, p);
                    if let Parsed::Done(_, q) = args_spec(ts, p) {
                        lemma_expect_within(ts, q, SToken::RParen);
                    }
                }
            }
        } else if ts[pos + 1] == SToken::LBrace {
            lemma_struct_lit_within(ts, pos + 1, name);
        }
    }
}

proof fn lemma_args_within(ts: Seq<SToken>, pos: int)
    requires
        eof_terminated(ts),
        0 <= pos < ts.len(),
    ensures
        stays_within(ts, pos, args_spec(ts, pos), false),
    decreases ts.len() - pos, 4nat,
{
    if ts[pos] == SToken::Comma {
        lemma_expr_within(ts, pos + 1);
        if let Parsed::Done(_, p) = expr_spec(ts, pos + 1) {
            lemma_args_within(ts, p);
        }
    }
}

proof fn lemma_struct_lit_within(ts: Seq<SToken>, pos: int, name: Seq<char>)
    requires
        eof_terminated(ts),
        0 <= pos < ts.len(),
    ensures
        stays_within(ts, pos, struct_lit_spec(ts, pos, name), true),
    decreases ts.len() - pos, 4nat,
{
    lemma_expect_within(ts, pos, SToken::LBrace);
    if let Parsed::Done(_, p1) = expect_spec(ts, pos, SToken::LBrace) {
        if ts[p1] != SToken::RBrace {
            lemma_expect_ident_within(ts, p1);
            if let Parsed::Done(_, p2) = expect_ident_spec(ts, p1) {
                lemma_expect_within(ts, p2, SToken::Colon);
                if let Parsed::Done(_, p3) = expect_spec(ts, p2, SToken::Colon) {
                    lemma_expr_within(ts, p3);
                    if let Parsed::Done(_, p4) = expr_spec(ts, p3) {
                        lemma_inits_within(ts, p4);
                        if let Parsed::Done(_, p5) = inits_spec(ts, p4) {
                            lemma_expect_within(ts, p5, SToken::RBrace);
                        }
                    }
                }
            }
        }
    }
}

proof fn lemma_inits_within(ts: Seq<SToken>, pos: int)
    requires
        eof_terminated(ts),
        0 <= pos < ts.len(),
    ensures
        stays_within(ts, pos, inits_spec(ts, pos), false),
    decreases ts.len() - pos, 4nat,
{
    if ts[pos] == SToken::Comma {
        lemma_expect_ident_within(ts, pos + 1);
        if let Parsed::Done(_, p2) = expect_ident_spec(ts, pos + 1) {
            lemma_expect_within(ts, p2, SToken::Colon);
            if let Parsed::Done(_, p3) = expect_spec(ts, p2, SToken::Colon) {
                lemma_expr_within(ts, p3);
                if let Parsed::Done(_, p4) = expr_spec(ts, p3) {
                    lemma_inits_within(ts, p4);
                }
            }
        }
    }
}

/// On tokens that end in `Eof`, as the lexer leaves them, the parser never
/// reads past the last token: it gives a program or an error.
pub proof fn law_parser_stays_within_eof_terminated_tokens(ts: Seq<SToken>)
    requires
        eof_terminated(ts),
    ensures
        !(program_spec(ts, 0) is OutOfTokens),
{
    lemma_program_within(ts, 0);
}

} // verus!

verus! {

/// The arguments of a call after the first come out in source order: the
/// first of them is the expression right after the comma, and the others
/// are those that follow that expression.
pub proof fn law_call_arguments_in_source_order(ts: Seq<SToken>, p: int)
    requires
        args_spec(ts, p) matches Parsed::Done(rest, q) && rest.len() > 0,
    ensures
        tok_at(ts, p) == Some(SToken::Comma),
        expr_spec(ts, p + 1) matches Parsed::Done(a, p1) && a == args_spec(ts, p)->Done_0[0] && args_spec(ts, p1)
            == Parsed::Done(args_spec(ts, p)->Done_0.drop_first(), args_spec(ts, p)->Done_1),
{
    let rest = args_spec(ts, p)->Done_0;
    match expr_spec(ts, p + 1) {
        Parsed::Done(a, p1) => {
            match args_spec(ts, p1) {
                Parsed::Done(r2, q) => {
                    assert((seq![a] + r2).drop_first() =~= r2);
                },
                _ => {},
            }
        },
        _ => {},
    }
}

/// A parsed call keeps its first argument first: it is the expression right
/// after the `(`, and the other arguments are those that follow it.
pub proof fn law_call_first_argument_first(ts: Seq<SToken>, pos: int)
    requires
        primary_spec(ts, pos) matches Parsed::Done(SExpr::Call { callee, args }, r) && args.len() > 0,
    ensures
        expr_spec(ts, pos + 2) matches Parsed::Done(a, p) && a == primary_spec(ts, pos)->Done_0->args[0]
            && (args_spec(ts, p) matches Parsed::Done(rest, q) && rest == primary_spec(ts, pos)->Done_0->args.drop_first()),
{
    match expr_spec(ts, pos + 2) {
        Parsed::Done(a, p) => {
            match args_spec(ts, p) {
                Parsed::Done(rest, q) => {
                    assert((seq![a] + rest).drop_first() =~= rest);
                },
                _ => {},
            }
        },
        _ => {},
    }
}

} // verus!
