//! The syntax tree of a Warden program, and its mathematical model.
//!
//! `Expr` and `Stmt` are what the parser builds and what the checker and the
//! interpreter walk. Each has a view (`SExpr`, `SStmt`) in which every name is
//! the sequence of its characters and every list is a `Seq`; the contracts of
//! the later stages speak of the views.

use vstd::prelude::*;
use crate::number::Number;

verus! {

/// The model of an expression.
pub enum SExpr {
    Ident(Seq<char>),
    Number(Seq<char>),
    Call { callee: Seq<char>, args: Seq<SExpr> },
    Field { base: Box<SExpr>, field: Seq<char> },
    StructLit { name: Seq<char>, fields: Seq<(Seq<char>, SExpr)> },
}

/// The model of a statement.
pub enum SStmt {
    Let { name: Seq<char>, value: SExpr },
    Print(SExpr),
    ExprStmt(SExpr),
    FnDef { name: Seq<char>, params: Seq<Seq<char>>, body: Seq<SStmt> },
    StructDef { name: Seq<char>, fields: Seq<Seq<char>> },
    If { cond: SExpr, then_branch: Seq<SStmt>, else_branch: Option<Seq<SStmt>> },
    While { cond: SExpr, body: Seq<SStmt> },
}

#[derive(Debug, PartialEq)]
pub enum Expr {
    Ident(String),
    Number(Number),
    Call { callee: String, args: Vec<Expr> },
    /// a.x  — field access, chainable (a.x.y wraps Field around Field)
    Field { base: Box<Expr>, field: String },
    /// Point { x: 1, y: 2 }
    StructLit { name: String, fields: Vec<(String, Expr)> },
}

#[derive(Debug, PartialEq)]
pub enum Stmt {
    /// let <name> = <expr>;
    Let { name: String, value: Expr },
    /// print(<expr>);
    Print(Expr),
    /// A bare expression used for its side effect, e.g. `consume(s);`
    ExprStmt(Expr),
    /// fn <name>(<params>) { <body> }
    FnDef { name: String, params: Vec<String>, body: Vec<Stmt> },
    /// struct <name> { field1, field2 }
    StructDef { name: String, fields: Vec<String> },
    /// if (<cond>) { <then> } else { <else> }
    If { cond: Expr, then_branch: Vec<Stmt>, else_branch: Option<Vec<Stmt>> },
    /// while (<cond>) { <body> }
    While { cond: Expr, body: Vec<Stmt> },
}

pub type Program = Vec<Stmt>;

/// The views of a list of names.
pub open spec fn names_view(v: Seq<String>) -> Seq<Seq<char>> {
    Seq::new(v.len(), |i: int| v[i]@)
}

pub open spec fn expr_view(e: Expr) -> SExpr
    decreases e,
{
    match e {
        Expr::Ident(n) => SExpr::Ident(n@),
        Expr::Number(n) => SExpr::Number(n@),
        Expr::Call { callee, args } => SExpr::Call {
            callee: callee@,
            args: Seq::new(
                args@.len(),
                |i: int|
                    if 0 <= i < args@.len() {
                        proof {
                            broadcast use vstd::std_specs::vec::axiom_vec_decreases_to_view;
                            broadcast use vstd::seq::axiom_seq_index_decreases;
                        }
                        expr_view(args@[i])
                    } else {
                        SExpr::Ident(Seq::empty())
                    },
            ),
        },
        Expr::Field { base, field } => SExpr::Field {
            base: Box::new(expr_view(*base)),
            field: field@,
        },
        Expr::StructLit { name, fields } => SExpr::StructLit {
            name: name@,
            fields: Seq::new(
                fields@.len(),
                |i: int|
                    if 0 <= i < fields@.len() {
                        proof {
                            broadcast use vstd::std_specs::vec::axiom_vec_decreases_to_view;
                            broadcast use vstd::seq::axiom_seq_index_decreases;
                        }
                        (fields@[i].0@, expr_view(fields@[i].1))
                    } else {
                        (Seq::empty(), SExpr::Ident(Seq::empty()))
                    },
            ),
        },
    }
}

pub open spec fn stmt_view(s: Stmt) -> SStmt
    decreases s,
{
    match s {
        Stmt::Let { name, value } => SStmt::Let { name: name@, value: expr_view(value) },
        Stmt::Print(e) => SStmt::Print(expr_view(e)),
        Stmt::ExprStmt(e) => SStmt::ExprStmt(expr_view(e)),
        Stmt::FnDef { name, params, body } => SStmt::FnDef {
            name: name@,
            params: names_view(params@),
            body: Seq::new(
                body@.len(),
                |i: int|
                    if 0 <= i < body@.len() {
                        proof {
                            broadcast use vstd::std_specs::vec::axiom_vec_decreases_to_view;
                            broadcast use vstd::seq::axiom_seq_index_decreases;
                        }
                        stmt_view(body@[i])
                    } else {
                        SStmt::Print(SExpr::Ident(Seq::empty()))
                    },
            ),
        },
        Stmt::StructDef { name, fields } => SStmt::StructDef {
            name: name@,
            fields: names_view(fields@),
        },
        Stmt::If { cond, then_branch, else_branch } => SStmt::If {
            cond: expr_view(cond),
            then_branch: Seq::new(
                then_branch@.len(),
                |i: int|
                    if 0 <= i < then_branch@.len() {
                        proof {
                            broadcast use vstd::std_specs::vec::axiom_vec_decreases_to_view;
                            broadcast use vstd::seq::axiom_seq_index_decreases;
                        }
                        stmt_view(then_branch@[i])
                    } else {
                        SStmt::Print(SExpr::Ident(Seq::empty()))
                    },
            ),
            else_branch: match else_branch {
                Some(eb) => Some(
                    Seq::new(
                        eb@.len(),
                        |i: int|
                            if 0 <= i < eb@.len() {
                                proof {
                                    broadcast use vstd::std_specs::vec::axiom_vec_decreases_to_view;
                                    broadcast use vstd::seq::axiom_seq_index_decreases;
                                }
                                stmt_view(eb@[i])
                            } else {
                                SStmt::Print(SExpr::Ident(Seq::empty()))
                            },
                    ),
                ),
                None => None,
            },
        },
        Stmt::While { cond, body } => SStmt::While {
            cond: expr_view(cond),
            body: Seq::new(
                body@.len(),
                |i: int|
                    if 0 <= i < body@.len() {
                        proof {
                            broadcast use vstd::std_specs::vec::axiom_vec_decreases_to_view;
                            broadcast use vstd::seq::axiom_seq_index_decreases;
                        }
                        stmt_view(body@[i])
                    } else {
                        SStmt::Print(SExpr::Ident(Seq::empty()))
                    },
            ),
        },
    }
}

/// The views of a list of statements.
pub open spec fn stmts_view(v: Seq<Stmt>) -> Seq<SStmt> {
    Seq::new(v.len(), |i: int| stmt_view(v[i]))
}

/// The views of a list of expressions.
pub open spec fn exprs_view(v: Seq<Expr>) -> Seq<SExpr> {
    Seq::new(v.len(), |i: int| expr_view(v[i]))
}

impl View for Expr {
    type V = SExpr;

    open spec fn view(&self) -> SExpr {
        expr_view(*self)
    }
}

impl View for Stmt {
    type V = SStmt;

    open spec fn view(&self) -> SStmt {
        stmt_view(*self)
    }
}

/// The views of the field initialisers of a struct literal.
pub open spec fn inits_view(v: Seq<(String, Expr)>) -> Seq<(Seq<char>, SExpr)> {
    Seq::new(v.len(), |i: int| (v[i].0@, expr_view(v[i].1)))
}

pub proof fn lemma_struct_lit_view(name: String, fields: Vec<(String, Expr)>)
    ensures
        (Expr::StructLit { name, fields })@ == (SExpr::StructLit { name: name@, fields: inits_view(fields@) }),
{
    assert((Expr::StructLit { name, fields })@->fields =~= inits_view(fields@));
}

pub proof fn lemma_fn_def_view(name: String, params: Vec<String>, body: Vec<Stmt>)
    ensures
        (Stmt::FnDef { name, params, body })@ == (SStmt::FnDef {
            name: name@,
            params: names_view(params@),
            body: stmts_view(body@),
        }),
{
    assert((Stmt::FnDef { name, params, body })@->FnDef_body =~= stmts_view(body@));
}

pub proof fn lemma_if_view(cond: Expr, then_branch: Vec<Stmt>, else_branch: Option<Vec<Stmt>>)
    ensures
        (Stmt::If { cond, then_branch, else_branch })@ == (SStmt::If {
            cond: cond@,
            then_branch: stmts_view(then_branch@),
            else_branch: match else_branch {
                Some(eb) => Some(stmts_view(eb@)),
                None => None,
            },
        }),
{
    let v = (Stmt::If { cond, then_branch, else_branch })@;
    assert(v->then_branch =~= stmts_view(then_branch@));
    match else_branch {
        Some(eb) => {
            assert(v->else_branch->Some_0 =~= stmts_view(eb@));
        },
        None => {},
    }
}

pub proof fn lemma_while_view(cond: Expr, body: Vec<Stmt>)
    ensures
        (Stmt::While { cond, body })@ == (SStmt::While { cond: cond@, body: stmts_view(body@) }),
{
    assert((Stmt::While { cond, body })@->While_body =~= stmts_view(body@));
}

pub proof fn lemma_call_view(callee: String, args: Vec<Expr>)
    ensures
        (Expr::Call { callee, args })@ == (SExpr::Call { callee: callee@, args: exprs_view(args@) }),
{
    assert((Expr::Call { callee, args })@->args =~= exprs_view(args@));
}


/// Whether a statement binds `n` by a `let`, itself or in a branch or loop
/// body within it (a function body has a scope of its own and does not count).
pub open spec fn binds_in_stmt(s: SStmt, n: Seq<char>) -> bool
    decreases s,
{
    match s {
        SStmt::Let { name, .. } => name == n,
        SStmt::If { then_branch, else_branch, .. } => binds_in_block(then_branch, n) || match else_branch {
            Some(eb) => binds_in_block(eb, n),
            None => false,
        },
        SStmt::While { body, .. } => binds_in_block(body, n),
        _ => false,
    }
}

pub open spec fn binds_in_block(ss: Seq<SStmt>, n: Seq<char>) -> bool
    decreases ss,
{
    if ss.len() == 0 {
        false
    } else {
        proof {
            broadcast use vstd::seq::axiom_seq_index_decreases;
            broadcast use vstd::seq::axiom_seq_subrange_decreases;
        }
        binds_in_stmt(ss[0], n) || binds_in_block(ss.subrange(1, ss.len() as int), n)
    }
}

pub(crate) fn copy_names(v: &Vec<String>) -> (r: Vec<String>)
    ensures
        names_view(r@) == names_view(v@),
{
    let mut r: Vec<String> = Vec::new();
    let mut i: usize = 0;
    while i < v.len()
        invariant
            i <= v@.len(),
            r@.len() == i,
            forall|j: int| 0 <= j < i ==> #[trigger] r@[j]@ == v@[j]@,
        decreases v@.len() - i,
    {
        let c = v[i].clone();
        r.push(c);
        i = i + 1;
    }
    assert(names_view(r@) =~= names_view(v@));
    r
}

/// A copy of the expression.
#[verifier::loop_isolation(false)]
pub(crate) fn copy_expr(e: &Expr) -> (r: Expr)
    ensures
        r@ == e@,
    decreases e,
{
    match e {
        Expr::Ident(n) => Expr::Ident(n.clone()),
        Expr::Number(n) => Expr::Number(n.copy()),
        Expr::Call { callee, args } => {
            let mut r: Vec<Expr> = Vec::new();
            let mut i: usize = 0;
            while i < args.len()
                invariant
                    i <= args@.len(),
                    r@.len() == i,
                    forall|j: int| 0 <= j < i ==> #[trigger] expr_view(r@[j]) == expr_view(args@[j]),
                decreases args@.len() - i,
            {
                proof {
                    broadcast use vstd::std_specs::vec::axiom_vec_index_decreases;
                }
                let c = copy_expr(&args[i]);
                r.push(c);
                i = i + 1;
            }
            let c = callee.clone();
            proof {
                lemma_call_view(*callee, *args);
                lemma_call_view(c, r);
                assert(exprs_view(r@) =~= exprs_view(args@));
            }
            Expr::Call { callee: c, args: r }
        },
        Expr::Field { base, field } => Expr::Field { base: Box::new(copy_expr(base)), field: field.clone() },
        Expr::StructLit { name, fields } => {
            let mut r: Vec<(String, Expr)> = Vec::new();
            let mut i: usize = 0;
            while i < fields.len()
                invariant
                    i <= fields@.len(),
                    r@.len() == i,
                    forall|j: int| 0 <= j < i ==> #[trigger] r@[j].0@ == fields@[j].0@ && expr_view(r@[j].1) == expr_view(fields@[j].1),
                decreases fields@.len() - i,
            {
                proof {
                    broadcast use vstd::std_specs::vec::axiom_vec_index_decreases;
                }
                let c = copy_expr(&fields[i].1);
                r.push((fields[i].0.clone(), c));
                i = i + 1;
            }
            let n = name.clone();
            proof {
                lemma_struct_lit_view(*name, *fields);
                lemma_struct_lit_view(n, r);
                assert(inits_view(r@) =~= inits_view(fields@));
            }
            Expr::StructLit { name: n, fields: r }
        },
    }
}

/// A copy of the statements.
#[verifier::loop_isolation(false)]
pub(crate) fn copy_stmts(v: &Vec<Stmt>) -> (r: Vec<Stmt>)
    ensures
        stmts_view(r@) == stmts_view(v@),
    decreases v,
{
    let mut r: Vec<Stmt> = Vec::new();
    let mut i: usize = 0;
    while i < v.len()
        invariant
            i <= v@.len(),
            r@.len() == i,
            forall|j: int| 0 <= j < i ==> #[trigger] stmt_view(r@[j]) == stmt_view(v@[j]),
        decreases v@.len() - i,
    {
        proof {
            broadcast use vstd::std_specs::vec::axiom_vec_index_decreases;
        }
        let c = copy_stmt(&v[i]);
        r.push(c);
        i = i + 1;
    }
    assert(stmts_view(r@) =~= stmts_view(v@));
    r
}

/// A copy of the statement.
pub(crate) fn copy_stmt(s: &Stmt) -> (r: Stmt)
    ensures
        r@ == s@,
    decreases s,
{
    match s {
        Stmt::Let { name, value } => Stmt::Let { name: name.clone(), value: copy_expr(value) },
        Stmt::Print(e) => Stmt::Print(copy_expr(e)),
        Stmt::ExprStmt(e) => Stmt::ExprStmt(copy_expr(e)),
        Stmt::FnDef { name, params, body } => {
            let p = copy_names(params);
            let b = copy_stmts(body);
            let n = name.clone();
            proof {
                lemma_fn_def_view(*name, *params, *body);
                lemma_fn_def_view(n, p, b);
            }
            Stmt::FnDef { name: n, params: p, body: b }
        },
        Stmt::StructDef { name, fields } => {
            let f = copy_names(fields);
            Stmt::StructDef { name: name.clone(), fields: f }
        },
        Stmt::If { cond, then_branch, else_branch } => {
            let c = copy_expr(cond);
            let t = copy_stmts(then_branch);
            let e = match else_branch {
                Some(eb) => Some(copy_stmts(eb)),
                None => None,
            };
            proof {
                lemma_if_view(*cond, *then_branch, *else_branch);
                lemma_if_view(c, t, e);
            }
            Stmt::If { cond: c, then_branch: t, else_branch: e }
        },
        Stmt::While { cond, body } => {
            let c = copy_expr(cond);
            let b = copy_stmts(body);
            proof {
                lemma_while_view(*cond, *body);
                lemma_while_view(c, b);
            }
            Stmt::While { cond: c, body: b }
        },
    }
}

} // verus!
