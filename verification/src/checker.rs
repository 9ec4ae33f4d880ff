//! Ownership checker: static analysis over the AST.
//!
//! Every binding is in one of three states:
//!   Owned              — fully available
//!   Moved              — used up; further use is an error
//!   PartiallyMoved(set) — some struct fields moved, others still usable
//!
//! Deliberate simplifications vs. real Rust:
//!   1. Everything moves (no Copy exception).
//!   2. If/else merge is not path-sensitive — divergence ⇒ Moved.
//!   3. Outer-loop moves are forbidden (no fixed-point analysis): inside a
//!      loop only a name that a `let` of the loop body bound before the
//!      move may be moved.

use vstd::prelude::*;
use crate::ast::{
    binds_in_block, binds_in_stmt, copy_names, expr_view, exprs_view, inits_view, lemma_call_view, lemma_fn_def_view, lemma_if_view,
    lemma_struct_lit_view, lemma_while_view, names_view, stmts_view, Expr, Program, SExpr, SStmt,
    Stmt,
};
use crate::names::NameMap;
use crate::sorting::{lemma_sorted_unique, sorted_copy, sorted_names};
use crate::text::{concat3, concat5};

verus! {

// ---------------------------------------------------------------------------
// The model
// ---------------------------------------------------------------------------

/// The state of a binding.
pub enum SVarState {
    Owned,
    Moved,
    /// The names of the fields moved out of it.
    Partial(Set<Seq<char>>),
}

/// Every binding in view, by name.
pub type SScope = Map<Seq<char>, SVarState>;

/// The names of a list, joined by `", "`.
pub open spec fn join_names(s: Seq<Seq<char>>) -> Seq<char>
    decreases s.len(),
{
    if s.len() == 0 {
        Seq::empty()
    } else if s.len() == 1 {
        s[0]
    } else {
        join_names(s.drop_last()) + ", "@ + s.last()
    }
}

pub open spec fn msg_undeclared(n: Seq<char>) -> Seq<char> {
    "use of undeclared variable `"@ + n + "`"@
}

pub open spec fn msg_moved(n: Seq<char>) -> Seq<char> {
    "use of moved value `"@ + n + "`"@
}

pub open spec fn msg_partially_moved(n: Seq<char>, fields: Set<Seq<char>>) -> Seq<char> {
    "use of partially moved value `"@ + n + "` (field(s) already moved: "@ + join_names(
        sorted_names(fields),
    ) + ")"@
}

pub open spec fn msg_field_moved(field: Seq<char>, n: Seq<char>) -> Seq<char> {
    "field `"@ + field + "` of `"@ + n + "` was already moved"@
}

pub open spec fn msg_loop_move(n: Seq<char>) -> Seq<char> {
    "cannot move `"@ + n
        + "` inside a loop; it was declared outside the loop and the loop may execute more than once"@
}

pub open spec fn msg_loop_field_move(field: Seq<char>, n: Seq<char>) -> Seq<char> {
    "cannot move field `"@ + field + "` of `"@ + n + "` inside a loop; `"@ + n
        + "` was declared outside the loop"@
}

/// Why reading the variable `n` as a whole is refused, if it is.
pub open spec fn ident_use_error(n: Seq<char>, scope: SScope) -> Option<Seq<char>> {
    if !scope.dom().contains(n) {
        Some(msg_undeclared(n))
    } else {
        match scope[n] {
            SVarState::Owned => None,
            SVarState::Moved => Some(msg_moved(n)),
            SVarState::Partial(fields) => Some(msg_partially_moved(n, fields)),
        }
    }
}

/// Why reading the field `n.field` is refused, if it is.
pub open spec fn field_use_error(n: Seq<char>, field: Seq<char>, scope: SScope) -> Option<Seq<char>> {
    if !scope.dom().contains(n) {
        Some(msg_undeclared(n))
    } else {
        match scope[n] {
            SVarState::Owned => None,
            SVarState::Moved => Some(msg_moved(n)),
            SVarState::Partial(fields) => if fields.contains(field) {
                Some(msg_field_moved(field, n))
            } else {
                None
            },
        }
    }
}

/// Why reading `e` is refused, if it is: the first refusal, left to right.
pub open spec fn use_error(e: SExpr, scope: SScope) -> Option<Seq<char>>
    decreases e,
{
    match e {
        SExpr::Number(_) => None,
        SExpr::Ident(n) => ident_use_error(n, scope),
        SExpr::Field { base, field } => match *base {
            SExpr::Ident(n) => field_use_error(n, field, scope),
            _ => use_error(*base, scope),
        },
        SExpr::Call { callee, args } => uses_error(args, scope),
        SExpr::StructLit { name, fields } => field_values_use_error(fields, scope),
    }
}

pub open spec fn uses_error(es: Seq<SExpr>, scope: SScope) -> Option<Seq<char>>
    decreases es,
{
    if es.len() == 0 {
        None
    } else {
        proof {
            broadcast use vstd::seq::axiom_seq_index_decreases;
            broadcast use vstd::seq::axiom_seq_subrange_decreases;
        }
        match use_error(es[0], scope) {
            Some(m) => Some(m),
            None => uses_error(es.subrange(1, es.len() as int), scope),
        }
    }
}

pub open spec fn field_values_use_error(fs: Seq<(Seq<char>, SExpr)>, scope: SScope) -> Option<Seq<char>>
    decreases fs,
{
    if fs.len() == 0 {
        None
    } else {
        proof {
            broadcast use vstd::seq::axiom_seq_index_decreases;
            broadcast use vstd::seq::axiom_seq_subrange_decreases;
        }
        match use_error(fs[0].1, scope) {
            Some(m) => Some(m),
            None => field_values_use_error(fs.subrange(1, fs.len() as int), scope),
        }
    }
}

/// The state of `n` in `scope`, taken as owned where the scope lacks it.
pub open spec fn state_or_owned(scope: SScope, n: Seq<char>) -> SVarState {
    if scope.dom().contains(n) {
        scope[n]
    } else {
        SVarState::Owned
    }
}

/// Moving the variable `n` out. A move sees what earlier moves left: a
/// binding already moved, whole or in part, cannot be moved again.
pub open spec fn ident_move(n: Seq<char>, scope: SScope, depth: usize, locals: Set<Seq<char>>) -> Result<SScope, Seq<char>> {
    if depth > 0 && !locals.contains(n) {
        Err(msg_loop_move(n))
    } else {
        match state_or_owned(scope, n) {
            SVarState::Owned => Ok(scope.insert(n, SVarState::Moved)),
            SVarState::Moved => Err(msg_moved(n)),
            SVarState::Partial(fields) => Err(msg_partially_moved(n, fields)),
        }
    }
}

/// Moving the field `n.field` out.
pub open spec fn field_move(
    n: Seq<char>,
    field: Seq<char>,
    scope: SScope,
    depth: usize,
    locals: Set<Seq<char>>,
) -> Result<SScope, Seq<char>> {
    if depth > 0 && !locals.contains(n) {
        Err(msg_loop_field_move(field, n))
    } else {
        match state_or_owned(scope, n) {
            SVarState::Owned => Ok(scope.insert(n, SVarState::Partial(set![field]))),
            SVarState::Partial(fields) => if fields.contains(field) {
                Err(msg_field_moved(field, n))
            } else {
                Ok(scope.insert(n, SVarState::Partial(fields.insert(field))))
            },
            SVarState::Moved => Err(msg_moved(n)),
        }
    }
}

/// The scope once every value that `e` reads is moved out of it, or why a
/// move is refused.
pub open spec fn move_result(e: SExpr, scope: SScope, depth: usize, locals: Set<Seq<char>>) -> Result<SScope, Seq<char>>
    decreases e,
{
    match e {
        SExpr::Number(_) => Ok(scope),
        SExpr::Ident(n) => ident_move(n, scope, depth, locals),
        SExpr::Field { base, field } => match *base {
            SExpr::Ident(n) => field_move(n, field, scope, depth, locals),
            _ => move_result(*base, scope, depth, locals),
        },
        SExpr::Call { callee, args } => moves_result(args, scope, depth, locals),
        SExpr::StructLit { name, fields } => field_values_move_result(fields, scope, depth, locals),
    }
}

pub open spec fn moves_result(es: Seq<SExpr>, scope: SScope, depth: usize, locals: Set<Seq<char>>) -> Result<SScope, Seq<char>>
    decreases es,
{
    if es.len() == 0 {
        Ok(scope)
    } else {
        proof {
            broadcast use vstd::seq::axiom_seq_index_decreases;
            broadcast use vstd::seq::axiom_seq_subrange_decreases;
        }
        match move_result(es[0], scope, depth, locals) {
            Ok(s) => moves_result(es.subrange(1, es.len() as int), s, depth, locals),
            Err(m) => Err(m),
        }
    }
}

pub open spec fn field_values_move_result(
    fs: Seq<(Seq<char>, SExpr)>,
    scope: SScope,
    depth: usize,
    locals: Set<Seq<char>>,
) -> Result<SScope, Seq<char>>
    decreases fs,
{
    if fs.len() == 0 {
        Ok(scope)
    } else {
        proof {
            broadcast use vstd::seq::axiom_seq_index_decreases;
            broadcast use vstd::seq::axiom_seq_subrange_decreases;
        }
        match move_result(fs[0].1, scope, depth, locals) {
            Ok(s) => field_values_move_result(fs.subrange(1, fs.len() as int), s, depth, locals),
            Err(m) => Err(m),
        }
    }
}

/// The scope when moving the values that `e` reads is refused: the moves made
/// before the refused one stay, the refused one changes nothing.
pub open spec fn move_stop_scope(e: SExpr, scope: SScope, depth: usize, locals: Set<Seq<char>>) -> SScope
    decreases e,
{
    match e {
        SExpr::Field { base, field } => match *base {
            SExpr::Ident(_) => scope,
            _ => move_stop_scope(*base, scope, depth, locals),
        },
        SExpr::Call { callee, args } => moves_stop_scope(args, scope, depth, locals),
        SExpr::StructLit { name, fields } => field_values_stop_scope(fields, scope, depth, locals),
        _ => scope,
    }
}

pub open spec fn moves_stop_scope(es: Seq<SExpr>, scope: SScope, depth: usize, locals: Set<Seq<char>>) -> SScope
    decreases es,
{
    if es.len() == 0 {
        scope
    } else {
        proof {
            broadcast use vstd::seq::axiom_seq_index_decreases;
            broadcast use vstd::seq::axiom_seq_subrange_decreases;
        }
        match move_result(es[0], scope, depth, locals) {
            Ok(s) => moves_stop_scope(es.subrange(1, es.len() as int), s, depth, locals),
            Err(_) => move_stop_scope(es[0], scope, depth, locals),
        }
    }
}

pub open spec fn field_values_stop_scope(
    fs: Seq<(Seq<char>, SExpr)>,
    scope: SScope,
    depth: usize,
    locals: Set<Seq<char>>,
) -> SScope
    decreases fs,
{
    if fs.len() == 0 {
        scope
    } else {
        proof {
            broadcast use vstd::seq::axiom_seq_index_decreases;
            broadcast use vstd::seq::axiom_seq_subrange_decreases;
        }
        match move_result(fs[0].1, scope, depth, locals) {
            Ok(s) => field_values_stop_scope(fs.subrange(1, fs.len() as int), s, depth, locals),
            Err(_) => move_stop_scope(fs[0].1, scope, depth, locals),
        }
    }
}

/// The scope of a function body: its parameters, all owned.
pub open spec fn params_scope(params: Seq<Seq<char>>) -> SScope
    decreases params.len(),
{
    if params.len() == 0 {
        Map::empty()
    } else {
        params_scope(params.drop_last()).insert(params.last(), SVarState::Owned)
    }
}

/// The loop locals after the statement `s`: a `let` makes its name one,
/// for the statements after it in the same block.
pub open spec fn locals_after(s: SStmt, locals: Set<Seq<char>>) -> Set<Seq<char>> {
    match s {
        SStmt::Let { name, .. } => locals.insert(name),
        _ => locals,
    }
}

pub open spec fn state_in(scope: SScope, n: Seq<char>) -> Option<SVarState> {
    if scope.dom().contains(n) {
        Some(scope[n])
    } else {
        None
    }
}

/// The state of a binding after an `if`, from its states after the two branches:
/// the same state where they agree, `Moved` where they differ, including
/// where only one branch binds the name.
pub open spec fn merge_state(t: Option<SVarState>, e: Option<SVarState>) -> SVarState {
    match (t, e) {
        (Some(a), Some(b)) => if a == b {
            a
        } else {
            SVarState::Moved
        },
        _ => SVarState::Moved,
    }
}

/// The scope after an `if`, from the scope before it and after each branch.
pub open spec fn merge_scopes(scope: SScope, t: SScope, e: SScope) -> SScope {
    Map::new(
        |n: Seq<char>| scope.dom().contains(n) || t.dom().contains(n) || e.dom().contains(n),
        |n: Seq<char>|
            if t.dom().contains(n) || e.dom().contains(n) {
                merge_state(state_in(t, n), state_in(e, n))
            } else {
                scope[n]
            },
    )
}

/// The scope after a `while`: each binding of the scope before it takes its
/// state after the body.
pub open spec fn while_scope(scope: SScope, body: SScope) -> SScope {
    Map::new(
        |n: Seq<char>| scope.dom().contains(n),
        |n: Seq<char>|
            if body.dom().contains(n) {
                body[n]
            } else {
                scope[n]
            },
    )
}

/// One loop deeper.
pub open spec fn deeper(depth: usize) -> usize {
    if depth < usize::MAX {
        (depth + 1) as usize
    } else {
        depth
    }
}

/// The scope after the statement, or why it is refused.
pub open spec fn check_stmt_spec(s: SStmt, scope: SScope, depth: usize, locals: Set<Seq<char>>) -> Result<SScope, Seq<char>>
    decreases s,
{
    match s {
        SStmt::StructDef { .. } => Ok(scope),
        SStmt::FnDef { name, params, body } => match check_block_spec(body, params_scope(params), 0, Set::empty()) {
            Ok(_) => Ok(scope),
            Err(m) => Err(m),
        },
        SStmt::Let { name, value } => match use_error(value, scope) {
            Some(m) => Err(m),
            None => match move_result(value, scope, depth, locals) {
                Ok(s2) => Ok(s2.insert(name, SVarState::Owned)),
                Err(m) => Err(m),
            },
        },
        SStmt::Print(e) => match use_error(e, scope) {
            Some(m) => Err(m),
            None => move_result(e, scope, depth, locals),
        },
        SStmt::ExprStmt(e) => match use_error(e, scope) {
            Some(m) => Err(m),
            None => move_result(e, scope, depth, locals),
        },
        SStmt::If { cond, then_branch, else_branch } => match use_error(cond, scope) {
            Some(m) => Err(m),
            None => match check_block_spec(then_branch, scope, depth, locals) {
                Err(m) => Err(m),
                Ok(t) => match else_branch {
                    Some(eb) => match check_block_spec(eb, scope, depth, locals) {
                        Err(m) => Err(m),
                        Ok(e) => Ok(merge_scopes(scope, t, e)),
                    },
                    None => Ok(merge_scopes(scope, t, scope)),
                },
            },
        },
        SStmt::While { cond, body } => match use_error(cond, scope) {
            Some(m) => Err(m),
            None => match check_block_spec(body, scope, deeper(depth), Set::empty()) {
                Err(m) => Err(m),
                Ok(b) => Ok(while_scope(scope, b)),
            },
        },
    }
}

/// The scope after the statements in turn, or the first refusal.
pub open spec fn check_block_spec(ss: Seq<SStmt>, scope: SScope, depth: usize, locals: Set<Seq<char>>) -> Result<SScope, Seq<char>>
    decreases ss,
{
    if ss.len() == 0 {
        Ok(scope)
    } else {
        proof {
            broadcast use vstd::seq::axiom_seq_index_decreases;
            broadcast use vstd::seq::axiom_seq_subrange_decreases;
        }
        match check_stmt_spec(ss[0], scope, depth, locals) {
            Ok(s2) => check_block_spec(ss.subrange(1, ss.len() as int), s2, depth, locals_after(ss[0], locals)),
            Err(m) => Err(m),
        }
    }
}

/// What checking a whole program gives: nothing, or the first refusal.
pub open spec fn check_program_spec(program: Seq<SStmt>) -> Result<(), Seq<char>> {
    match check_block_spec(program, Map::empty(), 0, Set::empty()) {
        Ok(_) => Ok(()),
        Err(m) => Err(m),
    }
}

/// The struct definitions known after those of `ss` are recorded, each
/// replacing an earlier one of the same name.
pub open spec fn structs_after(known: Map<Seq<char>, Seq<Seq<char>>>, ss: Seq<SStmt>) -> Map<Seq<char>, Seq<Seq<char>>>
    decreases ss.len(),
{
    if ss.len() == 0 {
        known
    } else {
        let next = match ss[0] {
            SStmt::StructDef { name, fields } => known.insert(name, fields),
            _ => known,
        };
        structs_after(next, ss.subrange(1, ss.len() as int))
    }
}

} // verus!

verus! {

// ---------------------------------------------------------------------------
// The checker
// ---------------------------------------------------------------------------

/// The set of the names in a list.
pub open spec fn name_set(v: Seq<String>) -> Set<Seq<char>> {
    names_view(v).to_set()
}

enum VarState {
    Owned,
    Moved,
    PartiallyMoved(Vec<String>),
}

impl View for VarState {
    type V = SVarState;

    closed spec fn view(&self) -> SVarState {
        match self {
            VarState::Owned => SVarState::Owned,
            VarState::Moved => SVarState::Moved,
            VarState::PartiallyMoved(fields) => SVarState::Partial(name_set(fields@)),
        }
    }
}

type Scope = NameMap<VarState>;

spec fn scope_view(s: &Scope) -> SScope {
    s.map().map_values(|v: VarState| v@)
}

proof fn lemma_name_set_contains(v: Seq<String>, n: Seq<char>)
    ensures
        name_set(v).contains(n) <==> exists|i: int| 0 <= i < v.len() && #[trigger] v[i]@ == n,
{
    if name_set(v).contains(n) {
        let i = choose|i: int| 0 <= i < names_view(v).len() && names_view(v)[i] == n;
        assert(v[i]@ == n);
    }
    if exists|i: int| 0 <= i < v.len() && #[trigger] v[i]@ == n {
        let i = choose|i: int| 0 <= i < v.len() && #[trigger] v[i]@ == n;
        assert(names_view(v)[i] == n);
    }
}

proof fn lemma_name_set_single(v: Seq<String>)
    requires
        v.len() == 1,
    ensures
        name_set(v) == set![v[0]@],
{
    assert forall|n: Seq<char>| name_set(v).contains(n) <==> set![v[0]@].contains(n) by {
        lemma_name_set_contains(v, n);
    }
    assert(name_set(v) =~= set![v[0]@]);
}

proof fn lemma_scope_insert(s: &Scope, old_s: &Scope, k: String, v: VarState)
    requires
        s.map() == old_s.map().insert(k@, v),
    ensures
        scope_view(s) == scope_view(old_s).insert(k@, v@),
{
    assert(scope_view(s) =~= scope_view(old_s).insert(k@, v@));
}

/// Whether the list holds the name `n`.
fn names_contain(v: &Vec<String>, n: &String) -> (r: bool)
    ensures
        r == name_set(v@).contains(n@),
{
    proof {
        lemma_name_set_contains(v@, n@);
    }
    let mut i: usize = 0;
    while i < v.len()
        invariant
            i <= v@.len(),
            forall|j: int| 0 <= j < i ==> v@[j]@ != n@,
        decreases v@.len() - i,
    {
        if v[i] == *n {
            proof {
                assert(v@[i as int]@ == n@);
                lemma_name_set_contains(v@, n@);
            }
            return true;
        }
        i = i + 1;
    }
    false
}

fn copy_state(s: &VarState) -> (r: VarState)
    ensures
        r@ == s@,
{
    match s {
        VarState::Owned => VarState::Owned,
        VarState::Moved => VarState::Moved,
        VarState::PartiallyMoved(fields) => VarState::PartiallyMoved(copy_names(fields)),
    }
}

/// Whether every name of `a` is in `b`.
fn names_within(a: &Vec<String>, b: &Vec<String>) -> (r: bool)
    ensures
        r == name_set(a@).subset_of(name_set(b@)),
{
    let mut i: usize = 0;
    while i < a.len()
        invariant
            i <= a@.len(),
            forall|j: int| 0 <= j < i ==> name_set(b@).contains(#[trigger] a@[j]@),
        decreases a@.len() - i,
    {
        if !names_contain(b, &a[i]) {
            proof {
                lemma_name_set_contains(a@, a@[i as int]@);
            }
            return false;
        }
        i = i + 1;
    }
    proof {
        assert forall|n: Seq<char>| name_set(a@).contains(n) implies name_set(b@).contains(n) by {
            lemma_name_set_contains(a@, n);
        }
    }
    true
}

fn same_state(a: &VarState, b: &VarState) -> (r: bool)
    ensures
        r == (a@ == b@),
{
    match (a, b) {
        (VarState::Owned, VarState::Owned) => true,
        (VarState::Moved, VarState::Moved) => true,
        (VarState::PartiallyMoved(x), VarState::PartiallyMoved(y)) => {
            let r = names_within(x, y) && names_within(y, x);
            proof {
                if r {
                    assert(name_set(x@) =~= name_set(y@));
                }
            }
            r
        },
        _ => false,
    }
}

fn copy_scope(s: &Scope) -> (r: Scope)
    ensures
        scope_view(&r) == scope_view(s),
{
    let keys = s.keys();
    let mut r: Scope = NameMap::new();
    let mut i: usize = 0;
    while i < keys.len()
        invariant
            i <= keys@.len(),
            forall|k: Seq<char>|
                s.map().dom().contains(k) <==> exists|j: int| 0 <= j < keys@.len() && #[trigger] keys@[j]@ == k,
            scope_view(&r) == scope_view(s).restrict(
                Set::new(|k: Seq<char>| exists|j: int| 0 <= j < i && #[trigger] keys@[j]@ == k),
            ),
        decreases keys@.len() - i,
    {
        let k = &keys[i];
        let ghost before = r;
        let ghost done = Set::new(|k: Seq<char>| exists|j: int| 0 <= j < i && #[trigger] keys@[j]@ == k);
        assert(s.map().dom().contains(k@));
        match s.get(k) {
            Some(st) => {
                let kc = k.clone();
                let c = copy_state(st);
                r.insert(kc, c);
                proof {
                    lemma_scope_insert(&r, &before, kc, c);
                }
            },
            None => {},
        }
        i = i + 1;
        proof {
            let done2 = Set::new(|k: Seq<char>| exists|j: int| 0 <= j < i && #[trigger] keys@[j]@ == k);
            assert(done2 =~= done.insert(k@)) by {
                assert forall|x: Seq<char>| done2.contains(x) implies done.insert(k@).contains(x) by {
                    let j = choose|j: int| 0 <= j < i && #[trigger] keys@[j]@ == x;
                    if j < i - 1 {
                        assert(done.contains(x));
                    }
                }
                assert forall|x: Seq<char>| done.insert(k@).contains(x) implies done2.contains(x) by {
                    if x == k@ {
                        assert(keys@[i - 1]@ == x);
                    } else {
                        let j = choose|j: int| 0 <= j < i - 1 && #[trigger] keys@[j]@ == x;
                        assert(keys@[j]@ == x);
                    }
                }
            }
            assert(scope_view(&r) =~= scope_view(s).restrict(
                Set::new(|k: Seq<char>| exists|j: int| 0 <= j < i && #[trigger] keys@[j]@ == k),
            ));
        }
    }
    assert(scope_view(&r) =~= scope_view(s));
    r
}

/// The names joined by `", "`.
fn join_with_commas(v: &Vec<String>) -> (r: String)
    ensures
        r@ == join_names(names_view(v@)),
{
    let mut r = String::new();
    let mut i: usize = 0;
    while i < v.len()
        invariant
            i <= v@.len(),
            r@ == join_names(names_view(v@).take(i as int)),
        decreases v@.len() - i,
    {
        if i > 0 {
            r.append(", ");
        }
        r.append(v[i].as_str());
        i = i + 1;
        proof {
            let t = names_view(v@).take(i as int);
            assert(t.drop_last() =~= names_view(v@).take(i - 1));
            if i == 1 {
                assert(r@ =~= join_names(t));
            } else {
                assert(r@ =~= join_names(t));
            }
        }
    }
    assert(names_view(v@).take(v@.len() as int) =~= names_view(v@));
    r
}

/// Why reading the variable as a whole is refused.
fn partially_moved_message(name: &String, fields: &Vec<String>) -> (r: String)
    ensures
        r@ == msg_partially_moved(name@, name_set(fields@)),
{
    let sorted = sorted_copy(fields);
    let list = join_with_commas(&sorted);
    proof {
        let sv = sorted@.map_values(|s: String| s@);
        assert(sv =~= names_view(sorted@));
        assert(names_view(fields@) =~= fields@.map_values(|s: String| s@));
        lemma_sorted_unique(sorted_names(name_set(fields@)), sv);
    }
    concat5("use of partially moved value `", name.as_str(), "` (field(s) already moved: ", list.as_str(), ")")
}

pub struct Checker {
    structs: NameMap<Vec<String>>,
}

impl Checker {
    /// The struct definitions recorded so far: each name with its fields.
    pub closed spec fn structs(&self) -> Map<Seq<char>, Seq<Seq<char>>> {
        self.structs.map().map_values(|v: Vec<String>| names_view(v@))
    }

    pub fn new() -> (c: Self)
        ensures
            c.structs() == Map::<Seq<char>, Seq<Seq<char>>>::empty(),
    {
        let c = Checker { structs: NameMap::new() };
        assert(c.structs() =~= Map::<Seq<char>, Seq<Seq<char>>>::empty());
        c
    }
}

} // verus!

verus! {

proof fn lemma_subrange_step<A>(s: Seq<A>, i: int)
    requires
        0 <= i < s.len(),
    ensures
        s.subrange(i, s.len() as int)[0] == s[i],
        s.subrange(i, s.len() as int).subrange(1, s.subrange(i, s.len() as int).len() as int)
            =~= s.subrange(i + 1, s.len() as int),
        s.subrange(i, s.len() as int).len() > 0,
{
}

impl Checker {
    #[verifier::loop_isolation(false)]
    fn check_use(&self, expr: &Expr, scope: &Scope) -> (r: Result<(), String>)
        ensures
            match use_error(expr@, scope_view(scope)) {
                None => r is Ok,
                Some(m) => r matches Err(x) && x@ == m,
            },
        decreases expr,
    {
        let ghost sv = scope_view(scope);
        match expr {
            Expr::Number(_) => Ok(()),
            Expr::Ident(name) => match scope.get(name) {
                None => Err(concat3("use of undeclared variable `", name.as_str(), "`")),
                Some(VarState::Owned) => Ok(()),
                Some(VarState::Moved) => Err(concat3("use of moved value `", name.as_str(), "`")),
                Some(VarState::PartiallyMoved(fields)) => Err(partially_moved_message(name, fields)),
            },
            Expr::Field { base, field } => {
                match &**base {
                    Expr::Ident(name) => match scope.get(name) {
                        None => Err(concat3("use of undeclared variable `", name.as_str(), "`")),
                        Some(VarState::Owned) => Ok(()),
                        Some(VarState::Moved) => Err(concat3("use of moved value `", name.as_str(), "`")),
                        Some(VarState::PartiallyMoved(fields)) => {
                            if names_contain(fields, field) {
                                Err(concat5("field `", field.as_str(), "` of `", name.as_str(), "` was already moved"))
                            } else {
                                Ok(())
                            }
                        },
                    },
                    _ => {
                        assert(!(expr_view(**base) is Ident));
                        self.check_use(base, scope)
                    },
                }
            },
            Expr::Call { callee, args } => {
                proof {
                    lemma_call_view(*callee, *args);
                }
                let ghost av = exprs_view(args@);
                assert(av.subrange(0, av.len() as int) =~= av);
                let mut i: usize = 0;
                while i < args.len()
                    invariant
                        i <= args@.len(),
                        av == exprs_view(args@),
                        sv == scope_view(scope),
                        uses_error(av, sv) == uses_error(av.subrange(i as int, av.len() as int), sv),
                    decreases args@.len() - i,
                {
                    proof {
                        lemma_subrange_step(av, i as int);
                        broadcast use vstd::std_specs::vec::axiom_vec_index_decreases;
                    }
                    self.check_use(&args[i], scope)?;
                    i = i + 1;
                }
                proof {
                    assert(av.subrange(i as int, av.len() as int).len() == 0);
                }
                Ok(())
            },
            Expr::StructLit { name, fields } => {
                proof {
                    lemma_struct_lit_view(*name, *fields);
                }
                let ghost fv = inits_view(fields@);
                assert(fv.subrange(0, fv.len() as int) =~= fv);
                let mut i: usize = 0;
                while i < fields.len()
                    invariant
                        i <= fields@.len(),
                        fv == inits_view(fields@),
                        sv == scope_view(scope),
                        field_values_use_error(fv, sv) == field_values_use_error(
                            fv.subrange(i as int, fv.len() as int),
                            sv,
                        ),
                    decreases fields@.len() - i,
                {
                    proof {
                        lemma_subrange_step(fv, i as int);
                        broadcast use vstd::std_specs::vec::axiom_vec_index_decreases;
                    }
                    self.check_use(&fields[i].1, scope)?;
                    i = i + 1;
                }
                proof {
                    assert(fv.subrange(i as int, fv.len() as int).len() == 0);
                }
                Ok(())
            },
        }
    }
}


impl Checker {
    #[verifier::loop_isolation(false)]
    fn apply_move(&self, expr: &Expr, scope: &mut Scope, loop_depth: usize, loop_locals: &Vec<String>) -> (r:
        Result<(), String>)
        ensures
            match move_result(expr@, scope_view(old(scope)), loop_depth, name_set(loop_locals@)) {
                Ok(s) => r is Ok && scope_view(final(scope)) == s,
                Err(m) => r matches Err(x) && x@ == m && scope_view(final(scope)) == move_stop_scope(
                    expr@,
                    scope_view(old(scope)),
                    loop_depth,
                    name_set(loop_locals@),
                ),
            },
        decreases expr,
    {
        let ghost sv = scope_view(scope);
        let ghost locals = name_set(loop_locals@);
        match expr {
            Expr::Number(_) => Ok(()),
            Expr::Ident(name) => {
                if loop_depth > 0 && !names_contain(loop_locals, name) {
                    return Err(
                        concat3(
                            "cannot move `",
                            name.as_str(),
                            "` inside a loop; it was declared outside the loop and the loop may execute more than once",
                        ),
                    );
                }
                match scope.get(name) {
                    Some(VarState::Moved) => {
                        return Err(concat3("use of moved value `", name.as_str(), "`"));
                    },
                    Some(VarState::PartiallyMoved(fields)) => {
                        return Err(partially_moved_message(name, fields));
                    },
                    _ => {},
                }
                let ghost before = *scope;
                let n = name.clone();
                scope.insert(n, VarState::Moved);
                proof {
                    lemma_scope_insert(scope, &before, n, VarState::Moved);
                }
                Ok(())
            },
            Expr::Field { base, field } => {
                match &**base {
                    Expr::Ident(name) => {
                        if loop_depth > 0 && !names_contain(loop_locals, name) {
                            let mut m = concat5(
                                "cannot move field `",
                                field.as_str(),
                                "` of `",
                                name.as_str(),
                                "` inside a loop; `",
                            );
                            m.append(name.as_str());
                            m.append("` was declared outside the loop");
                            assert(m@ =~= msg_loop_field_move(field@, name@));
                            return Err(m);
                        }
                        let new_state = match scope.get(name) {
                            None => {
                                let mut fs: Vec<String> = Vec::new();
                                fs.push(field.clone());
                                proof {
                                    lemma_name_set_single(fs@);
                                }
                                VarState::PartiallyMoved(fs)
                            },
                            Some(VarState::Owned) => {
                                let mut fs: Vec<String> = Vec::new();
                                fs.push(field.clone());
                                proof {
                                    lemma_name_set_single(fs@);
                                }
                                VarState::PartiallyMoved(fs)
                            },
                            Some(VarState::PartiallyMoved(moved)) => {
                                if names_contain(moved, field) {
                                    return Err(
                                        concat5("field `", field.as_str(), "` of `", name.as_str(), "` was already moved"),
                                    );
                                }
                                let mut fs = copy_names(moved);
                                let ghost old_fs = fs@;
                                fs.push(field.clone());
                                proof {
                                    assert(names_view(fs@) =~= names_view(old_fs).push(field@));
                                    names_view(old_fs).lemma_push_to_set_commute(field@);
                                }
                                assert(name_set(fs@) == name_set(moved@).insert(field@));
                                VarState::PartiallyMoved(fs)
                            },
                            Some(VarState::Moved) => {
                                return Err(concat3("use of moved value `", name.as_str(), "`"));
                            },
                        };
                        let ghost before = *scope;
                        let n = name.clone();
                        scope.insert(n, new_state);
                        proof {
                            lemma_scope_insert(scope, &before, n, new_state);
                        }
                        Ok(())
                    },
                    _ => {
                        assert(!(expr_view(**base) is Ident));
                        self.apply_move(base, scope, loop_depth, loop_locals)
                    },
                }
            },
            Expr::Call { callee, args } => {
                proof {
                    lemma_call_view(*callee, *args);
                }
                let ghost av = exprs_view(args@);
                assert(av.subrange(0, av.len() as int) =~= av);
                let mut i: usize = 0;
                while i < args.len()
                    invariant
                        i <= args@.len(),
                        moves_result(av, sv, loop_depth, locals) == moves_result(
                            av.subrange(i as int, av.len() as int),
                            scope_view(scope),
                            loop_depth,
                            locals,
                        ),
                        moves_stop_scope(av, sv, loop_depth, locals) == moves_stop_scope(
                            av.subrange(i as int, av.len() as int),
                            scope_view(scope),
                            loop_depth,
                            locals,
                        ),
                    decreases args@.len() - i,
                {
                    proof {
                        lemma_subrange_step(av, i as int);
                        broadcast use vstd::std_specs::vec::axiom_vec_index_decreases;
                    }
                    match self.apply_move(&args[i], scope, loop_depth, loop_locals) {
                        Ok(()) => {},
                        Err(m) => {
                            return Err(m);
                        },
                    }
                    i = i + 1;
                }
                Ok(())
            },
            Expr::StructLit { name, fields } => {
                proof {
                    lemma_struct_lit_view(*name, *fields);
                }
                let ghost fv = inits_view(fields@);
                assert(fv.subrange(0, fv.len() as int) =~= fv);
                let mut i: usize = 0;
                while i < fields.len()
                    invariant
                        i <= fields@.len(),
                        field_values_move_result(fv, sv, loop_depth, locals) == field_values_move_result(
                            fv.subrange(i as int, fv.len() as int),
                            scope_view(scope),
                            loop_depth,
                            locals,
                        ),
                        field_values_stop_scope(fv, sv, loop_depth, locals) == field_values_stop_scope(
                            fv.subrange(i as int, fv.len() as int),
                            scope_view(scope),
                            loop_depth,
                            locals,
                        ),
                    decreases fields@.len() - i,
                {
                    proof {
                        lemma_subrange_step(fv, i as int);
                        broadcast use vstd::std_specs::vec::axiom_vec_index_decreases;
                    }
                    match self.apply_move(&fields[i].1, scope, loop_depth, loop_locals) {
                        Ok(()) => {},
                        Err(m) => {
                            return Err(m);
                        },
                    }
                    i = i + 1;
                }
                Ok(())
            },
        }
    }
}


/// The checker's result, as the contracts state it.
pub open spec fn block_outcome(
    r: Result<(), String>,
    scope_after: SScope,
    spec: Result<SScope, Seq<char>>,
) -> bool {
    match spec {
        Ok(s) => r is Ok && scope_after == s,
        Err(m) => r matches Err(x) && x@ == m,
    }
}

impl Checker {
    /// Merge branch scopes: a binding keeps the state that both paths leave
    /// it in (so it is Owned only if Owned on both); any disagreement,
    /// including a name that only one path binds, makes it Moved.
    #[verifier::loop_isolation(false)]
    fn merge_branches(&self, scope: &mut Scope, then_scope: &Scope, else_scope: &Scope)
        ensures
            scope_view(final(scope)) == merge_scopes(
                scope_view(old(scope)),
                scope_view(then_scope),
                scope_view(else_scope),
            ),
    {
        let ghost s0 = scope_view(scope);
        let ghost t = scope_view(then_scope);
        let ghost e = scope_view(else_scope);
        let mut keys = then_scope.keys();
        let mut else_keys = else_scope.keys();
        let ghost tk = keys@;
        let ghost ek = else_keys@;
        keys.append(&mut else_keys);
        assert(keys@ == tk + ek);
        let mut i: usize = 0;
        while i < keys.len()
            invariant
                i <= keys@.len(),
                scope_view(scope) == Map::new(
                    |n: Seq<char>| s0.dom().contains(n) || exists|j: int| 0 <= j < i && #[trigger] keys@[j]@ == n,
                    |n: Seq<char>|
                        if exists|j: int| 0 <= j < i && #[trigger] keys@[j]@ == n {
                            merge_state(state_in(t, n), state_in(e, n))
                        } else {
                            s0[n]
                        },
                ),
            decreases keys@.len() - i,
        {
            let k = &keys[i];
            let merged = match (then_scope.get(k), else_scope.get(k)) {
                (Some(a), Some(b)) => if same_state(a, b) {
                    copy_state(a)
                } else {
                    VarState::Moved
                },
                _ => VarState::Moved,
            };
            assert(merged@ == merge_state(state_in(t, k@), state_in(e, k@)));
            let ghost before = *scope;
            let kc = k.clone();
            scope.insert(kc, merged);
            proof {
                lemma_scope_insert(scope, &before, kc, merged);
            }
            i = i + 1;
            proof {
                let target = Map::new(
                    |n: Seq<char>| s0.dom().contains(n) || exists|j: int| 0 <= j < i && #[trigger] keys@[j]@ == n,
                    |n: Seq<char>|
                        if exists|j: int| 0 <= j < i && #[trigger] keys@[j]@ == n {
                            merge_state(state_in(t, n), state_in(e, n))
                        } else {
                            s0[n]
                        },
                );
                assert forall|n: Seq<char>| #[trigger] target.dom().contains(n) <==> scope_view(scope).dom().contains(n) by {
                    if n == k@ {
                        assert(keys@[i - 1]@ == n);
                    } else if exists|j: int| 0 <= j < i && #[trigger] keys@[j]@ == n {
                        let j = choose|j: int| 0 <= j < i && #[trigger] keys@[j]@ == n;
                        assert(j < i - 1);
                    }
                }
                assert forall|n: Seq<char>| #[trigger] target.dom().contains(n) implies scope_view(scope)[n] == target[n] by {
                    if n == k@ {
                        assert(keys@[i - 1]@ == n);
                    } else if exists|j: int| 0 <= j < i && #[trigger] keys@[j]@ == n {
                        let j = choose|j: int| 0 <= j < i && #[trigger] keys@[j]@ == n;
                        assert(j < i - 1);
                    }
                }
                assert(scope_view(scope) =~= target);
            }
        }
        proof {
            let m = merge_scopes(s0, t, e);
            assert forall|n: Seq<char>|
                (exists|j: int| 0 <= j < keys@.len() && #[trigger] keys@[j]@ == n) <==> (t.dom().contains(n)
                    || e.dom().contains(n)) by {
                if exists|j: int| 0 <= j < keys@.len() && #[trigger] keys@[j]@ == n {
                    let j = choose|j: int| 0 <= j < keys@.len() && #[trigger] keys@[j]@ == n;
                    if j < tk.len() {
                        assert(tk[j]@ == n);
                    } else {
                        assert(ek[j - tk.len()]@ == n);
                    }
                }
                if t.dom().contains(n) {
                    let j = choose|j: int| 0 <= j < tk.len() && #[trigger] tk[j]@ == n;
                    assert(keys@[j]@ == n);
                }
                if e.dom().contains(n) {
                    let j = choose|j: int| 0 <= j < ek.len() && #[trigger] ek[j]@ == n;
                    assert(keys@[tk.len() + j]@ == n);
                }
            }
            assert(scope_view(scope) =~= m);
        }
    }

    #[verifier::loop_isolation(false)]
    fn check_block(&self, stmts: &Vec<Stmt>, scope: &mut Scope, loop_depth: usize, loop_locals: &Vec<String>) -> (r:
        Result<(), String>)
        ensures
            block_outcome(
                r,
                scope_view(final(scope)),
                check_block_spec(stmts_view(stmts@), scope_view(old(scope)), loop_depth, name_set(loop_locals@)),
            ),
        decreases stmts,
    {
        let ghost sv = stmts_view(stmts@);
        let ghost s0 = scope_view(scope);
        let ghost locals0 = name_set(loop_locals@);
        assert(sv.subrange(0, sv.len() as int) =~= sv);
        // A `let` in this block makes its name a loop local for the
        // statements after it.
        let mut locals = copy_names(loop_locals);
        let mut i: usize = 0;
        while i < stmts.len()
            invariant
                i <= stmts@.len(),
                check_block_spec(sv, s0, loop_depth, locals0) == check_block_spec(
                    sv.subrange(i as int, sv.len() as int),
                    scope_view(scope),
                    loop_depth,
                    name_set(locals@),
                ),
            decreases stmts@.len() - i,
        {
            proof {
                lemma_subrange_step(sv, i as int);
                broadcast use vstd::std_specs::vec::axiom_vec_index_decreases;
            }
            self.check_stmt(&stmts[i], scope, loop_depth, &locals)?;
            let ghost before = locals@;
            match &stmts[i] {
                Stmt::Let { name, .. } => {
                    locals.push(name.clone());
                    proof {
                        assert(names_view(locals@) =~= names_view(before).push(name@));
                        names_view(before).lemma_push_to_set_commute(name@);
                    }
                },
                _ => {},
            }
            assert(name_set(locals@) == locals_after(sv[i as int], name_set(before)));
            i = i + 1;
        }
        Ok(())
    }

    #[verifier::loop_isolation(false)]
    fn check_stmt(&self, stmt: &Stmt, scope: &mut Scope, loop_depth: usize, loop_locals: &Vec<String>) -> (r:
        Result<(), String>)
        ensures
            block_outcome(
                r,
                scope_view(final(scope)),
                check_stmt_spec(stmt@, scope_view(old(scope)), loop_depth, name_set(loop_locals@)),
            ),
        decreases stmt,
    {
        let ghost s0 = scope_view(scope);
        let ghost locals = name_set(loop_locals@);
        match stmt {
            Stmt::StructDef { .. } => Ok(()),
            Stmt::FnDef { name, params, body } => {
                proof {
                    lemma_fn_def_view(*name, *params, *body);
                }
                let ghost pv = names_view(params@);
                let mut fn_scope: Scope = NameMap::new();
                let mut i: usize = 0;
                assert(scope_view(&fn_scope) =~= params_scope(pv.take(0)));
                while i < params.len()
                    invariant
                        i <= params@.len(),
                        scope_view(&fn_scope) == params_scope(pv.take(i as int)),
                    decreases params@.len() - i,
                {
                    let ghost before = fn_scope;
                    let p = params[i].clone();
                    fn_scope.insert(p, VarState::Owned);
                    proof {
                        lemma_scope_insert(&fn_scope, &before, p, VarState::Owned);
                        assert(pv.take(i + 1).drop_last() =~= pv.take(i as int));
                    }
                    i = i + 1;
                }
                assert(pv.take(params@.len() as int) =~= pv);
                let empty: Vec<String> = Vec::new();
                assert(name_set(empty@) =~= Set::<Seq<char>>::empty());
                self.check_block(body, &mut fn_scope, 0, &empty)
            },
            Stmt::Let { name, value } => {
                self.check_use(value, scope)?;
                self.apply_move(value, scope, loop_depth, loop_locals)?;
                let ghost before = *scope;
                let n = name.clone();
                scope.insert(n, VarState::Owned);
                proof {
                    lemma_scope_insert(scope, &before, n, VarState::Owned);
                }
                Ok(())
            },
            Stmt::Print(e) => {
                self.check_use(e, scope)?;
                self.apply_move(e, scope, loop_depth, loop_locals)?;
                Ok(())
            },
            Stmt::ExprStmt(e) => {
                self.check_use(e, scope)?;
                self.apply_move(e, scope, loop_depth, loop_locals)?;
                Ok(())
            },
            Stmt::If { cond, then_branch, else_branch } => {
                proof {
                    lemma_if_view(*cond, *then_branch, *else_branch);
                }
                self.check_use(cond, scope)?;
                let mut then_scope = copy_scope(scope);
                self.check_block(then_branch, &mut then_scope, loop_depth, loop_locals)?;
                let mut else_scope = copy_scope(scope);
                match else_branch {
                    Some(else_b) => {
                        self.check_block(else_b, &mut else_scope, loop_depth, loop_locals)?;
                    },
                    None => {},
                }
                self.merge_branches(scope, &then_scope, &else_scope);
                Ok(())
            },
            Stmt::While { cond, body } => {
                proof {
                    lemma_while_view(*cond, *body);
                }
                self.check_use(cond, scope)?;
                // Only the body's own `let`s, made before a move, exempt it.
                let new_loop_locals: Vec<String> = Vec::new();
                assert(name_set(new_loop_locals@) =~= Set::<Seq<char>>::empty());
                let mut body_scope = copy_scope(scope);
                let depth = if loop_depth < usize::MAX {
                    loop_depth + 1
                } else {
                    loop_depth
                };
                self.check_block(body, &mut body_scope, depth, &new_loop_locals)?;
                let ghost b = scope_view(&body_scope);
                let keys = body_scope.keys();
                let mut j: usize = 0;
                while j < keys.len()
                    invariant
                        j <= keys@.len(),
                        scope_view(scope) == Map::new(
                            |n: Seq<char>| s0.dom().contains(n),
                            |n: Seq<char>|
                                if b.dom().contains(n) && exists|x: int| 0 <= x < j && #[trigger] keys@[x]@ == n {
                                    b[n]
                                } else {
                                    s0[n]
                                },
                        ),
                    decreases keys@.len() - j,
                {
                    let k = &keys[j];
                    if scope.contains_key(k) {
                        match body_scope.get(k) {
                            Some(v) => {
                                let ghost before = *scope;
                                let kc = k.clone();
                                let c = copy_state(v);
                                scope.insert(kc, c);
                                proof {
                                    lemma_scope_insert(scope, &before, kc, c);
                                }
                            },
                            None => {},
                        }
                    }
                    j = j + 1;
                    proof {
                        let target = Map::new(
                            |n: Seq<char>| s0.dom().contains(n),
                            |n: Seq<char>|
                                if b.dom().contains(n) && exists|x: int| 0 <= x < j && #[trigger] keys@[x]@ == n {
                                    b[n]
                                } else {
                                    s0[n]
                                },
                        );
                        assert forall|n: Seq<char>| #[trigger] target.dom().contains(n) implies scope_view(scope)[n] == target[n] by {
                            if n == k@ {
                                assert(keys@[j - 1]@ == n);
                            } else if exists|x: int| 0 <= x < j && #[trigger] keys@[x]@ == n {
                                let x = choose|x: int| 0 <= x < j && #[trigger] keys@[x]@ == n;
                                assert(x < j - 1);
                            }
                        }
                        assert(scope_view(scope) =~= target);
                    }
                }
                proof {
                    assert(scope_view(scope) =~= while_scope(s0, b));
                }
                Ok(())
            },
        }
    }

    pub fn check_program(&mut self, program: &Program) -> (r: Result<(), String>)
        ensures
            final(self).structs() == structs_after(old(self).structs(), stmts_view(program@)),
            match check_program_spec(stmts_view(program@)) {
                Ok(_) => r is Ok,
                Err(m) => r matches Err(x) && x@ == m,
            },
    {
        let ghost pv = stmts_view(program@);
        let ghost k0 = self.structs();
        assert(pv.subrange(0, pv.len() as int) =~= pv);
        let mut i: usize = 0;
        while i < program.len()
            invariant
                i <= program@.len(),
                pv == stmts_view(program@),
                structs_after(k0, pv) == structs_after(self.structs(), pv.subrange(i as int, pv.len() as int)),
            decreases program@.len() - i,
        {
            proof {
                lemma_subrange_step(pv, i as int);
            }
            match &program[i] {
                Stmt::StructDef { name, fields } => {
                    let ghost before = self.structs();
                    self.structs.insert(name.clone(), copy_names(fields));
                    assert(self.structs() =~= before.insert(name@, names_view(fields@)));
                },
                _ => {},
            }
            i = i + 1;
        }
        let mut scope: Scope = NameMap::new();
        let empty: Vec<String> = Vec::new();
        assert(name_set(empty@) =~= Set::<Seq<char>>::empty());
        assert(scope_view(&scope) =~= Map::<Seq<char>, SVarState>::empty());
        self.check_block(program, &mut scope, 0, &empty)
    }
}

// ---------------------------------------------------------------------------
// Laws of the ownership model
// ---------------------------------------------------------------------------

/// A moved binding cannot be read again, neither as a whole nor by a field.
pub proof fn law_moved_binding_is_unusable(scope: SScope, n: Seq<char>, field: Seq<char>)
    requires
        scope.dom().contains(n),
        scope[n] == SVarState::Moved,
    ensures
        use_error(SExpr::Ident(n), scope) == Some(msg_moved(n)),
        use_error(SExpr::Field { base: Box::new(SExpr::Ident(n)), field }, scope) == Some(msg_moved(n)),
{
}

/// A partially moved binding cannot be read as a whole; one of its fields can
/// be read exactly when that field was not moved.
pub proof fn law_partially_moved_binding(scope: SScope, n: Seq<char>, moved: Set<Seq<char>>, field: Seq<char>)
    requires
        scope.dom().contains(n),
        scope[n] == SVarState::Partial(moved),
    ensures
        use_error(SExpr::Ident(n), scope) == Some(msg_partially_moved(n, moved)),
        use_error(SExpr::Field { base: Box::new(SExpr::Ident(n)), field }, scope) is None <==> !moved.contains(
            field,
        ),
{
}

/// A name that is not in scope cannot be read, as a whole or by a field.
pub proof fn law_undeclared_binding_is_unusable(scope: SScope, n: Seq<char>, field: Seq<char>)
    requires
        !scope.dom().contains(n),
    ensures
        use_error(SExpr::Ident(n), scope) == Some(msg_undeclared(n)),
        use_error(SExpr::Field { base: Box::new(SExpr::Ident(n)), field }, scope) == Some(msg_undeclared(n)),
{
}

/// Every binding has a single owner: a binding that a move (earlier in the
/// same expression, or before) has taken, whole or in part, cannot be moved
/// whole again, nor can a field be moved twice.
pub proof fn law_no_second_move(scope: SScope, n: Seq<char>, field: Seq<char>, depth: usize, locals: Set<Seq<char>>)
    requires
        scope.dom().contains(n),
        depth == 0 || locals.contains(n),
    ensures
        scope[n] == SVarState::Moved ==> move_result(SExpr::Ident(n), scope, depth, locals) == Err::<
            SScope,
            Seq<char>,
        >(msg_moved(n)),
        scope[n] == SVarState::Moved ==> move_result(
            SExpr::Field { base: Box::new(SExpr::Ident(n)), field },
            scope,
            depth,
            locals,
        ) == Err::<SScope, Seq<char>>(msg_moved(n)),
        scope[n] matches SVarState::Partial(fs) ==> move_result(SExpr::Ident(n), scope, depth, locals) is Err,
        scope[n] matches SVarState::Partial(fs) && fs.contains(field) ==> move_result(
            SExpr::Field { base: Box::new(SExpr::Ident(n)), field },
            scope,
            depth,
            locals,
        ) == Err::<SScope, Seq<char>>(msg_field_moved(field, n)),
{
}

/// A refused move changes nothing: the scope after it holds only the moves
/// made before it in the same expression.
pub proof fn law_refused_move_of_a_name_leaves_the_scope(
    n: Seq<char>,
    field: Seq<char>,
    scope: SScope,
    depth: usize,
    locals: Set<Seq<char>>,
)
    ensures
        move_stop_scope(SExpr::Ident(n), scope, depth, locals) == scope,
        move_stop_scope(SExpr::Field { base: Box::new(SExpr::Ident(n)), field }, scope, depth, locals) == scope,
{
}

/// A function definition is checked on its own: its body sees only its
/// parameters, all owned, outside any loop, and the scope around it is left
/// as it was.
pub proof fn law_function_body_sees_only_its_parameters(
    name: Seq<char>,
    params: Seq<Seq<char>>,
    body: Seq<SStmt>,
    scope: SScope,
    depth: usize,
    locals: Set<Seq<char>>,
)
    ensures
        check_stmt_spec(SStmt::FnDef { name, params, body }, scope, depth, locals) == match check_block_spec(
            body,
            params_scope(params),
            0,
            Set::empty(),
        ) {
            Ok(_) => Ok(scope),
            Err(m) => Err::<SScope, Seq<char>>(m),
        },
{
}

/// A loop that is accepted leaves exactly the names that were in scope
/// before it: names bound inside the body do not outlive it.
pub proof fn law_loop_keeps_the_names_in_scope(
    cond: SExpr,
    body: Seq<SStmt>,
    scope: SScope,
    depth: usize,
    locals: Set<Seq<char>>,
)
    requires
        check_stmt_spec(SStmt::While { cond, body }, scope, depth, locals) is Ok,
    ensures
        check_stmt_spec(SStmt::While { cond, body }, scope, depth, locals)->Ok_0.dom() == scope.dom(),
{
    let r = check_stmt_spec(SStmt::While { cond, body }, scope, depth, locals)->Ok_0;
    assert(r.dom() =~= scope.dom());
}

/// An owned binding can be read, as a whole and by any field.
pub proof fn law_owned_binding_is_usable(scope: SScope, n: Seq<char>, field: Seq<char>)
    requires
        scope.dom().contains(n),
        scope[n] == SVarState::Owned,
    ensures
        use_error(SExpr::Ident(n), scope) is None,
        use_error(SExpr::Field { base: Box::new(SExpr::Ident(n)), field }, scope) is None,
{
}

/// A `let` that is accepted leaves a fresh, owned binding of its name,
/// whatever state an earlier binding of that name was in.
pub proof fn law_let_binds_owned(
    name: Seq<char>,
    value: SExpr,
    scope: SScope,
    depth: usize,
    locals: Set<Seq<char>>,
)
    requires
        check_stmt_spec(SStmt::Let { name, value }, scope, depth, locals) is Ok,
    ensures
        check_stmt_spec(SStmt::Let { name, value }, scope, depth, locals)->Ok_0.dom().contains(name),
        check_stmt_spec(SStmt::Let { name, value }, scope, depth, locals)->Ok_0[name] == SVarState::Owned,
{
}

/// After an `if`, a binding that either path knows is owned exactly when it
/// is owned on both; where the paths disagree (different states, or a name
/// that only one path binds) it is moved.
pub proof fn law_merge_owned_only_if_owned_on_both(scope: SScope, t: SScope, e: SScope, n: Seq<char>)
    requires
        t.dom().contains(n) || e.dom().contains(n),
    ensures
        merge_scopes(scope, t, e).dom().contains(n),
        merge_scopes(scope, t, e)[n] == SVarState::Owned <==> t.dom().contains(n) && e.dom().contains(n)
            && t[n] == SVarState::Owned && e[n] == SVarState::Owned,
        t.dom().contains(n) != e.dom().contains(n) ==> merge_scopes(scope, t, e)[n] == SVarState::Moved,
        t.dom().contains(n) && e.dom().contains(n) && t[n] != e[n] ==> merge_scopes(scope, t, e)[n]
            == SVarState::Moved,
        t.dom().contains(n) && e.dom().contains(n) && t[n] == e[n] ==> merge_scopes(scope, t, e)[n] == t[n],
{
}

/// The merge after an `if` does not depend on which branch is which.
pub proof fn law_merge_is_symmetric(scope: SScope, t: SScope, e: SScope)
    ensures
        merge_scopes(scope, t, e) == merge_scopes(scope, e, t),
{
    assert(merge_scopes(scope, t, e) =~= merge_scopes(scope, e, t));
}

/// Inside a loop, only a binding of the loop body's own `let`s can be moved;
/// moving any other binding is refused.
pub proof fn law_loop_refuses_outer_moves(
    n: Seq<char>,
    field: Seq<char>,
    scope: SScope,
    depth: usize,
    locals: Set<Seq<char>>,
)
    requires
        depth > 0,
        !locals.contains(n),
    ensures
        move_result(SExpr::Ident(n), scope, depth, locals) == Err::<SScope, Seq<char>>(msg_loop_move(n)),
        move_result(SExpr::Field { base: Box::new(SExpr::Ident(n)), field }, scope, depth, locals)
            == Err::<SScope, Seq<char>>(msg_loop_field_move(field, n)),
{
}

/// Inside a loop, moves leave every binding that is not a loop local as it was.
proof fn lemma_move_keeps_outer(e: SExpr, scope: SScope, depth: usize, locals: Set<Seq<char>>, n: Seq<char>)
    requires
        depth > 0,
        !locals.contains(n),
        move_result(e, scope, depth, locals) is Ok,
    ensures
        move_result(e, scope, depth, locals)->Ok_0.dom().contains(n) == scope.dom().contains(n),
        scope.dom().contains(n) ==> move_result(e, scope, depth, locals)->Ok_0[n] == scope[n],
    decreases e,
{
    match e {
        SExpr::Field { base, field } => match *base {
            SExpr::Ident(_) => {},
            _ => lemma_move_keeps_outer(*base, scope, depth, locals, n),
        },
        SExpr::Call { callee, args } => lemma_moves_keep_outer(args, scope, depth, locals, n),
        SExpr::StructLit { name, fields } => lemma_field_moves_keep_outer(fields, scope, depth, locals, n),
        _ => {},
    }
}

proof fn lemma_moves_keep_outer(es: Seq<SExpr>, scope: SScope, depth: usize, locals: Set<Seq<char>>, n: Seq<char>)
    requires
        depth > 0,
        !locals.contains(n),
        moves_result(es, scope, depth, locals) is Ok,
    ensures
        moves_result(es, scope, depth, locals)->Ok_0.dom().contains(n) == scope.dom().contains(n),
        scope.dom().contains(n) ==> moves_result(es, scope, depth, locals)->Ok_0[n] == scope[n],
    decreases es,
{
    if es.len() > 0 {
        broadcast use vstd::seq::axiom_seq_index_decreases;
        broadcast use vstd::seq::axiom_seq_subrange_decreases;
        lemma_move_keeps_outer(es[0], scope, depth, locals, n);
        let s2 = move_result(es[0], scope, depth, locals)->Ok_0;
        lemma_moves_keep_outer(es.subrange(1, es.len() as int), s2, depth, locals, n);
    }
}

proof fn lemma_field_moves_keep_outer(
    fs: Seq<(Seq<char>, SExpr)>,
    scope: SScope,
    depth: usize,
    locals: Set<Seq<char>>,
    n: Seq<char>,
)
    requires
        depth > 0,
        !locals.contains(n),
        field_values_move_result(fs, scope, depth, locals) is Ok,
    ensures
        field_values_move_result(fs, scope, depth, locals)->Ok_0.dom().contains(n) == scope.dom().contains(n),
        scope.dom().contains(n) ==> field_values_move_result(fs, scope, depth, locals)->Ok_0[n] == scope[n],
    decreases fs,
{
    if fs.len() > 0 {
        broadcast use vstd::seq::axiom_seq_index_decreases;
        broadcast use vstd::seq::axiom_seq_subrange_decreases;
        lemma_move_keeps_outer(fs[0].1, scope, depth, locals, n);
        let s2 = move_result(fs[0].1, scope, depth, locals)->Ok_0;
        lemma_field_moves_keep_outer(fs.subrange(1, fs.len() as int), s2, depth, locals, n);
    }
}

proof fn lemma_stmt_keeps_outer_owned(s: SStmt, scope: SScope, depth: usize, locals: Set<Seq<char>>, n: Seq<char>)
    requires
        depth > 0,
        !locals.contains(n),
        !binds_in_stmt(s, n),
        scope.dom().contains(n),
        scope[n] == SVarState::Owned,
        check_stmt_spec(s, scope, depth, locals) is Ok,
    ensures
        check_stmt_spec(s, scope, depth, locals)->Ok_0.dom().contains(n),
        check_stmt_spec(s, scope, depth, locals)->Ok_0[n] == SVarState::Owned,
    decreases s,
{
    match s {
        SStmt::Let { name, value } => {
            lemma_move_keeps_outer(value, scope, depth, locals, n);
        },
        SStmt::Print(e) => {
            lemma_move_keeps_outer(e, scope, depth, locals, n);
        },
        SStmt::ExprStmt(e) => {
            lemma_move_keeps_outer(e, scope, depth, locals, n);
        },
        SStmt::If { cond, then_branch, else_branch } => {
            lemma_block_keeps_outer_owned(then_branch, scope, depth, locals, n);
            match else_branch {
                Some(eb) => {
                    lemma_block_keeps_outer_owned(eb, scope, depth, locals, n);
                },
                None => {},
            }
        },
        SStmt::While { cond, body } => {
            lemma_block_keeps_outer_owned(body, scope, deeper(depth), Set::empty(), n);
        },
        _ => {},
    }
}

proof fn lemma_block_keeps_outer_owned(
    ss: Seq<SStmt>,
    scope: SScope,
    depth: usize,
    locals: Set<Seq<char>>,
    n: Seq<char>,
)
    requires
        depth > 0,
        !locals.contains(n),
        !binds_in_block(ss, n),
        scope.dom().contains(n),
        scope[n] == SVarState::Owned,
        check_block_spec(ss, scope, depth, locals) is Ok,
    ensures
        check_block_spec(ss, scope, depth, locals)->Ok_0.dom().contains(n),
        check_block_spec(ss, scope, depth, locals)->Ok_0[n] == SVarState::Owned,
    decreases ss,
{
    if ss.len() > 0 {
        broadcast use vstd::seq::axiom_seq_index_decreases;
        broadcast use vstd::seq::axiom_seq_subrange_decreases;
        lemma_stmt_keeps_outer_owned(ss[0], scope, depth, locals, n);
        let s2 = check_stmt_spec(ss[0], scope, depth, locals)->Ok_0;
        lemma_block_keeps_outer_owned(ss.subrange(1, ss.len() as int), s2, depth, locals_after(ss[0], locals), n);
    }
}

/// A loop that is accepted never moves a binding made before it: every such
/// binding that was owned before the loop, and that the loop does not bind
/// again by a `let` of its own, is still owned after it.
pub proof fn law_loop_keeps_outer_bindings(
    cond: SExpr,
    body: Seq<SStmt>,
    scope: SScope,
    depth: usize,
    locals: Set<Seq<char>>,
    n: Seq<char>,
)
    requires
        check_stmt_spec(SStmt::While { cond, body }, scope, depth, locals) is Ok,
        scope.dom().contains(n),
        scope[n] == SVarState::Owned,
        !binds_in_block(body, n),
    ensures
        check_stmt_spec(SStmt::While { cond, body }, scope, depth, locals)->Ok_0.dom().contains(n),
        check_stmt_spec(SStmt::While { cond, body }, scope, depth, locals)->Ok_0[n] == SVarState::Owned,
{
    lemma_block_keeps_outer_owned(body, scope, deeper(depth), Set::empty(), n);
}

} // verus!

verus! {

/// The condition of an `if` is a read: an `if` whose condition reads a
/// binding that cannot be read is refused with that read's error, whatever
/// its branches hold.
pub proof fn law_if_condition_is_read(
    cond: SExpr,
    then_branch: Seq<SStmt>,
    else_branch: Option<Seq<SStmt>>,
    scope: SScope,
    depth: usize,
    locals: Set<Seq<char>>,
)
    ensures
        use_error(cond, scope) matches Some(m) ==> check_stmt_spec(
            SStmt::If { cond, then_branch, else_branch },
            scope,
            depth,
            locals,
        ) == Err::<SScope, Seq<char>>(m),
{
}

/// The condition of a `while` is a read: a loop whose condition reads a
/// binding that cannot be read is refused with that read's error, whatever
/// its body holds.
pub proof fn law_while_condition_is_read(
    cond: SExpr,
    body: Seq<SStmt>,
    scope: SScope,
    depth: usize,
    locals: Set<Seq<char>>,
)
    ensures
        use_error(cond, scope) matches Some(m) ==> check_stmt_spec(
            SStmt::While { cond, body },
            scope,
            depth,
            locals,
        ) == Err::<SScope, Seq<char>>(m),
{
}

/// Moving a value out through a path of fields (`p.q.x`) moves the first
/// field of the path out of the binding (`q` out of `p`): it is refused or
/// accepted just as moving `p.q` is, and once it is accepted `p` is partly
/// moved, with `q` among its moved fields. Moving a field of any other
/// expression moves that expression.
pub proof fn law_field_path_moves_its_first_field(
    n: Seq<char>,
    f: Seq<char>,
    g: Seq<char>,
    base: SExpr,
    scope: SScope,
    depth: usize,
    locals: Set<Seq<char>>,
)
    ensures
        move_result(
            SExpr::Field { base: Box::new(SExpr::Field { base: Box::new(SExpr::Ident(n)), field: f }), field: g },
            scope,
            depth,
            locals,
        ) == move_result(SExpr::Field { base: Box::new(SExpr::Ident(n)), field: f }, scope, depth, locals),
        move_result(SExpr::Field { base: Box::new(SExpr::Ident(n)), field: f }, scope, depth, locals) matches Ok(
            s,
        ) ==> s.dom().contains(n) && (s[n] matches SVarState::Partial(moved) && moved.contains(f)),
        !(base is Ident) ==> move_result(SExpr::Field { base: Box::new(base), field: g }, scope, depth, locals)
            == move_result(base, scope, depth, locals),
{
}

} // verus!
