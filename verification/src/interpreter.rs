//! A tree-walking interpreter: it evaluates the AST directly, no
//! bytecode, no compilation step. This only runs on programs that have
//! already passed the ownership checker — by the time we get here,
//! we've decided the program is safe, so the interpreter's only job is
//! correctness of evaluation, not safety.
//!
//! The interpreter does not write anything itself: each value that a
//! `print` statement prints is appended to a list that the caller owns.
//! A Warden program may run forever (a `while` whose condition never
//! changes, a function that calls itself), so a run is given fuel: each
//! call and each turn of a loop that runs the body takes one unit of it (a
//! test that ends a loop takes none), and a run that would need more than
//! is left stops with `Stop::OutOfFuel`.

use vstd::prelude::*;
use crate::ast::{
    binds_in_block, binds_in_stmt, copy_names, copy_stmts, exprs_view, inits_view, lemma_call_view, lemma_if_view,
    lemma_struct_lit_view, lemma_while_view, names_view, stmts_view, Expr, Program, SExpr, SStmt,
    Stmt,
};
use crate::names::{is_last_of, lemma_map_of_dom, lemma_map_of_last, lemma_map_of_push, lemma_map_of_update, map_of, NameMap};
use crate::number::{zero_text, Number};
use crate::text::{concat3, push_char};

verus! {

// ---------------------------------------------------------------------------
// Values
// ---------------------------------------------------------------------------

/// The model of a value.
pub enum SValue {
    Number(Seq<char>),
    Struct { name: Seq<char>, fields: Map<Seq<char>, SValue> },
}

#[derive(Debug)]
pub enum Value {
    Number(Number),
    /// The fields, each name once.
    Struct { name: String, fields: Vec<(String, Value)> },
}

pub open spec fn value_view(v: Value) -> SValue
    decreases v,
{
    match v {
        Value::Number(n) => SValue::Number(n@),
        Value::Struct { name, fields } => {
            proof {
                broadcast use vstd::std_specs::vec::axiom_vec_decreases_to_view;
            }
            SValue::Struct { name: name@, fields: fields_view(fields@) }
        },
    }
}

/// The fields of a struct value: each entry sets its field, in order.
pub open spec fn fields_view(fs: Seq<(String, Value)>) -> Map<Seq<char>, SValue>
    decreases fs,
{
    if fs.len() == 0 {
        Map::empty()
    } else {
        proof {
            broadcast use vstd::seq::axiom_seq_index_decreases;
            broadcast use vstd::seq::axiom_seq_subrange_decreases;
        }
        fields_view(fs.subrange(0, fs.len() - 1)).insert(fs[fs.len() - 1].0@, value_view(fs[fs.len() - 1].1))
    }
}

impl View for Value {
    type V = SValue;

    open spec fn view(&self) -> SValue {
        value_view(*self)
    }
}

/// The views of a list of values.
pub open spec fn values_view(v: Seq<Value>) -> Seq<SValue> {
    Seq::new(v.len(), |i: int| value_view(v[i]))
}

pub proof fn lemma_fields_view(fs: Seq<(String, Value)>)
    ensures
        fields_view(fs) == map_of(fs).map_values(|v: Value| value_view(v)),
    decreases fs.len(),
{
    if fs.len() > 0 {
        lemma_fields_view(fs.subrange(0, fs.len() - 1));
        assert(fs.drop_last() =~= fs.subrange(0, fs.len() - 1));
        assert(fields_view(fs) =~= map_of(fs).map_values(|v: Value| value_view(v)));
    }
}

/// A copy of the value.
#[verifier::loop_isolation(false)]
pub(crate) fn copy_value(v: &Value) -> (r: Value)
    ensures
        r@ == v@,
    decreases v,
{
    match v {
        Value::Number(n) => Value::Number(n.copy()),
        Value::Struct { name, fields } => {
            let mut r: Vec<(String, Value)> = Vec::new();
            let mut i: usize = 0;
            while i < fields.len()
                invariant
                    i <= fields@.len(),
                    fields_view(r@) == fields_view(fields@.subrange(0, i as int)),
                    r@.len() == i,
                decreases fields@.len() - i,
            {
                proof {
                    broadcast use vstd::std_specs::vec::axiom_vec_index_decreases;
                }
                let c = copy_value(&fields[i].1);
                let k = fields[i].0.clone();
                let ghost before = r@;
                r.push((k, c));
                i = i + 1;
                proof {
                    assert(r@.subrange(0, r@.len() - 1) =~= before);
                    assert(fields@.subrange(0, i as int).subrange(0, i - 1) =~= fields@.subrange(0, i - 1));
                }
            }
            proof {
                assert(fields@.subrange(0, fields@.len() as int) =~= fields@);
            }
            Value::Struct { name: name.clone(), fields: r }
        },
    }
}

/// Sets the field `k` to `v`.
#[verifier::loop_isolation(false)]
fn set_field(fields: &mut Vec<(String, Value)>, k: String, v: Value)
    ensures
        fields_view(final(fields)@) == fields_view(old(fields)@).insert(k@, v@),
{
    let ghost old_fs = fields@;
    let ghost kv = k@;
    let ghost vv = v@;
    proof {
        lemma_fields_view(old_fs);
    }
    let mut i = fields.len();
    while i > 0
        invariant
            i <= fields@.len(),
            fields@ == old_fs,
            forall|j: int| i <= j < fields@.len() ==> fields@[j].0@ != k@,
        decreases i,
    {
        i = i - 1;
        if fields[i].0 == k {
            proof {
                assert(is_last_of(fields@, i as int, k@));
                lemma_map_of_update(fields@, i as int, (k, v));
            }
            fields.set(i, (k, v));
            proof {
                lemma_fields_view(fields@);
                assert(map_of(fields@) == map_of(old_fs).insert(kv, v));
                assert(fields_view(fields@) =~= fields_view(old_fs).insert(kv, vv));
            }
            return;
        }
    }
    proof {
        lemma_map_of_push(fields@, (k, v));
    }
    fields.push((k, v));
    proof {
        lemma_fields_view(fields@);
        assert(map_of(fields@) == map_of(old_fs).insert(kv, v));
        assert(fields_view(fields@) =~= fields_view(old_fs).insert(kv, vv));
    }
}

/// The value of the field `k`, if the fields hold it.
#[verifier::loop_isolation(false)]
fn get_field<'a>(fields: &'a Vec<(String, Value)>, k: &String) -> (r: Option<&'a Value>)
    ensures
        match r {
            Some(v) => fields_view(fields@).dom().contains(k@) && v@ == fields_view(fields@)[k@],
            None => !fields_view(fields@).dom().contains(k@),
        },
{
    proof {
        lemma_fields_view(fields@);
        lemma_map_of_dom(fields@, k@);
    }
    let mut i = fields.len();
    while i > 0
        invariant
            i <= fields@.len(),
            forall|j: int| i <= j < fields@.len() ==> fields@[j].0@ != k@,
        decreases i,
    {
        i = i - 1;
        if fields[i].0 == *k {
            proof {
                assert(is_last_of(fields@, i as int, k@));
                lemma_map_of_last(fields@, i as int, k@);
            }
            return Some(&fields[i].1);
        }
    }
    None
}

} // verus!

verus! {

// ---------------------------------------------------------------------------
// The semantics
// ---------------------------------------------------------------------------

/// Every variable in view, by name.
pub type SEnv = Map<Seq<char>, SValue>;

/// The functions known: each name with its parameters and body.
pub type SFuncs = Map<Seq<char>, (Seq<Seq<char>>, Seq<SStmt>)>;

/// What running a piece of a program comes to, with the values it printed.
pub enum Exec<T> {
    Done(T, Seq<SValue>),
    Failed(Seq<char>, Seq<SValue>),
    OutOfFuel(Seq<SValue>),
}

/// `r`, after the values `out` were printed.
pub open spec fn then_out<T>(out: Seq<SValue>, r: Exec<T>) -> Exec<T> {
    match r {
        Exec::Done(x, o) => Exec::Done(x, out + o),
        Exec::Failed(m, o) => Exec::Failed(m, out + o),
        Exec::OutOfFuel(o) => Exec::OutOfFuel(out + o),
    }
}

/// The same stop, for a piece with another kind of result.
pub open spec fn stopped<A, B>(r: Exec<A>) -> Exec<B> {
    match r {
        Exec::Failed(m, o) => Exec::Failed(m, o),
        Exec::OutOfFuel(o) => Exec::OutOfFuel(o),
        Exec::Done(_, o) => Exec::OutOfFuel(o),
    }
}

/// Whether a condition with this value holds: a number other than zero, or
/// any struct.
pub open spec fn truthy(v: SValue) -> bool {
    match v {
        SValue::Number(n) => n != zero_text(),
        SValue::Struct { .. } => true,
    }
}

pub open spec fn digit_char(d: nat) -> char {
    if d == 0 { '0' }
    else if d == 1 { '1' }
    else if d == 2 { '2' }
    else if d == 3 { '3' }
    else if d == 4 { '4' }
    else if d == 5 { '5' }
    else if d == 6 { '6' }
    else if d == 7 { '7' }
    else if d == 8 { '8' }
    else { '9' }
}

/// The decimal digits of `n`.
pub open spec fn decimal(n: nat) -> Seq<char>
    decreases n,
{
    if n < 10 {
        seq![digit_char(n)]
    } else {
        decimal(n / 10).push(digit_char(n % 10))
    }
}

pub open spec fn msg_undefined_variable(n: Seq<char>) -> Seq<char> {
    "runtime error: undefined variable `"@ + n + "`"@
}

pub open spec fn msg_no_field(f: Seq<char>) -> Seq<char> {
    "runtime error: no field `"@ + f + "`"@
}

pub open spec fn msg_field_of_number(f: Seq<char>) -> Seq<char> {
    "runtime error: cannot access field `"@ + f + "` on a number"@
}

pub open spec fn msg_undefined_function(c: Seq<char>) -> Seq<char> {
    "runtime error: undefined function `"@ + c + "`"@
}

pub open spec fn msg_arity(c: Seq<char>, expected: nat, got: nat) -> Seq<char> {
    "runtime error: `"@ + c + "` expects "@ + decimal(expected) + " arg(s), got "@ + decimal(got)
}

/// Evaluating `e`.
pub open spec fn eval_spec(e: SExpr, env: SEnv, fs: SFuncs, fuel: nat) -> Exec<SValue>
    decreases fuel, 0nat, e,
{
    match e {
        SExpr::Number(n) => Exec::Done(SValue::Number(n), Seq::empty()),
        SExpr::Ident(n) => if env.dom().contains(n) {
            Exec::Done(env[n], Seq::empty())
        } else {
            Exec::Failed(msg_undefined_variable(n), Seq::empty())
        },
        SExpr::Field { base, field } => match eval_spec(*base, env, fs, fuel) {
            Exec::Done(v, out) => match v {
                SValue::Struct { name, fields } => if fields.dom().contains(field) {
                    Exec::Done(fields[field], out)
                } else {
                    Exec::Failed(msg_no_field(field), out)
                },
                SValue::Number(_) => Exec::Failed(msg_field_of_number(field), out),
            },
            r => stopped(r),
        },
        SExpr::StructLit { name, fields } => match eval_inits_spec(fields, env, fs, fuel, Map::empty()) {
            Exec::Done(m, out) => Exec::Done(SValue::Struct { name, fields: m }, out),
            r => stopped(r),
        },
        SExpr::Call { callee, args } => if !fs.dom().contains(callee) {
            Exec::Failed(msg_undefined_function(callee), Seq::empty())
        } else if fs[callee].0.len() != args.len() {
            Exec::Failed(msg_arity(callee, fs[callee].0.len(), args.len()), Seq::empty())
        } else {
            match bind_args_spec(fs[callee].0, args, env, fs, fuel, Map::empty()) {
                Exec::Done(call_env, out) => if fuel == 0 {
                    Exec::OutOfFuel(out)
                } else {
                    match exec_block_spec(fs[callee].1, call_env, fs, (fuel - 1) as nat) {
                        Exec::Done(_, o) => Exec::Done(SValue::Number(zero_text()), out + o),
                        r => then_out(out, stopped(r)),
                    }
                },
                r => stopped(r),
            }
        },
    }
}

/// Evaluating the field initialisers in turn into the fields `acc`.
pub open spec fn eval_inits_spec(
    inits: Seq<(Seq<char>, SExpr)>,
    env: SEnv,
    fs: SFuncs,
    fuel: nat,
    acc: Map<Seq<char>, SValue>,
) -> Exec<Map<Seq<char>, SValue>>
    decreases fuel, 0nat, inits,
{
    if inits.len() == 0 {
        Exec::Done(acc, Seq::empty())
    } else {
        proof {
            broadcast use vstd::seq::axiom_seq_index_decreases;
            broadcast use vstd::seq::axiom_seq_subrange_decreases;
        }
        match eval_spec(inits[0].1, env, fs, fuel) {
            Exec::Done(v, out) => then_out(
                out,
                eval_inits_spec(inits.subrange(1, inits.len() as int), env, fs, fuel, acc.insert(inits[0].0, v)),
            ),
            r => stopped(r),
        }
    }
}

/// Evaluating the arguments in turn, each bound to its parameter in `acc`.
pub open spec fn bind_args_spec(
    params: Seq<Seq<char>>,
    args: Seq<SExpr>,
    env: SEnv,
    fs: SFuncs,
    fuel: nat,
    acc: SEnv,
) -> Exec<SEnv>
    decreases fuel, 0nat, args,
{
    if args.len() == 0 {
        Exec::Done(acc, Seq::empty())
    } else {
        proof {
            broadcast use vstd::seq::axiom_seq_index_decreases;
            broadcast use vstd::seq::axiom_seq_subrange_decreases;
        }
        match eval_spec(args[0], env, fs, fuel) {
            Exec::Done(v, out) => then_out(
                out,
                bind_args_spec(
                    params.subrange(1, params.len() as int),
                    args.subrange(1, args.len() as int),
                    env,
                    fs,
                    fuel,
                    acc.insert(params[0], v),
                ),
            ),
            r => stopped(r),
        }
    }
}

/// Executing a statement.
pub open spec fn exec_stmt_spec(s: SStmt, env: SEnv, fs: SFuncs, fuel: nat) -> Exec<SEnv>
    decreases fuel, 1nat, s,
{
    match s {
        SStmt::StructDef { .. } => Exec::Done(env, Seq::empty()),
        SStmt::FnDef { .. } => Exec::Done(env, Seq::empty()),
        SStmt::Let { name, value } => match eval_spec(value, env, fs, fuel) {
            Exec::Done(v, out) => Exec::Done(env.insert(name, v), out),
            r => stopped(r),
        },
        SStmt::Print(e) => match eval_spec(e, env, fs, fuel) {
            Exec::Done(v, out) => Exec::Done(env, out.push(v)),
            r => stopped(r),
        },
        SStmt::ExprStmt(e) => match eval_spec(e, env, fs, fuel) {
            Exec::Done(v, out) => Exec::Done(env, out),
            r => stopped(r),
        },
        SStmt::If { cond, then_branch, else_branch } => match eval_spec(cond, env, fs, fuel) {
            Exec::Done(v, out) => then_out(
                out,
                if truthy(v) {
                    exec_block_spec(then_branch, env, fs, fuel)
                } else {
                    match else_branch {
                        Some(eb) => exec_block_spec(eb, env, fs, fuel),
                        None => Exec::Done(env, Seq::empty()),
                    }
                },
            ),
            r => stopped(r),
        },
        SStmt::While { cond, body } => exec_while_spec(cond, body, env, fs, fuel),
    }
}

/// Executing a `while` loop: each turn that runs the body takes one unit of
/// fuel; a test that ends the loop takes none.
pub open spec fn exec_while_spec(cond: SExpr, body: Seq<SStmt>, env: SEnv, fs: SFuncs, fuel: nat) -> Exec<SEnv>
    decreases fuel, 1nat, body,
{
    match eval_spec(cond, env, fs, fuel) {
        Exec::Done(v, out) => if !truthy(v) {
            Exec::Done(env, out)
        } else if fuel == 0 {
            Exec::OutOfFuel(out)
        } else {
            then_out(
                out,
                match exec_block_spec(body, env, fs, (fuel - 1) as nat) {
                    Exec::Done(env2, out2) => then_out(
                        out2,
                        exec_while_spec(cond, body, env2, fs, (fuel - 1) as nat),
                    ),
                    r => r,
                },
            )
        },
        r => stopped(r),
    }
}

/// Executing the statements in turn.
pub open spec fn exec_block_spec(ss: Seq<SStmt>, env: SEnv, fs: SFuncs, fuel: nat) -> Exec<SEnv>
    decreases fuel, 1nat, ss,
{
    if ss.len() == 0 {
        Exec::Done(env, Seq::empty())
    } else {
        proof {
            broadcast use vstd::seq::axiom_seq_index_decreases;
            broadcast use vstd::seq::axiom_seq_subrange_decreases;
        }
        match exec_stmt_spec(ss[0], env, fs, fuel) {
            Exec::Done(env2, out) => then_out(out, exec_block_spec(ss.subrange(1, ss.len() as int), env2, fs, fuel)),
            r => r,
        }
    }
}

/// The functions known after those that `ss` defines are recorded, each
/// replacing an earlier one of the same name.
pub open spec fn funcs_after(fs: SFuncs, ss: Seq<SStmt>) -> SFuncs
    decreases ss.len(),
{
    if ss.len() == 0 {
        fs
    } else {
        let next = match ss[0] {
            SStmt::FnDef { name, params, body } => fs.insert(name, (params, body)),
            _ => fs,
        };
        funcs_after(next, ss.subrange(1, ss.len() as int))
    }
}

/// Running a whole program with the functions `fs` known.
pub open spec fn run_spec(program: Seq<SStmt>, fs: SFuncs, fuel: nat) -> Exec<()> {
    match exec_block_spec(program, Map::empty(), funcs_after(fs, program), fuel) {
        Exec::Done(_, out) => Exec::Done((), out),
        r => stopped(r),
    }
}

/// The values that a piece of a run printed.
pub open spec fn printed<T>(r: Exec<T>) -> Seq<SValue> {
    match r {
        Exec::Done(_, o) => o,
        Exec::Failed(_, o) => o,
        Exec::OutOfFuel(o) => o,
    }
}

pub proof fn lemma_then_then<T>(o: Seq<SValue>, x: Seq<SValue>, r: Exec<T>)
    ensures
        then_out(o, then_out(x, r)) == then_out(o + x, r),
{
    match r {
        Exec::Done(v, y) => { assert(o + (x + y) =~= (o + x) + y); },
        Exec::Failed(m, y) => { assert(o + (x + y) =~= (o + x) + y); },
        Exec::OutOfFuel(y) => { assert(o + (x + y) =~= (o + x) + y); },
    }
}

pub proof fn lemma_then_empty<T>(r: Exec<T>)
    ensures
        then_out(Seq::empty(), r) == r,
{
    match r {
        Exec::Done(v, y) => { assert(Seq::<SValue>::empty() + y =~= y); },
        Exec::Failed(m, y) => { assert(Seq::<SValue>::empty() + y =~= y); },
        Exec::OutOfFuel(y) => { assert(Seq::<SValue>::empty() + y =~= y); },
    }
}

} // verus!

verus! {

// ---------------------------------------------------------------------------
// The interpreter
// ---------------------------------------------------------------------------

/// Why a run stopped before the end of the program.
#[derive(Debug)]
pub enum Stop {
    /// A runtime error.
    Error(String),
    /// The run would go deeper than its fuel allows.
    OutOfFuel,
}

/// The stop `e` is the one that `spec` comes to.
pub open spec fn stop_as<V>(e: Stop, spec: Exec<V>) -> bool {
    match spec {
        Exec::Done(..) => false,
        Exec::Failed(m, _) => e matches Stop::Error(x) && x@ == m,
        Exec::OutOfFuel(_) => e is OutOfFuel,
    }
}

/// An exec result, and the values printed meanwhile (`after` holds
/// `before` and then what was printed), stand for the model's `spec`.
pub open spec fn exec_as<T, V>(
    r: Result<T, Stop>,
    before: Seq<Value>,
    after: Seq<Value>,
    spec: Exec<V>,
    view: spec_fn(T) -> V,
) -> bool {
    &&& values_view(after) == values_view(before) + printed(spec)
    &&& match r {
        Ok(v) => spec matches Exec::Done(x, _) && view(v) == x,
        Err(e) => stop_as(e, spec),
    }
}

/// The same, for a statement, whose result is the variables after it.
pub open spec fn exec_env_as(
    r: Result<(), Stop>,
    env_after: SEnv,
    before: Seq<Value>,
    after: Seq<Value>,
    spec: Exec<SEnv>,
) -> bool {
    &&& values_view(after) == values_view(before) + printed(spec)
    &&& match r {
        Ok(_) => spec matches Exec::Done(x, _) && env_after == x,
        Err(e) => stop_as(e, spec),
    }
}

proof fn lemma_out_step(before: Seq<Value>, mid: Seq<Value>, after: Seq<Value>, o: Seq<SValue>, x: Seq<SValue>)
    requires
        values_view(mid) == values_view(before) + o,
        values_view(after) == values_view(mid) + x,
    ensures
        values_view(after) == values_view(before) + (o + x),
{
    assert(values_view(before) + (o + x) =~= (values_view(before) + o) + x);
}

struct FnDef {
    params: Vec<String>,
    body: Vec<Stmt>,
}

impl View for FnDef {
    type V = (Seq<Seq<char>>, Seq<SStmt>);

    closed spec fn view(&self) -> (Seq<Seq<char>>, Seq<SStmt>) {
        (names_view(self.params@), stmts_view(self.body@))
    }
}

type Env = NameMap<Value>;

spec fn env_view(e: &Env) -> SEnv {
    e.map().map_values(|v: Value| v@)
}

proof fn lemma_env_insert(e: &Env, old_e: &Env, k: String, v: Value)
    requires
        e.map() == old_e.map().insert(k@, v),
    ensures
        env_view(e) == env_view(old_e).insert(k@, v@),
{
    assert(env_view(e) =~= env_view(old_e).insert(k@, v@));
}

fn digit(d: usize) -> (c: char)
    requires
        d < 10,
    ensures
        c == digit_char(d as nat),
{
    if d == 0 { '0' }
    else if d == 1 { '1' }
    else if d == 2 { '2' }
    else if d == 3 { '3' }
    else if d == 4 { '4' }
    else if d == 5 { '5' }
    else if d == 6 { '6' }
    else if d == 7 { '7' }
    else if d == 8 { '8' }
    else { '9' }
}

/// The decimal digits of `n`.
fn decimal_text(n: usize) -> (r: String)
    ensures
        r@ == decimal(n as nat),
    decreases n,
{
    if n < 10 {
        let mut s = String::new();
        push_char(&mut s, digit(n));
        assert(s@ =~= decimal(n as nat));
        s
    } else {
        let mut s = decimal_text(n / 10);
        push_char(&mut s, digit(n % 10));
        s
    }
}

pub struct Interpreter {
    functions: NameMap<FnDef>,
}

impl Interpreter {
    /// The functions known: each name with its parameters and body.
    pub closed spec fn functions(&self) -> SFuncs {
        self.functions.map().map_values(|f: FnDef| f@)
    }

    pub fn new() -> (i: Self)
        ensures
            i.functions() == SFuncs::empty(),
    {
        let i = Interpreter { functions: NameMap::new() };
        assert(i.functions() =~= SFuncs::empty());
        i
    }

    fn truthy(&self, v: Value) -> (r: bool)
        ensures
            r == truthy(v@),
    {
        match v {
            Value::Number(n) => !n.is_zero(),
            Value::Struct { .. } => true,
        }
    }

    fn eval(&self, expr: &Expr, env: &Env, fuel: u64, out: &mut Vec<Value>) -> (r: Result<Value, Stop>)
        ensures
            exec_as(
                r,
                old(out)@,
                final(out)@,
                eval_spec(expr@, env_view(env), self.functions(), fuel as nat),
                |v: Value| v@,
            ),
        decreases fuel, 0nat, expr,
    {
        let ghost out0 = out@;
        match expr {
            Expr::Number(n) => {
                assert(values_view(out@) =~= values_view(out0) + Seq::<SValue>::empty());
                Ok(Value::Number(n.copy()))
            },
            Expr::Ident(name) => {
                assert(values_view(out@) =~= values_view(out0) + Seq::<SValue>::empty());
                match env.get(name) {
                    Some(v) => Ok(copy_value(v)),
                    None => Err(Stop::Error(concat3("runtime error: undefined variable `", name.as_str(), "`"))),
                }
            },
            Expr::Field { base, field } => {
                let base_val = match self.eval(base, env, fuel, out) {
                    Ok(v) => v,
                    Err(e) => {
                        return Err(e);
                    },
                };
                match base_val {
                    Value::Struct { fields, .. } => match get_field(&fields, field) {
                        Some(v) => Ok(copy_value(v)),
                        None => Err(Stop::Error(concat3("runtime error: no field `", field.as_str(), "`"))),
                    },
                    Value::Number(_) => Err(
                        Stop::Error(
                            concat3("runtime error: cannot access field `", field.as_str(), "` on a number"),
                        ),
                    ),
                }
            },
            Expr::StructLit { name, fields } => {
                proof {
                    lemma_struct_lit_view(*name, *fields);
                }
                let values = match self.eval_inits(fields, env, fuel, out) {
                    Ok(v) => v,
                    Err(e) => {
                        return Err(e);
                    },
                };
                Ok(Value::Struct { name: name.clone(), fields: values })
            },
            Expr::Call { callee, args } => {
                proof {
                    lemma_call_view(*callee, *args);
                }
                self.eval_call(callee, args, env, fuel, out)
            },
        }
    }

    /// Evaluates the field initialisers of a struct literal in turn.
    #[verifier::loop_isolation(false)]
    fn eval_inits(&self, inits: &Vec<(String, Expr)>, env: &Env, fuel: u64, out: &mut Vec<Value>) -> (r: Result<
        Vec<(String, Value)>,
        Stop,
    >)
        ensures
            exec_as(
                r,
                old(out)@,
                final(out)@,
                eval_inits_spec(inits_view(inits@), env_view(env), self.functions(), fuel as nat, Map::empty()),
                |vs: Vec<(String, Value)>| fields_view(vs@),
            ),
        decreases fuel, 0nat, inits,
    {
        let ghost fs = self.functions();
        let ghost ev = env_view(env);
        let ghost iv = inits_view(inits@);
        let ghost whole = eval_inits_spec(iv, ev, fs, fuel as nat, Map::empty());
        let ghost out0 = out@;
        let mut values: Vec<(String, Value)> = Vec::new();
        let ghost mut o: Seq<SValue> = Seq::empty();
        proof {
            assert(iv.subrange(0, iv.len() as int) =~= iv);
            assert(fields_view(values@) =~= Map::<Seq<char>, SValue>::empty());
            assert(values_view(out@) =~= values_view(out0) + o);
            lemma_then_empty(whole);
        }
        let mut i: usize = 0;
        while i < inits.len()
            invariant
                i <= inits@.len(),
                values_view(out@) == values_view(out0) + o,
                whole == then_out(
                    o,
                    eval_inits_spec(iv.subrange(i as int, iv.len() as int), ev, fs, fuel as nat, fields_view(values@)),
                ),
            decreases inits@.len() - i,
        {
            proof {
                broadcast use vstd::std_specs::vec::axiom_vec_index_decreases;
                assert(iv.subrange(i as int, iv.len() as int)[0] == iv[i as int]);
                assert(iv.subrange(i as int, iv.len() as int).subrange(1, iv.len() - i) =~= iv.subrange(
                    i + 1,
                    iv.len() as int,
                ));
            }
            let ghost out_before = out@;
            let ghost step = eval_spec(iv[i as int].1, ev, fs, fuel as nat);
            match self.eval(&inits[i].1, env, fuel, out) {
                Ok(v) => {
                    let k = inits[i].0.clone();
                    set_field(&mut values, k, v);
                    proof {
                        let x = printed(step);
                        lemma_then_then(
                            o,
                            x,
                            eval_inits_spec(iv.subrange(i + 1, iv.len() as int), ev, fs, fuel as nat, fields_view(values@)),
                        );
                        lemma_out_step(out0, out_before, out@, o, x);
                        o = o + x;
                    }
                },
                Err(e) => {
                    proof {
                        lemma_out_step(out0, out_before, out@, o, printed(step));
                    }
                    return Err(e);
                },
            }
            i = i + 1;
        }
        proof {
            assert(iv.subrange(i as int, iv.len() as int).len() == 0);
            assert(o + Seq::<SValue>::empty() =~= o);
        }
        Ok(values)
    }

    /// Calls the function `callee` on the arguments `args`.
    #[verifier::loop_isolation(false)]
    fn eval_call(&self, callee: &String, args: &Vec<Expr>, env: &Env, fuel: u64, out: &mut Vec<Value>) -> (r: Result<
        Value,
        Stop,
    >)
        ensures
            exec_as(
                r,
                old(out)@,
                final(out)@,
                eval_spec(
                    SExpr::Call { callee: callee@, args: exprs_view(args@) },
                    env_view(env),
                    self.functions(),
                    fuel as nat,
                ),
                |v: Value| v@,
            ),
        decreases fuel, 0nat, args,
    {
        let ghost fs = self.functions();
        let ghost ev = env_view(env);
        let ghost out0 = out@;
        let func = match self.functions.get(callee) {
            Some(f) => f,
            None => {
                assert(values_view(out@) =~= values_view(out0) + Seq::<SValue>::empty());
                return Err(Stop::Error(concat3("runtime error: undefined function `", callee.as_str(), "`")));
            },
        };
        assert(fs[callee@] == func@);
        if func.params.len() != args.len() {
            let e = decimal_text(func.params.len());
            let g = decimal_text(args.len());
            let mut m = concat3("runtime error: `", callee.as_str(), "` expects ");
            m.append(e.as_str());
            m.append(" arg(s), got ");
            m.append(g.as_str());
            proof {
                assert(m@ =~= msg_arity(callee@, func.params@.len(), args@.len()));
                assert(values_view(out@) =~= values_view(out0) + Seq::<SValue>::empty());
            }
            return Err(Stop::Error(m));
        }
        let ghost pv = names_view(func.params@);
        let ghost av = exprs_view(args@);
        let ghost whole = bind_args_spec(pv, av, ev, fs, fuel as nat, Map::empty());
        let mut call_env: Env = NameMap::new();
        let ghost mut o: Seq<SValue> = Seq::empty();
        proof {
            assert(av.subrange(0, av.len() as int) =~= av);
            assert(pv.subrange(0, pv.len() as int) =~= pv);
            assert(env_view(&call_env) =~= SEnv::empty());
            assert(values_view(out@) =~= values_view(out0) + o);
            lemma_then_empty(whole);
        }
        let mut i: usize = 0;
        while i < args.len()
            invariant
                i <= args@.len(),
                args@.len() == func.params@.len(),
                values_view(out@) == values_view(out0) + o,
                whole == then_out(
                    o,
                    bind_args_spec(
                        pv.subrange(i as int, pv.len() as int),
                        av.subrange(i as int, av.len() as int),
                        ev,
                        fs,
                        fuel as nat,
                        env_view(&call_env),
                    ),
                ),
            decreases args@.len() - i,
        {
            proof {
                broadcast use vstd::std_specs::vec::axiom_vec_index_decreases;
                assert(av.subrange(i as int, av.len() as int)[0] == av[i as int]);
                assert(pv.subrange(i as int, pv.len() as int)[0] == pv[i as int]);
                assert(av.subrange(i as int, av.len() as int).subrange(1, av.len() - i) =~= av.subrange(
                    i + 1,
                    av.len() as int,
                ));
                assert(pv.subrange(i as int, pv.len() as int).subrange(1, pv.len() - i) =~= pv.subrange(
                    i + 1,
                    pv.len() as int,
                ));
            }
            let ghost out_before = out@;
            let ghost step = eval_spec(av[i as int], ev, fs, fuel as nat);
            match self.eval(&args[i], env, fuel, out) {
                Ok(v) => {
                    let ghost before_env = call_env;
                    let p = func.params[i].clone();
                    call_env.insert(p, v);
                    proof {
                        lemma_env_insert(&call_env, &before_env, p, v);
                        let x = printed(step);
                        lemma_then_then(
                            o,
                            x,
                            bind_args_spec(
                                pv.subrange(i + 1, pv.len() as int),
                                av.subrange(i + 1, av.len() as int),
                                ev,
                                fs,
                                fuel as nat,
                                env_view(&call_env),
                            ),
                        );
                        lemma_out_step(out0, out_before, out@, o, x);
                        o = o + x;
                    }
                },
                Err(e) => {
                    proof {
                        lemma_out_step(out0, out_before, out@, o, printed(step));
                    }
                    return Err(e);
                },
            }
            i = i + 1;
        }
        proof {
            assert(av.subrange(i as int, av.len() as int).len() == 0);
            assert(o + Seq::<SValue>::empty() =~= o);
        }
        if fuel == 0 {
            return Err(Stop::OutOfFuel);
        }
        let ghost out_mid = out@;
        let ghost blk = exec_block_spec(fs[callee@].1, env_view(&call_env), fs, (fuel - 1) as nat);
        let r = self.exec_block(&func.body, &mut call_env, fuel - 1, out);
        proof {
            lemma_out_step(out0, out_mid, out@, o, printed(blk));
        }
        match r {
            Ok(()) => Ok(Value::Number(Number::zero())),
            Err(e) => Err(e),
        }
    }

    #[verifier::loop_isolation(false)]
    fn exec_block(&self, stmts: &Vec<Stmt>, env: &mut Env, fuel: u64, out: &mut Vec<Value>) -> (r: Result<(), Stop>)
        ensures
            exec_env_as(
                r,
                env_view(final(env)),
                old(out)@,
                final(out)@,
                exec_block_spec(stmts_view(stmts@), env_view(old(env)), self.functions(), fuel as nat),
            ),
        decreases fuel, 1nat, stmts,
    {
        let ghost fs = self.functions();
        let ghost sv = stmts_view(stmts@);
        let ghost whole = exec_block_spec(sv, env_view(env), fs, fuel as nat);
        let ghost out0 = out@;
        let ghost mut o: Seq<SValue> = Seq::empty();
        proof {
            assert(sv.subrange(0, sv.len() as int) =~= sv);
            assert(values_view(out@) =~= values_view(out0) + o);
            lemma_then_empty(whole);
        }
        let mut i: usize = 0;
        while i < stmts.len()
            invariant
                i <= stmts@.len(),
                values_view(out@) == values_view(out0) + o,
                whole == then_out(
                    o,
                    exec_block_spec(sv.subrange(i as int, sv.len() as int), env_view(env), fs, fuel as nat),
                ),
            decreases stmts@.len() - i,
        {
            proof {
                broadcast use vstd::std_specs::vec::axiom_vec_index_decreases;
                assert(sv.subrange(i as int, sv.len() as int)[0] == sv[i as int]);
                assert(sv.subrange(i as int, sv.len() as int).subrange(1, sv.len() - i) =~= sv.subrange(
                    i + 1,
                    sv.len() as int,
                ));
            }
            let ghost out_before = out@;
            let ghost step = exec_stmt_spec(sv[i as int], env_view(env), fs, fuel as nat);
            let r = self.exec_stmt(&stmts[i], env, fuel, out);
            proof {
                lemma_out_step(out0, out_before, out@, o, printed(step));
            }
            match r {
                Ok(()) => {
                    proof {
                        let x = printed(step);
                        lemma_then_then(
                            o,
                            x,
                            exec_block_spec(sv.subrange(i + 1, sv.len() as int), env_view(env), fs, fuel as nat),
                        );
                        o = o + x;
                    }
                },
                Err(e) => {
                    return Err(e);
                },
            }
            i = i + 1;
        }
        proof {
            assert(sv.subrange(i as int, sv.len() as int).len() == 0);
            assert(o + Seq::<SValue>::empty() =~= o);
        }
        Ok(())
    }

    fn exec_stmt(&self, stmt: &Stmt, env: &mut Env, fuel: u64, out: &mut Vec<Value>) -> (r: Result<(), Stop>)
        ensures
            exec_env_as(
                r,
                env_view(final(env)),
                old(out)@,
                final(out)@,
                exec_stmt_spec(stmt@, env_view(old(env)), self.functions(), fuel as nat),
            ),
        decreases fuel, 1nat, stmt,
    {
        let ghost out0 = out@;
        match stmt {
            Stmt::StructDef { .. } | Stmt::FnDef { .. } => {
                assert(values_view(out@) =~= values_view(out0) + Seq::<SValue>::empty());
                Ok(())
            },
            Stmt::Let { name, value } => {
                let v = match self.eval(value, env, fuel, out) {
                    Ok(v) => v,
                    Err(e) => {
                        return Err(e);
                    },
                };
                let ghost before = *env;
                let n = name.clone();
                env.insert(n, v);
                proof {
                    lemma_env_insert(env, &before, n, v);
                }
                Ok(())
            },
            Stmt::Print(e) => {
                let v = match self.eval(e, env, fuel, out) {
                    Ok(v) => v,
                    Err(e) => {
                        return Err(e);
                    },
                };
                let ghost mid = out@;
                out.push(v);
                proof {
                    assert(values_view(out@) =~= values_view(mid).push(v@));
                    let o = values_view(mid).subrange(values_view(out0).len() as int, values_view(mid).len() as int);
                    assert(values_view(mid) =~= values_view(out0) + o);
                    assert(values_view(out@) =~= values_view(out0) + o.push(v@));
                }
                Ok(())
            },
            Stmt::ExprStmt(e) => {
                match self.eval(e, env, fuel, out) {
                    Ok(_) => Ok(()),
                    Err(e) => Err(e),
                }
            },
            Stmt::If { cond, then_branch, else_branch } => {
                proof {
                    lemma_if_view(*cond, *then_branch, *else_branch);
                }
                let ghost step = eval_spec(cond@, env_view(env), self.functions(), fuel as nat);
                let c = match self.eval(cond, env, fuel, out) {
                    Ok(c) => c,
                    Err(e) => {
                        return Err(e);
                    },
                };
                let ghost mid = out@;
                let ghost o = printed(step);
                let ghost branch = if truthy(c@) {
                    exec_block_spec(stmts_view(then_branch@), env_view(env), self.functions(), fuel as nat)
                } else {
                    match else_branch {
                        Some(eb) => exec_block_spec(stmts_view(eb@), env_view(env), self.functions(), fuel as nat),
                        None => Exec::Done(env_view(env), Seq::empty()),
                    }
                };
                let r = if self.truthy(c) {
                    self.exec_block(then_branch, env, fuel, out)
                } else {
                    match else_branch {
                        Some(else_b) => self.exec_block(else_b, env, fuel, out),
                        None => {
                            assert(values_view(out@) =~= values_view(mid) + Seq::<SValue>::empty());
                            Ok(())
                        },
                    }
                };
                proof {
                    lemma_out_step(out0, mid, out@, o, printed(branch));
                }
                r
            },
            Stmt::While { cond, body } => {
                proof {
                    lemma_while_view(*cond, *body);
                }
                self.exec_while(cond, body, env, fuel, out)
            },
        }
    }

    /// Runs a `while` loop: each turn takes one unit of fuel.
    #[verifier::loop_isolation(false)]
    fn exec_while(&self, cond: &Expr, body: &Vec<Stmt>, env: &mut Env, fuel: u64, out: &mut Vec<Value>) -> (r: Result<
        (),
        Stop,
    >)
        ensures
            exec_env_as(
                r,
                env_view(final(env)),
                old(out)@,
                final(out)@,
                exec_while_spec(cond@, stmts_view(body@), env_view(old(env)), self.functions(), fuel as nat),
            ),
        decreases fuel, 1nat, body,
    {
        let ghost fs = self.functions();
        let ghost cv = cond@;
        let ghost bv = stmts_view(body@);
        let ghost whole = exec_while_spec(cv, bv, env_view(env), fs, fuel as nat);
        let ghost out0 = out@;
        let ghost mut o: Seq<SValue> = Seq::empty();
        proof {
            assert(values_view(out@) =~= values_view(out0) + o);
            lemma_then_empty(whole);
        }
        let mut f = fuel;
        loop
            invariant
                f <= fuel,
                values_view(out@) == values_view(out0) + o,
                whole == then_out(o, exec_while_spec(cv, bv, env_view(env), fs, f as nat)),
            decreases f,
        {
            let ghost out_before = out@;
            let ghost step = eval_spec(cv, env_view(env), fs, f as nat);
            let c = match self.eval(cond, env, f, out) {
                Ok(c) => c,
                Err(e) => {
                    proof {
                        lemma_out_step(out0, out_before, out@, o, printed(step));
                    }
                    return Err(e);
                },
            };
            let ghost x = printed(step);
            proof {
                lemma_out_step(out0, out_before, out@, o, x);
            }
            if !self.truthy(c) {
                return Ok(());
            }
            if f == 0 {
                return Err(Stop::OutOfFuel);
            }
            f = f - 1;
            let ghost out_mid = out@;
            let ghost blk = exec_block_spec(bv, env_view(env), fs, f as nat);
            let r = self.exec_block(body, env, f, out);
            proof {
                lemma_out_step(out0, out_mid, out@, o + x, printed(blk));
                lemma_then_then(o, x, blk);
            }
            match r {
                Ok(()) => {},
                Err(e) => {
                    return Err(e);
                },
            }
            proof {
                let y = printed(blk);
                let rest = exec_while_spec(cv, bv, env_view(env), fs, f as nat);
                lemma_then_then(x, y, rest);
                lemma_then_then(o, x + y, rest);
                assert(o + (x + y) =~= (o + x) + y);
                o = (o + x) + y;
            }
        }
    }

    pub fn run(&mut self, program: &Program, fuel: u64, printed: &mut Vec<Value>) -> (r: Result<(), Stop>)
        ensures
            final(self).functions() == funcs_after(old(self).functions(), stmts_view(program@)),
            exec_as(
                r,
                old(printed)@,
                final(printed)@,
                run_spec(stmts_view(program@), old(self).functions(), fuel as nat),
                |u: ()| u,
            ),
    {
        // Pre-register all function definitions so call order in the
        // source doesn't matter, mirroring how the checker pre-registers
        // structs.
        let ghost pv = stmts_view(program@);
        let ghost f0 = self.functions();
        assert(pv.subrange(0, pv.len() as int) =~= pv);
        let mut i: usize = 0;
        while i < program.len()
            invariant
                i <= program@.len(),
                pv == stmts_view(program@),
                funcs_after(f0, pv) == funcs_after(self.functions(), pv.subrange(i as int, pv.len() as int)),
            decreases program@.len() - i,
        {
            proof {
                assert(pv.subrange(i as int, pv.len() as int)[0] == pv[i as int]);
                assert(pv.subrange(i as int, pv.len() as int).subrange(1, pv.len() - i) =~= pv.subrange(
                    i + 1,
                    pv.len() as int,
                ));
            }
            match &program[i] {
                Stmt::FnDef { name, params, body } => {
                    proof {
                        crate::ast::lemma_fn_def_view(*name, *params, *body);
                    }
                    let ghost before = self.functions();
                    let d = FnDef { params: copy_names(params), body: copy_stmts(body) };
                    self.functions.insert(name.clone(), d);
                    assert(self.functions() =~= before.insert(name@, (names_view(params@), stmts_view(body@))));
                },
                _ => {},
            }
            i = i + 1;
        }
        assert(pv.subrange(i as int, pv.len() as int).len() == 0);
        let mut env: Env = NameMap::new();
        assert(env_view(&env) =~= SEnv::empty());
        match self.exec_block(program, &mut env, fuel, printed) {
            Ok(()) => Ok(()),
            Err(e) => Err(e),
        }
    }
}

} // verus!

verus! {

// ---------------------------------------------------------------------------
// Fuel
// ---------------------------------------------------------------------------

proof fn lemma_eval_fuel(e: SExpr, env: SEnv, fs: SFuncs, f1: nat, f2: nat)
    requires
        f1 <= f2,
        !(eval_spec(e, env, fs, f1) is OutOfFuel),
    ensures
        eval_spec(e, env, fs, f2) == eval_spec(e, env, fs, f1),
    decreases f1, 0nat, e,
{
    match e {
        SExpr::Number(_) => {},
        SExpr::Ident(_) => {},
        SExpr::Field { base, field } => {
            if !(eval_spec(*base, env, fs, f1) is OutOfFuel) {
                lemma_eval_fuel(*base, env, fs, f1, f2);
            }
        },
        SExpr::StructLit { name, fields } => {
            if !(eval_inits_spec(fields, env, fs, f1, Map::empty()) is OutOfFuel) {
                lemma_inits_fuel(fields, env, fs, f1, f2, Map::empty());
            }
        },
        SExpr::Call { callee, args } => {
            if fs.dom().contains(callee) && fs[callee].0.len() == args.len() {
                let params = fs[callee].0;
                if !(bind_args_spec(params, args, env, fs, f1, Map::empty()) is OutOfFuel) {
                    lemma_args_fuel(params, args, env, fs, f1, f2, Map::empty());
                }
                match bind_args_spec(params, args, env, fs, f1, Map::empty()) {
                    Exec::Done(call_env, out) => {
                        if f1 > 0 && !(exec_block_spec(fs[callee].1, call_env, fs, (f1 - 1) as nat) is OutOfFuel) {
                            lemma_block_fuel(fs[callee].1, call_env, fs, (f1 - 1) as nat, (f2 - 1) as nat);
                        }
                    },
                    _ => {},
                }
            }
        },
    }
}

proof fn lemma_inits_fuel(
    inits: Seq<(Seq<char>, SExpr)>,
    env: SEnv,
    fs: SFuncs,
    f1: nat,
    f2: nat,
    acc: Map<Seq<char>, SValue>,
)
    requires
        f1 <= f2,
        !(eval_inits_spec(inits, env, fs, f1, acc) is OutOfFuel),
    ensures
        eval_inits_spec(inits, env, fs, f2, acc) == eval_inits_spec(inits, env, fs, f1, acc),
    decreases f1, 0nat, inits,
{
    if inits.len() > 0 {
        broadcast use vstd::seq::axiom_seq_index_decreases;
        broadcast use vstd::seq::axiom_seq_subrange_decreases;
        if !(eval_spec(inits[0].1, env, fs, f1) is OutOfFuel) {
            lemma_eval_fuel(inits[0].1, env, fs, f1, f2);
        }
        match eval_spec(inits[0].1, env, fs, f1) {
            Exec::Done(v, out) => {
                let rest = inits.subrange(1, inits.len() as int);
                let acc2 = acc.insert(inits[0].0, v);
                if !(eval_inits_spec(rest, env, fs, f1, acc2) is OutOfFuel) {
                    lemma_inits_fuel(rest, env, fs, f1, f2, acc2);
                }
            },
            _ => {},
        }
    }
}

proof fn lemma_args_fuel(
    params: Seq<Seq<char>>,
    args: Seq<SExpr>,
    env: SEnv,
    fs: SFuncs,
    f1: nat,
    f2: nat,
    acc: SEnv,
)
    requires
        f1 <= f2,
        !(bind_args_spec(params, args, env, fs, f1, acc) is OutOfFuel),
    ensures
        bind_args_spec(params, args, env, fs, f2, acc) == bind_args_spec(params, args, env, fs, f1, acc),
    decreases f1, 0nat, args,
{
    if args.len() > 0 {
        broadcast use vstd::seq::axiom_seq_index_decreases;
        broadcast use vstd::seq::axiom_seq_subrange_decreases;
        if !(eval_spec(args[0], env, fs, f1) is OutOfFuel) {
            lemma_eval_fuel(args[0], env, fs, f1, f2);
        }
        match eval_spec(args[0], env, fs, f1) {
            Exec::Done(v, out) => {
                let ps = params.subrange(1, params.len() as int);
                let rest = args.subrange(1, args.len() as int);
                let acc2 = acc.insert(params[0], v);
                if !(bind_args_spec(ps, rest, env, fs, f1, acc2) is OutOfFuel) {
                    lemma_args_fuel(ps, rest, env, fs, f1, f2, acc2);
                }
            },
            _ => {},
        }
    }
}

proof fn lemma_stmt_fuel(s: SStmt, env: SEnv, fs: SFuncs, f1: nat, f2: nat)
    requires
        f1 <= f2,
        !(exec_stmt_spec(s, env, fs, f1) is OutOfFuel),
    ensures
        exec_stmt_spec(s, env, fs, f2) == exec_stmt_spec(s, env, fs, f1),
    decreases f1, 1nat, s,
{
    match s {
        SStmt::StructDef { .. } => {},
        SStmt::FnDef { .. } => {},
        SStmt::Let { name, value } => {
            if !(eval_spec(value, env, fs, f1) is OutOfFuel) {
                lemma_eval_fuel(value, env, fs, f1, f2);
            }
        },
        SStmt::Print(e) => {
            if !(eval_spec(e, env, fs, f1) is OutOfFuel) {
                lemma_eval_fuel(e, env, fs, f1, f2);
            }
        },
        SStmt::ExprStmt(e) => {
            if !(eval_spec(e, env, fs, f1) is OutOfFuel) {
                lemma_eval_fuel(e, env, fs, f1, f2);
            }
        },
        SStmt::If { cond, then_branch, else_branch } => {
            if !(eval_spec(cond, env, fs, f1) is OutOfFuel) {
                lemma_eval_fuel(cond, env, fs, f1, f2);
            }
            if !(exec_block_spec(then_branch, env, fs, f1) is OutOfFuel) {
                lemma_block_fuel(then_branch, env, fs, f1, f2);
            }
            match else_branch {
                Some(eb) => {
                    if !(exec_block_spec(eb, env, fs, f1) is OutOfFuel) {
                        lemma_block_fuel(eb, env, fs, f1, f2);
                    }
                },
                None => {},
            }
        },
        SStmt::While { cond, body } => {
            lemma_while_fuel(cond, body, env, fs, f1, f2);
        },
    }
}

proof fn lemma_while_fuel(cond: SExpr, body: Seq<SStmt>, env: SEnv, fs: SFuncs, f1: nat, f2: nat)
    requires
        f1 <= f2,
        !(exec_while_spec(cond, body, env, fs, f1) is OutOfFuel),
    ensures
        exec_while_spec(cond, body, env, fs, f2) == exec_while_spec(cond, body, env, fs, f1),
    decreases f1, 1nat, body,
{
    if !(eval_spec(cond, env, fs, f1) is OutOfFuel) {
        lemma_eval_fuel(cond, env, fs, f1, f2);
    }
    match eval_spec(cond, env, fs, f1) {
        Exec::Done(v, out) => {
            if truthy(v) && f1 > 0 {
                let g1 = (f1 - 1) as nat;
                let g2 = (f2 - 1) as nat;
                if !(exec_block_spec(body, env, fs, g1) is OutOfFuel) {
                    lemma_block_fuel(body, env, fs, g1, g2);
                }
                match exec_block_spec(body, env, fs, g1) {
                    Exec::Done(env2, out2) => {
                        if !(exec_while_spec(cond, body, env2, fs, g1) is OutOfFuel) {
                            lemma_while_fuel(cond, body, env2, fs, g1, g2);
                        }
                    },
                    _ => {},
                }
            }
        },
        _ => {},
    }
}

proof fn lemma_block_fuel(ss: Seq<SStmt>, env: SEnv, fs: SFuncs, f1: nat, f2: nat)
    requires
        f1 <= f2,
        !(exec_block_spec(ss, env, fs, f1) is OutOfFuel),
    ensures
        exec_block_spec(ss, env, fs, f2) == exec_block_spec(ss, env, fs, f1),
    decreases f1, 1nat, ss,
{
    if ss.len() > 0 {
        broadcast use vstd::seq::axiom_seq_index_decreases;
        broadcast use vstd::seq::axiom_seq_subrange_decreases;
        if !(exec_stmt_spec(ss[0], env, fs, f1) is OutOfFuel) {
            lemma_stmt_fuel(ss[0], env, fs, f1, f2);
        }
        match exec_stmt_spec(ss[0], env, fs, f1) {
            Exec::Done(env2, out) => {
                let rest = ss.subrange(1, ss.len() as int);
                if !(exec_block_spec(rest, env2, fs, f1) is OutOfFuel) {
                    lemma_block_fuel(rest, env2, fs, f1, f2);
                }
            },
            _ => {},
        }
    }
}

/// Fuel only bounds a run: a run that ends without running out of fuel ends
/// the same way, with the same values printed, given any more fuel.
pub proof fn law_more_fuel_same_outcome(program: Seq<SStmt>, fs: SFuncs, f1: nat, f2: nat)
    requires
        f1 <= f2,
        !(run_spec(program, fs, f1) is OutOfFuel),
    ensures
        run_spec(program, fs, f2) == run_spec(program, fs, f1),
{
    lemma_block_fuel(program, Map::empty(), funcs_after(fs, program), f1, f2);
}

} // verus!

verus! {

// ---------------------------------------------------------------------------
// What an expression reads, and what a block binds
// ---------------------------------------------------------------------------

/// The names of variables that evaluating `e` reads. A call's body reads
/// none of the caller's variables: only its arguments do.
pub open spec fn reads(e: SExpr) -> Set<Seq<char>>
    decreases e,
{
    match e {
        SExpr::Number(_) => Set::empty(),
        SExpr::Ident(n) => set![n],
        SExpr::Field { base, field } => reads(*base),
        SExpr::Call { callee, args } => reads_all(args),
        SExpr::StructLit { name, fields } => reads_inits(fields),
    }
}

pub open spec fn reads_all(es: Seq<SExpr>) -> Set<Seq<char>>
    decreases es,
{
    if es.len() == 0 {
        Set::empty()
    } else {
        proof {
            broadcast use vstd::seq::axiom_seq_index_decreases;
            broadcast use vstd::seq::axiom_seq_subrange_decreases;
        }
        reads(es[0]) + reads_all(es.subrange(1, es.len() as int))
    }
}

pub open spec fn reads_inits(fs: Seq<(Seq<char>, SExpr)>) -> Set<Seq<char>>
    decreases fs,
{
    if fs.len() == 0 {
        Set::empty()
    } else {
        proof {
            broadcast use vstd::seq::axiom_seq_index_decreases;
            broadcast use vstd::seq::axiom_seq_subrange_decreases;
        }
        reads(fs[0].1) + reads_inits(fs.subrange(1, fs.len() as int))
    }
}

/// `env1` and `env2` hold the same variable `n`, or both lack it.
pub open spec fn same_var(env1: SEnv, env2: SEnv, n: Seq<char>) -> bool {
    &&& env1.dom().contains(n) == env2.dom().contains(n)
    &&& env1.dom().contains(n) ==> env1[n] == env2[n]
}

/// `env1` and `env2` hold the same variables among `names`.
pub open spec fn agree_on(env1: SEnv, env2: SEnv, names: Set<Seq<char>>) -> bool {
    forall|n: Seq<char>| names.contains(n) ==> #[trigger] same_var(env1, env2, n)
}

proof fn lemma_eval_frame(e: SExpr, env1: SEnv, env2: SEnv, fs: SFuncs, fuel: nat)
    requires
        agree_on(env1, env2, reads(e)),
    ensures
        eval_spec(e, env1, fs, fuel) == eval_spec(e, env2, fs, fuel),
    decreases e,
{
    match e {
        SExpr::Number(_) => {},
        SExpr::Ident(n) => {
            assert(same_var(env1, env2, n));
        },
        SExpr::Field { base, field } => {
            lemma_eval_frame(*base, env1, env2, fs, fuel);
        },
        SExpr::StructLit { name, fields } => {
            lemma_inits_frame(fields, env1, env2, fs, fuel, Map::empty());
        },
        SExpr::Call { callee, args } => {
            if fs.dom().contains(callee) {
                lemma_args_frame(fs[callee].0, args, env1, env2, fs, fuel, Map::empty());
            }
        },
    }
}

proof fn lemma_inits_frame(
    inits: Seq<(Seq<char>, SExpr)>,
    env1: SEnv,
    env2: SEnv,
    fs: SFuncs,
    fuel: nat,
    acc: Map<Seq<char>, SValue>,
)
    requires
        agree_on(env1, env2, reads_inits(inits)),
    ensures
        eval_inits_spec(inits, env1, fs, fuel, acc) == eval_inits_spec(inits, env2, fs, fuel, acc),
    decreases inits,
{
    if inits.len() > 0 {
        broadcast use vstd::seq::axiom_seq_index_decreases;
        broadcast use vstd::seq::axiom_seq_subrange_decreases;
        let rest = inits.subrange(1, inits.len() as int);
        assert(agree_on(env1, env2, reads(inits[0].1)));
        assert(agree_on(env1, env2, reads_inits(rest)));
        lemma_eval_frame(inits[0].1, env1, env2, fs, fuel);
        match eval_spec(inits[0].1, env1, fs, fuel) {
            Exec::Done(v, out) => {
                lemma_inits_frame(rest, env1, env2, fs, fuel, acc.insert(inits[0].0, v));
            },
            _ => {},
        }
    }
}

proof fn lemma_args_frame(
    params: Seq<Seq<char>>,
    args: Seq<SExpr>,
    env1: SEnv,
    env2: SEnv,
    fs: SFuncs,
    fuel: nat,
    acc: SEnv,
)
    requires
        agree_on(env1, env2, reads_all(args)),
    ensures
        bind_args_spec(params, args, env1, fs, fuel, acc) == bind_args_spec(params, args, env2, fs, fuel, acc),
    decreases args,
{
    if args.len() > 0 {
        broadcast use vstd::seq::axiom_seq_index_decreases;
        broadcast use vstd::seq::axiom_seq_subrange_decreases;
        let rest = args.subrange(1, args.len() as int);
        assert(agree_on(env1, env2, reads(args[0])));
        assert(agree_on(env1, env2, reads_all(rest)));
        lemma_eval_frame(args[0], env1, env2, fs, fuel);
        match eval_spec(args[0], env1, fs, fuel) {
            Exec::Done(v, out) => {
                lemma_args_frame(
                    params.subrange(1, params.len() as int),
                    rest,
                    env1,
                    env2,
                    fs,
                    fuel,
                    acc.insert(params[0], v),
                );
            },
            _ => {},
        }
    }
}

proof fn lemma_stmt_keeps(s: SStmt, env: SEnv, fs: SFuncs, fuel: nat, n: Seq<char>)
    requires
        !binds_in_stmt(s, n),
    ensures
        exec_stmt_spec(s, env, fs, fuel) matches Exec::Done(env2, _) ==> same_var(env, env2, n),
    decreases fuel, 1nat, s,
{
    match s {
        SStmt::If { cond, then_branch, else_branch } => {
            lemma_block_keeps(then_branch, env, fs, fuel, n);
            match else_branch {
                Some(eb) => lemma_block_keeps(eb, env, fs, fuel, n),
                None => {},
            }
        },
        SStmt::While { cond, body } => {
            lemma_while_keeps(cond, body, env, fs, fuel, n);
        },
        _ => {},
    }
}

proof fn lemma_while_keeps(cond: SExpr, body: Seq<SStmt>, env: SEnv, fs: SFuncs, fuel: nat, n: Seq<char>)
    requires
        !binds_in_block(body, n),
    ensures
        exec_while_spec(cond, body, env, fs, fuel) matches Exec::Done(env2, _) ==> same_var(env, env2, n),
    decreases fuel, 1nat, body,
{
    if fuel > 0 {
        let g = (fuel - 1) as nat;
        lemma_block_keeps(body, env, fs, g, n);
        match exec_block_spec(body, env, fs, g) {
            Exec::Done(env2, _) => {
                lemma_while_keeps(cond, body, env2, fs, g, n);
            },
            _ => {},
        }
    }
}

proof fn lemma_block_keeps(ss: Seq<SStmt>, env: SEnv, fs: SFuncs, fuel: nat, n: Seq<char>)
    requires
        !binds_in_block(ss, n),
    ensures
        exec_block_spec(ss, env, fs, fuel) matches Exec::Done(env2, _) ==> same_var(env, env2, n),
    decreases fuel, 1nat, ss,
{
    if ss.len() > 0 {
        broadcast use vstd::seq::axiom_seq_index_decreases;
        broadcast use vstd::seq::axiom_seq_subrange_decreases;
        let rest = ss.subrange(1, ss.len() as int);
        lemma_stmt_keeps(ss[0], env, fs, fuel, n);
        match exec_stmt_spec(ss[0], env, fs, fuel) {
            Exec::Done(env2, _) => {
                lemma_block_keeps(rest, env2, fs, fuel, n);
            },
            _ => {},
        }
    }
}

/// A Warden loop cannot change its own condition except by binding one of
/// the names the condition reads. So a loop whose body binds none of them
/// runs its body never or forever: if it ends, it ended at its first test,
/// with a falsy condition, having run nothing and changed nothing.
pub proof fn law_loop_that_ends_never_ran_its_body(
    cond: SExpr,
    body: Seq<SStmt>,
    env: SEnv,
    fs: SFuncs,
    fuel: nat,
)
    requires
        forall|n: Seq<char>| #[trigger] reads(cond).contains(n) ==> !binds_in_block(body, n),
    ensures
        exec_while_spec(cond, body, env, fs, fuel) matches Exec::Done(env2, out) ==> {
            &&& eval_spec(cond, env, fs, fuel) matches Exec::Done(v, o) && !truthy(v) && out == o
            &&& env2 == env
        },
    decreases fuel,
{
    match eval_spec(cond, env, fs, fuel) {
        Exec::Done(v, o) => {
            if truthy(v) && fuel > 0 {
                let g = (fuel - 1) as nat;
                match exec_block_spec(body, env, fs, g) {
                    Exec::Done(env2, o2) => {
                        law_loop_that_ends_never_ran_its_body(cond, body, env2, fs, g);
                        if exec_while_spec(cond, body, env2, fs, g) is Done {
                            assert forall|n: Seq<char>| reads(cond).contains(n) implies #[trigger] same_var(
                                env,
                                env2,
                                n,
                            ) by {
                                lemma_block_keeps(body, env, fs, g, n);
                            }
                            lemma_eval_frame(cond, env, env2, fs, g);
                            lemma_eval_fuel(cond, env, fs, g, fuel);
                            assert(false);
                        }
                    },
                    _ => {},
                }
            }
        },
        _ => {},
    }
}

} // verus!

verus! {

/// Warden functions return nothing: a call that finishes yields the number
/// zero.
pub proof fn law_call_yields_zero(callee: Seq<char>, args: Seq<SExpr>, env: SEnv, fs: SFuncs, fuel: nat)
    ensures
        eval_spec(SExpr::Call { callee, args }, env, fs, fuel) matches Exec::Done(v, _) ==> v == SValue::Number(
            zero_text(),
        ),
{
}

/// A function that `ss` does not define keeps what `fs` knows of it.
proof fn lemma_funcs_after_other(fs: SFuncs, ss: Seq<SStmt>, name: Seq<char>)
    requires
        forall|j: int| 0 <= j < ss.len() ==> !(#[trigger] ss[j] matches SStmt::FnDef { name: n, .. } && n == name),
    ensures
        funcs_after(fs, ss).dom().contains(name) == fs.dom().contains(name),
        fs.dom().contains(name) ==> funcs_after(fs, ss)[name] == fs[name],
    decreases ss.len(),
{
    if ss.len() > 0 {
        let rest = ss.subrange(1, ss.len() as int);
        let next = match ss[0] {
            SStmt::FnDef { name, params, body } => fs.insert(name, (params, body)),
            _ => fs,
        };
        assert forall|j: int| 0 <= j < rest.len() implies !(#[trigger] rest[j] matches SStmt::FnDef {
            name: n,
            ..
        } && n == name) by {
            assert(rest[j] == ss[j + 1]);
        }
        lemma_funcs_after_other(next, rest, name);
    }
}

/// Every function is known from the start of a run, wherever the program
/// defines it: the last definition of each name is the one called.
pub proof fn law_functions_are_known_before_the_run(program: Seq<SStmt>, fs: SFuncs, i: int)
    requires
        0 <= i < program.len(),
        program[i] is FnDef,
        forall|j: int|
            i < j < program.len() ==> !(#[trigger] program[j] matches SStmt::FnDef { name: n, .. } && n
                == program[i]->FnDef_name),
    ensures
        funcs_after(fs, program).dom().contains(program[i]->FnDef_name),
        funcs_after(fs, program)[program[i]->FnDef_name] == (program[i]->FnDef_params, program[i]->FnDef_body),
    decreases i,
{
    let rest = program.subrange(1, program.len() as int);
    let next = match program[0] {
        SStmt::FnDef { name, params, body } => fs.insert(name, (params, body)),
        _ => fs,
    };
    if i == 0 {
        let name = program[0]->FnDef_name;
        assert forall|j: int| 0 <= j < rest.len() implies !(#[trigger] rest[j] matches SStmt::FnDef {
            name: n,
            ..
        } && n == name) by {
            assert(rest[j] == program[j + 1]);
        }
        lemma_funcs_after_other(next, rest, name);
    } else {
        assert(rest[i - 1] == program[i]);
        assert forall|j: int| i - 1 < j < rest.len() implies !(#[trigger] rest[j] matches SStmt::FnDef {
            name: n,
            ..
        } && n == rest[i - 1]->FnDef_name) by {
            assert(rest[j] == program[j + 1]);
        }
        law_functions_are_known_before_the_run(rest, next, i - 1);
    }
}

} // verus!

verus! {

/// Warden has no closures: evaluating an expression depends on the
/// variables in view only through the names it reads itself, and a call
/// reads the caller's variables only through its arguments; the body runs
/// on its parameters alone.
pub proof fn law_evaluation_reads_only_its_own_names(e: SExpr, env1: SEnv, env2: SEnv, fs: SFuncs, fuel: nat)
    requires
        agree_on(env1, env2, reads(e)),
    ensures
        eval_spec(e, env1, fs, fuel) == eval_spec(e, env2, fs, fuel),
{
    lemma_eval_frame(e, env1, env2, fs, fuel);
}

} // verus!

verus! {

/// Binding arguments leaves alone every name that is no parameter still to
/// be bound.
proof fn lemma_bind_keeps(
    ps: Seq<Seq<char>>,
    args: Seq<SExpr>,
    env: SEnv,
    fs: SFuncs,
    fuel: nat,
    acc: SEnv,
    k: Seq<char>,
)
    requires
        ps.len() == args.len(),
        !ps.contains(k),
        acc.dom().contains(k),
    ensures
        bind_args_spec(ps, args, env, fs, fuel, acc) matches Exec::Done(m, _) ==> m.dom().contains(k) && m[k]
            == acc[k],
    decreases args.len(),
{
    if args.len() > 0 {
        match eval_spec(args[0], env, fs, fuel) {
            Exec::Done(v, _) => {
                let rest_ps = ps.subrange(1, ps.len() as int);
                assert(!rest_ps.contains(k)) by {
                    if rest_ps.contains(k) {
                        let j = choose|j: int| 0 <= j < rest_ps.len() && rest_ps[j] == k;
                        assert(ps[j + 1] == k);
                    }
                }
                assert(ps[0] != k) by {
                    assert(ps.contains(ps[0]));
                }
                lemma_bind_keeps(rest_ps, args.subrange(1, args.len() as int), env, fs, fuel, acc.insert(ps[0], v), k);
            },
            _ => {},
        }
    }
}

/// A call binds its parameters to its arguments in order: where the
/// parameters are distinct and binding succeeds, the `i`-th parameter holds
/// the value of the `i`-th argument.
pub proof fn law_call_binds_each_parameter_to_its_argument(
    ps: Seq<Seq<char>>,
    args: Seq<SExpr>,
    env: SEnv,
    fs: SFuncs,
    fuel: nat,
    acc: SEnv,
    i: int,
)
    requires
        ps.len() == args.len(),
        ps.no_duplicates(),
        0 <= i < args.len(),
    ensures
        bind_args_spec(ps, args, env, fs, fuel, acc) matches Exec::Done(m, _) ==> {
            &&& eval_spec(args[i], env, fs, fuel) matches Exec::Done(v, _)
            &&& m.dom().contains(ps[i])
            &&& m[ps[i]] == eval_spec(args[i], env, fs, fuel)->Done_0
        },
    decreases args.len(),
{
    match eval_spec(args[0], env, fs, fuel) {
        Exec::Done(v, _) => {
            let rest_ps = ps.subrange(1, ps.len() as int);
            let rest = args.subrange(1, args.len() as int);
            let acc2 = acc.insert(ps[0], v);
            assert(rest_ps.no_duplicates());
            if i == 0 {
                assert(!rest_ps.contains(ps[0])) by {
                    if rest_ps.contains(ps[0]) {
                        let j = choose|j: int| 0 <= j < rest_ps.len() && rest_ps[j] == ps[0];
                        assert(ps[j + 1] == ps[0]);
                    }
                }
                lemma_bind_keeps(rest_ps, rest, env, fs, fuel, acc2, ps[0]);
            } else {
                assert(rest[i - 1] == args[i]);
                assert(rest_ps[i - 1] == ps[i]);
                law_call_binds_each_parameter_to_its_argument(rest_ps, rest, env, fs, fuel, acc2, i - 1);
            }
        },
        _ => {},
    }
}

} // verus!
