//! The evaluator.
//!
//! A symbol evaluates to what the environment holds for it. A list whose
//! head is `def!` or `let*` is a special form; any other list that is not
//! empty is a call: its elements are evaluated from left to right, and the
//! first, a function, is applied to the others. A vector evaluates to the
//! vector of its evaluated elements, a hash map to the hash map of its
//! evaluated values under the same keys. Every other value evaluates to
//! itself.
//!
//! What a form evaluates to, and what it does to the environment, is the
//! function [`eval_spec`] of the form and of the environment before.

use crate::env::{bind, lookup, make_env, nested, scopes_well_formed, Env, Scopes};
use crate::laws::law_eval_keeps_well_formed;
use crate::text::same_text;
use crate::types::{
    entry_views, eval_outcome, lemma_view_of_sequences, list, vector, views, well_formed,
    Builtin, Datum, DatumKey, EvalError, EvalFault, MalArgs, MalVal, MapKey,
};
use std::rc::Rc;
use vstd::prelude::*;

verus! {

broadcast use vstd::std_specs::vec::group_vec_axioms;

/// The quotient of `x` by `d`, rounded towards zero.
pub open spec fn trunc_div(x: int, d: int) -> int {
    if x >= 0 && d > 0 {
        x / d
    } else if x < 0 && d < 0 {
        (-x) / (-d)
    } else if x < 0 {
        -((-x) / d)
    } else {
        -(x / (-d))
    }
}

/// Whether `v` is a 64-bit integer.
pub open spec fn fits(v: int) -> bool {
    i64::MIN <= v <= i64::MAX
}

/// What a function makes of two integers. A result that does not fit in 64
/// bits and a division by zero are refused.
pub open spec fn arith(f: Builtin, x: i64, y: i64) -> Result<i64, EvalFault> {
    let v = match f {
        Builtin::Add => x + y,
        Builtin::Sub => x - y,
        Builtin::Mul => x * y,
        Builtin::Div => trunc_div(x as int, y as int),
    };
    if (f == Builtin::Div && y == 0) || !fits(v) {
        Err(EvalFault::TypeMismatch)
    } else {
        Ok(v as i64)
    }
}

/// What a function makes of the first `n` arguments, taken from left to
/// right: the first argument alone, then the result so far and the next
/// argument. An argument that is no integer is refused.
pub open spec fn fold_args(f: Builtin, args: Seq<Datum>, n: int) -> Result<i64, EvalFault>
    decreases n,
{
    if n <= 1 {
        match args[0] {
            Datum::Int(i) => Ok(i),
            _ => Err(EvalFault::TypeMismatch),
        }
    } else {
        match (fold_args(f, args, n - 1), args[n - 1]) {
            (Ok(acc), Datum::Int(i)) => arith(f, acc, i),
            _ => Err(EvalFault::TypeMismatch),
        }
    }
}

/// What a function returns for `args`. Fewer than two arguments are
/// refused.
pub open spec fn apply_builtin(f: Builtin, args: Seq<Datum>) -> Result<Datum, EvalFault> {
    if args.len() < 2 {
        Err(EvalFault::ArityError)
    } else {
        match fold_args(f, args, args.len() as int) {
            Ok(i) => Ok(Datum::Int(i)),
            Err(e) => Err(e),
        }
    }
}

/// What calling the evaluated elements of a list gives: the head, a
/// function, applied to the rest. A head that is a symbol was bound
/// nowhere.
pub open spec fn call(items: Seq<Datum>) -> Result<Datum, EvalFault> {
    if items.len() == 0 {
        Err(EvalFault::NotCallable)
    } else {
        match items[0] {
            Datum::Func(f) => apply_builtin(f, items.skip(1)),
            Datum::Sym(name) => Err(EvalFault::NotFound(name)),
            _ => Err(EvalFault::NotCallable),
        }
    }
}

/// What evaluating gives, and the environment that it leaves.
pub struct Evaluated {
    pub out: Result<Datum, EvalFault>,
    pub env: Scopes,
}

/// What evaluating the elements of a sequence gives, and the environment
/// that it leaves.
pub struct EvaluatedItems {
    pub out: Result<Seq<Datum>, EvalFault>,
    pub env: Scopes,
}

/// What evaluating the values of a hash map gives, and the environment
/// that it leaves.
pub struct EvaluatedEntries {
    pub out: Result<Seq<(DatumKey, Datum)>, EvalFault>,
    pub env: Scopes,
}

/// The name of the special form that binds a name in the current frame.
pub open spec fn def_name() -> Seq<char> {
    "def!"@
}

/// The name of the special form that evaluates a body in a new frame.
pub open spec fn let_name() -> Seq<char> {
    "let*"@
}

/// What evaluating `ast` in `env` gives.
///
/// `(def! name form)` evaluates `form` and binds `name` to its value in the
/// current frame; the value is the result. It needs both operands, and
/// `name` must be a symbol.
///
/// `(let* bindings body)` evaluates `body` in a new frame around `env` and
/// leaves `env` as it was. `bindings`, a list or a vector, holds names and
/// forms in turn: each form is evaluated in the new frame as it stands by
/// then, and its name is bound there. Without a body the result is `nil`.
pub open spec fn eval_spec(ast: Datum, env: Scopes) -> Evaluated
    decreases ast, 1int, 0int,
{
    match ast {
        Datum::List(xs) => if xs.len() == 0 {
            Evaluated { out: Ok(ast), env }
        } else if xs[0] == Datum::Sym(def_name()) {
            if xs.len() < 3 {
                Evaluated { out: Err(EvalFault::ArityError), env }
            } else {
                match xs[1] {
                    Datum::Sym(name) => {
                        let value = eval_spec(xs[2], env);
                        match value.out {
                            Ok(v) => Evaluated { out: Ok(v), env: bind(value.env, name, v) },
                            Err(e) => value,
                        }
                    },
                    _ => Evaluated { out: Err(EvalFault::InvalidBinding), env },
                }
            }
        } else if xs[0] == Datum::Sym(let_name()) {
            if xs.len() < 2 {
                Evaluated { out: Err(EvalFault::ArityError), env }
            } else {
                match xs[1] {
                    Datum::List(bs) | Datum::Vector(bs) => if bs.len() % 2 != 0 {
                        Evaluated { out: Err(EvalFault::BindingMismatch), env }
                    } else {
                        let bound = bind_pairs(bs, bs.len() as int / 2, nested(env));
                        match bound.out {
                            Err(e) => Evaluated { out: Err(e), env },
                            Ok(_) => if xs.len() < 3 {
                                Evaluated { out: Ok(Datum::Nil), env }
                            } else {
                                Evaluated { out: eval_spec(xs[2], bound.env).out, env }
                            },
                        }
                    },
                    _ => Evaluated { out: Err(EvalFault::InvalidBinding), env },
                }
            }
        } else {
            let evaluated = eval_ast_spec(ast, env);
            match evaluated.out {
                Ok(Datum::List(items)) => Evaluated { out: call(items), env: evaluated.env },
                Ok(_) => Evaluated { out: Err(EvalFault::NotCallable), env: evaluated.env },
                Err(e) => evaluated,
            }
        },
        _ => eval_ast_spec(ast, env),
    }
}

/// What evaluating `ast` gives where no special form and no call is looked
/// for: a symbol is looked up, the elements of a list or vector and the
/// values of a hash map are evaluated from left to right.
pub open spec fn eval_ast_spec(ast: Datum, env: Scopes) -> Evaluated
    decreases ast, 0int, 0int,
{
    match ast {
        Datum::Sym(s) => Evaluated { out: Ok(lookup(env, s)), env },
        Datum::List(xs) => {
            let r = eval_items(xs, xs.len() as int, env);
            Evaluated {
                out: match r.out {
                    Ok(items) => Ok(Datum::List(items)),
                    Err(e) => Err(e),
                },
                env: r.env,
            }
        },
        Datum::Vector(xs) => {
            let r = eval_items(xs, xs.len() as int, env);
            Evaluated {
                out: match r.out {
                    Ok(items) => Ok(Datum::Vector(items)),
                    Err(e) => Err(e),
                },
                env: r.env,
            }
        },
        Datum::Hash(es) => {
            let r = eval_entries(es, es.len() as int, env);
            Evaluated {
                out: match r.out {
                    Ok(entries) => Ok(Datum::Hash(entries)),
                    Err(e) => Err(e),
                },
                env: r.env,
            }
        },
        _ => Evaluated { out: Ok(ast), env },
    }
}

/// What evaluating the first `n` elements of `xs` gives, from left to
/// right; the first failure ends it.
pub open spec fn eval_items(xs: Seq<Datum>, n: int, env: Scopes) -> EvaluatedItems
    decreases xs, 0int, n,
{
    if n <= 0 || n > xs.len() {
        EvaluatedItems { out: Ok(Seq::empty()), env }
    } else {
        let before = eval_items(xs, n - 1, env);
        match before.out {
            Err(e) => before,
            Ok(items) => {
                let value = eval_spec(xs[n - 1], before.env);
                match value.out {
                    Ok(v) => EvaluatedItems { out: Ok(items.push(v)), env: value.env },
                    Err(e) => EvaluatedItems { out: Err(e), env: value.env },
                }
            },
        }
    }
}

/// What evaluating the values of the first `n` entries of `es` gives, from
/// left to right; keys stay as they are, and the first failure ends it.
pub open spec fn eval_entries(es: Seq<(DatumKey, Datum)>, n: int, env: Scopes) -> EvaluatedEntries
    decreases es, 0int, n,
{
    if n <= 0 || n > es.len() {
        EvaluatedEntries { out: Ok(Seq::empty()), env }
    } else {
        let before = eval_entries(es, n - 1, env);
        match before.out {
            Err(e) => before,
            Ok(entries) => {
                let value = eval_spec(es[n - 1].1, before.env);
                match value.out {
                    Ok(v) => EvaluatedEntries {
                        out: Ok(entries.push((es[n - 1].0, v))),
                        env: value.env,
                    },
                    Err(e) => EvaluatedEntries { out: Err(e), env: value.env },
                }
            },
        }
    }
}

/// What binding the first `n` pairs of `bs` does to `env`, from left to
/// right: each form is evaluated in the environment as the pairs before it
/// left it, and the pair's name is bound to the value in the current
/// frame. The first failure ends it.
pub open spec fn bind_pairs(bs: Seq<Datum>, n: int, env: Scopes) -> Evaluated
    decreases bs, 0int, n,
{
    if n <= 0 || 2 * n > bs.len() {
        Evaluated { out: Ok(Datum::Nil), env }
    } else {
        let before = bind_pairs(bs, n - 1, env);
        match before.out {
            Err(e) => before,
            Ok(_) => match bs[2 * n - 2] {
                Datum::Sym(name) => {
                    let value = eval_spec(bs[2 * n - 1], before.env);
                    match value.out {
                        Ok(v) => Evaluated { out: Ok(Datum::Nil), env: bind(value.env, name, v) },
                        Err(e) => value,
                    }
                },
                _ => Evaluated { out: Err(EvalFault::InvalidBinding), env: before.env },
            },
        }
    }
}

/// Once folding has failed, more arguments do not mend it.
pub proof fn lemma_fold_stays_failed(f: Builtin, args: Seq<Datum>, n: int, m: int)
    requires
        fold_args(f, args, n) is Err,
        1 <= n <= m,
    ensures
        fold_args(f, args, m) == Err::<i64, EvalFault>(EvalFault::TypeMismatch),
    decreases m - n,
{
    if n < m {
        lemma_fold_stays_failed(f, args, n, m - 1);
    }
}

/// What `f` makes of `x` and `y`, if it is an integer.
fn compute(f: Builtin, x: i64, y: i64) -> (r: Option<i64>)
    ensures
        r matches Some(v) ==> arith(f, x, y) == Ok::<i64, EvalFault>(v),
        r is None ==> arith(f, x, y) is Err,
{
    match f {
        Builtin::Add => x.checked_add(y),
        Builtin::Sub => x.checked_sub(y),
        Builtin::Mul => x.checked_mul(y),
        Builtin::Div => x.checked_div(y),
    }
}

/// Applies `f` to `args`: the integers are folded from left to right.
/// Fewer than two arguments fail with `ArityError`. An argument that is no
/// integer, a result that does not fit in 64 bits and a division by zero
/// fail with `TypeMismatch`.
pub fn op(args: MalArgs, f: Builtin) -> (r: Result<MalVal, EvalError>)
    ensures
        eval_outcome(r) == apply_builtin(f, views(args@)),
{
    let n = args.len();
    if n < 2 {
        return Err(EvalError::ArityError);
    }
    let ghost models = views(args@);
    let mut acc: i64 = match &args[0] {
        MalVal::Int(i) => *i,
        _ => {
            proof {
                assert(models[0] == args[0]@);
                lemma_fold_stays_failed(f, models, 1, n as int);
            }
            return Err(EvalError::TypeMismatch);
        },
    };
    assert(models[0] == args[0]@);
    let mut i: usize = 1;
    while i < n
        invariant
            1 <= i <= n,
            n == args.len(),
            models == views(args@),
            fold_args(f, models, i as int) == Ok::<i64, EvalFault>(acc),
        decreases n - i,
    {
        assert(models[i as int] == args[i as int]@);
        let next = match &args[i] {
            MalVal::Int(x) => compute(f, acc, *x),
            _ => None,
        };
        match next {
            Some(v) => {
                acc = v;
            },
            None => {
                proof {
                    lemma_fold_stays_failed(f, models, i + 1, n as int);
                }
                return Err(EvalError::TypeMismatch);
            },
        }
        i += 1;
    }
    Ok(MalVal::Int(acc))
}

/// Whether two environments differ in their current frame at most.
pub open spec fn same_outer(before: Scopes, after: Scopes) -> bool {
    after.len() == before.len() && after.skip(1) == before.skip(1)
}

/// Once an element has failed, more elements do not mend it.
pub proof fn lemma_items_stay_failed(xs: Seq<Datum>, n: int, m: int, env: Scopes)
    requires
        eval_items(xs, n, env).out is Err,
        0 <= n <= m <= xs.len(),
    ensures
        eval_items(xs, m, env) == eval_items(xs, n, env),
    decreases m - n,
{
    if n < m {
        lemma_items_stay_failed(xs, n, m - 1, env);
    }
}

/// Once a value has failed, more entries do not mend it.
pub proof fn lemma_entries_stay_failed(es: Seq<(DatumKey, Datum)>, n: int, m: int, env: Scopes)
    requires
        eval_entries(es, n, env).out is Err,
        0 <= n <= m <= es.len(),
    ensures
        eval_entries(es, m, env) == eval_entries(es, n, env),
    decreases m - n,
{
    if n < m {
        lemma_entries_stay_failed(es, n, m - 1, env);
    }
}

/// Once a pair has failed, more pairs do not mend it.
pub proof fn lemma_pairs_stay_failed(bs: Seq<Datum>, n: int, m: int, env: Scopes)
    requires
        bind_pairs(bs, n, env).out is Err,
        0 <= n <= m,
        2 * m <= bs.len(),
    ensures
        bind_pairs(bs, m, env) == bind_pairs(bs, n, env),
    decreases m - n,
{
    if n < m {
        lemma_pairs_stay_failed(bs, n, m - 1, env);
    }
}

/// Whether `v` is the symbol `name`.
fn is_symbol(v: &MalVal, name: &str) -> (r: bool)
    ensures
        r == (v@ == Datum::Sym(name@)),
{
    match v {
        MalVal::Sym(s) => same_text(s.as_str(), name),
        _ => false,
    }
}

/// Calls the head of `items` with the rest of them: see [`call`].
fn call_items(items: &Vec<MalVal>) -> (r: Result<MalVal, EvalError>)
    ensures
        eval_outcome(r) == call(views(items@)),
{
    let n = items.len();
    if n == 0 {
        return Err(EvalError::NotCallable);
    }
    assert(views(items@)[0] == items[0]@);
    match &items[0] {
        MalVal::Func(f) => {
            let mut args: MalArgs = Vec::new();
            let mut i: usize = 1;
            while i < n
                invariant
                    1 <= i <= n,
                    n == items.len(),
                    args@.len() == i - 1,
                    forall|k: int| 0 <= k < args@.len() ==> (#[trigger] args@[k])@ == items@[k + 1]@,
                decreases n - i,
            {
                args.push(items[i].clone());
                i += 1;
            }
            assert(views(args@) =~= views(items@).skip(1));
            op(args, *f)
        },
        MalVal::Sym(name) => Err(EvalError::NotFound(name.clone())),
        _ => Err(EvalError::NotCallable),
    }
}

/// Evaluates `ast` in `env`: see [`eval_spec`]. Only the current frame of
/// `env` can change.
pub fn eval(ast: &MalVal, env: &mut Env) -> (r: Result<MalVal, EvalError>)
    ensures
        eval_outcome(r) == eval_spec(ast@, old(env)@).out,
        final(env)@ == eval_spec(ast@, old(env)@).env,
        same_outer(old(env)@, final(env)@),
        well_formed(ast@) && scopes_well_formed(old(env)@) ==> scopes_well_formed(final(env)@) && (
        r matches Ok(v) ==> well_formed(v@)),
    decreases ast, 1int,
{
    proof {
        lemma_view_of_sequences(*ast);
        env.lemma_has_frame();
        if well_formed(ast@) && scopes_well_formed(env@) {
            law_eval_keeps_well_formed(ast@, env@);
        }
    }
    match ast {
        MalVal::List(v) => {
            if v.len() == 0 {
                return Ok(ast.clone());
            }
            assert(decreases_to!(*ast => ast->List_0));
            assert(views(v@)[0] == v[0]@);
            if is_symbol(&v[0], "def!") {
                eval_def(v, env)
            } else if is_symbol(&v[0], "let*") {
                eval_let(v, env)
            } else {
                let evaluated = match eval_ast(ast, env) {
                    Ok(x) => x,
                    Err(e) => {
                        return Err(e);
                    },
                };
                proof {
                    lemma_view_of_sequences(evaluated);
                }
                match &evaluated {
                    MalVal::List(items) => call_items(items),
                    _ => Err(EvalError::NotCallable),
                }
            }
        },
        _ => eval_ast(ast, env),
    }
}

/// Evaluates `ast` in `env` without looking for a special form or a call:
/// see [`eval_ast_spec`]. Only the current frame of `env` can change.
pub fn eval_ast(ast: &MalVal, env: &mut Env) -> (r: Result<MalVal, EvalError>)
    ensures
        eval_outcome(r) == eval_ast_spec(ast@, old(env)@).out,
        final(env)@ == eval_ast_spec(ast@, old(env)@).env,
        same_outer(old(env)@, final(env)@),
    decreases ast, 0int,
{
    proof {
        lemma_view_of_sequences(*ast);
    }
    match ast {
        MalVal::Sym(s) => env.get(s.clone()),
        MalVal::List(args) => {
            assert(decreases_to!(*ast => ast->List_0));
            match eval_each(args, env) {
                Ok(v) => Ok(list(v)),
                Err(e) => Err(e),
            }
        },
        MalVal::Vector(args) => {
            assert(decreases_to!(*ast => ast->Vector_0));
            match eval_each(args, env) {
                Ok(v) => Ok(vector(v)),
                Err(e) => Err(e),
            }
        },
        MalVal::Hash(kvs) => {
            assert(decreases_to!(*ast => ast->Hash_0));
            match eval_values(kvs, env) {
                Ok(entries) => {
                    let v = MalVal::Hash(Rc::new(entries));
                    proof {
                        lemma_view_of_sequences(v);
                    }
                    Ok(v)
                },
                Err(e) => Err(e),
            }
        },
        _ => Ok(ast.clone()),
    }
}

/// Evaluates the elements of `items` from left to right.
fn eval_each(items: &Vec<MalVal>, env: &mut Env) -> (r: Result<MalArgs, EvalError>)
    ensures
        match r {
            Ok(vs) => eval_items(views(items@), items@.len() as int, old(env)@).out == Ok::<
                Seq<Datum>,
                EvalFault,
            >(views(vs@)),
            Err(e) => eval_items(views(items@), items@.len() as int, old(env)@).out == Err::<
                Seq<Datum>,
                EvalFault,
            >(e@),
        },
        final(env)@ == eval_items(views(items@), items@.len() as int, old(env)@).env,
        same_outer(old(env)@, final(env)@),
    decreases items, 0int,
{
    let ghost xs = views(items@);
    let n = items.len();
    let mut v: MalArgs = Vec::new();
    let mut i: usize = 0;
    assert(views(v@) =~= Seq::empty());
    assert(env@.skip(1) =~= old(env)@.skip(1));
    while i < n
        invariant
            i <= n,
            n == items.len(),
            xs == views(items@),
            eval_items(xs, i as int, old(env)@).out == Ok::<Seq<Datum>, EvalFault>(views(v@)),
            eval_items(xs, i as int, old(env)@).env == env@,
            same_outer(old(env)@, env@),
        decreases n - i,
    {
        let ghost before = views(v@);
        assert(xs[i as int] == items[i as int]@);
        match eval(&items[i], env) {
            Ok(x) => {
                v.push(x);
                assert(views(v@) =~= before.push(x@));
            },
            Err(e) => {
                proof {
                    lemma_items_stay_failed(xs, i + 1, n as int, old(env)@);
                }
                return Err(e);
            },
        }
        i += 1;
    }
    Ok(v)
}

/// Evaluates the values of `entries` from left to right and keeps the
/// keys.
fn eval_values(entries: &Vec<(MapKey, MalVal)>, env: &mut Env) -> (r: Result<
    Vec<(MapKey, MalVal)>,
    EvalError,
>)
    ensures
        match r {
            Ok(vs) => eval_entries(entry_views(entries@), entries@.len() as int, old(env)@).out
                == Ok::<Seq<(DatumKey, Datum)>, EvalFault>(entry_views(vs@)),
            Err(e) => eval_entries(entry_views(entries@), entries@.len() as int, old(env)@).out
                == Err::<Seq<(DatumKey, Datum)>, EvalFault>(e@),
        },
        final(env)@ == eval_entries(entry_views(entries@), entries@.len() as int, old(env)@).env,
        same_outer(old(env)@, final(env)@),
    decreases entries, 0int,
{
    let ghost es = entry_views(entries@);
    let n = entries.len();
    let mut v: Vec<(MapKey, MalVal)> = Vec::new();
    let mut i: usize = 0;
    assert(entry_views(v@) =~= Seq::empty());
    assert(env@.skip(1) =~= old(env)@.skip(1));
    while i < n
        invariant
            i <= n,
            n == entries.len(),
            es == entry_views(entries@),
            eval_entries(es, i as int, old(env)@).out == Ok::<Seq<(DatumKey, Datum)>, EvalFault>(
                entry_views(v@),
            ),
            eval_entries(es, i as int, old(env)@).env == env@,
            same_outer(old(env)@, env@),
        decreases n - i,
    {
        let ghost before = entry_views(v@);
        assert(es[i as int] == (entries[i as int].0@, entries[i as int].1@));
        assert(decreases_to!(entries => entries[i as int]));
        assert(decreases_to!(entries[i as int] => entries[i as int].1));
        match eval(&entries[i].1, env) {
            Ok(x) => {
                let key = entries[i].0.clone();
                v.push((key, x));
                assert(entry_views(v@) =~= before.push((es[i as int].0, x@)));
            },
            Err(e) => {
                proof {
                    lemma_entries_stay_failed(es, i + 1, n as int, old(env)@);
                }
                return Err(e);
            },
        }
        i += 1;
    }
    Ok(v)
}

/// Evaluates `(def! name form)`, whose elements are `items`.
fn eval_def(items: &Vec<MalVal>, env: &mut Env) -> (r: Result<MalVal, EvalError>)
    requires
        items@.len() >= 1,
        items@[0]@ == Datum::Sym(def_name()),
    ensures
        eval_outcome(r) == eval_spec(Datum::List(views(items@)), old(env)@).out,
        final(env)@ == eval_spec(Datum::List(views(items@)), old(env)@).env,
        same_outer(old(env)@, final(env)@),
    decreases items, 0int,
{
    let ghost xs = views(items@);
    assert(xs[0] == items[0]@);
    assert(env@.skip(1) =~= old(env)@.skip(1));
    if items.len() < 3 {
        return Err(EvalError::ArityError);
    }
    assert(xs[1] == items[1]@);
    assert(xs[2] == items[2]@);
    let name = match &items[1] {
        MalVal::Sym(s) => s,
        _ => {
            return Err(EvalError::InvalidBinding);
        },
    };
    let value = match eval(&items[2], env) {
        Ok(v) => v,
        Err(e) => {
            return Err(e);
        },
    };
    proof {
        env.lemma_has_frame();
    }
    let ghost mid = env@;
    let bound = env.set(name.clone(), value);
    assert(env@.skip(1) =~= mid.skip(1));
    Ok(bound)
}

/// Binds the pairs of `bs` in the current frame of `env`, from left to
/// right: see [`bind_pairs`].
fn bind_all(bs: &Vec<MalVal>, env: &mut Env) -> (r: Result<(), EvalError>)
    requires
        bs@.len() % 2 == 0,
    ensures
        match r {
            Ok(_) => bind_pairs(views(bs@), bs@.len() as int / 2, old(env)@).out is Ok
                && final(env)@ == bind_pairs(views(bs@), bs@.len() as int / 2, old(env)@).env,
            Err(e) => bind_pairs(views(bs@), bs@.len() as int / 2, old(env)@).out == Err::<
                Datum,
                EvalFault,
            >(e@),
        },
        same_outer(old(env)@, final(env)@),
    decreases bs, 0int,
{
    let ghost xs = views(bs@);
    let pairs = bs.len() / 2;
    let mut k: usize = 0;
    assert(env@.skip(1) =~= old(env)@.skip(1));
    while k < pairs
        invariant
            k <= pairs,
            pairs * 2 == bs.len(),
            xs == views(bs@),
            bind_pairs(xs, k as int, old(env)@).out is Ok,
            bind_pairs(xs, k as int, old(env)@).env == env@,
            same_outer(old(env)@, env@),
        decreases pairs - k,
    {
        assert(xs[2 * k as int] == bs[2 * k as int]@);
        assert(xs[2 * k + 1] == bs[2 * k + 1]@);
        let name = match &bs[2 * k] {
            MalVal::Sym(s) => s,
            _ => {
                proof {
                    lemma_pairs_stay_failed(xs, k + 1, pairs as int, old(env)@);
                }
                return Err(EvalError::InvalidBinding);
            },
        };
        let value = match eval(&bs[2 * k + 1], env) {
            Ok(v) => v,
            Err(e) => {
                proof {
                    lemma_pairs_stay_failed(xs, k + 1, pairs as int, old(env)@);
                }
                return Err(e);
            },
        };
        proof {
            env.lemma_has_frame();
        }
        let ghost mid = env@;
        let _ = env.set(name.clone(), value);
        assert(env@.skip(1) =~= mid.skip(1));
        k += 1;
    }
    Ok(())
}

/// Evaluates `(let* bindings body)`, whose elements are `items`.
fn eval_let(items: &Vec<MalVal>, env: &mut Env) -> (r: Result<MalVal, EvalError>)
    requires
        items@.len() >= 1,
        items@[0]@ == Datum::Sym(let_name()),
        items@[0]@ != Datum::Sym(def_name()),
    ensures
        eval_outcome(r) == eval_spec(Datum::List(views(items@)), old(env)@).out,
        final(env)@ == eval_spec(Datum::List(views(items@)), old(env)@).env,
        same_outer(old(env)@, final(env)@),
    decreases items, 0int,
{
    let ghost xs = views(items@);
    assert(xs[0] == items[0]@);
    if items.len() < 2 {
        return Err(EvalError::ArityError);
    }
    assert(xs[1] == items[1]@);
    proof {
        lemma_view_of_sequences(items[1]);
    }
    let bindvec: &Vec<MalVal> = match &items[1] {
        MalVal::List(b) => {
            assert(decreases_to!(items[1] => items[1]->List_0));
            b
        },
        MalVal::Vector(b) => {
            assert(decreases_to!(items[1] => items[1]->Vector_0));
            b
        },
        _ => {
            return Err(EvalError::InvalidBinding);
        },
    };
    if bindvec.len() % 2 != 0 {
        return Err(EvalError::BindingMismatch);
    }
    let mut parent = make_env(None);
    std::mem::swap(env, &mut parent);
    let mut child = make_env(Some(parent));
    let bound = bind_all(bindvec, &mut child);
    let res = match bound {
        Err(e) => Err(e),
        Ok(_) => if items.len() < 3 {
            Ok(MalVal::Nil)
        } else {
            assert(xs[2] == items[2]@);
            eval(&items[2], &mut child)
        },
    };
    proof {
        old(env).lemma_has_frame();
        assert(nested(old(env)@).skip(1) =~= old(env)@);
    }
    match child.into_outer() {
        Some(o) => {
            *env = o;
        },
        None => {},
    }
    res
}

} // verus!
