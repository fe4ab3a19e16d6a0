//! After lambda lifting no two global functions have the same name: a
//! lambda is named after its place among the global functions, and a
//! function that was hoisted keeps the name that uniquification gave its
//! binder, which no other binder has.

use vstd::prelude::*;
use crate::closure::{convert, convert_bindings, convert_decls, convert_list, known_callee};
use crate::labels::lemma_numbered_same;
use crate::lambda_lift::lambda_lift_spec;
use crate::lift::{decl_scope, hoisted, hoisted_bindings, hoisted_decls, hoisted_list, lambda_name, marks, rewrite_decls};
use crate::renaming::{binding_bound_at, bound, bound_at, decl_bound_at, lemma_bound_uniq, named};
use crate::sound_uniquify::lemma_decimal_first;
use crate::syntax::{ExpV, FunDeclV, Name, Stage, binding_names, in_stage, lemma_sum_to_eq, sum_to};
use crate::table::with_names;
use crate::uniquify::{fresh, uniq};

verus! {

/// Whether a name begins as the name of a lambda does.
pub open spec fn lambda_like(x: Name) -> bool {
    x.len() > 0 && x[0] == 'l'
}

/// How many functions of a list are called `x`.
pub open spec fn times(ds: Seq<FunDeclV>, x: Name) -> nat
    decreases ds.len(),
{
    if ds.len() == 0 {
        0
    } else {
        times(ds.drop_last(), x) + named(ds.last().name, x)
    }
}

/// The functions of two lists called `x` are those of the one and those of
/// the other.
pub proof fn lemma_times_add(a: Seq<FunDeclV>, b: Seq<FunDeclV>, x: Name)
    ensures
        times(a + b, x) == times(a, x) + times(b, x),
    decreases b.len(),
{
    if b.len() == 0 {
        assert(a + b =~= a);
    } else {
        assert((a + b).drop_last() =~= a + b.drop_last());
        assert((a + b).last() == b.last());
        lemma_times_add(a, b.drop_last(), x);
    }
}

/// A list with one more function.
pub proof fn lemma_times_push(a: Seq<FunDeclV>, d: FunDeclV, x: Name)
    ensures
        times(a.push(d), x) == times(a, x) + named(d.name, x),
{
    assert(a.push(d).drop_last() =~= a);
    assert(a.push(d).last() == d);
}

/// A list that holds a function called `x` holds at least one.
pub proof fn lemma_times_one(ds: Seq<FunDeclV>, i: int, x: Name)
    requires
        0 <= i < ds.len(),
        ds[i].name == x,
    ensures
        times(ds, x) >= 1,
    decreases ds.len(),
{
    if i < ds.len() - 1 {
        assert(ds.drop_last()[i] == ds[i]);
        lemma_times_one(ds.drop_last(), i, x);
    }
}

/// A list that holds a function called `x` at two places holds at least two.
pub proof fn lemma_times_two(ds: Seq<FunDeclV>, i: int, j: int, x: Name)
    requires
        0 <= i < j < ds.len(),
        ds[i].name == x,
        ds[j].name == x,
    ensures
        times(ds, x) >= 2,
    decreases ds.len(),
{
    assert(ds.drop_last()[i] == ds[i]);
    if j < ds.len() - 1 {
        assert(ds.drop_last()[j] == ds[j]);
        lemma_times_two(ds.drop_last(), i, j, x);
    } else {
        lemma_times_one(ds.drop_last(), i, x);
    }
}

/// The name of a lambda begins as its prefix does.
pub proof fn lemma_lambda_like(n: nat)
    ensures
        lambda_like(lambda_name(n)),
{
    reveal_strlit("lambda_");
    crate::labels::lemma_numbered_first("lambda_"@, n);
}

/// Among the functions that an expression gives rise to, those called `x`
/// are at most as many as the binders of the expression that bind `x`, if
/// `x` is no name of a lambda.
pub proof fn lemma_hoisted_times(
    e: ExpV,
    vars: Seq<Name>,
    funs: Map<Name, usize>,
    need: Set<Name>,
    g: nat,
    x: Name,
)
    requires
        !lambda_like(x),
    ensures
        times(hoisted(e, vars, funs, need, g), x) <= bound(e, x),
    decreases e, 0nat,
{
    match e {
        ExpV::Prim(_, es) => {
            lemma_hoisted_list_times(es, es.len(), vars, funs, need, g, x);
        },
        ExpV::DirectCall(_, args) => {
            lemma_hoisted_list_times(args, args.len(), vars, funs, need, g, x);
        },
        ExpV::ClosureCall(f, args) => {
            let first = hoisted(*f, vars, funs, need, g);
            let rest = hoisted_list(args, args.len(), vars, funs, need, g + first.len());
            lemma_hoisted_times(*f, vars, funs, need, g, x);
            lemma_hoisted_list_times(args, args.len(), vars, funs, need, g + first.len(), x);
            lemma_times_add(first, rest, x);
        },
        ExpV::MakeClosure { env, .. } => {
            lemma_hoisted_times(*env, vars, funs, need, g, x);
        },
        ExpV::If { cond, thn, els } => {
            let h0 = hoisted(*cond, vars, funs, need, g);
            let h1 = hoisted(*thn, vars, funs, need, g + h0.len());
            let h2 = hoisted(*els, vars, funs, need, g + h0.len() + h1.len());
            lemma_hoisted_times(*cond, vars, funs, need, g, x);
            lemma_hoisted_times(*thn, vars, funs, need, g + h0.len(), x);
            lemma_hoisted_times(*els, vars, funs, need, g + h0.len() + h1.len(), x);
            lemma_times_add(h0, h1, x);
            lemma_times_add(h0 + h1, h2, x);
        },
        ExpV::Let { bindings, body } => {
            let first = hoisted_bindings(bindings, bindings.len(), vars, funs, need, g);
            let scope = with_names(vars, binding_names(bindings), bindings.len());
            let rest = hoisted(*body, scope, funs, need, g + first.len());
            lemma_hoisted_bindings_times(bindings, bindings.len(), vars, funs, need, g, x);
            lemma_hoisted_times(*body, scope, funs, need, g + first.len(), x);
            lemma_times_add(first, rest, x);
        },
        ExpV::FunDefs { decls, body } => {
            let inner = crate::lift::declare(funs, decls, decls.len(), vars, need);
            let first = hoisted_decls(decls, decls.len(), vars, inner, need, g);
            let rest = hoisted(*body, vars, inner, need, g + first.len());
            lemma_hoisted_decls_times(decls, decls.len(), vars, inner, need, g, x);
            lemma_hoisted_times(*body, vars, inner, need, g + first.len(), x);
            lemma_times_add(first, rest, x);
        },
        ExpV::Lambda { parameters, body } => {
            let scope = decl_scope(vars, parameters);
            let inner = hoisted(*body, scope, funs, need, g);
            lemma_hoisted_times(*body, scope, funs, need, g, x);
            lemma_lambda_like(g + inner.len());
            let global = hoisted(e, vars, funs, need, g).last();
            assert(hoisted(e, vars, funs, need, g) == inner.push(global));
            lemma_times_push(inner, global, x);
        },
        _ => {},
    }
}

/// [`lemma_hoisted_times`] for the first `n` expressions of a list.
pub proof fn lemma_hoisted_list_times(
    es: Seq<ExpV>,
    n: nat,
    vars: Seq<Name>,
    funs: Map<Name, usize>,
    need: Set<Name>,
    g: nat,
    x: Name,
)
    requires
        !lambda_like(x),
        n <= es.len(),
    ensures
        times(hoisted_list(es, n, vars, funs, need, g), x) <= sum_to(n, bound_at(es, x)),
    decreases es, n,
{
    if n > 0 {
        let prev = hoisted_list(es, (n - 1) as nat, vars, funs, need, g);
        let last = hoisted(es[n - 1], vars, funs, need, g + prev.len());
        lemma_hoisted_list_times(es, (n - 1) as nat, vars, funs, need, g, x);
        lemma_hoisted_times(es[n - 1], vars, funs, need, g + prev.len(), x);
        lemma_times_add(prev, last, x);
    }
}

/// [`lemma_hoisted_times`] for the first `n` bindings of a `let`.
pub proof fn lemma_hoisted_bindings_times(
    bs: Seq<(Name, ExpV)>,
    n: nat,
    vars: Seq<Name>,
    funs: Map<Name, usize>,
    need: Set<Name>,
    g: nat,
    x: Name,
)
    requires
        !lambda_like(x),
        n <= bs.len(),
    ensures
        times(hoisted_bindings(bs, n, vars, funs, need, g), x) <= sum_to(n, binding_bound_at(bs, x)),
    decreases bs, n,
{
    if n > 0 {
        let prev = hoisted_bindings(bs, (n - 1) as nat, vars, funs, need, g);
        let scope = with_names(vars, binding_names(bs), (n - 1) as nat);
        let last = hoisted(bs[n - 1].1, scope, funs, need, g + prev.len());
        lemma_hoisted_bindings_times(bs, (n - 1) as nat, vars, funs, need, g, x);
        lemma_hoisted_times(bs[n - 1].1, scope, funs, need, g + prev.len(), x);
        lemma_times_add(prev, last, x);
    }
}

/// [`lemma_hoisted_times`] for the first `n` functions of a group.
pub proof fn lemma_hoisted_decls_times(
    ds: Seq<FunDeclV>,
    n: nat,
    vars: Seq<Name>,
    funs: Map<Name, usize>,
    need: Set<Name>,
    g: nat,
    x: Name,
)
    requires
        !lambda_like(x),
        n <= ds.len(),
    ensures
        times(hoisted_decls(ds, n, vars, funs, need, g), x) <= sum_to(n, decl_bound_at(ds, x)),
    decreases ds, n,
{
    if n > 0 {
        let prev = hoisted_decls(ds, (n - 1) as nat, vars, funs, need, g);
        let d = ds[n - 1];
        let scope = decl_scope(vars, d.parameters);
        let inner = hoisted(d.body, scope, funs, need, g + prev.len());
        lemma_hoisted_decls_times(ds, (n - 1) as nat, vars, funs, need, g, x);
        lemma_hoisted_times(d.body, scope, funs, need, g + prev.len(), x);
        lemma_times_add(prev, inner, x);
        if need.contains(d.name) {
            let all = hoisted_decls(ds, n, vars, funs, need, g);
            let global = all.last();
            assert(all == (prev + inner).push(global));
            assert(global.name == d.name);
            lemma_times_push(prev + inner, global, x);
        }
    }
}

/// Whether a function at place `j` among those that came of something has
/// the name of the lambda of that place, or the name of a binder: `count`
/// says how many binders of that something bind the name.
pub open spec fn placed_name(name: Name, g: nat, j: int, count: nat) -> bool {
    name == lambda_name((g + j) as nat) || count >= 1
}

/// Each function that an expression gives rise to has the name of the
/// lambda of its place among the global functions, or the name of a binder
/// of the expression.
pub proof fn lemma_hoisted_named(
    e: ExpV,
    vars: Seq<Name>,
    funs: Map<Name, usize>,
    need: Set<Name>,
    g: nat,
    j: int,
)
    requires
        0 <= j < hoisted(e, vars, funs, need, g).len(),
    ensures
        ({
            let name = hoisted(e, vars, funs, need, g)[j].name;
            placed_name(name, g, j, bound(e, name))
        }),
    decreases e, 0nat,
{
    let name = hoisted(e, vars, funs, need, g)[j].name;
    match e {
        ExpV::Prim(_, es) => {
            lemma_hoisted_list_named(es, es.len(), vars, funs, need, g, j);
        },
        ExpV::DirectCall(_, args) => {
            lemma_hoisted_list_named(args, args.len(), vars, funs, need, g, j);
        },
        ExpV::ClosureCall(f, args) => {
            let first = hoisted(*f, vars, funs, need, g);
            if j < first.len() {
                lemma_hoisted_named(*f, vars, funs, need, g, j);
            } else {
                lemma_hoisted_list_named(
                    args,
                    args.len(),
                    vars,
                    funs,
                    need,
                    g + first.len(),
                    j - first.len(),
                );
            }
        },
        ExpV::MakeClosure { env, .. } => {
            lemma_hoisted_named(*env, vars, funs, need, g, j);
        },
        ExpV::If { cond, thn, els } => {
            let h0 = hoisted(*cond, vars, funs, need, g);
            let h1 = hoisted(*thn, vars, funs, need, g + h0.len());
            if j < h0.len() {
                lemma_hoisted_named(*cond, vars, funs, need, g, j);
            } else if j < h0.len() + h1.len() {
                lemma_hoisted_named(*thn, vars, funs, need, g + h0.len(), j - h0.len());
            } else {
                lemma_hoisted_named(
                    *els,
                    vars,
                    funs,
                    need,
                    g + h0.len() + h1.len(),
                    j - h0.len() - h1.len(),
                );
            }
        },
        ExpV::Let { bindings, body } => {
            let first = hoisted_bindings(bindings, bindings.len(), vars, funs, need, g);
            let scope = with_names(vars, binding_names(bindings), bindings.len());
            if j < first.len() {
                lemma_hoisted_bindings_named(bindings, bindings.len(), vars, funs, need, g, j);
            } else {
                lemma_hoisted_named(*body, scope, funs, need, g + first.len(), j - first.len());
            }
        },
        ExpV::FunDefs { decls, body } => {
            let inner = crate::lift::declare(funs, decls, decls.len(), vars, need);
            let first = hoisted_decls(decls, decls.len(), vars, inner, need, g);
            if j < first.len() {
                lemma_hoisted_decls_named(decls, decls.len(), vars, inner, need, g, j);
            } else {
                lemma_hoisted_named(*body, vars, inner, need, g + first.len(), j - first.len());
            }
        },
        ExpV::Lambda { parameters, body } => {
            let scope = decl_scope(vars, parameters);
            let inner = hoisted(*body, scope, funs, need, g);
            if j < inner.len() {
                lemma_hoisted_named(*body, scope, funs, need, g, j);
            }
        },
        _ => {},
    }
}

/// [`lemma_hoisted_named`] for the first `n` expressions of a list.
pub proof fn lemma_hoisted_list_named(
    es: Seq<ExpV>,
    n: nat,
    vars: Seq<Name>,
    funs: Map<Name, usize>,
    need: Set<Name>,
    g: nat,
    j: int,
)
    requires
        n <= es.len(),
        0 <= j < hoisted_list(es, n, vars, funs, need, g).len(),
    ensures
        ({
            let name = hoisted_list(es, n, vars, funs, need, g)[j].name;
            placed_name(name, g, j, sum_to(n, bound_at(es, name)))
        }),
    decreases es, n,
{
    if n > 0 {
        let prev = hoisted_list(es, (n - 1) as nat, vars, funs, need, g);
        if j < prev.len() {
            lemma_hoisted_list_named(es, (n - 1) as nat, vars, funs, need, g, j);
        } else {
            lemma_hoisted_named(es[n - 1], vars, funs, need, g + prev.len(), j - prev.len());
        }
    }
}

/// [`lemma_hoisted_named`] for the first `n` bindings of a `let`.
pub proof fn lemma_hoisted_bindings_named(
    bs: Seq<(Name, ExpV)>,
    n: nat,
    vars: Seq<Name>,
    funs: Map<Name, usize>,
    need: Set<Name>,
    g: nat,
    j: int,
)
    requires
        n <= bs.len(),
        0 <= j < hoisted_bindings(bs, n, vars, funs, need, g).len(),
    ensures
        ({
            let name = hoisted_bindings(bs, n, vars, funs, need, g)[j].name;
            placed_name(name, g, j, sum_to(n, binding_bound_at(bs, name)))
        }),
    decreases bs, n,
{
    if n > 0 {
        let prev = hoisted_bindings(bs, (n - 1) as nat, vars, funs, need, g);
        let scope = with_names(vars, binding_names(bs), (n - 1) as nat);
        if j < prev.len() {
            lemma_hoisted_bindings_named(bs, (n - 1) as nat, vars, funs, need, g, j);
        } else {
            lemma_hoisted_named(bs[n - 1].1, scope, funs, need, g + prev.len(), j - prev.len());
        }
    }
}

/// [`lemma_hoisted_named`] for the first `n` functions of a group.
pub proof fn lemma_hoisted_decls_named(
    ds: Seq<FunDeclV>,
    n: nat,
    vars: Seq<Name>,
    funs: Map<Name, usize>,
    need: Set<Name>,
    g: nat,
    j: int,
)
    requires
        n <= ds.len(),
        0 <= j < hoisted_decls(ds, n, vars, funs, need, g).len(),
    ensures
        ({
            let name = hoisted_decls(ds, n, vars, funs, need, g)[j].name;
            placed_name(name, g, j, sum_to(n, decl_bound_at(ds, name)))
        }),
    decreases ds, n,
{
    if n > 0 {
        let prev = hoisted_decls(ds, (n - 1) as nat, vars, funs, need, g);
        let d = ds[n - 1];
        let scope = decl_scope(vars, d.parameters);
        let inner = hoisted(d.body, scope, funs, need, g + prev.len());
        if j < prev.len() {
            lemma_hoisted_decls_named(ds, (n - 1) as nat, vars, funs, need, g, j);
        } else if j < prev.len() + inner.len() {
            lemma_hoisted_named(d.body, scope, funs, need, g + prev.len(), j - prev.len());
        }
    }
}

/// Closure conversion changes no binder.
pub proof fn lemma_convert_bound_same(e: ExpV, funcs: Map<Name, usize>, x: Name)
    ensures
        bound(convert(e, funcs), x) == bound(e, x),
    decreases e,
{
    match e {
        ExpV::Prim(_, es) => {
            lemma_convert_list_bound_same(es, funcs, x);
        },
        ExpV::Call(f, args) => {
            lemma_convert_list_bound_same(args, funcs, x);
            lemma_convert_bound_same(*f, funcs, x);
            match known_callee(*f, funcs) {
                Some(_) => {
                    assert(*f is Var);
                    assert(bound(*f, x) == 0);
                },
                None => {},
            }
        },
        ExpV::If { cond, thn, els } => {
            lemma_convert_bound_same(*cond, funcs, x);
            lemma_convert_bound_same(*thn, funcs, x);
            lemma_convert_bound_same(*els, funcs, x);
        },
        ExpV::Lambda { body, .. } => {
            lemma_convert_bound_same(*body, funcs, x);
        },
        ExpV::Let { bindings, body } => {
            let out = convert_bindings(bindings, funcs);
            assert forall|i: int| 0 <= i < bindings.len() implies #[trigger] binding_bound_at(
                out,
                x,
            )(i) == binding_bound_at(bindings, x)(i) by {
                lemma_convert_bound_same(bindings[i].1, funcs, x);
            }
            lemma_sum_to_eq(bindings.len(), binding_bound_at(out, x), binding_bound_at(bindings, x));
            lemma_convert_bound_same(*body, funcs, x);
        },
        ExpV::FunDefs { decls, body } => {
            let inner = crate::closure::with_decls(funcs, decls, decls.len());
            let out = convert_decls(decls, inner);
            assert forall|i: int| 0 <= i < decls.len() implies #[trigger] decl_bound_at(out, x)(i)
                == decl_bound_at(decls, x)(i) by {
                lemma_convert_bound_same(decls[i].body, inner, x);
            }
            lemma_sum_to_eq(decls.len(), decl_bound_at(out, x), decl_bound_at(decls, x));
            lemma_convert_bound_same(*body, inner, x);
        },
        ExpV::Var(v) => {
            if funcs.contains_key(v) {
                let made = convert(e, funcs);
                let env = *made->MakeClosure_env;
                assert(env->Prim_1.len() == 0);
                assert(bound(env, x) == 0);
            }
        },
        _ => {},
    }
}

/// [`lemma_convert_bound_same`] for a list of expressions.
pub proof fn lemma_convert_list_bound_same(es: Seq<ExpV>, funcs: Map<Name, usize>, x: Name)
    ensures
        sum_to(es.len(), bound_at(convert_list(es, funcs), x)) == sum_to(es.len(), bound_at(es, x)),
    decreases es,
{
    let out = convert_list(es, funcs);
    assert forall|i: int| 0 <= i < es.len() implies #[trigger] bound_at(out, x)(i) == bound_at(
        es,
        x,
    )(i) by {
        lemma_convert_bound_same(es[i], funcs, x);
    }
    lemma_sum_to_eq(es.len(), bound_at(out, x), bound_at(es, x));
}

/// After lambda lifting no two global functions have the same name.
pub proof fn lemma_globals_distinct(p: ExpV, i: int, j: int)
    requires
        in_stage(p, Stage::Surface),
        0 <= i < j < lambda_lift_spec(p).0.len(),
    ensures
        lambda_lift_spec(p).0[i].name != lambda_lift_spec(p).0[j].name,
{
    let unique = uniq(p, Map::empty(), 0);
    let converted = convert(unique, Map::empty());
    let need = marks(converted, Set::empty(), Set::empty(), true);
    let globals = hoisted(converted, Seq::empty(), Map::empty(), need, 0);
    let out = rewrite_decls(globals, globals);
    assert(out == lambda_lift_spec(p).0);
    assert(out[i].name == globals[i].name && out[j].name == globals[j].name);
    let x = globals[i].name;
    if globals[j].name == x {
        lemma_hoisted_named(converted, Seq::empty(), Map::empty(), need, 0, i);
        lemma_hoisted_named(converted, Seq::empty(), Map::empty(), need, 0, j);
        lemma_convert_bound_same(unique, Map::empty(), x);
        lemma_bound_uniq(p, Map::empty(), 0, x);
        if bound(converted, x) >= 1 {
            let k = choose|k: nat| 0 < k <= 0 + crate::syntax::binders(p) && #[trigger] fresh(k) == x;
            lemma_decimal_first(k);
            assert(!lambda_like(x));
            lemma_hoisted_times(converted, Seq::empty(), Map::empty(), need, 0, x);
            lemma_times_two(globals, i, j, x);
        } else {
            lemma_numbered_same("lambda_"@, i as nat, j as nat);
        }
    }
}

} // verus!
