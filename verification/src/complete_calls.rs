//! A program that calls no function with fewer arguments than the function
//! was declared with has, after hoisting, no call of a global function that
//! leaves a parameter open: the call passes on what the function captures,
//! and the global function has the parameters it was declared with and those
//! it captures, no more.

use vstd::prelude::*;
use crate::closed::{all_calls_complete, all_targets_known, calls_complete, each_within, hoisted_program, lemma_convert_targets, lemma_hoisted_bindings_part, lemma_hoisted_decls_part, lemma_hoisted_list_part, lemma_with_decls_dom, lemma_within_parts, lemma_within_trans, program_complete, targets_known};
use crate::closure::{convert, with_decls};
use crate::global_names::{lambda_like, lemma_convert_bound_same, lemma_globals_distinct, lemma_lambda_like};
use crate::lift::{captured, captures, declare, decl_scope, env_bindings, find_decl, hoisted, hoisted_bindings, hoisted_decls, hoisted_list, kept_decls, lift, lift_bindings, lift_list, marks, passed};
use crate::renaming::{binding_bound_at, bound, bound_at, decl_bound_at, lemma_bound_uniq, lemma_uniq_stage};
use crate::sound_uniquify::lemma_decimal_first;
use crate::syntax::{ExpV, FunDeclV, Name, Stage, binders, binding_names, decl_names, in_stage, sum_to};
use crate::table::{lemma_with_names_len, with_names};
use crate::uniquify::{fresh, uniq};
use crate::whole_groups::lemma_sum_one;

verus! {

/// Whether every direct call of an expression passes at least as many
/// arguments as the function that it names was declared with. `ar` gives
/// each function in scope the number of its parameters.
pub open spec fn arities_kept(e: ExpV, ar: Map<Name, usize>) -> bool
    decreases e,
{
    match e {
        ExpV::Prim(_, es) => all_arities_kept(es, ar),
        ExpV::Let { bindings, body } => (forall|i: int|
            0 <= i < bindings.len() ==> arities_kept((#[trigger] bindings[i]).1, ar))
            && arities_kept(*body, ar),
        ExpV::If { cond, thn, els } => arities_kept(*cond, ar) && arities_kept(*thn, ar)
            && arities_kept(*els, ar),
        ExpV::FunDefs { decls, body } => {
            let inner = with_decls(ar, decls, decls.len());
            (forall|i: int| 0 <= i < decls.len() ==> arities_kept((#[trigger] decls[i]).body, inner))
                && arities_kept(*body, inner)
        },
        ExpV::Lambda { body, .. } => arities_kept(*body, ar),
        ExpV::MakeClosure { env, .. } => arities_kept(*env, ar),
        ExpV::ClosureCall(f, args) => arities_kept(*f, ar) && all_arities_kept(args, ar),
        ExpV::DirectCall(f, args) => ar.contains_key(f) && ar[f] <= args.len() && all_arities_kept(
            args,
            ar,
        ),
        _ => true,
    }
}

/// [`arities_kept`] of every expression of a list.
pub open spec fn all_arities_kept(es: Seq<ExpV>, ar: Map<Name, usize>) -> bool
    decreases es,
{
    forall|i: int| 0 <= i < es.len() ==> arities_kept(#[trigger] es[i], ar)
}

/// Whether no two functions of a list have the same name.
pub open spec fn distinct(globals: Seq<FunDeclV>) -> bool {
    forall|i: int, j: int|
        0 <= i < j < globals.len() ==> (#[trigger] globals[i]).name != (#[trigger] globals[j]).name
}

/// Whether every global function is one that was named for the top level,
/// or has the name of a lambda.
pub open spec fn sorted_out(need: Set<Name>, globals: Seq<FunDeclV>) -> bool {
    forall|j: int|
        0 <= j < globals.len() ==> need.contains((#[trigger] globals[j]).name) || lambda_like(
            globals[j].name,
        )
}

/// Whether each function in scope is known with what its calls pass on:
/// no more variables than are in scope, and as many as the global function
/// of its name has parameters beyond those it was declared with.
pub open spec fn tallied(
    ar: Map<Name, usize>,
    funs: Map<Name, usize>,
    width: nat,
    globals: Seq<FunDeclV>,
) -> bool {
    forall|f: Name| #[trigger]
        ar.contains_key(f) ==> funs.contains_key(f) && funs[f] <= width && (find_decl(
            globals,
            f,
        ) matches Some(d) ==> d.parameters.len() == ar[f] + funs[f])
}

/// The function that is found by a name has that name and is one of the
/// list.
pub proof fn lemma_find_decl_in(globals: Seq<FunDeclV>, f: Name) -> (m: int)
    requires
        find_decl(globals, f) is Some,
    ensures
        0 <= m < globals.len(),
        find_decl(globals, f) == Some(globals[m]),
        globals[m].name == f,
    decreases globals.len(),
{
    if globals.last().name == f {
        globals.len() - 1
    } else {
        let m = lemma_find_decl_in(globals.drop_last(), f);
        assert(globals.drop_last()[m] == globals[m]);
        m
    }
}

/// Where no two functions have the same name, a function is found by its
/// name.
pub proof fn lemma_find_decl_only(globals: Seq<FunDeclV>, m: int)
    requires
        distinct(globals),
        0 <= m < globals.len(),
    ensures
        find_decl(globals, globals[m].name) == Some(globals[m]),
{
    crate::closed::lemma_find_decl_some(globals, m);
    let k = lemma_find_decl_in(globals, globals[m].name);
    if k < m {
        assert(globals[k].name != globals[m].name);
    } else if m < k {
        assert(globals[m].name != globals[k].name);
    }
}

/// What a declared group says of a name: of a function of the group what
/// its calls pass on, of another name what was said before.
pub proof fn lemma_declare_at(
    funs: Map<Name, usize>,
    ds: Seq<FunDeclV>,
    n: nat,
    vars: Seq<Name>,
    need: Set<Name>,
    f: Name,
)
    requires
        n <= ds.len(),
    ensures
        (exists|i: int| 0 <= i < n && (#[trigger] ds[i]).name == f) ==> declare(
            funs,
            ds,
            n,
            vars,
            need,
        ).contains_key(f) && declare(funs, ds, n, vars, need)[f] == captures(f, vars, need),
        !(exists|i: int| 0 <= i < n && (#[trigger] ds[i]).name == f) ==> declare(
            funs,
            ds,
            n,
            vars,
            need,
        ).contains_key(f) == funs.contains_key(f) && declare(funs, ds, n, vars, need)[f] == funs[f],
    decreases n,
{
    if n > 0 {
        lemma_declare_at(funs, ds, (n - 1) as nat, vars, need, f);
        if ds[n - 1].name == f {
            assert(ds[n - 1].name == f);
        } else if exists|i: int| 0 <= i < n && (#[trigger] ds[i]).name == f {
            let i = choose|i: int| 0 <= i < n && (#[trigger] ds[i]).name == f;
            assert(0 <= i < n - 1 && ds[i].name == f);
        }
    }
}

/// What the arities of a group say of a name: of a function of the group
/// the number of parameters of one of that name, of another name what was
/// said before.
pub proof fn lemma_arity_at(ar: Map<Name, usize>, ds: Seq<FunDeclV>, n: nat, f: Name)
    requires
        n <= ds.len(),
    ensures
        (exists|i: int| 0 <= i < n && (#[trigger] ds[i]).name == f) ==> with_decls(
            ar,
            ds,
            n,
        ).contains_key(f) && exists|i: int|
            0 <= i < n && (#[trigger] ds[i]).name == f && with_decls(ar, ds, n)[f]
                == ds[i].parameters.len() as usize,
        !(exists|i: int| 0 <= i < n && (#[trigger] ds[i]).name == f) ==> with_decls(
            ar,
            ds,
            n,
        ).contains_key(f) == ar.contains_key(f) && with_decls(ar, ds, n)[f] == ar[f],
    decreases n,
{
    if n > 0 {
        lemma_arity_at(ar, ds, (n - 1) as nat, f);
        if ds[n - 1].name == f {
            assert(ds[n - 1].name == f && with_decls(ar, ds, n)[f] == ds[n - 1].parameters.len() as usize);
        } else if exists|i: int| 0 <= i < n && (#[trigger] ds[i]).name == f {
            let i = choose|i: int| 0 <= i < n && (#[trigger] ds[i]).name == f;
            assert(0 <= i < n - 1 && ds[i].name == f);
            let k = choose|k: int|
                0 <= k < n - 1 && (#[trigger] ds[k]).name == f && with_decls(ar, ds, (n - 1) as nat)[f]
                    == ds[k].parameters.len() as usize;
            assert(0 <= k < n && ds[k].name == f && with_decls(ar, ds, n)[f] == ds[k].parameters.len() as usize);
        }
    }
}

/// A function that stays local is what is left of a function of the group.
pub proof fn lemma_kept_origin(
    ds: Seq<FunDeclV>,
    n: nat,
    vars: Seq<Name>,
    funs: Map<Name, usize>,
    need: Set<Name>,
    g: nat,
    j: int,
) -> (i: int)
    requires
        n <= ds.len(),
        0 <= j < kept_decls(ds, n, vars, funs, need, g).len(),
    ensures
        0 <= i < n,
        kept_decls(ds, n, vars, funs, need, g)[j].body == lift(
            ds[i].body,
            decl_scope(vars, ds[i].parameters),
            funs,
            need,
            g + hoisted_decls(ds, i as nat, vars, funs, need, g).len(),
        ),
    decreases n,
{
    let prev = kept_decls(ds, (n - 1) as nat, vars, funs, need, g);
    if j < prev.len() {
        let i = lemma_kept_origin(ds, (n - 1) as nat, vars, funs, need, g, j);
        assert(kept_decls(ds, n, vars, funs, need, g)[j] == prev[j]);
        i
    } else {
        n - 1
    }
}

/// What is tallied with some variables in scope is tallied with more.
pub proof fn lemma_tallied_wider(
    ar: Map<Name, usize>,
    funs: Map<Name, usize>,
    width: nat,
    wider: nat,
    globals: Seq<FunDeclV>,
)
    requires
        tallied(ar, funs, width, globals),
        width <= wider,
    ensures
        tallied(ar, funs, wider, globals),
{
}

/// Each function that an expression gives rise to was named for the top
/// level, or has the name of a lambda.
pub proof fn lemma_hoisted_sorted(
    e: ExpV,
    vars: Seq<Name>,
    funs: Map<Name, usize>,
    need: Set<Name>,
    g: nat,
    j: int,
)
    requires
        0 <= j < hoisted(e, vars, funs, need, g).len(),
    ensures
        need.contains(hoisted(e, vars, funs, need, g)[j].name) || lambda_like(
            hoisted(e, vars, funs, need, g)[j].name,
        ),
    decreases e, 0nat,
{
    match e {
        ExpV::Prim(_, es) => {
            lemma_hoisted_list_sorted(es, es.len(), vars, funs, need, g, j);
        },
        ExpV::DirectCall(_, args) => {
            lemma_hoisted_list_sorted(args, args.len(), vars, funs, need, g, j);
        },
        ExpV::ClosureCall(f, args) => {
            let first = hoisted(*f, vars, funs, need, g);
            if j < first.len() {
                lemma_hoisted_sorted(*f, vars, funs, need, g, j);
            } else {
                lemma_hoisted_list_sorted(
                    args,
                    args.len(),
                    vars,
                    funs,
                    need,
                    g + first.len(),
                    j - first.len(),
                );
            }
        },
        ExpV::MakeClosure { env, .. } => {
            lemma_hoisted_sorted(*env, vars, funs, need, g, j);
        },
        ExpV::If { cond, thn, els } => {
            let h0 = hoisted(*cond, vars, funs, need, g);
            let h1 = hoisted(*thn, vars, funs, need, g + h0.len());
            if j < h0.len() {
                lemma_hoisted_sorted(*cond, vars, funs, need, g, j);
            } else if j < h0.len() + h1.len() {
                lemma_hoisted_sorted(*thn, vars, funs, need, g + h0.len(), j - h0.len());
            } else {
                lemma_hoisted_sorted(
                    *els,
                    vars,
                    funs,
                    need,
                    g + h0.len() + h1.len(),
                    j - h0.len() - h1.len(),
                );
            }
        },
        ExpV::Let { bindings, body } => {
            let first = hoisted_bindings(bindings, bindings.len(), vars, funs, need, g);
            let scope = with_names(vars, binding_names(bindings), bindings.len());
            if j < first.len() {
                lemma_hoisted_bindings_sorted(bindings, bindings.len(), vars, funs, need, g, j);
            } else {
                lemma_hoisted_sorted(*body, scope, funs, need, g + first.len(), j - first.len());
            }
        },
        ExpV::FunDefs { decls, body } => {
            let inner = crate::lift::declare(funs, decls, decls.len(), vars, need);
            let first = hoisted_decls(decls, decls.len(), vars, inner, need, g);
            if j < first.len() {
                lemma_hoisted_decls_sorted(decls, decls.len(), vars, inner, need, g, j);
            } else {
                lemma_hoisted_sorted(*body, vars, inner, need, g + first.len(), j - first.len());
            }
        },
        ExpV::Lambda { parameters, body } => {
            let scope = decl_scope(vars, parameters);
            let inner = hoisted(*body, scope, funs, need, g);
            if j < inner.len() {
                lemma_hoisted_sorted(*body, scope, funs, need, g, j);
            } else {
                lemma_lambda_like(g + inner.len());
            }
        },
        _ => {},
    }
}

/// [`lemma_hoisted_sorted`] for the first `n` expressions of a list.
pub proof fn lemma_hoisted_list_sorted(
    es: Seq<ExpV>,
    n: nat,
    vars: Seq<Name>,
    funs: Map<Name, usize>,
    need: Set<Name>,
    g: nat,
    j: int,
)
    requires
        n <= es.len(),
        0 <= j < hoisted_list(es, n, vars, funs, need, g).len(),
    ensures
        need.contains(hoisted_list(es, n, vars, funs, need, g)[j].name) || lambda_like(
            hoisted_list(es, n, vars, funs, need, g)[j].name,
        ),
    decreases es, n,
{
    if n > 0 {
        let prev = hoisted_list(es, (n - 1) as nat, vars, funs, need, g);
        if j < prev.len() {
            lemma_hoisted_list_sorted(es, (n - 1) as nat, vars, funs, need, g, j);
        } else {
            lemma_hoisted_sorted(es[n - 1], vars, funs, need, g + prev.len(), j - prev.len());
        }
    }
}

/// [`lemma_hoisted_sorted`] for the first `n` bindings of a `let`.
pub proof fn lemma_hoisted_bindings_sorted(
    bs: Seq<(Name, ExpV)>,
    n: nat,
    vars: Seq<Name>,
    funs: Map<Name, usize>,
    need: Set<Name>,
    g: nat,
    j: int,
)
    requires
        n <= bs.len(),
        0 <= j < hoisted_bindings(bs, n, vars, funs, need, g).len(),
    ensures
        need.contains(hoisted_bindings(bs, n, vars, funs, need, g)[j].name) || lambda_like(
            hoisted_bindings(bs, n, vars, funs, need, g)[j].name,
        ),
    decreases bs, n,
{
    if n > 0 {
        let prev = hoisted_bindings(bs, (n - 1) as nat, vars, funs, need, g);
        let scope = with_names(vars, binding_names(bs), (n - 1) as nat);
        if j < prev.len() {
            lemma_hoisted_bindings_sorted(bs, (n - 1) as nat, vars, funs, need, g, j);
        } else {
            lemma_hoisted_sorted(bs[n - 1].1, scope, funs, need, g + prev.len(), j - prev.len());
        }
    }
}

/// [`lemma_hoisted_sorted`] for the first `n` functions of a group.
pub proof fn lemma_hoisted_decls_sorted(
    ds: Seq<FunDeclV>,
    n: nat,
    vars: Seq<Name>,
    funs: Map<Name, usize>,
    need: Set<Name>,
    g: nat,
    j: int,
)
    requires
        n <= ds.len(),
        0 <= j < hoisted_decls(ds, n, vars, funs, need, g).len(),
    ensures
        need.contains(hoisted_decls(ds, n, vars, funs, need, g)[j].name) || lambda_like(
            hoisted_decls(ds, n, vars, funs, need, g)[j].name,
        ),
    decreases ds, n,
{
    if n > 0 {
        let prev = hoisted_decls(ds, (n - 1) as nat, vars, funs, need, g);
        let d = ds[n - 1];
        let scope = decl_scope(vars, d.parameters);
        let inner = hoisted(d.body, scope, funs, need, g + prev.len());
        if j < prev.len() {
            lemma_hoisted_decls_sorted(ds, (n - 1) as nat, vars, funs, need, g, j);
        } else if j < prev.len() + inner.len() {
            lemma_hoisted_sorted(d.body, scope, funs, need, g + prev.len(), j - prev.len());
        }
    }
}

/// What the proof asks of an expression at its place: its calls name
/// functions in scope with enough arguments, the functions in scope are
/// tallied, what the expression gives rise to is among the global functions,
/// which have names of their own and are sorted out, no binder has the name
/// of a lambda, and the variables in scope and the binders fit a machine
/// word.
pub open spec fn ready(
    e: ExpV,
    vars: Seq<Name>,
    funs: Map<Name, usize>,
    ar: Map<Name, usize>,
    need: Set<Name>,
    g: nat,
    globals: Seq<FunDeclV>,
) -> bool {
    &&& targets_known(e, ar.dom())
    &&& arities_kept(e, ar)
    &&& tallied(ar, funs, vars.len(), globals)
    &&& each_within(hoisted(e, vars, funs, need, g), globals)
    &&& distinct(globals)
    &&& sorted_out(need, globals)
    &&& forall|x: Name| #[trigger] bound(e, x) >= 1 ==> !lambda_like(x)
    &&& vars.len() + binders(e) <= u32::MAX
}

/// What the proof gives: every call of a global function in what is left of
/// the expression, and in the functions that it gives rise to, is complete.
pub open spec fn settled(
    e: ExpV,
    vars: Seq<Name>,
    funs: Map<Name, usize>,
    need: Set<Name>,
    g: nat,
    globals: Seq<FunDeclV>,
) -> bool {
    &&& calls_complete(lift(e, vars, funs, need, g), globals)
    &&& forall|j: int|
        0 <= j < hoisted(e, vars, funs, need, g).len() ==> calls_complete(
            (#[trigger] hoisted(e, vars, funs, need, g)[j]).body,
            globals,
        )
}

/// The variables in scope, passed on, make no calls.
pub proof fn lemma_captured_complete(vars: Seq<Name>, globals: Seq<FunDeclV>)
    ensures
        all_calls_complete(captured(vars), globals),
{
    assert forall|i: int| 0 <= i < vars.len() implies calls_complete(
        #[trigger] captured(vars)[i],
        globals,
    ) by {
        assert(captured(vars)[i] == ExpV::Var(vars[i]));
    }
}

/// Hoisting leaves no call of a global function with a parameter open.
pub proof fn lemma_complete(
    e: ExpV,
    vars: Seq<Name>,
    funs: Map<Name, usize>,
    ar: Map<Name, usize>,
    need: Set<Name>,
    g: nat,
    globals: Seq<FunDeclV>,
)
    requires
        ready(e, vars, funs, ar, need, g, globals),
    ensures
        settled(e, vars, funs, need, g, globals),
    decreases e, 1nat,
{
    match e {
        ExpV::Prim(..) | ExpV::DirectCall(..) | ExpV::ClosureCall(..) | ExpV::MakeClosure { .. } => {
            lemma_complete_calls(e, vars, funs, ar, need, g, globals);
        },
        ExpV::If { .. } | ExpV::Lambda { .. } => {
            lemma_complete_parts(e, vars, funs, ar, need, g, globals);
        },
        ExpV::Let { .. } => {
            lemma_complete_let(e, vars, funs, ar, need, g, globals);
        },
        ExpV::FunDefs { .. } => {
            lemma_complete_fundefs(e, vars, funs, ar, need, g, globals);
        },
        _ => {},
    }
}

/// [`lemma_complete`] for the first `n` expressions of a list.
pub proof fn lemma_complete_list(
    es: Seq<ExpV>,
    n: nat,
    vars: Seq<Name>,
    funs: Map<Name, usize>,
    ar: Map<Name, usize>,
    need: Set<Name>,
    g: nat,
    globals: Seq<FunDeclV>,
)
    requires
        n <= es.len(),
        all_targets_known(es, ar.dom()),
        all_arities_kept(es, ar),
        tallied(ar, funs, vars.len(), globals),
        each_within(hoisted_list(es, es.len(), vars, funs, need, g), globals),
        distinct(globals),
        sorted_out(need, globals),
        forall|i: int, x: Name|
            0 <= i < es.len() && #[trigger] bound(es[i], x) >= 1 ==> !lambda_like(x),
        forall|i: int| 0 <= i < es.len() ==> vars.len() + binders(#[trigger] es[i]) <= u32::MAX,
    ensures
        forall|i: int|
            0 <= i < n ==> calls_complete(
                #[trigger] lift_list(es, vars, funs, need, g)[i],
                globals,
            ),
        forall|j: int|
            0 <= j < hoisted_list(es, n, vars, funs, need, g).len() ==> calls_complete(
                (#[trigger] hoisted_list(es, n, vars, funs, need, g)[j]).body,
                globals,
            ),
    decreases es, n,
{
    if n > 0 {
        let k = (n - 1) as nat;
        let prev = hoisted_list(es, k, vars, funs, need, g);
        let s = es[k as int];
        let last = hoisted(s, vars, funs, need, g + prev.len());
        lemma_complete_list(es, k, vars, funs, ar, need, g, globals);
        lemma_hoisted_list_part(es, k as int, es.len(), vars, funs, need, g);
        lemma_within_trans(last, hoisted_list(es, es.len(), vars, funs, need, g), globals);
        assert(targets_known(s, ar.dom()) && arities_kept(s, ar));
        lemma_complete(s, vars, funs, ar, need, g + prev.len(), globals);
        assert(lift_list(es, vars, funs, need, g)[k as int] == lift(
            s,
            vars,
            funs,
            need,
            g + prev.len(),
        ));
        let all = hoisted_list(es, n, vars, funs, need, g);
        assert forall|j: int| 0 <= j < all.len() implies calls_complete(
            (#[trigger] all[j]).body,
            globals,
        ) by {
            if j < prev.len() {
                assert(all[j] == prev[j]);
            } else {
                assert(all[j] == last[j - prev.len()]);
            }
        }
    }
}

/// [`lemma_complete`] for a primitive, a call and a closure.
pub proof fn lemma_complete_calls(
    e: ExpV,
    vars: Seq<Name>,
    funs: Map<Name, usize>,
    ar: Map<Name, usize>,
    need: Set<Name>,
    g: nat,
    globals: Seq<FunDeclV>,
)
    requires
        e is Prim || e is DirectCall || e is ClosureCall || e is MakeClosure,
        ready(e, vars, funs, ar, need, g, globals),
    ensures
        settled(e, vars, funs, need, g, globals),
    decreases e, 0nat,
{
    match e {
        ExpV::Prim(_, es) => {
            let n = es.len();
            assert forall|i: int, x: Name|
                0 <= i < n && #[trigger] bound(es[i], x) >= 1 implies !lambda_like(x) by {
                lemma_sum_one(n, bound_at(es, x), i);
                assert(bound(e, x) >= 1);
            }
            assert forall|i: int| 0 <= i < n implies vars.len() + binders(#[trigger] es[i])
                <= u32::MAX by {
                lemma_sum_one(n, crate::syntax::binders_at(es), i);
            }
            lemma_complete_list(es, n, vars, funs, ar, need, g, globals);
            assert(all_calls_complete(lift_list(es, vars, funs, need, g), globals));
        },
        ExpV::DirectCall(f, es) => {
            let n = es.len();
            assert forall|i: int, x: Name|
                0 <= i < n && #[trigger] bound(es[i], x) >= 1 implies !lambda_like(x) by {
                lemma_sum_one(n, bound_at(es, x), i);
                assert(bound(e, x) >= 1);
            }
            assert forall|i: int| 0 <= i < n implies vars.len() + binders(#[trigger] es[i])
                <= u32::MAX by {
                lemma_sum_one(n, crate::syntax::binders_at(es), i);
            }
            lemma_complete_list(es, n, vars, funs, ar, need, g, globals);
            let first = lift_list(es, vars, funs, need, g);
            let extra = captured(passed(vars, funs, f));
            lemma_captured_complete(passed(vars, funs, f), globals);
            assert(ar.contains_key(f));
            assert(passed(vars, funs, f).len() == funs[f]);
            assert forall|i: int| 0 <= i < (first + extra).len() implies calls_complete(
                #[trigger] (first + extra)[i],
                globals,
            ) by {
                if i < first.len() {
                    assert((first + extra)[i] == first[i]);
                } else {
                    assert((first + extra)[i] == extra[i - first.len()]);
                }
            }
            assert(all_calls_complete(first + extra, globals));
            assert(first.len() == n && extra.len() == funs[f]);
            match find_decl(globals, f) {
                Some(d) => {
                    assert(d.parameters.len() == ar[f] + funs[f]);
                    assert(ar[f] <= n);
                    assert(d.parameters.len() <= (first + extra).len());
                },
                None => {},
            }
            assert(lift(e, vars, funs, need, g) == ExpV::DirectCall(f, first + extra));
            assert(calls_complete(ExpV::DirectCall(f, first + extra), globals));
        },
        ExpV::ClosureCall(f, es) => {
            let n = es.len();
            let callee = *f;
            let first = hoisted(callee, vars, funs, need, g);
            let rest = hoisted_list(es, n, vars, funs, need, g + first.len());
            lemma_within_parts(first, rest, globals);
            assert forall|x: Name| #[trigger] bound(callee, x) >= 1 implies !lambda_like(x) by {
                assert(bound(e, x) >= 1);
            }
            lemma_complete(callee, vars, funs, ar, need, g, globals);
            assert forall|i: int, x: Name|
                0 <= i < n && #[trigger] bound(es[i], x) >= 1 implies !lambda_like(x) by {
                lemma_sum_one(n, bound_at(es, x), i);
                assert(bound(e, x) >= 1);
            }
            assert forall|i: int| 0 <= i < n implies vars.len() + binders(#[trigger] es[i])
                <= u32::MAX by {
                lemma_sum_one(n, crate::syntax::binders_at(es), i);
            }
            lemma_complete_list(es, n, vars, funs, ar, need, g + first.len(), globals);
            assert(all_calls_complete(
                lift_list(es, vars, funs, need, g + first.len()),
                globals,
            ));
            let all = hoisted(e, vars, funs, need, g);
            assert forall|j: int| 0 <= j < all.len() implies calls_complete(
                (#[trigger] all[j]).body,
                globals,
            ) by {
                if j < first.len() {
                    assert(all[j] == first[j]);
                } else {
                    assert(all[j] == rest[j - first.len()]);
                }
            }
        },
        ExpV::MakeClosure { env, .. } => {
            let inner = *env;
            assert forall|x: Name| #[trigger] bound(inner, x) >= 1 implies !lambda_like(x) by {
                assert(bound(e, x) >= 1);
            }
            lemma_complete(inner, vars, funs, ar, need, g, globals);
        },
        _ => {},
    }
}

/// [`lemma_complete`] for a conditional and a lambda.
pub proof fn lemma_complete_parts(
    e: ExpV,
    vars: Seq<Name>,
    funs: Map<Name, usize>,
    ar: Map<Name, usize>,
    need: Set<Name>,
    g: nat,
    globals: Seq<FunDeclV>,
)
    requires
        e is If || e is Lambda,
        ready(e, vars, funs, ar, need, g, globals),
    ensures
        settled(e, vars, funs, need, g, globals),
    decreases e, 0nat,
{
    match e {
        ExpV::If { cond, thn, els } => {
            let c = *cond;
            let a = *thn;
            let b = *els;
            let h0 = hoisted(c, vars, funs, need, g);
            let h1 = hoisted(a, vars, funs, need, g + h0.len());
            let h2 = hoisted(b, vars, funs, need, g + h0.len() + h1.len());
            lemma_within_parts(h0 + h1, h2, globals);
            lemma_within_parts(h0, h1, globals);
            assert forall|x: Name| #[trigger] bound(c, x) >= 1 implies !lambda_like(x) by {
                assert(bound(e, x) >= 1);
            }
            assert forall|x: Name| #[trigger] bound(a, x) >= 1 implies !lambda_like(x) by {
                assert(bound(e, x) >= 1);
            }
            assert forall|x: Name| #[trigger] bound(b, x) >= 1 implies !lambda_like(x) by {
                assert(bound(e, x) >= 1);
            }
            lemma_complete(c, vars, funs, ar, need, g, globals);
            lemma_complete(a, vars, funs, ar, need, g + h0.len(), globals);
            lemma_complete(b, vars, funs, ar, need, g + h0.len() + h1.len(), globals);
            let all = hoisted(e, vars, funs, need, g);
            assert forall|j: int| 0 <= j < all.len() implies calls_complete(
                (#[trigger] all[j]).body,
                globals,
            ) by {
                if j < h0.len() {
                    assert(all[j] == h0[j]);
                } else if j < h0.len() + h1.len() {
                    assert(all[j] == h1[j - h0.len()]);
                } else {
                    assert(all[j] == h2[j - h0.len() - h1.len()]);
                }
            }
        },
        ExpV::Lambda { parameters, body } => {
            let inner_body = *body;
            let scope = decl_scope(vars, parameters);
            let inner = hoisted(inner_body, scope, funs, need, g);
            let all = hoisted(e, vars, funs, need, g);
            let global = all.last();
            assert(all == inner.push(global));
            assert forall|j: int| 0 <= j < inner.len() implies globals.contains(
                #[trigger] inner[j],
            ) by {
                assert(all[j] == inner[j]);
            }
            lemma_with_names_len(vars, parameters, parameters.len());
            lemma_tallied_wider(ar, funs, vars.len(), scope.len(), globals);
            assert forall|x: Name| #[trigger] bound(inner_body, x) >= 1 implies !lambda_like(x) by {
                assert(bound(e, x) >= 1);
            }
            lemma_complete(inner_body, scope, funs, ar, need, g, globals);
            lemma_captured_complete(vars, globals);
            let reads = env_bindings(vars);
            assert forall|i: int| 0 <= i < reads.len() implies calls_complete(
                (#[trigger] reads[i]).1,
                globals,
            ) by {
                let operands = reads[i].1->Prim_1;
                assert(operands.len() == 2);
                assert(operands[0] is Var && operands[1] is Num);
                assert(all_calls_complete(operands, globals));
            }
            assert(calls_complete(global.body, globals));
            assert forall|j: int| 0 <= j < all.len() implies calls_complete(
                (#[trigger] all[j]).body,
                globals,
            ) by {
                if j < inner.len() {
                    assert(all[j] == inner[j]);
                }
            }
            let env = ExpV::Prim(crate::syntax::Prim::MakeArray, captured(vars));
            assert(calls_complete(env, globals));
            assert(lift(e, vars, funs, need, g)->MakeClosure_env == Box::new(env));
        },
        _ => {},
    }
}

/// A sum of terms that are each at least 1 is at least their number.
pub proof fn lemma_sum_floor(i: nat, w: spec_fn(int) -> nat)
    requires
        forall|k: int| 0 <= k < i ==> #[trigger] w(k) >= 1,
    ensures
        sum_to(i, w) >= i,
    decreases i,
{
    if i > 0 {
        lemma_sum_floor((i - 1) as nat, w);
    }
}

/// [`lemma_complete`] for the first `n` bindings of a `let`.
pub proof fn lemma_complete_bindings(
    bs: Seq<(Name, ExpV)>,
    n: nat,
    vars: Seq<Name>,
    funs: Map<Name, usize>,
    ar: Map<Name, usize>,
    need: Set<Name>,
    g: nat,
    globals: Seq<FunDeclV>,
)
    requires
        n <= bs.len(),
        forall|i: int|
            0 <= i < bs.len() ==> targets_known((#[trigger] bs[i]).1, ar.dom()) && arities_kept(
                bs[i].1,
                ar,
            ),
        tallied(ar, funs, vars.len(), globals),
        each_within(hoisted_bindings(bs, bs.len(), vars, funs, need, g), globals),
        distinct(globals),
        sorted_out(need, globals),
        forall|i: int, x: Name|
            0 <= i < bs.len() && #[trigger] bound(bs[i].1, x) >= 1 ==> !lambda_like(x),
        forall|i: int|
            0 <= i < bs.len() ==> vars.len() + i + binders((#[trigger] bs[i]).1) <= u32::MAX,
    ensures
        forall|i: int|
            0 <= i < n ==> calls_complete(
                (#[trigger] lift_bindings(bs, vars, funs, need, g)[i]).1,
                globals,
            ),
        forall|j: int|
            0 <= j < hoisted_bindings(bs, n, vars, funs, need, g).len() ==> calls_complete(
                (#[trigger] hoisted_bindings(bs, n, vars, funs, need, g)[j]).body,
                globals,
            ),
    decreases bs, n,
{
    if n > 0 {
        let k = (n - 1) as nat;
        let prev = hoisted_bindings(bs, k, vars, funs, need, g);
        let s = bs[k as int].1;
        let scope = with_names(vars, binding_names(bs), k);
        let last = hoisted(s, scope, funs, need, g + prev.len());
        lemma_complete_bindings(bs, k, vars, funs, ar, need, g, globals);
        lemma_hoisted_bindings_part(bs, k as int, bs.len(), vars, funs, need, g);
        lemma_within_trans(last, hoisted_bindings(bs, bs.len(), vars, funs, need, g), globals);
        lemma_with_names_len(vars, binding_names(bs), k);
        lemma_tallied_wider(ar, funs, vars.len(), scope.len(), globals);
        assert(targets_known(s, ar.dom()) && arities_kept(s, ar));
        assert(vars.len() + k + binders(s) <= u32::MAX);
        lemma_complete(s, scope, funs, ar, need, g + prev.len(), globals);
        assert(lift_bindings(bs, vars, funs, need, g)[k as int].1 == lift(
            s,
            scope,
            funs,
            need,
            g + prev.len(),
        ));
        let all = hoisted_bindings(bs, n, vars, funs, need, g);
        assert forall|j: int| 0 <= j < all.len() implies calls_complete(
            (#[trigger] all[j]).body,
            globals,
        ) by {
            if j < prev.len() {
                assert(all[j] == prev[j]);
            } else {
                assert(all[j] == last[j - prev.len()]);
            }
        }
    }
}

/// [`lemma_complete`] for a `let`.
pub proof fn lemma_complete_let(
    e: ExpV,
    vars: Seq<Name>,
    funs: Map<Name, usize>,
    ar: Map<Name, usize>,
    need: Set<Name>,
    g: nat,
    globals: Seq<FunDeclV>,
)
    requires
        e is Let,
        ready(e, vars, funs, ar, need, g, globals),
    ensures
        settled(e, vars, funs, need, g, globals),
    decreases e, 0nat,
{
    match e {
        ExpV::Let { bindings, body } => {
            let n = bindings.len();
            let rest = *body;
            let w = crate::syntax::binding_binders_at(bindings);
            let first = hoisted_bindings(bindings, n, vars, funs, need, g);
            let scope = with_names(vars, binding_names(bindings), n);
            let after = hoisted(rest, scope, funs, need, g + first.len());
            lemma_within_parts(first, after, globals);
            assert forall|i: int, x: Name|
                0 <= i < n && #[trigger] bound(bindings[i].1, x) >= 1 implies !lambda_like(x) by {
                lemma_sum_one(n, binding_bound_at(bindings, x), i);
                assert(bound(e, x) >= 1);
            }
            assert forall|i: int| 0 <= i < n implies vars.len() + i + binders(
                (#[trigger] bindings[i]).1,
            ) <= u32::MAX by {
                lemma_sum_floor(i as nat, w);
                crate::syntax::lemma_sum_to(i as nat, n, w);
            }
            lemma_complete_bindings(bindings, n, vars, funs, ar, need, g, globals);
            lemma_with_names_len(vars, binding_names(bindings), n);
            lemma_tallied_wider(ar, funs, vars.len(), scope.len(), globals);
            lemma_sum_floor(n, w);
            assert forall|x: Name| #[trigger] bound(rest, x) >= 1 implies !lambda_like(x) by {
                assert(bound(e, x) >= 1);
            }
            lemma_complete(rest, scope, funs, ar, need, g + first.len(), globals);
            let all = hoisted(e, vars, funs, need, g);
            assert forall|j: int| 0 <= j < all.len() implies calls_complete(
                (#[trigger] all[j]).body,
                globals,
            ) by {
                if j < first.len() {
                    assert(all[j] == first[j]);
                } else {
                    assert(all[j] == after[j - first.len()]);
                }
            }
            let out = lift_bindings(bindings, vars, funs, need, g);
            let left = lift(rest, scope, funs, need, g + first.len());
            assert(out.len() == n);
            assert(forall|i: int| 0 <= i < out.len() ==> calls_complete((#[trigger] out[i]).1, globals));
            assert(lift(e, vars, funs, need, g) == ExpV::Let { bindings: out, body: Box::new(left) });
            assert(calls_complete(ExpV::Let { bindings: out, body: Box::new(left) }, globals));
        },
        _ => {},
    }
}

/// [`lemma_complete`] for the bodies of the first `n` functions of a group.
pub proof fn lemma_complete_decls(
    ds: Seq<FunDeclV>,
    n: nat,
    vars: Seq<Name>,
    funs: Map<Name, usize>,
    ar: Map<Name, usize>,
    need: Set<Name>,
    g: nat,
    globals: Seq<FunDeclV>,
)
    requires
        n <= ds.len(),
        forall|i: int|
            0 <= i < ds.len() ==> targets_known((#[trigger] ds[i]).body, ar.dom()) && arities_kept(
                ds[i].body,
                ar,
            ),
        tallied(ar, funs, vars.len(), globals),
        each_within(hoisted_decls(ds, ds.len(), vars, funs, need, g), globals),
        distinct(globals),
        sorted_out(need, globals),
        forall|i: int, x: Name|
            0 <= i < ds.len() && #[trigger] bound(ds[i].body, x) >= 1 ==> !lambda_like(x),
        forall|i: int|
            0 <= i < ds.len() ==> vars.len() + (#[trigger] ds[i]).parameters.len() + binders(
                ds[i].body,
            ) <= u32::MAX,
    ensures
        forall|i: int|
            0 <= i < n ==> calls_complete(
                #[trigger] lift(
                    ds[i].body,
                    decl_scope(vars, ds[i].parameters),
                    funs,
                    need,
                    g + hoisted_decls(ds, i as nat, vars, funs, need, g).len(),
                ),
                globals,
            ),
        forall|j: int|
            0 <= j < hoisted_decls(ds, n, vars, funs, need, g).len() ==> calls_complete(
                (#[trigger] hoisted_decls(ds, n, vars, funs, need, g)[j]).body,
                globals,
            ),
    decreases ds, n,
{
    if n > 0 {
        let k = (n - 1) as nat;
        let prev = hoisted_decls(ds, k, vars, funs, need, g);
        let d = ds[k as int];
        let scope = decl_scope(vars, d.parameters);
        let inner = hoisted(d.body, scope, funs, need, g + prev.len());
        lemma_complete_decls(ds, k, vars, funs, ar, need, g, globals);
        lemma_hoisted_decls_part(ds, k as int, ds.len(), vars, funs, need, g);
        lemma_within_trans(inner, hoisted_decls(ds, ds.len(), vars, funs, need, g), globals);
        lemma_with_names_len(vars, d.parameters, d.parameters.len());
        lemma_tallied_wider(ar, funs, vars.len(), scope.len(), globals);
        assert(targets_known(d.body, ar.dom()) && arities_kept(d.body, ar));
        assert(vars.len() + d.parameters.len() + binders(d.body) <= u32::MAX);
        lemma_complete(d.body, scope, funs, ar, need, g + prev.len(), globals);
        let all = hoisted_decls(ds, n, vars, funs, need, g);
        assert forall|j: int| 0 <= j < all.len() implies calls_complete(
            (#[trigger] all[j]).body,
            globals,
        ) by {
            if j < prev.len() {
                assert(all[j] == prev[j]);
            } else if j < prev.len() + inner.len() {
                assert(all[j] == inner[j - prev.len()]);
            }
        }
    }
}

/// [`lemma_complete`] for a group of functions.
#[verifier::rlimit(50)]
pub proof fn lemma_complete_fundefs(
    e: ExpV,
    vars: Seq<Name>,
    funs: Map<Name, usize>,
    ar: Map<Name, usize>,
    need: Set<Name>,
    g: nat,
    globals: Seq<FunDeclV>,
)
    requires
        e is FunDefs,
        ready(e, vars, funs, ar, need, g, globals),
    ensures
        settled(e, vars, funs, need, g, globals),
    decreases e, 0nat,
{
    match e {
        ExpV::FunDefs { decls, body } => {
            let n = decls.len();
            let rest = *body;
            let db = crate::syntax::decl_binders_at(decls);
            let inner_funs = declare(funs, decls, n, vars, need);
            let inner_ar = with_decls(ar, decls, n);
            let first = hoisted_decls(decls, n, vars, inner_funs, need, g);
            let after = hoisted(rest, vars, inner_funs, need, g + first.len());
            lemma_within_parts(first, after, globals);
            lemma_with_decls_dom(ar, decls, n);
            assert(decl_names(decls).take(n as int) =~= decl_names(decls));
            assert(inner_ar.dom() == ar.dom().union(decl_names(decls).to_set()));
            lemma_group_tallied(e, vars, funs, ar, need, g, globals);
            assert forall|i: int, x: Name|
                0 <= i < n && #[trigger] bound(decls[i].body, x) >= 1 implies !lambda_like(x) by {
                lemma_sum_one(n, decl_bound_at(decls, x), i);
                assert(bound(e, x) >= 1);
            }
            assert forall|i: int| 0 <= i < n implies vars.len() + (
            #[trigger] decls[i]).parameters.len() + binders(decls[i].body) <= u32::MAX by {
                lemma_sum_one(n, db, i);
            }
            lemma_complete_decls(decls, n, vars, inner_funs, inner_ar, need, g, globals);
            assert forall|x: Name| #[trigger] bound(rest, x) >= 1 implies !lambda_like(x) by {
                assert(bound(e, x) >= 1);
            }
            lemma_complete(rest, vars, inner_funs, inner_ar, need, g + first.len(), globals);
            let kept = kept_decls(decls, n, vars, inner_funs, need, g);
            assert forall|j: int| 0 <= j < kept.len() implies calls_complete(
                (#[trigger] kept[j]).body,
                globals,
            ) by {
                let i = lemma_kept_origin(decls, n, vars, inner_funs, need, g, j);
            }
            let all = hoisted(e, vars, funs, need, g);
            assert forall|j: int| 0 <= j < all.len() implies calls_complete(
                (#[trigger] all[j]).body,
                globals,
            ) by {
                if j < first.len() {
                    assert(all[j] == first[j]);
                } else {
                    assert(all[j] == after[j - first.len()]);
                }
            }
        },
        _ => {},
    }
}

/// The functions in scope in a group, with those of the group, are tallied.
#[verifier::rlimit(50)]
pub proof fn lemma_group_tallied(
    e: ExpV,
    vars: Seq<Name>,
    funs: Map<Name, usize>,
    ar: Map<Name, usize>,
    need: Set<Name>,
    g: nat,
    globals: Seq<FunDeclV>,
)
    requires
        e is FunDefs,
        ready(e, vars, funs, ar, need, g, globals),
    ensures
        tallied(
            with_decls(ar, e->FunDefs_decls, e->FunDefs_decls.len()),
            declare(funs, e->FunDefs_decls, e->FunDefs_decls.len(), vars, need),
            vars.len(),
            globals,
        ),
{
    let decls = e->FunDefs_decls;
    let n = decls.len();
    let inner_funs = declare(funs, decls, n, vars, need);
    let inner_ar = with_decls(ar, decls, n);
    let first = hoisted_decls(decls, n, vars, inner_funs, need, g);
    let after = hoisted(*e->FunDefs_body, vars, inner_funs, need, g + first.len());
    lemma_within_parts(first, after, globals);
    assert forall|f: Name| #[trigger] inner_ar.contains_key(f) implies inner_funs.contains_key(f)
        && inner_funs[f] <= vars.len() && (find_decl(globals, f) matches Some(d)
        ==> d.parameters.len() == inner_ar[f] + inner_funs[f]) by {
        lemma_declare_at(funs, decls, n, vars, need, f);
        lemma_arity_at(ar, decls, n, f);
        if exists|i: int| 0 <= i < n && (#[trigger] decls[i]).name == f {
            let i = choose|i: int|
                0 <= i < n && (#[trigger] decls[i]).name == f && inner_ar[f]
                    == decls[i].parameters.len() as usize;
            lemma_sum_one(n, decl_bound_at(decls, f), i);
            assert(bound(e, f) >= 1);
            assert(!lambda_like(f));
            lemma_sum_one(n, crate::syntax::decl_binders_at(decls), i);
            assert(decls[i].parameters.len() <= u32::MAX);
            if find_decl(globals, f) is Some {
                let m = lemma_find_decl_in(globals, f);
                assert(need.contains(globals[m].name) || lambda_like(globals[m].name));
                assert(need.contains(f));
                lemma_hoisted_decls_part(decls, i, n, vars, inner_funs, need, g);
                let k = choose|k: int|
                    0 <= k < first.len() && (#[trigger] first[k]).name == decls[i].name
                        && first[k].parameters == decls[i].parameters + vars;
                assert(globals.contains(first[k]));
                let at = choose|at: int| 0 <= at < globals.len() && globals[at] == first[k];
                lemma_find_decl_only(globals, at);
            }
        } else {
            assert(ar.contains_key(f));
        }
    }
}

/// Closure conversion binds as many names as the program did.
pub proof fn lemma_convert_binders(e: ExpV, funcs: Map<Name, usize>)
    ensures
        binders(convert(e, funcs)) == binders(e),
    decreases e,
{
    match e {
        ExpV::Prim(_, es) => {
            lemma_convert_list_binders(es, funcs);
        },
        ExpV::Call(f, args) => {
            lemma_convert_list_binders(args, funcs);
            lemma_convert_binders(*f, funcs);
            match crate::closure::known_callee(*f, funcs) {
                Some(_) => {
                    assert(*f is Var);
                    assert(binders(*f) == 0);
                },
                None => {},
            }
        },
        ExpV::If { cond, thn, els } => {
            lemma_convert_binders(*cond, funcs);
            lemma_convert_binders(*thn, funcs);
            lemma_convert_binders(*els, funcs);
        },
        ExpV::Lambda { body, .. } => {
            lemma_convert_binders(*body, funcs);
        },
        ExpV::Let { bindings, body } => {
            let out = crate::closure::convert_bindings(bindings, funcs);
            assert forall|i: int| 0 <= i < bindings.len() implies #[trigger] crate::syntax::binding_binders_at(
                out,
            )(i) == crate::syntax::binding_binders_at(bindings)(i) by {
                lemma_convert_binders(bindings[i].1, funcs);
            }
            crate::syntax::lemma_sum_to_eq(
                bindings.len(),
                crate::syntax::binding_binders_at(out),
                crate::syntax::binding_binders_at(bindings),
            );
            lemma_convert_binders(*body, funcs);
        },
        ExpV::FunDefs { decls, body } => {
            let inner = with_decls(funcs, decls, decls.len());
            let out = crate::closure::convert_decls(decls, inner);
            assert forall|i: int| 0 <= i < decls.len() implies #[trigger] crate::syntax::decl_binders_at(
                out,
            )(i) == crate::syntax::decl_binders_at(decls)(i) by {
                lemma_convert_binders(decls[i].body, inner);
            }
            crate::syntax::lemma_sum_to_eq(
                decls.len(),
                crate::syntax::decl_binders_at(out),
                crate::syntax::decl_binders_at(decls),
            );
            lemma_convert_binders(*body, inner);
        },
        ExpV::Var(v) => {
            if funcs.contains_key(v) {
                let made = convert(e, funcs);
                let env = *made->MakeClosure_env;
                assert(env->Prim_1.len() == 0);
                assert(binders(env) == 0);
            }
        },
        _ => {},
    }
}

/// [`lemma_convert_binders`] for a list of expressions.
pub proof fn lemma_convert_list_binders(es: Seq<ExpV>, funcs: Map<Name, usize>)
    ensures
        sum_to(es.len(), crate::syntax::binders_at(crate::closure::convert_list(es, funcs)))
            == sum_to(es.len(), crate::syntax::binders_at(es)),
    decreases es,
{
    let out = crate::closure::convert_list(es, funcs);
    assert forall|i: int| 0 <= i < es.len() implies #[trigger] crate::syntax::binders_at(out)(i)
        == crate::syntax::binders_at(es)(i) by {
        lemma_convert_binders(es[i], funcs);
    }
    crate::syntax::lemma_sum_to_eq(
        es.len(),
        crate::syntax::binders_at(out),
        crate::syntax::binders_at(es),
    );
}

/// The program after closure conversion, in which calls name the functions
/// that they go to.
pub open spec fn resolved_calls(p: ExpV) -> ExpV {
    convert(uniq(p, Map::empty(), 0), Map::empty())
}

/// A program in which no direct call passes fewer arguments than the
/// function that it names was declared with has, after hoisting, no call of
/// a global function that leaves a parameter open.
pub proof fn lemma_program_complete(p: ExpV)
    requires
        in_stage(p, Stage::Surface),
        binders(p) <= u32::MAX,
        arities_kept(resolved_calls(p), Map::empty()),
    ensures
        program_complete(p),
{
    let none = Map::<Name, usize>::empty();
    let unique = uniq(p, Map::empty(), 0);
    let converted = convert(unique, none);
    let need = marks(converted, Set::empty(), Set::empty(), true);
    let vars = Seq::<Name>::empty();
    let globals = hoisted(converted, vars, none, need, 0);
    lemma_uniq_stage(p, Map::empty(), 0);
    lemma_convert_targets(unique, none);
    lemma_convert_binders(unique, none);
    crate::renaming::lemma_uniq_binders(p, Map::empty(), 0);
    assert(each_within(globals, globals));
    assert forall|i: int, j: int| 0 <= i < j < globals.len() implies (#[trigger] globals[i]).name
        != (#[trigger] globals[j]).name by {
        let out = crate::lift::rewrite_decls(globals, globals);
        assert(out == crate::lambda_lift::lambda_lift_spec(p).0);
        assert(out[i].name == globals[i].name && out[j].name == globals[j].name);
        lemma_globals_distinct(p, i, j);
    }
    assert forall|j: int| 0 <= j < globals.len() implies need.contains(
        (#[trigger] globals[j]).name,
    ) || lambda_like(globals[j].name) by {
        lemma_hoisted_sorted(converted, vars, none, need, 0, j);
    }
    assert forall|x: Name| #[trigger] bound(converted, x) >= 1 implies !lambda_like(x) by {
        lemma_convert_bound_same(unique, none, x);
        lemma_bound_uniq(p, Map::empty(), 0, x);
        let k = choose|k: nat| 0 < k <= 0 + binders(p) && #[trigger] fresh(k) == x;
        lemma_decimal_first(k);
    }
    lemma_complete(converted, vars, none, none, need, 0, globals);
    assert(hoisted_program(p) == (globals, lift(converted, vars, none, need, 0)));
}

/// After lambda lifting every global function of a program is closed, and
/// so is its main expression, if every variable of the program is bound and
/// no direct call passes fewer arguments than the function that it names was
/// declared with.
pub proof fn lemma_arities_closed(p: ExpV)
    requires
        in_stage(p, Stage::Surface),
        crate::renaming::scoped(p, Set::empty()),
        binders(p) <= u32::MAX,
        arities_kept(resolved_calls(p), Map::empty()),
    ensures
        crate::closed::program_closed(
            crate::lambda_lift::lambda_lift_spec(p).0,
            crate::lambda_lift::lambda_lift_spec(p).1,
        ),
{
    lemma_program_complete(p);
    crate::closed::lemma_lifted_closed(p);
}

} // verus!
