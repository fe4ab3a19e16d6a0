//! What holds of every lifted program: each global function refers to
//! nothing but its parameters, what it binds itself, and the local functions
//! it declares itself.

use vstd::prelude::*;
use crate::closure::{convert, convert_bindings, convert_decls, convert_list, known_callee, with_decls};
use crate::lift::{captured, closure_protocol, declare, decl_scope, env_bindings, env_name, find_decl, missing, hoisted, hoisted_bindings, hoisted_decls, hoisted_list, kept_decls, lift, lift_bindings, lift_list, marks, marks_bindings, marks_decls, marks_list, passed, rewrite, rewrite_bindings, rewrite_decls, rewrite_list};
use crate::lambda_lift::lambda_lift_spec;
use crate::renaming::{lemma_uniq_scoped, lemma_uniq_stage, renamed, scoped};
use crate::syntax::binders;
use crate::uniquify::uniq;
use crate::syntax::{ExpV, FunDeclV, Name, Prim, Stage, VarOrLabelV, all_in_stage, binding_names, decl_names, in_stage};
use crate::table::{lemma_with_names_set, with_names};

verus! {

/// Whether one of the functions of a group is named in `need`.
pub open spec fn group_needed(ds: Seq<FunDeclV>, need: Set<Name>) -> bool {
    !decl_names(ds).to_set().disjoint(need)
}

/// Whether a group of functions is named in `need` as a whole or not at all.
pub open spec fn group_whole(ds: Seq<FunDeclV>, need: Set<Name>) -> bool {
    decl_names(ds).to_set().subset_of(need) || decl_names(ds).to_set().disjoint(need)
}

/// Whether every group of functions in an expression is named in `need` as
/// a whole or not at all, so that functions that call each other in their
/// frame go to the top level together or stay together.
pub open spec fn groups_whole(e: ExpV, need: Set<Name>) -> bool
    decreases e,
{
    match e {
        ExpV::Prim(_, es) => all_groups_whole(es, need),
        ExpV::Let { bindings, body } => (forall|i: int|
            0 <= i < bindings.len() ==> groups_whole((#[trigger] bindings[i]).1, need))
            && groups_whole(*body, need),
        ExpV::If { cond, thn, els } => groups_whole(*cond, need) && groups_whole(*thn, need)
            && groups_whole(*els, need),
        ExpV::FunDefs { decls, body } => group_whole(decls, need) && (forall|i: int|
            0 <= i < decls.len() ==> groups_whole((#[trigger] decls[i]).body, need))
            && groups_whole(*body, need),
        ExpV::Lambda { body, .. } => groups_whole(*body, need),
        ExpV::MakeClosure { env, .. } => groups_whole(*env, need),
        ExpV::ClosureCall(f, args) => groups_whole(*f, need) && all_groups_whole(args, need),
        ExpV::DirectCall(_, args) => all_groups_whole(args, need),
        _ => true,
    }
}

/// [`groups_whole`] of every expression of a list.
pub open spec fn all_groups_whole(es: Seq<ExpV>, need: Set<Name>) -> bool
    decreases es,
{
    forall|i: int| 0 <= i < es.len() ==> groups_whole(#[trigger] es[i], need)
}

/// In a group that is named as a whole or not at all, each function is
/// named if one is.
pub proof fn lemma_whole_member(ds: Seq<FunDeclV>, need: Set<Name>, i: int)
    requires
        group_whole(ds, need),
        0 <= i < ds.len(),
    ensures
        need.contains(ds[i].name) == group_needed(ds, need),
{
    let names = decl_names(ds);
    assert(names[i] == ds[i].name);
    assert(names.to_set().contains(ds[i].name));
}

/// Whether every variable that an expression reads is in `vars` or bound by
/// the expression itself. The body of a function sees the variables around
/// it and its parameters.
pub open spec fn vars_bound(e: ExpV, vars: Set<Name>) -> bool
    decreases e,
{
    match e {
        ExpV::Num(_) | ExpV::Bool(_) => true,
        ExpV::Var(x) => vars.contains(x),
        ExpV::Prim(_, es) => all_vars_bound(es, vars),
        ExpV::Let { bindings, body } => (forall|i: int|
            0 <= i < bindings.len() ==> vars_bound(
                (#[trigger] bindings[i]).1,
                vars.union(binding_names(bindings).take(i).to_set()),
            )) && vars_bound(*body, vars.union(binding_names(bindings).to_set())),
        ExpV::If { cond, thn, els } => vars_bound(*cond, vars) && vars_bound(*thn, vars)
            && vars_bound(*els, vars),
        ExpV::Semicolon { e1, e2 } => vars_bound(*e1, vars) && vars_bound(*e2, vars),
        ExpV::FunDefs { decls, body } => (forall|i: int|
            0 <= i < decls.len() ==> vars_bound(
                (#[trigger] decls[i]).body,
                vars.union(decls[i].parameters.to_set()),
            )) && vars_bound(*body, vars),
        ExpV::Call(f, args) => vars_bound(*f, vars) && all_vars_bound(args, vars),
        ExpV::Lambda { parameters, body } => vars_bound(*body, vars.union(parameters.to_set())),
        ExpV::MakeClosure { env, .. } => vars_bound(*env, vars),
        ExpV::ClosureCall(f, args) => vars_bound(*f, vars) && all_vars_bound(args, vars),
        ExpV::DirectCall(_, args) => all_vars_bound(args, vars),
        ExpV::InternalTailCall(_, args) => all_vars_bound(args, vars),
        ExpV::ExternalCall { fun, args, .. } => (fun matches VarOrLabelV::Var(x) ==> vars.contains(
            x,
        )) && all_vars_bound(args, vars),
    }
}

/// [`vars_bound`] of every expression of a list.
pub open spec fn all_vars_bound(es: Seq<ExpV>, vars: Set<Name>) -> bool
    decreases es,
{
    forall|i: int| 0 <= i < es.len() ==> vars_bound(#[trigger] es[i], vars)
}

/// Whether the body of every function of a list reads no variable but the
/// function's parameters and what the body binds itself.
pub open spec fn bodies_bound(ds: Seq<FunDeclV>) -> bool {
    forall|i: int| 0 <= i < ds.len() ==> vars_bound((#[trigger] ds[i]).body, ds[i].parameters.to_set())
}

/// What is bound with some variables in scope is bound with more.
pub proof fn lemma_vars_bound_mono(e: ExpV, a: Set<Name>, b: Set<Name>)
    requires
        vars_bound(e, a),
        a.subset_of(b),
    ensures
        vars_bound(e, b),
    decreases e,
{
    match e {
        ExpV::Prim(_, es) => {
            lemma_all_vars_bound_mono(es, a, b);
        },
        ExpV::Let { bindings, body } => {
            let names = binding_names(bindings);
            assert forall|i: int| 0 <= i < bindings.len() implies vars_bound(
                (#[trigger] bindings[i]).1,
                b.union(names.take(i).to_set()),
            ) by {
                lemma_vars_bound_mono(
                    bindings[i].1,
                    a.union(names.take(i).to_set()),
                    b.union(names.take(i).to_set()),
                );
            }
            lemma_vars_bound_mono(*body, a.union(names.to_set()), b.union(names.to_set()));
        },
        ExpV::If { cond, thn, els } => {
            lemma_vars_bound_mono(*cond, a, b);
            lemma_vars_bound_mono(*thn, a, b);
            lemma_vars_bound_mono(*els, a, b);
        },
        ExpV::Semicolon { e1, e2 } => {
            lemma_vars_bound_mono(*e1, a, b);
            lemma_vars_bound_mono(*e2, a, b);
        },
        ExpV::FunDefs { decls, body } => {
            assert forall|i: int| 0 <= i < decls.len() implies vars_bound(
                (#[trigger] decls[i]).body,
                b.union(decls[i].parameters.to_set()),
            ) by {
                lemma_vars_bound_mono(
                    decls[i].body,
                    a.union(decls[i].parameters.to_set()),
                    b.union(decls[i].parameters.to_set()),
                );
            }
            lemma_vars_bound_mono(*body, a, b);
        },
        ExpV::Call(f, args) => {
            lemma_vars_bound_mono(*f, a, b);
            lemma_all_vars_bound_mono(args, a, b);
        },
        ExpV::Lambda { parameters, body } => {
            lemma_vars_bound_mono(
                *body,
                a.union(parameters.to_set()),
                b.union(parameters.to_set()),
            );
        },
        ExpV::MakeClosure { env, .. } => {
            lemma_vars_bound_mono(*env, a, b);
        },
        ExpV::ClosureCall(f, args) => {
            lemma_vars_bound_mono(*f, a, b);
            lemma_all_vars_bound_mono(args, a, b);
        },
        ExpV::DirectCall(_, args) => {
            lemma_all_vars_bound_mono(args, a, b);
        },
        ExpV::InternalTailCall(_, args) => {
            lemma_all_vars_bound_mono(args, a, b);
        },
        ExpV::ExternalCall { args, .. } => {
            lemma_all_vars_bound_mono(args, a, b);
        },
        _ => {},
    }
}

/// [`lemma_vars_bound_mono`] for a list of expressions.
pub proof fn lemma_all_vars_bound_mono(es: Seq<ExpV>, a: Set<Name>, b: Set<Name>)
    requires
        all_vars_bound(es, a),
        a.subset_of(b),
    ensures
        all_vars_bound(es, b),
    decreases es,
{
    assert forall|i: int| 0 <= i < es.len() implies vars_bound(#[trigger] es[i], b) by {
        lemma_vars_bound_mono(es[i], a, b);
    }
}

/// The functions of two lists have bound bodies if those of each list have.
pub proof fn lemma_bodies_bound_add(a: Seq<FunDeclV>, b: Seq<FunDeclV>)
    requires
        bodies_bound(a),
        bodies_bound(b),
    ensures
        bodies_bound(a + b),
{
    assert forall|i: int| 0 <= i < (a + b).len() implies vars_bound(
        (#[trigger] (a + b)[i]).body,
        (a + b)[i].parameters.to_set(),
    ) by {
        if i < a.len() {
            assert((a + b)[i] == a[i]);
        } else {
            assert((a + b)[i] == b[i - a.len()]);
        }
    }
}

/// The variables in scope, passed on, are in scope.
pub proof fn lemma_captured_bound(vars: Seq<Name>, part: Seq<Name>)
    requires
        forall|i: int| 0 <= i < part.len() ==> vars.contains(#[trigger] part[i]),
    ensures
        all_vars_bound(captured(part), vars.to_set()),
{
    assert forall|i: int| 0 <= i < part.len() implies vars_bound(
        #[trigger] captured(part)[i],
        vars.to_set(),
    ) by {
        assert(vars.contains(part[i]));
    }
}

/// As a set, a list followed by another is the union of the two.
pub proof fn lemma_concat_set(a: Seq<Name>, b: Seq<Name>)
    ensures
        (a + b).to_set() == a.to_set().union(b.to_set()),
{
    assert forall|x: Name| (a + b).to_set().contains(x) <==> a.to_set().union(
        b.to_set(),
    ).contains(x) by {
        if (a + b).contains(x) {
            let i = choose|i: int| 0 <= i < (a + b).len() && (a + b)[i] == x;
            if i < a.len() {
                assert(a[i] == x);
            } else {
                assert(b[i - a.len()] == x);
            }
        }
        if a.contains(x) {
            let i = choose|i: int| 0 <= i < a.len() && a[i] == x;
            assert((a + b)[i] == x);
        }
        if b.contains(x) {
            let i = choose|i: int| 0 <= i < b.len() && b[i] == x;
            assert((a + b)[a.len() + i] == x);
        }
    }
    assert((a + b).to_set() =~= a.to_set().union(b.to_set()));
}

/// The scope in the body of a function, as a set: the variables around it
/// and its parameters.
pub proof fn lemma_decl_scope_set(vars: Seq<Name>, parameters: Seq<Name>)
    ensures
        decl_scope(vars, parameters).to_set() == vars.to_set().union(parameters.to_set()),
{
    lemma_with_names_set(vars, parameters, parameters.len());
    assert(parameters.take(parameters.len() as int) =~= parameters);
}


/// Hoisting keeps variables bound: what is left of an expression reads no
/// variable that the expression did not read, and each function that goes to
/// the top level reads none but its parameters: its own, and the variables
/// that were in scope where it stood.
pub proof fn lemma_lift_bound(e: ExpV, vars: Seq<Name>, funs: Map<Name, usize>, need: Set<Name>, g: nat)
    requires
        vars_bound(e, vars.to_set()),
    ensures
        vars_bound(lift(e, vars, funs, need, g), vars.to_set()),
        bodies_bound(hoisted(e, vars, funs, need, g)),
    decreases e, 1nat,
{
    let scope = vars.to_set();
    match e {
        ExpV::Prim(_, es) => {
            lemma_lift_list_bound(es, vars, funs, need, g);
            lemma_hoisted_list_bound(es, es.len(), vars, funs, need, g);
        },
        ExpV::DirectCall(f, args) => {
            lemma_lift_list_bound(args, vars, funs, need, g);
            lemma_hoisted_list_bound(args, args.len(), vars, funs, need, g);
            let part = passed(vars, funs, f);
            assert forall|i: int| 0 <= i < part.len() implies vars.contains(#[trigger] part[i]) by {
                assert(part[i] == vars[i]);
            }
            lemma_captured_bound(vars, part);
            let first = lift_list(args, vars, funs, need, g);
            let all = first + captured(part);
            assert forall|i: int| 0 <= i < all.len() implies vars_bound(#[trigger] all[i], scope) by {
                if i < first.len() {
                    assert(all[i] == first[i]);
                } else {
                    assert(all[i] == captured(part)[i - first.len()]);
                }
            }
            assert(all_vars_bound(all, scope));
        },
        ExpV::ClosureCall(f, args) => {
            let first = hoisted(*f, vars, funs, need, g);
            lemma_lift_bound(*f, vars, funs, need, g);
            lemma_lift_list_bound(args, vars, funs, need, g + first.len());
            lemma_hoisted_list_bound(args, args.len(), vars, funs, need, g + first.len());
            lemma_bodies_bound_add(
                first,
                hoisted_list(args, args.len(), vars, funs, need, g + first.len()),
            );
        },
        ExpV::MakeClosure { env, .. } => {
            lemma_lift_bound(*env, vars, funs, need, g);
        },
        ExpV::Num(_) | ExpV::Bool(_) | ExpV::Var(_) => {},
        ExpV::Semicolon { .. } | ExpV::Call(..) | ExpV::InternalTailCall(..) | ExpV::ExternalCall {
            ..
        } => {
            assert(lift(e, vars, funs, need, g) == e);
        },
        ExpV::If { cond, thn, els } => {
            let h0 = hoisted(*cond, vars, funs, need, g);
            let h1 = hoisted(*thn, vars, funs, need, g + h0.len());
            let h2 = hoisted(*els, vars, funs, need, g + h0.len() + h1.len());
            lemma_lift_bound(*cond, vars, funs, need, g);
            lemma_lift_bound(*thn, vars, funs, need, g + h0.len());
            lemma_lift_bound(*els, vars, funs, need, g + h0.len() + h1.len());
            lemma_bodies_bound_add(h0, h1);
            lemma_bodies_bound_add(h0 + h1, h2);
        },
        ExpV::Let { .. } => {
            lemma_lift_let_bound(e, vars, funs, need, g);
        },
        ExpV::FunDefs { .. } => {
            lemma_lift_fundefs_bound(e, vars, funs, need, g);
        },
        ExpV::Lambda { .. } => {
            lemma_lift_lambda_bound(e, vars, funs, need, g);
        },
    }
}

/// [`lemma_lift_bound`] for what is left of a list of expressions.
pub proof fn lemma_lift_list_bound(
    es: Seq<ExpV>,
    vars: Seq<Name>,
    funs: Map<Name, usize>,
    need: Set<Name>,
    g: nat,
)
    requires
        all_vars_bound(es, vars.to_set()),
    ensures
        all_vars_bound(lift_list(es, vars, funs, need, g), vars.to_set()),
    decreases es, 0nat,
{
    assert forall|i: int| 0 <= i < es.len() implies vars_bound(
        #[trigger] lift_list(es, vars, funs, need, g)[i],
        vars.to_set(),
    ) by {
        lemma_lift_bound(
            es[i],
            vars,
            funs,
            need,
            g + hoisted_list(es, i as nat, vars, funs, need, g).len(),
        );
    }
}

/// [`lemma_lift_bound`] for what a list of expressions gives rise to.
pub proof fn lemma_hoisted_list_bound(
    es: Seq<ExpV>,
    n: nat,
    vars: Seq<Name>,
    funs: Map<Name, usize>,
    need: Set<Name>,
    g: nat,
)
    requires
        all_vars_bound(es, vars.to_set()),
        n <= es.len(),
    ensures
        bodies_bound(hoisted_list(es, n, vars, funs, need, g)),
    decreases es, n,
{
    if n > 0 {
        let prev = hoisted_list(es, (n - 1) as nat, vars, funs, need, g);
        lemma_hoisted_list_bound(es, (n - 1) as nat, vars, funs, need, g);
        lemma_lift_bound(es[n - 1], vars, funs, need, g + prev.len());
        lemma_bodies_bound_add(prev, hoisted(es[n - 1], vars, funs, need, g + prev.len()));
    }
}

/// [`lemma_lift_bound`] for what the bindings of a `let` give rise to.
pub proof fn lemma_hoisted_bindings_bound(
    bs: Seq<(Name, ExpV)>,
    n: nat,
    vars: Seq<Name>,
    funs: Map<Name, usize>,
    need: Set<Name>,
    g: nat,
)
    requires
        forall|i: int|
            0 <= i < bs.len() ==> vars_bound(
                (#[trigger] bs[i]).1,
                vars.to_set().union(binding_names(bs).take(i).to_set()),
            ),
        n <= bs.len(),
    ensures
        bodies_bound(hoisted_bindings(bs, n, vars, funs, need, g)),
    decreases bs, n,
{
    if n > 0 {
        let prev = hoisted_bindings(bs, (n - 1) as nat, vars, funs, need, g);
        let scope = with_names(vars, binding_names(bs), (n - 1) as nat);
        lemma_hoisted_bindings_bound(bs, (n - 1) as nat, vars, funs, need, g);
        lemma_with_names_set(vars, binding_names(bs), (n - 1) as nat);
        assert(vars_bound(bs[n - 1].1, scope.to_set()));
        lemma_lift_bound(bs[n - 1].1, scope, funs, need, g + prev.len());
        lemma_bodies_bound_add(prev, hoisted(bs[n - 1].1, scope, funs, need, g + prev.len()));
    }
}

/// [`lemma_lift_bound`] for a `let`.
#[verifier::rlimit(50)]
pub proof fn lemma_lift_let_bound(
    e: ExpV,
    vars: Seq<Name>,
    funs: Map<Name, usize>,
    need: Set<Name>,
    g: nat,
)
    requires
        e is Let,
        vars_bound(e, vars.to_set()),
    ensures
        vars_bound(lift(e, vars, funs, need, g), vars.to_set()),
        bodies_bound(hoisted(e, vars, funs, need, g)),
    decreases e, 0nat,
{
    match e {
        ExpV::Let { bindings, body } => {
            let names = binding_names(bindings);
            let n = bindings.len();
            let out = lift_bindings(bindings, vars, funs, need, g);
            let first = hoisted_bindings(bindings, n, vars, funs, need, g);
            let scope = with_names(vars, names, n);
            assert(binding_names(out) =~= names);
            assert forall|i: int| 0 <= i < n implies vars_bound(
                (#[trigger] out[i]).1,
                vars.to_set().union(binding_names(out).take(i).to_set()),
            ) by {
                lemma_with_names_set(vars, names, i as nat);
                assert(vars_bound(bindings[i].1, with_names(vars, names, i as nat).to_set()));
                lemma_lift_bound(
                    bindings[i].1,
                    with_names(vars, names, i as nat),
                    funs,
                    need,
                    g + hoisted_bindings(bindings, i as nat, vars, funs, need, g).len(),
                );
            }
            lemma_hoisted_bindings_bound(bindings, n, vars, funs, need, g);
            lemma_with_names_set(vars, names, n);
            assert(names.take(n as int) =~= names);
            lemma_lift_bound(*body, scope, funs, need, g + first.len());
            lemma_bodies_bound_add(first, hoisted(*body, scope, funs, need, g + first.len()));
        },
        _ => {},
    }
}

/// [`lemma_lift_bound`] for what the functions of a group give rise to, and
/// for what is left of each of them.
#[verifier::rlimit(50)]
pub proof fn lemma_hoisted_decls_bound(
    ds: Seq<FunDeclV>,
    n: nat,
    vars: Seq<Name>,
    funs: Map<Name, usize>,
    need: Set<Name>,
    g: nat,
)
    requires
        forall|i: int|
            0 <= i < ds.len() ==> vars_bound(
                (#[trigger] ds[i]).body,
                vars.to_set().union(ds[i].parameters.to_set()),
            ),
        n <= ds.len(),
    ensures
        bodies_bound(hoisted_decls(ds, n, vars, funs, need, g)),
        forall|i: int|
            0 <= i < kept_decls(ds, n, vars, funs, need, g).len() ==> vars_bound(
                (#[trigger] kept_decls(ds, n, vars, funs, need, g)[i]).body,
                vars.to_set().union(kept_decls(ds, n, vars, funs, need, g)[i].parameters.to_set()),
            ),
    decreases ds, n,
{
    if n > 0 {
        let prev = hoisted_decls(ds, (n - 1) as nat, vars, funs, need, g);
        let d = ds[n - 1];
        let scope = decl_scope(vars, d.parameters);
        lemma_hoisted_decls_bound(ds, (n - 1) as nat, vars, funs, need, g);
        lemma_decl_scope_set(vars, d.parameters);
        assert(vars_bound(d.body, scope.to_set()));
        lemma_lift_bound(d.body, scope, funs, need, g + prev.len());
        let inner = hoisted(d.body, scope, funs, need, g + prev.len());
        lemma_bodies_bound_add(prev, inner);
        if need.contains(d.name) {
            let global = FunDeclV {
                name: d.name,
                parameters: d.parameters + vars,
                body: lift(d.body, scope, funs, need, g + prev.len()),
            };
            lemma_concat_set(d.parameters, vars);
            assert(scope.to_set() =~= global.parameters.to_set());
            assert(bodies_bound(seq![global]));
            lemma_bodies_bound_add(prev + inner, seq![global]);
            assert((prev + inner).push(global) =~= prev + inner + seq![global]);
        }
        let kept = kept_decls(ds, n, vars, funs, need, g);
        let kept_prev = kept_decls(ds, (n - 1) as nat, vars, funs, need, g);
        assert forall|i: int| 0 <= i < kept.len() implies vars_bound(
            (#[trigger] kept[i]).body,
            vars.to_set().union(kept[i].parameters.to_set()),
        ) by {
            if i < kept_prev.len() {
                assert(kept[i] == kept_prev[i]);
            }
        }
    }
}

/// [`lemma_lift_bound`] for a group of functions.
pub proof fn lemma_lift_fundefs_bound(
    e: ExpV,
    vars: Seq<Name>,
    funs: Map<Name, usize>,
    need: Set<Name>,
    g: nat,
)
    requires
        e is FunDefs,
        vars_bound(e, vars.to_set()),
    ensures
        vars_bound(lift(e, vars, funs, need, g), vars.to_set()),
        bodies_bound(hoisted(e, vars, funs, need, g)),
    decreases e, 0nat,
{
    match e {
        ExpV::FunDefs { decls, body } => {
            let n = decls.len();
            let inner = declare(funs, decls, n, vars, need);
            let first = hoisted_decls(decls, n, vars, inner, need, g);
            lemma_hoisted_decls_bound(decls, n, vars, inner, need, g);
            lemma_lift_bound(*body, vars, inner, need, g + first.len());
            lemma_bodies_bound_add(first, hoisted(*body, vars, inner, need, g + first.len()));
        },
        _ => {},
    }
}

/// [`lemma_lift_bound`] for a lambda: the function it becomes reads its
/// parameters and the environment, and binds what it captured itself.
#[verifier::rlimit(50)]
pub proof fn lemma_lift_lambda_bound(
    e: ExpV,
    vars: Seq<Name>,
    funs: Map<Name, usize>,
    need: Set<Name>,
    g: nat,
)
    requires
        e is Lambda,
        vars_bound(e, vars.to_set()),
    ensures
        vars_bound(lift(e, vars, funs, need, g), vars.to_set()),
        bodies_bound(hoisted(e, vars, funs, need, g)),
    decreases e, 0nat,
{
    match e {
        ExpV::Lambda { parameters, body } => {
            let scope = decl_scope(vars, parameters);
            let inner = hoisted(*body, scope, funs, need, g);
            lemma_decl_scope_set(vars, parameters);
            lemma_lift_bound(*body, scope, funs, need, g);
            let reads = env_bindings(vars);
            let new_body = ExpV::Let {
                bindings: reads,
                body: Box::new(lift(*body, scope, funs, need, g)),
            };
            let new_parameters = parameters.push(env_name());
            let own = new_parameters.to_set();
            assert(own.contains(env_name())) by {
                assert(new_parameters[parameters.len() as int] == env_name());
            }
            assert(binding_names(reads) =~= vars);
            assert forall|i: int| 0 <= i < reads.len() implies vars_bound(
                (#[trigger] reads[i]).1,
                own.union(binding_names(reads).take(i).to_set()),
            ) by {
                let args = reads[i].1->Prim_1;
                let seen = own.union(binding_names(reads).take(i).to_set());
                assert(args.len() == 2);
                assert(args[0] == ExpV::Var(env_name()));
                assert(args[1] is Num);
                assert(vars_bound(args[0], seen));
                assert(vars_bound(args[1], seen));
                assert(all_vars_bound(args, seen));
            }
            assert(scope.to_set().subset_of(own.union(vars.to_set()))) by {
                assert forall|x: Name| parameters.to_set().contains(x) implies own.contains(x) by {
                    let i = choose|i: int| 0 <= i < parameters.len() && parameters[i] == x;
                    assert(new_parameters[i] == x);
                }
            }
            lemma_vars_bound_mono(
                lift(*body, scope, funs, need, g),
                scope.to_set(),
                own.union(vars.to_set()),
            );
            assert(vars_bound(new_body, own));
            let global = FunDeclV {
                name: crate::lift::lambda_name(g + inner.len()),
                parameters: new_parameters,
                body: new_body,
            };
            assert(bodies_bound(seq![global]));
            lemma_bodies_bound_add(inner, seq![global]);
            assert(inner.push(global) =~= inner + seq![global]);
            let part = vars;
            assert forall|i: int| 0 <= i < part.len() implies vars.contains(#[trigger] part[i]) by {}
            lemma_captured_bound(vars, part);
            assert(vars_bound(ExpV::Prim(Prim::MakeArray, captured(vars)), vars.to_set()));
        },
        _ => {},
    }
}


/// Whether every call of a global function passes at least as many
/// arguments as the function has parameters, so that the rewriting of calls
/// has nothing to add to it.
pub open spec fn calls_complete(e: ExpV, globals: Seq<FunDeclV>) -> bool
    decreases e,
{
    match e {
        ExpV::Prim(_, es) => all_calls_complete(es, globals),
        ExpV::Let { bindings, body } => (forall|i: int|
            0 <= i < bindings.len() ==> calls_complete((#[trigger] bindings[i]).1, globals))
            && calls_complete(*body, globals),
        ExpV::If { cond, thn, els } => calls_complete(*cond, globals) && calls_complete(
            *thn,
            globals,
        ) && calls_complete(*els, globals),
        ExpV::FunDefs { decls, body } => (forall|i: int|
            0 <= i < decls.len() ==> calls_complete((#[trigger] decls[i]).body, globals))
            && calls_complete(*body, globals),
        ExpV::MakeClosure { env, .. } => calls_complete(*env, globals),
        ExpV::ClosureCall(f, args) => calls_complete(*f, globals) && all_calls_complete(
            args,
            globals,
        ),
        ExpV::DirectCall(f, args) => (find_decl(globals, f) matches Some(d)
            ==> d.parameters.len() <= args.len()) && all_calls_complete(args, globals),
        _ => true,
    }
}

/// [`calls_complete`] of every expression of a list.
pub open spec fn all_calls_complete(es: Seq<ExpV>, globals: Seq<FunDeclV>) -> bool
    decreases es,
{
    forall|i: int| 0 <= i < es.len() ==> calls_complete(#[trigger] es[i], globals)
}

/// Rewriting the calls keeps variables bound, where every call of a global
/// function is complete: the protocol of a closure call reads only what it
/// binds itself.
pub proof fn lemma_rewrite_bound(e: ExpV, globals: Seq<FunDeclV>, is_tail: bool, scope: Set<Name>)
    requires
        vars_bound(e, scope),
        calls_complete(e, globals),
    ensures
        vars_bound(rewrite(e, globals, is_tail), scope),
    decreases e, 1nat,
{
    match e {
        ExpV::Prim(_, es) => {
            lemma_rewrite_list_bound(es, globals, scope);
        },
        ExpV::DirectCall(f, args) => {
            lemma_rewrite_list_bound(args, globals, scope);
            let out = rewrite_list(args, globals);
            match find_decl(globals, f) {
                Some(d) => {
                    assert(missing(d.parameters, args.len()).len() == 0);
                    assert(out + captured(missing(d.parameters, args.len())) =~= out);
                },
                None => {},
            }
        },
        ExpV::MakeClosure { env, .. } => {
            lemma_rewrite_bound(*env, globals, false, scope);
        },
        ExpV::If { cond, thn, els } => {
            lemma_rewrite_bound(*cond, globals, false, scope);
            lemma_rewrite_bound(*thn, globals, is_tail, scope);
            lemma_rewrite_bound(*els, globals, is_tail, scope);
        },
        ExpV::Let { bindings, body } => {
            let names = binding_names(bindings);
            let out = rewrite_bindings(bindings, globals);
            assert(binding_names(out) =~= names);
            assert forall|i: int| 0 <= i < out.len() implies vars_bound(
                (#[trigger] out[i]).1,
                scope.union(binding_names(out).take(i).to_set()),
            ) by {
                lemma_rewrite_bound(
                    bindings[i].1,
                    globals,
                    false,
                    scope.union(names.take(i).to_set()),
                );
            }
            lemma_rewrite_bound(*body, globals, is_tail, scope.union(names.to_set()));
        },
        ExpV::FunDefs { decls, body } => {
            let out = rewrite_decls(decls, globals);
            assert forall|i: int| 0 <= i < out.len() implies vars_bound(
                (#[trigger] out[i]).body,
                scope.union(out[i].parameters.to_set()),
            ) by {
                lemma_rewrite_bound(
                    decls[i].body,
                    globals,
                    true,
                    scope.union(decls[i].parameters.to_set()),
                );
            }
            lemma_rewrite_bound(*body, globals, is_tail, scope);
        },
        ExpV::ClosureCall(f, args) => {
            lemma_rewrite_bound(*f, globals, false, scope);
            lemma_rewrite_list_bound(args, globals, scope);
            lemma_protocol_bound(
                rewrite(*f, globals, false),
                rewrite_list(args, globals),
                is_tail,
                scope,
            );
        },
        _ => {},
    }
}

/// [`lemma_rewrite_bound`] for a list of expressions.
pub proof fn lemma_rewrite_list_bound(es: Seq<ExpV>, globals: Seq<FunDeclV>, scope: Set<Name>)
    requires
        all_vars_bound(es, scope),
        all_calls_complete(es, globals),
    ensures
        all_vars_bound(rewrite_list(es, globals), scope),
    decreases es, 0nat,
{
    assert forall|i: int| 0 <= i < es.len() implies vars_bound(
        #[trigger] rewrite_list(es, globals)[i],
        scope,
    ) by {
        lemma_rewrite_bound(es[i], globals, false, scope);
    }
}

/// The protocol of a closure call reads the callee and the arguments where
/// the call stood, and else only what it binds itself.
#[verifier::rlimit(50)]
pub proof fn lemma_protocol_bound(callee: ExpV, args: Seq<ExpV>, is_tail: bool, scope: Set<Name>)
    requires
        vars_bound(callee, scope),
        all_vars_bound(args, scope),
    ensures
        vars_bound(closure_protocol(callee, args, is_tail), scope),
{
    let p = closure_protocol(callee, args, is_tail);
    let bindings = p->Let_bindings;
    let names = binding_names(bindings);
    assert(names =~= seq!["#lambda"@, "#untagged"@, "#code_ptr"@, "#env"@]);
    assert forall|i: int| 0 <= i < bindings.len() implies vars_bound(
        (#[trigger] bindings[i]).1,
        scope.union(names.take(i).to_set()),
    ) by {
        let seen = scope.union(names.take(i).to_set());
        if i == 0 {
            lemma_vars_bound_mono(callee, scope, seen);
        } else {
            let operands = bindings[i].1->Prim_1;
            assert(operands.len() == 1);
            assert(names.take(i)[i - 1] == names[i - 1]);
            if i == 1 {
                assert(names.take(i).contains("#lambda"@));
            } else {
                assert(names.take(i)[1] == names[1]);
                assert(names.take(i).contains("#untagged"@));
            }
            assert(vars_bound(operands[0], seen));
            assert(all_vars_bound(operands, seen));
        }
    }
    let inner = scope.union(names.to_set());
    let all = args.push(ExpV::Var("#env"@));
    assert(names[2] == "#code_ptr"@ && names[3] == "#env"@);
    assert(names.contains("#code_ptr"@) && names.contains("#env"@));
    lemma_all_vars_bound_mono(args, scope, inner);
    assert forall|i: int| 0 <= i < all.len() implies vars_bound(#[trigger] all[i], inner) by {
        if i < args.len() {
            assert(all[i] == args[i]);
        }
    }
    assert(all_vars_bound(all, inner));
    let body = ExpV::ExternalCall { fun: VarOrLabelV::Var("#code_ptr"@), args: all, is_tail };
    assert(inner.contains("#code_ptr"@));
    assert(vars_bound(body, inner));
    assert(p == ExpV::Let { bindings, body: Box::new(body) });
}

/// The functions that closure conversion knows after a group was declared:
/// those it knew before and the functions of the group.
pub proof fn lemma_with_decls_dom(funcs: Map<Name, usize>, ds: Seq<FunDeclV>, n: nat)
    requires
        n <= ds.len(),
    ensures
        with_decls(funcs, ds, n).dom() == funcs.dom().union(decl_names(ds).take(n as int).to_set()),
    decreases n,
{
    let names = decl_names(ds);
    if n == 0 {
        assert(names.take(0).to_set() =~= Set::<Name>::empty());
        assert(funcs.dom().union(Set::<Name>::empty()) =~= funcs.dom());
    } else {
        lemma_with_decls_dom(funcs, ds, (n - 1) as nat);
        assert(names.take(n as int) =~= names.take(n - 1).push(names[n - 1]));
        names.take(n - 1).lemma_push_to_set_commute(names[n - 1]);
        assert(with_decls(funcs, ds, n).dom() =~= funcs.dom().union(
            names.take(n as int).to_set(),
        ));
    }
}

/// Closure conversion keeps variables bound: a name that was in scope is a
/// known function, and becomes a closure or the target of a direct call, or
/// it is a variable and stays one.
#[verifier::rlimit(50)]
pub proof fn lemma_convert_bound(e: ExpV, funcs: Map<Name, usize>, vars: Set<Name>)
    requires
        in_stage(e, Stage::Core),
        scoped(e, vars.union(funcs.dom())),
    ensures
        vars_bound(convert(e, funcs), vars),
    decreases e, 1nat,
{
    match e {
        ExpV::Var(x) => {
            if funcs.contains_key(x) {
                let env = ExpV::Prim(Prim::MakeArray, Seq::<ExpV>::empty());
                assert(all_vars_bound(Seq::<ExpV>::empty(), vars));
                assert(vars_bound(env, vars));
            }
        },
        ExpV::Prim(_, es) => {
            lemma_convert_list_bound(es, funcs, vars);
        },
        ExpV::If { cond, thn, els } => {
            lemma_convert_bound(*cond, funcs, vars);
            lemma_convert_bound(*thn, funcs, vars);
            lemma_convert_bound(*els, funcs, vars);
        },
        ExpV::Call(f, args) => {
            lemma_convert_list_bound(args, funcs, vars);
            if known_callee(*f, funcs) is None {
                lemma_convert_bound(*f, funcs, vars);
            }
        },
        ExpV::Lambda { parameters, body } => {
            assert(vars.union(parameters.to_set()).union(funcs.dom()) =~= vars.union(
                funcs.dom(),
            ).union(parameters.to_set()));
            lemma_convert_bound(*body, funcs, vars.union(parameters.to_set()));
        },
        ExpV::Let { bindings, body } => {
            let names = binding_names(bindings);
            let out = convert_bindings(bindings, funcs);
            assert(binding_names(out) =~= names);
            assert forall|i: int| 0 <= i < out.len() implies vars_bound(
                (#[trigger] out[i]).1,
                vars.union(binding_names(out).take(i).to_set()),
            ) by {
                assert(in_stage(bindings[i].1, Stage::Core));
                assert(vars.union(names.take(i).to_set()).union(funcs.dom()) =~= vars.union(
                    funcs.dom(),
                ).union(names.take(i).to_set()));
                lemma_convert_bound(bindings[i].1, funcs, vars.union(names.take(i).to_set()));
            }
            assert(vars.union(names.to_set()).union(funcs.dom()) =~= vars.union(funcs.dom()).union(
                names.to_set(),
            ));
            lemma_convert_bound(*body, funcs, vars.union(names.to_set()));
        },
        ExpV::FunDefs { decls, body } => {
            let n = decls.len();
            let names = decl_names(decls);
            let inner = with_decls(funcs, decls, n);
            let out = convert_decls(decls, inner);
            lemma_with_decls_dom(funcs, decls, n);
            assert(names.take(n as int) =~= names);
            assert forall|i: int| 0 <= i < out.len() implies vars_bound(
                (#[trigger] out[i]).body,
                vars.union(out[i].parameters.to_set()),
            ) by {
                let ps = decls[i].parameters.to_set();
                assert(in_stage(decls[i].body, Stage::Core));
                assert(vars.union(ps).union(inner.dom()) =~= vars.union(funcs.dom()).union(
                    names.to_set(),
                ).union(ps));
                lemma_convert_bound(decls[i].body, inner, vars.union(ps));
            }
            assert(vars.union(inner.dom()) =~= vars.union(funcs.dom()).union(names.to_set()));
            lemma_convert_bound(*body, inner, vars);
        },
        _ => {},
    }
}

/// [`lemma_convert_bound`] for a list of expressions.
pub proof fn lemma_convert_list_bound(es: Seq<ExpV>, funcs: Map<Name, usize>, vars: Set<Name>)
    requires
        all_in_stage(es, Stage::Core),
        forall|i: int| 0 <= i < es.len() ==> scoped(#[trigger] es[i], vars.union(funcs.dom())),
    ensures
        all_vars_bound(convert_list(es, funcs), vars),
    decreases es, 0nat,
{
    assert forall|i: int| 0 <= i < es.len() implies vars_bound(
        #[trigger] convert_list(es, funcs)[i],
        vars,
    ) by {
        lemma_convert_bound(es[i], funcs, vars);
    }
}


/// Whether every internal tail call in an expression goes to a function in
/// `local` or to a local function that the expression declares itself, and
/// the expression holds only forms of a lifted program.
pub open spec fn calls_local(e: ExpV, local: Set<Name>) -> bool
    decreases e,
{
    match e {
        ExpV::Num(_) | ExpV::Bool(_) | ExpV::Var(_) => true,
        ExpV::Prim(_, es) => all_calls_local(es, local),
        ExpV::Let { bindings, body } => (forall|i: int|
            0 <= i < bindings.len() ==> calls_local((#[trigger] bindings[i]).1, local))
            && calls_local(*body, local),
        ExpV::If { cond, thn, els } => calls_local(*cond, local) && calls_local(*thn, local)
            && calls_local(*els, local),
        ExpV::FunDefs { decls, body } => {
            let inner = local.union(decl_names(decls).to_set());
            (forall|i: int| 0 <= i < decls.len() ==> calls_local((#[trigger] decls[i]).body, inner))
                && calls_local(*body, inner)
        },
        ExpV::MakeClosure { env, .. } => calls_local(*env, local),
        ExpV::InternalTailCall(f, args) => local.contains(f) && all_calls_local(args, local),
        ExpV::ExternalCall { args, .. } => all_calls_local(args, local),
        _ => false,
    }
}

/// [`calls_local`] of every expression of a list.
pub open spec fn all_calls_local(es: Seq<ExpV>, local: Set<Name>) -> bool
    decreases es,
{
    forall|i: int| 0 <= i < es.len() ==> calls_local(#[trigger] es[i], local)
}

/// Whether the body of every function of a list, with its calls rewritten,
/// makes no internal tail call but to local functions of its own.
pub open spec fn bodies_local(ds: Seq<FunDeclV>, globals: Seq<FunDeclV>) -> bool {
    forall|i: int|
        0 <= i < ds.len() ==> calls_local(
            rewrite((#[trigger] ds[i]).body, globals, true),
            Set::empty(),
        )
}

/// Whether the target of every direct call in an expression, and the
/// function of every closure that it makes, is in `known` or a function that
/// the expression declares around the place.
pub open spec fn targets_known(e: ExpV, known: Set<Name>) -> bool
    decreases e,
{
    match e {
        ExpV::Prim(_, es) => all_targets_known(es, known),
        ExpV::Let { bindings, body } => (forall|i: int|
            0 <= i < bindings.len() ==> targets_known((#[trigger] bindings[i]).1, known))
            && targets_known(*body, known),
        ExpV::If { cond, thn, els } => targets_known(*cond, known) && targets_known(*thn, known)
            && targets_known(*els, known),
        ExpV::FunDefs { decls, body } => {
            let inner = known.union(decl_names(decls).to_set());
            (forall|i: int|
                0 <= i < decls.len() ==> targets_known((#[trigger] decls[i]).body, inner))
                && targets_known(*body, inner)
        },
        ExpV::Lambda { body, .. } => targets_known(*body, known),
        ExpV::MakeClosure { label, env, .. } => known.contains(label) && targets_known(*env, known),
        ExpV::ClosureCall(f, args) => targets_known(*f, known) && all_targets_known(args, known),
        ExpV::DirectCall(f, args) => known.contains(f) && all_targets_known(args, known),
        _ => true,
    }
}

/// [`targets_known`] of every expression of a list.
pub open spec fn all_targets_known(es: Seq<ExpV>, known: Set<Name>) -> bool
    decreases es,
{
    forall|i: int| 0 <= i < es.len() ==> targets_known(#[trigger] es[i], known)
}

/// Closure conversion makes direct calls of known functions only, and
/// leaves a program of the next stage.
pub proof fn lemma_convert_targets(e: ExpV, funcs: Map<Name, usize>)
    requires
        in_stage(e, Stage::Core),
    ensures
        targets_known(convert(e, funcs), funcs.dom()),
        in_stage(convert(e, funcs), Stage::Converted),
    decreases e, 1nat,
{
    match e {
        ExpV::Var(x) => {
            if funcs.contains_key(x) {
                let env = ExpV::Prim(Prim::MakeArray, Seq::<ExpV>::empty());
                assert(all_targets_known(Seq::<ExpV>::empty(), funcs.dom()));
                assert(targets_known(env, funcs.dom()));
                assert(all_in_stage(Seq::<ExpV>::empty(), Stage::Converted));
                assert(in_stage(env, Stage::Converted));
            }
        },
        ExpV::Prim(_, es) => {
            lemma_convert_list_targets(es, funcs);
        },
        ExpV::If { cond, thn, els } => {
            lemma_convert_targets(*cond, funcs);
            lemma_convert_targets(*thn, funcs);
            lemma_convert_targets(*els, funcs);
        },
        ExpV::Call(f, args) => {
            lemma_convert_list_targets(args, funcs);
            if known_callee(*f, funcs) is None {
                lemma_convert_targets(*f, funcs);
            }
        },
        ExpV::Lambda { parameters, body } => {
            lemma_convert_targets(*body, funcs);
        },
        ExpV::Let { bindings, body } => {
            let out = convert_bindings(bindings, funcs);
            assert forall|i: int| 0 <= i < out.len() implies targets_known(
                (#[trigger] out[i]).1,
                funcs.dom(),
            ) && in_stage(out[i].1, Stage::Converted) by {
                assert(in_stage(bindings[i].1, Stage::Core));
                lemma_convert_targets(bindings[i].1, funcs);
            }
            lemma_convert_targets(*body, funcs);
        },
        ExpV::FunDefs { decls, body } => {
            let n = decls.len();
            let names = decl_names(decls);
            let inner = with_decls(funcs, decls, n);
            let out = convert_decls(decls, inner);
            lemma_with_decls_dom(funcs, decls, n);
            assert(names.take(n as int) =~= names);
            assert(decl_names(out) =~= names);
            assert forall|i: int| 0 <= i < out.len() implies targets_known(
                (#[trigger] out[i]).body,
                funcs.dom().union(decl_names(out).to_set()),
            ) && in_stage(out[i].body, Stage::Converted) by {
                assert(in_stage(decls[i].body, Stage::Core));
                lemma_convert_targets(decls[i].body, inner);
            }
            lemma_convert_targets(*body, inner);
        },
        _ => {},
    }
}

/// [`lemma_convert_targets`] for a list of expressions.
pub proof fn lemma_convert_list_targets(es: Seq<ExpV>, funcs: Map<Name, usize>)
    requires
        all_in_stage(es, Stage::Core),
    ensures
        all_targets_known(convert_list(es, funcs), funcs.dom()),
        all_in_stage(convert_list(es, funcs), Stage::Converted),
    decreases es, 0nat,
{
    assert forall|i: int| 0 <= i < es.len() implies targets_known(
        #[trigger] convert_list(es, funcs)[i],
        funcs.dom(),
    ) && in_stage(convert_list(es, funcs)[i], Stage::Converted) by {
        lemma_convert_targets(es[i], funcs);
    }
}

/// A function that is among the global functions is found by its name.
pub proof fn lemma_find_decl_some(globals: Seq<FunDeclV>, k: int)
    requires
        0 <= k < globals.len(),
    ensures
        find_decl(globals, globals[k].name) is Some,
    decreases globals.len(),
{
    if k < globals.len() - 1 && globals.last().name != globals[k].name {
        assert(globals.drop_last()[k] == globals[k]);
        lemma_find_decl_some(globals.drop_last(), k);
    }
}

/// Whether every function of `part` is among `all`.
pub open spec fn each_within(part: Seq<FunDeclV>, all: Seq<FunDeclV>) -> bool {
    forall|j: int| 0 <= j < part.len() ==> all.contains(#[trigger] part[j])
}

/// The functions of the parts of a list are within what the list is within.
pub proof fn lemma_within_parts(a: Seq<FunDeclV>, b: Seq<FunDeclV>, all: Seq<FunDeclV>)
    requires
        each_within(a + b, all),
    ensures
        each_within(a, all),
        each_within(b, all),
{
    assert forall|j: int| 0 <= j < a.len() implies all.contains(#[trigger] a[j]) by {
        assert((a + b)[j] == a[j]);
    }
    assert forall|j: int| 0 <= j < b.len() implies all.contains(#[trigger] b[j]) by {
        assert((a + b)[a.len() + j] == b[j]);
    }
}

/// The bodies of two lists of functions are local if those of each are.
pub proof fn lemma_bodies_local_add(a: Seq<FunDeclV>, b: Seq<FunDeclV>, globals: Seq<FunDeclV>)
    requires
        bodies_local(a, globals),
        bodies_local(b, globals),
    ensures
        bodies_local(a + b, globals),
{
    assert forall|i: int| 0 <= i < (a + b).len() implies calls_local(
        rewrite((#[trigger] (a + b)[i]).body, globals, true),
        Set::empty(),
    ) by {
        if i < a.len() {
            assert((a + b)[i] == a[i]);
        } else {
            assert((a + b)[i] == b[i - a.len()]);
        }
    }
}

/// What a place in the program may assume: a function that is known and
/// needed is global; and a function that may be called locally is either
/// global or declared in the function body that the place stands in.
pub open spec fn placed(
    known: Set<Name>,
    local: Set<Name>,
    here: Set<Name>,
    need: Set<Name>,
    globals: Seq<FunDeclV>,
) -> bool {
    &&& forall|f: Name| known.contains(f) && need.contains(f) ==> find_decl(globals, f) is Some
    &&& forall|f: Name| local.contains(f) && find_decl(globals, f) is None ==> here.contains(f)
}

/// The marks of an expression of a list are among the marks of the list.
pub proof fn lemma_marks_list_part(
    es: Seq<ExpV>,
    i: int,
    n: nat,
    known: Set<Name>,
    local: Set<Name>,
)
    requires
        0 <= i < n <= es.len(),
    ensures
        marks(es[i], known, local, false).subset_of(marks_list(es, n, known, local)),
    decreases n,
{
    if i < n - 1 {
        lemma_marks_list_part(es, i, (n - 1) as nat, known, local);
    }
}

/// The marks of a binding are among the marks of the bindings.
pub proof fn lemma_marks_bindings_part(
    bs: Seq<(Name, ExpV)>,
    i: int,
    n: nat,
    known: Set<Name>,
    local: Set<Name>,
)
    requires
        0 <= i < n <= bs.len(),
    ensures
        marks(bs[i].1, known, local, false).subset_of(marks_bindings(bs, n, known, local)),
    decreases n,
{
    if i < n - 1 {
        lemma_marks_bindings_part(bs, i, (n - 1) as nat, known, local);
    }
}

/// The marks of the body of a function are among the marks of its group.
pub proof fn lemma_marks_decls_part(
    ds: Seq<FunDeclV>,
    i: int,
    n: nat,
    known: Set<Name>,
    names: Set<Name>,
)
    requires
        0 <= i < n <= ds.len(),
    ensures
        marks(ds[i].body, known, names, true).subset_of(marks_decls(ds, n, known, names)),
    decreases n,
{
    if i < n - 1 {
        lemma_marks_decls_part(ds, i, (n - 1) as nat, known, names);
    }
}

/// What an expression of a list gives rise to is within what the list gives
/// rise to.
pub proof fn lemma_hoisted_list_part(
    es: Seq<ExpV>,
    i: int,
    n: nat,
    vars: Seq<Name>,
    funs: Map<Name, usize>,
    need: Set<Name>,
    g: nat,
)
    requires
        0 <= i < n <= es.len(),
    ensures
        each_within(
            hoisted(
                es[i],
                vars,
                funs,
                need,
                g + hoisted_list(es, i as nat, vars, funs, need, g).len(),
            ),
            hoisted_list(es, n, vars, funs, need, g),
        ),
    decreases n,
{
    let all = hoisted_list(es, n, vars, funs, need, g);
    let prev = hoisted_list(es, (n - 1) as nat, vars, funs, need, g);
    let last = hoisted(es[n - 1], vars, funs, need, g + prev.len());
    let part = hoisted(
        es[i],
        vars,
        funs,
        need,
        g + hoisted_list(es, i as nat, vars, funs, need, g).len(),
    );
    if i < n - 1 {
        lemma_hoisted_list_part(es, i, (n - 1) as nat, vars, funs, need, g);
        assert forall|j: int| 0 <= j < part.len() implies all.contains(#[trigger] part[j]) by {
            let k = choose|k: int| 0 <= k < prev.len() && prev[k] == part[j];
            assert(all[k] == part[j]);
        }
    } else {
        assert forall|j: int| 0 <= j < part.len() implies all.contains(#[trigger] part[j]) by {
            assert(all[prev.len() + j] == part[j]);
        }
    }
}

/// What a binding gives rise to is within what the bindings give rise to.
pub proof fn lemma_hoisted_bindings_part(
    bs: Seq<(Name, ExpV)>,
    i: int,
    n: nat,
    vars: Seq<Name>,
    funs: Map<Name, usize>,
    need: Set<Name>,
    g: nat,
)
    requires
        0 <= i < n <= bs.len(),
    ensures
        each_within(
            hoisted(
                bs[i].1,
                with_names(vars, binding_names(bs), i as nat),
                funs,
                need,
                g + hoisted_bindings(bs, i as nat, vars, funs, need, g).len(),
            ),
            hoisted_bindings(bs, n, vars, funs, need, g),
        ),
    decreases n,
{
    let all = hoisted_bindings(bs, n, vars, funs, need, g);
    let prev = hoisted_bindings(bs, (n - 1) as nat, vars, funs, need, g);
    let part = hoisted(
        bs[i].1,
        with_names(vars, binding_names(bs), i as nat),
        funs,
        need,
        g + hoisted_bindings(bs, i as nat, vars, funs, need, g).len(),
    );
    if i < n - 1 {
        lemma_hoisted_bindings_part(bs, i, (n - 1) as nat, vars, funs, need, g);
        assert forall|j: int| 0 <= j < part.len() implies all.contains(#[trigger] part[j]) by {
            let k = choose|k: int| 0 <= k < prev.len() && prev[k] == part[j];
            assert(all[k] == part[j]);
        }
    } else {
        assert forall|j: int| 0 <= j < part.len() implies all.contains(#[trigger] part[j]) by {
            assert(all[prev.len() + j] == part[j]);
        }
    }
}

/// What the body of a function gives rise to is within what its group gives
/// rise to; and so is the function itself, if the group becomes global.
#[verifier::rlimit(50)]
pub proof fn lemma_hoisted_decls_part(
    ds: Seq<FunDeclV>,
    i: int,
    n: nat,
    vars: Seq<Name>,
    funs: Map<Name, usize>,
    need: Set<Name>,
    g: nat,
)
    requires
        0 <= i < n <= ds.len(),
    ensures
        each_within(
            hoisted(
                ds[i].body,
                decl_scope(vars, ds[i].parameters),
                funs,
                need,
                g + hoisted_decls(ds, i as nat, vars, funs, need, g).len(),
            ),
            hoisted_decls(ds, n, vars, funs, need, g),
        ),
        need.contains(ds[i].name) ==> exists|k: int|
            0 <= k < hoisted_decls(ds, n, vars, funs, need, g).len() && (#[trigger] hoisted_decls(
                ds,
                n,
                vars,
                funs,
                need,
                g,
            )[k]).name == ds[i].name && hoisted_decls(ds, n, vars, funs, need, g)[k].parameters
                == ds[i].parameters + vars && hoisted_decls(ds, n, vars, funs, need, g)[k].body
                == lift(
                ds[i].body,
                decl_scope(vars, ds[i].parameters),
                funs,
                need,
                g + hoisted_decls(ds, i as nat, vars, funs, need, g).len(),
            ),
    decreases n,
{
    let all = hoisted_decls(ds, n, vars, funs, need, g);
    let prev = hoisted_decls(ds, (n - 1) as nat, vars, funs, need, g);
    let part = hoisted(
        ds[i].body,
        decl_scope(vars, ds[i].parameters),
        funs,
        need,
        g + hoisted_decls(ds, i as nat, vars, funs, need, g).len(),
    );
    if i < n - 1 {
        lemma_hoisted_decls_part(ds, i, (n - 1) as nat, vars, funs, need, g);
        assert forall|j: int| 0 <= j < part.len() implies all.contains(#[trigger] part[j]) by {
            let k = choose|k: int| 0 <= k < prev.len() && prev[k] == part[j];
            assert(all[k] == part[j]);
        }
        if need.contains(ds[i].name) {
            let k = choose|k: int|
                0 <= k < prev.len() && (#[trigger] prev[k]).name == ds[i].name && prev[k].parameters
                    == ds[i].parameters + vars && prev[k].body == lift(
                    ds[i].body,
                    decl_scope(vars, ds[i].parameters),
                    funs,
                    need,
                    g + hoisted_decls(ds, i as nat, vars, funs, need, g).len(),
                );
            assert(all[k] == prev[k]);
        }
    } else {
        assert forall|j: int| 0 <= j < part.len() implies all.contains(#[trigger] part[j]) by {
            assert(all[prev.len() + j] == part[j]);
        }
        if need.contains(ds[i].name) {
            assert(all[all.len() - 1].name == ds[i].name);
        }
    }
}

/// What is within a part is within the whole.
pub proof fn lemma_within_trans(a: Seq<FunDeclV>, b: Seq<FunDeclV>, all: Seq<FunDeclV>)
    requires
        each_within(a, b),
        each_within(b, all),
    ensures
        each_within(a, all),
{
    assert forall|j: int| 0 <= j < a.len() implies all.contains(#[trigger] a[j]) by {
        let k = choose|k: int| 0 <= k < b.len() && b[k] == a[j];
        assert(all.contains(b[k]));
    }
}


/// A place in a program that is being lifted.
pub struct Place {
    /// The variables in scope.
    pub vars: Seq<Name>,
    /// The functions in scope, each with the number of variables that a call
    /// of it passes on.
    pub funs: Map<Name, usize>,
    /// The number of global functions before.
    pub g: nat,
    /// The functions that a direct call may name.
    pub known: Set<Name>,
    /// The functions that a tail call may reach without leaving the frame.
    pub local: Set<Name>,
    /// Whether the value of the expression is the value of the function it
    /// stands in.
    pub is_tail: bool,
    /// The local functions declared around the place, in the body of the
    /// global function that it ends up in.
    pub here: Set<Name>,
}

/// The place of an operand: the same place, not in tail position, with `g`
/// global functions before.
pub open spec fn operand_place(pl: Place, g: nat) -> Place {
    Place { g, is_tail: false, ..pl }
}

/// What lifting asks of an expression at a place: its forms are those of a
/// converted program, its direct calls name known functions, the functions
/// that its uses force to become global are in `need`, the place is sound,
/// and what it gives rise to is among the global functions.
pub open spec fn fits_place(e: ExpV, pl: Place, need: Set<Name>, globals: Seq<FunDeclV>) -> bool {
    &&& in_stage(e, Stage::Converted)
    &&& targets_known(e, pl.known)
    &&& marks(e, pl.known, pl.local, pl.is_tail).subset_of(need)
    &&& groups_whole(e, need)
    &&& placed(pl.known, pl.local, pl.here, need, globals)
    &&& each_within(hoisted(e, pl.vars, pl.funs, need, pl.g), globals)
}

/// What lifting gives at a place: every internal tail call of what is left
/// goes to a local function declared around it, and the functions that went
/// to the top level call no local function but their own.
pub open spec fn left_local(e: ExpV, pl: Place, need: Set<Name>, globals: Seq<FunDeclV>) -> bool {
    &&& calls_local(
        rewrite(lift(e, pl.vars, pl.funs, need, pl.g), globals, pl.is_tail),
        pl.here,
    )
    &&& bodies_local(hoisted(e, pl.vars, pl.funs, need, pl.g), globals)
}

/// The variables in scope, passed on, make no calls.
pub proof fn lemma_captured_local(part: Seq<Name>, globals: Seq<FunDeclV>, here: Set<Name>)
    ensures
        all_calls_local(rewrite_list(captured(part), globals), here),
{
    assert forall|i: int| 0 <= i < part.len() implies calls_local(
        #[trigger] rewrite_list(captured(part), globals)[i],
        here,
    ) by {
        assert(captured(part)[i] == ExpV::Var(part[i]));
    }
}

/// The protocol of a closure call makes no internal tail call but those of
/// the callee and of the arguments.
pub proof fn lemma_protocol_local(callee: ExpV, args: Seq<ExpV>, is_tail: bool, here: Set<Name>)
    requires
        calls_local(callee, here),
        all_calls_local(args, here),
    ensures
        calls_local(closure_protocol(callee, args, is_tail), here),
{
    let p = closure_protocol(callee, args, is_tail);
    let bindings = p->Let_bindings;
    assert forall|i: int| 0 <= i < bindings.len() implies calls_local(
        (#[trigger] bindings[i]).1,
        here,
    ) by {
        if i > 0 {
            let operands = bindings[i].1->Prim_1;
            assert(operands.len() == 1);
            assert(calls_local(operands[0], here));
            assert(all_calls_local(operands, here));
        }
    }
    let all = args.push(ExpV::Var("#env"@));
    assert forall|i: int| 0 <= i < all.len() implies calls_local(#[trigger] all[i], here) by {
        if i < args.len() {
            assert(all[i] == args[i]);
        }
    }
    assert(all_calls_local(all, here));
    let body = ExpV::ExternalCall { fun: VarOrLabelV::Var("#code_ptr"@), args: all, is_tail };
    assert(calls_local(body, here));
    assert(p == ExpV::Let { bindings, body: Box::new(body) });
}

/// Lifting keeps calls local: see [`left_local`].
pub proof fn lemma_lift_calls(e: ExpV, pl: Place, need: Set<Name>, globals: Seq<FunDeclV>)
    requires
        fits_place(e, pl, need, globals),
    ensures
        left_local(e, pl, need, globals),
    decreases e, 1nat,
{
    match e {
        ExpV::Num(_) | ExpV::Bool(_) | ExpV::Var(_) => {},
        ExpV::Prim(..) | ExpV::DirectCall(..) => {
            lemma_lift_operands_calls(e, pl, need, globals);
        },
        ExpV::ClosureCall(..) | ExpV::MakeClosure { .. } | ExpV::If { .. } => {
            lemma_lift_parts_calls(e, pl, need, globals);
        },
        ExpV::Let { .. } => {
            lemma_lift_let_calls(e, pl, need, globals);
        },
        ExpV::FunDefs { .. } => {
            lemma_lift_fundefs_calls(e, pl, need, globals);
        },
        ExpV::Lambda { .. } => {
            lemma_lift_lambda_calls(e, pl, need, globals);
        },
        _ => {},
    }
}

/// [`lemma_lift_calls`] for the first `n` expressions of a list of operands.
pub proof fn lemma_lift_list_calls(
    es: Seq<ExpV>,
    n: nat,
    pl: Place,
    need: Set<Name>,
    globals: Seq<FunDeclV>,
)
    requires
        n <= es.len(),
        all_in_stage(es, Stage::Converted),
        all_targets_known(es, pl.known),
        all_groups_whole(es, need),
        marks_list(es, es.len(), pl.known, pl.local).subset_of(need),
        placed(pl.known, pl.local, pl.here, need, globals),
        each_within(hoisted_list(es, es.len(), pl.vars, pl.funs, need, pl.g), globals),
    ensures
        forall|i: int|
            0 <= i < n ==> calls_local(
                #[trigger] rewrite_list(lift_list(es, pl.vars, pl.funs, need, pl.g), globals)[i],
                pl.here,
            ),
        bodies_local(hoisted_list(es, n, pl.vars, pl.funs, need, pl.g), globals),
    decreases es, n,
{
    if n > 0 {
        let prev = hoisted_list(es, (n - 1) as nat, pl.vars, pl.funs, need, pl.g);
        let at = operand_place(pl, pl.g + prev.len());
        lemma_lift_list_calls(es, (n - 1) as nat, pl, need, globals);
        lemma_marks_list_part(es, n - 1, es.len(), pl.known, pl.local);
        lemma_hoisted_list_part(es, n - 1, es.len(), pl.vars, pl.funs, need, pl.g);
        lemma_within_trans(
            hoisted(es[n - 1], pl.vars, pl.funs, need, pl.g + prev.len()),
            hoisted_list(es, es.len(), pl.vars, pl.funs, need, pl.g),
            globals,
        );
        assert(in_stage(es[n - 1], Stage::Converted));
        assert(targets_known(es[n - 1], pl.known));
        lemma_lift_calls(es[n - 1], at, need, globals);
        lemma_bodies_local_add(
            prev,
            hoisted(es[n - 1], pl.vars, pl.funs, need, pl.g + prev.len()),
            globals,
        );
    }
}

/// [`lemma_lift_calls`] for a primitive and for a direct call.
#[verifier::rlimit(50)]
pub proof fn lemma_lift_operands_calls(e: ExpV, pl: Place, need: Set<Name>, globals: Seq<FunDeclV>)
    requires
        e is Prim || e is DirectCall,
        fits_place(e, pl, need, globals),
    ensures
        left_local(e, pl, need, globals),
    decreases e, 0nat,
{
    match e {
        ExpV::Prim(p, es) => {
            lemma_lift_list_calls(es, es.len(), pl, need, globals);
            let out = rewrite_list(lift_list(es, pl.vars, pl.funs, need, pl.g), globals);
            assert(all_calls_local(out, pl.here));
        },
        ExpV::DirectCall(f, args) => {
            let first = lift_list(args, pl.vars, pl.funs, need, pl.g);
            let extra = captured(passed(pl.vars, pl.funs, f));
            lemma_lift_list_calls(args, args.len(), pl, need, globals);
            lemma_captured_local(passed(pl.vars, pl.funs, f), globals, pl.here);
            let out = rewrite_list(first + extra, globals);
            assert forall|i: int| 0 <= i < out.len() implies calls_local(
                #[trigger] out[i],
                pl.here,
            ) by {
                if i < first.len() {
                    assert((first + extra)[i] == first[i]);
                    assert(out[i] == rewrite_list(first, globals)[i]);
                } else {
                    assert((first + extra)[i] == extra[i - first.len()]);
                    assert(out[i] == rewrite_list(extra, globals)[i - first.len()]);
                }
            }
            assert(all_calls_local(out, pl.here));
            match find_decl(globals, f) {
                Some(d) => {
                    let rest = missing(d.parameters, (first + extra).len());
                    let open = captured(rest);
                    assert forall|i: int| 0 <= i < (out + open).len() implies calls_local(
                        #[trigger] (out + open)[i],
                        pl.here,
                    ) by {
                        if i < out.len() {
                            assert((out + open)[i] == out[i]);
                        } else {
                            assert((out + open)[i] == open[i - out.len()]);
                            assert(open[i - out.len()] == ExpV::Var(rest[i - out.len()]));
                        }
                    }
                    assert(all_calls_local(out + open, pl.here));
                    assert(rewrite(
                        ExpV::DirectCall(f, first + extra),
                        globals,
                        pl.is_tail,
                    ) == ExpV::ExternalCall {
                        fun: crate::syntax::VarOrLabelV::Label(f),
                        args: out + open,
                        is_tail: pl.is_tail,
                    });
                },
                None => {},
            }
            if find_decl(globals, f) is None {
                if !(pl.is_tail && pl.local.contains(f)) {
                    assert(marks(e, pl.known, pl.local, pl.is_tail).contains(f));
                    assert(need.contains(f));
                }
                assert(pl.here.contains(f));
            }
        },
        _ => {},
    }
}

/// [`lemma_lift_calls`] for a closure call, a closure and a conditional.
pub proof fn lemma_lift_parts_calls(e: ExpV, pl: Place, need: Set<Name>, globals: Seq<FunDeclV>)
    requires
        e is ClosureCall || e is MakeClosure || e is If,
        fits_place(e, pl, need, globals),
    ensures
        left_local(e, pl, need, globals),
    decreases e, 0nat,
{
    match e {
        ExpV::MakeClosure { env, .. } => {
            lemma_lift_calls(*env, operand_place(pl, pl.g), need, globals);
        },
        ExpV::ClosureCall(f, args) => {
            let h0 = hoisted(*f, pl.vars, pl.funs, need, pl.g);
            let h1 = hoisted_list(args, args.len(), pl.vars, pl.funs, need, pl.g + h0.len());
            lemma_within_parts(h0, h1, globals);
            lemma_lift_calls(*f, operand_place(pl, pl.g), need, globals);
            lemma_lift_list_calls(
                args,
                args.len(),
                operand_place(pl, pl.g + h0.len()),
                need,
                globals,
            );
            let callee = rewrite(lift(*f, pl.vars, pl.funs, need, pl.g), globals, false);
            let out = rewrite_list(
                lift_list(args, pl.vars, pl.funs, need, pl.g + h0.len()),
                globals,
            );
            assert(all_calls_local(out, pl.here));
            lemma_protocol_local(callee, out, pl.is_tail, pl.here);
            lemma_bodies_local_add(h0, h1, globals);
        },
        ExpV::If { cond, thn, els } => {
            let h0 = hoisted(*cond, pl.vars, pl.funs, need, pl.g);
            let h1 = hoisted(*thn, pl.vars, pl.funs, need, pl.g + h0.len());
            let h2 = hoisted(*els, pl.vars, pl.funs, need, pl.g + h0.len() + h1.len());
            lemma_within_parts(h0 + h1, h2, globals);
            lemma_within_parts(h0, h1, globals);
            lemma_lift_calls(*cond, operand_place(pl, pl.g), need, globals);
            lemma_lift_calls(*thn, Place { g: pl.g + h0.len(), ..pl }, need, globals);
            lemma_lift_calls(*els, Place { g: pl.g + h0.len() + h1.len(), ..pl }, need, globals);
            lemma_bodies_local_add(h0, h1, globals);
            lemma_bodies_local_add(h0 + h1, h2, globals);
        },
        _ => {},
    }
}

/// [`lemma_lift_calls`] for the first `n` bindings of a `let`.
pub proof fn lemma_lift_bindings_calls(
    bs: Seq<(Name, ExpV)>,
    n: nat,
    pl: Place,
    need: Set<Name>,
    globals: Seq<FunDeclV>,
)
    requires
        n <= bs.len(),
        forall|i: int|
            0 <= i < bs.len() ==> in_stage((#[trigger] bs[i]).1, Stage::Converted) && targets_known(
                bs[i].1,
                pl.known,
            ) && groups_whole(bs[i].1, need),
        marks_bindings(bs, bs.len(), pl.known, pl.local).subset_of(need),
        placed(pl.known, pl.local, pl.here, need, globals),
        each_within(hoisted_bindings(bs, bs.len(), pl.vars, pl.funs, need, pl.g), globals),
    ensures
        forall|i: int|
            0 <= i < n ==> calls_local(
                (#[trigger] rewrite_bindings(
                    lift_bindings(bs, pl.vars, pl.funs, need, pl.g),
                    globals,
                )[i]).1,
                pl.here,
            ),
        bodies_local(hoisted_bindings(bs, n, pl.vars, pl.funs, need, pl.g), globals),
    decreases bs, n,
{
    if n > 0 {
        let prev = hoisted_bindings(bs, (n - 1) as nat, pl.vars, pl.funs, need, pl.g);
        let scope = with_names(pl.vars, binding_names(bs), (n - 1) as nat);
        let at = Place { vars: scope, g: pl.g + prev.len(), is_tail: false, ..pl };
        lemma_lift_bindings_calls(bs, (n - 1) as nat, pl, need, globals);
        lemma_marks_bindings_part(bs, n - 1, bs.len(), pl.known, pl.local);
        lemma_hoisted_bindings_part(bs, n - 1, bs.len(), pl.vars, pl.funs, need, pl.g);
        lemma_within_trans(
            hoisted(bs[n - 1].1, scope, pl.funs, need, pl.g + prev.len()),
            hoisted_bindings(bs, bs.len(), pl.vars, pl.funs, need, pl.g),
            globals,
        );
        assert(in_stage(bs[n - 1].1, Stage::Converted));
        lemma_lift_calls(bs[n - 1].1, at, need, globals);
        lemma_bodies_local_add(
            prev,
            hoisted(bs[n - 1].1, scope, pl.funs, need, pl.g + prev.len()),
            globals,
        );
    }
}

/// [`lemma_lift_calls`] for a `let`.
pub proof fn lemma_lift_let_calls(e: ExpV, pl: Place, need: Set<Name>, globals: Seq<FunDeclV>)
    requires
        e is Let,
        fits_place(e, pl, need, globals),
    ensures
        left_local(e, pl, need, globals),
    decreases e, 0nat,
{
    match e {
        ExpV::Let { bindings, body } => {
            let n = bindings.len();
            let first = hoisted_bindings(bindings, n, pl.vars, pl.funs, need, pl.g);
            let scope = with_names(pl.vars, binding_names(bindings), n);
            let rest = hoisted(*body, scope, pl.funs, need, pl.g + first.len());
            lemma_within_parts(first, rest, globals);
            lemma_lift_bindings_calls(bindings, n, pl, need, globals);
            lemma_lift_calls(
                *body,
                Place { vars: scope, g: pl.g + first.len(), ..pl },
                need,
                globals,
            );
            lemma_bodies_local_add(first, rest, globals);
            let out = rewrite_bindings(lift_bindings(bindings, pl.vars, pl.funs, need, pl.g), globals);
            let left = rewrite(
                lift(*body, scope, pl.funs, need, pl.g + first.len()),
                globals,
                pl.is_tail,
            );
            assert forall|i: int| 0 <= i < out.len() implies calls_local(
                (#[trigger] out[i]).1,
                pl.here,
            ) by {}
            assert(calls_local(ExpV::Let { bindings: out, body: Box::new(left) }, pl.here));
            assert(rewrite(lift(e, pl.vars, pl.funs, need, pl.g), globals, pl.is_tail)
                == ExpV::Let { bindings: out, body: Box::new(left) });
        },
        _ => {},
    }
}

/// [`lemma_lift_calls`] for a lambda: its body starts a function of its own.
#[verifier::rlimit(50)]
pub proof fn lemma_lift_lambda_calls(e: ExpV, pl: Place, need: Set<Name>, globals: Seq<FunDeclV>)
    requires
        e is Lambda,
        fits_place(e, pl, need, globals),
    ensures
        left_local(e, pl, need, globals),
    decreases e, 0nat,
{
    match e {
        ExpV::Lambda { parameters, body } => {
            let scope = decl_scope(pl.vars, parameters);
            let inner = hoisted(*body, scope, pl.funs, need, pl.g);
            let left = lift(*body, scope, pl.funs, need, pl.g);
            let reads = env_bindings(pl.vars);
            let global = FunDeclV {
                name: crate::lift::lambda_name(pl.g + inner.len()),
                parameters: parameters.push(env_name()),
                body: ExpV::Let { bindings: reads, body: Box::new(left) },
            };
            assert(inner.push(global) =~= inner + seq![global]);
            lemma_within_parts(inner, seq![global], globals);
            let at = Place {
                vars: scope,
                local: Set::empty(),
                is_tail: true,
                here: Set::empty(),
                ..pl
            };
            lemma_lift_calls(*body, at, need, globals);
            let out = rewrite_bindings(reads, globals);
            assert forall|i: int| 0 <= i < out.len() implies calls_local(
                (#[trigger] out[i]).1,
                Set::empty(),
            ) by {
                let operands = reads[i].1->Prim_1;
                assert(operands.len() == 2);
                assert(operands[0] is Var && operands[1] is Num);
                let rewritten = rewrite_list(operands, globals);
                assert(calls_local(rewritten[0], Set::empty()));
                assert(calls_local(rewritten[1], Set::empty()));
                assert(all_calls_local(rewritten, Set::empty()));
            }
            assert(calls_local(rewrite(global.body, globals, true), Set::empty()));
            assert(bodies_local(seq![global], globals));
            lemma_bodies_local_add(inner, seq![global], globals);
            lemma_captured_local(pl.vars, globals, pl.here);
            let env = ExpV::Prim(Prim::MakeArray, captured(pl.vars));
            assert(calls_local(rewrite(env, globals, false), pl.here));
        },
        _ => {},
    }
}


/// The functions of a group of which none is named all stay: they keep
/// their names, and their bodies are what is left of the bodies.
pub proof fn lemma_kept_decls_shape(
    ds: Seq<FunDeclV>,
    n: nat,
    vars: Seq<Name>,
    funs: Map<Name, usize>,
    need: Set<Name>,
    g: nat,
)
    requires
        n <= ds.len(),
        !group_needed(ds, need),
    ensures
        kept_decls(ds, n, vars, funs, need, g).len() == n,
        forall|i: int|
            0 <= i < n ==> (#[trigger] kept_decls(ds, n, vars, funs, need, g)[i]).name == ds[i].name
                && kept_decls(ds, n, vars, funs, need, g)[i].body == lift(
                ds[i].body,
                decl_scope(vars, ds[i].parameters),
                funs,
                need,
                g + hoisted_decls(ds, i as nat, vars, funs, need, g).len(),
            ),
    decreases n,
{
    if n > 0 {
        lemma_kept_decls_shape(ds, (n - 1) as nat, vars, funs, need, g);
        assert(decl_names(ds)[n - 1] == ds[n - 1].name);
        assert(decl_names(ds).to_set().contains(ds[n - 1].name));
        let kept = kept_decls(ds, n, vars, funs, need, g);
        let prev = kept_decls(ds, (n - 1) as nat, vars, funs, need, g);
        assert forall|i: int| 0 <= i < n implies (#[trigger] kept[i]).name == ds[i].name
            && kept[i].body == lift(
            ds[i].body,
            decl_scope(vars, ds[i].parameters),
            funs,
            need,
            g + hoisted_decls(ds, i as nat, vars, funs, need, g).len(),
        ) by {
            if i < n - 1 {
                assert(kept[i] == prev[i]);
            }
        }
    }
}

/// Of a group whose functions are all named none stays.
pub proof fn lemma_kept_decls_none(
    ds: Seq<FunDeclV>,
    n: nat,
    vars: Seq<Name>,
    funs: Map<Name, usize>,
    need: Set<Name>,
    g: nat,
)
    requires
        n <= ds.len(),
        group_whole(ds, need),
        group_needed(ds, need),
    ensures
        kept_decls(ds, n, vars, funs, need, g).len() == 0,
    decreases n,
{
    if n > 0 {
        lemma_kept_decls_none(ds, (n - 1) as nat, vars, funs, need, g);
        lemma_whole_member(ds, need, n - 1);
    }
}

/// [`lemma_lift_calls`] for the bodies of the first `n` functions of a
/// group. The place is that of the bodies: they may call the functions of the
/// group, and if the group becomes global each body starts a function of its
/// own.
#[verifier::rlimit(50)]
pub proof fn lemma_lift_decls_calls(
    ds: Seq<FunDeclV>,
    n: nat,
    pl: Place,
    need: Set<Name>,
    globals: Seq<FunDeclV>,
)
    requires
        n <= ds.len(),
        forall|i: int|
            0 <= i < ds.len() ==> in_stage((#[trigger] ds[i]).body, Stage::Converted)
                && targets_known(ds[i].body, pl.known),
        pl.is_tail,
        marks_decls(ds, ds.len(), pl.known, pl.local).subset_of(need),
        placed(pl.known, pl.local, pl.here, need, globals),
        each_within(hoisted_decls(ds, ds.len(), pl.vars, pl.funs, need, pl.g), globals),
        group_whole(ds, need),
        forall|i: int| 0 <= i < ds.len() ==> groups_whole((#[trigger] ds[i]).body, need),
        group_needed(ds, need) ==> pl.here == Set::<Name>::empty(),
    ensures
        forall|i: int|
            0 <= i < n ==> calls_local(
                rewrite(
                    #[trigger] lift(
                        ds[i].body,
                        decl_scope(pl.vars, ds[i].parameters),
                        pl.funs,
                        need,
                        pl.g + hoisted_decls(ds, i as nat, pl.vars, pl.funs, need, pl.g).len(),
                    ),
                    globals,
                    true,
                ),
                pl.here,
            ),
        bodies_local(hoisted_decls(ds, n, pl.vars, pl.funs, need, pl.g), globals),
    decreases ds, n,
{
    if n > 0 {
        let prev = hoisted_decls(ds, (n - 1) as nat, pl.vars, pl.funs, need, pl.g);
        let d = ds[n - 1];
        let scope = decl_scope(pl.vars, d.parameters);
        let at = Place { vars: scope, g: pl.g + prev.len(), ..pl };
        let inner = hoisted(d.body, scope, pl.funs, need, pl.g + prev.len());
        lemma_lift_decls_calls(ds, (n - 1) as nat, pl, need, globals);
        lemma_marks_decls_part(ds, n - 1, ds.len(), pl.known, pl.local);
        lemma_hoisted_decls_part(ds, n - 1, ds.len(), pl.vars, pl.funs, need, pl.g);
        lemma_within_trans(
            inner,
            hoisted_decls(ds, ds.len(), pl.vars, pl.funs, need, pl.g),
            globals,
        );
        assert(in_stage(d.body, Stage::Converted));
        assert(groups_whole(d.body, need));
        lemma_lift_calls(d.body, at, need, globals);
        lemma_bodies_local_add(prev, inner, globals);
        lemma_whole_member(ds, need, n - 1);
        if group_needed(ds, need) {
            let global = FunDeclV {
                name: d.name,
                parameters: d.parameters + pl.vars,
                body: lift(d.body, scope, pl.funs, need, pl.g + prev.len()),
            };
            assert(bodies_local(seq![global], globals));
            lemma_bodies_local_add(prev + inner, seq![global], globals);
            assert((prev + inner).push(global) =~= prev + inner + seq![global]);
        }
    }
}

/// Every function of a group that becomes global is found among the global
/// functions by its name.
pub proof fn lemma_group_is_global(
    ds: Seq<FunDeclV>,
    vars: Seq<Name>,
    funs: Map<Name, usize>,
    need: Set<Name>,
    g: nat,
    globals: Seq<FunDeclV>,
)
    requires
        group_needed(ds, need),
        group_whole(ds, need),
        each_within(hoisted_decls(ds, ds.len(), vars, funs, need, g), globals),
    ensures
        forall|f: Name| decl_names(ds).to_set().contains(f) ==> find_decl(globals, f) is Some,
{
    let all = hoisted_decls(ds, ds.len(), vars, funs, need, g);
    assert forall|f: Name| decl_names(ds).to_set().contains(f) implies find_decl(
        globals,
        f,
    ) is Some by {
        let i = choose|i: int| 0 <= i < ds.len() && decl_names(ds)[i] == f;
        lemma_whole_member(ds, need, i);
        lemma_hoisted_decls_part(ds, i, ds.len(), vars, funs, need, g);
        let k = choose|k: int| 0 <= k < all.len() && (#[trigger] all[k]).name == ds[i].name;
        assert(globals.contains(all[k]));
        let j = choose|j: int| 0 <= j < globals.len() && globals[j] == all[k];
        lemma_find_decl_some(globals, j);
    }
}

/// [`lemma_lift_calls`] for a group of functions.
#[verifier::rlimit(50)]
pub proof fn lemma_lift_fundefs_calls(e: ExpV, pl: Place, need: Set<Name>, globals: Seq<FunDeclV>)
    requires
        e is FunDefs,
        fits_place(e, pl, need, globals),
    ensures
        left_local(e, pl, need, globals),
    decreases e, 0nat,
{
    match e {
        ExpV::FunDefs { decls, body } => {
            let n = decls.len();
            let names = decl_names(decls).to_set();
            let inner = declare(pl.funs, decls, n, pl.vars, need);
            let first = hoisted_decls(decls, n, pl.vars, inner, need, pl.g);
            let rest = hoisted(*body, pl.vars, inner, need, pl.g + first.len());
            let known = pl.known.union(names);
            lemma_within_parts(first, rest, globals);
            let mine = marks_decls(decls, n, known, names).union(
                marks(*body, known, pl.local.union(names), pl.is_tail),
            );
            assert(mine.subset_of(marks(e, pl.known, pl.local, pl.is_tail)));
            assert(group_whole(decls, need));
            if group_needed(decls, need) {
                lemma_group_is_global(decls, pl.vars, inner, need, pl.g, globals);
                lemma_kept_decls_none(decls, n, pl.vars, inner, need, pl.g);
                let bodies = Place {
                    funs: inner,
                    known,
                    local: names,
                    is_tail: true,
                    here: Set::empty(),
                    ..pl
                };
                let after = Place {
                    funs: inner,
                    g: pl.g + first.len(),
                    known,
                    local: pl.local.union(names),
                    ..pl
                };
                lemma_lift_decls_calls(decls, n, bodies, need, globals);
                lemma_lift_calls(*body, after, need, globals);
                lemma_bodies_local_add(first, rest, globals);
            } else {
                let around = pl.here.union(names);
                let bodies = Place {
                    funs: inner,
                    known,
                    local: names,
                    is_tail: true,
                    here: around,
                    ..pl
                };
                let after = Place {
                    funs: inner,
                    g: pl.g + first.len(),
                    known,
                    local: pl.local.union(names),
                    here: around,
                    ..pl
                };
                lemma_lift_decls_calls(decls, n, bodies, need, globals);
                lemma_lift_calls(*body, after, need, globals);
                lemma_bodies_local_add(first, rest, globals);
                lemma_kept_decls_shape(decls, n, pl.vars, inner, need, pl.g);
                let kept = kept_decls(decls, n, pl.vars, inner, need, pl.g);
                let out = rewrite_decls(kept, globals);
                if n == 0 {
                    assert(around =~= pl.here);
                } else {
                    assert(decl_names(out) =~= decl_names(decls));
                    assert forall|i: int| 0 <= i < out.len() implies calls_local(
                        (#[trigger] out[i]).body,
                        around,
                    ) by {
                        assert(out[i].body == rewrite(kept[i].body, globals, true));
                    }
                    let left = ExpV::FunDefs {
                        decls: out,
                        body: Box::new(
                            rewrite(
                                lift(*body, pl.vars, inner, need, pl.g + first.len()),
                                globals,
                                pl.is_tail,
                            ),
                        ),
                    };
                    assert(calls_local(left, pl.here));
                }
            }
        },
        _ => {},
    }
}


/// Whether an expression refers to nothing from outside but the variables in
/// `vars` and the local functions in `local`: every variable that it reads
/// is among `vars` or bound by the expression itself, and every internal
/// tail call goes to a function among `local` or declared by the expression
/// itself.
pub open spec fn closed(e: ExpV, vars: Set<Name>, local: Set<Name>) -> bool {
    vars_bound(e, vars) && calls_local(e, local)
}

/// Whether every function of a list refers to nothing from outside but its
/// parameters, and the main expression to nothing at all.
pub open spec fn program_closed(globals: Seq<FunDeclV>, main: ExpV) -> bool {
    &&& forall|i: int|
        0 <= i < globals.len() ==> closed(
            (#[trigger] globals[i]).body,
            globals[i].parameters.to_set(),
            Set::empty(),
        )
    &&& closed(main, Set::empty(), Set::empty())
}

/// What hoisting makes of a program, before the calls are rewritten: the
/// global functions and what is left of the main expression.
pub open spec fn hoisted_program(p: ExpV) -> (Seq<FunDeclV>, ExpV) {
    let converted = convert(uniq(p, Map::empty(), 0), Map::empty());
    let need = marks(converted, Set::empty(), Set::empty(), true);
    (
        hoisted(converted, Seq::empty(), Map::empty(), need, 0),
        lift(converted, Seq::empty(), Map::empty(), need, 0),
    )
}

/// Whether every call of a global function in a hoisted program passes at
/// least as many arguments as the function has parameters: the program
/// calls no function with fewer arguments than it was declared with.
pub open spec fn program_complete(p: ExpV) -> bool {
    let (globals, main) = hoisted_program(p);
    &&& calls_complete(main, globals)
    &&& forall|i: int| 0 <= i < globals.len() ==> calls_complete((#[trigger] globals[i]).body, globals)
}

/// Whether every function of a list reads no variable but its parameters
/// and what it binds itself, and the main expression none but what it binds
/// itself.
pub open spec fn program_bound(globals: Seq<FunDeclV>, main: ExpV) -> bool {
    &&& forall|i: int|
        0 <= i < globals.len() ==> vars_bound(
            (#[trigger] globals[i]).body,
            globals[i].parameters.to_set(),
        )
    &&& vars_bound(main, Set::empty())
}

/// Whether every group of functions of a program is marked for the top
/// level as a whole or not at all.
pub open spec fn program_whole(p: ExpV) -> bool {
    let converted = convert(uniq(p, Map::empty(), 0), Map::empty());
    groups_whole(converted, marks(converted, Set::empty(), Set::empty(), true))
}

/// After lambda lifting the body of every global function reads no variable
/// but the function's parameters and what the body binds itself, and the
/// main expression reads none but what it binds itself. This holds of every
/// surface program in which every variable is bound and no function is
/// called with fewer arguments than it has parameters; a call with fewer is
/// filled up with the names of the parameters that it leaves open, which
/// nothing binds where the call stands.
pub proof fn lemma_lifted_bound(p: ExpV)
    requires
        in_stage(p, Stage::Surface),
        scoped(p, Set::empty()),
        binders(p) <= u32::MAX,
        program_complete(p),
    ensures
        program_bound(lambda_lift_spec(p).0, lambda_lift_spec(p).1),
{
    let none = Set::<Name>::empty();
    let unique = uniq(p, Map::empty(), 0);
    assert(Map::<Name, u32>::empty().dom() =~= none);
    lemma_uniq_scoped(p, Map::empty(), 0);
    lemma_uniq_stage(p, Map::empty(), 0);
    assert(renamed(Map::empty()) =~= none);
    let funcs = Map::<Name, usize>::empty();
    assert(none.union(funcs.dom()) =~= none);
    let converted = convert(unique, funcs);
    lemma_convert_bound(unique, funcs, none);
    let need = marks(converted, none, none, true);
    let vars = Seq::<Name>::empty();
    assert(vars.to_set() =~= none);
    let globals = hoisted(converted, vars, funcs, need, 0);
    let main = lift(converted, vars, funcs, need, 0);
    lemma_lift_bound(converted, vars, funcs, need, 0);
    lemma_rewrite_bound(main, globals, true, none);
    let out = rewrite_decls(globals, globals);
    assert forall|i: int| 0 <= i < out.len() implies vars_bound(
        (#[trigger] out[i]).body,
        out[i].parameters.to_set(),
    ) by {
        lemma_rewrite_bound(globals[i].body, globals, true, globals[i].parameters.to_set());
    }
}

/// After lambda lifting every global function is closed: its body reads no
/// variable but its parameters and what it binds itself, and jumps to no
/// local function but those it declares itself. So is the main expression,
/// which has no parameters. This holds of every surface program in which
/// every variable is bound and no function is called with fewer arguments
/// than it has parameters.
pub proof fn lemma_lifted_closed(p: ExpV)
    requires
        in_stage(p, Stage::Surface),
        scoped(p, Set::empty()),
        binders(p) <= u32::MAX,
        program_complete(p),
    ensures
        program_closed(lambda_lift_spec(p).0, lambda_lift_spec(p).1),
{
    lemma_lifted_bound(p);
    crate::whole_groups::lemma_program_whole(p);
    let none = Set::<Name>::empty();
    let unique = uniq(p, Map::empty(), 0);
    lemma_uniq_stage(p, Map::empty(), 0);
    let funcs = Map::<Name, usize>::empty();
    let converted = convert(unique, funcs);
    lemma_convert_targets(unique, funcs);
    assert(funcs.dom() =~= none);
    let need = marks(converted, none, none, true);
    let vars = Seq::<Name>::empty();
    let globals = hoisted(converted, vars, funcs, need, 0);
    let pl = Place {
        vars,
        funs: funcs,
        g: 0,
        known: none,
        local: none,
        is_tail: true,
        here: none,
    };
    assert(each_within(globals, globals));
    lemma_lift_calls(converted, pl, need, globals);
}


/// After lambda lifting every global function of a program that the checker
/// accepts, and that calls no function with fewer arguments than it has
/// parameters, is closed, and so is its main expression.
pub proof fn lemma_accepted_closed<Span>(p: crate::syntax::Exp<Span>)
    requires
        in_stage(p@, Stage::Surface),
        crate::checker::check(p, Set::empty()) is None,
        binders(p@) <= u32::MAX,
        program_complete(p@),
    ensures
        program_closed(lambda_lift_spec(p@).0, lambda_lift_spec(p@).1),
{
    crate::checker::lemma_checked_scoped(p, Set::empty());
    lemma_lifted_closed(p@);
}

} // verus!
