//! Lambda lifting: nested functions that cannot stay where they are move to
//! the top level, and every call learns what kind of call it is.

use vstd::prelude::*;
use crate::renaming::scoped;
use vstd::string::*;
use vstd::pervasive::unreached;
use crate::lift::{captured, captures, closure_protocol, declare, decl_scope, env_bindings, env_name, find_decl, passed, hoisted, hoisted_bindings, hoisted_decls, hoisted_list, kept_decls, lift, lift_bindings, lift_list, marks, marks_bindings, marks_decls, marks_list, rewrite, rewrite_bindings, rewrite_decls, rewrite_list};
use crate::syntax::{Exp, ExpV, FunDecl, FunDeclV, Name, Prim, Stage, VarOrLabel, all_in_stage, binders, binders_at, binding_binders_at, binding_names, bindings_view, bodies_in_stage, clone_names, decl_binders_at, decl_names, decl_view, decls_view, exps_view, in_stage, lemma_sum_to, names_view, sum_to};
use crate::table::{extend_names, lemma_with_name_set, lemma_with_names_len, lemma_with_names_set, names_contain, names_insert, with_names};
use crate::text::numbered_string;
use crate::closure::{convert, eliminate_closures};
use crate::uniquify::{uniq, uniquify};
use crate::table::Table;

verus! {

/// The largest number of variables that may be in scope at once.
pub const MAX_SCOPE: usize = 0x3FFF_FFFF;

/// What [`lift_functions`] asks of an expression, of the number of variables
/// in scope and of the global functions so far.
pub open spec fn lift_pre(e: ExpV, scope: nat, before: Seq<FunDeclV>) -> bool {
    &&& in_stage(e, Stage::Converted)
    &&& scope + binders(e) <= MAX_SCOPE
    &&& bodies_in_stage(before, Stage::Hoisted)
}

/// What [`lift_functions`] gives: what is left of the expression, and the
/// global functions with those of the expression added.
pub open spec fn lift_post(
    e: ExpV,
    vars: Seq<Name>,
    funs: Map<Name, usize>,
    need: Set<Name>,
    before: Seq<FunDeclV>,
    r: ExpV,
    after: Seq<FunDeclV>,
) -> bool {
    &&& r == lift(e, vars, funs, need, before.len())
    &&& after == before + hoisted(e, vars, funs, need, before.len())
    &&& in_stage(r, Stage::Hoisted)
    &&& bodies_in_stage(after, Stage::Hoisted)
}

/// Every binding of a `let` binds at least its own name.
proof fn lemma_binding_binders(bs: Seq<(Name, ExpV)>, n: nat)
    requires
        n <= bs.len(),
    ensures
        sum_to(n, binding_binders_at(bs)) >= n,
    decreases n,
{
    if n > 0 {
        lemma_binding_binders(bs, (n - 1) as nat);
    }
}

/// The variables in scope, each as an expression.
fn captured_vars(vars: &Vec<String>) -> (out: Vec<Exp<()>>)
    ensures
        exps_view(out@) == captured(names_view(vars@)),
        all_in_stage(exps_view(out@), Stage::Hoisted),
{
    let mut out: Vec<Exp<()>> = Vec::new();
    let mut i: usize = 0;
    while i < vars.len()
        invariant
            i <= vars.len(),
            out.len() == i,
            forall|j: int| 0 <= j < i ==> (#[trigger] out[j])@ == ExpV::Var(vars[j]@),
        decreases vars.len() - i,
    {
        out.push(Exp::Var(vars[i].clone(), ()));
        i += 1;
    }
    assert(exps_view(out@) =~= captured(names_view(vars@)));
    out
}

/// The bindings at the top of a lambda's body: each captured variable read
/// back from the environment array.
fn env_reads(vars: &Vec<String>) -> (out: Vec<(String, Exp<()>)>)
    requires
        vars.len() <= MAX_SCOPE,
    ensures
        bindings_view(out@) == env_bindings(names_view(vars@)),
        forall|j: int| 0 <= j < out.len() ==> in_stage((#[trigger] bindings_view(out@)[j]).1, Stage::Hoisted),
{
    let mut out: Vec<(String, Exp<()>)> = Vec::new();
    let mut i: usize = 0;
    while i < vars.len()
        invariant
            i <= vars.len(),
            vars.len() <= MAX_SCOPE,
            out.len() == i,
            forall|j: int|
                0 <= j < i ==> (#[trigger] out[j]).0@ == vars[j]@ && out[j].1@ == ExpV::Prim(
                    Prim::ArrayGet,
                    seq![ExpV::Var(env_name()), ExpV::Num(j as i64)],
                ),
        decreases vars.len() - i,
    {
        let mut args: Vec<Exp<()>> = Vec::new();
        args.push(Exp::Var(String::from_str("#env"), ()));
        args.push(Exp::Num(i as i64, ()));
        assert(exps_view(args@) =~= seq![ExpV::Var(env_name()), ExpV::Num(i as i64)]);
        out.push((vars[i].clone(), Exp::Prim(Prim::ArrayGet, args, ())));
        i += 1;
    }
    assert(bindings_view(out@) =~= env_bindings(names_view(vars@)));
    assert forall|j: int| 0 <= j < out.len() implies in_stage(
        (#[trigger] bindings_view(out@)[j]).1,
        Stage::Hoisted,
    ) by {
        let es = seq![ExpV::Var(env_name()), ExpV::Num(j as i64)];
        assert(bindings_view(out@)[j].1 == out[j].1@);
        assert(in_stage(es[0], Stage::Hoisted));
        assert(in_stage(es[1], Stage::Hoisted));
        assert(all_in_stage(es, Stage::Hoisted));
        assert(in_stage(ExpV::Prim(Prim::ArrayGet, es), Stage::Hoisted));
    }
    out
}

/// The parameters of a function followed by the variables it captures.
fn joined_names(first: &Vec<String>, second: &Vec<String>) -> (out: Vec<String>)
    ensures
        names_view(out@) == names_view(first@) + names_view(second@),
{
    let mut out = clone_names(first);
    let mut i: usize = 0;
    while i < second.len()
        invariant
            i <= second.len(),
            names_view(out@) == names_view(first@) + names_view(second@).take(i as int),
        decreases second.len() - i,
    {
        let ghost before = names_view(out@);
        out.push(second[i].clone());
        assert(names_view(out@) =~= before.push(second[i as int]@));
        assert(names_view(second@).take(i + 1) =~= names_view(second@).take(i as int).push(
            second[i as int]@,
        ));
        i += 1;
    }
    assert(names_view(second@).take(second.len() as int) =~= names_view(second@));
    out
}

/// [`lift_functions`] on each expression of a list, from left to right.
#[verifier::loop_isolation(false)]
fn lift_exps(
    es: &Vec<Exp<()>>,
    vars: &Vec<String>,
    funs: &Table<usize>,
    globals: &mut Vec<FunDecl<Exp<()>, ()>>,
    need_lift: &Vec<String>,
) -> (out: Vec<Exp<()>>)
    requires
        all_in_stage(exps_view(es@), Stage::Converted),
        vars.len() + sum_to(es.len() as nat, binders_at(exps_view(es@))) <= MAX_SCOPE,
        bodies_in_stage(decls_view(old(globals)@), Stage::Hoisted),
    ensures
        exps_view(out@) == lift_list(
            exps_view(es@),
            names_view(vars@),
            funs@,
            names_view(need_lift@).to_set(),
            old(globals).len() as nat,
        ),
        decls_view(final(globals)@) == decls_view(old(globals)@) + hoisted_list(
            exps_view(es@),
            es.len() as nat,
            names_view(vars@),
            funs@,
            names_view(need_lift@).to_set(),
            old(globals).len() as nat,
        ),
        all_in_stage(exps_view(out@), Stage::Hoisted),
        bodies_in_stage(decls_view(final(globals)@), Stage::Hoisted),
    decreases es, 0nat,
{
    let ghost ev = exps_view(es@);
    let ghost vv = names_view(vars@);
    let ghost need = names_view(need_lift@).to_set();
    let ghost fv = funs@;
    let ghost g0 = globals.len() as nat;
    let ghost start = decls_view(globals@);
    let mut out: Vec<Exp<()>> = Vec::new();
    let mut i: usize = 0;
    assert(decls_view(globals@) =~= start + hoisted_list(ev, 0, vv, fv, need, g0));
    while i < es.len()
        invariant
            i <= es.len(),
            out.len() == i,
            decls_view(globals@) == start + hoisted_list(ev, i as nat, vv, fv, need, g0),
            forall|j: int|
                0 <= j < i ==> (#[trigger] out[j])@ == lift(
                    ev[j],
                    vv,
                    fv, need,
                    g0 + hoisted_list(ev, j as nat, vv, fv, need, g0).len(),
                ),
            forall|j: int| 0 <= j < i ==> in_stage((#[trigger] out[j])@, Stage::Hoisted),
            bodies_in_stage(decls_view(globals@), Stage::Hoisted),
        decreases es.len() - i,
    {
        proof {
            lemma_sum_to(i as nat, es.len() as nat, binders_at(ev));
            assert(in_stage(ev[i as int], Stage::Converted));
        }
        let ghost before = decls_view(globals@);
        let r = lift_functions(&es[i], vars, funs, globals, need_lift);
        out.push(r);
        proof {
            let prev = hoisted_list(ev, i as nat, vv, fv, need, g0);
            assert(before.len() == g0 + prev.len());
            assert(decls_view(globals@) =~= start + hoisted_list(ev, (i + 1) as nat, vv, fv, need, g0));
        }
        i += 1;
    }
    assert(exps_view(out@) =~= lift_list(ev, vv, fv, need, g0));
    assert forall|j: int| 0 <= j < out.len() implies in_stage(
        #[trigger] exps_view(out@)[j],
        Stage::Hoisted,
    ) by {
        assert(exps_view(out@)[j] == out[j]@);
    }
    out
}

fn lift_functions(
    e: &Exp<()>,
    vars: &Vec<String>,
    funs: &Table<usize>,
    globals: &mut Vec<FunDecl<Exp<()>, ()>>,
    need_lift: &Vec<String>,
) -> (r: Exp<()>)
    requires
        lift_pre(e@, vars.len() as nat, decls_view(old(globals)@)),
    ensures
        lift_post(
            e@,
            names_view(vars@),
            funs@,
            names_view(need_lift@).to_set(),
            decls_view(old(globals)@),
            r@,
            decls_view(final(globals)@),
        ),
    decreases e, 1nat,
{
    match e {
        Exp::Num(..) | Exp::Bool(..) | Exp::Var(..) => lift_leaf(e, vars, funs, globals, need_lift),
        Exp::Prim(..) | Exp::DirectCall(..) => lift_operands(e, vars, funs, globals, need_lift),
        Exp::ClosureCall(..) => lift_closure_call(e, vars, funs, globals, need_lift),
        Exp::MakeClosure { .. } => lift_make_closure(e, vars, funs, globals, need_lift),
        Exp::If { .. } => lift_if(e, vars, funs, globals, need_lift),
        Exp::Let { .. } => lift_let(e, vars, funs, globals, need_lift),
        Exp::FunDefs { .. } => lift_fundefs(e, vars, funs, globals, need_lift),
        Exp::Lambda { .. } => lift_lambda(e, vars, funs, globals, need_lift),
        _ => unreached(),
    }
}

/// [`lift_functions`] on a literal or a variable: nothing changes.
fn lift_leaf(
    e: &Exp<()>,
    vars: &Vec<String>,
    funs: &Table<usize>,
    globals: &mut Vec<FunDecl<Exp<()>, ()>>,
    need_lift: &Vec<String>,
) -> (r: Exp<()>)
    requires
        e is Num || e is Bool || e is Var,
        lift_pre(e@, vars.len() as nat, decls_view(old(globals)@)),
    ensures
        lift_post(
            e@,
            names_view(vars@),
            funs@,
            names_view(need_lift@).to_set(),
            decls_view(old(globals)@),
            r@,
            decls_view(final(globals)@),
        ),
    decreases e, 0nat,
{
    let ghost vv = names_view(vars@);
    let ghost need = names_view(need_lift@).to_set();
    let ghost fv = funs@;
    let ghost g0 = globals.len() as nat;
    let ghost start = decls_view(globals@);
    match e {
        Exp::Num(n, _) => {
            assert(decls_view(globals@) =~= start + hoisted(e@, vv, fv, need, g0));
            Exp::Num(*n, ())
        },
        Exp::Bool(b, _) => {
            assert(decls_view(globals@) =~= start + hoisted(e@, vv, fv, need, g0));
            Exp::Bool(*b, ())
        },
        Exp::Var(v, _) => {
            assert(decls_view(globals@) =~= start + hoisted(e@, vv, fv, need, g0));
            Exp::Var(v.clone(), ())
        },
        _ => unreached(),
    }
}

/// [`lift_functions`] on a primitive or a direct call: on its operands.
#[verifier::rlimit(50)]
fn lift_operands(
    e: &Exp<()>,
    vars: &Vec<String>,
    funs: &Table<usize>,
    globals: &mut Vec<FunDecl<Exp<()>, ()>>,
    need_lift: &Vec<String>,
) -> (r: Exp<()>)
    requires
        e is Prim || e is DirectCall,
        lift_pre(e@, vars.len() as nat, decls_view(old(globals)@)),
    ensures
        lift_post(
            e@,
            names_view(vars@),
            funs@,
            names_view(need_lift@).to_set(),
            decls_view(old(globals)@),
            r@,
            decls_view(final(globals)@),
        ),
    decreases e, 0nat,
{
    let ghost vv = names_view(vars@);
    let ghost need = names_view(need_lift@).to_set();
    let ghost fv = funs@;
    let ghost g0 = globals.len() as nat;
    let ghost start = decls_view(globals@);
    match e {
        Exp::Prim(p, exps, _) => {
            let new_exps = lift_exps(exps, vars, funs, globals, need_lift);
            Exp::Prim(*p, new_exps, ())
        },
        Exp::DirectCall(func, params, _) => {
            let mut new_params = lift_exps(params, vars, funs, globals, need_lift);
            let count: usize = match funs.get(func) {
                Some(k) => if k <= vars.len() {
                    k
                } else {
                    0
                },
                None => 0,
            };
            let ghost first = exps_view(new_params@);
            let ghost extra = passed(vv, fv, func@);
            let mut i: usize = 0;
            assert(exps_view(new_params@) =~= first + captured(extra.take(0)));
            while i < count
                invariant
                    i <= count,
                    count == extra.len(),
                    count <= vars.len(),
                    extra == vv.take(count as int),
                    vv == names_view(vars@),
                    exps_view(new_params@) == first + captured(extra.take(i as int)),
                    all_in_stage(exps_view(new_params@), Stage::Hoisted),
                decreases count - i,
            {
                let ghost before = exps_view(new_params@);
                new_params.push(Exp::Var(vars[i].clone(), ()));
                proof {
                    assert(extra[i as int] == vars[i as int]@);
                    assert(exps_view(new_params@) =~= before.push(ExpV::Var(extra[i as int])));
                    assert(captured(extra.take(i + 1)) =~= captured(extra.take(i as int)).push(
                        ExpV::Var(extra[i as int]),
                    ));
                    assert forall|j: int| 0 <= j < new_params.len() implies in_stage(
                        #[trigger] exps_view(new_params@)[j],
                        Stage::Hoisted,
                    ) by {
                        if j < before.len() {
                            assert(exps_view(new_params@)[j] == before[j]);
                        }
                    }
                }
                i += 1;
            }
            proof {
                assert(extra.take(extra.len() as int) =~= extra);
            }
            Exp::DirectCall(func.clone(), new_params, ())
        },
        _ => unreached(),
    }
}

/// [`lift_functions`] on a closure call: on the callee, then on the arguments.
fn lift_closure_call(
    e: &Exp<()>,
    vars: &Vec<String>,
    funs: &Table<usize>,
    globals: &mut Vec<FunDecl<Exp<()>, ()>>,
    need_lift: &Vec<String>,
) -> (r: Exp<()>)
    requires
        e is ClosureCall,
        lift_pre(e@, vars.len() as nat, decls_view(old(globals)@)),
    ensures
        lift_post(
            e@,
            names_view(vars@),
            funs@,
            names_view(need_lift@).to_set(),
            decls_view(old(globals)@),
            r@,
            decls_view(final(globals)@),
        ),
    decreases e, 0nat,
{
    let ghost vv = names_view(vars@);
    let ghost need = names_view(need_lift@).to_set();
    let ghost fv = funs@;
    let ghost g0 = globals.len() as nat;
    let ghost start = decls_view(globals@);
    match e {
        Exp::ClosureCall(exp, params, _) => {
            let f = lift_functions(exp, vars, funs, globals, need_lift);
            let new_params = lift_exps(params, vars, funs, globals, need_lift);
            proof {
                let first = hoisted(exp@, vv, fv, need, g0);
                assert(decls_view(globals@) =~= start + (first + hoisted_list(
                    exps_view(params@),
                    params.len() as nat,
                    vv,
                    fv, need,
                    g0 + first.len(),
                )));
            }
            Exp::ClosureCall(Box::new(f), new_params, ())
        },
        _ => unreached(),
    }
}

/// [`lift_functions`] on a closure of a named function: on its environment.
fn lift_make_closure(
    e: &Exp<()>,
    vars: &Vec<String>,
    funs: &Table<usize>,
    globals: &mut Vec<FunDecl<Exp<()>, ()>>,
    need_lift: &Vec<String>,
) -> (r: Exp<()>)
    requires
        e is MakeClosure,
        lift_pre(e@, vars.len() as nat, decls_view(old(globals)@)),
    ensures
        lift_post(
            e@,
            names_view(vars@),
            funs@,
            names_view(need_lift@).to_set(),
            decls_view(old(globals)@),
            r@,
            decls_view(final(globals)@),
        ),
    decreases e, 0nat,
{
    let ghost vv = names_view(vars@);
    let ghost need = names_view(need_lift@).to_set();
    let ghost fv = funs@;
    let ghost g0 = globals.len() as nat;
    let ghost start = decls_view(globals@);
    match e {
        Exp::MakeClosure { arity, label, env, ann: _ } => {
            let new_env = lift_functions(env, vars, funs, globals, need_lift);
            Exp::MakeClosure { arity: *arity, label: label.clone(), env: Box::new(new_env), ann: () }
        },
        _ => unreached(),
    }
}

/// [`lift_functions`] on a conditional: on its three parts in order.
fn lift_if(
    e: &Exp<()>,
    vars: &Vec<String>,
    funs: &Table<usize>,
    globals: &mut Vec<FunDecl<Exp<()>, ()>>,
    need_lift: &Vec<String>,
) -> (r: Exp<()>)
    requires
        e is If,
        lift_pre(e@, vars.len() as nat, decls_view(old(globals)@)),
    ensures
        lift_post(
            e@,
            names_view(vars@),
            funs@,
            names_view(need_lift@).to_set(),
            decls_view(old(globals)@),
            r@,
            decls_view(final(globals)@),
        ),
    decreases e, 0nat,
{
    let ghost vv = names_view(vars@);
    let ghost need = names_view(need_lift@).to_set();
    let ghost fv = funs@;
    let ghost g0 = globals.len() as nat;
    let ghost start = decls_view(globals@);
    match e {
        Exp::If { cond, thn, els, ann: _ } => {
            let c = lift_functions(cond, vars, funs, globals, need_lift);
            let t = lift_functions(thn, vars, funs, globals, need_lift);
            let f = lift_functions(els, vars, funs, globals, need_lift);
            proof {
                let h0 = hoisted(cond@, vv, fv, need, g0);
                let h1 = hoisted(thn@, vv, fv, need, g0 + h0.len());
                let h2 = hoisted(els@, vv, fv, need, g0 + h0.len() + h1.len());
                assert(decls_view(globals@) =~= start + (h0 + h1 + h2));
            }
            Exp::If { cond: Box::new(c), thn: Box::new(t), els: Box::new(f), ann: () }
        },
        _ => unreached(),
    }
}

/// [`lift_functions`] on a lambda: it becomes a global function that takes
/// what it captured as an array, and a closure stays in its place.
#[verifier::rlimit(50)]
fn lift_lambda(
    e: &Exp<()>,
    vars: &Vec<String>,
    funs: &Table<usize>,
    globals: &mut Vec<FunDecl<Exp<()>, ()>>,
    need_lift: &Vec<String>,
) -> (r: Exp<()>)
    requires
        e is Lambda,
        lift_pre(e@, vars.len() as nat, decls_view(old(globals)@)),
    ensures
        lift_post(
            e@,
            names_view(vars@),
            funs@,
            names_view(need_lift@).to_set(),
            decls_view(old(globals)@),
            r@,
            decls_view(final(globals)@),
        ),
    decreases e, 0nat,
{
    let ghost vv = names_view(vars@);
    let ghost need = names_view(need_lift@).to_set();
    let ghost fv = funs@;
    let ghost g0 = globals.len() as nat;
    let ghost start = decls_view(globals@);
    match e {
        Exp::Lambda { parameters, body, ann: _ } => {
            let scope = extend_names(vars, parameters);
            proof {
                lemma_with_names_len(vv, names_view(parameters@), parameters.len() as nat);
            }
            let new_body = lift_functions(body, &scope, funs, globals, need_lift);
            let reads = env_reads(vars);
            let mut arg = Vec::new();
            arg.push(String::from_str("#env"));
            assert(names_view(arg@) =~= seq![env_name()]);
            let params = joined_names(parameters, &arg);
            assert(names_view(params@) =~= names_view(parameters@).push(env_name()));
            let decl = FunDecl {
                // the number of global functions serves as counter
                name: numbered_string("lambda_", globals.len() as u64),
                parameters: params,
                body: Exp::Let { bindings: reads, body: Box::new(new_body), ann: () },
                ann: (),
            };
            let env = Exp::Prim(Prim::MakeArray, captured_vars(vars), ());
            assert(env@ == ExpV::Prim(Prim::MakeArray, captured(vv)));
            let closure = Exp::MakeClosure {
                arity: parameters.len(),
                label: decl.name.clone(),
                env: Box::new(env),
                ann: (),
            };
            let ghost before = decls_view(globals@);
            globals.push(decl);
            proof {
                let inner = hoisted(body@, decl_scope(vv, names_view(parameters@)), fv, need, g0);
                assert(before == start + inner);
                assert(decls_view(globals@) =~= before.push(decl_view(decl)));
                assert(decls_view(globals@) =~= start + hoisted(e@, vv, fv, need, g0));
                assert(in_stage(decl_view(decl).body, Stage::Hoisted));
                assert(before.len() == g0 + inner.len());
                assert(closure@ == lift(e@, vv, fv, need, g0));
                assert(in_stage(env@, Stage::Hoisted));
                assert(in_stage(closure@, Stage::Hoisted));
                assert(bodies_in_stage(decls_view(globals@), Stage::Hoisted));
            }
            closure
        },
        _ => unreached(),
    }
}

/// [`lift_functions`] on a `let`: each binding sees the names before it.
#[verifier::loop_isolation(false)]
#[verifier::rlimit(50)]
fn lift_let(
    e: &Exp<()>,
    vars: &Vec<String>,
    funs: &Table<usize>,
    globals: &mut Vec<FunDecl<Exp<()>, ()>>,
    need_lift: &Vec<String>,
) -> (r: Exp<()>)
    requires
        e is Let,
        lift_pre(e@, vars.len() as nat, decls_view(old(globals)@)),
    ensures
        lift_post(
            e@,
            names_view(vars@),
            funs@,
            names_view(need_lift@).to_set(),
            decls_view(old(globals)@),
            r@,
            decls_view(final(globals)@),
        ),
    decreases e, 0nat,
{
    let ghost vv = names_view(vars@);
    let ghost need = names_view(need_lift@).to_set();
    let ghost fv = funs@;
    let ghost g0 = globals.len() as nat;
    let ghost start = decls_view(globals@);
    match e {
        Exp::Let { bindings, body, ann: _ } => {
            let ghost bv = bindings_view(bindings@);
            let ghost bn = binding_names(bv);
            let mut scoped = clone_names(vars);
            let mut out: Vec<(String, Exp<()>)> = Vec::new();
            let mut i: usize = 0;
            assert(decls_view(globals@) =~= start + hoisted_bindings(bv, 0, vv, fv, need, g0));
            while i < bindings.len()
                invariant
                    i <= bindings.len(),
                    out.len() == i,
                    names_view(scoped@) == with_names(vv, bn, i as nat),
                    decls_view(globals@) == start + hoisted_bindings(bv, i as nat, vv, fv, need, g0),
                    forall|j: int|
                        0 <= j < i ==> (#[trigger] out[j]).0@ == bv[j].0 && out[j].1@ == lift(
                            bv[j].1,
                            with_names(vv, bn, j as nat),
                            fv, need,
                            g0 + hoisted_bindings(bv, j as nat, vv, fv, need, g0).len(),
                        ),
                    forall|j: int| 0 <= j < i ==> in_stage((#[trigger] out[j]).1@, Stage::Hoisted),
                    bodies_in_stage(decls_view(globals@), Stage::Hoisted),
                decreases bindings.len() - i,
            {
                proof {
                    lemma_sum_to(i as nat, bindings.len() as nat, binding_binders_at(bv));
                    lemma_binding_binders(bv, i as nat);
                    lemma_with_names_len(vv, bn, i as nat);
                    assert(in_stage(bv[i as int].1, Stage::Converted));
                }
                let ghost before = decls_view(globals@);
                let v = lift_functions(&bindings[i].1, &scoped, funs, globals, need_lift);
                out.push((bindings[i].0.clone(), v));
                names_insert(&mut scoped, bindings[i].0.clone());
                proof {
                    let prev = hoisted_bindings(bv, i as nat, vv, fv, need, g0);
                    assert(before.len() == g0 + prev.len());
                    assert(decls_view(globals@) =~= start + hoisted_bindings(
                        bv,
                        (i + 1) as nat,
                        vv,
                        fv, need,
                        g0,
                    ));
                    assert(bn[i as int] == bindings[i as int].0@);
                }
                i += 1;
            }
            proof {
                lemma_binding_binders(bv, bindings.len() as nat);
                lemma_with_names_len(vv, bn, bindings.len() as nat);
            }
            let ghost before = decls_view(globals@);
            let b = lift_functions(body, &scoped, funs, globals, need_lift);
            proof {
                assert(bindings_view(out@) =~= lift_bindings(bv, vv, fv, need, g0));
                let first = hoisted_bindings(bv, bindings.len() as nat, vv, fv, need, g0);
                assert(before.len() == g0 + first.len());
                assert(decls_view(globals@) =~= start + hoisted(e@, vv, fv, need, g0));
                assert forall|j: int| 0 <= j < out.len() implies in_stage(
                    (#[trigger] bindings_view(out@)[j]).1,
                    Stage::Hoisted,
                ) by {
                    assert(bindings_view(out@)[j].1 == out[j].1@);
                }
            }
            Exp::Let { bindings: out, body: Box::new(b), ann: () }
        },
        _ => unreached(),
    }
}

/// [`lift_functions`] on a group of functions: those named in `need_lift`
/// become global, the others stay.
#[verifier::loop_isolation(false)]
#[verifier::rlimit(50)]
fn lift_fundefs(
    e: &Exp<()>,
    vars: &Vec<String>,
    funs: &Table<usize>,
    globals: &mut Vec<FunDecl<Exp<()>, ()>>,
    need_lift: &Vec<String>,
) -> (r: Exp<()>)
    requires
        e is FunDefs,
        lift_pre(e@, vars.len() as nat, decls_view(old(globals)@)),
    ensures
        lift_post(
            e@,
            names_view(vars@),
            funs@,
            names_view(need_lift@).to_set(),
            decls_view(old(globals)@),
            r@,
            decls_view(final(globals)@),
        ),
    decreases e, 0nat,
{
    let ghost vv = names_view(vars@);
    let ghost need = names_view(need_lift@).to_set();
    let ghost fv = funs@;
    let ghost g0 = globals.len() as nat;
    let ghost start = decls_view(globals@);
    match e {
        Exp::FunDefs { decls, body, ann: _ } => {
            let ghost dv = decls_view(decls@);
            let mut inner = funs.copy();
            let mut k: usize = 0;
            while k < decls.len()
                invariant
                    k <= decls.len(),
                    inner@ == declare(fv, dv, k as nat, vv, need),
                decreases decls.len() - k,
            {
                assert(dv[k as int] == decl_view(decls[k as int]));
                let passes: usize = if names_contain(need_lift, &decls[k].name) {
                    vars.len()
                } else {
                    0
                };
                inner.insert(decls[k].name.clone(), passes);
                k += 1;
            }
            let ghost iv = inner@;
            let mut new_local: Vec<FunDecl<Exp<()>, ()>> = Vec::new();
            let mut i: usize = 0;
            assert(decls_view(globals@) =~= start + hoisted_decls(dv, 0, vv, iv, need, g0));
            assert(decls_view(new_local@) =~= kept_decls(dv, 0, vv, iv, need, g0));
            while i < decls.len()
                invariant
                    i <= decls.len(),
                    decls_view(globals@) == start + hoisted_decls(dv, i as nat, vv, iv, need, g0),
                    decls_view(new_local@) == kept_decls(dv, i as nat, vv, iv, need, g0),
                    bodies_in_stage(decls_view(new_local@), Stage::Hoisted),
                    bodies_in_stage(decls_view(globals@), Stage::Hoisted),
                decreases decls.len() - i,
            {
                let decl = &decls[i];
                proof {
                    lemma_sum_to(i as nat, decls.len() as nat, decl_binders_at(dv));
                    lemma_with_names_len(vv, names_view(decl.parameters@), decl.parameters.len() as nat);
                    assert(dv[i as int] == decl_view(*decl));
                    assert(in_stage(dv[i as int].body, Stage::Converted));
                }
                let ghost before = decls_view(globals@);
                let ghost kept = decls_view(new_local@);
                let scope = extend_names(vars, &decl.parameters);
                let new_body = lift_functions(&decl.body, &scope, &inner, globals, need_lift);
                if !names_contain(need_lift, &decl.name) {
                    let kept_decl = FunDecl {
                        name: decl.name.clone(),
                        parameters: clone_names(&decl.parameters),
                        body: new_body,
                        ann: (),
                    };
                    new_local.push(kept_decl);
                    proof {
                        assert(decls_view(new_local@) =~= kept.push(decl_view(kept_decl)));
                    }
                } else {
                    let global = FunDecl {
                        name: decl.name.clone(),
                        parameters: joined_names(&decl.parameters, vars),
                        body: new_body,
                        ann: (),
                    };
                    let ghost mid = decls_view(globals@);
                    globals.push(global);
                    proof {
                        assert(decls_view(globals@) =~= mid.push(decl_view(global)));
                    }
                }
                proof {
                    let prev = hoisted_decls(dv, i as nat, vv, iv, need, g0);
                    assert(before.len() == g0 + prev.len());
                    assert(decls_view(globals@) =~= start + hoisted_decls(
                        dv,
                        (i + 1) as nat,
                        vv,
                        iv,
                        need,
                        g0,
                    ));
                    assert(decls_view(new_local@) =~= kept_decls(
                        dv,
                        (i + 1) as nat,
                        vv,
                        iv,
                        need,
                        g0,
                    ));
                }
                i += 1;
            }
            let ghost before = decls_view(globals@);
            let new_bod = lift_functions(body, vars, &inner, globals, need_lift);
            proof {
                let first = hoisted_decls(dv, decls.len() as nat, vv, iv, need, g0);
                assert(before.len() == g0 + first.len());
                assert(decls_view(globals@) =~= start + hoisted(e@, vv, fv, need, g0));
            }
            if new_local.len() > 0 {
                Exp::FunDefs { decls: new_local, body: Box::new(new_bod), ann: () }
            } else {
                new_bod
            }
        },
        _ => unreached(),
    }
}


/// The place of the global function called `name`, if there is one: the
/// last of that name.
fn find_global(globals: &Vec<FunDecl<Exp<()>, ()>>, name: &String) -> (r: Option<usize>)
    ensures
        match r {
            Some(k) => k < globals.len() && find_decl(decls_view(globals@), name@) == Some(
                decl_view(globals[k as int]),
            ),
            None => find_decl(decls_view(globals@), name@) is None,
        },
{
    let ghost gv = decls_view(globals@);
    let mut i: usize = globals.len();
    proof {
        assert(gv.take(i as int) =~= gv);
    }
    while i > 0
        invariant
            i <= globals.len(),
            gv == decls_view(globals@),
            find_decl(gv, name@) == find_decl(gv.take(i as int), name@),
        decreases i,
    {
        proof {
            assert(gv.take(i as int).drop_last() =~= gv.take(i - 1));
            assert(gv.take(i as int).last() == decl_view(globals[i - 1]));
        }
        i -= 1;
        if globals[i].name == *name {
            return Some(i);
        }
    }
    None
}

/// A variable of the closure protocol as an expression.
fn protocol_var(name: &str) -> (e: Exp<()>)
    ensures
        e@ == ExpV::Var(name@),
{
    Exp::Var(String::from_str(name), ())
}

/// A primitive of the closure protocol applied to one of its variables.
fn protocol_step(p: Prim, name: &str) -> (e: Exp<()>)
    ensures
        e@ == ExpV::Prim(p, seq![ExpV::Var(name@)]),
        in_stage(e@, Stage::Lifted),
{
    let mut args: Vec<Exp<()>> = Vec::new();
    args.push(protocol_var(name));
    assert(exps_view(args@) =~= seq![ExpV::Var(name@)]);
    assert(in_stage(exps_view(args@)[0], Stage::Lifted));
    assert(all_in_stage(exps_view(args@), Stage::Lifted));
    Exp::Prim(p, args, ())
}

/// The call of a closure, spelled out.
fn closure_call(callee: Exp<()>, mut args: Vec<Exp<()>>, is_tail: bool) -> (r: Exp<()>)
    requires
        in_stage(callee@, Stage::Lifted),
        all_in_stage(exps_view(args@), Stage::Lifted),
    ensures
        r@ == closure_protocol(callee@, exps_view(args@), is_tail),
        in_stage(r@, Stage::Lifted),
{
    let ghost av = exps_view(args@);
    let arity = args.len();
    args.push(protocol_var("#env"));
    assert(exps_view(args@) =~= av.push(ExpV::Var("#env"@)));
    assert forall|i: int| 0 <= i < args.len() implies in_stage(
        #[trigger] exps_view(args@)[i],
        Stage::Lifted,
    ) by {
        if i < av.len() {
            assert(exps_view(args@)[i] == av[i]);
        }
    }
    let call = Exp::ExternalCall {
        fun: VarOrLabel::Var(String::from_str("#code_ptr")),
        args,
        is_tail,
        ann: (),
    };
    assert(all_in_stage(exps_view(args@), Stage::Lifted));
    assert(in_stage(call@, Stage::Lifted));
    let mut bindings: Vec<(String, Exp<()>)> = Vec::new();
    bindings.push((String::from_str("#lambda"), callee));
    bindings.push(
        (String::from_str("#untagged"), protocol_step(Prim::CheckArityAndUntag(arity), "#lambda")),
    );
    bindings.push((String::from_str("#code_ptr"), protocol_step(Prim::GetCode, "#untagged")));
    bindings.push((String::from_str("#env"), protocol_step(Prim::GetEnv, "#untagged")));
    let ghost bv = bindings_view(bindings@);
    assert(bv =~= closure_protocol(callee@, av, is_tail)->Let_bindings);
    assert forall|i: int| 0 <= i < bv.len() implies in_stage((#[trigger] bv[i]).1, Stage::Lifted) by {
        assert(bv[i].1 == bindings[i].1@);
    }
    Exp::Let { bindings, body: Box::new(call), ann: () }
}

/// [`rewrite_call_params`] on each expression of a list.
#[verifier::loop_isolation(false)]
fn rewrite_exps(es: &Vec<Exp<()>>, globals: &Vec<FunDecl<Exp<()>, ()>>) -> (out: Vec<Exp<()>>)
    requires
        all_in_stage(exps_view(es@), Stage::Hoisted),
    ensures
        exps_view(out@) == rewrite_list(exps_view(es@), decls_view(globals@)),
        all_in_stage(exps_view(out@), Stage::Lifted),
    decreases es, 0nat,
{
    let ghost ev = exps_view(es@);
    let mut out: Vec<Exp<()>> = Vec::new();
    let mut i: usize = 0;
    while i < es.len()
        invariant
            i <= es.len(),
            out.len() == i,
            forall|j: int|
                0 <= j < i ==> (#[trigger] out[j])@ == rewrite(ev[j], decls_view(globals@), false),
            forall|j: int| 0 <= j < i ==> in_stage((#[trigger] out[j])@, Stage::Lifted),
        decreases es.len() - i,
    {
        assert(in_stage(ev[i as int], Stage::Hoisted));
        out.push(rewrite_call_params(&es[i], globals, false));
        i += 1;
    }
    assert(exps_view(out@) =~= rewrite_list(ev, decls_view(globals@)));
    assert forall|j: int| 0 <= j < out.len() implies in_stage(
        #[trigger] exps_view(out@)[j],
        Stage::Lifted,
    ) by {
        assert(exps_view(out@)[j] == out[j]@);
    }
    out
}

/// [`rewrite_call_params`] on a call of a named function.
#[verifier::loop_isolation(false)]
fn rewrite_direct_call(e: &Exp<()>, globals: &Vec<FunDecl<Exp<()>, ()>>, is_tail: bool) -> (r: Exp<
    (),
>)
    requires
        e is DirectCall,
        in_stage(e@, Stage::Hoisted),
    ensures
        r@ == rewrite(e@, decls_view(globals@), is_tail),
        in_stage(r@, Stage::Lifted),
    decreases e, 0nat,
{
    match e {
        Exp::DirectCall(func, params, _) => {
            let mut mod_params = rewrite_exps(params, globals);
            match find_global(globals, func) {
                Some(k) => {
                    let parameters = &globals[k].parameters;
                    let ghost pv = names_view(parameters@);
                    let ghost front = exps_view(mod_params@);
                    let ghost n = params.len() as nat;
                    assert(decl_view(globals[k as int]).parameters == pv);
                    assert(front.len() == n);
                    assert(front + captured(Seq::<Name>::empty()) =~= front);
                    if params.len() <= parameters.len() {
                        let mut i: usize = params.len();
                        assert(pv.subrange(n as int, n as int) =~= Seq::<Name>::empty());
                        while i < parameters.len()
                            invariant
                                n <= i <= parameters.len(),
                                exps_view(mod_params@) == front + captured(
                                    pv.subrange(n as int, i as int),
                                ),
                                all_in_stage(exps_view(mod_params@), Stage::Lifted),
                            decreases parameters.len() - i,
                        {
                            let ghost before = exps_view(mod_params@);
                            let next = Exp::Var(parameters[i].clone(), ());
                            assert(next@ == ExpV::Var(pv[i as int]));
                            mod_params.push(next);
                            proof {
                                let after = exps_view(mod_params@);
                                assert(after =~= before.push(ExpV::Var(pv[i as int])));
                                assert(after =~= front + captured(pv.subrange(n as int, i + 1)));
                                assert forall|j: int| 0 <= j < after.len() implies in_stage(
                                    #[trigger] after[j],
                                    Stage::Lifted,
                                ) by {
                                    if j < before.len() {
                                        assert(after[j] == before[j]);
                                    }
                                }
                            }
                            i += 1;
                        }
                        assert(pv.subrange(n as int, i as int) =~= pv.skip(n as int));
                    }
                    Exp::ExternalCall {
                        fun: VarOrLabel::Label(func.clone()),
                        args: mod_params,
                        is_tail,
                        ann: (),
                    }
                },
                None => Exp::InternalTailCall(func.clone(), mod_params, ()),
            }
        },
        _ => unreached(),
    }
}

/// [`rewrite_call_params`] on a `let` or a group of functions.
#[verifier::loop_isolation(false)]
#[verifier::rlimit(50)]
fn rewrite_binders(e: &Exp<()>, globals: &Vec<FunDecl<Exp<()>, ()>>, is_tail: bool) -> (r: Exp<()>)
    requires
        e is Let || e is FunDefs,
        in_stage(e@, Stage::Hoisted),
    ensures
        r@ == rewrite(e@, decls_view(globals@), is_tail),
        in_stage(r@, Stage::Lifted),
    decreases e, 0nat,
{
    let ghost gv = decls_view(globals@);
    match e {
        Exp::Let { bindings, body, ann: _ } => {
            let ghost bv = bindings_view(bindings@);
            let mut out: Vec<(String, Exp<()>)> = Vec::new();
            let mut i: usize = 0;
            while i < bindings.len()
                invariant
                    i <= bindings.len(),
                    out.len() == i,
                    forall|j: int|
                        0 <= j < i ==> (#[trigger] out[j]).0@ == bv[j].0 && out[j].1@ == rewrite(
                            bv[j].1,
                            gv,
                            false,
                        ),
                    forall|j: int| 0 <= j < i ==> in_stage((#[trigger] out[j]).1@, Stage::Lifted),
                decreases bindings.len() - i,
            {
                assert(in_stage(bv[i as int].1, Stage::Hoisted));
                let v = rewrite_call_params(&bindings[i].1, globals, false);
                out.push((bindings[i].0.clone(), v));
                i += 1;
            }
            let b = rewrite_call_params(body, globals, is_tail);
            proof {
                assert(bindings_view(out@) =~= rewrite_bindings(bv, gv));
                assert forall|j: int| 0 <= j < out.len() implies in_stage(
                    (#[trigger] bindings_view(out@)[j]).1,
                    Stage::Lifted,
                ) by {
                    assert(bindings_view(out@)[j].1 == out[j].1@);
                }
            }
            Exp::Let { bindings: out, body: Box::new(b), ann: () }
        },
        Exp::FunDefs { decls, body, ann: _ } => {
            let ghost dv = decls_view(decls@);
            let mut out: Vec<FunDecl<Exp<()>, ()>> = Vec::new();
            let mut i: usize = 0;
            while i < decls.len()
                invariant
                    i <= decls.len(),
                    out.len() == i,
                    forall|j: int|
                        0 <= j < i ==> decl_view(#[trigger] out[j]) == (FunDeclV {
                            name: dv[j].name,
                            parameters: dv[j].parameters,
                            body: rewrite(dv[j].body, gv, true),
                        }),
                    forall|j: int| 0 <= j < i ==> in_stage((#[trigger] out[j]).body@, Stage::Lifted),
                decreases decls.len() - i,
            {
                let decl = &decls[i];
                assert(dv[i as int] == decl_view(*decl));
                assert(in_stage(dv[i as int].body, Stage::Hoisted));
                out.push(
                    FunDecl {
                        name: decl.name.clone(),
                        parameters: clone_names(&decl.parameters),
                        body: rewrite_call_params(&decl.body, globals, true),
                        ann: (),
                    },
                );
                i += 1;
            }
            let b = rewrite_call_params(body, globals, is_tail);
            proof {
                assert(decls_view(out@) =~= rewrite_decls(dv, gv));
                assert forall|j: int| 0 <= j < out.len() implies in_stage(
                    (#[trigger] decls_view(out@)[j]).body,
                    Stage::Lifted,
                ) by {
                    assert(decls_view(out@)[j].body == out[j].body@);
                }
            }
            Exp::FunDefs { decls: out, body: Box::new(b), ann: () }
        },
        _ => unreached(),
    }
}

fn rewrite_call_params(e: &Exp<()>, globals: &Vec<FunDecl<Exp<()>, ()>>, is_tail: bool) -> (r: Exp<
    (),
>)
    requires
        in_stage(e@, Stage::Hoisted),
    ensures
        r@ == rewrite(e@, decls_view(globals@), is_tail),
        in_stage(r@, Stage::Lifted),
    decreases e, 1nat,
{
    match e {
        Exp::Num(n, _) => Exp::Num(*n, ()),
        Exp::Bool(b, _) => Exp::Bool(*b, ()),
        Exp::Var(v, _) => Exp::Var(v.clone(), ()),
        Exp::Prim(p, exps, _) => Exp::Prim(*p, rewrite_exps(exps, globals), ()),
        Exp::Let { .. } | Exp::FunDefs { .. } => rewrite_binders(e, globals, is_tail),
        Exp::If { cond, thn, els, ann: _ } => {
            let c = rewrite_call_params(cond, globals, false);
            let t = rewrite_call_params(thn, globals, is_tail);
            let f = rewrite_call_params(els, globals, is_tail);
            Exp::If { cond: Box::new(c), thn: Box::new(t), els: Box::new(f), ann: () }
        },
        Exp::DirectCall(..) => rewrite_direct_call(e, globals, is_tail),
        Exp::ClosureCall(func, args, _) => {
            let callee = rewrite_call_params(func, globals, false);
            let new_args = rewrite_exps(args, globals);
            closure_call(callee, new_args, is_tail)
        },
        Exp::MakeClosure { arity, label, env, ann: _ } => {
            let new_env = rewrite_call_params(env, globals, false);
            Exp::MakeClosure { arity: *arity, label: label.clone(), env: Box::new(new_env), ann: () }
        },
        _ => unreached(),
    }
}


/// A list of names as a set.
pub open spec fn name_set(names: Vec<String>) -> Set<Name> {
    names_view(names@).to_set()
}

/// The names of the functions of a group.
fn group_names(decls: &Vec<FunDecl<Exp<()>, ()>>) -> (names: Vec<String>)
    ensures
        names_view(names@) == decl_names(decls_view(decls@)),
{
    let mut names: Vec<String> = Vec::new();
    let mut i: usize = 0;
    while i < decls.len()
        invariant
            i <= decls.len(),
            names.len() == i,
            forall|j: int| 0 <= j < i ==> (#[trigger] names[j])@ == decls[j].name@,
        decreases decls.len() - i,
    {
        names.push(decls[i].name.clone());
        i += 1;
    }
    assert(names_view(names@) =~= decl_names(decls_view(decls@)));
    names
}

/// Whether two lists have a name in common.
fn share_a_name(first: &Vec<String>, second: &Vec<String>) -> (r: bool)
    ensures
        r == !name_set(*first).disjoint(name_set(*second)),
{
    let mut i: usize = 0;
    while i < second.len()
        invariant
            i <= second.len(),
            forall|j: int| 0 <= j < i ==> !names_view(first@).contains(#[trigger] second[j]@),
        decreases second.len() - i,
    {
        if names_contain(first, &second[i]) {
            assert(names_view(second@)[i as int] == second[i as int]@);
            assert(name_set(*first).contains(second[i as int]@) && name_set(*second).contains(
                second[i as int]@,
            ));
            return true;
        }
        i += 1;
    }
    assert forall|a: Name| !(name_set(*first).contains(a) && name_set(*second).contains(a)) by {
        if name_set(*second).contains(a) {
            let j = choose|j: int| 0 <= j < second.len() && names_view(second@)[j] == a;
            assert(second[j]@ == a);
        }
    }
    false
}

/// Adds to `set` every name of `more`.
fn add_names(set: &mut Vec<String>, more: &Vec<String>)
    ensures
        name_set(*final(set)) == name_set(*old(set)).union(name_set(*more)),
{
    let extended = extend_names(set, more);
    proof {
        lemma_with_names_set(names_view(set@), names_view(more@), more.len() as nat);
        assert(names_view(more@).take(more.len() as int) =~= names_view(more@));
    }
    *set = extended;
}

/// Adds one name to `set`.
fn add_name(set: &mut Vec<String>, name: &String)
    ensures
        name_set(*final(set)) == name_set(*old(set)).insert(name@),
{
    proof {
        lemma_with_name_set(names_view(set@), name@);
    }
    names_insert(set, name.clone());
}

/// [`mark`] on each expression of a list; none is in tail position.
#[verifier::loop_isolation(false)]
fn mark_exps(es: &Vec<Exp<()>>, known: &Vec<String>, funcs: &Vec<String>, set: &mut Vec<String>)
    requires
        all_in_stage(exps_view(es@), Stage::Converted),
    ensures
        name_set(*final(set)) == name_set(*old(set)).union(
            marks_list(exps_view(es@), es.len() as nat, name_set(*known), name_set(*funcs)),
        ),
    decreases es, 0nat,
{
    let ghost ev = exps_view(es@);
    let ghost start = name_set(*set);
    let ghost scope = name_set(*known);
    let mut i: usize = 0;
    assert(start.union(marks_list(ev, 0, scope, name_set(*funcs))) =~= start);
    while i < es.len()
        invariant
            i <= es.len(),
            name_set(*set) == start.union(marks_list(ev, i as nat, scope, name_set(*funcs))),
        decreases es.len() - i,
    {
        assert(in_stage(ev[i as int], Stage::Converted));
        mark(&es[i], known, funcs, false, set);
        assert(name_set(*set) =~= start.union(
            marks_list(ev, (i + 1) as nat, scope, name_set(*funcs)),
        ));
        i += 1;
    }
}

/// [`mark`] on a `let` or a group of functions.
#[verifier::loop_isolation(false)]
#[verifier::rlimit(50)]
fn mark_binders(
    p: &Exp<()>,
    known: &Vec<String>,
    funcs: &Vec<String>,
    is_tail: bool,
    set: &mut Vec<String>,
)
    requires
        p is Let || p is FunDefs,
        in_stage(p@, Stage::Converted),
    ensures
        name_set(*final(set)) == name_set(*old(set)).union(
            marks(p@, name_set(*known), name_set(*funcs), is_tail),
        ),
    decreases p, 0nat,
{
    let ghost start = name_set(*set);
    let ghost scope = name_set(*known);
    let ghost local = name_set(*funcs);
    match p {
        Exp::Let { bindings, body, ann: _ } => {
            let ghost bv = bindings_view(bindings@);
            let mut i: usize = 0;
            assert(start.union(marks_bindings(bv, 0, scope, local)) =~= start);
            while i < bindings.len()
                invariant
                    i <= bindings.len(),
                    name_set(*set) == start.union(marks_bindings(bv, i as nat, scope, local)),
                decreases bindings.len() - i,
            {
                assert(in_stage(bv[i as int].1, Stage::Converted));
                mark(&bindings[i].1, known, funcs, false, set);
                assert(name_set(*set) =~= start.union(
                    marks_bindings(bv, (i + 1) as nat, scope, local),
                ));
                i += 1;
            }
            mark(body, known, funcs, is_tail, set);
            assert(name_set(*set) =~= start.union(marks(p@, scope, local, is_tail)));
        },
        Exp::FunDefs { decls, body, ann: _ } => {
            let ghost dv = decls_view(decls@);
            let names = group_names(decls);
            let ghost group = name_set(names);
            let inner_known = extend_names(known, &names);
            proof {
                lemma_with_names_set(names_view(known@), names_view(names@), names.len() as nat);
                assert(names_view(names@).take(names.len() as int) =~= names_view(names@));
            }
            let ghost inner_scope = name_set(inner_known);
            let mut inner: Vec<String> = Vec::new();
            assert(name_set(inner) =~= Set::<Name>::empty());
            let mut i: usize = 0;
            assert(name_set(inner) =~= marks_decls(dv, 0, inner_scope, group));
            while i < decls.len()
                invariant
                    i <= decls.len(),
                    name_set(inner) == marks_decls(dv, i as nat, inner_scope, group),
                decreases decls.len() - i,
            {
                assert(dv[i as int] == decl_view(decls[i as int]));
                assert(in_stage(dv[i as int].body, Stage::Converted));
                mark(&decls[i].body, &inner_known, &names, true, &mut inner);
                i += 1;
            }
            let scoped_funcs = extend_names(funcs, &names);
            proof {
                lemma_with_names_set(names_view(funcs@), names_view(names@), names.len() as nat);
            }
            mark(body, &inner_known, &scoped_funcs, is_tail, &mut inner);
            if share_a_name(&inner, &names) {
                add_names(&mut inner, &names);
            }
            add_names(set, &inner);
        },
        _ => unreached(),
    }
}

/// Adds to `set` the functions that have to become global because of how
/// `p` uses them: `known` are the functions in scope, `funcs` those that the
/// place of `p` may call without leaving its frame.
fn mark(p: &Exp<()>, known: &Vec<String>, funcs: &Vec<String>, is_tail: bool, set: &mut Vec<String>)
    requires
        in_stage(p@, Stage::Converted),
    ensures
        name_set(*final(set)) == name_set(*old(set)).union(
            marks(p@, name_set(*known), name_set(*funcs), is_tail),
        ),
    decreases p, 1nat,
{
    let ghost start = name_set(*set);
    let ghost scope = name_set(*known);
    let ghost local = name_set(*funcs);
    match p {
        Exp::Num(..) | Exp::Bool(..) => {
            assert(start.union(Set::<Name>::empty()) =~= start);
        },
        Exp::Var(x, _) => {
            if names_contain(known, x) {
                add_name(set, x);
                assert(name_set(*set) =~= start.union(marks(p@, scope, local, is_tail)));
            } else {
                assert(start.union(Set::<Name>::empty()) =~= start);
            }
        },
        Exp::MakeClosure { arity: _, label, env, ann: _ } => {
            mark(env, known, funcs, false, set);
            add_name(set, label);
            assert(name_set(*set) =~= start.union(marks(p@, scope, local, is_tail)));
        },
        Exp::Prim(_, exps, _) => {
            mark_exps(exps, known, funcs, set);
        },
        Exp::Let { .. } | Exp::FunDefs { .. } => {
            mark_binders(p, known, funcs, is_tail, set);
        },
        Exp::If { cond, thn, els, ann: _ } => {
            mark(cond, known, funcs, false, set);
            mark(thn, known, funcs, is_tail, set);
            mark(els, known, funcs, is_tail, set);
            assert(name_set(*set) =~= start.union(marks(p@, scope, local, is_tail)));
        },
        Exp::DirectCall(func, args, _) => {
            mark_exps(args, known, funcs, set);
            if !(is_tail && names_contain(funcs, func)) {
                add_name(set, func);
            }
            assert(name_set(*set) =~= start.union(marks(p@, scope, local, is_tail)));
        },
        Exp::ClosureCall(func, params, _) => {
            mark(func, known, funcs, false, set);
            mark_exps(params, known, funcs, set);
            assert(name_set(*set) =~= start.union(marks(p@, scope, local, is_tail)));
        },
        Exp::Lambda { parameters: _, body, ann: _ } => {
            let none: Vec<String> = Vec::new();
            assert(name_set(none) =~= Set::<Name>::empty());
            mark(body, known, &none, true, set);
        },
        _ => {
            assert(false);
        },
    }
}

/// The functions that have to become global because of how `p` uses them,
/// where `funcs` are the functions in scope at `p`: each that `p` names as a
/// value, and each that `p` calls otherwise than in tail position from the
/// body that declares it.
pub fn should_lift(p: &Exp<()>, funcs: &Vec<String>, is_tail: bool) -> (set: Vec<String>)
    requires
        in_stage(p@, Stage::Converted),
    ensures
        name_set(set) == marks(p@, name_set(*funcs), name_set(*funcs), is_tail),
{
    let mut set: Vec<String> = Vec::new();
    assert(name_set(set) =~= Set::<Name>::empty());
    mark(p, funcs, funcs, is_tail, &mut set);
    assert(Set::<Name>::empty().union(marks(p@, name_set(*funcs), name_set(*funcs), is_tail))
        =~= marks(p@, name_set(*funcs), name_set(*funcs), is_tail));
    set
}


/// The global functions and the main expression of a program after lambda
/// lifting: the program is uniquified and closure converted, the functions
/// that cannot stay local are found and hoisted, and every call is rewritten
/// with all global functions known.
pub open spec fn lambda_lift_spec(p: ExpV) -> (Seq<FunDeclV>, ExpV) {
    let unique = uniq(p, Map::empty(), 0);
    let converted = convert(unique, Map::empty());
    let need = marks(converted, Set::empty(), Set::empty(), true);
    let globals = hoisted(converted, Seq::empty(), Map::empty(), need, 0);
    let main = lift(converted, Seq::empty(), Map::empty(), need, 0);
    (rewrite_decls(globals, globals), rewrite(main, globals, true))
}

/// Lifts to the top level what cannot stay local, in a surface program in
/// which every variable is bound.
#[verifier::loop_isolation(false)]
#[verifier::rlimit(50)]
pub fn lambda_lift<Ann>(p: &Exp<Ann>) -> (r: (Vec<FunDecl<Exp<()>, ()>>, Exp<()>))
    requires
        in_stage(p@, Stage::Surface),
        scoped(p@, Set::empty()),
        binders(p@) <= MAX_SCOPE,
    ensures
        (decls_view(r.0@), r.1@) == lambda_lift_spec(p@),
        bodies_in_stage(decls_view(r.0@), Stage::Lifted),
        in_stage(r.1@, Stage::Lifted),
{
    let mapping: Table<u32> = Table::new();
    let mut counter: u32 = 0;
    let unique_p = uniquify(p, &mapping, &mut counter);
    let funcs: Table<usize> = Table::new();
    let converted = eliminate_closures(&unique_p, &funcs);
    let none: Vec<String> = Vec::new();
    assert(names_view(none@) =~= Seq::<Name>::empty());
    assert(name_set(none) =~= Set::<Name>::empty());
    let to_lift = should_lift(&converted, &none, true);
    let mut globals: Vec<FunDecl<Exp<()>, ()>> = Vec::new();
    assert(decls_view(globals@) =~= Seq::<FunDeclV>::empty());
    let scope: Table<usize> = Table::new();
    let main = lift_functions(&converted, &none, &scope, &mut globals, &to_lift);
    let ghost need = name_set(to_lift);
    let ghost gv = decls_view(globals@);
    assert(gv =~= hoisted(converted@, Seq::empty(), Map::empty(), need, 0));
    let mut out: Vec<FunDecl<Exp<()>, ()>> = Vec::new();
    let mut i: usize = 0;
    while i < globals.len()
        invariant
            i <= globals.len(),
            out.len() == i,
            forall|j: int| 0 <= j < i ==> decl_view(#[trigger] out[j]) == rewrite_decls(gv, gv)[j],
            forall|j: int| 0 <= j < i ==> in_stage((#[trigger] out[j]).body@, Stage::Lifted),
        decreases globals.len() - i,
    {
        let decl = &globals[i];
        assert(gv[i as int] == decl_view(*decl));
        assert(in_stage(gv[i as int].body, Stage::Hoisted));
        let new_decl = FunDecl {
            name: decl.name.clone(),
            parameters: clone_names(&decl.parameters),
            body: rewrite_call_params(&decl.body, &globals, true),
            ann: (),
        };
        assert(decl_view(new_decl) == rewrite_decls(gv, gv)[i as int]);
        out.push(new_decl);
        i += 1;
    }
    let new_main = rewrite_call_params(&main, &globals, true);
    proof {
        assert(decls_view(out@) =~= rewrite_decls(gv, gv));
        assert forall|j: int| 0 <= j < out.len() implies in_stage(
            (#[trigger] decls_view(out@)[j]).body,
            Stage::Lifted,
        ) by {
            assert(decls_view(out@)[j].body == out[j].body@);
        }
    }
    (out, new_main)
}

} // verus!
