//! Closure conversion: a call of a known function becomes a direct call, any
//! other call a closure call, and a known function used as a value becomes a
//! closure without captured variables.

use vstd::prelude::*;
use vstd::pervasive::unreached;
use crate::syntax::{Exp, ExpV, FunDecl, FunDeclV, Name, Prim, Stage, all_in_stage, binders, binders_at, binding_binders_at, bindings_view, clone_names, decl_binders_at, decl_view, decls_view, exps_view, in_stage, lemma_sum_to_eq, sum_to};
use crate::table::Table;

verus! {

/// The known functions after the first `n` functions of a group were added,
/// each with the number of its parameters.
pub open spec fn with_decls(funcs: Map<Name, usize>, ds: Seq<FunDeclV>, n: nat) -> Map<Name, usize>
    decreases n,
{
    if n == 0 || n > ds.len() {
        funcs
    } else {
        with_decls(funcs, ds, (n - 1) as nat).insert(ds[n - 1].name, ds[n - 1].parameters.len() as usize)
    }
}

/// The closure that stands for a known function used as a value.
pub open spec fn function_value(name: Name, arity: usize) -> ExpV {
    ExpV::MakeClosure {
        arity,
        label: name,
        env: Box::new(ExpV::Prim(Prim::MakeArray, Seq::empty())),
    }
}

/// The name of the known function that a callee is, if it is one.
pub open spec fn known_callee(f: ExpV, funcs: Map<Name, usize>) -> Option<Name> {
    match f {
        ExpV::Var(x) => if funcs.contains_key(x) {
            Some(x)
        } else {
            None
        },
        _ => None,
    }
}

/// The expression after closure conversion. `funcs` maps each known function
/// in scope to the number of its parameters.
pub open spec fn convert(e: ExpV, funcs: Map<Name, usize>) -> ExpV
    decreases e,
{
    match e {
        ExpV::Var(x) => if funcs.contains_key(x) {
            function_value(x, funcs[x])
        } else {
            e
        },
        ExpV::Prim(p, es) => ExpV::Prim(p, convert_list(es, funcs)),
        ExpV::Let { bindings, body } => ExpV::Let {
            bindings: convert_bindings(bindings, funcs),
            body: Box::new(convert(*body, funcs)),
        },
        ExpV::If { cond, thn, els } => ExpV::If {
            cond: Box::new(convert(*cond, funcs)),
            thn: Box::new(convert(*thn, funcs)),
            els: Box::new(convert(*els, funcs)),
        },
        ExpV::FunDefs { decls, body } => {
            let inner = with_decls(funcs, decls, decls.len());
            ExpV::FunDefs {
                decls: convert_decls(decls, inner),
                body: Box::new(convert(*body, inner)),
            }
        },
        ExpV::Lambda { parameters, body } => ExpV::Lambda {
            parameters,
            body: Box::new(convert(*body, funcs)),
        },
        ExpV::Call(f, args) => match known_callee(*f, funcs) {
            Some(name) => ExpV::DirectCall(name, convert_list(args, funcs)),
            None => ExpV::ClosureCall(Box::new(convert(*f, funcs)), convert_list(args, funcs)),
        },
        _ => e,
    }
}

/// [`convert`] of each expression of a list.
pub open spec fn convert_list(es: Seq<ExpV>, funcs: Map<Name, usize>) -> Seq<ExpV>
    decreases es,
{
    Seq::new(
        es.len(),
        |i: int|
            if 0 <= i < es.len() {
                convert(es[i], funcs)
            } else {
                arbitrary()
            },
    )
}

/// [`convert`] of the value of each binding.
pub open spec fn convert_bindings(bs: Seq<(Name, ExpV)>, funcs: Map<Name, usize>) -> Seq<(Name, ExpV)>
    decreases bs,
{
    Seq::new(
        bs.len(),
        |i: int|
            if 0 <= i < bs.len() {
                (bs[i].0, convert(bs[i].1, funcs))
            } else {
                arbitrary()
            },
    )
}

/// [`convert`] of the body of each function.
pub open spec fn convert_decls(ds: Seq<FunDeclV>, funcs: Map<Name, usize>) -> Seq<FunDeclV>
    decreases ds,
{
    Seq::new(
        ds.len(),
        |i: int|
            if 0 <= i < ds.len() {
                FunDeclV {
                    name: ds[i].name,
                    parameters: ds[i].parameters,
                    body: convert(ds[i].body, funcs),
                }
            } else {
                arbitrary()
            },
    )
}

/// The closure that stands for a known function used as a value.
fn make_function_value(name: &String, arity: usize) -> (r: Exp<()>)
    ensures
        r@ == function_value(name@, arity),
        in_stage(r@, Stage::Converted),
        binders(r@) == 0,
{
    let args: Vec<Exp<()>> = Vec::new();
    assert(exps_view(args@) =~= Seq::<ExpV>::empty());
    let env = Exp::Prim(Prim::MakeArray, args, ());
    assert(env@ == ExpV::Prim(Prim::MakeArray, Seq::empty()));
    assert(all_in_stage(Seq::<ExpV>::empty(), Stage::Converted));
    assert(in_stage(env@, Stage::Converted));
    assert(binders(env@) == 0);
    Exp::MakeClosure { arity, label: name.clone(), env: Box::new(env), ann: () }
}

/// [`eliminate_closures`] on each expression of a list.
#[verifier::loop_isolation(false)]
fn eliminate_in_exps(es: &Vec<Exp<()>>, funcs: &Table<usize>) -> (out: Vec<Exp<()>>)
    requires
        all_in_stage(exps_view(es@), Stage::Core),
    ensures
        exps_view(out@) == convert_list(exps_view(es@), funcs@),
        all_in_stage(exps_view(out@), Stage::Converted),
        out.len() == es.len(),
        sum_to(es.len() as nat, binders_at(exps_view(out@))) == sum_to(
            es.len() as nat,
            binders_at(exps_view(es@)),
        ),
    decreases es, 0nat,
{
    let ghost ev = exps_view(es@);
    let mut out: Vec<Exp<()>> = Vec::new();
    let mut i: usize = 0;
    while i < es.len()
        invariant
            i <= es.len(),
            out.len() == i,
            forall|j: int| 0 <= j < i ==> (#[trigger] out[j])@ == convert(ev[j], funcs@),
            forall|j: int| 0 <= j < i ==> in_stage((#[trigger] out[j])@, Stage::Converted),
            forall|j: int| 0 <= j < i ==> binders((#[trigger] out[j])@) == binders(ev[j]),
        decreases es.len() - i,
    {
        assert(in_stage(ev[i as int], Stage::Core));
        out.push(eliminate_closures(&es[i], funcs));
        i += 1;
    }
    proof {
        assert(exps_view(out@) =~= convert_list(ev, funcs@));
        assert forall|j: int| 0 <= j < out.len() implies in_stage(
            #[trigger] exps_view(out@)[j],
            Stage::Converted,
        ) by {
            assert(exps_view(out@)[j] == out[j]@);
        }
        assert forall|j: int| 0 <= j < es.len() implies #[trigger] binders_at(exps_view(out@))(j)
            == binders_at(ev)(j) by {
            assert(exps_view(out@)[j] == out[j]@);
        }
        lemma_sum_to_eq(es.len() as nat, binders_at(exps_view(out@)), binders_at(ev));
    }
    out
}

/// [`eliminate_closures`] on a `let` or a group of functions.
#[verifier::loop_isolation(false)]
#[verifier::rlimit(50)]
fn eliminate_in_binders(e: &Exp<()>, funcs: &Table<usize>) -> (r: Exp<()>)
    requires
        e is Let || e is FunDefs,
        in_stage(e@, Stage::Core),
    ensures
        r@ == convert(e@, funcs@),
        in_stage(r@, Stage::Converted),
        binders(r@) == binders(e@),
    decreases e, 0nat,
{
    match e {
        Exp::Let { bindings, body, ann: _ } => {
            let ghost bv = bindings_view(bindings@);
            let mut out: Vec<(String, Exp<()>)> = Vec::new();
            let mut i: usize = 0;
            while i < bindings.len()
                invariant
                    i <= bindings.len(),
                    out.len() == i,
                    forall|j: int|
                        0 <= j < i ==> (#[trigger] out[j]).0@ == bv[j].0 && out[j].1@ == convert(
                            bv[j].1,
                            funcs@,
                        ),
                    forall|j: int| 0 <= j < i ==> in_stage((#[trigger] out[j]).1@, Stage::Converted),
                    forall|j: int| 0 <= j < i ==> binders((#[trigger] out[j]).1@) == binders(bv[j].1),
                decreases bindings.len() - i,
            {
                assert(in_stage(bv[i as int].1, Stage::Core));
                let v = eliminate_closures(&bindings[i].1, funcs);
                out.push((bindings[i].0.clone(), v));
                i += 1;
            }
            let b = eliminate_closures(body, funcs);
            proof {
                assert(bindings_view(out@) =~= convert_bindings(bv, funcs@));
                assert forall|j: int| 0 <= j < out.len() implies in_stage(
                    (#[trigger] bindings_view(out@)[j]).1,
                    Stage::Converted,
                ) by {
                    assert(bindings_view(out@)[j].1 == out[j].1@);
                }
                let ob = binding_binders_at(bindings_view(out@));
                let bb = binding_binders_at(bv);
                assert forall|j: int| 0 <= j < bindings.len() implies #[trigger] ob(j) == bb(j) by {
                    assert(bindings_view(out@)[j].1 == out[j].1@);
                }
                lemma_sum_to_eq(bindings.len() as nat, ob, bb);
            }
            Exp::Let { bindings: out, body: Box::new(b), ann: () }
        },
        Exp::FunDefs { decls, body, ann: _ } => {
            let ghost dv = decls_view(decls@);
            let mut scoped_funcs = funcs.copy();
            let mut k: usize = 0;
            while k < decls.len()
                invariant
                    k <= decls.len(),
                    scoped_funcs@ == with_decls(funcs@, dv, k as nat),
                decreases decls.len() - k,
            {
                assert(dv[k as int] == decl_view(decls[k as int]));
                scoped_funcs.insert(decls[k].name.clone(), decls[k].parameters.len());
                k += 1;
            }
            let ghost inner = scoped_funcs@;
            let mut out: Vec<FunDecl<Exp<()>, ()>> = Vec::new();
            let mut i: usize = 0;
            while i < decls.len()
                invariant
                    i <= decls.len(),
                    out.len() == i,
                    forall|j: int|
                        0 <= j < i ==> decl_view(#[trigger] out[j]) == convert_decls(dv, inner)[j],
                    forall|j: int|
                        0 <= j < i ==> in_stage((#[trigger] out[j]).body@, Stage::Converted),
                    forall|j: int|
                        0 <= j < i ==> binders((#[trigger] out[j]).body@) == binders(dv[j].body),
                decreases decls.len() - i,
            {
                let decl = &decls[i];
                assert(dv[i as int] == decl_view(*decl));
                assert(in_stage(dv[i as int].body, Stage::Core));
                let new_decl = FunDecl {
                    name: decl.name.clone(),
                    parameters: clone_names(&decl.parameters),
                    body: eliminate_closures(&decl.body, &scoped_funcs),
                    ann: (),
                };
                assert(decl_view(new_decl) == convert_decls(dv, inner)[i as int]);
                out.push(new_decl);
                i += 1;
            }
            let b = eliminate_closures(body, &scoped_funcs);
            proof {
                assert(decls_view(out@) =~= convert_decls(dv, inner));
                assert forall|j: int| 0 <= j < out.len() implies in_stage(
                    (#[trigger] decls_view(out@)[j]).body,
                    Stage::Converted,
                ) by {
                    assert(decls_view(out@)[j].body == out[j].body@);
                }
                let ob = decl_binders_at(decls_view(out@));
                let db = decl_binders_at(dv);
                assert forall|j: int| 0 <= j < decls.len() implies #[trigger] ob(j) == db(j) by {
                    assert(decls_view(out@)[j] == decl_view(out[j]));
                }
                lemma_sum_to_eq(decls.len() as nat, ob, db);
            }
            Exp::FunDefs { decls: out, body: Box::new(b), ann: () }
        },
        _ => unreached(),
    }
}

/// The name of the known function that a callee is, if it is one.
fn callee_name<'a>(f: &'a Exp<()>, funcs: &Table<usize>) -> (r: Option<&'a String>)
    ensures
        match r {
            Some(name) => known_callee(f@, funcs@) == Some(name@),
            None => known_callee(f@, funcs@) is None,
        },
{
    match f {
        Exp::Var(func, _) => {
            match funcs.get(func) {
                Some(_) => Some(func),
                None => None,
            }
        },
        _ => None,
    }
}

/// Closure conversion of a uniquified expression. `funcs` maps each known
/// function in scope to the number of its parameters.
pub fn eliminate_closures(e: &Exp<()>, funcs: &Table<usize>) -> (r: Exp<()>)
    requires
        in_stage(e@, Stage::Core),
    ensures
        r@ == convert(e@, funcs@),
        in_stage(r@, Stage::Converted),
        binders(r@) == binders(e@),
    decreases e, 1nat,
{
    match e {
        Exp::Num(n, _) => Exp::Num(*n, ()),
        Exp::Bool(b, _) => Exp::Bool(*b, ()),
        Exp::Var(v, _) => {
            match funcs.get(v) {
                Some(arity) => make_function_value(v, arity),
                None => Exp::Var(v.clone(), ()),
            }
        },
        Exp::Prim(p, exps, _) => Exp::Prim(*p, eliminate_in_exps(exps, funcs), ()),
        Exp::Let { .. } | Exp::FunDefs { .. } => eliminate_in_binders(e, funcs),
        Exp::If { cond, thn, els, ann: _ } => {
            let c = eliminate_closures(cond, funcs);
            let t = eliminate_closures(thn, funcs);
            let f = eliminate_closures(els, funcs);
            Exp::If { cond: Box::new(c), thn: Box::new(t), els: Box::new(f), ann: () }
        },
        Exp::Lambda { parameters, body, ann: _ } => {
            let b = eliminate_closures(body, funcs);
            Exp::Lambda { parameters: clone_names(parameters), body: Box::new(b), ann: () }
        },
        Exp::Call(v, params, _) => {
            let new_params = eliminate_in_exps(params, funcs);
            match callee_name(v, funcs) {
                Some(func) => {
                    assert(v@ is Var);
                    assert(binders(v@) == 0);
                    Exp::DirectCall(func.clone(), new_params, ())
                },
                None => {
                    let f = eliminate_closures(v, funcs);
                    Exp::ClosureCall(Box::new(f), new_params, ())
                },
            }
        },
        _ => unreached(),
    }
}

} // verus!
