//! Uniquification: every binder gets a name of its own, the next number of a
//! counter in decimal, and every use follows its binder.

use vstd::prelude::*;
use vstd::pervasive::unreached;
use crate::syntax::{Exp, ExpV, FunDecl, FunDeclV, Name, Stage, all_in_stage, binders, binders_at, binding_binders_at, binding_names, bindings_view, decl_binders_at, decl_view, decls_view, exps_view, in_stage, lemma_core_is_surface, lemma_sum_to, lemma_sum_to_eq, names_view, sum_to};
use crate::renaming::{lemma_renamed_bind_all, lemma_renamed_let_map, lemma_uniq_scoped, renamed, scoped};
use crate::table::Table;
use crate::text::{decimal, decimal_string};

verus! {

/// The name that the binder numbered `n` gets.
pub open spec fn fresh(n: nat) -> Name {
    decimal(n)
}

/// The names of `k` binders in a row, the first numbered `c + 1`.
pub open spec fn fresh_names(c: nat, k: nat) -> Seq<Name> {
    Seq::new(k, |i: int| fresh((c + i + 1) as nat))
}

/// The mapping after the first `n` of `names` were bound in a row, the first
/// to number `c + 1`.
pub open spec fn bind_all(names: Seq<Name>, m: Map<Name, u32>, c: nat, n: nat) -> Map<Name, u32>
    decreases n,
{
    if n == 0 || n > names.len() {
        m
    } else {
        bind_all(names, m, c, (n - 1) as nat).insert(names[n - 1], (c + n) as u32)
    }
}

/// The mapping after the first `n` bindings of a `let`: each name is bound
/// to the number drawn just before its value was renamed.
pub open spec fn let_map(bs: Seq<(Name, ExpV)>, m: Map<Name, u32>, c: nat, n: nat) -> Map<Name, u32>
    decreases n,
{
    if n == 0 || n > bs.len() {
        m
    } else {
        let_map(bs, m, c, (n - 1) as nat).insert(
            bs[n - 1].0,
            (c + sum_to((n - 1) as nat, binding_binders_at(bs)) + 1) as u32,
        )
    }
}

/// The renamed expression. `m` maps each name in scope to the number of its
/// binder and `c` is the counter before; a name that is not in scope stays.
pub open spec fn uniq(e: ExpV, m: Map<Name, u32>, c: nat) -> ExpV
    decreases e, 0nat,
{
    match e {
        ExpV::Var(x) => ExpV::Var(
            if m.contains_key(x) {
                fresh(m[x] as nat)
            } else {
                x
            },
        ),
        ExpV::Prim(p, es) => ExpV::Prim(p, uniq_list(es, m, c)),
        ExpV::Let { bindings, body } => ExpV::Let {
            bindings: uniq_bindings(bindings, m, c),
            body: Box::new(
                uniq(
                    *body,
                    let_map(bindings, m, c, bindings.len()),
                    c + sum_to(bindings.len(), binding_binders_at(bindings)),
                ),
            ),
        },
        ExpV::If { cond, thn, els } => ExpV::If {
            cond: Box::new(uniq(*cond, m, c)),
            thn: Box::new(uniq(*thn, m, c + binders(*cond))),
            els: Box::new(uniq(*els, m, c + binders(*cond) + binders(*thn))),
        },
        ExpV::Semicolon { e1, e2 } => ExpV::Let {
            bindings: seq![(fresh(c + 1), uniq(*e1, m, c + 1))],
            body: Box::new(uniq(*e2, m, c + 1 + binders(*e1))),
        },
        ExpV::FunDefs { decls, body } => {
            let inner = bind_all(crate::syntax::decl_names(decls), m, c, decls.len());
            ExpV::FunDefs {
                decls: uniq_decls(decls, inner, c),
                body: Box::new(
                    uniq(*body, inner, c + decls.len() + sum_to(decls.len(), decl_binders_at(decls))),
                ),
            }
        },
        ExpV::Call(f, args) => ExpV::Call(
            Box::new(uniq(*f, m, c)),
            uniq_list(args, m, c + binders(*f)),
        ),
        ExpV::Lambda { parameters, body } => ExpV::Lambda {
            parameters: fresh_names(c, parameters.len()),
            body: Box::new(
                uniq(
                    *body,
                    bind_all(parameters, m, c, parameters.len()),
                    c + parameters.len(),
                ),
            ),
        },
        _ => e,
    }
}

/// [`uniq`] of each expression of a list, the counter running on from one to
/// the next.
pub open spec fn uniq_list(es: Seq<ExpV>, m: Map<Name, u32>, c: nat) -> Seq<ExpV>
    decreases es,
{
    Seq::new(
        es.len(),
        |i: int|
            if 0 <= i < es.len() {
                uniq(es[i], m, c + sum_to(i as nat, binders_at(es)))
            } else {
                arbitrary()
            },
    )
}

/// [`uniq`] of the bindings of a `let`: each gets the next number as its
/// name, and its value sees the bindings before it.
pub open spec fn uniq_bindings(bs: Seq<(Name, ExpV)>, m: Map<Name, u32>, c: nat) -> Seq<(Name, ExpV)>
    decreases bs,
{
    Seq::new(
        bs.len(),
        |i: int|
            if 0 <= i < bs.len() {
                let ci = c + sum_to(i as nat, binding_binders_at(bs));
                (fresh(ci + 1), uniq(bs[i].1, let_map(bs, m, c, i as nat), ci + 1))
            } else {
                arbitrary()
            },
    )
}

/// [`uniq`] of the functions of a group. The names of the group took the
/// numbers `c + 1` and following; `m` holds them already. Each function then
/// numbers its parameters and renames its body.
pub open spec fn uniq_decls(ds: Seq<FunDeclV>, m: Map<Name, u32>, c: nat) -> Seq<FunDeclV>
    decreases ds,
{
    Seq::new(
        ds.len(),
        |i: int|
            if 0 <= i < ds.len() {
                let ci = c + ds.len() + sum_to(i as nat, decl_binders_at(ds));
                let k = ds[i].parameters.len();
                FunDeclV {
                    name: fresh((c + i + 1) as nat),
                    parameters: fresh_names(ci, k),
                    body: uniq(ds[i].body, bind_all(ds[i].parameters, m, ci, k), ci + k),
                }
            } else {
                arbitrary()
            },
    )
}

/// Binds each of `names` to the next number of the counter.
fn bind_names(names: &Vec<String>, mapping: &mut Table<u32>, counter: &mut u32) -> (out: Vec<String>)
    requires
        *old(counter) + names.len() <= u32::MAX,
    ensures
        *final(counter) == *old(counter) + names.len(),
        final(mapping)@ == bind_all(
            names_view(names@),
            old(mapping)@,
            *old(counter) as nat,
            names.len() as nat,
        ),
        names_view(out@) == fresh_names(*old(counter) as nat, names.len() as nat),
{
    let ghost c0 = *counter as nat;
    let ghost m0 = mapping@;
    let mut out: Vec<String> = Vec::new();
    let mut i: usize = 0;
    while i < names.len()
        invariant
            i <= names.len(),
            c0 + names.len() <= u32::MAX,
            *counter == c0 + i,
            out.len() == i,
            mapping@ == bind_all(names_view(names@), m0, c0, i as nat),
            forall|j: int| 0 <= j < i ==> (#[trigger] out[j])@ == fresh((c0 + j + 1) as nat),
        decreases names.len() - i,
    {
        *counter += 1;
        mapping.insert(names[i].clone(), *counter);
        out.push(decimal_string(*counter as u64));
        i += 1;
    }
    assert(names_view(out@) =~= fresh_names(c0, names.len() as nat));
    out
}

/// [`uniquify`] on each expression of a list.
#[verifier::loop_isolation(false)]
fn uniquify_exps<Span>(es: &Vec<Exp<Span>>, mapping: &Table<u32>, counter: &mut u32) -> (out: Vec<
    Exp<()>,
>)
    requires
        all_in_stage(exps_view(es@), Stage::Surface),
        forall|i: int| 0 <= i < es.len() ==> scoped(#[trigger] exps_view(es@)[i], mapping@.dom()),
        *old(counter) + sum_to(es.len() as nat, binders_at(exps_view(es@))) <= u32::MAX,
    ensures
        exps_view(out@) == uniq_list(exps_view(es@), mapping@, *old(counter) as nat),
        *final(counter) == *old(counter) + sum_to(es.len() as nat, binders_at(exps_view(es@))),
        all_in_stage(exps_view(out@), Stage::Core),
        out.len() == es.len(),
        sum_to(es.len() as nat, binders_at(exps_view(out@))) == sum_to(
            es.len() as nat,
            binders_at(exps_view(es@)),
        ),
    decreases es, 0nat,
{
    let ghost ev = exps_view(es@);
    let ghost c0 = *counter as nat;
    let mut out: Vec<Exp<()>> = Vec::new();
    let mut i: usize = 0;
    while i < es.len()
        invariant
            i <= es.len(),
            out.len() == i,
            *counter == c0 + sum_to(i as nat, binders_at(ev)),
            forall|j: int|
                0 <= j < i ==> (#[trigger] out[j])@ == uniq(
                    ev[j],
                    mapping@,
                    c0 + sum_to(j as nat, binders_at(ev)),
                ),
            forall|j: int| 0 <= j < i ==> in_stage((#[trigger] out[j])@, Stage::Core),
            forall|j: int| 0 <= j < i ==> binders((#[trigger] out[j])@) == binders(ev[j]),
        decreases es.len() - i,
    {
        proof {
            lemma_sum_to(i as nat, es.len() as nat, binders_at(ev));
            assert(in_stage(ev[i as int], Stage::Surface));
            assert(scoped(ev[i as int], mapping@.dom()));
        }
        out.push(uniquify(&es[i], mapping, counter));
        i += 1;
    }
    assert(exps_view(out@) =~= uniq_list(ev, mapping@, c0));
    assert forall|j: int| 0 <= j < out.len() implies in_stage(
        #[trigger] exps_view(out@)[j],
        Stage::Core,
    ) by {
        assert(exps_view(out@)[j] == out[j]@);
    }
    proof {
        assert forall|j: int| 0 <= j < es.len() implies #[trigger] binders_at(exps_view(out@))(j) == binders_at(
            ev,
        )(j) by {
            assert(exps_view(out@)[j] == out[j]@);
        }
        lemma_sum_to_eq(es.len() as nat, binders_at(exps_view(out@)), binders_at(ev));
    }
    out
}

/// [`uniquify`] on a `let`.
#[verifier::loop_isolation(false)]
#[verifier::rlimit(50)]
fn uniquify_let<Span>(e: &Exp<Span>, mapping: &Table<u32>, counter: &mut u32) -> (r: Exp<()>)
    requires
        e is Let,
        in_stage(e@, Stage::Surface),
        scoped(e@, mapping@.dom()),
        *old(counter) + binders(e@) <= u32::MAX,
    ensures
        r@ == uniq(e@, mapping@, *old(counter) as nat),
        *final(counter) == *old(counter) + binders(e@),
        in_stage(r@, Stage::Core),
        binders(r@) == binders(e@),
    decreases e, 0nat,
{
    let ghost c0 = *counter as nat;
    match e {
        Exp::Let { bindings, body, ann: _ } => {
            let ghost bv = bindings_view(bindings@);
            let ghost bb = binding_binders_at(bv);
            let mut scoped_mapping = mapping.copy();
            let mut mut_bind: Vec<(String, Exp<()>)> = Vec::new();
            let mut i: usize = 0;
            while i < bindings.len()
                invariant
                    i <= bindings.len(),
                    mut_bind.len() == i,
                    *counter == c0 + sum_to(i as nat, bb),
                    scoped_mapping@ == let_map(bv, mapping@, c0, i as nat),
                    forall|j: int|
                        0 <= j < i ==> (#[trigger] mut_bind[j]).0@ == fresh(
                            c0 + sum_to(j as nat, bb) + 1,
                        ) && mut_bind[j].1@ == uniq(
                            bv[j].1,
                            let_map(bv, mapping@, c0, j as nat),
                            c0 + sum_to(j as nat, bb) + 1,
                        ),
                    forall|j: int| 0 <= j < i ==> in_stage((#[trigger] mut_bind[j]).1@, Stage::Core),
                    forall|j: int|
                        0 <= j < i ==> binders((#[trigger] mut_bind[j]).1@) == binders(bv[j].1),
                decreases bindings.len() - i,
            {
                proof {
                    lemma_sum_to(i as nat, bindings.len() as nat, bb);
                    assert(in_stage(bv[i as int].1, Stage::Surface));
                    lemma_renamed_let_map(bv, mapping@, c0, i as nat);
                    assert(scoped(bv[i as int].1, scoped_mapping@.dom()));
                }
                *counter += 1;
                let id: u32 = *counter;
                let new_var = decimal_string(id as u64);
                let mut_exp = uniquify(&bindings[i].1, &scoped_mapping, counter);
                scoped_mapping.insert(bindings[i].0.clone(), id);
                mut_bind.push((new_var, mut_exp));
                i += 1;
            }
            proof {
                lemma_renamed_let_map(bv, mapping@, c0, bindings.len() as nat);
                assert(binding_names(bv).take(bindings.len() as int) =~= binding_names(bv));
            }
            let new_body = uniquify(body, &scoped_mapping, counter);
            proof {
                assert(bindings_view(mut_bind@) =~= uniq_bindings(bv, mapping@, c0));
                assert forall|j: int| 0 <= j < mut_bind.len() implies in_stage(
                    (#[trigger] bindings_view(mut_bind@)[j]).1,
                    Stage::Core,
                ) by {
                    assert(bindings_view(mut_bind@)[j].1 == mut_bind[j].1@);
                }
                let ob = binding_binders_at(bindings_view(mut_bind@));
                assert forall|j: int| 0 <= j < bindings.len() implies #[trigger] ob(j) == bb(j) by {
                    assert(bindings_view(mut_bind@)[j].1 == mut_bind[j].1@);
                }
                lemma_sum_to_eq(bindings.len() as nat, ob, bb);
            }
            Exp::Let { bindings: mut_bind, body: Box::new(new_body), ann: () }
        },
        _ => unreached(),
    }
}

/// The names of the functions of a group.
fn decl_names_of<Span>(decls: &Vec<FunDecl<Exp<Span>, Span>>) -> (names: Vec<String>)
    ensures
        names_view(names@) == crate::syntax::decl_names(decls_view(decls@)),
{
    let mut names: Vec<String> = Vec::new();
    let mut i: usize = 0;
    while i < decls.len()
        invariant
            i <= decls.len(),
            names.len() == i,
            forall|j: int| 0 <= j < i ==> (#[trigger] names[j])@ == decls[j].name@,
        decreases decls.len() - i,
    {
        names.push(decls[i].name.clone());
        i += 1;
    }
    assert(names_view(names@) =~= crate::syntax::decl_names(decls_view(decls@)));
    names
}

/// [`uniquify`] on a group of functions.
#[verifier::loop_isolation(false)]
#[verifier::rlimit(50)]
fn uniquify_fundefs<Span>(e: &Exp<Span>, mapping: &Table<u32>, counter: &mut u32) -> (r: Exp<()>)
    requires
        e is FunDefs,
        in_stage(e@, Stage::Surface),
        scoped(e@, mapping@.dom()),
        *old(counter) + binders(e@) <= u32::MAX,
    ensures
        r@ == uniq(e@, mapping@, *old(counter) as nat),
        *final(counter) == *old(counter) + binders(e@),
        in_stage(r@, Stage::Core),
        binders(r@) == binders(e@),
    decreases e, 0nat,
{
    let ghost c0 = *counter as nat;
    match e {
        Exp::FunDefs { decls, body, ann: _ } => {
            let ghost dv = decls_view(decls@);
            let ghost db = decl_binders_at(dv);
            let mut scoped_mapping = mapping.copy();
            let names = decl_names_of(decls);
            assert(names_view(names@).len() == dv.len());
            let new_names = bind_names(&names, &mut scoped_mapping, counter);
            let ghost inner = scoped_mapping@;
            proof {
                assert(names_view(names@).len() == dv.len());
                assert(names_view(new_names@).len() == names.len());
                assert(inner == bind_all(crate::syntax::decl_names(dv), mapping@, c0, dv.len()));
                lemma_renamed_bind_all(crate::syntax::decl_names(dv), mapping@, c0, dv.len());
                assert(crate::syntax::decl_names(dv).take(dv.len() as int)
                    =~= crate::syntax::decl_names(dv));
            }
            let mut uniq_decls_out: Vec<FunDecl<Exp<()>, ()>> = Vec::new();
            let mut i: usize = 0;
            while i < decls.len()
                invariant
                    i <= decls.len(),
                    uniq_decls_out.len() == i,
                    new_names.len() == decls.len(),
                    *counter == c0 + decls.len() + sum_to(i as nat, db),
                    forall|j: int|
                        0 <= j < i ==> decl_view(#[trigger] uniq_decls_out[j]) == uniq_decls(
                            dv,
                            inner,
                            c0,
                        )[j],
                    forall|j: int|
                        0 <= j < i ==> in_stage((#[trigger] uniq_decls_out[j]).body@, Stage::Core),
                    forall|j: int|
                        0 <= j < i ==> binders((#[trigger] uniq_decls_out[j]).body@) == binders(
                            dv[j].body,
                        ) && uniq_decls_out[j].parameters.len() == dv[j].parameters.len(),
                decreases decls.len() - i,
            {
                let decl = &decls[i];
                proof {
                    lemma_sum_to(i as nat, decls.len() as nat, db);
                    assert(dv[i as int] == decl_view(*decl));
                    assert(in_stage(dv[i as int].body, Stage::Surface));
                }
                let ghost ci = *counter as nat;
                let mut func_scope_map = scoped_mapping.copy();
                let parameters = bind_names(&decl.parameters, &mut func_scope_map, counter);
                proof {
                    let ps = dv[i as int].parameters;
                    assert(ps == names_view(decl.parameters@));
                    lemma_renamed_bind_all(ps, inner, ci, ps.len());
                    assert(ps.take(ps.len() as int) =~= ps);
                    assert(scoped(dv[i as int].body, func_scope_map@.dom()));
                }
                let new_body = uniquify(&decl.body, &func_scope_map, counter);
                let new_decl = FunDecl {
                    name: new_names[i].clone(),
                    parameters,
                    body: new_body,
                    ann: (),
                };
                proof {
                    assert(names_view(new_names@)[i as int] == new_names[i as int]@);
                    assert(new_decl.name@ == fresh((c0 + i + 1) as nat));
                    assert(ci == c0 + dv.len() + sum_to(i as nat, db));
                    assert(dv[i as int].parameters == names_view(decl.parameters@));
                    assert(decl_view(new_decl) == uniq_decls(dv, inner, c0)[i as int]);
                    assert(names_view(new_decl.parameters@).len() == decl.parameters.len());
                }
                uniq_decls_out.push(new_decl);
                i += 1;
            }
            let new_body = uniquify(body, &scoped_mapping, counter);
            proof {
                assert(decls_view(uniq_decls_out@) =~= uniq_decls(dv, inner, c0));
                assert forall|j: int| 0 <= j < uniq_decls_out.len() implies in_stage(
                    (#[trigger] decls_view(uniq_decls_out@)[j]).body,
                    Stage::Core,
                ) by {
                    assert(decls_view(uniq_decls_out@)[j].body == uniq_decls_out[j].body@);
                }
                let ob = decl_binders_at(decls_view(uniq_decls_out@));
                assert forall|j: int| 0 <= j < decls.len() implies #[trigger] ob(j) == db(j) by {
                    assert(decls_view(uniq_decls_out@)[j] == decl_view(uniq_decls_out[j]));
                }
                lemma_sum_to_eq(decls.len() as nat, ob, db);
            }
            Exp::FunDefs { decls: uniq_decls_out, body: Box::new(new_body), ann: () }
        },
        _ => unreached(),
    }
}

/// Renames every binder of a surface expression to the next number of
/// `counter`, and every use of a name to the number bound to it. Every
/// variable of the expression has to be bound: by the expression itself or in
/// `mapping`. What comes out is a surface expression again, without
/// sequencing, in which every variable is bound under the new names.
#[verifier::rlimit(50)]
pub fn uniquify<Span>(e: &Exp<Span>, mapping: &Table<u32>, counter: &mut u32) -> (r: Exp<()>)
    requires
        in_stage(e@, Stage::Surface),
        scoped(e@, mapping@.dom()),
        *old(counter) + binders(e@) <= u32::MAX,
    ensures
        r@ == uniq(e@, mapping@, *old(counter) as nat),
        *final(counter) == *old(counter) + binders(e@),
        in_stage(r@, Stage::Core),
        in_stage(r@, Stage::Surface),
        scoped(r@, renamed(mapping@)),
        mapping@.dom() == Set::<Name>::empty() ==> scoped(r@, Set::empty()),
        binders(r@) == binders(e@),
    decreases e, 1nat,
{
    let ghost c0 = *counter as nat;
    let r = match e {
        Exp::Let { .. } => uniquify_let(e, mapping, counter),
        Exp::FunDefs { .. } => uniquify_fundefs(e, mapping, counter),
        Exp::Var(v, _) => {
            match mapping.get(v) {
                Some(id) => Exp::Var(decimal_string(id as u64), ()),
                None => unreached(),
            }
        },
        Exp::Num(i, _) => Exp::Num(*i, ()),
        Exp::Bool(b, _) => Exp::Bool(*b, ()),
        Exp::Prim(op, subjects, _) => {
            let uniq_sub = uniquify_exps(subjects, mapping, counter);
            Exp::Prim(*op, uniq_sub, ())
        },
        Exp::If { cond, thn, els, ann: _ } => {
            let c = uniquify(cond, mapping, counter);
            let t = uniquify(thn, mapping, counter);
            let f = uniquify(els, mapping, counter);
            Exp::If { cond: Box::new(c), thn: Box::new(t), els: Box::new(f), ann: () }
        },
        Exp::Call(func, params, _) => {
            let f = uniquify(func, mapping, counter);
            let args = uniquify_exps(params, mapping, counter);
            Exp::Call(Box::new(f), args, ())
        },
        Exp::Semicolon { e1, e2, ann: _ } => {
            *counter += 1;
            let name = decimal_string(*counter as u64);
            let first = uniquify(e1, mapping, counter);
            let second = uniquify(e2, mapping, counter);
            let mut bindings: Vec<(String, Exp<()>)> = Vec::new();
            bindings.push((name, first));
            proof {
                let c0 = *old(counter) as nat;
                assert(bindings_view(bindings@) =~= seq![(fresh(c0 + 1), uniq(e1@, mapping@, c0 + 1))]);
                assert(in_stage(bindings_view(bindings@)[0].1, Stage::Core));
                let ob = binding_binders_at(bindings_view(bindings@));
                assert(sum_to(1, ob) == sum_to(0, ob) + ob(0));
            }
            Exp::Let { bindings, body: Box::new(second), ann: () }
        },
        Exp::Lambda { parameters, body, ann: _ } => {
            let mut scoped_mapping = mapping.copy();
            let ghost c0 = *counter as nat;
            let new_parameters = bind_names(parameters, &mut scoped_mapping, counter);
            proof {
                let ps = names_view(parameters@);
                lemma_renamed_bind_all(ps, mapping@, c0, ps.len());
                assert(ps.take(ps.len() as int) =~= ps);
            }
            let new_body = uniquify(body, &scoped_mapping, counter);
            assert(names_view(new_parameters@).len() == parameters.len());
            Exp::Lambda { parameters: new_parameters, body: Box::new(new_body), ann: () }
        },
        _ => unreached(),
    };
    proof {
        lemma_core_is_surface(r@);
        lemma_uniq_scoped(e@, mapping@, c0);
        if mapping@.dom() == Set::<Name>::empty() {
            assert(renamed(mapping@) =~= Set::<Name>::empty());
        }
    }
    r
}

} // verus!
