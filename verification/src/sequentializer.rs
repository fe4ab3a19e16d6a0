//! Sequentialization: every operand that needs computing is bound by a `let`
//! in front, from left to right, so that primitives, conditionals and calls
//! see immediates only.

use vstd::prelude::*;
use vstd::pervasive::unreached;
use crate::syntax::{Exp, ExpV, FunDecl, FunDeclV, ImmExp, ImmV, Name, SeqExp, SeqExpV, SeqFunDeclV, SeqProg, SeqProgV, Stage, all_in_stage, bindings_view, bodies_in_stage, clone_names, decl_view, decls_view, exps_view, imms_view, in_stage, lemma_sum_to, seq_decl_view, seq_decls_view, sum_to};
use crate::text::{numbered, numbered_string};

verus! {

/// Whether an expression needs no computing.
pub open spec fn immediate(e: ExpV) -> bool {
    e is Num || e is Bool || e is Var
}

/// An expression that needs no computing, as an immediate.
pub open spec fn imm_of(e: ExpV) -> ImmV {
    match e {
        ExpV::Num(i) => ImmV::Num(i),
        ExpV::Bool(b) => ImmV::Bool(b),
        ExpV::Var(x) => ImmV::Var(x),
        _ => arbitrary(),
    }
}

/// The name of the variable that holds an operand, drawn at counter `c`.
pub open spec fn operand_name(c: nat) -> Name {
    numbered("#var_"@, c)
}

/// The name of the variable that holds the condition of a conditional.
pub open spec fn condition_name(c: nat) -> Name {
    numbered("#if_"@, c)
}

/// How often sequentializing an expression draws from the counter.
pub open spec fn seq_fresh(e: ExpV) -> nat
    decreases e, 0nat,
{
    match e {
        ExpV::Prim(_, es) => sum_to(es.len(), operand_fresh_at(es)),
        ExpV::Let { bindings, body } => sum_to(bindings.len(), binding_fresh_at(bindings))
            + seq_fresh(*body),
        ExpV::If { cond, thn, els } => 1 + seq_fresh(*cond) + seq_fresh(*thn) + seq_fresh(*els),
        ExpV::FunDefs { decls, body } => sum_to(decls.len(), decl_fresh_at(decls)) + seq_fresh(
            *body,
        ),
        ExpV::MakeClosure { env, .. } => operand_fresh(*env),
        ExpV::InternalTailCall(_, args) => sum_to(args.len(), operand_fresh_at(args)),
        ExpV::ExternalCall { args, .. } => sum_to(args.len(), operand_fresh_at(args)),
        _ => 0,
    }
}

/// How often an operand draws from the counter: what it needs itself, and
/// once more for its variable unless it is immediate.
pub open spec fn operand_fresh(e: ExpV) -> nat
    decreases e, 1nat,
{
    if immediate(e) {
        0
    } else {
        seq_fresh(e) + 1
    }
}

/// [`operand_fresh`] of each operand of a list.
pub open spec fn operand_fresh_at(es: Seq<ExpV>) -> spec_fn(int) -> nat
    decreases es,
{
    |i: int|
        if 0 <= i < es.len() {
            operand_fresh(es[i])
        } else {
            0
        }
}

/// [`seq_fresh`] of the value of each binding.
pub open spec fn binding_fresh_at(bs: Seq<(Name, ExpV)>) -> spec_fn(int) -> nat
    decreases bs,
{
    |i: int|
        if 0 <= i < bs.len() {
            seq_fresh(bs[i].1)
        } else {
            0
        }
}

/// [`seq_fresh`] of the body of each function.
pub open spec fn decl_fresh_at(ds: Seq<FunDeclV>) -> spec_fn(int) -> nat
    decreases ds,
{
    |i: int|
        if 0 <= i < ds.len() {
            seq_fresh(ds[i].body)
        } else {
            0
        }
}

/// A chain of `let`s around a body: the first binding is the outermost.
pub open spec fn nest(bindings: Seq<(Name, SeqExpV)>, body: SeqExpV) -> SeqExpV
    decreases bindings.len(),
{
    if bindings.len() == 0 {
        body
    } else {
        SeqExpV::Let {
            var: bindings[0].0,
            bound_exp: Box::new(bindings[0].1),
            body: Box::new(nest(bindings.drop_first(), body)),
        }
    }
}

/// The sequential form of an expression, with `c` the counter before.
pub open spec fn sequential(e: ExpV, c: nat) -> SeqExpV
    decreases e, 0nat,
{
    match e {
        ExpV::Num(_) | ExpV::Bool(_) | ExpV::Var(_) => SeqExpV::Imm(imm_of(e)),
        ExpV::Prim(p, es) => nest(operand_bindings(es, es.len(), c), SeqExpV::Prim(p, operands(es, c))),
        ExpV::Let { bindings, body } => nest(
            seq_bindings(bindings, c),
            sequential(*body, c + sum_to(bindings.len(), binding_fresh_at(bindings))),
        ),
        ExpV::If { cond, thn, els } => SeqExpV::Let {
            var: condition_name(c + 1),
            bound_exp: Box::new(sequential(*cond, c + 1)),
            body: Box::new(
                SeqExpV::If {
                    cond: ImmV::Var(condition_name(c + 1)),
                    thn: Box::new(sequential(*thn, c + 1 + seq_fresh(*cond))),
                    els: Box::new(sequential(*els, c + 1 + seq_fresh(*cond) + seq_fresh(*thn))),
                },
            ),
        },
        ExpV::FunDefs { decls, body } => SeqExpV::FunDefs {
            decls: seq_decls(decls, c),
            body: Box::new(sequential(*body, c + sum_to(decls.len(), decl_fresh_at(decls)))),
        },
        ExpV::MakeClosure { arity, label, env } => nest(
            operand_binding(*env, c),
            SeqExpV::MakeClosure { arity, label, env: operand(*env, c) },
        ),
        ExpV::InternalTailCall(f, args) => nest(
            operand_bindings(args, args.len(), c),
            SeqExpV::InternalTailCall(f, operands(args, c)),
        ),
        ExpV::ExternalCall { fun, args, is_tail } => nest(
            operand_bindings(args, args.len(), c),
            SeqExpV::ExternalCall { fun, args: operands(args, c), is_tail },
        ),
        _ => SeqExpV::Imm(ImmV::Num(0)),
    }
}

/// What a primitive or a call sees of an operand: the operand itself if it
/// is immediate, else the variable that holds it.
pub open spec fn operand(e: ExpV, c: nat) -> ImmV
    decreases e, 1nat,
{
    if immediate(e) {
        imm_of(e)
    } else {
        ImmV::Var(operand_name(c + seq_fresh(e)))
    }
}

/// The binding in front for an operand: none if it is immediate.
pub open spec fn operand_binding(e: ExpV, c: nat) -> Seq<(Name, SeqExpV)>
    decreases e, 1nat,
{
    if immediate(e) {
        Seq::empty()
    } else {
        seq![(operand_name(c + seq_fresh(e)), sequential(e, c))]
    }
}

/// [`operand`] of each operand of a list.
pub open spec fn operands(es: Seq<ExpV>, c: nat) -> Seq<ImmV>
    decreases es,
{
    Seq::new(
        es.len(),
        |i: int|
            if 0 <= i < es.len() {
                operand(es[i], c + sum_to(i as nat, operand_fresh_at(es)))
            } else {
                arbitrary()
            },
    )
}

/// The bindings in front for the first `n` operands of a list, in order.
pub open spec fn operand_bindings(es: Seq<ExpV>, n: nat, c: nat) -> Seq<(Name, SeqExpV)>
    decreases es, n,
{
    if n == 0 || n > es.len() {
        Seq::empty()
    } else {
        operand_bindings(es, (n - 1) as nat, c) + operand_binding(
            es[n - 1],
            c + sum_to((n - 1) as nat, operand_fresh_at(es)),
        )
    }
}

/// The bindings of a `let` with their values in sequential form.
pub open spec fn seq_bindings(bs: Seq<(Name, ExpV)>, c: nat) -> Seq<(Name, SeqExpV)>
    decreases bs,
{
    Seq::new(
        bs.len(),
        |i: int|
            if 0 <= i < bs.len() {
                (bs[i].0, sequential(bs[i].1, c + sum_to(i as nat, binding_fresh_at(bs))))
            } else {
                arbitrary()
            },
    )
}

/// The functions of a list with their bodies in sequential form.
pub open spec fn seq_decls(ds: Seq<FunDeclV>, c: nat) -> Seq<SeqFunDeclV>
    decreases ds,
{
    Seq::new(
        ds.len(),
        |i: int|
            if 0 <= i < ds.len() {
                SeqFunDeclV {
                    name: ds[i].name,
                    parameters: ds[i].parameters,
                    body: sequential(ds[i].body, c + sum_to(i as nat, decl_fresh_at(ds))),
                }
            } else {
                arbitrary()
            },
    )
}

/// A whole program in sequential form: the counter starts at 0, runs through
/// the global functions in order and then through the main expression.
pub open spec fn seq_prog_spec(decls: Seq<FunDeclV>, p: ExpV) -> SeqProgV {
    SeqProgV {
        funs: seq_decls(decls, 0),
        main: sequential(p, sum_to(decls.len(), decl_fresh_at(decls))),
    }
}

/// The views of a list of bindings in sequential form.
pub open spec fn seq_bindings_view(s: Seq<(String, SeqExp<()>)>) -> Seq<(Name, SeqExpV)> {
    Seq::new(s.len(), |i: int| (s[i].0@, s[i].1@))
}

/// A chain with one more binding at the end is the chain around a `let`.
pub proof fn lemma_nest_push(bindings: Seq<(Name, SeqExpV)>, last: (Name, SeqExpV), body: SeqExpV)
    ensures
        nest(bindings.push(last), body) == nest(
            bindings,
            SeqExpV::Let { var: last.0, bound_exp: Box::new(last.1), body: Box::new(body) },
        ),
    decreases bindings.len(),
{
    if bindings.len() == 0 {
        assert(bindings.push(last).drop_first() =~= bindings);
        assert(nest(bindings.push(last).drop_first(), body) == body);
    } else {
        assert(bindings.push(last).drop_first() =~= bindings.drop_first().push(last));
        lemma_nest_push(bindings.drop_first(), last, body);
    }
}

fn generate_nested_let(mut bindings: Vec<(String, SeqExp<()>)>, body: SeqExp<()>) -> (r: SeqExp<()>)
    ensures
        r@ == nest(seq_bindings_view(bindings@), body@),
{
    let ghost all = seq_bindings_view(bindings@);
    let ghost inner = body@;
    let mut acc = body;
    while bindings.len() > 0
        invariant
            nest(all, inner) == nest(seq_bindings_view(bindings@), acc@),
        decreases bindings.len(),
    {
        let ghost before = seq_bindings_view(bindings@);
        let ghost acc_before = acc@;
        let last = bindings.pop().unwrap();
        proof {
            let l = (last.0@, last.1@);
            assert(before =~= seq_bindings_view(bindings@).push(l));
            lemma_nest_push(seq_bindings_view(bindings@), l, acc_before);
        }
        acc = SeqExp::Let { var: last.0, bound_exp: Box::new(last.1), body: Box::new(acc), ann: () };
    }
    acc
}

/// An expression that needs no computing, as an immediate.
fn as_immediate(e: &Exp<()>) -> (r: Option<ImmExp>)
    ensures
        match r {
            Some(i) => immediate(e@) && i@ == imm_of(e@),
            None => !immediate(e@),
        },
{
    match e {
        Exp::Num(i, _) => Some(ImmExp::Num(*i)),
        Exp::Bool(b, _) => Some(ImmExp::Bool(*b)),
        Exp::Var(x, _) => Some(ImmExp::Var(x.clone())),
        _ => None,
    }
}

/// One operand: what the primitive or call sees of it, and the binding in
/// front if it needs one.
fn parse_param_exp(param: &Exp<()>, counter: &mut u32, let_bindings: &mut Vec<(String, SeqExp<()>)>) -> (r:
    ImmExp)
    requires
        in_stage(param@, Stage::Lifted),
        *old(counter) + operand_fresh(param@) <= u32::MAX,
    ensures
        r@ == operand(param@, *old(counter) as nat),
        seq_bindings_view(final(let_bindings)@) == seq_bindings_view(old(let_bindings)@)
            + operand_binding(param@, *old(counter) as nat),
        *final(counter) == *old(counter) + operand_fresh(param@),
    decreases param, 3nat,
{
    let ghost before = seq_bindings_view(let_bindings@);
    match as_immediate(param) {
        Some(i) => {
            assert(seq_bindings_view(let_bindings@) =~= before + operand_binding(
                param@,
                *old(counter) as nat,
            ));
            i
        },
        None => {
            let seq_param = sequentialize(param, counter);
            let var = numbered_string("#var_", *counter as u64);
            let_bindings.push((var.clone(), seq_param));
            *counter += 1;
            assert(seq_bindings_view(let_bindings@) =~= before + operand_binding(
                param@,
                *old(counter) as nat,
            ));
            ImmExp::Var(var)
        },
    }
}

#[verifier::loop_isolation(false)]
fn parse_param_exps(params: &Vec<Exp<()>>, counter: &mut u32) -> (r: (
    Vec<ImmExp>,
    Vec<(String, SeqExp<()>)>,
))
    requires
        all_in_stage(exps_view(params@), Stage::Lifted),
        *old(counter) + sum_to(params.len() as nat, operand_fresh_at(exps_view(params@))) <= u32::MAX,
    ensures
        imms_view(r.0@) == operands(exps_view(params@), *old(counter) as nat),
        seq_bindings_view(r.1@) == operand_bindings(
            exps_view(params@),
            params.len() as nat,
            *old(counter) as nat,
        ),
        *final(counter) == *old(counter) + sum_to(
            params.len() as nat,
            operand_fresh_at(exps_view(params@)),
        ),
    decreases params, 0nat,
{
    let ghost ev = exps_view(params@);
    let ghost c0 = *counter as nat;
    let mut let_bindings: Vec<(String, SeqExp<()>)> = Vec::new();
    let mut imm_params: Vec<ImmExp> = Vec::new();
    let mut i: usize = 0;
    assert(seq_bindings_view(let_bindings@) =~= operand_bindings(ev, 0, c0));
    while i < params.len()
        invariant
            i <= params.len(),
            imm_params.len() == i,
            *counter == c0 + sum_to(i as nat, operand_fresh_at(ev)),
            seq_bindings_view(let_bindings@) == operand_bindings(ev, i as nat, c0),
            forall|j: int|
                0 <= j < i ==> (#[trigger] imm_params[j])@ == operand(
                    ev[j],
                    c0 + sum_to(j as nat, operand_fresh_at(ev)),
                ),
        decreases params.len() - i,
    {
        proof {
            lemma_sum_to(i as nat, params.len() as nat, operand_fresh_at(ev));
            assert(in_stage(ev[i as int], Stage::Lifted));
        }
        let imm = parse_param_exp(&params[i], counter, &mut let_bindings);
        imm_params.push(imm);
        i += 1;
    }
    assert(imms_view(imm_params@) =~= operands(ev, c0));
    (imm_params, let_bindings)
}

/// [`sequentialize`] on a `let` or a group of functions.
#[verifier::loop_isolation(false)]
#[verifier::rlimit(50)]
fn sequentialize_binders(e: &Exp<()>, counter: &mut u32) -> (r: SeqExp<()>)
    requires
        e is Let || e is FunDefs,
        in_stage(e@, Stage::Lifted),
        *old(counter) + seq_fresh(e@) <= u32::MAX,
    ensures
        r@ == sequential(e@, *old(counter) as nat),
        *final(counter) == *old(counter) + seq_fresh(e@),
    decreases e, 1nat,
{
    let ghost c0 = *counter as nat;
    match e {
        Exp::Let { bindings, body, ann: _ } => {
            let ghost bv = bindings_view(bindings@);
            let ghost bf = binding_fresh_at(bv);
            let mut out: Vec<(String, SeqExp<()>)> = Vec::new();
            let mut i: usize = 0;
            while i < bindings.len()
                invariant
                    i <= bindings.len(),
                    out.len() == i,
                    *counter == c0 + sum_to(i as nat, bf),
                    forall|j: int|
                        0 <= j < i ==> (#[trigger] out[j]).0@ == bv[j].0 && out[j].1@ == sequential(
                            bv[j].1,
                            c0 + sum_to(j as nat, bf),
                        ),
                decreases bindings.len() - i,
            {
                proof {
                    lemma_sum_to(i as nat, bindings.len() as nat, bf);
                    assert(in_stage(bv[i as int].1, Stage::Lifted));
                }
                let bound = sequentialize(&bindings[i].1, counter);
                out.push((bindings[i].0.clone(), bound));
                i += 1;
            }
            let seq_body = sequentialize(body, counter);
            assert(seq_bindings_view(out@) =~= seq_bindings(bv, c0));
            generate_nested_let(out, seq_body)
        },
        Exp::FunDefs { decls, body, ann: _ } => {
            let seq_decls_out = sequentialize_decls(decls, counter);
            let seq_body = sequentialize(body, counter);
            SeqExp::FunDefs { decls: seq_decls_out, body: Box::new(seq_body), ann: () }
        },
        _ => unreached(),
    }
}

/// [`sequentialize`] on the body of each function of a list.
#[verifier::loop_isolation(false)]
fn sequentialize_decls(decls: &Vec<FunDecl<Exp<()>, ()>>, counter: &mut u32) -> (out: Vec<
    FunDecl<SeqExp<()>, ()>,
>)
    requires
        bodies_in_stage(decls_view(decls@), Stage::Lifted),
        *old(counter) + sum_to(decls.len() as nat, decl_fresh_at(decls_view(decls@))) <= u32::MAX,
    ensures
        seq_decls_view(out@) == seq_decls(decls_view(decls@), *old(counter) as nat),
        *final(counter) == *old(counter) + sum_to(
            decls.len() as nat,
            decl_fresh_at(decls_view(decls@)),
        ),
    decreases decls, 0nat,
{
    let ghost dv = decls_view(decls@);
    let ghost df = decl_fresh_at(dv);
    let ghost c0 = *counter as nat;
    let mut out: Vec<FunDecl<SeqExp<()>, ()>> = Vec::new();
    let mut i: usize = 0;
    while i < decls.len()
        invariant
            i <= decls.len(),
            out.len() == i,
            *counter == c0 + sum_to(i as nat, df),
            forall|j: int|
                0 <= j < i ==> seq_decl_view(#[trigger] out[j]) == seq_decls(dv, c0)[j],
        decreases decls.len() - i,
    {
        let decl = &decls[i];
        proof {
            lemma_sum_to(i as nat, decls.len() as nat, df);
            assert(dv[i as int] == decl_view(*decl));
            assert(in_stage(dv[i as int].body, Stage::Lifted));
        }
        let seq_decl = FunDecl {
            name: decl.name.clone(),
            parameters: clone_names(&decl.parameters),
            body: sequentialize(&decl.body, counter),
            ann: (),
        };
        assert(seq_decl_view(seq_decl) == seq_decls(dv, c0)[i as int]);
        out.push(seq_decl);
        i += 1;
    }
    assert(seq_decls_view(out@) =~= seq_decls(dv, c0));
    out
}

/// The sequential form of a lifted expression; `counter` numbers the
/// variables that it introduces.
#[verifier::rlimit(50)]
pub fn sequentialize(e: &Exp<()>, counter: &mut u32) -> (r: SeqExp<()>)
    requires
        in_stage(e@, Stage::Lifted),
        *old(counter) + seq_fresh(e@) <= u32::MAX,
    ensures
        r@ == sequential(e@, *old(counter) as nat),
        *final(counter) == *old(counter) + seq_fresh(e@),
    decreases e, 2nat,
{
    match e {
        Exp::Bool(b, _) => SeqExp::Imm(ImmExp::Bool(*b), ()),
        Exp::Num(i, _) => SeqExp::Imm(ImmExp::Num(*i), ()),
        Exp::Var(s, _) => SeqExp::Imm(ImmExp::Var(s.clone()), ()),
        Exp::Prim(p, exps, _) => {
            let (imm_params, let_bindings) = parse_param_exps(exps, counter);
            generate_nested_let(let_bindings, SeqExp::Prim(*p, imm_params, ()))
        },
        Exp::Let { .. } | Exp::FunDefs { .. } => sequentialize_binders(e, counter),
        Exp::If { cond, thn, els, ann: _ } => {
            *counter += 1;
            let var_name = numbered_string("#if_", *counter as u64);
            let seq_cond = sequentialize(cond, counter);
            let seq_thn = sequentialize(thn, counter);
            let seq_els = sequentialize(els, counter);
            let branch = SeqExp::If {
                cond: ImmExp::Var(var_name.clone()),
                thn: Box::new(seq_thn),
                els: Box::new(seq_els),
                ann: (),
            };
            assert(branch@ == SeqExpV::If {
                cond: ImmV::Var(var_name@),
                thn: Box::new(seq_thn@),
                els: Box::new(seq_els@),
            });
            SeqExp::Let {
                var: var_name,
                bound_exp: Box::new(seq_cond),
                body: Box::new(branch),
                ann: (),
            }
        },
        Exp::MakeClosure { arity, label, env, ann: _ } => {
            let mut let_bindings: Vec<(String, SeqExp<()>)> = Vec::new();
            assert(seq_bindings_view(let_bindings@) =~= Seq::<(Name, SeqExpV)>::empty());
            let imm_env = parse_param_exp(env, counter, &mut let_bindings);
            assert(seq_bindings_view(let_bindings@) =~= operand_binding(env@, *old(counter) as nat));
            generate_nested_let(
                let_bindings,
                SeqExp::MakeClosure { arity: *arity, label: label.clone(), env: imm_env, ann: () },
            )
        },
        Exp::InternalTailCall(func, params, _) => {
            let (imm_params, let_bindings) = parse_param_exps(params, counter);
            generate_nested_let(
                let_bindings,
                SeqExp::InternalTailCall(func.clone(), imm_params, ()),
            )
        },
        Exp::ExternalCall { fun, args, is_tail, ann: _ } => {
            let (imm_params, let_bindings) = parse_param_exps(args, counter);
            generate_nested_let(
                let_bindings,
                SeqExp::ExternalCall {
                    fun: crate::syntax::clone_target(fun),
                    args: imm_params,
                    is_tail: *is_tail,
                    ann: (),
                },
            )
        },
        _ => unreached(),
    }
}

/// The sequential form of a lifted program.
pub fn seq_prog(decls: &Vec<FunDecl<Exp<()>, ()>>, p: &Exp<()>) -> (r: SeqProg<()>)
    requires
        bodies_in_stage(decls_view(decls@), Stage::Lifted),
        in_stage(p@, Stage::Lifted),
        sum_to(decls.len() as nat, decl_fresh_at(decls_view(decls@))) + seq_fresh(p@) <= u32::MAX,
    ensures
        r@ == seq_prog_spec(decls_view(decls@), p@),
{
    let mut counter: u32 = 0;
    let funs = sequentialize_decls(decls, &mut counter);
    let main = sequentialize(p, &mut counter);
    SeqProg { funs, main, ann: () }
}

} // verus!
