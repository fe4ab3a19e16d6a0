//! What holds of every sequentialized program: every operand is immediate,
//! and what is computed, in which order, is what the program computed before.

use vstd::prelude::*;
use crate::sequentializer::{binding_fresh_at, decl_fresh_at, immediate, lemma_nest_push, nest, operand, operand_binding, operand_bindings, operand_fresh_at, operands, seq_bindings, seq_decls, seq_fresh, sequential};
use crate::syntax::{ExpV, FunDeclV, ImmV, Name, Prim, SeqExpV, SeqFunDeclV, Stage, VarOrLabelV, all_in_stage, in_stage, sum_to};

verus! {

/// An immediate as an expression.
pub open spec fn imm_exp(i: ImmV) -> ExpV {
    match i {
        ImmV::Num(n) => ExpV::Num(n),
        ImmV::Bool(b) => ExpV::Bool(b),
        ImmV::Var(x) => ExpV::Var(x),
    }
}

/// A list of immediates as expressions.
pub open spec fn imm_exps(args: Seq<ImmV>) -> Seq<ExpV> {
    Seq::new(args.len(), |i: int| imm_exp(args[i]))
}

/// A sequential tree read as an expression: a `let` with one binding for
/// each `let`, and each immediate as the literal or variable it is.
pub open spec fn embed(s: SeqExpV) -> ExpV
    decreases s,
{
    match s {
        SeqExpV::Imm(i) => imm_exp(i),
        SeqExpV::Prim(p, args) => ExpV::Prim(p, imm_exps(args)),
        SeqExpV::MakeClosure { arity, label, env } => ExpV::MakeClosure {
            arity,
            label,
            env: Box::new(imm_exp(env)),
        },
        SeqExpV::Let { var, bound_exp, body } => ExpV::Let {
            bindings: seq![(var, embed(*bound_exp))],
            body: Box::new(embed(*body)),
        },
        SeqExpV::If { cond, thn, els } => ExpV::If {
            cond: Box::new(imm_exp(cond)),
            thn: Box::new(embed(*thn)),
            els: Box::new(embed(*els)),
        },
        SeqExpV::FunDefs { decls, body } => ExpV::FunDefs {
            decls: embed_decls(decls),
            body: Box::new(embed(*body)),
        },
        SeqExpV::InternalTailCall(f, args) => ExpV::InternalTailCall(f, imm_exps(args)),
        SeqExpV::ExternalCall { fun, args, is_tail } => ExpV::ExternalCall {
            fun,
            args: imm_exps(args),
            is_tail,
        },
    }
}

/// [`embed`] of the body of each function.
pub open spec fn embed_decls(ds: Seq<SeqFunDeclV>) -> Seq<FunDeclV>
    decreases ds,
{
    Seq::new(
        ds.len(),
        |i: int|
            if 0 <= i < ds.len() {
                FunDeclV { name: ds[i].name, parameters: ds[i].parameters, body: embed(ds[i].body) }
            } else {
                arbitrary()
            },
    )
}

/// Whether every expression of a list is immediate.
pub open spec fn all_immediate(es: Seq<ExpV>) -> bool {
    forall|i: int| 0 <= i < es.len() ==> immediate(#[trigger] es[i])
}

/// Whether every operand of a primitive, a conditional, a closure or a call
/// in an expression is immediate.
pub open spec fn normal(e: ExpV) -> bool
    decreases e,
{
    match e {
        ExpV::Num(_) | ExpV::Bool(_) | ExpV::Var(_) => true,
        ExpV::Prim(_, es) => all_immediate(es),
        ExpV::Let { bindings, body } => (forall|i: int|
            0 <= i < bindings.len() ==> normal((#[trigger] bindings[i]).1)) && normal(*body),
        ExpV::If { cond, thn, els } => immediate(*cond) && normal(*thn) && normal(*els),
        ExpV::Semicolon { e1, e2 } => normal(*e1) && normal(*e2),
        ExpV::FunDefs { decls, body } => (forall|i: int|
            0 <= i < decls.len() ==> normal((#[trigger] decls[i]).body)) && normal(*body),
        ExpV::Call(f, args) => immediate(*f) && all_immediate(args),
        ExpV::Lambda { body, .. } => normal(*body),
        ExpV::MakeClosure { env, .. } => immediate(*env),
        ExpV::ClosureCall(f, args) => immediate(*f) && all_immediate(args),
        ExpV::DirectCall(_, args) => all_immediate(args),
        ExpV::InternalTailCall(_, args) => all_immediate(args),
        ExpV::ExternalCall { args, .. } => all_immediate(args),
    }
}

/// A sequential tree has immediate operands only.
pub proof fn lemma_embed_normal(s: SeqExpV)
    ensures
        normal(embed(s)),
    decreases s,
{
    match s {
        SeqExpV::Let { var, bound_exp, body } => {
            lemma_embed_normal(*bound_exp);
            lemma_embed_normal(*body);
        },
        SeqExpV::If { cond, thn, els } => {
            lemma_embed_normal(*thn);
            lemma_embed_normal(*els);
        },
        SeqExpV::FunDefs { decls, body } => {
            lemma_embed_normal(*body);
            assert forall|i: int| 0 <= i < decls.len() implies normal(
                (#[trigger] embed_decls(decls)[i]).body,
            ) by {
                lemma_embed_normal(decls[i].body);
            }
        },
        _ => {},
    }
}

/// After sequentialization every operand of a primitive, a conditional, a
/// closure or a call is immediate.
pub proof fn lemma_sequential_normal(e: ExpV, c: nat)
    ensures
        normal(embed(sequential(e, c))),
{
    lemma_embed_normal(sequential(e, c));
}

/// One thing that a program does when it runs.
pub enum Step {
    /// A primitive is applied.
    Apply(Prim),
    /// A closure is made of a global function.
    Close(Name),
    /// A local function is jumped to.
    Jump(Name),
    /// A global function or a code pointer is called.
    Invoke(VarOrLabelV, bool),
    /// A condition is tested; the steps of the first branch follow.
    Branch,
    /// The steps of the second branch follow.
    Otherwise,
    /// The branches end.
    Join,
    /// The steps of the body of a local function follow.
    Define(Name),
    /// What stands in no later stage.
    Other,
}

/// What an expression does when it runs, in order: the operands of a
/// primitive or a call from left to right and then the primitive or call,
/// the bindings of a `let` in order and then its body. For a conditional and
/// for local functions the steps of each part, between marks.
pub open spec fn steps(e: ExpV) -> Seq<Step>
    decreases e, 0nat,
{
    match e {
        ExpV::Num(_) | ExpV::Bool(_) | ExpV::Var(_) => Seq::empty(),
        ExpV::Prim(p, es) => steps_list(es, es.len()).push(Step::Apply(p)),
        ExpV::Let { bindings, body } => steps_bindings(bindings, bindings.len()) + steps(*body),
        ExpV::If { cond, thn, els } => steps(*cond).push(Step::Branch) + steps(*thn).push(
            Step::Otherwise,
        ) + steps(*els).push(Step::Join),
        ExpV::FunDefs { decls, body } => steps_decls(decls, decls.len()) + steps(*body),
        ExpV::MakeClosure { label, env, .. } => steps(*env).push(Step::Close(label)),
        ExpV::InternalTailCall(f, args) => steps_list(args, args.len()).push(Step::Jump(f)),
        ExpV::ExternalCall { fun, args, is_tail } => steps_list(args, args.len()).push(
            Step::Invoke(fun, is_tail),
        ),
        _ => seq![Step::Other],
    }
}

/// The steps of the first `n` expressions of a list.
pub open spec fn steps_list(es: Seq<ExpV>, n: nat) -> Seq<Step>
    decreases es, n,
{
    if n == 0 || n > es.len() {
        Seq::empty()
    } else {
        steps_list(es, (n - 1) as nat) + steps(es[n - 1])
    }
}

/// The steps of the values of the first `n` bindings.
pub open spec fn steps_bindings(bs: Seq<(Name, ExpV)>, n: nat) -> Seq<Step>
    decreases bs, n,
{
    if n == 0 || n > bs.len() {
        Seq::empty()
    } else {
        steps_bindings(bs, (n - 1) as nat) + steps(bs[n - 1].1)
    }
}

/// The steps of the bodies of the first `n` functions, each behind its mark.
pub open spec fn steps_decls(ds: Seq<FunDeclV>, n: nat) -> Seq<Step>
    decreases ds, n,
{
    if n == 0 || n > ds.len() {
        Seq::empty()
    } else {
        steps_decls(ds, (n - 1) as nat) + seq![Step::Define(ds[n - 1].name)] + steps(ds[n - 1].body)
    }
}

/// The steps of the values of the first `n` bindings of a chain.
pub open spec fn steps_chain(bs: Seq<(Name, SeqExpV)>, n: nat) -> Seq<Step>
    decreases n,
{
    if n == 0 || n > bs.len() {
        Seq::empty()
    } else {
        steps_chain(bs, (n - 1) as nat) + steps(embed(bs[n - 1].1))
    }
}

/// Immediates do nothing when they run.
pub proof fn lemma_steps_immediate(args: Seq<ImmV>, n: nat)
    requires
        n <= args.len(),
    ensures
        steps_list(imm_exps(args), n) == Seq::<Step>::empty(),
    decreases n,
{
    if n > 0 {
        lemma_steps_immediate(args, (n - 1) as nat);
        assert(steps(imm_exps(args)[n - 1]) == Seq::<Step>::empty());
    }
}

/// A chain of `let`s does what its bindings do, in order, and then what its
/// body does.
#[verifier::rlimit(50)]
pub proof fn lemma_steps_nest(bs: Seq<(Name, SeqExpV)>, body: SeqExpV)
    ensures
        steps(embed(nest(bs, body))) == steps_chain(bs, bs.len()) + steps(embed(body)),
    decreases bs.len(),
{
    if bs.len() == 0 {
        assert(steps_chain(bs, 0) + steps(embed(body)) =~= steps(embed(body)));
    } else {
        let last = bs.last();
        let front = bs.drop_last();
        let inner = SeqExpV::Let { var: last.0, bound_exp: Box::new(last.1), body: Box::new(body) };
        assert(bs =~= front.push(last));
        lemma_nest_push(front, last, body);
        lemma_steps_nest(front, inner);
        lemma_steps_chain_prefix(bs, front, front.len());
        let one = seq![(last.0, embed(last.1))];
        assert(steps_bindings(one, 1) == steps_bindings(one, 0) + steps(one[0].1));
        assert(steps(embed(inner)) =~= steps(embed(last.1)) + steps(embed(body)));
        assert(steps_chain(bs, bs.len()) =~= steps_chain(bs, front.len()) + steps(embed(last.1)));
        assert(steps_chain(front, front.len()) + (steps(embed(last.1)) + steps(embed(body)))
            =~= steps_chain(bs, bs.len()) + steps(embed(body)));
    }
}

/// The steps of the first bindings of a chain are those of any chain that
/// starts with the same bindings.
pub proof fn lemma_steps_chain_prefix(bs: Seq<(Name, SeqExpV)>, front: Seq<(Name, SeqExpV)>, n: nat)
    requires
        n <= front.len() <= bs.len(),
        forall|i: int| 0 <= i < front.len() ==> front[i] == bs[i],
    ensures
        steps_chain(bs, n) == steps_chain(front, n),
    decreases n,
{
    if n > 0 {
        lemma_steps_chain_prefix(bs, front, (n - 1) as nat);
    }
}

/// A chain made of two chains does what the first does and then what the
/// second does.
pub proof fn lemma_steps_chain_add(a: Seq<(Name, SeqExpV)>, b: Seq<(Name, SeqExpV)>, n: nat)
    requires
        n <= b.len(),
    ensures
        steps_chain(a + b, a.len() + n) == steps_chain(a, a.len()) + steps_chain(b, n),
    decreases n,
{
    if n == 0 {
        lemma_steps_chain_prefix(a + b, a, a.len());
        assert(steps_chain(a, a.len()) + steps_chain(b, 0) =~= steps_chain(a, a.len()));
    } else {
        lemma_steps_chain_add(a, b, (n - 1) as nat);
        assert((a + b)[a.len() + n - 1] == b[n - 1]);
        assert(steps_chain(a, a.len()) + (steps_chain(b, (n - 1) as nat) + steps(embed(b[n - 1].1)))
            =~= (steps_chain(a, a.len()) + steps_chain(b, (n - 1) as nat)) + steps(
            embed(b[n - 1].1),
        ));
    }
}

/// Sequentialization keeps the order of evaluation: the sequential form of
/// an expression does the same steps in the same order as the expression.
#[verifier::rlimit(50)]
pub proof fn lemma_sequential_steps(e: ExpV, c: nat)
    requires
        in_stage(e, Stage::Lifted),
    ensures
        steps(embed(sequential(e, c))) == steps(e),
    decreases e, 1nat,
{
    match e {
        ExpV::Num(_) | ExpV::Bool(_) | ExpV::Var(_) => {},
        ExpV::Prim(p, es) => {
            let last = SeqExpV::Prim(p, operands(es, c));
            lemma_steps_nest(operand_bindings(es, es.len(), c), last);
            lemma_operand_steps(es, es.len(), c);
            lemma_steps_immediate(operands(es, c), es.len());
            assert(steps(embed(last)) =~= seq![Step::Apply(p)]);
            assert(steps(e) =~= steps_list(es, es.len()) + seq![Step::Apply(p)]);
        },
        ExpV::InternalTailCall(f, args) => {
            let last = SeqExpV::InternalTailCall(f, operands(args, c));
            lemma_steps_nest(operand_bindings(args, args.len(), c), last);
            lemma_operand_steps(args, args.len(), c);
            lemma_steps_immediate(operands(args, c), args.len());
            assert(steps(embed(last)) =~= seq![Step::Jump(f)]);
            assert(steps(e) =~= steps_list(args, args.len()) + seq![Step::Jump(f)]);
        },
        ExpV::ExternalCall { fun, args, is_tail } => {
            let last = SeqExpV::ExternalCall { fun, args: operands(args, c), is_tail };
            lemma_steps_nest(operand_bindings(args, args.len(), c), last);
            lemma_operand_steps(args, args.len(), c);
            lemma_steps_immediate(operands(args, c), args.len());
            assert(steps(embed(last)) =~= seq![Step::Invoke(fun, is_tail)]);
            assert(steps(e) =~= steps_list(args, args.len()) + seq![Step::Invoke(fun, is_tail)]);
        },
        ExpV::MakeClosure { arity, label, env } => {
            let last = SeqExpV::MakeClosure { arity, label, env: operand(*env, c) };
            let front = operand_binding(*env, c);
            lemma_steps_nest(front, last);
            assert(steps(imm_exp(operand(*env, c))) == Seq::<Step>::empty());
            assert(steps(embed(last)) =~= seq![Step::Close(label)]);
            if immediate(*env) {
                assert(steps(*env) == Seq::<Step>::empty());
                assert(steps_chain(front, 0) + seq![Step::Close(label)] =~= steps(e));
            } else {
                lemma_sequential_steps(*env, c);
                assert(steps_chain(front, 1) == steps_chain(front, 0) + steps(embed(front[0].1)));
                assert(steps_chain(front, 1) + seq![Step::Close(label)] =~= steps(e));
            }
        },
        ExpV::If { cond, thn, els } => {
            let c1 = c + 1 + seq_fresh(*cond);
            let c2 = c1 + seq_fresh(*thn);
            lemma_sequential_steps(*cond, c + 1);
            lemma_sequential_steps(*thn, c1);
            lemma_sequential_steps(*els, c2);
            let name = crate::sequentializer::condition_name(c + 1);
            let branch = SeqExpV::If {
                cond: ImmV::Var(name),
                thn: Box::new(sequential(*thn, c1)),
                els: Box::new(sequential(*els, c2)),
            };
            let one = seq![(name, embed(sequential(*cond, c + 1)))];
            assert(steps_bindings(one, 1) == steps_bindings(one, 0) + steps(one[0].1));
            assert(steps(imm_exp(ImmV::Var(name))) =~= Seq::<Step>::empty());
            assert(steps(embed(branch)) =~= steps(imm_exp(ImmV::Var(name))).push(Step::Branch)
                + steps(embed(sequential(*thn, c1))).push(Step::Otherwise) + steps(
                embed(sequential(*els, c2)),
            ).push(Step::Join));
            assert(steps(embed(branch)) =~= seq![Step::Branch] + steps(*thn).push(Step::Otherwise)
                + steps(*els).push(Step::Join));
            assert(steps(embed(sequential(e, c))) =~= steps(*cond) + steps(embed(branch)));
            assert(steps(embed(sequential(e, c))) =~= steps(e));
        },
        ExpV::Let { bindings, body } => {
            let c1 = c + sum_to(bindings.len(), binding_fresh_at(bindings));
            lemma_sequential_steps(*body, c1);
            lemma_steps_nest(seq_bindings(bindings, c), sequential(*body, c1));
            lemma_binding_steps(bindings, bindings.len(), c);
        },
        ExpV::FunDefs { decls, body } => {
            let c1 = c + sum_to(decls.len(), decl_fresh_at(decls));
            lemma_sequential_steps(*body, c1);
            lemma_decl_steps(decls, decls.len(), c);
        },
        _ => {},
    }
}

/// The bindings in front of the operands of a list do what the operands do.
pub proof fn lemma_operand_steps(es: Seq<ExpV>, n: nat, c: nat)
    requires
        all_in_stage(es, Stage::Lifted),
        n <= es.len(),
    ensures
        steps_chain(operand_bindings(es, n, c), operand_bindings(es, n, c).len()) == steps_list(
            es,
            n,
        ),
    decreases es, n,
{
    if n > 0 {
        let prev = operand_bindings(es, (n - 1) as nat, c);
        let ci = c + sum_to((n - 1) as nat, operand_fresh_at(es));
        let one = operand_binding(es[n - 1], ci);
        lemma_operand_steps(es, (n - 1) as nat, c);
        lemma_steps_chain_add(prev, one, one.len());
        if immediate(es[n - 1]) {
            assert(steps(es[n - 1]) == Seq::<Step>::empty());
            assert(steps_list(es, (n - 1) as nat) + Seq::<Step>::empty() =~= steps_list(
                es,
                (n - 1) as nat,
            ));
        } else {
            lemma_sequential_steps(es[n - 1], ci);
            assert(steps_chain(one, 1) == steps_chain(one, 0) + steps(embed(one[0].1)));
            assert(steps_chain(one, 1) =~= steps(es[n - 1]));
        }
    }
}

/// The bindings of a `let` in sequential form do what the bindings do.
pub proof fn lemma_binding_steps(bs: Seq<(Name, ExpV)>, n: nat, c: nat)
    requires
        forall|i: int| 0 <= i < bs.len() ==> in_stage((#[trigger] bs[i]).1, Stage::Lifted),
        n <= bs.len(),
    ensures
        steps_chain(seq_bindings(bs, c), n) == steps_bindings(bs, n),
    decreases bs, n,
{
    if n > 0 {
        lemma_binding_steps(bs, (n - 1) as nat, c);
        assert(in_stage(bs[n - 1].1, Stage::Lifted));
        lemma_sequential_steps(bs[n - 1].1, c + sum_to((n - 1) as nat, binding_fresh_at(bs)));
    }
}

/// The functions of a group in sequential form do what the functions do.
pub proof fn lemma_decl_steps(ds: Seq<FunDeclV>, n: nat, c: nat)
    requires
        forall|i: int| 0 <= i < ds.len() ==> in_stage((#[trigger] ds[i]).body, Stage::Lifted),
        n <= ds.len(),
    ensures
        steps_decls(embed_decls(seq_decls(ds, c)), n) == steps_decls(ds, n),
    decreases ds, n,
{
    if n > 0 {
        lemma_decl_steps(ds, (n - 1) as nat, c);
        assert(in_stage(ds[n - 1].body, Stage::Lifted));
        lemma_sequential_steps(ds[n - 1].body, c + sum_to((n - 1) as nat, decl_fresh_at(ds)));
    }
}

} // verus!
