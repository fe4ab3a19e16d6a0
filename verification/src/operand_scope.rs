//! After sequentialization every variable that an operand names is bound,
//! whatever the tree: it is a variable that the tree reads from around it, a
//! variable of the tree, bound where the tree bound it, or the variable of an
//! operand, bound by the `let` in front.

use vstd::prelude::*;
use crate::closed::{all_vars_bound, vars_bound};
use crate::select::{all_resolved, imm_resolved};
use crate::sequentializer::{binding_fresh_at, condition_name, decl_fresh_at, immediate, nest, operand, operand_binding, operand_bindings, operand_fresh_at, operands, seq_bindings, seq_decls, seq_fresh, sequential};
use crate::sound_sequential::{lemma_scope_grows, scope_after};
use crate::syntax::{ExpV, ImmV, Name, SeqExpV, VarOrLabelV, binding_names, sum_to};

verus! {

/// Whether every variable that an operand of a sequential tree names is in
/// `vars` or bound around the operand, by a `let` or as a parameter.
pub open spec fn operands_bound(e: SeqExpV, vars: Set<Name>) -> bool
    decreases e,
{
    match e {
        SeqExpV::Imm(i) => imm_resolved(i, vars),
        SeqExpV::Prim(_, args) => all_resolved(args, vars),
        SeqExpV::MakeClosure { env, .. } => imm_resolved(env, vars),
        SeqExpV::Let { var, bound_exp, body } => operands_bound(*bound_exp, vars) && operands_bound(
            *body,
            vars.insert(var),
        ),
        SeqExpV::If { cond, thn, els } => imm_resolved(cond, vars) && operands_bound(*thn, vars)
            && operands_bound(*els, vars),
        SeqExpV::FunDefs { decls, body } => (forall|i: int|
            0 <= i < decls.len() ==> operands_bound(
                (#[trigger] decls[i]).body,
                vars.union(decls[i].parameters.to_set()),
            )) && operands_bound(*body, vars),
        SeqExpV::InternalTailCall(_, args) => all_resolved(args, vars),
        SeqExpV::ExternalCall { fun, args, .. } => (fun matches VarOrLabelV::Var(x)
            ==> vars.contains(x)) && all_resolved(args, vars),
    }
}

/// Whether each value of a chain of bindings reads only what is in scope
/// before it.
pub open spec fn chain_bound(bs: Seq<(Name, SeqExpV)>, scope: Set<Name>) -> bool
    decreases bs.len(),
{
    bs.len() == 0 || (operands_bound(bs[0].1, scope) && chain_bound(
        bs.drop_first(),
        scope.insert(bs[0].0),
    ))
}

/// A chain of two such parts is such a chain, and its scope is that of the
/// second part behind the first.
pub proof fn lemma_chain_bound_add(
    a: Seq<(Name, SeqExpV)>,
    b: Seq<(Name, SeqExpV)>,
    scope: Set<Name>,
)
    requires
        chain_bound(a, scope),
        chain_bound(b, scope_after(a, scope)),
    ensures
        chain_bound(a + b, scope),
        scope_after(a + b, scope) == scope_after(b, scope_after(a, scope)),
    decreases a.len(),
{
    if a.len() == 0 {
        assert(a + b =~= b);
    } else {
        assert((a + b)[0] == a[0]);
        assert((a + b).drop_first() =~= a.drop_first() + b);
        lemma_chain_bound_add(a.drop_first(), b, scope.insert(a[0].0));
    }
}

/// A chain of one binding.
pub proof fn lemma_chain_bound_one(b: (Name, SeqExpV), scope: Set<Name>)
    requires
        operands_bound(b.1, scope),
    ensures
        chain_bound(seq![b], scope),
        scope_after(seq![b], scope) == scope.insert(b.0),
{
    reveal_with_fuel(chain_bound, 2);
    reveal_with_fuel(scope_after, 2);
    assert(seq![b].drop_first().len() == 0);
}

/// A body behind a chain of `let`s reads only what is in scope where the
/// chain begins, if the chain does and the body reads only what is in scope
/// behind the chain.
pub proof fn lemma_nest_bound(
    bs: Seq<(Name, SeqExpV)>,
    body: SeqExpV,
    scope: Set<Name>,
)
    requires
        chain_bound(bs, scope),
        operands_bound(body, scope_after(bs, scope)),
    ensures
        operands_bound(nest(bs, body), scope),
    decreases bs.len(),
{
    if bs.len() > 0 {
        lemma_nest_bound(bs.drop_first(), body, scope.insert(bs[0].0));
    }
}

/// In the sequential form of an expression every variable that an operand
/// names is a variable that the expression reads from around it, or bound by
/// a `let` or as a parameter around the operand. This holds of every tree.
pub proof fn lemma_sequential_bound(
    e: ExpV,
    c: nat,
    vars: Set<Name>,
    wider: Set<Name>,
)
    requires
        vars_bound(e, vars),
        vars.subset_of(wider),
    ensures
        operands_bound(sequential(e, c), wider),
    decreases e, 1nat,
{
    match e {
        ExpV::Num(_) | ExpV::Bool(_) | ExpV::Var(_) => {},
        ExpV::Prim(p, es) => {
            let front = operand_bindings(es, es.len(), c);
            lemma_operands_bound(es, es.len(), c, vars, wider);
            assert(all_resolved(operands(es, c), scope_after(front, wider)));
            lemma_nest_bound(front, SeqExpV::Prim(p, operands(es, c)), wider);
        },
        ExpV::InternalTailCall(f, args) => {
            let front = operand_bindings(args, args.len(), c);
            lemma_operands_bound(args, args.len(), c, vars, wider);
            assert(all_resolved(operands(args, c), scope_after(front, wider)));
            lemma_nest_bound(front, SeqExpV::InternalTailCall(f, operands(args, c)), wider);
        },
        ExpV::ExternalCall { fun, args, is_tail } => {
            let front = operand_bindings(args, args.len(), c);
            lemma_operands_bound(args, args.len(), c, vars, wider);
            lemma_scope_grows(front, wider);
            assert(all_resolved(operands(args, c), scope_after(front, wider)));
            lemma_nest_bound(
                front,
                SeqExpV::ExternalCall { fun, args: operands(args, c), is_tail },
                wider,
            );
        },
        ExpV::MakeClosure { arity, label, env } => {
            let front = operand_binding(*env, c);
            if immediate(*env) {
                let inner = *env;
                assert(vars_bound(inner, vars));
                match inner {
                    ExpV::Var(x) => {
                        assert(vars.contains(x));
                    },
                    _ => {},
                }
                assert(imm_resolved(operand(*env, c), wider));
            } else {
                lemma_sequential_bound(*env, c, vars, wider);
                lemma_chain_bound_one(front[0], wider);
            }
            lemma_nest_bound(
                front,
                SeqExpV::MakeClosure { arity, label, env: operand(*env, c) },
                wider,
            );
        },
        ExpV::Let { .. } | ExpV::FunDefs { .. } | ExpV::If { .. } => {
            lemma_binders_bound(e, c, vars, wider);
        },
        _ => {},
    }
}

/// [`lemma_sequential_bound`] for a `let`, a conditional and a group of
/// functions.
pub proof fn lemma_binders_bound(
    e: ExpV,
    c: nat,
    vars: Set<Name>,
    wider: Set<Name>,
)
    requires
        e is Let || e is FunDefs || e is If,
        vars_bound(e, vars),
        vars.subset_of(wider),
    ensures
        operands_bound(sequential(e, c), wider),
    decreases e, 0nat,
{
    match e {
        ExpV::Let { bindings, body } => {
            let front = seq_bindings(bindings, c);
            let rest = c + sum_to(bindings.len(), binding_fresh_at(bindings));
            lemma_bindings_bound(bindings, bindings.len(), c, vars, wider);
            assert(front.take(bindings.len() as int) =~= front);
            assert(binding_names(bindings).take(bindings.len() as int) =~= binding_names(bindings));
            lemma_sequential_bound(
                *body,
                rest,
                vars.union(binding_names(bindings).to_set()),
                scope_after(front, wider),
            );
            lemma_nest_bound(front, sequential(*body, rest), wider);
        },
        ExpV::If { cond, thn, els } => {
            let name = condition_name(c + 1);
            let inner = wider.insert(name);
            lemma_sequential_bound(*cond, c + 1, vars, wider);
            lemma_sequential_bound(*thn, c + 1 + seq_fresh(*cond), vars, inner);
            lemma_sequential_bound(
                *els,
                c + 1 + seq_fresh(*cond) + seq_fresh(*thn),
                vars,
                inner,
            );
            let first = sequential(*thn, c + 1 + seq_fresh(*cond));
            let second = sequential(*els, c + 1 + seq_fresh(*cond) + seq_fresh(*thn));
            let pick = SeqExpV::If {
                cond: ImmV::Var(name),
                thn: Box::new(first),
                els: Box::new(second),
            };
            assert(operands_bound(pick, inner));
            assert(sequential(e, c) == SeqExpV::Let {
                var: name,
                bound_exp: Box::new(sequential(*cond, c + 1)),
                body: Box::new(pick),
            });
        },
        ExpV::FunDefs { decls, body } => {
            let out = seq_decls(decls, c);
            let rest = c + sum_to(decls.len(), decl_fresh_at(decls));
            assert forall|i: int| 0 <= i < out.len() implies operands_bound(
                (#[trigger] out[i]).body,
                wider.union(out[i].parameters.to_set()),
            ) by {
                lemma_sequential_bound(
                    decls[i].body,
                    c + sum_to(i as nat, decl_fresh_at(decls)),
                    vars.union(decls[i].parameters.to_set()),
                    wider.union(decls[i].parameters.to_set()),
                );
            }
            lemma_sequential_bound(*body, rest, vars, wider);
        },
        _ => {},
    }
}

/// The bindings in front of a primitive or a call read only what is in
/// scope, and behind them each operand is a literal or a variable in scope.
pub proof fn lemma_operands_bound(
    es: Seq<ExpV>,
    n: nat,
    c: nat,
    vars: Set<Name>,
    wider: Set<Name>,
)
    requires
        n <= es.len(),
        all_vars_bound(es, vars),
        vars.subset_of(wider),
    ensures
        chain_bound(operand_bindings(es, n, c), wider),
        forall|i: int|
            0 <= i < n ==> imm_resolved(
                #[trigger] operands(es, c)[i],
                scope_after(operand_bindings(es, n, c), wider),
            ),
    decreases es, n,
{
    if n > 0 {
        let k = (n - 1) as nat;
        let e = es[k as int];
        let ck = c + sum_to(k, operand_fresh_at(es));
        let prev = operand_bindings(es, k, c);
        let last = operand_binding(e, ck);
        let before = scope_after(prev, wider);
        lemma_operands_bound(es, k, c, vars, wider);
        lemma_scope_grows(prev, wider);
        assert(vars_bound(e, vars));
        assert(operands(es, c)[k as int] == operand(e, ck));
        if immediate(e) {
            assert(prev + last =~= prev);
        } else {
            lemma_sequential_bound(e, ck, vars, before);
            lemma_chain_bound_one(last[0], before);
            lemma_chain_bound_add(prev, last, wider);
        }
    }
}

/// The bindings of a `let` in sequential form read only what is in scope,
/// and behind them the names that the `let` binds are in scope.
pub proof fn lemma_bindings_bound(
    bs: Seq<(Name, ExpV)>,
    n: nat,
    c: nat,
    vars: Set<Name>,
    wider: Set<Name>,
)
    requires
        n <= bs.len(),
        forall|i: int|
            0 <= i < bs.len() ==> vars_bound(
                (#[trigger] bs[i]).1,
                vars.union(binding_names(bs).take(i).to_set()),
            ),
        vars.subset_of(wider),
    ensures
        chain_bound(seq_bindings(bs, c).take(n as int), wider),
        vars.union(binding_names(bs).take(n as int).to_set()).subset_of(
            scope_after(seq_bindings(bs, c).take(n as int), wider),
        ),
    decreases bs, n,
{
    let all = seq_bindings(bs, c);
    let names = binding_names(bs);
    if n == 0 {
        assert(all.take(0).len() == 0);
        assert(names.take(0).to_set() =~= Set::<Name>::empty());
    } else {
        let k = (n - 1) as nat;
        let ck = c + sum_to(k, binding_fresh_at(bs));
        let prev = all.take(k as int);
        let last = seq![all[k as int]];
        let before = scope_after(prev, wider);
        assert(all.take(n as int) =~= prev + last);
        lemma_bindings_bound(bs, k, c, vars, wider);
        lemma_sequential_bound(
            bs[k as int].1,
            ck,
            vars.union(names.take(k as int).to_set()),
            before,
        );
        lemma_chain_bound_one(last[0], before);
        lemma_chain_bound_add(prev, last, wider);
        assert(names.take(n as int) =~= names.take(k as int).push(names[k as int]));
        names.take(k as int).lemma_push_to_set_commute(names[k as int]);
    }
}

} // verus!
