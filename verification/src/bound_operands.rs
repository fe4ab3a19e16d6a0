//! After sequentialization every variable that an operand names is bound:
//! it is a variable of the program, bound where the program bound it, or the
//! variable of an operand, bound by the `let` in front. And every internal
//! tail call still goes to a function declared around it. So instruction
//! selection finds all that the sequential form of a closed program refers
//! to, if every primitive of the program has its operands.

use vstd::prelude::*;
use crate::checker::check;
use crate::closed::{all_calls_local, all_vars_bound, calls_local, lemma_accepted_closed, program_closed, program_complete, vars_bound};
use crate::compile::{prog_resolved, resolves};
use crate::lambda_lift::lambda_lift_spec;
use crate::select::{all_resolved, function_resolved, group_names, imm_resolved, operands_read, resolved};
use crate::sequentializer::{binding_fresh_at, condition_name, decl_fresh_at, immediate, nest, operand, operand_binding, operand_bindings, operand_fresh_at, operands, seq_bindings, seq_decls, seq_fresh, seq_prog_spec, sequential};
use crate::sound_sequential::{lemma_scope_grows, scope_after};
use crate::syntax::{Exp, ExpV, FunDeclV, ImmV, Name, SeqExpV, Stage, binders, binding_names, decl_names, in_stage, sum_to};

verus! {

/// Whether every primitive of an expression has the operands that its code
/// reads.
pub open spec fn operands_given(e: ExpV) -> bool
    decreases e,
{
    match e {
        ExpV::Prim(p, es) => operands_read(p) <= es.len() && all_operands_given(es),
        ExpV::Let { bindings, body } => (forall|i: int|
            0 <= i < bindings.len() ==> operands_given((#[trigger] bindings[i]).1))
            && operands_given(*body),
        ExpV::If { cond, thn, els } => operands_given(*cond) && operands_given(*thn)
            && operands_given(*els),
        ExpV::FunDefs { decls, body } => (forall|i: int|
            0 <= i < decls.len() ==> operands_given((#[trigger] decls[i]).body)) && operands_given(
            *body,
        ),
        ExpV::MakeClosure { env, .. } => operands_given(*env),
        ExpV::InternalTailCall(_, args) => all_operands_given(args),
        ExpV::ExternalCall { args, .. } => all_operands_given(args),
        _ => true,
    }
}

/// [`operands_given`] of every expression of a list.
pub open spec fn all_operands_given(es: Seq<ExpV>) -> bool
    decreases es,
{
    forall|i: int| 0 <= i < es.len() ==> operands_given(#[trigger] es[i])
}

/// Whether each value of a chain of bindings is resolved with what is in
/// scope before it.
pub open spec fn chain_resolved(bs: Seq<(Name, SeqExpV)>, scope: Set<Name>, funs: Set<Name>) -> bool
    decreases bs.len(),
{
    bs.len() == 0 || (resolved(bs[0].1, scope, funs) && chain_resolved(
        bs.drop_first(),
        scope.insert(bs[0].0),
        funs,
    ))
}

/// A chain of two resolved parts is resolved, and its scope is that of the
/// second part behind the first.
pub proof fn lemma_chain_resolved_add(
    a: Seq<(Name, SeqExpV)>,
    b: Seq<(Name, SeqExpV)>,
    scope: Set<Name>,
    funs: Set<Name>,
)
    requires
        chain_resolved(a, scope, funs),
        chain_resolved(b, scope_after(a, scope), funs),
    ensures
        chain_resolved(a + b, scope, funs),
        scope_after(a + b, scope) == scope_after(b, scope_after(a, scope)),
    decreases a.len(),
{
    if a.len() == 0 {
        assert(a + b =~= b);
    } else {
        assert((a + b)[0] == a[0]);
        assert((a + b).drop_first() =~= a.drop_first() + b);
        lemma_chain_resolved_add(a.drop_first(), b, scope.insert(a[0].0), funs);
    }
}

/// A chain of one binding.
pub proof fn lemma_chain_resolved_one(b: (Name, SeqExpV), scope: Set<Name>, funs: Set<Name>)
    requires
        resolved(b.1, scope, funs),
    ensures
        chain_resolved(seq![b], scope, funs),
        scope_after(seq![b], scope) == scope.insert(b.0),
{
    reveal_with_fuel(chain_resolved, 2);
    reveal_with_fuel(scope_after, 2);
    assert(seq![b].drop_first().len() == 0);
}

/// A resolved body behind a resolved chain of `let`s is resolved.
pub proof fn lemma_nest_resolved(
    bs: Seq<(Name, SeqExpV)>,
    body: SeqExpV,
    scope: Set<Name>,
    funs: Set<Name>,
)
    requires
        chain_resolved(bs, scope, funs),
        resolved(body, scope_after(bs, scope), funs),
    ensures
        resolved(nest(bs, body), scope, funs),
    decreases bs.len(),
{
    if bs.len() > 0 {
        lemma_nest_resolved(bs.drop_first(), body, scope.insert(bs[0].0), funs);
    }
}

/// The sequential form of a lifted expression is resolved: it reads only the
/// variables that the expression reads and those that it binds itself, and
/// its internal tail calls go where those of the expression go.
pub proof fn lemma_sequential_resolved(
    e: ExpV,
    c: nat,
    vars: Set<Name>,
    wider: Set<Name>,
    funs: Set<Name>,
)
    requires
        vars_bound(e, vars),
        calls_local(e, funs),
        operands_given(e),
        vars.subset_of(wider),
    ensures
        resolved(sequential(e, c), wider, funs),
    decreases e, 1nat,
{
    match e {
        ExpV::Num(_) | ExpV::Bool(_) | ExpV::Var(_) => {},
        ExpV::Prim(p, es) => {
            let front = operand_bindings(es, es.len(), c);
            lemma_operands_resolved(es, es.len(), c, vars, wider, funs);
            assert(all_resolved(operands(es, c), scope_after(front, wider)));
            lemma_nest_resolved(front, SeqExpV::Prim(p, operands(es, c)), wider, funs);
        },
        ExpV::InternalTailCall(f, args) => {
            let front = operand_bindings(args, args.len(), c);
            lemma_operands_resolved(args, args.len(), c, vars, wider, funs);
            assert(all_resolved(operands(args, c), scope_after(front, wider)));
            lemma_nest_resolved(front, SeqExpV::InternalTailCall(f, operands(args, c)), wider, funs);
        },
        ExpV::ExternalCall { fun, args, is_tail } => {
            let front = operand_bindings(args, args.len(), c);
            lemma_operands_resolved(args, args.len(), c, vars, wider, funs);
            lemma_scope_grows(front, wider);
            assert(all_resolved(operands(args, c), scope_after(front, wider)));
            lemma_nest_resolved(
                front,
                SeqExpV::ExternalCall { fun, args: operands(args, c), is_tail },
                wider,
                funs,
            );
        },
        ExpV::MakeClosure { arity, label, env } => {
            let front = operand_binding(*env, c);
            if immediate(*env) {
                let inner = *env;
                assert(vars_bound(inner, vars));
                match inner {
                    ExpV::Var(x) => {
                        assert(vars.contains(x));
                    },
                    _ => {},
                }
                assert(imm_resolved(operand(*env, c), wider));
            } else {
                lemma_sequential_resolved(*env, c, vars, wider, funs);
                lemma_chain_resolved_one(front[0], wider, funs);
            }
            lemma_nest_resolved(
                front,
                SeqExpV::MakeClosure { arity, label, env: operand(*env, c) },
                wider,
                funs,
            );
        },
        ExpV::Let { .. } | ExpV::FunDefs { .. } | ExpV::If { .. } => {
            lemma_binders_resolved(e, c, vars, wider, funs);
        },
        _ => {},
    }
}

/// [`lemma_sequential_resolved`] for a `let`, a conditional and a group of
/// functions.
pub proof fn lemma_binders_resolved(
    e: ExpV,
    c: nat,
    vars: Set<Name>,
    wider: Set<Name>,
    funs: Set<Name>,
)
    requires
        e is Let || e is FunDefs || e is If,
        vars_bound(e, vars),
        calls_local(e, funs),
        operands_given(e),
        vars.subset_of(wider),
    ensures
        resolved(sequential(e, c), wider, funs),
    decreases e, 0nat,
{
    match e {
        ExpV::Let { bindings, body } => {
            let front = seq_bindings(bindings, c);
            let rest = c + sum_to(bindings.len(), binding_fresh_at(bindings));
            lemma_bindings_resolved(bindings, bindings.len(), c, vars, wider, funs);
            assert(front.take(bindings.len() as int) =~= front);
            assert(binding_names(bindings).take(bindings.len() as int) =~= binding_names(bindings));
            lemma_sequential_resolved(
                *body,
                rest,
                vars.union(binding_names(bindings).to_set()),
                scope_after(front, wider),
                funs,
            );
            lemma_nest_resolved(front, sequential(*body, rest), wider, funs);
        },
        ExpV::If { cond, thn, els } => {
            let name = condition_name(c + 1);
            let inner = wider.insert(name);
            lemma_sequential_resolved(*cond, c + 1, vars, wider, funs);
            lemma_sequential_resolved(*thn, c + 1 + seq_fresh(*cond), vars, inner, funs);
            lemma_sequential_resolved(
                *els,
                c + 1 + seq_fresh(*cond) + seq_fresh(*thn),
                vars,
                inner,
                funs,
            );
            let first = sequential(*thn, c + 1 + seq_fresh(*cond));
            let second = sequential(*els, c + 1 + seq_fresh(*cond) + seq_fresh(*thn));
            let pick = SeqExpV::If {
                cond: ImmV::Var(name),
                thn: Box::new(first),
                els: Box::new(second),
            };
            assert(resolved(pick, inner, funs));
            assert(sequential(e, c) == SeqExpV::Let {
                var: name,
                bound_exp: Box::new(sequential(*cond, c + 1)),
                body: Box::new(pick),
            });
        },
        ExpV::FunDefs { decls, body } => {
            let out = seq_decls(decls, c);
            let rest = c + sum_to(decls.len(), decl_fresh_at(decls));
            assert(group_names(out) =~= decl_names(decls));
            let inner = funs.union(decl_names(decls).to_set());
            assert forall|i: int| 0 <= i < out.len() implies resolved(
                (#[trigger] out[i]).body,
                wider.union(out[i].parameters.to_set()),
                inner,
            ) by {
                lemma_sequential_resolved(
                    decls[i].body,
                    c + sum_to(i as nat, decl_fresh_at(decls)),
                    vars.union(decls[i].parameters.to_set()),
                    wider.union(decls[i].parameters.to_set()),
                    inner,
                );
            }
            lemma_sequential_resolved(*body, rest, vars, wider, inner);
        },
        _ => {},
    }
}

/// The bindings in front of a primitive or a call are resolved, and behind
/// them each operand is a literal or a variable in scope.
pub proof fn lemma_operands_resolved(
    es: Seq<ExpV>,
    n: nat,
    c: nat,
    vars: Set<Name>,
    wider: Set<Name>,
    funs: Set<Name>,
)
    requires
        n <= es.len(),
        all_vars_bound(es, vars),
        all_calls_local(es, funs),
        all_operands_given(es),
        vars.subset_of(wider),
    ensures
        chain_resolved(operand_bindings(es, n, c), wider, funs),
        forall|i: int|
            0 <= i < n ==> imm_resolved(
                #[trigger] operands(es, c)[i],
                scope_after(operand_bindings(es, n, c), wider),
            ),
    decreases es, n,
{
    if n > 0 {
        let k = (n - 1) as nat;
        let e = es[k as int];
        let ck = c + sum_to(k, operand_fresh_at(es));
        let prev = operand_bindings(es, k, c);
        let last = operand_binding(e, ck);
        let before = scope_after(prev, wider);
        lemma_operands_resolved(es, k, c, vars, wider, funs);
        lemma_scope_grows(prev, wider);
        assert(vars_bound(e, vars) && calls_local(e, funs) && operands_given(e));
        assert(operands(es, c)[k as int] == operand(e, ck));
        if immediate(e) {
            assert(prev + last =~= prev);
        } else {
            lemma_sequential_resolved(e, ck, vars, before, funs);
            lemma_chain_resolved_one(last[0], before, funs);
            lemma_chain_resolved_add(prev, last, wider, funs);
        }
    }
}

/// The bindings of a `let` in sequential form are resolved, and behind them
/// the names that the `let` binds are in scope.
pub proof fn lemma_bindings_resolved(
    bs: Seq<(Name, ExpV)>,
    n: nat,
    c: nat,
    vars: Set<Name>,
    wider: Set<Name>,
    funs: Set<Name>,
)
    requires
        n <= bs.len(),
        forall|i: int|
            0 <= i < bs.len() ==> vars_bound(
                (#[trigger] bs[i]).1,
                vars.union(binding_names(bs).take(i).to_set()),
            ) && calls_local(bs[i].1, funs) && operands_given(bs[i].1),
        vars.subset_of(wider),
    ensures
        chain_resolved(seq_bindings(bs, c).take(n as int), wider, funs),
        vars.union(binding_names(bs).take(n as int).to_set()).subset_of(
            scope_after(seq_bindings(bs, c).take(n as int), wider),
        ),
    decreases bs, n,
{
    let all = seq_bindings(bs, c);
    let names = binding_names(bs);
    if n == 0 {
        assert(all.take(0).len() == 0);
        assert(names.take(0).to_set() =~= Set::<Name>::empty());
    } else {
        let k = (n - 1) as nat;
        let ck = c + sum_to(k, binding_fresh_at(bs));
        let prev = all.take(k as int);
        let last = seq![all[k as int]];
        let before = scope_after(prev, wider);
        assert(all.take(n as int) =~= prev + last);
        lemma_bindings_resolved(bs, k, c, vars, wider, funs);
        assert(calls_local(bs[k as int].1, funs));
        lemma_sequential_resolved(
            bs[k as int].1,
            ck,
            vars.union(names.take(k as int).to_set()),
            before,
            funs,
        );
        lemma_chain_resolved_one(last[0], before, funs);
        lemma_chain_resolved_add(prev, last, wider, funs);
        assert(names.take(n as int) =~= names.take(k as int).push(names[k as int]));
        names.take(k as int).lemma_push_to_set_commute(names[k as int]);
    }
}

/// Whether every primitive of a lifted program has its operands.
pub open spec fn program_operands_given(globals: Seq<FunDeclV>, main: ExpV) -> bool {
    operands_given(main) && forall|i: int|
        0 <= i < globals.len() ==> operands_given((#[trigger] globals[i]).body)
}

/// Instruction selection finds all that the sequential form of a closed
/// program refers to, if every primitive of the program has its operands:
/// every variable that an operand names is a parameter or bound by a `let`
/// around it, and every internal tail call goes to a function declared
/// around it.
pub proof fn lemma_closed_resolved(globals: Seq<FunDeclV>, main: ExpV)
    requires
        program_closed(globals, main),
        program_operands_given(globals, main),
    ensures
        prog_resolved(seq_prog_spec(globals, main)),
{
    let prog = seq_prog_spec(globals, main);
    let none = Set::<Name>::empty();
    lemma_sequential_resolved(main, sum_to(globals.len(), decl_fresh_at(globals)), none, none, none);
    assert forall|i: int| 0 <= i < prog.funs.len() implies function_resolved(
        #[trigger] prog.funs[i],
    ) by {
        let scope = globals[i].parameters.to_set();
        lemma_sequential_resolved(
            globals[i].body,
            sum_to(i as nat, decl_fresh_at(globals)),
            scope,
            scope,
            none,
        );
    }
}

/// A program that the checker accepts, that calls no function with fewer
/// arguments than it has parameters, and whose primitives have their
/// operands after lambda lifting, is one of which instruction selection finds
/// all that it refers to: the compiler does not refuse it as unresolved.
pub proof fn lemma_accepted_resolved<Span>(p: Exp<Span>)
    requires
        in_stage(p@, Stage::Surface),
        check(p, Set::empty()) is None,
        binders(p@) <= u32::MAX,
        program_complete(p@),
        program_operands_given(lambda_lift_spec(p@).0, lambda_lift_spec(p@).1),
    ensures
        resolves(p@),
{
    lemma_accepted_closed(p);
    lemma_closed_resolved(lambda_lift_spec(p@).0, lambda_lift_spec(p@).1);
}

} // verus!
