//! Sequentialization keeps the value: the sequential form of a straight
//! expression is worth what the expression is worth, and makes the same
//! error.

use vstd::prelude::*;
use crate::labels::lemma_numbered_same;
use crate::meaning::{Fault, Value, arg, eval, grounded, imm_ok, simple, value_of};
use crate::renaming::scoped;
use crate::sequentializer::{binding_fresh_at, condition_name, immediate, nest, operand, operand_binding, operand_bindings, operand_fresh_at, operand_name, operands, seq_bindings, seq_fresh, sequential};
use crate::source::{bind, clean, nth, straight, tidy, value, values};
use crate::syntax::{ExpV, ImmV, Name, SeqExpV, binding_names, lemma_sum_to, sum_to};

verus! {

/// Whether two bindings of variables give every clean name the same value.
pub open spec fn agree(env: Map<Name, Value>, other: Map<Name, Value>) -> bool {
    forall|x: Name| #[trigger] clean(x) ==> other[x] == env[x]
}

/// The variables after a chain of bindings, each value seeing the bindings
/// before it; or the first error.
pub open spec fn chain(bs: Seq<(Name, SeqExpV)>, env: Map<Name, Value>) -> Result<
    Map<Name, Value>,
    Fault,
>
    decreases bs.len(),
{
    if bs.len() == 0 {
        Ok(env)
    } else {
        match eval(bs[0].1, env) {
            Ok(v) => chain(bs.drop_first(), env.insert(bs[0].0, v)),
            Err(f) => Err(f),
        }
    }
}

/// A chain of two parts binds the first part and then the second.
pub proof fn lemma_chain_add(a: Seq<(Name, SeqExpV)>, b: Seq<(Name, SeqExpV)>, env: Map<Name, Value>)
    ensures
        chain(a + b, env) == match chain(a, env) {
            Ok(inner) => chain(b, inner),
            Err(f) => Err(f),
        },
    decreases a.len(),
{
    if a.len() == 0 {
        assert(a + b =~= b);
    } else {
        assert((a + b)[0] == a[0]);
        assert((a + b).drop_first() =~= a.drop_first() + b);
        match eval(a[0].1, env) {
            Ok(v) => {
                lemma_chain_add(a.drop_first(), b, env.insert(a[0].0, v));
            },
            Err(_) => {},
        }
    }
}

/// A chain of one binding.
pub proof fn lemma_chain_one(b: (Name, SeqExpV), env: Map<Name, Value>)
    ensures
        chain(seq![b], env) == match eval(b.1, env) {
            Ok(v) => Ok::<Map<Name, Value>, Fault>(env.insert(b.0, v)),
            Err(f) => Err(f),
        },
{
    reveal_with_fuel(chain, 2);
    assert(seq![b].drop_first().len() == 0);
}

/// A body behind a chain of `let`s is evaluated with the variables that the
/// chain binds.
pub proof fn lemma_eval_nest(bs: Seq<(Name, SeqExpV)>, body: SeqExpV, env: Map<Name, Value>)
    ensures
        eval(nest(bs, body), env) == match chain(bs, env) {
            Ok(inner) => eval(body, inner),
            Err(f) => Err(f),
        },
    decreases bs.len(),
{
    if bs.len() > 0 {
        match eval(bs[0].1, env) {
            Ok(v) => {
                lemma_eval_nest(bs.drop_first(), body, env.insert(bs[0].0, v));
            },
            Err(_) => {},
        }
    }
}

/// The name of an operand's variable is not clean, and two of them are
/// equal only if they were drawn at the same counter.
pub proof fn lemma_operand_names(a: nat, b: nat)
    ensures
        !clean(operand_name(a)),
        !clean(condition_name(a)),
        operand_name(a) == operand_name(b) ==> a == b,
{
    reveal_strlit("#var_");
    reveal_strlit("#if_");
    if operand_name(a) == operand_name(b) {
        lemma_numbered_same("#var_"@, a, b);
    }
}

/// Whether a chain of operand bindings gave the values of the first `n`
/// operands: the variables agree with the variables before on clean names,
/// and each operand is worth its value.
pub open spec fn operands_hold(
    r: Result<Map<Name, Value>, Fault>,
    vs: Seq<Value>,
    es: Seq<ExpV>,
    n: nat,
    c: nat,
    env: Map<Name, Value>,
) -> bool {
    r matches Ok(inner) && agree(env, inner) && vs.len() == n && forall|i: int|
        0 <= i < n ==> value_of(#[trigger] operands(es, c)[i], inner) == vs[i]
}

/// The sequential form of a straight expression is worth what the expression
/// is worth.
pub proof fn lemma_sequential_value(
    e: ExpV,
    c: nat,
    env: Map<Name, Value>,
    other: Map<Name, Value>,
)
    requires
        straight(e, false),
        tidy(e),
        agree(env, other),
    ensures
        eval(sequential(e, c), other) == value(e, env),
    decreases e, 1nat,
{
    match e {
        ExpV::Var(x) => {
            assert(clean(x));
            assert(other[x] == env[x]);
            assert(sequential(e, c) == SeqExpV::Imm(ImmV::Var(x)));
            assert(value_of(ImmV::Var(x), other) == other[x]);
        },
        ExpV::Prim(..) => {
            lemma_primitive_value(e, c, env, other);
        },
        ExpV::Let { .. } => {
            lemma_let_value(e, c, env, other);
        },
        ExpV::If { .. } => {
            lemma_conditional_value(e, c, env, other);
        },
        _ => {},
    }
}

/// [`lemma_sequential_value`] for a primitive.
pub proof fn lemma_primitive_value(
    e: ExpV,
    c: nat,
    env: Map<Name, Value>,
    other: Map<Name, Value>,
)
    requires
        e is Prim,
        straight(e, false),
        tidy(e),
        agree(env, other),
    ensures
        eval(sequential(e, c), other) == value(e, env),
    decreases e, 0nat,
{
    match e {
        ExpV::Prim(p, es) => {
            let ops = operands(es, c);
            let body = SeqExpV::Prim(p, ops);
            let front = operand_bindings(es, es.len(), c);
            lemma_operands_value(es, es.len(), c, env, other);
            lemma_eval_nest(front, body, other);
            match values(es, es.len(), env) {
                Ok(vs) => {
                    let inner = chain(front, other)->Ok_0;
                    assert(arg(ops, 0, inner) == nth(vs, 0));
                    assert(arg(ops, 1, inner) == nth(vs, 1));
                },
                Err(_) => {},
            }
        },
        _ => {},
    }
}

/// [`lemma_sequential_value`] for a `let`.
pub proof fn lemma_let_value(e: ExpV, c: nat, env: Map<Name, Value>, other: Map<Name, Value>)
    requires
        e is Let,
        straight(e, false),
        tidy(e),
        agree(env, other),
    ensures
        eval(sequential(e, c), other) == value(e, env),
    decreases e, 0nat,
{
    match e {
        ExpV::Let { bindings, body } => {
            let front = seq_bindings(bindings, c);
            let rest = c + sum_to(bindings.len(), binding_fresh_at(bindings));
            lemma_bindings_value(bindings, bindings.len(), c, env, other);
            assert(front.take(bindings.len() as int) =~= front);
            lemma_eval_nest(front, sequential(*body, rest), other);
            match bind(bindings, bindings.len(), env) {
                Ok(inner) => {
                    lemma_sequential_value(*body, rest, inner, chain(front, other)->Ok_0);
                },
                Err(_) => {},
            }
        },
        _ => {},
    }
}

/// [`lemma_sequential_value`] for a conditional.
pub proof fn lemma_conditional_value(
    e: ExpV,
    c: nat,
    env: Map<Name, Value>,
    other: Map<Name, Value>,
)
    requires
        e is If,
        straight(e, false),
        tidy(e),
        agree(env, other),
    ensures
        eval(sequential(e, c), other) == value(e, env),
    decreases e, 0nat,
{
    match e {
        ExpV::If { cond, thn, els } => {
            let name = condition_name(c + 1);
            lemma_operand_names(c + 1, c + 1);
            lemma_sequential_value(*cond, c + 1, env, other);
            match value(*cond, env) {
                Ok(v) => {
                    let inner = other.insert(name, v);
                    assert(agree(env, inner));
                    lemma_sequential_value(*thn, c + 1 + seq_fresh(*cond), env, inner);
                    lemma_sequential_value(
                        *els,
                        c + 1 + seq_fresh(*cond) + seq_fresh(*thn),
                        env,
                        inner,
                    );
                    assert(value_of(ImmV::Var(name), inner) == v);
                    let first = sequential(*thn, c + 1 + seq_fresh(*cond));
                    let second = sequential(*els, c + 1 + seq_fresh(*cond) + seq_fresh(*thn));
                    let pick = SeqExpV::If {
                        cond: ImmV::Var(name),
                        thn: Box::new(first),
                        els: Box::new(second),
                    };
                    assert(eval(pick, inner) == value(e, env));
                    assert(sequential(e, c) == SeqExpV::Let {
                        var: name,
                        bound_exp: Box::new(sequential(*cond, c + 1)),
                        body: Box::new(pick),
                    });
                },
                Err(_) => {},
            }
        },
        _ => {},
    }
}

/// The bindings in front of a primitive bind the values of its operands, from
/// left to right, or make the first error.
pub proof fn lemma_operands_value(
    es: Seq<ExpV>,
    n: nat,
    c: nat,
    env: Map<Name, Value>,
    other: Map<Name, Value>,
)
    requires
        n <= es.len(),
        forall|i: int| 0 <= i < es.len() ==> straight(#[trigger] es[i], false) && tidy(es[i]),
        agree(env, other),
    ensures
        match values(es, n, env) {
            Ok(vs) => operands_hold(chain(operand_bindings(es, n, c), other), vs, es, n, c, env),
            Err(f) => chain(operand_bindings(es, n, c), other) == Err::<Map<Name, Value>, Fault>(f),
        },
    decreases es, n,
{
    if n > 0 {
        let k = (n - 1) as nat;
        let f = operand_fresh_at(es);
        let e = es[k as int];
        let ck = c + sum_to(k, f);
        let prev = operand_bindings(es, k, c);
        let last = operand_binding(e, ck);
        lemma_operands_value(es, k, c, env, other);
        lemma_chain_add(prev, last, other);
        assert(straight(e, false) && tidy(e));
        match values(es, k, env) {
            Ok(vs) => {
                let inner = chain(prev, other)->Ok_0;
                assert(operands(es, c)[k as int] == operand(e, ck));
                if immediate(e) {
                    assert(chain(last, inner) == Ok::<Map<Name, Value>, Fault>(inner));
                    let v = value(e, env)->Ok_0;
                    match e {
                        ExpV::Var(x) => {
                            assert(clean(x));
                        },
                        _ => {},
                    }
                    assert(value_of(operand(e, ck), inner) == v);
                    assert(operands_hold(chain(prev + last, other), vs.push(v), es, n, c, env));
                } else {
                    let t = operand_name(ck + seq_fresh(e));
                    lemma_sequential_value(e, ck, env, inner);
                    lemma_chain_one(last[0], inner);
                    lemma_operand_names(ck + seq_fresh(e), ck + seq_fresh(e));
                    match value(e, env) {
                        Ok(v) => {
                            let after = inner.insert(t, v);
                            assert(chain(prev + last, other) == Ok::<Map<Name, Value>, Fault>(
                                after,
                            ));
                            assert forall|i: int| 0 <= i < n implies value_of(
                                #[trigger] operands(es, c)[i],
                                after,
                            ) == vs.push(v)[i] by {
                                if i < k {
                                    let ci = c + sum_to(i as nat, f);
                                    assert(operands(es, c)[i] == operand(es[i], ci));
                                    assert(tidy(es[i]));
                                    lemma_sum_to(i as nat, k + 1, f);
                                    if k > i + 1 {
                                        lemma_sum_to(i as nat, k, f);
                                    }
                                    lemma_operand_names(ci + seq_fresh(es[i]), ck + seq_fresh(e));
                                    match operand(es[i], ci) {
                                        ImmV::Var(y) => {
                                            assert(y != t);
                                        },
                                        _ => {},
                                    }
                                }
                            }
                            assert(operands_hold(
                                chain(prev + last, other),
                                vs.push(v),
                                es,
                                n,
                                c,
                                env,
                            ));
                        },
                        Err(_) => {},
                    }
                }
            },
            Err(_) => {},
        }
    }
}

/// The bindings of a `let` in sequential form bind what the bindings bind,
/// up to the names of the compiler, or make the first error.
pub proof fn lemma_bindings_value(
    bs: Seq<(Name, ExpV)>,
    n: nat,
    c: nat,
    env: Map<Name, Value>,
    other: Map<Name, Value>,
)
    requires
        n <= bs.len(),
        forall|i: int| 0 <= i < bs.len() ==> straight((#[trigger] bs[i]).1, false) && tidy(bs[i].1),
        agree(env, other),
    ensures
        match bind(bs, n, env) {
            Ok(inner) => chain(seq_bindings(bs, c).take(n as int), other) matches Ok(after)
                && agree(inner, after),
            Err(f) => chain(seq_bindings(bs, c).take(n as int), other) == Err::<
                Map<Name, Value>,
                Fault,
            >(f),
        },
    decreases bs, n,
{
    let all = seq_bindings(bs, c);
    if n == 0 {
        assert(all.take(0).len() == 0);
    } else {
        let k = (n - 1) as nat;
        let ck = c + sum_to(k, binding_fresh_at(bs));
        let prev = all.take(k as int);
        let last = seq![all[k as int]];
        assert(all.take(n as int) =~= prev + last);
        lemma_bindings_value(bs, k, c, env, other);
        lemma_chain_add(prev, last, other);
        assert(straight(bs[k as int].1, false) && tidy(bs[k as int].1));
        match bind(bs, k, env) {
            Ok(inner) => {
                let after = chain(prev, other)->Ok_0;
                lemma_chain_one(last[0], after);
                lemma_sequential_value(bs[k as int].1, ck, inner, after);
            },
            Err(_) => {},
        }
    }
}

/// The names in scope behind a chain of bindings.
pub open spec fn scope_after(bs: Seq<(Name, SeqExpV)>, scope: Set<Name>) -> Set<Name>
    decreases bs.len(),
{
    if bs.len() == 0 {
        scope
    } else {
        scope_after(bs.drop_first(), scope.insert(bs[0].0))
    }
}

/// Whether each value of a chain of bindings is simple and reads only what
/// is in scope before it.
pub open spec fn chain_grounded(bs: Seq<(Name, SeqExpV)>, scope: Set<Name>) -> bool
    decreases bs.len(),
{
    bs.len() == 0 || (simple(bs[0].1) && grounded(bs[0].1, scope) && chain_grounded(
        bs.drop_first(),
        scope.insert(bs[0].0),
    ))
}

/// A chain of bindings takes nothing out of scope.
pub proof fn lemma_scope_grows(bs: Seq<(Name, SeqExpV)>, scope: Set<Name>)
    ensures
        scope.subset_of(scope_after(bs, scope)),
    decreases bs.len(),
{
    if bs.len() > 0 {
        lemma_scope_grows(bs.drop_first(), scope.insert(bs[0].0));
    }
}

/// A chain of two grounded parts is grounded, and its scope is that of the
/// second part behind the first.
pub proof fn lemma_chain_grounded_add(
    a: Seq<(Name, SeqExpV)>,
    b: Seq<(Name, SeqExpV)>,
    scope: Set<Name>,
)
    requires
        chain_grounded(a, scope),
        chain_grounded(b, scope_after(a, scope)),
    ensures
        chain_grounded(a + b, scope),
        scope_after(a + b, scope) == scope_after(b, scope_after(a, scope)),
    decreases a.len(),
{
    if a.len() == 0 {
        assert(a + b =~= b);
    } else {
        assert((a + b)[0] == a[0]);
        assert((a + b).drop_first() =~= a.drop_first() + b);
        lemma_chain_grounded_add(a.drop_first(), b, scope.insert(a[0].0));
    }
}

/// A chain of one binding.
pub proof fn lemma_chain_grounded_one(b: (Name, SeqExpV), scope: Set<Name>)
    requires
        simple(b.1),
        grounded(b.1, scope),
    ensures
        chain_grounded(seq![b], scope),
        scope_after(seq![b], scope) == scope.insert(b.0),
{
    reveal_with_fuel(chain_grounded, 2);
    reveal_with_fuel(scope_after, 2);
    assert(seq![b].drop_first().len() == 0);
}

/// A simple body behind a grounded chain of `let`s is simple and grounded.
pub proof fn lemma_nest_grounded(bs: Seq<(Name, SeqExpV)>, body: SeqExpV, scope: Set<Name>)
    requires
        chain_grounded(bs, scope),
        simple(body),
        grounded(body, scope_after(bs, scope)),
    ensures
        simple(nest(bs, body)),
        grounded(nest(bs, body), scope),
    decreases bs.len(),
{
    if bs.len() > 0 {
        lemma_nest_grounded(bs.drop_first(), body, scope.insert(bs[0].0));
    }
}

/// An immediate that reads what is in scope reads what is in a wider scope.
pub proof fn lemma_imm_wider(i: ImmV, scope: Set<Name>, wider: Set<Name>)
    requires
        imm_ok(i, scope),
        scope.subset_of(wider),
    ensures
        imm_ok(i, wider),
{
}

/// The sequential form of a straight expression is simple, and reads only
/// the variables that the expression reads and those that it binds itself.
pub proof fn lemma_sequential_grounded(e: ExpV, c: nat, scope: Set<Name>, wider: Set<Name>)
    requires
        straight(e, false),
        scoped(e, scope),
        scope.subset_of(wider),
    ensures
        simple(sequential(e, c)),
        grounded(sequential(e, c), wider),
    decreases e, 1nat,
{
    match e {
        ExpV::Prim(p, es) => {
            let ops = operands(es, c);
            let front = operand_bindings(es, es.len(), c);
            lemma_operands_grounded(es, es.len(), c, scope, wider);
            lemma_nest_grounded(front, SeqExpV::Prim(p, ops), wider);
        },
        ExpV::Let { bindings, body } => {
            let front = seq_bindings(bindings, c);
            let rest = c + sum_to(bindings.len(), binding_fresh_at(bindings));
            lemma_bindings_grounded(bindings, bindings.len(), c, scope, wider);
            assert(front.take(bindings.len() as int) =~= front);
            assert(binding_names(bindings).take(bindings.len() as int) =~= binding_names(bindings));
            lemma_sequential_grounded(
                *body,
                rest,
                scope.union(binding_names(bindings).to_set()),
                scope_after(front, wider),
            );
            lemma_nest_grounded(front, sequential(*body, rest), wider);
        },
        ExpV::If { cond, thn, els } => {
            let name = condition_name(c + 1);
            let inner = wider.insert(name);
            lemma_sequential_grounded(*cond, c + 1, scope, wider);
            lemma_sequential_grounded(*thn, c + 1 + seq_fresh(*cond), scope, inner);
            lemma_sequential_grounded(*els, c + 1 + seq_fresh(*cond) + seq_fresh(*thn), scope, inner);
            let first = sequential(*thn, c + 1 + seq_fresh(*cond));
            let second = sequential(*els, c + 1 + seq_fresh(*cond) + seq_fresh(*thn));
            let pick = SeqExpV::If {
                cond: ImmV::Var(name),
                thn: Box::new(first),
                els: Box::new(second),
            };
            assert(simple(pick) && grounded(pick, inner));
            assert(sequential(e, c) == SeqExpV::Let {
                var: name,
                bound_exp: Box::new(sequential(*cond, c + 1)),
                body: Box::new(pick),
            });
        },
        _ => {},
    }
}

/// The bindings in front of a primitive are grounded, and behind them each
/// operand reads what is in scope.
pub proof fn lemma_operands_grounded(
    es: Seq<ExpV>,
    n: nat,
    c: nat,
    scope: Set<Name>,
    wider: Set<Name>,
)
    requires
        n <= es.len(),
        forall|i: int| 0 <= i < es.len() ==> straight(#[trigger] es[i], false) && scoped(es[i], scope),
        scope.subset_of(wider),
    ensures
        chain_grounded(operand_bindings(es, n, c), wider),
        forall|i: int|
            0 <= i < n ==> imm_ok(
                #[trigger] operands(es, c)[i],
                scope_after(operand_bindings(es, n, c), wider),
            ),
    decreases es, n,
{
    if n > 0 {
        let k = (n - 1) as nat;
        let e = es[k as int];
        let ck = c + sum_to(k, operand_fresh_at(es));
        let prev = operand_bindings(es, k, c);
        let last = operand_binding(e, ck);
        let before = scope_after(prev, wider);
        lemma_operands_grounded(es, k, c, scope, wider);
        lemma_scope_grows(prev, wider);
        assert(straight(e, false) && scoped(e, scope));
        assert(operands(es, c)[k as int] == operand(e, ck));
        if immediate(e) {
            assert(prev + last =~= prev);
        } else {
            lemma_sequential_grounded(e, ck, scope, before);
            lemma_chain_grounded_one(last[0], before);
            lemma_chain_grounded_add(prev, last, wider);
            let after = scope_after(prev + last, wider);
            assert forall|i: int| 0 <= i < k implies imm_ok(#[trigger] operands(es, c)[i], after) by {
                lemma_imm_wider(operands(es, c)[i], before, after);
            }
        }
    }
}

/// The bindings of a `let` in sequential form are grounded, and behind them
/// the names that the `let` binds are in scope.
pub proof fn lemma_bindings_grounded(
    bs: Seq<(Name, ExpV)>,
    n: nat,
    c: nat,
    scope: Set<Name>,
    wider: Set<Name>,
)
    requires
        n <= bs.len(),
        forall|i: int|
            0 <= i < bs.len() ==> straight((#[trigger] bs[i]).1, false) && scoped(
                bs[i].1,
                scope.union(binding_names(bs).take(i).to_set()),
            ),
        scope.subset_of(wider),
    ensures
        chain_grounded(seq_bindings(bs, c).take(n as int), wider),
        scope.union(binding_names(bs).take(n as int).to_set()).subset_of(
            scope_after(seq_bindings(bs, c).take(n as int), wider),
        ),
    decreases bs, n,
{
    let all = seq_bindings(bs, c);
    let names = binding_names(bs);
    if n == 0 {
        assert(all.take(0).len() == 0);
        assert(names.take(0).to_set() =~= Set::<Name>::empty());
    } else {
        let k = (n - 1) as nat;
        let ck = c + sum_to(k, binding_fresh_at(bs));
        let prev = all.take(k as int);
        let last = seq![all[k as int]];
        let before = scope_after(prev, wider);
        assert(all.take(n as int) =~= prev + last);
        lemma_bindings_grounded(bs, k, c, scope, wider);
        assert(straight(bs[k as int].1, false));
        lemma_sequential_grounded(
            bs[k as int].1,
            ck,
            scope.union(names.take(k as int).to_set()),
            before,
        );
        lemma_chain_grounded_one(last[0], before);
        lemma_chain_grounded_add(prev, last, wider);
        assert(names.take(n as int) =~= names.take(k as int).push(names[k as int]));
        assert(names.take(n as int).to_set() =~= names.take(k as int).to_set().insert(
            names[k as int],
        )) by {
            let a = names.take(k as int);
            let b = a.push(names[k as int]);
            assert forall|x: Name| b.to_set().contains(x) <==> a.to_set().insert(
                names[k as int],
            ).contains(x) by {
                if b.contains(x) {
                    let j = choose|j: int| 0 <= j < b.len() && b[j] == x;
                    if j < a.len() {
                        assert(a[j] == x);
                        assert(a.contains(x));
                    }
                }
                if a.contains(x) {
                    let j = choose|j: int| 0 <= j < a.len() && a[j] == x;
                    assert(b[j] == x);
                }
                if x == names[k as int] {
                    assert(b[k as int] == x);
                }
            }
        }
    }
}

} // verus!
