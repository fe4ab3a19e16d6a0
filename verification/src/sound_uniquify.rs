//! Uniquification keeps the value: a straight expression in which every
//! variable is bound is worth the same under the new names, and what comes
//! out holds no sequencing and no name that the compiler could make up.

use vstd::prelude::*;
use crate::meaning::Value;
use crate::renaming::{lemma_renamed_let_map, scoped};
use crate::source::{bind, clean, straight, tidy, value, values};
use crate::syntax::{ExpV, Name, binders, binders_at, binding_binders_at, binding_names, lemma_sum_to, sum_to};
use crate::text::{decimal, lemma_decimal_injective};
use crate::uniquify::{fresh, let_map, uniq, uniq_bindings, uniq_list};

verus! {

/// Whether `other` binds the new name of each variable in scope to what
/// `env` binds the variable to; `c` is the counter, which no number in `m`
/// is above.
pub open spec fn related(
    m: Map<Name, u32>,
    env: Map<Name, Value>,
    other: Map<Name, Value>,
    c: nat,
) -> bool {
    forall|x: Name| #[trigger]
        m.contains_key(x) ==> m[x] as nat <= c && other[fresh(m[x] as nat)] == env[x]
}

/// A number in decimal begins with a digit.
pub proof fn lemma_decimal_first(n: nat)
    ensures
        decimal(n).len() > 0,
        decimal(n)[0] != '#',
        decimal(n)[0] != 'l',
    decreases n,
{
    if n >= 10 {
        lemma_decimal_first(n / 10);
    }
}

/// The new name of a binder is clean, and two binders have the same new name
/// only if they have the same number.
pub proof fn lemma_fresh(a: nat, b: nat)
    ensures
        clean(fresh(a)),
        fresh(a) == fresh(b) ==> a == b,
{
    lemma_decimal_first(a);
    if fresh(a) == fresh(b) {
        lemma_decimal_injective(a, b);
    }
}

/// What is related at one counter is related at each later one.
pub proof fn lemma_related_later(
    m: Map<Name, u32>,
    env: Map<Name, Value>,
    other: Map<Name, Value>,
    c: nat,
    later: nat,
)
    requires
        related(m, env, other, c),
        c <= later,
    ensures
        related(m, env, other, later),
{
}

/// Binding a variable to the next number, and its new name to the same
/// value, keeps the bindings related.
pub proof fn lemma_related_insert(
    m: Map<Name, u32>,
    env: Map<Name, Value>,
    other: Map<Name, Value>,
    c: nat,
    x: Name,
    id: nat,
    v: Value,
)
    requires
        related(m, env, other, c),
        c < id <= u32::MAX,
    ensures
        related(m.insert(x, id as u32), env.insert(x, v), other.insert(fresh(id), v), id),
{
    let m2 = m.insert(x, id as u32);
    let env2 = env.insert(x, v);
    let other2 = other.insert(fresh(id), v);
    assert forall|y: Name| #[trigger] m2.contains_key(y) implies m2[y] as nat <= id && other2[fresh(
        m2[y] as nat,
    )] == env2[y] by {
        if y != x {
            assert(m.contains_key(y));
            lemma_fresh(m[y] as nat, id);
        }
    }
}

/// What uniquification makes of a straight expression in which every
/// variable is bound holds no sequencing, and each of its variables has a
/// clean name.
pub proof fn lemma_uniq_straight(e: ExpV, m: Map<Name, u32>, c: nat)
    requires
        straight(e, true),
        scoped(e, m.dom()),
        c + binders(e) <= u32::MAX,
    ensures
        straight(uniq(e, m, c), false),
        tidy(uniq(e, m, c)),
    decreases e,
{
    match e {
        ExpV::Var(x) => {
            lemma_fresh(m[x] as nat, 0);
        },
        ExpV::Prim(_, es) => {
            let out = uniq_list(es, m, c);
            assert forall|i: int| 0 <= i < out.len() implies straight(#[trigger] out[i], false)
                && tidy(out[i]) by {
                lemma_sum_to(i as nat, es.len(), binders_at(es));
                assert(straight(es[i], true));
                lemma_uniq_straight(es[i], m, c + sum_to(i as nat, binders_at(es)));
            }
        },
        ExpV::Let { bindings, body } => {
            let n = bindings.len();
            let w = binding_binders_at(bindings);
            let out = uniq_bindings(bindings, m, c);
            assert forall|i: int| 0 <= i < out.len() implies straight((#[trigger] out[i]).1, false)
                && tidy(out[i].1) by {
                lemma_sum_to(i as nat, n, w);
                lemma_renamed_let_map(bindings, m, c, i as nat);
                assert(straight(bindings[i].1, true));
                lemma_uniq_straight(
                    bindings[i].1,
                    let_map(bindings, m, c, i as nat),
                    c + sum_to(i as nat, w) + 1,
                );
            }
            lemma_renamed_let_map(bindings, m, c, n);
            assert(binding_names(bindings).take(n as int) =~= binding_names(bindings));
            lemma_uniq_straight(*body, let_map(bindings, m, c, n), c + sum_to(n, w));
        },
        ExpV::If { cond, thn, els } => {
            lemma_uniq_straight(*cond, m, c);
            lemma_uniq_straight(*thn, m, c + binders(*cond));
            lemma_uniq_straight(*els, m, c + binders(*cond) + binders(*thn));
        },
        ExpV::Semicolon { e1, e2 } => {
            lemma_uniq_straight(*e1, m, c + 1);
            lemma_uniq_straight(*e2, m, c + 1 + binders(*e1));
            let first = uniq(*e1, m, c + 1);
            let bindings = seq![(fresh(c + 1), first)];
            assert(bindings[0].1 == first);
        },
        _ => {},
    }
}

/// A straight expression in which every variable is bound is worth the same
/// after uniquification, under the new names.
pub proof fn lemma_uniq_value(
    e: ExpV,
    m: Map<Name, u32>,
    c: nat,
    env: Map<Name, Value>,
    other: Map<Name, Value>,
)
    requires
        straight(e, true),
        scoped(e, m.dom()),
        related(m, env, other, c),
        c + binders(e) <= u32::MAX,
    ensures
        value(uniq(e, m, c), other) == value(e, env),
    decreases e, 1nat,
{
    match e {
        ExpV::Var(x) => {
            assert(m.contains_key(x));
        },
        ExpV::Prim(_, es) => {
            lemma_uniq_values(es, es.len(), m, c, env, other);
        },
        ExpV::Let { bindings, body } => {
            let n = bindings.len();
            let w = binding_binders_at(bindings);
            let out = uniq_bindings(bindings, m, c);
            lemma_uniq_bind(bindings, n, m, c, env, other);
            lemma_renamed_let_map(bindings, m, c, n);
            assert(binding_names(bindings).take(n as int) =~= binding_names(bindings));
            match bind(bindings, n, env) {
                Ok(inner) => {
                    let after = bind(out, n, other)->Ok_0;
                    lemma_uniq_value(*body, let_map(bindings, m, c, n), c + sum_to(n, w), inner, after);
                },
                Err(_) => {},
            }
        },
        ExpV::If { cond, thn, els } => {
            lemma_uniq_value(*cond, m, c, env, other);
            lemma_related_later(m, env, other, c, c + binders(*cond) + binders(*thn));
            lemma_uniq_value(*thn, m, c + binders(*cond), env, other);
            lemma_uniq_value(*els, m, c + binders(*cond) + binders(*thn), env, other);
        },
        ExpV::Semicolon { e1, e2 } => {
            lemma_uniq_sequence_value(e, m, c, env, other);
        },
        _ => {},
    }
}

/// [`lemma_uniq_value`] for sequencing, which becomes a `let`.
pub proof fn lemma_uniq_sequence_value(
    e: ExpV,
    m: Map<Name, u32>,
    c: nat,
    env: Map<Name, Value>,
    other: Map<Name, Value>,
)
    requires
        e is Semicolon,
        straight(e, true),
        scoped(e, m.dom()),
        related(m, env, other, c),
        c + binders(e) <= u32::MAX,
    ensures
        value(uniq(e, m, c), other) == value(e, env),
    decreases e, 0nat,
{
    match e {
        ExpV::Semicolon { e1, e2 } => {
            let first = uniq(*e1, m, c + 1);
            let second = uniq(*e2, m, c + 1 + binders(*e1));
            let bindings = seq![(fresh(c + 1), first)];
            lemma_related_later(m, env, other, c, c + 1);
            lemma_uniq_value(*e1, m, c + 1, env, other);
            reveal_with_fuel(bind, 2);
            assert(bindings[0] == (fresh(c + 1), first));
            assert(bind(bindings, 0, other) == Ok::<Map<Name, Value>, crate::meaning::Fault>(other));
            match value(*e1, env) {
                Ok(v) => {
                    let after = other.insert(fresh(c + 1), v);
                    assert(bind(bindings, 1, other) == Ok::<Map<Name, Value>, crate::meaning::Fault>(
                        after,
                    ));
                    assert forall|x: Name| #[trigger] m.contains_key(x) implies m[x] as nat <= c + 1
                        + binders(*e1) && after[fresh(m[x] as nat)] == env[x] by {
                        lemma_fresh(m[x] as nat, c + 1);
                    }
                    lemma_uniq_value(*e2, m, c + 1 + binders(*e1), env, after);
                },
                Err(_) => {},
            }
        },
        _ => {},
    }
}

/// [`lemma_uniq_value`] for the first `n` expressions of a list.
pub proof fn lemma_uniq_values(
    es: Seq<ExpV>,
    n: nat,
    m: Map<Name, u32>,
    c: nat,
    env: Map<Name, Value>,
    other: Map<Name, Value>,
)
    requires
        n <= es.len(),
        forall|i: int| 0 <= i < es.len() ==> straight(#[trigger] es[i], true) && scoped(es[i], m.dom()),
        related(m, env, other, c),
        c + sum_to(es.len(), binders_at(es)) <= u32::MAX,
    ensures
        values(uniq_list(es, m, c), n, other) == values(es, n, env),
    decreases es, n,
{
    if n > 0 {
        let k = (n - 1) as nat;
        let ck = c + sum_to(k, binders_at(es));
        lemma_uniq_values(es, k, m, c, env, other);
        lemma_sum_to(k, es.len(), binders_at(es));
        lemma_related_later(m, env, other, c, ck);
        assert(straight(es[k as int], true));
        lemma_uniq_value(es[k as int], m, ck, env, other);
        assert(uniq_list(es, m, c)[k as int] == uniq(es[k as int], m, ck));
    }
}

/// [`lemma_uniq_value`] for the first `n` bindings of a `let`: they bind the
/// new names to what the bindings bind the names to, or make the same error.
pub proof fn lemma_uniq_bind(
    bs: Seq<(Name, ExpV)>,
    n: nat,
    m: Map<Name, u32>,
    c: nat,
    env: Map<Name, Value>,
    other: Map<Name, Value>,
)
    requires
        n <= bs.len(),
        forall|i: int|
            0 <= i < bs.len() ==> straight((#[trigger] bs[i]).1, true) && scoped(
                bs[i].1,
                m.dom().union(binding_names(bs).take(i).to_set()),
            ),
        related(m, env, other, c),
        c + sum_to(bs.len(), binding_binders_at(bs)) <= u32::MAX,
    ensures
        match bind(bs, n, env) {
            Ok(inner) => bind(uniq_bindings(bs, m, c), n, other) matches Ok(after) && related(
                let_map(bs, m, c, n),
                inner,
                after,
                c + sum_to(n, binding_binders_at(bs)),
            ),
            Err(f) => bind(uniq_bindings(bs, m, c), n, other) == Err::<
                Map<Name, Value>,
                crate::meaning::Fault,
            >(f),
        },
    decreases bs, n,
{
    if n > 0 {
        let k = (n - 1) as nat;
        let w = binding_binders_at(bs);
        let ck = c + sum_to(k, w);
        let out = uniq_bindings(bs, m, c);
        let inner_map = let_map(bs, m, c, k);
        lemma_uniq_bind(bs, k, m, c, env, other);
        lemma_sum_to(k, bs.len(), w);
        lemma_renamed_let_map(bs, m, c, k);
        assert(straight(bs[k as int].1, true));
        assert(out[k as int] == (fresh(ck + 1), uniq(bs[k as int].1, inner_map, ck + 1)));
        match bind(bs, k, env) {
            Ok(inner) => {
                let after = bind(out, k, other)->Ok_0;
                lemma_related_later(inner_map, inner, after, ck, ck + 1);
                lemma_uniq_value(bs[k as int].1, inner_map, ck + 1, inner, after);
                match value(bs[k as int].1, inner) {
                    Ok(v) => {
                        lemma_related_insert(inner_map, inner, after, ck, bs[k as int].0, ck + 1, v);
                        lemma_related_later(
                            let_map(bs, m, c, n),
                            inner.insert(bs[k as int].0, v),
                            after.insert(fresh(ck + 1), v),
                            ck + 1,
                            c + sum_to(n, w),
                        );
                    },
                    Err(_) => {},
                }
            },
            Err(_) => {},
        }
    }
}

} // verus!
