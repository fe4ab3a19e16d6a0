//! What holds of every uniquified program: no name is bound twice, and
//! uniquifying it again changes nothing.

use vstd::prelude::*;
use crate::syntax::{ExpV, FunDeclV, Name, Stage, all_in_stage, binders, binders_at, binding_binders_at, binding_names, decl_binders_at, decl_names, in_stage, lemma_sum_to, lemma_sum_to_eq, sum_to};
use crate::text::lemma_decimal_injective;
use crate::uniquify::{bind_all, fresh, fresh_names, let_map, uniq, uniq_bindings, uniq_decls, uniq_list};

verus! {

/// 1 if a binder called `name` binds `x`, else 0.
pub open spec fn named(name: Name, x: Name) -> nat {
    if name == x {
        1
    } else {
        0
    }
}

/// [`named`] for each name of a list.
pub open spec fn named_at(names: Seq<Name>, x: Name) -> spec_fn(int) -> nat {
    |i: int|
        if 0 <= i < names.len() {
            named(names[i], x)
        } else {
            0
        }
}

/// How often `x` occurs in a list of names.
pub open spec fn count_in(names: Seq<Name>, x: Name) -> nat {
    sum_to(names.len(), named_at(names, x))
}

/// How many binders of an expression bind the name `x`.
pub open spec fn bound(e: ExpV, x: Name) -> nat
    decreases e,
{
    match e {
        ExpV::Num(_) | ExpV::Bool(_) | ExpV::Var(_) => 0,
        ExpV::Prim(_, es) => sum_to(es.len(), bound_at(es, x)),
        ExpV::Let { bindings, body } => sum_to(bindings.len(), binding_bound_at(bindings, x))
            + bound(*body, x),
        ExpV::If { cond, thn, els } => bound(*cond, x) + bound(*thn, x) + bound(*els, x),
        ExpV::Semicolon { e1, e2 } => bound(*e1, x) + bound(*e2, x),
        ExpV::FunDefs { decls, body } => sum_to(decls.len(), decl_bound_at(decls, x)) + bound(
            *body,
            x,
        ),
        ExpV::Call(f, args) => bound(*f, x) + sum_to(args.len(), bound_at(args, x)),
        ExpV::Lambda { parameters, body } => count_in(parameters, x) + bound(*body, x),
        ExpV::MakeClosure { env, .. } => bound(*env, x),
        ExpV::ClosureCall(f, args) => bound(*f, x) + sum_to(args.len(), bound_at(args, x)),
        ExpV::DirectCall(_, args) => sum_to(args.len(), bound_at(args, x)),
        ExpV::InternalTailCall(_, args) => sum_to(args.len(), bound_at(args, x)),
        ExpV::ExternalCall { args, .. } => sum_to(args.len(), bound_at(args, x)),
    }
}

/// [`bound`] for each expression of a list.
pub open spec fn bound_at(es: Seq<ExpV>, x: Name) -> spec_fn(int) -> nat
    decreases es,
{
    |i: int|
        if 0 <= i < es.len() {
            bound(es[i], x)
        } else {
            0
        }
}

/// [`bound`] for each binding of a `let`: its own name and its value.
pub open spec fn binding_bound_at(bs: Seq<(Name, ExpV)>, x: Name) -> spec_fn(int) -> nat
    decreases bs,
{
    |i: int|
        if 0 <= i < bs.len() {
            named(bs[i].0, x) + bound(bs[i].1, x)
        } else {
            0
        }
}

/// [`bound`] for each function of a group: its name, its parameters and its
/// body.
pub open spec fn decl_bound_at(ds: Seq<FunDeclV>, x: Name) -> spec_fn(int) -> nat
    decreases ds,
{
    |i: int|
        if 0 <= i < ds.len() {
            named(ds[i].name, x) + count_in(ds[i].parameters, x) + bound(ds[i].body, x)
        } else {
            0
        }
}

/// 1 if `x` is the name of a binder numbered above `lo` and up to `hi`,
/// else 0.
pub open spec fn drawn(x: Name, lo: nat, hi: nat) -> nat {
    if exists|k: nat| lo < k <= hi && #[trigger] fresh(k) == x {
        1
    } else {
        0
    }
}

/// Two ranges of numbers that meet make one range.
pub proof fn lemma_drawn_add(x: Name, lo: nat, mid: nat, hi: nat)
    requires
        lo <= mid <= hi,
    ensures
        drawn(x, lo, mid) + drawn(x, mid, hi) == drawn(x, lo, hi),
{
    if drawn(x, lo, mid) == 1 {
        let k = choose|k: nat| lo < k <= mid && #[trigger] fresh(k) == x;
        assert(lo < k <= hi && fresh(k) == x);
        if drawn(x, mid, hi) == 1 {
            let j = choose|j: nat| mid < j <= hi && #[trigger] fresh(j) == x;
            lemma_decimal_injective(k, j);
        }
    } else if drawn(x, mid, hi) == 1 {
        let j = choose|j: nat| mid < j <= hi && #[trigger] fresh(j) == x;
        assert(lo < j <= hi && fresh(j) == x);
    } else if drawn(x, lo, hi) == 1 {
        let k = choose|k: nat| lo < k <= hi && #[trigger] fresh(k) == x;
        if k <= mid {
            assert(lo < k <= mid && fresh(k) == x);
        } else {
            assert(mid < k <= hi && fresh(k) == x);
        }
    }
}

/// The binder numbered `k` is the only one in the range that ends with it.
pub proof fn lemma_drawn_one(x: Name, k: nat)
    requires
        k > 0,
    ensures
        named(fresh(k), x) == drawn(x, (k - 1) as nat, k),
{
    if fresh(k) == x {
        let lo = (k - 1) as nat;
        assert(lo < k <= k && fresh(k) == x);
    }
}

/// Terms that each count the binders of the next range of numbers add up to
/// the count over the whole range. `w` gives the width of each range.
pub proof fn lemma_drawn_sum(
    x: Name,
    c: nat,
    n: nat,
    f: spec_fn(int) -> nat,
    w: spec_fn(int) -> nat,
)
    requires
        forall|i: int|
            0 <= i < n ==> #[trigger] f(i) == drawn(
                x,
                c + sum_to(i as nat, w),
                c + sum_to(i as nat, w) + w(i),
            ),
    ensures
        sum_to(n, f) == drawn(x, c, c + sum_to(n, w)),
    decreases n,
{
    if n > 0 {
        lemma_drawn_sum(x, c, (n - 1) as nat, f, w);
        assert(f(n - 1) == drawn(
            x,
            c + sum_to((n - 1) as nat, w),
            c + sum_to((n - 1) as nat, w) + w(n - 1),
        ));
        lemma_drawn_add(x, c, c + sum_to((n - 1) as nat, w), c + sum_to(n, w));
    }
}

/// A sum of sums is the sum of the sums.
pub proof fn lemma_sum_split(
    n: nat,
    f: spec_fn(int) -> nat,
    g: spec_fn(int) -> nat,
    h: spec_fn(int) -> nat,
)
    requires
        forall|i: int| 0 <= i < n ==> #[trigger] f(i) == g(i) + h(i),
    ensures
        sum_to(n, f) == sum_to(n, g) + sum_to(n, h),
    decreases n,
{
    if n > 0 {
        lemma_sum_split((n - 1) as nat, f, g, h);
    }
}

/// The width of one name.
pub open spec fn one() -> spec_fn(int) -> nat {
    |i: int| 1nat
}

/// A sum of ones counts them.
pub proof fn lemma_sum_ones(n: nat)
    ensures
        sum_to(n, one()) == n,
    decreases n,
{
    if n > 0 {
        lemma_sum_ones((n - 1) as nat);
    }
}

/// Among `k` fresh names in a row, a name occurs once if it is one of them.
pub proof fn lemma_fresh_names_count(x: Name, c: nat, k: nat)
    ensures
        count_in(fresh_names(c, k), x) == drawn(x, c, c + k),
{
    let names = fresh_names(c, k);
    assert forall|i: int| 0 <= i < k implies #[trigger] named_at(names, x)(i) == drawn(
        x,
        c + sum_to(i as nat, one()),
        c + sum_to(i as nat, one()) + one()(i),
    ) by {
        lemma_sum_ones(i as nat);
        lemma_drawn_one(x, (c + i + 1) as nat);
    }
    lemma_drawn_sum(x, c, k, named_at(names, x), one());
    lemma_sum_ones(k);
}

/// After uniquification, the binders that bind `x` are as many as there are
/// numbers in the range of the counter whose name is `x`: one or none.
#[verifier::rlimit(50)]
pub proof fn lemma_bound_uniq(e: ExpV, m: Map<Name, u32>, c: nat, x: Name)
    requires
        in_stage(e, Stage::Surface),
    ensures
        bound(uniq(e, m, c), x) == drawn(x, c, c + binders(e)),
    decreases e,
{
    match e {
        ExpV::Num(_) | ExpV::Bool(_) | ExpV::Var(_) => {},
        ExpV::Prim(_, es) => {
            lemma_bound_uniq_list(es, m, c, x);
        },
        ExpV::Call(f, args) => {
            lemma_bound_uniq(*f, m, c, x);
            lemma_bound_uniq_list(args, m, c + binders(*f), x);
            lemma_drawn_add(x, c, c + binders(*f), c + binders(e));
        },
        ExpV::If { cond, thn, els } => {
            lemma_bound_uniq(*cond, m, c, x);
            lemma_bound_uniq(*thn, m, c + binders(*cond), x);
            lemma_bound_uniq(*els, m, c + binders(*cond) + binders(*thn), x);
            lemma_drawn_add(x, c, c + binders(*cond), c + binders(*cond) + binders(*thn));
            lemma_drawn_add(x, c, c + binders(*cond) + binders(*thn), c + binders(e));
        },
        ExpV::Semicolon { e1, e2 } => {
            lemma_bound_uniq(*e1, m, c + 1, x);
            lemma_bound_uniq(*e2, m, c + 1 + binders(*e1), x);
            let bs = seq![(fresh(c + 1), uniq(*e1, m, c + 1))];
            let f = binding_bound_at(bs, x);
            assert(sum_to(1, f) == sum_to(0, f) + f(0));
            lemma_drawn_one(x, c + 1);
            lemma_drawn_add(x, c, c + 1, c + 1 + binders(*e1));
            lemma_drawn_add(x, c, c + 1 + binders(*e1), c + binders(e));
        },
        ExpV::Lambda { parameters, body } => {
            let k = parameters.len();
            lemma_fresh_names_count(x, c, k);
            lemma_bound_uniq(*body, bind_all(parameters, m, c, k), c + k, x);
            lemma_drawn_add(x, c, c + k, c + binders(e));
        },
        ExpV::Let { bindings, body } => {
            let n = bindings.len();
            let w = binding_binders_at(bindings);
            let out = uniq_bindings(bindings, m, c);
            let f = binding_bound_at(out, x);
            assert forall|i: int| 0 <= i < n implies #[trigger] f(i) == drawn(
                x,
                c + sum_to(i as nat, w),
                c + sum_to(i as nat, w) + w(i),
            ) by {
                let ci = c + sum_to(i as nat, w);
                lemma_bound_uniq(bindings[i].1, let_map(bindings, m, c, i as nat), ci + 1, x);
                lemma_drawn_one(x, ci + 1);
                lemma_drawn_add(x, ci, ci + 1, ci + w(i));
            }
            lemma_drawn_sum(x, c, n, f, w);
            lemma_bound_uniq(*body, let_map(bindings, m, c, n), c + sum_to(n, w), x);
            lemma_drawn_add(x, c, c + sum_to(n, w), c + binders(e));
        },
        ExpV::FunDefs { decls, body } => {
            let n = decls.len();
            let w = decl_binders_at(decls);
            let inner = bind_all(decl_names(decls), m, c, n);
            let out = uniq_decls(decls, inner, c);
            let f = decl_bound_at(out, x);
            let g = named_at(fresh_names(c, n), x);
            let h = |i: int|
                if 0 <= i < n {
                    count_in(out[i].parameters, x) + bound(out[i].body, x)
                } else {
                    0
                };
            assert forall|i: int| 0 <= i < n implies #[trigger] f(i) == g(i) + h(i) by {}
            lemma_sum_split(n, f, g, h);
            lemma_fresh_names_count(x, c, n);
            assert forall|i: int| 0 <= i < n implies #[trigger] h(i) == drawn(
                x,
                c + n + sum_to(i as nat, w),
                c + n + sum_to(i as nat, w) + w(i),
            ) by {
                let ci = c + n + sum_to(i as nat, w);
                let k = decls[i].parameters.len();
                lemma_fresh_names_count(x, ci, k);
                lemma_bound_uniq(
                    decls[i].body,
                    bind_all(decls[i].parameters, inner, ci, k),
                    ci + k,
                    x,
                );
                lemma_drawn_add(x, ci, ci + k, ci + w(i));
            }
            lemma_drawn_sum(x, c + n, n, h, w);
            lemma_bound_uniq(*body, inner, c + n + sum_to(n, w), x);
            lemma_drawn_add(x, c, c + n, c + n + sum_to(n, w));
            lemma_drawn_add(x, c, c + n + sum_to(n, w), c + binders(e));
        },
        _ => {},
    }
}

/// [`lemma_bound_uniq`] for a list of expressions.
pub proof fn lemma_bound_uniq_list(es: Seq<ExpV>, m: Map<Name, u32>, c: nat, x: Name)
    requires
        crate::syntax::all_in_stage(es, Stage::Surface),
    ensures
        sum_to(es.len(), bound_at(uniq_list(es, m, c), x)) == drawn(
            x,
            c,
            c + sum_to(es.len(), binders_at(es)),
        ),
    decreases es,
{
    let w = binders_at(es);
    let f = bound_at(uniq_list(es, m, c), x);
    assert forall|i: int| 0 <= i < es.len() implies #[trigger] f(i) == drawn(
        x,
        c + sum_to(i as nat, w),
        c + sum_to(i as nat, w) + w(i),
    ) by {
        lemma_bound_uniq(es[i], m, c + sum_to(i as nat, w), x);
    }
    lemma_drawn_sum(x, c, es.len(), f, w);
}

/// After uniquification no two binders share a name: whatever the name,
/// at most one binder of the uniquified program binds it.
pub proof fn lemma_uniquify_binds_once(e: ExpV, m: Map<Name, u32>, c: nat, x: Name)
    requires
        in_stage(e, Stage::Surface),
    ensures
        bound(uniq(e, m, c), x) <= 1,
{
    lemma_bound_uniq(e, m, c, x);
}


/// After uniquification no binder has a name that was drawn from the counter
/// before: the names of the binders are new.
pub proof fn lemma_uniquify_binds_anew(e: ExpV, m: Map<Name, u32>, c: nat, k: nat)
    requires
        in_stage(e, Stage::Surface),
        k <= c,
    ensures
        bound(uniq(e, m, c), fresh(k)) == 0,
{
    let x = fresh(k);
    lemma_bound_uniq(e, m, c, x);
    if exists|j: nat| c < j <= c + binders(e) && #[trigger] fresh(j) == x {
        let j = choose|j: nat| c < j <= c + binders(e) && #[trigger] fresh(j) == x;
        crate::text::lemma_decimal_injective(j, k);
    }
}

/// Uniquification binds as many names as the program did.
pub proof fn lemma_uniq_binders(e: ExpV, m: Map<Name, u32>, c: nat)
    ensures
        binders(uniq(e, m, c)) == binders(e),
    decreases e,
{
    match e {
        ExpV::Prim(_, es) => {
            lemma_uniq_list_binders(es, m, c);
            let out = uniq_list(es, m, c);
            assert(sum_to(es.len(), binders_at(out)) == sum_to(es.len(), binders_at(es)));
        },
        ExpV::Call(f, args) => {
            lemma_uniq_binders(*f, m, c);
            lemma_uniq_list_binders(args, m, c + binders(*f));
            let out = uniq_list(args, m, c + binders(*f));
            assert(sum_to(args.len(), binders_at(out)) == sum_to(args.len(), binders_at(args)));
        },
        ExpV::If { cond, thn, els } => {
            lemma_uniq_binders(*cond, m, c);
            lemma_uniq_binders(*thn, m, c + binders(*cond));
            lemma_uniq_binders(*els, m, c + binders(*cond) + binders(*thn));
        },
        ExpV::Semicolon { e1, e2 } => {
            lemma_uniq_binders(*e1, m, c + 1);
            lemma_uniq_binders(*e2, m, c + 1 + binders(*e1));
            let bs = seq![(fresh(c + 1), uniq(*e1, m, c + 1))];
            let f = binding_binders_at(bs);
            assert(sum_to(1, f) == sum_to(0, f) + f(0));
        },
        ExpV::Lambda { parameters, body } => {
            lemma_uniq_binders(
                *body,
                bind_all(parameters, m, c, parameters.len()),
                c + parameters.len(),
            );
        },
        ExpV::Let { bindings, body } => {
            let n = bindings.len();
            let w = binding_binders_at(bindings);
            let out = uniq_bindings(bindings, m, c);
            assert forall|i: int| 0 <= i < n implies #[trigger] binding_binders_at(out)(i) == w(
                i,
            ) by {
                lemma_uniq_binders(
                    bindings[i].1,
                    let_map(bindings, m, c, i as nat),
                    c + sum_to(i as nat, w) + 1,
                );
            }
            lemma_sum_to_eq(n, binding_binders_at(out), w);
            lemma_uniq_binders(*body, let_map(bindings, m, c, n), c + sum_to(n, w));
        },
        ExpV::FunDefs { decls, body } => {
            let n = decls.len();
            let w = decl_binders_at(decls);
            let inner = bind_all(decl_names(decls), m, c, n);
            let out = uniq_decls(decls, inner, c);
            assert forall|i: int| 0 <= i < n implies #[trigger] decl_binders_at(out)(i) == w(i) by {
                let ci = c + n + sum_to(i as nat, w);
                let k = decls[i].parameters.len();
                lemma_uniq_binders(
                    decls[i].body,
                    bind_all(decls[i].parameters, inner, ci, k),
                    ci + k,
                );
            }
            lemma_sum_to_eq(n, decl_binders_at(out), w);
            lemma_uniq_binders(*body, inner, c + n + sum_to(n, w));
        },
        _ => {},
    }
}

/// [`lemma_uniq_binders`] for a list of expressions, and for each of its
/// prefixes.
pub proof fn lemma_uniq_list_binders(es: Seq<ExpV>, m: Map<Name, u32>, c: nat)
    ensures
        forall|n: nat|
            n <= es.len() ==> #[trigger] sum_to(n, binders_at(uniq_list(es, m, c))) == sum_to(
                n,
                binders_at(es),
            ),
    decreases es,
{
    let w = binders_at(es);
    let f = binders_at(uniq_list(es, m, c));
    assert forall|i: int| 0 <= i < es.len() implies #[trigger] f(i) == w(i) by {
        lemma_uniq_binders(es[i], m, c + sum_to(i as nat, w));
    }
    assert forall|n: nat| n <= es.len() implies #[trigger] sum_to(n, f) == sum_to(n, w) by {
        lemma_sum_to_eq(n, f, w);
    }
}

/// Whether every variable of an expression is in scope, given the names in
/// scope around it.
pub open spec fn scoped(e: ExpV, scope: Set<Name>) -> bool
    decreases e,
{
    match e {
        ExpV::Var(x) => scope.contains(x),
        ExpV::Prim(_, es) => forall|i: int| 0 <= i < es.len() ==> scoped(#[trigger] es[i], scope),
        ExpV::Let { bindings, body } => (forall|i: int|
            0 <= i < bindings.len() ==> scoped(
                (#[trigger] bindings[i]).1,
                scope.union(binding_names(bindings).take(i).to_set()),
            )) && scoped(*body, scope.union(binding_names(bindings).to_set())),
        ExpV::If { cond, thn, els } => scoped(*cond, scope) && scoped(*thn, scope) && scoped(
            *els,
            scope,
        ),
        ExpV::Semicolon { e1, e2 } => scoped(*e1, scope) && scoped(*e2, scope),
        ExpV::FunDefs { decls, body } => {
            let inner = scope.union(decl_names(decls).to_set());
            (forall|i: int|
                0 <= i < decls.len() ==> scoped(
                    (#[trigger] decls[i]).body,
                    inner.union(decls[i].parameters.to_set()),
                )) && scoped(*body, inner)
        },
        ExpV::Call(f, args) => scoped(*f, scope) && forall|i: int|
            0 <= i < args.len() ==> scoped(#[trigger] args[i], scope),
        ExpV::Lambda { parameters, body } => scoped(*body, scope.union(parameters.to_set())),
        _ => true,
    }
}

/// Whether a second mapping sends the name of every binder that a first
/// mapping knows back to the number of that binder.
#[verifier::opaque]
pub open spec fn agrees(m: Map<Name, u32>, m2: Map<Name, u32>) -> bool {
    forall|v: Name| #[trigger]
        m.contains_key(v) ==> m2.contains_key(fresh(m[v] as nat)) && m2[fresh(m[v] as nat)] == m[v]
}

/// Binding a name in the first mapping and the binder's new name in the
/// second keeps them in agreement.
pub proof fn lemma_agrees_insert(m: Map<Name, u32>, m2: Map<Name, u32>, x: Name, id: u32)
    requires
        agrees(m, m2),
    ensures
        agrees(m.insert(x, id), m2.insert(fresh(id as nat), id)),
        agrees(m, m2.insert(fresh(id as nat), id)),
{
    reveal(agrees);
    let a = m.insert(x, id);
    let b = m2.insert(fresh(id as nat), id);
    assert forall|v: Name| #[trigger] a.contains_key(v) implies b.contains_key(fresh(a[v] as nat))
        && b[fresh(a[v] as nat)] == a[v] by {
        if v != x {
            assert(m.contains_key(v));
            if fresh(m[v] as nat) == fresh(id as nat) {
                lemma_decimal_injective(m[v] as nat, id as nat);
            }
        }
    }
    assert forall|v: Name| #[trigger] m.contains_key(v) implies b.contains_key(fresh(m[v] as nat))
        && b[fresh(m[v] as nat)] == m[v] by {
        if fresh(m[v] as nat) == fresh(id as nat) {
            lemma_decimal_injective(m[v] as nat, id as nat);
        }
    }
}

/// Binding names in a row in the first mapping and their new names in the
/// second keeps the mappings in agreement, and puts the names in scope.
#[verifier::rlimit(50)]
pub proof fn lemma_agrees_bind_all(
    names: Seq<Name>,
    m: Map<Name, u32>,
    m2: Map<Name, u32>,
    c: nat,
    n: nat,
)
    requires
        agrees(m, m2),
        n <= names.len(),
        c + n <= u32::MAX,
    ensures
        agrees(bind_all(names, m, c, n), bind_all(fresh_names(c, names.len()), m2, c, n)),
        bind_all(names, m, c, n).dom() == m.dom().union(names.take(n as int).to_set()),
    decreases n,
{
    if n == 0 {
        assert(names.take(0).to_set() =~= Set::<Name>::empty());
        assert(m.dom().union(Set::<Name>::empty()) =~= m.dom());
    } else {
        lemma_agrees_bind_all(names, m, m2, c, (n - 1) as nat);
        lemma_agrees_insert(
            bind_all(names, m, c, (n - 1) as nat),
            bind_all(fresh_names(c, names.len()), m2, c, (n - 1) as nat),
            names[n - 1],
            (c + n) as u32,
        );
        assert(names.take(n as int) =~= names.take(n - 1).push(names[n - 1]));
        names.take(n - 1).lemma_push_to_set_commute(names[n - 1]);
        assert(bind_all(names, m, c, n).dom() =~= m.dom().union(names.take(n as int).to_set()));
    }
}

/// The bindings of a `let` keep the mappings in agreement: the first maps
/// the names of the program, the second the names after uniquification.
#[verifier::rlimit(50)]
pub proof fn lemma_agrees_let_map(
    bs: Seq<(Name, ExpV)>,
    m: Map<Name, u32>,
    m2: Map<Name, u32>,
    c: nat,
    n: nat,
)
    requires
        agrees(m, m2),
        n <= bs.len(),
        c + sum_to(n, binding_binders_at(bs)) <= u32::MAX,
    ensures
        agrees(let_map(bs, m, c, n), let_map(uniq_bindings(bs, m, c), m2, c, n)),
        let_map(bs, m, c, n).dom() == m.dom().union(binding_names(bs).take(n as int).to_set()),
    decreases n,
{
    let names = binding_names(bs);
    if n == 0 {
        assert(names.take(0).to_set() =~= Set::<Name>::empty());
        assert(m.dom().union(Set::<Name>::empty()) =~= m.dom());
    } else {
        let w = binding_binders_at(bs);
        let out = uniq_bindings(bs, m, c);
        lemma_sum_to((n - 1) as nat, n, w);
        lemma_agrees_let_map(bs, m, m2, c, (n - 1) as nat);
        lemma_uniq_bindings_binders(bs, m, c, (n - 1) as nat);
        let id = (c + sum_to((n - 1) as nat, w) + 1) as u32;
        lemma_agrees_insert(
            let_map(bs, m, c, (n - 1) as nat),
            let_map(out, m2, c, (n - 1) as nat),
            bs[n - 1].0,
            id,
        );
        assert(names.take(n as int) =~= names.take(n - 1).push(names[n - 1]));
        names.take(n - 1).lemma_push_to_set_commute(names[n - 1]);
        assert(let_map(bs, m, c, n).dom() =~= m.dom().union(names.take(n as int).to_set()));
    }
}

/// The bindings of a `let` after uniquification bind as many names as
/// before, and so do the first `n` of them.
pub proof fn lemma_uniq_bindings_binders(bs: Seq<(Name, ExpV)>, m: Map<Name, u32>, c: nat, n: nat)
    requires
        n <= bs.len(),
    ensures
        sum_to(n, binding_binders_at(uniq_bindings(bs, m, c))) == sum_to(n, binding_binders_at(bs)),
{
    let w = binding_binders_at(bs);
    let out = uniq_bindings(bs, m, c);
    assert forall|i: int| 0 <= i < n implies #[trigger] binding_binders_at(out)(i) == w(i) by {
        lemma_uniq_binders(bs[i].1, let_map(bs, m, c, i as nat), c + sum_to(i as nat, w) + 1);
    }
    lemma_sum_to_eq(n, binding_binders_at(out), w);
}

/// The functions of a group after uniquification bind as many names as
/// before, and so do the first `n` of them.
pub proof fn lemma_uniq_decls_binders(ds: Seq<FunDeclV>, m: Map<Name, u32>, c: nat, n: nat)
    requires
        n <= ds.len(),
    ensures
        sum_to(n, decl_binders_at(uniq_decls(ds, m, c))) == sum_to(n, decl_binders_at(ds)),
{
    let w = decl_binders_at(ds);
    let out = uniq_decls(ds, m, c);
    assert forall|i: int| 0 <= i < n implies #[trigger] decl_binders_at(out)(i) == w(i) by {
        let ci = c + ds.len() + sum_to(i as nat, w);
        let k = ds[i].parameters.len();
        lemma_uniq_binders(ds[i].body, bind_all(ds[i].parameters, m, ci, k), ci + k);
    }
    lemma_sum_to_eq(n, decl_binders_at(out), w);
}

/// Uniquifying what is uniquified already changes nothing, if the counter
/// starts where it started before and the second mapping agrees with the
/// first.
pub proof fn lemma_uniq_again(e: ExpV, m: Map<Name, u32>, m2: Map<Name, u32>, c: nat)
    requires
        scoped(e, m.dom()),
        agrees(m, m2),
        c + binders(e) <= u32::MAX,
    ensures
        uniq(uniq(e, m, c), m2, c) == uniq(e, m, c),
    decreases e, 1nat,
{
    match e {
        ExpV::Var(_) | ExpV::Prim(..) | ExpV::Call(..) | ExpV::If { .. } => {
            lemma_uniq_again_plain(e, m, m2, c);
        },
        ExpV::Semicolon { .. } => {
            lemma_uniq_again_semicolon(e, m, m2, c);
        },
        ExpV::Lambda { .. } => {
            lemma_uniq_again_lambda(e, m, m2, c);
        },
        ExpV::Let { .. } => {
            lemma_uniq_again_let(e, m, m2, c);
        },
        ExpV::FunDefs { .. } => {
            lemma_uniq_again_fundefs(e, m, m2, c);
        },
        _ => {},
    }
}

/// [`lemma_uniq_again`] for a variable, a primitive, a call and a conditional.
#[verifier::rlimit(50)]
pub proof fn lemma_uniq_again_plain(e: ExpV, m: Map<Name, u32>, m2: Map<Name, u32>, c: nat)
    requires
        e is Var || e is Prim || e is Call || e is If,
        scoped(e, m.dom()),
        agrees(m, m2),
        c + binders(e) <= u32::MAX,
    ensures
        uniq(uniq(e, m, c), m2, c) == uniq(e, m, c),
    decreases e, 0nat,
{
    match e {
        ExpV::Var(x) => {
            reveal(agrees);
            assert(m.contains_key(x));
        },
        ExpV::Prim(p, es) => {
            lemma_uniq_list_again(es, m, m2, c);
        },
        ExpV::Call(f, args) => {
            lemma_uniq_again(*f, m, m2, c);
            lemma_uniq_binders(*f, m, c);
            lemma_uniq_list_again(args, m, m2, c + binders(*f));
        },
        ExpV::If { cond, thn, els } => {
            lemma_uniq_binders(*cond, m, c);
            lemma_uniq_binders(*thn, m, c + binders(*cond));
            lemma_uniq_again(*cond, m, m2, c);
            lemma_uniq_again(*thn, m, m2, c + binders(*cond));
            lemma_uniq_again(*els, m, m2, c + binders(*cond) + binders(*thn));
        },
        _ => {},
    }
}

/// [`lemma_uniq_again`] for a sequencing.
#[verifier::rlimit(50)]
pub proof fn lemma_uniq_again_semicolon(e: ExpV, m: Map<Name, u32>, m2: Map<Name, u32>, c: nat)
    requires
        e is Semicolon,
        scoped(e, m.dom()),
        agrees(m, m2),
        c + binders(e) <= u32::MAX,
    ensures
        uniq(uniq(e, m, c), m2, c) == uniq(e, m, c),
    decreases e, 0nat,
{
    match e {
        ExpV::Semicolon { e1, e2 } => {
            let first = uniq(*e1, m, c + 1);
            let bs = seq![(fresh(c + 1), first)];
            let w = binding_binders_at(bs);
            lemma_uniq_binders(*e1, m, c + 1);
            lemma_uniq_again(*e1, m, m2, c + 1);
            lemma_agrees_insert(m, m2, fresh(c + 1), (c + 1) as u32);
            assert(sum_to(1, w) == sum_to(0, w) + w(0));
            let again = m2.insert(fresh(c + 1), (c + 1) as u32);
            assert(let_map(bs, m2, c, 1) == let_map(bs, m2, c, 0).insert(
                bs[0].0,
                (c + sum_to(0, w) + 1) as u32,
            ));
            lemma_uniq_again(*e2, m, again, c + 1 + binders(*e1));
            assert(uniq_bindings(bs, m2, c) =~= bs);
        },
        _ => {},
    }
}

/// [`lemma_uniq_again`] for a lambda.
#[verifier::rlimit(50)]
pub proof fn lemma_uniq_again_lambda(e: ExpV, m: Map<Name, u32>, m2: Map<Name, u32>, c: nat)
    requires
        e is Lambda,
        scoped(e, m.dom()),
        agrees(m, m2),
        c + binders(e) <= u32::MAX,
    ensures
        uniq(uniq(e, m, c), m2, c) == uniq(e, m, c),
    decreases e, 0nat,
{
    match e {
        ExpV::Lambda { parameters, body } => {
            let k = parameters.len();
            lemma_agrees_bind_all(parameters, m, m2, c, k);
            assert(parameters.take(k as int) =~= parameters);
            lemma_uniq_again(
                *body,
                bind_all(parameters, m, c, k),
                bind_all(fresh_names(c, k), m2, c, k),
                c + k,
            );
            assert(fresh_names(c, fresh_names(c, k).len()) =~= fresh_names(c, k));
        },
        _ => {},
    }
}

/// [`lemma_uniq_again`] for a `let`.
#[verifier::rlimit(50)]
pub proof fn lemma_uniq_again_let(e: ExpV, m: Map<Name, u32>, m2: Map<Name, u32>, c: nat)
    requires
        e is Let,
        scoped(e, m.dom()),
        agrees(m, m2),
        c + binders(e) <= u32::MAX,
    ensures
        uniq(uniq(e, m, c), m2, c) == uniq(e, m, c),
    decreases e, 0nat,
{
    match e {
        ExpV::Let { bindings, body } => {
            let n = bindings.len();
            let w = binding_binders_at(bindings);
            let out = uniq_bindings(bindings, m, c);
            let names = binding_names(bindings);
            assert forall|i: int| 0 <= i < n implies #[trigger] uniq_bindings(out, m2, c)[i]
                == out[i] by {
                assert(scoped(bindings[i].1, m.dom().union(names.take(i).to_set())));
                lemma_uniq_again_binding(bindings, i, m, m2, c);
            }
            assert(uniq_bindings(out, m2, c) =~= out);
            lemma_uniq_bindings_binders(bindings, m, c, n);
            lemma_agrees_let_map(bindings, m, m2, c, n);
            assert(names.take(n as int) =~= names);
            lemma_uniq_again(
                *body,
                let_map(bindings, m, c, n),
                let_map(out, m2, c, n),
                c + sum_to(n, w),
            );
        },
        _ => {},
    }
}

/// [`lemma_uniq_again`] for a group of functions.
#[verifier::rlimit(50)]
pub proof fn lemma_uniq_again_fundefs(e: ExpV, m: Map<Name, u32>, m2: Map<Name, u32>, c: nat)
    requires
        e is FunDefs,
        scoped(e, m.dom()),
        agrees(m, m2),
        c + binders(e) <= u32::MAX,
    ensures
        uniq(uniq(e, m, c), m2, c) == uniq(e, m, c),
    decreases e, 0nat,
{
    match e {
        ExpV::FunDefs { decls, body } => {
            let n = decls.len();
            let w = decl_binders_at(decls);
            let names = decl_names(decls);
            let inner = bind_all(names, m, c, n);
            let out = uniq_decls(decls, inner, c);
            lemma_agrees_bind_all(names, m, m2, c, n);
            assert(names.take(n as int) =~= names);
            assert(decl_names(out) =~= fresh_names(c, n));
            let inner2 = bind_all(decl_names(out), m2, c, n);
            assert forall|i: int| 0 <= i < n implies #[trigger] uniq_decls(out, inner2, c)[i]
                == out[i] by {
                lemma_uniq_again_decl(decls, i, m, m2, c);
            }
            assert(uniq_decls(out, inner2, c) =~= out);
            lemma_uniq_decls_binders(decls, inner, c, n);
            lemma_uniq_again(*body, inner, inner2, c + n + sum_to(n, w));
        },
        _ => {},
    }
}

/// [`lemma_uniq_again`] for one binding of a `let`: `m` and `m2` are the
/// mappings around the `let`.
#[verifier::rlimit(50)]
pub proof fn lemma_uniq_again_binding(
    bindings: Seq<(Name, ExpV)>,
    i: int,
    m: Map<Name, u32>,
    m2: Map<Name, u32>,
    c: nat,
)
    requires
        0 <= i < bindings.len(),
        scoped(bindings[i].1, m.dom().union(binding_names(bindings).take(i).to_set())),
        agrees(m, m2),
        c + sum_to(bindings.len(), binding_binders_at(bindings)) <= u32::MAX,
    ensures
        uniq_bindings(uniq_bindings(bindings, m, c), m2, c)[i] == uniq_bindings(bindings, m, c)[i],
    decreases bindings, 0nat,
{
    let n = bindings.len();
    let w = binding_binders_at(bindings);
    let out = uniq_bindings(bindings, m, c);
    lemma_sum_to(i as nat, n, w);
    lemma_uniq_bindings_binders(bindings, m, c, i as nat);
    lemma_agrees_let_map(bindings, m, m2, c, i as nat);
    lemma_uniq_again(
        bindings[i].1,
        let_map(bindings, m, c, i as nat),
        let_map(out, m2, c, i as nat),
        c + sum_to(i as nat, w) + 1,
    );
}

/// [`lemma_uniq_again`] for one function of a group: `m` and `m2` are the
/// mappings around the group.
#[verifier::rlimit(50)]
pub proof fn lemma_uniq_again_decl(
    decls: Seq<FunDeclV>,
    i: int,
    m: Map<Name, u32>,
    m2: Map<Name, u32>,
    c: nat,
)
    requires
        0 <= i < decls.len(),
        scoped(
            decls[i].body,
            m.dom().union(decl_names(decls).to_set()).union(decls[i].parameters.to_set()),
        ),
        agrees(m, m2),
        c + decls.len() + sum_to(decls.len(), decl_binders_at(decls)) <= u32::MAX,
    ensures
        ({
            let inner = bind_all(decl_names(decls), m, c, decls.len());
            let out = uniq_decls(decls, inner, c);
            let inner2 = bind_all(decl_names(out), m2, c, decls.len());
            uniq_decls(out, inner2, c)[i] == out[i]
        }),
    decreases decls, 0nat,
{
    let n = decls.len();
    let w = decl_binders_at(decls);
    let names = decl_names(decls);
    let inner = bind_all(names, m, c, n);
    let out = uniq_decls(decls, inner, c);
    lemma_agrees_bind_all(names, m, m2, c, n);
    assert(names.take(n as int) =~= names);
    assert(decl_names(out) =~= fresh_names(c, n));
    let inner2 = bind_all(decl_names(out), m2, c, n);
    lemma_sum_to(i as nat, n, w);
    lemma_uniq_decls_binders(decls, inner, c, i as nat);
    let ci = c + n + sum_to(i as nat, w);
    let ps = decls[i].parameters;
    let k = ps.len();
    lemma_agrees_bind_all(ps, inner, inner2, ci, k);
    assert(ps.take(k as int) =~= ps);
    assert(fresh_names(ci, fresh_names(ci, k).len()) =~= fresh_names(ci, k));
    lemma_uniq_again(
        decls[i].body,
        bind_all(ps, inner, ci, k),
        bind_all(fresh_names(ci, k), inner2, ci, k),
        ci + k,
    );
}

/// [`lemma_uniq_again`] for a list of expressions.
pub proof fn lemma_uniq_list_again(es: Seq<ExpV>, m: Map<Name, u32>, m2: Map<Name, u32>, c: nat)
    requires
        forall|i: int| 0 <= i < es.len() ==> scoped(#[trigger] es[i], m.dom()),
        agrees(m, m2),
        c + sum_to(es.len(), binders_at(es)) <= u32::MAX,
    ensures
        uniq_list(uniq_list(es, m, c), m2, c) == uniq_list(es, m, c),
    decreases es, 0nat,
{
    let w = binders_at(es);
    let out = uniq_list(es, m, c);
    lemma_uniq_list_binders(es, m, c);
    assert forall|i: int| 0 <= i < es.len() implies #[trigger] uniq_list(out, m2, c)[i]
        == out[i] by {
        lemma_sum_to(i as nat, es.len(), w);
        assert(sum_to(i as nat, binders_at(out)) == sum_to(i as nat, w));
        lemma_uniq_again(es[i], m, m2, c + sum_to(i as nat, w));
    }
    assert(uniq_list(out, m2, c) =~= out);
}

/// Uniquification is idempotent: for a program in which every variable is
/// bound, running it twice from the same counter gives the tree that running
/// it once gives, and so a tree that is alpha-equivalent to it.
pub proof fn lemma_uniquify_idempotent(e: ExpV, c: nat)
    requires
        scoped(e, Set::empty()),
        c + binders(e) <= u32::MAX,
    ensures
        uniq(uniq(e, Map::empty(), c), Map::empty(), c) == uniq(e, Map::empty(), c),
{
    assert(Map::<Name, u32>::empty().dom() =~= Set::<Name>::empty());
    assert(agrees(Map::empty(), Map::empty())) by {
        reveal(agrees);
    }
    lemma_uniq_again(e, Map::empty(), Map::empty(), c);
}


/// What is in scope with some names in scope is in scope with more.
pub proof fn lemma_scoped_mono(e: ExpV, a: Set<Name>, b: Set<Name>)
    requires
        scoped(e, a),
        a.subset_of(b),
    ensures
        scoped(e, b),
    decreases e,
{
    match e {
        ExpV::Prim(_, es) => {
            assert forall|i: int| 0 <= i < es.len() implies scoped(#[trigger] es[i], b) by {
                lemma_scoped_mono(es[i], a, b);
            }
        },
        ExpV::Let { bindings, body } => {
            let names = binding_names(bindings);
            assert forall|i: int| 0 <= i < bindings.len() implies scoped(
                (#[trigger] bindings[i]).1,
                b.union(names.take(i).to_set()),
            ) by {
                lemma_scoped_mono(
                    bindings[i].1,
                    a.union(names.take(i).to_set()),
                    b.union(names.take(i).to_set()),
                );
            }
            lemma_scoped_mono(*body, a.union(names.to_set()), b.union(names.to_set()));
        },
        ExpV::If { cond, thn, els } => {
            lemma_scoped_mono(*cond, a, b);
            lemma_scoped_mono(*thn, a, b);
            lemma_scoped_mono(*els, a, b);
        },
        ExpV::Semicolon { e1, e2 } => {
            lemma_scoped_mono(*e1, a, b);
            lemma_scoped_mono(*e2, a, b);
        },
        ExpV::FunDefs { decls, body } => {
            let names = decl_names(decls).to_set();
            assert forall|i: int| 0 <= i < decls.len() implies scoped(
                (#[trigger] decls[i]).body,
                b.union(names).union(decls[i].parameters.to_set()),
            ) by {
                lemma_scoped_mono(
                    decls[i].body,
                    a.union(names).union(decls[i].parameters.to_set()),
                    b.union(names).union(decls[i].parameters.to_set()),
                );
            }
            lemma_scoped_mono(*body, a.union(names), b.union(names));
        },
        ExpV::Call(f, args) => {
            lemma_scoped_mono(*f, a, b);
            assert forall|i: int| 0 <= i < args.len() implies scoped(#[trigger] args[i], b) by {
                lemma_scoped_mono(args[i], a, b);
            }
        },
        ExpV::Lambda { parameters, body } => {
            lemma_scoped_mono(*body, a.union(parameters.to_set()), b.union(parameters.to_set()));
        },
        _ => {},
    }
}

/// The names that the binders known to a mapping have after uniquification.
pub open spec fn renamed(m: Map<Name, u32>) -> Set<Name> {
    Set::new(|y: Name| exists|v: Name| m.contains_key(v) && #[trigger] fresh(m[v] as nat) == y)
}

/// Binding one more name adds at most the new name of its binder.
pub proof fn lemma_renamed_insert(m: Map<Name, u32>, x: Name, id: u32)
    ensures
        renamed(m.insert(x, id)).subset_of(renamed(m).insert(fresh(id as nat))),
{
    let after = m.insert(x, id);
    assert forall|y: Name| renamed(after).contains(y) implies renamed(m).insert(
        fresh(id as nat),
    ).contains(y) by {
        let v = choose|v: Name| after.contains_key(v) && #[trigger] fresh(after[v] as nat) == y;
        if v != x {
            assert(m.contains_key(v) && fresh(m[v] as nat) == y);
        }
    }
}

/// Binding names in a row adds at most the new names of their binders, and
/// puts the names in scope.
pub proof fn lemma_renamed_bind_all(names: Seq<Name>, m: Map<Name, u32>, c: nat, n: nat)
    requires
        n <= names.len(),
        c + n <= u32::MAX,
    ensures
        renamed(bind_all(names, m, c, n)).subset_of(
            renamed(m).union(fresh_names(c, names.len()).take(n as int).to_set()),
        ),
        bind_all(names, m, c, n).dom() == m.dom().union(names.take(n as int).to_set()),
    decreases n,
{
    let new_names = fresh_names(c, names.len());
    if n == 0 {
        assert(names.take(0).to_set() =~= Set::<Name>::empty());
        assert(m.dom().union(Set::<Name>::empty()) =~= m.dom());
    } else {
        let prev = bind_all(names, m, c, (n - 1) as nat);
        lemma_renamed_bind_all(names, m, c, (n - 1) as nat);
        lemma_renamed_insert(prev, names[n - 1], (c + n) as u32);
        assert(new_names.take(n as int) =~= new_names.take(n - 1).push(fresh(c + n)));
        new_names.take(n - 1).lemma_push_to_set_commute(fresh(c + n));
        assert(names.take(n as int) =~= names.take(n - 1).push(names[n - 1]));
        names.take(n - 1).lemma_push_to_set_commute(names[n - 1]);
        assert(bind_all(names, m, c, n).dom() =~= m.dom().union(names.take(n as int).to_set()));
    }
}

/// The bindings of a `let` add at most the new names of their binders, and
/// put the names in scope.
pub proof fn lemma_renamed_let_map(bs: Seq<(Name, ExpV)>, m: Map<Name, u32>, c: nat, n: nat)
    requires
        n <= bs.len(),
        c + sum_to(n, binding_binders_at(bs)) <= u32::MAX,
    ensures
        renamed(let_map(bs, m, c, n)).subset_of(
            renamed(m).union(binding_names(uniq_bindings(bs, m, c)).take(n as int).to_set()),
        ),
        let_map(bs, m, c, n).dom() == m.dom().union(binding_names(bs).take(n as int).to_set()),
    decreases n,
{
    let names = binding_names(bs);
    let new_names = binding_names(uniq_bindings(bs, m, c));
    if n == 0 {
        assert(names.take(0).to_set() =~= Set::<Name>::empty());
        assert(m.dom().union(Set::<Name>::empty()) =~= m.dom());
    } else {
        let w = binding_binders_at(bs);
        let prev = let_map(bs, m, c, (n - 1) as nat);
        let id = c + sum_to((n - 1) as nat, w) + 1;
        lemma_sum_to((n - 1) as nat, n, w);
        lemma_renamed_let_map(bs, m, c, (n - 1) as nat);
        lemma_renamed_insert(prev, bs[n - 1].0, id as u32);
        assert(new_names[n - 1] == fresh(id));
        assert(new_names.take(n as int) =~= new_names.take(n - 1).push(fresh(id)));
        new_names.take(n - 1).lemma_push_to_set_commute(fresh(id));
        assert(names.take(n as int) =~= names.take(n - 1).push(names[n - 1]));
        names.take(n - 1).lemma_push_to_set_commute(names[n - 1]);
        assert(let_map(bs, m, c, n).dom() =~= m.dom().union(names.take(n as int).to_set()));
    }
}

/// Uniquification keeps every variable in scope: a program in which every
/// variable is bound is one after it, under the new names.
pub proof fn lemma_uniq_scoped(e: ExpV, m: Map<Name, u32>, c: nat)
    requires
        scoped(e, m.dom()),
        c + binders(e) <= u32::MAX,
    ensures
        scoped(uniq(e, m, c), renamed(m)),
    decreases e, 1nat,
{
    let scope = renamed(m);
    match e {
        ExpV::Var(x) => {
            assert(m.contains_key(x) && fresh(m[x] as nat) == fresh(m[x] as nat));
            assert(renamed(m).contains(fresh(m[x] as nat)));
        },
        ExpV::Prim(p, es) => {
            lemma_uniq_list_scoped(es, m, c);
            let out = uniq_list(es, m, c);
            assert(uniq(e, m, c) == ExpV::Prim(p, out));
            assert forall|i: int| 0 <= i < out.len() implies scoped(#[trigger] out[i], scope) by {}
        },
        ExpV::Call(f, args) => {
            lemma_uniq_scoped(*f, m, c);
            lemma_uniq_list_scoped(args, m, c + binders(*f));
            let out = uniq_list(args, m, c + binders(*f));
            assert(uniq(e, m, c) == ExpV::Call(Box::new(uniq(*f, m, c)), out));
            assert forall|i: int| 0 <= i < out.len() implies scoped(#[trigger] out[i], scope) by {}
        },
        ExpV::If { cond, thn, els } => {
            lemma_uniq_scoped(*cond, m, c);
            lemma_uniq_scoped(*thn, m, c + binders(*cond));
            lemma_uniq_scoped(*els, m, c + binders(*cond) + binders(*thn));
        },
        ExpV::Semicolon { e1, e2 } => {
            let bs = seq![(fresh(c + 1), uniq(*e1, m, c + 1))];
            let names = binding_names(bs);
            lemma_uniq_scoped(*e1, m, c + 1);
            lemma_uniq_scoped(*e2, m, c + 1 + binders(*e1));
            lemma_scoped_mono(bs[0].1, scope, scope.union(names.take(0).to_set()));
            lemma_scoped_mono(uniq(*e2, m, c + 1 + binders(*e1)), scope, scope.union(names.to_set()));
        },
        ExpV::Lambda { parameters, body } => {
            let k = parameters.len();
            let inner = bind_all(parameters, m, c, k);
            lemma_renamed_bind_all(parameters, m, c, k);
            assert(parameters.take(k as int) =~= parameters);
            assert(fresh_names(c, k).take(k as int) =~= fresh_names(c, k));
            lemma_uniq_scoped(*body, inner, c + k);
            lemma_scoped_mono(
                uniq(*body, inner, c + k),
                renamed(inner),
                scope.union(fresh_names(c, k).to_set()),
            );
        },
        ExpV::Let { .. } => {
            lemma_uniq_let_scoped(e, m, c);
        },
        ExpV::FunDefs { .. } => {
            lemma_uniq_fundefs_scoped(e, m, c);
        },
        _ => {},
    }
}

/// [`lemma_uniq_scoped`] for a list of expressions.
pub proof fn lemma_uniq_list_scoped(es: Seq<ExpV>, m: Map<Name, u32>, c: nat)
    requires
        forall|i: int| 0 <= i < es.len() ==> scoped(#[trigger] es[i], m.dom()),
        c + sum_to(es.len(), binders_at(es)) <= u32::MAX,
    ensures
        forall|i: int|
            0 <= i < es.len() ==> scoped(#[trigger] uniq_list(es, m, c)[i], renamed(m)),
    decreases es, 0nat,
{
    assert forall|i: int| 0 <= i < es.len() implies scoped(
        #[trigger] uniq_list(es, m, c)[i],
        renamed(m),
    ) by {
        lemma_sum_to(i as nat, es.len(), binders_at(es));
        lemma_uniq_scoped(es[i], m, c + sum_to(i as nat, binders_at(es)));
    }
}

/// [`lemma_uniq_scoped`] for a `let`.
#[verifier::rlimit(50)]
pub proof fn lemma_uniq_let_scoped(e: ExpV, m: Map<Name, u32>, c: nat)
    requires
        e is Let,
        scoped(e, m.dom()),
        c + binders(e) <= u32::MAX,
    ensures
        scoped(uniq(e, m, c), renamed(m)),
    decreases e, 0nat,
{
    let scope = renamed(m);
    match e {
        ExpV::Let { bindings, body } => {
            let n = bindings.len();
            let w = binding_binders_at(bindings);
            let names = binding_names(bindings);
            let out = uniq_bindings(bindings, m, c);
            let new_names = binding_names(out);
            assert forall|i: int| 0 <= i < n implies scoped(
                (#[trigger] out[i]).1,
                scope.union(new_names.take(i).to_set()),
            ) by {
                let inner = let_map(bindings, m, c, i as nat);
                lemma_sum_to(i as nat, n, w);
                lemma_renamed_let_map(bindings, m, c, i as nat);
                assert(scoped(bindings[i].1, m.dom().union(names.take(i).to_set())));
                lemma_uniq_scoped(bindings[i].1, inner, c + sum_to(i as nat, w) + 1);
                lemma_scoped_mono(out[i].1, renamed(inner), scope.union(new_names.take(i).to_set()));
            }
            let inner = let_map(bindings, m, c, n);
            lemma_renamed_let_map(bindings, m, c, n);
            assert(names.take(n as int) =~= names);
            assert(new_names.take(n as int) =~= new_names);
            lemma_uniq_scoped(*body, inner, c + sum_to(n, w));
            lemma_scoped_mono(
                uniq(*body, inner, c + sum_to(n, w)),
                renamed(inner),
                scope.union(new_names.to_set()),
            );
        },
        _ => {},
    }
}

/// [`lemma_uniq_scoped`] for a group of functions.
#[verifier::rlimit(50)]
pub proof fn lemma_uniq_fundefs_scoped(e: ExpV, m: Map<Name, u32>, c: nat)
    requires
        e is FunDefs,
        scoped(e, m.dom()),
        c + binders(e) <= u32::MAX,
    ensures
        scoped(uniq(e, m, c), renamed(m)),
    decreases e, 0nat,
{
    let scope = renamed(m);
    match e {
        ExpV::FunDefs { decls, body } => {
            let n = decls.len();
            let w = decl_binders_at(decls);
            let names = decl_names(decls);
            let inner = bind_all(names, m, c, n);
            let out = uniq_decls(decls, inner, c);
            lemma_renamed_bind_all(names, m, c, n);
            assert(names.take(n as int) =~= names);
            assert(decl_names(out) =~= fresh_names(c, n));
            assert(fresh_names(c, n).take(n as int) =~= fresh_names(c, n));
            let group = scope.union(decl_names(out).to_set());
            assert forall|i: int| 0 <= i < n implies scoped(
                (#[trigger] out[i]).body,
                group.union(out[i].parameters.to_set()),
            ) by {
                let ci = c + n + sum_to(i as nat, w);
                let ps = decls[i].parameters;
                let k = ps.len();
                let own = bind_all(ps, inner, ci, k);
                lemma_sum_to(i as nat, n, w);
                lemma_renamed_bind_all(ps, inner, ci, k);
                assert(ps.take(k as int) =~= ps);
                assert(fresh_names(ci, k).take(k as int) =~= fresh_names(ci, k));
                assert(scoped(decls[i].body, m.dom().union(names.to_set()).union(ps.to_set())));
                lemma_uniq_scoped(decls[i].body, own, ci + k);
                lemma_scoped_mono(
                    out[i].body,
                    renamed(own),
                    group.union(out[i].parameters.to_set()),
                );
            }
            lemma_uniq_scoped(*body, inner, c + n + sum_to(n, w));
            lemma_scoped_mono(uniq(*body, inner, c + n + sum_to(n, w)), renamed(inner), group);
        },
        _ => {},
    }
}

/// Uniquification leaves no sequencing behind: a surface program becomes a
/// program of the next stage.
pub proof fn lemma_uniq_stage(e: ExpV, m: Map<Name, u32>, c: nat)
    requires
        in_stage(e, Stage::Surface),
    ensures
        in_stage(uniq(e, m, c), Stage::Core),
    decreases e,
{
    match e {
        ExpV::Prim(_, es) => {
            lemma_uniq_list_stage(es, m, c);
        },
        ExpV::Call(f, args) => {
            lemma_uniq_stage(*f, m, c);
            lemma_uniq_list_stage(args, m, c + binders(*f));
        },
        ExpV::If { cond, thn, els } => {
            lemma_uniq_stage(*cond, m, c);
            lemma_uniq_stage(*thn, m, c + binders(*cond));
            lemma_uniq_stage(*els, m, c + binders(*cond) + binders(*thn));
        },
        ExpV::Semicolon { e1, e2 } => {
            lemma_uniq_stage(*e1, m, c + 1);
            lemma_uniq_stage(*e2, m, c + 1 + binders(*e1));
            let bs = seq![(fresh(c + 1), uniq(*e1, m, c + 1))];
            assert(in_stage(bs[0].1, Stage::Core));
        },
        ExpV::Lambda { parameters, body } => {
            lemma_uniq_stage(
                *body,
                bind_all(parameters, m, c, parameters.len()),
                c + parameters.len(),
            );
        },
        ExpV::Let { bindings, body } => {
            let w = binding_binders_at(bindings);
            let out = uniq_bindings(bindings, m, c);
            assert forall|i: int| 0 <= i < out.len() implies in_stage(
                (#[trigger] out[i]).1,
                Stage::Core,
            ) by {
                assert(in_stage(bindings[i].1, Stage::Surface));
                lemma_uniq_stage(
                    bindings[i].1,
                    let_map(bindings, m, c, i as nat),
                    c + sum_to(i as nat, w) + 1,
                );
            }
            lemma_uniq_stage(
                *body,
                let_map(bindings, m, c, bindings.len()),
                c + sum_to(bindings.len(), w),
            );
        },
        ExpV::FunDefs { decls, body } => {
            let n = decls.len();
            let w = decl_binders_at(decls);
            let inner = bind_all(decl_names(decls), m, c, n);
            let out = uniq_decls(decls, inner, c);
            assert forall|i: int| 0 <= i < out.len() implies in_stage(
                (#[trigger] out[i]).body,
                Stage::Core,
            ) by {
                let ci = c + n + sum_to(i as nat, w);
                let k = decls[i].parameters.len();
                assert(in_stage(decls[i].body, Stage::Surface));
                lemma_uniq_stage(
                    decls[i].body,
                    bind_all(decls[i].parameters, inner, ci, k),
                    ci + k,
                );
            }
            lemma_uniq_stage(*body, inner, c + n + sum_to(n, w));
        },
        _ => {},
    }
}

/// [`lemma_uniq_stage`] for a list of expressions.
pub proof fn lemma_uniq_list_stage(es: Seq<ExpV>, m: Map<Name, u32>, c: nat)
    requires
        all_in_stage(es, Stage::Surface),
    ensures
        all_in_stage(uniq_list(es, m, c), Stage::Core),
    decreases es,
{
    assert forall|i: int| 0 <= i < es.len() implies in_stage(
        #[trigger] uniq_list(es, m, c)[i],
        Stage::Core,
    ) by {
        lemma_uniq_stage(es[i], m, c + sum_to(i as nat, binders_at(es)));
    }
}


/// Uniquification is idempotent on every program that the checker accepts.
pub proof fn lemma_accepted_idempotent<Span>(p: crate::syntax::Exp<Span>)
    requires
        crate::checker::check(p, Set::empty()) is None,
        binders(p@) <= u32::MAX,
    ensures
        uniq(uniq(p@, Map::empty(), 0), Map::empty(), 0) == uniq(p@, Map::empty(), 0),
{
    crate::checker::lemma_checked_scoped(p, Set::empty());
    lemma_uniquify_idempotent(p@, 0);
}

} // verus!
