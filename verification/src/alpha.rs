//! Uniquification renames and does nothing else: what comes out is the
//! program that went in, up to the names of its bound variables. So a
//! second run, from whatever counter, gives a program that is the first
//! run's up to the names of bound variables.

use vstd::prelude::*;
use crate::renaming::{lemma_renamed_bind_all, lemma_renamed_let_map, lemma_uniq_binders, lemma_uniq_scoped, lemma_uniq_stage, renamed, scoped};
use crate::syntax::{ExpV, Name, Stage, all_in_stage, binders, binders_at, binding_binders_at, binding_names, decl_binders_at, decl_names, in_stage, lemma_sum_to, sum_to};
use crate::text::lemma_decimal_injective;
use crate::uniquify::{bind_all, fresh, fresh_names, let_map, uniq, uniq_bindings, uniq_decls, uniq_list};

verus! {

/// The renaming `r` with the first `n` of `xs` sent to the names at the same
/// places of `ys`, a later one over an earlier one.
pub open spec fn paired(r: Map<Name, Name>, xs: Seq<Name>, ys: Seq<Name>, n: nat) -> Map<Name, Name>
    decreases n,
{
    if n == 0 || n > xs.len() || n > ys.len() {
        r
    } else {
        paired(r, xs, ys, (n - 1) as nat).insert(xs[n - 1], ys[n - 1])
    }
}

/// Whether a use of `x` on one side and a use of `y` on the other refer to
/// the same binder: the renaming sends `x` to `y`, and no other name in
/// scope to `y`.
pub open spec fn refers(r: Map<Name, Name>, x: Name, y: Name) -> bool {
    r.contains_key(x) && r[x] == y && forall|z: Name|
        r.contains_key(z) && #[trigger] r[z] == y ==> z == x
}

/// Whether `b` is `a` up to the names of bound variables: the two have the
/// same form, literals and primitives, each binder of `a` stands where a
/// binder of `b` stands, and each variable of `a` refers to the binder to
/// which the variable at its place in `b` refers. `r` sends each name in
/// scope in `a` to the name in scope at the same place in `b`.
pub open spec fn alpha(a: ExpV, b: ExpV, r: Map<Name, Name>) -> bool
    decreases a,
{
    match (a, b) {
        (ExpV::Num(i), ExpV::Num(j)) => i == j,
        (ExpV::Bool(i), ExpV::Bool(j)) => i == j,
        (ExpV::Var(x), ExpV::Var(y)) => refers(r, x, y),
        (ExpV::Prim(p, es), ExpV::Prim(q, fs)) => p == q && es.len() == fs.len() && forall|i: int|
            0 <= i < es.len() ==> alpha(#[trigger] es[i], fs[i], r),
        (ExpV::Let { bindings: bs, body }, ExpV::Let { bindings: cs, body: other }) => {
            let xs = binding_names(bs);
            let ys = binding_names(cs);
            &&& bs.len() == cs.len()
            &&& forall|i: int|
                0 <= i < bs.len() ==> alpha((#[trigger] bs[i]).1, cs[i].1, paired(r, xs, ys, i as nat))
            &&& alpha(*body, *other, paired(r, xs, ys, bs.len()))
        },
        (ExpV::If { cond, thn, els }, ExpV::If { cond: c2, thn: t2, els: e2 }) => alpha(
            *cond,
            *c2,
            r,
        ) && alpha(*thn, *t2, r) && alpha(*els, *e2, r),
        (ExpV::FunDefs { decls: ds, body }, ExpV::FunDefs { decls: es, body: other }) => {
            let inner = paired(r, decl_names(ds), decl_names(es), ds.len());
            &&& ds.len() == es.len()
            &&& forall|i: int|
                0 <= i < ds.len() ==> (#[trigger] ds[i]).parameters.len() == es[i].parameters.len()
                    && alpha(
                    ds[i].body,
                    es[i].body,
                    paired(inner, ds[i].parameters, es[i].parameters, ds[i].parameters.len()),
                )
            &&& alpha(*body, *other, inner)
        },
        (ExpV::Call(f, es), ExpV::Call(g, fs)) => alpha(*f, *g, r) && es.len() == fs.len()
            && forall|i: int| 0 <= i < es.len() ==> alpha(#[trigger] es[i], fs[i], r),
        (ExpV::Lambda { parameters: ps, body }, ExpV::Lambda { parameters: qs, body: other }) => {
            ps.len() == qs.len() && alpha(*body, *other, paired(r, ps, qs, ps.len()))
        },
        _ => false,
    }
}

/// The renaming that uniquification applies with the mapping `m`: each name
/// in scope goes to the name of its number.
pub open spec fn rho(m: Map<Name, u32>) -> Map<Name, Name> {
    Map::new(|x: Name| m.contains_key(x), |x: Name| fresh(m[x] as nat))
}

/// Whether no number of a mapping is above the counter, and no two names
/// have the same number.
pub open spec fn tight(m: Map<Name, u32>, c: nat) -> bool {
    &&& forall|x: Name| #[trigger] m.contains_key(x) ==> m[x] as nat <= c
    &&& forall|x: Name, z: Name|
        #[trigger] m.contains_key(x) && #[trigger] m.contains_key(z) && m[x] == m[z] ==> x == z
}

/// A variable in scope refers, after renaming, to its own binder.
pub proof fn lemma_rho_refers(m: Map<Name, u32>, c: nat, x: Name)
    requires
        tight(m, c),
        m.contains_key(x),
    ensures
        refers(rho(m), x, fresh(m[x] as nat)),
{
    let r = rho(m);
    assert forall|z: Name| r.contains_key(z) && #[trigger] r[z] == fresh(m[x] as nat) implies z
        == x by {
        assert(m.contains_key(z));
        lemma_decimal_injective(m[z] as nat, m[x] as nat);
    }
}

/// Binding a name to the next number keeps a mapping tight, and sends the
/// name to the name of that number.
pub proof fn lemma_rho_insert(m: Map<Name, u32>, c: nat, x: Name, id: nat)
    requires
        tight(m, c),
        c < id <= u32::MAX,
    ensures
        tight(m.insert(x, id as u32), id),
        rho(m.insert(x, id as u32)) == rho(m).insert(x, fresh(id)),
{
    let after = m.insert(x, id as u32);
    assert forall|y: Name, z: Name|
        #[trigger] after.contains_key(y) && #[trigger] after.contains_key(z) && after[y]
            == after[z] implies y == z by {
        if y != x && z != x {
            assert(m.contains_key(y) && m.contains_key(z));
        } else if y != x {
            assert(m.contains_key(y));
        } else if z != x {
            assert(m.contains_key(z));
        }
    }
    assert forall|y: Name| #[trigger] after.contains_key(y) implies after[y] as nat <= id by {
        if y != x {
            assert(m.contains_key(y));
        }
    }
    assert(rho(after) =~= rho(m).insert(x, fresh(id)));
}

/// What is tight at one counter is tight at each later one.
pub proof fn lemma_tight_later(m: Map<Name, u32>, c: nat, later: nat)
    requires
        tight(m, c),
        c <= later,
    ensures
        tight(m, later),
{
}

/// Binding names in a row keeps a mapping tight, and pairs each name with
/// the name of its number.
pub proof fn lemma_rho_bind_all(names: Seq<Name>, m: Map<Name, u32>, c: nat, n: nat)
    requires
        tight(m, c),
        n <= names.len(),
        c + names.len() <= u32::MAX,
    ensures
        tight(bind_all(names, m, c, n), c + n),
        rho(bind_all(names, m, c, n)) == paired(rho(m), names, fresh_names(c, names.len()), n),
    decreases n,
{
    if n > 0 {
        let prev = bind_all(names, m, c, (n - 1) as nat);
        lemma_rho_bind_all(names, m, c, (n - 1) as nat);
        lemma_rho_insert(prev, (c + n - 1) as nat, names[n - 1], c + n);
        assert(fresh_names(c, names.len())[n - 1] == fresh(c + n));
    }
}

/// The bindings of a `let` keep a mapping tight, and pair each name with the
/// name that uniquification gives its binder.
pub proof fn lemma_rho_let_map(bs: Seq<(Name, ExpV)>, m: Map<Name, u32>, c: nat, n: nat)
    requires
        tight(m, c),
        n <= bs.len(),
        c + sum_to(bs.len(), binding_binders_at(bs)) <= u32::MAX,
    ensures
        tight(let_map(bs, m, c, n), c + sum_to(n, binding_binders_at(bs))),
        rho(let_map(bs, m, c, n)) == paired(
            rho(m),
            binding_names(bs),
            binding_names(uniq_bindings(bs, m, c)),
            n,
        ),
    decreases n,
{
    if n > 0 {
        let w = binding_binders_at(bs);
        let k = (n - 1) as nat;
        let prev = let_map(bs, m, c, k);
        let ck = c + sum_to(k, w);
        lemma_rho_let_map(bs, m, c, k);
        lemma_sum_to(k, bs.len(), w);
        lemma_rho_insert(prev, ck, bs[k as int].0, ck + 1);
        lemma_tight_later(let_map(bs, m, c, n), ck + 1, c + sum_to(n, w));
        assert(binding_names(uniq_bindings(bs, m, c))[k as int] == fresh(ck + 1));
        assert(binding_names(bs)[k as int] == bs[k as int].0);
    }
}

/// What uniquification makes of a program is the program up to the names of
/// its bound variables, if every variable of the program is bound.
pub proof fn lemma_uniq_alpha(e: ExpV, m: Map<Name, u32>, c: nat)
    requires
        in_stage(e, Stage::Core),
        scoped(e, m.dom()),
        tight(m, c),
        c + binders(e) <= u32::MAX,
    ensures
        alpha(e, uniq(e, m, c), rho(m)),
    decreases e, 1nat,
{
    match e {
        ExpV::Num(_) | ExpV::Bool(_) => {
            assert(uniq(e, m, c) == e);
        },
        ExpV::Var(x) => {
            lemma_rho_refers(m, c, x);
        },
        ExpV::Prim(p, es) => {
            lemma_uniq_list_alpha(es, m, c);
            let out = uniq_list(es, m, c);
            assert(uniq(e, m, c) == ExpV::Prim(p, out));
            assert(out.len() == es.len());
            assert(forall|i: int| 0 <= i < es.len() ==> alpha(#[trigger] es[i], out[i], rho(m)));
            assert(alpha(e, ExpV::Prim(p, out), rho(m)));
        },
        ExpV::Call(f, args) => {
            lemma_uniq_alpha(*f, m, c);
            lemma_tight_later(m, c, c + binders(*f));
            lemma_uniq_list_alpha(args, m, c + binders(*f));
            let callee = uniq(*f, m, c);
            let out = uniq_list(args, m, c + binders(*f));
            assert(uniq(e, m, c) == ExpV::Call(Box::new(callee), out));
            assert(out.len() == args.len());
            assert(forall|i: int|
                0 <= i < args.len() ==> alpha(#[trigger] args[i], out[i], rho(m)));
            assert(alpha(e, ExpV::Call(Box::new(callee), out), rho(m)));
        },
        ExpV::If { cond, thn, els } => {
            lemma_uniq_alpha(*cond, m, c);
            lemma_tight_later(m, c, c + binders(*cond) + binders(*thn));
            lemma_uniq_alpha(*thn, m, c + binders(*cond));
            lemma_uniq_alpha(*els, m, c + binders(*cond) + binders(*thn));
        },
        ExpV::Lambda { parameters, body } => {
            let k = parameters.len();
            lemma_rho_bind_all(parameters, m, c, k);
            lemma_renamed_bind_all(parameters, m, c, k);
            assert(parameters.take(k as int) =~= parameters);
            lemma_uniq_alpha(*body, bind_all(parameters, m, c, k), c + k);
        },
        ExpV::Let { .. } => {
            lemma_uniq_let_alpha(e, m, c);
        },
        ExpV::FunDefs { .. } => {
            lemma_uniq_fundefs_alpha(e, m, c);
        },
        _ => {},
    }
}

/// [`lemma_uniq_alpha`] for each expression of a list.
pub proof fn lemma_uniq_list_alpha(es: Seq<ExpV>, m: Map<Name, u32>, c: nat)
    requires
        all_in_stage(es, Stage::Core),
        forall|i: int| 0 <= i < es.len() ==> scoped(#[trigger] es[i], m.dom()),
        tight(m, c),
        c + sum_to(es.len(), binders_at(es)) <= u32::MAX,
    ensures
        forall|i: int| 0 <= i < es.len() ==> alpha(#[trigger] es[i], uniq_list(es, m, c)[i], rho(m)),
    decreases es, 0nat,
{
    assert forall|i: int| 0 <= i < es.len() implies alpha(
        #[trigger] es[i],
        uniq_list(es, m, c)[i],
        rho(m),
    ) by {
        let ci = c + sum_to(i as nat, binders_at(es));
        assert(in_stage(es[i], Stage::Core));
        lemma_sum_to(i as nat, es.len(), binders_at(es));
        lemma_tight_later(m, c, ci);
        lemma_uniq_alpha(es[i], m, ci);
    }
}

/// [`lemma_uniq_alpha`] for a `let`.
pub proof fn lemma_uniq_let_alpha(e: ExpV, m: Map<Name, u32>, c: nat)
    requires
        e is Let,
        in_stage(e, Stage::Core),
        scoped(e, m.dom()),
        tight(m, c),
        c + binders(e) <= u32::MAX,
    ensures
        alpha(e, uniq(e, m, c), rho(m)),
    decreases e, 0nat,
{
    match e {
        ExpV::Let { bindings, body } => {
            let n = bindings.len();
            let w = binding_binders_at(bindings);
            let out = uniq_bindings(bindings, m, c);
            let xs = binding_names(bindings);
            let ys = binding_names(out);
            assert forall|i: int| 0 <= i < n implies alpha(
                (#[trigger] bindings[i]).1,
                out[i].1,
                paired(rho(m), xs, ys, i as nat),
            ) by {
                let ci = c + sum_to(i as nat, w);
                lemma_sum_to(i as nat, n, w);
                lemma_rho_let_map(bindings, m, c, i as nat);
                lemma_renamed_let_map(bindings, m, c, i as nat);
                lemma_tight_later(let_map(bindings, m, c, i as nat), ci, ci + 1);
                assert(in_stage(bindings[i].1, Stage::Core));
                lemma_uniq_alpha(bindings[i].1, let_map(bindings, m, c, i as nat), ci + 1);
            }
            lemma_rho_let_map(bindings, m, c, n);
            lemma_renamed_let_map(bindings, m, c, n);
            assert(xs.take(n as int) =~= xs);
            lemma_uniq_alpha(*body, let_map(bindings, m, c, n), c + sum_to(n, w));
        },
        _ => {},
    }
}

/// [`lemma_uniq_alpha`] for a group of functions.
pub proof fn lemma_uniq_fundefs_alpha(e: ExpV, m: Map<Name, u32>, c: nat)
    requires
        e is FunDefs,
        in_stage(e, Stage::Core),
        scoped(e, m.dom()),
        tight(m, c),
        c + binders(e) <= u32::MAX,
    ensures
        alpha(e, uniq(e, m, c), rho(m)),
    decreases e, 0nat,
{
    match e {
        ExpV::FunDefs { decls, body } => {
            let n = decls.len();
            let db = decl_binders_at(decls);
            let names = decl_names(decls);
            let inner = bind_all(names, m, c, n);
            let out = uniq_decls(decls, inner, c);
            lemma_rho_bind_all(names, m, c, n);
            lemma_renamed_bind_all(names, m, c, n);
            assert(names.take(n as int) =~= names);
            assert(decl_names(out) =~= fresh_names(c, n));
            let r1 = paired(rho(m), names, decl_names(out), n);
            assert(r1 == rho(inner));
            assert forall|i: int| 0 <= i < n implies (#[trigger] decls[i]).parameters.len()
                == out[i].parameters.len() && alpha(
                decls[i].body,
                out[i].body,
                paired(r1, decls[i].parameters, out[i].parameters, decls[i].parameters.len()),
            ) by {
                let ps = decls[i].parameters;
                let k = ps.len();
                let ci = c + n + sum_to(i as nat, db);
                lemma_sum_to(i as nat, n, db);
                lemma_tight_later(inner, c + n, ci);
                lemma_rho_bind_all(ps, inner, ci, k);
                lemma_renamed_bind_all(ps, inner, ci, k);
                assert(ps.take(k as int) =~= ps);
                assert(in_stage(decls[i].body, Stage::Core));
                lemma_uniq_alpha(decls[i].body, bind_all(ps, inner, ci, k), ci + k);
            }
            lemma_tight_later(inner, c + n, c + n + sum_to(n, db));
            lemma_uniq_alpha(*body, inner, c + n + sum_to(n, db));
        },
        _ => {},
    }
}

/// Uniquification is idempotent up to the names of bound variables: a second
/// run, from whatever counter, gives the program of the first run up to
/// those names.
pub proof fn lemma_uniquify_again_alpha(p: ExpV, k: nat)
    requires
        in_stage(p, Stage::Surface),
        scoped(p, Set::empty()),
        binders(p) <= u32::MAX,
        k + binders(p) <= u32::MAX,
    ensures
        alpha(
            uniq(p, Map::empty(), 0),
            uniq(uniq(p, Map::empty(), 0), Map::empty(), k),
            Map::empty(),
        ),
{
    let none = Map::<Name, u32>::empty();
    let first = uniq(p, none, 0);
    assert(none.dom() =~= Set::<Name>::empty());
    lemma_uniq_stage(p, none, 0);
    lemma_uniq_scoped(p, none, 0);
    lemma_uniq_binders(p, none, 0);
    assert(renamed(none) =~= Set::<Name>::empty());
    lemma_uniq_alpha(first, none, k);
    assert(rho(none) =~= Map::<Name, Name>::empty());
}

/// [`lemma_uniquify_again_alpha`] for a program that the checker accepts.
pub proof fn lemma_accepted_again_alpha<Span>(p: crate::syntax::Exp<Span>, k: nat)
    requires
        in_stage(p@, Stage::Surface),
        crate::checker::check(p, Set::empty()) is None,
        k + binders(p@) <= u32::MAX,
    ensures
        alpha(
            uniq(p@, Map::empty(), 0),
            uniq(uniq(p@, Map::empty(), 0), Map::empty(), k),
            Map::empty(),
        ),
{
    crate::checker::lemma_checked_scoped(p, Set::empty());
    lemma_uniquify_again_alpha(p@, k);
}

} // verus!
