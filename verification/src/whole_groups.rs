//! The marks of lambda lifting take a group of functions as a whole or not
//! at all: after uniquification a name is bound once, so what marks a
//! function stands where its group is in scope, and there one marked
//! function marks its group.

use vstd::prelude::*;
use crate::closed::{all_groups_whole, all_targets_known, group_whole, groups_whole, lemma_convert_targets, lemma_marks_bindings_part, lemma_marks_decls_part, lemma_marks_list_part, program_whole, targets_known};
use crate::closure::convert;
use crate::global_names::lemma_convert_bound_same;
use crate::lift::{marks, marks_bindings, marks_decls, marks_list};
use crate::renaming::{binding_bound_at, bound, bound_at, decl_bound_at, lemma_bound_uniq, lemma_uniq_stage};
use crate::syntax::{ExpV, FunDeclV, Name, Stage, decl_names, in_stage, lemma_sum_to, sum_to};
use crate::uniquify::uniq;

verus! {

/// Two terms of a sum are together at most the sum.
pub proof fn lemma_sum_two(n: nat, f: spec_fn(int) -> nat, i: int, j: int)
    requires
        0 <= i < j < n,
    ensures
        f(i) + f(j) <= sum_to(n, f),
{
    lemma_sum_to(j as nat, n, f);
    lemma_sum_to(i as nat, j as nat, f);
    if i + 1 < j {
        lemma_sum_to(i as nat, (i + 1) as nat, f);
    }
}

/// A term of a sum is at most the sum.
pub proof fn lemma_sum_one(n: nat, f: spec_fn(int) -> nat, i: int)
    requires
        0 <= i < n,
    ensures
        f(i) <= sum_to(n, f),
{
    lemma_sum_to(i as nat, n, f);
}

/// What is marked in a list is marked in one of its expressions.
pub proof fn lemma_marks_list_origin(
    es: Seq<ExpV>,
    n: nat,
    known: Set<Name>,
    local: Set<Name>,
    x: Name,
) -> (i: int)
    requires
        n <= es.len(),
        marks_list(es, n, known, local).contains(x),
    ensures
        0 <= i < n,
        marks(es[i], known, local, false).contains(x),
    decreases n,
{
    if marks(es[n - 1], known, local, false).contains(x) {
        n - 1
    } else {
        lemma_marks_list_origin(es, (n - 1) as nat, known, local, x)
    }
}

/// What is marked in the bindings of a `let` is marked in one of them.
pub proof fn lemma_marks_bindings_origin(
    bs: Seq<(Name, ExpV)>,
    n: nat,
    known: Set<Name>,
    local: Set<Name>,
    x: Name,
) -> (i: int)
    requires
        n <= bs.len(),
        marks_bindings(bs, n, known, local).contains(x),
    ensures
        0 <= i < n,
        marks(bs[i].1, known, local, false).contains(x),
    decreases n,
{
    if marks(bs[n - 1].1, known, local, false).contains(x) {
        n - 1
    } else {
        lemma_marks_bindings_origin(bs, (n - 1) as nat, known, local, x)
    }
}

/// What is marked in the bodies of a group is marked in one of them.
pub proof fn lemma_marks_decls_origin(
    ds: Seq<FunDeclV>,
    n: nat,
    known: Set<Name>,
    names: Set<Name>,
    x: Name,
) -> (i: int)
    requires
        n <= ds.len(),
        marks_decls(ds, n, known, names).contains(x),
    ensures
        0 <= i < n,
        marks(ds[i].body, known, names, true).contains(x),
    decreases n,
{
    if marks(ds[n - 1].body, known, names, true).contains(x) {
        n - 1
    } else {
        lemma_marks_decls_origin(ds, (n - 1) as nat, known, names, x)
    }
}

/// What an expression marks is a function in scope or a name that the
/// expression binds itself.
pub proof fn lemma_marks_local(e: ExpV, known: Set<Name>, local: Set<Name>, is_tail: bool, x: Name)
    requires
        targets_known(e, known),
        marks(e, known, local, is_tail).contains(x),
    ensures
        known.contains(x) || bound(e, x) >= 1,
    decreases e,
{
    match e {
        ExpV::MakeClosure { label, env, .. } => {
            if x != label {
                lemma_marks_local(*env, known, local, false, x);
            }
        },
        ExpV::Prim(_, es) => {
            let i = lemma_marks_list_origin(es, es.len(), known, local, x);
            assert(all_targets_known(es, known));
            lemma_marks_local(es[i], known, local, false, x);
            lemma_sum_one(es.len(), bound_at(es, x), i);
        },
        ExpV::DirectCall(f, args) => {
            if marks_list(args, args.len(), known, local).contains(x) {
                let i = lemma_marks_list_origin(args, args.len(), known, local, x);
                assert(all_targets_known(args, known));
                lemma_marks_local(args[i], known, local, false, x);
                lemma_sum_one(args.len(), bound_at(args, x), i);
            }
        },
        ExpV::ClosureCall(f, args) => {
            if marks(*f, known, local, false).contains(x) {
                lemma_marks_local(*f, known, local, false, x);
            } else {
                let i = lemma_marks_list_origin(args, args.len(), known, local, x);
                assert(all_targets_known(args, known));
                lemma_marks_local(args[i], known, local, false, x);
                lemma_sum_one(args.len(), bound_at(args, x), i);
            }
        },
        ExpV::Let { bindings, body } => {
            if marks(*body, known, local, is_tail).contains(x) {
                lemma_marks_local(*body, known, local, is_tail, x);
            } else {
                let i = lemma_marks_bindings_origin(bindings, bindings.len(), known, local, x);
                lemma_marks_local(bindings[i].1, known, local, false, x);
                lemma_sum_one(bindings.len(), binding_bound_at(bindings, x), i);
            }
        },
        ExpV::If { cond, thn, els } => {
            if marks(*cond, known, local, false).contains(x) {
                lemma_marks_local(*cond, known, local, false, x);
            } else if marks(*thn, known, local, is_tail).contains(x) {
                lemma_marks_local(*thn, known, local, is_tail, x);
            } else {
                lemma_marks_local(*els, known, local, is_tail, x);
            }
        },
        ExpV::Lambda { body, .. } => {
            lemma_marks_local(*body, known, Set::empty(), true, x);
        },
        ExpV::FunDefs { decls, body } => {
            let names = decl_names(decls).to_set();
            let inner = known.union(names);
            if names.contains(x) {
                lemma_name_bound(decls, x);
            } else if marks(*body, inner, local.union(names), is_tail).contains(x) {
                lemma_marks_local(*body, inner, local.union(names), is_tail, x);
            } else {
                let i = lemma_marks_decls_origin(decls, decls.len(), inner, names, x);
                lemma_marks_local(decls[i].body, inner, names, true, x);
                lemma_sum_one(decls.len(), decl_bound_at(decls, x), i);
            }
        },
        _ => {},
    }
}

/// The name of a function of a group is bound by the group.
pub proof fn lemma_name_bound(ds: Seq<FunDeclV>, x: Name)
    requires
        decl_names(ds).to_set().contains(x),
    ensures
        sum_to(ds.len(), decl_bound_at(ds, x)) >= 1,
{
    let names = decl_names(ds);
    let i = choose|i: int| 0 <= i < names.len() && names[i] == x;
    assert(ds[i].name == x);
    lemma_sum_one(ds.len(), decl_bound_at(ds, x), i);
}

/// Whether `need` is fair to an expression at its place: it holds what the
/// expression marks, and of the names that the expression binds nothing
/// else; the functions in scope are known; and the expression binds no name
/// twice, and none of a function in scope.
pub open spec fn fair(e: ExpV, known: Set<Name>, local: Set<Name>, is_tail: bool, need: Set<Name>) -> bool {
    &&& targets_known(e, known)
    &&& marks(e, known, local, is_tail).subset_of(need)
    &&& forall|x: Name|
        need.contains(x) && #[trigger] bound(e, x) >= 1 ==> marks(e, known, local, is_tail).contains(
            x,
        )
    &&& forall|x: Name| #[trigger] bound(e, x) <= 1
    &&& forall|x: Name| known.contains(x) ==> #[trigger] bound(e, x) == 0
}

/// Whether `need` is fair to the expressions of a list, none of them in
/// tail position: `marked` is what the list marks, and `count` says how
/// often the list binds a name.
pub open spec fn fair_list(
    es: Seq<ExpV>,
    known: Set<Name>,
    local: Set<Name>,
    need: Set<Name>,
) -> bool {
    &&& all_targets_known(es, known)
    &&& marks_list(es, es.len(), known, local).subset_of(need)
    &&& forall|i: int, x: Name|
        0 <= i < es.len() && need.contains(x) && #[trigger] bound(es[i], x) >= 1 ==> marks_list(
            es,
            es.len(),
            known,
            local,
        ).contains(x)
    &&& forall|x: Name| #[trigger] sum_to(es.len(), bound_at(es, x)) <= 1
    &&& forall|i: int, x: Name|
        0 <= i < es.len() && known.contains(x) ==> #[trigger] bound(es[i], x) == 0
}

/// The marks take every group as a whole or not at all, where `need` is
/// fair.
pub proof fn lemma_whole(e: ExpV, known: Set<Name>, local: Set<Name>, is_tail: bool, need: Set<Name>)
    requires
        fair(e, known, local, is_tail, need),
    ensures
        groups_whole(e, need),
    decreases e, 1nat,
{
    match e {
        ExpV::Prim(..) | ExpV::DirectCall(..) | ExpV::ClosureCall(..) | ExpV::MakeClosure { .. } => {
            lemma_whole_calls(e, known, local, is_tail, need);
        },
        ExpV::If { .. } | ExpV::Lambda { .. } => {
            lemma_whole_parts(e, known, local, is_tail, need);
        },
        ExpV::Let { .. } => {
            lemma_whole_let(e, known, local, is_tail, need);
        },
        ExpV::FunDefs { .. } => {
            lemma_whole_fundefs(e, known, local, is_tail, need);
        },
        _ => {},
    }
}

/// [`lemma_whole`] for each expression of a list.
pub proof fn lemma_whole_list(es: Seq<ExpV>, known: Set<Name>, local: Set<Name>, need: Set<Name>)
    requires
        fair_list(es, known, local, need),
    ensures
        all_groups_whole(es, need),
    decreases es, 0nat,
{
    let n = es.len();
    assert forall|i: int| 0 <= i < n implies groups_whole(#[trigger] es[i], need) by {
        let s = es[i];
        lemma_marks_list_part(es, i, n, known, local);
        assert forall|x: Name| need.contains(x) && #[trigger] bound(s, x) >= 1 implies marks(
            s,
            known,
            local,
            false,
        ).contains(x) by {
            let j = lemma_marks_list_origin(es, n, known, local, x);
            if j != i {
                lemma_marks_local(es[j], known, local, false, x);
                assert(bound(es[j], x) >= 1);
                if i < j {
                    lemma_sum_two(n, bound_at(es, x), i, j);
                } else {
                    lemma_sum_two(n, bound_at(es, x), j, i);
                }
                assert(sum_to(n, bound_at(es, x)) <= 1);
            }
        }
        assert forall|x: Name| #[trigger] bound(s, x) <= 1 by {
            lemma_sum_one(n, bound_at(es, x), i);
            assert(sum_to(n, bound_at(es, x)) <= 1);
        }
        lemma_whole(s, known, local, false, need);
    }
}

/// [`lemma_whole`] for a primitive, a call and a closure.
pub proof fn lemma_whole_calls(
    e: ExpV,
    known: Set<Name>,
    local: Set<Name>,
    is_tail: bool,
    need: Set<Name>,
)
    requires
        e is Prim || e is DirectCall || e is ClosureCall || e is MakeClosure,
        fair(e, known, local, is_tail, need),
    ensures
        groups_whole(e, need),
    decreases e, 0nat,
{
    let all = marks(e, known, local, is_tail);
    match e {
        ExpV::Prim(_, es) => {
            let n = es.len();
            assert forall|i: int, x: Name|
                0 <= i < n && need.contains(x) && #[trigger] bound(es[i], x) >= 1 implies marks_list(
                es,
                n,
                known,
                local,
            ).contains(x) by {
                lemma_sum_one(n, bound_at(es, x), i);
                assert(bound(e, x) >= 1);
            }
            assert forall|x: Name| #[trigger] sum_to(n, bound_at(es, x)) <= 1 by {
                assert(bound(e, x) <= 1);
            }
            assert forall|i: int, x: Name| 0 <= i < n && known.contains(x) implies #[trigger] bound(
                es[i],
                x,
            ) == 0 by {
                lemma_sum_one(n, bound_at(es, x), i);
                assert(bound(e, x) == 0);
            }
            lemma_whole_list(es, known, local, need);
        },
        ExpV::DirectCall(f, es) => {
            let n = es.len();
            assert(marks_list(es, n, known, local).subset_of(all));
            assert forall|i: int, x: Name|
                0 <= i < n && need.contains(x) && #[trigger] bound(es[i], x) >= 1 implies marks_list(
                es,
                n,
                known,
                local,
            ).contains(x) by {
                lemma_sum_one(n, bound_at(es, x), i);
                assert(bound(e, x) >= 1);
                assert(all.contains(x));
            }
            assert forall|x: Name| #[trigger] sum_to(n, bound_at(es, x)) <= 1 by {
                assert(bound(e, x) <= 1);
            }
            assert forall|i: int, x: Name| 0 <= i < n && known.contains(x) implies #[trigger] bound(
                es[i],
                x,
            ) == 0 by {
                lemma_sum_one(n, bound_at(es, x), i);
                assert(bound(e, x) == 0);
            }
            lemma_whole_list(es, known, local, need);
        },
        ExpV::ClosureCall(f, es) => {
            let n = es.len();
            let callee = *f;
            assert forall|i: int, x: Name|
                0 <= i < n && need.contains(x) && #[trigger] bound(es[i], x) >= 1 implies marks_list(
                es,
                n,
                known,
                local,
            ).contains(x) by {
                lemma_sum_one(n, bound_at(es, x), i);
                assert(bound(e, x) >= 1);
                assert(all.contains(x));
                if marks(callee, known, local, false).contains(x) {
                    lemma_marks_local(callee, known, local, false, x);
                    assert(bound(e, x) <= 1);
                }
            }
            assert forall|x: Name| #[trigger] sum_to(n, bound_at(es, x)) <= 1 by {
                assert(bound(e, x) <= 1);
            }
            assert forall|i: int, x: Name| 0 <= i < n && known.contains(x) implies #[trigger] bound(
                es[i],
                x,
            ) == 0 by {
                lemma_sum_one(n, bound_at(es, x), i);
                assert(bound(e, x) == 0);
            }
            lemma_whole_list(es, known, local, need);
            assert forall|x: Name| need.contains(x) && #[trigger] bound(callee, x) >= 1 implies marks(
                callee,
                known,
                local,
                false,
            ).contains(x) by {
                assert(bound(e, x) >= 1);
                assert(all.contains(x));
                if marks_list(es, n, known, local).contains(x) {
                    let j = lemma_marks_list_origin(es, n, known, local, x);
                    assert(all_targets_known(es, known));
                    lemma_marks_local(es[j], known, local, false, x);
                    lemma_sum_one(n, bound_at(es, x), j);
                    assert(bound(e, x) <= 1);
                }
            }
            assert forall|x: Name| #[trigger] bound(callee, x) <= 1 by {
                assert(bound(e, x) <= 1);
            }
            assert forall|x: Name| known.contains(x) implies #[trigger] bound(callee, x) == 0 by {
                assert(bound(e, x) == 0);
            }
            lemma_whole(callee, known, local, false, need);
        },
        ExpV::MakeClosure { label, env, .. } => {
            let inner = *env;
            assert forall|x: Name| need.contains(x) && #[trigger] bound(inner, x) >= 1 implies marks(
                inner,
                known,
                local,
                false,
            ).contains(x) by {
                assert(bound(e, x) >= 1);
                assert(all.contains(x));
                if x == label {
                    assert(bound(e, x) == 0);
                }
            }
            assert forall|x: Name| #[trigger] bound(inner, x) <= 1 by {
                assert(bound(e, x) <= 1);
            }
            assert forall|x: Name| known.contains(x) implies #[trigger] bound(inner, x) == 0 by {
                assert(bound(e, x) == 0);
            }
            lemma_whole(inner, known, local, false, need);
        },
        _ => {},
    }
}

/// [`lemma_whole`] for a conditional and a lambda.
pub proof fn lemma_whole_parts(
    e: ExpV,
    known: Set<Name>,
    local: Set<Name>,
    is_tail: bool,
    need: Set<Name>,
)
    requires
        e is If || e is Lambda,
        fair(e, known, local, is_tail, need),
    ensures
        groups_whole(e, need),
    decreases e, 0nat,
{
    let all = marks(e, known, local, is_tail);
    match e {
        ExpV::Lambda { body, .. } => {
            let inner = *body;
            assert forall|x: Name| need.contains(x) && #[trigger] bound(inner, x) >= 1 implies marks(
                inner,
                known,
                Set::empty(),
                true,
            ).contains(x) by {
                assert(bound(e, x) >= 1);
            }
            assert forall|x: Name| #[trigger] bound(inner, x) <= 1 by {
                assert(bound(e, x) <= 1);
            }
            assert forall|x: Name| known.contains(x) implies #[trigger] bound(inner, x) == 0 by {
                assert(bound(e, x) == 0);
            }
            lemma_whole(inner, known, Set::empty(), true, need);
        },
        ExpV::If { cond, thn, els } => {
            let c = *cond;
            let a = *thn;
            let b = *els;
            let mc = marks(c, known, local, false);
            let ma = marks(a, known, local, is_tail);
            let mb = marks(b, known, local, is_tail);
            assert forall|x: Name| #[trigger] bound(c, x) <= 1 by {
                assert(bound(e, x) <= 1);
            }
            assert forall|x: Name| #[trigger] bound(a, x) <= 1 by {
                assert(bound(e, x) <= 1);
            }
            assert forall|x: Name| #[trigger] bound(b, x) <= 1 by {
                assert(bound(e, x) <= 1);
            }
            assert forall|x: Name| known.contains(x) implies #[trigger] bound(c, x) == 0 by {
                assert(bound(e, x) == 0);
            }
            assert forall|x: Name| known.contains(x) implies #[trigger] bound(a, x) == 0 by {
                assert(bound(e, x) == 0);
            }
            assert forall|x: Name| known.contains(x) implies #[trigger] bound(b, x) == 0 by {
                assert(bound(e, x) == 0);
            }
            assert forall|x: Name| need.contains(x) && #[trigger] bound(c, x) >= 1 implies mc.contains(
                x,
            ) by {
                assert(bound(e, x) >= 1 && bound(e, x) <= 1);
                assert(all.contains(x));
                if ma.contains(x) {
                    lemma_marks_local(a, known, local, is_tail, x);
                } else if mb.contains(x) {
                    lemma_marks_local(b, known, local, is_tail, x);
                }
            }
            assert forall|x: Name| need.contains(x) && #[trigger] bound(a, x) >= 1 implies ma.contains(
                x,
            ) by {
                assert(bound(e, x) >= 1 && bound(e, x) <= 1);
                assert(all.contains(x));
                if mc.contains(x) {
                    lemma_marks_local(c, known, local, false, x);
                } else if mb.contains(x) {
                    lemma_marks_local(b, known, local, is_tail, x);
                }
            }
            assert forall|x: Name| need.contains(x) && #[trigger] bound(b, x) >= 1 implies mb.contains(
                x,
            ) by {
                assert(bound(e, x) >= 1 && bound(e, x) <= 1);
                assert(all.contains(x));
                if mc.contains(x) {
                    lemma_marks_local(c, known, local, false, x);
                } else if ma.contains(x) {
                    lemma_marks_local(a, known, local, is_tail, x);
                }
            }
            lemma_whole(c, known, local, false, need);
            lemma_whole(a, known, local, is_tail, need);
            lemma_whole(b, known, local, is_tail, need);
        },
        _ => {},
    }
}

/// [`lemma_whole`] for a `let`.
pub proof fn lemma_whole_let(
    e: ExpV,
    known: Set<Name>,
    local: Set<Name>,
    is_tail: bool,
    need: Set<Name>,
)
    requires
        e is Let,
        fair(e, known, local, is_tail, need),
    ensures
        groups_whole(e, need),
    decreases e, 0nat,
{
    let all = marks(e, known, local, is_tail);
    match e {
        ExpV::Let { bindings, body } => {
            let n = bindings.len();
            let rest = *body;
            let mb = marks_bindings(bindings, n, known, local);
            let mr = marks(rest, known, local, is_tail);
            assert forall|i: int| 0 <= i < n implies groups_whole(
                (#[trigger] bindings[i]).1,
                need,
            ) by {
                let s = bindings[i].1;
                lemma_marks_bindings_part(bindings, i, n, known, local);
                assert forall|x: Name| #[trigger] bound(s, x) <= 1 by {
                    lemma_sum_one(n, binding_bound_at(bindings, x), i);
                    assert(bound(e, x) <= 1);
                }
                assert forall|x: Name| known.contains(x) implies #[trigger] bound(s, x) == 0 by {
                    lemma_sum_one(n, binding_bound_at(bindings, x), i);
                    assert(bound(e, x) == 0);
                }
                assert forall|x: Name| need.contains(x) && #[trigger] bound(s, x) >= 1 implies marks(
                    s,
                    known,
                    local,
                    false,
                ).contains(x) by {
                    lemma_sum_one(n, binding_bound_at(bindings, x), i);
                    assert(bound(e, x) >= 1 && bound(e, x) <= 1);
                    assert(all.contains(x));
                    if mb.contains(x) {
                        let j = lemma_marks_bindings_origin(bindings, n, known, local, x);
                        if j != i {
                            lemma_marks_local(bindings[j].1, known, local, false, x);
                            if known.contains(x) {
                                assert(bound(e, x) == 0);
                            }
                            if i < j {
                                lemma_sum_two(n, binding_bound_at(bindings, x), i, j);
                            } else {
                                lemma_sum_two(n, binding_bound_at(bindings, x), j, i);
                            }
                        }
                    } else {
                        lemma_marks_local(rest, known, local, is_tail, x);
                        if known.contains(x) {
                            assert(bound(e, x) == 0);
                        }
                    }
                }
                lemma_whole(s, known, local, false, need);
            }
            assert forall|x: Name| #[trigger] bound(rest, x) <= 1 by {
                assert(bound(e, x) <= 1);
            }
            assert forall|x: Name| known.contains(x) implies #[trigger] bound(rest, x) == 0 by {
                assert(bound(e, x) == 0);
            }
            assert forall|x: Name| need.contains(x) && #[trigger] bound(rest, x) >= 1 implies mr.contains(
                x,
            ) by {
                assert(bound(e, x) >= 1 && bound(e, x) <= 1);
                assert(all.contains(x));
                if mb.contains(x) {
                    let j = lemma_marks_bindings_origin(bindings, n, known, local, x);
                    lemma_marks_local(bindings[j].1, known, local, false, x);
                    lemma_sum_one(n, binding_bound_at(bindings, x), j);
                    if known.contains(x) {
                        assert(bound(e, x) == 0);
                    }
                }
            }
            lemma_whole(rest, known, local, is_tail, need);
        },
        _ => {},
    }
}

/// In a group that binds no name twice, the name of a function is bound in
/// no body.
pub proof fn lemma_name_apart(ds: Seq<FunDeclV>, x: Name, i: int)
    requires
        decl_names(ds).to_set().contains(x),
        sum_to(ds.len(), decl_bound_at(ds, x)) <= 1,
        0 <= i < ds.len(),
    ensures
        bound(ds[i].body, x) == 0,
        sum_to(ds.len(), decl_bound_at(ds, x)) == 1,
{
    let names = decl_names(ds);
    let j = choose|j: int| 0 <= j < names.len() && names[j] == x;
    assert(ds[j].name == x);
    lemma_sum_one(ds.len(), decl_bound_at(ds, x), j);
    if i < j {
        lemma_sum_two(ds.len(), decl_bound_at(ds, x), i, j);
    } else if j < i {
        lemma_sum_two(ds.len(), decl_bound_at(ds, x), j, i);
    }
}

/// [`lemma_whole`] for a group of functions.
#[verifier::rlimit(50)]
pub proof fn lemma_whole_fundefs(
    e: ExpV,
    known: Set<Name>,
    local: Set<Name>,
    is_tail: bool,
    need: Set<Name>,
)
    requires
        e is FunDefs,
        fair(e, known, local, is_tail, need),
    ensures
        groups_whole(e, need),
    decreases e, 0nat,
{
    let all = marks(e, known, local, is_tail);
    match e {
        ExpV::FunDefs { decls, body } => {
            let n = decls.len();
            let rest = *body;
            let names = decl_names(decls).to_set();
            let scope = known.union(names);
            let md = marks_decls(decls, n, scope, names);
            let mr = marks(rest, scope, local.union(names), is_tail);
            let mine = md.union(mr);
            assert(mine.subset_of(all));
            // the group goes as a whole
            if !names.disjoint(need) {
                let x = choose|x: Name| names.contains(x) && need.contains(x);
                lemma_name_bound(decls, x);
                assert(bound(e, x) >= 1);
                assert(all.contains(x));
                if mine.disjoint(names) {
                    assert(all == mine);
                    assert(mine.contains(x) && names.contains(x));
                }
                assert(all == mine.union(names));
                assert(names.subset_of(need));
            }
            assert(group_whole(decls, need));
            // a name of the group is bound nowhere in the group
            assert forall|x: Name| names.contains(x) implies bound(rest, x) == 0 && forall|i: int|
                0 <= i < n ==> bound((#[trigger] decls[i]).body, x) == 0 by {
                assert(bound(e, x) <= 1);
                assert forall|i: int| 0 <= i < n implies bound((#[trigger] decls[i]).body, x)
                    == 0 by {
                    lemma_name_apart(decls, x, i);
                }
                lemma_name_bound(decls, x);
            }
            assert forall|i: int| 0 <= i < n implies groups_whole(
                (#[trigger] decls[i]).body,
                need,
            ) by {
                let s = decls[i].body;
                lemma_marks_decls_part(decls, i, n, scope, names);
                assert forall|x: Name| #[trigger] bound(s, x) <= 1 by {
                    lemma_sum_one(n, decl_bound_at(decls, x), i);
                    assert(bound(e, x) <= 1);
                }
                assert forall|x: Name| scope.contains(x) implies #[trigger] bound(s, x) == 0 by {
                    if known.contains(x) {
                        lemma_sum_one(n, decl_bound_at(decls, x), i);
                        assert(bound(e, x) == 0);
                    }
                }
                assert forall|x: Name| need.contains(x) && #[trigger] bound(s, x) >= 1 implies marks(
                    s,
                    scope,
                    names,
                    true,
                ).contains(x) by {
                    lemma_sum_one(n, decl_bound_at(decls, x), i);
                    assert(bound(e, x) >= 1 && bound(e, x) <= 1);
                    assert(all.contains(x));
                    assert(!names.contains(x));
                    assert(!known.contains(x)) by {
                        if known.contains(x) {
                            assert(bound(e, x) == 0);
                        }
                    }
                    assert(mine.contains(x));
                    if md.contains(x) {
                        let j = lemma_marks_decls_origin(decls, n, scope, names, x);
                        if j != i {
                            lemma_marks_local(decls[j].body, scope, names, true, x);
                            if i < j {
                                lemma_sum_two(n, decl_bound_at(decls, x), i, j);
                            } else {
                                lemma_sum_two(n, decl_bound_at(decls, x), j, i);
                            }
                        }
                    } else {
                        lemma_marks_local(rest, scope, local.union(names), is_tail, x);
                    }
                }
                lemma_whole(s, scope, names, true, need);
            }
            assert forall|x: Name| #[trigger] bound(rest, x) <= 1 by {
                assert(bound(e, x) <= 1);
            }
            assert forall|x: Name| scope.contains(x) implies #[trigger] bound(rest, x) == 0 by {
                if known.contains(x) {
                    assert(bound(e, x) == 0);
                }
            }
            assert forall|x: Name| need.contains(x) && #[trigger] bound(rest, x) >= 1 implies mr.contains(
                x,
            ) by {
                assert(bound(e, x) >= 1 && bound(e, x) <= 1);
                assert(all.contains(x));
                assert(!names.contains(x));
                assert(!known.contains(x)) by {
                    if known.contains(x) {
                        assert(bound(e, x) == 0);
                    }
                }
                assert(mine.contains(x));
                if md.contains(x) {
                    let j = lemma_marks_decls_origin(decls, n, scope, names, x);
                    lemma_marks_local(decls[j].body, scope, names, true, x);
                    lemma_sum_one(n, decl_bound_at(decls, x), j);
                }
            }
            lemma_whole(rest, scope, local.union(names), is_tail, need);
        },
        _ => {},
    }
}

/// The marks of a program take every group of functions as a whole or not
/// at all.
pub proof fn lemma_program_whole(p: ExpV)
    requires
        in_stage(p, Stage::Surface),
    ensures
        program_whole(p),
{
    let none = Set::<Name>::empty();
    let unique = uniq(p, Map::empty(), 0);
    let funcs = Map::<Name, usize>::empty();
    let converted = convert(unique, funcs);
    lemma_uniq_stage(p, Map::empty(), 0);
    lemma_convert_targets(unique, funcs);
    assert(funcs.dom() =~= none);
    assert forall|x: Name| #[trigger] bound(converted, x) <= 1 by {
        lemma_convert_bound_same(unique, funcs, x);
        lemma_bound_uniq(p, Map::empty(), 0, x);
    }
    lemma_whole(converted, none, none, true, marks(converted, none, none, true));
}

} // verus!
