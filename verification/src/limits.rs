//! The limits of the compiler, measured: how many names a program binds, how
//! many names and labels the passes draw, and how many stack slots a frame
//! needs. Each measure is taken up to a limit, so that no sum overflows.

use vstd::prelude::*;
use crate::select::{arities_fit, decls_arities_fit, decls_frame_need, decls_labels, frame_need, labels_needed};
use crate::sequentializer::{binding_fresh_at, decl_fresh_at, immediate, operand_fresh, operand_fresh_at, seq_fresh};
use crate::syntax::{Exp, FunDecl, Prim, SeqExp, Stage, all_in_stage, binders, binders_at, binding_binders_at, bindings_view, decl_binders_at, decl_view, decls_view, exps_view, in_stage, lemma_sum_to, seq_decl_view, seq_decls_view, sum_to};

verus! {

/// Whether `r` is the measure `n` taken up to `limit`: the measure itself if
/// it is within the limit, and nothing if it is beyond.
pub open spec fn within(n: nat, limit: u64, r: Option<u64>) -> bool {
    match r {
        Some(v) => v == n && n <= limit,
        None => n > limit,
    }
}

/// The sum of two measures taken up to a limit, up to the limit.
pub open spec fn sum_within(a: Option<u64>, b: Option<u64>, limit: u64) -> Option<u64> {
    match (a, b) {
        (Some(x), Some(y)) => if x + y <= limit {
            Some((x + y) as u64)
        } else {
            None
        },
        _ => None,
    }
}

/// The larger of two measures taken up to a limit.
pub open spec fn larger_within(a: Option<u64>, b: Option<u64>) -> Option<u64> {
    match (a, b) {
        (Some(x), Some(y)) => if x > y {
            Some(x)
        } else {
            Some(y)
        },
        _ => None,
    }
}

/// The slots that the frame of a global function needs, up to the limit: its
/// parameters and what its body needs.
pub fn frame_of(f: &FunDecl<SeqExp<()>, ()>, limit: u64) -> (r: Option<u64>)
    ensures
        within((f.parameters.len() + frame_need(f.body@)) as nat, limit, r),
{
    plus(length(f.parameters.len(), limit), measure_frame(&f.body, limit), limit)
}

/// The sum of two measures, up to the limit.
pub fn plus(a: Option<u64>, b: Option<u64>, limit: u64) -> (r: Option<u64>)
    ensures
        r == sum_within(a, b, limit),
{
    match (a, b) {
        (Some(x), Some(y)) => if x <= limit && y <= limit - x {
            Some(x + y)
        } else {
            None
        },
        _ => None,
    }
}

/// The larger of two measures, up to the limit.
fn larger(a: Option<u64>, b: Option<u64>) -> (r: Option<u64>)
    ensures
        r == larger_within(a, b),
{
    match (a, b) {
        (Some(x), Some(y)) => if x > y {
            Some(x)
        } else {
            Some(y)
        },
        _ => None,
    }
}

/// A length as a measure, up to the limit.
fn length(n: usize, limit: u64) -> (r: Option<u64>)
    ensures
        within(n as nat, limit, r),
{
    if n as u64 <= limit {
        Some(n as u64)
    } else {
        None
    }
}

/// Whether a tree holds surface forms only.
#[verifier::loop_isolation(false)]
pub fn is_surface<Span>(e: &Exp<Span>) -> (r: bool)
    ensures
        r == in_stage(e@, Stage::Surface),
    decreases e, 1nat,
{
    match e {
        Exp::Num(..) | Exp::Bool(..) | Exp::Var(..) => true,
        Exp::Prim(_, es, _) => all_surface(es),
        Exp::Let { bindings, body, .. } => {
            let mut i: usize = 0;
            while i < bindings.len()
                invariant
                    i <= bindings.len(),
                    e@->Let_bindings == bindings_view(bindings@),
                    forall|j: int|
                        0 <= j < i ==> in_stage((#[trigger] bindings_view(bindings@)[j]).1, Stage::Surface),
                decreases bindings.len() - i,
            {
                if !is_surface(&bindings[i].1) {
                    assert(!in_stage(bindings_view(bindings@)[i as int].1, Stage::Surface));
                    return false;
                }
                i += 1;
            }
            is_surface(body)
        },
        Exp::If { cond, thn, els, .. } => is_surface(cond) && is_surface(thn) && is_surface(els),
        Exp::Semicolon { e1, e2, .. } => is_surface(e1) && is_surface(e2),
        Exp::FunDefs { decls, body, .. } => {
            let mut i: usize = 0;
            while i < decls.len()
                invariant
                    i <= decls.len(),
                    e@->FunDefs_decls == decls_view(decls@),
                    forall|j: int|
                        0 <= j < i ==> in_stage((#[trigger] decls_view(decls@)[j]).body, Stage::Surface),
                decreases decls.len() - i,
            {
                if !is_surface(&decls[i].body) {
                    assert(!in_stage(decls_view(decls@)[i as int].body, Stage::Surface));
                    return false;
                }
                i += 1;
            }
            is_surface(body)
        },
        Exp::Call(f, args, _) => is_surface(f) && all_surface(args),
        Exp::Lambda { body, .. } => is_surface(body),
        _ => false,
    }
}

/// Whether every tree of a list holds surface forms only.
#[verifier::loop_isolation(false)]
fn all_surface<Span>(es: &Vec<Exp<Span>>) -> (r: bool)
    ensures
        r == all_in_stage(exps_view(es@), Stage::Surface),
    decreases es, 0nat,
{
    let mut i: usize = 0;
    while i < es.len()
        invariant
            i <= es.len(),
            forall|j: int| 0 <= j < i ==> in_stage(#[trigger] exps_view(es@)[j], Stage::Surface),
        decreases es.len() - i,
    {
        if !is_surface(&es[i]) {
            assert(!in_stage(exps_view(es@)[i as int], Stage::Surface));
            return false;
        }
        i += 1;
    }
    true
}

/// How many names a tree binds, up to the limit.
#[verifier::loop_isolation(false)]
#[verifier::rlimit(50)]
pub fn count_binders<Span>(e: &Exp<Span>, limit: u64) -> (r: Option<u64>)
    ensures
        within(binders(e@), limit, r),
    decreases e, 1nat,
{
    match e {
        Exp::Num(..) | Exp::Bool(..) | Exp::Var(..) => Some(0),
        Exp::Prim(_, es, _) => count_binders_list(es, limit),
        Exp::DirectCall(_, es, _) => count_binders_list(es, limit),
        Exp::InternalTailCall(_, es, _) => count_binders_list(es, limit),
        Exp::ExternalCall { args, .. } => count_binders_list(args, limit),
        Exp::Call(f, args, _) => plus(count_binders(f, limit), count_binders_list(args, limit), limit),
        Exp::ClosureCall(f, args, _) => plus(
            count_binders(f, limit),
            count_binders_list(args, limit),
            limit,
        ),
        Exp::MakeClosure { env, .. } => count_binders(env, limit),
        Exp::If { cond, thn, els, .. } => plus(
            plus(count_binders(cond, limit), count_binders(thn, limit), limit),
            count_binders(els, limit),
            limit,
        ),
        Exp::Semicolon { e1, e2, .. } => plus(
            plus(Some(1), count_binders(e1, limit), limit),
            count_binders(e2, limit),
            limit,
        ),
        Exp::Lambda { parameters, body, .. } => plus(
            length(parameters.len(), limit),
            count_binders(body, limit),
            limit,
        ),
        Exp::Let { bindings, body, .. } => {
            let ghost bv = bindings_view(bindings@);
            let ghost w = binding_binders_at(bv);
            let mut total: Option<u64> = Some(0);
            let mut i: usize = 0;
            while i < bindings.len()
                invariant
                    i <= bindings.len(),
                    bv == bindings_view(bindings@),
                    w == binding_binders_at(bv),
                    within(sum_to(i as nat, w), limit, total),
                decreases bindings.len() - i,
            {
                proof {
                    lemma_sum_to(i as nat, bindings.len() as nat, w);
                }
                let one = plus(Some(1), count_binders(&bindings[i].1, limit), limit);
                assert(within(w(i as int), limit, one));
                total = plus(total, one, limit);
                i += 1;
            }
            plus(total, count_binders(body, limit), limit)
        },
        Exp::FunDefs { decls, body, .. } => {
            let ghost dv = decls_view(decls@);
            let ghost w = decl_binders_at(dv);
            let mut total: Option<u64> = length(decls.len(), limit);
            let mut i: usize = 0;
            while i < decls.len()
                invariant
                    i <= decls.len(),
                    dv == decls_view(decls@),
                    w == decl_binders_at(dv),
                    within((decls.len() + sum_to(i as nat, w)) as nat, limit, total),
                decreases decls.len() - i,
            {
                proof {
                    lemma_sum_to(i as nat, decls.len() as nat, w);
                    assert(dv[i as int] == decl_view(decls[i as int]));
                }
                let one = plus(
                    length(decls[i].parameters.len(), limit),
                    count_binders(&decls[i].body, limit),
                    limit,
                );
                assert(within(w(i as int), limit, one));
                total = plus(total, one, limit);
                i += 1;
            }
            plus(total, count_binders(body, limit), limit)
        },
    }
}

/// How many names the trees of a list bind, up to the limit.
#[verifier::loop_isolation(false)]
fn count_binders_list<Span>(es: &Vec<Exp<Span>>, limit: u64) -> (r: Option<u64>)
    ensures
        within(sum_to(es.len() as nat, binders_at(exps_view(es@))), limit, r),
    decreases es, 0nat,
{
    let ghost w = binders_at(exps_view(es@));
    let mut total: Option<u64> = Some(0);
    let mut i: usize = 0;
    while i < es.len()
        invariant
            i <= es.len(),
            w == binders_at(exps_view(es@)),
            within(sum_to(i as nat, w), limit, total),
        decreases es.len() - i,
    {
        proof {
            lemma_sum_to(i as nat, es.len() as nat, w);
        }
        let one = count_binders(&es[i], limit);
        assert(within(w(i as int), limit, one));
        total = plus(total, one, limit);
        i += 1;
    }
    total
}

/// How often sequentialization of a tree draws from its counter, up to the
/// limit.
#[verifier::loop_isolation(false)]
#[verifier::rlimit(50)]
pub fn count_fresh(e: &Exp<()>, limit: u64) -> (r: Option<u64>)
    ensures
        within(seq_fresh(e@), limit, r),
    decreases e, 1nat,
{
    match e {
        Exp::Prim(_, es, _) => count_fresh_operands(es, limit),
        Exp::InternalTailCall(_, es, _) => count_fresh_operands(es, limit),
        Exp::ExternalCall { args, .. } => count_fresh_operands(args, limit),
        Exp::MakeClosure { env, .. } => count_fresh_operand(env, limit),
        Exp::If { cond, thn, els, .. } => plus(
            plus(plus(Some(1), count_fresh(cond, limit), limit), count_fresh(thn, limit), limit),
            count_fresh(els, limit),
            limit,
        ),
        Exp::Let { bindings, body, .. } => {
            let ghost bv = bindings_view(bindings@);
            let ghost w = binding_fresh_at(bv);
            let mut total: Option<u64> = Some(0);
            let mut i: usize = 0;
            while i < bindings.len()
                invariant
                    i <= bindings.len(),
                    bv == bindings_view(bindings@),
                    w == binding_fresh_at(bv),
                    within(sum_to(i as nat, w), limit, total),
                decreases bindings.len() - i,
            {
                proof {
                    lemma_sum_to(i as nat, bindings.len() as nat, w);
                }
                let one = count_fresh(&bindings[i].1, limit);
                assert(within(w(i as int), limit, one));
                total = plus(total, one, limit);
                i += 1;
            }
            plus(total, count_fresh(body, limit), limit)
        },
        Exp::FunDefs { decls, body, .. } => plus(
            count_fresh_decls(decls, limit),
            count_fresh(body, limit),
            limit,
        ),
        _ => Some(0),
    }
}

/// [`count_fresh`] for an operand: once more unless it is immediate.
fn count_fresh_operand(e: &Exp<()>, limit: u64) -> (r: Option<u64>)
    ensures
        within(operand_fresh(e@), limit, r),
    decreases e, 2nat,
{
    match e {
        Exp::Num(..) | Exp::Bool(..) | Exp::Var(..) => {
            assert(immediate(e@));
            Some(0)
        },
        _ => {
            assert(!immediate(e@));
            plus(count_fresh(e, limit), Some(1), limit)
        },
    }
}

/// [`count_fresh`] for a list of operands.
#[verifier::loop_isolation(false)]
fn count_fresh_operands(es: &Vec<Exp<()>>, limit: u64) -> (r: Option<u64>)
    ensures
        within(sum_to(es.len() as nat, operand_fresh_at(exps_view(es@))), limit, r),
    decreases es, 0nat,
{
    let ghost w = operand_fresh_at(exps_view(es@));
    let mut total: Option<u64> = Some(0);
    let mut i: usize = 0;
    while i < es.len()
        invariant
            i <= es.len(),
            w == operand_fresh_at(exps_view(es@)),
            within(sum_to(i as nat, w), limit, total),
        decreases es.len() - i,
    {
        proof {
            lemma_sum_to(i as nat, es.len() as nat, w);
        }
        let one = count_fresh_operand(&es[i], limit);
        assert(within(w(i as int), limit, one));
        total = plus(total, one, limit);
        i += 1;
    }
    total
}

/// [`count_fresh`] for the bodies of a list of functions.
#[verifier::loop_isolation(false)]
pub fn count_fresh_decls(decls: &Vec<FunDecl<Exp<()>, ()>>, limit: u64) -> (r: Option<u64>)
    ensures
        within(sum_to(decls.len() as nat, decl_fresh_at(decls_view(decls@))), limit, r),
    decreases decls, 0nat,
{
    let ghost w = decl_fresh_at(decls_view(decls@));
    let mut total: Option<u64> = Some(0);
    let mut i: usize = 0;
    while i < decls.len()
        invariant
            i <= decls.len(),
            w == decl_fresh_at(decls_view(decls@)),
            within(sum_to(i as nat, w), limit, total),
        decreases decls.len() - i,
    {
        proof {
            lemma_sum_to(i as nat, decls.len() as nat, w);
            assert(decls_view(decls@)[i as int] == decl_view(decls[i as int]));
        }
        let one = count_fresh(&decls[i].body, limit);
        assert(within(w(i as int), limit, one));
        total = plus(total, one, limit);
        i += 1;
    }
    total
}

/// How many labels the code for a tree draws from its counter, up to the
/// limit.
#[verifier::loop_isolation(false)]
#[verifier::rlimit(50)]
pub fn count_labels(e: &SeqExp<()>, limit: u64) -> (r: Option<u64>)
    ensures
        within(labels_needed(e@), limit, r),
    decreases e,
{
    match e {
        SeqExp::Prim(p, _, _) => match p {
            Prim::IsBool | Prim::IsNum | Prim::IsFun | Prim::IsArray | Prim::Eq | Prim::Neq => plus(
                Some(1),
                Some(0),
                limit,
            ),
            _ => Some(0),
        },
        SeqExp::Let { bound_exp, body, .. } => plus(
            count_labels(bound_exp, limit),
            count_labels(body, limit),
            limit,
        ),
        SeqExp::If { thn, els, .. } => plus(
            plus(Some(1), count_labels(thn, limit), limit),
            count_labels(els, limit),
            limit,
        ),
        SeqExp::FunDefs { decls, body, .. } => {
            let ghost dv = seq_decls_view(decls@);
            let mut total: Option<u64> = plus(Some(1), Some(0), limit);
            let mut i: usize = 0;
            while i < decls.len()
                invariant
                    i <= decls.len(),
                    dv == seq_decls_view(decls@),
                    within((1 + decls_labels(dv, i as nat)) as nat, limit, total),
                decreases decls.len() - i,
            {
                proof {
                    assert(dv[i as int] == seq_decl_view(decls[i as int]));
                }
                let one = count_labels(&decls[i].body, limit);
                total = plus(total, one, limit);
                i += 1;
            }
            plus(total, count_labels(body, limit), limit)
        },
        _ => Some(0),
    }
}

/// How many stack slots beyond those in use the code for a tree may touch,
/// up to the limit.
#[verifier::loop_isolation(false)]
#[verifier::rlimit(50)]
pub fn measure_frame(e: &SeqExp<()>, limit: u64) -> (r: Option<u64>)
    ensures
        within(frame_need(e@), limit, r),
    decreases e,
{
    match e {
        SeqExp::Imm(..) | SeqExp::MakeClosure { .. } => Some(0),
        SeqExp::Prim(_, args, _) => length(args.len(), limit),
        SeqExp::Let { bound_exp, body, .. } => larger(
            measure_frame(bound_exp, limit),
            plus(Some(1), measure_frame(body, limit), limit),
        ),
        SeqExp::If { thn, els, .. } => larger(measure_frame(thn, limit), measure_frame(els, limit)),
        SeqExp::FunDefs { decls, body, .. } => {
            let ghost dv = seq_decls_view(decls@);
            let mut most: Option<u64> = Some(0);
            let mut i: usize = 0;
            while i < decls.len()
                invariant
                    i <= decls.len(),
                    dv == seq_decls_view(decls@),
                    within(decls_frame_need(dv, i as nat), limit, most),
                decreases decls.len() - i,
            {
                proof {
                    assert(dv[i as int] == seq_decl_view(decls[i as int]));
                }
                let one = plus(
                    length(decls[i].parameters.len(), limit),
                    measure_frame(&decls[i].body, limit),
                    limit,
                );
                most = larger(most, one);
                i += 1;
            }
            larger(most, measure_frame(body, limit))
        },
        SeqExp::InternalTailCall(_, args, _) => call_frame(args.len(), limit),
        SeqExp::ExternalCall { args, .. } => call_frame(args.len(), limit),
    }
}

/// The slots that a call with `n` arguments may touch.
fn call_frame(n: usize, limit: u64) -> (r: Option<u64>)
    ensures
        within((2 * n + 3) as nat, limit, r),
{
    let once = length(n, limit);
    let twice = plus(once, once, limit);
    assert(within((2 * n) as nat, limit, twice));
    plus(twice, Some(3), limit)
}

/// Whether every arity that the code for a tree compares against fits the
/// immediate it is written as.
#[verifier::loop_isolation(false)]
pub fn arities_ok(e: &SeqExp<()>) -> (r: bool)
    ensures
        r == arities_fit(e@),
    decreases e,
{
    match e {
        SeqExp::Prim(p, _, _) => match p {
            Prim::CheckArityAndUntag(k) => *k <= 0xFFFF_FFFF,
            _ => true,
        },
        SeqExp::Let { bound_exp, body, .. } => arities_ok(bound_exp) && arities_ok(body),
        SeqExp::If { thn, els, .. } => arities_ok(thn) && arities_ok(els),
        SeqExp::FunDefs { decls, body, .. } => {
            let ghost dv = seq_decls_view(decls@);
            let mut i: usize = 0;
            while i < decls.len()
                invariant
                    i <= decls.len(),
                    dv == seq_decls_view(decls@),
                    decls_arities_fit(dv, i as nat),
                decreases decls.len() - i,
            {
                proof {
                    assert(dv[i as int] == seq_decl_view(decls[i as int]));
                }
                if !arities_ok(&decls[i].body) {
                    proof {
                        lemma_arities_stay_unfit(dv, (i + 1) as nat, decls.len() as nat);
                    }
                    return false;
                }
                i += 1;
            }
            arities_ok(body)
        },
        _ => true,
    }
}

/// Arities that do not fit among the first functions do not fit among all.
proof fn lemma_arities_stay_unfit(ds: Seq<crate::syntax::SeqFunDeclV>, n: nat, m: nat)
    requires
        n <= m <= ds.len(),
        !decls_arities_fit(ds, n),
    ensures
        !decls_arities_fit(ds, m),
    decreases m,
{
    if n < m {
        lemma_arities_stay_unfit(ds, n, (m - 1) as nat);
    }
}

} // verus!
