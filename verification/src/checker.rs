//! The static checker: scope, duplicate names and the range of integer
//! literals. It reports the first violation in reading order.

use vstd::prelude::*;
use vstd::pervasive::unreached;
use crate::errors::{CompileErr, Violation, reports};
use crate::renaming::scoped;
use crate::syntax::{ExpV, binding_names, decl_names};
use crate::select::{I63_MAX, I63_MIN};
use crate::syntax::{Exp, FunDecl, Name, Stage, in_stage, names_view, exps_view, bindings_view, decls_view};
use crate::table::{extend_names, lemma_with_name_set, lemma_with_names_set, names_contain, names_insert};

verus! {

/// The first of two findings.
pub open spec fn or_else<Span>(first: Option<(Violation, Span)>, second: Option<(Violation, Span)>) -> Option<
    (Violation, Span),
> {
    match first {
        Some(v) => Some(v),
        None => second,
    }
}

/// The first name among the first `n` of a list that occurs before its own
/// position.
pub open spec fn first_duplicate(names: Seq<Name>, n: nat) -> Option<Name>
    decreases n,
{
    if n == 0 || n > names.len() {
        None
    } else {
        match first_duplicate(names, (n - 1) as nat) {
            Some(name) => Some(name),
            None => if names.take(n - 1).contains(names[n - 1]) {
                Some(names[n - 1])
            } else {
                None
            },
        }
    }
}

/// The names that the bindings of a `let` bind.
pub open spec fn bound_names<Span>(bs: Seq<(String, Exp<Span>)>) -> Seq<Name> {
    Seq::new(bs.len(), |i: int| bs[i].0@)
}

/// The names that a group of functions declares.
pub open spec fn fun_names<Span>(ds: Seq<FunDecl<Exp<Span>, Span>>) -> Seq<Name> {
    Seq::new(ds.len(), |i: int| ds[i].name@)
}

/// A duplicate among the names of a list, as the violation of the given kind.
pub open spec fn duplicate_in<Span>(
    names: Seq<Name>,
    kind: spec_fn(Name) -> Violation,
    location: Span,
) -> Option<(Violation, Span)> {
    match first_duplicate(names, names.len()) {
        Some(name) => Some((kind(name), location)),
        None => None,
    }
}

/// The first violation in an expression, given the names in scope: `None`
/// if there is none.
pub open spec fn check<Span>(e: Exp<Span>, symbols: Set<Name>) -> Option<(Violation, Span)>
    decreases e, 0nat,
{
    match e {
        Exp::Num(i, ann) => if I63_MIN <= i <= I63_MAX {
            None
        } else {
            Some((Violation::Overflow(i), ann))
        },
        Exp::Var(x, ann) => if symbols.contains(x@) {
            None
        } else {
            Some((Violation::UnboundVariable(x@), ann))
        },
        Exp::Prim(_, es, _) => check_list(es@, es@.len(), symbols),
        Exp::Let { bindings, body, ann } => or_else(
            check_bindings(bindings@, bindings@.len(), symbols, ann),
            check(*body, symbols.union(bound_names(bindings@).to_set())),
        ),
        Exp::If { cond, thn, els, .. } => or_else(
            check(*cond, symbols),
            or_else(check(*thn, symbols), check(*els, symbols)),
        ),
        Exp::Semicolon { e1, e2, .. } => or_else(check(*e1, symbols), check(*e2, symbols)),
        Exp::FunDefs { decls, body, ann } => {
            let scope = symbols.union(fun_names(decls@).to_set());
            or_else(
                duplicate_in(fun_names(decls@), |n: Name| Violation::DuplicateFunName(n), ann),
                or_else(check_decls(decls@, decls@.len(), scope), check(*body, scope)),
            )
        },
        Exp::Call(f, args, _) => or_else(check(*f, symbols), check_list(args@, args@.len(), symbols)),
        Exp::Lambda { parameters, body, ann } => or_else(
            duplicate_in(names_view(parameters@), |n: Name| Violation::DuplicateArgName(n), ann),
            check(*body, symbols.union(names_view(parameters@).to_set())),
        ),
        _ => None,
    }
}

/// The first violation among the first `n` expressions of a list.
pub open spec fn check_list<Span>(es: Seq<Exp<Span>>, n: nat, symbols: Set<Name>) -> Option<
    (Violation, Span),
>
    decreases es, n,
{
    if n == 0 || n > es.len() {
        None
    } else {
        or_else(check_list(es, (n - 1) as nat, symbols), check(es[n - 1], symbols))
    }
}

/// The first violation among the first `n` bindings of a `let`: a name that
/// an earlier binding of the same `let` has bound, or a violation in a value.
/// A value sees the names bound before it.
pub open spec fn check_bindings<Span>(
    bs: Seq<(String, Exp<Span>)>,
    n: nat,
    symbols: Set<Name>,
    location: Span,
) -> Option<(Violation, Span)>
    decreases bs, n,
{
    if n == 0 || n > bs.len() {
        None
    } else {
        let names = bound_names(bs);
        or_else(
            check_bindings(bs, (n - 1) as nat, symbols, location),
            if names.take(n - 1).contains(names[n - 1]) {
                Some((Violation::DuplicateBinding(names[n - 1]), location))
            } else {
                check(bs[n - 1].1, symbols.union(names.take(n - 1).to_set()))
            },
        )
    }
}

/// The first violation among the first `n` functions of a group: a repeated
/// parameter, or a violation in a body. A body sees the scope and the
/// function's own parameters.
pub open spec fn check_decls<Span>(ds: Seq<FunDecl<Exp<Span>, Span>>, n: nat, scope: Set<Name>) -> Option<
    (Violation, Span),
>
    decreases ds, n,
{
    if n == 0 || n > ds.len() {
        None
    } else {
        let d = ds[n - 1];
        or_else(
            check_decls(ds, (n - 1) as nat, scope),
            or_else(
                duplicate_in(
                    names_view(d.parameters@),
                    |n: Name| Violation::DuplicateArgName(n),
                    d.ann,
                ),
                check(d.body, scope.union(names_view(d.parameters@).to_set())),
            ),
        )
    }
}

/// A duplicate found among the first names is the one found among all.
proof fn lemma_first_duplicate_stays(names: Seq<Name>, n: nat, m: nat)
    requires
        n <= m <= names.len(),
        first_duplicate(names, n) is Some,
    ensures
        first_duplicate(names, m) == first_duplicate(names, n),
    decreases m,
{
    if n < m {
        lemma_first_duplicate_stays(names, n, (m - 1) as nat);
    }
}

/// The first repeated name of a list, if any.
fn find_duplicate(names: &Vec<String>) -> (r: Option<usize>)
    ensures
        match r {
            Some(i) => i < names.len() && first_duplicate(names_view(names@), names.len() as nat)
                == Some(names[i as int]@),
            None => first_duplicate(names_view(names@), names.len() as nat) is None,
        },
{
    let ghost nv = names_view(names@);
    let mut seen: Vec<String> = Vec::new();
    let mut i: usize = 0;
    assert(names_view(seen@) =~= nv.take(0));
    while i < names.len()
        invariant
            i <= names.len(),
            nv == names_view(names@),
            names_view(seen@) == nv.take(i as int),
            first_duplicate(nv, i as nat) is None,
        decreases names.len() - i,
    {
        if names_contain(&seen, &names[i]) {
            proof {
                assert(first_duplicate(nv, (i + 1) as nat) == Some(nv[i as int]));
                lemma_first_duplicate_stays(nv, (i + 1) as nat, names.len() as nat);
            }
            return Some(i);
        }
        let ghost before = names_view(seen@);
        seen.push(names[i].clone());
        assert(names_view(seen@) =~= before.push(nv[i as int]));
        assert(names_view(seen@) =~= nv.take(i + 1));
        i += 1;
    }
    None
}


/// A violation found among the first expressions is the one found among all.
proof fn lemma_check_list_stays<Span>(es: Seq<Exp<Span>>, n: nat, m: nat, symbols: Set<Name>)
    requires
        n <= m <= es.len(),
        check_list(es, n, symbols) is Some,
    ensures
        check_list(es, m, symbols) == check_list(es, n, symbols),
    decreases m,
{
    if n < m {
        lemma_check_list_stays(es, n, (m - 1) as nat, symbols);
    }
}

/// A violation found among the first bindings is the one found among all.
proof fn lemma_check_bindings_stays<Span>(
    bs: Seq<(String, Exp<Span>)>,
    n: nat,
    m: nat,
    symbols: Set<Name>,
    location: Span,
)
    requires
        n <= m <= bs.len(),
        check_bindings(bs, n, symbols, location) is Some,
    ensures
        check_bindings(bs, m, symbols, location) == check_bindings(bs, n, symbols, location),
    decreases m,
{
    if n < m {
        lemma_check_bindings_stays(bs, n, (m - 1) as nat, symbols, location);
    }
}

/// A violation found among the first functions is the one found among all.
proof fn lemma_check_decls_stays<Span>(
    ds: Seq<FunDecl<Exp<Span>, Span>>,
    n: nat,
    m: nat,
    scope: Set<Name>,
)
    requires
        n <= m <= ds.len(),
        check_decls(ds, n, scope) is Some,
    ensures
        check_decls(ds, m, scope) == check_decls(ds, n, scope),
    decreases m,
{
    if n < m {
        lemma_check_decls_stays(ds, n, (m - 1) as nat, scope);
    }
}

/// A copy of an annotation, to go into an error.
fn place<Span: Clone>(ann: &Span) -> (r: Span)
    ensures
        vstd::pervasive::cloned(*ann, r),
{
    ann.clone()
}

/// [`check_prog`] on each expression of a list, up to the first violation.
#[verifier::loop_isolation(false)]
fn check_exps<Span: Clone>(es: &Vec<Exp<Span>>, symbols: &Vec<String>) -> (r: Result<
    (),
    CompileErr<Span>,
>)
    requires
        crate::syntax::all_in_stage(exps_view(es@), Stage::Surface),
    ensures
        reports(r, check_list(es@, es.len() as nat, names_view(symbols@).to_set())),
    decreases es, 0nat,
{
    let ghost syms = names_view(symbols@).to_set();
    let mut i: usize = 0;
    while i < es.len()
        invariant
            i <= es.len(),
            check_list(es@, i as nat, syms) is None,
        decreases es.len() - i,
    {
        assert(in_stage(exps_view(es@)[i as int], Stage::Surface));
        match check_prog(&es[i], symbols) {
            Err(err) => {
                proof {
                    lemma_check_list_stays(es@, (i + 1) as nat, es.len() as nat, syms);
                }
                return Err(err);
            },
            Ok(_) => {},
        }
        i += 1;
    }
    Ok(())
}

/// [`check_prog`] on a `let`.
#[verifier::loop_isolation(false)]
#[verifier::rlimit(50)]
fn check_let<Span: Clone>(e: &Exp<Span>, symbols: &Vec<String>) -> (r: Result<(), CompileErr<Span>>)
    requires
        e is Let,
        in_stage(e@, Stage::Surface),
    ensures
        reports(r, check(*e, names_view(symbols@).to_set())),
    decreases e, 0nat,
{
    let ghost syms = names_view(symbols@).to_set();
    match e {
        Exp::Let { bindings, body, ann } => {
            let ghost names = bound_names(bindings@);
            let mut scoped_symbols = crate::syntax::clone_names(symbols);
            let mut appeared: Vec<String> = Vec::new();
            let mut i: usize = 0;
            proof {
                assert(names_view(appeared@) =~= names.take(0));
                assert(names.take(0).to_set() =~= Set::<Name>::empty());
                assert(syms.union(Set::<Name>::empty()) =~= syms);
            }
            while i < bindings.len()
                invariant
                    i <= bindings.len(),
                    names_view(appeared@) == names.take(i as int),
                    names_view(scoped_symbols@).to_set() == syms.union(names.take(i as int).to_set()),
                    check_bindings(bindings@, i as nat, syms, *ann) is None,
                decreases bindings.len() - i,
            {
                let name = &bindings[i].0;
                assert(names[i as int] == name@);
                if names_contain(&appeared, name) {
                    proof {
                        lemma_check_bindings_stays(
                            bindings@,
                            (i + 1) as nat,
                            bindings.len() as nat,
                            syms,
                            *ann,
                        );
                    }
                    return Err(
                        CompileErr::DuplicateBinding {
                            duplicated_name: name.clone(),
                            location: place(ann),
                        },
                    );
                }
                assert(e@->Let_bindings == bindings_view(bindings@));
                assert(in_stage(bindings_view(bindings@)[i as int].1, Stage::Surface));
                match check_prog(&bindings[i].1, &scoped_symbols) {
                    Err(err) => {
                        proof {
                            lemma_check_bindings_stays(
                                bindings@,
                                (i + 1) as nat,
                                bindings.len() as nat,
                                syms,
                                *ann,
                            );
                        }
                        return Err(err);
                    },
                    Ok(_) => {},
                }
                let ghost before = names_view(appeared@);
                let ghost scope = names_view(scoped_symbols@);
                appeared.push(name.clone());
                names_insert(&mut scoped_symbols, name.clone());
                proof {
                    assert(names_view(appeared@) =~= before.push(name@));
                    assert(names.take(i + 1) =~= names.take(i as int).push(name@));
                    lemma_with_name_set(scope, name@);
                    names.take(i as int).lemma_push_to_set_commute(name@);
                    assert(syms.union(names.take(i as int).to_set()).insert(name@) =~= syms.union(
                        names.take(i + 1).to_set(),
                    ));
                }
                i += 1;
            }
            proof {
                assert(names.take(bindings.len() as int) =~= names);
            }
            check_prog(body, &scoped_symbols)
        },
        _ => unreached(),
    }
}

/// The names of the functions of a group.
fn names_of<Span>(decls: &Vec<FunDecl<Exp<Span>, Span>>) -> (names: Vec<String>)
    ensures
        names_view(names@) == fun_names(decls@),
{
    let mut names: Vec<String> = Vec::new();
    let mut i: usize = 0;
    while i < decls.len()
        invariant
            i <= decls.len(),
            names.len() == i,
            forall|j: int| 0 <= j < i ==> (#[trigger] names[j])@ == decls[j].name@,
        decreases decls.len() - i,
    {
        names.push(decls[i].name.clone());
        i += 1;
    }
    assert(names_view(names@) =~= fun_names(decls@));
    names
}

/// [`check_prog`] on a lambda, or on one function of a group: no parameter
/// twice, and the body with the parameters in scope.
fn check_function<Span: Clone>(
    parameters: &Vec<String>,
    body: &Exp<Span>,
    ann: &Span,
    scope: &Vec<String>,
) -> (r: Result<(), CompileErr<Span>>)
    requires
        in_stage(body@, Stage::Surface),
    ensures
        reports(
            r,
            or_else(
                duplicate_in(
                    names_view(parameters@),
                    |n: Name| Violation::DuplicateArgName(n),
                    *ann,
                ),
                check(*body, names_view(scope@).to_set().union(names_view(parameters@).to_set())),
            ),
        ),
    decreases body, 2nat,
{
    match find_duplicate(parameters) {
        Some(i) => {
            return Err(
                CompileErr::DuplicateArgName {
                    duplicated_name: parameters[i].clone(),
                    location: place(ann),
                },
            );
        },
        None => {},
    }
    let scoped_symbols = extend_names(scope, parameters);
    proof {
        lemma_with_names_set(names_view(scope@), names_view(parameters@), parameters.len() as nat);
        assert(names_view(parameters@).take(parameters.len() as int) =~= names_view(parameters@));
    }
    check_prog(body, &scoped_symbols)
}

/// [`check_prog`] on a group of functions.
#[verifier::loop_isolation(false)]
#[verifier::rlimit(50)]
fn check_fundefs<Span: Clone>(e: &Exp<Span>, symbols: &Vec<String>) -> (r: Result<
    (),
    CompileErr<Span>,
>)
    requires
        e is FunDefs,
        in_stage(e@, Stage::Surface),
    ensures
        reports(r, check(*e, names_view(symbols@).to_set())),
    decreases e, 0nat,
{
    let ghost syms = names_view(symbols@).to_set();
    match e {
        Exp::FunDefs { decls, body, ann } => {
            let mutual_funcs = names_of(decls);
            match find_duplicate(&mutual_funcs) {
                Some(i) => {
                    return Err(
                        CompileErr::DuplicateFunName {
                            duplicated_name: mutual_funcs[i].clone(),
                            location: place(ann),
                        },
                    );
                },
                None => {},
            }
            let scoped_symbols = extend_names(symbols, &mutual_funcs);
            let ghost scope = syms.union(fun_names(decls@).to_set());
            proof {
                lemma_with_names_set(
                    names_view(symbols@),
                    names_view(mutual_funcs@),
                    mutual_funcs.len() as nat,
                );
                assert(names_view(mutual_funcs@).take(mutual_funcs.len() as int) =~= names_view(
                    mutual_funcs@,
                ));
            }
            let mut i: usize = 0;
            while i < decls.len()
                invariant
                    i <= decls.len(),
                    check_decls(decls@, i as nat, scope) is None,
                decreases decls.len() - i,
            {
                let decl = &decls[i];
                assert(in_stage(decls_view(decls@)[i as int].body, Stage::Surface));
                match check_function(&decl.parameters, &decl.body, &decl.ann, &scoped_symbols) {
                    Err(err) => {
                        proof {
                            lemma_check_decls_stays(
                                decls@,
                                (i + 1) as nat,
                                decls.len() as nat,
                                scope,
                            );
                        }
                        return Err(err);
                    },
                    Ok(_) => {},
                }
                i += 1;
            }
            check_prog(body, &scoped_symbols)
        },
        _ => unreached(),
    }
}

/// Checks an expression with the given names in scope: `Ok` if it has no
/// violation, else the first violation in reading order, with a copy of the
/// annotation of its place.
pub fn check_prog<Span>(e: &Exp<Span>, symbols: &Vec<String>) -> (r: Result<(), CompileErr<Span>>) where
    Span: Clone,

    requires
        in_stage(e@, Stage::Surface),
    ensures
        reports(r, check(*e, names_view(symbols@).to_set())),
    decreases e, 1nat,
{
    match e {
        Exp::Num(i, ann) => {
            if *i > I63_MAX || *i < I63_MIN {
                return Err(CompileErr::Overflow { num: *i, location: place(ann) });
            }
            Ok(())
        },
        Exp::Var(name, ann) => {
            if !names_contain(symbols, name) {
                return Err(
                    CompileErr::UnboundVariable { unbound: name.clone(), location: place(ann) },
                );
            }
            Ok(())
        },
        Exp::Bool(_, _) => Ok(()),
        Exp::Prim(_, exps, _) => check_exps(exps, symbols),
        Exp::Let { .. } => check_let(e, symbols),
        Exp::If { cond, thn, els, ann: _ } => {
            match check_prog(cond, symbols) {
                Err(err) => {
                    return Err(err);
                },
                Ok(_) => {},
            }
            match check_prog(thn, symbols) {
                Err(err) => {
                    return Err(err);
                },
                Ok(_) => {},
            }
            check_prog(els, symbols)
        },
        Exp::Semicolon { e1, e2, ann: _ } => {
            match check_prog(e1, symbols) {
                Err(err) => {
                    return Err(err);
                },
                Ok(_) => {},
            }
            check_prog(e2, symbols)
        },
        Exp::FunDefs { .. } => check_fundefs(e, symbols),
        Exp::Call(func, params, _) => {
            match check_prog(func, symbols) {
                Err(err) => {
                    return Err(err);
                },
                Ok(_) => {},
            }
            check_exps(params, symbols)
        },
        Exp::Lambda { parameters, body, ann } => check_function(parameters, body, ann, symbols),
        _ => unreached(),
    }
}


/// Where a list has no violation, none of its expressions has one.
pub proof fn lemma_check_list_none<Span>(es: Seq<Exp<Span>>, n: nat, symbols: Set<Name>, i: int)
    requires
        0 <= i < n <= es.len(),
        check_list(es, n, symbols) is None,
    ensures
        check(es[i], symbols) is None,
    decreases n,
{
    if i < n - 1 {
        lemma_check_list_none(es, (n - 1) as nat, symbols, i);
    }
}

/// Where the bindings of a `let` have no violation, no value has one, seen
/// with the names bound before it.
pub proof fn lemma_check_bindings_none<Span>(
    bs: Seq<(String, Exp<Span>)>,
    n: nat,
    symbols: Set<Name>,
    location: Span,
    i: int,
)
    requires
        0 <= i < n <= bs.len(),
        check_bindings(bs, n, symbols, location) is None,
    ensures
        check(bs[i].1, symbols.union(bound_names(bs).take(i).to_set())) is None,
    decreases n,
{
    if i < n - 1 {
        lemma_check_bindings_none(bs, (n - 1) as nat, symbols, location, i);
    }
}

/// Where the functions of a group have no violation, no body has one, seen
/// with the function's parameters.
pub proof fn lemma_check_decls_none<Span>(
    ds: Seq<FunDecl<Exp<Span>, Span>>,
    n: nat,
    scope: Set<Name>,
    i: int,
)
    requires
        0 <= i < n <= ds.len(),
        check_decls(ds, n, scope) is None,
    ensures
        check(ds[i].body, scope.union(names_view(ds[i].parameters@).to_set())) is None,
    decreases n,
{
    if i < n - 1 {
        lemma_check_decls_none(ds, (n - 1) as nat, scope, i);
    }
}

/// In a program that the checker accepts, every variable is bound.
#[verifier::rlimit(50)]
pub proof fn lemma_checked_scoped<Span>(e: Exp<Span>, symbols: Set<Name>)
    requires
        check(e, symbols) is None,
    ensures
        scoped(e@, symbols),
    decreases e,
{
    match e {
        Exp::Prim(_, es, _) => {
            assert forall|i: int| 0 <= i < es@.len() implies scoped(
                #[trigger] exps_view(es@)[i],
                symbols,
            ) by {
                lemma_check_list_none(es@, es@.len(), symbols, i);
                lemma_checked_scoped(es@[i], symbols);
            }
            assert(e@->Prim_1 == exps_view(es@));
            assert(scoped(e@, symbols));
        },
        Exp::Let { bindings, body, ann } => {
            let bs = bindings@;
            let names = bound_names(bs);
            assert(binding_names(bindings_view(bs)) =~= names);
            assert forall|i: int| 0 <= i < bs.len() implies scoped(
                (#[trigger] bindings_view(bs)[i]).1,
                symbols.union(names.take(i).to_set()),
            ) by {
                lemma_check_bindings_none(bs, bs.len(), symbols, ann, i);
                lemma_checked_scoped(bs[i].1, symbols.union(names.take(i).to_set()));
            }
            lemma_checked_scoped(*body, symbols.union(names.to_set()));
            assert(e@ == ExpV::Let { bindings: bindings_view(bs), body: Box::new(body@) });
            assert(scoped(e@, symbols));
        },
        Exp::If { cond, thn, els, .. } => {
            lemma_checked_scoped(*cond, symbols);
            lemma_checked_scoped(*thn, symbols);
            lemma_checked_scoped(*els, symbols);
            assert(scoped(e@, symbols));
        },
        Exp::Semicolon { e1, e2, .. } => {
            lemma_checked_scoped(*e1, symbols);
            lemma_checked_scoped(*e2, symbols);
            assert(scoped(e@, symbols));
        },
        Exp::FunDefs { decls, body, ann } => {
            let ds = decls@;
            let names = fun_names(ds);
            let scope = symbols.union(names.to_set());
            assert(decl_names(decls_view(ds)) =~= names);
            assert forall|i: int| 0 <= i < ds.len() implies scoped(
                (#[trigger] decls_view(ds)[i]).body,
                scope.union(decls_view(ds)[i].parameters.to_set()),
            ) by {
                lemma_check_decls_none(ds, ds.len(), scope, i);
                lemma_checked_scoped(ds[i].body, scope.union(names_view(ds[i].parameters@).to_set()));
            }
            lemma_checked_scoped(*body, scope);
            assert(e@ == ExpV::FunDefs { decls: decls_view(ds), body: Box::new(body@) });
            assert(scoped(e@, symbols));
        },
        Exp::Call(f, args, _) => {
            lemma_checked_scoped(*f, symbols);
            assert forall|i: int| 0 <= i < args@.len() implies scoped(
                #[trigger] exps_view(args@)[i],
                symbols,
            ) by {
                lemma_check_list_none(args@, args@.len(), symbols, i);
                lemma_checked_scoped(args@[i], symbols);
            }
            assert(e@ == ExpV::Call(Box::new(f@), exps_view(args@)));
            assert(scoped(e@, symbols));
        },
        Exp::Lambda { parameters, body, .. } => {
            lemma_checked_scoped(*body, symbols.union(names_view(parameters@).to_set()));
            assert(scoped(e@, symbols));
        },
        _ => {},
    }
}

} // verus!
