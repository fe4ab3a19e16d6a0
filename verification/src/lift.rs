//! Hoisting: what lambda lifting moves to the top level, and what it leaves
//! behind, as mathematics.

use vstd::prelude::*;
use crate::syntax::{ExpV, FunDeclV, Name, Prim, VarOrLabelV, binding_names, decl_names};
use crate::table::with_names;
use crate::text::numbered;

verus! {

/// The name of the parameter through which a lambda gets what it captured.
pub open spec fn env_name() -> Name {
    "#env"@
}

/// The name of the global function that the lambda hoisted as number `n`
/// becomes.
pub open spec fn lambda_name(n: nat) -> Name {
    numbered("lambda_"@, n)
}

/// The variables in scope in the body of a function declared with `vars` in
/// scope.
pub open spec fn decl_scope(vars: Seq<Name>, parameters: Seq<Name>) -> Seq<Name> {
    with_names(vars, parameters, parameters.len())
}

/// The reads that give each captured variable its value back from the
/// environment array.
pub open spec fn env_bindings(vars: Seq<Name>) -> Seq<(Name, ExpV)> {
    Seq::new(
        vars.len(),
        |i: int| (vars[i], ExpV::Prim(Prim::ArrayGet, seq![ExpV::Var(env_name()), ExpV::Num(i as i64)])),
    )
}

/// The variables in scope as expressions: what a call passes on, and what an
/// environment array holds.
pub open spec fn captured(vars: Seq<Name>) -> Seq<ExpV> {
    Seq::new(vars.len(), |i: int| ExpV::Var(vars[i]))
}

/// How many of the variables in scope a call of the function `name` has to
/// pass on: all that were in scope where the function was declared, if it
/// becomes global, and none if it stays local.
pub open spec fn captures(name: Name, vars: Seq<Name>, need: Set<Name>) -> usize {
    if need.contains(name) {
        vars.len() as usize
    } else {
        0
    }
}

/// The functions in scope after the first `n` functions of a group were
/// declared with `vars` in scope: each name with the number of variables
/// that a call of it passes on.
pub open spec fn declare(
    funs: Map<Name, usize>,
    ds: Seq<FunDeclV>,
    n: nat,
    vars: Seq<Name>,
    need: Set<Name>,
) -> Map<Name, usize>
    decreases n,
{
    if n == 0 || n > ds.len() {
        funs
    } else {
        declare(funs, ds, (n - 1) as nat, vars, need).insert(
            ds[n - 1].name,
            captures(ds[n - 1].name, vars, need),
        )
    }
}

/// The variables that a call of `f` passes on behind its arguments: those
/// that were in scope where `f` was declared. They are the first of the
/// variables in scope at the call, since a scope only grows.
pub open spec fn passed(vars: Seq<Name>, funs: Map<Name, usize>, f: Name) -> Seq<Name> {
    if funs.contains_key(f) && funs[f] <= vars.len() {
        vars.take(funs[f] as int)
    } else {
        Seq::empty()
    }
}

/// What is left of an expression when every lambda, and every function
/// named in `need`, has gone to the top level; the functions of a group that
/// are not named stay, in one group. `vars` are the variables in scope and
/// `funs` maps each function in scope to the number of variables that a
/// call of it passes on, and `g` is the number of global functions before.
pub open spec fn lift(e: ExpV, vars: Seq<Name>, funs: Map<Name, usize>, need: Set<Name>, g: nat) -> ExpV
    decreases e, 0nat,
{
    match e {
        ExpV::Prim(p, es) => ExpV::Prim(p, lift_list(es, vars, funs, need, g)),
        ExpV::Let { bindings, body } => ExpV::Let {
            bindings: lift_bindings(bindings, vars, funs, need, g),
            body: Box::new(
                lift(
                    *body,
                    with_names(vars, binding_names(bindings), bindings.len()),
                    funs, need,
                    g + hoisted_bindings(bindings, bindings.len(), vars, funs, need, g).len(),
                ),
            ),
        },
        ExpV::If { cond, thn, els } => {
            let g1 = g + hoisted(*cond, vars, funs, need, g).len();
            let g2 = g1 + hoisted(*thn, vars, funs, need, g1).len();
            ExpV::If {
                cond: Box::new(lift(*cond, vars, funs, need, g)),
                thn: Box::new(lift(*thn, vars, funs, need, g1)),
                els: Box::new(lift(*els, vars, funs, need, g2)),
            }
        },
        ExpV::FunDefs { decls, body } => {
            let inner = declare(funs, decls, decls.len(), vars, need);
            let rest = lift(
                *body,
                vars,
                inner,
                need,
                g + hoisted_decls(decls, decls.len(), vars, inner, need, g).len(),
            );
            let kept = kept_decls(decls, decls.len(), vars, inner, need, g);
            if kept.len() == 0 {
                rest
            } else {
                ExpV::FunDefs { decls: kept, body: Box::new(rest) }
            }
        },
        ExpV::Lambda { parameters, body } => ExpV::MakeClosure {
            arity: parameters.len() as usize,
            label: lambda_name(g + hoisted(*body, decl_scope(vars, parameters), funs, need, g).len()),
            env: Box::new(ExpV::Prim(Prim::MakeArray, captured(vars))),
        },
        ExpV::MakeClosure { arity, label, env } => ExpV::MakeClosure {
            arity,
            label,
            env: Box::new(lift(*env, vars, funs, need, g)),
        },
        ExpV::ClosureCall(f, args) => ExpV::ClosureCall(
            Box::new(lift(*f, vars, funs, need, g)),
            lift_list(args, vars, funs, need, g + hoisted(*f, vars, funs, need, g).len()),
        ),
        ExpV::DirectCall(f, args) => ExpV::DirectCall(
            f,
            lift_list(args, vars, funs, need, g) + captured(passed(vars, funs, f)),
        ),
        _ => e,
    }
}

/// [`lift`] of each expression of a list, from left to right.
pub open spec fn lift_list(es: Seq<ExpV>, vars: Seq<Name>, funs: Map<Name, usize>, need: Set<Name>, g: nat) -> Seq<ExpV>
    decreases es, es.len() + 1,
{
    Seq::new(
        es.len(),
        |i: int|
            if 0 <= i < es.len() {
                lift(es[i], vars, funs, need, g + hoisted_list(es, i as nat, vars, funs, need, g).len())
            } else {
                arbitrary()
            },
    )
}

/// [`lift`] of each binding of a `let`: a binding sees the names before it.
pub open spec fn lift_bindings(bs: Seq<(Name, ExpV)>, vars: Seq<Name>, funs: Map<Name, usize>, need: Set<Name>, g: nat) -> Seq<
    (Name, ExpV),
>
    decreases bs, bs.len() + 1,
{
    Seq::new(
        bs.len(),
        |i: int|
            if 0 <= i < bs.len() {
                (
                    bs[i].0,
                    lift(
                        bs[i].1,
                        with_names(vars, binding_names(bs), i as nat),
                        funs, need,
                        g + hoisted_bindings(bs, i as nat, vars, funs, need, g).len(),
                    ),
                )
            } else {
                arbitrary()
            },
    )
}

/// Of the first `n` functions of a group, those that stay local, in the
/// order of the group, with what is left of their bodies: a function stays
/// local if and only if its name is not in `need`.
pub open spec fn kept_decls(ds: Seq<FunDeclV>, n: nat, vars: Seq<Name>, funs: Map<Name, usize>, need: Set<Name>, g: nat) -> Seq<
    FunDeclV,
>
    decreases ds, n,
{
    if n == 0 || n > ds.len() {
        Seq::empty()
    } else {
        let d = ds[n - 1];
        let prev = kept_decls(ds, (n - 1) as nat, vars, funs, need, g);
        if need.contains(d.name) {
            prev
        } else {
            prev.push(
                FunDeclV {
                    name: d.name,
                    parameters: d.parameters,
                    body: lift(
                        d.body,
                        decl_scope(vars, d.parameters),
                        funs,
                        need,
                        g + hoisted_decls(ds, (n - 1) as nat, vars, funs, need, g).len(),
                    ),
                },
            )
        }
    }
}

/// The global functions that an expression gives rise to, in the order in
/// which they are added: what is inside comes before what is around it.
pub open spec fn hoisted(e: ExpV, vars: Seq<Name>, funs: Map<Name, usize>, need: Set<Name>, g: nat) -> Seq<FunDeclV>
    decreases e, 0nat,
{
    match e {
        ExpV::Prim(_, es) => hoisted_list(es, es.len(), vars, funs, need, g),
        ExpV::Let { bindings, body } => {
            let first = hoisted_bindings(bindings, bindings.len(), vars, funs, need, g);
            first + hoisted(
                *body,
                with_names(vars, binding_names(bindings), bindings.len()),
                funs, need,
                g + first.len(),
            )
        },
        ExpV::If { cond, thn, els } => {
            let h0 = hoisted(*cond, vars, funs, need, g);
            let h1 = hoisted(*thn, vars, funs, need, g + h0.len());
            h0 + h1 + hoisted(*els, vars, funs, need, g + h0.len() + h1.len())
        },
        ExpV::FunDefs { decls, body } => {
            let inner = declare(funs, decls, decls.len(), vars, need);
            let first = hoisted_decls(decls, decls.len(), vars, inner, need, g);
            first + hoisted(*body, vars, inner, need, g + first.len())
        },
        ExpV::Lambda { parameters, body } => {
            let scope = decl_scope(vars, parameters);
            let inner = hoisted(*body, scope, funs, need, g);
            inner.push(
                FunDeclV {
                    name: lambda_name(g + inner.len()),
                    parameters: parameters.push(env_name()),
                    body: ExpV::Let {
                        bindings: env_bindings(vars),
                        body: Box::new(lift(*body, scope, funs, need, g)),
                    },
                },
            )
        },
        ExpV::MakeClosure { env, .. } => hoisted(*env, vars, funs, need, g),
        ExpV::ClosureCall(f, args) => {
            let first = hoisted(*f, vars, funs, need, g);
            first + hoisted_list(args, args.len(), vars, funs, need, g + first.len())
        },
        ExpV::DirectCall(_, args) => hoisted_list(args, args.len(), vars, funs, need, g),
        _ => Seq::empty(),
    }
}

/// What the first `n` expressions of a list give rise to.
pub open spec fn hoisted_list(es: Seq<ExpV>, n: nat, vars: Seq<Name>, funs: Map<Name, usize>, need: Set<Name>, g: nat) -> Seq<
    FunDeclV,
>
    decreases es, n,
{
    if n == 0 || n > es.len() {
        Seq::empty()
    } else {
        let prev = hoisted_list(es, (n - 1) as nat, vars, funs, need, g);
        prev + hoisted(es[n - 1], vars, funs, need, g + prev.len())
    }
}

/// What the first `n` bindings of a `let` give rise to.
pub open spec fn hoisted_bindings(bs: Seq<(Name, ExpV)>, n: nat, vars: Seq<Name>, funs: Map<Name, usize>, need: Set<Name>, g: nat) -> Seq<
    FunDeclV,
>
    decreases bs, n,
{
    if n == 0 || n > bs.len() {
        Seq::empty()
    } else {
        let prev = hoisted_bindings(bs, (n - 1) as nat, vars, funs, need, g);
        prev + hoisted(
            bs[n - 1].1,
            with_names(vars, binding_names(bs), (n - 1) as nat),
            funs, need,
            g + prev.len(),
        )
    }
}

/// What the first `n` functions of a group give rise to: for each what its
/// body gives rise to and then, if and only if its name is in `need`, the
/// function itself, with the variables in scope as further parameters.
pub open spec fn hoisted_decls(ds: Seq<FunDeclV>, n: nat, vars: Seq<Name>, funs: Map<Name, usize>, need: Set<Name>, g: nat) -> Seq<
    FunDeclV,
>
    decreases ds, n,
{
    if n == 0 || n > ds.len() {
        Seq::empty()
    } else {
        let prev = hoisted_decls(ds, (n - 1) as nat, vars, funs, need, g);
        let d = ds[n - 1];
        let scope = decl_scope(vars, d.parameters);
        let inner = hoisted(d.body, scope, funs, need, g + prev.len());
        if need.contains(d.name) {
            (prev + inner).push(
                FunDeclV {
                    name: d.name,
                    parameters: d.parameters + vars,
                    body: lift(d.body, scope, funs, need, g + prev.len()),
                },
            )
        } else {
            prev + inner
        }
    }
}


/// The global function of a given name: the one added last, if any.
pub open spec fn find_decl(globals: Seq<FunDeclV>, name: Name) -> Option<FunDeclV>
    decreases globals.len(),
{
    if globals.len() == 0 {
        None
    } else if globals.last().name == name {
        Some(globals.last())
    } else {
        find_decl(globals.drop_last(), name)
    }
}

/// The call of a closure, spelled out: the callee is bound, checked to be a
/// closure of the right arity and untagged, code pointer and environment are
/// read from it, and the code is called with the environment as last
/// argument.
pub open spec fn closure_protocol(callee: ExpV, args: Seq<ExpV>, is_tail: bool) -> ExpV {
    ExpV::Let {
        bindings: seq![
            ("#lambda"@, callee),
            (
                "#untagged"@,
                ExpV::Prim(
                    Prim::CheckArityAndUntag(args.len() as usize),
                    seq![ExpV::Var("#lambda"@)],
                ),
            ),
            ("#code_ptr"@, ExpV::Prim(Prim::GetCode, seq![ExpV::Var("#untagged"@)])),
            ("#env"@, ExpV::Prim(Prim::GetEnv, seq![ExpV::Var("#untagged"@)])),
        ],
        body: Box::new(
            ExpV::ExternalCall {
                fun: VarOrLabelV::Var("#code_ptr"@),
                args: args.push(ExpV::Var("#env"@)),
                is_tail,
            },
        ),
    }
}

/// The parameters of a function that a call with `n` arguments leaves
/// open: those after the first `n`.
pub open spec fn missing(parameters: Seq<Name>, n: nat) -> Seq<Name> {
    if n <= parameters.len() {
        parameters.skip(n as int)
    } else {
        Seq::empty()
    }
}

/// An expression with every call turned into the kind of call it is: a call
/// of a global function is external, and passes on, behind its own
/// arguments, the variables named by the parameters of the function that its
/// arguments leave open; a call of a local function is an internal tail
/// call; and a call of a closure follows the closure protocol. `is_tail`
/// says whether the value of the expression is the value of the function it
/// stands in.
pub open spec fn rewrite(e: ExpV, globals: Seq<FunDeclV>, is_tail: bool) -> ExpV
    decreases e,
{
    match e {
        ExpV::Prim(p, es) => ExpV::Prim(p, rewrite_list(es, globals)),
        ExpV::Let { bindings, body } => ExpV::Let {
            bindings: rewrite_bindings(bindings, globals),
            body: Box::new(rewrite(*body, globals, is_tail)),
        },
        ExpV::If { cond, thn, els } => ExpV::If {
            cond: Box::new(rewrite(*cond, globals, false)),
            thn: Box::new(rewrite(*thn, globals, is_tail)),
            els: Box::new(rewrite(*els, globals, is_tail)),
        },
        ExpV::FunDefs { decls, body } => ExpV::FunDefs {
            decls: rewrite_decls(decls, globals),
            body: Box::new(rewrite(*body, globals, is_tail)),
        },
        ExpV::MakeClosure { arity, label, env } => ExpV::MakeClosure {
            arity,
            label,
            env: Box::new(rewrite(*env, globals, false)),
        },
        ExpV::DirectCall(f, args) => match find_decl(globals, f) {
            None => ExpV::InternalTailCall(f, rewrite_list(args, globals)),
            Some(d) => ExpV::ExternalCall {
                fun: VarOrLabelV::Label(f),
                args: rewrite_list(args, globals) + captured(missing(d.parameters, args.len())),
                is_tail,
            },
        },
        ExpV::ClosureCall(f, args) => closure_protocol(
            rewrite(*f, globals, false),
            rewrite_list(args, globals),
            is_tail,
        ),
        _ => e,
    }
}

/// [`rewrite`] of each expression of a list; none is in tail position.
pub open spec fn rewrite_list(es: Seq<ExpV>, globals: Seq<FunDeclV>) -> Seq<ExpV>
    decreases es,
{
    Seq::new(
        es.len(),
        |i: int|
            if 0 <= i < es.len() {
                rewrite(es[i], globals, false)
            } else {
                arbitrary()
            },
    )
}

/// [`rewrite`] of the value of each binding; none is in tail position.
pub open spec fn rewrite_bindings(bs: Seq<(Name, ExpV)>, globals: Seq<FunDeclV>) -> Seq<(Name, ExpV)>
    decreases bs,
{
    Seq::new(
        bs.len(),
        |i: int|
            if 0 <= i < bs.len() {
                (bs[i].0, rewrite(bs[i].1, globals, false))
            } else {
                arbitrary()
            },
    )
}

/// [`rewrite`] of the body of each function; each body is in tail position.
pub open spec fn rewrite_decls(ds: Seq<FunDeclV>, globals: Seq<FunDeclV>) -> Seq<FunDeclV>
    decreases ds,
{
    Seq::new(
        ds.len(),
        |i: int|
            if 0 <= i < ds.len() {
                FunDeclV {
                    name: ds[i].name,
                    parameters: ds[i].parameters,
                    body: rewrite(ds[i].body, globals, true),
                }
            } else {
                arbitrary()
            },
    )
}


/// The functions that have to become global because of how an expression
/// uses them. A function may stay local only if every use of it is a call in
/// tail position, made from the body that declares it or from the body of a
/// function of its own group: a variable that names a function in scope
/// makes the function global, and so does a call that is not such a call.
/// `known` holds the functions in scope; `local` holds those that the place
/// of the expression may call without leaving its frame; `is_tail` says
/// whether the value of the expression is the value of the function it
/// stands in. If one function of a group has to become global, the whole
/// group does.
pub open spec fn marks(e: ExpV, known: Set<Name>, local: Set<Name>, is_tail: bool) -> Set<Name>
    decreases e, 0nat,
{
    match e {
        ExpV::Var(x) => if known.contains(x) {
            Set::empty().insert(x)
        } else {
            Set::empty()
        },
        ExpV::MakeClosure { label, env, .. } => marks(*env, known, local, false).insert(label),
        ExpV::Prim(_, es) => marks_list(es, es.len(), known, local),
        ExpV::Let { bindings, body } => marks_bindings(
            bindings,
            bindings.len(),
            known,
            local,
        ).union(marks(*body, known, local, is_tail)),
        ExpV::If { cond, thn, els } => marks(*cond, known, local, false).union(
            marks(*thn, known, local, is_tail),
        ).union(marks(*els, known, local, is_tail)),
        ExpV::FunDefs { decls, body } => {
            let names = decl_names(decls).to_set();
            let inner = marks_decls(decls, decls.len(), known.union(names), names).union(
                marks(*body, known.union(names), local.union(names), is_tail),
            );
            if inner.disjoint(names) {
                inner
            } else {
                inner.union(names)
            }
        },
        ExpV::DirectCall(f, args) => if is_tail && local.contains(f) {
            marks_list(args, args.len(), known, local)
        } else {
            marks_list(args, args.len(), known, local).insert(f)
        },
        ExpV::ClosureCall(f, args) => marks(*f, known, local, false).union(
            marks_list(args, args.len(), known, local),
        ),
        ExpV::Lambda { body, .. } => marks(*body, known, Set::empty(), true),
        _ => Set::empty(),
    }
}

/// [`marks`] of the first `n` expressions of a list; none is in tail
/// position.
pub open spec fn marks_list(es: Seq<ExpV>, n: nat, known: Set<Name>, local: Set<Name>) -> Set<Name>
    decreases es, n,
{
    if n == 0 || n > es.len() {
        Set::empty()
    } else {
        marks_list(es, (n - 1) as nat, known, local).union(marks(es[n - 1], known, local, false))
    }
}

/// [`marks`] of the values of the first `n` bindings; none is in tail
/// position.
pub open spec fn marks_bindings(
    bs: Seq<(Name, ExpV)>,
    n: nat,
    known: Set<Name>,
    local: Set<Name>,
) -> Set<Name>
    decreases bs, n,
{
    if n == 0 || n > bs.len() {
        Set::empty()
    } else {
        marks_bindings(bs, (n - 1) as nat, known, local).union(
            marks(bs[n - 1].1, known, local, false),
        )
    }
}

/// [`marks`] of the bodies of the first `n` functions of a group: a body is
/// in tail position and may call the functions of its group.
pub open spec fn marks_decls(ds: Seq<FunDeclV>, n: nat, known: Set<Name>, names: Set<Name>) -> Set<
    Name,
>
    decreases ds, n,
{
    if n == 0 || n > ds.len() {
        Set::empty()
    } else {
        marks_decls(ds, (n - 1) as nat, known, names).union(
            marks(ds[n - 1].body, known, names, true),
        )
    }
}

} // verus!
