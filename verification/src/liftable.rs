//! What the marks of lambda lifting hold: every function in scope that an
//! expression names as a value, and every function that it calls otherwise
//! than in tail position from the frame that declares it.

use vstd::prelude::*;
use crate::closed::{lemma_marks_bindings_part, lemma_marks_decls_part, lemma_marks_list_part};
use crate::lift::{marks};
use crate::syntax::{ExpV, Name, decl_names};

verus! {

/// Whether `x` is a function in scope that an expression names as a value:
/// it occurs as a variable, where `known` or a group around the place
/// declares a function of that name.
pub open spec fn named_as_value(e: ExpV, x: Name, known: Set<Name>) -> bool
    decreases e,
{
    match e {
        ExpV::Var(y) => y == x && known.contains(x),
        ExpV::Prim(_, es) => exists|i: int|
            0 <= i < es.len() && named_as_value(#[trigger] es[i], x, known),
        ExpV::Let { bindings, body } => (exists|i: int|
            0 <= i < bindings.len() && named_as_value((#[trigger] bindings[i]).1, x, known))
            || named_as_value(*body, x, known),
        ExpV::If { cond, thn, els } => named_as_value(*cond, x, known) || named_as_value(
            *thn,
            x,
            known,
        ) || named_as_value(*els, x, known),
        ExpV::FunDefs { decls, body } => {
            let inner = known.union(decl_names(decls).to_set());
            (exists|i: int|
                0 <= i < decls.len() && named_as_value((#[trigger] decls[i]).body, x, inner))
                || named_as_value(*body, x, inner)
        },
        ExpV::MakeClosure { env, .. } => named_as_value(*env, x, known),
        ExpV::ClosureCall(f, args) => named_as_value(*f, x, known) || exists|i: int|
            0 <= i < args.len() && named_as_value(#[trigger] args[i], x, known),
        ExpV::DirectCall(_, args) => exists|i: int|
            0 <= i < args.len() && named_as_value(#[trigger] args[i], x, known),
        ExpV::Lambda { body, .. } => named_as_value(*body, x, known),
        _ => false,
    }
}

/// Whether an expression calls `f` so that `f` cannot stay local: by a
/// direct call that is not in tail position, or that stands in another
/// frame than the one that declares `f`. `local` holds the functions that
/// the place of the expression may call without leaving its frame.
pub open spec fn called_away(e: ExpV, f: Name, local: Set<Name>, is_tail: bool) -> bool
    decreases e,
{
    match e {
        ExpV::DirectCall(g, args) => (g == f && !(is_tail && local.contains(f))) || exists|i: int|
            0 <= i < args.len() && called_away(#[trigger] args[i], f, local, false),
        ExpV::Prim(_, es) => exists|i: int|
            0 <= i < es.len() && called_away(#[trigger] es[i], f, local, false),
        ExpV::Let { bindings, body } => (exists|i: int|
            0 <= i < bindings.len() && called_away((#[trigger] bindings[i]).1, f, local, false))
            || called_away(*body, f, local, is_tail),
        ExpV::If { cond, thn, els } => called_away(*cond, f, local, false) || called_away(
            *thn,
            f,
            local,
            is_tail,
        ) || called_away(*els, f, local, is_tail),
        ExpV::FunDefs { decls, body } => {
            let names = decl_names(decls).to_set();
            (exists|i: int|
                0 <= i < decls.len() && called_away((#[trigger] decls[i]).body, f, names, true))
                || called_away(*body, f, local.union(names), is_tail)
        },
        ExpV::MakeClosure { env, .. } => called_away(*env, f, local, false),
        ExpV::ClosureCall(g, args) => called_away(*g, f, local, false) || exists|i: int|
            0 <= i < args.len() && called_away(#[trigger] args[i], f, local, false),
        ExpV::Lambda { body, .. } => called_away(*body, f, Set::empty(), true),
        _ => false,
    }
}

/// Every function in scope that an expression names as a value is marked.
pub proof fn lemma_value_marked(
    e: ExpV,
    x: Name,
    known: Set<Name>,
    local: Set<Name>,
    is_tail: bool,
)
    requires
        named_as_value(e, x, known),
    ensures
        marks(e, known, local, is_tail).contains(x),
    decreases e,
{
    match e {
        ExpV::Prim(_, es) => {
            let i = choose|i: int| 0 <= i < es.len() && named_as_value(#[trigger] es[i], x, known);
            lemma_value_marked(es[i], x, known, local, false);
            lemma_marks_list_part(es, i, es.len(), known, local);
        },
        ExpV::Let { bindings, body } => {
            if named_as_value(*body, x, known) {
                lemma_value_marked(*body, x, known, local, is_tail);
            } else {
                let i = choose|i: int|
                    0 <= i < bindings.len() && named_as_value((#[trigger] bindings[i]).1, x, known);
                lemma_value_marked(bindings[i].1, x, known, local, false);
                lemma_marks_bindings_part(bindings, i, bindings.len(), known, local);
            }
        },
        ExpV::If { cond, thn, els } => {
            if named_as_value(*cond, x, known) {
                lemma_value_marked(*cond, x, known, local, false);
            } else if named_as_value(*thn, x, known) {
                lemma_value_marked(*thn, x, known, local, is_tail);
            } else {
                lemma_value_marked(*els, x, known, local, is_tail);
            }
        },
        ExpV::FunDefs { decls, body } => {
            let names = decl_names(decls).to_set();
            let inner = known.union(names);
            if named_as_value(*body, x, inner) {
                lemma_value_marked(*body, x, inner, local.union(names), is_tail);
            } else {
                let i = choose|i: int|
                    0 <= i < decls.len() && named_as_value((#[trigger] decls[i]).body, x, inner);
                lemma_value_marked(decls[i].body, x, inner, names, true);
                lemma_marks_decls_part(decls, i, decls.len(), inner, names);
            }
        },
        ExpV::MakeClosure { env, .. } => {
            lemma_value_marked(*env, x, known, local, false);
        },
        ExpV::ClosureCall(f, args) => {
            if named_as_value(*f, x, known) {
                lemma_value_marked(*f, x, known, local, false);
            } else {
                let i = choose|i: int|
                    0 <= i < args.len() && named_as_value(#[trigger] args[i], x, known);
                lemma_value_marked(args[i], x, known, local, false);
                lemma_marks_list_part(args, i, args.len(), known, local);
            }
        },
        ExpV::DirectCall(_, args) => {
            let i = choose|i: int|
                0 <= i < args.len() && named_as_value(#[trigger] args[i], x, known);
            lemma_value_marked(args[i], x, known, local, false);
            lemma_marks_list_part(args, i, args.len(), known, local);
        },
        ExpV::Lambda { body, .. } => {
            lemma_value_marked(*body, x, known, Set::empty(), true);
        },
        _ => {},
    }
}

/// Every function that an expression calls otherwise than in tail position
/// from the frame that declares it is marked.
pub proof fn lemma_call_marked(e: ExpV, f: Name, known: Set<Name>, local: Set<Name>, is_tail: bool)
    requires
        called_away(e, f, local, is_tail),
    ensures
        marks(e, known, local, is_tail).contains(f),
    decreases e,
{
    match e {
        ExpV::DirectCall(g, args) => {
            if !(g == f && !(is_tail && local.contains(f))) {
                let i = choose|i: int|
                    0 <= i < args.len() && called_away(#[trigger] args[i], f, local, false);
                lemma_call_marked(args[i], f, known, local, false);
                lemma_marks_list_part(args, i, args.len(), known, local);
            }
        },
        ExpV::Prim(_, es) => {
            let i = choose|i: int| 0 <= i < es.len() && called_away(#[trigger] es[i], f, local, false);
            lemma_call_marked(es[i], f, known, local, false);
            lemma_marks_list_part(es, i, es.len(), known, local);
        },
        ExpV::Let { bindings, body } => {
            if called_away(*body, f, local, is_tail) {
                lemma_call_marked(*body, f, known, local, is_tail);
            } else {
                let i = choose|i: int|
                    0 <= i < bindings.len() && called_away(
                        (#[trigger] bindings[i]).1,
                        f,
                        local,
                        false,
                    );
                lemma_call_marked(bindings[i].1, f, known, local, false);
                lemma_marks_bindings_part(bindings, i, bindings.len(), known, local);
            }
        },
        ExpV::If { cond, thn, els } => {
            if called_away(*cond, f, local, false) {
                lemma_call_marked(*cond, f, known, local, false);
            } else if called_away(*thn, f, local, is_tail) {
                lemma_call_marked(*thn, f, known, local, is_tail);
            } else {
                lemma_call_marked(*els, f, known, local, is_tail);
            }
        },
        ExpV::FunDefs { decls, body } => {
            let names = decl_names(decls).to_set();
            let inner = known.union(names);
            if called_away(*body, f, local.union(names), is_tail) {
                lemma_call_marked(*body, f, inner, local.union(names), is_tail);
            } else {
                let i = choose|i: int|
                    0 <= i < decls.len() && called_away((#[trigger] decls[i]).body, f, names, true);
                lemma_call_marked(decls[i].body, f, inner, names, true);
                lemma_marks_decls_part(decls, i, decls.len(), inner, names);
            }
        },
        ExpV::MakeClosure { env, .. } => {
            lemma_call_marked(*env, f, known, local, false);
        },
        ExpV::ClosureCall(g, args) => {
            if called_away(*g, f, local, false) {
                lemma_call_marked(*g, f, known, local, false);
            } else {
                let i = choose|i: int|
                    0 <= i < args.len() && called_away(#[trigger] args[i], f, local, false);
                lemma_call_marked(args[i], f, known, local, false);
                lemma_marks_list_part(args, i, args.len(), known, local);
            }
        },
        ExpV::Lambda { body, .. } => {
            lemma_call_marked(*body, f, known, Set::empty(), true);
        },
        _ => {},
    }
}

} // verus!
