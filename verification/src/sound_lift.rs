//! Lambda lifting leaves a straight expression as uniquification made it:
//! where there are no functions, closure conversion, hoisting and the
//! rewriting of calls change nothing, and no global function comes of it.

use vstd::prelude::*;
use crate::closure::{convert, convert_bindings, convert_list};
use crate::lambda_lift::lambda_lift_spec;
use crate::lift::{hoisted, hoisted_bindings, hoisted_list, lift, lift_bindings, lift_list, marks, rewrite, rewrite_bindings, rewrite_decls, rewrite_list};
use crate::renaming::scoped;
use crate::sound_uniquify::lemma_uniq_straight;
use crate::source::straight;
use crate::syntax::{ExpV, FunDeclV, Name, binders, binding_names};
use crate::table::with_names;
use crate::uniquify::uniq;

verus! {

/// Closure conversion changes nothing where no function is in scope.
pub proof fn lemma_convert_straight(e: ExpV)
    requires
        straight(e, false),
    ensures
        convert(e, Map::empty()) == e,
    decreases e,
{
    let none = Map::<Name, usize>::empty();
    match e {
        ExpV::Prim(_, es) => {
            assert forall|i: int| 0 <= i < es.len() implies convert(#[trigger] es[i], none)
                == es[i] by {
                lemma_convert_straight(es[i]);
            }
            assert(convert_list(es, none) =~= es);
        },
        ExpV::Let { bindings, body } => {
            assert forall|i: int| 0 <= i < bindings.len() implies convert(
                (#[trigger] bindings[i]).1,
                none,
            ) == bindings[i].1 by {
                lemma_convert_straight(bindings[i].1);
            }
            assert(convert_bindings(bindings, none) =~= bindings);
            lemma_convert_straight(*body);
        },
        ExpV::If { cond, thn, els } => {
            lemma_convert_straight(*cond);
            lemma_convert_straight(*thn);
            lemma_convert_straight(*els);
        },
        _ => {},
    }
}

/// Hoisting finds nothing to move in a straight expression, and leaves it as
/// it is.
pub proof fn lemma_lift_straight(
    e: ExpV,
    vars: Seq<Name>,
    funs: Map<Name, usize>,
    need: Set<Name>,
    g: nat,
)
    requires
        straight(e, false),
    ensures
        hoisted(e, vars, funs, need, g) == Seq::<FunDeclV>::empty(),
        lift(e, vars, funs, need, g) == e,
    decreases e, 0nat,
{
    let none = Seq::<FunDeclV>::empty();
    match e {
        ExpV::Prim(_, es) => {
            assert forall|i: int| 0 <= i < es.len() implies lift(
                #[trigger] es[i],
                vars,
                funs,
                need,
                g + hoisted_list(es, i as nat, vars, funs, need, g).len(),
            ) == es[i] by {
                lemma_lift_straight(
                    es[i],
                    vars,
                    funs,
                    need,
                    g + hoisted_list(es, i as nat, vars, funs, need, g).len(),
                );
            }
            assert(lift_list(es, vars, funs, need, g) =~= es);
            lemma_hoisted_list_straight(es, es.len(), vars, funs, need, g);
        },
        ExpV::Let { bindings, body } => {
            let names = binding_names(bindings);
            assert forall|i: int| 0 <= i < bindings.len() implies lift(
                (#[trigger] bindings[i]).1,
                with_names(vars, names, i as nat),
                funs,
                need,
                g + hoisted_bindings(bindings, i as nat, vars, funs, need, g).len(),
            ) == bindings[i].1 by {
                lemma_lift_straight(
                    bindings[i].1,
                    with_names(vars, names, i as nat),
                    funs,
                    need,
                    g + hoisted_bindings(bindings, i as nat, vars, funs, need, g).len(),
                );
            }
            assert(lift_bindings(bindings, vars, funs, need, g) =~= bindings);
            lemma_hoisted_bindings_straight(bindings, bindings.len(), vars, funs, need, g);
            lemma_lift_straight(*body, with_names(vars, names, bindings.len()), funs, need, g);
            assert(none + none =~= none);
        },
        ExpV::If { cond, thn, els } => {
            lemma_lift_straight(*cond, vars, funs, need, g);
            lemma_lift_straight(*thn, vars, funs, need, g);
            lemma_lift_straight(*els, vars, funs, need, g);
            assert(none + none + none =~= none);
        },
        _ => {},
    }
}

/// [`lemma_lift_straight`] for the first `n` expressions of a list.
pub proof fn lemma_hoisted_list_straight(
    es: Seq<ExpV>,
    n: nat,
    vars: Seq<Name>,
    funs: Map<Name, usize>,
    need: Set<Name>,
    g: nat,
)
    requires
        n <= es.len(),
        forall|i: int| 0 <= i < es.len() ==> straight(#[trigger] es[i], false),
    ensures
        hoisted_list(es, n, vars, funs, need, g) == Seq::<FunDeclV>::empty(),
    decreases es, n,
{
    if n > 0 {
        let none = Seq::<FunDeclV>::empty();
        lemma_hoisted_list_straight(es, (n - 1) as nat, vars, funs, need, g);
        lemma_lift_straight(es[n - 1], vars, funs, need, g);
        assert(none + none =~= none);
    }
}

/// [`lemma_lift_straight`] for the first `n` bindings of a `let`.
pub proof fn lemma_hoisted_bindings_straight(
    bs: Seq<(Name, ExpV)>,
    n: nat,
    vars: Seq<Name>,
    funs: Map<Name, usize>,
    need: Set<Name>,
    g: nat,
)
    requires
        n <= bs.len(),
        forall|i: int| 0 <= i < bs.len() ==> straight((#[trigger] bs[i]).1, false),
    ensures
        hoisted_bindings(bs, n, vars, funs, need, g) == Seq::<FunDeclV>::empty(),
    decreases bs, n,
{
    if n > 0 {
        let none = Seq::<FunDeclV>::empty();
        lemma_hoisted_bindings_straight(bs, (n - 1) as nat, vars, funs, need, g);
        lemma_lift_straight(
            bs[n - 1].1,
            with_names(vars, binding_names(bs), (n - 1) as nat),
            funs,
            need,
            g,
        );
        assert(none + none =~= none);
    }
}

/// The rewriting of calls changes nothing where there are no calls.
pub proof fn lemma_rewrite_straight(e: ExpV, globals: Seq<FunDeclV>, is_tail: bool)
    requires
        straight(e, false),
    ensures
        rewrite(e, globals, is_tail) == e,
    decreases e,
{
    match e {
        ExpV::Prim(_, es) => {
            assert forall|i: int| 0 <= i < es.len() implies rewrite(
                #[trigger] es[i],
                globals,
                false,
            ) == es[i] by {
                lemma_rewrite_straight(es[i], globals, false);
            }
            assert(rewrite_list(es, globals) =~= es);
        },
        ExpV::Let { bindings, body } => {
            assert forall|i: int| 0 <= i < bindings.len() implies rewrite(
                (#[trigger] bindings[i]).1,
                globals,
                false,
            ) == bindings[i].1 by {
                lemma_rewrite_straight(bindings[i].1, globals, false);
            }
            assert(rewrite_bindings(bindings, globals) =~= bindings);
            lemma_rewrite_straight(*body, globals, is_tail);
        },
        ExpV::If { cond, thn, els } => {
            lemma_rewrite_straight(*cond, globals, false);
            lemma_rewrite_straight(*thn, globals, is_tail);
            lemma_rewrite_straight(*els, globals, is_tail);
        },
        _ => {},
    }
}

/// Lambda lifting makes of a straight program, in which every variable is
/// bound, no global function, and a main expression that is the program
/// under its new names.
pub proof fn lemma_lift_program(p: ExpV)
    requires
        straight(p, true),
        scoped(p, Set::empty()),
        binders(p) <= u32::MAX,
    ensures
        lambda_lift_spec(p) == (Seq::<FunDeclV>::empty(), uniq(p, Map::empty(), 0)),
{
    let unique = uniq(p, Map::empty(), 0);
    let none = Seq::<FunDeclV>::empty();
    assert(Map::<Name, u32>::empty().dom() =~= Set::<Name>::empty());
    lemma_uniq_straight(p, Map::empty(), 0);
    lemma_convert_straight(unique);
    let need = marks(unique, Set::empty(), Set::empty(), true);
    lemma_lift_straight(unique, Seq::empty(), Map::empty(), need, 0);
    lemma_rewrite_straight(unique, none, true);
    assert(rewrite_decls(none, none) =~= none);
}

} // verus!
