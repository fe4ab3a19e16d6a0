//! The test that instruction selection finds all that a tree refers to: its
//! variables, the targets of its internal tail calls, and the operands of
//! its primitives.

use vstd::prelude::*;
use crate::select::{all_resolved, function_resolved, group_names, imm_resolved, operands_read, resolved};
use crate::syntax::{FunDecl, ImmExp, Name, Prim, SeqExp, VarOrLabel, clone_names, imms_view, names_view, seq_decl_view, seq_decls_view};
use crate::table::{extend_names, lemma_with_name_set, lemma_with_names_set, names_contain, names_insert};

verus! {

/// Whether an immediate is a literal or a variable among `vars`.
fn imm_is_resolved(i: &ImmExp, vars: &Vec<String>) -> (r: bool)
    ensures
        r == imm_resolved(i@, names_view(vars@).to_set()),
{
    match i {
        ImmExp::Var(x) => names_contain(vars, x),
        _ => true,
    }
}

/// [`imm_is_resolved`] on every immediate of a list.
fn all_are_resolved(args: &Vec<ImmExp>, vars: &Vec<String>) -> (r: bool)
    ensures
        r == all_resolved(imms_view(args@), names_view(vars@).to_set()),
{
    let ghost av = imms_view(args@);
    let ghost scope = names_view(vars@).to_set();
    let mut i: usize = 0;
    while i < args.len()
        invariant
            i <= args.len(),
            av == imms_view(args@),
            scope == names_view(vars@).to_set(),
            forall|j: int| 0 <= j < i ==> imm_resolved(#[trigger] av[j], scope),
        decreases args.len() - i,
    {
        assert(av[i as int] == args[i as int]@);
        if !imm_is_resolved(&args[i], vars) {
            return false;
        }
        i += 1;
    }
    true
}

/// How many operands the code for a primitive reads.
fn operands_of(p: &Prim) -> (n: usize)
    ensures
        n == operands_read(*p),
{
    match p {
        Prim::Add | Prim::Sub | Prim::Mul | Prim::And | Prim::Or | Prim::Lt | Prim::Gt | Prim::Le
        | Prim::Ge | Prim::Eq | Prim::Neq | Prim::ArrayGet => 2,
        Prim::ArraySet => 3,
        Prim::MakeArray => 0,
        _ => 1,
    }
}

/// The names of the functions of a group.
fn names_of_group(decls: &Vec<FunDecl<SeqExp<()>, ()>>) -> (names: Vec<String>)
    ensures
        names_view(names@) == group_names(seq_decls_view(decls@)),
{
    let mut names: Vec<String> = Vec::new();
    let mut i: usize = 0;
    while i < decls.len()
        invariant
            i <= decls.len(),
            names.len() == i,
            forall|j: int| 0 <= j < i ==> (#[trigger] names[j])@ == decls[j].name@,
        decreases decls.len() - i,
    {
        names.push(decls[i].name.clone());
        i += 1;
    }
    proof {
        let dv = seq_decls_view(decls@);
        assert forall|j: int| 0 <= j < decls.len() implies names_view(names@)[j] == group_names(
            dv,
        )[j] by {
            assert(dv[j] == seq_decl_view(decls[j]));
        }
        assert(names_view(names@) =~= group_names(dv));
    }
    names
}

/// Whether instruction selection finds all that `e` refers to, with the
/// variables `vars` and the local functions `funs` in scope.
#[verifier::loop_isolation(false)]
pub fn is_resolved(e: &SeqExp<()>, vars: &Vec<String>, funs: &Vec<String>) -> (r: bool)
    ensures
        r == resolved(e@, names_view(vars@).to_set(), names_view(funs@).to_set()),
    decreases e,
{
    let ghost scope = names_view(vars@).to_set();
    let ghost local = names_view(funs@).to_set();
    match e {
        SeqExp::Imm(i, _) => imm_is_resolved(i, vars),
        SeqExp::Prim(p, args, _) => operands_of(p) <= args.len() && all_are_resolved(args, vars),
        SeqExp::MakeClosure { env, .. } => imm_is_resolved(env, vars),
        SeqExp::Let { var, bound_exp, body, .. } => {
            if !is_resolved(bound_exp, vars, funs) {
                return false;
            }
            let mut inner = clone_names(vars);
            names_insert(&mut inner, var.clone());
            proof {
                lemma_with_name_set(names_view(vars@), var@);
            }
            is_resolved(body, &inner, funs)
        },
        SeqExp::If { cond, thn, els, .. } => imm_is_resolved(cond, vars) && is_resolved(
            thn,
            vars,
            funs,
        ) && is_resolved(els, vars, funs),
        SeqExp::FunDefs { decls, body, .. } => {
            let ghost dv = seq_decls_view(decls@);
            let names = names_of_group(decls);
            let inner = extend_names(funs, &names);
            proof {
                lemma_with_names_set(names_view(funs@), names_view(names@), names.len() as nat);
                assert(names_view(names@).take(names.len() as int) =~= names_view(names@));
            }
            let ghost inner_set = local.union(group_names(dv).to_set());
            let mut i: usize = 0;
            while i < decls.len()
                invariant
                    i <= decls.len(),
                    forall|j: int|
                        0 <= j < i ==> resolved(
                            (#[trigger] dv[j]).body,
                            scope.union(dv[j].parameters.to_set()),
                            inner_set,
                        ),
                decreases decls.len() - i,
            {
                let decl = &decls[i];
                let seen = extend_names(vars, &decl.parameters);
                proof {
                    assert(dv[i as int] == seq_decl_view(*decl));
                    let ps = names_view(decl.parameters@);
                    lemma_with_names_set(names_view(vars@), ps, ps.len());
                    assert(ps.take(ps.len() as int) =~= ps);
                }
                if !is_resolved(&decl.body, &seen, &inner) {
                    return false;
                }
                i += 1;
            }
            is_resolved(body, vars, &inner)
        },
        SeqExp::InternalTailCall(f, args, _) => names_contain(funs, f) && all_are_resolved(
            args,
            vars,
        ),
        SeqExp::ExternalCall { fun, args, .. } => {
            let target = match fun {
                VarOrLabel::Var(x) => names_contain(vars, x),
                VarOrLabel::Label(_) => true,
            };
            target && all_are_resolved(args, vars)
        },
    }
}

/// Whether instruction selection finds all that the body of a global
/// function refers to: it reads the function's parameters only.
pub fn function_is_resolved(f: &FunDecl<SeqExp<()>, ()>) -> (r: bool)
    ensures
        r == function_resolved(seq_decl_view(*f)),
{
    let none: Vec<String> = Vec::new();
    assert(names_view(none@).to_set() =~= Set::<Name>::empty());
    is_resolved(&f.body, &f.parameters, &none)
}

} // verus!
