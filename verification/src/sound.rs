//! A compiled straight program computes its value: the code that the
//! compiler emits for the main expression of a program without functions and
//! arrays leaves the word of the program's value in `Rax`, or jumps to the
//! trampoline of the error that the program makes.

use vstd::prelude::*;
use crate::checker::{check, lemma_checked_scoped};
use crate::compile::{fits, funs_labels, resolves};
use crate::lambda_lift::lambda_lift_spec;
use crate::encoding::{lemma_booleans_print, lemma_number_prints, word};
use crate::machine::{State, Stop, run, wrap};
use crate::meaning::{Fault, Value, encode, ends_as, lemma_simple_runs, valid};
use crate::runtime::show_value;
use crate::text::signed_decimal;
use crate::renaming::{lemma_uniq_scoped, renamed, scoped};
use crate::select::{select, select_main, tagged};
use crate::sequentializer::{seq_prog_spec, sequential};
use crate::sound_lift::lemma_lift_program;
use crate::sound_sequential::{agree, lemma_sequential_grounded, lemma_sequential_value};
use crate::sound_uniquify::{lemma_uniq_straight, lemma_uniq_value, related};
use crate::source::{straight, value};
use crate::syntax::{Exp, ExpV, Name, SeqProgV};
use crate::uniquify::uniq;
use crate::x86::{InstrV, Reg};

verus! {

/// The program in sequential form that the compiler makes of a program.
pub open spec fn compiled(p: ExpV) -> SeqProgV {
    seq_prog_spec(lambda_lift_spec(p).0, lambda_lift_spec(p).1)
}

/// The code of the main expression of a program in sequential form: what
/// stands between the entry check and the return.
pub open spec fn main_body(prog: SeqProgV) -> Seq<InstrV> {
    select(prog.main, funs_labels(prog.funs, prog.funs.len()), 0, Map::empty(), Map::empty())
}

/// The code of the main expression is its body and the return.
pub proof fn lemma_main_code(prog: SeqProgV)
    ensures
        select_main(prog.main, funs_labels(prog.funs, prog.funs.len())) == main_body(prog) + seq![
            InstrV::Ret,
        ],
{
}

/// A straight program in which every variable is bound, and that the
/// compiler does not refuse, compiled and run, gives what the program is
/// worth: its code ends with the word of the
/// program's value in `Rax`, and with the stack pointer and everything above
/// it as they were; or it jumps to the trampoline of the error that the
/// program makes. And the compiler makes no global function of it.
pub proof fn lemma_straight_runs(p: ExpV, s: State)
    requires
        straight(p, true),
        scoped(p, Set::empty()),
        fits(p),
        resolves(p),
    ensures
        compiled(p).funs.len() == 0,
        ends_as(run(main_body(compiled(p)), s), value(p, Map::empty()), s, 0),
{
    let none = Map::<Name, u32>::empty();
    let env = Map::<Name, Value>::empty();
    let unique = uniq(p, none, 0);
    let main = sequential(unique, 0);
    assert(none.dom() =~= Set::<Name>::empty());
    assert(env.dom() =~= Set::<Name>::empty());
    lemma_lift_program(p);
    assert(compiled(p).funs.len() == 0);
    assert(compiled(p).main == main);
    assert(funs_labels(compiled(p).funs, 0) == 0);
    lemma_uniq_straight(p, none, 0);
    lemma_uniq_scoped(p, none, 0);
    assert(related(none, env, env, 0));
    lemma_uniq_value(p, none, 0, env, env);
    assert(agree(env, env));
    lemma_sequential_value(unique, 0, env, env);
    lemma_sequential_grounded(unique, 0, renamed(none), Set::empty());
    lemma_simple_runs(main, 0, 0, Map::empty(), Map::empty(), env, s);
}

/// [`lemma_straight_runs`] for a program that the checker accepts.
pub proof fn lemma_accepted_runs<Span>(p: Exp<Span>, s: State)
    requires
        straight(p@, true),
        check(p, Set::empty()) is None,
        fits(p@),
        resolves(p@),
    ensures
        compiled(p@).funs.len() == 0,
        ends_as(run(main_body(compiled(p@)), s), value(p@, Map::empty()), s, 0),
{
    lemma_checked_scoped(p, Set::empty());
    lemma_straight_runs(p@, s);
}

/// The text of a value: an integer in decimal, a boolean as `true` or
/// `false`.
pub open spec fn text_of(v: Value) -> Seq<char> {
    match v {
        Value::Int(i) => signed_decimal(i),
        Value::Bool(b) => if b {
            "true"@
        } else {
            "false"@
        },
    }
}

/// The runtime prints the word of a value as the text of the value.
pub proof fn lemma_value_prints(v: Value, base: u64, words: Seq<u64>)
    requires
        valid(v),
    ensures
        show_value(encode(v), base, words) == text_of(v),
{
    match v {
        Value::Int(i) => {
            let n = i as i64;
            assert(tagged(n) == 2 * i);
            assert(wrap(2 * i) == word(tagged(n))) by {
                reveal(wrap);
            }
            lemma_number_prints(n, base, words);
        },
        Value::Bool(_) => {
            lemma_booleans_print(base, words);
        },
    }
}

/// Whether a run ended with a word in `Rax` that the runtime prints as
/// `text`.
pub open spec fn prints(r: Stop, text: Seq<char>, base: u64, words: Seq<u64>) -> bool {
    r matches Stop::End(after) && show_value((after.reg)(Reg::Rax), base, words) == text
}

/// A straight program that has a value and that the compiler does not
/// refuse, compiled and run, leaves in `Rax` what the runtime prints as the
/// text of that value, whatever the heap holds.
pub proof fn lemma_straight_prints(p: ExpV, v: Value, s: State, base: u64, words: Seq<u64>)
    requires
        straight(p, true),
        scoped(p, Set::empty()),
        fits(p),
        resolves(p),
        value(p, Map::empty()) == Ok::<Value, Fault>(v),
    ensures
        prints(run(main_body(compiled(p)), s), text_of(v), base, words),
{
    lemma_straight_runs(p, s);
    lemma_value_prints(v, base, words);
}

} // verus!
