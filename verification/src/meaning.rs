//! What code without calls means: for expressions made of literals,
//! variables, `let`, conditionals, and arithmetic, logic, comparisons and
//! tests, the code that instruction selection emits computes the value of the
//! expression, or jumps to the trampoline of the error that the expression
//! makes.

use vstd::prelude::*;
use crate::encoding::in_range;
use crate::error_handler::{ARITH_ERROR, CMP_ERROR, IF_ERROR, LOGIC_ERROR, OVERFLOW};
use crate::labels::{error_label, labels_within, lemma_absent, lemma_error_outer, lemma_jump_leaves, lemma_labels_add, lemma_labels_wider, lemma_number_inner, lemma_number_outer, lemma_pairs_differ, lemma_silent_within};
use crate::machine::{State, Stop, combined, computed, find, fits, jumps, lemma_run_add, lemma_run_add_silent, lemma_signed_small, lemma_wrap, resume, run, set_mem, set_reg, signed, silent, source32, source64, step, wrap};
use crate::text::numbered;
use crate::select::{MAX_FRAME, SIGN_BIT, SNAKE_FLS, SNAKE_TRU, TYPE_MASK, arithmetic, bool_check, difference, equality_test, frame_need, imm_arg, int_check, is_neg_spec, is_non_neg_spec, labels_needed, logic, operand, select, select_prim, slot, tag_test, tagged};
use crate::syntax::{ImmV, Name, Prim, SeqExpV};
use crate::x86::{Arg32, Arg64, BinArgs, InstrV, JmpArgV, Reg, label, mem, mov_mem, mov_reg};

verus! {

/// A value of the language, as far as straight-line code goes.
pub enum Value {
    Int(int),
    Bool(bool),
}

/// An error that an expression makes when it runs.
pub enum Fault {
    /// Arithmetic on what is no integer.
    Arith,
    /// A comparison of what is no integer.
    Comparison,
    /// Logic on what is no boolean.
    Logic,
    /// A result beyond 63 bits.
    Overflow,
    /// A condition that is no boolean.
    Condition,
}

/// The label of the trampoline of an error.
pub open spec fn fault_label(f: Fault) -> Name {
    match f {
        Fault::Arith => ARITH_ERROR@,
        Fault::Comparison => CMP_ERROR@,
        Fault::Logic => LOGIC_ERROR@,
        Fault::Overflow => OVERFLOW@,
        Fault::Condition => IF_ERROR@,
    }
}

/// The word that stands for a value.
pub open spec fn encode(v: Value) -> u64 {
    match v {
        Value::Int(i) => wrap(2 * i),
        Value::Bool(b) => if b {
            SNAKE_TRU
        } else {
            SNAKE_FLS
        },
    }
}

/// Whether a value has a word: an integer has to fit in 63 bits.
pub open spec fn valid(v: Value) -> bool {
    v matches Value::Int(i) ==> in_range(i)
}

/// The value of an immediate.
pub open spec fn value_of(i: ImmV, env: Map<Name, Value>) -> Value {
    match i {
        ImmV::Num(n) => Value::Int(n as int),
        ImmV::Bool(b) => Value::Bool(b),
        ImmV::Var(x) => env[x],
    }
}

/// The value of the `i`-th operand of a primitive; a missing operand is the
/// number 0.
pub open spec fn arg(args: Seq<ImmV>, i: int, env: Map<Name, Value>) -> Value {
    if 0 <= i < args.len() {
        value_of(args[i], env)
    } else {
        Value::Int(0)
    }
}

/// The result of arithmetic on two values.
pub open spec fn arith(a: Value, b: Value, result: spec_fn(int, int) -> int) -> Result<Value, Fault> {
    match (a, b) {
        (Value::Int(x), Value::Int(y)) => if in_range(result(x, y)) {
            Ok(Value::Int(result(x, y)))
        } else {
            Err(Fault::Overflow)
        },
        _ => Err(Fault::Arith),
    }
}

/// The result of a comparison of two values.
pub open spec fn compare(a: Value, b: Value, result: spec_fn(int, int) -> bool) -> Result<
    Value,
    Fault,
> {
    match (a, b) {
        (Value::Int(x), Value::Int(y)) => Ok(Value::Bool(result(x, y))),
        _ => Err(Fault::Comparison),
    }
}

/// The result of logic on two values.
pub open spec fn connect(a: Value, b: Value, result: spec_fn(bool, bool) -> bool) -> Result<
    Value,
    Fault,
> {
    match (a, b) {
        (Value::Bool(x), Value::Bool(y)) => Ok(Value::Bool(result(x, y))),
        _ => Err(Fault::Logic),
    }
}

/// Whether a primitive is one of arithmetic, logic or comparison.
pub open spec fn plain(p: Prim) -> bool {
    p is Add || p is Sub || p is Mul || p is Add1 || p is Sub1 || p is Not || p is And || p is Or
        || p is Lt || p is Gt || p is Le || p is Ge
}

/// Whether a primitive tests the kind of a value or the equality of two.
pub open spec fn testing(p: Prim) -> bool {
    p is IsBool || p is IsNum || p is IsFun || p is IsArray || p is Eq || p is Neq
}

/// What a primitive makes of the values `a` and `b` of its first two
/// operands.
pub open spec fn outcome(p: Prim, a: Value, b: Value) -> Result<Value, Fault> {
    match p {
        Prim::Add => arith(a, b, |x: int, y: int| x + y),
        Prim::Sub => arith(a, b, |x: int, y: int| x - y),
        Prim::Mul => arith(a, b, |x: int, y: int| x * y),
        Prim::Add1 => arith(a, Value::Int(1), |x: int, y: int| x + y),
        Prim::Sub1 => arith(a, Value::Int(1), |x: int, y: int| x - y),
        Prim::Not => connect(a, a, |x: bool, y: bool| !x),
        Prim::And => connect(a, b, |x: bool, y: bool| x && y),
        Prim::Or => connect(a, b, |x: bool, y: bool| x || y),
        Prim::Lt => compare(a, b, |x: int, y: int| x < y),
        Prim::Gt => compare(a, b, |x: int, y: int| x > y),
        Prim::Le => compare(a, b, |x: int, y: int| x <= y),
        Prim::Ge => compare(a, b, |x: int, y: int| x >= y),
        Prim::IsNum => Ok(Value::Bool(a is Int)),
        Prim::IsBool => Ok(Value::Bool(a is Bool)),
        Prim::IsFun | Prim::IsArray => Ok(Value::Bool(false)),
        Prim::Eq => Ok(Value::Bool(a == b)),
        Prim::Neq => Ok(Value::Bool(a != b)),
        _ => Err(Fault::Arith),
    }
}

/// The result of a plain primitive applied to its operands.
pub open spec fn apply(p: Prim, args: Seq<ImmV>, env: Map<Name, Value>) -> Result<Value, Fault> {
    outcome(p, arg(args, 0, env), arg(args, 1, env))
}

/// Whether an expression is made of literals, variables, `let`,
/// conditionals, and primitives of arithmetic, logic, comparison and testing
/// only: it calls nothing and makes no arrays or closures.
pub open spec fn simple(e: SeqExpV) -> bool
    decreases e,
{
    match e {
        SeqExpV::Imm(_) => true,
        SeqExpV::Prim(p, _) => plain(p) || testing(p),
        SeqExpV::Let { bound_exp, body, .. } => simple(*bound_exp) && simple(*body),
        SeqExpV::If { thn, els, .. } => simple(*thn) && simple(*els),
        _ => false,
    }
}

/// Whether an immediate is a literal of 63 bits or a variable with a value.
pub open spec fn imm_ok(i: ImmV, scope: Set<Name>) -> bool {
    match i {
        ImmV::Num(n) => in_range(n as int),
        ImmV::Bool(_) => true,
        ImmV::Var(x) => scope.contains(x),
    }
}

/// Whether the literals of an expression fit in 63 bits and its variables
/// have values.
pub open spec fn grounded(e: SeqExpV, scope: Set<Name>) -> bool
    decreases e,
{
    match e {
        SeqExpV::Imm(i) => imm_ok(i, scope),
        SeqExpV::Prim(_, args) => forall|i: int|
            0 <= i < args.len() ==> imm_ok(#[trigger] args[i], scope),
        SeqExpV::Let { var, bound_exp, body } => grounded(*bound_exp, scope) && grounded(
            *body,
            scope.insert(var),
        ),
        SeqExpV::If { cond, thn, els } => imm_ok(cond, scope) && grounded(*thn, scope) && grounded(
            *els,
            scope,
        ),
        _ => true,
    }
}

/// The value of a simple expression, or the error that it makes.
pub open spec fn eval(e: SeqExpV, env: Map<Name, Value>) -> Result<Value, Fault>
    decreases e,
{
    match e {
        SeqExpV::Imm(i) => Ok(value_of(i, env)),
        SeqExpV::Prim(p, args) => apply(p, args, env),
        SeqExpV::Let { var, bound_exp, body } => match eval(*bound_exp, env) {
            Ok(v) => eval(*body, env.insert(var, v)),
            Err(f) => Err(f),
        },
        SeqExpV::If { cond, thn, els } => match value_of(cond, env) {
            Value::Bool(b) => if b {
                eval(*thn, env)
            } else {
                eval(*els, env)
            },
            _ => Err(Fault::Condition),
        },
        _ => Err(Fault::Arith),
    }
}

/// Whether the stack holds the value of every variable where the code looks
/// for it: in a slot of the frame, of which `stack` are in use.
pub open spec fn holds(s: State, env: Map<Name, Value>, vars: Map<Name, i32>, stack: int) -> bool {
    forall|x: Name| #[trigger]
        env.contains_key(x) ==> vars.contains_key(x) && -8 * stack <= vars[x] <= -8 && (s.mem)(
            (s.reg)(Reg::Rsp) + vars[x],
        ) == encode(env[x]) && valid(env[x])
}

/// Whether a run kept the stack pointer and the slots of the frame that were
/// in use.
pub open spec fn kept(s: State, after: State, stack: int) -> bool {
    (after.reg)(Reg::Rsp) == (s.reg)(Reg::Rsp) && forall|a: int|
        a >= (s.reg)(Reg::Rsp) - 8 * stack ==> #[trigger] (after.mem)(a) == (s.mem)(a)
}

/// Whether a run changed nothing but registers other than the stack pointer,
/// and flags.
pub open spec fn scratch(s: State, after: State) -> bool {
    (after.reg)(Reg::Rsp) == (s.reg)(Reg::Rsp) && forall|a: int|
        #[trigger] (after.mem)(a) == (s.mem)(a)
}

/// Whether a run of code ended as the expression says: with its value in
/// `Rax` and the frame kept, or at the trampoline of its error.
pub open spec fn ends_as(r: Stop, result: Result<Value, Fault>, s: State, stack: int) -> bool {
    match result {
        Ok(v) => r matches Stop::End(after) && (after.reg)(Reg::Rax) == encode(v) && kept(
            s,
            after,
            stack,
        ) && valid(v),
        Err(f) => jumps(r, fault_label(f)),
    }
}

/// The word of an integer of 63 bits, read as a signed number, is twice the
/// integer; it is even.
pub proof fn lemma_int_word(i: int)
    requires
        in_range(i),
    ensures
        signed(wrap(2 * i)) == 2 * i,
        wrap(2 * i) % 2 == 0,
        wrap(2 * i) != SNAKE_TRU,
        wrap(2 * i) != SNAKE_FLS,
        signed(wrap(2 * i)) / 2 == i,
        signed(wrap(i)) == i,
{
    lemma_wrap(2 * i);
    lemma_wrap(i);
    reveal(wrap);
}

/// An operand gives the word of its value.
pub proof fn lemma_operand_word(
    args: Seq<ImmV>,
    i: int,
    vars: Map<Name, i32>,
    env: Map<Name, Value>,
    s: State,
    stack: int,
)
    requires
        holds(s, env, vars, stack),
        forall|j: int| 0 <= j < args.len() ==> imm_ok(#[trigger] args[j], env.dom()),
    ensures
        source64(operand(args, i, vars), s) == encode(arg(args, i, env)),
        valid(arg(args, i, env)),
{
    if 0 <= i < args.len() {
        assert(imm_ok(args[i], env.dom()));
        lemma_imm_word(args[i], vars, env, s, stack);
    } else {
        lemma_int_word(0);
        lemma_wrap(0);
    }
}

/// An immediate gives the word of its value.
pub proof fn lemma_imm_word(i: ImmV, vars: Map<Name, i32>, env: Map<Name, Value>, s: State, stack: int)
    requires
        holds(s, env, vars, stack),
        imm_ok(i, env.dom()),
    ensures
        source64(imm_arg(i, vars), s) == encode(value_of(i, env)),
        valid(value_of(i, env)),
{
    match i {
        ImmV::Num(n) => {
            assert(tagged(n) == 2 * n);
            lemma_int_word(n as int);
        },
        ImmV::Bool(_) => {},
        ImmV::Var(x) => {
            assert(env.contains_key(x));
        },
    }
}


/// Whether a run ended with nothing changed but `Rcx` and the flags.
pub open spec fn passes(r: Stop, s: State) -> bool {
    r matches Stop::End(after) && scratch(s, after) && forall|x: Reg|
        x != Reg::Rcx ==> #[trigger] (after.reg)(x) == (s.reg)(x)
}

/// The check for an integer lets the word of an integer pass, with nothing
/// changed but `Rcx` and the flags, and jumps for a boolean.
pub proof fn lemma_int_check(reg: Reg, error: Name, s: State, v: Value)
    requires
        (s.reg)(reg) == encode(v),
        valid(v),
        reg != Reg::Rcx,
    ensures
        v is Int ==> passes(run(int_check(reg, error), s), s),
        v is Bool ==> jumps(run(int_check(reg, error), s), error),
{
    let x = (s.reg)(reg);
    let low = x & 1;
    assert(low == x % 2) by (bit_vector)
        requires
            low == x & 1,
    ;
    assert(0xFFFF_FFFF_FFFF_FFFFu64 % 2 == 1);
    assert(0x7FFF_FFFF_FFFF_FFFFu64 % 2 == 1);
    match v {
        Value::Int(i) => {
            lemma_int_word(i);
        },
        _ => {},
    }
    reveal_with_fuel(run, 5);
    lemma_wrap(1);
    lemma_wrap(0);
    lemma_wrap(-1);
    lemma_signed_small(low);
    let s1 = set_reg(s, Reg::Rcx, x);
    assert(step(int_check(reg, error)[0], s) == Stop::End(s1));
    assert(source32(Arg32::Signed(1), s1) == 1);
    let s2 = combined(s1, Reg::Rcx, low);
    assert(step(int_check(reg, error)[1], s1) == Stop::End(s2));
}

/// The check for a boolean lets the word of a boolean pass, with nothing
/// changed but `Rcx` and the flags, and jumps for an integer.
pub proof fn lemma_bool_check(reg: Reg, error: Name, s: State, v: Value)
    requires
        (s.reg)(reg) == encode(v),
        valid(v),
        reg != Reg::Rcx,
    ensures
        v is Bool ==> passes(run(bool_check(reg, error), s), s),
        v is Int ==> jumps(run(bool_check(reg, error), s), error),
{
    let x = (s.reg)(reg);
    let low = x & 7;
    assert(low <= 7 && (x % 2 == 0 ==> low != 7)) by (bit_vector)
        requires
            low == x & 7,
    ;
    assert(0xFFFF_FFFF_FFFF_FFFFu64 & 7 == 7) by (bit_vector);
    assert(0x7FFF_FFFF_FFFF_FFFFu64 & 7 == 7) by (bit_vector);
    match v {
        Value::Int(i) => {
            lemma_int_word(i);
        },
        _ => {},
    }
    reveal_with_fuel(run, 5);
    lemma_signed_small(low);
    lemma_signed_small(7);
    lemma_wrap(low - 7);
    let s1 = set_reg(s, Reg::Rcx, x);
    assert(step(bool_check(reg, error)[0], s) == Stop::End(s1));
    assert(source32(Arg32::Unsigned(TYPE_MASK), s1) == 7);
    let s2 = combined(s1, Reg::Rcx, low);
    assert(step(bool_check(reg, error)[1], s1) == Stop::End(s2));
}


/// Code of one instruction does what the instruction does.
pub proof fn lemma_run_one(i: InstrV, s: State)
    ensures
        run(seq![i], s) == step(i, s),
{
    reveal_with_fuel(run, 2);
    assert(seq![i].drop_first() =~= Seq::<InstrV>::empty());
}

/// Code of two instructions of which the first does not jump.
pub proof fn lemma_run_two(i: InstrV, j: InstrV, s: State)
    requires
        !(j is Label),
    ensures
        run(seq![i, j], s) == match step(i, s) {
            Stop::End(next) => step(j, next),
            other => other,
        },
{
    assert(seq![i, j] =~= seq![i] + seq![j]);
    lemma_run_add_silent(seq![i], seq![j], s);
    lemma_run_one(i, s);
    match step(i, s) {
        Stop::End(next) => {
            lemma_run_one(j, next);
        },
        _ => {},
    }
}

/// What holds of the stack holds after a run that changed neither memory nor
/// the stack pointer.
pub proof fn lemma_holds_scratch(
    s: State,
    after: State,
    env: Map<Name, Value>,
    vars: Map<Name, i32>,
    stack: int,
)
    requires
        holds(s, env, vars, stack),
        scratch(s, after),
    ensures
        holds(after, env, vars, stack),
{
    assert forall|x: Name| #[trigger] env.contains_key(x) implies vars.contains_key(x) && -8 * stack
        <= vars[x] <= -8 && (after.mem)((after.reg)(Reg::Rsp) + vars[x]) == encode(env[x])
        && valid(env[x]) by {
        assert((after.mem)((s.reg)(Reg::Rsp) + vars[x]) == (s.mem)((s.reg)(Reg::Rsp) + vars[x]));
    }
}

/// Whether a run left the words `a` and `b` in `Rax` and `Rdx` and changed
/// neither memory nor the stack pointer.
pub open spec fn loaded(r: Stop, s: State, a: u64, b: u64) -> bool {
    r matches Stop::End(after) && scratch(s, after) && (after.reg)(Reg::Rax) == a && (after.reg)(
        Reg::Rdx,
    ) == b
}

/// The start of binary arithmetic and of binary logic: both operands are
/// loaded and checked. Two integers, or two booleans, are left in `Rax` and
/// `Rdx`; anything else jumps to the error.
pub proof fn lemma_two_operands(
    args: Seq<ImmV>,
    vars: Map<Name, i32>,
    env: Map<Name, Value>,
    s: State,
    stack: int,
    error: Name,
    ints: bool,
)
    requires
        holds(s, env, vars, stack),
        forall|j: int| 0 <= j < args.len() ==> imm_ok(#[trigger] args[j], env.dom()),
    ensures
        ({
            let a = arg(args, 0, env);
            let b = arg(args, 1, env);
            let check = |reg: Reg|
                if ints {
                    int_check(reg, error)
                } else {
                    bool_check(reg, error)
                };
            let code = seq![mov_reg(Reg::Rax, operand(args, 0, vars))] + check(Reg::Rax) + seq![
                mov_reg(Reg::Rdx, operand(args, 1, vars)),
            ] + check(Reg::Rdx);
            if (a is Int) == ints && (b is Int) == ints {
                loaded(run(code, s), s, encode(a), encode(b))
            } else {
                jumps(run(code, s), error)
            }
        }),
{
    let a = arg(args, 0, env);
    let b = arg(args, 1, env);
    let c0 = if ints {
        int_check(Reg::Rax, error)
    } else {
        bool_check(Reg::Rax, error)
    };
    let c1 = if ints {
        int_check(Reg::Rdx, error)
    } else {
        bool_check(Reg::Rdx, error)
    };
    let l0 = seq![mov_reg(Reg::Rax, operand(args, 0, vars))];
    let l1 = seq![mov_reg(Reg::Rdx, operand(args, 1, vars))];
    lemma_operand_word(args, 0, vars, env, s, stack);
    lemma_run_one(l0[0], s);
    let s1 = set_reg(s, Reg::Rax, encode(a));
    assert(run(l0, s) == Stop::End(s1));
    lemma_run_add_silent(l0, c0, s);
    lemma_run_add_silent(l0 + c0, l1, s);
    lemma_run_add_silent(l0 + c0 + l1, c1, s);
    lemma_int_check(Reg::Rax, error, s1, a);
    lemma_bool_check(Reg::Rax, error, s1, a);
    if (a is Int) == ints {
        let s2 = run(c0, s1)->End_0;
        assert(scratch(s, s2));
        lemma_holds_scratch(s, s2, env, vars, stack);
        lemma_operand_word(args, 1, vars, env, s2, stack);
        lemma_run_one(l1[0], s2);
        let s3 = set_reg(s2, Reg::Rdx, encode(b));
        assert(run(l1, s2) == Stop::End(s3));
        lemma_int_check(Reg::Rdx, error, s3, b);
        lemma_bool_check(Reg::Rdx, error, s3, b);
        if (b is Int) == ints {
            let s4 = run(c1, s3)->End_0;
            assert(scratch(s, s4));
            assert((s4.reg)(Reg::Rax) == encode(a));
            assert((s4.reg)(Reg::Rdx) == encode(b));
        }
    }
}

/// The operation of binary arithmetic: the instructions that combine `Rax`
/// and `Rdx`.
pub open spec fn operation(p: Prim) -> Seq<InstrV> {
    match p {
        Prim::Add => seq![InstrV::Add(BinArgs::ToReg(Reg::Rax, Arg32::Reg(Reg::Rdx)))],
        Prim::Sub => seq![InstrV::Sub(BinArgs::ToReg(Reg::Rax, Arg32::Reg(Reg::Rdx)))],
        _ => seq![
            InstrV::Sar(BinArgs::ToReg(Reg::Rdx, Arg32::Signed(1))),
            InstrV::IMul(BinArgs::ToReg(Reg::Rax, Arg32::Reg(Reg::Rdx))),
        ],
    }
}

/// The result of binary arithmetic on two integers.
pub open spec fn result_of(p: Prim, x: int, y: int) -> int {
    match p {
        Prim::Add => x + y,
        Prim::Sub => x - y,
        _ => x * y,
    }
}

/// Whether a run left the word `a` in `Rax` and changed neither memory nor
/// the stack pointer.
pub open spec fn gives(r: Stop, s: State, a: u64) -> bool {
    r matches Stop::End(after) && scratch(s, after) && (after.reg)(Reg::Rax) == a
}

/// What the jump on overflow does after arithmetic left `result` in `Rax`.
pub proof fn lemma_overflow_jump(before: State, result: int, s: State)
    requires
        scratch(before, s),
    ensures
        ({
            let after = computed(s, Reg::Rax, result);
            let jo = seq![InstrV::Jo(label(OVERFLOW@))];
            if fits(result) {
                gives(run(jo, after), before, wrap(result))
            } else {
                jumps(run(jo, after), OVERFLOW@)
            }
        }),
{
    let after = computed(s, Reg::Rax, result);
    lemma_run_one(InstrV::Jo(label(OVERFLOW@)), after);
}

/// Twice an integer fits in a word exactly when the integer fits in 63 bits.
pub proof fn lemma_twice_fits(i: int)
    ensures
        fits(2 * i) <==> in_range(i),
{
}

/// With the words of two integers in `Rax` and `Rdx`, the operation and the
/// jump on overflow leave the word of the result, or jump when the result
/// does not fit in 63 bits.
pub proof fn lemma_operation_runs(p: Prim, x: int, y: int, s: State)
    requires
        p is Add || p is Sub || p is Mul,
        in_range(x),
        in_range(y),
        (s.reg)(Reg::Rax) == wrap(2 * x),
        (s.reg)(Reg::Rdx) == wrap(2 * y),
    ensures
        ({
            let code = operation(p) + seq![InstrV::Jo(label(OVERFLOW@))];
            if in_range(result_of(p, x, y)) {
                gives(run(code, s), s, wrap(2 * result_of(p, x, y)))
            } else {
                jumps(run(code, s), OVERFLOW@)
            }
        }),
{
    match p {
        Prim::Add => {
            lemma_sum_runs(x, y, s);
        },
        Prim::Sub => {
            lemma_difference_runs(x, y, s);
        },
        _ => {
            lemma_product_runs(x, y, s);
        },
    }
}

/// [`lemma_operation_runs`] for addition.
pub proof fn lemma_sum_runs(x: int, y: int, s: State)
    requires
        in_range(x),
        in_range(y),
        (s.reg)(Reg::Rax) == wrap(2 * x),
        (s.reg)(Reg::Rdx) == wrap(2 * y),
    ensures
        ({
            let code = operation(Prim::Add) + seq![InstrV::Jo(label(OVERFLOW@))];
            if in_range(x + y) {
                gives(run(code, s), s, wrap(2 * (x + y)))
            } else {
                jumps(run(code, s), OVERFLOW@)
            }
        }),
{
    let op = operation(Prim::Add);
    let jo = seq![InstrV::Jo(label(OVERFLOW@))];
    lemma_run_add_silent(op, jo, s);
    lemma_int_word(x);
    lemma_int_word(y);
    lemma_run_one(op[0], s);
    assert(run(op, s) == Stop::End(computed(s, Reg::Rax, 2 * (x + y))));
    lemma_overflow_jump(s, 2 * (x + y), s);
    lemma_twice_fits(x + y);
}

/// [`lemma_operation_runs`] for subtraction.
pub proof fn lemma_difference_runs(x: int, y: int, s: State)
    requires
        in_range(x),
        in_range(y),
        (s.reg)(Reg::Rax) == wrap(2 * x),
        (s.reg)(Reg::Rdx) == wrap(2 * y),
    ensures
        ({
            let code = operation(Prim::Sub) + seq![InstrV::Jo(label(OVERFLOW@))];
            if in_range(x - y) {
                gives(run(code, s), s, wrap(2 * (x - y)))
            } else {
                jumps(run(code, s), OVERFLOW@)
            }
        }),
{
    let op = operation(Prim::Sub);
    let jo = seq![InstrV::Jo(label(OVERFLOW@))];
    lemma_run_add_silent(op, jo, s);
    lemma_int_word(x);
    lemma_int_word(y);
    lemma_run_one(op[0], s);
    assert(run(op, s) == Stop::End(computed(s, Reg::Rax, 2 * (x - y))));
    lemma_overflow_jump(s, 2 * (x - y), s);
    lemma_twice_fits(x - y);
}

/// [`lemma_operation_runs`] for multiplication: one factor is untagged
/// first.
pub proof fn lemma_product_runs(x: int, y: int, s: State)
    requires
        in_range(x),
        in_range(y),
        (s.reg)(Reg::Rax) == wrap(2 * x),
        (s.reg)(Reg::Rdx) == wrap(2 * y),
    ensures
        ({
            let code = operation(Prim::Mul) + seq![InstrV::Jo(label(OVERFLOW@))];
            if in_range(x * y) {
                gives(run(code, s), s, wrap(2 * (x * y)))
            } else {
                jumps(run(code, s), OVERFLOW@)
            }
        }),
{
    let op = operation(Prim::Mul);
    let jo = seq![InstrV::Jo(label(OVERFLOW@))];
    lemma_run_add_silent(op, jo, s);
    lemma_int_word(x);
    lemma_int_word(y);
    lemma_run_two(op[0], op[1], s);
    let half = State { zero: wrap(y) == 0, overflow: false, ..set_reg(s, Reg::Rdx, wrap(y)) };
    assert(signed(wrap(2 * y)) / 2 == y);
    assert(step(op[0], s) == Stop::End(half));
    assert(signed(wrap(y)) == y);
    assert((2 * x) * y == 2 * (x * y)) by (nonlinear_arith);
    assert(step(op[1], half) == Stop::End(computed(half, Reg::Rax, 2 * (x * y))));
    lemma_overflow_jump(s, 2 * (x * y), half);
    lemma_twice_fits(x * y);
}

/// The code for binary arithmetic, taken apart.
pub proof fn lemma_arithmetic_code(p: Prim, args: Seq<ImmV>, vars: Map<Name, i32>, c: nat, stack: int)
    requires
        p is Add || p is Sub || p is Mul,
    ensures
        select_prim(p, args, c, stack, vars) == seq![mov_reg(Reg::Rax, operand(args, 0, vars))]
            + int_check(Reg::Rax, ARITH_ERROR@) + seq![mov_reg(Reg::Rdx, operand(args, 1, vars))]
            + int_check(Reg::Rdx, ARITH_ERROR@) + (operation(p) + seq![
            InstrV::Jo(label(OVERFLOW@)),
        ]),
{
    let front = seq![mov_reg(Reg::Rax, operand(args, 0, vars))] + int_check(
        Reg::Rax,
        ARITH_ERROR@,
    ) + seq![mov_reg(Reg::Rdx, operand(args, 1, vars))] + int_check(Reg::Rdx, ARITH_ERROR@);
    let jo = seq![InstrV::Jo(label(OVERFLOW@))];
    assert(front + operation(p) + jo =~= front + (operation(p) + jo));
}

/// Binary arithmetic computes the result of the operation on two integers
/// and jumps when an operand is no integer or the result does not fit.
pub proof fn lemma_arithmetic_runs(
    p: Prim,
    args: Seq<ImmV>,
    vars: Map<Name, i32>,
    env: Map<Name, Value>,
    s: State,
    stack: int,
    c: nat,
)
    requires
        p is Add || p is Sub || p is Mul,
        holds(s, env, vars, stack),
        forall|j: int| 0 <= j < args.len() ==> imm_ok(#[trigger] args[j], env.dom()),
    ensures
        ends_as(run(select_prim(p, args, c, stack, vars), s), apply(p, args, env), s, stack),
{
    let a = arg(args, 0, env);
    let b = arg(args, 1, env);
    let front = seq![mov_reg(Reg::Rax, operand(args, 0, vars))] + int_check(
        Reg::Rax,
        ARITH_ERROR@,
    ) + seq![mov_reg(Reg::Rdx, operand(args, 1, vars))] + int_check(Reg::Rdx, ARITH_ERROR@);
    let rest = operation(p) + seq![InstrV::Jo(label(OVERFLOW@))];
    lemma_arithmetic_code(p, args, vars, c, stack);
    lemma_two_operands(args, vars, env, s, stack, ARITH_ERROR@, true);
    lemma_operand_word(args, 0, vars, env, s, stack);
    lemma_operand_word(args, 1, vars, env, s, stack);
    lemma_run_add_silent(front, rest, s);
    match (a, b) {
        (Value::Int(x), Value::Int(y)) => {
            let s4 = run(front, s)->End_0;
            lemma_operation_runs(p, x, y, s4);
        },
        _ => {},
    }
}


/// Adding or subtracting 1 computes the result on an integer and jumps when
/// the operand is no integer or the result does not fit.
pub proof fn lemma_arithmetic1_runs(
    p: Prim,
    args: Seq<ImmV>,
    vars: Map<Name, i32>,
    env: Map<Name, Value>,
    s: State,
    stack: int,
    c: nat,
)
    requires
        p is Add1 || p is Sub1,
        holds(s, env, vars, stack),
        forall|j: int| 0 <= j < args.len() ==> imm_ok(#[trigger] args[j], env.dom()),
    ensures
        ends_as(run(select_prim(p, args, c, stack, vars), s), apply(p, args, env), s, stack),
{
    let a = arg(args, 0, env);
    let load = seq![mov_reg(Reg::Rax, operand(args, 0, vars))];
    let check = int_check(Reg::Rax, ARITH_ERROR@);
    let op = if p is Add1 {
        InstrV::Add(BinArgs::ToReg(Reg::Rax, Arg32::Unsigned(2)))
    } else {
        InstrV::Sub(BinArgs::ToReg(Reg::Rax, Arg32::Unsigned(2)))
    };
    let jo = seq![InstrV::Jo(label(OVERFLOW@))];
    assert(select_prim(p, args, c, stack, vars) =~= load + check + (seq![op] + jo));
    lemma_operand_word(args, 0, vars, env, s, stack);
    lemma_run_one(load[0], s);
    let s1 = set_reg(s, Reg::Rax, encode(a));
    lemma_run_add_silent(load, check, s);
    lemma_run_add_silent(load + check, seq![op] + jo, s);
    lemma_int_check(Reg::Rax, ARITH_ERROR@, s1, a);
    match a {
        Value::Int(x) => {
            let s2 = run(check, s1)->End_0;
            let result = if p is Add1 {
                x + 1
            } else {
                x - 1
            };
            lemma_int_word(x);
            lemma_run_add_silent(seq![op], jo, s2);
            lemma_run_one(op, s2);
            assert(source32(Arg32::Unsigned(2), s2) == 2);
            lemma_signed_small(2);
            assert(run(seq![op], s2) == Stop::End(computed(s2, Reg::Rax, 2 * result)));
            lemma_overflow_jump(s, 2 * result, s2);
            lemma_twice_fits(result);
        },
        _ => {},
    }
}

/// The words of the booleans under the bitwise operations.
pub proof fn lemma_boolean_words()
    ensures
        SNAKE_TRU & SNAKE_TRU == SNAKE_TRU,
        SNAKE_TRU & SNAKE_FLS == SNAKE_FLS,
        SNAKE_FLS & SNAKE_TRU == SNAKE_FLS,
        SNAKE_FLS & SNAKE_FLS == SNAKE_FLS,
        SNAKE_TRU | SNAKE_TRU == SNAKE_TRU,
        SNAKE_TRU | SNAKE_FLS == SNAKE_TRU,
        SNAKE_FLS | SNAKE_TRU == SNAKE_TRU,
        SNAKE_FLS | SNAKE_FLS == SNAKE_FLS,
        SNAKE_TRU ^ SIGN_BIT == SNAKE_FLS,
        SNAKE_FLS ^ SIGN_BIT == SNAKE_TRU,
{
    assert(0xFFFF_FFFF_FFFF_FFFFu64 & 0xFFFF_FFFF_FFFF_FFFFu64 == 0xFFFF_FFFF_FFFF_FFFFu64)
        by (bit_vector);
    assert(0xFFFF_FFFF_FFFF_FFFFu64 & 0x7FFF_FFFF_FFFF_FFFFu64 == 0x7FFF_FFFF_FFFF_FFFFu64)
        by (bit_vector);
    assert(0x7FFF_FFFF_FFFF_FFFFu64 & 0xFFFF_FFFF_FFFF_FFFFu64 == 0x7FFF_FFFF_FFFF_FFFFu64)
        by (bit_vector);
    assert(0x7FFF_FFFF_FFFF_FFFFu64 & 0x7FFF_FFFF_FFFF_FFFFu64 == 0x7FFF_FFFF_FFFF_FFFFu64)
        by (bit_vector);
    assert(0xFFFF_FFFF_FFFF_FFFFu64 | 0xFFFF_FFFF_FFFF_FFFFu64 == 0xFFFF_FFFF_FFFF_FFFFu64)
        by (bit_vector);
    assert(0xFFFF_FFFF_FFFF_FFFFu64 | 0x7FFF_FFFF_FFFF_FFFFu64 == 0xFFFF_FFFF_FFFF_FFFFu64)
        by (bit_vector);
    assert(0x7FFF_FFFF_FFFF_FFFFu64 | 0xFFFF_FFFF_FFFF_FFFFu64 == 0xFFFF_FFFF_FFFF_FFFFu64)
        by (bit_vector);
    assert(0x7FFF_FFFF_FFFF_FFFFu64 | 0x7FFF_FFFF_FFFF_FFFFu64 == 0x7FFF_FFFF_FFFF_FFFFu64)
        by (bit_vector);
    assert(0xFFFF_FFFF_FFFF_FFFFu64 ^ 0x8000_0000_0000_0000u64 == 0x7FFF_FFFF_FFFF_FFFFu64)
        by (bit_vector);
    assert(0x7FFF_FFFF_FFFF_FFFFu64 ^ 0x8000_0000_0000_0000u64 == 0xFFFF_FFFF_FFFF_FFFFu64)
        by (bit_vector);
}

/// Binary logic computes the result on two booleans and jumps when an
/// operand is no boolean.
pub proof fn lemma_logic_runs(
    p: Prim,
    args: Seq<ImmV>,
    vars: Map<Name, i32>,
    env: Map<Name, Value>,
    s: State,
    stack: int,
    c: nat,
)
    requires
        p is And || p is Or,
        holds(s, env, vars, stack),
        forall|j: int| 0 <= j < args.len() ==> imm_ok(#[trigger] args[j], env.dom()),
    ensures
        ends_as(run(select_prim(p, args, c, stack, vars), s), apply(p, args, env), s, stack),
{
    let a = arg(args, 0, env);
    let b = arg(args, 1, env);
    let front = seq![mov_reg(Reg::Rax, operand(args, 0, vars))] + bool_check(
        Reg::Rax,
        LOGIC_ERROR@,
    ) + seq![mov_reg(Reg::Rdx, operand(args, 1, vars))] + bool_check(Reg::Rdx, LOGIC_ERROR@);
    let op = if p is And {
        InstrV::And(BinArgs::ToReg(Reg::Rax, Arg32::Reg(Reg::Rdx)))
    } else {
        InstrV::Or(BinArgs::ToReg(Reg::Rax, Arg32::Reg(Reg::Rdx)))
    };
    assert(select_prim(p, args, c, stack, vars) == front + seq![op]);
    lemma_two_operands(args, vars, env, s, stack, LOGIC_ERROR@, false);
    lemma_run_add_silent(front, seq![op], s);
    lemma_boolean_words();
    match (a, b) {
        (Value::Bool(x), Value::Bool(y)) => {
            let s4 = run(front, s)->End_0;
            lemma_run_one(op, s4);
        },
        _ => {},
    }
}

/// Negation computes the result on a boolean and jumps when the operand is
/// no boolean.
pub proof fn lemma_not_runs(
    args: Seq<ImmV>,
    vars: Map<Name, i32>,
    env: Map<Name, Value>,
    s: State,
    stack: int,
    c: nat,
)
    requires
        holds(s, env, vars, stack),
        forall|j: int| 0 <= j < args.len() ==> imm_ok(#[trigger] args[j], env.dom()),
    ensures
        ends_as(
            run(select_prim(Prim::Not, args, c, stack, vars), s),
            apply(Prim::Not, args, env),
            s,
            stack,
        ),
{
    let a = arg(args, 0, env);
    let load = seq![mov_reg(Reg::Rax, operand(args, 0, vars))];
    let check = bool_check(Reg::Rax, LOGIC_ERROR@);
    let mask = mov_reg(Reg::Rdx, Arg64::Unsigned(SIGN_BIT));
    let flip = InstrV::Xor(BinArgs::ToReg(Reg::Rax, Arg32::Reg(Reg::Rdx)));
    assert(select_prim(Prim::Not, args, c, stack, vars) == load + check + seq![mask, flip]);
    lemma_operand_word(args, 0, vars, env, s, stack);
    lemma_run_one(load[0], s);
    let s1 = set_reg(s, Reg::Rax, encode(a));
    lemma_run_add_silent(load, check, s);
    lemma_run_add_silent(load + check, seq![mask, flip], s);
    lemma_bool_check(Reg::Rax, LOGIC_ERROR@, s1, a);
    lemma_boolean_words();
    match a {
        Value::Bool(x) => {
            let s2 = run(check, s1)->End_0;
            lemma_run_two(mask, flip, s2);
        },
        _ => {},
    }
}

/// The sign of a word that holds a difference, as a boolean.
pub proof fn lemma_sign_words(d: int)
    requires
        fits(d),
    ensures
        wrap(d) | SNAKE_FLS == if d < 0 {
            SNAKE_TRU
        } else {
            SNAKE_FLS
        },
        (wrap(d) ^ SIGN_BIT) | SNAKE_FLS == if d < 0 {
            SNAKE_FLS
        } else {
            SNAKE_TRU
        },
{
    let w = wrap(d);
    lemma_wrap(d);
    assert(d < 0 <==> w >= 0x8000_0000_0000_0000);
    assert(w | 0x7FFF_FFFF_FFFF_FFFFu64 == if w >= 0x8000_0000_0000_0000u64 {
        0xFFFF_FFFF_FFFF_FFFFu64
    } else {
        0x7FFF_FFFF_FFFF_FFFFu64
    }) by (bit_vector);
    assert((w ^ 0x8000_0000_0000_0000u64) | 0x7FFF_FFFF_FFFF_FFFFu64 == if w
        >= 0x8000_0000_0000_0000u64 {
        0x7FFF_FFFF_FFFF_FFFFu64
    } else {
        0xFFFF_FFFF_FFFF_FFFFu64
    }) by (bit_vector);
}

/// The start of a comparison: both operands are loaded and checked, and the
/// difference of two integers is left in `Rax`: first minus second, or second
/// minus first when `reverse` is set. Anything else jumps to the error.
pub proof fn lemma_difference_front(
    args: Seq<ImmV>,
    vars: Map<Name, i32>,
    env: Map<Name, Value>,
    s: State,
    stack: int,
    reverse: bool,
)
    requires
        holds(s, env, vars, stack),
        forall|j: int| 0 <= j < args.len() ==> imm_ok(#[trigger] args[j], env.dom()),
    ensures
        match (arg(args, 0, env), arg(args, 1, env)) {
            (Value::Int(x), Value::Int(y)) => gives(
                run(difference(args, vars, reverse, CMP_ERROR@), s),
                s,
                wrap(
                    if reverse {
                        y - x
                    } else {
                        x - y
                    },
                ),
            ),
            _ => jumps(run(difference(args, vars, reverse, CMP_ERROR@), s), CMP_ERROR@),
        },
{
    let a = arg(args, 0, env);
    let b = arg(args, 1, env);
    let error = CMP_ERROR@;
    let first = if reverse {
        b
    } else {
        a
    };
    let second = if reverse {
        a
    } else {
        b
    };
    let loads = if reverse {
        seq![
            mov_reg(Reg::Rdx, operand(args, 0, vars)),
            mov_reg(Reg::Rax, operand(args, 1, vars)),
        ]
    } else {
        seq![
            mov_reg(Reg::Rax, operand(args, 0, vars)),
            mov_reg(Reg::Rdx, operand(args, 1, vars)),
        ]
    };
    let c0 = int_check(Reg::Rax, error);
    let c1 = int_check(Reg::Rdx, error);
    let tail = seq![
        InstrV::Sar(BinArgs::ToReg(Reg::Rax, Arg32::Signed(1))),
        InstrV::Sar(BinArgs::ToReg(Reg::Rdx, Arg32::Signed(1))),
        InstrV::Sub(BinArgs::ToReg(Reg::Rax, Arg32::Reg(Reg::Rdx))),
    ];
    assert(difference(args, vars, reverse, error) == loads + c0 + c1 + tail);
    lemma_operand_word(args, 0, vars, env, s, stack);
    lemma_run_two(loads[0], loads[1], s);
    let s1 = if reverse {
        set_reg(s, Reg::Rdx, encode(a))
    } else {
        set_reg(s, Reg::Rax, encode(a))
    };
    assert(scratch(s, s1));
    lemma_holds_scratch(s, s1, env, vars, stack);
    lemma_operand_word(args, 1, vars, env, s1, stack);
    let s2 = if reverse {
        set_reg(s1, Reg::Rax, encode(b))
    } else {
        set_reg(s1, Reg::Rdx, encode(b))
    };
    assert(run(loads, s) == Stop::End(s2));
    lemma_run_add_silent(loads, c0, s);
    lemma_run_add_silent(loads + c0, c1, s);
    lemma_run_add_silent(loads + c0 + c1, tail, s);
    lemma_int_check(Reg::Rax, error, s2, first);
    if first is Int {
        let s3 = run(c0, s2)->End_0;
        lemma_int_check(Reg::Rdx, error, s3, second);
        if second is Int {
            let s4 = run(c1, s3)->End_0;
            let p = first->Int_0;
            let q = second->Int_0;
            lemma_int_word(p);
            lemma_int_word(q);
            lemma_difference_tail(p, q, s, s4);
        }
    }
}

/// The end of the start of a comparison: two integers are untagged and
/// subtracted.
pub proof fn lemma_difference_tail(p: int, q: int, before: State, s: State)
    requires
        in_range(p),
        in_range(q),
        scratch(before, s),
        (s.reg)(Reg::Rax) == wrap(2 * p),
        (s.reg)(Reg::Rdx) == wrap(2 * q),
    ensures
        gives(
            run(
                seq![
                    InstrV::Sar(BinArgs::ToReg(Reg::Rax, Arg32::Signed(1))),
                    InstrV::Sar(BinArgs::ToReg(Reg::Rdx, Arg32::Signed(1))),
                    InstrV::Sub(BinArgs::ToReg(Reg::Rax, Arg32::Reg(Reg::Rdx))),
                ],
                s,
            ),
            before,
            wrap(p - q),
        ),
{
    let i0 = InstrV::Sar(BinArgs::ToReg(Reg::Rax, Arg32::Signed(1)));
    let i1 = InstrV::Sar(BinArgs::ToReg(Reg::Rdx, Arg32::Signed(1)));
    let i2 = InstrV::Sub(BinArgs::ToReg(Reg::Rax, Arg32::Reg(Reg::Rdx)));
    lemma_int_word(p);
    lemma_int_word(q);
    assert(seq![i0, i1, i2] =~= seq![i0, i1] + seq![i2]);
    lemma_run_add_silent(seq![i0, i1], seq![i2], s);
    lemma_run_two(i0, i1, s);
    let s1 = State { zero: wrap(p) == 0, overflow: false, ..set_reg(s, Reg::Rax, wrap(p)) };
    assert(step(i0, s) == Stop::End(s1));
    let s2 = State { zero: wrap(q) == 0, overflow: false, ..set_reg(s1, Reg::Rdx, wrap(q)) };
    assert(step(i1, s1) == Stop::End(s2));
    lemma_run_one(i2, s2);
    assert(signed(wrap(p)) == p && signed(wrap(q)) == q);
    assert(step(i2, s2) == Stop::End(computed(s2, Reg::Rax, p - q)));
}

/// A comparison computes the result on two integers and jumps when an
/// operand is no integer.
pub proof fn lemma_comparison_runs(
    p: Prim,
    args: Seq<ImmV>,
    vars: Map<Name, i32>,
    env: Map<Name, Value>,
    s: State,
    stack: int,
    c: nat,
)
    requires
        p is Lt || p is Gt || p is Le || p is Ge,
        holds(s, env, vars, stack),
        forall|j: int| 0 <= j < args.len() ==> imm_ok(#[trigger] args[j], env.dom()),
    ensures
        ends_as(run(select_prim(p, args, c, stack, vars), s), apply(p, args, env), s, stack),
{
    let a = arg(args, 0, env);
    let b = arg(args, 1, env);
    let reverse = p is Gt || p is Le;
    let front = difference(args, vars, reverse, CMP_ERROR@);
    let back = if p is Lt || p is Gt {
        is_neg_spec()
    } else {
        is_non_neg_spec()
    };
    assert(select_prim(p, args, c, stack, vars) == front + back);
    lemma_difference_front(args, vars, env, s, stack, reverse);
    lemma_operand_word(args, 0, vars, env, s, stack);
    lemma_operand_word(args, 1, vars, env, s, stack);
    lemma_run_add_silent(front, back, s);
    match (a, b) {
        (Value::Int(x), Value::Int(y)) => {
            let d = if reverse {
                y - x
            } else {
                x - y
            };
            let s1 = run(front, s)->End_0;
            lemma_sign_words(d);
            lemma_sign_runs(d, s, s1, p is Lt || p is Gt);
        },
        _ => {},
    }
}

/// The end of a comparison: the sign of the difference in `Rax` becomes a
/// boolean, `true` for a negative difference if `negative` is set and for
/// another if it is not.
pub proof fn lemma_sign_runs(d: int, before: State, s: State, negative: bool)
    requires
        fits(d),
        scratch(before, s),
        (s.reg)(Reg::Rax) == wrap(d),
    ensures
        gives(
            run(
                if negative {
                    is_neg_spec()
                } else {
                    is_non_neg_spec()
                },
                s,
            ),
            before,
            encode(Value::Bool((d < 0) == negative)),
        ),
{
    lemma_sign_words(d);
    let fls = mov_reg(Reg::Rdx, Arg64::Unsigned(SNAKE_FLS));
    let or = InstrV::Or(BinArgs::ToReg(Reg::Rax, Arg32::Reg(Reg::Rdx)));
    if negative {
        lemma_run_two(fls, or, s);
    } else {
        let sign = mov_reg(Reg::Rdx, Arg64::Unsigned(SIGN_BIT));
        let xor = InstrV::Xor(BinArgs::ToReg(Reg::Rax, Arg32::Reg(Reg::Rdx)));
        assert(is_non_neg_spec() =~= seq![sign, xor] + seq![fls, or]);
        lemma_run_add_silent(seq![sign, xor], seq![fls, or], s);
        lemma_run_two(sign, xor, s);
        let s1 = set_reg(s, Reg::Rdx, SIGN_BIT);
        let s2 = combined(s1, Reg::Rax, wrap(d) ^ SIGN_BIT);
        assert(step(xor, s1) == Stop::End(s2));
        lemma_run_two(fls, or, s2);
    }
}




/// The end of a test: the code that leaves `true` in `Rax`, or `false` where
/// the test jumped.
pub open spec fn choice(n: nat) -> Seq<InstrV> {
    seq![
        mov_reg(Reg::Rax, Arg64::Unsigned(SNAKE_TRU)),
        InstrV::Jmp(label(numbered("test_done_"@, n))),
        InstrV::Label(numbered("false_"@, n)),
        mov_reg(Reg::Rax, Arg64::Unsigned(SNAKE_FLS)),
        InstrV::Label(numbered("test_done_"@, n)),
    ]
}

/// The end of a test leaves `true` in `Rax` where it is run from its start,
/// and `false` where it is entered by the jump of the test.
pub proof fn lemma_choice(n: nat, s: State)
    ensures
        run(choice(n), s) == Stop::End(set_reg(s, Reg::Rax, SNAKE_TRU)),
        resume(choice(n), numbered("false_"@, n), s) == Stop::End(set_reg(s, Reg::Rax, SNAKE_FLS)),
{
    lemma_pairs_differ(n);
    let no = numbered("false_"@, n);
    let done = numbered("test_done_"@, n);
    let c = choice(n);
    let c1 = c.drop_first();
    let c2 = c1.drop_first();
    let c3 = c2.drop_first();
    let c4 = c3.drop_first();
    let c5 = c4.drop_first();
    assert(c1[0] == InstrV::Jmp(JmpArgV::Label(done)));
    assert(c2[0] == InstrV::Label(no));
    assert(c3[0] == mov_reg(Reg::Rax, Arg64::Unsigned(SNAKE_FLS)));
    assert(c4[0] == InstrV::Label(done));
    assert(c5.len() == 0);
    reveal_with_fuel(find, 4);
    assert(find(c4, done) == Some(0int));
    assert(find(c3, done) == Some(1int));
    assert(find(c2, done) == Some(2int));
    assert(c2.skip(3) =~= c5);
    assert(find(c1, no) == Some(1int));
    assert(find(c, no) == Some(2int));
    assert(c.skip(3) =~= c3);
    reveal_with_fuel(run, 3);
    let t = set_reg(s, Reg::Rax, SNAKE_TRU);
    assert(run(c5, t) == Stop::End(t));
    assert(resume(c2, done, t) == Stop::End(t));
    assert(run(c1, t) == Stop::End(t));
    let f = set_reg(s, Reg::Rax, SNAKE_FLS);
    assert(run(c5, f) == Stop::End(f));
    assert(run(c4, f) == Stop::End(f));
    assert(run(c3, s) == Stop::End(f));
}

/// Whether a run ended with the word `a` in `Rax` and changed neither memory
/// nor the stack pointer.
pub open spec fn answers(r: Stop, s: State, a: u64) -> bool {
    r matches Stop::End(after) && scratch(s, after) && (after.reg)(Reg::Rax) == a
}

/// A test of the lowest bits of a word leaves `true` in `Rax` where they are
/// the tag, and `false` where they are not.
pub proof fn lemma_tag_test_runs(value: Arg64, mask: u32, tag: u32, n: nat, s: State)
    requires
        tag <= mask <= 15,
    ensures
        answers(
            run(tag_test(value, mask, tag, n), s),
            s,
            if source64(value, s) & (mask as u64) == tag as u64 {
                SNAKE_TRU
            } else {
                SNAKE_FLS
            },
        ),
{
    let word = source64(value, s);
    let low = word & (mask as u64);
    let m = mask as u64;
    assert(low <= 15) by (bit_vector)
        requires
            low == word & m,
            m <= 15,
    ;
    let head = seq![
        mov_reg(Reg::Rax, value),
        mov_reg(Reg::Rdx, Arg64::Reg(Reg::Rax)),
        InstrV::And(BinArgs::ToReg(Reg::Rdx, Arg32::Unsigned(mask))),
        InstrV::Cmp(BinArgs::ToReg(Reg::Rdx, Arg32::Unsigned(tag))),
        InstrV::Jne(label(numbered("false_"@, n))),
    ];
    assert(tag_test(value, mask, tag, n) =~= head + choice(n));
    lemma_run_add(head, choice(n), s);
    lemma_signed_small(low);
    lemma_signed_small(tag as u64);
    lemma_wrap(low - tag);
    let s1 = set_reg(s, Reg::Rax, word);
    let s2 = set_reg(s1, Reg::Rdx, word);
    let s3 = combined(s2, Reg::Rdx, low);
    let s4 = State { zero: low == tag as u64, overflow: !fits(low - tag), ..s3 };
    assert(step(head[0], s) == Stop::End(s1));
    assert(step(head[1], s1) == Stop::End(s2));
    assert(source32(Arg32::Unsigned(mask), s2) == m);
    assert(step(head[2], s2) == Stop::End(s3));
    assert(source32(Arg32::Unsigned(tag), s3) == tag as u64);
    assert(step(head[3], s3) == Stop::End(s4));
    let h1 = head.drop_first();
    let h2 = h1.drop_first();
    let h3 = h2.drop_first();
    let h4 = h3.drop_first();
    let h5 = h4.drop_first();
    assert(h1[0] == head[1] && h2[0] == head[2] && h3[0] == head[3] && h4[0] == head[4]);
    assert(h5.len() == 0);
    reveal_with_fuel(run, 2);
    reveal_with_fuel(find, 2);
    assert(run(h4, s4) == if low == tag as u64 {
        Stop::End(s4)
    } else {
        Stop::Jump(numbered("false_"@, n), s4)
    });
    assert(run(h3, s3) == run(h4, s4));
    assert(run(h2, s2) == run(h3, s3));
    assert(run(h1, s1) == run(h2, s2));
    assert(run(head, s) == run(h1, s1));
    lemma_choice(n, s4);
}

/// Two words are equal just where their difference as signed numbers is the
/// word zero.
pub proof fn lemma_same_word(x: u64, y: u64)
    ensures
        wrap(signed(x) - signed(y)) == 0 <==> x == y,
{
    reveal(signed);
    reveal(wrap);
}

/// Two values have the same word just where they are equal.
pub proof fn lemma_same_value(v: Value, w: Value)
    requires
        valid(v),
        valid(w),
    ensures
        encode(v) == encode(w) <==> v == w,
{
    match v {
        Value::Int(i) => {
            lemma_int_word(i);
        },
        _ => {},
    }
    match w {
        Value::Int(i) => {
            lemma_int_word(i);
        },
        _ => {},
    }
}

/// A test of equality leaves `true` in `Rax` where the two words are equal,
/// and `false` where they are not; the other way round where it is negated.
pub proof fn lemma_equality_runs(a: Arg64, b: Arg64, negate: bool, n: nat, s: State)
    ensures
        answers(
            run(equality_test(a, b, negate, n), s),
            s,
            if (source64(a, s) == source64(b, set_reg(s, Reg::Rax, source64(a, s)))) != negate {
                SNAKE_TRU
            } else {
                SNAKE_FLS
            },
        ),
{
    let x = source64(a, s);
    let s1 = set_reg(s, Reg::Rax, x);
    let y = source64(b, s1);
    let no = numbered("false_"@, n);
    let head = seq![
        mov_reg(Reg::Rax, a),
        mov_reg(Reg::Rdx, b),
        InstrV::Cmp(BinArgs::ToReg(Reg::Rax, Arg32::Reg(Reg::Rdx))),
        if negate {
            InstrV::Je(label(no))
        } else {
            InstrV::Jne(label(no))
        },
    ];
    assert(equality_test(a, b, negate, n) =~= head + choice(n));
    lemma_run_add(head, choice(n), s);
    lemma_same_word(x, y);
    let s2 = set_reg(s1, Reg::Rdx, y);
    let s3 = State { zero: x == y, overflow: !fits(signed(x) - signed(y)), ..s2 };
    assert(step(head[0], s) == Stop::End(s1));
    assert(step(head[1], s1) == Stop::End(s2));
    assert(step(head[2], s2) == Stop::End(s3));
    let h1 = head.drop_first();
    let h2 = h1.drop_first();
    let h3 = h2.drop_first();
    let h4 = h3.drop_first();
    assert(h1[0] == head[1] && h2[0] == head[2] && h3[0] == head[3]);
    assert(h4.len() == 0);
    reveal_with_fuel(run, 2);
    reveal_with_fuel(find, 2);
    assert(run(h3, s3) == if (x == y) != negate {
        Stop::End(s3)
    } else {
        Stop::Jump(no, s3)
    });
    assert(run(h2, s2) == run(h3, s3));
    assert(run(h1, s1) == run(h2, s2));
    assert(run(head, s) == run(h1, s1));
    lemma_choice(n, s3);
}

/// The code for a test of a value's kind, or of the equality of two values,
/// leaves the boolean that answers it in `Rax`.
pub proof fn lemma_testing_runs(
    p: Prim,
    args: Seq<ImmV>,
    vars: Map<Name, i32>,
    env: Map<Name, Value>,
    s: State,
    stack: int,
    c: nat,
)
    requires
        testing(p),
        holds(s, env, vars, stack),
        forall|j: int| 0 <= j < args.len() ==> imm_ok(#[trigger] args[j], env.dom()),
    ensures
        ends_as(run(select_prim(p, args, c, stack, vars), s), apply(p, args, env), s, stack),
{
    let a = arg(args, 0, env);
    let b = arg(args, 1, env);
    let x = encode(a);
    lemma_operand_word(args, 0, vars, env, s, stack);
    match p {
        Prim::Eq | Prim::Neq => {
            let s1 = set_reg(s, Reg::Rax, x);
            lemma_holds_scratch(s, s1, env, vars, stack);
            lemma_operand_word(args, 1, vars, env, s1, stack);
            lemma_same_value(a, b);
            lemma_equality_runs(
                operand(args, 0, vars),
                operand(args, 1, vars),
                p is Neq,
                c + 1,
                s,
            );
        },
        _ => {
            match a {
                Value::Int(i) => {
                    lemma_int_word(i);
                    assert(x & 1 == 0 && x & 15 != 15 && x & 7 != 3 && x & 7 != 1) by (bit_vector)
                        requires
                            x % 2 == 0,
                    ;
                },
                Value::Bool(_) => {
                    assert(0xFFFF_FFFF_FFFF_FFFFu64 & 1 == 1 && 0xFFFF_FFFF_FFFF_FFFFu64 & 15 == 15
                        && 0xFFFF_FFFF_FFFF_FFFFu64 & 7 == 7) by (bit_vector);
                    assert(0x7FFF_FFFF_FFFF_FFFFu64 & 1 == 1 && 0x7FFF_FFFF_FFFF_FFFFu64 & 15 == 15
                        && 0x7FFF_FFFF_FFFF_FFFFu64 & 7 == 7) by (bit_vector);
                },
            }
            let mask: u32 = if p is IsBool {
                0b1111
            } else if p is IsNum {
                0b1
            } else {
                TYPE_MASK
            };
            let tag: u32 = if p is IsBool {
                0b1111
            } else if p is IsNum {
                0b0
            } else if p is IsFun {
                0b011
            } else {
                0b001
            };
            lemma_tag_test_runs(operand(args, 0, vars), mask, tag, c + 1, s);
        },
    }
}

/// The code for a primitive of arithmetic, logic or comparison holds no
/// label.
pub proof fn lemma_plain_silent(p: Prim, args: Seq<ImmV>, vars: Map<Name, i32>, stack: int, c: nat)
    requires
        plain(p),
    ensures
        silent(select_prim(p, args, c, stack, vars)),
{
}

/// The labels that the code of a simple expression defines are those of its
/// tests and conditionals, with the numbers that it drew from the counter.
pub proof fn lemma_select_labels(
    e: SeqExpV,
    c: nat,
    stack: int,
    vars: Map<Name, i32>,
    funs: Map<Name, i32>,
)
    requires
        simple(e),
    ensures
        labels_within(select(e, c, stack, vars, funs), c, c + labels_needed(e)),
    decreases e,
{
    let code = select(e, c, stack, vars, funs);
    let hi = c + labels_needed(e);
    match e {
        SeqExpV::Imm(_) => {},
        SeqExpV::Prim(p, args) => {
            if plain(p) {
                lemma_plain_silent(p, args, vars, stack, c);
                lemma_silent_within(code, c, hi);
            } else {
                lemma_number_inner("false_"@, c + 1, c, hi);
                lemma_number_inner("test_done_"@, c + 1, c, hi);
            }
        },
        SeqExpV::Let { var, bound_exp, body } => {
            let first = select(*bound_exp, c, stack, vars, funs);
            let store = seq![mov_mem(Reg::Rsp, slot(stack + 1), Reg::Rax)];
            let middle = c + labels_needed(*bound_exp);
            let rest = select(*body, middle, stack + 1, vars.insert(var, slot(stack + 1)), funs);
            lemma_select_labels(*bound_exp, c, stack, vars, funs);
            lemma_select_labels(*body, middle, stack + 1, vars.insert(var, slot(stack + 1)), funs);
            lemma_labels_wider(first, c, middle, c, hi);
            lemma_labels_wider(rest, middle, hi, c, hi);
            lemma_labels_add(first, store, c, hi);
            lemma_labels_add(first + store, rest, c, hi);
        },
        SeqExpV::If { cond, thn, els } => {
            let head = condition(cond, vars, c + 1);
            let first = select(*thn, c + 1, stack, vars, funs);
            let middle = c + 1 + labels_needed(*thn);
            let second = select(*els, middle, stack, vars, funs);
            lemma_select_labels(*thn, c + 1, stack, vars, funs);
            lemma_select_labels(*els, middle, stack, vars, funs);
            lemma_labels_wider(first, c + 1, middle, c, hi);
            lemma_labels_wider(second, middle, hi, c, hi);
            lemma_number_inner("else_"@, c + 1, c, hi);
            lemma_number_inner("done_"@, c + 1, c, hi);
            lemma_labels_add(head, first, c, hi);
            lemma_labels_add(head + first, turn(c + 1), c, hi);
            lemma_labels_add(head + first + turn(c + 1), second, c, hi);
            lemma_labels_add(head + first + turn(c + 1) + second, close(c + 1), c, hi);
            assert(code =~= head + first + turn(c + 1) + second + close(c + 1));
        },
        _ => {},
    }
}

/// The start of a conditional: it checks that the condition is a boolean and
/// jumps to the second branch where it is `false`.
pub open spec fn condition(cond: ImmV, vars: Map<Name, i32>, n: nat) -> Seq<InstrV> {
    seq![mov_reg(Reg::Rax, imm_arg(cond, vars))] + bool_check(Reg::Rax, IF_ERROR@) + seq![
        mov_reg(Reg::Rdx, Arg64::Unsigned(SNAKE_FLS)),
        InstrV::Cmp(BinArgs::ToReg(Reg::Rax, Arg32::Reg(Reg::Rdx))),
        InstrV::Je(label(numbered("else_"@, n))),
    ]
}

/// What stands between the two branches of a conditional.
pub open spec fn turn(n: nat) -> Seq<InstrV> {
    seq![InstrV::Jmp(label(numbered("done_"@, n))), InstrV::Label(numbered("else_"@, n))]
}

/// What stands behind the second branch of a conditional.
pub open spec fn close(n: nat) -> Seq<InstrV> {
    seq![InstrV::Label(numbered("done_"@, n))]
}

/// Whether a run ended, or jumped to a trampoline.
pub open spec fn settled(r: Stop) -> bool {
    match r {
        Stop::End(_) => true,
        Stop::Jump(l, _) => error_label(l),
        Stop::Stuck => false,
    }
}

/// Whether a run ended with a jump to `l` and changed neither memory nor the
/// stack pointer.
pub open spec fn branches(r: Stop, s: State, l: Name) -> bool {
    r matches Stop::Jump(to, after) && to == l && scratch(s, after)
}

/// Whether a run ended and changed neither memory nor the stack pointer.
pub open spec fn falls(r: Stop, s: State) -> bool {
    r matches Stop::End(after) && scratch(s, after)
}

/// The start of a conditional goes on with the first branch where the
/// condition is `true`, jumps to the second where it is `false`, and to the
/// trampoline where it is no boolean.
pub proof fn lemma_condition_runs(
    cond: ImmV,
    vars: Map<Name, i32>,
    env: Map<Name, Value>,
    s: State,
    stack: int,
    n: nat,
)
    requires
        holds(s, env, vars, stack),
        imm_ok(cond, env.dom()),
    ensures
        ({
            let r = run(condition(cond, vars, n), s);
            match value_of(cond, env) {
                Value::Int(_) => jumps(r, IF_ERROR@),
                Value::Bool(b) => if b {
                    falls(r, s)
                } else {
                    branches(r, s, numbered("else_"@, n))
                },
            }
        }),
{
    let v = value_of(cond, env);
    let load = seq![mov_reg(Reg::Rax, imm_arg(cond, vars))];
    let check = bool_check(Reg::Rax, IF_ERROR@);
    let no = numbered("else_"@, n);
    let test = seq![
        mov_reg(Reg::Rdx, Arg64::Unsigned(SNAKE_FLS)),
        InstrV::Cmp(BinArgs::ToReg(Reg::Rax, Arg32::Reg(Reg::Rdx))),
        InstrV::Je(label(no)),
    ];
    lemma_imm_word(cond, vars, env, s, stack);
    lemma_run_one(load[0], s);
    let s1 = set_reg(s, Reg::Rax, encode(v));
    lemma_run_add_silent(load, check, s);
    lemma_run_add_silent(load + check, test, s);
    lemma_bool_check(Reg::Rax, IF_ERROR@, s1, v);
    match v {
        Value::Bool(b) => {
            let s2 = run(check, s1)->End_0;
            let x = encode(v);
            lemma_same_word(x, SNAKE_FLS);
            let s3 = set_reg(s2, Reg::Rdx, SNAKE_FLS);
            let s4 = State { zero: !b, overflow: !fits(signed(x) - signed(SNAKE_FLS)), ..s3 };
            assert(step(test[0], s2) == Stop::End(s3));
            assert(step(test[1], s3) == Stop::End(s4));
            let t1 = test.drop_first();
            let t2 = t1.drop_first();
            let t3 = t2.drop_first();
            assert(t1[0] == test[1] && t2[0] == test[2]);
            assert(t3.len() == 0);
            reveal_with_fuel(run, 2);
            reveal_with_fuel(find, 2);
            assert(run(t2, s4) == if b {
                Stop::End(s4)
            } else {
                Stop::Jump(no, s4)
            });
            assert(run(t1, s3) == run(t2, s4));
            assert(run(test, s2) == run(t1, s3));
        },
        _ => {},
    }
}

/// A conditional runs one of its branches: the first where its start goes
/// on, the second where its start jumps to it; and a jump to a trampoline,
/// out of the start or of a branch, leaves the conditional.
pub proof fn lemma_branch_runs(
    head: Seq<InstrV>,
    first: Seq<InstrV>,
    second: Seq<InstrV>,
    n: nat,
    hi: nat,
    s: State,
)
    requires
        n >= 1,
        labels_within(first, n, hi),
        labels_within(second, n, hi),
        match run(head, s) {
            Stop::End(next) => settled(run(first, next)),
            Stop::Jump(l, next) => (l == numbered("else_"@, n) && settled(run(second, next)))
                || error_label(l),
            Stop::Stuck => false,
        },
    ensures
        run(head + first + turn(n) + second + close(n), s) == match run(head, s) {
            Stop::End(next) => run(first, next),
            Stop::Jump(l, next) => if l == numbered("else_"@, n) {
                run(second, next)
            } else {
                run(head, s)
            },
            Stop::Stuck => Stop::Stuck,
        },
{
    let no = numbered("else_"@, n);
    let done = numbered("done_"@, n);
    let low = (n - 1) as nat;
    lemma_pairs_differ(n);
    lemma_run_add(head, first, s);
    lemma_run_add(head + first, turn(n), s);
    lemma_run_add(head + first + turn(n), second, s);
    lemma_run_add(head + first + turn(n) + second, close(n), s);
    lemma_number_inner("else_"@, n, low, n);
    lemma_number_inner("done_"@, n, low, n);
    lemma_number_outer("else_"@, n, n, hi);
    lemma_number_outer("done_"@, n, n, hi);
    assert(labels_within(turn(n), low, n));
    assert(labels_within(close(n), low, n));
    let t1 = turn(n).drop_first();
    assert(t1[0] == InstrV::Label(no));
    assert(t1.drop_first().len() == 0);
    assert(turn(n).skip(2) =~= t1.drop_first());
    assert(close(n).skip(1) =~= t1.drop_first());
    assert(close(n).drop_first() =~= t1.drop_first());
    reveal_with_fuel(run, 3);
    reveal_with_fuel(find, 3);
    assert(find(turn(n), no) == Some(1int));
    assert(find(t1, done) is None);
    assert(find(close(n), done) == Some(0int));
    let r = run(head, s);
    match r {
        Stop::End(next) => {
            let r1 = run(first, next);
            match r1 {
                Stop::End(after) => {
                    assert(run(turn(n), after) == Stop::Jump(done, after));
                    lemma_absent(second, done, n, hi);
                    assert(resume(close(n), done, after) == Stop::End(after));
                },
                Stop::Jump(l, after) => {
                    lemma_error_outer(l, low, n);
                    lemma_error_outer(l, n, hi);
                    lemma_jump_leaves(r1, turn(n), l, low, n);
                    lemma_jump_leaves(r1, second, l, n, hi);
                    lemma_jump_leaves(r1, close(n), l, low, n);
                },
                Stop::Stuck => {},
            }
        },
        Stop::Jump(l, next) => {
            if l == no {
                if error_label(no) {
                    lemma_error_outer(no, low, n);
                }
                lemma_absent(first, no, n, hi);
                assert(resume(turn(n), no, next) == Stop::End(next));
                let r2 = run(second, next);
                match r2 {
                    Stop::End(after) => {
                        assert(run(close(n), after) == Stop::End(after));
                    },
                    Stop::Jump(k, after) => {
                        lemma_error_outer(k, low, n);
                        lemma_jump_leaves(r2, close(n), k, low, n);
                    },
                    Stop::Stuck => {},
                }
            } else {
                lemma_error_outer(l, low, n);
                lemma_error_outer(l, n, hi);
                lemma_jump_leaves(r, first, l, n, hi);
                lemma_jump_leaves(r, turn(n), l, low, n);
                lemma_jump_leaves(r, second, l, n, hi);
                lemma_jump_leaves(r, close(n), l, low, n);
            }
        },
        Stop::Stuck => {},
    }
}

/// The code for a plain primitive computes its result or jumps to the
/// trampoline of its error.
pub proof fn lemma_plain_runs(
    p: Prim,
    args: Seq<ImmV>,
    vars: Map<Name, i32>,
    env: Map<Name, Value>,
    s: State,
    stack: int,
    c: nat,
)
    requires
        plain(p),
        holds(s, env, vars, stack),
        forall|j: int| 0 <= j < args.len() ==> imm_ok(#[trigger] args[j], env.dom()),
    ensures
        ends_as(run(select_prim(p, args, c, stack, vars), s), apply(p, args, env), s, stack),
{
    match p {
        Prim::Add | Prim::Sub | Prim::Mul => {
            lemma_arithmetic_runs(p, args, vars, env, s, stack, c);
        },
        Prim::Add1 | Prim::Sub1 => {
            lemma_arithmetic1_runs(p, args, vars, env, s, stack, c);
        },
        Prim::And | Prim::Or => {
            lemma_logic_runs(p, args, vars, env, s, stack, c);
        },
        Prim::Not => {
            lemma_not_runs(args, vars, env, s, stack, c);
        },
        _ => {
            lemma_comparison_runs(p, args, vars, env, s, stack, c);
        },
    }
}

/// The store of a value in the next slot of the frame puts it where the
/// body of a `let` looks for the variable, and keeps the other variables.
pub proof fn lemma_bind_holds(
    before: State,
    s: State,
    env: Map<Name, Value>,
    vars: Map<Name, i32>,
    stack: int,
    var: Name,
    v: Value,
)
    requires
        holds(before, env, vars, stack),
        kept(before, s, stack),
        0 <= stack < MAX_FRAME,
        (s.reg)(Reg::Rax) == encode(v),
        valid(v),
    ensures
        ({
            let after = set_mem(s, (s.reg)(Reg::Rsp) + slot(stack + 1), encode(v));
            &&& step(mov_mem(Reg::Rsp, slot(stack + 1), Reg::Rax), s) == Stop::End(after)
            &&& holds(after, env.insert(var, v), vars.insert(var, slot(stack + 1)), stack + 1)
        }),
{
    let at = (s.reg)(Reg::Rsp) + slot(stack + 1);
    let after = set_mem(s, at, encode(v));
    let env2 = env.insert(var, v);
    let vars2 = vars.insert(var, slot(stack + 1));
    assert(slot(stack + 1) == -8 * (stack + 1));
    assert forall|x: Name| #[trigger] env2.contains_key(x) implies vars2.contains_key(x) && -8 * (
    stack + 1) <= vars2[x] <= -8 && (after.mem)((after.reg)(Reg::Rsp) + vars2[x]) == encode(env2[x])
        && valid(env2[x]) by {
        if x != var {
            assert(env.contains_key(x));
            let a = (before.reg)(Reg::Rsp) + vars[x];
            assert((s.mem)(a) == (before.mem)(a));
        }
    }
}

/// The label of a fault is the label of a trampoline.
pub proof fn lemma_fault_label(f: Fault)
    ensures
        error_label(fault_label(f)),
{
}

/// A run that ends as an expression's value or fault asks ended, or jumped to
/// a trampoline.
pub proof fn lemma_ends_settled(r: Stop, result: Result<Value, Fault>, s: State, stack: int)
    requires
        ends_as(r, result, s, stack),
    ensures
        settled(r),
{
    match result {
        Err(f) => {
            lemma_fault_label(f);
        },
        _ => {},
    }
}

/// What a run from `next` kept of the frame, a run from `s` kept too, if
/// nothing of memory changed from `s` to `next`.
pub proof fn lemma_ends_from(
    r: Stop,
    result: Result<Value, Fault>,
    s: State,
    next: State,
    stack: int,
)
    requires
        ends_as(r, result, next, stack),
        scratch(s, next),
    ensures
        ends_as(r, result, s, stack),
{
    match r {
        Stop::End(after) => {
            assert forall|a: int| a >= (s.reg)(Reg::Rsp) - 8 * stack implies #[trigger] (after.mem)(
                a,
            ) == (s.mem)(a) by {
                assert((after.mem)(a) == (next.mem)(a));
            }
        },
        _ => {},
    }
}

/// The code that instruction selection emits for a simple expression
/// computes the value of the expression: it ends with the word of the value
/// in `Rax`, the stack pointer where it was and the frame as it was; or it
/// jumps to the trampoline of the error that the expression makes.
pub proof fn lemma_simple_runs(
    e: SeqExpV,
    c: nat,
    stack: int,
    vars: Map<Name, i32>,
    funs: Map<Name, i32>,
    env: Map<Name, Value>,
    s: State,
)
    requires
        simple(e),
        grounded(e, env.dom()),
        holds(s, env, vars, stack),
        0 <= stack,
        stack + frame_need(e) <= MAX_FRAME,
    ensures
        ends_as(run(select(e, c, stack, vars, funs), s), eval(e, env), s, stack),
    decreases e,
{
    match e {
        SeqExpV::Imm(i) => {
            lemma_imm_word(i, vars, env, s, stack);
            lemma_run_one(mov_reg(Reg::Rax, imm_arg(i, vars)), s);
        },
        SeqExpV::Prim(p, args) => {
            if plain(p) {
                lemma_plain_runs(p, args, vars, env, s, stack, c);
            } else {
                lemma_testing_runs(p, args, vars, env, s, stack, c);
            }
        },
        SeqExpV::Let { var, bound_exp, body } => {
            let first = select(*bound_exp, c, stack, vars, funs);
            let store = seq![mov_mem(Reg::Rsp, slot(stack + 1), Reg::Rax)];
            let vars2 = vars.insert(var, slot(stack + 1));
            let middle = c + labels_needed(*bound_exp);
            let rest = select(*body, middle, stack + 1, vars2, funs);
            lemma_run_add_silent(first, store, s);
            lemma_run_add(first + store, rest, s);
            lemma_simple_runs(*bound_exp, c, stack, vars, funs, env, s);
            lemma_select_labels(*body, middle, stack + 1, vars2, funs);
            match eval(*bound_exp, env) {
                Ok(v) => {
                    let s1 = run(first, s)->End_0;
                    let env2 = env.insert(var, v);
                    lemma_bind_holds(s, s1, env, vars, stack, var, v);
                    lemma_run_one(store[0], s1);
                    let s2 = set_mem(s1, (s1.reg)(Reg::Rsp) + slot(stack + 1), encode(v));
                    assert(env2.dom() =~= env.dom().insert(var));
                    lemma_simple_runs(*body, middle, stack + 1, vars2, funs, env2, s2);
                    match eval(*body, env2) {
                        Ok(w) => {
                            let s3 = run(rest, s2)->End_0;
                            assert(slot(stack + 1) == -8 * (stack + 1));
                            assert forall|a: int|
                                a >= (s.reg)(Reg::Rsp) - 8 * stack implies #[trigger] (s3.mem)(a)
                                == (s.mem)(a) by {
                                assert((s3.mem)(a) == (s2.mem)(a));
                                assert((s2.mem)(a) == (s1.mem)(a));
                            }
                        },
                        Err(_) => {},
                    }
                },
                Err(f) => {
                    let hi = middle + labels_needed(*body);
                    lemma_fault_label(f);
                    lemma_error_outer(fault_label(f), middle, hi);
                    lemma_jump_leaves(run(first, s), rest, fault_label(f), middle, hi);
                },
            }
        },
        SeqExpV::If { cond, thn, els } => {
            let head = condition(cond, vars, c + 1);
            let first = select(*thn, c + 1, stack, vars, funs);
            let middle = c + 1 + labels_needed(*thn);
            let second = select(*els, middle, stack, vars, funs);
            let hi = c + labels_needed(e);
            assert(select(e, c, stack, vars, funs) =~= head + first + turn(c + 1) + second + close(
                c + 1,
            ));
            lemma_select_labels(*thn, c + 1, stack, vars, funs);
            lemma_select_labels(*els, middle, stack, vars, funs);
            lemma_labels_wider(first, c + 1, middle, c + 1, hi);
            lemma_labels_wider(second, middle, hi, c + 1, hi);
            lemma_condition_runs(cond, vars, env, s, stack, c + 1);
            lemma_fault_label(Fault::Condition);
            match run(head, s) {
                Stop::End(next) => {
                    lemma_holds_scratch(s, next, env, vars, stack);
                    lemma_simple_runs(*thn, c + 1, stack, vars, funs, env, next);
                    lemma_ends_settled(run(first, next), eval(*thn, env), next, stack);
                    lemma_ends_from(run(first, next), eval(*thn, env), s, next, stack);
                },
                Stop::Jump(l, next) => {
                    if value_of(cond, env) is Bool {
                        lemma_holds_scratch(s, next, env, vars, stack);
                        lemma_simple_runs(*els, middle, stack, vars, funs, env, next);
                        lemma_ends_settled(run(second, next), eval(*els, env), next, stack);
                        lemma_ends_from(run(second, next), eval(*els, env), s, next, stack);
                    } else {
                        lemma_error_outer(l, c, c + 1);
                        lemma_number_inner("else_"@, c + 1, c, c + 1);
                    }
                },
                Stop::Stuck => {},
            }
            lemma_branch_runs(head, first, second, c + 1, hi, s);
        },
        _ => {},
    }
}

} // verus!
