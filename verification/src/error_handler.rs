//! The runtime-error protocol on the compiler's side: the labels that checks
//! jump to, and the trampolines behind them.

use vstd::prelude::*;
use vstd::string::*;
use crate::syntax::Name;
use crate::x86::{Arg32, Arg64, BinArgs, Instr, InstrV, JmpArg, MovArgs, Reg, emit, instrs_view, label, mov_reg};

verus! {

/// Where control goes when arithmetic leaves the range of integers.
pub const OVERFLOW: &'static str = "overflow_error";

/// Where control goes when arithmetic gets what is no integer.
pub const ARITH_ERROR: &'static str = "arith_error";

/// Where control goes when a comparison gets what is no integer.
pub const CMP_ERROR: &'static str = "cmp_error";

/// Where control goes when a condition is no boolean.
pub const IF_ERROR: &'static str = "if_error";

/// Where control goes when logic gets what is no boolean.
pub const LOGIC_ERROR: &'static str = "logic_error";

/// Where control goes when an array operation gets what is no array.
pub const NON_ARRAY_ERROR: &'static str = "non_array_error";

/// Where control goes when an index is no integer.
pub const INDEX_ERROR: &'static str = "index_not_number";

/// Where control goes when an index is negative or not below the length.
pub const INDEX_OUT_OF_BOUNDS: &'static str = "index_out_of_bounds";

/// Where control goes when what is called is no closure.
pub const NON_CLOSURE_ERROR: &'static str = "non_closure_error";

/// Where control goes when a closure gets the wrong number of arguments.
pub const LAMBDA_ARITY_ERROR: &'static str = "lambda_arity_error";

/// Where control goes when a function is entered with a stack pointer
/// that is not aligned.
pub const STACK_ERROR: &'static str = "stack_error";

/// The runtime function that reports an error and ends the program.
pub const SNAKE_ERROR: &'static str = "snake_error";

/// The check that a function makes on entry: the stack pointer is a multiple
/// of 16, or control goes to the stack-error trampoline.
pub open spec fn stack_check_spec() -> Seq<InstrV> {
    seq![
        mov_reg(Reg::R8, Arg64::Reg(Reg::Rsp)),
        InstrV::And(BinArgs::ToReg(Reg::R8, Arg32::Unsigned(0b1111))),
        InstrV::Cmp(BinArgs::ToReg(Reg::R8, Arg32::Unsigned(0))),
        InstrV::Jne(label(STACK_ERROR@)),
    ]
}

/// One trampoline: the label, the error code as first argument, the offending
/// value as second, and the call that does not return.
pub open spec fn trampoline(name: Name, code: i64, value: Reg) -> Seq<InstrV> {
    seq![
        InstrV::Label(name),
        mov_reg(Reg::Rdi, Arg64::Signed(code)),
        mov_reg(Reg::Rsi, Arg64::Reg(value)),
        InstrV::Call(label(SNAKE_ERROR@)),
    ]
}

/// All trampolines, one per error code, in the order of their codes.
pub open spec fn error_handlers() -> Seq<InstrV> {
    trampoline(ARITH_ERROR@, 0, Reg::Rax) + trampoline(CMP_ERROR@, 1, Reg::Rax) + trampoline(
        OVERFLOW@,
        2,
        Reg::Rax,
    ) + trampoline(IF_ERROR@, 3, Reg::Rax) + trampoline(LOGIC_ERROR@, 4, Reg::Rax) + trampoline(
        NON_ARRAY_ERROR@,
        5,
        Reg::Rax,
    ) + trampoline(INDEX_ERROR@, 6, Reg::R8) + trampoline(INDEX_OUT_OF_BOUNDS@, 7, Reg::R8)
        + trampoline(NON_CLOSURE_ERROR@, 8, Reg::Rax) + trampoline(
        LAMBDA_ARITY_ERROR@,
        9,
        Reg::Rax,
    ) + trampoline(STACK_ERROR@, 99, Reg::Rsp)
}

/// A jump target by name.
pub fn to_label(name: &str) -> (t: JmpArg)
    ensures
        t@ == label(name@),
{
    JmpArg::Label(String::from_str(name))
}

/// The check that a function makes on entry.
pub fn stack_check() -> (res: Vec<Instr>)
    ensures
        instrs_view(res@) == stack_check_spec(),
{
    let mut res: Vec<Instr> = Vec::new();
    emit(&mut res, Instr::Mov(MovArgs::ToReg(Reg::R8, Arg64::Reg(Reg::Rsp))));
    emit(&mut res, Instr::And(BinArgs::ToReg(Reg::R8, Arg32::Unsigned(0b1111))));
    emit(&mut res, Instr::Cmp(BinArgs::ToReg(Reg::R8, Arg32::Unsigned(0))));
    emit(&mut res, Instr::Jne(to_label(STACK_ERROR)));
    assert(instrs_view(res@) =~= stack_check_spec());
    res
}

fn push_trampoline(out: &mut Vec<Instr>, name: &str, code: i64, value: Reg)
    ensures
        instrs_view(final(out)@) == instrs_view(old(out)@) + trampoline(name@, code, value),
{
    emit(out, Instr::Label(String::from_str(name)));
    emit(out, Instr::Mov(MovArgs::ToReg(Reg::Rdi, Arg64::Signed(code))));
    emit(out, Instr::Mov(MovArgs::ToReg(Reg::Rsi, Arg64::Reg(value))));
    emit(out, Instr::Call(to_label(SNAKE_ERROR)));
    assert(instrs_view(out@) =~= instrs_view(old(out)@) + trampoline(name@, code, value));
}

/// The trampolines of all errors.
pub fn error_handle_instr() -> (res: Vec<Instr>)
    ensures
        instrs_view(res@) == error_handlers(),
{
    let mut res: Vec<Instr> = Vec::new();
    assert(instrs_view(res@) =~= Seq::<InstrV>::empty());
    push_trampoline(&mut res, ARITH_ERROR, 0, Reg::Rax);
    push_trampoline(&mut res, CMP_ERROR, 1, Reg::Rax);
    push_trampoline(&mut res, OVERFLOW, 2, Reg::Rax);
    push_trampoline(&mut res, IF_ERROR, 3, Reg::Rax);
    push_trampoline(&mut res, LOGIC_ERROR, 4, Reg::Rax);
    push_trampoline(&mut res, NON_ARRAY_ERROR, 5, Reg::Rax);
    push_trampoline(&mut res, INDEX_ERROR, 6, Reg::R8);
    push_trampoline(&mut res, INDEX_OUT_OF_BOUNDS, 7, Reg::R8);
    push_trampoline(&mut res, NON_CLOSURE_ERROR, 8, Reg::Rax);
    push_trampoline(&mut res, LAMBDA_ARITY_ERROR, 9, Reg::Rax);
    push_trampoline(&mut res, STACK_ERROR, 99, Reg::Rsp);
    assert(instrs_view(res@) =~= error_handlers());
    res
}

} // verus!
