//! Instruction selection: from the sequential tree to x86-64 instructions.

use vstd::prelude::*;
use crate::checker::lemma_checked_scoped;
use crate::resolve::{function_is_resolved, is_resolved};
use vstd::pervasive::unreached;
use crate::select::{all_resolved, function_resolved, group_names, imm_resolved, lemma_with_funs_dom, lemma_with_params_dom, operands_read, resolved};
use crate::syntax::ImmV;
use vstd::string::*;
use crate::error_handler::{ARITH_ERROR, CMP_ERROR, IF_ERROR, INDEX_ERROR, INDEX_OUT_OF_BOUNDS, LAMBDA_ARITY_ERROR, LOGIC_ERROR, NON_ARRAY_ERROR, NON_CLOSURE_ERROR, OVERFLOW, stack_check, to_label};
use crate::select::{I63_MAX, I63_MIN, MAX_FRAME, SIGN_BIT, SNAKE_FLS, SNAKE_TRU, TYPE_MASK, align_stack_spec, arithmetic, arithmetic1, arities_fit, array_access_spec, array_store, bool_check, comparison, concat_map, decls_labels, element, equality_test, frame_call, frame_need, funs_within, imm_arg, int_check, is_neg_spec, is_non_neg_spec, labels_needed, lemma_concat_map_step, lemma_decls_arities_fit, lemma_decls_frame_need, lemma_decls_labels_mono, logic, make_closure_spec, marshal_arg, offset_of, operand, place_arg, prim_labels, save_arg, scratch_base, select, select_decls, select_function, select_main, select_prim, select_prim_at, slot, tag_test, tagged, tail_call, with_funs, with_params};
use crate::syntax::{Exp, ExpV, FunDecl, ImmExp, Name, Prim, SeqExp, SeqFunDeclV, SeqProgV, Stage, SurfProg, VarOrLabel, VarOrLabelV, binders, imms_view, in_stage, names_view, seq_decl_view, seq_decls_view, sum_to};
use crate::table::Table;
use crate::limits::{arities_ok, count_binders, count_fresh, count_fresh_decls, count_labels, is_surface, measure_frame, within};
use crate::syntax::SeqProg;
use crate::checker::check;
use crate::errors::{CompileErr, reports};
use crate::lambda_lift::{MAX_SCOPE, lambda_lift, lambda_lift_spec};
use crate::sequentializer::{decl_fresh_at, seq_fresh, seq_prog, seq_prog_spec};
use crate::error_handler::{error_handle_instr, error_handlers, stack_check_spec};
use crate::x86::{instrs_to_string, render};
use crate::text::{joined, numbered_string};
use crate::x86::{Arg32, Arg64, BinArgs, Instr, InstrV, JmpArg, MemRef, MovArgs, Offset, Reg, Reg32, emit, emit_all, instrs_view};

verus! {

/// Whether a primitive finds its first `n` operands, and each variable among
/// its operands a slot.
pub open spec fn reads(exps: Seq<ImmV>, n: nat, vars: Map<Name, i32>) -> bool {
    n <= exps.len() && all_resolved(exps, vars.dom())
}

/// The word for an integer literal.
fn tag_int(i: i64) -> (r: i64)
    ensures
        r == tagged(i),
{
    if i > I63_MAX {
        (i - 0x4000_0000_0000_0000) * 2 + (-0x7FFF_FFFF_FFFF_FFFF - 1)
    } else if i < I63_MIN {
        (i + 0x4000_0000_0000_0000) * 2 - (-0x7FFF_FFFF_FFFF_FFFF - 1)
    } else {
        i * 2
    }
}

/// The offset of the `k`-th slot.
fn slot_offset(k: i32) -> (r: i32)
    requires
        0 <= k <= 4 * MAX_FRAME,
    ensures
        r == slot(k as int),
{
    0 - 8 * k
}

fn imm_to_arg64(imm: &ImmExp, vars: &Table<i32>) -> (r: Arg64)
    requires
        imm_resolved(imm@, vars@.dom()),
    ensures
        r == imm_arg(imm@, vars@),
{
    match imm {
        ImmExp::Num(i) => Arg64::Signed(tag_int(*i)),
        ImmExp::Var(s) => {
            let offset: i32 = match vars.get(s) {
                Some(o) => o,
                None => unreached(),
            };
            Arg64::Mem(MemRef { reg: Reg::Rsp, offset: Offset::Constant(offset) })
        },
        ImmExp::Bool(b) => {
            if *b {
                Arg64::Unsigned(SNAKE_TRU)
            } else {
                Arg64::Unsigned(SNAKE_FLS)
            }
        },
    }
}

/// The `i`-th operand of a primitive as a source operand.
fn operand_at(exps: &Vec<ImmExp>, i: usize, vars: &Table<i32>) -> (r: Arg64)
    requires
        i < exps.len(),
        all_resolved(imms_view(exps@), vars@.dom()),
    ensures
        r == operand(imms_view(exps@), i as int, vars@),
{
    assert(imms_view(exps@)[i as int] == exps[i as int]@);
    imm_to_arg64(&exps[i], vars)
}

/// The instruction that moves an immediate to `Rax`.
fn imm_to_rax(imm: &ImmExp, vars: &Table<i32>) -> (res: Vec<Instr>)
    requires
        imm_resolved(imm@, vars@.dom()),
    ensures
        instrs_view(res@) == seq![crate::x86::mov_reg(Reg::Rax, imm_arg(imm@, vars@))],
{
    let mut res: Vec<Instr> = Vec::new();
    emit(&mut res, Instr::Mov(MovArgs::ToReg(Reg::Rax, imm_to_arg64(imm, vars))));
    assert(instrs_view(res@) =~= seq![crate::x86::mov_reg(Reg::Rax, imm_arg(imm@, vars@))]);
    res
}

fn mov_to_reg(dst: Reg, src: Arg64) -> (i: Instr)
    ensures
        i@ == crate::x86::mov_reg(dst, src),
{
    Instr::Mov(MovArgs::ToReg(dst, src))
}

fn mov_to_mem(base: Reg, offset: i32, src: Reg) -> (i: Instr)
    ensures
        i@ == crate::x86::mov_mem(base, offset, src),
{
    Instr::Mov(MovArgs::ToMem(MemRef { reg: base, offset: Offset::Constant(offset) }, Reg32::Reg(src)))
}

fn mem_at(base: Reg, offset: i32) -> (a: Arg64)
    ensures
        a == crate::x86::mem(base, offset),
{
    Arg64::Mem(MemRef { reg: base, offset: Offset::Constant(offset) })
}

fn int_check_instrs(reg: Reg, error: &str) -> (res: Vec<Instr>)
    ensures
        instrs_view(res@) == int_check(reg, error@),
{
    let mut res: Vec<Instr> = Vec::new();
    emit(&mut res, mov_to_reg(Reg::Rcx, Arg64::Reg(reg)));
    emit(&mut res, Instr::And(BinArgs::ToReg(Reg::Rcx, Arg32::Signed(1))));
    emit(&mut res, Instr::Cmp(BinArgs::ToReg(Reg::Rcx, Arg32::Signed(1))));
    emit(&mut res, Instr::Je(to_label(error)));
    assert(instrs_view(res@) =~= int_check(reg, error@));
    res
}

fn bool_check_instrs(reg: Reg, error: &str) -> (res: Vec<Instr>)
    ensures
        instrs_view(res@) == bool_check(reg, error@),
{
    let mut res: Vec<Instr> = Vec::new();
    emit(&mut res, mov_to_reg(Reg::Rcx, Arg64::Reg(reg)));
    emit(&mut res, Instr::And(BinArgs::ToReg(Reg::Rcx, Arg32::Unsigned(TYPE_MASK))));
    emit(&mut res, Instr::Cmp(BinArgs::ToReg(Reg::Rcx, Arg32::Unsigned(TYPE_MASK))));
    emit(&mut res, Instr::Jne(to_label(error)));
    assert(instrs_view(res@) =~= bool_check(reg, error@));
    res
}

fn arith_check(reg: Reg) -> (res: Vec<Instr>)
    ensures
        instrs_view(res@) == int_check(reg, ARITH_ERROR@),
{
    int_check_instrs(reg, ARITH_ERROR)
}

fn cmp_check(reg: Reg) -> (res: Vec<Instr>)
    ensures
        instrs_view(res@) == int_check(reg, CMP_ERROR@),
{
    int_check_instrs(reg, CMP_ERROR)
}

fn logic_check(reg: Reg) -> (res: Vec<Instr>)
    ensures
        instrs_view(res@) == bool_check(reg, LOGIC_ERROR@),
{
    bool_check_instrs(reg, LOGIC_ERROR)
}

fn if_check(reg: Reg) -> (res: Vec<Instr>)
    ensures
        instrs_view(res@) == bool_check(reg, IF_ERROR@),
{
    bool_check_instrs(reg, IF_ERROR)
}

fn sub_for_cmp(exps: &Vec<ImmExp>, vars: &Table<i32>, reverse: bool) -> (res: Vec<Instr>)
    requires
        reads(imms_view(exps@), 2, vars@),
    ensures
        instrs_view(res@) == comparison(imms_view(exps@), vars@, reverse),
{
    let mut res: Vec<Instr> = Vec::new();
    if reverse {
        // exps[1] - exps[0]
        emit(&mut res, mov_to_reg(Reg::Rdx, operand_at(exps, 0, vars)));
        emit(&mut res, mov_to_reg(Reg::Rax, operand_at(exps, 1, vars)));
    } else {
        // exps[0] - exps[1]
        emit(&mut res, mov_to_reg(Reg::Rax, operand_at(exps, 0, vars)));
        emit(&mut res, mov_to_reg(Reg::Rdx, operand_at(exps, 1, vars)));
    }
    emit_all(&mut res, cmp_check(Reg::Rax));
    emit_all(&mut res, cmp_check(Reg::Rdx));
    emit(&mut res, Instr::Sar(BinArgs::ToReg(Reg::Rax, Arg32::Signed(1))));
    emit(&mut res, Instr::Sar(BinArgs::ToReg(Reg::Rdx, Arg32::Signed(1))));
    emit(&mut res, Instr::Sub(BinArgs::ToReg(Reg::Rax, Arg32::Reg(Reg::Rdx))));
    assert(instrs_view(res@) =~= comparison(imms_view(exps@), vars@, reverse));
    res
}

/// The code that turns the sign of `Rax` into a boolean: `true` when
/// negative.
fn is_neg() -> (res: Vec<Instr>)
    ensures
        instrs_view(res@) == is_neg_spec(),
{
    let mut res: Vec<Instr> = Vec::new();
    emit(&mut res, mov_to_reg(Reg::Rdx, Arg64::Unsigned(SNAKE_FLS)));
    emit(&mut res, Instr::Or(BinArgs::ToReg(Reg::Rax, Arg32::Reg(Reg::Rdx))));
    assert(instrs_view(res@) =~= is_neg_spec());
    res
}

fn is_non_neg() -> (res: Vec<Instr>)
    ensures
        instrs_view(res@) == is_non_neg_spec(),
{
    let mut res: Vec<Instr> = Vec::new();
    emit(&mut res, mov_to_reg(Reg::Rdx, Arg64::Unsigned(SIGN_BIT)));
    emit(&mut res, Instr::Xor(BinArgs::ToReg(Reg::Rax, Arg32::Reg(Reg::Rdx))));
    emit(&mut res, mov_to_reg(Reg::Rdx, Arg64::Unsigned(SNAKE_FLS)));
    emit(&mut res, Instr::Or(BinArgs::ToReg(Reg::Rax, Arg32::Reg(Reg::Rdx))));
    assert(instrs_view(res@) =~= is_non_neg_spec());
    res
}

/// The code that checks an array and an index into it: it leaves the
/// address of the array in `Rax` and the index in `R8`.
fn array_access(address: Arg64, index: Arg64) -> (res: Vec<Instr>)
    ensures
        instrs_view(res@) == array_access_spec(address, index),
{
    let mut res: Vec<Instr> = Vec::new();
    emit(&mut res, mov_to_reg(Reg::Rax, address));
    emit(&mut res, mov_to_reg(Reg::Rdx, Arg64::Reg(Reg::Rax)));
    emit(&mut res, Instr::And(BinArgs::ToReg(Reg::Rdx, Arg32::Unsigned(TYPE_MASK))));
    emit(&mut res, Instr::Cmp(BinArgs::ToReg(Reg::Rdx, Arg32::Unsigned(1))));
    emit(&mut res, Instr::Jne(to_label(NON_ARRAY_ERROR)));
    emit(&mut res, Instr::Sub(BinArgs::ToReg(Reg::Rax, Arg32::Unsigned(1))));
    emit(&mut res, mov_to_reg(Reg::R8, index));
    emit(&mut res, mov_to_reg(Reg::R9, Arg64::Reg(Reg::R8)));
    emit(&mut res, Instr::And(BinArgs::ToReg(Reg::R9, Arg32::Unsigned(1))));
    emit(&mut res, Instr::Cmp(BinArgs::ToReg(Reg::R9, Arg32::Unsigned(1))));
    emit(&mut res, Instr::Je(to_label(INDEX_ERROR)));
    emit(&mut res, Instr::Sar(BinArgs::ToReg(Reg::R8, Arg32::Unsigned(1))));
    emit(&mut res, Instr::Cmp(BinArgs::ToReg(Reg::R8, Arg32::Signed(0))));
    emit(&mut res, Instr::Jl(to_label(INDEX_OUT_OF_BOUNDS)));
    emit(
        &mut res,
        Instr::Cmp(
            BinArgs::ToMem(MemRef { reg: Reg::Rax, offset: Offset::Constant(0) }, Reg32::Reg(Reg::R8)),
        ),
    );
    emit(&mut res, Instr::Jle(to_label(INDEX_OUT_OF_BOUNDS)));
    assert(instrs_view(res@) =~= array_access_spec(address, index));
    res
}

fn element_ref() -> (m: MemRef)
    ensures
        m == element(),
{
    MemRef { reg: Reg::Rax, offset: Offset::Computed { reg: Reg::R8, factor: 8, constant: 8 } }
}

fn tag_test_instrs(value: Arg64, mask: u32, tag: u32, n: u32) -> (res: Vec<Instr>)
    ensures
        instrs_view(res@) == tag_test(value, mask, tag, n as nat),
{
    let fls_label = numbered_string("false_", n as u64);
    let done_label = numbered_string("test_done_", n as u64);
    let mut res: Vec<Instr> = Vec::new();
    emit(&mut res, mov_to_reg(Reg::Rax, value));
    emit(&mut res, mov_to_reg(Reg::Rdx, Arg64::Reg(Reg::Rax)));
    emit(&mut res, Instr::And(BinArgs::ToReg(Reg::Rdx, Arg32::Unsigned(mask))));
    emit(&mut res, Instr::Cmp(BinArgs::ToReg(Reg::Rdx, Arg32::Unsigned(tag))));
    emit(&mut res, Instr::Jne(JmpArg::Label(fls_label.clone())));
    emit(&mut res, mov_to_reg(Reg::Rax, Arg64::Unsigned(SNAKE_TRU)));
    emit(&mut res, Instr::Jmp(JmpArg::Label(done_label.clone())));
    emit(&mut res, Instr::Label(fls_label));
    emit(&mut res, mov_to_reg(Reg::Rax, Arg64::Unsigned(SNAKE_FLS)));
    emit(&mut res, Instr::Label(done_label));
    assert(instrs_view(res@) =~= tag_test(value, mask, tag, n as nat));
    res
}

fn equality_test_instrs(a: Arg64, b: Arg64, negate: bool, n: u32) -> (res: Vec<Instr>)
    ensures
        instrs_view(res@) == equality_test(a, b, negate, n as nat),
{
    let fls_label = numbered_string("false_", n as u64);
    let done_label = numbered_string("test_done_", n as u64);
    let mut res: Vec<Instr> = Vec::new();
    emit(&mut res, mov_to_reg(Reg::Rax, a));
    emit(&mut res, mov_to_reg(Reg::Rdx, b));
    emit(&mut res, Instr::Cmp(BinArgs::ToReg(Reg::Rax, Arg32::Reg(Reg::Rdx))));
    if negate {
        emit(&mut res, Instr::Je(JmpArg::Label(fls_label.clone())));
    } else {
        emit(&mut res, Instr::Jne(JmpArg::Label(fls_label.clone())));
    }
    emit(&mut res, mov_to_reg(Reg::Rax, Arg64::Unsigned(SNAKE_TRU)));
    emit(&mut res, Instr::Jmp(JmpArg::Label(done_label.clone())));
    emit(&mut res, Instr::Label(fls_label));
    emit(&mut res, mov_to_reg(Reg::Rax, Arg64::Unsigned(SNAKE_FLS)));
    emit(&mut res, Instr::Label(done_label));
    assert(instrs_view(res@) =~= equality_test(a, b, negate, n as nat));
    res
}

fn arithmetic_instrs(exps: &Vec<ImmExp>, vars: &Table<i32>, op: Vec<Instr>) -> (res: Vec<Instr>)
    requires
        reads(imms_view(exps@), 2, vars@),
    ensures
        instrs_view(res@) == arithmetic(imms_view(exps@), vars@, instrs_view(op@)),
{
    let mut res: Vec<Instr> = Vec::new();
    emit(&mut res, mov_to_reg(Reg::Rax, operand_at(exps, 0, vars)));
    emit_all(&mut res, arith_check(Reg::Rax));
    emit(&mut res, mov_to_reg(Reg::Rdx, operand_at(exps, 1, vars)));
    emit_all(&mut res, arith_check(Reg::Rdx));
    emit_all(&mut res, op);
    emit(&mut res, Instr::Jo(to_label(OVERFLOW)));
    assert(instrs_view(res@) =~= arithmetic(imms_view(exps@), vars@, instrs_view(op@)));
    res
}

fn arithmetic1_instrs(exps: &Vec<ImmExp>, vars: &Table<i32>, op: Instr) -> (res: Vec<Instr>)
    requires
        reads(imms_view(exps@), 1, vars@),
    ensures
        instrs_view(res@) == arithmetic1(imms_view(exps@), vars@, op@),
{
    let mut res: Vec<Instr> = Vec::new();
    emit(&mut res, mov_to_reg(Reg::Rax, operand_at(exps, 0, vars)));
    emit_all(&mut res, arith_check(Reg::Rax));
    emit(&mut res, op);
    emit(&mut res, Instr::Jo(to_label(OVERFLOW)));
    assert(instrs_view(res@) =~= arithmetic1(imms_view(exps@), vars@, op@));
    res
}

fn logic_instrs(exps: &Vec<ImmExp>, vars: &Table<i32>, op: Instr) -> (res: Vec<Instr>)
    requires
        reads(imms_view(exps@), 2, vars@),
    ensures
        instrs_view(res@) == logic(imms_view(exps@), vars@, op@),
{
    let mut res: Vec<Instr> = Vec::new();
    emit(&mut res, mov_to_reg(Reg::Rax, operand_at(exps, 0, vars)));
    emit_all(&mut res, logic_check(Reg::Rax));
    emit(&mut res, mov_to_reg(Reg::Rdx, operand_at(exps, 1, vars)));
    emit_all(&mut res, logic_check(Reg::Rdx));
    emit(&mut res, op);
    assert(instrs_view(res@) =~= logic(imms_view(exps@), vars@, op@));
    res
}

fn one(i: Instr) -> (res: Vec<Instr>)
    ensures
        instrs_view(res@) == seq![i@],
{
    let mut res: Vec<Instr> = Vec::new();
    emit(&mut res, i);
    assert(instrs_view(res@) =~= seq![i@]);
    res
}

fn align_stack(stack: i32) -> (r: i32)
    requires
        0 <= stack < 0x0FFF_FFFF,
    ensures
        r == align_stack_spec(stack as int),
        r % 16 == 8,
        8 * stack <= r <= 8 * stack + 8,
{
    // calls into other functions want the stack pointer at an odd multiple
    // of 8 before the return address goes on top
    if stack % 2 == 0 {
        (stack + 1) * 8
    } else {
        stack * 8
    }
}

fn push_params(stack: i32, vars: &mut Table<i32>, params: &Vec<String>)
    requires
        0 <= stack,
        stack + params.len() <= MAX_FRAME,
    ensures
        final(vars)@ == with_params(old(vars)@, names_view(params@), params.len() as nat, stack as int),
{
    let mut i: usize = 0;
    while i < params.len()
        invariant
            i <= params.len(),
            0 <= stack,
            stack + params.len() <= MAX_FRAME,
            vars@ == with_params(old(vars)@, names_view(params@), i as nat, stack as int),
        decreases params.len() - i,
    {
        let k: i32 = stack + (i as i32) + 1;
        vars.insert(params[i].clone(), slot_offset(k));
        i += 1;
    }
}


fn u32_of(n: usize) -> (r: u32)
    requires
        n <= u32::MAX,
    ensures
        r == n,
{
    n as u32
}

fn compile_make_array(exps: &Vec<ImmExp>, vars: &Table<i32>) -> (res: Vec<Instr>)
    requires
        reads(imms_view(exps@), 0, vars@),
        exps.len() <= MAX_FRAME,
    ensures
        instrs_view(res@) == select_prim(Prim::MakeArray, imms_view(exps@), 0, 0, vars@),
{
    let len: u32 = u32_of(exps.len());
    let ghost args = imms_view(exps@);
    let ghost head = seq![
        InstrV::Mov(
            MovArgs::ToMem(MemRef { reg: Reg::R15, offset: Offset::Constant(0) }, Reg32::Unsigned(len)),
        ),
    ];
    let mut res: Vec<Instr> = Vec::new();
    emit(
        &mut res,
        Instr::Mov(
            MovArgs::ToMem(MemRef { reg: Reg::R15, offset: Offset::Constant(0) }, Reg32::Unsigned(len)),
        ),
    );
    assert(instrs_view(res@) =~= head + concat_map(0, array_store(args, vars@)));
    let mut i: usize = 0;
    while i < exps.len()
        invariant
            i <= exps.len(),
            exps.len() <= MAX_FRAME,
            args == imms_view(exps@),
            all_resolved(args, vars@.dom()),
            instrs_view(res@) == head + concat_map(i as nat, array_store(args, vars@)),
        decreases exps.len() - i,
    {
        let ghost before = instrs_view(res@);
        let offset: i32 = 8 * ((i as i32) + 1);
        emit(&mut res, mov_to_reg(Reg::Rax, operand_at(exps, i, vars)));
        emit(&mut res, mov_to_mem(Reg::R15, offset, Reg::Rax));
        proof {
            lemma_concat_map_step(i as nat, array_store(args, vars@));
            assert(instrs_view(res@) =~= before + array_store(args, vars@)(i as int));
        }
        i += 1;
    }
    emit(&mut res, mov_to_reg(Reg::Rax, Arg64::Reg(Reg::R15)));
    emit(&mut res, Instr::Add(BinArgs::ToReg(Reg::Rax, Arg32::Unsigned(1))));
    emit(&mut res, Instr::Add(BinArgs::ToReg(Reg::R15, Arg32::Unsigned((len + 1) * 8))));
    assert(instrs_view(res@) =~= select_prim(Prim::MakeArray, args, 0, 0, vars@));
    res
}

fn compile_print(exps: &Vec<ImmExp>, stack: i32, vars: &Table<i32>) -> (res: Vec<Instr>)
    requires
        reads(imms_view(exps@), 1, vars@),
        0 <= stack <= MAX_FRAME,
    ensures
        instrs_view(res@) == select_prim(Prim::Print, imms_view(exps@), 0, stack as int, vars@),
{
    let amount: i32 = align_stack(stack) + 8;
    let mut res: Vec<Instr> = Vec::new();
    emit(&mut res, mov_to_reg(Reg::Rdi, operand_at(exps, 0, vars)));
    emit(&mut res, Instr::Sub(BinArgs::ToReg(Reg::Rsp, Arg32::Signed(amount))));
    emit(&mut res, Instr::Call(to_label("print_snake_val")));
    emit(&mut res, Instr::Add(BinArgs::ToReg(Reg::Rsp, Arg32::Signed(amount))));
    assert(instrs_view(res@) =~= select_prim(Prim::Print, imms_view(exps@), 0, stack as int, vars@));
    res
}

fn compile_check_arity(exps: &Vec<ImmExp>, k: usize, vars: &Table<i32>) -> (res: Vec<Instr>)
    requires
        reads(imms_view(exps@), 1, vars@),
        k <= u32::MAX,
    ensures
        instrs_view(res@) == select_prim(
            Prim::CheckArityAndUntag(k),
            imms_view(exps@),
            0,
            0,
            vars@,
        ),
{
    let mut res: Vec<Instr> = Vec::new();
    emit(&mut res, mov_to_reg(Reg::Rax, operand_at(exps, 0, vars)));
    emit(&mut res, mov_to_reg(Reg::Rdx, Arg64::Reg(Reg::Rax)));
    emit(&mut res, Instr::And(BinArgs::ToReg(Reg::Rdx, Arg32::Unsigned(TYPE_MASK))));
    emit(&mut res, Instr::Cmp(BinArgs::ToReg(Reg::Rdx, Arg32::Unsigned(0b011))));
    emit(&mut res, Instr::Jne(to_label(NON_CLOSURE_ERROR)));
    // the arity is read through the tagged pointer, so that the closure is
    // what an error reports: 8 less the tag
    emit(&mut res, mov_to_reg(Reg::R8, mem_at(Reg::Rax, 5)));
    emit(&mut res, Instr::Cmp(BinArgs::ToReg(Reg::R8, Arg32::Unsigned(u32_of(k)))));
    emit(&mut res, Instr::Jne(to_label(LAMBDA_ARITY_ERROR)));
    emit(&mut res, Instr::Sub(BinArgs::ToReg(Reg::Rax, Arg32::Unsigned(0b011))));
    assert(instrs_view(res@) =~= select_prim(
        Prim::CheckArityAndUntag(k),
        imms_view(exps@),
        0,
        0,
        vars@,
    ));
    res
}

fn compile_length(exps: &Vec<ImmExp>, vars: &Table<i32>) -> (res: Vec<Instr>)
    requires
        reads(imms_view(exps@), 1, vars@),
    ensures
        instrs_view(res@) == select_prim(Prim::Length, imms_view(exps@), 0, 0, vars@),
{
    let mut res: Vec<Instr> = Vec::new();
    emit(&mut res, mov_to_reg(Reg::Rax, operand_at(exps, 0, vars)));
    emit(&mut res, mov_to_reg(Reg::Rdx, Arg64::Reg(Reg::Rax)));
    emit(&mut res, Instr::And(BinArgs::ToReg(Reg::Rdx, Arg32::Unsigned(TYPE_MASK))));
    emit(&mut res, Instr::Cmp(BinArgs::ToReg(Reg::Rdx, Arg32::Unsigned(1))));
    emit(&mut res, Instr::Jne(to_label(NON_ARRAY_ERROR)));
    emit(&mut res, Instr::Sub(BinArgs::ToReg(Reg::Rax, Arg32::Unsigned(1))));
    emit(&mut res, mov_to_reg(Reg::Rax, mem_at(Reg::Rax, 0)));
    emit(&mut res, Instr::Shl(BinArgs::ToReg(Reg::Rax, Arg32::Signed(1))));
    assert(instrs_view(res@) =~= select_prim(Prim::Length, imms_view(exps@), 0, 0, vars@));
    res
}

fn compile_array_prim(exps: &Vec<ImmExp>, set: bool, vars: &Table<i32>) -> (res: Vec<Instr>)
    requires
        reads(
            imms_view(exps@),
            if set {
                3
            } else {
                2
            },
            vars@,
        ),
    ensures
        instrs_view(res@) == select_prim(
            if set {
                Prim::ArraySet
            } else {
                Prim::ArrayGet
            },
            imms_view(exps@),
            0,
            0,
            vars@,
        ),
{
    let mut res = array_access(operand_at(exps, 0, vars), operand_at(exps, 1, vars));
    if set {
        emit(&mut res, mov_to_reg(Reg::R9, operand_at(exps, 2, vars)));
        emit(&mut res, Instr::Mov(MovArgs::ToMem(element_ref(), Reg32::Reg(Reg::R9))));
        emit(&mut res, Instr::Add(BinArgs::ToReg(Reg::Rax, Arg32::Unsigned(1))));
        assert(instrs_view(res@) =~= select_prim(Prim::ArraySet, imms_view(exps@), 0, 0, vars@));
    } else {
        emit(&mut res, mov_to_reg(Reg::Rax, Arg64::Mem(element_ref())));
        assert(instrs_view(res@) =~= select_prim(Prim::ArrayGet, imms_view(exps@), 0, 0, vars@));
    }
    res
}

fn compile_closure_part(exps: &Vec<ImmExp>, offset: i32, vars: &Table<i32>) -> (res: Vec<Instr>)
    requires
        reads(imms_view(exps@), 1, vars@),
    ensures
        instrs_view(res@) == seq![
            crate::x86::mov_reg(Reg::Rax, operand(imms_view(exps@), 0, vars@)),
            crate::x86::mov_reg(Reg::Rax, crate::x86::mem(Reg::Rax, offset)),
        ],
{
    let mut res: Vec<Instr> = Vec::new();
    emit(&mut res, mov_to_reg(Reg::Rax, operand_at(exps, 0, vars)));
    emit(&mut res, mov_to_reg(Reg::Rax, mem_at(Reg::Rax, offset)));
    assert(instrs_view(res@) =~= seq![
        crate::x86::mov_reg(Reg::Rax, operand(imms_view(exps@), 0, vars@)),
        crate::x86::mov_reg(Reg::Rax, crate::x86::mem(Reg::Rax, offset)),
    ]);
    res
}

fn compile_not(exps: &Vec<ImmExp>, vars: &Table<i32>) -> (res: Vec<Instr>)
    requires
        reads(imms_view(exps@), 1, vars@),
    ensures
        instrs_view(res@) == select_prim(Prim::Not, imms_view(exps@), 0, 0, vars@),
{
    let mut res: Vec<Instr> = Vec::new();
    emit(&mut res, mov_to_reg(Reg::Rax, operand_at(exps, 0, vars)));
    emit_all(&mut res, logic_check(Reg::Rax));
    emit(&mut res, mov_to_reg(Reg::Rdx, Arg64::Unsigned(SIGN_BIT)));
    emit(&mut res, Instr::Xor(BinArgs::ToReg(Reg::Rax, Arg32::Reg(Reg::Rdx))));
    assert(instrs_view(res@) =~= select_prim(Prim::Not, imms_view(exps@), 0, 0, vars@));
    res
}

fn compile_mul(exps: &Vec<ImmExp>, vars: &Table<i32>) -> (res: Vec<Instr>)
    requires
        reads(imms_view(exps@), 2, vars@),
    ensures
        instrs_view(res@) == select_prim(Prim::Mul, imms_view(exps@), 0, 0, vars@),
{
    let mut op: Vec<Instr> = Vec::new();
    emit(&mut op, Instr::Sar(BinArgs::ToReg(Reg::Rdx, Arg32::Signed(1))));
    emit(&mut op, Instr::IMul(BinArgs::ToReg(Reg::Rax, Arg32::Reg(Reg::Rdx))));
    assert(instrs_view(op@) =~= seq![
        InstrV::Sar(BinArgs::ToReg(Reg::Rdx, Arg32::Signed(1))),
        InstrV::IMul(BinArgs::ToReg(Reg::Rax, Arg32::Reg(Reg::Rdx))),
    ]);
    arithmetic_instrs(exps, vars, op)
}

/// The code for a primitive applied to immediates.
#[verifier::rlimit(50)]
fn compile_prim(p: &Prim, exps: &Vec<ImmExp>, counter: &mut u32, stack: i32, vars: &Table<i32>) -> (res:
    Vec<Instr>)
    requires
        reads(imms_view(exps@), operands_read(*p), vars@),
        *old(counter) + prim_labels(*p) <= u32::MAX,
        0 <= stack <= MAX_FRAME,
        exps.len() <= MAX_FRAME,
        *p matches Prim::CheckArityAndUntag(k) ==> k <= u32::MAX,
    ensures
        instrs_view(res@) == select_prim_at(*p, imms_view(exps@), *old(counter), stack, vars@),
        *final(counter) == *old(counter) + prim_labels(*p),
{
    match p {
        Prim::Add => arithmetic_instrs(
            exps,
            vars,
            one(Instr::Add(BinArgs::ToReg(Reg::Rax, Arg32::Reg(Reg::Rdx)))),
        ),
        Prim::Sub => arithmetic_instrs(
            exps,
            vars,
            one(Instr::Sub(BinArgs::ToReg(Reg::Rax, Arg32::Reg(Reg::Rdx)))),
        ),
        Prim::Mul => compile_mul(exps, vars),
        Prim::Add1 => arithmetic1_instrs(
            exps,
            vars,
            Instr::Add(BinArgs::ToReg(Reg::Rax, Arg32::Unsigned(2))),
        ),
        Prim::Sub1 => arithmetic1_instrs(
            exps,
            vars,
            Instr::Sub(BinArgs::ToReg(Reg::Rax, Arg32::Unsigned(2))),
        ),
        Prim::Not => compile_not(exps, vars),
        Prim::Print => compile_print(exps, stack, vars),
        Prim::IsBool => {
            *counter += 1;
            tag_test_instrs(operand_at(exps, 0, vars), 0b1111, 0b1111, *counter)
        },
        Prim::IsNum => {
            *counter += 1;
            tag_test_instrs(operand_at(exps, 0, vars), 0b1, 0b0, *counter)
        },
        Prim::IsFun => {
            *counter += 1;
            tag_test_instrs(operand_at(exps, 0, vars), TYPE_MASK, 0b011, *counter)
        },
        Prim::IsArray => {
            *counter += 1;
            tag_test_instrs(operand_at(exps, 0, vars), TYPE_MASK, 0b001, *counter)
        },
        Prim::And => logic_instrs(
            exps,
            vars,
            Instr::And(BinArgs::ToReg(Reg::Rax, Arg32::Reg(Reg::Rdx))),
        ),
        Prim::Or => logic_instrs(exps, vars, Instr::Or(BinArgs::ToReg(Reg::Rax, Arg32::Reg(Reg::Rdx)))),
        Prim::Lt => {
            let mut res = sub_for_cmp(exps, vars, false);
            emit_all(&mut res, is_neg());
            res
        },
        Prim::Gt => {
            let mut res = sub_for_cmp(exps, vars, true);
            emit_all(&mut res, is_neg());
            res
        },
        Prim::Le => {
            let mut res = sub_for_cmp(exps, vars, true);
            emit_all(&mut res, is_non_neg());
            res
        },
        Prim::Ge => {
            let mut res = sub_for_cmp(exps, vars, false);
            emit_all(&mut res, is_non_neg());
            res
        },
        Prim::Eq => {
            *counter += 1;
            equality_test_instrs(
                operand_at(exps, 0, vars),
                operand_at(exps, 1, vars),
                false,
                *counter,
            )
        },
        Prim::Neq => {
            *counter += 1;
            equality_test_instrs(
                operand_at(exps, 0, vars),
                operand_at(exps, 1, vars),
                true,
                *counter,
            )
        },
        Prim::Length => compile_length(exps, vars),
        Prim::MakeArray => compile_make_array(exps, vars),
        Prim::ArrayGet => compile_array_prim(exps, false, vars),
        Prim::ArraySet => compile_array_prim(exps, true, vars),
        Prim::GetCode => compile_closure_part(exps, 0, vars),
        Prim::GetEnv => compile_closure_part(exps, 16, vars),
        Prim::CheckArityAndUntag(arg_size) => compile_check_arity(exps, *arg_size, vars),
    }
}


fn compile_make_closure(arity: usize, name: &String, env: &ImmExp, vars: &Table<i32>) -> (res: Vec<
    Instr,
>)
    requires
        imm_resolved(env@, vars@.dom()),
    ensures
        instrs_view(res@) == make_closure_spec(arity, name@, env@, vars@),
{
    let mut res: Vec<Instr> = Vec::new();
    emit(&mut res, Instr::RelativeLoadAddress(Reg::Rax, joined("func_", name.as_str())));
    emit(&mut res, mov_to_mem(Reg::R15, 0, Reg::Rax));
    emit(&mut res, mov_to_reg(Reg::R8, Arg64::Unsigned(arity as u64)));
    emit(&mut res, mov_to_mem(Reg::R15, 8, Reg::R8));
    emit(&mut res, mov_to_reg(Reg::R8, imm_to_arg64(env, vars)));
    emit(&mut res, mov_to_mem(Reg::R15, 16, Reg::R8));
    emit(&mut res, mov_to_reg(Reg::Rax, Arg64::Reg(Reg::R15)));
    emit(&mut res, Instr::Add(BinArgs::ToReg(Reg::Rax, Arg32::Unsigned(0b011))));
    emit(&mut res, Instr::Add(BinArgs::ToReg(Reg::R15, Arg32::Unsigned(24))));
    assert(instrs_view(res@) =~= make_closure_spec(arity, name@, env@, vars@));
    res
}

fn is_var(imm: &ImmExp) -> (r: bool)
    ensures
        r == (imm@ is Var),
{
    match imm {
        ImmExp::Var(_) => true,
        _ => false,
    }
}

#[verifier::rlimit(50)]
fn compile_tail_call(
    target: &VarOrLabel,
    args: &Vec<ImmExp>,
    stack: i32,
    decl_stack: i32,  // stack size when the called function is declared
    vars: &Table<i32>,
) -> (res: Vec<Instr>)
    requires
        target@ matches VarOrLabelV::Var(x) ==> vars@.contains_key(x),
        all_resolved(imms_view(args@), vars@.dom()),
        0 <= decl_stack <= stack,
        stack + 2 * args.len() + 3 <= MAX_FRAME,
    ensures
        instrs_view(res@) == tail_call(
            target@,
            imms_view(args@),
            stack as int,
            decl_stack as int,
            vars@,
        ),
{
    let n: i32 = args.len() as i32;
    let top: i32 = if stack > decl_stack + n {
        stack
    } else {
        decl_stack + n
    };
    let ghost a = imms_view(args@);
    let ghost save = save_arg(a, top as int, vars@);
    let ghost place = place_arg(a, top as int, decl_stack as int, vars@);
    let mut res: Vec<Instr> = Vec::new();
    // a code pointer in a variable is saved first: its slot may be overwritten
    match target {
        VarOrLabel::Var(x) => {
            emit(&mut res, mov_to_reg(Reg::Rax, imm_to_arg64(&ImmExp::Var(x.clone()), vars)));
            emit(&mut res, mov_to_mem(Reg::Rsp, slot_offset(top + n + 1), Reg::Rax));
        },
        VarOrLabel::Label(_) => {},
    }
    let ghost head = instrs_view(res@);
    assert(head =~= (match target@ {
        VarOrLabelV::Var(x) => seq![
            crate::x86::mov_reg(Reg::Rax, crate::x86::mem(Reg::Rsp, offset_of(vars@, x))),
            crate::x86::mov_mem(Reg::Rsp, slot(top + n + 1), Reg::Rax),
        ],
        VarOrLabelV::Label(_) => Seq::empty(),
    }));
    // overwrite current stack with function arguments
    // need to save variables to lower stack addresses to avoid overwriting them
    let mut i: usize = 0;
    assert(instrs_view(res@) =~= head + concat_map(0, save));
    while i < args.len()
        invariant
            i <= args.len(),
            n == args.len(),
            0 <= decl_stack <= stack,
            top == scratch_base(n as int, stack as int, decl_stack as int),
            stack + 2 * args.len() + 3 <= MAX_FRAME,
            a == imms_view(args@),
            all_resolved(a, vars@.dom()),
            save == save_arg(a, top as int, vars@),
            instrs_view(res@) == head + concat_map(i as nat, save),
        decreases args.len() - i,
    {
        let ghost before = instrs_view(res@);
        assert(a[i as int] == args[i as int]@);
        if is_var(&args[i]) {
            emit(&mut res, mov_to_reg(Reg::Rax, imm_to_arg64(&args[i], vars)));
            emit(&mut res, mov_to_mem(Reg::Rsp, slot_offset(top + 1 + (i as i32)), Reg::Rax));
        }
        proof {
            lemma_concat_map_step(i as nat, save);
            assert(instrs_view(res@) =~= before + save(i as int));
        }
        i += 1;
    }
    let ghost saved = instrs_view(res@);
    assert(instrs_view(res@) =~= saved + concat_map(0, place));
    i = 0;
    while i < args.len()
        invariant
            i <= args.len(),
            n == args.len(),
            0 <= decl_stack <= stack,
            top == scratch_base(n as int, stack as int, decl_stack as int),
            stack + 2 * args.len() + 3 <= MAX_FRAME,
            a == imms_view(args@),
            all_resolved(a, vars@.dom()),
            place == place_arg(a, top as int, decl_stack as int, vars@),
            instrs_view(res@) == saved + concat_map(i as nat, place),
        decreases args.len() - i,
    {
        let ghost before = instrs_view(res@);
        let source: Arg64 = if is_var(&args[i]) {
            mem_at(Reg::Rsp, slot_offset(top + 1 + (i as i32)))
        } else {
            imm_to_arg64(&args[i], vars)
        };
        emit(&mut res, mov_to_reg(Reg::Rax, source));
        emit(&mut res, mov_to_mem(Reg::Rsp, slot_offset(decl_stack + 1 + (i as i32)), Reg::Rax));
        proof {
            lemma_concat_map_step(i as nat, place);
            assert(instrs_view(res@) =~= before + place(i as int));
        }
        i += 1;
    }
    let ghost placed = instrs_view(res@);
    match target {
        VarOrLabel::Var(_) => {
            emit(&mut res, mov_to_reg(Reg::Rax, mem_at(Reg::Rsp, slot_offset(top + n + 1))));
            emit(&mut res, Instr::Jmp(JmpArg::Reg(Reg::Rax)));
        },
        VarOrLabel::Label(f) => {
            emit(&mut res, Instr::Jmp(JmpArg::Label(joined("func_", f.as_str()))));
        },
    }
    assert(instrs_view(res@) =~= tail_call(
        target@,
        imms_view(args@),
        stack as int,
        decl_stack as int,
        vars@,
    ));
    res
}

/// A call that sets up a new frame below the caller's.
fn compile_frame_call(target: &VarOrLabel, args: &Vec<ImmExp>, stack: i32, vars: &Table<i32>) -> (res:
    Vec<Instr>)
    requires
        target@ matches VarOrLabelV::Var(x) ==> vars@.contains_key(x),
        all_resolved(imms_view(args@), vars@.dom()),
        0 <= stack,
        stack + 2 * args.len() + 3 <= MAX_FRAME,
    ensures
        instrs_view(res@) == frame_call(target@, imms_view(args@), stack as int, vars@),
{
    let stack_top: i32 = align_stack(stack);
    let ghost a = imms_view(args@);
    let ghost marshal = marshal_arg(a, stack_top as int, vars@);
    let mut res: Vec<Instr> = Vec::new();
    // record called function's parameters to [stack]
    let mut i: usize = 0;
    assert(instrs_view(res@) =~= concat_map(0, marshal));
    while i < args.len()
        invariant
            i <= args.len(),
            0 <= stack,
            stack + 2 * args.len() + 3 <= MAX_FRAME,
            8 * stack <= stack_top <= 8 * stack + 8,
            a == imms_view(args@),
            all_resolved(a, vars@.dom()),
            marshal == marshal_arg(a, stack_top as int, vars@),
            instrs_view(res@) == concat_map(i as nat, marshal),
        decreases args.len() - i,
    {
        let ghost before = instrs_view(res@);
        // extra 8 is return address alloc
        let offset: i32 = 0 - (stack_top + 16 + 8 * (i as i32));
        assert(a[i as int] == args[i as int]@);
        emit(&mut res, mov_to_reg(Reg::Rax, imm_to_arg64(&args[i], vars)));
        emit(&mut res, mov_to_mem(Reg::Rsp, offset, Reg::Rax));
        proof {
            lemma_concat_map_step(i as nat, marshal);
            assert(instrs_view(res@) =~= before + marshal(i as int));
        }
        i += 1;
    }
    match target {
        VarOrLabel::Var(x) => {
            emit(&mut res, mov_to_reg(Reg::Rax, imm_to_arg64(&ImmExp::Var(x.clone()), vars)));
            emit(&mut res, Instr::Sub(BinArgs::ToReg(Reg::Rsp, Arg32::Signed(stack_top))));
            emit(&mut res, Instr::Call(JmpArg::Reg(Reg::Rax)));
        },
        VarOrLabel::Label(f) => {
            emit(&mut res, Instr::Sub(BinArgs::ToReg(Reg::Rsp, Arg32::Signed(stack_top))));
            emit(&mut res, Instr::Call(JmpArg::Label(joined("func_", f.as_str()))));
        },
    }
    emit(&mut res, Instr::Add(BinArgs::ToReg(Reg::Rsp, Arg32::Signed(stack_top))));
    assert(instrs_view(res@) =~= frame_call(target@, imms_view(args@), stack as int, vars@));
    res
}


/// The local functions of a group, each declared with `stack` slots in use.
fn declare_funs(functions: &Table<i32>, decls: &Vec<FunDecl<SeqExp<()>, ()>>, stack: i32) -> (inner:
    Table<i32>)
    requires
        0 <= stack,
        funs_within(functions@, stack as int),
    ensures
        inner@ == with_funs(functions@, seq_decls_view(decls@), decls.len() as nat, stack as int),
        funs_within(inner@, stack as int),
{
    let mut inner = functions.copy();
    let mut i: usize = 0;
    while i < decls.len()
        invariant
            i <= decls.len(),
            0 <= stack,
            inner@ == with_funs(functions@, seq_decls_view(decls@), i as nat, stack as int),
            funs_within(inner@, stack as int),
        decreases decls.len() - i,
    {
        inner.insert(decls[i].name.clone(), stack);
        i += 1;
    }
    inner
}

/// The code for an expression. `vars` gives each variable in scope its
/// offset from the stack pointer, a negative number; `functions` gives each
/// local function in scope the number of slots that were in use where it
/// was declared. Every variable that the expression reads has to be in
/// `vars` or bound by the expression itself, and every local function that
/// it jumps to in `functions` or declared by it.
#[verifier::loop_isolation(false)]
#[verifier::rlimit(50)]
fn compile_to_instrs_inner(
    e: &SeqExp<()>,
    counter: &mut u32,
    stack: i32,
    vars: &Table<i32>,
    functions: &Table<i32>,
) -> (res: Vec<Instr>)
    requires
        resolved(e@, vars@.dom(), functions@.dom()),
        *old(counter) + labels_needed(e@) <= u32::MAX,
        0 <= stack,
        stack + frame_need(e@) <= MAX_FRAME,
        arities_fit(e@),
        funs_within(functions@, stack as int),
    ensures
        instrs_view(res@) == select(e@, *old(counter) as nat, stack as int, vars@, functions@),
        *final(counter) == *old(counter) + labels_needed(e@),
    decreases e,
{
    let ghost c0 = *counter as nat;
    match e {
        SeqExp::Imm(exp, _) => imm_to_rax(exp, vars),
        SeqExp::Prim(p, exps, _) => compile_prim(p, exps, counter, stack, vars),
        SeqExp::Let { var, bound_exp, body, ann: _ } => {
            let mut res = compile_to_instrs_inner(bound_exp, counter, stack, vars, functions);
            let offset: i32 = slot_offset(stack + 1);
            emit(&mut res, mov_to_mem(Reg::Rsp, offset, Reg::Rax));
            let mut scoped = vars.copy();
            scoped.insert(var.clone(), offset);
            let body_is = compile_to_instrs_inner(body, counter, stack + 1, &scoped, functions);
            emit_all(&mut res, body_is);
            res
        },
        SeqExp::If { cond, thn, els, ann: _ } => {
            let mut res = imm_to_rax(cond, vars);
            emit_all(&mut res, if_check(Reg::Rax));
            *counter += 1;
            let els_label = numbered_string("else_", *counter as u64);
            let done_label = numbered_string("done_", *counter as u64);
            emit(&mut res, mov_to_reg(Reg::Rdx, Arg64::Unsigned(SNAKE_FLS)));
            emit(&mut res, Instr::Cmp(BinArgs::ToReg(Reg::Rax, Arg32::Reg(Reg::Rdx))));
            emit(&mut res, Instr::Je(JmpArg::Label(els_label.clone())));
            let thn_is = compile_to_instrs_inner(thn, counter, stack, vars, functions);
            emit_all(&mut res, thn_is);
            emit(&mut res, Instr::Jmp(JmpArg::Label(done_label.clone())));
            emit(&mut res, Instr::Label(els_label));
            let els_is = compile_to_instrs_inner(els, counter, stack, vars, functions);
            emit_all(&mut res, els_is);
            emit(&mut res, Instr::Label(done_label));
            assert(instrs_view(res@) =~= select(e@, c0, stack as int, vars@, functions@));
            res
        },
        SeqExp::FunDefs { decls, body, ann: _ } => {
            // locally defined functions
            let ghost dv = seq_decls_view(decls@);
            *counter += 1;
            let body_label = numbered_string("body_", *counter as u64);
            let mut res: Vec<Instr> = Vec::new();
            emit(&mut res, Instr::Jmp(JmpArg::Label(body_label.clone())));
            let ghost head = instrs_view(res@);
            // handle mutually recursive functions
            let inner = declare_funs(functions, decls, stack);
            proof {
                lemma_with_funs_dom(functions@, dv, dv.len(), stack as int);
                assert(group_names(dv).take(dv.len() as int) =~= group_names(dv));
            }
            let mut i: usize = 0;
            assert(instrs_view(res@) =~= head + select_decls(
                dv,
                0,
                c0 + 1,
                stack as int,
                vars@,
                inner@,
            ));
            while i < decls.len()
                invariant
                    i <= decls.len(),
                    *counter == c0 + 1 + decls_labels(dv, i as nat),
                    instrs_view(res@) == head + select_decls(
                        dv,
                        i as nat,
                        c0 + 1,
                        stack as int,
                        vars@,
                        inner@,
                    ),
                decreases decls.len() - i,
            {
                let decl = &decls[i];
                proof {
                    lemma_decls_labels_mono(dv, (i + 1) as nat, dv.len());
                    lemma_decls_frame_need(dv, i as nat, dv.len());
                    lemma_decls_arities_fit(dv, i as nat, dv.len());
                    assert(dv[i as int].body == decl.body@);
                    assert(dv[i as int].parameters == names_view(decl.parameters@));
                }
                let ghost before = instrs_view(res@);
                let mut scoped = vars.copy();
                push_params(stack, &mut scoped, &decl.parameters);
                proof {
                    let ps = dv[i as int].parameters;
                    lemma_with_params_dom(vars@, ps, ps.len(), stack as int);
                    assert(ps.take(ps.len() as int) =~= ps);
                }
                emit(&mut res, Instr::Label(joined("func_", decl.name.as_str())));
                emit_all(&mut res, stack_check());
                let body_is = compile_to_instrs_inner(
                    &decl.body,
                    counter,
                    stack + (decl.parameters.len() as i32),
                    &scoped,
                    &inner,
                );
                emit_all(&mut res, body_is);
                emit(&mut res, Instr::Ret);
                assert(instrs_view(res@) =~= head + select_decls(
                    dv,
                    (i + 1) as nat,
                    c0 + 1,
                    stack as int,
                    vars@,
                    inner@,
                ));
                i += 1;
            }
            emit(&mut res, Instr::Label(body_label));
            let body_is = compile_to_instrs_inner(body, counter, stack, vars, &inner);
            emit_all(&mut res, body_is);
            assert(instrs_view(res@) =~= select(e@, c0, stack as int, vars@, functions@));
            res
        },
        SeqExp::InternalTailCall(func, args, _) => {
            let decl_stack: i32 = match functions.get(func) {
                Some(d) => d,
                None => unreached(),
            };
            compile_tail_call(&VarOrLabel::Label(func.clone()), args, stack, decl_stack, vars)
        },
        SeqExp::ExternalCall { args, is_tail, ann: _, fun } => {
            if *is_tail {
                compile_tail_call(fun, args, stack, 0, vars)
            } else {
                compile_frame_call(fun, args, stack, vars)
            }
        },
        SeqExp::MakeClosure { arity, label, env, ann: _ } => compile_make_closure(
            *arity,
            label,
            env,
            vars,
        ),
    }
}

/// The code for the main expression of a program, and the return.
pub fn compile_to_instrs(e: &SeqExp<()>, counter: &mut u32) -> (res: Vec<Instr>)
    requires
        resolved(e@, Set::empty(), Set::empty()),
        *old(counter) + labels_needed(e@) <= u32::MAX,
        frame_need(e@) <= MAX_FRAME,
        arities_fit(e@),
    ensures
        instrs_view(res@) == select_main(e@, *old(counter) as nat),
        *final(counter) == *old(counter) + labels_needed(e@),
{
    let vars: Table<i32> = Table::new();
    let functions: Table<i32> = Table::new();
    let mut is = compile_to_instrs_inner(e, counter, 0, &vars, &functions);
    emit(&mut is, Instr::Ret);
    is
}

/// The code for a global function: label, entry check, body and return.
pub fn compile_func_to_instr(f: &FunDecl<SeqExp<()>, ()>, counter: &mut u32) -> (res: Vec<Instr>)
    requires
        function_resolved(crate::syntax::seq_decl_view(*f)),
        *old(counter) + labels_needed(f.body@) <= u32::MAX,
        f.parameters.len() + frame_need(f.body@) <= MAX_FRAME,
        arities_fit(f.body@),
    ensures
        instrs_view(res@) == select_function(crate::syntax::seq_decl_view(*f), *old(counter) as nat),
        *final(counter) == *old(counter) + labels_needed(f.body@),
{
    let mut is: Vec<Instr> = Vec::new();
    emit(&mut is, Instr::Label(joined("func_", f.name.as_str())));
    emit_all(&mut is, stack_check());
    let mut vars: Table<i32> = Table::new();
    push_params(0, &mut vars, &f.parameters);
    proof {
        let ps = crate::syntax::names_view(f.parameters@);
        lemma_with_params_dom(Map::empty(), ps, ps.len(), 0);
        assert(ps.take(ps.len() as int) =~= ps);
        assert(Map::<Name, i32>::empty().dom().union(ps.to_set()) =~= ps.to_set());
        assert(Map::<Name, i32>::empty().dom() =~= Set::<Name>::empty());
    }
    let functions: Table<i32> = Table::new();
    let body_is = compile_to_instrs_inner(
        &f.body,
        counter,
        f.parameters.len() as i32,
        &vars,
        &functions,
    );
    emit_all(&mut is, body_is);
    emit(&mut is, Instr::Ret);
    assert(instrs_view(is@) =~= select_function(
        crate::syntax::seq_decl_view(*f),
        *old(counter) as nat,
    ));
    is
}


/// Checks a whole program: no name is in scope around it.
pub fn check_prog<Span>(p: &SurfProg<Span>) -> (res: Result<(), CompileErr<Span>>) where Span: Clone
    requires
        in_stage(p@, Stage::Surface),
    ensures
        reports(res, check(*p, Set::empty())),
{
    let symbols: Vec<String> = Vec::new();
    assert(names_view(symbols@).to_set() =~= Set::<Name>::empty());
    crate::checker::check_prog(p, &symbols)
}

/// What comes before all code: the heap, and the names that the program
/// shares with the runtime.
pub open spec fn prologue() -> Seq<char> {
    "section .data\n        HEAP:    times 1024 dq 0\nsection .text\n        global start_here\n        extern snake_error\n        extern print_snake_val\n"@
}

/// The entry point that the runtime calls: it keeps `r15` for the caller,
/// pads the stack, points `r15` at the heap rounded up to a multiple of 8 and
/// calls the main expression.
pub open spec fn entry() -> Seq<char> {
    "start_here:\n        push r15\n        sub rsp, 8\n        lea r15, [rel HEAP]\n        add r15, 7\n        mov r8, 0xfffffffffffffff8\n        and r15, r8\n        call main\n        add rsp, 8\n        pop r15\n        ret\nmain:\n"@
}

/// How many labels the bodies of the first `n` global functions draw.
pub open spec fn funs_labels(funs: Seq<SeqFunDeclV>, n: nat) -> nat
    decreases n,
{
    if n == 0 || n > funs.len() {
        0
    } else {
        funs_labels(funs, (n - 1) as nat) + labels_needed(funs[n - 1].body)
    }
}

/// The text of the first `n` global functions, the label counter running on
/// from one to the next.
pub open spec fn funs_text(funs: Seq<SeqFunDeclV>, n: nat) -> Seq<char>
    decreases n,
{
    if n == 0 || n > funs.len() {
        Seq::empty()
    } else {
        funs_text(funs, (n - 1) as nat) + render(
            select_function(funs[n - 1], funs_labels(funs, (n - 1) as nat)),
        )
    }
}

/// The whole NASM text of a program: the prologue, the error trampolines,
/// the global functions, the entry point, and the main expression behind its
/// entry check.
pub open spec fn program_text(prog: SeqProgV) -> Seq<char> {
    prologue() + render(error_handlers()) + "\n"@ + funs_text(prog.funs, prog.funs.len()) + "\n"@
        + entry() + render(stack_check_spec()) + "\n"@ + render(
        select_main(prog.main, funs_labels(prog.funs, prog.funs.len())),
    ) + "\n"@
}

/// Whether a function fits the limits of instruction selection.
pub open spec fn fun_fits(f: SeqFunDeclV) -> bool {
    f.parameters.len() + frame_need(f.body) <= MAX_FRAME && arities_fit(f.body)
}

/// Whether a program in sequential form fits the limits of instruction
/// selection: the labels fit the counter, every frame fits the largest
/// frame, and every arity fits an immediate.
pub open spec fn prog_fits(prog: SeqProgV) -> bool {
    &&& funs_labels(prog.funs, prog.funs.len()) + labels_needed(prog.main) <= u32::MAX
    &&& forall|i: int| 0 <= i < prog.funs.len() ==> fun_fits(#[trigger] prog.funs[i])
    &&& frame_need(prog.main) <= MAX_FRAME
    &&& arities_fit(prog.main)
}

/// Whether a program fits the limits of the compiler: the binders fit the
/// largest scope, the names that sequentialization draws fit the counter,
/// and the sequential form fits the limits of instruction selection.
pub open spec fn fits(p: ExpV) -> bool {
    let lifted = lambda_lift_spec(p);
    &&& binders(p) <= MAX_SCOPE
    &&& sum_to(lifted.0.len(), decl_fresh_at(lifted.0)) + seq_fresh(lifted.1) <= u32::MAX
    &&& prog_fits(seq_prog_spec(lifted.0, lifted.1))
}

/// The labels of a prefix of the functions are among the labels of all.
proof fn lemma_funs_labels_mono(funs: Seq<SeqFunDeclV>, i: nat, n: nat)
    requires
        i <= n <= funs.len(),
    ensures
        funs_labels(funs, i) <= funs_labels(funs, n),
    decreases n,
{
    if i < n {
        lemma_funs_labels_mono(funs, i, (n - 1) as nat);
    }
}

/// The whole text of a program in sequential form.
#[verifier::rlimit(50)]
fn emit_program(program: &SeqProg<()>) -> (res: String)
    requires
        prog_fits(program@),
        prog_resolved(program@),
    ensures
        res@ == program_text(program@),
{
    let ghost prog = program@;
    let mut counter: u32 = 0;
    let mut functions_is = String::new();
    let mut i: usize = 0;
    assert(functions_is@ =~= funs_text(prog.funs, 0));
    while i < program.funs.len()
        invariant
            i <= program.funs.len(),
            prog == program@,
            prog_fits(prog),
            prog_resolved(prog),
            counter == funs_labels(prog.funs, i as nat),
            functions_is@ == funs_text(prog.funs, i as nat),
        decreases program.funs.len() - i,
    {
        proof {
            lemma_funs_labels_mono(prog.funs, (i + 1) as nat, prog.funs.len());
            assert(prog.funs[i as int] == seq_decl_view(program.funs[i as int]));
            assert(fun_fits(prog.funs[i as int]));
            assert(function_resolved(prog.funs[i as int]));
        }
        let is = compile_func_to_instr(&program.funs[i], &mut counter);
        functions_is.append(instrs_to_string(&is).as_str());
        i += 1;
    }
    let main_is = instrs_to_string(&compile_to_instrs(&program.main, &mut counter));
    let mut res = String::from_str(
        "section .data\n        HEAP:    times 1024 dq 0\nsection .text\n        global start_here\n        extern snake_error\n        extern print_snake_val\n",
    );
    res.append(instrs_to_string(&error_handle_instr()).as_str());
    res.append("\n");
    res.append(functions_is.as_str());
    res.append("\n");
    res.append(
        "start_here:\n        push r15\n        sub rsp, 8\n        lea r15, [rel HEAP]\n        add r15, 7\n        mov r8, 0xfffffffffffffff8\n        and r15, r8\n        call main\n        add rsp, 8\n        pop r15\n        ret\nmain:\n",
    );
    res.append(instrs_to_string(&stack_check()).as_str());
    res.append("\n");
    res.append(main_is.as_str());
    res.append("\n");
    assert(res@ =~= program_text(prog));
    res
}

/// Compiles a surface program to NASM text, or reports the first violation
/// that the static checker finds. A program that is accepted has to fit the
/// limits of the compiler, and instruction selection has to find all that its
/// sequential form refers to; [`compile`] tests both itself.
pub fn compile_to_string<Span>(p: &SurfProg<Span>) -> (res: Result<String, CompileErr<Span>>) where
    Span: Clone,

    requires
        in_stage(p@, Stage::Surface),
        check(*p, Set::empty()) is None ==> fits(p@) && resolves(p@),
    ensures
        match res {
            Ok(text) => check(*p, Set::empty()) is None && text@ == program_text(
                seq_prog_spec(lambda_lift_spec(p@).0, lambda_lift_spec(p@).1),
            ),
            Err(err) => reports(Err(err), check(*p, Set::empty())),
        },
{
    match check_prog(p) {
        Err(err) => {
            return Err(err);
        },
        Ok(_) => {},
    }
    proof {
        lemma_checked_scoped(*p, Set::empty());
    }
    let (global_functions, main) = lambda_lift(p);
    let program = seq_prog(&global_functions, &main);
    Ok(emit_program(&program))
}

/// Whether a program in sequential form fits the limits of instruction
/// selection.
#[verifier::loop_isolation(false)]
#[verifier::rlimit(50)]
pub fn program_fits(program: &SeqProg<()>) -> (r: bool)
    ensures
        r == prog_fits(program@),
{
    let ghost prog = program@;
    let limit: u64 = 0xFFFF_FFFF;
    let frame: u64 = 0x0100_0000;
    let mut labels: Option<u64> = Some(0);
    let mut i: usize = 0;
    while i < program.funs.len()
        invariant
            i <= program.funs.len(),
            within(funs_labels(prog.funs, i as nat), limit, labels),
            labels is Some,
            forall|j: int| 0 <= j < i ==> fun_fits(#[trigger] prog.funs[j]),
        decreases program.funs.len() - i,
    {
        let f = &program.funs[i];
        proof {
            assert(prog.funs[i as int] == seq_decl_view(*f));
            lemma_funs_labels_mono(prog.funs, (i + 1) as nat, prog.funs.len());
        }
        let need = crate::limits::frame_of(f, frame);
        if need.is_none() || !arities_ok(&f.body) {
            assert(!fun_fits(prog.funs[i as int]));
            return false;
        }
        labels = crate::limits::plus(labels, count_labels(&f.body, limit), limit);
        if labels.is_none() {
            return false;
        }
        i += 1;
    }
    let all = crate::limits::plus(labels, count_labels(&program.main, limit), limit);
    all.is_some() && measure_frame(&program.main, frame).is_some() && arities_ok(&program.main)
}

/// Why a program was not compiled.
#[derive(Debug, PartialEq, Eq)]
pub enum Refusal<Span> {
    /// The tree holds a form that no parser hands over.
    NotSurface,
    /// The static checker found a violation.
    Violation(CompileErr<Span>),
    /// The program is beyond the limits of the compiler.
    TooLarge,
    /// The program, in sequential form, reads a variable that nothing binds,
    /// jumps to a local function that nothing declares, or applies a
    /// primitive to fewer operands than it takes.
    Unresolved,
}

/// Whether instruction selection finds all that a program in sequential
/// form refers to.
pub open spec fn prog_resolved(prog: SeqProgV) -> bool {
    &&& forall|i: int| 0 <= i < prog.funs.len() ==> function_resolved(#[trigger] prog.funs[i])
    &&& resolved(prog.main, Set::empty(), Set::empty())
}

/// Whether instruction selection finds all that the sequential form of a
/// surface program refers to.
pub open spec fn resolves(p: ExpV) -> bool {
    let lifted = lambda_lift_spec(p);
    prog_resolved(seq_prog_spec(lifted.0, lifted.1))
}

/// Whether instruction selection finds all that a program in sequential
/// form refers to.
pub fn program_resolved(program: &SeqProg<()>) -> (r: bool)
    ensures
        r == prog_resolved(program@),
{
    let ghost prog = program@;
    let mut i: usize = 0;
    while i < program.funs.len()
        invariant
            i <= program.funs.len(),
            prog == program@,
            forall|j: int| 0 <= j < i ==> function_resolved(#[trigger] prog.funs[j]),
        decreases program.funs.len() - i,
    {
        assert(prog.funs[i as int] == seq_decl_view(program.funs[i as int]));
        if !function_is_resolved(&program.funs[i]) {
            return false;
        }
        i += 1;
    }
    let none: Vec<String> = Vec::new();
    assert(crate::syntax::names_view(none@).to_set() =~= Set::<Name>::empty());
    is_resolved(&program.main, &none, &none)
}

/// Compiles any tree: one that holds other than surface forms, one that the
/// static checker refuses, one beyond the limits, and one in which
/// instruction selection would not find all that is referred to, are told
/// apart, and every other program becomes its text.
pub fn compile<Span>(p: &Exp<Span>) -> (res: Result<String, Refusal<Span>>) where Span: Clone
    ensures
        match res {
            Ok(text) => in_stage(p@, Stage::Surface) && check(*p, Set::empty()) is None && fits(p@)
                && resolves(p@) && text@ == program_text(
                seq_prog_spec(lambda_lift_spec(p@).0, lambda_lift_spec(p@).1),
            ),
            Err(Refusal::NotSurface) => !in_stage(p@, Stage::Surface),
            Err(Refusal::Violation(err)) => in_stage(p@, Stage::Surface) && reports(
                Err(err),
                check(*p, Set::empty()),
            ),
            Err(Refusal::TooLarge) => in_stage(p@, Stage::Surface) && check(*p, Set::empty()) is None
                && !fits(p@),
            Err(Refusal::Unresolved) => in_stage(p@, Stage::Surface) && check(*p, Set::empty())
                is None && fits(p@) && !resolves(p@),
        },
{
    if !is_surface(p) {
        return Err(Refusal::NotSurface);
    }
    match check_prog(p) {
        Err(err) => {
            return Err(Refusal::Violation(err));
        },
        Ok(_) => {},
    }
    if count_binders(p, 0x3FFF_FFFF).is_none() {
        return Err(Refusal::TooLarge);
    }
    proof {
        lemma_checked_scoped(*p, Set::empty());
    }
    let (global_functions, main) = lambda_lift(p);
    let limit: u64 = 0xFFFF_FFFF;
    let fresh = crate::limits::plus(
        count_fresh_decls(&global_functions, limit),
        count_fresh(&main, limit),
        limit,
    );
    if fresh.is_none() {
        return Err(Refusal::TooLarge);
    }
    let program = seq_prog(&global_functions, &main);
    if !program_fits(&program) {
        return Err(Refusal::TooLarge);
    }
    if !program_resolved(&program) {
        return Err(Refusal::Unresolved);
    }
    Ok(emit_program(&program))
}

} // verus!
