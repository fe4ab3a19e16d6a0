//! The subset of x86-64 that instruction selection emits.

use vstd::prelude::*;
use vstd::string::*;
use crate::syntax::Name;
use crate::text::{hex_fixed, hex_fixed_string, signed_decimal, signed_decimal_string};

verus! {

/// The general purpose registers.
#[derive(Debug, Clone, Copy, PartialEq, Eq)]
pub enum Reg {
    Rax,
    Rbx,
    Rdx,
    Rcx,
    Rsi,
    Rdi,
    Rsp,
    Rbp,
    R8,
    R9,
    R10,
    R11,
    R12,
    R13,
    R14,
    R15,
}

/// The displacement of a memory operand.
#[derive(Debug, Clone, Copy, PartialEq, Eq)]
pub enum Offset {
    Constant(i32),
    Computed { reg: Reg, factor: i32, constant: i32 },
}

/// A quadword in memory: a base register and a displacement.
#[derive(Debug, Clone, Copy, PartialEq, Eq)]
pub struct MemRef {
    pub reg: Reg,
    pub offset: Offset,
}

/// A source operand that may be a 64-bit immediate.
#[derive(Debug, Clone, Copy, PartialEq, Eq)]
pub enum Arg64 {
    Reg(Reg),
    Signed(i64),
    Unsigned(u64),
    Mem(MemRef),
}

/// A source operand with at most a 32-bit immediate.
#[derive(Debug, Clone, Copy, PartialEq, Eq)]
pub enum Arg32 {
    Reg(Reg),
    Signed(i32),
    Unsigned(u32),
    Mem(MemRef),
}

/// A source operand for a memory destination.
#[derive(Debug, Clone, Copy, PartialEq, Eq)]
pub enum Reg32 {
    Reg(Reg),
    Signed(i32),
    Unsigned(u32),
}

/// The operands of `mov`.
#[derive(Debug, Clone, Copy, PartialEq, Eq)]
pub enum MovArgs {
    ToReg(Reg, Arg64),
    ToMem(MemRef, Reg32),
}

/// The operands of a two-operand arithmetic or logic instruction.
#[derive(Debug, Clone, Copy, PartialEq, Eq)]
pub enum BinArgs {
    ToReg(Reg, Arg32),
    ToMem(MemRef, Reg32),
}

/// The target of a jump or a call.
#[derive(Debug, Clone, PartialEq, Eq)]
pub enum JmpArg {
    Label(String),
    Reg(Reg),
}

/// One instruction, or a label.
#[derive(Debug, Clone, PartialEq, Eq)]
pub enum Instr {
    Mov(MovArgs),
    RelativeLoadAddress(Reg, String),
    Add(BinArgs),
    Sub(BinArgs),
    IMul(BinArgs),
    And(BinArgs),
    Or(BinArgs),
    Xor(BinArgs),
    Sar(BinArgs),
    Shl(BinArgs),
    Cmp(BinArgs),
    Label(String),
    Call(JmpArg),
    Ret,
    Jmp(JmpArg),
    Je(JmpArg),
    Jne(JmpArg),
    Jl(JmpArg),
    Jle(JmpArg),
    Jo(JmpArg),
}

/// View of [`JmpArg`].
pub enum JmpArgV {
    Label(Name),
    Reg(Reg),
}

/// View of [`Instr`].
pub enum InstrV {
    Mov(MovArgs),
    RelativeLoadAddress(Reg, Name),
    Add(BinArgs),
    Sub(BinArgs),
    IMul(BinArgs),
    And(BinArgs),
    Or(BinArgs),
    Xor(BinArgs),
    Sar(BinArgs),
    Shl(BinArgs),
    Cmp(BinArgs),
    Label(Name),
    Call(JmpArgV),
    Ret,
    Jmp(JmpArgV),
    Je(JmpArgV),
    Jne(JmpArgV),
    Jl(JmpArgV),
    Jle(JmpArgV),
    Jo(JmpArgV),
}

impl JmpArg {
    /// The value that contracts speak of.
    pub open spec fn view(&self) -> JmpArgV {
        match self {
            JmpArg::Label(l) => JmpArgV::Label(l@),
            JmpArg::Reg(r) => JmpArgV::Reg(*r),
        }
    }
}

impl Instr {
    /// The value that contracts speak of.
    pub open spec fn view(&self) -> InstrV {
        match self {
            Instr::Mov(a) => InstrV::Mov(*a),
            Instr::RelativeLoadAddress(r, l) => InstrV::RelativeLoadAddress(*r, l@),
            Instr::Add(a) => InstrV::Add(*a),
            Instr::Sub(a) => InstrV::Sub(*a),
            Instr::IMul(a) => InstrV::IMul(*a),
            Instr::And(a) => InstrV::And(*a),
            Instr::Or(a) => InstrV::Or(*a),
            Instr::Xor(a) => InstrV::Xor(*a),
            Instr::Sar(a) => InstrV::Sar(*a),
            Instr::Shl(a) => InstrV::Shl(*a),
            Instr::Cmp(a) => InstrV::Cmp(*a),
            Instr::Label(l) => InstrV::Label(l@),
            Instr::Call(t) => InstrV::Call(t@),
            Instr::Ret => InstrV::Ret,
            Instr::Jmp(t) => InstrV::Jmp(t@),
            Instr::Je(t) => InstrV::Je(t@),
            Instr::Jne(t) => InstrV::Jne(t@),
            Instr::Jl(t) => InstrV::Jl(t@),
            Instr::Jle(t) => InstrV::Jle(t@),
            Instr::Jo(t) => InstrV::Jo(t@),
        }
    }
}

/// The views of a list of instructions.
pub open spec fn instrs_view(s: Seq<Instr>) -> Seq<InstrV> {
    Seq::new(s.len(), |i: int| s[i]@)
}

/// Appends one instruction.
pub fn emit(out: &mut Vec<Instr>, i: Instr)
    ensures
        instrs_view(final(out)@) == instrs_view(old(out)@).push(i@),
{
    out.push(i);
    assert(instrs_view(out@) =~= instrs_view(old(out)@).push(i@));
}

/// Appends a list of instructions.
pub fn emit_all(out: &mut Vec<Instr>, mut more: Vec<Instr>)
    ensures
        instrs_view(final(out)@) == instrs_view(old(out)@) + instrs_view(more@),
{
    let ghost before = out@;
    let ghost added = more@;
    out.append(&mut more);
    assert(out@ == before + added);
    assert(instrs_view(out@) =~= instrs_view(before) + instrs_view(added));
}

/// `mov reg, src`
pub open spec fn mov_reg(dst: Reg, src: Arg64) -> InstrV {
    InstrV::Mov(MovArgs::ToReg(dst, src))
}

/// `mov [base + offset], src`
pub open spec fn mov_mem(base: Reg, offset: i32, src: Reg) -> InstrV {
    InstrV::Mov(MovArgs::ToMem(MemRef { reg: base, offset: Offset::Constant(offset) }, Reg32::Reg(src)))
}

/// The quadword at `[base + offset]` as a source operand.
pub open spec fn mem(base: Reg, offset: i32) -> Arg64 {
    Arg64::Mem(MemRef { reg: base, offset: Offset::Constant(offset) })
}

/// A reference to a label as a jump target.
pub open spec fn label(l: Name) -> JmpArgV {
    JmpArgV::Label(l)
}


/// The name of a register.
pub open spec fn reg_text(r: Reg) -> Seq<char> {
    match r {
        Reg::Rax => "rax"@,
        Reg::Rbx => "rbx"@,
        Reg::Rdx => "rdx"@,
        Reg::Rcx => "rcx"@,
        Reg::Rsi => "rsi"@,
        Reg::Rdi => "rdi"@,
        Reg::Rsp => "rsp"@,
        Reg::Rbp => "rbp"@,
        Reg::R8 => "r8"@,
        Reg::R9 => "r9"@,
        Reg::R10 => "r10"@,
        Reg::R11 => "r11"@,
        Reg::R12 => "r12"@,
        Reg::R13 => "r13"@,
        Reg::R14 => "r14"@,
        Reg::R15 => "r15"@,
    }
}

/// A memory operand: the size, then the address as base, optional scaled
/// index and displacement.
pub open spec fn mem_text(m: MemRef) -> Seq<char> {
    match m.offset {
        Offset::Constant(n) => "QWORD ["@ + reg_text(m.reg) + " + "@ + signed_decimal(n as int)
            + "]"@,
        Offset::Computed { reg, factor, constant } => "QWORD ["@ + reg_text(m.reg) + " + "@
            + reg_text(reg) + "*"@ + signed_decimal(factor as int) + " + "@ + signed_decimal(
            constant as int,
        ) + "]"@,
    }
}

/// A source operand that may be a 64-bit immediate: signed immediates in
/// decimal, unsigned ones as 16 hexadecimal digits.
pub open spec fn arg64_text(a: Arg64) -> Seq<char> {
    match a {
        Arg64::Reg(r) => reg_text(r),
        Arg64::Signed(i) => signed_decimal(i as int),
        Arg64::Unsigned(u) => "0x"@ + hex_fixed(u as nat, 16),
        Arg64::Mem(m) => mem_text(m),
    }
}

/// A source operand with a 32-bit immediate: signed immediates in decimal,
/// unsigned ones as 8 hexadecimal digits.
pub open spec fn arg32_text(a: Arg32) -> Seq<char> {
    match a {
        Arg32::Reg(r) => reg_text(r),
        Arg32::Signed(i) => signed_decimal(i as int),
        Arg32::Unsigned(u) => "0x"@ + hex_fixed(u as nat, 8),
        Arg32::Mem(m) => mem_text(m),
    }
}

/// A source operand for a memory destination.
pub open spec fn reg32_text(a: Reg32) -> Seq<char> {
    match a {
        Reg32::Reg(r) => reg_text(r),
        Reg32::Signed(i) => signed_decimal(i as int),
        Reg32::Unsigned(u) => "0x"@ + hex_fixed(u as nat, 8),
    }
}

/// The operands of `mov`: destination, comma, source.
pub open spec fn mov_args_text(a: MovArgs) -> Seq<char> {
    match a {
        MovArgs::ToReg(r, src) => reg_text(r) + ", "@ + arg64_text(src),
        MovArgs::ToMem(m, src) => mem_text(m) + ", "@ + reg32_text(src),
    }
}

/// The operands of a two-operand instruction: destination, comma, source.
pub open spec fn bin_args_text(a: BinArgs) -> Seq<char> {
    match a {
        BinArgs::ToReg(r, src) => reg_text(r) + ", "@ + arg32_text(src),
        BinArgs::ToMem(m, src) => mem_text(m) + ", "@ + reg32_text(src),
    }
}

/// The target of a jump or a call.
pub open spec fn jmp_arg_text(t: JmpArgV) -> Seq<char> {
    match t {
        JmpArgV::Label(l) => l,
        JmpArgV::Reg(r) => reg_text(r),
    }
}

/// An instruction line: eight spaces, the mnemonic, a space, the operands.
pub open spec fn operation(mnemonic: Seq<char>, operands: Seq<char>) -> Seq<char> {
    "        "@ + mnemonic + " "@ + operands
}

/// One line of NASM text, without the line end: instructions are indented,
/// labels are not and end in a colon.
pub open spec fn instr_text(i: InstrV) -> Seq<char> {
    match i {
        InstrV::Mov(a) => operation("mov"@, mov_args_text(a)),
        InstrV::RelativeLoadAddress(r, l) => operation("lea"@, reg_text(r) + ", [rel "@ + l + "]"@),
        InstrV::Add(a) => operation("add"@, bin_args_text(a)),
        InstrV::Sub(a) => operation("sub"@, bin_args_text(a)),
        InstrV::IMul(a) => operation("imul"@, bin_args_text(a)),
        InstrV::And(a) => operation("and"@, bin_args_text(a)),
        InstrV::Or(a) => operation("or"@, bin_args_text(a)),
        InstrV::Xor(a) => operation("xor"@, bin_args_text(a)),
        InstrV::Sar(a) => operation("sar"@, bin_args_text(a)),
        InstrV::Shl(a) => operation("shl"@, bin_args_text(a)),
        InstrV::Cmp(a) => operation("cmp"@, bin_args_text(a)),
        InstrV::Label(l) => l + ":"@,
        InstrV::Ret => "        ret"@,
        InstrV::Call(t) => operation("call"@, jmp_arg_text(t)),
        InstrV::Jmp(t) => operation("jmp"@, jmp_arg_text(t)),
        InstrV::Je(t) => operation("je"@, jmp_arg_text(t)),
        InstrV::Jne(t) => operation("jne"@, jmp_arg_text(t)),
        InstrV::Jl(t) => operation("jl"@, jmp_arg_text(t)),
        InstrV::Jle(t) => operation("jle"@, jmp_arg_text(t)),
        InstrV::Jo(t) => operation("jo"@, jmp_arg_text(t)),
    }
}

/// The NASM text of a list of instructions: one line each.
pub open spec fn render(is: Seq<InstrV>) -> Seq<char>
    decreases is.len(),
{
    if is.len() == 0 {
        Seq::empty()
    } else {
        render(is.drop_last()) + instr_text(is.last()) + "\n"@
    }
}

/// The name of a register.
pub fn reg_to_string(r: Reg) -> (s: &'static str)
    ensures
        s@ == reg_text(r),
{
    match r {
        Reg::Rax => "rax",
        Reg::Rbx => "rbx",
        Reg::Rdx => "rdx",
        Reg::Rcx => "rcx",
        Reg::Rsi => "rsi",
        Reg::Rdi => "rdi",
        Reg::Rsp => "rsp",
        Reg::Rbp => "rbp",
        Reg::R8 => "r8",
        Reg::R9 => "r9",
        Reg::R10 => "r10",
        Reg::R11 => "r11",
        Reg::R12 => "r12",
        Reg::R13 => "r13",
        Reg::R14 => "r14",
        Reg::R15 => "r15",
    }
}

/// A memory operand as text.
pub fn mem_ref_to_string(m: MemRef) -> (s: String)
    ensures
        s@ == mem_text(m),
{
    let mut s = String::from_str("QWORD [");
    s.append(reg_to_string(m.reg));
    s.append(" + ");
    match m.offset {
        Offset::Constant(n) => {
            s.append(signed_decimal_string(n as i64).as_str());
        },
        Offset::Computed { reg, factor, constant } => {
            s.append(reg_to_string(reg));
            s.append("*");
            s.append(signed_decimal_string(factor as i64).as_str());
            s.append(" + ");
            s.append(signed_decimal_string(constant as i64).as_str());
        },
    }
    s.append("]");
    assert(s@ =~= mem_text(m));
    s
}

/// An unsigned immediate as `digits` hexadecimal digits behind `0x`.
fn hex_literal(u: u64, digits: u8) -> (s: String)
    ensures
        s@ == "0x"@ + hex_fixed(u as nat, digits as nat),
{
    let mut s = String::from_str("0x");
    s.append(hex_fixed_string(u, digits).as_str());
    s
}

/// A source operand with a 64-bit immediate as text.
pub fn arg64_to_string(a: Arg64) -> (s: String)
    ensures
        s@ == arg64_text(a),
{
    match a {
        Arg64::Reg(r) => String::from_str(reg_to_string(r)),
        Arg64::Signed(i) => signed_decimal_string(i),
        Arg64::Unsigned(u) => hex_literal(u, 16),
        Arg64::Mem(m) => mem_ref_to_string(m),
    }
}

/// A source operand with a 32-bit immediate as text.
pub fn arg32_to_string(a: Arg32) -> (s: String)
    ensures
        s@ == arg32_text(a),
{
    match a {
        Arg32::Reg(r) => String::from_str(reg_to_string(r)),
        Arg32::Signed(i) => signed_decimal_string(i as i64),
        Arg32::Unsigned(u) => hex_literal(u as u64, 8),
        Arg32::Mem(m) => mem_ref_to_string(m),
    }
}

/// A source operand for a memory destination as text.
pub fn reg32_to_string(a: Reg32) -> (s: String)
    ensures
        s@ == reg32_text(a),
{
    match a {
        Reg32::Reg(r) => String::from_str(reg_to_string(r)),
        Reg32::Signed(i) => signed_decimal_string(i as i64),
        Reg32::Unsigned(u) => hex_literal(u as u64, 8),
    }
}

/// Destination, comma, source.
fn operand_pair(mut dst: String, src: String) -> (s: String)
    ensures
        s@ == dst@ + ", "@ + src@,
{
    dst.append(", ");
    dst.append(src.as_str());
    dst
}

/// The operands of `mov` as text.
pub fn mov_args_to_string(a: MovArgs) -> (s: String)
    ensures
        s@ == mov_args_text(a),
{
    match a {
        MovArgs::ToReg(r, src) => operand_pair(
            String::from_str(reg_to_string(r)),
            arg64_to_string(src),
        ),
        MovArgs::ToMem(m, src) => operand_pair(mem_ref_to_string(m), reg32_to_string(src)),
    }
}

/// The operands of a two-operand instruction as text.
pub fn bin_args_to_string(a: BinArgs) -> (s: String)
    ensures
        s@ == bin_args_text(a),
{
    match a {
        BinArgs::ToReg(r, src) => operand_pair(
            String::from_str(reg_to_string(r)),
            arg32_to_string(src),
        ),
        BinArgs::ToMem(m, src) => operand_pair(mem_ref_to_string(m), reg32_to_string(src)),
    }
}

/// The target of a jump or a call as text.
pub fn jmp_arg_to_string(t: &JmpArg) -> (s: String)
    ensures
        s@ == jmp_arg_text(t@),
{
    match t {
        JmpArg::Label(l) => l.clone(),
        JmpArg::Reg(r) => String::from_str(reg_to_string(*r)),
    }
}

/// An instruction line from its mnemonic and its operands.
fn operation_string(mnemonic: &str, operands: String) -> (s: String)
    ensures
        s@ == operation(mnemonic@, operands@),
{
    let mut s = String::from_str("        ");
    s.append(mnemonic);
    s.append(" ");
    s.append(operands.as_str());
    s
}

/// One line of NASM text, without the line end.
pub fn instr_to_string(i: &Instr) -> (s: String)
    ensures
        s@ == instr_text(i@),
{
    match i {
        Instr::Mov(a) => operation_string("mov", mov_args_to_string(*a)),
        Instr::RelativeLoadAddress(r, l) => {
            let mut operands = String::from_str(reg_to_string(*r));
            operands.append(", [rel ");
            operands.append(l.as_str());
            operands.append("]");
            operation_string("lea", operands)
        },
        Instr::Add(a) => operation_string("add", bin_args_to_string(*a)),
        Instr::Sub(a) => operation_string("sub", bin_args_to_string(*a)),
        Instr::IMul(a) => operation_string("imul", bin_args_to_string(*a)),
        Instr::And(a) => operation_string("and", bin_args_to_string(*a)),
        Instr::Or(a) => operation_string("or", bin_args_to_string(*a)),
        Instr::Xor(a) => operation_string("xor", bin_args_to_string(*a)),
        Instr::Sar(a) => operation_string("sar", bin_args_to_string(*a)),
        Instr::Shl(a) => operation_string("shl", bin_args_to_string(*a)),
        Instr::Cmp(a) => operation_string("cmp", bin_args_to_string(*a)),
        Instr::Label(l) => {
            let mut s = l.clone();
            s.append(":");
            s
        },
        Instr::Ret => String::from_str("        ret"),
        Instr::Call(t) => operation_string("call", jmp_arg_to_string(t)),
        Instr::Jmp(t) => operation_string("jmp", jmp_arg_to_string(t)),
        Instr::Je(t) => operation_string("je", jmp_arg_to_string(t)),
        Instr::Jne(t) => operation_string("jne", jmp_arg_to_string(t)),
        Instr::Jl(t) => operation_string("jl", jmp_arg_to_string(t)),
        Instr::Jle(t) => operation_string("jle", jmp_arg_to_string(t)),
        Instr::Jo(t) => operation_string("jo", jmp_arg_to_string(t)),
    }
}

/// The NASM text of a list of instructions.
pub fn instrs_to_string(is: &Vec<Instr>) -> (s: String)
    ensures
        s@ == render(instrs_view(is@)),
{
    let ghost iv = instrs_view(is@);
    let mut buf = String::new();
    let mut k: usize = 0;
    assert(iv.take(0) =~= Seq::<InstrV>::empty());
    while k < is.len()
        invariant
            k <= is.len(),
            iv == instrs_view(is@),
            buf@ == render(iv.take(k as int)),
        decreases is.len() - k,
    {
        proof {
            assert(iv.take(k + 1).drop_last() =~= iv.take(k as int));
            assert(iv.take(k + 1).last() == is[k as int]@);
        }
        buf.append(instr_to_string(&is[k]).as_str());
        buf.append("\n");
        k += 1;
    }
    assert(iv.take(is.len() as int) =~= iv);
    buf
}

} // verus!
