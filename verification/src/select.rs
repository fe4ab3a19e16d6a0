//! What instruction selection emits, as mathematics: for every form of the
//! sequential tree the exact instruction sequence, given the label counter,
//! the number of stack slots in use, and where variables and local functions
//! live.

use vstd::prelude::*;
use crate::syntax::{ImmV, Name, Prim, SeqExpV, SeqFunDeclV, VarOrLabelV};
use crate::text::numbered;
use crate::x86::{Arg32, Arg64, BinArgs, InstrV, JmpArgV, MemRef, MovArgs, Offset, Reg, Reg32, label, mem, mov_mem, mov_reg};
use crate::error_handler::{ARITH_ERROR, IF_ERROR, INDEX_ERROR, INDEX_OUT_OF_BOUNDS, LAMBDA_ARITY_ERROR, LOGIC_ERROR, NON_ARRAY_ERROR, NON_CLOSURE_ERROR, OVERFLOW, stack_check_spec};

verus! {

/// The word that stands for `true`.
pub const SNAKE_TRU: u64 = 0xFFFF_FFFF_FFFF_FFFF;

/// The word that stands for `false`.
pub const SNAKE_FLS: u64 = 0x7FFF_FFFF_FFFF_FFFF;

/// The bits that tell arrays and closures from other values.
pub const TYPE_MASK: u32 = 0b111;

/// The sign bit, which tells the two booleans apart.
pub const SIGN_BIT: u64 = 0x8000_0000_0000_0000;

/// The largest number of stack slots that a frame may use.
pub const MAX_FRAME: i32 = 0x0100_0000;

/// The largest integer that fits in 63 bits.
pub const I63_MAX: i64 = 0x3FFF_FFFF_FFFF_FFFF;

/// The smallest integer that fits in 63 bits.
pub const I63_MIN: i64 = -0x4000_0000_0000_0000;

/// The word for an integer: the value shifted left by one, as the machine
/// shifts. For a 63-bit integer that is twice the value.
pub open spec fn tagged(i: i64) -> i64 {
    if i > I63_MAX {
        (2 * i - 0x1_0000_0000_0000_0000) as i64
    } else if i < I63_MIN {
        (2 * i + 0x1_0000_0000_0000_0000) as i64
    } else {
        (2 * i) as i64
    }
}

/// The offset from the stack pointer of the `k`-th slot of a frame.
pub open spec fn slot(k: int) -> i32 {
    (-8 * k) as i32
}

/// Where a variable lives. Instruction selection is for trees in which every
/// variable is bound ([`resolved`]); only to be total, this gives offset 0
/// for a variable that was never bound.
pub open spec fn offset_of(vars: Map<Name, i32>, x: Name) -> i32 {
    if vars.contains_key(x) {
        vars[x]
    } else {
        0
    }
}

/// An immediate as a source operand.
pub open spec fn imm_arg(imm: ImmV, vars: Map<Name, i32>) -> Arg64 {
    match imm {
        ImmV::Num(i) => Arg64::Signed(tagged(i)),
        ImmV::Bool(b) => Arg64::Unsigned(
            if b {
                SNAKE_TRU
            } else {
                SNAKE_FLS
            },
        ),
        ImmV::Var(x) => mem(Reg::Rsp, offset_of(vars, x)),
    }
}

/// The `i`-th operand of a primitive. Instruction selection is for trees in
/// which every primitive has its operands ([`resolved`]); only to be total,
/// this gives the number 0 for an operand that is missing.
pub open spec fn operand(args: Seq<ImmV>, i: int, vars: Map<Name, i32>) -> Arg64 {
    if 0 <= i < args.len() {
        imm_arg(args[i], vars)
    } else {
        Arg64::Signed(0)
    }
}

/// The concatenation of `f(0)`, ..., `f(n - 1)`.
pub open spec fn concat_map(n: nat, f: spec_fn(int) -> Seq<InstrV>) -> Seq<InstrV>
    decreases n,
{
    if n == 0 {
        Seq::empty()
    } else {
        concat_map((n - 1) as nat, f) + f(n - 1)
    }
}

/// The bytes by which a caller lowers the stack pointer around a call, given
/// the slots it has in use: all of them, rounded so that the amount is an odd
/// multiple of 8.
pub open spec fn align_stack_spec(stack: int) -> int {
    if stack % 2 == 0 {
        (stack + 1) * 8
    } else {
        stack * 8
    }
}

/// The label of a function's code.
pub open spec fn func_label(name: Name) -> Name {
    "func_"@ + name
}

/// A check of the lowest bit of `reg`: an integer has it clear.
pub open spec fn int_check(reg: Reg, error: Name) -> Seq<InstrV> {
    seq![
        mov_reg(Reg::Rcx, Arg64::Reg(reg)),
        InstrV::And(BinArgs::ToReg(Reg::Rcx, Arg32::Signed(1))),
        InstrV::Cmp(BinArgs::ToReg(Reg::Rcx, Arg32::Signed(1))),
        InstrV::Je(label(error)),
    ]
}

/// A check that `reg` holds a boolean: its three lowest bits are set.
pub open spec fn bool_check(reg: Reg, error: Name) -> Seq<InstrV> {
    seq![
        mov_reg(Reg::Rcx, Arg64::Reg(reg)),
        InstrV::And(BinArgs::ToReg(Reg::Rcx, Arg32::Unsigned(TYPE_MASK))),
        InstrV::Cmp(BinArgs::ToReg(Reg::Rcx, Arg32::Unsigned(TYPE_MASK))),
        InstrV::Jne(label(error)),
    ]
}

/// Loads both operands of a comparison, checks that they are integers, and
/// leaves the difference of their values in `Rax`: first minus second, or
/// second minus first when `reverse` is set.
pub open spec fn difference(args: Seq<ImmV>, vars: Map<Name, i32>, reverse: bool, error: Name) -> Seq<
    InstrV,
> {
    (if reverse {
        seq![
            mov_reg(Reg::Rdx, operand(args, 0, vars)),
            mov_reg(Reg::Rax, operand(args, 1, vars)),
        ]
    } else {
        seq![
            mov_reg(Reg::Rax, operand(args, 0, vars)),
            mov_reg(Reg::Rdx, operand(args, 1, vars)),
        ]
    }) + int_check(Reg::Rax, error) + int_check(Reg::Rdx, error) + seq![
        InstrV::Sar(BinArgs::ToReg(Reg::Rax, Arg32::Signed(1))),
        InstrV::Sar(BinArgs::ToReg(Reg::Rdx, Arg32::Signed(1))),
        InstrV::Sub(BinArgs::ToReg(Reg::Rax, Arg32::Reg(Reg::Rdx))),
    ]
}

/// Turns the sign of `Rax` into a boolean: `true` when negative.
pub open spec fn is_neg_spec() -> Seq<InstrV> {
    seq![
        mov_reg(Reg::Rdx, Arg64::Unsigned(SNAKE_FLS)),
        InstrV::Or(BinArgs::ToReg(Reg::Rax, Arg32::Reg(Reg::Rdx))),
    ]
}

/// Turns the sign of `Rax` into a boolean: `true` when not negative.
pub open spec fn is_non_neg_spec() -> Seq<InstrV> {
    seq![
        mov_reg(Reg::Rdx, Arg64::Unsigned(SIGN_BIT)),
        InstrV::Xor(BinArgs::ToReg(Reg::Rax, Arg32::Reg(Reg::Rdx))),
        mov_reg(Reg::Rdx, Arg64::Unsigned(SNAKE_FLS)),
        InstrV::Or(BinArgs::ToReg(Reg::Rax, Arg32::Reg(Reg::Rdx))),
    ]
}

/// Loads an array and an index and checks both: the untagged address ends up
/// in `Rax`, the index as a machine integer in `R8`.
pub open spec fn array_access_spec(address: Arg64, index: Arg64) -> Seq<InstrV> {
    seq![
        mov_reg(Reg::Rax, address),
        mov_reg(Reg::Rdx, Arg64::Reg(Reg::Rax)),
        InstrV::And(BinArgs::ToReg(Reg::Rdx, Arg32::Unsigned(TYPE_MASK))),
        InstrV::Cmp(BinArgs::ToReg(Reg::Rdx, Arg32::Unsigned(1))),
        InstrV::Jne(label(NON_ARRAY_ERROR@)),
        InstrV::Sub(BinArgs::ToReg(Reg::Rax, Arg32::Unsigned(1))),
        mov_reg(Reg::R8, index),
        mov_reg(Reg::R9, Arg64::Reg(Reg::R8)),
        InstrV::And(BinArgs::ToReg(Reg::R9, Arg32::Unsigned(1))),
        InstrV::Cmp(BinArgs::ToReg(Reg::R9, Arg32::Unsigned(1))),
        InstrV::Je(label(INDEX_ERROR@)),
        InstrV::Sar(BinArgs::ToReg(Reg::R8, Arg32::Unsigned(1))),
        InstrV::Cmp(BinArgs::ToReg(Reg::R8, Arg32::Signed(0))),
        InstrV::Jl(label(INDEX_OUT_OF_BOUNDS@)),
        InstrV::Cmp(
            BinArgs::ToMem(MemRef { reg: Reg::Rax, offset: Offset::Constant(0) }, Reg32::Reg(Reg::R8)),
        ),
        InstrV::Jle(label(INDEX_OUT_OF_BOUNDS@)),
    ]
}

/// The element of the array at `Rax` with the index in `R8`.
pub open spec fn element() -> MemRef {
    MemRef { reg: Reg::Rax, offset: Offset::Computed { reg: Reg::R8, factor: 8, constant: 8 } }
}

/// A test of the tag of a value: `Rax` becomes `true` when the bits under
/// `mask` equal `tag`, else `false`. Uses the labels numbered `n`.
pub open spec fn tag_test(value: Arg64, mask: u32, tag: u32, n: nat) -> Seq<InstrV> {
    seq![
        mov_reg(Reg::Rax, value),
        mov_reg(Reg::Rdx, Arg64::Reg(Reg::Rax)),
        InstrV::And(BinArgs::ToReg(Reg::Rdx, Arg32::Unsigned(mask))),
        InstrV::Cmp(BinArgs::ToReg(Reg::Rdx, Arg32::Unsigned(tag))),
        InstrV::Jne(label(numbered("false_"@, n))),
        mov_reg(Reg::Rax, Arg64::Unsigned(SNAKE_TRU)),
        InstrV::Jmp(label(numbered("test_done_"@, n))),
        InstrV::Label(numbered("false_"@, n)),
        mov_reg(Reg::Rax, Arg64::Unsigned(SNAKE_FLS)),
        InstrV::Label(numbered("test_done_"@, n)),
    ]
}

/// A test of two words for equality: `Rax` becomes `true` when they are the
/// same bits (`negate` clear) or when they differ (`negate` set).
pub open spec fn equality_test(a: Arg64, b: Arg64, negate: bool, n: nat) -> Seq<InstrV> {
    seq![
        mov_reg(Reg::Rax, a),
        mov_reg(Reg::Rdx, b),
        InstrV::Cmp(BinArgs::ToReg(Reg::Rax, Arg32::Reg(Reg::Rdx))),
        if negate {
            InstrV::Je(label(numbered("false_"@, n)))
        } else {
            InstrV::Jne(label(numbered("false_"@, n)))
        },
        mov_reg(Reg::Rax, Arg64::Unsigned(SNAKE_TRU)),
        InstrV::Jmp(label(numbered("test_done_"@, n))),
        InstrV::Label(numbered("false_"@, n)),
        mov_reg(Reg::Rax, Arg64::Unsigned(SNAKE_FLS)),
        InstrV::Label(numbered("test_done_"@, n)),
    ]
}

/// Binary arithmetic on two integers, with the overflow check behind it.
pub open spec fn arithmetic(args: Seq<ImmV>, vars: Map<Name, i32>, op: Seq<InstrV>) -> Seq<InstrV> {
    seq![mov_reg(Reg::Rax, operand(args, 0, vars))] + int_check(Reg::Rax, ARITH_ERROR@) + seq![
        mov_reg(Reg::Rdx, operand(args, 1, vars)),
    ] + int_check(Reg::Rdx, ARITH_ERROR@) + op + seq![InstrV::Jo(label(OVERFLOW@))]
}

/// Unary arithmetic on an integer, with the overflow check behind it.
pub open spec fn arithmetic1(args: Seq<ImmV>, vars: Map<Name, i32>, op: InstrV) -> Seq<InstrV> {
    seq![mov_reg(Reg::Rax, operand(args, 0, vars))] + int_check(Reg::Rax, ARITH_ERROR@) + seq![
        op,
        InstrV::Jo(label(OVERFLOW@)),
    ]
}

/// Binary logic on two booleans.
pub open spec fn logic(args: Seq<ImmV>, vars: Map<Name, i32>, op: InstrV) -> Seq<InstrV> {
    seq![mov_reg(Reg::Rax, operand(args, 0, vars))] + bool_check(Reg::Rax, LOGIC_ERROR@) + seq![
        mov_reg(Reg::Rdx, operand(args, 1, vars)),
    ] + bool_check(Reg::Rdx, LOGIC_ERROR@) + seq![op]
}

/// The stores that fill a new array with its elements.
pub open spec fn array_stores(args: Seq<ImmV>, vars: Map<Name, i32>) -> Seq<InstrV> {
    concat_map(args.len(), array_store(args, vars))
}

/// The store of the `i`-th element of a new array.
pub open spec fn array_store(args: Seq<ImmV>, vars: Map<Name, i32>) -> spec_fn(int) -> Seq<InstrV> {
    |i: int|
        seq![
            mov_reg(Reg::Rax, operand(args, i, vars)),
            mov_mem(Reg::R15, (8 * (i + 1)) as i32, Reg::Rax),
        ]
}

/// How many labels a primitive draws from the counter.
pub open spec fn prim_labels(p: Prim) -> nat {
    match p {
        Prim::IsBool | Prim::IsNum | Prim::IsFun | Prim::IsArray | Prim::Eq | Prim::Neq => 1,
        _ => 0,
    }
}

/// The code for a primitive applied to immediates.
pub open spec fn select_prim(p: Prim, args: Seq<ImmV>, c: nat, stack: int, vars: Map<Name, i32>) -> Seq<
    InstrV,
> {
    match p {
        Prim::Add => arithmetic(
            args,
            vars,
            seq![InstrV::Add(BinArgs::ToReg(Reg::Rax, Arg32::Reg(Reg::Rdx)))],
        ),
        Prim::Sub => arithmetic(
            args,
            vars,
            seq![InstrV::Sub(BinArgs::ToReg(Reg::Rax, Arg32::Reg(Reg::Rdx)))],
        ),
        Prim::Mul => arithmetic(
            args,
            vars,
            seq![
                InstrV::Sar(BinArgs::ToReg(Reg::Rdx, Arg32::Signed(1))),
                InstrV::IMul(BinArgs::ToReg(Reg::Rax, Arg32::Reg(Reg::Rdx))),
            ],
        ),
        Prim::Add1 => arithmetic1(
            args,
            vars,
            InstrV::Add(BinArgs::ToReg(Reg::Rax, Arg32::Unsigned(2))),
        ),
        Prim::Sub1 => arithmetic1(
            args,
            vars,
            InstrV::Sub(BinArgs::ToReg(Reg::Rax, Arg32::Unsigned(2))),
        ),
        Prim::Not => seq![mov_reg(Reg::Rax, operand(args, 0, vars))] + bool_check(
            Reg::Rax,
            LOGIC_ERROR@,
        ) + seq![
            mov_reg(Reg::Rdx, Arg64::Unsigned(SIGN_BIT)),
            InstrV::Xor(BinArgs::ToReg(Reg::Rax, Arg32::Reg(Reg::Rdx))),
        ],
        Prim::Print => seq![
            mov_reg(Reg::Rdi, operand(args, 0, vars)),
            InstrV::Sub(BinArgs::ToReg(Reg::Rsp, Arg32::Signed((align_stack_spec(stack) + 8) as i32))),
            InstrV::Call(label("print_snake_val"@)),
            InstrV::Add(BinArgs::ToReg(Reg::Rsp, Arg32::Signed((align_stack_spec(stack) + 8) as i32))),
        ],
        Prim::IsBool => tag_test(operand(args, 0, vars), 0b1111, 0b1111, c + 1),
        Prim::IsNum => tag_test(operand(args, 0, vars), 0b1, 0b0, c + 1),
        Prim::IsFun => tag_test(operand(args, 0, vars), TYPE_MASK, 0b011, c + 1),
        Prim::IsArray => tag_test(operand(args, 0, vars), TYPE_MASK, 0b001, c + 1),
        Prim::And => logic(args, vars, InstrV::And(BinArgs::ToReg(Reg::Rax, Arg32::Reg(Reg::Rdx)))),
        Prim::Or => logic(args, vars, InstrV::Or(BinArgs::ToReg(Reg::Rax, Arg32::Reg(Reg::Rdx)))),
        Prim::Lt => difference(args, vars, false, crate::error_handler::CMP_ERROR@) + is_neg_spec(),
        Prim::Gt => difference(args, vars, true, crate::error_handler::CMP_ERROR@) + is_neg_spec(),
        Prim::Le => difference(args, vars, true, crate::error_handler::CMP_ERROR@)
            + is_non_neg_spec(),
        Prim::Ge => difference(args, vars, false, crate::error_handler::CMP_ERROR@)
            + is_non_neg_spec(),
        Prim::Eq => equality_test(operand(args, 0, vars), operand(args, 1, vars), false, c + 1),
        Prim::Neq => equality_test(operand(args, 0, vars), operand(args, 1, vars), true, c + 1),
        Prim::Length => seq![
            mov_reg(Reg::Rax, operand(args, 0, vars)),
            mov_reg(Reg::Rdx, Arg64::Reg(Reg::Rax)),
            InstrV::And(BinArgs::ToReg(Reg::Rdx, Arg32::Unsigned(TYPE_MASK))),
            InstrV::Cmp(BinArgs::ToReg(Reg::Rdx, Arg32::Unsigned(1))),
            InstrV::Jne(label(NON_ARRAY_ERROR@)),
            InstrV::Sub(BinArgs::ToReg(Reg::Rax, Arg32::Unsigned(1))),
            mov_reg(Reg::Rax, mem(Reg::Rax, 0)),
            InstrV::Shl(BinArgs::ToReg(Reg::Rax, Arg32::Signed(1))),
        ],
        Prim::MakeArray => seq![
            InstrV::Mov(
                MovArgs::ToMem(
                    MemRef { reg: Reg::R15, offset: Offset::Constant(0) },
                    Reg32::Unsigned(args.len() as u32),
                ),
            ),
        ] + array_stores(args, vars) + seq![
            mov_reg(Reg::Rax, Arg64::Reg(Reg::R15)),
            InstrV::Add(BinArgs::ToReg(Reg::Rax, Arg32::Unsigned(1))),
            InstrV::Add(BinArgs::ToReg(Reg::R15, Arg32::Unsigned((8 * (args.len() + 1)) as u32))),
        ],
        Prim::ArrayGet => array_access_spec(operand(args, 0, vars), operand(args, 1, vars)) + seq![
            mov_reg(Reg::Rax, Arg64::Mem(element())),
        ],
        Prim::ArraySet => array_access_spec(operand(args, 0, vars), operand(args, 1, vars)) + seq![
            mov_reg(Reg::R9, operand(args, 2, vars)),
            InstrV::Mov(MovArgs::ToMem(element(), Reg32::Reg(Reg::R9))),
            InstrV::Add(BinArgs::ToReg(Reg::Rax, Arg32::Unsigned(1))),
        ],
        Prim::GetCode => seq![
            mov_reg(Reg::Rax, operand(args, 0, vars)),
            mov_reg(Reg::Rax, mem(Reg::Rax, 0)),
        ],
        Prim::GetEnv => seq![
            mov_reg(Reg::Rax, operand(args, 0, vars)),
            mov_reg(Reg::Rax, mem(Reg::Rax, 16)),
        ],
        Prim::CheckArityAndUntag(k) => seq![
            mov_reg(Reg::Rax, operand(args, 0, vars)),
            mov_reg(Reg::Rdx, Arg64::Reg(Reg::Rax)),
            InstrV::And(BinArgs::ToReg(Reg::Rdx, Arg32::Unsigned(TYPE_MASK))),
            InstrV::Cmp(BinArgs::ToReg(Reg::Rdx, Arg32::Unsigned(0b011))),
            InstrV::Jne(label(NON_CLOSURE_ERROR@)),
            mov_reg(Reg::R8, mem(Reg::Rax, 5)),
            InstrV::Cmp(BinArgs::ToReg(Reg::R8, Arg32::Unsigned(k as u32))),
            InstrV::Jne(label(LAMBDA_ARITY_ERROR@)),
            InstrV::Sub(BinArgs::ToReg(Reg::Rax, Arg32::Unsigned(0b011))),
        ],
    }
}

/// The code that builds a closure object on the heap.
pub open spec fn make_closure_spec(arity: usize, name: Name, env: ImmV, vars: Map<Name, i32>) -> Seq<
    InstrV,
> {
    seq![
        InstrV::RelativeLoadAddress(Reg::Rax, func_label(name)),
        mov_mem(Reg::R15, 0, Reg::Rax),
        mov_reg(Reg::R8, Arg64::Unsigned(arity as u64)),
        mov_mem(Reg::R15, 8, Reg::R8),
        mov_reg(Reg::R8, imm_arg(env, vars)),
        mov_mem(Reg::R15, 16, Reg::R8),
        mov_reg(Reg::Rax, Arg64::Reg(Reg::R15)),
        InstrV::Add(BinArgs::ToReg(Reg::Rax, Arg32::Unsigned(0b011))),
        InstrV::Add(BinArgs::ToReg(Reg::R15, Arg32::Unsigned(24))),
    ]
}

/// The first slot of the scratch zone of a tail call: beyond the slots in use
/// and beyond the slots that the arguments go to.
pub open spec fn scratch_base(n: int, stack: int, decl_stack: int) -> int {
    if stack > decl_stack + n {
        stack
    } else {
        decl_stack + n
    }
}

/// The copy of the `i`-th argument of a tail call to the scratch zone, if it
/// is a variable.
pub open spec fn save_arg(args: Seq<ImmV>, top: int, vars: Map<Name, i32>) -> spec_fn(int) -> Seq<
    InstrV,
> {
    |i: int|
        if args[i] is Var {
            seq![
                mov_reg(Reg::Rax, imm_arg(args[i], vars)),
                mov_mem(Reg::Rsp, slot(top + 1 + i), Reg::Rax),
            ]
        } else {
            Seq::empty()
        }
}

/// The move of the `i`-th argument of a tail call to its parameter slot.
pub open spec fn place_arg(args: Seq<ImmV>, top: int, decl_stack: int, vars: Map<Name, i32>) -> spec_fn(
    int,
) -> Seq<InstrV> {
    |i: int|
        seq![
            mov_reg(
                Reg::Rax,
                if args[i] is Var {
                    mem(Reg::Rsp, slot(top + 1 + i))
                } else {
                    imm_arg(args[i], vars)
                },
            ),
            mov_mem(Reg::Rsp, slot(decl_stack + 1 + i), Reg::Rax),
        ]
}

/// The move of the `i`-th argument of a call to where the callee's frame will
/// hold it.
pub open spec fn marshal_arg(args: Seq<ImmV>, stack_top: int, vars: Map<Name, i32>) -> spec_fn(
    int,
) -> Seq<InstrV> {
    |i: int|
        seq![
            mov_reg(Reg::Rax, imm_arg(args[i], vars)),
            mov_mem(Reg::Rsp, (-(stack_top + 16 + 8 * i)) as i32, Reg::Rax),
        ]
}

/// A call that reuses the caller's frame. Arguments that are variables are
/// first copied to a scratch zone, so that no argument is overwritten before
/// it is read; then every argument goes to its parameter slot, counted from
/// `decl_stack`; then control jumps to the target.
pub open spec fn tail_call(
    target: VarOrLabelV,
    args: Seq<ImmV>,
    stack: int,
    decl_stack: int,
    vars: Map<Name, i32>,
) -> Seq<InstrV> {
    let n = args.len() as int;
    let top = scratch_base(n, stack, decl_stack);
    (match target {
        VarOrLabelV::Var(x) => seq![
            mov_reg(Reg::Rax, mem(Reg::Rsp, offset_of(vars, x))),
            mov_mem(Reg::Rsp, slot(top + n + 1), Reg::Rax),
        ],
        VarOrLabelV::Label(_) => Seq::empty(),
    }) + concat_map(args.len(), save_arg(args, top, vars)) + concat_map(
        args.len(),
        place_arg(args, top, decl_stack, vars),
    ) + (match target {
        VarOrLabelV::Var(_) => seq![
            mov_reg(Reg::Rax, mem(Reg::Rsp, slot(top + n + 1))),
            InstrV::Jmp(JmpArgV::Reg(Reg::Rax)),
        ],
        VarOrLabelV::Label(f) => seq![InstrV::Jmp(label(func_label(f)))],
    })
}

/// A call that sets up a new frame below the caller's: the arguments go
/// where the callee expects its parameters, the stack pointer is lowered
/// around the call and restored after it.
pub open spec fn frame_call(target: VarOrLabelV, args: Seq<ImmV>, stack: int, vars: Map<Name, i32>) -> Seq<
    InstrV,
> {
    let stack_top = align_stack_spec(stack);
    concat_map(args.len(), marshal_arg(args, stack_top, vars)) + (match target {
        VarOrLabelV::Var(x) => seq![
            mov_reg(Reg::Rax, mem(Reg::Rsp, offset_of(vars, x))),
            InstrV::Sub(BinArgs::ToReg(Reg::Rsp, Arg32::Signed(stack_top as i32))),
            InstrV::Call(JmpArgV::Reg(Reg::Rax)),
            InstrV::Add(BinArgs::ToReg(Reg::Rsp, Arg32::Signed(stack_top as i32))),
        ],
        VarOrLabelV::Label(f) => seq![
            InstrV::Sub(BinArgs::ToReg(Reg::Rsp, Arg32::Signed(stack_top as i32))),
            InstrV::Call(label(func_label(f))),
            InstrV::Add(BinArgs::ToReg(Reg::Rsp, Arg32::Signed(stack_top as i32))),
        ],
    })
}

/// The variables of a frame after the first `n` of `params` got the slots
/// that follow `stack`.
pub open spec fn with_params(vars: Map<Name, i32>, params: Seq<Name>, n: nat, stack: int) -> Map<
    Name,
    i32,
>
    decreases n,
{
    if n == 0 || n > params.len() {
        vars
    } else {
        with_params(vars, params, (n - 1) as nat, stack).insert(params[n - 1], slot(stack + n))
    }
}

/// The local functions after the first `n` of `decls` were declared with
/// `stack` slots in use.
pub open spec fn with_funs(funs: Map<Name, i32>, decls: Seq<SeqFunDeclV>, n: nat, stack: int) -> Map<
    Name,
    i32,
>
    decreases n,
{
    if n == 0 || n > decls.len() {
        funs
    } else {
        with_funs(funs, decls, (n - 1) as nat, stack).insert(decls[n - 1].name, stack as i32)
    }
}

/// How many labels the code for an expression draws from the counter.
pub open spec fn labels_needed(e: SeqExpV) -> nat
    decreases e, 0nat,
{
    match e {
        SeqExpV::Imm(_) => 0,
        SeqExpV::Prim(p, _) => prim_labels(p),
        SeqExpV::MakeClosure { .. } => 0,
        SeqExpV::Let { bound_exp, body, .. } => labels_needed(*bound_exp) + labels_needed(*body),
        SeqExpV::If { thn, els, .. } => 1 + labels_needed(*thn) + labels_needed(*els),
        SeqExpV::FunDefs { decls, body } => 1 + decls_labels(decls, decls.len()) + labels_needed(
            *body,
        ),
        SeqExpV::InternalTailCall(..) => 0,
        SeqExpV::ExternalCall { .. } => 0,
    }
}

/// How many labels the bodies of the first `n` declarations draw.
pub open spec fn decls_labels(decls: Seq<SeqFunDeclV>, n: nat) -> nat
    decreases decls, n,
{
    if n == 0 || n > decls.len() {
        0
    } else {
        decls_labels(decls, (n - 1) as nat) + labels_needed(decls[n - 1].body)
    }
}

/// How many stack slots beyond those in use the code for an expression may
/// touch.
pub open spec fn frame_need(e: SeqExpV) -> nat
    decreases e, 0nat,
{
    match e {
        SeqExpV::Imm(_) => 0,
        SeqExpV::Prim(_, args) => args.len(),
        SeqExpV::MakeClosure { .. } => 0,
        SeqExpV::Let { bound_exp, body, .. } => if frame_need(*bound_exp) > 1 + frame_need(*body) {
            frame_need(*bound_exp)
        } else {
            1 + frame_need(*body)
        },
        SeqExpV::If { thn, els, .. } => if frame_need(*thn) > frame_need(*els) {
            frame_need(*thn)
        } else {
            frame_need(*els)
        },
        SeqExpV::FunDefs { decls, body } => if decls_frame_need(decls, decls.len()) > frame_need(
            *body,
        ) {
            decls_frame_need(decls, decls.len())
        } else {
            frame_need(*body)
        },
        SeqExpV::InternalTailCall(_, args) => 2 * args.len() + 3,
        SeqExpV::ExternalCall { args, .. } => 2 * args.len() + 3,
    }
}

/// The largest number of slots that one of the first `n` declarations may
/// touch: its parameters and what its body needs.
pub open spec fn decls_frame_need(decls: Seq<SeqFunDeclV>, n: nat) -> nat
    decreases decls, n,
{
    if n == 0 || n > decls.len() {
        0
    } else {
        let rest = decls_frame_need(decls, (n - 1) as nat);
        let this = decls[n - 1].parameters.len() + frame_need(decls[n - 1].body);
        if rest > this {
            rest
        } else {
            this
        }
    }
}

/// Whether every arity that the code compares against fits the immediate it
/// is written as.
pub open spec fn arities_fit(e: SeqExpV) -> bool
    decreases e, 0nat,
{
    match e {
        SeqExpV::Prim(p, _) => p matches Prim::CheckArityAndUntag(k) ==> k <= u32::MAX,
        SeqExpV::Let { bound_exp, body, .. } => arities_fit(*bound_exp) && arities_fit(*body),
        SeqExpV::If { thn, els, .. } => arities_fit(*thn) && arities_fit(*els),
        SeqExpV::FunDefs { decls, body } => decls_arities_fit(decls, decls.len()) && arities_fit(
            *body,
        ),
        _ => true,
    }
}

/// Whether the arities in the first `n` declarations fit.
pub open spec fn decls_arities_fit(decls: Seq<SeqFunDeclV>, n: nat) -> bool
    decreases decls, n,
{
    if n == 0 || n > decls.len() {
        true
    } else {
        decls_arities_fit(decls, (n - 1) as nat) && arities_fit(decls[n - 1].body)
    }
}

/// The code for an expression: it leaves the value in `Rax`. `c` is the label
/// counter before, `stack` the number of slots in use, `vars` maps each
/// variable in scope to its offset from the stack pointer, and `funs` maps
/// each local function in scope to the number of slots that were in use where
/// it was declared.
pub open spec fn select(e: SeqExpV, c: nat, stack: int, vars: Map<Name, i32>, funs: Map<Name, i32>) -> Seq<
    InstrV,
>
    decreases e, 0nat,
{
    match e {
        SeqExpV::Imm(i) => seq![mov_reg(Reg::Rax, imm_arg(i, vars))],
        SeqExpV::Prim(p, args) => select_prim(p, args, c, stack, vars),
        SeqExpV::MakeClosure { arity, label, env } => make_closure_spec(arity, label, env, vars),
        SeqExpV::Let { var, bound_exp, body } => select(*bound_exp, c, stack, vars, funs) + seq![
            mov_mem(Reg::Rsp, slot(stack + 1), Reg::Rax),
        ] + select(
            *body,
            c + labels_needed(*bound_exp),
            stack + 1,
            vars.insert(var, slot(stack + 1)),
            funs,
        ),
        SeqExpV::If { cond, thn, els } => seq![mov_reg(Reg::Rax, imm_arg(cond, vars))] + bool_check(
            Reg::Rax,
            IF_ERROR@,
        ) + seq![
            mov_reg(Reg::Rdx, Arg64::Unsigned(SNAKE_FLS)),
            InstrV::Cmp(BinArgs::ToReg(Reg::Rax, Arg32::Reg(Reg::Rdx))),
            InstrV::Je(label(numbered("else_"@, c + 1))),
        ] + select(*thn, c + 1, stack, vars, funs) + seq![
            InstrV::Jmp(label(numbered("done_"@, c + 1))),
            InstrV::Label(numbered("else_"@, c + 1)),
        ] + select(*els, c + 1 + labels_needed(*thn), stack, vars, funs) + seq![
            InstrV::Label(numbered("done_"@, c + 1)),
        ],
        SeqExpV::FunDefs { decls, body } => {
            let inner = with_funs(funs, decls, decls.len(), stack);
            seq![InstrV::Jmp(label(numbered("body_"@, c + 1)))] + select_decls(
                decls,
                decls.len(),
                c + 1,
                stack,
                vars,
                inner,
            ) + seq![InstrV::Label(numbered("body_"@, c + 1))] + select(
                *body,
                c + 1 + decls_labels(decls, decls.len()),
                stack,
                vars,
                inner,
            )
        },
        SeqExpV::InternalTailCall(f, args) => tail_call(
            VarOrLabelV::Label(f),
            args,
            stack,
            offset_of(funs, f) as int,
            vars,
        ),
        SeqExpV::ExternalCall { fun, args, is_tail } => if is_tail {
            tail_call(fun, args, stack, 0, vars)
        } else {
            frame_call(fun, args, stack, vars)
        },
    }
}

/// The code for the first `n` local functions of a group: for each its label,
/// the entry check, its body with the parameters in the slots that follow
/// `stack`, and the return.
pub open spec fn select_decls(
    decls: Seq<SeqFunDeclV>,
    n: nat,
    c: nat,
    stack: int,
    vars: Map<Name, i32>,
    funs: Map<Name, i32>,
) -> Seq<InstrV>
    decreases decls, n,
{
    if n == 0 || n > decls.len() {
        Seq::empty()
    } else {
        let d = decls[n - 1];
        select_decls(decls, (n - 1) as nat, c, stack, vars, funs) + seq![
            InstrV::Label(func_label(d.name)),
        ] + stack_check_spec() + select(
            d.body,
            c + decls_labels(decls, (n - 1) as nat),
            stack + d.parameters.len(),
            with_params(vars, d.parameters, d.parameters.len(), stack),
            funs,
        ) + seq![InstrV::Ret]
    }
}

/// The code for a global function: its label, the entry check, its body with
/// the parameters in the first slots, and the return.
pub open spec fn select_function(f: SeqFunDeclV, c: nat) -> Seq<InstrV> {
    seq![InstrV::Label(func_label(f.name))] + stack_check_spec() + select(
        f.body,
        c,
        f.parameters.len() as int,
        with_params(Map::empty(), f.parameters, f.parameters.len(), 0),
        Map::empty(),
    ) + seq![InstrV::Ret]
}

/// The code for the main expression, and the return.
pub open spec fn select_main(e: SeqExpV, c: nat) -> Seq<InstrV> {
    select(e, c, 0, Map::empty(), Map::empty()) + seq![InstrV::Ret]
}

/// [`select_prim`] over the machine integers that the compiler holds.
pub open spec fn select_prim_at(p: Prim, args: Seq<ImmV>, c: u32, stack: i32, vars: Map<Name, i32>) -> Seq<
    InstrV,
> {
    select_prim(p, args, c as nat, stack as int, vars)
}

/// [`difference`] of the operands of a comparison, with its error label.
pub open spec fn comparison(args: Seq<ImmV>, vars: Map<Name, i32>, reverse: bool) -> Seq<InstrV> {
    difference(args, vars, reverse, crate::error_handler::CMP_ERROR@)
}

/// Whether every local function was declared with at most `stack` slots in
/// use.
pub open spec fn funs_within(funs: Map<Name, i32>, stack: int) -> bool {
    forall|f: Name| funs.contains_key(f) ==> 0 <= #[trigger] funs[f] <= stack
}

/// How many operands the code for a primitive reads.
pub open spec fn operands_read(p: Prim) -> nat {
    match p {
        Prim::Add | Prim::Sub | Prim::Mul | Prim::And | Prim::Or | Prim::Lt | Prim::Gt | Prim::Le
        | Prim::Ge | Prim::Eq | Prim::Neq | Prim::ArrayGet => 2,
        Prim::ArraySet => 3,
        Prim::MakeArray => 0,
        _ => 1,
    }
}

/// Whether an immediate is a literal or a variable in `vars`.
pub open spec fn imm_resolved(i: ImmV, vars: Set<Name>) -> bool {
    i matches ImmV::Var(x) ==> vars.contains(x)
}

/// [`imm_resolved`] of every immediate of a list.
pub open spec fn all_resolved(args: Seq<ImmV>, vars: Set<Name>) -> bool {
    forall|i: int| 0 <= i < args.len() ==> imm_resolved(#[trigger] args[i], vars)
}

/// The names of the functions of a group.
pub open spec fn group_names(decls: Seq<SeqFunDeclV>) -> Seq<Name> {
    Seq::new(decls.len(), |i: int| decls[i].name)
}

/// Whether instruction selection finds all that a tree refers to: every
/// variable that it reads is in `vars` or bound around the place where it is
/// read, every internal tail call goes to a function in `funs` or declared
/// around the call, and every primitive has the operands that its code
/// reads. Instruction selection is meant for such trees only.
pub open spec fn resolved(e: SeqExpV, vars: Set<Name>, funs: Set<Name>) -> bool
    decreases e,
{
    match e {
        SeqExpV::Imm(i) => imm_resolved(i, vars),
        SeqExpV::Prim(p, args) => operands_read(p) <= args.len() && all_resolved(args, vars),
        SeqExpV::MakeClosure { env, .. } => imm_resolved(env, vars),
        SeqExpV::Let { var, bound_exp, body } => resolved(*bound_exp, vars, funs) && resolved(
            *body,
            vars.insert(var),
            funs,
        ),
        SeqExpV::If { cond, thn, els } => imm_resolved(cond, vars) && resolved(*thn, vars, funs)
            && resolved(*els, vars, funs),
        SeqExpV::FunDefs { decls, body } => {
            let inner = funs.union(group_names(decls).to_set());
            (forall|i: int|
                0 <= i < decls.len() ==> resolved(
                    (#[trigger] decls[i]).body,
                    vars.union(decls[i].parameters.to_set()),
                    inner,
                )) && resolved(*body, vars, inner)
        },
        SeqExpV::InternalTailCall(f, args) => funs.contains(f) && all_resolved(args, vars),
        SeqExpV::ExternalCall { fun, args, .. } => (fun matches VarOrLabelV::Var(x)
            ==> vars.contains(x)) && all_resolved(args, vars),
    }
}

/// [`resolved`] of a global function: its body reads its parameters only.
pub open spec fn function_resolved(f: SeqFunDeclV) -> bool {
    resolved(f.body, f.parameters.to_set(), Set::empty())
}

/// The variables of a frame with parameters are those before and the
/// parameters.
pub proof fn lemma_with_params_dom(vars: Map<Name, i32>, params: Seq<Name>, n: nat, stack: int)
    requires
        n <= params.len(),
    ensures
        with_params(vars, params, n, stack).dom() == vars.dom().union(params.take(n as int).to_set()),
    decreases n,
{
    if n == 0 {
        assert(params.take(0).to_set() =~= Set::<Name>::empty());
        assert(vars.dom().union(Set::<Name>::empty()) =~= vars.dom());
    } else {
        lemma_with_params_dom(vars, params, (n - 1) as nat, stack);
        assert(params.take(n as int) =~= params.take(n - 1).push(params[n - 1]));
        params.take(n - 1).lemma_push_to_set_commute(params[n - 1]);
        assert(with_params(vars, params, n, stack).dom() =~= vars.dom().union(
            params.take(n as int).to_set(),
        ));
    }
}

/// The local functions after a group was declared are those before and the
/// functions of the group.
pub proof fn lemma_with_funs_dom(funs: Map<Name, i32>, decls: Seq<SeqFunDeclV>, n: nat, stack: int)
    requires
        n <= decls.len(),
    ensures
        with_funs(funs, decls, n, stack).dom() == funs.dom().union(
            group_names(decls).take(n as int).to_set(),
        ),
    decreases n,
{
    let names = group_names(decls);
    if n == 0 {
        assert(names.take(0).to_set() =~= Set::<Name>::empty());
        assert(funs.dom().union(Set::<Name>::empty()) =~= funs.dom());
    } else {
        lemma_with_funs_dom(funs, decls, (n - 1) as nat, stack);
        assert(names.take(n as int) =~= names.take(n - 1).push(names[n - 1]));
        names.take(n - 1).lemma_push_to_set_commute(names[n - 1]);
        assert(with_funs(funs, decls, n, stack).dom() =~= funs.dom().union(
            names.take(n as int).to_set(),
        ));
    }
}

/// Each step of a `concat_map` adds one piece at the end.
pub proof fn lemma_concat_map_step(n: nat, f: spec_fn(int) -> Seq<InstrV>)
    ensures
        concat_map(n + 1, f) == concat_map(n, f) + f(n as int),
{
}

/// The labels of a prefix of a group are among the labels of the group.
pub proof fn lemma_decls_labels_mono(decls: Seq<SeqFunDeclV>, i: nat, n: nat)
    requires
        i <= n <= decls.len(),
    ensures
        decls_labels(decls, i) <= decls_labels(decls, n),
    decreases n,
{
    if i < n {
        lemma_decls_labels_mono(decls, i, (n - 1) as nat);
    }
}

/// Each declaration of a group needs no more slots than the group.
pub proof fn lemma_decls_frame_need(decls: Seq<SeqFunDeclV>, i: nat, n: nat)
    requires
        i < n <= decls.len(),
    ensures
        decls[i as int].parameters.len() + frame_need(decls[i as int].body) <= decls_frame_need(
            decls,
            n,
        ),
    decreases n,
{
    if i + 1 < n {
        lemma_decls_frame_need(decls, i, (n - 1) as nat);
    }
}

/// Arities that fit in a group fit in each of its declarations.
pub proof fn lemma_decls_arities_fit(decls: Seq<SeqFunDeclV>, i: nat, n: nat)
    requires
        i < n <= decls.len(),
        decls_arities_fit(decls, n),
    ensures
        arities_fit(decls[i as int].body),
    decreases n,
{
    if i + 1 < n {
        lemma_decls_arities_fit(decls, i, (n - 1) as nat);
    }
}

} // verus!
