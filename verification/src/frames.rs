//! What holds of all emitted code: the stack pointer moves only around
//! calls, down by an amount that keeps every function entry aligned and back
//! up by the same amount.
//!
//! A function that is entered with the stack pointer at a multiple of 16
//! therefore makes every call with the stack pointer lowered by an odd
//! multiple of 8; the return address that the call pushes brings the callee
//! to a multiple of 16 again. A tail call jumps with the stack pointer of the
//! entry. The runtime's printer is called with the stack pointer at a
//! multiple of 16, as the C calling convention asks.

use vstd::prelude::*;
use crate::error_handler::stack_check_spec;
use crate::select::{MAX_FRAME, align_stack_spec, arithmetic, arithmetic1, array_access_spec, array_store, array_stores, bool_check, concat_map, decls_frame_need, difference, frame_call, frame_need, int_check, is_neg_spec, is_non_neg_spec, lemma_decls_frame_need, logic, make_closure_spec, marshal_arg, place_arg, save_arg, select, select_decls, select_function, select_main, select_prim, tail_call, with_funs, with_params, labels_needed, decls_labels, slot};
use crate::syntax::{ImmV, Name, Prim, SeqExpV, SeqFunDeclV, VarOrLabelV};
use crate::x86::{Arg32, BinArgs, InstrV, JmpArgV, MovArgs, Reg, label};

verus! {

/// Whether an instruction writes the stack pointer.
pub open spec fn writes_rsp(i: InstrV) -> bool {
    match i {
        InstrV::Mov(MovArgs::ToReg(Reg::Rsp, _)) => true,
        InstrV::RelativeLoadAddress(Reg::Rsp, _) => true,
        InstrV::Add(BinArgs::ToReg(Reg::Rsp, _)) => true,
        InstrV::Sub(BinArgs::ToReg(Reg::Rsp, _)) => true,
        InstrV::IMul(BinArgs::ToReg(Reg::Rsp, _)) => true,
        InstrV::And(BinArgs::ToReg(Reg::Rsp, _)) => true,
        InstrV::Or(BinArgs::ToReg(Reg::Rsp, _)) => true,
        InstrV::Xor(BinArgs::ToReg(Reg::Rsp, _)) => true,
        InstrV::Sar(BinArgs::ToReg(Reg::Rsp, _)) => true,
        InstrV::Shl(BinArgs::ToReg(Reg::Rsp, _)) => true,
        _ => false,
    }
}

/// The instruction that lowers the stack pointer by `n` bytes.
pub open spec fn lower(n: i32) -> InstrV {
    InstrV::Sub(BinArgs::ToReg(Reg::Rsp, Arg32::Signed(n)))
}

/// The instruction that raises the stack pointer by `n` bytes.
pub open spec fn raise(n: i32) -> InstrV {
    InstrV::Add(BinArgs::ToReg(Reg::Rsp, Arg32::Signed(n)))
}

/// What is left of an amount that keeps the callee aligned, divided by 16:
/// nothing for the runtime's printer, which pushes nothing we count, and 8
/// for compiled code.
pub open spec fn remainder(target: JmpArgV) -> int {
    if target == label("print_snake_val"@) {
        0
    } else {
        8
    }
}

/// Whether the instruction at index `i` leaves the stack pointer alone, or
/// belongs to a call that is framed: lowered before by the right amount, and
/// raised after by the same.
pub open spec fn framed_at(s: Seq<InstrV>, i: int) -> bool {
    match s[i] {
        InstrV::Call(target) => 0 < i && i + 1 < s.len() && exists|n: i32|
            n % 16 == remainder(target) && s[i - 1] == lower(n) && #[trigger] raise(n) == s[i + 1],
        _ => writes_rsp(s[i]) ==> (i + 1 < s.len() && s[i + 1] is Call && s[i] is Sub) || (0 < i
            && s[i - 1] is Call && s[i] is Add),
    }
}

/// Whether every call in a piece of code is framed and nothing else writes
/// the stack pointer.
pub open spec fn framed(s: Seq<InstrV>) -> bool {
    forall|i: int| 0 <= i < s.len() ==> #[trigger] framed_at(s, i)
}

/// Whether an instruction neither calls nor writes the stack pointer.
pub open spec fn quiet_instr(i: InstrV) -> bool {
    !(i is Call) && !writes_rsp(i)
}

/// Whether a piece of code neither calls nor writes the stack pointer.
pub open spec fn quiet(s: Seq<InstrV>) -> bool {
    forall|i: int| 0 <= i < s.len() ==> quiet_instr(#[trigger] s[i])
}

/// Code that neither calls nor writes the stack pointer is framed.
pub proof fn lemma_quiet_framed(s: Seq<InstrV>)
    requires
        quiet(s),
    ensures
        framed(s),
{
    assert forall|i: int| 0 <= i < s.len() implies #[trigger] framed_at(s, i) by {
        assert(quiet_instr(s[i]));
    }
}

/// Quiet code after quiet code is quiet.
pub proof fn lemma_quiet_add(a: Seq<InstrV>, b: Seq<InstrV>)
    requires
        quiet(a),
        quiet(b),
    ensures
        quiet(a + b),
{
    assert forall|i: int| 0 <= i < (a + b).len() implies quiet_instr(#[trigger] (a + b)[i]) by {
        if i < a.len() {
            assert((a + b)[i] == a[i]);
        } else {
            assert((a + b)[i] == b[i - a.len()]);
        }
    }
}

/// Framed code after framed code is framed.
pub proof fn lemma_framed_add(a: Seq<InstrV>, b: Seq<InstrV>)
    requires
        framed(a),
        framed(b),
    ensures
        framed(a + b),
{
    let s = a + b;
    assert forall|i: int| 0 <= i < s.len() implies #[trigger] framed_at(s, i) by {
        if i < a.len() {
            assert(framed_at(a, i));
            assert(s[i] == a[i]);
            if i > 0 {
                assert(s[i - 1] == a[i - 1]);
            }
            if i + 1 < a.len() {
                assert(s[i + 1] == a[i + 1]);
            }
        } else {
            let j = i - a.len();
            assert(framed_at(b, j));
            assert(s[i] == b[j]);
            if j > 0 {
                assert(s[i - 1] == b[j - 1]);
            }
            if j + 1 < b.len() {
                assert(s[i + 1] == b[j + 1]);
            }
        }
    }
}

/// Pieces that are all quiet make quiet code.
pub proof fn lemma_quiet_concat_map(n: nat, f: spec_fn(int) -> Seq<InstrV>)
    requires
        forall|i: int| 0 <= i < n ==> quiet(#[trigger] f(i)),
    ensures
        quiet(concat_map(n, f)),
    decreases n,
{
    if n > 0 {
        lemma_quiet_concat_map((n - 1) as nat, f);
        assert(quiet(f(n - 1)));
        lemma_quiet_add(concat_map((n - 1) as nat, f), f(n - 1));
    }
}

/// The checks on integers and booleans are quiet.
pub proof fn lemma_quiet_checks(reg: Reg, error: Name)
    ensures
        quiet(int_check(reg, error)),
        quiet(bool_check(reg, error)),
        quiet(is_neg_spec()),
        quiet(is_non_neg_spec()),
        quiet(stack_check_spec()),
{
}

/// The code for a comparison is quiet.
pub proof fn lemma_quiet_difference(args: Seq<ImmV>, vars: Map<Name, i32>, reverse: bool, error: Name)
    ensures
        quiet(difference(args, vars, reverse, error)),
{
    lemma_quiet_checks(Reg::Rax, error);
    lemma_quiet_checks(Reg::Rdx, error);
    let loads = if reverse {
        seq![
            crate::x86::mov_reg(Reg::Rdx, crate::select::operand(args, 0, vars)),
            crate::x86::mov_reg(Reg::Rax, crate::select::operand(args, 1, vars)),
        ]
    } else {
        seq![
            crate::x86::mov_reg(Reg::Rax, crate::select::operand(args, 0, vars)),
            crate::x86::mov_reg(Reg::Rdx, crate::select::operand(args, 1, vars)),
        ]
    };
    let tail = seq![
        InstrV::Sar(BinArgs::ToReg(Reg::Rax, Arg32::Signed(1))),
        InstrV::Sar(BinArgs::ToReg(Reg::Rdx, Arg32::Signed(1))),
        InstrV::Sub(BinArgs::ToReg(Reg::Rax, Arg32::Reg(Reg::Rdx))),
    ];
    lemma_quiet_add(loads, int_check(Reg::Rax, error));
    lemma_quiet_add(loads + int_check(Reg::Rax, error), int_check(Reg::Rdx, error));
    lemma_quiet_add(loads + int_check(Reg::Rax, error) + int_check(Reg::Rdx, error), tail);
}

/// The code for arithmetic and logic is quiet if the operation is.
#[verifier::rlimit(50)]
pub proof fn lemma_quiet_arithmetic(args: Seq<ImmV>, vars: Map<Name, i32>, op: Seq<InstrV>, one: InstrV)
    requires
        quiet(op),
        quiet_instr(one),
    ensures
        quiet(arithmetic(args, vars, op)),
        quiet(arithmetic1(args, vars, one)),
        quiet(logic(args, vars, one)),
{
    lemma_quiet_checks(Reg::Rax, crate::error_handler::ARITH_ERROR@);
    lemma_quiet_checks(Reg::Rdx, crate::error_handler::ARITH_ERROR@);
    lemma_quiet_checks(Reg::Rax, crate::error_handler::LOGIC_ERROR@);
    lemma_quiet_checks(Reg::Rdx, crate::error_handler::LOGIC_ERROR@);
    let a = seq![crate::x86::mov_reg(Reg::Rax, crate::select::operand(args, 0, vars))];
    let b = seq![crate::x86::mov_reg(Reg::Rdx, crate::select::operand(args, 1, vars))];
    let ia = int_check(Reg::Rax, crate::error_handler::ARITH_ERROR@);
    let id = int_check(Reg::Rdx, crate::error_handler::ARITH_ERROR@);
    let jo = seq![InstrV::Jo(label(crate::error_handler::OVERFLOW@))];
    lemma_quiet_add(a, ia);
    lemma_quiet_add(a + ia, b);
    lemma_quiet_add(a + ia + b, id);
    lemma_quiet_add(a + ia + b + id, op);
    lemma_quiet_add(a + ia + b + id + op, jo);
    let last = seq![one, InstrV::Jo(label(crate::error_handler::OVERFLOW@))];
    lemma_quiet_add(a + ia, last);
    let ba = bool_check(Reg::Rax, crate::error_handler::LOGIC_ERROR@);
    let bd = bool_check(Reg::Rdx, crate::error_handler::LOGIC_ERROR@);
    lemma_quiet_add(a, ba);
    lemma_quiet_add(a + ba, b);
    lemma_quiet_add(a + ba + b, bd);
    lemma_quiet_add(a + ba + b + bd, seq![one]);
}

/// The code for every primitive but `Print` is quiet.
#[verifier::rlimit(50)]
pub proof fn lemma_quiet_prim(p: Prim, args: Seq<ImmV>, c: nat, stack: int, vars: Map<Name, i32>)
    requires
        !(p is Print),
    ensures
        quiet(select_prim(p, args, c, stack, vars)),
{
    let add = InstrV::Add(BinArgs::ToReg(Reg::Rax, Arg32::Reg(Reg::Rdx)));
    let sub = InstrV::Sub(BinArgs::ToReg(Reg::Rax, Arg32::Reg(Reg::Rdx)));
    match p {
        Prim::Add => {
            lemma_quiet_arithmetic(args, vars, seq![add], add);
        },
        Prim::Sub => {
            lemma_quiet_arithmetic(args, vars, seq![sub], sub);
        },
        Prim::Mul => {
            lemma_quiet_arithmetic(
                args,
                vars,
                seq![
                    InstrV::Sar(BinArgs::ToReg(Reg::Rdx, Arg32::Signed(1))),
                    InstrV::IMul(BinArgs::ToReg(Reg::Rax, Arg32::Reg(Reg::Rdx))),
                ],
                add,
            );
        },
        Prim::Add1 => {
            lemma_quiet_arithmetic(
                args,
                vars,
                seq![add],
                InstrV::Add(BinArgs::ToReg(Reg::Rax, Arg32::Unsigned(2))),
            );
        },
        Prim::Sub1 => {
            lemma_quiet_arithmetic(
                args,
                vars,
                seq![add],
                InstrV::Sub(BinArgs::ToReg(Reg::Rax, Arg32::Unsigned(2))),
            );
        },
        Prim::And => {
            lemma_quiet_arithmetic(
                args,
                vars,
                seq![add],
                InstrV::And(BinArgs::ToReg(Reg::Rax, Arg32::Reg(Reg::Rdx))),
            );
        },
        Prim::Or => {
            lemma_quiet_arithmetic(
                args,
                vars,
                seq![add],
                InstrV::Or(BinArgs::ToReg(Reg::Rax, Arg32::Reg(Reg::Rdx))),
            );
        },
        Prim::Not => {
            lemma_quiet_checks(Reg::Rax, crate::error_handler::LOGIC_ERROR@);
            let a = seq![crate::x86::mov_reg(Reg::Rax, crate::select::operand(args, 0, vars))];
            lemma_quiet_add(a, bool_check(Reg::Rax, crate::error_handler::LOGIC_ERROR@));
            lemma_quiet_add(
                a + bool_check(Reg::Rax, crate::error_handler::LOGIC_ERROR@),
                seq![
                    crate::x86::mov_reg(Reg::Rdx, crate::x86::Arg64::Unsigned(crate::select::SIGN_BIT)),
                    InstrV::Xor(BinArgs::ToReg(Reg::Rax, Arg32::Reg(Reg::Rdx))),
                ],
            );
        },
        Prim::Lt | Prim::Ge => {
            lemma_quiet_difference(args, vars, false, crate::error_handler::CMP_ERROR@);
            lemma_quiet_checks(Reg::Rax, crate::error_handler::CMP_ERROR@);
            lemma_quiet_add(
                difference(args, vars, false, crate::error_handler::CMP_ERROR@),
                is_neg_spec(),
            );
            lemma_quiet_add(
                difference(args, vars, false, crate::error_handler::CMP_ERROR@),
                is_non_neg_spec(),
            );
        },
        Prim::Gt | Prim::Le => {
            lemma_quiet_difference(args, vars, true, crate::error_handler::CMP_ERROR@);
            lemma_quiet_checks(Reg::Rax, crate::error_handler::CMP_ERROR@);
            lemma_quiet_add(
                difference(args, vars, true, crate::error_handler::CMP_ERROR@),
                is_neg_spec(),
            );
            lemma_quiet_add(
                difference(args, vars, true, crate::error_handler::CMP_ERROR@),
                is_non_neg_spec(),
            );
        },
        Prim::MakeArray => {
            assert forall|i: int| 0 <= i < args.len() implies quiet(
                #[trigger] array_store(args, vars)(i),
            ) by {}
            lemma_quiet_concat_map(args.len(), array_store(args, vars));
            let head = seq![
                InstrV::Mov(
                    MovArgs::ToMem(
                        crate::x86::MemRef { reg: Reg::R15, offset: crate::x86::Offset::Constant(0) },
                        crate::x86::Reg32::Unsigned(args.len() as u32),
                    ),
                ),
            ];
            let tail = seq![
                crate::x86::mov_reg(Reg::Rax, crate::x86::Arg64::Reg(Reg::R15)),
                InstrV::Add(BinArgs::ToReg(Reg::Rax, Arg32::Unsigned(1))),
                InstrV::Add(BinArgs::ToReg(Reg::R15, Arg32::Unsigned((8 * (args.len() + 1)) as u32))),
            ];
            lemma_quiet_add(head, array_stores(args, vars));
            lemma_quiet_add(head + array_stores(args, vars), tail);
        },
        Prim::ArrayGet => {
            let access = array_access_spec(
                crate::select::operand(args, 0, vars),
                crate::select::operand(args, 1, vars),
            );
            assert(quiet(access));
            lemma_quiet_add(
                access,
                seq![crate::x86::mov_reg(Reg::Rax, crate::x86::Arg64::Mem(crate::select::element()))],
            );
        },
        Prim::ArraySet => {
            let access = array_access_spec(
                crate::select::operand(args, 0, vars),
                crate::select::operand(args, 1, vars),
            );
            assert(quiet(access));
            lemma_quiet_add(
                access,
                seq![
                    crate::x86::mov_reg(Reg::R9, crate::select::operand(args, 2, vars)),
                    InstrV::Mov(
                        MovArgs::ToMem(crate::select::element(), crate::x86::Reg32::Reg(Reg::R9)),
                    ),
                    InstrV::Add(BinArgs::ToReg(Reg::Rax, Arg32::Unsigned(1))),
                ],
            );
        },
        _ => {},
    }
}

/// The code for `Print` frames its call of the runtime.
pub proof fn lemma_framed_print(args: Seq<ImmV>, c: nat, stack: int, vars: Map<Name, i32>)
    requires
        0 <= stack <= MAX_FRAME,
    ensures
        framed(select_prim(Prim::Print, args, c, stack, vars)),
{
    let s = select_prim(Prim::Print, args, c, stack, vars);
    let n = (align_stack_spec(stack) + 8) as i32;
    assert(n % 16 == 0);
    assert forall|i: int| 0 <= i < s.len() implies #[trigger] framed_at(s, i) by {
        if i == 2 {
            assert(s[1] == lower(n) && raise(n) == s[3]);
        }
    }
}

/// A call that reuses the frame is quiet: it jumps.
pub proof fn lemma_quiet_tail_call(
    target: VarOrLabelV,
    args: Seq<ImmV>,
    stack: int,
    decl_stack: int,
    vars: Map<Name, i32>,
)
    ensures
        quiet(tail_call(target, args, stack, decl_stack, vars)),
{
    let n = args.len() as int;
    let top = crate::select::scratch_base(n, stack, decl_stack);
    let save = save_arg(args, top, vars);
    let place = place_arg(args, top, decl_stack, vars);
    assert forall|i: int| 0 <= i < args.len() implies quiet(#[trigger] save(i)) by {}
    assert forall|i: int| 0 <= i < args.len() implies quiet(#[trigger] place(i)) by {}
    lemma_quiet_concat_map(args.len(), save);
    lemma_quiet_concat_map(args.len(), place);
    let head: Seq<InstrV> = match target {
        VarOrLabelV::Var(x) => seq![
            crate::x86::mov_reg(
                Reg::Rax,
                crate::x86::mem(Reg::Rsp, crate::select::offset_of(vars, x)),
            ),
            crate::x86::mov_mem(Reg::Rsp, slot(top + n + 1), Reg::Rax),
        ],
        VarOrLabelV::Label(_) => Seq::empty(),
    };
    let tail: Seq<InstrV> = match target {
        VarOrLabelV::Var(_) => seq![
            crate::x86::mov_reg(Reg::Rax, crate::x86::mem(Reg::Rsp, slot(top + n + 1))),
            InstrV::Jmp(JmpArgV::Reg(Reg::Rax)),
        ],
        VarOrLabelV::Label(f) => seq![InstrV::Jmp(label(crate::select::func_label(f)))],
    };
    lemma_quiet_add(head, concat_map(args.len(), save));
    lemma_quiet_add(head + concat_map(args.len(), save), concat_map(args.len(), place));
    lemma_quiet_add(
        head + concat_map(args.len(), save) + concat_map(args.len(), place),
        tail,
    );
}

/// A call that sets up a new frame is framed.
pub proof fn lemma_framed_call(target: VarOrLabelV, args: Seq<ImmV>, stack: int, vars: Map<Name, i32>)
    requires
        0 <= stack <= MAX_FRAME,
    ensures
        framed(frame_call(target, args, stack, vars)),
{
    let stack_top = align_stack_spec(stack);
    let n = stack_top as i32;
    assert(n % 16 == 8);
    let marshal = marshal_arg(args, stack_top, vars);
    assert forall|i: int| 0 <= i < args.len() implies quiet(#[trigger] marshal(i)) by {}
    lemma_quiet_concat_map(args.len(), marshal);
    lemma_quiet_framed(concat_map(args.len(), marshal));
    let tail: Seq<InstrV> = match target {
        VarOrLabelV::Var(x) => seq![
            crate::x86::mov_reg(
                Reg::Rax,
                crate::x86::mem(Reg::Rsp, crate::select::offset_of(vars, x)),
            ),
            lower(n),
            InstrV::Call(JmpArgV::Reg(Reg::Rax)),
            raise(n),
        ],
        VarOrLabelV::Label(f) => seq![
            lower(n),
            InstrV::Call(label(crate::select::func_label(f))),
            raise(n),
        ],
    };
    lemma_func_label_is_no_runtime_name(target);
    assert forall|i: int| 0 <= i < tail.len() implies #[trigger] framed_at(tail, i) by {
        match target {
            VarOrLabelV::Var(_) => {
                if i == 2 {
                    assert(tail[1] == lower(n) && raise(n) == tail[3]);
                }
            },
            VarOrLabelV::Label(_) => {
                if i == 1 {
                    assert(tail[0] == lower(n) && raise(n) == tail[2]);
                }
            },
        }
    }
    lemma_framed_add(concat_map(args.len(), marshal), tail);
}

/// The label of a compiled function is never the name of the runtime's
/// printer.
pub proof fn lemma_func_label_is_no_runtime_name(target: VarOrLabelV)
    ensures
        target matches VarOrLabelV::Label(f) ==> label(crate::select::func_label(f)) != label(
            "print_snake_val"@,
        ),
{
    reveal_strlit("func_");
    reveal_strlit("print_snake_val");
    if let VarOrLabelV::Label(f) = target {
        let l = crate::select::func_label(f);
        assert(l[0] == 'f');
        assert("print_snake_val"@[0] == 'p');
    }
}

/// All code that instruction selection emits for an expression is framed.
#[verifier::rlimit(50)]
pub proof fn lemma_select_framed(
    e: SeqExpV,
    c: nat,
    stack: int,
    vars: Map<Name, i32>,
    funs: Map<Name, i32>,
)
    requires
        0 <= stack,
        stack + frame_need(e) <= MAX_FRAME,
    ensures
        framed(select(e, c, stack, vars, funs)),
    decreases e, 0nat,
{
    match e {
        SeqExpV::Imm(i) => {
            lemma_quiet_framed(select(e, c, stack, vars, funs));
        },
        SeqExpV::Prim(p, args) => {
            if p is Print {
                lemma_framed_print(args, c, stack, vars);
            } else {
                lemma_quiet_prim(p, args, c, stack, vars);
                lemma_quiet_framed(select(e, c, stack, vars, funs));
            }
        },
        SeqExpV::MakeClosure { arity, label, env } => {
            lemma_quiet_framed(make_closure_spec(arity, label, env, vars));
        },
        SeqExpV::Let { var, bound_exp, body } => {
            let a = select(*bound_exp, c, stack, vars, funs);
            let m = seq![crate::x86::mov_mem(Reg::Rsp, slot(stack + 1), Reg::Rax)];
            let b = select(
                *body,
                c + labels_needed(*bound_exp),
                stack + 1,
                vars.insert(var, slot(stack + 1)),
                funs,
            );
            lemma_select_framed(*bound_exp, c, stack, vars, funs);
            lemma_select_framed(
                *body,
                c + labels_needed(*bound_exp),
                stack + 1,
                vars.insert(var, slot(stack + 1)),
                funs,
            );
            lemma_quiet_framed(m);
            lemma_framed_add(a, m);
            lemma_framed_add(a + m, b);
        },
        SeqExpV::If { cond, thn, els } => {
            lemma_quiet_checks(Reg::Rax, crate::error_handler::IF_ERROR@);
            let head = seq![crate::x86::mov_reg(Reg::Rax, crate::select::imm_arg(cond, vars))]
                + bool_check(Reg::Rax, crate::error_handler::IF_ERROR@) + seq![
                crate::x86::mov_reg(Reg::Rdx, crate::x86::Arg64::Unsigned(crate::select::SNAKE_FLS)),
                InstrV::Cmp(BinArgs::ToReg(Reg::Rax, Arg32::Reg(Reg::Rdx))),
                InstrV::Je(label(crate::text::numbered("else_"@, c + 1))),
            ];
            lemma_quiet_add(
                seq![crate::x86::mov_reg(Reg::Rax, crate::select::imm_arg(cond, vars))],
                bool_check(Reg::Rax, crate::error_handler::IF_ERROR@),
            );
            lemma_quiet_add(
                seq![crate::x86::mov_reg(Reg::Rax, crate::select::imm_arg(cond, vars))] + bool_check(
                    Reg::Rax,
                    crate::error_handler::IF_ERROR@,
                ),
                seq![
                    crate::x86::mov_reg(
                        Reg::Rdx,
                        crate::x86::Arg64::Unsigned(crate::select::SNAKE_FLS),
                    ),
                    InstrV::Cmp(BinArgs::ToReg(Reg::Rax, Arg32::Reg(Reg::Rdx))),
                    InstrV::Je(label(crate::text::numbered("else_"@, c + 1))),
                ],
            );
            lemma_quiet_framed(head);
            let t = select(*thn, c + 1, stack, vars, funs);
            let mid = seq![
                InstrV::Jmp(label(crate::text::numbered("done_"@, c + 1))),
                InstrV::Label(crate::text::numbered("else_"@, c + 1)),
            ];
            let f = select(*els, c + 1 + labels_needed(*thn), stack, vars, funs);
            let end = seq![InstrV::Label(crate::text::numbered("done_"@, c + 1))];
            lemma_select_framed(*thn, c + 1, stack, vars, funs);
            lemma_select_framed(*els, c + 1 + labels_needed(*thn), stack, vars, funs);
            lemma_quiet_framed(mid);
            lemma_quiet_framed(end);
            lemma_framed_add(head, t);
            lemma_framed_add(head + t, mid);
            lemma_framed_add(head + t + mid, f);
            lemma_framed_add(head + t + mid + f, end);
        },
        SeqExpV::FunDefs { decls, body } => {
            let inner = with_funs(funs, decls, decls.len(), stack);
            let head = seq![InstrV::Jmp(label(crate::text::numbered("body_"@, c + 1)))];
            let d = select_decls(decls, decls.len(), c + 1, stack, vars, inner);
            let mid = seq![InstrV::Label(crate::text::numbered("body_"@, c + 1))];
            let b = select(*body, c + 1 + decls_labels(decls, decls.len()), stack, vars, inner);
            lemma_select_decls_framed(decls, decls.len(), c + 1, stack, vars, inner);
            lemma_select_framed(
                *body,
                c + 1 + decls_labels(decls, decls.len()),
                stack,
                vars,
                inner,
            );
            lemma_quiet_framed(head);
            lemma_quiet_framed(mid);
            lemma_framed_add(head, d);
            lemma_framed_add(head + d, mid);
            lemma_framed_add(head + d + mid, b);
        },
        SeqExpV::InternalTailCall(f, args) => {
            lemma_quiet_tail_call(
                VarOrLabelV::Label(f),
                args,
                stack,
                crate::select::offset_of(funs, f) as int,
                vars,
            );
            lemma_quiet_framed(select(e, c, stack, vars, funs));
        },
        SeqExpV::ExternalCall { fun, args, is_tail } => {
            if is_tail {
                lemma_quiet_tail_call(fun, args, stack, 0, vars);
                lemma_quiet_framed(select(e, c, stack, vars, funs));
            } else {
                lemma_framed_call(fun, args, stack, vars);
            }
        },
    }
}

/// All code that instruction selection emits for the local functions of a
/// group is framed.
pub proof fn lemma_select_decls_framed(
    decls: Seq<SeqFunDeclV>,
    n: nat,
    c: nat,
    stack: int,
    vars: Map<Name, i32>,
    funs: Map<Name, i32>,
)
    requires
        0 <= stack,
        n <= decls.len(),
        stack + decls_frame_need(decls, decls.len()) <= MAX_FRAME,
    ensures
        framed(select_decls(decls, n, c, stack, vars, funs)),
    decreases decls, n,
{
    if n == 0 {
        lemma_quiet_framed(select_decls(decls, n, c, stack, vars, funs));
    } else {
        let d = decls[n - 1];
        let prev = select_decls(decls, (n - 1) as nat, c, stack, vars, funs);
        let head = seq![InstrV::Label(crate::select::func_label(d.name))];
        let body = select(
            d.body,
            c + decls_labels(decls, (n - 1) as nat),
            stack + d.parameters.len(),
            with_params(vars, d.parameters, d.parameters.len(), stack),
            funs,
        );
        let end = seq![InstrV::Ret];
        lemma_select_decls_framed(decls, (n - 1) as nat, c, stack, vars, funs);
        lemma_decls_frame_need(decls, (n - 1) as nat, decls.len());
        lemma_select_framed(
            d.body,
            c + decls_labels(decls, (n - 1) as nat),
            stack + d.parameters.len(),
            with_params(vars, d.parameters, d.parameters.len(), stack),
            funs,
        );
        lemma_quiet_checks(Reg::Rax, d.name);
        lemma_quiet_framed(head);
        lemma_quiet_framed(stack_check_spec());
        lemma_quiet_framed(end);
        lemma_framed_add(prev, head);
        lemma_framed_add(prev + head, stack_check_spec());
        lemma_framed_add(prev + head + stack_check_spec(), body);
        lemma_framed_add(prev + head + stack_check_spec() + body, end);
    }
}

/// All code of a global function is framed: whenever it is entered with the
/// stack pointer at a multiple of 16, so is every function that it calls.
pub proof fn lemma_function_framed(f: SeqFunDeclV, c: nat)
    requires
        f.parameters.len() + frame_need(f.body) <= MAX_FRAME,
    ensures
        framed(select_function(f, c)),
{
    let head = seq![InstrV::Label(crate::select::func_label(f.name))];
    let body = select(
        f.body,
        c,
        f.parameters.len() as int,
        with_params(Map::empty(), f.parameters, f.parameters.len(), 0),
        Map::empty(),
    );
    let end = seq![InstrV::Ret];
    lemma_select_framed(
        f.body,
        c,
        f.parameters.len() as int,
        with_params(Map::empty(), f.parameters, f.parameters.len(), 0),
        Map::empty(),
    );
    lemma_quiet_checks(Reg::Rax, f.name);
    lemma_quiet_framed(head);
    lemma_quiet_framed(stack_check_spec());
    lemma_quiet_framed(end);
    lemma_framed_add(head, stack_check_spec());
    lemma_framed_add(head + stack_check_spec(), body);
    lemma_framed_add(head + stack_check_spec() + body, end);
}

/// All code of the main expression is framed.
pub proof fn lemma_main_framed(e: SeqExpV, c: nat)
    requires
        frame_need(e) <= MAX_FRAME,
    ensures
        framed(select_main(e, c)),
{
    let end = seq![InstrV::Ret];
    lemma_select_framed(e, c, 0, Map::empty(), Map::empty());
    lemma_quiet_framed(end);
    lemma_framed_add(select(e, c, 0, Map::empty(), Map::empty()), end);
}

} // verus!
