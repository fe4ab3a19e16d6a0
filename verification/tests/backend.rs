//! Instruction selection, the printer and the runtime's text, on small
//! inputs with known results.

use snake::reach::Walk;
use snake::resolve::is_resolved;
use snake::compile::{compile_func_to_instr, compile_to_instrs, compile_to_string, program_fits};
use snake::limits::{arities_ok, count_binders, count_fresh, count_labels, is_surface, measure_frame};
use snake::syntax::SeqProg;
use snake::error_handler::{error_handle_instr, stack_check};
use snake::runtime::{snake_error_message, sprint_snake_val, unsigned_to_signed, Heap};
use snake::syntax::{Exp, FunDecl, ImmExp, Prim, SeqExp, VarOrLabel};
use snake::table::{names_contain, names_insert, Table};
use snake::text::{decimal_string, hex_fixed_string, hex_string, numbered_string, signed_decimal_string};
use snake::x86::{
    instr_to_string, instrs_to_string, Arg32, Arg64, BinArgs, Instr, JmpArg, MemRef, MovArgs, Offset,
    Reg, Reg32,
};

const TRUE: u64 = 0xFFFF_FFFF_FFFF_FFFF;
const FALSE: u64 = 0x7FFF_FFFF_FFFF_FFFF;

fn s(x: &str) -> String {
    x.to_string()
}

fn mov(dst: Reg, src: Arg64) -> Instr {
    Instr::Mov(MovArgs::ToReg(dst, src))
}

fn store(base: Reg, offset: i32, src: Reg) -> Instr {
    Instr::Mov(MovArgs::ToMem(MemRef { reg: base, offset: Offset::Constant(offset) }, Reg32::Reg(src)))
}

fn load(base: Reg, offset: i32) -> Arg64 {
    Arg64::Mem(MemRef { reg: base, offset: Offset::Constant(offset) })
}

fn label(x: &str) -> JmpArg {
    JmpArg::Label(s(x))
}

fn imm(n: i64) -> SeqExp<()> {
    SeqExp::Imm(ImmExp::Num(n), ())
}

fn seq_var(x: &str) -> SeqExp<()> {
    SeqExp::Imm(ImmExp::Var(s(x)), ())
}

fn seq_let(x: &str, bound: SeqExp<()>, body: SeqExp<()>) -> SeqExp<()> {
    SeqExp::Let { var: s(x), bound_exp: Box::new(bound), body: Box::new(body), ann: () }
}

fn code(e: &SeqExp<()>) -> Vec<Instr> {
    let mut counter = 0;
    compile_to_instrs(e, &mut counter)
}

#[test]
fn numbers_in_decimal() {
    assert_eq!(decimal_string(0), "0");
    assert_eq!(decimal_string(7), "7");
    assert_eq!(decimal_string(10), "10");
    assert_eq!(decimal_string(3922), "3922");
    assert_eq!(decimal_string(u64::MAX), "18446744073709551615");
    assert_eq!(signed_decimal_string(0), "0");
    assert_eq!(signed_decimal_string(-1), "-1");
    assert_eq!(signed_decimal_string(i64::MAX), "9223372036854775807");
    assert_eq!(signed_decimal_string(i64::MIN), "-9223372036854775808");
    assert_eq!(numbered_string("#var_", 12), "#var_12");
}

#[test]
fn numbers_in_hexadecimal() {
    assert_eq!(hex_string(0), "0");
    assert_eq!(hex_string(255), "ff");
    assert_eq!(hex_string(0xdead_beef), "deadbeef");
    assert_eq!(hex_string(u64::MAX), "ffffffffffffffff");
    assert_eq!(hex_fixed_string(255, 8), "000000ff");
    assert_eq!(hex_fixed_string(0x1234, 2), "34");
    assert_eq!(hex_fixed_string(7, 0), "");
    assert_eq!(hex_fixed_string(FALSE, 16), "7fffffffffffffff");
}

#[test]
fn a_table_keeps_the_last_binding() {
    let mut t: Table<i32> = Table::new();
    assert_eq!(t.get(&s("x")), None);
    t.insert(s("x"), 1);
    t.insert(s("y"), 2);
    let before = t.copy();
    t.insert(s("x"), 3);
    assert_eq!(t.get(&s("x")), Some(3));
    assert_eq!(t.get(&s("y")), Some(2));
    assert_eq!(t.get(&s("z")), None);
    assert_eq!(before.get(&s("x")), Some(1));
}

#[test]
fn a_list_of_names_holds_a_name_once() {
    let mut names = vec![s("a")];
    names_insert(&mut names, s("b"));
    names_insert(&mut names, s("a"));
    assert_eq!(names, vec![s("a"), s("b")]);
    assert!(names_contain(&names, &s("b")));
    assert!(!names_contain(&names, &s("c")));
}

#[test]
fn instructions_as_text() {
    let cases = vec![
        (mov(Reg::Rax, Arg64::Signed(-2)), "        mov rax, -2"),
        (mov(Reg::Rdx, Arg64::Unsigned(FALSE)), "        mov rdx, 0x7fffffffffffffff"),
        (mov(Reg::R8, Arg64::Reg(Reg::Rsp)), "        mov r8, rsp"),
        (mov(Reg::Rax, load(Reg::Rsp, -16)), "        mov rax, QWORD [rsp + -16]"),
        (store(Reg::R15, 8, Reg::Rax), "        mov QWORD [r15 + 8], rax"),
        (
            Instr::Mov(MovArgs::ToMem(
                MemRef { reg: Reg::R15, offset: Offset::Constant(0) },
                Reg32::Unsigned(3),
            )),
            "        mov QWORD [r15 + 0], 0x00000003",
        ),
        (
            mov(
                Reg::Rax,
                Arg64::Mem(MemRef {
                    reg: Reg::Rax,
                    offset: Offset::Computed { reg: Reg::R8, factor: 8, constant: 8 },
                }),
            ),
            "        mov rax, QWORD [rax + r8*8 + 8]",
        ),
        (Instr::And(BinArgs::ToReg(Reg::Rcx, Arg32::Unsigned(7))), "        and rcx, 0x00000007"),
        (Instr::Add(BinArgs::ToReg(Reg::Rax, Arg32::Reg(Reg::Rdx))), "        add rax, rdx"),
        (Instr::Sub(BinArgs::ToReg(Reg::Rsp, Arg32::Signed(24))), "        sub rsp, 24"),
        (Instr::IMul(BinArgs::ToReg(Reg::Rax, Arg32::Reg(Reg::Rdx))), "        imul rax, rdx"),
        (Instr::Or(BinArgs::ToReg(Reg::Rax, Arg32::Reg(Reg::Rdx))), "        or rax, rdx"),
        (Instr::Xor(BinArgs::ToReg(Reg::Rax, Arg32::Reg(Reg::Rdx))), "        xor rax, rdx"),
        (Instr::Sar(BinArgs::ToReg(Reg::Rax, Arg32::Signed(1))), "        sar rax, 1"),
        (Instr::Shl(BinArgs::ToReg(Reg::Rax, Arg32::Signed(1))), "        shl rax, 1"),
        (
            Instr::Cmp(BinArgs::ToMem(
                MemRef { reg: Reg::Rax, offset: Offset::Constant(0) },
                Reg32::Reg(Reg::R8),
            )),
            "        cmp QWORD [rax + 0], r8",
        ),
        (Instr::RelativeLoadAddress(Reg::Rax, s("func_1")), "        lea rax, [rel func_1]"),
        (Instr::Label(s("func_1")), "func_1:"),
        (Instr::Ret, "        ret"),
        (Instr::Call(label("print_snake_val")), "        call print_snake_val"),
        (Instr::Call(JmpArg::Reg(Reg::Rax)), "        call rax"),
        (Instr::Jmp(JmpArg::Reg(Reg::Rax)), "        jmp rax"),
        (Instr::Jmp(label("a")), "        jmp a"),
        (Instr::Je(label("a")), "        je a"),
        (Instr::Jne(label("a")), "        jne a"),
        (Instr::Jl(label("a")), "        jl a"),
        (Instr::Jle(label("a")), "        jle a"),
        (Instr::Jo(label("a")), "        jo a"),
    ];
    for (i, text) in &cases {
        assert_eq!(instr_to_string(i), *text);
    }
    let all: Vec<Instr> = cases.iter().map(|(i, _)| i.clone()).collect();
    let lines: Vec<String> = cases.iter().map(|(_, t)| format!("{}\n", t)).collect();
    assert_eq!(instrs_to_string(&all), lines.concat());
    assert_eq!(instrs_to_string(&vec![]), "");
}

#[test]
fn the_entry_check_tests_the_stack_pointer() {
    assert_eq!(
        stack_check(),
        vec![
            mov(Reg::R8, Arg64::Reg(Reg::Rsp)),
            Instr::And(BinArgs::ToReg(Reg::R8, Arg32::Unsigned(15))),
            Instr::Cmp(BinArgs::ToReg(Reg::R8, Arg32::Unsigned(0))),
            Instr::Jne(label("stack_error")),
        ]
    );
}

#[test]
fn there_is_a_trampoline_for_every_error() {
    let table = [
        ("arith_error", 0, Reg::Rax),
        ("cmp_error", 1, Reg::Rax),
        ("overflow_error", 2, Reg::Rax),
        ("if_error", 3, Reg::Rax),
        ("logic_error", 4, Reg::Rax),
        ("non_array_error", 5, Reg::Rax),
        ("index_not_number", 6, Reg::R8),
        ("index_out_of_bounds", 7, Reg::R8),
        ("non_closure_error", 8, Reg::Rax),
        ("lambda_arity_error", 9, Reg::Rax),
        ("stack_error", 99, Reg::Rsp),
    ];
    let mut expected = Vec::new();
    for (name, code, value) in table {
        expected.push(Instr::Label(s(name)));
        expected.push(mov(Reg::Rdi, Arg64::Signed(code)));
        expected.push(mov(Reg::Rsi, Arg64::Reg(value)));
        expected.push(Instr::Call(label("snake_error")));
    }
    assert_eq!(error_handle_instr(), expected);
}

#[test]
fn immediates_are_tagged() {
    assert_eq!(code(&imm(5)), vec![mov(Reg::Rax, Arg64::Signed(10)), Instr::Ret]);
    assert_eq!(code(&imm(-3)), vec![mov(Reg::Rax, Arg64::Signed(-6)), Instr::Ret]);
    let max = 0x3FFF_FFFF_FFFF_FFFF;
    assert_eq!(code(&imm(max)), vec![mov(Reg::Rax, Arg64::Signed(i64::MAX - 1)), Instr::Ret]);
    assert_eq!(code(&imm(-max - 1)), vec![mov(Reg::Rax, Arg64::Signed(i64::MIN)), Instr::Ret]);
    assert_eq!(
        code(&SeqExp::Imm(ImmExp::Bool(true), ())),
        vec![mov(Reg::Rax, Arg64::Unsigned(TRUE)), Instr::Ret]
    );
    assert_eq!(
        code(&SeqExp::Imm(ImmExp::Bool(false), ())),
        vec![mov(Reg::Rax, Arg64::Unsigned(FALSE)), Instr::Ret]
    );
}

#[test]
fn a_let_takes_the_next_slot() {
    let e = seq_let("x", imm(1), seq_let("y", imm(2), seq_var("x")));
    assert_eq!(
        code(&e),
        vec![
            mov(Reg::Rax, Arg64::Signed(2)),
            store(Reg::Rsp, -8, Reg::Rax),
            mov(Reg::Rax, Arg64::Signed(4)),
            store(Reg::Rsp, -16, Reg::Rax),
            mov(Reg::Rax, load(Reg::Rsp, -8)),
            Instr::Ret,
        ]
    );
}

#[test]
fn a_binding_ends_with_its_let() {
    // let x = 5 in let y = (let x = 1 in x) in x: the last x is the first
    let inner = seq_let("y", seq_let("x", imm(1), seq_var("x")), seq_var("x"));
    let e = seq_let("x", imm(5), inner);
    assert_eq!(
        code(&e),
        vec![
            mov(Reg::Rax, Arg64::Signed(10)),
            store(Reg::Rsp, -8, Reg::Rax),
            mov(Reg::Rax, Arg64::Signed(2)),
            store(Reg::Rsp, -16, Reg::Rax),
            mov(Reg::Rax, load(Reg::Rsp, -16)),
            store(Reg::Rsp, -16, Reg::Rax),
            mov(Reg::Rax, load(Reg::Rsp, -8)),
            Instr::Ret,
        ]
    );
}

#[test]
fn a_tree_that_reads_what_nothing_binds_is_not_resolved() {
    let none: Vec<String> = Vec::new();
    // let y = (let x = 1 in x) in x: the outer x was never bound
    let e = seq_let("y", seq_let("x", imm(1), seq_var("x")), seq_var("x"));
    assert!(!is_resolved(&e, &none, &none));
    assert!(is_resolved(&e, &vec!["x".to_string()], &none));
    assert!(is_resolved(&seq_let("x", imm(1), seq_var("x")), &none, &none));
    // a primitive with an operand too few, and with one too many
    assert!(!is_resolved(&SeqExp::Prim(Prim::Add, vec![ImmExp::Num(1)], ()), &none, &none));
    let three = vec![ImmExp::Num(1), ImmExp::Num(2), ImmExp::Num(3)];
    assert!(is_resolved(&SeqExp::Prim(Prim::Add, three, ()), &none, &none));
    // a jump to a local function that nothing declares
    let jump = SeqExp::InternalTailCall("f".to_string(), vec![], ());
    assert!(!is_resolved(&jump, &none, &none));
    assert!(is_resolved(&jump, &none, &vec!["f".to_string()]));
}

#[test]
fn addition_checks_both_operands_and_the_result() {
    let e = SeqExp::Prim(Prim::Add, vec![ImmExp::Num(1), ImmExp::Num(2)], ());
    let check = |reg| {
        vec![
            mov(Reg::Rcx, Arg64::Reg(reg)),
            Instr::And(BinArgs::ToReg(Reg::Rcx, Arg32::Signed(1))),
            Instr::Cmp(BinArgs::ToReg(Reg::Rcx, Arg32::Signed(1))),
            Instr::Je(label("arith_error")),
        ]
    };
    let mut expected = vec![mov(Reg::Rax, Arg64::Signed(2))];
    expected.extend(check(Reg::Rax));
    expected.push(mov(Reg::Rdx, Arg64::Signed(4)));
    expected.extend(check(Reg::Rdx));
    expected.push(Instr::Add(BinArgs::ToReg(Reg::Rax, Arg32::Reg(Reg::Rdx))));
    expected.push(Instr::Jo(label("overflow_error")));
    expected.push(Instr::Ret);
    assert_eq!(code(&e), expected);
}

#[test]
fn a_new_array_advances_the_heap_pointer() {
    let e = SeqExp::Prim(Prim::MakeArray, vec![ImmExp::Num(7), ImmExp::Bool(true)], ());
    assert_eq!(
        code(&e),
        vec![
            Instr::Mov(MovArgs::ToMem(
                MemRef { reg: Reg::R15, offset: Offset::Constant(0) },
                Reg32::Unsigned(2),
            )),
            mov(Reg::Rax, Arg64::Signed(14)),
            store(Reg::R15, 8, Reg::Rax),
            mov(Reg::Rax, Arg64::Unsigned(TRUE)),
            store(Reg::R15, 16, Reg::Rax),
            mov(Reg::Rax, Arg64::Reg(Reg::R15)),
            Instr::Add(BinArgs::ToReg(Reg::Rax, Arg32::Unsigned(1))),
            Instr::Add(BinArgs::ToReg(Reg::R15, Arg32::Unsigned(24))),
            Instr::Ret,
        ]
    );
}

#[test]
fn a_closure_holds_code_arity_and_environment() {
    let e = SeqExp::MakeClosure { arity: 2, label: s("lambda_0"), env: ImmExp::Var(s("e")), ann: () };
    assert_eq!(
        code(&seq_let("e", imm(0), e)),
        vec![
            mov(Reg::Rax, Arg64::Signed(0)),
            store(Reg::Rsp, -8, Reg::Rax),
            Instr::RelativeLoadAddress(Reg::Rax, s("func_lambda_0")),
            store(Reg::R15, 0, Reg::Rax),
            mov(Reg::R8, Arg64::Unsigned(2)),
            store(Reg::R15, 8, Reg::R8),
            mov(Reg::R8, load(Reg::Rsp, -8)),
            store(Reg::R15, 16, Reg::R8),
            mov(Reg::Rax, Arg64::Reg(Reg::R15)),
            Instr::Add(BinArgs::ToReg(Reg::Rax, Arg32::Unsigned(3))),
            Instr::Add(BinArgs::ToReg(Reg::R15, Arg32::Unsigned(24))),
            Instr::Ret,
        ]
    );
}

#[test]
fn the_parts_of_a_closure_are_read_at_their_offsets() {
    let part = |p| code(&seq_let("c", imm(0), SeqExp::Prim(p, vec![ImmExp::Var(s("c"))], ())));
    assert_eq!(part(Prim::GetCode)[3], mov(Reg::Rax, load(Reg::Rax, 0)));
    assert_eq!(part(Prim::GetEnv)[3], mov(Reg::Rax, load(Reg::Rax, 16)));
    let check = part(Prim::CheckArityAndUntag(3));
    // the arity is compared before the tag is taken off, so that the error
    // reports the closure
    assert_eq!(check[7], mov(Reg::R8, load(Reg::Rax, 5)));
    assert_eq!(check[8], Instr::Cmp(BinArgs::ToReg(Reg::R8, Arg32::Unsigned(3))));
    assert_eq!(check[9], Instr::Jne(label("lambda_arity_error")));
    assert_eq!(check[10], Instr::Sub(BinArgs::ToReg(Reg::Rax, Arg32::Unsigned(3))));
}

fn call_of(is_tail: bool, args: Vec<ImmExp>) -> SeqExp<()> {
    SeqExp::ExternalCall { fun: VarOrLabel::Label(s("f")), args, is_tail, ann: () }
}

#[test]
fn a_call_lowers_the_stack_pointer_by_an_odd_multiple_of_8() {
    let zero = code(&call_of(false, vec![ImmExp::Num(1), ImmExp::Num(2)]));
    assert_eq!(
        zero,
        vec![
            mov(Reg::Rax, Arg64::Signed(2)),
            store(Reg::Rsp, -24, Reg::Rax),
            mov(Reg::Rax, Arg64::Signed(4)),
            store(Reg::Rsp, -32, Reg::Rax),
            Instr::Sub(BinArgs::ToReg(Reg::Rsp, Arg32::Signed(8))),
            Instr::Call(label("func_f")),
            Instr::Add(BinArgs::ToReg(Reg::Rsp, Arg32::Signed(8))),
            Instr::Ret,
        ]
    );
    for slots in 0..6 {
        let mut e = call_of(false, vec![]);
        for i in 0..slots {
            e = seq_let(&format!("x{}", i), imm(0), e);
        }
        let is = code(&e);
        let amount = if slots % 2 == 0 { 8 * (slots + 1) } else { 8 * slots };
        let at = is.len() - 4;
        assert_eq!(is[at], Instr::Sub(BinArgs::ToReg(Reg::Rsp, Arg32::Signed(amount))));
        assert_eq!(is[at + 1], Instr::Call(label("func_f")));
        assert_eq!(is[at + 2], Instr::Add(BinArgs::ToReg(Reg::Rsp, Arg32::Signed(amount))));
        assert_eq!(amount % 16, 8);
    }
}

#[test]
fn the_printer_is_called_with_an_aligned_stack() {
    for slots in 0..6 {
        let mut e = SeqExp::Prim(Prim::Print, vec![ImmExp::Num(1)], ());
        for i in 0..slots {
            e = seq_let(&format!("x{}", i), imm(0), e);
        }
        let is = code(&e);
        let amount = if slots % 2 == 0 { 8 * (slots + 1) + 8 } else { 8 * slots + 8 };
        let at = is.len() - 4;
        assert_eq!(is[at - 1], mov(Reg::Rdi, Arg64::Signed(2)));
        assert_eq!(is[at], Instr::Sub(BinArgs::ToReg(Reg::Rsp, Arg32::Signed(amount))));
        assert_eq!(is[at + 1], Instr::Call(label("print_snake_val")));
        assert_eq!(is[at + 2], Instr::Add(BinArgs::ToReg(Reg::Rsp, Arg32::Signed(amount))));
        assert_eq!(amount % 16, 0);
    }
}

#[test]
fn a_tail_call_saves_variables_before_it_overwrites_slots() {
    // with a and b in slots 1 and 2: f(5, a, b) in tail position
    let e = seq_let(
        "a",
        imm(1),
        seq_let(
            "b",
            imm(2),
            call_of(true, vec![ImmExp::Num(5), ImmExp::Var(s("a")), ImmExp::Var(s("b"))]),
        ),
    );
    let is = code(&e);
    assert_eq!(
        is[4..],
        [
            // the scratch zone starts behind slot 3
            mov(Reg::Rax, load(Reg::Rsp, -8)),
            store(Reg::Rsp, -40, Reg::Rax),
            mov(Reg::Rax, load(Reg::Rsp, -16)),
            store(Reg::Rsp, -48, Reg::Rax),
            mov(Reg::Rax, Arg64::Signed(10)),
            store(Reg::Rsp, -8, Reg::Rax),
            mov(Reg::Rax, load(Reg::Rsp, -40)),
            store(Reg::Rsp, -16, Reg::Rax),
            mov(Reg::Rax, load(Reg::Rsp, -48)),
            store(Reg::Rsp, -24, Reg::Rax),
            Instr::Jmp(label("func_f")),
            Instr::Ret,
        ]
    );
}

#[test]
fn a_global_function_finds_its_parameters_in_the_first_slots() {
    let f = FunDecl {
        name: s("7"),
        parameters: vec![s("a"), s("b")],
        body: seq_let("c", seq_var("b"), seq_var("a")),
        ann: (),
    };
    let mut counter = 0;
    let mut expected = vec![Instr::Label(s("func_7"))];
    expected.extend(stack_check());
    expected.extend(vec![
        mov(Reg::Rax, load(Reg::Rsp, -16)),
        store(Reg::Rsp, -24, Reg::Rax),
        mov(Reg::Rax, load(Reg::Rsp, -8)),
        Instr::Ret,
    ]);
    assert_eq!(compile_func_to_instr(&f, &mut counter), expected);
    assert_eq!(counter, 0);
}

#[test]
fn labels_are_numbered_by_one_counter() {
    let test = |x| SeqExp::Prim(Prim::IsNum, vec![ImmExp::Num(x)], ());
    let e = SeqExp::If {
        cond: ImmExp::Bool(true),
        thn: Box::new(test(1)),
        els: Box::new(test(2)),
        ann: (),
    };
    let mut counter = 4;
    let is = compile_to_instrs(&e, &mut counter);
    assert_eq!(counter, 7);
    let labels: Vec<&str> = is
        .iter()
        .filter_map(|i| match i {
            Instr::Label(l) => Some(l.as_str()),
            _ => None,
        })
        .collect();
    assert_eq!(labels, vec!["false_6", "test_done_6", "else_5", "false_7", "test_done_7", "done_5"]);
}

#[test]
fn a_local_function_is_jumped_over_and_jumped_to() {
    let f = FunDecl { name: s("f"), parameters: vec![s("n")], body: seq_var("n"), ann: () };
    let e = seq_let(
        "a",
        imm(1),
        SeqExp::FunDefs {
            decls: vec![f],
            body: Box::new(SeqExp::InternalTailCall(s("f"), vec![ImmExp::Var(s("a"))], ())),
            ann: (),
        },
    );
    let mut expected = vec![
        mov(Reg::Rax, Arg64::Signed(2)),
        store(Reg::Rsp, -8, Reg::Rax),
        Instr::Jmp(label("body_1")),
        Instr::Label(s("func_f")),
    ];
    expected.extend(stack_check());
    expected.extend(vec![
        mov(Reg::Rax, load(Reg::Rsp, -16)),
        Instr::Ret,
        Instr::Label(s("body_1")),
        mov(Reg::Rax, load(Reg::Rsp, -8)),
        store(Reg::Rsp, -24, Reg::Rax),
        mov(Reg::Rax, load(Reg::Rsp, -24)),
        store(Reg::Rsp, -16, Reg::Rax),
        Instr::Jmp(label("func_f")),
        Instr::Ret,
    ]);
    assert_eq!(code(&e), expected);
}

#[test]
fn the_text_of_the_smallest_program() {
    let text = compile_to_string(&Exp::Num(1, ())).unwrap();
    let mut expected = String::new();
    expected.push_str("section .data\n        HEAP:    times 1024 dq 0\nsection .text\n");
    expected.push_str("        global start_here\n        extern snake_error\n");
    expected.push_str("        extern print_snake_val\n");
    expected.push_str(&instrs_to_string(&error_handle_instr()));
    expected.push_str("\n\nstart_here:\n        push r15\n        sub rsp, 8\n");
    expected.push_str("        lea r15, [rel HEAP]\n        add r15, 7\n");
    expected.push_str("        mov r8, 0xfffffffffffffff8\n        and r15, r8\n");
    expected.push_str("        call main\n        add rsp, 8\n        pop r15\n        ret\nmain:\n");
    expected.push_str(&instrs_to_string(&stack_check()));
    expected.push_str("\n        mov rax, 2\n        ret\n\n");
    assert_eq!(text, expected);
}

fn heap(words: Vec<u64>) -> Heap {
    Heap { base: 0x1000, words }
}

#[test]
fn values_as_text() {
    let h = heap(vec![]);
    assert_eq!(sprint_snake_val(0, &h), "0");
    assert_eq!(sprint_snake_val(8, &h), "4");
    assert_eq!(sprint_snake_val((-6i64) as u64, &h), "-3");
    assert_eq!(sprint_snake_val(0x7FFF_FFFF_FFFF_FFFE, &h), "4611686018427387903");
    assert_eq!(sprint_snake_val(0x8000_0000_0000_0000, &h), "-4611686018427387904");
    assert_eq!(sprint_snake_val(TRUE, &h), "true");
    assert_eq!(sprint_snake_val(FALSE, &h), "false");
    assert_eq!(sprint_snake_val(0x2003, &h), "<closure>");
    assert_eq!(sprint_snake_val(0x2005, &h), "Invalid snake value 0x2005");
    assert_eq!(sprint_snake_val(0x2007, &h), "Invalid snake value 0x2007");
    assert_eq!(sprint_snake_val(0x0fff_ffff_ffff_ffff, &h), "Invalid snake value 0xfffffffffffffff");
}

#[test]
fn arrays_as_text() {
    // at 0x1000 an array of 1, the array at 0x1020 and true; at 0x1020 an
    // empty array; at 0x1028 an array that holds itself twice
    let h = heap(vec![3, 2, 0x1021, TRUE, 0, 2, 0x1029, 0x1029]);
    assert_eq!(sprint_snake_val(0x1001, &h), "[1, [], true]");
    assert_eq!(sprint_snake_val(0x1021, &h), "[]");
    assert_eq!(sprint_snake_val(0x1029, &h), "[<loop>, <loop>]");
    // an array behind the heap, one that is not at a quadword, one that is too long
    assert_eq!(sprint_snake_val(0x1041, &h), "Invalid snake value 0x1041");
    assert_eq!(sprint_snake_val(0x0ff9, &h), "Invalid snake value 0xff9");
    let long = heap(vec![2, 0]);
    assert_eq!(sprint_snake_val(0x1001, &long), "Invalid snake value 0x1001");
}

#[test]
fn the_bytes_of_a_word_as_a_signed_number() {
    assert_eq!(unsigned_to_signed(0), 0);
    assert_eq!(unsigned_to_signed(5), 5);
    assert_eq!(unsigned_to_signed(u64::MAX), -1);
    assert_eq!(unsigned_to_signed(0x8000_0000_0000_0000), i64::MIN);
    assert_eq!(unsigned_to_signed(0x7FFF_FFFF_FFFF_FFFF), i64::MAX);
}

#[test]
fn what_the_runtime_says_of_each_error() {
    let h = heap(vec![1, 4]);
    let cases = [
        (0, "arithmetic expected a number true"),
        (1, "comparison expected a number true"),
        (2, "overflow true"),
        (3, "if expected a boolean true"),
        (4, "logic expected a boolean true"),
        (5, "not an array address true"),
        (6, "index not a number: true"),
        (7, "index out of bounds: true"),
        (8, "called a non-function true"),
        (9, "wrong number of arguments for lambda: true"),
        (99, "stack error: ffffffffffffffff"),
        (10, "Unknown error 10"),
    ];
    for (code, text) in cases {
        assert_eq!(snake_error_message(code, TRUE, &h), text);
    }
    assert_eq!(snake_error_message(5, 0x1001, &h), "not an array address [2]");
}

#[test]
fn measures_are_taken_up_to_a_limit() {
    let bind = |x: &str, v, body| Exp::Let { bindings: vec![(s(x), v)], body: Box::new(body), ann: () };
    let three = bind("a", Exp::Num(1, ()), bind("b", Exp::Num(2, ()), bind("c", Exp::Num(3, ()), Exp::Num(4, ()))));
    assert_eq!(count_binders(&three, 10), Some(3));
    assert_eq!(count_binders(&three, 3), Some(3));
    assert_eq!(count_binders(&three, 2), None);
    let lambda = Exp::Lambda { parameters: vec![s("x"), s("y")], body: Box::new(three), ann: () };
    assert_eq!(count_binders(&lambda, 10), Some(5));
    let nested = Exp::Prim(
        Prim::Add,
        vec![Exp::Prim(Prim::Add1, vec![Exp::Num(1, ())], ()), Exp::Num(2, ()), Exp::Prim(Prim::Sub1, vec![Exp::Num(3, ())], ())],
        (),
    );
    assert_eq!(count_fresh(&nested, 10), Some(2));
    assert_eq!(count_fresh(&nested, 1), None);
    assert!(is_surface(&nested));
    assert!(!is_surface(&Exp::DirectCall(s("f"), vec![], ())));
}

#[test]
fn frames_and_labels_are_measured() {
    let test = |x| SeqExp::Prim(Prim::IsNum, vec![ImmExp::Num(x)], ());
    let e = seq_let("a", test(1), seq_let("b", test(2), call_of(false, vec![ImmExp::Num(1), ImmExp::Num(2)])));
    assert_eq!(count_labels(&e, 10), Some(2));
    assert_eq!(count_labels(&e, 1), None);
    // two slots for the bindings and seven for the call
    assert_eq!(measure_frame(&e, 100), Some(9));
    assert_eq!(measure_frame(&e, 8), None);
    assert!(arities_ok(&e));
    let check = SeqExp::Prim(Prim::CheckArityAndUntag(usize::MAX), vec![ImmExp::Num(0)], ());
    assert!(!arities_ok(&seq_let("a", imm(1), check)));
    let ok = SeqProg { funs: vec![], main: e, ann: () };
    assert!(program_fits(&ok));
    let arity = SeqExp::Prim(Prim::CheckArityAndUntag(usize::MAX), vec![ImmExp::Num(0)], ());
    let not_ok = SeqProg {
        funs: vec![FunDecl { name: s("f"), parameters: vec![], body: arity, ann: () }],
        main: imm(0),
        ann: (),
    };
    assert!(!program_fits(&not_ok));
}

#[test]
fn the_walk_reads_each_array_once_and_covers_what_it_read() {
    // an array of two at 0x1000 that holds itself and the number 3
    let mut walk = Walk::new(0x1001);
    assert_eq!(walk.next(), Some(0x1001));
    walk.record(0x1001, 2, &vec![0x1001, 6]);
    assert_eq!(walk.pending, vec![0x1001, 6]);
    // the number is no array, and the array was met
    assert_eq!(walk.next(), None);
    assert_eq!(walk.seen, vec![0x1001]);
    assert_eq!((walk.first, walk.end), (0x1000, 0x1018));
    assert_eq!(walk.addresses(), vec![0x1000, 0x1008, 0x1010]);
}

#[test]
fn the_walk_follows_arrays_in_arrays_and_nothing_else() {
    let mut walk = Walk::new(0x2001);
    assert_eq!(walk.next(), Some(0x2001));
    // it holds a closure, a boolean and another array below it
    walk.record(0x2001, 3, &vec![0x3003, u64::MAX, 0x1001]);
    assert_eq!(walk.next(), Some(0x1001));
    assert_eq!(walk.pending, vec![0x3003, u64::MAX]);
    walk.record(0x1001, 0, &vec![]);
    assert_eq!(walk.next(), None);
    assert_eq!((walk.first, walk.end), (0x1000, 0x2020));
    assert_eq!(walk.addresses().len(), 0x1020 / 8);
    // a value that is no array reaches nothing
    let mut none = Walk::new(10);
    assert_eq!(none.next(), None);
    assert_eq!(none.addresses(), Vec::<u64>::new());
    // an array whose end lies beyond the address space is not followed
    let mut far = Walk::new(u64::MAX - 6);
    assert_eq!(far.next(), Some(u64::MAX - 6));
    far.record(u64::MAX - 6, 5, &vec![0x1001]);
    assert_eq!(far.pending, Vec::<u64>::new());
    assert_eq!(far.addresses(), Vec::<u64>::new());
}
