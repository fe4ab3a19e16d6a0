//! Whole programs: each is compiled to NASM text, the text is read back and
//! run on a small model of the machine, and what it prints is compared.

use snake::compile::{compile, compile_to_string, Refusal};
use snake::errors::CompileErr;
use snake::runtime::{snake_error_message, sprint_snake_val, Heap};
use snake::syntax::{Exp, FunDecl, Prim};
use std::collections::HashMap;

const HEAP_BASE: u64 = 0x0010_0000;
const HEAP_WORDS: u64 = 1024;
const STACK_TOP: u64 = 0x7000_0000;
const CODE_BASE: u64 = 0x0040_0000;
const EXIT: u64 = 0xdead_0000;
const RSP: usize = 6;
const RAX: usize = 0;
const RDI: usize = 5;
const RSI: usize = 4;

#[derive(Clone, Debug)]
enum Operand {
    Reg(usize),
    Imm(u64),
    Mem { base: usize, index: Option<(usize, u64)>, disp: i64 },
    Label(String),
}

#[derive(Clone, Debug)]
struct Line {
    op: String,
    args: Vec<Operand>,
}

fn reg_index(name: &str) -> Option<usize> {
    let names = [
        "rax", "rbx", "rdx", "rcx", "rsi", "rdi", "rsp", "rbp", "r8", "r9", "r10", "r11", "r12",
        "r13", "r14", "r15",
    ];
    names.iter().position(|n| *n == name)
}

fn parse_number(text: &str) -> u64 {
    if let Some(hex) = text.strip_prefix("0x") {
        u64::from_str_radix(hex, 16).unwrap()
    } else {
        text.parse::<i64>().unwrap() as u64
    }
}

fn parse_operand(text: &str) -> Operand {
    let text = text.trim();
    if let Some(r) = reg_index(text) {
        return Operand::Reg(r);
    }
    if let Some(inner) = text.strip_prefix("[rel ") {
        return Operand::Label(inner.trim_end_matches(']').to_string());
    }
    if let Some(inner) = text.strip_prefix("QWORD [") {
        let inner = inner.trim_end_matches(']');
        let parts: Vec<&str> = inner.split(" + ").collect();
        let base = reg_index(parts[0]).unwrap();
        if parts.len() == 2 {
            return Operand::Mem { base, index: None, disp: parts[1].parse::<i64>().unwrap() };
        }
        let scaled: Vec<&str> = parts[1].split('*').collect();
        let index = (reg_index(scaled[0]).unwrap(), scaled[1].parse::<u64>().unwrap());
        return Operand::Mem { base, index: Some(index), disp: parts[2].parse::<i64>().unwrap() };
    }
    let first = text.chars().next().unwrap();
    if first.is_ascii_digit() || first == '-' {
        return Operand::Imm(parse_number(text));
    }
    Operand::Label(text.to_string())
}

fn parse_program(text: &str) -> (Vec<Line>, HashMap<String, usize>) {
    let mut lines = Vec::new();
    let mut labels = HashMap::new();
    for raw in text.lines() {
        let line = raw.trim();
        if line.is_empty()
            || line.starts_with("section")
            || line.starts_with("global")
            || line.starts_with("extern")
            || line.starts_with("HEAP:")
        {
            continue;
        }
        if let Some(name) = line.strip_suffix(':') {
            assert!(!raw.starts_with(' '), "label is indented: {}", raw);
            assert!(labels.insert(name.to_string(), lines.len()).is_none(), "label twice: {}", name);
            continue;
        }
        assert!(raw.starts_with("        "), "instruction is not indented: {}", raw);
        let (op, rest) = match line.split_once(' ') {
            Some((op, rest)) => (op, rest),
            None => (line, ""),
        };
        let args = if rest.is_empty() {
            Vec::new()
        } else {
            rest.split(", ").map(parse_operand).collect()
        };
        lines.push(Line { op: op.to_string(), args });
    }
    (lines, labels)
}

struct Machine {
    regs: [u64; 16],
    zf: bool,
    sf: bool,
    of: bool,
    mem: HashMap<u64, u64>,
    out: String,
}

impl Machine {
    fn address(&self, base: usize, index: &Option<(usize, u64)>, disp: i64) -> u64 {
        let mut a = self.regs[base];
        if let Some((r, factor)) = index {
            a = a.wrapping_add(self.regs[*r].wrapping_mul(*factor));
        }
        a.wrapping_add(disp as u64)
    }

    fn load(&self, address: u64) -> u64 {
        assert!(address % 8 == 0, "load from {:x}", address);
        *self.mem.get(&address).unwrap_or(&0)
    }

    fn store(&mut self, address: u64, value: u64) {
        assert!(address % 8 == 0, "store to {:x}", address);
        let in_heap = address >= HEAP_BASE && address < HEAP_BASE + 8 * HEAP_WORDS;
        let in_stack = address < STACK_TOP && address >= STACK_TOP - 0x0100_0000;
        assert!(in_heap || in_stack, "store to {:x}", address);
        self.mem.insert(address, value);
    }

    fn read(&self, o: &Operand, labels: &HashMap<String, usize>) -> u64 {
        match o {
            Operand::Reg(r) => self.regs[*r],
            Operand::Imm(v) => *v,
            Operand::Mem { base, index, disp } => self.load(self.address(*base, index, *disp)),
            Operand::Label(l) => {
                if l == "HEAP" {
                    HEAP_BASE
                } else {
                    CODE_BASE + 8 * (labels[l] as u64)
                }
            }
        }
    }

    fn write(&mut self, o: &Operand, value: u64) {
        match o {
            Operand::Reg(r) => self.regs[*r] = value,
            Operand::Mem { base, index, disp } => {
                let a = self.address(*base, index, *disp);
                self.store(a, value)
            }
            _ => panic!("write to {:?}", o),
        }
    }

    fn flags(&mut self, result: u64, overflow: bool) {
        self.zf = result == 0;
        self.sf = (result as i64) < 0;
        self.of = overflow;
    }

    fn heap(&self) -> Heap {
        let words = (0..HEAP_WORDS).map(|i| self.load(HEAP_BASE + 8 * i)).collect();
        Heap { base: HEAP_BASE, words }
    }

    fn push(&mut self, value: u64) {
        self.regs[RSP] -= 8;
        let a = self.regs[RSP];
        self.store(a, value);
    }

    fn pop(&mut self) -> u64 {
        let v = self.load(self.regs[RSP]);
        self.regs[RSP] += 8;
        v
    }
}

/// Runs NASM text as the runtime would: calls `start_here`, then prints what
/// came back. `Ok` holds standard output, `Err` what the runtime says of an
/// error.
fn execute(text: &str) -> Result<String, String> {
    let (lines, labels) = parse_program(text);
    let mut m = Machine {
        regs: [0; 16],
        zf: false,
        sf: false,
        of: false,
        mem: HashMap::new(),
        out: String::new(),
    };
    m.regs[RSP] = STACK_TOP;
    m.push(EXIT);
    let mut pc = labels["start_here"];
    let mut steps = 0;
    loop {
        steps += 1;
        assert!(steps < 20_000_000, "the program does not end");
        let line = lines[pc].clone();
        pc += 1;
        let op = line.op.as_str();
        match op {
            "mov" => {
                let v = m.read(&line.args[1], &labels);
                m.write(&line.args[0], v);
            }
            "lea" => {
                let v = m.read(&line.args[1], &labels);
                m.write(&line.args[0], v);
            }
            "add" | "sub" | "cmp" | "imul" | "and" | "or" | "xor" | "sar" | "shl" => {
                let a = m.read(&line.args[0], &labels);
                let b = m.read(&line.args[1], &labels);
                let (r, o) = match op {
                    "add" => {
                        let (r, o) = (a as i64).overflowing_add(b as i64);
                        (r as u64, o)
                    }
                    "sub" | "cmp" => {
                        let (r, o) = (a as i64).overflowing_sub(b as i64);
                        (r as u64, o)
                    }
                    "imul" => {
                        let (r, o) = (a as i64).overflowing_mul(b as i64);
                        (r as u64, o)
                    }
                    "and" => (a & b, false),
                    "or" => (a | b, false),
                    "xor" => (a ^ b, false),
                    "sar" => (((a as i64) >> b) as u64, false),
                    _ => (a << b, false),
                };
                m.flags(r, o);
                if op != "cmp" {
                    m.write(&line.args[0], r);
                }
            }
            "push" => {
                let v = m.read(&line.args[0], &labels);
                m.push(v);
            }
            "pop" => {
                let v = m.pop();
                m.write(&line.args[0], v);
            }
            "ret" => {
                let to = m.pop();
                if to == EXIT {
                    break;
                }
                pc = ((to - CODE_BASE) / 8) as usize;
            }
            "call" | "jmp" | "je" | "jne" | "jl" | "jle" | "jo" => {
                let taken = match op {
                    "je" => m.zf,
                    "jne" => !m.zf,
                    "jl" => m.sf != m.of,
                    "jle" => m.zf || m.sf != m.of,
                    "jo" => m.of,
                    _ => true,
                };
                if !taken {
                    continue;
                }
                if let Operand::Label(l) = &line.args[0] {
                    if l == "print_snake_val" {
                        assert!(m.regs[RSP] % 16 == 0, "the runtime is called with a stack that is not aligned");
                        let v = m.regs[RDI];
                        let printed = sprint_snake_val(v, &m.heap());
                        m.out.push_str(&printed);
                        m.out.push('\n');
                        m.regs[RAX] = v;
                        continue;
                    }
                    if l == "snake_error" {
                        return Err(snake_error_message(m.regs[RDI], m.regs[RSI], &m.heap()));
                    }
                }
                let target = match &line.args[0] {
                    Operand::Label(l) => labels[l],
                    other => ((m.read(other, &labels) - CODE_BASE) / 8) as usize,
                };
                if op == "call" {
                    m.push(CODE_BASE + 8 * (pc as u64));
                }
                pc = target;
            }
            _ => panic!("unknown instruction {}", op),
        }
    }
    assert_eq!(m.regs[RSP], STACK_TOP, "the stack pointer is not restored");
    let last = sprint_snake_val(m.regs[RAX], &m.heap());
    m.out.push_str(&last);
    m.out.push('\n');
    Ok(m.out)
}

fn run(p: &Exp<()>) -> Result<String, String> {
    match compile(p) {
        Ok(text) => execute(&text),
        Err(e) => panic!("the program is refused: {:?}", e),
    }
}

fn prints(p: &Exp<()>, expected: &str) {
    assert_eq!(run(p), Ok(format!("{}\n", expected)));
}

fn fails(p: &Exp<()>, expected: &str) {
    match run(p) {
        Ok(out) => panic!("the program prints {:?}", out),
        Err(message) => assert!(message.starts_with(expected), "the error is {:?}", message),
    }
}

fn num(n: i64) -> Exp<()> {
    Exp::Num(n, ())
}

fn boolean(b: bool) -> Exp<()> {
    Exp::Bool(b, ())
}

fn var(x: &str) -> Exp<()> {
    Exp::Var(x.to_string(), ())
}

fn prim(p: Prim, args: Vec<Exp<()>>) -> Exp<()> {
    Exp::Prim(p, args, ())
}

fn let_in(bindings: Vec<(&str, Exp<()>)>, body: Exp<()>) -> Exp<()> {
    Exp::Let {
        bindings: bindings.into_iter().map(|(x, e)| (x.to_string(), e)).collect(),
        body: Box::new(body),
        ann: (),
    }
}

fn if_then(cond: Exp<()>, thn: Exp<()>, els: Exp<()>) -> Exp<()> {
    Exp::If { cond: Box::new(cond), thn: Box::new(thn), els: Box::new(els), ann: () }
}

fn first_then(e1: Exp<()>, e2: Exp<()>) -> Exp<()> {
    Exp::Semicolon { e1: Box::new(e1), e2: Box::new(e2), ann: () }
}

fn def(name: &str, parameters: Vec<&str>, body: Exp<()>) -> FunDecl<Exp<()>, ()> {
    FunDecl {
        name: name.to_string(),
        parameters: parameters.into_iter().map(|p| p.to_string()).collect(),
        body,
        ann: (),
    }
}

fn defs(decls: Vec<FunDecl<Exp<()>, ()>>, body: Exp<()>) -> Exp<()> {
    Exp::FunDefs { decls, body: Box::new(body), ann: () }
}

fn call(f: Exp<()>, args: Vec<Exp<()>>) -> Exp<()> {
    Exp::Call(Box::new(f), args, ())
}

fn lambda(parameters: Vec<&str>, body: Exp<()>) -> Exp<()> {
    Exp::Lambda {
        parameters: parameters.into_iter().map(|p| p.to_string()).collect(),
        body: Box::new(body),
        ann: (),
    }
}

const MAX: i64 = 0x3FFF_FFFF_FFFF_FFFF;

#[test]
fn let_and_addition() {
    prints(&let_in(vec![("x", num(3))], prim(Prim::Add, vec![var("x"), num(1)])), "4");
}

#[test]
fn lambda_applied_twice() {
    let f = lambda(vec!["x"], prim(Prim::Add, vec![var("x"), num(1)]));
    let body = call(var("f"), vec![call(var("f"), vec![num(3)])]);
    prints(&let_in(vec![("f", f)], body), "5");
}

#[test]
fn factorial_of_ten() {
    let body = if_then(
        prim(Prim::Lt, vec![var("n"), num(2)]),
        num(1),
        prim(
            Prim::Mul,
            vec![var("n"), call(var("fact"), vec![prim(Prim::Sub, vec![var("n"), num(1)])])],
        ),
    );
    prints(&defs(vec![def("fact", vec!["n"], body)], call(var("fact"), vec![num(10)])), "3628800");
}

#[test]
fn array_element_plus_ten() {
    let xs = prim(Prim::MakeArray, vec![num(1), num(2), num(3)]);
    let body = prim(Prim::Add, vec![prim(Prim::ArrayGet, vec![var("xs"), num(1)]), num(10)]);
    prints(&let_in(vec![("xs", xs)], body), "12");
}

#[test]
fn array_that_holds_itself() {
    let xs = prim(Prim::MakeArray, vec![num(0), num(0)]);
    let body = first_then(prim(Prim::ArraySet, vec![var("xs"), num(1), var("xs")]), var("xs"));
    prints(&let_in(vec![("xs", xs)], body), "[0, <loop>]");
}

#[test]
fn print_then_value() {
    prints(&first_then(prim(Prim::Print, vec![num(3922)]), num(3922)), "3922\n3922");
}

#[test]
fn add1_of_largest_integer_overflows() {
    fails(&prim(Prim::Add1, vec![num(MAX)]), "overflow");
}

#[test]
fn closure_of_two_called_with_three() {
    let f = lambda(vec!["x", "y"], prim(Prim::Add, vec![var("x"), var("y")]));
    let body = call(var("f"), vec![num(1), num(2), num(3)]);
    fails(&let_in(vec![("f", f)], body), "wrong number of arguments for lambda: <closure>");
}

#[test]
fn largest_and_smallest_integers() {
    prints(&num(MAX), "4611686018427387903");
    prints(&num(-MAX - 1), "-4611686018427387904");
    prints(&prim(Prim::Sub1, vec![num(-MAX)]), "-4611686018427387904");
    fails(&prim(Prim::Sub1, vec![num(-MAX - 1)]), "overflow");
}

#[test]
fn literal_out_of_range_is_refused() {
    let p: Exp<u8> = Exp::Prim(Prim::Add1, vec![Exp::Num(MAX + 1, 7)], 3);
    assert_eq!(compile_to_string(&p), Err(CompileErr::Overflow { num: MAX + 1, location: 7 }));
    let q: Exp<u8> = Exp::Num(MAX, 7);
    assert!(compile_to_string(&q).is_ok());
}

#[test]
fn arithmetic() {
    prints(&prim(Prim::Mul, vec![num(6), num(-7)]), "-42");
    prints(&prim(Prim::Sub, vec![num(6), num(7)]), "-1");
    prints(&prim(Prim::Add, vec![prim(Prim::Mul, vec![num(2), num(3)]), num(4)]), "10");
    fails(&prim(Prim::Mul, vec![num(MAX), num(2)]), "overflow");
    fails(&prim(Prim::Add, vec![num(MAX), num(1)]), "overflow");
    fails(&prim(Prim::Add, vec![boolean(true), num(1)]), "arithmetic expected a number true");
    fails(&prim(Prim::Add, vec![num(1), boolean(true)]), "arithmetic expected a number");
    fails(&prim(Prim::Add1, vec![boolean(false)]), "arithmetic expected a number false");
}

#[test]
fn comparisons() {
    for (a, b) in [(1, 2), (2, 1), (2, 2), (-5, 3), (MAX, -MAX - 1), (-MAX - 1, MAX)] {
        let args = || vec![num(a), num(b)];
        prints(&prim(Prim::Lt, args()), &format!("{}", a < b));
        prints(&prim(Prim::Gt, args()), &format!("{}", a > b));
        prints(&prim(Prim::Le, args()), &format!("{}", a <= b));
        prints(&prim(Prim::Ge, args()), &format!("{}", a >= b));
        prints(&prim(Prim::Eq, args()), &format!("{}", a == b));
        prints(&prim(Prim::Neq, args()), &format!("{}", a != b));
    }
    fails(&prim(Prim::Lt, vec![num(1), boolean(true)]), "comparison expected a number");
    fails(&prim(Prim::Ge, vec![boolean(false), num(1)]), "comparison expected a number");
}

#[test]
fn logic() {
    prints(&prim(Prim::Not, vec![boolean(true)]), "false");
    prints(&prim(Prim::Not, vec![boolean(false)]), "true");
    for a in [false, true] {
        for b in [false, true] {
            prints(&prim(Prim::And, vec![boolean(a), boolean(b)]), &format!("{}", a && b));
            prints(&prim(Prim::Or, vec![boolean(a), boolean(b)]), &format!("{}", a || b));
        }
    }
    fails(&prim(Prim::Not, vec![num(1)]), "logic expected a boolean 1");
    fails(&prim(Prim::And, vec![boolean(true), num(0)]), "logic expected a boolean");
    fails(
        &prim(Prim::Not, vec![prim(Prim::MakeArray, vec![num(1)])]),
        "logic expected a boolean [1]",
    );
}

#[test]
fn conditionals() {
    prints(&if_then(boolean(true), num(1), num(2)), "1");
    prints(&if_then(boolean(false), num(1), num(2)), "2");
    prints(
        &if_then(prim(Prim::Lt, vec![num(1), num(2)]), if_then(boolean(false), num(3), num(4)), num(5)),
        "4",
    );
    fails(&if_then(num(0), num(1), num(2)), "if expected a boolean 0");
}

#[test]
fn tag_tests() {
    let array = || prim(Prim::MakeArray, vec![num(1)]);
    let function = || lambda(vec!["x"], var("x"));
    let values: Vec<(Box<dyn Fn() -> Exp<()>>, [bool; 4])> = vec![
        (Box::new(|| num(5)), [true, false, false, false]),
        (Box::new(|| boolean(true)), [false, true, false, false]),
        (Box::new(|| boolean(false)), [false, true, false, false]),
        (Box::new(array), [false, false, true, false]),
        (Box::new(function), [false, false, false, true]),
    ];
    for (value, [n, b, a, f]) in values {
        prints(&prim(Prim::IsNum, vec![value()]), &format!("{}", n));
        prints(&prim(Prim::IsBool, vec![value()]), &format!("{}", b));
        prints(&prim(Prim::IsArray, vec![value()]), &format!("{}", a));
        prints(&prim(Prim::IsFun, vec![value()]), &format!("{}", f));
    }
}

#[test]
fn arrays() {
    prints(&prim(Prim::MakeArray, vec![]), "[]");
    prints(
        &prim(Prim::MakeArray, vec![num(4), prim(Prim::MakeArray, vec![boolean(true), num(3)])]),
        "[4, [true, 3]]",
    );
    prints(&prim(Prim::Length, vec![prim(Prim::MakeArray, vec![num(4), num(5), num(6)])]), "3");
    let xs = || prim(Prim::MakeArray, vec![num(10), num(20)]);
    prints(&prim(Prim::ArraySet, vec![xs(), num(0), num(7)]), "[7, 20]");
    fails(&prim(Prim::ArrayGet, vec![xs(), num(2)]), "index out of bounds: ");
    fails(&prim(Prim::ArrayGet, vec![xs(), num(-1)]), "index out of bounds: ");
    fails(&prim(Prim::ArraySet, vec![xs(), num(5), num(0)]), "index out of bounds: ");
    fails(&prim(Prim::ArrayGet, vec![xs(), boolean(true)]), "index not a number: true");
    fails(&prim(Prim::ArrayGet, vec![num(3), num(0)]), "not an array address 3");
    fails(&prim(Prim::Length, vec![boolean(true)]), "not an array address true");
}

#[test]
fn an_array_seen_twice_prints_once() {
    let body = prim(Prim::MakeArray, vec![var("xs"), var("xs")]);
    prints(&let_in(vec![("xs", prim(Prim::MakeArray, vec![num(1)]))], body), "[[1], <loop>]");
}

#[test]
fn let_bindings_are_sequential() {
    let p = let_in(
        vec![("x", num(1)), ("y", prim(Prim::Add, vec![var("x"), num(1)])), ("x", num(10))],
        prim(Prim::Add, vec![var("x"), var("y")]),
    );
    assert!(matches!(compile_to_string(&p), Err(CompileErr::DuplicateBinding { .. })));
    assert!(matches!(compile(&p), Err(Refusal::Violation(CompileErr::DuplicateBinding { .. }))));
    let q = let_in(
        vec![("x", num(1)), ("y", prim(Prim::Add, vec![var("x"), num(1)]))],
        let_in(vec![("x", num(10))], prim(Prim::Add, vec![var("x"), var("y")])),
    );
    prints(&q, "12");
}

#[test]
fn operands_are_evaluated_from_left_to_right() {
    let p = prim(
        Prim::Add,
        vec![prim(Prim::Print, vec![num(1)]), prim(Prim::Print, vec![num(2)])],
    );
    prints(&p, "1\n2\n3");
    let q = prim(
        Prim::MakeArray,
        vec![
            prim(Prim::Print, vec![num(1)]),
            prim(Prim::Print, vec![boolean(true)]),
            prim(Prim::Print, vec![num(3)]),
        ],
    );
    prints(&q, "1\ntrue\n3\n[1, true, 3]");
}

#[test]
fn a_loop_by_tail_calls_keeps_the_stack() {
    // def count(n, acc): if n == 0: acc else: count(n - 1, acc + n) in count(100000, 0)
    let body = if_then(
        prim(Prim::Eq, vec![var("n"), num(0)]),
        var("acc"),
        call(
            var("count"),
            vec![prim(Prim::Sub, vec![var("n"), num(1)]), prim(Prim::Add, vec![var("acc"), var("n")])],
        ),
    );
    let p = defs(
        vec![def("count", vec!["n", "acc"], body)],
        call(var("count"), vec![num(100000), num(0)]),
    );
    prints(&p, "5000050000");
}

#[test]
fn tail_calls_swap_their_arguments() {
    // def f(a, b, n): if n == 0: a - b else: f(b, a, n - 1) in f(10, 3, 3)
    let body = if_then(
        prim(Prim::Eq, vec![var("n"), num(0)]),
        prim(Prim::Sub, vec![var("a"), var("b")]),
        call(var("f"), vec![var("b"), var("a"), prim(Prim::Sub, vec![var("n"), num(1)])]),
    );
    let p = defs(vec![def("f", vec!["a", "b", "n"], body)], call(var("f"), vec![num(10), num(3), num(3)]));
    prints(&p, "-7");
}

#[test]
fn mutual_recursion() {
    let p = |n: i64| {
        defs(
            vec![def("even", vec!["n"], even_body()), def("odd", vec!["m"], odd_body())],
            call(var("even"), vec![num(n)]),
        )
    };
    fn even_body() -> Exp<()> {
        if_then(
            prim(Prim::Eq, vec![var("n"), num(0)]),
            boolean(true),
            call(var("odd"), vec![prim(Prim::Sub, vec![var("n"), num(1)])]),
        )
    }
    fn odd_body() -> Exp<()> {
        if_then(
            prim(Prim::Eq, vec![var("m"), num(0)]),
            boolean(false),
            call(var("even"), vec![prim(Prim::Sub, vec![var("m"), num(1)])]),
        )
    }
    prints(&p(10), "true");
    prints(&p(7), "false");
}

#[test]
fn a_nested_function_sees_the_variables_around_it() {
    // let a = 5 in def f(x): def g(y): x + y + a in g(1) + g(2) in f(10)
    let g = def("g", vec!["y"], prim(Prim::Add, vec![prim(Prim::Add, vec![var("x"), var("y")]), var("a")]));
    let f_body = defs(
        vec![g],
        prim(Prim::Add, vec![call(var("g"), vec![num(1)]), call(var("g"), vec![num(2)])]),
    );
    let p = let_in(
        vec![("a", num(5))],
        defs(vec![def("f", vec!["x"], f_body)], call(var("f"), vec![num(10)])),
    );
    prints(&p, "33");
}

#[test]
fn a_local_function_called_in_tail_position_stays_in_the_frame() {
    // let a = 1 in def f(x): x + a in let b = 2 in def g(y): f(y + b) in g(b)
    let p = let_in(
        vec![("a", num(1))],
        defs(
            vec![def("f", vec!["x"], prim(Prim::Add, vec![var("x"), var("a")]))],
            let_in(
                vec![("b", num(2))],
                defs(
                    vec![def("g", vec!["y"], call(var("f"), vec![prim(Prim::Add, vec![var("y"), var("b")])]))],
                    call(var("g"), vec![var("b")]),
                ),
            ),
        ),
    );
    prints(&p, "5");
}

#[test]
fn a_lambda_captures_variables() {
    // let a = 10, b = 20 in let f = (lambda x: x + a + b) in let a = 1 in f(5)
    let f = lambda(vec!["x"], prim(Prim::Add, vec![prim(Prim::Add, vec![var("x"), var("a")]), var("b")]));
    let p = let_in(
        vec![("a", num(10)), ("b", num(20))],
        let_in(vec![("f", f)], let_in(vec![("a", num(1))], call(var("f"), vec![num(5)]))),
    );
    prints(&p, "35");
}

#[test]
fn lambdas_in_lambdas() {
    // let add = (lambda x: (lambda y: x + y)) in add(3)(4)
    let add = lambda(vec!["x"], lambda(vec!["y"], prim(Prim::Add, vec![var("x"), var("y")])));
    let p = let_in(vec![("add", add)], call(call(var("add"), vec![num(3)]), vec![num(4)]));
    prints(&p, "7");
}

#[test]
fn a_closure_call_as_argument_of_a_closure_call() {
    // let f = (lambda x: x * 2), g = (lambda x: x + 1) in f(g(f(g(1))))
    let f = lambda(vec!["x"], prim(Prim::Mul, vec![var("x"), num(2)]));
    let g = lambda(vec!["x"], prim(Prim::Add, vec![var("x"), num(1)]));
    let inner = call(var("f"), vec![call(var("g"), vec![num(1)])]);
    let p = let_in(
        vec![("f", f), ("g", g)],
        call(var("f"), vec![call(var("g"), vec![inner])]),
    );
    prints(&p, "10");
}

#[test]
fn a_named_function_as_a_value() {
    // def inc(x): x + 1 in let apply = (lambda f, v: f(v)) in apply(inc, 41)
    let apply = lambda(vec!["f", "v"], call(var("f"), vec![var("v")]));
    let p = defs(
        vec![def("inc", vec!["x"], prim(Prim::Add, vec![var("x"), num(1)]))],
        let_in(vec![("apply", apply)], call(var("apply"), vec![var("inc"), num(41)])),
    );
    prints(&p, "42");
}

#[test]
fn calling_what_is_no_function() {
    fails(&let_in(vec![("f", num(3))], call(var("f"), vec![num(1)])), "called a non-function 3");
    let array = prim(Prim::MakeArray, vec![]);
    fails(&let_in(vec![("f", array)], call(var("f"), vec![])), "called a non-function []");
}

#[test]
fn closures_print_as_closures() {
    prints(&lambda(vec![], num(1)), "<closure>");
}

#[test]
fn a_function_with_many_parameters_and_locals() {
    // def f(a, b, c, d, e): let s = a + b in let t = c + d in print(s) * t + e in f(1,2,3,4,5) + f(5,4,3,2,1)
    let body = let_in(
        vec![("s", prim(Prim::Add, vec![var("a"), var("b")]))],
        let_in(
            vec![("t", prim(Prim::Add, vec![var("c"), var("d")]))],
            prim(
                Prim::Add,
                vec![prim(Prim::Mul, vec![prim(Prim::Print, vec![var("s")]), var("t")]), var("e")],
            ),
        ),
    );
    let args = |v: [i64; 5]| v.iter().map(|n| num(*n)).collect::<Vec<_>>();
    let p = defs(
        vec![def("f", vec!["a", "b", "c", "d", "e"], body)],
        prim(
            Prim::Add,
            vec![call(var("f"), args([1, 2, 3, 4, 5])), call(var("f"), args([5, 4, 3, 2, 1]))],
        ),
    );
    prints(&p, "3\n9\n72");
}

#[test]
fn a_tree_of_a_later_stage_is_no_program() {
    let p = Exp::DirectCall("f".to_string(), vec![num(1)], ());
    assert_eq!(compile(&p), Err(Refusal::NotSurface));
    let q = prim(Prim::Add, vec![num(1), Exp::InternalTailCall("f".to_string(), vec![], ())]);
    assert_eq!(compile(&q), Err(Refusal::NotSurface));
}

#[test]
fn both_entries_give_the_same_text() {
    let p = let_in(vec![("x", num(3))], prim(Prim::Add, vec![var("x"), num(1)]));
    assert_eq!(compile(&p), Ok(compile_to_string(&p).unwrap()));
    let q: Exp<u8> = Exp::Var("x".to_string(), 5);
    assert_eq!(
        compile(&q),
        Err(Refusal::Violation(CompileErr::UnboundVariable { unbound: "x".to_string(), location: 5 }))
    );
}

#[test]
fn a_function_with_captured_variables_is_called_with_them() {
    // let a = 1, b = 2 in def f(x): if x == 0: a + b else: f(x - 1) + 1 in f(3) * 10
    let body = if_then(
        prim(Prim::Eq, vec![var("x"), num(0)]),
        prim(Prim::Add, vec![var("a"), var("b")]),
        prim(Prim::Add, vec![call(var("f"), vec![prim(Prim::Sub, vec![var("x"), num(1)])]), num(1)]),
    );
    let p = let_in(
        vec![("a", num(1)), ("b", num(2))],
        defs(vec![def("f", vec!["x"], body)], prim(Prim::Mul, vec![call(var("f"), vec![num(3)]), num(10)])),
    );
    prints(&p, "60");
}

#[test]
fn closures_in_arrays_and_arrays_in_closures() {
    // let fs = [lambda x: x + 1, lambda x: x * 2] in let xs = [10, 20] in
    // let apply = (lambda i: fs[i](xs[i])) in [apply(0), apply(1)]
    let fs = prim(
        Prim::MakeArray,
        vec![
            lambda(vec!["x"], prim(Prim::Add, vec![var("x"), num(1)])),
            lambda(vec!["x"], prim(Prim::Mul, vec![var("x"), num(2)])),
        ],
    );
    let apply = lambda(
        vec!["i"],
        call(
            prim(Prim::ArrayGet, vec![var("fs"), var("i")]),
            vec![prim(Prim::ArrayGet, vec![var("xs"), var("i")])],
        ),
    );
    let p = let_in(
        vec![("fs", fs), ("xs", prim(Prim::MakeArray, vec![num(10), num(20)])), ("apply", apply)],
        prim(Prim::MakeArray, vec![call(var("apply"), vec![num(0)]), call(var("apply"), vec![num(1)])]),
    );
    prints(&p, "[11, 40]");
}

#[test]
fn recursion_that_is_no_loop() {
    // def fib(n): if n < 2: n else: fib(n - 1) + fib(n - 2) in fib(15)
    let body = if_then(
        prim(Prim::Lt, vec![var("n"), num(2)]),
        var("n"),
        prim(
            Prim::Add,
            vec![
                call(var("fib"), vec![prim(Prim::Sub, vec![var("n"), num(1)])]),
                call(var("fib"), vec![prim(Prim::Sub, vec![var("n"), num(2)])]),
            ],
        ),
    );
    prints(&defs(vec![def("fib", vec!["n"], body)], call(var("fib"), vec![num(15)])), "610");
}

#[test]
fn closures_that_return_closures() {
    let make = lambda(
        vec!["a"],
        lambda(
            vec!["b"],
            lambda(
                vec!["c"],
                prim(Prim::Add, vec![prim(Prim::Mul, vec![var("a"), num(100)]), prim(Prim::Add, vec![prim(Prim::Mul, vec![var("b"), num(10)]), var("c")])]),
            ),
        ),
    );
    let p = let_in(
        vec![("make", make)],
        call(call(call(var("make"), vec![num(1)]), vec![num(2)]), vec![num(3)]),
    );
    prints(&p, "123");
}

#[test]
fn a_closure_that_calls_itself_through_an_array() {
    // let cell = [0] in let f = (lambda n: if n == 0: 0 else: n + cell[0](n - 1)) in cell[0] := f; f(4)
    let body = if_then(
        prim(Prim::Eq, vec![var("n"), num(0)]),
        num(0),
        prim(
            Prim::Add,
            vec![
                var("n"),
                call(
                    prim(Prim::ArrayGet, vec![var("cell"), num(0)]),
                    vec![prim(Prim::Sub, vec![var("n"), num(1)])],
                ),
            ],
        ),
    );
    let p = let_in(
        vec![("cell", prim(Prim::MakeArray, vec![num(0)])), ("f", lambda(vec!["n"], body))],
        first_then(prim(Prim::ArraySet, vec![var("cell"), num(0), var("f")]), call(var("f"), vec![num(4)])),
    );
    prints(&p, "10");
}

#[test]
fn calls_at_every_depth_of_the_frame() {
    // def id(x): x in let a = id(1) in let b = id(a + 1) in ... print each
    let mut body = prim(Prim::Add, vec![var("v4"), call(var("id"), vec![var("v0")])]);
    for i in (0..5).rev() {
        let value = if i == 0 {
            call(var("id"), vec![num(1)])
        } else {
            prim(
                Prim::Print,
                vec![call(var("id"), vec![prim(Prim::Add, vec![var(&format!("v{}", i - 1)), num(1)])])],
            )
        };
        body = let_in(vec![(&format!("v{}", i), value)], body);
    }
    let p = defs(vec![def("id", vec!["x"], var("x"))], body);
    prints(&p, "2\n3\n4\n5\n6");
}

#[test]
fn a_loop_that_reads_the_variables_around_it() {
    // let step = 3, limit = 20 in def go(n, acc): if n > limit: acc else: go(n + step, acc + n) in go(0, 0)
    let body = if_then(
        prim(Prim::Gt, vec![var("n"), var("limit")]),
        var("acc"),
        call(
            var("go"),
            vec![prim(Prim::Add, vec![var("n"), var("step")]), prim(Prim::Add, vec![var("acc"), var("n")])],
        ),
    );
    let p = let_in(
        vec![("step", num(3)), ("limit", num(20))],
        defs(vec![def("go", vec!["n", "acc"], body)], call(var("go"), vec![num(0), num(0)])),
    );
    prints(&p, "63");
}

#[test]
fn local_functions_with_different_numbers_of_parameters() {
    // def f(a): g(a, a + 1, a + 2) and g(x, y, z): if x > 5: x + y + z else: f(z) in f(0)
    let f = def(
        "f",
        vec!["a"],
        call(
            var("g"),
            vec![var("a"), prim(Prim::Add, vec![var("a"), num(1)]), prim(Prim::Add, vec![var("a"), num(2)])],
        ),
    );
    let g = def(
        "g",
        vec!["x", "y", "z"],
        if_then(
            prim(Prim::Gt, vec![var("x"), num(5)]),
            prim(Prim::Add, vec![prim(Prim::Add, vec![var("x"), var("y")]), var("z")]),
            call(var("f"), vec![var("z")]),
        ),
    );
    prints(&defs(vec![f, g], call(var("f"), vec![num(0)])), "21");
}

#[test]
fn a_closure_called_in_tail_position_of_a_function() {
    // def apply(f, n): f(n) in apply(lambda x: x * x, 12)
    let p = defs(
        vec![def("apply", vec!["f", "n"], call(var("f"), vec![var("n")]))],
        prim(
            Prim::Add,
            vec![
                call(var("apply"), vec![lambda(vec!["x"], prim(Prim::Mul, vec![var("x"), var("x")])), num(12)]),
                num(0),
            ],
        ),
    );
    prints(&p, "144");
}

#[test]
fn a_closure_without_parameters() {
    let p = let_in(vec![("a", num(7)), ("f", lambda(vec![], var("a")))], call(var("f"), vec![]));
    prints(&p, "7");
    let q = let_in(vec![("f", lambda(vec![], num(1)))], call(var("f"), vec![num(1)]));
    fails(&q, "wrong number of arguments for lambda: <closure>");
}

#[test]
fn a_program_without_functions_is_worth_what_its_parts_are_worth() {
    prints(&prim(Prim::Eq, vec![num(1), boolean(true)]), "false");
    prints(&prim(Prim::Neq, vec![boolean(false), boolean(true)]), "true");
    prints(&first_then(prim(Prim::Add, vec![num(1), num(2)]), num(5)), "5");
    fails(&first_then(prim(Prim::Add1, vec![boolean(true)]), num(5)), "arithmetic expected a number");
    fails(
        &prim(
            Prim::Add,
            vec![prim(Prim::Not, vec![num(1)]), prim(Prim::Add1, vec![boolean(true)])],
        ),
        "logic expected a boolean",
    );
    prints(
        &let_in(
            vec![("x", num(3)), ("y", prim(Prim::Add, vec![var("x"), num(1)]))],
            if_then(
                prim(Prim::IsNum, vec![var("y")]),
                prim(Prim::Mul, vec![var("y"), var("y")]),
                boolean(false),
            ),
        ),
        "16",
    );
    fails(
        &if_then(boolean(true), if_then(num(1), num(2), num(3)), num(4)),
        "if expected a boolean 1",
    );
}

#[test]
fn a_program_that_reads_what_nothing_binds_is_refused() {
    // def f(a, y): a in f(1) + 1: the call leaves y open, and nothing binds y
    // where the call stands
    let p = defs(
        vec![def("f", vec!["a", "y"], var("a"))],
        prim(Prim::Add, vec![call(var("f"), vec![num(1)]), num(1)]),
    );
    assert_eq!(compile(&p), Err(Refusal::Unresolved));
    // a primitive with an operand too few
    assert_eq!(compile(&prim(Prim::Add, vec![num(1)])), Err(Refusal::Unresolved));
    assert_eq!(compile(&prim(Prim::ArraySet, vec![num(1), num(2)])), Err(Refusal::Unresolved));
    assert!(compile(&prim(Prim::MakeArray, vec![])).is_ok());
}
