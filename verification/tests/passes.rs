//! The passes one by one, on small trees with known results.

use snake::checker::check_prog;
use snake::closure::eliminate_closures;
use snake::errors::CompileErr;
use snake::lambda_lift::{lambda_lift, should_lift};
use snake::sequentializer::{seq_prog, sequentialize};
use snake::syntax::{Exp, FunDecl, ImmExp, Prim, SeqExp, VarOrLabel};
use snake::table::Table;
use snake::uniquify::uniquify;

type E = Exp<u32>;

fn s(x: &str) -> String {
    x.to_string()
}

fn num(n: i64) -> Exp<()> {
    Exp::Num(n, ())
}

fn var(x: &str) -> Exp<()> {
    Exp::Var(s(x), ())
}

fn prim(p: Prim, args: Vec<Exp<()>>) -> Exp<()> {
    Exp::Prim(p, args, ())
}

fn let_in(bindings: Vec<(&str, Exp<()>)>, body: Exp<()>) -> Exp<()> {
    Exp::Let {
        bindings: bindings.into_iter().map(|(x, e)| (s(x), e)).collect(),
        body: Box::new(body),
        ann: (),
    }
}

fn def(name: &str, parameters: Vec<&str>, body: Exp<()>) -> FunDecl<Exp<()>, ()> {
    FunDecl { name: s(name), parameters: parameters.into_iter().map(s).collect(), body, ann: () }
}

fn defs(decls: Vec<FunDecl<Exp<()>, ()>>, body: Exp<()>) -> Exp<()> {
    Exp::FunDefs { decls, body: Box::new(body), ann: () }
}

fn call(f: Exp<()>, args: Vec<Exp<()>>) -> Exp<()> {
    Exp::Call(Box::new(f), args, ())
}

fn lambda(parameters: Vec<&str>, body: Exp<()>) -> Exp<()> {
    Exp::Lambda { parameters: parameters.into_iter().map(s).collect(), body: Box::new(body), ann: () }
}

fn unique(e: &Exp<()>) -> Exp<()> {
    let mut counter = 0;
    uniquify(e, &Table::new(), &mut counter)
}

fn converted(e: &Exp<()>) -> Exp<()> {
    eliminate_closures(&unique(e), &Table::new())
}

fn binder_names(e: &Exp<()>, out: &mut Vec<String>) {
    match e {
        Exp::Prim(_, es, _) => es.iter().for_each(|e| binder_names(e, out)),
        Exp::Let { bindings, body, .. } => {
            for (x, v) in bindings {
                out.push(x.clone());
                binder_names(v, out);
            }
            binder_names(body, out);
        }
        Exp::If { cond, thn, els, .. } => {
            binder_names(cond, out);
            binder_names(thn, out);
            binder_names(els, out);
        }
        Exp::FunDefs { decls, body, .. } => {
            for d in decls {
                out.push(d.name.clone());
                out.extend(d.parameters.iter().cloned());
                binder_names(&d.body, out);
            }
            binder_names(body, out);
        }
        Exp::Call(f, args, _) => {
            binder_names(f, out);
            args.iter().for_each(|e| binder_names(e, out));
        }
        Exp::Lambda { parameters, body, .. } => {
            out.extend(parameters.iter().cloned());
            binder_names(body, out);
        }
        _ => {}
    }
}

/// A program with shadowing, functions, a lambda and a sequencing.
fn sample() -> Exp<()> {
    let inner = let_in(vec![("x", prim(Prim::Add, vec![var("x"), num(1)]))], var("x"));
    let f = def("f", vec!["x", "y"], inner);
    let g = def("g", vec!["x"], call(var("f"), vec![var("x"), var("x")]));
    let body = Exp::Semicolon {
        e1: Box::new(prim(Prim::Print, vec![call(var("g"), vec![num(1)])])),
        e2: Box::new(call(lambda(vec!["x"], call(var("f"), vec![var("x"), num(2)])), vec![num(3)])),
        ann: (),
    };
    let_in(vec![("x", num(0))], defs(vec![f, g], body))
}

#[test]
fn the_largest_literal_is_accepted_and_the_next_is_not() {
    let max = 0x3FFF_FFFF_FFFF_FFFF;
    assert_eq!(check_prog(&E::Num(max, 1), &vec![]), Ok(()));
    assert_eq!(check_prog(&E::Num(-max - 1, 1), &vec![]), Ok(()));
    assert_eq!(
        check_prog(&E::Num(max + 1, 1), &vec![]),
        Err(CompileErr::Overflow { num: max + 1, location: 1 })
    );
    assert_eq!(
        check_prog(&E::Num(-max - 2, 9), &vec![]),
        Err(CompileErr::Overflow { num: -max - 2, location: 9 })
    );
}

#[test]
fn a_variable_has_to_be_bound() {
    assert_eq!(
        check_prog(&E::Var(s("x"), 4), &vec![]),
        Err(CompileErr::UnboundVariable { unbound: s("x"), location: 4 })
    );
    assert_eq!(check_prog(&E::Var(s("x"), 4), &vec![s("y"), s("x")]), Ok(()));
    let own = E::Let { bindings: vec![(s("x"), E::Var(s("x"), 2))], body: Box::new(E::Num(0, 3)), ann: 1 };
    assert_eq!(
        check_prog(&own, &vec![]),
        Err(CompileErr::UnboundVariable { unbound: s("x"), location: 2 })
    );
    let later = E::Let {
        bindings: vec![(s("x"), E::Num(1, 2)), (s("y"), E::Var(s("x"), 3))],
        body: Box::new(E::Var(s("y"), 4)),
        ann: 1,
    };
    assert_eq!(check_prog(&later, &vec![]), Ok(()));
}

#[test]
fn a_let_binds_a_name_once() {
    let twice = E::Let {
        bindings: vec![(s("x"), E::Num(1, 2)), (s("y"), E::Num(1, 3)), (s("x"), E::Num(1, 4))],
        body: Box::new(E::Num(0, 5)),
        ann: 1,
    };
    assert_eq!(
        check_prog(&twice, &vec![]),
        Err(CompileErr::DuplicateBinding { duplicated_name: s("x"), location: 1 })
    );
}

#[test]
fn a_group_declares_a_function_once() {
    let f = |ann| FunDecl { name: s("f"), parameters: vec![], body: E::Num(1, ann), ann };
    let twice = E::FunDefs { decls: vec![f(2), f(3)], body: Box::new(E::Num(0, 4)), ann: 1 };
    assert_eq!(
        check_prog(&twice, &vec![]),
        Err(CompileErr::DuplicateFunName { duplicated_name: s("f"), location: 1 })
    );
}

#[test]
fn a_function_names_a_parameter_once() {
    let f = FunDecl { name: s("f"), parameters: vec![s("a"), s("b"), s("a")], body: E::Num(1, 3), ann: 2 };
    let group = E::FunDefs { decls: vec![f], body: Box::new(E::Num(0, 4)), ann: 1 };
    assert_eq!(
        check_prog(&group, &vec![]),
        Err(CompileErr::DuplicateArgName { duplicated_name: s("a"), location: 2 })
    );
    let l = E::Lambda { parameters: vec![s("a"), s("a")], body: Box::new(E::Num(0, 2)), ann: 7 };
    assert_eq!(
        check_prog(&l, &vec![]),
        Err(CompileErr::DuplicateArgName { duplicated_name: s("a"), location: 7 })
    );
}

#[test]
fn the_first_violation_in_reading_order_is_reported() {
    let p = E::Prim(
        Prim::Add,
        vec![E::Var(s("y"), 2), E::Num(0x4000_0000_0000_0000, 3)],
        1,
    );
    assert_eq!(
        check_prog(&p, &vec![]),
        Err(CompileErr::UnboundVariable { unbound: s("y"), location: 2 })
    );
    let q = E::If {
        cond: Box::new(E::Bool(true, 2)),
        thn: Box::new(E::Num(0x4000_0000_0000_0000, 3)),
        els: Box::new(E::Var(s("y"), 4)),
        ann: 1,
    };
    assert_eq!(
        check_prog(&q, &vec![]),
        Err(CompileErr::Overflow { num: 0x4000_0000_0000_0000, location: 3 })
    );
}

#[test]
fn functions_of_a_group_see_each_other_and_their_parameters() {
    let f = FunDecl {
        name: s("f"),
        parameters: vec![s("a")],
        body: E::Call(Box::new(E::Var(s("g"), 3)), vec![E::Var(s("a"), 4)], 5),
        ann: 2,
    };
    let g = FunDecl {
        name: s("g"),
        parameters: vec![s("b")],
        body: E::Call(Box::new(E::Var(s("f"), 7)), vec![E::Var(s("b"), 8)], 9),
        ann: 6,
    };
    let other = FunDecl { name: s("h"), parameters: vec![], body: E::Var(s("a"), 11), ann: 10 };
    let ok = E::FunDefs { decls: vec![f, g], body: Box::new(E::Var(s("f"), 12)), ann: 1 };
    assert_eq!(check_prog(&ok, &vec![]), Ok(()));
    let leak = E::FunDefs { decls: vec![other], body: Box::new(E::Num(0, 12)), ann: 1 };
    assert_eq!(
        check_prog(&leak, &vec![]),
        Err(CompileErr::UnboundVariable { unbound: s("a"), location: 11 })
    );
}

#[test]
fn uniquify_numbers_the_binders() {
    let p = let_in(vec![("x", num(3))], prim(Prim::Add, vec![var("x"), num(1)]));
    let mut counter = 0;
    let q = uniquify(&p, &Table::new(), &mut counter);
    assert_eq!(q, let_in(vec![("1", num(3))], prim(Prim::Add, vec![var("1"), num(1)])));
    assert_eq!(counter, 1);
    let mut counter = 41;
    let q = uniquify(&p, &Table::new(), &mut counter);
    assert_eq!(q, let_in(vec![("42", num(3))], prim(Prim::Add, vec![var("42"), num(1)])));
    assert_eq!(counter, 42);
}

#[test]
fn uniquify_resolves_shadowing() {
    let p = let_in(
        vec![("x", num(1)), ("y", var("x"))],
        let_in(vec![("x", var("x"))], prim(Prim::Add, vec![var("x"), var("y")])),
    );
    let q = let_in(
        vec![("1", num(1)), ("2", var("1"))],
        let_in(vec![("3", var("1"))], prim(Prim::Add, vec![var("3"), var("2")])),
    );
    assert_eq!(unique(&p), q);
}

#[test]
fn uniquify_names_functions_before_their_bodies() {
    let f = def("f", vec!["a"], call(var("g"), vec![var("a")]));
    let g = def("g", vec!["a", "b"], call(var("f"), vec![var("b")]));
    let p = defs(vec![f, g], lambda(vec!["a"], call(var("f"), vec![var("a")])));
    let f = def("1", vec!["3"], call(var("2"), vec![var("3")]));
    let g = def("2", vec!["4", "5"], call(var("1"), vec![var("5")]));
    let q = defs(vec![f, g], lambda(vec!["6"], call(var("1"), vec![var("6")])));
    assert_eq!(unique(&p), q);
}

#[test]
fn uniquify_turns_sequencing_into_a_let() {
    let p = Exp::Semicolon {
        e1: Box::new(let_in(vec![("x", num(1))], var("x"))),
        e2: Box::new(let_in(vec![("x", num(2))], var("x"))),
        ann: (),
    };
    let q = let_in(
        vec![("1", let_in(vec![("2", num(1))], var("2")))],
        let_in(vec![("3", num(2))], var("3")),
    );
    assert_eq!(unique(&p), q);
}

#[test]
fn uniquify_renames_a_name_in_scope() {
    let mut mapping = Table::new();
    mapping.insert(s("x"), 7);
    let mut counter = 0;
    assert_eq!(uniquify(&var("x"), &mapping, &mut counter), var("7"));
}

#[test]
fn uniquifying_twice_changes_nothing() {
    let once = unique(&sample());
    assert_eq!(unique(&once), once);
}

#[test]
fn no_two_binders_share_a_name_after_uniquification() {
    let mut names = Vec::new();
    binder_names(&unique(&sample()), &mut names);
    assert_eq!(names.len(), 9);
    for (i, a) in names.iter().enumerate() {
        for b in &names[i + 1..] {
            assert_ne!(a, b);
        }
    }
}

#[test]
fn closure_conversion_tells_calls_apart() {
    let mut funcs = Table::new();
    funcs.insert(s("f"), 2);
    let direct = call(var("f"), vec![var("x"), num(1)]);
    assert_eq!(
        eliminate_closures(&direct, &funcs),
        Exp::DirectCall(s("f"), vec![var("x"), num(1)], ())
    );
    let through = call(var("x"), vec![num(1)]);
    assert_eq!(
        eliminate_closures(&through, &funcs),
        Exp::ClosureCall(Box::new(var("x")), vec![num(1)], ())
    );
    let value = Exp::MakeClosure {
        arity: 2,
        label: s("f"),
        env: Box::new(prim(Prim::MakeArray, vec![])),
        ann: (),
    };
    assert_eq!(eliminate_closures(&var("f"), &funcs), value);
    let argument = call(var("x"), vec![var("f")]);
    assert_eq!(
        eliminate_closures(&argument, &funcs),
        Exp::ClosureCall(
            Box::new(var("x")),
            vec![Exp::MakeClosure {
                arity: 2,
                label: s("f"),
                env: Box::new(prim(Prim::MakeArray, vec![])),
                ann: (),
            }],
            ()
        )
    );
}

#[test]
fn closure_conversion_knows_the_functions_of_a_group() {
    let p = defs(vec![def("f", vec!["a"], call(var("f"), vec![var("a")]))], call(var("f"), vec![num(1)]));
    let q = defs(
        vec![def("f", vec!["a"], Exp::DirectCall(s("f"), vec![var("a")], ()))],
        Exp::DirectCall(s("f"), vec![num(1)], ()),
    );
    assert_eq!(eliminate_closures(&p, &Table::new()), q);
}

fn lifted_names(p: &Exp<()>) -> Vec<String> {
    let mut names = should_lift(&converted(p), &vec![], true);
    names.sort();
    names
}

#[test]
fn a_function_called_in_tail_position_only_stays_local() {
    let body = Exp::If {
        cond: Box::new(prim(Prim::Eq, vec![var("n"), num(0)])),
        thn: Box::new(num(0)),
        els: Box::new(call(var("f"), vec![prim(Prim::Sub1, vec![var("n")])])),
        ann: (),
    };
    let p = defs(vec![def("f", vec!["n"], body)], call(var("f"), vec![num(5)]));
    assert_eq!(lifted_names(&p), Vec::<String>::new());
}

#[test]
fn a_function_called_as_an_operand_becomes_global() {
    let p = defs(
        vec![def("f", vec!["n"], var("n")), def("g", vec![], num(0))],
        prim(Prim::Add1, vec![call(var("f"), vec![num(5)])]),
    );
    assert_eq!(lifted_names(&p), vec![s("1"), s("2")]);
}

#[test]
fn a_function_used_as_a_value_becomes_global() {
    let p = defs(vec![def("f", vec!["n"], var("n"))], var("f"));
    assert_eq!(lifted_names(&p), vec![s("1")]);
}

#[test]
fn a_function_called_from_another_body_becomes_global() {
    let p = defs(
        vec![def("f", vec!["n"], var("n"))],
        defs(vec![def("g", vec!["m"], call(var("f"), vec![var("m")]))], call(var("g"), vec![num(1)])),
    );
    assert_eq!(lifted_names(&p), vec![s("1")]);
    let q = defs(vec![def("f", vec!["n"], var("n"))], call(lambda(vec![], call(var("f"), vec![num(1)])), vec![]));
    assert_eq!(lifted_names(&q), vec![s("1")]);
}

#[test]
fn lifting_moves_a_function_and_passes_what_it_captures() {
    // let a = 5 in def f(x): x + a in f(1) + f(2)
    let p = let_in(
        vec![("a", num(5))],
        defs(
            vec![def("f", vec!["x"], prim(Prim::Add, vec![var("x"), var("a")]))],
            prim(Prim::Add, vec![call(var("f"), vec![num(1)]), call(var("f"), vec![num(2)])]),
        ),
    );
    let (globals, main) = lambda_lift(&p);
    assert_eq!(globals, vec![def("2", vec!["3", "1"], prim(Prim::Add, vec![var("3"), var("1")]))]);
    let f = |n| Exp::ExternalCall {
        fun: VarOrLabel::Label(s("2")),
        args: vec![num(n), var("1")],
        is_tail: false,
        ann: (),
    };
    assert_eq!(main, let_in(vec![("1", num(5))], prim(Prim::Add, vec![f(1), f(2)])));
}

#[test]
fn lifting_keeps_a_loop_in_its_frame() {
    // def f(n): if n == 0: 0 else: f(n - 1) in f(5)
    let body = |callee: Exp<()>| Exp::If {
        cond: Box::new(prim(Prim::Eq, vec![var("2"), num(0)])),
        thn: Box::new(num(0)),
        els: Box::new(callee),
        ann: (),
    };
    let source = Exp::If {
        cond: Box::new(prim(Prim::Eq, vec![var("n"), num(0)])),
        thn: Box::new(num(0)),
        els: Box::new(call(var("f"), vec![prim(Prim::Sub1, vec![var("n")])])),
        ann: (),
    };
    let p = defs(vec![def("f", vec!["n"], source)], call(var("f"), vec![num(5)]));
    let (globals, main) = lambda_lift(&p);
    assert_eq!(globals, vec![]);
    let jump = |arg| Exp::InternalTailCall(s("1"), vec![arg], ());
    assert_eq!(
        main,
        defs(vec![def("1", vec!["2"], body(jump(prim(Prim::Sub1, vec![var("2")]))))], jump(num(5)))
    );
}

#[test]
fn lifting_turns_a_lambda_into_a_function_and_a_closure() {
    // let a = 1 in (lambda x: x + a)
    let p = let_in(vec![("a", num(1))], lambda(vec!["x"], prim(Prim::Add, vec![var("x"), var("a")])));
    let (globals, main) = lambda_lift(&p);
    let read = prim(Prim::ArrayGet, vec![var("#env"), num(0)]);
    let body = let_in(vec![("1", read)], prim(Prim::Add, vec![var("2"), var("1")]));
    assert_eq!(globals, vec![def("lambda_0", vec!["2", "#env"], body)]);
    let closure = Exp::MakeClosure {
        arity: 1,
        label: s("lambda_0"),
        env: Box::new(prim(Prim::MakeArray, vec![var("1")])),
        ann: (),
    };
    assert_eq!(main, let_in(vec![("1", num(1))], closure));
}

#[test]
fn lifting_spells_out_a_closure_call() {
    // let f = 1 in f(2, 3)
    let p = let_in(vec![("f", num(1))], call(var("f"), vec![num(2), num(3)]));
    let (globals, main) = lambda_lift(&p);
    assert_eq!(globals, vec![]);
    let step = |p, x| prim(p, vec![var(x)]);
    let protocol = let_in(
        vec![
            ("#lambda", var("1")),
            ("#untagged", step(Prim::CheckArityAndUntag(2), "#lambda")),
            ("#code_ptr", step(Prim::GetCode, "#untagged")),
            ("#env", step(Prim::GetEnv, "#untagged")),
        ],
        Exp::ExternalCall {
            fun: VarOrLabel::Var(s("#code_ptr")),
            args: vec![num(2), num(3), var("#env")],
            is_tail: true,
            ann: (),
        },
    );
    assert_eq!(main, let_in(vec![("1", num(1))], protocol));
}

#[test]
fn nested_lambdas_get_names_of_their_own() {
    let p = lambda(vec!["x"], lambda(vec!["y"], var("x")));
    let (globals, _) = lambda_lift(&p);
    let names: Vec<&str> = globals.iter().map(|d| d.name.as_str()).collect();
    assert_eq!(names, vec!["lambda_0", "lambda_1"]);
    assert_eq!(globals[0].parameters, vec![s("2"), s("#env")]);
    assert_eq!(globals[1].parameters, vec![s("1"), s("#env")]);
}

fn imm(n: i64) -> SeqExp<()> {
    SeqExp::Imm(ImmExp::Num(n), ())
}

fn seq_let(x: &str, bound: SeqExp<()>, body: SeqExp<()>) -> SeqExp<()> {
    SeqExp::Let { var: s(x), bound_exp: Box::new(bound), body: Box::new(body), ann: () }
}

#[test]
fn sequentialize_binds_what_needs_computing() {
    // 2 * 3 + (4 - 5 * 6) + x
    let p = prim(
        Prim::Add,
        vec![
            prim(Prim::Mul, vec![num(2), num(3)]),
            prim(Prim::Sub, vec![num(4), prim(Prim::Mul, vec![num(5), num(6)])]),
            var("x"),
        ],
    );
    let mut counter = 0;
    let q = sequentialize(&p, &mut counter);
    let op = |p, args: Vec<ImmExp>| SeqExp::Prim(p, args, ());
    let n = ImmExp::Num;
    let v = |x: &str| ImmExp::Var(s(x));
    let expected = seq_let(
        "#var_0",
        op(Prim::Mul, vec![n(2), n(3)]),
        seq_let(
            "#var_2",
            seq_let("#var_1", op(Prim::Mul, vec![n(5), n(6)]), op(Prim::Sub, vec![n(4), v("#var_1")])),
            op(Prim::Add, vec![v("#var_0"), v("#var_2"), v("x")]),
        ),
    );
    assert_eq!(q, expected);
    assert_eq!(counter, 3);
}

#[test]
fn sequentialize_binds_the_condition() {
    let p = Exp::If {
        cond: Box::new(prim(Prim::Lt, vec![num(1), num(2)])),
        thn: Box::new(num(3)),
        els: Box::new(Exp::If {
            cond: Box::new(Exp::Bool(true, ())),
            thn: Box::new(num(4)),
            els: Box::new(num(5)),
            ann: (),
        }),
        ann: (),
    };
    let mut counter = 0;
    let q = sequentialize(&p, &mut counter);
    let branch = |c: &str, thn, els| SeqExp::If {
        cond: ImmExp::Var(s(c)),
        thn: Box::new(thn),
        els: Box::new(els),
        ann: (),
    };
    let inner = seq_let("#if_2", SeqExp::Imm(ImmExp::Bool(true), ()), branch("#if_2", imm(4), imm(5)));
    let expected = seq_let(
        "#if_1",
        SeqExp::Prim(Prim::Lt, vec![ImmExp::Num(1), ImmExp::Num(2)], ()),
        branch("#if_1", imm(3), inner),
    );
    assert_eq!(q, expected);
    assert_eq!(counter, 2);
}

#[test]
fn sequentialize_nests_the_bindings_of_a_let() {
    let p = let_in(vec![("a", num(1)), ("b", var("a"))], var("b"));
    let mut counter = 0;
    let v = |x: &str| SeqExp::Imm(ImmExp::Var(s(x)), ());
    assert_eq!(sequentialize(&p, &mut counter), seq_let("a", imm(1), seq_let("b", v("a"), v("b"))));
    let empty = let_in(vec![], num(1));
    assert_eq!(sequentialize(&empty, &mut counter), imm(1));
    assert_eq!(counter, 0);
}

#[test]
fn sequentialize_binds_the_arguments_of_calls() {
    let p = Exp::ExternalCall {
        fun: VarOrLabel::Label(s("f")),
        args: vec![num(1), prim(Prim::Add1, vec![num(2)])],
        is_tail: false,
        ann: (),
    };
    let mut counter = 5;
    let expected = seq_let(
        "#var_5",
        SeqExp::Prim(Prim::Add1, vec![ImmExp::Num(2)], ()),
        SeqExp::ExternalCall {
            fun: VarOrLabel::Label(s("f")),
            args: vec![ImmExp::Num(1), ImmExp::Var(s("#var_5"))],
            is_tail: false,
            ann: (),
        },
    );
    assert_eq!(sequentialize(&p, &mut counter), expected);
    let q = Exp::MakeClosure {
        arity: 1,
        label: s("f"),
        env: Box::new(prim(Prim::MakeArray, vec![])),
        ann: (),
    };
    let expected = seq_let(
        "#var_6",
        SeqExp::Prim(Prim::MakeArray, vec![], ()),
        SeqExp::MakeClosure { arity: 1, label: s("f"), env: ImmExp::Var(s("#var_6")), ann: () },
    );
    assert_eq!(sequentialize(&q, &mut counter), expected);
    assert_eq!(counter, 7);
}

#[test]
fn a_program_is_sequentialized_with_one_counter() {
    let f = def("f", vec!["x"], prim(Prim::Add1, vec![prim(Prim::Add1, vec![var("x")])]));
    let main = prim(Prim::Sub1, vec![prim(Prim::Sub1, vec![num(1)])]);
    let prog = seq_prog(&vec![f], &main);
    let op = |p, x: ImmExp| SeqExp::Prim(p, vec![x], ());
    assert_eq!(prog.funs.len(), 1);
    assert_eq!(prog.funs[0].name, "f");
    assert_eq!(prog.funs[0].parameters, vec![s("x")]);
    assert_eq!(
        prog.funs[0].body,
        seq_let("#var_0", op(Prim::Add1, ImmExp::Var(s("x"))), op(Prim::Add1, ImmExp::Var(s("#var_0"))))
    );
    assert_eq!(
        prog.main,
        seq_let("#var_1", op(Prim::Sub1, ImmExp::Num(1)), op(Prim::Sub1, ImmExp::Var(s("#var_1"))))
    );
}

/// Whether `e` reads only variables in `vars` and jumps only to functions
/// in `local`.
fn closed(e: &Exp<()>, vars: &Vec<String>, local: &Vec<String>) -> bool {
    let all = |es: &Vec<Exp<()>>| es.iter().all(|e| closed(e, vars, local));
    match e {
        Exp::Num(..) | Exp::Bool(..) => true,
        Exp::Var(x, _) => vars.contains(x),
        Exp::Prim(_, es, _) => all(es),
        Exp::Let { bindings, body, .. } => {
            let mut scope = vars.clone();
            for (x, v) in bindings {
                if !closed(v, &scope, local) {
                    return false;
                }
                scope.push(x.clone());
            }
            closed(body, &scope, local)
        }
        Exp::If { cond, thn, els, .. } => {
            closed(cond, vars, local) && closed(thn, vars, local) && closed(els, vars, local)
        }
        Exp::FunDefs { decls, body, .. } => {
            let mut inner = local.clone();
            inner.extend(decls.iter().map(|d| d.name.clone()));
            decls.iter().all(|d| {
                let mut scope = vars.clone();
                scope.extend(d.parameters.iter().cloned());
                closed(&d.body, &scope, &inner)
            }) && closed(body, vars, &inner)
        }
        Exp::MakeClosure { env, .. } => closed(env, vars, local),
        Exp::InternalTailCall(f, args, _) => local.contains(f) && all(args),
        Exp::ExternalCall { fun, args, .. } => {
            let target = match fun {
                VarOrLabel::Var(x) => vars.contains(x),
                VarOrLabel::Label(_) => true,
            };
            target && all(args)
        }
        _ => false,
    }
}

#[test]
fn global_functions_are_closed_after_lifting() {
    // a loop inside a function inside a let, around a lambda that calls both
    let looping = Exp::If {
        cond: Box::new(prim(Prim::Eq, vec![var("n"), var("a")])),
        thn: Box::new(var("x")),
        els: Box::new(call(var("go"), vec![prim(Prim::Sub1, vec![var("n")])])),
        ann: (),
    };
    let f = def("f", vec!["x"], defs(vec![def("go", vec!["n"], looping)], call(var("go"), vec![var("x")])));
    let l = lambda(vec!["y"], prim(Prim::Add, vec![call(var("f"), vec![var("y")]), var("b")]));
    let programs = vec![
        sample(),
        let_in(vec![("a", num(0)), ("b", num(1))], defs(vec![f], call(l, vec![num(3)]))),
    ];
    for p in &programs {
        assert_eq!(check_prog(p, &vec![]), Ok(()));
        let (globals, main) = lambda_lift(p);
        assert!(!globals.is_empty());
        for g in &globals {
            assert!(closed(&g.body, &g.parameters, &vec![]), "{:?}", g);
        }
        assert!(closed(&main, &vec![], &vec![]), "{:?}", main);
    }
}

#[test]
fn a_call_with_too_few_arguments_is_filled_up_with_the_open_parameters() {
    // let a = 5 in def f(x, y): x + a in f(1) + 1: one argument too few;
    // the call passes what f captures, and then names the parameter left open
    let p = let_in(
        vec![("a", num(5))],
        defs(
            vec![def("f", vec!["x", "y"], prim(Prim::Add, vec![var("x"), var("a")]))],
            prim(Prim::Add, vec![call(var("f"), vec![num(1)]), num(1)]),
        ),
    );
    let (globals, main) = lambda_lift(&p);
    assert_eq!(globals[0].parameters, vec![s("3"), s("4"), s("1")]);
    let f = Exp::ExternalCall {
        fun: VarOrLabel::Label(s("2")),
        args: vec![num(1), var("1"), var("1")],
        is_tail: false,
        ann: (),
    };
    assert_eq!(main, let_in(vec![("1", num(5))], prim(Prim::Add, vec![f, num(1)])));
}

#[test]
fn a_function_named_as_a_value_has_to_be_lifted() {
    // def f(x): x in f, with no function in scope around it
    let p = defs(vec![def("f", vec!["x"], var("x"))], var("f"));
    assert_eq!(should_lift(&p, &vec![], true), vec![s("f")]);
    // a variable that names no function is no reason to lift one
    let q = defs(vec![def("f", vec!["x"], var("x"))], num(1));
    assert_eq!(should_lift(&q, &vec![], true), Vec::<String>::new());
    // a function in scope around the expression counts too
    assert_eq!(should_lift(&var("g"), &vec![s("g")], true), vec![s("g")]);
    assert_eq!(should_lift(&var("x"), &vec![s("g")], true), Vec::<String>::new());
    // and so does one named inside a lambda
    let r = defs(
        vec![def("f", vec!["x"], var("x"))],
        Exp::Lambda { parameters: vec![s("y")], body: Box::new(var("f")), ann: () },
    );
    assert_eq!(should_lift(&r, &vec![], true), vec![s("f")]);
}

#[test]
fn a_call_of_a_global_function_names_the_parameters_that_it_leaves_open() {
    // def f(a, y): 0 in f(1) + 1
    let p = defs(
        vec![def("f", vec!["a", "y"], num(0))],
        prim(Prim::Add, vec![call(var("f"), vec![num(1)]), num(1)]),
    );
    let (globals, main) = lambda_lift(&p);
    assert_eq!(globals[0].name, s("1"));
    assert_eq!(globals[0].parameters, vec![s("2"), s("3")]);
    let f = Exp::ExternalCall {
        fun: VarOrLabel::Label(s("1")),
        args: vec![num(1), var("3")],
        is_tail: false,
        ann: (),
    };
    assert_eq!(main, prim(Prim::Add, vec![f, num(1)]));
    // a call with all its arguments gets nothing more
    let q = defs(
        vec![def("f", vec!["a", "y"], num(0))],
        prim(Prim::Add, vec![call(var("f"), vec![num(1), num(2)]), num(1)]),
    );
    let (_, main) = lambda_lift(&q);
    let f = Exp::ExternalCall {
        fun: VarOrLabel::Label(s("1")),
        args: vec![num(1), num(2)],
        is_tail: false,
        ann: (),
    };
    assert_eq!(main, prim(Prim::Add, vec![f, num(1)]));
}

#[test]
fn a_second_run_from_another_counter_renames_and_nothing_else() {
    // let a = 1 in (lambda b: a + b)(a)
    let p = let_in(
        vec![("a", num(1))],
        call(lambda(vec!["b"], prim(Prim::Add, vec![var("a"), var("b")])), vec![var("a")]),
    );
    let once = unique(&p);
    let first = let_in(
        vec![("1", num(1))],
        call(lambda(vec!["2"], prim(Prim::Add, vec![var("1"), var("2")])), vec![var("1")]),
    );
    assert_eq!(once, first);
    // the second run starts at 40: each name goes to a new one, uses with
    // their binders
    let mut counter = 40;
    let twice = uniquify(&once, &Table::new(), &mut counter);
    assert_eq!(counter, 42);
    let second = let_in(
        vec![("41", num(1))],
        call(lambda(vec!["42"], prim(Prim::Add, vec![var("41"), var("42")])), vec![var("41")]),
    );
    assert_eq!(twice, second);
}
