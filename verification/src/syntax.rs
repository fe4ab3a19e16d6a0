//! The shared data model: the expression tree that the passes rewrite, the
//! sequential tree that instruction selection consumes, and for each a
//! mathematical view in which the passes' contracts are written.

use vstd::prelude::*;

verus! {

/// A name as contracts see it.
pub type Name = Seq<char>;

/// Primitive operations. The last three exist only after lambda lifting.
#[derive(Debug, Clone, Copy, PartialEq, Eq)]
pub enum Prim {
    Add,
    Sub,
    Mul,
    Add1,
    Sub1,
    Not,
    Print,
    IsBool,
    IsNum,
    And,
    Or,
    Lt,
    Gt,
    Le,
    Ge,
    Eq,
    Neq,
    Length,
    IsFun,
    IsArray,
    MakeArray,
    ArrayGet,
    ArraySet,
    GetCode,
    GetEnv,
    CheckArityAndUntag(usize),
}

/// The target of an external call: a global label, or a variable that holds a
/// code pointer.
#[derive(Debug, Clone, PartialEq, Eq)]
pub enum VarOrLabel {
    Var(String),
    Label(String),
}

/// A function declaration whose body is of type `E`.
#[derive(Debug, PartialEq, Eq)]
pub struct FunDecl<E, Ann> {
    pub name: String,
    pub parameters: Vec<String>,
    pub body: E,
    pub ann: Ann,
}

/// The expression tree. The surface forms come first; closure conversion
/// introduces `MakeClosure`, `ClosureCall` and `DirectCall`; lambda lifting
/// introduces `InternalTailCall` and `ExternalCall`.
#[derive(Debug, PartialEq, Eq)]
pub enum Exp<Ann> {
    Num(i64, Ann),
    Bool(bool, Ann),
    Var(String, Ann),
    Prim(Prim, Vec<Exp<Ann>>, Ann),
    Let { bindings: Vec<(String, Exp<Ann>)>, body: Box<Exp<Ann>>, ann: Ann },
    If { cond: Box<Exp<Ann>>, thn: Box<Exp<Ann>>, els: Box<Exp<Ann>>, ann: Ann },
    Semicolon { e1: Box<Exp<Ann>>, e2: Box<Exp<Ann>>, ann: Ann },
    FunDefs { decls: Vec<FunDecl<Exp<Ann>, Ann>>, body: Box<Exp<Ann>>, ann: Ann },
    Call(Box<Exp<Ann>>, Vec<Exp<Ann>>, Ann),
    Lambda { parameters: Vec<String>, body: Box<Exp<Ann>>, ann: Ann },
    MakeClosure { arity: usize, label: String, env: Box<Exp<Ann>>, ann: Ann },
    ClosureCall(Box<Exp<Ann>>, Vec<Exp<Ann>>, Ann),
    DirectCall(String, Vec<Exp<Ann>>, Ann),
    InternalTailCall(String, Vec<Exp<Ann>>, Ann),
    ExternalCall { fun: VarOrLabel, args: Vec<Exp<Ann>>, is_tail: bool, ann: Ann },
}

/// A program as the parser hands it over.
pub type SurfProg<Ann> = Exp<Ann>;

/// An operand that needs no computation.
#[derive(Debug, Clone, PartialEq, Eq)]
pub enum ImmExp {
    Num(i64),
    Bool(bool),
    Var(String),
}

/// The sequential tree: every operand of a primitive, a conditional or a call
/// is immediate.
#[derive(Debug, PartialEq, Eq)]
pub enum SeqExp<Ann> {
    Imm(ImmExp, Ann),
    Prim(Prim, Vec<ImmExp>, Ann),
    MakeClosure { arity: usize, label: String, env: ImmExp, ann: Ann },
    Let { var: String, bound_exp: Box<SeqExp<Ann>>, body: Box<SeqExp<Ann>>, ann: Ann },
    If { cond: ImmExp, thn: Box<SeqExp<Ann>>, els: Box<SeqExp<Ann>>, ann: Ann },
    FunDefs { decls: Vec<FunDecl<SeqExp<Ann>, Ann>>, body: Box<SeqExp<Ann>>, ann: Ann },
    InternalTailCall(String, Vec<ImmExp>, Ann),
    ExternalCall { fun: VarOrLabel, args: Vec<ImmExp>, is_tail: bool, ann: Ann },
}

/// A whole program in sequential form: the global functions and the main
/// expression.
#[derive(Debug, PartialEq, Eq)]
pub struct SeqProg<Ann> {
    pub funs: Vec<FunDecl<SeqExp<Ann>, Ann>>,
    pub main: SeqExp<Ann>,
    pub ann: Ann,
}

/// View of [`VarOrLabel`].
pub enum VarOrLabelV {
    Var(Name),
    Label(Name),
}

/// View of a function declaration over [`Exp`].
pub struct FunDeclV {
    pub name: Name,
    pub parameters: Seq<Name>,
    pub body: ExpV,
}

/// View of [`Exp`]: the same tree without annotations, over sequences.
pub enum ExpV {
    Num(i64),
    Bool(bool),
    Var(Name),
    Prim(Prim, Seq<ExpV>),
    Let { bindings: Seq<(Name, ExpV)>, body: Box<ExpV> },
    If { cond: Box<ExpV>, thn: Box<ExpV>, els: Box<ExpV> },
    Semicolon { e1: Box<ExpV>, e2: Box<ExpV> },
    FunDefs { decls: Seq<FunDeclV>, body: Box<ExpV> },
    Call(Box<ExpV>, Seq<ExpV>),
    Lambda { parameters: Seq<Name>, body: Box<ExpV> },
    MakeClosure { arity: usize, label: Name, env: Box<ExpV> },
    ClosureCall(Box<ExpV>, Seq<ExpV>),
    DirectCall(Name, Seq<ExpV>),
    InternalTailCall(Name, Seq<ExpV>),
    ExternalCall { fun: VarOrLabelV, args: Seq<ExpV>, is_tail: bool },
}

/// View of [`ImmExp`].
pub enum ImmV {
    Num(i64),
    Bool(bool),
    Var(Name),
}

/// View of a function declaration over [`SeqExp`].
pub struct SeqFunDeclV {
    pub name: Name,
    pub parameters: Seq<Name>,
    pub body: SeqExpV,
}

/// View of [`SeqExp`].
pub enum SeqExpV {
    Imm(ImmV),
    Prim(Prim, Seq<ImmV>),
    MakeClosure { arity: usize, label: Name, env: ImmV },
    Let { var: Name, bound_exp: Box<SeqExpV>, body: Box<SeqExpV> },
    If { cond: ImmV, thn: Box<SeqExpV>, els: Box<SeqExpV> },
    FunDefs { decls: Seq<SeqFunDeclV>, body: Box<SeqExpV> },
    InternalTailCall(Name, Seq<ImmV>),
    ExternalCall { fun: VarOrLabelV, args: Seq<ImmV>, is_tail: bool },
}

/// View of [`SeqProg`].
pub struct SeqProgV {
    pub funs: Seq<SeqFunDeclV>,
    pub main: SeqExpV,
}

/// The names in a list of strings.
pub open spec fn names_view(s: Seq<String>) -> Seq<Name> {
    Seq::new(s.len(), |i: int| s[i]@)
}

impl VarOrLabel {
    /// The value that contracts speak of.
    pub open spec fn view(&self) -> VarOrLabelV {
        match self {
            VarOrLabel::Var(x) => VarOrLabelV::Var(x@),
            VarOrLabel::Label(x) => VarOrLabelV::Label(x@),
        }
    }
}

impl ImmExp {
    /// The value that contracts speak of.
    pub open spec fn view(&self) -> ImmV {
        match self {
            ImmExp::Num(n) => ImmV::Num(*n),
            ImmExp::Bool(b) => ImmV::Bool(*b),
            ImmExp::Var(x) => ImmV::Var(x@),
        }
    }
}

/// The views of a list of immediates.
pub open spec fn imms_view(s: Seq<ImmExp>) -> Seq<ImmV> {
    Seq::new(s.len(), |i: int| s[i]@)
}

impl<Ann> Exp<Ann> {
    /// The value that contracts speak of.
    pub open spec fn view(&self) -> ExpV
        decreases self,
    {
        match self {
            Exp::Num(n, _) => ExpV::Num(*n),
            Exp::Bool(b, _) => ExpV::Bool(*b),
            Exp::Var(x, _) => ExpV::Var(x@),
            Exp::Prim(p, es, _) => ExpV::Prim(*p, exps_view(es@)),
            Exp::Let { bindings, body, .. } => ExpV::Let {
                bindings: bindings_view(bindings@),
                body: Box::new(body.view()),
            },
            Exp::If { cond, thn, els, .. } => ExpV::If {
                cond: Box::new(cond.view()),
                thn: Box::new(thn.view()),
                els: Box::new(els.view()),
            },
            Exp::Semicolon { e1, e2, .. } => ExpV::Semicolon {
                e1: Box::new(e1.view()),
                e2: Box::new(e2.view()),
            },
            Exp::FunDefs { decls, body, .. } => ExpV::FunDefs {
                decls: decls_view(decls@),
                body: Box::new(body.view()),
            },
            Exp::Call(f, args, _) => ExpV::Call(Box::new(f.view()), exps_view(args@)),
            Exp::Lambda { parameters, body, .. } => ExpV::Lambda {
                parameters: names_view(parameters@),
                body: Box::new(body.view()),
            },
            Exp::MakeClosure { arity, label, env, .. } => ExpV::MakeClosure {
                arity: *arity,
                label: label@,
                env: Box::new(env.view()),
            },
            Exp::ClosureCall(f, args, _) => ExpV::ClosureCall(
                Box::new(f.view()),
                exps_view(args@),
            ),
            Exp::DirectCall(f, args, _) => ExpV::DirectCall(f@, exps_view(args@)),
            Exp::InternalTailCall(f, args, _) => ExpV::InternalTailCall(f@, exps_view(args@)),
            Exp::ExternalCall { fun, args, is_tail, .. } => ExpV::ExternalCall {
                fun: fun@,
                args: exps_view(args@),
                is_tail: *is_tail,
            },
        }
    }
}

/// The views of a list of expressions.
pub open spec fn exps_view<Ann>(es: Seq<Exp<Ann>>) -> Seq<ExpV>
    decreases es,
{
    Seq::new(
        es.len(),
        |i: int|
            if 0 <= i < es.len() {
                es[i].view()
            } else {
                arbitrary()
            },
    )
}

/// The views of a list of bindings.
pub open spec fn bindings_view<Ann>(bs: Seq<(String, Exp<Ann>)>) -> Seq<(Name, ExpV)>
    decreases bs,
{
    Seq::new(
        bs.len(),
        |i: int|
            if 0 <= i < bs.len() {
                (bs[i].0@, bs[i].1.view())
            } else {
                arbitrary()
            },
    )
}

/// The view of one function declaration.
pub open spec fn decl_view<Ann>(d: FunDecl<Exp<Ann>, Ann>) -> FunDeclV
    decreases d,
{
    FunDeclV { name: d.name@, parameters: names_view(d.parameters@), body: d.body.view() }
}

/// The views of a list of function declarations.
pub open spec fn decls_view<Ann>(ds: Seq<FunDecl<Exp<Ann>, Ann>>) -> Seq<FunDeclV>
    decreases ds,
{
    Seq::new(
        ds.len(),
        |i: int|
            if 0 <= i < ds.len() {
                decl_view(ds[i])
            } else {
                arbitrary()
            },
    )
}

impl<Ann> SeqExp<Ann> {
    /// The value that contracts speak of.
    pub open spec fn view(&self) -> SeqExpV
        decreases self,
    {
        match self {
            SeqExp::Imm(i, _) => SeqExpV::Imm(i@),
            SeqExp::Prim(p, args, _) => SeqExpV::Prim(*p, imms_view(args@)),
            SeqExp::MakeClosure { arity, label, env, .. } => SeqExpV::MakeClosure {
                arity: *arity,
                label: label@,
                env: env@,
            },
            SeqExp::Let { var, bound_exp, body, .. } => SeqExpV::Let {
                var: var@,
                bound_exp: Box::new(bound_exp.view()),
                body: Box::new(body.view()),
            },
            SeqExp::If { cond, thn, els, .. } => SeqExpV::If {
                cond: cond@,
                thn: Box::new(thn.view()),
                els: Box::new(els.view()),
            },
            SeqExp::FunDefs { decls, body, .. } => SeqExpV::FunDefs {
                decls: seq_decls_view(decls@),
                body: Box::new(body.view()),
            },
            SeqExp::InternalTailCall(f, args, _) => SeqExpV::InternalTailCall(
                f@,
                imms_view(args@),
            ),
            SeqExp::ExternalCall { fun, args, is_tail, .. } => SeqExpV::ExternalCall {
                fun: fun@,
                args: imms_view(args@),
                is_tail: *is_tail,
            },
        }
    }
}

/// The view of one function declaration in sequential form.
pub open spec fn seq_decl_view<Ann>(d: FunDecl<SeqExp<Ann>, Ann>) -> SeqFunDeclV
    decreases d,
{
    SeqFunDeclV { name: d.name@, parameters: names_view(d.parameters@), body: d.body.view() }
}

/// The views of a list of function declarations in sequential form.
pub open spec fn seq_decls_view<Ann>(ds: Seq<FunDecl<SeqExp<Ann>, Ann>>) -> Seq<SeqFunDeclV>
    decreases ds,
{
    Seq::new(
        ds.len(),
        |i: int|
            if 0 <= i < ds.len() {
                seq_decl_view(ds[i])
            } else {
                arbitrary()
            },
    )
}

impl<Ann> SeqProg<Ann> {
    /// The value that contracts speak of.
    pub open spec fn view(&self) -> SeqProgV {
        SeqProgV { funs: seq_decls_view(self.funs@), main: self.main@ }
    }
}

/// Copies the target of a call.
pub fn clone_target(t: &VarOrLabel) -> (r: VarOrLabel)
    ensures
        r@ == t@,
{
    match t {
        VarOrLabel::Var(x) => VarOrLabel::Var(x.clone()),
        VarOrLabel::Label(x) => VarOrLabel::Label(x.clone()),
    }
}

/// Copies a list of names.
pub fn clone_names(names: &Vec<String>) -> (r: Vec<String>)
    ensures
        names_view(r@) == names_view(names@),
{
    let mut r: Vec<String> = Vec::new();
    let mut i: usize = 0;
    while i < names.len()
        invariant
            i <= names.len(),
            r.len() == i,
            forall|j: int| 0 <= j < i ==> r[j]@ == names[j]@,
        decreases names.len() - i,
    {
        r.push(names[i].clone());
        i += 1;
    }
    assert(names_view(r@) =~= names_view(names@));
    r
}


/// How far a tree has come through the passes. Each stage allows fewer or
/// other forms than the one before.
pub enum Stage {
    /// What the parser hands over.
    Surface,
    /// After uniquification: no `Semicolon` is left.
    Core,
    /// After closure conversion: every call is a `DirectCall` or a
    /// `ClosureCall`, and a function used as a value is a `MakeClosure`.
    Converted,
    /// After hoisting: no `Lambda` is left.
    Hoisted,
    /// After lambda lifting: every call is an `InternalTailCall` or an
    /// `ExternalCall`.
    Lifted,
}

/// Whether the form at the root of `e` may occur at stage `s`.
pub open spec fn form_in(e: ExpV, s: Stage) -> bool {
    match e {
        ExpV::Semicolon { .. } => s is Surface,
        ExpV::Call(..) => s is Surface || s is Core,
        ExpV::Lambda { .. } => s is Surface || s is Core || s is Converted,
        ExpV::MakeClosure { .. } => s is Converted || s is Hoisted || s is Lifted,
        ExpV::ClosureCall(..) => s is Converted || s is Hoisted,
        ExpV::DirectCall(..) => s is Converted || s is Hoisted,
        ExpV::InternalTailCall(..) => s is Lifted,
        ExpV::ExternalCall { .. } => s is Lifted,
        _ => true,
    }
}

/// Whether every form in `e` may occur at stage `s`.
pub open spec fn in_stage(e: ExpV, s: Stage) -> bool
    decreases e,
{
    form_in(e, s) && match e {
        ExpV::Num(_) | ExpV::Bool(_) | ExpV::Var(_) => true,
        ExpV::Prim(_, es) => all_in_stage(es, s),
        ExpV::Let { bindings, body } => (forall|i: int|
            0 <= i < bindings.len() ==> in_stage((#[trigger] bindings[i]).1, s)) && in_stage(*body, s),
        ExpV::If { cond, thn, els } => in_stage(*cond, s) && in_stage(*thn, s) && in_stage(*els, s),
        ExpV::Semicolon { e1, e2 } => in_stage(*e1, s) && in_stage(*e2, s),
        ExpV::FunDefs { decls, body } => (forall|i: int|
            0 <= i < decls.len() ==> in_stage((#[trigger] decls[i]).body, s)) && in_stage(*body, s),
        ExpV::Call(f, args) => in_stage(*f, s) && all_in_stage(args, s),
        ExpV::Lambda { body, .. } => in_stage(*body, s),
        ExpV::MakeClosure { env, .. } => in_stage(*env, s),
        ExpV::ClosureCall(f, args) => in_stage(*f, s) && all_in_stage(args, s),
        ExpV::DirectCall(_, args) => all_in_stage(args, s),
        ExpV::InternalTailCall(_, args) => all_in_stage(args, s),
        ExpV::ExternalCall { args, .. } => all_in_stage(args, s),
    }
}

/// Whether every expression of a list is at stage `s`.
pub open spec fn all_in_stage(es: Seq<ExpV>, s: Stage) -> bool
    decreases es,
{
    forall|i: int| 0 <= i < es.len() ==> in_stage(#[trigger] es[i], s)
}

/// A tree of the stage behind the surface is a surface tree: uniquification
/// only takes sequencing away.
pub proof fn lemma_core_is_surface(e: ExpV)
    requires
        in_stage(e, Stage::Core),
    ensures
        in_stage(e, Stage::Surface),
    decreases e,
{
    match e {
        ExpV::Prim(_, es) => {
            assert(all_in_stage(es, Stage::Core));
            assert forall|i: int| 0 <= i < es.len() implies in_stage(
                #[trigger] es[i],
                Stage::Surface,
            ) by {
                assert(in_stage(es[i], Stage::Core));
                lemma_core_is_surface(es[i]);
            }
            assert(all_in_stage(es, Stage::Surface));
        },
        ExpV::Let { bindings, body } => {
            assert forall|i: int| 0 <= i < bindings.len() implies in_stage(
                (#[trigger] bindings[i]).1,
                Stage::Surface,
            ) by {
                lemma_core_is_surface(bindings[i].1);
            }
            lemma_core_is_surface(*body);
        },
        ExpV::If { cond, thn, els } => {
            lemma_core_is_surface(*cond);
            lemma_core_is_surface(*thn);
            lemma_core_is_surface(*els);
        },
        ExpV::FunDefs { decls, body } => {
            assert forall|i: int| 0 <= i < decls.len() implies in_stage(
                (#[trigger] decls[i]).body,
                Stage::Surface,
            ) by {
                lemma_core_is_surface(decls[i].body);
            }
            lemma_core_is_surface(*body);
        },
        ExpV::Call(f, args) => {
            lemma_core_is_surface(*f);
            assert(all_in_stage(args, Stage::Core));
            assert forall|i: int| 0 <= i < args.len() implies in_stage(
                #[trigger] args[i],
                Stage::Surface,
            ) by {
                assert(in_stage(args[i], Stage::Core));
                lemma_core_is_surface(args[i]);
            }
            assert(all_in_stage(args, Stage::Surface));
        },
        ExpV::Lambda { body, .. } => {
            lemma_core_is_surface(*body);
        },
        _ => {},
    }
}

/// Whether the body of every declaration of a list is at stage `s`.
pub open spec fn bodies_in_stage(ds: Seq<FunDeclV>, s: Stage) -> bool {
    forall|i: int| 0 <= i < ds.len() ==> in_stage((#[trigger] ds[i]).body, s)
}

/// The sum of `f(0)`, ..., `f(n - 1)`.
pub open spec fn sum_to(n: nat, f: spec_fn(int) -> nat) -> nat
    decreases n,
{
    if n == 0 {
        0
    } else {
        sum_to((n - 1) as nat, f) + f(n - 1)
    }
}

/// A partial sum and the next term stay below the whole sum.
pub proof fn lemma_sum_to(i: nat, n: nat, f: spec_fn(int) -> nat)
    requires
        i < n,
    ensures
        sum_to(i, f) + f(i as int) == sum_to(i + 1, f),
        sum_to(i + 1, f) <= sum_to(n, f),
    decreases n,
{
    if i + 1 < n {
        lemma_sum_to(i, (n - 1) as nat, f);
    }
}

/// Sums of terms that agree are equal.
pub proof fn lemma_sum_to_eq(n: nat, f: spec_fn(int) -> nat, g: spec_fn(int) -> nat)
    requires
        forall|i: int| 0 <= i < n ==> #[trigger] f(i) == g(i),
    ensures
        sum_to(n, f) == sum_to(n, g),
    decreases n,
{
    if n > 0 {
        lemma_sum_to_eq((n - 1) as nat, f, g);
    }
}

/// How many names an expression binds: one for each `let` binding, function,
/// parameter and sequencing.
pub open spec fn binders(e: ExpV) -> nat
    decreases e,
{
    match e {
        ExpV::Num(_) | ExpV::Bool(_) | ExpV::Var(_) => 0,
        ExpV::Prim(_, es) => sum_to(es.len(), binders_at(es)),
        ExpV::Let { bindings, body } => sum_to(bindings.len(), binding_binders_at(bindings))
            + binders(*body),
        ExpV::If { cond, thn, els } => binders(*cond) + binders(*thn) + binders(*els),
        ExpV::Semicolon { e1, e2 } => 1 + binders(*e1) + binders(*e2),
        ExpV::FunDefs { decls, body } => decls.len() + sum_to(decls.len(), decl_binders_at(decls))
            + binders(*body),
        ExpV::Call(f, args) => binders(*f) + sum_to(args.len(), binders_at(args)),
        ExpV::Lambda { parameters, body } => parameters.len() + binders(*body),
        ExpV::MakeClosure { env, .. } => binders(*env),
        ExpV::ClosureCall(f, args) => binders(*f) + sum_to(args.len(), binders_at(args)),
        ExpV::DirectCall(_, args) => sum_to(args.len(), binders_at(args)),
        ExpV::InternalTailCall(_, args) => sum_to(args.len(), binders_at(args)),
        ExpV::ExternalCall { args, .. } => sum_to(args.len(), binders_at(args)),
    }
}

/// The binders of each expression of a list.
pub open spec fn binders_at(es: Seq<ExpV>) -> spec_fn(int) -> nat
    decreases es,
{
    |i: int|
        if 0 <= i < es.len() {
            binders(es[i])
        } else {
            0
        }
}

/// The binders of each binding of a `let`: its name and those of its value.
pub open spec fn binding_binders_at(bs: Seq<(Name, ExpV)>) -> spec_fn(int) -> nat
    decreases bs,
{
    |i: int|
        if 0 <= i < bs.len() {
            1 + binders(bs[i].1)
        } else {
            0
        }
}

/// The binders of each declaration of a group, its own name apart: its
/// parameters and those of its body.
pub open spec fn decl_binders_at(ds: Seq<FunDeclV>) -> spec_fn(int) -> nat
    decreases ds,
{
    |i: int|
        if 0 <= i < ds.len() {
            ds[i].parameters.len() + binders(ds[i].body)
        } else {
            0
        }
}

/// The names that a `let` binds, in order.
pub open spec fn binding_names(bs: Seq<(Name, ExpV)>) -> Seq<Name> {
    Seq::new(bs.len(), |i: int| bs[i].0)
}

/// The names that a group of functions declares, in order.
pub open spec fn decl_names(ds: Seq<FunDeclV>) -> Seq<Name> {
    Seq::new(ds.len(), |i: int| ds[i].name)
}

} // verus!
