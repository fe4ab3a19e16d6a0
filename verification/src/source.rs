//! What an expression without functions and arrays is worth: the value of a
//! program made of literals, variables, `let`, conditionals, sequencing, and
//! primitives of arithmetic, logic, comparison and testing, or the error that
//! it makes. Operands are evaluated from left to right, and the first error
//! is the error of the whole.

use vstd::prelude::*;
use crate::encoding::in_range;
use crate::meaning::{Fault, Value, outcome, plain, testing};
use crate::syntax::{ExpV, Name};

verus! {

/// Whether a name is one that a program can hold: it does not begin with the
/// mark of the names that the compiler makes up.
pub open spec fn clean(x: Name) -> bool {
    x.len() > 0 && x[0] != '#'
}

/// Whether an expression is made of literals of 63 bits, variables, `let`,
/// conditionals, and primitives of arithmetic, logic, comparison and testing
/// only; and, if `sugar` is set, of sequencing.
pub open spec fn straight(e: ExpV, sugar: bool) -> bool
    decreases e,
{
    match e {
        ExpV::Num(n) => in_range(n as int),
        ExpV::Bool(_) => true,
        ExpV::Var(_) => true,
        ExpV::Prim(p, es) => (plain(p) || testing(p)) && forall|i: int|
            0 <= i < es.len() ==> straight(#[trigger] es[i], sugar),
        ExpV::Let { bindings, body } => (forall|i: int|
            0 <= i < bindings.len() ==> straight((#[trigger] bindings[i]).1, sugar)) && straight(
            *body,
            sugar,
        ),
        ExpV::If { cond, thn, els } => straight(*cond, sugar) && straight(*thn, sugar) && straight(
            *els,
            sugar,
        ),
        ExpV::Semicolon { e1, e2 } => sugar && straight(*e1, sugar) && straight(*e2, sugar),
        _ => false,
    }
}

/// Whether every variable of an expression has a clean name.
pub open spec fn tidy(e: ExpV) -> bool
    decreases e,
{
    match e {
        ExpV::Var(x) => clean(x),
        ExpV::Prim(_, es) => forall|i: int| 0 <= i < es.len() ==> tidy(#[trigger] es[i]),
        ExpV::Let { bindings, body } => (forall|i: int|
            0 <= i < bindings.len() ==> tidy((#[trigger] bindings[i]).1)) && tidy(*body),
        ExpV::If { cond, thn, els } => tidy(*cond) && tidy(*thn) && tidy(*els),
        ExpV::Semicolon { e1, e2 } => tidy(*e1) && tidy(*e2),
        _ => true,
    }
}

/// The value at `i` of a list of values, and the number 0 where the list is
/// shorter.
pub open spec fn nth(vs: Seq<Value>, i: int) -> Value {
    if 0 <= i < vs.len() {
        vs[i]
    } else {
        Value::Int(0)
    }
}

/// The value of a straight expression, or the error that it makes, with the
/// variables bound as `env` says.
pub open spec fn value(e: ExpV, env: Map<Name, Value>) -> Result<Value, Fault>
    decreases e, 0nat,
{
    match e {
        ExpV::Num(n) => Ok(Value::Int(n as int)),
        ExpV::Bool(b) => Ok(Value::Bool(b)),
        ExpV::Var(x) => Ok(env[x]),
        ExpV::Prim(p, es) => match values(es, es.len(), env) {
            Ok(vs) => outcome(p, nth(vs, 0), nth(vs, 1)),
            Err(f) => Err(f),
        },
        ExpV::Let { bindings, body } => match bind(bindings, bindings.len(), env) {
            Ok(inner) => value(*body, inner),
            Err(f) => Err(f),
        },
        ExpV::If { cond, thn, els } => match value(*cond, env) {
            Ok(Value::Bool(b)) => if b {
                value(*thn, env)
            } else {
                value(*els, env)
            },
            Ok(_) => Err(Fault::Condition),
            Err(f) => Err(f),
        },
        ExpV::Semicolon { e1, e2 } => match value(*e1, env) {
            Ok(_) => value(*e2, env),
            Err(f) => Err(f),
        },
        _ => Err(Fault::Arith),
    }
}

/// The values of the first `n` expressions of a list, from left to right, or
/// the first error.
pub open spec fn values(es: Seq<ExpV>, n: nat, env: Map<Name, Value>) -> Result<Seq<Value>, Fault>
    decreases es, n,
{
    if n == 0 || n > es.len() {
        Ok(Seq::empty())
    } else {
        match values(es, (n - 1) as nat, env) {
            Ok(vs) => match value(es[n - 1], env) {
                Ok(v) => Ok(vs.push(v)),
                Err(f) => Err(f),
            },
            Err(f) => Err(f),
        }
    }
}

/// The variables after the first `n` bindings of a `let`: each value sees
/// the bindings before it. Or the first error.
pub open spec fn bind(bs: Seq<(Name, ExpV)>, n: nat, env: Map<Name, Value>) -> Result<
    Map<Name, Value>,
    Fault,
>
    decreases bs, n,
{
    if n == 0 || n > bs.len() {
        Ok(env)
    } else {
        match bind(bs, (n - 1) as nat, env) {
            Ok(inner) => match value(bs[n - 1].1, inner) {
                Ok(v) => Ok(inner.insert(bs[n - 1].0, v)),
                Err(f) => Err(f),
            },
            Err(f) => Err(f),
        }
    }
}

} // verus!
