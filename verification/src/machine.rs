//! A model of the machine, as far as code without calls and loops needs it:
//! registers, memory, two flags, and what each instruction does to them. A
//! jump goes forward to its label, and ends the run if the code does not hold
//! the label.

use vstd::prelude::*;
use crate::syntax::Name;
use crate::x86::{Arg32, Arg64, BinArgs, InstrV, JmpArgV, MemRef, MovArgs, Offset, Reg, Reg32};

verus! {

/// The state of the machine.
pub struct State {
    /// The word in each register.
    pub reg: spec_fn(Reg) -> u64,
    /// The word at each address.
    pub mem: spec_fn(int) -> u64,
    /// The zero flag.
    pub zero: bool,
    /// The overflow flag.
    pub overflow: bool,
}

/// How a run ends.
pub enum Stop {
    /// The code ran to its end.
    End(State),
    /// A jump was taken to a label that the code does not hold.
    Jump(Name, State),
    /// The code held an instruction that the model does not cover.
    Stuck,
}

/// A word read as a signed number.
#[verifier::opaque]
pub open spec fn signed(x: u64) -> int {
    if x < 0x8000_0000_0000_0000 {
        x as int
    } else {
        x as int - 0x1_0000_0000_0000_0000
    }
}

/// The word that holds the lowest 64 bits of an integer.
#[verifier::opaque]
pub open spec fn wrap(i: int) -> u64 {
    (i % 0x1_0000_0000_0000_0000) as u64
}

/// The state with a register set.
pub open spec fn set_reg(s: State, r: Reg, v: u64) -> State {
    State {
        reg: |x: Reg|
            if x == r {
                v
            } else {
                (s.reg)(x)
            },
        ..s
    }
}

/// The state with a word of memory set.
pub open spec fn set_mem(s: State, address: int, v: u64) -> State {
    State {
        mem: |a: int|
            if a == address {
                v
            } else {
                (s.mem)(a)
            },
        ..s
    }
}

/// The address of a memory operand.
pub open spec fn address(m: MemRef, s: State) -> int {
    match m.offset {
        Offset::Constant(n) => (s.reg)(m.reg) + n,
        Offset::Computed { reg, factor, constant } => (s.reg)(m.reg) + (s.reg)(reg) * factor
            + constant,
    }
}

/// The word that a source operand with a 64-bit immediate gives.
pub open spec fn source64(a: Arg64, s: State) -> u64 {
    match a {
        Arg64::Reg(r) => (s.reg)(r),
        Arg64::Signed(i) => wrap(i as int),
        Arg64::Unsigned(u) => u,
        Arg64::Mem(m) => (s.mem)(address(m, s)),
    }
}

/// The word that a source operand with a 32-bit immediate gives: the
/// immediate is extended by its sign.
pub open spec fn source32(a: Arg32, s: State) -> u64 {
    match a {
        Arg32::Reg(r) => (s.reg)(r),
        Arg32::Signed(i) => wrap(i as int),
        Arg32::Unsigned(u) => if u < 0x8000_0000 {
            u as u64
        } else {
            wrap(u as int - 0x1_0000_0000)
        },
        Arg32::Mem(m) => (s.mem)(address(m, s)),
    }
}

/// Whether an integer fits in a signed machine word.
pub open spec fn fits(i: int) -> bool {
    -0x8000_0000_0000_0000 <= i <= 0x7FFF_FFFF_FFFF_FFFF
}

/// The state after arithmetic that left `result` in `r`.
pub open spec fn computed(s: State, r: Reg, result: int) -> State {
    State { zero: wrap(result) == 0, overflow: !fits(result), ..set_reg(s, r, wrap(result)) }
}

/// The state after a bitwise operation that left `result` in `r`.
pub open spec fn combined(s: State, r: Reg, result: u64) -> State {
    State { zero: result == 0, overflow: false, ..set_reg(s, r, result) }
}

/// What one instruction does.
pub open spec fn step(i: InstrV, s: State) -> Stop {
    match i {
        InstrV::Mov(MovArgs::ToReg(r, a)) => Stop::End(set_reg(s, r, source64(a, s))),
        InstrV::Mov(MovArgs::ToMem(m, Reg32::Reg(r))) => Stop::End(
            set_mem(s, address(m, s), (s.reg)(r)),
        ),
        InstrV::Add(BinArgs::ToReg(r, a)) => Stop::End(
            computed(s, r, signed((s.reg)(r)) + signed(source32(a, s))),
        ),
        InstrV::Sub(BinArgs::ToReg(r, a)) => Stop::End(
            computed(s, r, signed((s.reg)(r)) - signed(source32(a, s))),
        ),
        InstrV::IMul(BinArgs::ToReg(r, a)) => Stop::End(
            computed(s, r, signed((s.reg)(r)) * signed(source32(a, s))),
        ),
        InstrV::Cmp(BinArgs::ToReg(r, a)) => {
            let result = signed((s.reg)(r)) - signed(source32(a, s));
            Stop::End(State { zero: wrap(result) == 0, overflow: !fits(result), ..s })
        },
        InstrV::And(BinArgs::ToReg(r, a)) => Stop::End(
            combined(s, r, (s.reg)(r) & source32(a, s)),
        ),
        InstrV::Or(BinArgs::ToReg(r, a)) => Stop::End(combined(s, r, (s.reg)(r) | source32(a, s))),
        InstrV::Xor(BinArgs::ToReg(r, a)) => Stop::End(
            combined(s, r, (s.reg)(r) ^ source32(a, s)),
        ),
        InstrV::Sar(BinArgs::ToReg(r, Arg32::Signed(1))) => {
            let result = wrap(signed((s.reg)(r)) / 2);
            Stop::End(State { zero: result == 0, overflow: false, ..set_reg(s, r, result) })
        },
        InstrV::Label(_) => Stop::End(s),
        InstrV::Jmp(JmpArgV::Label(l)) => Stop::Jump(l, s),
        InstrV::Je(JmpArgV::Label(l)) => if s.zero {
            Stop::Jump(l, s)
        } else {
            Stop::End(s)
        },
        InstrV::Jne(JmpArgV::Label(l)) => if s.zero {
            Stop::End(s)
        } else {
            Stop::Jump(l, s)
        },
        InstrV::Jo(JmpArgV::Label(l)) => if s.overflow {
            Stop::Jump(l, s)
        } else {
            Stop::End(s)
        },
        _ => Stop::Stuck,
    }
}

/// The index of the first place where code holds the label `l`.
pub open spec fn find(is: Seq<InstrV>, l: Name) -> Option<int>
    decreases is.len(),
{
    if is.len() == 0 {
        None
    } else if is[0] == InstrV::Label(l) {
        Some(0)
    } else {
        match find(is.drop_first(), l) {
            Some(k) => Some(k + 1),
            None => None,
        }
    }
}

/// Where a run goes on after a jump to `l`: behind the label, if `is` holds
/// it.
pub open spec fn resume(is: Seq<InstrV>, l: Name, s: State) -> Stop
    decreases is.len(), 0nat,
{
    match find(is, l) {
        Some(k) => if 0 <= k < is.len() {
            run(is.skip(k + 1), s)
        } else {
            Stop::Stuck
        },
        None => Stop::Jump(l, s),
    }
}

/// What a piece of code does: its instructions in order, where a jump goes
/// on behind its label further on, or ends the run.
pub open spec fn run(is: Seq<InstrV>, s: State) -> Stop
    decreases is.len(), 1nat,
{
    if is.len() == 0 {
        Stop::End(s)
    } else {
        match step(is[0], s) {
            Stop::End(next) => run(is.drop_first(), next),
            Stop::Jump(l, next) => resume(is.drop_first(), l, next),
            Stop::Stuck => Stop::Stuck,
        }
    }
}

/// What a second piece of code does after a first.
pub open spec fn followed(first: Stop, second: Seq<InstrV>) -> Stop {
    match first {
        Stop::End(s) => run(second, s),
        Stop::Jump(l, s) => resume(second, l, s),
        Stop::Stuck => Stop::Stuck,
    }
}

/// A label that is found is found at an index of the code.
pub proof fn lemma_find_bounds(is: Seq<InstrV>, l: Name)
    ensures
        find(is, l) matches Some(k) ==> 0 <= k < is.len() && is[k] == InstrV::Label(l),
    decreases is.len(),
{
    if is.len() > 0 && is[0] != InstrV::Label(l) {
        lemma_find_bounds(is.drop_first(), l);
    }
}

/// A label is found in two pieces of code where it is found first.
pub proof fn lemma_find_add(a: Seq<InstrV>, b: Seq<InstrV>, l: Name)
    ensures
        find(a + b, l) == match find(a, l) {
            Some(k) => Some(k),
            None => match find(b, l) {
                Some(k) => Some(a.len() + k),
                None => None,
            },
        },
    decreases a.len(),
{
    if a.len() == 0 {
        assert(a + b =~= b);
    } else {
        assert((a + b)[0] == a[0]);
        assert((a + b).drop_first() =~= a.drop_first() + b);
        if a[0] != InstrV::Label(l) {
            lemma_find_add(a.drop_first(), b, l);
        }
    }
}

/// An integer that fits in a word is the word that holds it, read as a signed
/// number; and a small number is its own word.
pub proof fn lemma_wrap(i: int)
    requires
        fits(i),
    ensures
        signed(wrap(i)) == i,
        wrap(i) == 0 <==> i == 0,
        0 <= i ==> wrap(i) == i,
        i < 0 <==> wrap(i) >= 0x8000_0000_0000_0000,
{
    reveal(signed);
    reveal(wrap);
}

/// A word below the sign bit is itself as a signed number.
pub proof fn lemma_signed_small(x: u64)
    requires
        x < 0x8000_0000_0000_0000,
    ensures
        signed(x) == x,
{
    reveal(signed);
}

/// Code made of two pieces runs the first and then the second; a jump out
/// of the first goes on in the second, if the second holds its label.
pub proof fn lemma_run_add(a: Seq<InstrV>, b: Seq<InstrV>, s: State)
    ensures
        run(a + b, s) == followed(run(a, s), b),
    decreases a.len(), 1nat,
{
    if a.len() == 0 {
        assert(a + b =~= b);
    } else {
        assert((a + b)[0] == a[0]);
        assert((a + b).drop_first() =~= a.drop_first() + b);
        match step(a[0], s) {
            Stop::End(next) => {
                lemma_run_add(a.drop_first(), b, next);
            },
            Stop::Jump(l, next) => {
                lemma_resume_add(a.drop_first(), b, l, next);
            },
            Stop::Stuck => {},
        }
    }
}

/// [`lemma_run_add`] for a run that goes on after a jump.
pub proof fn lemma_resume_add(a: Seq<InstrV>, b: Seq<InstrV>, l: Name, s: State)
    ensures
        resume(a + b, l, s) == followed(resume(a, l, s), b),
    decreases a.len(), 0nat,
{
    lemma_find_add(a, b, l);
    lemma_find_bounds(a, l);
    lemma_find_bounds(b, l);
    match find(a, l) {
        Some(k) => {
            assert((a + b).skip(k + 1) =~= a.skip(k + 1) + b);
            lemma_run_add(a.skip(k + 1), b, s);
        },
        None => {
            match find(b, l) {
                Some(k) => {
                    assert((a + b).skip(a.len() + k + 1) =~= b.skip(k + 1));
                },
                None => {},
            }
        },
    }
}

/// Whether code holds no label.
pub open spec fn silent(is: Seq<InstrV>) -> bool {
    forall|k: int| 0 <= k < is.len() ==> !(#[trigger] is[k] is Label)
}

/// Code that holds no label holds no label `l`.
pub proof fn lemma_silent(is: Seq<InstrV>, l: Name)
    requires
        silent(is),
    ensures
        find(is, l) is None,
    decreases is.len(),
{
    if is.len() > 0 {
        assert(!(is[0] is Label));
        assert forall|k: int| 0 <= k < is.drop_first().len() implies !(
        #[trigger] is.drop_first()[k] is Label) by {
            assert(is.drop_first()[k] == is[k + 1]);
        }
        lemma_silent(is.drop_first(), l);
    }
}

/// What code does after a first piece, if it holds no label: it runs where
/// the first piece ends, and a jump out of the first piece ends the run.
pub open spec fn before_silent(first: Stop, second: Seq<InstrV>) -> Stop {
    match first {
        Stop::End(s) => run(second, s),
        other => other,
    }
}

/// [`lemma_run_add`] for a second piece that holds no label.
pub proof fn lemma_run_add_silent(a: Seq<InstrV>, b: Seq<InstrV>, s: State)
    requires
        silent(b),
    ensures
        run(a + b, s) == before_silent(run(a, s), b),
{
    lemma_run_add(a, b, s);
    match run(a, s) {
        Stop::Jump(l, _) => {
            lemma_silent(b, l);
        },
        _ => {},
    }
}

/// Whether a run ended with a jump to `l` out of the code.
pub open spec fn jumps(r: Stop, l: Name) -> bool {
    r matches Stop::Jump(to, _) && to == l
}

} // verus!
