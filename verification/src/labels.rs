//! The labels that the code of tests and conditionals defines: each is one of
//! four prefixes followed by a number drawn from the counter. Two pieces of
//! code that drew different numbers define different labels, and none defines
//! the label of an error, so a jump to an error leaves the code.

use vstd::prelude::*;
use crate::error_handler::{
    ARITH_ERROR,
    CMP_ERROR,
    IF_ERROR,
    INDEX_ERROR,
    INDEX_OUT_OF_BOUNDS,
    LAMBDA_ARITY_ERROR,
    LOGIC_ERROR,
    NON_ARRAY_ERROR,
    NON_CLOSURE_ERROR,
    OVERFLOW,
    STACK_ERROR,
};
use crate::machine::{Stop, find, followed, jumps, lemma_find_bounds, silent};
use crate::syntax::Name;
use crate::text::{lemma_decimal_injective, numbered};
use crate::x86::InstrV;

verus! {

/// Whether `l` is the label with number `n` of a test or a conditional.
pub open spec fn drawn_label(l: Name, n: nat) -> bool {
    l == numbered("false_"@, n) || l == numbered("test_done_"@, n) || l == numbered("else_"@, n)
        || l == numbered("done_"@, n)
}

/// Whether `l` is a label of a test or a conditional with a number above `lo`
/// and up to `hi`.
pub open spec fn inner_label(l: Name, lo: nat, hi: nat) -> bool {
    exists|n: nat| lo < n <= hi && #[trigger] drawn_label(l, n)
}

/// Whether every label that code defines is one with a number above `lo` and
/// up to `hi`.
pub open spec fn labels_within(is: Seq<InstrV>, lo: nat, hi: nat) -> bool {
    forall|k: int|
        0 <= k < is.len() && #[trigger] is[k] is Label ==> inner_label(is[k]->Label_0, lo, hi)
}

/// Whether `l` is the label of a trampoline.
pub open spec fn error_label(l: Name) -> bool {
    l == OVERFLOW@ || l == ARITH_ERROR@ || l == CMP_ERROR@ || l == IF_ERROR@ || l == LOGIC_ERROR@
        || l == NON_ARRAY_ERROR@ || l == INDEX_ERROR@ || l == INDEX_OUT_OF_BOUNDS@ || l
        == NON_CLOSURE_ERROR@ || l == LAMBDA_ARITY_ERROR@ || l == STACK_ERROR@
}

/// A numbered name begins as its prefix does.
pub proof fn lemma_numbered_first(prefix: Seq<char>, n: nat)
    requires
        prefix.len() > 0,
    ensures
        numbered(prefix, n).len() > 0,
        numbered(prefix, n)[0] == prefix[0],
{
}

/// Two numbered names with one prefix are equal only if their numbers are.
pub proof fn lemma_numbered_same(prefix: Seq<char>, n: nat, m: nat)
    requires
        numbered(prefix, n) == numbered(prefix, m),
    ensures
        n == m,
{
    let a = numbered(prefix, n);
    let b = numbered(prefix, m);
    assert(a.subrange(prefix.len() as int, a.len() as int) =~= crate::text::decimal(n));
    assert(b.subrange(prefix.len() as int, b.len() as int) =~= crate::text::decimal(m));
    lemma_decimal_injective(n, m);
}

/// The four prefixes begin with four different letters.
pub proof fn lemma_prefixes()
    ensures
        "false_"@.len() > 0 && "false_"@[0] == 'f',
        "test_done_"@.len() > 0 && "test_done_"@[0] == 't',
        "else_"@.len() > 0 && "else_"@[0] == 'e',
        "done_"@.len() > 0 && "done_"@[0] == 'd',
{
    reveal_strlit("false_");
    reveal_strlit("test_done_");
    reveal_strlit("else_");
    reveal_strlit("done_");
}

/// A label of a test or a conditional begins with one of four letters.
pub proof fn lemma_drawn_first(l: Name, n: nat)
    requires
        drawn_label(l, n),
    ensures
        l.len() > 0,
        l[0] == 'f' || l[0] == 't' || l[0] == 'e' || l[0] == 'd',
{
    lemma_prefixes();
    lemma_numbered_first("false_"@, n);
    lemma_numbered_first("test_done_"@, n);
    lemma_numbered_first("else_"@, n);
    lemma_numbered_first("done_"@, n);
}

/// The label of a trampoline is no label of a test or a conditional.
pub proof fn lemma_error_outer(l: Name, lo: nat, hi: nat)
    requires
        error_label(l),
    ensures
        !inner_label(l, lo, hi),
{
    reveal_strlit("overflow_error");
    reveal_strlit("arith_error");
    reveal_strlit("cmp_error");
    reveal_strlit("if_error");
    reveal_strlit("logic_error");
    reveal_strlit("non_array_error");
    reveal_strlit("index_not_number");
    reveal_strlit("index_out_of_bounds");
    reveal_strlit("non_closure_error");
    reveal_strlit("lambda_arity_error");
    reveal_strlit("stack_error");
    assert(l.len() > 0 && l[0] != 'f' && l[0] != 't' && l[0] != 'e' && l[0] != 'd');
    assert forall|n: nat| lo < n <= hi implies !#[trigger] drawn_label(l, n) by {
        if drawn_label(l, n) {
            lemma_drawn_first(l, n);
        }
    }
}

/// A label with the number `m` is a label with the number `n` only if the
/// numbers are equal.
pub proof fn lemma_drawn_number(prefix: Seq<char>, m: nat, n: nat)
    requires
        prefix == "false_"@ || prefix == "test_done_"@ || prefix == "else_"@ || prefix == "done_"@,
        drawn_label(numbered(prefix, m), n),
    ensures
        m == n,
{
    lemma_prefixes();
    lemma_numbered_first(prefix, m);
    lemma_numbered_first("false_"@, n);
    lemma_numbered_first("test_done_"@, n);
    lemma_numbered_first("else_"@, n);
    lemma_numbered_first("done_"@, n);
    assert(numbered(prefix, m) == numbered(prefix, n));
    lemma_numbered_same(prefix, m, n);
}

/// A label with a number out of a range is no label of that range.
pub proof fn lemma_number_outer(prefix: Seq<char>, m: nat, lo: nat, hi: nat)
    requires
        prefix == "false_"@ || prefix == "test_done_"@ || prefix == "else_"@ || prefix == "done_"@,
        m <= lo || hi < m,
    ensures
        !inner_label(numbered(prefix, m), lo, hi),
{
    assert forall|n: nat| lo < n <= hi implies !#[trigger] drawn_label(numbered(prefix, m), n) by {
        if drawn_label(numbered(prefix, m), n) {
            lemma_drawn_number(prefix, m, n);
        }
    }
}

/// A label with the number `n` is a label of each range that holds `n`.
pub proof fn lemma_number_inner(prefix: Seq<char>, n: nat, lo: nat, hi: nat)
    requires
        prefix == "false_"@ || prefix == "test_done_"@ || prefix == "else_"@ || prefix == "done_"@,
        lo < n <= hi,
    ensures
        inner_label(numbered(prefix, n), lo, hi),
{
    assert(drawn_label(numbered(prefix, n), n));
}

/// The two labels of a test differ, and so do the two of a conditional.
pub proof fn lemma_pairs_differ(n: nat)
    ensures
        numbered("false_"@, n) != numbered("test_done_"@, n),
        numbered("else_"@, n) != numbered("done_"@, n),
{
    lemma_prefixes();
    lemma_numbered_first("false_"@, n);
    lemma_numbered_first("test_done_"@, n);
    lemma_numbered_first("else_"@, n);
    lemma_numbered_first("done_"@, n);
}

/// Two pieces of code with labels of one range make code with labels of that
/// range.
pub proof fn lemma_labels_add(a: Seq<InstrV>, b: Seq<InstrV>, lo: nat, hi: nat)
    requires
        labels_within(a, lo, hi),
        labels_within(b, lo, hi),
    ensures
        labels_within(a + b, lo, hi),
{
    assert forall|k: int| 0 <= k < (a + b).len() && #[trigger] (a + b)[k] is Label implies inner_label(
        (a + b)[k]->Label_0,
        lo,
        hi,
    ) by {
        if k < a.len() {
            assert((a + b)[k] == a[k]);
        } else {
            assert((a + b)[k] == b[k - a.len()]);
        }
    }
}

/// Labels of a range are labels of each range around it.
pub proof fn lemma_labels_wider(is: Seq<InstrV>, lo: nat, hi: nat, lower: nat, higher: nat)
    requires
        labels_within(is, lo, hi),
        lower <= lo,
        hi <= higher,
    ensures
        labels_within(is, lower, higher),
{
    assert forall|k: int| 0 <= k < is.len() && #[trigger] is[k] is Label implies inner_label(
        is[k]->Label_0,
        lower,
        higher,
    ) by {
        let l = is[k]->Label_0;
        assert(inner_label(l, lo, hi));
        let n = choose|n: nat| lo < n <= hi && #[trigger] drawn_label(l, n);
        assert(drawn_label(l, n));
    }
}

/// Code without labels has its labels in every range.
pub proof fn lemma_silent_within(is: Seq<InstrV>, lo: nat, hi: nat)
    requires
        silent(is),
    ensures
        labels_within(is, lo, hi),
{
}

/// Code does not hold a label that is out of the range of its labels.
pub proof fn lemma_absent(is: Seq<InstrV>, l: Name, lo: nat, hi: nat)
    requires
        labels_within(is, lo, hi),
        !inner_label(l, lo, hi),
    ensures
        find(is, l) is None,
{
    lemma_find_bounds(is, l);
    match find(is, l) {
        Some(k) => {
            assert(is[k] is Label);
        },
        None => {},
    }
}

/// A jump to a label that is out of the range of what follows leaves the
/// code that follows as well.
pub proof fn lemma_jump_leaves(r: Stop, is: Seq<InstrV>, l: Name, lo: nat, hi: nat)
    requires
        jumps(r, l),
        labels_within(is, lo, hi),
        !inner_label(l, lo, hi),
    ensures
        followed(r, is) == r,
{
    lemma_absent(is, l, lo, hi);
}

} // verus!
