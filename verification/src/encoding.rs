//! What the compiler and the runtime share: the words that stand for values.
//! An integer that the compiler tags prints as itself, the booleans print as
//! `true` and `false`, and the overflow that the machine reports after
//! arithmetic on tagged integers is exactly a result beyond 63 bits.

use vstd::prelude::*;
use crate::runtime::{show_value, signed_value};
use crate::select::{I63_MAX, I63_MIN, SNAKE_FLS, SNAKE_TRU, tagged};
use crate::text::signed_decimal;

verus! {

/// Whether an integer fits in 63 bits.
pub open spec fn in_range(i: int) -> bool {
    I63_MIN <= i <= I63_MAX
}

/// Whether an integer fits in a machine word.
pub open spec fn in_word(i: int) -> bool {
    -0x8000_0000_0000_0000 <= i <= 0x7FFF_FFFF_FFFF_FFFF
}

/// The bits of a signed machine word, read as unsigned.
pub open spec fn word(x: i64) -> u64 {
    if x >= 0 {
        x as u64
    } else {
        (x + 0x1_0000_0000_0000_0000) as u64
    }
}

/// An integer of 63 bits prints as itself: what the compiler writes for a
/// literal is what the runtime reads.
pub proof fn lemma_number_prints(i: i64, base: u64, words: Seq<u64>)
    requires
        in_range(i as int),
    ensures
        show_value(word(tagged(i)), base, words) == signed_decimal(i as int),
{
    let w = word(tagged(i));
    assert(tagged(i) == 2 * i);
    assert(w % 2 == 0);
    assert(signed_value(w) == i);
}

/// The booleans print as `true` and `false`.
pub proof fn lemma_booleans_print(base: u64, words: Seq<u64>)
    ensures
        show_value(SNAKE_TRU, base, words) == "true"@,
        show_value(SNAKE_FLS, base, words) == "false"@,
{
}

/// The machine reports overflow after adding two tagged integers exactly
/// when their sum does not fit in 63 bits; else the result is the tagged sum.
pub proof fn lemma_sum_overflows(a: i64, b: i64)
    requires
        in_range(a as int),
        in_range(b as int),
    ensures
        in_word(tagged(a) + tagged(b)) <==> in_range(a + b),
        in_range(a + b) ==> tagged(a) + tagged(b) == tagged((a + b) as i64),
{
}

/// The machine reports overflow after subtracting two tagged integers
/// exactly when their difference does not fit in 63 bits; else the result is
/// the tagged difference.
pub proof fn lemma_difference_overflows(a: i64, b: i64)
    requires
        in_range(a as int),
        in_range(b as int),
    ensures
        in_word(tagged(a) - tagged(b)) <==> in_range(a - b),
        in_range(a - b) ==> tagged(a) - tagged(b) == tagged((a - b) as i64),
{
}

/// The machine reports overflow after multiplying a tagged integer by an
/// untagged one exactly when the product does not fit in 63 bits; else the
/// result is the tagged product.
pub proof fn lemma_product_overflows(a: i64, b: i64)
    requires
        in_range(a as int),
        in_range(b as int),
    ensures
        in_word(tagged(a) * b) <==> in_range(a * b),
        in_range(a * b) ==> tagged(a) * b == tagged((a * b) as i64),
{
    assert(tagged(a) * b == 2 * (a * b)) by (nonlinear_arith)
        requires
            tagged(a) == 2 * a,
    ;
}

/// Adding 1 to an integer adds 2 to its word, and the machine reports
/// overflow exactly when the result does not fit in 63 bits: so it does for
/// the largest integer.
pub proof fn lemma_add1_overflows(a: i64)
    requires
        in_range(a as int),
    ensures
        in_word(tagged(a) + 2) <==> in_range(a + 1),
        in_range(a + 1) ==> tagged(a) + 2 == tagged((a + 1) as i64),
        !in_word(tagged(I63_MAX) + 2),
{
}

/// The difference of two untagged integers of 63 bits fits in a word, so its
/// sign tells which is less.
pub proof fn lemma_comparison_fits(a: i64, b: i64)
    requires
        in_range(a as int),
        in_range(b as int),
    ensures
        in_word(a - b),
        a < b <==> a - b < 0,
{
}

} // verus!
