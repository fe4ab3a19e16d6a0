//! The runtime's side of the value encoding: how a word prints, given the
//! heap it may point into, and what each runtime error says.

use vstd::prelude::*;
use vstd::string::*;
use crate::select::{SNAKE_FLS, SNAKE_TRU};
use crate::text::{decimal, decimal_string, hex, hex_string, signed_decimal};

verus! {

/// A snapshot of the heap: `words[i]` is the quadword at address
/// `base + 8 * i`.
pub struct Heap {
    pub base: u64,
    pub words: Vec<u64>,
}

/// The integer that a word with a clear lowest bit stands for: the word read
/// as a signed number, halved.
pub open spec fn signed_value(x: u64) -> int {
    if x < 0x8000_0000_0000_0000 {
        x as int / 2
    } else {
        (x as int - 0x1_0000_0000_0000_0000) / 2
    }
}

/// The index in the heap of the length word of the array that `x` points to:
/// `None` if `x` does not point at a quadword of the heap.
pub open spec fn array_index(x: u64, base: u64, len: nat) -> Option<int> {
    let address = x as int - 1;
    if address >= base && (address - base) % 8 == 0 && (address - base) / 8 < len {
        Some((address - base) / 8)
    } else {
        None
    }
}

/// How many arrays have not been visited yet.
pub open spec fn unvisited(visited: Seq<bool>) -> nat
    decreases visited.len(),
{
    if visited.len() == 0 {
        0
    } else {
        unvisited(visited.drop_last()) + if visited.last() {
            0nat
        } else {
            1nat
        }
    }
}

/// The arrays visited in either of two visits.
pub open spec fn merge(a: Seq<bool>, b: Seq<bool>) -> Seq<bool> {
    Seq::new(a.len(), |i: int| a[i] || (i < b.len() && b[i]))
}

/// Whether `b` has visited every array that `a` has.
pub open spec fn extends(a: Seq<bool>, b: Seq<bool>) -> bool {
    a.len() == b.len() && forall|i: int| 0 <= i < a.len() && a[i] ==> b[i]
}

/// Visiting one more array leaves one array fewer to visit.
pub proof fn lemma_visit(visited: Seq<bool>, i: int)
    requires
        0 <= i < visited.len(),
        !visited[i],
    ensures
        unvisited(visited.update(i, true)) + 1 == unvisited(visited),
    decreases visited.len(),
{
    let v = visited.update(i, true);
    if i == visited.len() - 1 {
        assert(v.drop_last() =~= visited.drop_last());
    } else {
        assert(v.drop_last() =~= visited.drop_last().update(i, true));
        lemma_visit(visited.drop_last(), i);
    }
}

/// Visiting more arrays never leaves more to visit.
pub proof fn lemma_extends(a: Seq<bool>, b: Seq<bool>)
    requires
        extends(a, b),
    ensures
        unvisited(b) <= unvisited(a),
    decreases a.len(),
{
    if a.len() > 0 {
        lemma_extends(a.drop_last(), b.drop_last());
    }
}

/// The text for a word that is no value.
pub open spec fn invalid(x: u64) -> Seq<char> {
    "Invalid snake value 0x"@ + hex(x as nat)
}

/// How a value prints, and which arrays have been visited after it. An
/// array that was visited before prints as `<loop>`.
pub open spec fn show(x: u64, base: u64, words: Seq<u64>, visited: Seq<bool>) -> (Seq<char>, Seq<bool>)
    decreases unvisited(visited), 0nat,
{
    if x % 2 == 0 {
        (signed_decimal(signed_value(x)), visited)
    } else if x == SNAKE_TRU {
        ("true"@, visited)
    } else if x == SNAKE_FLS {
        ("false"@, visited)
    } else if x % 8 == 1 {
        match array_index(x, base, words.len()) {
            Some(i) => if visited.len() != words.len() || i + 1 + words[i] > words.len() {
                (invalid(x), visited)
            } else if visited[i] {
                ("<loop>"@, visited)
            } else {
                proof {
                    lemma_visit(visited, i);
                }
                let inner = show_elements(
                    base,
                    words,
                    i + 1,
                    words[i] as int,
                    0,
                    visited.update(i, true),
                );
                ("["@ + inner.0 + "]"@, inner.1)
            },
            None => (invalid(x), visited),
        }
    } else if x % 8 == 3 {
        ("<closure>"@, visited)
    } else {
        (invalid(x), visited)
    }
}

/// How the elements of an array print from the `k`-th on, separated by a
/// comma and a space. The elements are the `n` words from index `first`.
pub open spec fn show_elements(
    base: u64,
    words: Seq<u64>,
    first: int,
    n: int,
    k: int,
    visited: Seq<bool>,
) -> (Seq<char>, Seq<bool>)
    decreases unvisited(visited), n - k + 1,
{
    if k < 0 || k >= n || first < 0 || first + n > words.len() {
        (Seq::empty(), visited)
    } else {
        let one = show(words[first + k], base, words, visited);
        let seen = merge(visited, one.1);
        proof {
            lemma_extends(visited, seen);
        }
        let rest = show_elements(base, words, first, n, k + 1, seen);
        (
            (if k > 0 {
                ", "@
            } else {
                Seq::empty()
            }) + one.0 + rest.0,
            rest.1,
        )
    }
}

/// How a value prints at top level: no array has been visited.
pub open spec fn show_value(x: u64, base: u64, words: Seq<u64>) -> Seq<char> {
    show(x, base, words, Seq::new(words.len(), |i: int| false)).0
}

/// What the runtime says for an error code and the offending word.
pub open spec fn error_text(code: u64, x: u64, base: u64, words: Seq<u64>) -> Seq<char> {
    if code == 0 {
        "arithmetic expected a number "@ + show_value(x, base, words)
    } else if code == 1 {
        "comparison expected a number "@ + show_value(x, base, words)
    } else if code == 2 {
        "overflow "@ + show_value(x, base, words)
    } else if code == 3 {
        "if expected a boolean "@ + show_value(x, base, words)
    } else if code == 4 {
        "logic expected a boolean "@ + show_value(x, base, words)
    } else if code == 5 {
        "not an array address "@ + show_value(x, base, words)
    } else if code == 6 {
        "index not a number: "@ + show_value(x, base, words)
    } else if code == 7 {
        "index out of bounds: "@ + show_value(x, base, words)
    } else if code == 8 {
        "called a non-function "@ + show_value(x, base, words)
    } else if code == 9 {
        "wrong number of arguments for lambda: "@ + show_value(x, base, words)
    } else if code == 99 {
        "stack error: "@ + hex(x as nat)
    } else {
        "Unknown error "@ + decimal(code as nat)
    }
}

/// The digits of the integer that an even word stands for.
fn sprint_number(x: u64) -> (s: String)
    requires
        x % 2 == 0,
    ensures
        s@ == signed_decimal(signed_value(x)),
{
    if x < 0x8000_0000_0000_0000 {
        decimal_string(x / 2)
    } else {
        let magnitude: u64 = (0xFFFF_FFFF_FFFF_FFFF - x) / 2 + 1;
        let mut s = String::from_str("-");
        s.append(decimal_string(magnitude).as_str());
        proof {
            reveal_strlit("-");
            assert(signed_value(x) == -(magnitude as int));
            assert(s@ =~= signed_decimal(signed_value(x)));
        }
        s
    }
}

/// The bits of an unsigned word, read as a signed number.
pub fn unsigned_to_signed(x: u64) -> (r: i64)
    ensures
        r == if x < 0x8000_0000_0000_0000 {
            x as int
        } else {
            x as int - 0x1_0000_0000_0000_0000
        },
{
    if x < 0x8000_0000_0000_0000 {
        x as i64
    } else {
        ((x - 0x8000_0000_0000_0000) as i64) + (-0x7FFF_FFFF_FFFF_FFFF - 1)
    }
}

/// The text for a word that is no value.
fn sprint_invalid(x: u64) -> (s: String)
    ensures
        s@ == invalid(x),
{
    let mut s = String::from_str("Invalid snake value 0x");
    s.append(hex_string(x).as_str());
    s
}

/// The index of the length word of the array that `x` points to.
fn load_snake_array(x: u64, heap: &Heap) -> (r: Option<usize>)
    requires
        x % 8 == 1,
    ensures
        match r {
            Some(i) => array_index(x, heap.base, heap.words.len() as nat) == Some(i as int),
            None => array_index(x, heap.base, heap.words.len() as nat) is None,
        },
{
    let address: u64 = x - 1;
    if address < heap.base {
        return None;
    }
    let offset: u64 = address - heap.base;
    if offset % 8 != 0 {
        return None;
    }
    let index: u64 = offset / 8;
    if index >= heap.words.len() as u64 {
        return None;
    }
    Some(index as usize)
}

fn print_array(heap: &Heap, first: usize, n: usize, visited: &mut Vec<bool>) -> (s: String)
    requires
        old(visited).len() == heap.words.len(),
        first + n <= heap.words.len(),
    ensures
        (s@, final(visited)@) == show_elements(
            heap.base,
            heap.words@,
            first as int,
            n as int,
            0,
            old(visited)@,
        ),
        extends(old(visited)@, final(visited)@),
    decreases unvisited(old(visited)@), n + 2,
{
    print_array_from(heap, first, n, 0, visited)
}

/// The elements of an array from the `k`-th on.
fn print_array_from(heap: &Heap, first: usize, n: usize, k: usize, visited: &mut Vec<bool>) -> (s:
    String)
    requires
        old(visited).len() == heap.words.len(),
        first + n <= heap.words.len(),
        k <= n,
    ensures
        (s@, final(visited)@) == show_elements(
            heap.base,
            heap.words@,
            first as int,
            n as int,
            k as int,
            old(visited)@,
        ),
        extends(old(visited)@, final(visited)@),
    decreases unvisited(old(visited)@), n - k + 1,
{
    if k >= n {
        return String::new();
    }
    let ghost before = visited@;
    let mut s = String::new();
    if k > 0 {
        s.append(", ");
    }
    let one = sprint_snake_val_inner(heap.words[first + k], heap, visited);
    proof {
        assert(merge(before, visited@) =~= visited@);
        lemma_extends(before, visited@);
    }
    s.append(one.as_str());
    let rest = print_array_from(heap, first, n, k + 1, visited);
    s.append(rest.as_str());
    proof {
        assert(s@ =~= (if k > 0 {
            ", "@
        } else {
            Seq::empty()
        }) + one@ + rest@);
    }
    s
}

/// The text of a value, with the arrays visited so far marked in `visited`.
pub fn sprint_snake_val_inner(x: u64, heap: &Heap, visited: &mut Vec<bool>) -> (s: String)
    requires
        old(visited).len() == heap.words.len(),
    ensures
        (s@, final(visited)@) == show(x, heap.base, heap.words@, old(visited)@),
        extends(old(visited)@, final(visited)@),
    decreases unvisited(old(visited)@), 0nat,
{
    if x % 2 == 0 {
        // it's a number
        sprint_number(x)
    } else if x == SNAKE_TRU {
        String::from_str("true")
    } else if x == SNAKE_FLS {
        String::from_str("false")
    } else if x % 8 == 1 {
        match load_snake_array(x, heap) {
            None => sprint_invalid(x),
            Some(i) => {
                let size: u64 = heap.words[i];
                if size > (heap.words.len() - i - 1) as u64 {
                    return sprint_invalid(x);
                }
                if visited[i] {
                    return String::from_str("<loop>");
                }
                proof {
                    lemma_visit(visited@, i as int);
                }
                visited.set(i, true);
                let inner = print_array(heap, i + 1, size as usize, visited);
                let mut s = String::from_str("[");
                s.append(inner.as_str());
                s.append("]");
                s
            },
        }
    } else if x % 8 == 3 {
        String::from_str("<closure>")
    } else {
        sprint_invalid(x)
    }
}

/// The text of a value at top level.
pub fn sprint_snake_val(x: u64, heap: &Heap) -> (s: String)
    ensures
        s@ == show_value(x, heap.base, heap.words@),
{
    let mut visited: Vec<bool> = Vec::new();
    let mut i: usize = 0;
    while i < heap.words.len()
        invariant
            i <= heap.words.len(),
            visited.len() == i,
            forall|j: int| 0 <= j < i ==> !visited[j],
        decreases heap.words.len() - i,
    {
        visited.push(false);
        i += 1;
    }
    assert(visited@ =~= Seq::new(heap.words.len() as nat, |i: int| false));
    sprint_snake_val_inner(x, heap, &mut visited)
}

/// A message in front of a printed value.
fn about(message: &str, x: u64, heap: &Heap) -> (s: String)
    ensures
        s@ == message@ + show_value(x, heap.base, heap.words@),
{
    let mut s = String::from_str(message);
    s.append(sprint_snake_val(x, heap).as_str());
    s
}

/// What the runtime says for an error code and the offending word.
pub fn snake_error_message(err_code: u64, v: u64, heap: &Heap) -> (s: String)
    ensures
        s@ == error_text(err_code, v, heap.base, heap.words@),
{
    if err_code == 0 {
        about("arithmetic expected a number ", v, heap)
    } else if err_code == 1 {
        about("comparison expected a number ", v, heap)
    } else if err_code == 2 {
        about("overflow ", v, heap)
    } else if err_code == 3 {
        about("if expected a boolean ", v, heap)
    } else if err_code == 4 {
        about("logic expected a boolean ", v, heap)
    } else if err_code == 5 {
        about("not an array address ", v, heap)
    } else if err_code == 6 {
        about("index not a number: ", v, heap)
    } else if err_code == 7 {
        about("index out of bounds: ", v, heap)
    } else if err_code == 8 {
        about("called a non-function ", v, heap)
    } else if err_code == 9 {
        about("wrong number of arguments for lambda: ", v, heap)
    } else if err_code == 99 {
        let mut s = String::from_str("stack error: ");
        s.append(hex_string(v).as_str());
        s
    } else {
        let mut s = String::from_str("Unknown error ");
        s.append(decimal_string(err_code).as_str());
        s
    }
}

} // verus!
