//! The walk over the arrays that a value reaches, as far as it decides
//! anything: which word is read next as an array, and what part of the heap
//! the printer gets to see. The reads themselves are not made here: each
//! step takes what was read and gives the next state.

use vstd::prelude::*;

verus! {

/// Whether a word is a pointer to an array, by its tag.
pub open spec fn array_word(x: u64) -> bool {
    x & 0b111 == 1
}

/// Whether a word is an array pointer that the walk has not met.
pub open spec fn new_array(x: u64, seen: Seq<u64>) -> bool {
    array_word(x) && !seen.contains(x)
}

/// The place of the word that the walk reads next: the last of the pending
/// words that is an array pointer not met before.
pub open spec fn pick(pending: Seq<u64>, seen: Seq<u64>) -> Option<int>
    decreases pending.len(),
{
    if pending.len() == 0 {
        None
    } else if new_array(pending.last(), seen) {
        Some(pending.len() - 1)
    } else {
        pick(pending.drop_last(), seen)
    }
}

/// The addresses that an array with `size` elements takes, if they lie in
/// the address space: from its length word to behind its last element.
pub open spec fn extent(x: u64, size: u64) -> Option<(u64, u64)> {
    if x >= 1 && x - 1 + 8 * (size + 1) <= u64::MAX {
        Some(((x - 1) as u64, (x - 1 + 8 * (size + 1)) as u64))
    } else {
        None
    }
}

/// The addresses of the words from `first` up to `end`, 8 apart.
pub open spec fn word_addresses(first: u64, end: u64) -> Seq<u64> {
    if first < end {
        Seq::new(((end - first + 7) / 8) as nat, |i: int| (first + 8 * i) as u64)
    } else {
        Seq::empty()
    }
}

/// The state of the walk.
pub struct Walk {
    /// The array pointers met so far.
    pub seen: Vec<u64>,
    /// The words that are still to be looked at; the last is next.
    pub pending: Vec<u64>,
    /// The lowest address of an array met so far.
    pub first: u64,
    /// The address behind the last array met so far.
    pub end: u64,
}

/// Whether `seen` holds `x`.
fn met(seen: &Vec<u64>, x: u64) -> (r: bool)
    ensures
        r == seen@.contains(x),
{
    let mut i: usize = 0;
    while i < seen.len()
        invariant
            i <= seen.len(),
            forall|j: int| 0 <= j < i ==> seen[j] != x,
        decreases seen.len() - i,
    {
        if seen[i] == x {
            return true;
        }
        i += 1;
    }
    false
}

impl Walk {
    /// The walk that starts at the word `v`.
    pub fn new(v: u64) -> (w: Walk)
        ensures
            w.seen@ == Seq::<u64>::empty(),
            w.pending@ == seq![v],
            w.first == u64::MAX,
            w.end == 0,
    {
        let mut pending: Vec<u64> = Vec::new();
        pending.push(v);
        assert(pending@ =~= seq![v]);
        Walk { seen: Vec::new(), pending, first: u64::MAX, end: 0 }
    }

    /// The array to read next, if there is one: the last pending word that
    /// is an array pointer not met before. It is now met, and the words
    /// behind it are dropped; if there is none, no word is pending.
    pub fn next(&mut self) -> (r: Option<u64>)
        ensures
            final(self).first == old(self).first,
            final(self).end == old(self).end,
            match pick(old(self).pending@, old(self).seen@) {
                Some(k) => 0 <= k < old(self).pending.len() && r == Some(old(self).pending[k])
                    && final(self).pending@ == old(self).pending@.take(k) && final(self).seen@
                    == old(self).seen@.push(old(self).pending[k]),
                None => r is None && final(self).pending@ == Seq::<u64>::empty() && final(self).seen@ == old(self).seen@,
            },
    {
        let ghost start = self.pending@;
        let ghost seen = self.seen@;
        assert(start.take(start.len() as int) =~= start);
        while self.pending.len() > 0
            invariant
                start == old(self).pending@,
                seen == old(self).seen@,
                self.seen@ == seen,
                self.first == old(self).first,
                self.end == old(self).end,
                self.pending.len() <= start.len(),
                self.pending@ == start.take(self.pending.len() as int),
                pick(start, seen) == pick(self.pending@, seen),
            decreases self.pending.len(),
        {
            let ghost before = self.pending@;
            let x = self.pending.pop().unwrap();
            assert(x == before.last());
            assert(self.pending@ =~= before.drop_last());
            assert(self.pending@ =~= start.take(self.pending.len() as int));
            if x & 0b111 == 1 && !met(&self.seen, x) {
                proof {
                    let k = before.len() - 1;
                    assert(pick(before, seen) == Some(k));
                    assert(start[k] == before[k]);
                }
                self.seen.push(x);
                return Some(x);
            }
        }
        assert(self.pending@ =~= Seq::<u64>::empty());
        None
    }

    /// Takes in what was read at the array `x`: its size and its elements.
    /// The elements become pending and the array's addresses are covered; an
    /// array whose end lies beyond the address space is not followed.
    pub fn record(&mut self, x: u64, size: u64, elts: &Vec<u64>)
        ensures
            final(self).seen@ == old(self).seen@,
            match extent(x, size) {
                Some((start, stop)) => final(self).pending@ == old(self).pending@ + elts@
                    && final(self).first == (if start < old(self).first {
                    start
                } else {
                    old(self).first
                }) && final(self).end == (if stop > old(self).end {
                    stop
                } else {
                    old(self).end
                }),
                None => final(self).pending@ == old(self).pending@ && final(self).first == old(self).first && final(self).end == old(self).end,
            },
    {
        if x < 1 || size > (u64::MAX - 8) / 8 {
            return ;
        }
        let bytes: u64 = 8 * (size + 1);
        let start: u64 = x - 1;
        if start > u64::MAX - bytes {
            return ;
        }
        let stop: u64 = start + bytes;
        if start < self.first {
            self.first = start;
        }
        if stop > self.end {
            self.end = stop;
        }
        let ghost before = self.pending@;
        let mut i: usize = 0;
        while i < elts.len()
            invariant
                i <= elts.len(),
                self.seen@ == old(self).seen@,
                self.first == (if start < old(self).first {
                    start
                } else {
                    old(self).first
                }),
                self.end == (if stop > old(self).end {
                    stop
                } else {
                    old(self).end
                }),
                self.pending@ == before + elts@.take(i as int),
            decreases elts.len() - i,
        {
            self.pending.push(elts[i]);
            assert(self.pending@ =~= before + elts@.take(i + 1));
            i += 1;
        }
        assert(elts@.take(elts.len() as int) =~= elts@);
    }

    /// The addresses of the words that the printer gets to see: from the
    /// lowest array to behind the last, 8 apart.
    pub fn addresses(&self) -> (r: Vec<u64>)
        ensures
            r@ == word_addresses(self.first, self.end),
    {
        let mut r: Vec<u64> = Vec::new();
        if self.first >= self.end {
            return r;
        }
        let ghost all = word_addresses(self.first, self.end);
        let count: u64 = (self.end - self.first - 1) / 8 + 1;
        assert(count == (self.end - self.first + 7) / 8);
        let mut i: u64 = 0;
        while i < count
            invariant
                i <= count,
                self.first < self.end,
                count == (self.end - self.first - 1) / 8 + 1,
                r.len() == i,
                forall|j: int| 0 <= j < r.len() ==> r[j] == self.first + 8 * j,
            decreases count - i,
        {
            r.push(self.first + 8 * i);
            i += 1;
        }
        assert(r@ =~= all);
        r
    }
}

} // verus!
