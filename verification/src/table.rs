//! Small finite maps and sets keyed by name, kept in insertion order.

use vstd::prelude::*;
use crate::syntax::{Name, names_view};

verus! {

/// The map that a list of entries stands for: later entries win.
pub open spec fn entries_map<V>(s: Seq<(String, V)>) -> Map<Name, V>
    decreases s.len(),
{
    if s.len() == 0 {
        Map::empty()
    } else {
        entries_map(s.drop_last()).insert(s.last().0@, s.last().1)
    }
}

/// A finite map from names to plain values.
pub struct Table<V> {
    entries: Vec<(String, V)>,
}

impl<V: Copy> Table<V> {
    /// The map this table stands for.
    pub closed spec fn view(&self) -> Map<Name, V> {
        entries_map(self.entries@)
    }

    /// The empty table.
    pub fn new() -> (t: Self)
        ensures
            t@ == Map::<Name, V>::empty(),
    {
        Table { entries: Vec::new() }
    }

    /// The value bound to `key`, if there is one.
    pub fn get(&self, key: &String) -> (r: Option<V>)
        ensures
            r == (if self@.contains_key(key@) {
                Some(self@[key@])
            } else {
                None
            }),
    {
        let mut i: usize = self.entries.len();
        proof {
            assert(self.entries@.take(i as int) =~= self.entries@);
        }
        while i > 0
            invariant
                i <= self.entries.len(),
                self@.contains_key(key@) == entries_map(self.entries@.take(i as int)).contains_key(
                    key@,
                ),
                self@.contains_key(key@) ==> self@[key@] == entries_map(
                    self.entries@.take(i as int),
                )[key@],
            decreases i,
        {
            proof {
                assert(self.entries@.take(i as int).drop_last() =~= self.entries@.take(i - 1));
            }
            i -= 1;
            if self.entries[i].0 == *key {
                return Some(self.entries[i].1);
            }
        }
        proof {
            assert(self.entries@.take(0) =~= Seq::<(String, V)>::empty());
        }
        None
    }

    /// Binds `key` to `value`, replacing an earlier binding.
    pub fn insert(&mut self, key: String, value: V)
        ensures
            final(self)@ == old(self)@.insert(key@, value),
    {
        self.entries.push((key, value));
        proof {
            assert(self.entries@.drop_last() =~= old(self).entries@);
        }
    }

    /// A copy of this table.
    pub fn copy(&self) -> (t: Self)
        ensures
            t@ == self@,
    {
        let mut t: Table<V> = Table { entries: Vec::new() };
        let mut i: usize = 0;
        while i < self.entries.len()
            invariant
                i <= self.entries.len(),
                t@ == entries_map(self.entries@.take(i as int)),
            decreases self.entries.len() - i,
        {
            proof {
                assert(self.entries@.take(i + 1).drop_last() =~= self.entries@.take(i as int));
            }
            t.insert(self.entries[i].0.clone(), self.entries[i].1);
            i += 1;
        }
        proof {
            assert(self.entries@.take(self.entries.len() as int) =~= self.entries@);
        }
        t
    }
}

/// Whether `names` holds `key`.
pub fn names_contain(names: &Vec<String>, key: &String) -> (r: bool)
    ensures
        r == names_view(names@).contains(key@),
{
    let mut i: usize = 0;
    while i < names.len()
        invariant
            i <= names.len(),
            forall|j: int| 0 <= j < i ==> names[j]@ != key@,
        decreases names.len() - i,
    {
        if names[i] == *key {
            assert(names_view(names@)[i as int] == key@);
            return true;
        }
        i += 1;
    }
    false
}

/// A list with `key` added at the end unless it is there already.
pub open spec fn with_name(names: Seq<Name>, key: Name) -> Seq<Name> {
    if names.contains(key) {
        names
    } else {
        names.push(key)
    }
}

/// Adds `key` to `names` unless it is there already.
pub fn names_insert(names: &mut Vec<String>, key: String)
    ensures
        names_view(final(names)@) == with_name(names_view(old(names)@), key@),
{
    if !names_contain(names, &key) {
        names.push(key);
        assert(names_view(names@) =~= names_view(old(names)@).push(key@));
    }
}


/// A list with the first `n` of `more` added, each unless it is there already.
pub open spec fn with_names(names: Seq<Name>, more: Seq<Name>, n: nat) -> Seq<Name>
    decreases n,
{
    if n == 0 || n > more.len() {
        names
    } else {
        with_name(with_names(names, more, (n - 1) as nat), more[n - 1])
    }
}

/// Adding names makes a list longer by at most their number.
pub proof fn lemma_with_names_len(names: Seq<Name>, more: Seq<Name>, n: nat)
    ensures
        names.len() <= with_names(names, more, n).len() <= names.len() + n,
    decreases n,
{
    if n > 0 && n <= more.len() {
        lemma_with_names_len(names, more, (n - 1) as nat);
    }
}

/// A copy of `names` with all of `more` added.
pub fn extend_names(names: &Vec<String>, more: &Vec<String>) -> (r: Vec<String>)
    ensures
        names_view(r@) == with_names(names_view(names@), names_view(more@), more.len() as nat),
{
    let mut r = crate::syntax::clone_names(names);
    let mut i: usize = 0;
    while i < more.len()
        invariant
            i <= more.len(),
            names_view(r@) == with_names(names_view(names@), names_view(more@), i as nat),
        decreases more.len() - i,
    {
        names_insert(&mut r, more[i].clone());
        i += 1;
    }
    r
}


/// As a set, a list with a name added is the set with that name added.
pub proof fn lemma_with_name_set(names: Seq<Name>, key: Name)
    ensures
        with_name(names, key).to_set() == names.to_set().insert(key),
{
    if names.contains(key) {
        assert(names.to_set().insert(key) =~= names.to_set());
    } else {
        names.lemma_push_to_set_commute(key);
    }
}

/// As a set, a list with names added is the union of the two sets.
pub proof fn lemma_with_names_set(names: Seq<Name>, more: Seq<Name>, n: nat)
    requires
        n <= more.len(),
    ensures
        with_names(names, more, n).to_set() == names.to_set().union(more.take(n as int).to_set()),
    decreases n,
{
    if n == 0 {
        assert(more.take(0).to_set() =~= Set::<Name>::empty());
        assert(names.to_set().union(Set::<Name>::empty()) =~= names.to_set());
    } else {
        lemma_with_names_set(names, more, (n - 1) as nat);
        lemma_with_name_set(with_names(names, more, (n - 1) as nat), more[n - 1]);
        assert(more.take(n as int) =~= more.take(n - 1).push(more[n - 1]));
        more.take(n - 1).lemma_push_to_set_commute(more[n - 1]);
        assert(names.to_set().union(more.take(n - 1).to_set()).insert(more[n - 1])
            =~= names.to_set().union(more.take(n as int).to_set()));
    }
}

} // verus!
