//! A small table keyed by file names, in the order names were added.
use vstd::prelude::*;

verus! {

/// Entries keyed by distinct names; its view maps each name's characters to
/// its value.
pub struct NameTable<V> {
    entries: Vec<(String, V)>,
    contents: Ghost<Map<Seq<char>, V>>,
}

impl<V> NameTable<V> {
    /// The table as a map from names to values.
    pub closed spec fn view(&self) -> Map<Seq<char>, V> {
        self.contents@
    }

    /// The entries hold distinct names and agree with the view.
    pub closed spec fn wf(&self) -> bool {
        &&& forall|i: int, k: int|
            0 <= i < self.entries@.len() && 0 <= k < self.entries@.len() && i != k
                ==> (#[trigger] self.entries@[i]).0@ != (#[trigger] self.entries@[k]).0@
        &&& forall|i: int|
            0 <= i < self.entries@.len() ==> {
                &&& self.contents@.contains_key((#[trigger] self.entries@[i]).0@)
                &&& self.contents@[self.entries@[i].0@] == self.entries@[i].1
            }
        &&& forall|key: Seq<char>|
            #[trigger] self.contents@.contains_key(key) ==> exists|i: int|
                0 <= i < self.entries@.len() && (#[trigger] self.entries@[i]).0@ == key
    }

    /// Number of names in the table.
    pub closed spec fn spec_len(&self) -> nat {
        self.entries@.len()
    }

    /// An empty table.
    pub fn new() -> (t: Self)
        ensures
            t.wf(),
            t@ == Map::<Seq<char>, V>::empty(),
    {
        NameTable { entries: Vec::new(), contents: Ghost(Map::empty()) }
    }

    /// Position of `name` in the table, if it is there.
    pub fn position(&self, name: &String) -> (r: Option<usize>)
        requires
            self.wf(),
        ensures
            match r {
                Some(i) => i < self.spec_len() && self.key_at(i as int) == name@
                    && self@.contains_key(name@),
                None => !self@.contains_key(name@),
            },
    {
        let mut i: usize = 0;
        while i < self.entries.len()
            invariant
                self.wf(),
                i <= self.entries@.len(),
                forall|k: int| 0 <= k < i ==> (#[trigger] self.entries@[k]).0@ != name@,
            decreases self.entries@.len() - i,
        {
            if self.entries[i].0 == *name {
                assert(self.entries@[i as int].0@ == name@);
                return Some(i);
            }
            i += 1;
        }
        proof {
            if self@.contains_key(name@) {
                let k = choose|k: int|
                    0 <= k < self.entries@.len() && (#[trigger] self.entries@[k]).0@ == name@;
            }
        }
        None
    }

    /// The name stored at position `i`.
    pub closed spec fn key_at(&self, i: int) -> Seq<char> {
        self.entries@[i].0@
    }

    /// The value stored at position `i` is the view's value for its name.
    pub fn value_at(&self, i: usize) -> (v: &V)
        requires
            self.wf(),
            i < self.spec_len(),
        ensures
            self@.contains_key(self.key_at(i as int)),
            *v == self@[self.key_at(i as int)],
    {
        &self.entries[i].1
    }

    /// Adds a name that is not in the table yet.
    pub fn insert_new(&mut self, name: String, v: V)
        requires
            old(self).wf(),
            !old(self)@.contains_key(name@),
        ensures
            final(self).wf(),
            final(self)@ == old(self)@.insert(name@, v),
    {
        let ghost key = name@;
        let ghost prev = self.entries@;
        proof {
            self.contents@ = self.contents@.insert(key, v);
        }
        self.entries.push((name, v));
        proof {
            assert forall|i: int| 0 <= i < prev.len() implies (#[trigger] self.entries@[i]).0@
                != key by {
                assert(self.entries@[i] == prev[i]);
                assert(old(self)@.contains_key(prev[i].0@));
            }
            assert forall|k: Seq<char>| #[trigger] self.contents@.contains_key(k) implies exists|
                i: int,
            | 0 <= i < self.entries@.len() && (#[trigger] self.entries@[i]).0@ == k by {
                if k == key {
                    assert(self.entries@[prev.len() as int].0@ == k);
                } else {
                    assert(old(self)@.contains_key(k));
                    let i = choose|i: int| 0 <= i < prev.len() && (#[trigger] prev[i]).0@ == k;
                    assert(self.entries@[i] == prev[i]);
                }
            }
        }
    }

    /// Replaces the value stored at position `i`.
    pub fn set_at(&mut self, i: usize, v: V)
        requires
            old(self).wf(),
            i < old(self).spec_len(),
        ensures
            final(self).wf(),
            final(self).spec_len() == old(self).spec_len(),
            forall|k: int| 0 <= k < final(self).spec_len() ==> final(self).key_at(k) == old(self).key_at(k),
            final(self)@ == old(self)@.insert(old(self).key_at(i as int), v),
    {
        let ghost key = self.entries@[i as int].0@;
        let ghost prev = self.entries@;
        let name = self.entries[i].0.clone();
        proof {
            self.contents@ = self.contents@.insert(key, v);
        }
        self.entries.set(i, (name, v));
        proof {
            assert forall|k: int| 0 <= k < self.entries@.len() implies (#[trigger] self.entries@[k]).0@
                == prev[k].0@ by {}
            assert forall|k: Seq<char>| #[trigger] self.contents@.contains_key(k) implies exists|
                j: int,
            | 0 <= j < self.entries@.len() && (#[trigger] self.entries@[j]).0@ == k by {
                if k == key {
                    assert(self.entries@[i as int].0@ == k);
                } else {
                    assert(old(self)@.contains_key(k));
                    let j = choose|j: int| 0 <= j < prev.len() && (#[trigger] prev[j]).0@ == k;
                    assert(self.entries@[j].0@ == prev[j].0@);
                }
            }
        }
    }

    /// Removes the entry at position `i` and hands back its value.
    pub fn remove_at(&mut self, i: usize) -> (v: V)
        requires
            old(self).wf(),
            i < old(self).spec_len(),
        ensures
            final(self).wf(),
            v == old(self)@[old(self).key_at(i as int)],
            final(self)@ == old(self)@.remove(old(self).key_at(i as int)),
    {
        let ghost key = self.entries@[i as int].0@;
        let ghost prev = self.entries@;
        proof {
            self.contents@ = self.contents@.remove(key);
        }
        let (_name, v) = self.entries.remove(i);
        proof {
            assert forall|k: int| 0 <= k < self.entries@.len() implies self.entries@[k] == (if k < i {
                prev[k]
            } else {
                prev[k + 1]
            }) by {}
            assert forall|k: int| 0 <= k < self.entries@.len() implies {
                &&& self.contents@.contains_key((#[trigger] self.entries@[k]).0@)
                &&& self.contents@[self.entries@[k].0@] == self.entries@[k].1
            } by {
                let k2 = if k < i { k } else { k + 1 };
                assert(self.entries@[k] == prev[k2]);
                assert(prev[k2].0@ != prev[i as int].0@);
            }
            assert forall|a: int, b: int|
                0 <= a < self.entries@.len() && 0 <= b < self.entries@.len() && a != b implies (
            #[trigger] self.entries@[a]).0@ != (#[trigger] self.entries@[b]).0@ by {
                let a2 = if a < i { a } else { a + 1 };
                let b2 = if b < i { b } else { b + 1 };
                assert(self.entries@[a] == prev[a2]);
                assert(self.entries@[b] == prev[b2]);
            }
            assert forall|k: Seq<char>| #[trigger] self.contents@.contains_key(k) implies exists|
                j: int,
            | 0 <= j < self.entries@.len() && (#[trigger] self.entries@[j]).0@ == k by {
                assert(old(self)@.contains_key(k));
                let j = choose|j: int| 0 <= j < prev.len() && (#[trigger] prev[j]).0@ == k;
                assert(j != i);
                if j < i {
                    assert(self.entries@[j] == prev[j]);
                } else {
                    assert(self.entries@[j - 1] == prev[j]);
                }
            }
        }
        v
    }
}

impl NameTable<String> {
    /// Some name of the table maps to a string equal to `s`.
    pub fn has_value(&self, s: &String) -> (r: bool)
        requires
            self.wf(),
        ensures
            r == exists|key: Seq<char>| #[trigger] self@.contains_key(key) && self@[key]@ == s@,
    {
        let mut i: usize = 0;
        while i < self.entries.len()
            invariant
                self.wf(),
                i <= self.entries@.len(),
                forall|k: int| 0 <= k < i ==> (#[trigger] self.entries@[k]).1@ != s@,
            decreases self.entries@.len() - i,
        {
            if self.entries[i].1 == *s {
                assert(self@.contains_key(self.entries@[i as int].0@));
                return true;
            }
            i += 1;
        }
        proof {
            assert forall|key: Seq<char>| #[trigger] self@.contains_key(key) implies self@[key]@ != s@ by {
                let k = choose|k: int|
                    0 <= k < self.entries@.len() && (#[trigger] self.entries@[k]).0@ == key;
            }
        }
        false
    }
}

} // verus!
