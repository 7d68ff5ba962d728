//! A map from names to values that remembers the order in which names came.
//!
//! It stands where a hash map keyed by strings would: every name occurs at
//! most once, a lookup finds the value stored under a name, and walking the
//! entries visits them in the order of their first insertion.

use vstd::prelude::*;

verus! {

/// The names of `entries`, in order.
pub open spec fn names_of<V>(entries: Seq<(String, V)>) -> Seq<Seq<char>> {
    Seq::new(entries.len(), |i: int| entries[i].0@)
}

/// No name occurs twice.
pub open spec fn distinct(names: Seq<Seq<char>>) -> bool {
    forall|i: int, j: int| 0 <= i < j < names.len() ==> names[i] != names[j]
}

/// `i` is where `name` stands in `names`.
pub open spec fn stands_at(names: Seq<Seq<char>>, name: Seq<char>, i: int) -> bool {
    0 <= i < names.len() && names[i] == name
}

/// An insertion-ordered map from names to values of type `V`.
#[derive(Debug, PartialEq, Eq)]
pub struct Dict<V> {
    entries: Vec<(String, V)>,
}

impl<V> Dict<V> {
    /// The entries in insertion order.
    pub closed spec fn entries(&self) -> Seq<(String, V)> {
        self.entries@
    }

    /// The names in insertion order.
    pub open spec fn names(&self) -> Seq<Seq<char>> {
        names_of(self.entries())
    }

    /// Every name occurs once.
    pub open spec fn wf(&self) -> bool {
        distinct(self.names())
    }

    /// Whether a value is stored under `name`.
    pub open spec fn has(&self, name: Seq<char>) -> bool {
        exists|i: int| stands_at(self.names(), name, i)
    }

    /// The value stored under `name`.
    pub open spec fn value(&self, name: Seq<char>) -> V
        recommends
            self.has(name),
    {
        self.entries()[choose|i: int| stands_at(self.names(), name, i)].1
    }

    /// The map from each name to its value.
    pub open spec fn map(&self) -> Map<Seq<char>, V> {
        Map::new(|name: Seq<char>| self.has(name), |name: Seq<char>| self.value(name))
    }

    /// In a well-formed map the entry at `i` is the one stored under its name.
    pub proof fn lemma_value_at(&self, i: int)
        requires
            self.wf(),
            0 <= i < self.entries().len(),
        ensures
            self.has(self.entries()[i].0@),
            self.value(self.entries()[i].0@) == self.entries()[i].1,
    {
        let name = self.entries()[i].0@;
        assert(stands_at(self.names(), name, i));
        let j = choose|j: int| stands_at(self.names(), name, j);
        assert(self.names()[i] == self.names()[j]);
    }

    /// An empty map.
    pub fn new() -> (d: Dict<V>)
        ensures
            d.wf(),
            d.entries().len() == 0,
            forall|name: Seq<char>| !d.has(name),
    {
        Dict { entries: Vec::new() }
    }

    /// The number of entries.
    pub fn len(&self) -> (n: usize)
        ensures
            n == self.entries().len(),
    {
        self.entries.len()
    }

    /// The name of the `i`-th entry.
    pub fn name_at(&self, i: usize) -> (name: &String)
        requires
            i < self.entries().len(),
        ensures
            *name == self.entries()[i as int].0,
    {
        &self.entries[i].0
    }

    /// The value of the `i`-th entry.
    pub fn value_at(&self, i: usize) -> (value: &V)
        requires
            i < self.entries().len(),
        ensures
            *value == self.entries()[i as int].1,
    {
        &self.entries[i].1
    }

    /// The entries, in insertion order.
    pub fn into_entries(self) -> (r: Vec<(String, V)>)
        ensures
            r@ == self.entries(),
    {
        self.entries
    }

    /// Where `name` first stands, if it is present.
    pub fn position(&self, name: &str) -> (r: Option<usize>)
        ensures
            match r {
                Some(i) => stands_at(self.names(), name@, i as int) && forall|j: int|
                    0 <= j < i ==> self.names()[j] != name@,
                None => !self.has(name@),
            },
    {
        let mut i: usize = 0;
        while i < self.entries.len()
            invariant
                i <= self.entries.len(),
                forall|j: int| 0 <= j < i ==> self.names()[j] != name@,
            decreases self.entries.len() - i,
        {
            if self.entries[i].0.as_str().eq(name) {
                return Some(i);
            }
            i += 1;
        }
        None
    }

    /// The value stored under `name`, if any.
    pub fn get(&self, name: &str) -> (r: Option<&V>)
        requires
            self.wf(),
        ensures
            match r {
                Some(v) => self.has(name@) && *v == self.value(name@),
                None => !self.has(name@),
            },
    {
        match self.position(name) {
            Some(i) => {
                proof {
                    self.lemma_value_at(i as int);
                }
                Some(&self.entries[i].1)
            },
            None => None,
        }
    }

    /// Stores `value` under `name`, replacing what was stored there.
    pub fn insert(&mut self, name: String, value: V)
        requires
            old(self).wf(),
        ensures
            final(self).wf(),
            final(self).map() == old(self).map().insert(name@, value),
            old(self).has(name@) ==> final(self).names() == old(self).names(),
            !old(self).has(name@) ==> final(self).names() == old(self).names().push(name@),
    {
        let ghost key = name@;
        let ghost before = *self;
        match self.position(name.as_str()) {
            Some(i) => {
                self.entries[i].1 = value;
                proof {
                    assert(self.names() =~= before.names());
                    assert forall|other: Seq<char>| self.has(other) == before.has(other) by {
                        if before.has(other) {
                            let j = choose|j: int| stands_at(before.names(), other, j);
                            assert(stands_at(self.names(), other, j));
                        }
                        if self.has(other) {
                            let j = choose|j: int| stands_at(self.names(), other, j);
                            assert(stands_at(before.names(), other, j));
                        }
                    }
                    self.lemma_value_at(i as int);
                    assert forall|other: Seq<char>| self.has(other) && other != key implies self.value(
                        other,
                    ) == before.value(other) by {
                        let j = choose|j: int| stands_at(self.names(), other, j);
                        self.lemma_value_at(j);
                        before.lemma_value_at(j);
                    }
                    assert(self.map() =~= before.map().insert(key, value));
                }
            },
            None => {
                self.entries.push((name, value));
                proof {
                    let n = before.entries().len() as int;
                    assert(self.names() =~= before.names().push(key));
                    assert(distinct(self.names())) by {
                        assert forall|a: int, b: int| 0 <= a < b < self.names().len() implies self.names()[a]
                            != self.names()[b] by {
                            if b == n {
                                assert(!stands_at(before.names(), key, a));
                            }
                        }
                    }
                    assert(stands_at(self.names(), key, n));
                    self.lemma_value_at(n);
                    assert forall|other: Seq<char>| other != key implies self.has(other)
                        == before.has(other) by {
                        if before.has(other) {
                            let j = choose|j: int| stands_at(before.names(), other, j);
                            assert(stands_at(self.names(), other, j));
                        }
                        if self.has(other) {
                            let j = choose|j: int| stands_at(self.names(), other, j);
                            assert(stands_at(before.names(), other, j));
                        }
                    }
                    assert forall|other: Seq<char>| self.has(other) && other != key implies self.value(
                        other,
                    ) == before.value(other) by {
                        let j = choose|j: int| stands_at(self.names(), other, j);
                        self.lemma_value_at(j);
                        before.lemma_value_at(j);
                    }
                    assert(self.map() =~= before.map().insert(key, value));
                }
            },
        }
    }
}

} // verus!
