//! A map from names to values that keeps its names in ascending order.
//!
//! It stands where a tree map keyed by strings would: every name occurs at
//! most once, and walking the entries visits the names in ascending order,
//! character by character.

use vstd::prelude::*;
use crate::dict::{distinct, names_of, stands_at};
use crate::text::chars_of;

verus! {

/// `a` and `b` agree on their first `k` characters.
pub open spec fn agree_to(a: Seq<char>, b: Seq<char>, k: int) -> bool {
    &&& 0 <= k <= a.len()
    &&& k <= b.len()
    &&& forall|i: int| 0 <= i < k ==> a[i] == b[i]
}

/// `a` comes before `b`: where they first differ `a` has the lower
/// character, or `a` ends there and `b` goes on.
pub open spec fn text_less(a: Seq<char>, b: Seq<char>) -> bool {
    exists|k: int| #[trigger] agree_to(a, b, k) && k < b.len() && (k == a.len() || a[k] < b[k])
}

/// The names ascend strictly.
pub open spec fn ascending(names: Seq<Seq<char>>) -> bool {
    forall|i: int, j: int| 0 <= i < j < names.len() ==> text_less(names[i], names[j])
}

/// The keys of a list of entries.
pub open spec fn keys<V>(entries: Seq<(Seq<char>, V)>) -> Seq<Seq<char>> {
    Seq::new(entries.len(), |i: int| entries[i].0)
}

/// `i` is where `name` belongs among `names`: the names before `i` come
/// before `name`, and the name at `i` does not.
pub open spec fn is_slot(names: Seq<Seq<char>>, name: Seq<char>, i: int) -> bool {
    &&& 0 <= i <= names.len()
    &&& forall|j: int| 0 <= j < i ==> text_less(names[j], name)
    &&& i < names.len() ==> !text_less(names[i], name)
}

/// Where `name` belongs among `names`.
pub open spec fn slot(names: Seq<Seq<char>>, name: Seq<char>) -> int {
    choose|i: int| is_slot(names, name, i)
}

/// `names` with `name` in its place, once.
pub open spec fn put_name(names: Seq<Seq<char>>, name: Seq<char>) -> Seq<Seq<char>> {
    let i = slot(names, name);
    if i < names.len() && names[i] == name {
        names
    } else {
        names.insert(i, name)
    }
}

/// `entries` with `value` under `name` in its place, instead of an earlier
/// value under that name.
pub open spec fn put<V>(entries: Seq<(Seq<char>, V)>, name: Seq<char>, value: V) -> Seq<
    (Seq<char>, V),
> {
    let i = slot(keys(entries), name);
    if i < entries.len() && entries[i].0 == name {
        entries.update(i, (name, value))
    } else {
        entries.insert(i, (name, value))
    }
}

/// The keys after `put` are the keys with the name put in.
pub proof fn lemma_put_keys<V>(entries: Seq<(Seq<char>, V)>, name: Seq<char>, value: V)
    ensures
        keys(put(entries, name, value)) == put_name(keys(entries), name),
{
    let i = slot(keys(entries), name);
    lemma_slot_exists(keys(entries), name);
    if i < entries.len() && entries[i].0 == name {
        assert(keys(entries.update(i, (name, value))) =~= keys(entries));
    } else {
        assert(keys(entries.insert(i, (name, value))) =~= keys(entries).insert(i, name));
    }
}

/// `b` holds the entries of `a` with each value seen through `f`.
pub open spec fn seen_through<V, W>(a: Seq<(Seq<char>, V)>, f: spec_fn(V) -> W, b: Seq<(Seq<char>, W)>) -> bool {
    &&& a.len() == b.len()
    &&& forall|i: int| 0 <= i < a.len() ==> (#[trigger] b[i]) == (a[i].0, f(a[i].1))
}

/// Seeing the values through `f` before or after `put` comes to the same.
pub proof fn lemma_put_seen_through<V, W>(
    a: Seq<(Seq<char>, V)>,
    f: spec_fn(V) -> W,
    b: Seq<(Seq<char>, W)>,
    name: Seq<char>,
    value: V,
)
    requires
        seen_through(a, f, b),
    ensures
        seen_through(put(a, name, value), f, put(b, name, f(value))),
{
    assert(keys(a) =~= keys(b));
    lemma_slot_exists(keys(a), name);
}

/// Every name has a slot.
pub proof fn lemma_slot_exists(names: Seq<Seq<char>>, name: Seq<char>)
    ensures
        is_slot(names, name, slot(names, name)),
{
    let i = lemma_find_slot(names, name, 0);
}

proof fn lemma_find_slot(names: Seq<Seq<char>>, name: Seq<char>, from: int) -> (i: int)
    requires
        0 <= from <= names.len(),
        forall|j: int| 0 <= j < from ==> text_less(names[j], name),
    ensures
        is_slot(names, name, i),
    decreases names.len() - from,
{
    if from < names.len() && text_less(names[from], name) {
        lemma_find_slot(names, name, from + 1)
    } else {
        from
    }
}

/// `slot` is the one index that `is_slot` holds of.
pub proof fn lemma_slot(names: Seq<Seq<char>>, name: Seq<char>, i: int)
    requires
        is_slot(names, name, i),
    ensures
        slot(names, name) == i,
{
    let j = slot(names, name);
    assert(is_slot(names, name, j));
    if j < i {
        assert(text_less(names[j], name));
    } else if i < j {
        assert(text_less(names[i], name));
    }
}

/// Putting a name into ascending names leaves them ascending, and adds
/// that name and no other.
pub proof fn lemma_put_name(names: Seq<Seq<char>>, name: Seq<char>, i: int)
    requires
        ascending(names),
        is_slot(names, name, i),
    ensures
        ascending(put_name(names, name)),
        forall|other: Seq<char>|
            put_name(names, name).contains(other) <==> other == name || names.contains(other),
{
    lemma_slot(names, name, i);
    let after = put_name(names, name);
    if i < names.len() && names[i] == name {
        assert(names.contains(name));
    } else {
        assert forall|a: int, b: int| 0 <= a < b < after.len() implies text_less(
            after[a],
            after[b],
        ) by {
            if b < i {
                assert(text_less(names[a], names[b]));
            } else if b == i {
                assert(after[a] == names[a]);
            } else if a < i {
                assert(text_less(names[a], names[b - 1]));
            } else if a == i {
                assert(after[b] == names[b - 1]);
                lemma_less_total(names[i], name);
                if b - 1 > i {
                    assert(text_less(names[i], names[b - 1]));
                    lemma_less_transitive(name, names[i], names[b - 1]);
                }
            } else {
                assert(text_less(names[a - 1], names[b - 1]));
            }
        }
        assert forall|other: Seq<char>| after.contains(other) <==> other == name || names.contains(
            other,
        ) by {
            if after.contains(other) {
                let j = choose|j: int| 0 <= j < after.len() && after[j] == other;
                if j < i {
                    assert(names[j] == other);
                } else if j > i {
                    assert(names[j - 1] == other);
                }
            }
            if other == name {
                assert(after[i] == other);
            }
            if names.contains(other) {
                let j = choose|j: int| 0 <= j < names.len() && names[j] == other;
                if j < i {
                    assert(after[j] == other);
                } else {
                    assert(after[j + 1] == other);
                }
            }
        }
    }
}

/// How one text stands to another.
#[derive(Clone, Copy, Debug, PartialEq, Eq, Structural)]
pub enum Rank {
    Before,
    Same,
    After,
}

/// No text comes before itself.
pub proof fn lemma_less_irreflexive(a: Seq<char>)
    ensures
        !text_less(a, a),
{
}

/// Of two texts at most one comes before the other.
pub proof fn lemma_less_asymmetric(a: Seq<char>, b: Seq<char>)
    requires
        text_less(a, b),
    ensures
        !text_less(b, a),
        a != b,
{
    let k = choose|k: int| #[trigger] agree_to(a, b, k) && k < b.len() && (k == a.len() || a[k] < b[k]);
    if text_less(b, a) {
        let m = choose|m: int| #[trigger]
            agree_to(b, a, m) && m < a.len() && (m == b.len() || b[m] < a[m]);
        if m < k {
            assert(a[m] == b[m]);
        } else if k < m {
            assert(b[k] == a[k]);
        }
    }
}

/// Coming before carries over.
pub proof fn lemma_less_transitive(a: Seq<char>, b: Seq<char>, c: Seq<char>)
    requires
        text_less(a, b),
        text_less(b, c),
    ensures
        text_less(a, c),
{
    let k = choose|k: int| #[trigger] agree_to(a, b, k) && k < b.len() && (k == a.len() || a[k] < b[k]);
    let m = choose|m: int| #[trigger] agree_to(b, c, m) && m < c.len() && (m == b.len() || b[m] < c[m]);
    let n = if k <= m {
        k
    } else {
        m
    };
    assert(agree_to(a, c, n));
}

/// Where two texts first differ, or where the shorter ends.
proof fn lemma_first_difference(a: Seq<char>, b: Seq<char>, from: int) -> (k: int)
    requires
        agree_to(a, b, from),
    ensures
        agree_to(a, b, k),
        k == a.len() || k == b.len() || a[k] != b[k],
    decreases a.len() - from,
{
    if from == a.len() || from == b.len() || a[from] != b[from] {
        from
    } else {
        lemma_first_difference(a, b, from + 1)
    }
}

/// Of two different texts one comes before the other.
pub proof fn lemma_less_total(a: Seq<char>, b: Seq<char>)
    ensures
        text_less(a, b) || text_less(b, a) || a == b,
{
    let k = lemma_first_difference(a, b, 0);
    assert(agree_to(b, a, k));
    if k == a.len() && k == b.len() {
        assert(a =~= b);
    }
}

/// Names that ascend strictly are distinct.
pub proof fn lemma_ascending_distinct(names: Seq<Seq<char>>)
    requires
        ascending(names),
    ensures
        distinct(names),
{
    assert forall|i: int, j: int| 0 <= i < j < names.len() implies names[i] != names[j] by {
        lemma_less_asymmetric(names[i], names[j]);
    }
}

/// How `a` stands to `b`.
pub fn rank(a: &Vec<char>, b: &Vec<char>) -> (r: Rank)
    ensures
        r == Rank::Before <==> text_less(a@, b@),
        r == Rank::Same <==> a@ == b@,
        r == Rank::After <==> text_less(b@, a@),
{
    let mut k: usize = 0;
    while k < a.len() && k < b.len() && a[k] == b[k]
        invariant
            agree_to(a@, b@, k as int),
        decreases a.len() - k,
    {
        k += 1;
    }
    proof {
        assert(agree_to(b@, a@, k as int));
    }
    if k == a.len() {
        if k == b.len() {
            proof {
                assert(a@ =~= b@);
                lemma_less_irreflexive(a@);
            }
            Rank::Same
        } else {
            proof {
                lemma_less_asymmetric(a@, b@);
            }
            Rank::Before
        }
    } else if k == b.len() {
        proof {
            lemma_less_asymmetric(b@, a@);
        }
        Rank::After
    } else if a[k] < b[k] {
        proof {
            lemma_less_asymmetric(a@, b@);
        }
        Rank::Before
    } else {
        proof {
            lemma_less_asymmetric(b@, a@);
        }
        Rank::After
    }
}

/// A map from names to values of type `V` with its names in ascending order.
#[derive(Debug, PartialEq, Eq)]
pub struct SortedMap<V> {
    entries: Vec<(String, V)>,
}

impl<V> SortedMap<V> {
    /// The entries, by ascending name.
    pub closed spec fn entries(&self) -> Seq<(String, V)> {
        self.entries@
    }

    /// The names, ascending.
    pub open spec fn names(&self) -> Seq<Seq<char>> {
        names_of(self.entries())
    }

    /// The names ascend strictly.
    pub open spec fn wf(&self) -> bool {
        ascending(self.names())
    }

    /// The entries by ascending name, each name as its characters.
    pub open spec fn listing(&self) -> Seq<(Seq<char>, V)> {
        Seq::new(self.entries().len(), |i: int| (self.entries()[i].0@, self.entries()[i].1))
    }

    /// Whether a value is stored under `name`.
    pub open spec fn has(&self, name: Seq<char>) -> bool {
        exists|i: int| stands_at(self.names(), name, i)
    }

    /// The value stored under `name`.
    pub open spec fn value(&self, name: Seq<char>) -> V
        recommends
            self.has(name),
    {
        self.entries()[choose|i: int| stands_at(self.names(), name, i)].1
    }

    /// The map from each name to its value.
    pub open spec fn map(&self) -> Map<Seq<char>, V> {
        Map::new(|name: Seq<char>| self.has(name), |name: Seq<char>| self.value(name))
    }

    /// In a well-formed map the entry at `i` is the one stored under its name.
    pub proof fn lemma_value_at(&self, i: int)
        requires
            self.wf(),
            0 <= i < self.entries().len(),
        ensures
            self.has(self.entries()[i].0@),
            self.value(self.entries()[i].0@) == self.entries()[i].1,
    {
        lemma_ascending_distinct(self.names());
        let name = self.entries()[i].0@;
        assert(stands_at(self.names(), name, i));
        let j = choose|j: int| stands_at(self.names(), name, j);
        assert(self.names()[i] == self.names()[j]);
    }

    /// An empty map.
    pub fn new() -> (m: SortedMap<V>)
        ensures
            m.wf(),
            m.entries().len() == 0,
    {
        SortedMap { entries: Vec::new() }
    }

    /// A map with the given entries, if their names ascend strictly.
    pub fn from_entries(entries: Vec<(String, V)>) -> (r: Option<SortedMap<V>>)
        ensures
            match r {
                Some(m) => m.wf() && m.entries() == entries@,
                None => !ascending(names_of(entries@)),
            },
    {
        let ghost names = names_of(entries@);
        if entries.len() > 1 {
            let mut previous = chars_of(entries[0].0.as_str());
            let mut k: usize = 1;
            while k < entries.len()
                invariant
                    1 <= k <= entries.len(),
                    names == names_of(entries@),
                    previous@ == names[k - 1],
                    ascending(names.take(k as int)),
                decreases entries.len() - k,
            {
                let current = chars_of(entries[k].0.as_str());
                match rank(&previous, &current) {
                    Rank::Before => {},
                    _ => {
                        assert(!text_less(names[k - 1], names[k as int]));
                        return None;
                    },
                }
                proof {
                    let grown = names.take(k + 1);
                    assert forall|i: int, j: int| 0 <= i < j < grown.len() implies text_less(
                        grown[i],
                        grown[j],
                    ) by {
                        if j == k {
                            if i < k - 1 {
                                assert(text_less(names.take(k as int)[i], names.take(k as int)[k - 1]));
                                lemma_less_transitive(names[i], names[k - 1], names[k as int]);
                            }
                        } else {
                            assert(text_less(names.take(k as int)[i], names.take(k as int)[j]));
                        }
                    }
                }
                previous = current;
                k += 1;
            }
            assert(names.take(k as int) =~= names);
        }
        Some(SortedMap { entries })
    }

    /// The number of entries.
    pub fn len(&self) -> (n: usize)
        ensures
            n == self.entries().len(),
    {
        self.entries.len()
    }

    /// The name of the `i`-th entry.
    pub fn name_at(&self, i: usize) -> (name: &String)
        requires
            i < self.entries().len(),
        ensures
            *name == self.entries()[i as int].0,
    {
        &self.entries[i].0
    }

    /// The value of the `i`-th entry.
    pub fn value_at(&self, i: usize) -> (value: &V)
        requires
            i < self.entries().len(),
        ensures
            *value == self.entries()[i as int].1,
    {
        &self.entries[i].1
    }

    /// The first index whose name does not come before `name`, and whether
    /// the name there is `name` itself.
    fn seek(&self, name: &Vec<char>) -> (r: (usize, bool))
        requires
            self.wf(),
        ensures
            r.0 <= self.entries().len(),
            forall|j: int| 0 <= j < r.0 ==> text_less(self.names()[j], name@),
            r.1 ==> r.0 < self.entries().len() && self.names()[r.0 as int] == name@,
            !r.1 ==> forall|j: int| r.0 <= j < self.entries().len() ==> text_less(name@, self.names()[j]),
            is_slot(self.names(), name@, r.0 as int),
            slot(self.names(), name@) == r.0,
    {
        let mut i: usize = 0;
        while i < self.entries.len()
            invariant
                i <= self.entries.len(),
                self.wf(),
                forall|j: int| 0 <= j < i ==> text_less(self.names()[j], name@),
            decreases self.entries.len() - i,
        {
            let here = chars_of(self.entries[i].0.as_str());
            match rank(&here, name) {
                Rank::Before => {},
                Rank::Same => {
                    proof {
                        lemma_less_irreflexive(name@);
                        lemma_slot(self.names(), name@, i as int);
                    }
                    return (i, true);
                },
                Rank::After => {
                    proof {
                        lemma_less_asymmetric(name@, self.names()[i as int]);
                        lemma_slot(self.names(), name@, i as int);
                        assert forall|j: int| i <= j < self.entries().len() implies text_less(
                            name@,
                            self.names()[j],
                        ) by {
                            if j > i {
                                lemma_less_transitive(name@, self.names()[i as int], self.names()[j]);
                            }
                        }
                    }
                    return (i, false);
                },
            }
            i += 1;
        }
        proof {
            lemma_slot(self.names(), name@, i as int);
        }
        (i, false)
    }

    /// The value stored under `name`, if any.
    pub fn get(&self, name: &str) -> (r: Option<&V>)
        requires
            self.wf(),
        ensures
            match r {
                Some(v) => self.has(name@) && *v == self.value(name@),
                None => !self.has(name@),
            },
    {
        let chars = chars_of(name);
        let (i, found) = self.seek(&chars);
        if found {
            proof {
                self.lemma_value_at(i as int);
            }
            Some(&self.entries[i].1)
        } else {
            proof {
                if self.has(name@) {
                    let j = choose|j: int| stands_at(self.names(), name@, j);
                    lemma_less_irreflexive(name@);
                }
            }
            None
        }
    }

    /// Stores `value` under `name`, replacing what was stored there.
    pub fn insert(&mut self, name: String, value: V)
        requires
            old(self).wf(),
        ensures
            final(self).wf(),
            final(self).map() == old(self).map().insert(name@, value),
            final(self).listing() == put(old(self).listing(), name@, value),
    {
        let ghost key = name@;
        let ghost before = *self;
        let chars = chars_of(name.as_str());
        let (i, found) = self.seek(&chars);
        proof {
            assert(keys(before.listing()) =~= before.names());
        }
        if found {
            self.entries[i].1 = value;
            proof {
                assert(self.listing() =~= put(before.listing(), key, value));
                assert(self.names() =~= before.names());
                assert forall|other: Seq<char>| self.has(other) == before.has(other) by {
                    if before.has(other) {
                        let j = choose|j: int| stands_at(before.names(), other, j);
                        assert(stands_at(self.names(), other, j));
                    }
                    if self.has(other) {
                        let j = choose|j: int| stands_at(self.names(), other, j);
                        assert(stands_at(before.names(), other, j));
                    }
                }
                self.lemma_value_at(i as int);
                assert forall|other: Seq<char>| self.has(other) && other != key implies self.value(
                    other,
                ) == before.value(other) by {
                    let j = choose|j: int| stands_at(self.names(), other, j);
                    self.lemma_value_at(j);
                    before.lemma_value_at(j);
                }
                assert(self.map() =~= before.map().insert(key, value));
            }
        } else {
            self.entries.insert(i, (name, value));
            proof {
                let old_names = before.names();
                let new_names = self.names();
                if i < old_names.len() && old_names[i as int] == key {
                    lemma_less_irreflexive(key);
                }
                assert(self.listing() =~= put(before.listing(), key, value));
                assert(new_names =~= old_names.take(i as int).push(key) + old_names.skip(i as int));
                assert forall|a: int, b: int| 0 <= a < b < new_names.len() implies text_less(
                    new_names[a],
                    new_names[b],
                ) by {
                    if b < i {
                        assert(text_less(old_names[a], old_names[b]));
                    } else if b == i {
                        assert(new_names[a] == old_names[a]);
                    } else if a < i {
                        assert(text_less(old_names[a], old_names[b - 1]));
                    } else if a == i {
                        assert(new_names[b] == old_names[b - 1]);
                    } else {
                        assert(text_less(old_names[a - 1], old_names[b - 1]));
                    }
                }
                assert(stands_at(new_names, key, i as int));
                self.lemma_value_at(i as int);
                assert(!before.has(key)) by {
                    if before.has(key) {
                        let j = choose|j: int| stands_at(old_names, key, j);
                        lemma_less_irreflexive(key);
                    }
                }
                assert forall|other: Seq<char>| other != key implies self.has(other)
                    == before.has(other) by {
                    if before.has(other) {
                        let j = choose|j: int| stands_at(old_names, other, j);
                        if j < i {
                            assert(stands_at(new_names, other, j));
                        } else {
                            assert(stands_at(new_names, other, j + 1));
                        }
                    }
                    if self.has(other) {
                        let j = choose|j: int| stands_at(new_names, other, j);
                        if j < i {
                            assert(stands_at(old_names, other, j));
                        } else {
                            assert(stands_at(old_names, other, j - 1));
                        }
                    }
                }
                assert forall|other: Seq<char>| self.has(other) && other != key implies self.value(
                    other,
                ) == before.value(other) by {
                    let j = choose|j: int| stands_at(new_names, other, j);
                    self.lemma_value_at(j);
                    if j < i {
                        before.lemma_value_at(j);
                    } else {
                        before.lemma_value_at(j - 1);
                    }
                }
                assert(self.map() =~= before.map().insert(key, value));
            }
        }
    }
}

} // verus!
