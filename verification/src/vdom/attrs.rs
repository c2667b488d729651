//! Attribute maps: string keys to string values, every key at most once.
//!
//! The entries keep the order in which their keys were first inserted, so
//! that walking a map is deterministic.

use vstd::prelude::*;
use vstd::std_specs::cmp::PartialEqSpecImpl;
use vstd::string::*;

verus! {

/// One attribute in a model: its name and its value.
pub type Entry = (Seq<char>, Seq<char>);

/// Some entry of `entries` is named `key`.
pub open spec fn has_key<V>(entries: Seq<(Seq<char>, V)>, key: Seq<char>) -> bool {
    exists|i: int| 0 <= i < entries.len() && (#[trigger] entries[i]).0 == key
}

/// The position of an entry named `key` (the only one, where names are unique).
pub open spec fn index_of<V>(entries: Seq<(Seq<char>, V)>, key: Seq<char>) -> int {
    choose|i: int| 0 <= i < entries.len() && (#[trigger] entries[i]).0 == key
}

/// The value stored under `key`; meaningful where `has_key` holds.
pub open spec fn value_of<V>(entries: Seq<(Seq<char>, V)>, key: Seq<char>) -> V {
    entries[index_of(entries, key)].1
}

/// No two entries share a name.
pub open spec fn unique_keys<V>(entries: Seq<(Seq<char>, V)>) -> bool {
    forall|i: int, j: int|
        0 <= i < entries.len() && 0 <= j < entries.len() && (#[trigger] entries[i]).0 == (
        #[trigger] entries[j]).0 ==> i == j
}

/// The entries after storing `value` under `key`: an existing entry keeps its
/// place and takes the new value, a new one goes to the end.
pub open spec fn with_entry<V>(entries: Seq<(Seq<char>, V)>, key: Seq<char>, value: V) -> Seq<(Seq<char>, V)> {
    if has_key(entries, key) {
        entries.update(index_of(entries, key), (key, value))
    } else {
        entries.push((key, value))
    }
}

/// The entries after dropping the one named `key`, if there is one.
pub open spec fn without_entry<V>(entries: Seq<(Seq<char>, V)>, key: Seq<char>) -> Seq<(Seq<char>, V)> {
    if has_key(entries, key) {
        entries.remove(index_of(entries, key))
    } else {
        entries
    }
}

/// The entries seen as a finite map.
pub open spec fn as_map<V>(entries: Seq<(Seq<char>, V)>) -> Map<Seq<char>, V> {
    Map::new(|k: Seq<char>| has_key(entries, k), |k: Seq<char>| value_of(entries, k))
}

/// With unique names, the entry at position `i` is the one found under its name.
pub proof fn lemma_index_of_unique<V>(entries: Seq<(Seq<char>, V)>, i: int)
    requires
        unique_keys(entries),
        0 <= i < entries.len(),
    ensures
        has_key(entries, entries[i].0),
        index_of(entries, entries[i].0) == i,
        value_of(entries, entries[i].0) == entries[i].1,
{
    let k = entries[i].0;
    assert(0 <= i < entries.len() && entries[i].0 == k);
    let j = index_of(entries, k);
    assert(0 <= j < entries.len() && entries[j].0 == k);
}

/// Storing and dropping entries keep names unique.
pub proof fn lemma_with_entry_unique<V>(entries: Seq<(Seq<char>, V)>, key: Seq<char>, value: V)
    requires
        unique_keys(entries),
    ensures
        unique_keys(with_entry(entries, key, value)),
        has_key(with_entry(entries, key, value), key),
        value_of(with_entry(entries, key, value), key) == value,
{
    let out = with_entry(entries, key, value);
    if has_key(entries, key) {
        let p = index_of(entries, key);
        assert(out[p] == (key, value));
        assert forall|i: int, j: int|
            0 <= i < out.len() && 0 <= j < out.len() && (#[trigger] out[i]).0 == (
            #[trigger] out[j]).0 implies i == j by {
            assert(out[i].0 == entries[i].0);
            assert(out[j].0 == entries[j].0);
        }
        lemma_index_of_unique(out, p);
    } else {
        let p = entries.len() as int;
        assert(out[p] == (key, value));
        assert forall|i: int, j: int|
            0 <= i < out.len() && 0 <= j < out.len() && (#[trigger] out[i]).0 == (
            #[trigger] out[j]).0 implies i == j by {
            if i < p {
                assert(out[i] == entries[i]);
            }
            if j < p {
                assert(out[j] == entries[j]);
            }
        }
        lemma_index_of_unique(out, p);
    }
}

pub proof fn lemma_without_entry_unique<V>(entries: Seq<(Seq<char>, V)>, key: Seq<char>)
    requires
        unique_keys(entries),
    ensures
        unique_keys(without_entry(entries, key)),
        !has_key(without_entry(entries, key), key),
{
    let out = without_entry(entries, key);
    if has_key(entries, key) {
        let p = index_of(entries, key);
        assert forall|i: int| 0 <= i < out.len() implies (#[trigger] out[i]) == entries[if i
            < p {
            i
        } else {
            i + 1
        }] by {}
        assert forall|i: int, j: int|
            0 <= i < out.len() && 0 <= j < out.len() && (#[trigger] out[i]).0 == (
            #[trigger] out[j]).0 implies i == j by {
            let i2 = if i < p { i } else { i + 1 };
            let j2 = if j < p { j } else { j + 1 };
            assert(out[i] == entries[i2]);
            assert(out[j] == entries[j2]);
            assert(entries[i2].0 == entries[j2].0);
        }
        if has_key(out, key) {
            let q = index_of(out, key);
            let q2 = if q < p { q } else { q + 1 };
            assert(out[q] == entries[q2]);
            assert(entries[q2].0 == entries[p].0);
        }
    }
}

/// An attribute map.
#[derive(Debug)]
pub struct AttrMap {
    entries: Vec<(String, String)>,
}

impl View for AttrMap {
    type V = Seq<Entry>;

    closed spec fn view(&self) -> Seq<Entry> {
        Seq::new(self.entries@.len(), |i: int| (self.entries@[i].0@, self.entries@[i].1@))
    }
}

impl AttrMap {
    #[verifier::type_invariant]
    closed spec fn names_are_unique(&self) -> bool {
        unique_keys(self@)
    }

    /// An empty map.
    pub fn new() -> (r: Self)
        ensures
            r@ == Seq::<Entry>::empty(),
    {
        let r = AttrMap { entries: Vec::new() };
        assert(r@ =~= Seq::<Entry>::empty());
        r
    }

    /// The number of attributes. No name occurs twice among them.
    pub fn len(&self) -> (n: usize)
        ensures
            n == self@.len(),
            unique_keys(self@),
    {
        proof {
            use_type_invariant(self);
        }
        self.entries.len()
    }

    pub fn is_empty(&self) -> (b: bool)
        ensures
            b == (self@.len() == 0),
    {
        self.entries.len() == 0
    }

    /// The name of the attribute at position `i`.
    pub fn key_at(&self, i: usize) -> (k: &String)
        requires
            i < self@.len(),
        ensures
            k@ == self@[i as int].0,
    {
        &self.entries[i].0
    }

    /// The value of the attribute at position `i`.
    pub fn value_at(&self, i: usize) -> (v: &String)
        requires
            i < self@.len(),
        ensures
            v@ == self@[i as int].1,
    {
        &self.entries[i].1
    }

    fn position(&self, key: &String) -> (r: Option<usize>)
        ensures
            match r {
                Some(i) => i < self@.len() && self@[i as int].0 == key@ && has_key(self@, key@)
                    && index_of(self@, key@) == i,
                None => !has_key(self@, key@),
            },
    {
        proof {
            use_type_invariant(self);
        }
        let mut i: usize = 0;
        while i < self.entries.len()
            invariant
                i <= self.entries@.len(),
                self@.len() == self.entries@.len(),
                unique_keys(self@),
                forall|j: int| 0 <= j < i ==> (#[trigger] self@[j]).0 != key@,
            decreases self.entries@.len() - i,
        {
            if self.entries[i].0 == *key {
                proof {
                    lemma_index_of_unique(self@, i as int);
                }
                return Some(i);
            }
            i += 1;
        }
        None
    }

    /// Whether an attribute named `key` is present.
    pub fn contains_key(&self, key: &str) -> (b: bool)
        ensures
            b == has_key(self@, key@),
    {
        let k = String::from_str(key);
        self.position(&k).is_some()
    }

    /// The value stored under `key`.
    pub fn get(&self, key: &str) -> (r: Option<&String>)
        ensures
            r is Some == has_key(self@, key@),
            r is Some ==> r->0@ == value_of(self@, key@),
    {
        let k = String::from_str(key);
        match self.position(&k) {
            Some(i) => Some(&self.entries[i].1),
            None => None,
        }
    }

    /// Stores `value` under `key` and returns the value that was there before.
    pub fn insert(&mut self, key: String, value: String) -> (r: Option<String>)
        ensures
            final(self)@ == with_entry(old(self)@, key@, value@),
            r is Some == has_key(old(self)@, key@),
            r is Some ==> r->0@ == value_of(old(self)@, key@),
    {
        proof {
            use_type_invariant(&*self);
            lemma_with_entry_unique(self@, key@, value@);
        }
        match self.position(&key) {
            Some(i) => {
                let mut entries: Vec<(String, String)> = Vec::new();
                std::mem::swap(&mut entries, &mut self.entries);
                let ghost before = entries@;
                let previous = entries.remove(i);
                entries.insert(i, (key, value));
                assert(Seq::new(entries@.len(), |j: int| (entries@[j].0@, entries@[j].1@))
                    =~= with_entry(old(self)@, key@, value@));
                self.entries = entries;
                Some(previous.1)
            },
            None => {
                let mut entries: Vec<(String, String)> = Vec::new();
                std::mem::swap(&mut entries, &mut self.entries);
                entries.push((key, value));
                assert(Seq::new(entries@.len(), |j: int| (entries@[j].0@, entries@[j].1@))
                    =~= with_entry(old(self)@, key@, value@));
                self.entries = entries;
                None
            },
        }
    }

    /// Drops the attribute named `key` and returns its value.
    pub fn remove(&mut self, key: &str) -> (r: Option<String>)
        ensures
            final(self)@ == without_entry(old(self)@, key@),
            r is Some == has_key(old(self)@, key@),
            r is Some ==> r->0@ == value_of(old(self)@, key@),
    {
        proof {
            use_type_invariant(&*self);
            lemma_without_entry_unique(self@, key@);
        }
        let k = String::from_str(key);
        match self.position(&k) {
            Some(i) => {
                let mut entries: Vec<(String, String)> = Vec::new();
                std::mem::swap(&mut entries, &mut self.entries);
                let previous = entries.remove(i);
                assert(Seq::new(entries@.len(), |j: int| (entries@[j].0@, entries@[j].1@))
                    =~= without_entry(old(self)@, key@));
                self.entries = entries;
                Some(previous.1)
            },
            None => None,
        }
    }
}

impl Clone for AttrMap {
    fn clone(&self) -> (r: Self)
        ensures
            r@ == self@,
    {
        proof {
            use_type_invariant(self);
        }
        let mut entries: Vec<(String, String)> = Vec::new();
        let mut i: usize = 0;
        while i < self.entries.len()
            invariant
                i <= self.entries@.len(),
                entries@.len() == i,
                forall|j: int|
                    0 <= j < i ==> (#[trigger] entries@[j]).0@ == self.entries@[j].0@
                        && entries@[j].1@ == self.entries@[j].1@,
            decreases self.entries@.len() - i,
        {
            entries.push((self.entries[i].0.clone(), self.entries[i].1.clone()));
            i += 1;
        }
        assert(Seq::new(entries@.len(), |j: int| (entries@[j].0@, entries@[j].1@)) =~= self@);
        AttrMap { entries }
    }
}

impl AttrMap {
    /// Every attribute of `self`, but for one named like `skip`, is in
    /// `other`, with the same value.
    fn included_in(&self, other: &AttrMap, skip: &Option<String>) -> (b: bool)
        ensures
            b == (forall|k: Seq<char>| #[trigger]
                has_key(self@, k) && Some(k) != skipped(*skip) ==> has_key(other@, k)
                    && value_of(other@, k) == value_of(self@, k)),
    {
        proof {
            use_type_invariant(self);
        }
        let mut i: usize = 0;
        while i < self.entries.len()
            invariant
                i <= self.entries@.len(),
                self@.len() == self.entries@.len(),
                unique_keys(self@),
                forall|j: int|
                    0 <= j < i && Some((#[trigger] self@[j]).0) != skipped(*skip) ==> has_key(
                        other@,
                        self@[j].0,
                    ) && value_of(other@, self@[j].0) == self@[j].1,
            decreases self.entries@.len() - i,
        {
            proof {
                lemma_index_of_unique(self@, i as int);
            }
            let is_skipped = match skip {
                Some(name) => self.entries[i].0 == *name,
                None => false,
            };
            if !is_skipped {
                match other.position(&self.entries[i].0) {
                    Some(j) => {
                        if !(other.entries[j].1 == self.entries[i].1) {
                            return false;
                        }
                    },
                    None => {
                        return false;
                    },
                }
            }
            i += 1;
        }
        proof {
            assert forall|k: Seq<char>| #[trigger]
                has_key(self@, k) && Some(k) != skipped(*skip) implies has_key(other@, k)
                && value_of(other@, k) == value_of(self@, k) by {
                let p = index_of(self@, k);
                lemma_index_of_unique(self@, p);
            }
        }
        true
    }

    /// Whether two maps hold the same values under the same names, the name
    /// `skip` apart.
    pub fn same_except(&self, other: &AttrMap, skip: &str) -> (b: bool)
        ensures
            b == (as_map(self@).remove(skip@) == as_map(other@).remove(skip@)),
    {
        let name = Some(String::from_str(skip));
        let b = self.included_in(other, &name) && other.included_in(self, &name);
        proof {
            let left = as_map(self@).remove(skip@);
            let right = as_map(other@).remove(skip@);
            if b {
                assert(left =~= right);
            } else if left == right {
                assert forall|k: Seq<char>| k != skip@ implies #[trigger] has_key(self@, k)
                    == has_key(other@, k) && (has_key(self@, k) ==> value_of(other@, k)
                    == value_of(self@, k)) by {
                    assert(left.dom().contains(k) == right.dom().contains(k));
                    assert(left[k] == right[k]);
                }
            }
        }
        b
    }
}

/// The name that a comparison leaves out, if it leaves one out.
pub open spec fn skipped(skip: Option<String>) -> Option<Seq<char>> {
    match skip {
        Some(name) => Some(name@),
        None => None,
    }
}

impl PartialEq for AttrMap {
    fn eq(&self, other: &Self) -> (r: bool) {
        let none: Option<String> = None;
        let r = self.included_in(other, &none) && other.included_in(self, &none);
        proof {
            if r {
                assert(as_map(self@) =~= as_map(other@));
            } else {
                if as_map(self@) == as_map(other@) {
                    assert forall|k: Seq<char>| #[trigger]
                        has_key(self@, k) == has_key(other@, k) && (has_key(self@, k)
                            ==> value_of(other@, k) == value_of(self@, k)) by {
                        assert(as_map(self@).dom().contains(k) == as_map(other@).dom().contains(
                            k,
                        ));
                        assert(as_map(self@)[k] == as_map(other@)[k]);
                    }
                }
            }
        }
        r
    }
}

impl PartialEqSpecImpl for AttrMap {
    open spec fn obeys_eq_spec() -> bool {
        true
    }

    /// Two attribute maps are equal when they hold the same values under the
    /// same names, in whatever order.
    open spec fn eq_spec(&self, other: &Self) -> bool {
        as_map(self@) == as_map(other@)
    }
}

} // verus!
