//! The attribute mapping of a node: unique keys, insertion order kept.
//!
//! Two mappings are the same when they bind the same keys to the same
//! values; the order in which the entries were inserted only decides the
//! order in which they are walked.
use vstd::prelude::*;
use crate::text::str_eq;

verus! {

/// The entries of an attribute mapping, as key and value character sequences.
pub type Entries = Seq<(Seq<char>, Seq<char>)>;

/// Whether some entry of `e` has the key `k`.
pub open spec fn has_key(e: Entries, k: Seq<char>) -> bool {
    exists|i: int| 0 <= i < e.len() && (#[trigger] e[i]).0 == k
}

/// The value that `e` binds to `k`, if any.
pub open spec fn value_of(e: Entries, k: Seq<char>) -> Option<Seq<char>> {
    if has_key(e, k) {
        let i = choose|i: int| 0 <= i < e.len() && (#[trigger] e[i]).0 == k;
        Some(e[i].1)
    } else {
        None
    }
}

/// No key occurs twice.
pub open spec fn distinct_keys(e: Entries) -> bool {
    forall|i: int, j: int| 0 <= i < j < e.len() ==> (#[trigger] e[i]).0 != (#[trigger] e[j]).0
}

/// Two entry lists bind the same keys to the same values.
pub open spec fn same_bindings(a: Entries, b: Entries) -> bool {
    forall|k: Seq<char>| #[trigger] value_of(a, k) == value_of(b, k)
}

/// The position of the key `k` in `e`, or the length of `e` if it is absent.
pub open spec fn position_of(e: Entries, k: Seq<char>) -> int {
    if has_key(e, k) {
        choose|i: int| 0 <= i < e.len() && (#[trigger] e[i]).0 == k
    } else {
        e.len() as int
    }
}

/// `e` with `k` bound to `v`: overwritten in place, or appended.
pub open spec fn with_binding(e: Entries, k: Seq<char>, v: Seq<char>) -> Entries {
    if has_key(e, k) {
        e.update(position_of(e, k), (k, v))
    } else {
        e.push((k, v))
    }
}

/// `e` without the key `k`.
pub open spec fn without_key(e: Entries, k: Seq<char>) -> Entries {
    if has_key(e, k) {
        e.remove(position_of(e, k))
    } else {
        e
    }
}

/// In a list with distinct keys the entry at `i` is what its key is bound to.
pub proof fn lemma_value_at(e: Entries, i: int)
    requires
        distinct_keys(e),
        0 <= i < e.len(),
    ensures
        has_key(e, e[i].0),
        value_of(e, e[i].0) == Some(e[i].1),
        position_of(e, e[i].0) == i,
{
    let k = e[i].0;
    assert(has_key(e, k));
    let j = choose|j: int| 0 <= j < e.len() && (#[trigger] e[j]).0 == k;
    if j < i {
        assert(e[j].0 != e[i].0);
    } else if i < j {
        assert(e[i].0 != e[j].0);
    }
}

/// Binding a key keeps the keys distinct and changes only that key's value.
pub proof fn lemma_with_binding(e: Entries, k: Seq<char>, v: Seq<char>)
    requires
        distinct_keys(e),
    ensures
        distinct_keys(with_binding(e, k, v)),
        value_of(with_binding(e, k, v), k) == Some(v),
        forall|other: Seq<char>|
            other != k ==> #[trigger] value_of(with_binding(e, k, v), other) == value_of(e, other),
{
    let r = with_binding(e, k, v);
    if has_key(e, k) {
        let p = position_of(e, k);
        assert(r[p] == (k, v));
        assert forall|i: int, j: int| 0 <= i < j < r.len() implies (#[trigger] r[i]).0 != (
        #[trigger] r[j]).0 by {
            assert(e[i].0 != e[j].0);
        }
        lemma_value_at(r, p);
        assert forall|other: Seq<char>| other != k implies #[trigger] value_of(r, other)
            == value_of(e, other) by {
            if has_key(e, other) {
                let q = position_of(e, other);
                assert(r[q] == e[q]);
                lemma_value_at(e, q);
                lemma_value_at(r, q);
            } else if has_key(r, other) {
                let q = position_of(r, other);
                assert(e[q].0 == other);
            }
        }
    } else {
        let p = e.len() as int;
        assert(r[p] == (k, v));
        assert forall|i: int, j: int| 0 <= i < j < r.len() implies (#[trigger] r[i]).0 != (
        #[trigger] r[j]).0 by {
            if j < e.len() {
                assert(e[i].0 != e[j].0);
            } else {
                assert(e[i].0 != k);
            }
        }
        lemma_value_at(r, p);
        assert forall|other: Seq<char>| other != k implies #[trigger] value_of(r, other)
            == value_of(e, other) by {
            if has_key(e, other) {
                let q = position_of(e, other);
                assert(r[q] == e[q]);
                lemma_value_at(e, q);
                lemma_value_at(r, q);
            } else if has_key(r, other) {
                let q = position_of(r, other);
                assert(e[q].0 == other);
            }
        }
    }
}

/// Dropping a key keeps the keys distinct and changes only that key's value.
pub proof fn lemma_without_key(e: Entries, k: Seq<char>)
    requires
        distinct_keys(e),
    ensures
        distinct_keys(without_key(e, k)),
        value_of(without_key(e, k), k).is_none(),
        forall|other: Seq<char>|
            other != k ==> #[trigger] value_of(without_key(e, k), other) == value_of(e, other),
{
    let r = without_key(e, k);
    if has_key(e, k) {
        let p = position_of(e, k);
        assert forall|i: int| 0 <= i < r.len() implies (#[trigger] r[i]) == e[
            if i < p {
                i
            } else {
                i + 1
            }] by {}
        assert forall|i: int, j: int| 0 <= i < j < r.len() implies (#[trigger] r[i]).0 != (
        #[trigger] r[j]).0 by {
            let i2 = if i < p { i } else { i + 1 };
            let j2 = if j < p { j } else { j + 1 };
            assert(e[i2].0 != e[j2].0);
        }
        if has_key(r, k) {
            let q = position_of(r, k);
            let q2 = if q < p { q } else { q + 1 };
            assert(e[q2].0 == k);
            if q2 < p {
                assert(e[q2].0 != e[p].0);
            } else {
                assert(e[p].0 != e[q2].0);
            }
        }
        assert forall|other: Seq<char>| other != k implies #[trigger] value_of(r, other)
            == value_of(e, other) by {
            if has_key(e, other) {
                let q = position_of(e, other);
                let q1 = if q < p { q } else { q - 1 };
                assert(r[q1] == e[q]);
                lemma_value_at(e, q);
                lemma_value_at(r, q1);
            } else if has_key(r, other) {
                let q = position_of(r, other);
                let q2 = if q < p { q } else { q + 1 };
                assert(e[q2].0 == other);
            }
        }
    }
}

/// An attribute mapping: each key at most once, in insertion order.
#[derive(Debug)]
pub struct Attributes {
    entries: Vec<(String, String)>,
}

impl View for Attributes {
    type V = Entries;

    closed spec fn view(&self) -> Entries {
        Seq::new(self.entries@.len(), |i: int| (self.entries@[i].0@, self.entries@[i].1@))
    }
}

impl Attributes {
    #[verifier::type_invariant]
    closed spec fn keys_are_distinct(&self) -> bool {
        distinct_keys(self@)
    }

    /// The empty mapping.
    pub fn new() -> (r: Self)
        ensures
            r@ == Entries::empty(),
    {
        let r = Attributes { entries: Vec::new() };
        assert(r@ =~= Entries::empty());
        r
    }

    /// The number of entries.
    pub fn len(&self) -> (n: usize)
        ensures
            n == self@.len(),
    {
        self.entries.len()
    }

    /// Whether the mapping has no entry.
    pub fn is_empty(&self) -> (r: bool)
        ensures
            r == (self@.len() == 0),
    {
        self.entries.len() == 0
    }

    /// Recalls that no key occurs twice in a mapping.
    pub fn distinct(&self)
        ensures
            distinct_keys(self@),
    {
        proof {
            use_type_invariant(self);
        }
    }

    /// The key of the entry at `i`.
    pub fn key_at(&self, i: usize) -> (k: &String)
        requires
            i < self@.len(),
        ensures
            k@ == self@[i as int].0,
    {
        &self.entries[i].0
    }

    /// The value of the entry at `i`.
    pub fn value_at(&self, i: usize) -> (v: &String)
        requires
            i < self@.len(),
        ensures
            v@ == self@[i as int].1,
    {
        &self.entries[i].1
    }

    /// The position of `key` among the entries.
    pub fn position(&self, key: &str) -> (r: Option<usize>)
        ensures
            r.is_some() == has_key(self@, key@),
            r.is_some() ==> r.unwrap() == position_of(self@, key@),
    {
        proof {
            use_type_invariant(self);
        }
        let n = self.entries.len();
        let mut i: usize = 0;
        while i < n
            invariant
                n == self@.len(),
                n == self.entries@.len(),
                i <= n,
                distinct_keys(self@),
                forall|j: int| 0 <= j < i ==> (#[trigger] self@[j]).0 != key@,
            decreases n - i,
        {
            if str_eq(self.entries[i].0.as_str(), key) {
                proof {
                    lemma_value_at(self@, i as int);
                }
                return Some(i);
            }
            i += 1;
        }
        None
    }

    /// Whether `key` is bound.
    pub fn contains_key(&self, key: &str) -> (r: bool)
        ensures
            r == has_key(self@, key@),
    {
        self.position(key).is_some()
    }

    /// The value bound to `key`, if any.
    pub fn get(&self, key: &str) -> (r: Option<&String>)
        ensures
            r.is_some() == has_key(self@, key@),
            r.is_some() ==> value_of(self@, key@) == Some(r.unwrap()@),
    {
        proof {
            use_type_invariant(self);
        }
        match self.position(key) {
            Some(i) => {
                proof {
                    lemma_value_at(self@, i as int);
                }
                Some(&self.entries[i].1)
            },
            None => None,
        }
    }

    /// Binds `key` to `value`: an existing entry is overwritten where it
    /// stands, a new one goes to the end.
    pub fn insert(&mut self, key: String, value: String)
        ensures
            final(self)@ == with_binding(old(self)@, key@, value@),
    {
        proof {
            use_type_invariant(&*self);
            lemma_with_binding(self@, key@, value@);
        }
        let found = self.position(key.as_str());
        let ghost before = self@;
        let ghost k = key@;
        let ghost v = value@;
        let mut entries: Vec<(String, String)> = Vec::new();
        core::mem::swap(&mut self.entries, &mut entries);
        assert(Seq::new(entries@.len(), |i: int| (entries@[i].0@, entries@[i].1@)) =~= before);
        match found {
            Some(i) => {
                entries.set(i, (key, value));
            },
            None => {
                entries.push((key, value));
            },
        }
        assert(Seq::new(entries@.len(), |i: int| (entries@[i].0@, entries@[i].1@))
            =~= with_binding(before, k, v));
        core::mem::swap(&mut self.entries, &mut entries);
    }

    /// Drops the entry of `key`, if there is one.
    pub fn remove(&mut self, key: &str)
        ensures
            final(self)@ == without_key(old(self)@, key@),
    {
        proof {
            use_type_invariant(&*self);
            lemma_without_key(self@, key@);
        }
        let found = self.position(key);
        let ghost before = self@;
        let mut entries: Vec<(String, String)> = Vec::new();
        core::mem::swap(&mut self.entries, &mut entries);
        assert(Seq::new(entries@.len(), |i: int| (entries@[i].0@, entries@[i].1@)) =~= before);
        match found {
            Some(i) => {
                let _ = entries.remove(i);
            },
            None => {},
        }
        assert(Seq::new(entries@.len(), |i: int| (entries@[i].0@, entries@[i].1@))
            =~= without_key(before, key@));
        core::mem::swap(&mut self.entries, &mut entries);
    }

    /// Whether `self` and `other` bind the same keys to the same values.
    pub fn same_as(&self, other: &Attributes) -> (r: bool)
        ensures
            r == same_bindings(self@, other@),
    {
        self.within(other) && other.within(self)
    }

    /// Whether every binding of `self` is a binding of `other`.
    fn within(&self, other: &Attributes) -> (r: bool)
        ensures
            r == (forall|k: Seq<char>| has_key(self@, k) ==> #[trigger] value_of(other@, k)
                == value_of(self@, k)),
    {
        proof {
            use_type_invariant(self);
        }
        let n = self.entries.len();
        let mut i: usize = 0;
        while i < n
            invariant
                n == self@.len(),
                n == self.entries@.len(),
                i <= n,
                distinct_keys(self@),
                forall|j: int| 0 <= j < i ==> value_of(other@, (#[trigger] self@[j]).0) == Some(self@[j].1),
            decreases n - i,
        {
            proof {
                lemma_value_at(self@, i as int);
            }
            match other.get(self.entries[i].0.as_str()) {
                Some(v) => {
                    if !str_eq(v.as_str(), self.entries[i].1.as_str()) {
                        return false;
                    }
                },
                None => {
                    return false;
                },
            }
            i += 1;
        }
        proof {
            assert forall|k: Seq<char>| has_key(self@, k) implies #[trigger] value_of(other@, k)
                == value_of(self@, k) by {
                let j = position_of(self@, k);
                lemma_value_at(self@, j);
            }
        }
        true
    }
}

impl PartialEq for Attributes {
    /// Two mappings are equal when they bind the same keys to the same values.
    fn eq(&self, other: &Attributes) -> (r: bool) {
        self.same_as(other)
    }
}

impl vstd::std_specs::cmp::PartialEqSpecImpl for Attributes {
    open spec fn obeys_eq_spec() -> bool {
        true
    }

    open spec fn eq_spec(&self, other: &Attributes) -> bool {
        same_bindings(self@, other@)
    }
}

impl Clone for Attributes {
    fn clone(&self) -> (r: Self)
        ensures
            r@ == self@,
    {
        proof {
            use_type_invariant(self);
        }
        let mut entries: Vec<(String, String)> = Vec::new();
        let n = self.entries.len();
        let mut i: usize = 0;
        while i < n
            invariant
                n == self.entries@.len(),
                i <= n,
                entries@.len() == i,
                forall|j: int| 0 <= j < i ==> (#[trigger] entries@[j]).0@ == self.entries@[j].0@
                    && entries@[j].1@ == self.entries@[j].1@,
            decreases n - i,
        {
            entries.push((self.entries[i].0.clone(), self.entries[i].1.clone()));
            i += 1;
        }
        assert(Seq::new(entries@.len(), |i: int| (entries@[i].0@, entries@[i].1@)) =~= self@);
        Attributes { entries }
    }
}

} // verus!
