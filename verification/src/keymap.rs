//! A map from texts to values, kept in the order of its keys.

use vstd::prelude::*;
use vstd::string::*;

use crate::text::{
    lemma_lex_asymmetric, lemma_lex_irreflexive, lemma_lex_total, lemma_lex_transitive, lex_lt,
    str_eq, str_lt,
};

verus! {

/// Each key comes before the next: the keys are in order, none twice.
pub open spec fn keys_increase(keys: Seq<Seq<char>>) -> bool {
    forall|i: int, j: int| 0 <= i < j < keys.len() ==> lex_lt(#[trigger] keys[i], #[trigger] keys[j])
}

/// The place of `key` among `keys`, if it is one of them.
pub open spec fn index_of(keys: Seq<Seq<char>>, key: Seq<char>) -> Option<int> {
    if exists|i: int| 0 <= i < keys.len() && keys[i] == key {
        Some(choose|i: int| 0 <= i < keys.len() && keys[i] == key)
    } else {
        None
    }
}

/// How many of `keys` come before `key`: where `key` stands, or would
/// stand, among keys in order.
pub open spec fn rank(keys: Seq<Seq<char>>, key: Seq<char>) -> int
    decreases keys.len(),
{
    if keys.len() == 0 {
        0
    } else {
        rank(keys.drop_last(), key) + if lex_lt(keys.last(), key) {
            1int
        } else {
            0int
        }
    }
}

/// Among keys in order, those before `key` are the first `r` ones exactly
/// where `r` is the rank of `key`.
pub proof fn lemma_rank_splits(keys: Seq<Seq<char>>, key: Seq<char>, r: int)
    requires
        keys_increase(keys),
        0 <= r <= keys.len(),
        forall|j: int| 0 <= j < r ==> lex_lt(#[trigger] keys[j], key),
        forall|j: int| r <= j < keys.len() ==> !lex_lt(#[trigger] keys[j], key),
    ensures
        rank(keys, key) == r,
    decreases keys.len(),
{
    if keys.len() > 0 {
        let front = keys.drop_last();
        if r == keys.len() {
            lemma_rank_splits(front, key, r - 1);
        } else {
            lemma_rank_splits(front, key, r);
        }
    }
}

/// The rank of a key lies within the keys; the keys before it come before
/// the key, the others do not.
pub proof fn lemma_rank_bounds(keys: Seq<Seq<char>>, key: Seq<char>)
    requires
        keys_increase(keys),
    ensures
        0 <= rank(keys, key) <= keys.len(),
        forall|j: int| 0 <= j < rank(keys, key) ==> lex_lt(#[trigger] keys[j], key),
        forall|j: int| rank(keys, key) <= j < keys.len() ==> !lex_lt(#[trigger] keys[j], key),
    decreases keys.len(),
{
    if keys.len() > 0 {
        let front = keys.drop_last();
        lemma_rank_bounds(front, key);
        let r = rank(front, key);
        if lex_lt(keys.last(), key) {
            assert forall|j: int| 0 <= j < keys.len() implies lex_lt(#[trigger] keys[j], key) by {
                if j < keys.len() - 1 {
                    lemma_lex_transitive(keys[j], keys.last(), key);
                }
            }
        } else {
            assert forall|j: int| 0 <= j < r implies lex_lt(#[trigger] keys[j], key) by {
                assert(lex_lt(front[j], key));
            }
            assert forall|j: int| r <= j < keys.len() implies !lex_lt(#[trigger] keys[j], key) by {
                if j < keys.len() - 1 {
                    assert(!lex_lt(front[j], key));
                }
            }
        }
    }
}

/// The value that `keys` and `values` hold for `key`.
pub open spec fn value_of<T>(keys: Seq<Seq<char>>, values: Seq<T>, key: Seq<char>) -> Option<T> {
    match index_of(keys, key) {
        Some(i) => Some(values[i]),
        None => None,
    }
}

/// After a new key is put in its place, every other key holds what it
/// held, and the new key holds the new value.
pub proof fn lemma_value_after_insert<T>(keys: Seq<Seq<char>>, values: Seq<T>, key: Seq<char>, value: T)
    requires
        keys_increase(keys),
        values.len() == keys.len(),
        index_of(keys, key) is None,
        keys_increase(keys.insert(rank(keys, key), key)),
    ensures
        value_of(keys.insert(rank(keys, key), key), values.insert(rank(keys, key), value), key)
            == Some(value),
        forall|other: Seq<char>|
            other != key ==> #[trigger] value_of(
                keys.insert(rank(keys, key), key),
                values.insert(rank(keys, key), value),
                other,
            ) == value_of(keys, values, other),
{
    let r = rank(keys, key);
    lemma_rank_bounds(keys, key);
    let keys2 = keys.insert(r, key);
    let values2 = values.insert(r, value);
    lemma_index_unique(keys2, r);
    assert forall|other: Seq<char>| other != key implies #[trigger] value_of(keys2, values2, other)
        == value_of(keys, values, other) by {
        match index_of(keys, other) {
            Some(i) => {
                let j = if i < r {
                    i
                } else {
                    i + 1
                };
                lemma_index_unique(keys2, j);
            },
            None => {},
        }
    }
}

/// Keys in order stay in order when a new key is put at its rank.
pub proof fn lemma_insert_keeps_order(keys: Seq<Seq<char>>, key: Seq<char>)
    requires
        keys_increase(keys),
        index_of(keys, key) is None,
    ensures
        keys_increase(keys.insert(rank(keys, key), key)),
{
    let r = rank(keys, key);
    lemma_rank_bounds(keys, key);
    let after = keys.insert(r, key);
    assert forall|i: int, j: int| 0 <= i < j < after.len() implies lex_lt(
        #[trigger] after[i],
        #[trigger] after[j],
    ) by {
        if i == r {
            lemma_lex_total(keys[j - 1], key);
        }
    }
}

/// Keys in order stay in order when one is taken out, and the others hold
/// what they held.
pub proof fn lemma_value_after_remove<T>(keys: Seq<Seq<char>>, values: Seq<T>, i: int)
    requires
        keys_increase(keys),
        values.len() == keys.len(),
        0 <= i < keys.len(),
    ensures
        keys_increase(keys.remove(i)),
        value_of(keys.remove(i), values.remove(i), keys[i]) is None,
        forall|other: Seq<char>|
            other != keys[i] ==> #[trigger] value_of(keys.remove(i), values.remove(i), other)
                == value_of(keys, values, other),
{
    let keys2 = keys.remove(i);
    let values2 = values.remove(i);
    assert forall|a: int, b: int| 0 <= a < b < keys2.len() implies lex_lt(
        #[trigger] keys2[a],
        #[trigger] keys2[b],
    ) by {}
    if index_of(keys2, keys[i]) is Some {
        let j = index_of(keys2, keys[i]).unwrap();
        let oj = if j < i {
            j
        } else {
            j + 1
        };
        lemma_index_unique(keys, oj);
        lemma_index_unique(keys, i);
    }
    assert forall|other: Seq<char>| other != keys[i] implies #[trigger] value_of(
        keys2,
        values2,
        other,
    ) == value_of(keys, values, other) by {
        match index_of(keys, other) {
            Some(p) => {
                let j = if p < i {
                    p
                } else {
                    p - 1
                };
                lemma_index_unique(keys2, j);
            },
            None => {},
        }
    }
}

/// The value of a key that is set in place is the new value, and the other
/// keys hold what they held.
pub proof fn lemma_value_after_update<T>(keys: Seq<Seq<char>>, values: Seq<T>, i: int, value: T)
    requires
        keys_increase(keys),
        values.len() == keys.len(),
        0 <= i < keys.len(),
    ensures
        value_of(keys, values.update(i, value), keys[i]) == Some(value),
        forall|other: Seq<char>|
            other != keys[i] ==> #[trigger] value_of(keys, values.update(i, value), other)
                == value_of(keys, values, other),
{
    lemma_index_unique(keys, i);
    assert forall|other: Seq<char>| other != keys[i] implies #[trigger] value_of(
        keys,
        values.update(i, value),
        other,
    ) == value_of(keys, values, other) by {}
}

/// A map from texts to values of type `V`, held in the order of its keys.
pub struct KeyMap<V> {
    entries: Vec<(String, V)>,
}

impl<V> KeyMap<V> {
    /// The keys, in order.
    pub closed spec fn keys(&self) -> Seq<Seq<char>> {
        Seq::new(self.entries.len() as nat, |i: int| self.entries[i].0@)
    }

    /// The values, each at the place of its key.
    pub closed spec fn values(&self) -> Seq<V> {
        Seq::new(self.entries.len() as nat, |i: int| self.entries[i].1)
    }

    /// The map is valid: no key occurs twice and the keys are in order.
    pub open spec fn wf(&self) -> bool {
        &&& keys_increase(self.keys())
        &&& self.values().len() == self.keys().len()
    }

    /// The value held for `key`, if any.
    pub open spec fn spec_get(&self, key: Seq<char>) -> Option<V> {
        match index_of(self.keys(), key) {
            Some(i) => Some(self.values()[i]),
            None => None,
        }
    }

    /// A map without keys.
    pub fn new() -> (m: KeyMap<V>)
        ensures
            m.wf(),
            m.keys() == Seq::<Seq<char>>::empty(),
            m.values() == Seq::<V>::empty(),
    {
        let m = KeyMap { entries: Vec::new() };
        m
    }

    /// The number of keys.
    pub fn len(&self) -> (n: usize)
        ensures
            n == self.keys().len(),
            n == self.values().len(),
    {
        self.entries.len()
    }

    /// The key at place `i`.
    pub fn key(&self, i: usize) -> (k: &String)
        requires
            i < self.keys().len(),
        ensures
            k@ == self.keys()[i as int],
    {
        &self.entries[i].0
    }

    /// The value at place `i`.
    pub fn value(&self, i: usize) -> (v: &V)
        requires
            i < self.keys().len(),
        ensures
            *v == self.values()[i as int],
    {
        &self.entries[i].1
    }

    /// The value at place `i`, to be changed in place.
    pub fn value_mut(&mut self, i: usize) -> (v: &mut V)
        requires
            i < old(self).keys().len(),
        ensures
            *v == old(self).values()[i as int],
            final(self).keys() =~= old(self).keys(),
            final(self).values() =~= old(self).values().update(i as int, *final(v)),
    {
        &mut self.entries[i].1
    }

    /// Where `key` stands, or would stand, among the keys.
    pub fn search(&self, key: &str) -> (r: usize)
        requires
            self.wf(),
        ensures
            r == rank(self.keys(), key@),
            r <= self.keys().len(),
    {
        let mut lo: usize = 0;
        let mut hi: usize = self.entries.len();
        while lo < hi
            invariant
                self.wf(),
                0 <= lo <= hi <= self.entries.len(),
                forall|j: int| 0 <= j < lo ==> lex_lt(#[trigger] self.keys()[j], key@),
                forall|j: int| hi <= j < self.keys().len() ==> !lex_lt(#[trigger] self.keys()[j], key@),
            decreases hi - lo,
        {
            let mid = lo + (hi - lo) / 2;
            if str_lt(self.entries[mid].0.as_str(), key) {
                proof {
                    assert forall|j: int| 0 <= j < mid + 1 implies lex_lt(
                        #[trigger] self.keys()[j],
                        key@,
                    ) by {
                        if j < mid {
                            lemma_lex_transitive(self.keys()[j], self.keys()[mid as int], key@);
                        }
                    }
                }
                lo = mid + 1;
            } else {
                proof {
                    assert forall|j: int| mid <= j < self.keys().len() implies !lex_lt(
                        #[trigger] self.keys()[j],
                        key@,
                    ) by {
                        if j > mid && lex_lt(self.keys()[j], key@) {
                            lemma_lex_transitive(self.keys()[mid as int], self.keys()[j], key@);
                        }
                    }
                }
                hi = mid;
            }
        }
        proof {
            lemma_rank_splits(self.keys(), key@, lo as int);
        }
        lo
    }

    /// Sets the value of `key`, and returns the value that it held before.
    /// A new key takes its place in the order of the keys.
    pub fn insert(&mut self, key: String, value: V) -> (before: Option<V>)
        requires
            old(self).wf(),
        ensures
            final(self).wf(),
            before == old(self).spec_get(key@),
            match index_of(old(self).keys(), key@) {
                Some(i) => {
                    &&& final(self).keys() == old(self).keys()
                    &&& final(self).values() == old(self).values().update(i, value)
                },
                None => {
                    let r = rank(old(self).keys(), key@);
                    &&& final(self).keys() == old(self).keys().insert(r, key@)
                    &&& final(self).values() == old(self).values().insert(r, value)
                },
            },
    {
        let ghost old_keys = self.keys();
        let found = self.find(key.as_str());
        match found {
            Some(i) => {
                let mut value = value;
                std::mem::swap(&mut self.entries[i].1, &mut value);
                assert(self.keys() =~= old_keys);
                Some(value)
            },
            None => {
                let r = self.search(key.as_str());
                proof {
                    lemma_rank_bounds(old_keys, key@);
                }
                let ghost k = key@;
                self.entries.insert(r, (key, value));
                proof {
                    assert forall|i: int, j: int| 0 <= i < j < self.keys().len() implies lex_lt(
                        #[trigger] self.keys()[i],
                        #[trigger] self.keys()[j],
                    ) by {
                        if j == r {
                            assert(self.keys()[i] == old_keys[i]);
                        } else if i == r {
                            lemma_lex_total(old_keys[j - 1], k);
                        } else {
                            let oi = if i < r { i } else { i - 1 };
                            let oj = if j < r { j } else { j - 1 };
                            assert(self.keys()[i] == old_keys[oi]);
                            assert(self.keys()[j] == old_keys[oj]);
                        }
                    }
                }
                None
            },
        }
    }

    /// Takes `key` out of the map, and returns the value that it held.
    pub fn remove(&mut self, key: &str) -> (before: Option<V>)
        requires
            old(self).wf(),
        ensures
            final(self).wf(),
            before == old(self).spec_get(key@),
            match index_of(old(self).keys(), key@) {
                Some(i) => {
                    &&& final(self).keys() == old(self).keys().remove(i)
                    &&& final(self).values() == old(self).values().remove(i)
                },
                None => {
                    &&& final(self).keys() == old(self).keys()
                    &&& final(self).values() == old(self).values()
                },
            },
    {
        let ghost old_keys = self.keys();
        match self.find(key) {
            Some(i) => {
                let entry = self.entries.remove(i);
                proof {
                    assert forall|a: int, b: int| 0 <= a < b < self.keys().len() implies lex_lt(
                        #[trigger] self.keys()[a],
                        #[trigger] self.keys()[b],
                    ) by {
                        let oa = if a < i { a } else { a + 1 };
                        let ob = if b < i { b } else { b + 1 };
                        assert(self.keys()[a] == old_keys[oa]);
                        assert(self.keys()[b] == old_keys[ob]);
                    }
                }
                Some(entry.1)
            },
            None => None,
        }
    }

    /// The place of `key`, if the map holds it.
    pub fn find(&self, key: &str) -> (r: Option<usize>)
        requires
            self.wf(),
        ensures
            match r {
                Some(i) => i < self.keys().len() && self.keys()[i as int] == key@,
                None => !self.keys().contains(key@),
            },
            r is Some <==> index_of(self.keys(), key@) is Some,
            r is Some ==> index_of(self.keys(), key@) == Some(r.unwrap() as int),
    {
        let i = self.search(key);
        proof {
            lemma_rank_bounds(self.keys(), key@);
        }
        if i < self.entries.len() && str_eq(self.entries[i].0.as_str(), key) {
            proof {
                lemma_index_unique(self.keys(), i as int);
            }
            Some(i)
        } else {
            proof {
                assert forall|j: int| 0 <= j < self.keys().len() implies self.keys()[j] != key@ by {
                    lemma_lex_irreflexive(key@);
                    if j > i {
                        lemma_lex_total(self.keys()[i as int], key@);
                        if lex_lt(key@, self.keys()[i as int]) && self.keys()[j] == key@ {
                            lemma_lex_asymmetric(self.keys()[i as int], self.keys()[j]);
                        }
                    }
                }
            }
            None
        }
    }
}

/// What `keys` and `values` hold for `key`, or `missing` where they hold
/// nothing.
pub open spec fn value_or<U>(keys: Seq<Seq<char>>, values: Seq<U>, key: Seq<char>, missing: U) -> U {
    match value_of(keys, values, key) {
        Some(u) => u,
        None => missing,
    }
}

impl<V: Copy> KeyMap<V> {
    /// The map with each value paired with what `other` holds for its key,
    /// or with `missing` where `other` does not hold the key.
    pub fn paired<U: Copy>(&self, other: &KeyMap<U>, missing: U) -> (r: KeyMap<(V, U)>)
        requires
            self.wf(),
            other.wf(),
        ensures
            r.wf(),
            r.keys() == self.keys(),
            forall|i: int|
                0 <= i < self.keys().len() ==> #[trigger] r.values()[i] == (
                    self.values()[i],
                    value_or(other.keys(), other.values(), self.keys()[i], missing),
                ),
    {
        let mut entries: Vec<(String, (V, U))> = Vec::new();
        let n = self.entries.len();
        let mut i: usize = 0;
        while i < n
            invariant
                i <= n,
                n == self.entries.len(),
                other.wf(),
                entries.len() == i,
                forall|p: int| 0 <= p < i ==> (#[trigger] entries[p]).0@ == self.entries[p].0@,
                forall|p: int|
                    0 <= p < i ==> (#[trigger] entries[p]).1 == (
                        self.entries[p].1,
                        value_or(other.keys(), other.values(), self.entries[p].0@, missing),
                    ),
            decreases n - i,
        {
            let key = &self.entries[i].0;
            let with = match other.find(key.as_str()) {
                Some(j) => other.entries[j].1,
                None => missing,
            };
            entries.push((key.clone(), (self.entries[i].1, with)));
            i += 1;
        }
        let r = KeyMap { entries };
        assert(r.keys() =~= self.keys());
        r
    }
}

impl<V: Copy, U> KeyMap<(V, U)> {
    /// The map with the first of each pair of values.
    pub fn firsts(&self) -> (r: KeyMap<V>)
        requires
            self.wf(),
        ensures
            r.wf(),
            r.keys() == self.keys(),
            forall|i: int| 0 <= i < self.keys().len() ==> #[trigger] r.values()[i] == self.values()[i].0,
    {
        let mut entries: Vec<(String, V)> = Vec::new();
        let n = self.entries.len();
        let mut i: usize = 0;
        while i < n
            invariant
                i <= n,
                n == self.entries.len(),
                entries.len() == i,
                forall|p: int| 0 <= p < i ==> (#[trigger] entries[p]).0@ == self.entries[p].0@,
                forall|p: int| 0 <= p < i ==> (#[trigger] entries[p]).1 == self.entries[p].1.0,
            decreases n - i,
        {
            entries.push((self.entries[i].0.clone(), self.entries[i].1.0));
            i += 1;
        }
        let r = KeyMap { entries };
        assert(r.keys() =~= self.keys());
        r
    }
}

/// Among keys in order a key stands at one place only.
pub proof fn lemma_index_unique(keys: Seq<Seq<char>>, i: int)
    requires
        keys_increase(keys),
        0 <= i < keys.len(),
    ensures
        index_of(keys, keys[i]) == Some(i),
{
    let j = choose|j: int| 0 <= j < keys.len() && keys[j] == keys[i];
    lemma_lex_irreflexive(keys[i]);
    assert(j == i);
}

} // verus!
