//! Merging the records of several clients, kind of operation by kind of
//! operation.

use vstd::prelude::*;
use vstd::string::*;

use crate::keymap::{
    index_of, keys_increase, lemma_index_unique, lemma_value_after_insert, value_of, KeyMap,
};

verus! {

/// Whether `r` is what merging leaves for a key that held `a` on the one
/// side and `b` on the other: what `merge_fn` makes of the two where both
/// sides hold the key, else what the one side holds that holds it.
pub open spec fn is_merged<T, F: Fn(T, T) -> T>(a: Option<T>, b: Option<T>, r: Option<T>, merge_fn: F) -> bool {
    match (a, b) {
        (Some(x), Some(y)) => r is Some && merge_fn.ensures((x, y), r.unwrap()),
        (Some(x), None) => r == Some(x),
        (None, Some(y)) => r == Some(y),
        (None, None) => r is None,
    }
}

/// Merges the values of `other_lat` into `self_lat`: a key of both gets
/// what `merge_fn` makes of its two values, a key of `other_lat` alone is
/// taken over with its value, a key of `self_lat` alone keeps its value.
pub fn merge_map<T: Copy, F: Fn(T, T) -> T>(self_lat: &mut KeyMap<T>, other_lat: KeyMap<T>, merge_fn: F)
    requires
        old(self_lat).wf(),
        other_lat.wf(),
        forall|key: Seq<char>|
            old(self_lat).spec_get(key) is Some && other_lat.spec_get(key) is Some
                ==> merge_fn.requires(
                (
                    (#[trigger] old(self_lat).spec_get(key)).unwrap(),
                    other_lat.spec_get(key).unwrap(),
                ),
            ),
    ensures
        final(self_lat).wf(),
        forall|key: Seq<char>|
            is_merged(
                old(self_lat).spec_get(key),
                other_lat.spec_get(key),
                #[trigger] final(self_lat).spec_get(key),
                merge_fn,
            ),
{
    let ghost keys0 = self_lat.keys();
    let ghost values0 = self_lat.values();
    assert(forall|key: Seq<char>| self_lat.spec_get(key) == value_of(keys0, values0, key));
    let n = self_lat.len();
    let mut i: usize = 0;
    while i < n
        invariant
            i <= n,
            n == keys0.len(),
            other_lat.wf(),
            keys_increase(keys0),
            values0.len() == keys0.len(),
            self_lat.keys() == keys0,
            self_lat.values().len() == keys0.len(),
            forall|key: Seq<char>|
                value_of(keys0, values0, key) is Some && other_lat.spec_get(key) is Some
                    ==> merge_fn.requires(
                    (
                        (#[trigger] value_of(keys0, values0, key)).unwrap(),
                        other_lat.spec_get(key).unwrap(),
                    ),
                ),
            forall|p: int|
                0 <= p < i ==> is_merged(
                    Some(values0[p]),
                    other_lat.spec_get(#[trigger] keys0[p]),
                    Some(self_lat.values()[p]),
                    merge_fn,
                ),
            forall|p: int| i <= p < n ==> #[trigger] self_lat.values()[p] == values0[p],
        decreases n - i,
    {
        match other_lat.find(self_lat.key(i).as_str()) {
            Some(j) => {
                proof {
                    lemma_index_unique(keys0, i as int);
                    assert(value_of(keys0, values0, keys0[i as int]) == Some(values0[i as int]));
                }
                let merged = merge_fn(*self_lat.value(i), *other_lat.value(j));
                *self_lat.value_mut(i) = merged;
            },
            None => {},
        }
        i += 1;
    }
    let ghost values1 = self_lat.values();
    let m = other_lat.len();
    let mut j: usize = 0;
    while j < m
        invariant
            j <= m,
            m == other_lat.keys().len(),
            other_lat.wf(),
            self_lat.wf(),
            keys_increase(keys0),
            values1.len() == keys0.len(),
            forall|key: Seq<char>|
                index_of(keys0, key) is Some ==> #[trigger] self_lat.spec_get(key) == value_of(
                    keys0,
                    values1,
                    key,
                ),
            forall|key: Seq<char>|
                index_of(keys0, key) is None ==> #[trigger] self_lat.spec_get(key) == value_of(
                    other_lat.keys().take(j as int),
                    other_lat.values().take(j as int),
                    key,
                ),
        decreases m - j,
    {
        let key = other_lat.key(j);
        let ghost before = *self_lat;
        let ghost part_keys = other_lat.keys().take(j as int);
        let ghost part_values = other_lat.values().take(j as int);
        let ghost next_keys = other_lat.keys().take(j + 1);
        let ghost next_values = other_lat.values().take(j + 1);
        proof {
            lemma_take_value(other_lat.keys(), other_lat.values(), j as int);
        }
        if self_lat.find(key.as_str()).is_none() {
            self_lat.insert(key.clone(), *other_lat.value(j));
            proof {
                assert(index_of(keys0, key@) is None) by {}
                lemma_value_after_insert(
                    before.keys(),
                    before.values(),
                    key@,
                    other_lat.values()[j as int],
                );
                assert forall|k: Seq<char>| k != key@ implies #[trigger] self_lat.spec_get(k)
                    == before.spec_get(k) by {
                    assert(value_of(self_lat.keys(), self_lat.values(), k) == value_of(
                        before.keys(),
                        before.values(),
                        k,
                    ));
                }
                assert(self_lat.spec_get(key@) == value_of(
                    self_lat.keys(),
                    self_lat.values(),
                    key@,
                ));
                assert forall|k: Seq<char>| index_of(keys0, k) is None implies #[trigger] self_lat.spec_get(
                    k,
                ) == value_of(next_keys, next_values, k) by {}
                assert forall|k: Seq<char>| index_of(keys0, k) is Some implies #[trigger] self_lat.spec_get(
                    k,
                ) == value_of(keys0, values1, k) by {}
            }
        } else {
            proof {
                assert(index_of(keys0, key@) is Some) by {
                    if index_of(keys0, key@) is None {
                        assert(before.spec_get(key@) == value_of(part_keys, part_values, key@));
                        let p = index_of(part_keys, key@).unwrap();
                        lemma_index_unique(other_lat.keys(), p);
                        lemma_index_unique(other_lat.keys(), j as int);
                    }
                }
                assert forall|k: Seq<char>| index_of(keys0, k) is None implies #[trigger] self_lat.spec_get(
                    k,
                ) == value_of(next_keys, next_values, k) by {}
            }
        }
        j += 1;
    }
    proof {
        assert(other_lat.keys().take(m as int) == other_lat.keys());
        assert forall|key: Seq<char>|
            is_merged(
                old(self_lat).spec_get(key),
                other_lat.spec_get(key),
                #[trigger] self_lat.spec_get(key),
                merge_fn,
            ) by {
            match index_of(keys0, key) {
                Some(p) => {},
                None => {
                    assert(self_lat.spec_get(key) == value_of(
                        other_lat.keys(),
                        other_lat.values(),
                        key,
                    ));
                },
            }
        }
    }
}

/// The count that merging leaves for a kind of operation counted `a` times
/// on the one side and `b` times on the other: the sum of the two.
pub open spec fn summed(a: Option<usize>, b: Option<usize>) -> Option<int> {
    match (a, b) {
        (Some(x), Some(y)) => Some(x + y),
        (Some(x), None) => Some(x as int),
        (None, Some(y)) => Some(y as int),
        (None, None) => None,
    }
}

/// Whether `count` is the number `sum`, if there is one.
pub open spec fn is_count(count: Option<usize>, sum: Option<int>) -> bool {
    match (count, sum) {
        (Some(c), Some(n)) => c == n,
        (None, None) => true,
        _ => false,
    }
}

/// Adds the counts of `other_ops` to those of `self_ops`, kind of operation
/// by kind of operation.
pub fn merge_counts(self_ops: &mut KeyMap<usize>, other_ops: KeyMap<usize>)
    requires
        old(self_ops).wf(),
        other_ops.wf(),
        forall|key: Seq<char>|
            old(self_ops).spec_get(key) is Some && other_ops.spec_get(key) is Some ==> (
            #[trigger] old(self_ops).spec_get(key)).unwrap() + other_ops.spec_get(key).unwrap()
                <= usize::MAX,
    ensures
        final(self_ops).wf(),
        forall|key: Seq<char>|
            is_count(
                #[trigger] final(self_ops).spec_get(key),
                summed(old(self_ops).spec_get(key), other_ops.spec_get(key)),
            ),
{
    let add = |a: usize, b: usize| -> (sum: usize)
        requires
            a + b <= usize::MAX,
        ensures
            sum == a + b,
        { a + b };
    let ghost before = *self_ops;
    merge_map(self_ops, other_ops, add);
    assert forall|key: Seq<char>|
        is_count(
            #[trigger] self_ops.spec_get(key),
            summed(before.spec_get(key), other_ops.spec_get(key)),
        ) by {}
}

/// What the first `j + 1` keys hold: for the key at `j` its value, for
/// every other key what the first `j` keys hold.
proof fn lemma_take_value<T>(keys: Seq<Seq<char>>, values: Seq<T>, j: int)
    requires
        keys_increase(keys),
        values.len() == keys.len(),
        0 <= j < keys.len(),
    ensures
        value_of(keys.take(j + 1), values.take(j + 1), keys[j]) == Some(values[j]),
        index_of(keys.take(j), keys[j]) is None,
        forall|k: Seq<char>|
            k != keys[j] ==> #[trigger] value_of(keys.take(j + 1), values.take(j + 1), k) == value_of(
                keys.take(j),
                values.take(j),
                k,
            ),
{
    let a = keys.take(j);
    let b = keys.take(j + 1);
    assert(keys_increase(b)) by {
        assert forall|x: int, y: int| 0 <= x < y < b.len() implies crate::text::lex_lt(
            #[trigger] b[x],
            #[trigger] b[y],
        ) by {}
    }
    lemma_index_unique(b, j);
    if index_of(a, keys[j]) is Some {
        let p = index_of(a, keys[j]).unwrap();
        lemma_index_unique(keys, p);
        lemma_index_unique(keys, j);
    }
    assert forall|k: Seq<char>| k != keys[j] implies #[trigger] value_of(b, values.take(j + 1), k)
        == value_of(a, values.take(j), k) by {
        match index_of(a, k) {
            Some(p) => {
                lemma_index_unique(b, p);
            },
            None => {},
        }
    }
}

} // verus!
