use runner::fuzz::{conflict_key, gen_key_pools, KEY_LEN};
use runner::keymap::KeyMap;
use runner::merge::{merge_counts, merge_map};
use runner::ycsb::merge_keys;

fn map_of<T: Copy>(entries: &[(&str, T)]) -> KeyMap<T> {
    let mut map = KeyMap::new();
    for (key, value) in entries {
        map.insert(key.to_string(), *value);
    }
    map
}

fn entries_of<T: Copy>(map: &KeyMap<T>) -> Vec<(String, T)> {
    (0..map.len()).map(|i| (map.key(i).clone(), *map.value(i))).collect()
}

fn s(text: &str) -> String {
    text.to_string()
}

#[test]
fn merge_map_merges_key_by_key() {
    let mut counts = map_of(&[("READ", 10usize), ("UPDATE", 5)]);
    merge_map(&mut counts, map_of(&[("INSERT", 7), ("READ", 32)]), |a, b| a + b);
    assert_eq!(entries_of(&counts), vec![(s("INSERT"), 7), (s("READ"), 42), (s("UPDATE"), 5)]);
}

#[test]
fn merge_map_with_nothing_changes_nothing() {
    let mut counts = map_of(&[("READ", 10usize)]);
    merge_map(&mut counts, KeyMap::new(), |a, b| a + b);
    assert_eq!(entries_of(&counts), vec![(s("READ"), 10)]);
    let mut empty: KeyMap<usize> = KeyMap::new();
    merge_map(&mut empty, map_of(&[("SCAN", 3), ("READ", 1)]), |a, b| a * b);
    assert_eq!(entries_of(&empty), vec![(s("READ"), 1), (s("SCAN"), 3)]);
}

#[test]
fn merge_map_hands_the_own_value_first() {
    let mut map = map_of(&[("k", 10i64)]);
    merge_map(&mut map, map_of(&[("k", 3)]), |own, other| own - other);
    assert_eq!(entries_of(&map), vec![(s("k"), 7)]);
}

#[test]
fn merge_counts_adds_kind_by_kind() {
    let mut counts = map_of(&[("READ", 10usize), ("UPDATE", 5)]);
    merge_counts(&mut counts, map_of(&[("INSERT", 7), ("READ", 32)]));
    assert_eq!(entries_of(&counts), vec![(s("INSERT"), 7), (s("READ"), 42), (s("UPDATE"), 5)]);
    merge_counts(&mut counts, KeyMap::new());
    assert_eq!(entries_of(&counts), vec![(s("INSERT"), 7), (s("READ"), 42), (s("UPDATE"), 5)]);
    merge_counts(&mut counts, map_of(&[("READ", usize::MAX - 42)]));
    assert_eq!(*counts.value(1), usize::MAX);
}

#[test]
fn stats_merge_identity() {
    // Counts add up, latencies stay within the bounds of the clients.
    let clients: Vec<(usize, f64, f64, f64)> =
        vec![(100, 40.0, 900.0, 80.0), (250, 35.5, 1200.0, 90.0), (50, 60.0, 700.0, 100.0)];
    let mut counts: KeyMap<usize> = KeyMap::new();
    let mut lat_min: KeyMap<f64> = KeyMap::new();
    let mut lat_max: KeyMap<f64> = KeyMap::new();
    let mut lat_avg: KeyMap<f64> = KeyMap::new();
    for (count, min, max, avg) in &clients {
        merge_map(&mut lat_min, map_of(&[("READ", *min)]), f64::min);
        merge_map(&mut lat_max, map_of(&[("READ", *max)]), f64::max);
        let mut weighed = lat_avg.paired(&counts, 0);
        let other = map_of(&[("READ", (*avg, *count))]);
        merge_map(&mut weighed, other, |a: (f64, usize), b: (f64, usize)| {
            ((a.0 * a.1 as f64 + b.0 * b.1 as f64) / (a.1 + b.1) as f64, a.1 + b.1)
        });
        lat_avg = weighed.firsts();
        merge_counts(&mut counts, map_of(&[("READ", *count)]));
    }
    assert_eq!(entries_of(&counts), vec![(s("READ"), 400)]);
    assert_eq!(entries_of(&lat_min), vec![(s("READ"), 35.5)]);
    assert_eq!(entries_of(&lat_max), vec![(s("READ"), 1200.0)]);
    // The mean weighed by the counts: (100 * 80 + 250 * 90 + 50 * 100) / 400.
    let avg = *lat_avg.value(0);
    assert!((avg - 88.75).abs() < 1e-9, "{}", avg);
}

#[test]
fn merge_keys_is_the_union() {
    let mut keys = map_of(&[("b", ()), ("d", ())]);
    merge_keys(&mut keys, &map_of(&[("a", ()), ("d", ()), ("e", ())]));
    let names: Vec<String> = entries_of(&keys).into_iter().map(|(k, _)| k).collect();
    assert_eq!(names, vec!["a", "b", "d", "e"]);
    merge_keys(&mut keys, &KeyMap::new());
    assert_eq!(keys.len(), 4);
}

#[test]
fn shared_keys_have_five_digits() {
    assert_eq!(conflict_key(0), "key00000");
    assert_eq!(conflict_key(7), "key00007");
    assert_eq!(conflict_key(42), "key00042");
    assert_eq!(conflict_key(12345), "key12345");
    assert_eq!(conflict_key(99999), "key99999");
    for i in [0usize, 9, 10, 99, 100, 5005, 99999] {
        assert_eq!(conflict_key(i), format!("key{:05}", i));
        assert_eq!(conflict_key(i).len(), KEY_LEN);
    }
}

#[test]
fn shared_pools_are_the_same_for_every_client() {
    let keys = gen_key_pools(3, 4, true);
    assert_eq!(keys.len(), 3);
    for pool in &keys {
        assert_eq!(pool, &vec![s("key00000"), s("key00001"), s("key00002"), s("key00003")]);
    }
}

#[test]
fn own_pools_hold_random_keys() {
    let keys = gen_key_pools(4, 6, false);
    assert_eq!(keys.len(), 4);
    let mut all: Vec<String> = Vec::new();
    for pool in &keys {
        assert_eq!(pool.len(), 6);
        for key in pool {
            assert_eq!(key.chars().count(), KEY_LEN);
            assert!(key.chars().all(|c| c.is_ascii_alphanumeric()));
            all.push(key.clone());
        }
    }
    all.sort();
    all.dedup();
    assert!(all.len() > 1);
    assert_eq!(gen_key_pools(0, 5, false), Vec::<Vec<String>>::new());
    assert_eq!(gen_key_pools(2, 0, true), vec![Vec::<String>::new(), Vec::<String>::new()]);
}
