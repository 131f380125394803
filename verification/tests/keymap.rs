use runner::keymap::KeyMap;

fn s(text: &str) -> String {
    text.to_string()
}

fn keys_of(map: &KeyMap<u32>) -> Vec<String> {
    (0..map.len()).map(|i| map.key(i).clone()).collect()
}

#[test]
fn new_map_is_empty() {
    let map: KeyMap<u32> = KeyMap::new();
    assert_eq!(map.len(), 0);
    assert_eq!(map.find("a"), None);
    assert_eq!(map.search("a"), 0);
}

#[test]
fn keys_are_kept_in_order() {
    let mut map = KeyMap::new();
    assert_eq!(map.insert(s("m"), 1), None);
    assert_eq!(map.insert(s("b"), 2), None);
    assert_eq!(map.insert(s("z"), 3), None);
    assert_eq!(map.insert(s("ma"), 4), None);
    assert_eq!(map.insert(s(""), 5), None);
    assert_eq!(keys_of(&map), vec!["", "b", "m", "ma", "z"]);
    assert_eq!(*map.value(0), 5);
    assert_eq!(*map.value(3), 4);
}

#[test]
fn order_is_by_code_point() {
    let mut map = KeyMap::new();
    for key in ["b", "B", "a", "\u{e9}", "10", "9", "\u{10000}", "\u{ffff}", "_", "ab", "a_"] {
        map.insert(s(key), 0u32);
    }
    let mut expected: Vec<String> = keys_of(&map);
    expected.sort();
    assert_eq!(keys_of(&map), expected);
    assert_eq!(
        keys_of(&map),
        vec!["10", "9", "B", "_", "a", "a_", "ab", "b", "\u{e9}", "\u{ffff}", "\u{10000}"]
    );
}

#[test]
fn insert_of_a_known_key_replaces_its_value() {
    let mut map = KeyMap::new();
    assert_eq!(map.insert(s("k"), 1), None);
    assert_eq!(map.insert(s("k"), 2), Some(1));
    assert_eq!(map.len(), 1);
    assert_eq!(*map.value(0), 2);
}

#[test]
fn find_and_search_tell_the_place_of_a_key() {
    let mut map = KeyMap::new();
    for (i, key) in ["b", "d", "f"].iter().enumerate() {
        map.insert(s(key), i as u32);
    }
    assert_eq!(map.find("b"), Some(0));
    assert_eq!(map.find("d"), Some(1));
    assert_eq!(map.find("f"), Some(2));
    assert_eq!(map.find("c"), None);
    assert_eq!(map.find(""), None);
    assert_eq!(map.search("a"), 0);
    assert_eq!(map.search("b"), 0);
    assert_eq!(map.search("c"), 1);
    assert_eq!(map.search("d"), 1);
    assert_eq!(map.search("e"), 2);
    assert_eq!(map.search("f"), 2);
    assert_eq!(map.search("g"), 3);
}

#[test]
fn remove_takes_the_key_out() {
    let mut map = KeyMap::new();
    for (i, key) in ["b", "d", "f"].iter().enumerate() {
        map.insert(s(key), i as u32);
    }
    assert_eq!(map.remove("d"), Some(1));
    assert_eq!(map.remove("d"), None);
    assert_eq!(map.remove("x"), None);
    assert_eq!(keys_of(&map), vec!["b", "f"]);
    assert_eq!(*map.value(1), 2);
}

#[test]
fn value_mut_changes_one_value() {
    let mut map = KeyMap::new();
    map.insert(s("a"), 1u32);
    map.insert(s("b"), 2u32);
    *map.value_mut(1) += 40;
    assert_eq!(*map.value(0), 1);
    assert_eq!(*map.value(1), 42);
    assert_eq!(keys_of(&map), vec!["a", "b"]);
}

#[test]
fn values_are_paired_by_key() {
    let mut averages = KeyMap::new();
    averages.insert(s("READ"), 7u32);
    averages.insert(s("SCAN"), 9u32);
    averages.insert(s("INSERT"), 5u32);
    let mut counts = KeyMap::new();
    counts.insert(s("UPDATE"), 40usize);
    counts.insert(s("READ"), 10usize);
    counts.insert(s("INSERT"), 30usize);
    let paired = averages.paired(&counts, 0);
    let entries: Vec<(String, (u32, usize))> =
        (0..paired.len()).map(|i| (paired.key(i).clone(), *paired.value(i))).collect();
    assert_eq!(
        entries,
        vec![(s("INSERT"), (5, 30)), (s("READ"), (7, 10)), (s("SCAN"), (9, 0))]
    );
    let firsts = paired.firsts();
    assert_eq!(keys_of(&firsts), vec!["INSERT", "READ", "SCAN"]);
    assert_eq!((*firsts.value(0), *firsts.value(1), *firsts.value(2)), (5, 7, 9));
    let empty: KeyMap<u32> = KeyMap::new();
    assert_eq!(empty.paired(&counts, 1).len(), 0);
}
