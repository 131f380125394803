use bit_vec::BitVec;

use runner::random::{
    bucket_kind, first_client, gen_call_vs_wait, gen_rand_client, gen_rand_kvcall, kvcall_of_draw,
    next_turn, pick_client, CallKind, Stats, Turn, VALUE_LEN,
};
use runner::KvCall;

fn s(text: &str) -> String {
    text.to_string()
}

fn bits(flags: &[bool]) -> BitVec {
    let mut v = BitVec::from_elem(flags.len(), false);
    for (i, flag) in flags.iter().enumerate() {
        v.set(i, *flag);
    }
    v
}

fn pool() -> Vec<String> {
    vec![s("kb"), s("ka"), s("kc")]
}

#[test]
fn turn_is_wait_when_all_calls_are_made_or_all_clients_wait() {
    assert_eq!(next_turn(10, 10, &bits(&[false, false])), Turn::Wait);
    assert_eq!(next_turn(10, 10, &bits(&[true, false])), Turn::Wait);
    assert_eq!(next_turn(3, 10, &bits(&[true, true])), Turn::Wait);
    assert_eq!(next_turn(10, 10, &bits(&[true, true])), Turn::Wait);
    assert_eq!(next_turn(0, 0, &bits(&[])), Turn::Wait);
    assert_eq!(next_turn(0, 5, &bits(&[])), Turn::Wait);
}

#[test]
fn turn_is_call_when_no_client_waits() {
    assert_eq!(next_turn(0, 10, &bits(&[false])), Turn::Call);
    assert_eq!(next_turn(9, 10, &bits(&[false, false, false])), Turn::Call);
}

#[test]
fn turn_is_left_to_a_coin_otherwise() {
    assert_eq!(next_turn(1, 10, &bits(&[true, false])), Turn::Flip);
    assert_eq!(next_turn(5, 10, &bits(&[false, false, true])), Turn::Flip);
}

#[test]
fn turn_looks_at_every_bit_of_a_long_vector() {
    let mut flying = BitVec::from_elem(70, true);
    assert_eq!(next_turn(0, 100, &flying), Turn::Wait);
    flying.set(69, false);
    assert_eq!(next_turn(0, 100, &flying), Turn::Flip);
    let mut flying = BitVec::from_elem(70, false);
    assert_eq!(next_turn(0, 100, &flying), Turn::Call);
    flying.set(64, true);
    assert_eq!(next_turn(0, 100, &flying), Turn::Flip);
}

#[test]
fn call_vs_wait_follows_the_turn() {
    for _ in 0..50 {
        assert!(!gen_call_vs_wait(10, 10, &bits(&[true, false])));
        assert!(!gen_call_vs_wait(3, 10, &bits(&[true, true])));
        assert!(gen_call_vs_wait(3, 10, &bits(&[false, false])));
    }
    let flying = bits(&[true, false]);
    let mut calls = 0;
    for _ in 0..2000 {
        if gen_call_vs_wait(1, 10, &flying) {
            calls += 1;
        }
    }
    assert!(calls > 500 && calls < 1500, "{}", calls);
}

#[test]
fn pick_client_takes_the_client_drawn_if_its_state_is_wanted() {
    let flying = bits(&[true, false, true]);
    assert_eq!(pick_client(&flying, true, 0), Some(0));
    assert_eq!(pick_client(&flying, true, 1), None);
    assert_eq!(pick_client(&flying, false, 1), Some(1));
    assert_eq!(pick_client(&flying, false, 2), None);
    assert_eq!(pick_client(&flying, true, 3), None);
    assert_eq!(pick_client(&flying, false, 3), None);
}

#[test]
fn first_client_is_the_first_in_the_state_wanted() {
    let flying = bits(&[false, false, true, true]);
    assert_eq!(first_client(&flying, true), Some(2));
    assert_eq!(first_client(&flying, false), Some(0));
    assert_eq!(first_client(&bits(&[true, true]), false), None);
    assert_eq!(first_client(&bits(&[]), true), None);
}

#[test]
fn rand_client_is_in_the_state_wanted() {
    let flags = [true, false, true, false, false];
    let flying = bits(&flags);
    let mut seen = [0usize; 5];
    for _ in 0..3000 {
        let cidx = gen_rand_client(&flying, false);
        assert!(cidx < flags.len());
        assert!(!flags[cidx]);
        seen[cidx] += 1;
        let cidx = gen_rand_client(&flying, true);
        assert!(flags[cidx]);
        seen[cidx] += 1;
    }
    // Each client is among those drawn: three share 3000 draws, two share 3000.
    for (cidx, count) in seen.iter().enumerate() {
        assert!(*count > 500, "client {}: {}", cidx, count);
    }
}

#[test]
fn rand_client_finds_the_only_one() {
    let mut flying = BitVec::from_elem(200, false);
    flying.set(137, true);
    for _ in 0..20 {
        assert_eq!(gen_rand_client(&flying, true), 137);
    }
}

#[test]
fn buckets_give_the_kinds_in_their_shares() {
    let kinds: Vec<CallKind> = (0..10).map(bucket_kind).collect();
    assert_eq!(
        kinds,
        vec![
            CallKind::Put,
            CallKind::Put,
            CallKind::Swap,
            CallKind::Swap,
            CallKind::Get,
            CallKind::Get,
            CallKind::Get,
            CallKind::Scan,
            CallKind::Scan,
            CallKind::Delete,
        ]
    );
}

#[test]
fn call_of_each_bucket() {
    let keys = pool();
    assert_eq!(
        kvcall_of_draw(&keys, 0, 1, 1, s("v")),
        KvCall::Put { key: s("ka"), value: s("v") }
    );
    assert_eq!(
        kvcall_of_draw(&keys, 1, 2, 0, s("v")),
        KvCall::Put { key: s("kc"), value: s("v") }
    );
    assert_eq!(
        kvcall_of_draw(&keys, 2, 0, 0, s("w")),
        KvCall::Swap { key: s("kb"), value: s("w") }
    );
    assert_eq!(
        kvcall_of_draw(&keys, 3, 0, 0, s("w")),
        KvCall::Swap { key: s("kb"), value: s("w") }
    );
    for bucket in 4..=6 {
        assert_eq!(kvcall_of_draw(&keys, bucket, 2, 0, s("")), KvCall::Get { key: s("kc") });
    }
    assert_eq!(kvcall_of_draw(&keys, 9, 1, 0, s("")), KvCall::Delete { key: s("ka") });
}

#[test]
fn scan_goes_from_the_lesser_key_to_the_greater() {
    let keys = pool();
    for bucket in 7..=8 {
        assert_eq!(
            kvcall_of_draw(&keys, bucket, 0, 1, s("")),
            KvCall::Scan { key_start: s("ka"), key_end: s("kb") }
        );
        assert_eq!(
            kvcall_of_draw(&keys, bucket, 1, 0, s("")),
            KvCall::Scan { key_start: s("ka"), key_end: s("kb") }
        );
        assert_eq!(
            kvcall_of_draw(&keys, bucket, 2, 2, s("")),
            KvCall::Scan { key_start: s("kc"), key_end: s("kc") }
        );
    }
}

#[test]
fn new_stats_count_nothing() {
    let stats = Stats::new(&vec![pool(), vec![s("x")], vec![]]);
    assert_eq!(
        (stats.cnt_put, stats.cnt_swap, stats.cnt_get, stats.cnt_scan, stats.cnt_delete),
        (0, 0, 0, 0, 0)
    );
    assert_eq!(stats.keys_freq, vec![vec![0, 0, 0], vec![0], vec![]]);
}

#[test]
fn record_counts_the_call_and_its_keys() {
    let mut stats = Stats::new(&vec![pool(), pool()]);
    stats.record(1, CallKind::Put, 0, 0);
    stats.record(1, CallKind::Get, 2, 2);
    stats.record(0, CallKind::Scan, 0, 1);
    stats.record(0, CallKind::Scan, 2, 2);
    stats.record(0, CallKind::Swap, 1, 0);
    stats.record(0, CallKind::Delete, 1, 2);
    assert_eq!(
        (stats.cnt_put, stats.cnt_swap, stats.cnt_get, stats.cnt_scan, stats.cnt_delete),
        (1, 1, 1, 2, 1)
    );
    assert_eq!(stats.keys_freq, vec![vec![1, 3, 2], vec![1, 0, 1]]);
}

#[test]
fn rand_kvcall_draws_from_the_pool_and_counts() {
    let keys = pool();
    let mut stats = Stats::new(&vec![vec![s("other")], keys.clone()]);
    let rounds = 4000;
    let mut named = 0;
    for _ in 0..rounds {
        match gen_rand_kvcall(&keys, &mut stats, 1) {
            KvCall::Put { key, value } | KvCall::Swap { key, value } => {
                assert!(keys.contains(&key));
                assert_eq!(value.chars().count(), VALUE_LEN);
                assert!(value.chars().all(|c| c.is_ascii_alphanumeric()));
                named += 1;
            }
            KvCall::Get { key } | KvCall::Delete { key } => {
                assert!(keys.contains(&key));
                named += 1;
            }
            KvCall::Scan { key_start, key_end } => {
                assert!(keys.contains(&key_start));
                assert!(keys.contains(&key_end));
                assert!(key_start <= key_end);
                named += 2;
            }
            KvCall::Stop => panic!("a stop was generated"),
        }
    }
    let total = stats.cnt_put + stats.cnt_swap + stats.cnt_get + stats.cnt_scan + stats.cnt_delete;
    assert_eq!(total, rounds);
    assert_eq!(stats.keys_freq[0], vec![0]);
    assert_eq!(stats.keys_freq[1].iter().sum::<usize>(), named);
    // The shares are 20, 20, 30, 20 and 10 of 100.
    assert!(stats.cnt_put > 600 && stats.cnt_put < 1000, "{}", stats.cnt_put);
    assert!(stats.cnt_swap > 600 && stats.cnt_swap < 1000, "{}", stats.cnt_swap);
    assert!(stats.cnt_get > 1000 && stats.cnt_get < 1400, "{}", stats.cnt_get);
    assert!(stats.cnt_scan > 600 && stats.cnt_scan < 1000, "{}", stats.cnt_scan);
    assert!(stats.cnt_delete > 250 && stats.cnt_delete < 550, "{}", stats.cnt_delete);
    for count in &stats.keys_freq[1] {
        assert!(*count > 1000, "{}", count);
    }
}

#[test]
fn rand_values_differ() {
    let keys = vec![s("k")];
    let mut stats = Stats::new(&vec![keys.clone()]);
    let mut values = Vec::new();
    while values.len() < 20 {
        if let KvCall::Put { value, .. } = gen_rand_kvcall(&keys, &mut stats, 0) {
            values.push(value);
        }
    }
    values.sort();
    values.dedup();
    assert!(values.len() > 1);
}
