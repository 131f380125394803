use std::collections::VecDeque;

use runner::history::{History, UpdateSpan, Verdict};
use runner::keymap::KeyMap;
use runner::KvResp;

fn s(text: &str) -> String {
    text.to_string()
}

fn span(ts_call: u64, ts_resp: u64, value: Option<&str>) -> UpdateSpan {
    UpdateSpan { ts_call, ts_resp, value: value.map(|v| v.to_string()) }
}

fn list(spans: Vec<UpdateSpan>) -> VecDeque<UpdateSpan> {
    spans.into_iter().collect()
}

fn put(key: &str, found: bool) -> KvResp {
    KvResp::Put { key: s(key), found }
}

fn get(key: &str, value: Option<&str>) -> KvResp {
    KvResp::Get { key: s(key), value: value.map(|v| v.to_string()) }
}

/// Queues the response of an update and applies the update.
fn update(
    history: &mut History,
    cidx: usize,
    ts_call: u64,
    ts_resp: u64,
    resp: KvResp,
    key: &str,
    value: Option<&str>,
) -> Verdict {
    history.add_to_queue(ts_call, ts_resp, resp);
    history.apply_update(cidx, ts_call, ts_resp, s(key), value.map(|v| v.to_string()))
}

#[test]
fn new_history_knows_each_key_once() {
    let history = History::new(2, &vec![vec![s("b"), s("a")], vec![s("a"), s("c")]]);
    assert_eq!(history.num_clients(), 2);
    assert_eq!(history.queue_len(), 0);
    for key in ["a", "b", "c"] {
        for cidx in 0..2 {
            assert_eq!(history.spans_of(key, cidx), Some(vec![span(0, 0, None)]));
        }
    }
    assert_eq!(history.spans_of("d", 0), None);
    assert_eq!(history.spans_of("a", 2), None);
}

#[test]
fn update_of_unknown_key_is_reported() {
    let mut history = History::new(1, &vec![vec![s("a")]]);
    assert_eq!(
        history.apply_update(0, 1, 2, s("zz"), Some(s("1"))),
        Verdict::UnexpectedKey
    );
    assert_eq!(history.spans_of("a", 0), Some(vec![span(0, 0, None)]));
}

#[test]
fn single_client_round_trip_has_no_violation() {
    let mut history = History::new(1, &vec![vec![s("a")]]);
    assert_eq!(update(&mut history, 0, 1, 2, put("a", false), "a", Some("1")), Verdict::Pass);
    history.add_to_queue(3, 4, get("a", Some("1")));
    assert_eq!(
        update(&mut history, 0, 5, 6, KvResp::Delete { key: s("a"), found: true }, "a", None),
        Verdict::Pass
    );
    assert_eq!(history.queue_len(), 1);
    history.add_to_queue(7, 8, get("a", None));
    assert_eq!(history.queue_len(), 2);
    assert_eq!(update(&mut history, 0, 9, 10, put("a", false), "a", Some("2")), Verdict::Pass);
    assert_eq!(history.queue_len(), 1);
}

#[test]
fn queue_waits_for_the_slowest_client() {
    let mut history = History::new(2, &vec![vec![s("a")], vec![s("b")]]);
    assert_eq!(update(&mut history, 0, 1, 2, put("a", false), "a", Some("1")), Verdict::Pass);
    assert_eq!(update(&mut history, 0, 3, 4, put("a", true), "a", Some("2")), Verdict::Pass);
    assert_eq!(history.queue_len(), 2);
    assert_eq!(update(&mut history, 1, 5, 6, put("b", false), "b", Some("3")), Verdict::Pass);
    assert_eq!(history.queue_len(), 2);
}

#[test]
fn lists_are_trimmed_behind_the_opening_span() {
    let mut history = History::new(1, &vec![vec![s("k")]]);
    assert_eq!(update(&mut history, 0, 1, 2, put("k", false), "k", Some("X")), Verdict::Pass);
    assert_eq!(
        history.spans_of("k", 0),
        Some(vec![span(0, 0, None), span(1, 2, Some("X"))])
    );
    assert_eq!(history.queue_len(), 1);
    assert_eq!(update(&mut history, 0, 3, 4, put("k", true), "k", Some("Y")), Verdict::Pass);
    assert_eq!(
        history.spans_of("k", 0),
        Some(vec![span(0, 0, None), span(1, 2, Some("X")), span(3, 4, Some("Y"))])
    );
    assert_eq!(history.queue_len(), 1);
    // The earliest queued call is 3; the newest span that ended before it
    // began at 1, and no span behind the opening one ended before 1.
    assert_eq!(update(&mut history, 0, 5, 6, put("k", true), "k", Some("Z")), Verdict::Pass);
    assert_eq!(
        history.spans_of("k", 0),
        Some(vec![
            span(0, 0, None),
            span(1, 2, Some("X")),
            span(3, 4, Some("Y")),
            span(5, 6, Some("Z")),
        ])
    );
    assert_eq!(history.queue_len(), 1);
    // Now the earliest queued call is 5; the newest span that ended before
    // it began at 3, and the span that ended at 2 is taken.
    assert_eq!(update(&mut history, 0, 7, 8, put("k", true), "k", Some("W")), Verdict::Pass);
    assert_eq!(
        history.spans_of("k", 0),
        Some(vec![
            span(0, 0, None),
            span(3, 4, Some("Y")),
            span(5, 6, Some("Z")),
            span(7, 8, Some("W")),
        ])
    );
    assert_eq!(history.queue_len(), 1);
}

#[test]
fn opening_span_is_never_taken() {
    let mut history = History::new(2, &vec![vec![s("a"), s("b")], vec![s("a")]]);
    let mut timestamp = 0;
    for round in 0..50u64 {
        for (cidx, key) in [(0usize, "a"), (1, "a"), (0, "b")] {
            let (ts_call, ts_resp) = (timestamp + 1, timestamp + 2);
            timestamp += 2;
            let value = if round % 3 == 0 { None } else { Some("v") };
            history.add_to_queue(ts_call, ts_resp, get(key, None));
            history.apply_update(cidx, ts_call, ts_resp, s(key), value.map(|v| v.to_string()));
            for k in ["a", "b"] {
                for c in 0..2 {
                    let spans = history.spans_of(k, c).unwrap();
                    assert_eq!(spans[0], span(0, 0, None));
                }
            }
        }
    }
}

#[test]
fn lists_of_every_key_are_trimmed() {
    let mut history = History::new(1, &vec![vec![s("a"), s("b")]]);
    assert_eq!(update(&mut history, 0, 1, 2, put("a", false), "a", Some("1")), Verdict::Pass);
    assert_eq!(update(&mut history, 0, 3, 4, put("a", true), "a", Some("2")), Verdict::Pass);
    assert_eq!(update(&mut history, 0, 5, 6, put("b", false), "b", Some("3")), Verdict::Pass);
    assert_eq!(update(&mut history, 0, 7, 8, put("b", true), "b", Some("4")), Verdict::Pass);
    // The update of `b` at 8 trims the list of `a` too: the earliest queued
    // call is 5, the newest span of `a` that ended before it began at 3.
    assert_eq!(
        history.spans_of("a", 0),
        Some(vec![span(0, 0, None), span(3, 4, Some("2"))])
    );
    assert_eq!(
        history.spans_of("b", 0),
        Some(vec![span(0, 0, None), span(5, 6, Some("3")), span(7, 8, Some("4"))])
    );
}

#[test]
fn get_of_a_value_never_written_is_a_violation() {
    let mut history = History::new(1, &vec![vec![s("k")]]);
    assert_eq!(update(&mut history, 0, 1, 2, put("k", false), "k", Some("X")), Verdict::Pass);
    history.add_to_queue(3, 4, get("k", Some("W")));
    assert_eq!(
        update(&mut history, 0, 5, 6, put("k", true), "k", Some("Y")),
        Verdict::Violation(get("k", Some("W")))
    );
    assert_eq!(history.queue_len(), 1);
}

#[test]
fn scan_missing_a_written_key_is_a_violation() {
    let mut history = History::new(1, &vec![vec![s("k")]]);
    assert_eq!(update(&mut history, 0, 1, 2, put("k", false), "k", Some("X")), Verdict::Pass);
    let scan = KvResp::Scan { key_start: s("a"), key_end: s("z"), entries: vec![] };
    history.add_to_queue(3, 4, scan.clone());
    assert_eq!(
        update(&mut history, 0, 5, 6, put("k", true), "k", Some("Y")),
        Verdict::Violation(scan)
    );
}

#[test]
fn put_not_found_after_a_completed_put_is_a_violation() {
    let mut history = History::new(1, &vec![vec![s("k")]]);
    assert_eq!(update(&mut history, 0, 1, 2, put("k", false), "k", Some("X")), Verdict::Pass);
    assert_eq!(update(&mut history, 0, 3, 4, put("k", false), "k", Some("Y")), Verdict::Pass);
    assert_eq!(
        update(&mut history, 0, 5, 6, put("k", true), "k", Some("Z")),
        Verdict::Violation(put("k", false))
    );
}

#[test]
fn stale_read_is_a_violation() {
    // Client 0 alone writes `k`; a read that began after the write was
    // acknowledged returns nothing.
    let mut history = History::new(1, &vec![vec![s("k")]]);
    assert_eq!(update(&mut history, 0, 1, 2, put("k", false), "k", Some("X")), Verdict::Pass);
    history.add_to_queue(5, 6, get("k", None));
    assert_eq!(
        update(&mut history, 0, 7, 8, put("k", true), "k", Some("Y")),
        Verdict::Violation(get("k", None))
    );
}

#[test]
fn stale_read_between_two_writers_is_a_violation() {
    let mut history = History::new(2, &vec![vec![s("k")], vec![s("k")]]);
    assert_eq!(update(&mut history, 1, 1, 2, put("k", false), "k", Some("W")), Verdict::Pass);
    assert_eq!(update(&mut history, 0, 3, 4, put("k", true), "k", Some("X")), Verdict::Pass);
    history.add_to_queue(5, 6, get("k", None));
    assert_eq!(update(&mut history, 0, 7, 8, put("k", true), "k", Some("Y")), Verdict::Pass);
    assert_eq!(
        update(&mut history, 1, 9, 10, put("k", true), "k", Some("Z")),
        Verdict::Violation(get("k", None))
    );
}

#[test]
fn stale_read_is_explained_by_the_opening_span_of_a_client_that_never_wrote() {
    let mut history = History::new(2, &vec![vec![s("k")], vec![s("k")]]);
    assert_eq!(update(&mut history, 0, 1, 2, put("k", false), "k", Some("X")), Verdict::Pass);
    history.add_to_queue(5, 6, get("k", None));
    assert_eq!(update(&mut history, 0, 7, 8, put("k", true), "k", Some("Y")), Verdict::Pass);
    assert_eq!(update(&mut history, 1, 9, 10, put("k", true), "k", Some("Z")), Verdict::Pass);
    assert_eq!(history.queue_len(), 2);
}

#[test]
fn stop_response_in_the_queue_is_a_violation() {
    let mut history = History::new(1, &vec![vec![s("k")]]);
    history.add_to_queue(1, 2, KvResp::Stop);
    assert_eq!(
        update(&mut history, 0, 3, 4, put("k", false), "k", Some("X")),
        Verdict::Violation(KvResp::Stop)
    );
    assert_eq!(history.queue_len(), 1);
}

#[test]
fn response_on_an_unknown_key_is_a_violation() {
    let mut history = History::new(1, &vec![vec![s("k")]]);
    history.add_to_queue(1, 2, get("other", None));
    assert_eq!(
        update(&mut history, 0, 3, 4, put("k", false), "k", Some("X")),
        Verdict::Violation(get("other", None))
    );
}

#[test]
fn check_put_and_delete_look_for_presence() {
    let lists = vec![list(vec![span(0, 0, None), span(1, 2, Some("X"))])];
    assert!(History::check_put(&lists, 3, 4, true));
    assert!(!History::check_put(&lists, 3, 4, false));
    assert!(History::check_put(&lists, 2, 4, false));
    assert!(History::check_delete(&lists, 3, 4, true));
    assert!(!History::check_delete(&lists, 3, 4, false));
    // A span that began after the response is no witness.
    assert!(!History::check_put(&lists, 0, 1, true));
    assert!(History::check_put(&lists, 0, 1, false));
}

#[test]
fn check_get_and_swap_look_for_the_value() {
    let lists = vec![
        list(vec![span(0, 0, None), span(1, 2, Some("X")), span(5, 8, Some("Y"))]),
        list(vec![span(0, 0, None), span(3, 4, None)]),
    ];
    let x = s("X");
    let y = s("Y");
    let w = s("W");
    // Called at 6: `Y` is being written, `X` was there before, and client 1
    // deleted the key at 4.
    assert!(History::check_get(&lists, 6, 7, Some(&y)));
    assert!(History::check_get(&lists, 6, 7, Some(&x)));
    assert!(History::check_get(&lists, 6, 7, None));
    assert!(!History::check_get(&lists, 6, 7, Some(&w)));
    assert!(History::check_swap(&lists, 6, 7, Some(&x)));
    assert!(!History::check_swap(&lists, 6, 7, Some(&w)));
    // Called at 9, after `Y` was acknowledged: `X` is out of reach.
    assert!(History::check_get(&lists, 9, 10, Some(&y)));
    assert!(!History::check_get(&lists, 9, 10, Some(&x)));
    assert!(History::check_get(&lists, 9, 10, None));
    // No list at all explains nothing.
    assert!(!History::check_get(&vec![], 1, 2, None));
}

fn scan_spans() -> KeyMap<Vec<VecDeque<UpdateSpan>>> {
    let mut spans = KeyMap::new();
    spans.insert(s("b"), vec![list(vec![span(0, 0, None), span(1, 2, Some("2"))])]);
    spans.insert(s("a"), vec![list(vec![span(0, 0, None), span(3, 4, Some("1"))])]);
    spans.insert(s("c"), vec![list(vec![span(0, 0, None)])]);
    spans
}

#[test]
fn check_scan_accepts_what_the_spans_explain() {
    let spans = scan_spans();
    let entries = vec![(s("a"), s("1")), (s("b"), s("2"))];
    assert!(History::check_scan(&spans, 5, 6, &s("a"), &s("c"), &entries));
    // The order of the entries does not matter.
    let entries = vec![(s("b"), s("2")), (s("a"), s("1"))];
    assert!(History::check_scan(&spans, 5, 6, &s("a"), &s("c"), &entries));
    // A key outside the range is not looked at.
    let entries = vec![(s("b"), s("2"))];
    assert!(History::check_scan(&spans, 5, 6, &s("b"), &s("c"), &entries));
}

#[test]
fn check_scan_refuses_keys_out_of_range_and_duplicates() {
    let spans = scan_spans();
    let entries = vec![(s("a"), s("1")), (s("b"), s("2"))];
    assert!(!History::check_scan(&spans, 5, 6, &s("b"), &s("c"), &entries));
    let entries = vec![(s("b"), s("2")), (s("c"), s("3"))];
    assert!(!History::check_scan(&spans, 5, 6, &s("a"), &s("b"), &entries));
    let entries = vec![(s("a"), s("1")), (s("b"), s("2")), (s("a"), s("1"))];
    assert!(!History::check_scan(&spans, 5, 6, &s("a"), &s("c"), &entries));
}

#[test]
fn check_scan_refuses_missing_and_wrong_values() {
    let spans = scan_spans();
    let entries = vec![(s("a"), s("1"))];
    assert!(!History::check_scan(&spans, 5, 6, &s("a"), &s("c"), &entries));
    let entries = vec![(s("a"), s("1")), (s("b"), s("9"))];
    assert!(!History::check_scan(&spans, 5, 6, &s("a"), &s("c"), &entries));
    let entries = vec![(s("a"), s("1")), (s("b"), s("2")), (s("c"), s("3"))];
    assert!(!History::check_scan(&spans, 5, 6, &s("a"), &s("c"), &entries));
}

#[test]
fn check_scan_passes_over_unknown_keys_in_range() {
    let spans = scan_spans();
    let entries = vec![(s("a"), s("1")), (s("ab"), s("7")), (s("b"), s("2"))];
    assert!(History::check_scan(&spans, 5, 6, &s("a"), &s("c"), &entries));
}
