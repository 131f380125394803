use runner::fuzz::{
    exit_code, fuzz_result, progress_due, settle_secs, FuzzResult, FuzzRun, Outcome, Step,
    REMAIN_THRESH,
};
use runner::history::{History, Verdict};
use runner::keymap::KeyMap;
use runner::refcli::handle_kv_call;
use runner::{KvCall, KvResp};

fn s(text: &str) -> String {
    text.to_string()
}

fn shared_pools(num_clis: usize, num_keys: usize) -> Vec<Vec<String>> {
    (0..num_clis).map(|_| (0..num_keys).map(|i| format!("key{:05}", i)).collect()).collect()
}

fn own_pools(num_clis: usize, num_keys: usize) -> Vec<Vec<String>> {
    (0..num_clis).map(|c| (0..num_keys).map(|i| format!("c{}k{:04}", c, i)).collect()).collect()
}

/// Runs a round against a service that answers each call at once from one
/// store. Returns the run and the first outcome that is no plain harvest.
fn run_round(num_ops: usize, keys: Vec<Vec<String>>) -> (FuzzRun, Option<Outcome>) {
    let num_clis = keys.len();
    let mut run = FuzzRun::new(num_ops, keys);
    let mut store: KeyMap<String> = KeyMap::new();
    let mut pending: Vec<Option<KvResp>> = (0..num_clis).map(|_| None).collect();
    loop {
        match run.next_step() {
            Step::Call { cidx, call } => {
                assert!(pending[cidx].is_none());
                pending[cidx] = Some(handle_kv_call(call, &mut store));
            }
            Step::Wait { cidx } => {
                assert_eq!(run.waiting(), Some(cidx));
                let resp = pending[cidx].take().expect("no call is pending");
                match run.harvest(resp) {
                    Outcome::Harvested => {}
                    other => return (run, Some(other)),
                }
            }
            Step::Done => return (run, None),
        }
    }
}

#[test]
fn fair_queue() {
    let (run, failed) = run_round(3000, shared_pools(3, 5));
    assert!(failed.is_none(), "{:?}", failed);
    assert_eq!(run.total_ops(), 9000);
    assert_eq!(run.ops_called(), 9000);
    assert_eq!(run.ops_waited(), 9000);
    assert!(run.remaining() < REMAIN_THRESH, "{}", run.remaining());
    assert_eq!(fuzz_result(Some(run.remaining())), FuzzResult::Passed);
    let stats = run.stats();
    assert_eq!(
        stats.cnt_put + stats.cnt_swap + stats.cnt_get + stats.cnt_scan + stats.cnt_delete,
        9000
    );
}

#[test]
fn correct_service_is_never_refused() {
    for round in 0..20 {
        let keys = if round % 2 == 0 { shared_pools(4, 3) } else { own_pools(4, 3) };
        let (run, failed) = run_round(250, keys);
        assert!(failed.is_none(), "round {}: {:?}", round, failed);
        assert_eq!(run.ops_waited(), 1000);
    }
    let (_, failed) = run_round(2000, shared_pools(1, 1));
    assert!(failed.is_none(), "{:?}", failed);
}

/// Runs a round against a service that answers each call from one store
/// only when its response is asked for.
fn run_round_late(num_ops: usize, keys: Vec<Vec<String>>) -> Option<Outcome> {
    let num_clis = keys.len();
    let mut run = FuzzRun::new(num_ops, keys);
    let mut store: KeyMap<String> = KeyMap::new();
    let mut pending: Vec<Option<KvCall>> = (0..num_clis).map(|_| None).collect();
    loop {
        match run.next_step() {
            Step::Call { cidx, call } => pending[cidx] = Some(call),
            Step::Wait { cidx } => {
                let call = pending[cidx].take().expect("no call is pending");
                match run.harvest(handle_kv_call(call, &mut store)) {
                    Outcome::Harvested => {}
                    other => return Some(other),
                }
            }
            Step::Done => return None,
        }
    }
}

#[test]
fn service_that_answers_late_is_never_refused() {
    for round in 0..10 {
        let keys = if round % 2 == 0 { shared_pools(3, 2) } else { own_pools(3, 2) };
        let failed = run_round_late(300, keys);
        assert!(failed.is_none(), "round {}: {:?}", round, failed);
    }
}

#[test]
fn run_of_no_calls_is_done_at_once() {
    let mut run = FuzzRun::new(0, shared_pools(2, 2));
    assert!(matches!(run.next_step(), Step::Done));
    assert!(matches!(run.next_step(), Step::Done));
    assert_eq!(run.remaining(), 0);
    let mut run = FuzzRun::new(5, vec![]);
    assert!(matches!(run.next_step(), Step::Done));
}

#[test]
fn run_begins_with_a_call_and_asks_again_for_a_response_not_harvested() {
    let mut run = FuzzRun::new(1, shared_pools(1, 2));
    assert_eq!(run.waiting(), None);
    let call = match run.next_step() {
        Step::Call { cidx, call } => {
            assert_eq!(cidx, 0);
            call
        }
        other => panic!("no call: {:?}", other),
    };
    assert_eq!(run.ops_called(), 1);
    // The only client waits for its response: the next step is a harvest.
    assert!(matches!(run.next_step(), Step::Wait { cidx: 0 }));
    assert_eq!(run.waiting(), Some(0));
    assert!(matches!(run.next_step(), Step::Wait { cidx: 0 }));
    let mut store = KeyMap::new();
    let resp = handle_kv_call(call, &mut store);
    assert!(matches!(run.harvest(resp), Outcome::Harvested));
    assert_eq!(run.waiting(), None);
    assert_eq!(run.ops_waited(), 1);
    assert_eq!(run.remaining(), 1);
    assert!(matches!(run.next_step(), Step::Done));
}

#[test]
fn stop_response_ends_the_run() {
    let mut run = FuzzRun::new(10, shared_pools(1, 1));
    assert!(matches!(run.next_step(), Step::Call { cidx: 0, .. }));
    assert!(matches!(run.next_step(), Step::Wait { cidx: 0 }));
    match run.harvest(KvResp::Stop) {
        Outcome::UnexpectedStop { cidx, timestamp } => {
            assert_eq!(cidx, 0);
            assert_eq!(timestamp, 2);
        }
        other => panic!("no stop: {:?}", other),
    }
    assert_eq!(run.waiting(), Some(0));
    assert_eq!(run.ops_waited(), 0);
    assert_eq!(run.remaining(), 0);
}

/// Answers every read with a value that nobody wrote.
fn bogus_service(call: KvCall, store: &mut KeyMap<String>) -> KvResp {
    match handle_kv_call(call, store) {
        KvResp::Get { key, .. } => KvResp::Get { key, value: Some(s("bogus")) },
        other => other,
    }
}

#[test]
fn wrong_read_is_found_out() {
    let mut run = FuzzRun::new(2000, shared_pools(2, 2));
    let mut store = KeyMap::new();
    let mut pending: Vec<Option<KvResp>> = vec![None, None];
    loop {
        match run.next_step() {
            Step::Call { cidx, call } => pending[cidx] = Some(bogus_service(call, &mut store)),
            Step::Wait { cidx } => match run.harvest(pending[cidx].take().unwrap()) {
                Outcome::Harvested => {}
                Outcome::Violation { cidx, ts_call, ts_resp, resp } => {
                    assert!(cidx < 2);
                    assert!(ts_call < ts_resp);
                    match resp {
                        KvResp::Get { value, .. } => assert_eq!(value, Some(s("bogus"))),
                        other => panic!("not the read: {:?}", other),
                    }
                    break;
                }
                other => panic!("no violation: {:?}", other),
            },
            Step::Done => panic!("the wrong reads passed"),
        }
    }
}

#[test]
fn update_of_a_key_of_no_pool_is_found_out() {
    let mut history = History::new(1, &shared_pools(1, 1));
    history.add_to_queue(1, 2, KvResp::Put { key: s("stray"), found: false });
    assert_eq!(history.apply_update(0, 1, 2, s("stray"), Some(s("v"))), Verdict::UnexpectedKey);
}

#[test]
fn result_of_a_round() {
    assert_eq!(REMAIN_THRESH, 1000);
    assert_eq!(fuzz_result(None), FuzzResult::Failed);
    assert_eq!(fuzz_result(Some(0)), FuzzResult::Passed);
    assert_eq!(fuzz_result(Some(999)), FuzzResult::Passed);
    assert_eq!(fuzz_result(Some(1000)), FuzzResult::Unfair);
    assert_eq!(fuzz_result(Some(usize::MAX)), FuzzResult::Unfair);
}

#[test]
fn exit_code_tells_a_failed_round() {
    assert_eq!(exit_code(FuzzResult::Passed), 0);
    assert_eq!(exit_code(FuzzResult::Unfair), 0);
    assert_eq!(exit_code(FuzzResult::Failed), 1);
}

#[test]
fn settle_time_is_three_tenths_of_a_second_for_each_client() {
    assert_eq!(settle_secs(0), 0);
    assert_eq!(settle_secs(1), 1);
    assert_eq!(settle_secs(3), 1);
    assert_eq!(settle_secs(4), 2);
    assert_eq!(settle_secs(10), 3);
    assert_eq!(settle_secs(11), 4);
    assert_eq!(settle_secs(100), 30);
    for n in 0..200usize {
        assert_eq!(settle_secs(n), (0.3 * n as f64).ceil() as u64, "{}", n);
    }
    assert_eq!(settle_secs(usize::MAX) as u128, (3 * (usize::MAX as u128) + 9) / 10);
}

#[test]
fn unfair_queue() {
    // Client 1 never gets an update acknowledged: nothing can be checked.
    let mut history = History::new(2, &shared_pools(2, 1));
    let mut timestamp = 0;
    for i in 0..REMAIN_THRESH {
        let (ts_call, ts_resp) = (timestamp + 1, timestamp + 2);
        timestamp += 2;
        history.add_to_queue(ts_call, ts_resp, KvResp::Put { key: s("key00000"), found: i > 0 });
        let verdict = history.apply_update(0, ts_call, ts_resp, s("key00000"), Some(i.to_string()));
        assert_eq!(verdict, Verdict::Pass);
    }
    assert_eq!(history.queue_len(), REMAIN_THRESH);
    assert_eq!(fuzz_result(Some(history.queue_len())), FuzzResult::Unfair);
    // Once the client catches up, the queue is checked and emptied.
    history.add_to_queue(timestamp + 1, timestamp + 2, KvResp::Put { key: s("key00000"), found: true });
    let verdict = history.apply_update(1, timestamp + 1, timestamp + 2, s("key00000"), Some(s("x")));
    assert_eq!(verdict, Verdict::Pass);
    assert_eq!(history.queue_len(), 2);
}

#[test]
fn progress_is_due_at_each_hundredth() {
    assert!(progress_due(0, 1000));
    assert!(progress_due(10, 1000));
    assert!(!progress_due(11, 1000));
    assert!(progress_due(990, 1000));
    assert!(progress_due(1000, 1000));
    assert!(progress_due(150, 150));
    assert!(progress_due(7, 150));
    assert!(progress_due(149, 199));
    assert!(progress_due(199, 199));
}
