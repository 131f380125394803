use runner::keymap::KeyMap;
use runner::ycsb::{
    feed_a_line, interpret_ycsb_call, parse_ycsb_key, parse_ycsb_scnt, parse_ycsb_value,
    record_ycsb_perf, ycsb_profile, Feed, PerfKind,
};
use runner::{KvCall, RunnerError};

fn s(text: &str) -> String {
    text.to_string()
}

fn words(line: &str) -> Vec<String> {
    line.split_whitespace().map(|w| w.to_string()).collect()
}

fn keys_of(ikeys: &KeyMap<()>) -> Vec<String> {
    (0..ikeys.len()).map(|i| ikeys.key(i).clone()).collect()
}

fn ikeys_of(keys: &[&str]) -> KeyMap<()> {
    let mut ikeys = KeyMap::new();
    for key in keys {
        ikeys.insert(key.to_string(), ());
    }
    ikeys
}

#[test]
fn profile_of_each_workload() {
    assert_eq!(ycsb_profile('a'), "ycsb/workloads/workloada");
    assert_eq!(ycsb_profile('b'), "ycsb/workloads/workloadb");
    assert_eq!(ycsb_profile('c'), "ycsb/workloads/workloadc");
    assert_eq!(ycsb_profile('d'), "ycsb/workloads/workloadd");
    assert_eq!(ycsb_profile('e'), "ycsb/workloads/workloade");
    assert_eq!(ycsb_profile('f'), "ycsb/workloads/workloadf");
}

#[test]
fn ycsb_translation() {
    let mut ikeys = KeyMap::new();
    let call = interpret_ycsb_call(
        "INSERT usertable user42 [ field0 hello field1 world ]",
        &mut ikeys,
    );
    assert_eq!(
        call,
        Ok(Some(KvCall::Put {
            key: s("usertable_user42"),
            value: s("_field0_hello_field1_world"),
        }))
    );
    assert_eq!(keys_of(&ikeys), vec!["usertable_user42"]);
}

#[test]
fn update_and_read_are_translated() {
    let mut ikeys = KeyMap::new();
    assert_eq!(
        interpret_ycsb_call("UPDATE usertable user1 [ field3 abc ]\n", &mut ikeys),
        Ok(Some(KvCall::Swap { key: s("usertable_user1"), value: s("_field3_abc") }))
    );
    assert_eq!(
        interpret_ycsb_call("READ usertable user1 [ <all fields>]", &mut ikeys),
        Ok(Some(KvCall::Get { key: s("usertable_user1") }))
    );
    assert_eq!(ikeys.len(), 0);
}

#[test]
fn lines_that_are_no_operation_give_no_call() {
    let mut ikeys = KeyMap::new();
    for line in ["", "   \n", "DELETE usertable user1", "[OVERALL], RunTime(ms), 12", "insert a b [ ]"] {
        assert_eq!(interpret_ycsb_call(line, &mut ikeys), Ok(None), "{:?}", line);
    }
    assert_eq!(ikeys.len(), 0);
}

#[test]
fn key_is_table_and_record() {
    assert_eq!(parse_ycsb_key(&words("READ usertable user7"), 1), Ok(s("usertable_user7")));
    assert_eq!(
        parse_ycsb_key(&words("READ usertable"), 1),
        Err(RunnerError::Parse(s("missing key segment")))
    );
    assert_eq!(
        parse_ycsb_key(&words("READ"), 1),
        Err(RunnerError::Parse(s("missing key segment")))
    );
}

#[test]
fn value_is_what_stands_between_the_brackets() {
    assert_eq!(parse_ycsb_value(&words("[ f0 a f1 b ]"), 0), Ok(s("_f0_a_f1_b")));
    assert_eq!(parse_ycsb_value(&words("[ f0 a f1 b"), 0), Ok(s("_f0_a_f1_b")));
    assert_eq!(parse_ycsb_value(&words("[ ]"), 0), Ok(s("")));
    assert_eq!(parse_ycsb_value(&words("["), 0), Ok(s("")));
    assert_eq!(parse_ycsb_value(&words("[ a ] b ]"), 0), Ok(s("_a_]_b")));
    assert_eq!(parse_ycsb_value(&words("[ ] ]"), 0), Ok(s("_]")));
    assert_eq!(
        parse_ycsb_value(&words("f0 a ]"), 0),
        Err(RunnerError::Parse(s("no value start bracket")))
    );
    assert_eq!(
        parse_ycsb_value(&words("x"), 3),
        Err(RunnerError::Parse(s("no value start bracket")))
    );
}

#[test]
fn missing_parts_of_an_operation_are_parse_errors() {
    let mut ikeys = KeyMap::new();
    assert_eq!(
        interpret_ycsb_call("INSERT usertable", &mut ikeys),
        Err(RunnerError::Parse(s("missing key segment")))
    );
    assert_eq!(
        interpret_ycsb_call("INSERT usertable user1 field0 x", &mut ikeys),
        Err(RunnerError::Parse(s("no value start bracket")))
    );
    assert_eq!(
        interpret_ycsb_call("UPDATE usertable user1", &mut ikeys),
        Err(RunnerError::Parse(s("no value start bracket")))
    );
    assert_eq!(
        interpret_ycsb_call("SCAN usertable", &mut ikeys),
        Err(RunnerError::Parse(s("missing key segment")))
    );
    assert_eq!(ikeys.len(), 0);
}

#[test]
fn scan_count_is_a_number_above_zero() {
    assert_eq!(parse_ycsb_scnt(&words("SCAN t u 12"), 3), Ok(12));
    assert_eq!(parse_ycsb_scnt(&words("SCAN t u 1"), 3), Ok(1));
    assert_eq!(
        parse_ycsb_scnt(&words("SCAN t u"), 3),
        Err(RunnerError::Parse(s("missing scan count")))
    );
    assert_eq!(
        parse_ycsb_scnt(&words("SCAN t u many"), 3),
        Err(RunnerError::Parse(s("invalid scan count: many")))
    );
    assert_eq!(
        parse_ycsb_scnt(&words("SCAN t u 0"), 3),
        Err(RunnerError::Parse(s("invalid scan count: 0")))
    );
    assert_eq!(
        parse_ycsb_scnt(&words("SCAN t u -3"), 3),
        Err(RunnerError::Parse(s("invalid scan count: -3")))
    );
}

#[test]
fn scan_without_known_keys_ends_at_the_last_key_there_can_be() {
    let mut ikeys = KeyMap::new();
    assert_eq!(
        interpret_ycsb_call("SCAN usertable user5 10 [ <all fields>]", &mut ikeys),
        Ok(Some(KvCall::Scan { key_start: s("usertable_user5"), key_end: s("zzzzzzzz") }))
    );
    // The count is not even looked at.
    assert_eq!(
        interpret_ycsb_call("SCAN usertable user5", &mut ikeys),
        Ok(Some(KvCall::Scan { key_start: s("usertable_user5"), key_end: s("zzzzzzzz") }))
    );
}

#[test]
fn scan_ends_at_the_count_th_known_key() {
    let mut ikeys = ikeys_of(&["t_u1", "t_u3", "t_u5", "t_u7"]);
    let scan = |line: &str, ikeys: &mut KeyMap<()>| match interpret_ycsb_call(line, ikeys) {
        Ok(Some(KvCall::Scan { key_start, key_end })) => (key_start, key_end),
        other => panic!("no scan: {:?}", other),
    };
    assert_eq!(scan("SCAN t u3 1", &mut ikeys), (s("t_u3"), s("t_u3")));
    assert_eq!(scan("SCAN t u3 2", &mut ikeys), (s("t_u3"), s("t_u5")));
    assert_eq!(scan("SCAN t u3 3", &mut ikeys), (s("t_u3"), s("t_u7")));
    assert_eq!(scan("SCAN t u3 4", &mut ikeys), (s("t_u3"), s("t_u7")));
    assert_eq!(scan("SCAN t u2 1", &mut ikeys), (s("t_u2"), s("t_u3")));
    assert_eq!(scan("SCAN t u0 4", &mut ikeys), (s("t_u0"), s("t_u7")));
    assert_eq!(scan("SCAN t u9 1", &mut ikeys), (s("t_u9"), s("t_u7")));
    let huge = format!("SCAN t u3 {}", usize::MAX);
    assert_eq!(scan(&huge, &mut ikeys), (s("t_u3"), s("t_u7")));
    assert_eq!(
        interpret_ycsb_call("SCAN t u3 0", &mut ikeys),
        Err(RunnerError::Parse(s("invalid scan count: 0")))
    );
    assert_eq!(
        interpret_ycsb_call("SCAN t u3", &mut ikeys),
        Err(RunnerError::Parse(s("missing scan count")))
    );
    assert_eq!(ikeys.len(), 4);
}

#[test]
fn inserted_keys_are_kept_in_order_each_once() {
    let mut ikeys = KeyMap::new();
    for record in ["user5", "user1", "user9", "user1", "user3"] {
        let line = format!("INSERT usertable {} [ f v ]", record);
        assert!(matches!(interpret_ycsb_call(&line, &mut ikeys), Ok(Some(KvCall::Put { .. }))));
    }
    assert_eq!(
        keys_of(&ikeys),
        vec!["usertable_user1", "usertable_user3", "usertable_user5", "usertable_user9"]
    );
}

fn perf(line: &str) -> Option<(PerfKind, String, String)> {
    record_ycsb_perf(line).unwrap().map(|r| (r.kind, r.op, r.number))
}

#[test]
fn report_lines_are_read() {
    assert_eq!(
        perf("[OVERALL], RunTime(ms), 1234"),
        Some((PerfKind::RunTime, s(""), s("1234")))
    );
    assert_eq!(
        perf("[OVERALL], Throughput(ops/sec), 810.37\n"),
        Some((PerfKind::Throughput, s(""), s("810.37")))
    );
    assert_eq!(
        perf("[INSERT], Operations, 1000"),
        Some((PerfKind::Operations, s("INSERT"), s("1000")))
    );
    assert_eq!(
        perf("[UPDATE], AverageLatency(us), 95.5"),
        Some((PerfKind::AverageLatency, s("UPDATE"), s("95.5")))
    );
    assert_eq!(
        perf("[READ], MinLatency(us), 40"),
        Some((PerfKind::MinLatency, s("READ"), s("40")))
    );
    assert_eq!(
        perf("[SCAN], MaxLatency(us), 3000"),
        Some((PerfKind::MaxLatency, s("SCAN"), s("3000")))
    );
    assert_eq!(
        perf("[READ], 99thPercentileLatency(us), 210"),
        Some((PerfKind::P99Latency, s("READ"), s("210")))
    );
}

#[test]
fn report_lines_that_tell_nothing_are_passed_over() {
    for line in [
        "",
        "[OVERALL],",
        "[OVERALL], Something, 1",
        "[READ], 95thPercentileLatency(us), 100",
        "[READ], Return=OK, 500",
        "[CLEANUP], Operations, 1",
        "[READ] Operations, 1",
        "READ, Operations, 1",
        "[INSERT], operations, 1",
    ] {
        assert_eq!(perf(line), None, "{:?}", line);
    }
}

#[test]
fn report_line_without_its_number_is_a_parse_error() {
    assert_eq!(
        record_ycsb_perf("[OVERALL], RunTime(ms),").map(|r| r.is_some()),
        Err(RunnerError::Parse(s("missing float number")))
    );
    assert_eq!(
        record_ycsb_perf("[SCAN], Operations,").map(|r| r.is_some()),
        Err(RunnerError::Parse(s("missing float number")))
    );
}

#[test]
fn feeder_decides_by_line() {
    let mut ikeys = KeyMap::new();
    assert!(matches!(feed_a_line("\n", &mut ikeys), Ok(Feed::Skip)));
    assert!(matches!(feed_a_line("   ", &mut ikeys), Ok(Feed::Skip)));
    match feed_a_line("INSERT t u1 [ f v ]\n", &mut ikeys) {
        Ok(Feed::Call(call)) => assert_eq!(call, KvCall::Put { key: s("t_u1"), value: s("_f_v") }),
        other => panic!("no call: {:?}", other),
    }
    assert_eq!(keys_of(&ikeys), vec!["t_u1"]);
    match feed_a_line("[READ], Operations, 12\n", &mut ikeys) {
        Ok(Feed::Perf(record)) => {
            assert_eq!(record.kind, PerfKind::Operations);
            assert_eq!(record.op, "READ");
            assert_eq!(record.number, "12");
        }
        other => panic!("no record: {:?}", other),
    }
    assert!(matches!(feed_a_line("[CLEANUP], Operations, 1\n", &mut ikeys), Ok(Feed::Skip)));
    assert!(matches!(feed_a_line("Command line: -load -db basic\n", &mut ikeys), Ok(Feed::Skip)));
    assert!(matches!(feed_a_line(" [READ], Operations, 12\n", &mut ikeys), Ok(Feed::Skip)));
}

#[test]
fn feeder_fails_on_a_missing_file_and_on_bad_lines() {
    let mut ikeys = KeyMap::new();
    let line = "ycsb/bin/ycsb.sh: No such file or directory\n";
    match feed_a_line(line, &mut ikeys) {
        Err(e) => assert_eq!(e, RunnerError::Io(s(line))),
        Ok(feed) => panic!("no error: {:?}", feed),
    }
    match feed_a_line("READ usertable\n", &mut ikeys) {
        Err(e) => assert_eq!(e, RunnerError::Parse(s("missing key segment"))),
        Ok(feed) => panic!("no error: {:?}", feed),
    }
    match feed_a_line("[OVERALL], Throughput(ops/sec),\n", &mut ikeys) {
        Err(e) => assert_eq!(e, RunnerError::Parse(s("missing float number"))),
        Ok(feed) => panic!("no error: {:?}", feed),
    }
}
