use runner::ioapi::LineReader;
use runner::keymap::KeyMap;
use runner::refcli::{handle_kv_call, parse_input_call, write_response};
use runner::{KvCall, KvResp, RunnerError};

fn s(text: &str) -> String {
    text.to_string()
}

fn text_of(resp: KvResp) -> String {
    let mut out = String::new();
    write_response(resp, &mut out);
    out
}

fn call_line(call: KvCall) -> String {
    let mut out = String::new();
    call.into_write(&mut out);
    out
}

#[test]
fn calls_are_read_from_lines() {
    assert_eq!(parse_input_call("PUT a 1"), Ok(KvCall::Put { key: s("a"), value: s("1") }));
    assert_eq!(parse_input_call("SWAP a 2\n"), Ok(KvCall::Swap { key: s("a"), value: s("2") }));
    assert_eq!(parse_input_call("GET a"), Ok(KvCall::Get { key: s("a") }));
    assert_eq!(
        parse_input_call("  SCAN  a   c  "),
        Ok(KvCall::Scan { key_start: s("a"), key_end: s("c") })
    );
    assert_eq!(parse_input_call("DELETE a"), Ok(KvCall::Delete { key: s("a") }));
    assert_eq!(parse_input_call("STOP"), Ok(KvCall::Stop));
    assert_eq!(parse_input_call("GET a and more"), Ok(KvCall::Get { key: s("a") }));
}

#[test]
fn what_is_no_call_is_a_parse_error() {
    for line in ["", "  ", "PUT", "PUT a", "SWAP a", "GET", "SCAN a", "DELETE", "stop", "LIST"] {
        assert_eq!(
            parse_input_call(line),
            Err(RunnerError::Parse(format!("invalid input line: {}", line))),
            "{:?}",
            line
        );
    }
}

#[test]
fn responses_are_written_as_text() {
    assert_eq!(text_of(KvResp::Put { key: s("a"), found: true }), "PUT a found\n");
    assert_eq!(text_of(KvResp::Put { key: s("a"), found: false }), "PUT a not_found\n");
    assert_eq!(text_of(KvResp::Swap { key: s("a"), old_value: Some(s("1")) }), "SWAP a 1\n");
    assert_eq!(text_of(KvResp::Swap { key: s("a"), old_value: None }), "SWAP a null\n");
    assert_eq!(text_of(KvResp::Get { key: s("a"), value: Some(s("1")) }), "GET a 1\n");
    assert_eq!(text_of(KvResp::Get { key: s("a"), value: None }), "GET a null\n");
    assert_eq!(text_of(KvResp::Delete { key: s("a"), found: true }), "DELETE a found\n");
    assert_eq!(text_of(KvResp::Delete { key: s("a"), found: false }), "DELETE a not_found\n");
    assert_eq!(text_of(KvResp::Stop), "STOP\n");
    assert_eq!(
        text_of(KvResp::Scan {
            key_start: s("a"),
            key_end: s("c"),
            entries: vec![(s("a"), s("1")), (s("b"), s("2"))],
        }),
        "SCAN a c BEGIN\n  a 1\n  b 2\nSCAN END\n"
    );
    assert_eq!(
        text_of(KvResp::Scan { key_start: s("a"), key_end: s("c"), entries: vec![] }),
        "SCAN a c BEGIN\nSCAN END\n"
    );
}

#[test]
fn write_response_appends_to_what_is_there() {
    let mut out = s("STOP\n");
    write_response(KvResp::Get { key: s("k"), value: None }, &mut out);
    assert_eq!(out, "STOP\nGET k null\n");
}

#[test]
fn codec_round_trip_of_calls() {
    let calls = vec![
        KvCall::Put { key: s("key_1"), value: s("Value9") },
        KvCall::Swap { key: s("k"), value: s("null") },
        KvCall::Get { key: s("GET") },
        KvCall::Scan { key_start: s("a"), key_end: s("zz") },
        KvCall::Delete { key: s("_") },
        KvCall::Stop,
    ];
    for call in calls {
        assert_eq!(parse_input_call(&call_line(call.clone())), Ok(call));
    }
}

#[test]
fn codec_round_trip_of_responses() {
    let resps = vec![
        KvResp::Put { key: s("key_1"), found: true },
        KvResp::Put { key: s("found"), found: false },
        KvResp::Swap { key: s("k"), old_value: Some(s("old")) },
        KvResp::Swap { key: s("k"), old_value: None },
        KvResp::Get { key: s("k"), value: Some(s("NULL")) },
        KvResp::Get { key: s("k"), value: None },
        KvResp::Scan { key_start: s("a"), key_end: s("c"), entries: vec![] },
        KvResp::Scan {
            key_start: s("a"),
            key_end: s("c"),
            entries: vec![(s("a"), s("1")), (s("END"), s("SCAN")), (s("SCAN"), s("BEGIN"))],
        },
        KvResp::Delete { key: s("k"), found: true },
        KvResp::Delete { key: s("k"), found: false },
        KvResp::Stop,
    ];
    let mut text = String::new();
    for resp in &resps {
        write_response(resp.clone(), &mut text);
    }
    let mut reader = LineReader::from_text(&text);
    for resp in resps {
        assert_eq!(KvResp::from_read(&mut reader), Ok(resp));
    }
    assert_eq!(KvResp::from_read(&mut reader), Err(RunnerError::Io(s("end of input"))));
}

#[test]
fn value_null_and_entry_scan_end_do_not_survive_the_round_trip() {
    let text = text_of(KvResp::Get { key: s("a"), value: Some(s("null")) });
    assert_eq!(
        KvResp::from_read(&mut LineReader::from_text(&text)),
        Ok(KvResp::Get { key: s("a"), value: None })
    );
    let text = text_of(KvResp::Scan {
        key_start: s("a"),
        key_end: s("z"),
        entries: vec![(s("SCAN"), s("END")), (s("b"), s("2"))],
    });
    let mut reader = LineReader::from_text(&text);
    assert_eq!(
        KvResp::from_read(&mut reader),
        Ok(KvResp::Scan { key_start: s("a"), key_end: s("z"), entries: vec![] })
    );
}

#[test]
fn single_client_round_trip() {
    let mut store = KeyMap::new();
    let mut output = String::new();
    for line in ["PUT a 1", "GET a", "DELETE a", "GET a", "STOP"] {
        let call = parse_input_call(line).unwrap();
        write_response(handle_kv_call(call, &mut store), &mut output);
    }
    assert_eq!(output, "PUT a not_found\nGET a 1\nDELETE a found\nGET a null\nSTOP\n");
}

#[test]
fn put_and_swap_tell_what_was_there() {
    let mut store = KeyMap::new();
    assert_eq!(
        handle_kv_call(KvCall::Put { key: s("k"), value: s("1") }, &mut store),
        KvResp::Put { key: s("k"), found: false }
    );
    assert_eq!(
        handle_kv_call(KvCall::Put { key: s("k"), value: s("2") }, &mut store),
        KvResp::Put { key: s("k"), found: true }
    );
    assert_eq!(
        handle_kv_call(KvCall::Swap { key: s("k"), value: s("3") }, &mut store),
        KvResp::Swap { key: s("k"), old_value: Some(s("2")) }
    );
    assert_eq!(
        handle_kv_call(KvCall::Swap { key: s("n"), value: s("4") }, &mut store),
        KvResp::Swap { key: s("n"), old_value: None }
    );
    assert_eq!(
        handle_kv_call(KvCall::Get { key: s("k") }, &mut store),
        KvResp::Get { key: s("k"), value: Some(s("3")) }
    );
    assert_eq!(
        handle_kv_call(KvCall::Delete { key: s("k") }, &mut store),
        KvResp::Delete { key: s("k"), found: true }
    );
    assert_eq!(
        handle_kv_call(KvCall::Delete { key: s("k") }, &mut store),
        KvResp::Delete { key: s("k"), found: false }
    );
    assert_eq!(store.len(), 1);
    assert_eq!(handle_kv_call(KvCall::Stop, &mut store), KvResp::Stop);
}

fn populated() -> KeyMap<String> {
    let mut store = KeyMap::new();
    for (key, value) in [("b", "2"), ("a", "1"), ("c", "3")] {
        handle_kv_call(KvCall::Put { key: s(key), value: s(value) }, &mut store);
    }
    store
}

fn scan(store: &mut KeyMap<String>, key_start: &str, key_end: &str) -> Vec<(String, String)> {
    match handle_kv_call(KvCall::Scan { key_start: s(key_start), key_end: s(key_end) }, store) {
        KvResp::Scan { key_start: ks, key_end: ke, entries } => {
            assert_eq!(ks, key_start);
            assert_eq!(ke, key_end);
            entries
        }
        other => panic!("no scan: {:?}", other),
    }
}

#[test]
fn scan_order() {
    let mut store = populated();
    let entries = scan(&mut store, "a", "c");
    assert_eq!(entries, vec![(s("a"), s("1")), (s("b"), s("2")), (s("c"), s("3"))]);
    for (i, (key, _)) in entries.iter().enumerate() {
        assert!(key.as_str() >= "a" && key.as_str() <= "c");
        for (other, _) in &entries[i + 1..] {
            assert_ne!(key, other);
        }
    }
}

#[test]
fn scan_takes_both_ends_of_its_range() {
    let mut store = populated();
    assert_eq!(scan(&mut store, "b", "b"), vec![(s("b"), s("2"))]);
    assert_eq!(scan(&mut store, "aa", "bz"), vec![(s("b"), s("2"))]);
    assert_eq!(scan(&mut store, "b", "z"), vec![(s("b"), s("2")), (s("c"), s("3"))]);
    assert_eq!(scan(&mut store, "", "a"), vec![(s("a"), s("1"))]);
    assert_eq!(scan(&mut store, "d", "z"), vec![]);
    assert_eq!(scan(&mut store, "aa", "ab"), vec![]);
}

#[test]
fn scan_of_a_range_that_ends_before_it_begins_is_empty() {
    let mut store = populated();
    assert_eq!(scan(&mut store, "c", "a"), vec![]);
    assert_eq!(scan(&mut store, "b", "a"), vec![]);
}
