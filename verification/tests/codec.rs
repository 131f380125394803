use runner::ioapi::{LineReader, RespDecoder};
use runner::{KvCall, KvResp, RunnerError};

fn s(text: &str) -> String {
    text.to_string()
}

fn line_of(call: KvCall) -> String {
    let mut out = String::new();
    call.into_write(&mut out);
    out
}

fn read(text: &str) -> Result<KvResp, RunnerError> {
    KvResp::from_read(&mut LineReader::from_text(text))
}

#[test]
fn calls_are_written_as_one_line_each() {
    assert_eq!(line_of(KvCall::Put { key: s("a"), value: s("1") }), "PUT a 1\n");
    assert_eq!(line_of(KvCall::Swap { key: s("a"), value: s("2") }), "SWAP a 2\n");
    assert_eq!(line_of(KvCall::Get { key: s("a") }), "GET a\n");
    assert_eq!(line_of(KvCall::Scan { key_start: s("a"), key_end: s("c") }), "SCAN a c\n");
    assert_eq!(line_of(KvCall::Delete { key: s("a") }), "DELETE a\n");
    assert_eq!(line_of(KvCall::Stop), "STOP\n");
}

#[test]
fn into_write_appends_to_what_is_there() {
    let mut out = s("GET x\n");
    KvCall::Stop.into_write(&mut out);
    assert_eq!(out, "GET x\nSTOP\n");
}

#[test]
fn update_info_of_each_call() {
    assert_eq!(
        KvCall::Put { key: s("k"), value: s("v") }.update_info(),
        Some((s("k"), Some(s("v"))))
    );
    assert_eq!(
        KvCall::Swap { key: s("k"), value: s("w") }.update_info(),
        Some((s("k"), Some(s("w"))))
    );
    assert_eq!(KvCall::Delete { key: s("k") }.update_info(), Some((s("k"), None)));
    assert_eq!(KvCall::Get { key: s("k") }.update_info(), None);
    assert_eq!(KvCall::Scan { key_start: s("a"), key_end: s("b") }.update_info(), None);
    assert_eq!(KvCall::Stop.update_info(), None);
}

#[test]
fn single_line_responses_are_read() {
    assert_eq!(read("PUT a found\n"), Ok(KvResp::Put { key: s("a"), found: true }));
    assert_eq!(read("PUT a not_found\n"), Ok(KvResp::Put { key: s("a"), found: false }));
    assert_eq!(read("SWAP a 1\n"), Ok(KvResp::Swap { key: s("a"), old_value: Some(s("1")) }));
    assert_eq!(read("SWAP a null\n"), Ok(KvResp::Swap { key: s("a"), old_value: None }));
    assert_eq!(read("GET a 1\n"), Ok(KvResp::Get { key: s("a"), value: Some(s("1")) }));
    assert_eq!(read("GET a null\n"), Ok(KvResp::Get { key: s("a"), value: None }));
    assert_eq!(read("DELETE a found\n"), Ok(KvResp::Delete { key: s("a"), found: true }));
    assert_eq!(read("DELETE a not_found\n"), Ok(KvResp::Delete { key: s("a"), found: false }));
    assert_eq!(read("STOP\n"), Ok(KvResp::Stop));
}

#[test]
fn scan_block_is_read_to_its_end() {
    let text = "SCAN a c BEGIN\n  a 1\n  b 2\nSCAN END\nSTOP\n";
    let mut reader = LineReader::from_text(text);
    assert_eq!(
        KvResp::from_read(&mut reader),
        Ok(KvResp::Scan {
            key_start: s("a"),
            key_end: s("c"),
            entries: vec![(s("a"), s("1")), (s("b"), s("2"))],
        })
    );
    assert_eq!(KvResp::from_read(&mut reader), Ok(KvResp::Stop));
    assert_eq!(
        KvResp::from_read(&mut reader),
        Err(RunnerError::Io(s("end of input")))
    );
}

#[test]
fn empty_scan_block_is_read() {
    assert_eq!(
        read("SCAN a c BEGIN\nSCAN END\n"),
        Ok(KvResp::Scan { key_start: s("a"), key_end: s("c"), entries: vec![] })
    );
}

#[test]
fn blank_lines_and_trailing_space_are_passed_over() {
    assert_eq!(read("\n   \n\t\nGET a 1  \n"), Ok(KvResp::Get { key: s("a"), value: Some(s("1")) }));
    assert_eq!(
        read("SCAN a c BEGIN \n\n  a 1 \n \n  SCAN END  \n"),
        Ok(KvResp::Scan { key_start: s("a"), key_end: s("c"), entries: vec![(s("a"), s("1"))] })
    );
}

#[test]
fn last_line_needs_no_line_feed() {
    assert_eq!(read("STOP"), Ok(KvResp::Stop));
}

#[test]
fn unknown_tag_is_a_parse_error() {
    assert_eq!(read("HELLO a\n"), Err(RunnerError::Parse(s("invalid line: HELLO a\n"))));
    assert_eq!(read("put a found\n"), Err(RunnerError::Parse(s("invalid line: put a found\n"))));
}

#[test]
fn missing_field_is_a_parse_error() {
    assert_eq!(read("PUT a\n"), Err(RunnerError::Parse(s("invalid line: PUT a\n"))));
    assert_eq!(read("PUT\n"), Err(RunnerError::Parse(s("invalid line: PUT\n"))));
    assert_eq!(read("SWAP a\n"), Err(RunnerError::Parse(s("invalid line: SWAP a\n"))));
    assert_eq!(read("GET a\n"), Err(RunnerError::Parse(s("invalid line: GET a\n"))));
    assert_eq!(read("DELETE a\n"), Err(RunnerError::Parse(s("invalid line: DELETE a\n"))));
    assert_eq!(read("SCAN a c\n"), Err(RunnerError::Parse(s("invalid line: SCAN a c\n"))));
    assert_eq!(
        read("SCAN a c START\n"),
        Err(RunnerError::Parse(s("invalid line: SCAN a c START\n")))
    );
    assert_eq!(
        read("SCAN a c BEGIN\n  a\nSCAN END\n"),
        Err(RunnerError::Parse(s("invalid line:   a\n")))
    );
}

#[test]
fn bad_found_field_is_a_parse_error() {
    assert_eq!(
        read("PUT a maybe\n"),
        Err(RunnerError::Parse(s("invalid 'found' field: maybe")))
    );
    assert_eq!(
        read("DELETE a Found\n"),
        Err(RunnerError::Parse(s("invalid 'found' field: Found")))
    );
}

#[test]
fn unclosed_scan_block_is_a_parse_error() {
    assert_eq!(
        read("SCAN a c BEGIN\n  a 1\n"),
        Err(RunnerError::Parse(s("scan block not closed by SCAN END")))
    );
}

#[test]
fn scan_end_needs_exactly_one_space() {
    assert_eq!(
        read("SCAN a c BEGIN\nSCAN  END\nSCAN END\n"),
        Ok(KvResp::Scan {
            key_start: s("a"),
            key_end: s("c"),
            entries: vec![(s("SCAN"), s("END"))],
        })
    );
}

#[test]
fn only_stop_answers_a_stop() {
    assert_eq!(KvResp::Stop.expect_stop(), Ok(()));
    assert_eq!(
        KvResp::Get { key: s("a"), value: None }.expect_stop(),
        Err(RunnerError::Io(s("unexpected response, expecting STOP")))
    );
    assert_eq!(
        KvResp::Put { key: s("STOP"), found: true }.expect_stop(),
        Err(RunnerError::Io(s("unexpected response, expecting STOP")))
    );
}

#[test]
fn decoder_takes_lines_one_at_a_time() {
    let mut decoder = RespDecoder::new();
    assert!(!decoder.in_scan());
    assert_eq!(decoder.feed("\n"), Ok(None));
    assert_eq!(decoder.feed("SCAN a b BEGIN\n"), Ok(None));
    assert!(decoder.in_scan());
    assert_eq!(decoder.feed("  a 1\n"), Ok(None));
    assert_eq!(
        decoder.feed("SCAN END\n"),
        Ok(Some(KvResp::Scan { key_start: s("a"), key_end: s("b"), entries: vec![(s("a"), s("1"))] }))
    );
    assert!(!decoder.in_scan());
    assert_eq!(decoder.feed("STOP\n"), Ok(Some(KvResp::Stop)));
}

#[test]
fn decoder_tells_what_is_wrong_at_the_end_of_input() {
    let mut decoder = RespDecoder::new();
    assert_eq!(decoder.at_end(), RunnerError::Io(s("end of input")));
    assert_eq!(decoder.feed("SCAN a b BEGIN\n"), Ok(None));
    assert_eq!(decoder.at_end(), RunnerError::Parse(s("scan block not closed by SCAN END")));
}

#[test]
fn decoder_is_between_responses_after_an_error() {
    let mut decoder = RespDecoder::new();
    assert_eq!(decoder.feed("SCAN a b BEGIN\n"), Ok(None));
    assert_eq!(decoder.feed("lonely\n"), Err(RunnerError::Parse(s("invalid line: lonely\n"))));
    assert!(!decoder.in_scan());
    assert_eq!(decoder.feed("GET a null\n"), Ok(Some(KvResp::Get { key: s("a"), value: None })));
}
