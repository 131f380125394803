//! Calls and responses of the key-value protocol, and their text form.
//!
//! One call is one line. One response is one line too, but for a scan, which
//! is a header line, one line for each entry and a closing line.

use vstd::prelude::*;
use vstd::string::*;

use crate::error::{ErrorView, RunnerError};
use crate::text::{
    is_blank, is_token, join_words, line_is_blank, line_of, lines, split_lines, split_words, str_eq,
    trim, trim_line, words,
};

verus! {

/// A call to the key-value service.
#[derive(Debug)]
pub enum KvCall {
    Put { key: String, value: String },
    Swap { key: String, value: String },
    Get { key: String },
    Scan { key_start: String, key_end: String },
    Delete { key: String },
    Stop,
}

/// A `KvCall` with its texts as sequences of characters.
pub enum CallView {
    Put { key: Seq<char>, value: Seq<char> },
    Swap { key: Seq<char>, value: Seq<char> },
    Get { key: Seq<char> },
    Scan { key_start: Seq<char>, key_end: Seq<char> },
    Delete { key: Seq<char> },
    Stop,
}

impl View for KvCall {
    type V = CallView;

    open spec fn view(&self) -> CallView {
        match self {
            KvCall::Put { key, value } => CallView::Put { key: key@, value: value@ },
            KvCall::Swap { key, value } => CallView::Swap { key: key@, value: value@ },
            KvCall::Get { key } => CallView::Get { key: key@ },
            KvCall::Scan { key_start, key_end } => CallView::Scan {
                key_start: key_start@,
                key_end: key_end@,
            },
            KvCall::Delete { key } => CallView::Delete { key: key@ },
            KvCall::Stop => CallView::Stop,
        }
    }
}

impl DeepView for KvCall {
    type V = CallView;

    open spec fn deep_view(&self) -> CallView {
        self@
    }
}

/// A response of the key-value service.
#[derive(Debug)]
pub enum KvResp {
    /// `found` tells whether the key was there before.
    Put { key: String, found: bool },
    /// `old_value` is what the key held before, if anything.
    Swap { key: String, old_value: Option<String> },
    Get { key: String, value: Option<String> },
    /// The entries between the two keys, in the order the service gave them.
    Scan { key_start: String, key_end: String, entries: Vec<(String, String)> },
    /// `found` tells whether the key was there before.
    Delete { key: String, found: bool },
    Stop,
}

/// A `KvResp` with its texts as sequences of characters.
pub enum RespView {
    Put { key: Seq<char>, found: bool },
    Swap { key: Seq<char>, old_value: Option<Seq<char>> },
    Get { key: Seq<char>, value: Option<Seq<char>> },
    Scan { key_start: Seq<char>, key_end: Seq<char>, entries: Seq<(Seq<char>, Seq<char>)> },
    Delete { key: Seq<char>, found: bool },
    Stop,
}

impl View for KvResp {
    type V = RespView;

    open spec fn view(&self) -> RespView {
        match self {
            KvResp::Put { key, found } => RespView::Put { key: key@, found: *found },
            KvResp::Swap { key, old_value } => RespView::Swap {
                key: key@,
                old_value: old_value.deep_view(),
            },
            KvResp::Get { key, value } => RespView::Get { key: key@, value: value.deep_view() },
            KvResp::Scan { key_start, key_end, entries } => RespView::Scan {
                key_start: key_start@,
                key_end: key_end@,
                entries: entries.deep_view(),
            },
            KvResp::Delete { key, found } => RespView::Delete { key: key@, found: *found },
            KvResp::Stop => RespView::Stop,
        }
    }
}

impl DeepView for KvResp {
    type V = RespView;

    open spec fn deep_view(&self) -> RespView {
        self@
    }
}

/// The words of the line that stands for a call.
pub open spec fn call_words(c: CallView) -> Seq<Seq<char>> {
    match c {
        CallView::Put { key, value } => seq!["PUT"@, key, value],
        CallView::Swap { key, value } => seq!["SWAP"@, key, value],
        CallView::Get { key } => seq!["GET"@, key],
        CallView::Scan { key_start, key_end } => seq!["SCAN"@, key_start, key_end],
        CallView::Delete { key } => seq!["DELETE"@, key],
        CallView::Stop => seq!["STOP"@],
    }
}

/// The line that stands for a call: its words with one space between them,
/// and a line feed.
pub open spec fn call_line(c: CallView) -> Seq<char> {
    line_of(call_words(c))
}

/// The error for a line that is no call, or lacks a field.
pub open spec fn invalid_input_line(line: Seq<char>) -> ErrorView {
    ErrorView::Parse("invalid input line: "@ + line)
}

/// Reads a call from a line. Words after the last field are not looked at.
pub open spec fn parse_call(line: Seq<char>) -> Result<CallView, ErrorView> {
    let ws = words(line);
    if ws.len() == 0 {
        Err(invalid_input_line(line))
    } else if ws[0] == "PUT"@ {
        if ws.len() < 3 {
            Err(invalid_input_line(line))
        } else {
            Ok(CallView::Put { key: ws[1], value: ws[2] })
        }
    } else if ws[0] == "SWAP"@ {
        if ws.len() < 3 {
            Err(invalid_input_line(line))
        } else {
            Ok(CallView::Swap { key: ws[1], value: ws[2] })
        }
    } else if ws[0] == "GET"@ {
        if ws.len() < 2 {
            Err(invalid_input_line(line))
        } else {
            Ok(CallView::Get { key: ws[1] })
        }
    } else if ws[0] == "SCAN"@ {
        if ws.len() < 3 {
            Err(invalid_input_line(line))
        } else {
            Ok(CallView::Scan { key_start: ws[1], key_end: ws[2] })
        }
    } else if ws[0] == "DELETE"@ {
        if ws.len() < 2 {
            Err(invalid_input_line(line))
        } else {
            Ok(CallView::Delete { key: ws[1] })
        }
    } else if ws[0] == "STOP"@ {
        Ok(CallView::Stop)
    } else {
        Err(invalid_input_line(line))
    }
}

/// The word for a `found` field.
pub open spec fn found_word(found: bool) -> Seq<char> {
    if found {
        "found"@
    } else {
        "not_found"@
    }
}

/// The word for a value field, `null` where there is no value.
pub open spec fn optional_word(value: Option<Seq<char>>) -> Seq<char> {
    match value {
        Some(v) => v,
        None => "null"@,
    }
}

/// The line of one entry of a scan block: two spaces, the key, the value.
pub open spec fn entry_line(entry: (Seq<char>, Seq<char>)) -> Seq<char> {
    "  "@ + line_of(seq![entry.0, entry.1])
}

/// The lines of the entries of a scan block.
pub open spec fn entry_lines(entries: Seq<(Seq<char>, Seq<char>)>) -> Seq<Seq<char>> {
    Seq::new(entries.len(), |i: int| entry_line(entries[i]))
}

/// The lines that stand for a response: one line, but for a scan, which
/// has a header, one line for each entry, and a closing line.
pub open spec fn resp_lines(r: RespView) -> Seq<Seq<char>> {
    match r {
        RespView::Put { key, found } => seq![line_of(seq!["PUT"@, key, found_word(found)])],
        RespView::Swap { key, old_value } => seq![
            line_of(seq!["SWAP"@, key, optional_word(old_value)]),
        ],
        RespView::Get { key, value } => seq![line_of(seq!["GET"@, key, optional_word(value)])],
        RespView::Scan { key_start, key_end, entries } => seq![
            line_of(seq!["SCAN"@, key_start, key_end, "BEGIN"@]),
        ] + entry_lines(entries) + seq![line_of(seq!["SCAN"@, "END"@])],
        RespView::Delete { key, found } => seq![line_of(seq!["DELETE"@, key, found_word(found)])],
        RespView::Stop => seq![line_of(seq!["STOP"@])],
    }
}

/// The lines one after the other as one text.
pub open spec fn concat_lines(ls: Seq<Seq<char>>) -> Seq<char>
    decreases ls.len(),
{
    if ls.len() == 0 {
        Seq::empty()
    } else {
        concat_lines(ls.drop_last()) + ls.last()
    }
}

/// The text that stands for a response.
pub open spec fn resp_text(r: RespView) -> Seq<char> {
    concat_lines(resp_lines(r))
}

/// A response that the protocol can carry: each key and value is one word.
pub open spec fn resp_is_valid(r: RespView) -> bool {
    match r {
        RespView::Put { key, found } => is_token(key),
        RespView::Swap { key, old_value } => is_token(key) && (old_value is Some ==> is_token(
            old_value.unwrap(),
        )),
        RespView::Get { key, value } => is_token(key) && (value is Some ==> is_token(value.unwrap())),
        RespView::Scan { key_start, key_end, entries } => {
            &&& is_token(key_start)
            &&& is_token(key_end)
            &&& forall|i: int|
                0 <= i < entries.len() ==> is_token((#[trigger] entries[i]).0) && is_token(entries[i].1)
        },
        RespView::Delete { key, found } => is_token(key),
        RespView::Stop => true,
    }
}

/// A response whose text means nothing else: no value is the word `null`,
/// which stands for no value, and no entry of a scan is `SCAN END`, which
/// closes the block.
pub open spec fn resp_is_plain(r: RespView) -> bool {
    match r {
        RespView::Swap { key, old_value } => old_value != Some("null"@),
        RespView::Get { key, value } => value != Some("null"@),
        RespView::Scan { key_start, key_end, entries } => forall|i: int|
            0 <= i < entries.len() ==> #[trigger] entries[i] != ("SCAN"@, "END"@),
        _ => true,
    }
}

/// What a call writes: the key with its new value for `Put` and `Swap`, the
/// key alone for `Delete`, nothing for the others.
pub open spec fn update_of(c: CallView) -> Option<(Seq<char>, Option<Seq<char>>)> {
    match c {
        CallView::Put { key, value } => Some((key, Some(value))),
        CallView::Swap { key, value } => Some((key, Some(value))),
        CallView::Delete { key } => Some((key, None)),
        _ => None,
    }
}

/// A call that the protocol can carry: each key and value is one word.
pub open spec fn call_is_valid(c: CallView) -> bool {
    match c {
        CallView::Put { key, value } => is_token(key) && is_token(value),
        CallView::Swap { key, value } => is_token(key) && is_token(value),
        CallView::Get { key } => is_token(key),
        CallView::Scan { key_start, key_end } => is_token(key_start) && is_token(key_end),
        CallView::Delete { key } => is_token(key),
        CallView::Stop => true,
    }
}

impl KvCall {
    /// Appends the line of this call to `writer`.
    pub fn into_write(self, writer: &mut String)
        ensures
            final(writer)@ == old(writer)@ + call_line(self@),
    {
        proof {
            reveal_strlit(" ");
            reveal_strlit("\n");
            reveal_with_fuel(join_words, 4);
        }
        match self {
            KvCall::Put { key, value } => {
                writer.append("PUT");
                writer.append(" ");
                writer.append(key.as_str());
                writer.append(" ");
                writer.append(value.as_str());
            },
            KvCall::Swap { key, value } => {
                writer.append("SWAP");
                writer.append(" ");
                writer.append(key.as_str());
                writer.append(" ");
                writer.append(value.as_str());
            },
            KvCall::Get { key } => {
                writer.append("GET");
                writer.append(" ");
                writer.append(key.as_str());
            },
            KvCall::Scan { key_start, key_end } => {
                writer.append("SCAN");
                writer.append(" ");
                writer.append(key_start.as_str());
                writer.append(" ");
                writer.append(key_end.as_str());
            },
            KvCall::Delete { key } => {
                writer.append("DELETE");
                writer.append(" ");
                writer.append(key.as_str());
            },
            KvCall::Stop => {
                writer.append("STOP");
            },
        }
        writer.append("\n");
    }

    /// The update that this call makes: `None` for a call that only reads,
    /// the key and `None` for `Delete`, the key and its new value for `Put`
    /// and `Swap`.
    pub fn update_info(&self) -> (info: Option<(String, Option<String>)>)
        ensures
            info.deep_view() == update_of(self@),
    {
        match self {
            KvCall::Put { key, value } => Some((key.clone(), Some(value.clone()))),
            KvCall::Swap { key, value } => Some((key.clone(), Some(value.clone()))),
            KvCall::Delete { key } => Some((key.clone(), None)),
            _ => None,
        }
    }
}

/// The error for a line that is no response, or lacks a field.
pub open spec fn invalid_line(line: Seq<char>) -> ErrorView {
    ErrorView::Parse("invalid line: "@ + line)
}

/// The error for a `found` field that is neither `found` nor `not_found`.
pub open spec fn invalid_found(word: Seq<char>) -> ErrorView {
    ErrorView::Parse("invalid 'found' field: "@ + word)
}

/// The error for an input that ends inside a scan block.
pub open spec fn unclosed_scan() -> ErrorView {
    ErrorView::Parse("scan block not closed by SCAN END"@)
}

/// The error for an input that ends before any response.
pub open spec fn end_of_input() -> ErrorView {
    ErrorView::Io("end of input"@)
}

/// What the first line of a response gives: the whole response, or the two
/// keys of a scan whose entries follow.
pub enum HeadView {
    Whole(RespView),
    ScanBegin { key_start: Seq<char>, key_end: Seq<char> },
}

/// Reads a `found` field.
pub open spec fn parse_found(word: Seq<char>) -> Result<bool, ErrorView> {
    if word == "found"@ {
        Ok(true)
    } else if word == "not_found"@ {
        Ok(false)
    } else {
        Err(invalid_found(word))
    }
}

/// Reads a value field, where `null` stands for no value.
pub open spec fn parse_optional(word: Seq<char>) -> Option<Seq<char>> {
    if word == "null"@ {
        None
    } else {
        Some(word)
    }
}

/// Reads the first line of a response. Words after the last field are not
/// looked at.
pub open spec fn parse_head(line: Seq<char>) -> Result<HeadView, ErrorView> {
    let ws = words(line);
    if ws.len() == 0 {
        Err(invalid_line(line))
    } else if ws[0] == "PUT"@ {
        if ws.len() < 3 {
            Err(invalid_line(line))
        } else {
            match parse_found(ws[2]) {
                Ok(found) => Ok(HeadView::Whole(RespView::Put { key: ws[1], found })),
                Err(e) => Err(e),
            }
        }
    } else if ws[0] == "SWAP"@ {
        if ws.len() < 3 {
            Err(invalid_line(line))
        } else {
            Ok(HeadView::Whole(RespView::Swap { key: ws[1], old_value: parse_optional(ws[2]) }))
        }
    } else if ws[0] == "GET"@ {
        if ws.len() < 3 {
            Err(invalid_line(line))
        } else {
            Ok(HeadView::Whole(RespView::Get { key: ws[1], value: parse_optional(ws[2]) }))
        }
    } else if ws[0] == "SCAN"@ {
        if ws.len() < 4 || ws[3] != "BEGIN"@ {
            Err(invalid_line(line))
        } else {
            Ok(HeadView::ScanBegin { key_start: ws[1], key_end: ws[2] })
        }
    } else if ws[0] == "DELETE"@ {
        if ws.len() < 3 {
            Err(invalid_line(line))
        } else {
            match parse_found(ws[2]) {
                Ok(found) => Ok(HeadView::Whole(RespView::Delete { key: ws[1], found })),
                Err(e) => Err(e),
            }
        }
    } else if ws[0] == "STOP"@ {
        Ok(HeadView::Whole(RespView::Stop))
    } else {
        Err(invalid_line(line))
    }
}

/// Reads one entry line of a scan block: a key and a value.
pub open spec fn parse_entry(line: Seq<char>) -> Result<(Seq<char>, Seq<char>), ErrorView> {
    let ws = words(line);
    if ws.len() < 2 {
        Err(invalid_line(line))
    } else {
        Ok((ws[0], ws[1]))
    }
}

/// Where a decoder stands: between responses, or inside a scan block.
pub enum DecoderView {
    Idle,
    InScan { key_start: Seq<char>, key_end: Seq<char>, entries: Seq<(Seq<char>, Seq<char>)> },
}

/// One step of decoding: the state after `line`, and what the line gave.
/// `Ok(None)` stands for a line that completes no response: a blank line, the
/// header of a scan, or one of its entries. After an error the decoder is
/// between responses again.
pub open spec fn feed_step(state: DecoderView, line: Seq<char>) -> (
    DecoderView,
    Result<Option<RespView>, ErrorView>,
) {
    if is_blank(line) {
        (state, Ok(None))
    } else {
        match state {
            DecoderView::Idle => match parse_head(line) {
                Ok(HeadView::Whole(resp)) => (DecoderView::Idle, Ok(Some(resp))),
                Ok(HeadView::ScanBegin { key_start, key_end }) => (
                    DecoderView::InScan { key_start, key_end, entries: Seq::empty() },
                    Ok(None),
                ),
                Err(e) => (DecoderView::Idle, Err(e)),
            },
            DecoderView::InScan { key_start, key_end, entries } => if trim(line) == "SCAN END"@ {
                (DecoderView::Idle, Ok(Some(RespView::Scan { key_start, key_end, entries })))
            } else {
                match parse_entry(line) {
                    Ok(entry) => (
                        DecoderView::InScan { key_start, key_end, entries: entries.push(entry) },
                        Ok(None),
                    ),
                    Err(e) => (DecoderView::Idle, Err(e)),
                }
            },
        }
    }
}

/// The view of what `feed` returns.
pub open spec fn fed_view(r: Result<Option<KvResp>, RunnerError>) -> Result<
    Option<RespView>,
    ErrorView,
> {
    match r {
        Ok(resp) => Ok(resp.deep_view()),
        Err(e) => Err(e@),
    }
}

/// Decodes responses from lines that come one at a time.
pub struct RespDecoder {
    in_scan: bool,
    key_start: String,
    key_end: String,
    entries: Vec<(String, String)>,
}

impl View for RespDecoder {
    type V = DecoderView;

    closed spec fn view(&self) -> DecoderView {
        if self.in_scan {
            DecoderView::InScan {
                key_start: self.key_start@,
                key_end: self.key_end@,
                entries: self.entries.deep_view(),
            }
        } else {
            DecoderView::Idle
        }
    }
}

fn invalid_line_error(line: &str) -> (e: RunnerError)
    ensures
        e@ == invalid_line(line@),
{
    RunnerError::Parse(String::from_str("invalid line: ").concat(line))
}

fn found_field(word: &String) -> (r: Result<bool, RunnerError>)
    ensures
        match r {
            Ok(found) => parse_found(word@) == Ok::<bool, ErrorView>(found),
            Err(e) => parse_found(word@) == Err::<bool, ErrorView>(e@),
        },
{
    if str_eq(word.as_str(), "found") {
        Ok(true)
    } else if str_eq(word.as_str(), "not_found") {
        Ok(false)
    } else {
        Err(RunnerError::Parse(String::from_str("invalid 'found' field: ").concat(word.as_str())))
    }
}

fn optional_field(word: &String) -> (r: Option<String>)
    ensures
        r.deep_view() == parse_optional(word@),
{
    if str_eq(word.as_str(), "null") {
        None
    } else {
        Some(word.clone())
    }
}

impl RespDecoder {
    /// A decoder that stands between responses.
    pub fn new() -> (d: RespDecoder)
        ensures
            d@ == DecoderView::Idle,
    {
        RespDecoder {
            in_scan: false,
            key_start: String::new(),
            key_end: String::new(),
            entries: Vec::new(),
        }
    }

    /// Whether the decoder is inside a scan block.
    pub fn in_scan(&self) -> (r: bool)
        ensures
            r == (self@ is InScan),
    {
        self.in_scan
    }

    /// The error for an input that ends where the decoder stands: inside a
    /// scan block the block is not closed, else there is no response to
    /// read.
    pub fn at_end(&self) -> (e: RunnerError)
        ensures
            e@ == if self@ is InScan {
                unclosed_scan()
            } else {
                end_of_input()
            },
    {
        if self.in_scan {
            RunnerError::Parse(String::from_str("scan block not closed by SCAN END"))
        } else {
            RunnerError::Io(String::from_str("end of input"))
        }
    }

    /// Takes the next line of input. Returns the response that the line
    /// completes, `None` where it completes none, or the error that makes
    /// the input no response.
    pub fn feed(&mut self, line: &str) -> (r: Result<Option<KvResp>, RunnerError>)
        ensures
            (final(self)@, fed_view(r)) == feed_step(old(self)@, line@),
    {
        if line_is_blank(line) {
            return Ok(None);
        }
        if self.in_scan {
            if str_eq(trim_line(line), "SCAN END") {
                let mut key_start = String::new();
                let mut key_end = String::new();
                let mut entries: Vec<(String, String)> = Vec::new();
                std::mem::swap(&mut key_start, &mut self.key_start);
                std::mem::swap(&mut key_end, &mut self.key_end);
                std::mem::swap(&mut entries, &mut self.entries);
                self.in_scan = false;
                return Ok(Some(KvResp::Scan { key_start, key_end, entries }));
            }
            let ws = split_words(line);
            if ws.len() < 2 {
                self.in_scan = false;
                return Err(invalid_line_error(line));
            }
            let ghost before = self.entries.deep_view();
            self.entries.push((ws[0].clone(), ws[1].clone()));
            assert(self.entries.deep_view() == before.push((ws[0]@, ws[1]@)));
            return Ok(None);
        }
        let ws = split_words(line);
        if ws.len() == 0 {
            return Err(invalid_line_error(line));
        }
        let tag = ws[0].as_str();
        if str_eq(tag, "PUT") {
            if ws.len() < 3 {
                return Err(invalid_line_error(line));
            }
            match found_field(&ws[2]) {
                Ok(found) => Ok(Some(KvResp::Put { key: ws[1].clone(), found })),
                Err(e) => Err(e),
            }
        } else if str_eq(tag, "SWAP") {
            if ws.len() < 3 {
                return Err(invalid_line_error(line));
            }
            Ok(Some(KvResp::Swap { key: ws[1].clone(), old_value: optional_field(&ws[2]) }))
        } else if str_eq(tag, "GET") {
            if ws.len() < 3 {
                return Err(invalid_line_error(line));
            }
            Ok(Some(KvResp::Get { key: ws[1].clone(), value: optional_field(&ws[2]) }))
        } else if str_eq(tag, "SCAN") {
            if ws.len() < 4 || !str_eq(ws[3].as_str(), "BEGIN") {
                return Err(invalid_line_error(line));
            }
            self.key_start = ws[1].clone();
            self.key_end = ws[2].clone();
            self.entries = Vec::new();
            self.in_scan = true;
            assert(self.entries.deep_view() == Seq::<(Seq<char>, Seq<char>)>::empty());
            Ok(None)
        } else if str_eq(tag, "DELETE") {
            if ws.len() < 3 {
                return Err(invalid_line_error(line));
            }
            match found_field(&ws[2]) {
                Ok(found) => Ok(Some(KvResp::Delete { key: ws[1].clone(), found })),
                Err(e) => Err(e),
            }
        } else if str_eq(tag, "STOP") {
            Ok(Some(KvResp::Stop))
        } else {
            Err(invalid_line_error(line))
        }
    }
}

/// What the decoder makes of `lines` from `state` on: the first response or
/// error, and the lines after it. An input that ends before a response is
/// complete is an error.
pub open spec fn run_decoder(state: DecoderView, lines: Seq<Seq<char>>) -> (
    Result<RespView, ErrorView>,
    Seq<Seq<char>>,
)
    decreases lines.len(),
{
    if lines.len() == 0 {
        if state is InScan {
            (Err(unclosed_scan()), lines)
        } else {
            (Err(end_of_input()), lines)
        }
    } else {
        let (next, fed) = feed_step(state, lines[0]);
        match fed {
            Ok(Some(resp)) => (Ok(resp), lines.drop_first()),
            Ok(None) => run_decoder(next, lines.drop_first()),
            Err(e) => (Err(e), lines.drop_first()),
        }
    }
}

/// The first response in `lines`, and the lines after it.
pub open spec fn read_resp(lines: Seq<Seq<char>>) -> (Result<RespView, ErrorView>, Seq<Seq<char>>) {
    run_decoder(DecoderView::Idle, lines)
}

/// The view of what `from_read` returns.
pub open spec fn read_view(r: Result<KvResp, RunnerError>) -> Result<RespView, ErrorView> {
    match r {
        Ok(resp) => Ok(resp@),
        Err(e) => Err(e@),
    }
}

/// Text held in memory and read line by line.
pub struct LineReader {
    lines: Vec<String>,
    pos: usize,
}

impl View for LineReader {
    type V = Seq<Seq<char>>;

    /// The lines that are still to be read.
    closed spec fn view(&self) -> Seq<Seq<char>> {
        self.lines.deep_view().skip(self.pos as int)
    }
}

impl LineReader {
    #[verifier::type_invariant]
    spec fn in_bounds(self) -> bool {
        self.pos <= self.lines.len()
    }

    /// A reader over `lines`.
    pub fn new(lines: Vec<String>) -> (reader: LineReader)
        ensures
            reader@ == lines.deep_view(),
    {
        LineReader { lines, pos: 0 }
    }

    /// A reader over the lines of `text`.
    pub fn from_text(text: &str) -> (reader: LineReader)
        ensures
            reader@ == lines(text@),
    {
        LineReader::new(split_lines(text))
    }

    /// The next line, if one is left.
    pub fn next_line(&mut self) -> (line: Option<String>)
        ensures
            match line {
                Some(l) => old(self)@.len() > 0 && l@ == old(self)@[0] && final(self)@ == old(
                    self,
                )@.drop_first(),
                None => old(self)@.len() == 0 && final(self)@ == old(self)@,
            },
    {
        proof {
            use_type_invariant(&*self);
        }
        if self.pos < self.lines.len() {
            let line = self.lines[self.pos].clone();
            assert(self.lines.deep_view().skip(self.pos as int).drop_first()
                == self.lines.deep_view().skip(self.pos + 1));
            self.pos += 1;
            Some(line)
        } else {
            None
        }
    }
}

/// The error for a client that answers a `Stop` with something else.
pub open spec fn not_stopped() -> ErrorView {
    ErrorView::Io("unexpected response, expecting STOP"@)
}

impl KvResp {
    /// Whether the response is what a client answers when it is told to
    /// stop.
    pub fn expect_stop(&self) -> (r: Result<(), RunnerError>)
        ensures
            match r {
                Ok(_) => self@ is Stop,
                Err(e) => !(self@ is Stop) && e@ == not_stopped(),
            },
    {
        match self {
            KvResp::Stop => Ok(()),
            _ => Err(RunnerError::Io(String::from_str("unexpected response, expecting STOP"))),
        }
    }

    /// Reads the next response from `reader`. Blank lines are passed over.
    /// The reader stands behind the last line that was looked at.
    pub fn from_read(reader: &mut LineReader) -> (r: Result<KvResp, RunnerError>)
        ensures
            (read_view(r), final(reader)@) == read_resp(old(reader)@),
    {
        let mut decoder = RespDecoder::new();
        loop
            invariant
                run_decoder(decoder@, reader@) == read_resp(old(reader)@),
            decreases reader@.len(),
        {
            match reader.next_line() {
                None => {
                    return Err(decoder.at_end());
                },
                Some(line) => {
                    match decoder.feed(line.as_str()) {
                        Ok(Some(resp)) => {
                            return Ok(resp);
                        },
                        Ok(None) => {},
                        Err(e) => {
                            return Err(e);
                        },
                    }
                },
            }
        }
    }
}

fn same_optional(a: &Option<String>, b: &Option<String>) -> (r: bool)
    ensures
        r == (a.deep_view() == b.deep_view()),
{
    match (a, b) {
        (Some(x), Some(y)) => *x == *y,
        (None, None) => true,
        _ => false,
    }
}

fn same_entries(a: &Vec<(String, String)>, b: &Vec<(String, String)>) -> (r: bool)
    ensures
        r == (a.deep_view() == b.deep_view()),
{
    if a.len() != b.len() {
        assert(a.deep_view().len() != b.deep_view().len());
        return false;
    }
    let mut i: usize = 0;
    while i < a.len()
        invariant
            i <= a.len(),
            a.len() == b.len(),
            forall|j: int| 0 <= j < i ==> a.deep_view()[j] == b.deep_view()[j],
        decreases a.len() - i,
    {
        if !(a[i].0 == b[i].0 && a[i].1 == b[i].1) {
            assert(a.deep_view()[i as int] != b.deep_view()[i as int]);
            return false;
        }
        i += 1;
    }
    assert(a.deep_view() =~= b.deep_view());
    true
}

fn clone_entries(a: &Vec<(String, String)>) -> (r: Vec<(String, String)>)
    ensures
        r.deep_view() == a.deep_view(),
{
    let mut r: Vec<(String, String)> = Vec::new();
    let mut i: usize = 0;
    while i < a.len()
        invariant
            i <= a.len(),
            r.len() == i,
            forall|j: int| 0 <= j < i ==> r.deep_view()[j] == a.deep_view()[j],
        decreases a.len() - i,
    {
        r.push((a[i].0.clone(), a[i].1.clone()));
        i += 1;
    }
    r
}

impl Clone for KvResp {
    fn clone(&self) -> (r: Self)
        ensures
            r@ == self@,
    {
        match self {
            KvResp::Put { key, found } => KvResp::Put { key: key.clone(), found: *found },
            KvResp::Swap { key, old_value } => KvResp::Swap {
                key: key.clone(),
                old_value: old_value.clone(),
            },
            KvResp::Get { key, value } => KvResp::Get { key: key.clone(), value: value.clone() },
            KvResp::Scan { key_start, key_end, entries } => KvResp::Scan {
                key_start: key_start.clone(),
                key_end: key_end.clone(),
                entries: clone_entries(entries),
            },
            KvResp::Delete { key, found } => KvResp::Delete { key: key.clone(), found: *found },
            KvResp::Stop => KvResp::Stop,
        }
    }
}

impl PartialEq for KvResp {
    fn eq(&self, other: &Self) -> (r: bool) {
        match (self, other) {
            (KvResp::Put { key, found }, KvResp::Put { key: k, found: f }) => *key == *k && *found
                == *f,
            (KvResp::Swap { key, old_value }, KvResp::Swap { key: k, old_value: o }) => *key == *k
                && same_optional(old_value, o),
            (KvResp::Get { key, value }, KvResp::Get { key: k, value: v }) => *key == *k
                && same_optional(value, v),
            (
                KvResp::Scan { key_start, key_end, entries },
                KvResp::Scan { key_start: s, key_end: e, entries: n },
            ) => *key_start == *s && *key_end == *e && same_entries(entries, n),
            (KvResp::Delete { key, found }, KvResp::Delete { key: k, found: f }) => *key == *k
                && *found == *f,
            (KvResp::Stop, KvResp::Stop) => true,
            _ => false,
        }
    }
}

impl vstd::std_specs::cmp::PartialEqSpecImpl for KvResp {
    open spec fn obeys_eq_spec() -> bool {
        true
    }

    open spec fn eq_spec(&self, other: &Self) -> bool {
        self@ == other@
    }
}

impl Clone for KvCall {
    fn clone(&self) -> (r: Self)
        ensures
            r@ == self@,
    {
        match self {
            KvCall::Put { key, value } => KvCall::Put { key: key.clone(), value: value.clone() },
            KvCall::Swap { key, value } => KvCall::Swap { key: key.clone(), value: value.clone() },
            KvCall::Get { key } => KvCall::Get { key: key.clone() },
            KvCall::Scan { key_start, key_end } => KvCall::Scan {
                key_start: key_start.clone(),
                key_end: key_end.clone(),
            },
            KvCall::Delete { key } => KvCall::Delete { key: key.clone() },
            KvCall::Stop => KvCall::Stop,
        }
    }
}

impl PartialEq for KvCall {
    fn eq(&self, other: &Self) -> (r: bool) {
        match (self, other) {
            (KvCall::Put { key, value }, KvCall::Put { key: k, value: v }) => *key == *k && *value
                == *v,
            (KvCall::Swap { key, value }, KvCall::Swap { key: k, value: v }) => *key == *k
                && *value == *v,
            (KvCall::Get { key }, KvCall::Get { key: k }) => *key == *k,
            (
                KvCall::Scan { key_start, key_end },
                KvCall::Scan { key_start: s, key_end: e },
            ) => *key_start == *s && *key_end == *e,
            (KvCall::Delete { key }, KvCall::Delete { key: k }) => *key == *k,
            (KvCall::Stop, KvCall::Stop) => true,
            _ => false,
        }
    }
}

impl vstd::std_specs::cmp::PartialEqSpecImpl for KvCall {
    open spec fn obeys_eq_spec() -> bool {
        true
    }

    open spec fn eq_spec(&self, other: &Self) -> bool {
        self@ == other@
    }
}

} // verus!
