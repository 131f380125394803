//! The translator for the output of a YCSB generator in basic mode: its
//! operation lines become calls, its report lines become records of
//! performance.

use vstd::prelude::*;
use vstd::string::*;

use crate::error::{ErrorView, RunnerError};
use crate::ioapi::{CallView, KvCall};
use crate::keymap::{index_of, lemma_rank_bounds, rank, KeyMap};
use crate::text::{
    chars_of, decimal_of, has_infix, is_blank, line_is_blank, parse_decimal, split_words,
    str_contains, str_eq, words,
};

verus! {

/// The path of the profile of a workload, `a` to `f`.
pub fn ycsb_profile(workload: char) -> (path: &'static str)
    requires
        'a' <= workload <= 'f',
    ensures
        path@ == "ycsb/workloads/workload"@.push(workload),
{
    proof {
        reveal_strlit("ycsb/workloads/workload");
        reveal_strlit("ycsb/workloads/workloada");
        reveal_strlit("ycsb/workloads/workloadb");
        reveal_strlit("ycsb/workloads/workloadc");
        reveal_strlit("ycsb/workloads/workloadd");
        reveal_strlit("ycsb/workloads/workloade");
        reveal_strlit("ycsb/workloads/workloadf");
    }
    let path = if workload == 'a' {
        "ycsb/workloads/workloada"
    } else if workload == 'b' {
        "ycsb/workloads/workloadb"
    } else if workload == 'c' {
        "ycsb/workloads/workloadc"
    } else if workload == 'd' {
        "ycsb/workloads/workloadd"
    } else if workload == 'e' {
        "ycsb/workloads/workloade"
    } else {
        "ycsb/workloads/workloadf"
    };
    path
}

/// The key that no key of a scan comes after, for a scan where no key is
/// known yet.
pub open spec fn last_key() -> Seq<char> {
    "zzzzzzzz"@
}

/// The key of a line: its words at `at` and `at + 1`, the table and the
/// record, with `_` between them.
pub open spec fn ycsb_key(ws: Seq<Seq<char>>, at: int) -> Result<Seq<char>, ErrorView> {
    if at + 1 < ws.len() {
        Ok(ws[at] + "_"@ + ws[at + 1])
    } else {
        Err(ErrorView::Parse("missing key segment"@))
    }
}

/// The words one after the other, each with `_` before it.
pub open spec fn underscored(ws: Seq<Seq<char>>) -> Seq<char>
    decreases ws.len(),
{
    if ws.len() == 0 {
        Seq::empty()
    } else {
        underscored(ws.drop_last()) + "_"@ + ws.last()
    }
}

/// The words of a value without the bracket that closes them.
pub open spec fn unbracketed(ws: Seq<Seq<char>>) -> Seq<Seq<char>> {
    if ws.len() > 0 && ws.last() == "]"@ {
        ws.drop_last()
    } else {
        ws
    }
}

/// The value of a line: the words after the `[` at `at`, up to the bracket
/// that closes them, each with `_` before it.
pub open spec fn ycsb_value(ws: Seq<Seq<char>>, at: int) -> Result<Seq<char>, ErrorView> {
    if at < ws.len() && ws[at] == "["@ {
        Ok(underscored(unbracketed(ws.skip(at + 1))))
    } else {
        Err(ErrorView::Parse("no value start bracket"@))
    }
}

/// The number of keys of a scan: the word at `at`, a number above 0.
pub open spec fn ycsb_scnt(ws: Seq<Seq<char>>, at: int) -> Result<usize, ErrorView> {
    if at < ws.len() {
        match decimal_of(ws[at]) {
            Some(n) if n > 0 => Ok(n),
            _ => Err(ErrorView::Parse("invalid scan count: "@ + ws[at])),
        }
    } else {
        Err(ErrorView::Parse("missing scan count"@))
    }
}

/// The last key of a scan over `count` keys from `key_start` on: the
/// `count`-th of the known keys that do not come before `key_start`, or the
/// last known key where there are fewer.
pub open spec fn scan_end(keys: Seq<Seq<char>>, key_start: Seq<char>, count: usize) -> Seq<char> {
    let at = rank(keys, key_start) + count - 1;
    if at < keys.len() {
        keys[at]
    } else {
        keys.last()
    }
}

/// What a line of the generator means: `Ok(None)` for a line that is no
/// operation, else the call that the operation becomes, or the error that
/// makes the line no operation.
///
/// `INSERT` becomes `Put`, `UPDATE` becomes `Swap`, `READ` becomes `Get`
/// and `SCAN` becomes `Scan`. `keys` are the keys inserted so far.
pub open spec fn interpret(line: Seq<char>, keys: Seq<Seq<char>>) -> Result<
    Option<CallView>,
    ErrorView,
> {
    let ws = words(line);
    if ws.len() == 0 {
        Ok(None)
    } else if ws[0] == "INSERT"@ {
        match (ycsb_key(ws, 1), ycsb_value(ws, 3)) {
            (Err(e), _) => Err(e),
            (Ok(_), Err(e)) => Err(e),
            (Ok(key), Ok(value)) => Ok(Some(CallView::Put { key, value })),
        }
    } else if ws[0] == "UPDATE"@ {
        match (ycsb_key(ws, 1), ycsb_value(ws, 3)) {
            (Err(e), _) => Err(e),
            (Ok(_), Err(e)) => Err(e),
            (Ok(key), Ok(value)) => Ok(Some(CallView::Swap { key, value })),
        }
    } else if ws[0] == "READ"@ {
        match ycsb_key(ws, 1) {
            Err(e) => Err(e),
            Ok(key) => Ok(Some(CallView::Get { key })),
        }
    } else if ws[0] == "SCAN"@ {
        match ycsb_key(ws, 1) {
            Err(e) => Err(e),
            Ok(key_start) => if keys.len() == 0 {
                Ok(Some(CallView::Scan { key_start, key_end: last_key() }))
            } else {
                match ycsb_scnt(ws, 3) {
                    Err(e) => Err(e),
                    Ok(count) => Ok(
                        Some(CallView::Scan { key_start, key_end: scan_end(keys, key_start, count) }),
                    ),
                }
            },
        }
    } else {
        Ok(None)
    }
}

/// The keys after a line: an `INSERT` that becomes a call adds its key.
pub open spec fn keys_after(line: Seq<char>, keys: Seq<Seq<char>>) -> Seq<Seq<char>> {
    match interpret(line, keys) {
        Ok(Some(CallView::Put { key, value })) => if index_of(keys, key) is Some {
            keys
        } else {
            keys.insert(rank(keys, key), key)
        },
        _ => keys,
    }
}

/// The view of what `interpret_ycsb_call` returns.
pub open spec fn interpreted_view(r: Result<Option<KvCall>, RunnerError>) -> Result<
    Option<CallView>,
    ErrorView,
> {
    match r {
        Ok(call) => Ok(call.deep_view()),
        Err(e) => Err(e@),
    }
}

/// The key of a line of the generator.
pub fn parse_ycsb_key(ws: &Vec<String>, at: usize) -> (r: Result<String, RunnerError>)
    requires
        at < usize::MAX,
    ensures
        match r {
            Ok(key) => ycsb_key(ws.deep_view(), at as int) == Ok::<Seq<char>, ErrorView>(key@),
            Err(e) => ycsb_key(ws.deep_view(), at as int) == Err::<Seq<char>, ErrorView>(e@),
        },
{
    if at + 1 < ws.len() {
        let mut key = ws[at].clone();
        key.append("_");
        key.append(ws[at + 1].as_str());
        Ok(key)
    } else {
        Err(RunnerError::Parse(String::from_str("missing key segment")))
    }
}

/// The value of a line of the generator.
pub fn parse_ycsb_value(ws: &Vec<String>, at: usize) -> (r: Result<String, RunnerError>)
    ensures
        match r {
            Ok(value) => ycsb_value(ws.deep_view(), at as int) == Ok::<Seq<char>, ErrorView>(value@),
            Err(e) => ycsb_value(ws.deep_view(), at as int) == Err::<Seq<char>, ErrorView>(e@),
        },
{
    let ghost wv = ws.deep_view();
    if at >= ws.len() || !str_eq(ws[at].as_str(), "[") {
        return Err(RunnerError::Parse(String::from_str("no value start bracket")));
    }
    let ghost body = wv.skip(at + 1);
    let mut end: usize = ws.len();
    if end > at + 1 && str_eq(ws[end - 1].as_str(), "]") {
        end = end - 1;
    }
    proof {
        assert(unbracketed(body) =~= wv.subrange(at + 1, end as int));
    }
    let mut value = String::new();
    let mut i: usize = at + 1;
    while i < end
        invariant
            at + 1 <= i <= end <= ws.len(),
            wv == ws.deep_view(),
            value@ == underscored(wv.subrange(at + 1, i as int)),
        decreases end - i,
    {
        proof {
            let next = wv.subrange(at + 1, i + 1);
            assert(next.drop_last() =~= wv.subrange(at + 1, i as int));
        }
        value.append("_");
        value.append(ws[i].as_str());
        i += 1;
    }
    Ok(value)
}

/// The number of keys of a scan.
pub fn parse_ycsb_scnt(ws: &Vec<String>, at: usize) -> (r: Result<usize, RunnerError>)
    ensures
        match r {
            Ok(count) => ycsb_scnt(ws.deep_view(), at as int) == Ok::<usize, ErrorView>(count),
            Err(e) => ycsb_scnt(ws.deep_view(), at as int) == Err::<usize, ErrorView>(e@),
        },
{
    if at >= ws.len() {
        return Err(RunnerError::Parse(String::from_str("missing scan count")));
    }
    match parse_decimal(ws[at].as_str()) {
        Some(n) => {
            if n > 0 {
                return Ok(n);
            }
        },
        None => {},
    }
    Err(RunnerError::Parse(String::from_str("invalid scan count: ").concat(ws[at].as_str())))
}

/// The last key of a scan over `count` keys from `key_start` on, among
/// keys of which there is at least one.
fn scan_end_key(ikeys: &KeyMap<()>, key_start: &str, count: usize) -> (key_end: String)
    requires
        ikeys.wf(),
        ikeys.keys().len() > 0,
        count > 0,
    ensures
        key_end@ == scan_end(ikeys.keys(), key_start@, count),
{
    let len = ikeys.len();
    let first = ikeys.search(key_start);
    let at = match first.checked_add(count - 1) {
        Some(at) => if at < len {
            at
        } else {
            len - 1
        },
        None => len - 1,
    };
    ikeys.key(at).clone()
}

/// Makes a call of a line of the generator, or `None` where the line is no
/// operation. The key of an `INSERT` is added to `ikeys`.
pub fn interpret_ycsb_call(line: &str, ikeys: &mut KeyMap<()>) -> (r: Result<
    Option<KvCall>,
    RunnerError,
>)
    requires
        old(ikeys).wf(),
    ensures
        final(ikeys).wf(),
        interpreted_view(r) == interpret(line@, old(ikeys).keys()),
        final(ikeys).keys() == keys_after(line@, old(ikeys).keys()),
{
    let ws = split_words(line);
    if ws.len() == 0 {
        return Ok(None);
    }
    let tag = ws[0].as_str();
    if str_eq(tag, "INSERT") {
        let key = match parse_ycsb_key(&ws, 1) {
            Ok(key) => key,
            Err(e) => {
                return Err(e);
            },
        };
        let value = match parse_ycsb_value(&ws, 3) {
            Ok(value) => value,
            Err(e) => {
                return Err(e);
            },
        };
        ikeys.insert(key.clone(), ());
        Ok(Some(KvCall::Put { key, value }))
    } else if str_eq(tag, "UPDATE") {
        let key = match parse_ycsb_key(&ws, 1) {
            Ok(key) => key,
            Err(e) => {
                return Err(e);
            },
        };
        let value = match parse_ycsb_value(&ws, 3) {
            Ok(value) => value,
            Err(e) => {
                return Err(e);
            },
        };
        Ok(Some(KvCall::Swap { key, value }))
    } else if str_eq(tag, "READ") {
        match parse_ycsb_key(&ws, 1) {
            Ok(key) => Ok(Some(KvCall::Get { key })),
            Err(e) => Err(e),
        }
    } else if str_eq(tag, "SCAN") {
        let key_start = match parse_ycsb_key(&ws, 1) {
            Ok(key) => key,
            Err(e) => {
                return Err(e);
            },
        };
        if ikeys.len() == 0 {
            return Ok(Some(KvCall::Scan { key_start, key_end: String::from_str("zzzzzzzz") }));
        }
        let count = match parse_ycsb_scnt(&ws, 3) {
            Ok(count) => count,
            Err(e) => {
                return Err(e);
            },
        };
        let key_end = scan_end_key(ikeys, key_start.as_str(), count);
        Ok(Some(KvCall::Scan { key_start, key_end }))
    } else {
        proof {
            lemma_tags_differ();
        }
        Ok(None)
    }
}

/// Adds the keys of `from` to `into`.
pub fn merge_keys(into: &mut KeyMap<()>, from: &KeyMap<()>)
    requires
        old(into).wf(),
        from.wf(),
    ensures
        final(into).wf(),
        forall|key: Seq<char>|
            #[trigger] final(into).keys().contains(key) <==> old(into).keys().contains(key)
                || from.keys().contains(key),
{
    let ghost keys0 = into.keys();
    let n = from.len();
    let mut i: usize = 0;
    while i < n
        invariant
            i <= n,
            n == from.keys().len(),
            into.wf(),
            from.wf(),
            forall|key: Seq<char>|
                #[trigger] into.keys().contains(key) <==> keys0.contains(key) || from.keys().take(
                    i as int,
                ).contains(key),
        decreases n - i,
    {
        let ghost before = into.keys();
        let key = from.key(i);
        into.insert(key.clone(), ());
        proof {
            let seen = from.keys().take(i as int);
            let next = from.keys().take(i + 1);
            assert forall|k: Seq<char>| next.contains(k) <==> seen.contains(k) || k == key@ by {
                if seen.contains(k) {
                    let p = choose|p: int| 0 <= p < seen.len() && seen[p] == k;
                }
                if k == key@ {
                    assert(next[i as int] == k);
                }
            }
            assert forall|k: Seq<char>| #[trigger]
                into.keys().contains(k) <==> before.contains(k) || k == key@ by {
                match index_of(before, key@) {
                    Some(p) => {},
                    None => {
                        let r = rank(before, key@);
                        lemma_rank_bounds(before, key@);
                        if before.contains(k) {
                            let p = choose|p: int| 0 <= p < before.len() && before[p] == k;
                            if p < r {
                                assert(into.keys()[p] == k);
                            } else {
                                assert(into.keys()[p + 1] == k);
                            }
                        }
                        if k == key@ {
                            assert(into.keys()[r] == k);
                        }
                    },
                }
            }
        }
        i += 1;
    }
    assert(from.keys().take(n as int) == from.keys());
}

/// What a report line of the generator tells.
#[derive(Debug, PartialEq, Eq, Clone, Copy, Structural)]
pub enum PerfKind {
    /// The run time in all, in milliseconds.
    RunTime,
    /// The throughput in all, in operations a second.
    Throughput,
    /// The number of operations of one kind.
    Operations,
    /// The average latency of one kind of operation, in microseconds.
    AverageLatency,
    MinLatency,
    MaxLatency,
    /// The latency that 99 of 100 operations of one kind stay below.
    P99Latency,
}

/// One number of the generator's report: what it tells, the kind of
/// operation that it is about (none for the run as a whole), and the number
/// as the generator wrote it.
#[derive(Debug)]
pub struct PerfRecord {
    pub kind: PerfKind,
    pub op: String,
    pub number: String,
}

/// A `PerfRecord` with its texts as sequences of characters.
pub struct PerfView {
    pub kind: PerfKind,
    pub op: Seq<char>,
    pub number: Seq<char>,
}

impl View for PerfRecord {
    type V = PerfView;

    open spec fn view(&self) -> PerfView {
        PerfView { kind: self.kind, op: self.op@, number: self.number@ }
    }
}

impl DeepView for PerfRecord {
    type V = PerfView;

    open spec fn deep_view(&self) -> PerfView {
        self@
    }
}

/// The kind of operation that the first word of a report line names.
pub open spec fn op_of_header(header: Seq<char>) -> Option<Seq<char>> {
    if header == "[INSERT],"@ {
        Some("INSERT"@)
    } else if header == "[UPDATE],"@ {
        Some("UPDATE"@)
    } else if header == "[READ],"@ {
        Some("READ"@)
    } else if header == "[SCAN],"@ {
        Some("SCAN"@)
    } else {
        None
    }
}

/// What a line about the run as a whole tells, by the name of its number.
pub open spec fn overall_kind(name: Seq<char>) -> Option<PerfKind> {
    if has_infix(name, "RunTime(ms)"@) {
        Some(PerfKind::RunTime)
    } else if has_infix(name, "Throughput"@) {
        Some(PerfKind::Throughput)
    } else {
        None
    }
}

/// What a line about one kind of operation tells, by the name of its
/// number.
pub open spec fn op_kind(name: Seq<char>) -> Option<PerfKind> {
    if has_infix(name, "Operations"@) {
        Some(PerfKind::Operations)
    } else if has_infix(name, "AverageLatency"@) {
        Some(PerfKind::AverageLatency)
    } else if has_infix(name, "MinLatency"@) {
        Some(PerfKind::MinLatency)
    } else if has_infix(name, "MaxLatency"@) {
        Some(PerfKind::MaxLatency)
    } else if has_infix(name, "99thPercentileLatency"@) {
        Some(PerfKind::P99Latency)
    } else {
        None
    }
}

/// What a report line tells and about which kind of operation, if it
/// tells anything that is recorded.
pub open spec fn perf_subject(ws: Seq<Seq<char>>) -> Option<(PerfKind, Seq<char>)> {
    if ws.len() < 2 {
        None
    } else if ws[0] == "[OVERALL],"@ {
        match overall_kind(ws[1]) {
            Some(kind) => Some((kind, Seq::empty())),
            None => None,
        }
    } else {
        match (op_of_header(ws[0]), op_kind(ws[1])) {
            (Some(op), Some(kind)) => Some((kind, op)),
            _ => None,
        }
    }
}

/// The record that a line of the report gives: `Ok(None)` for a line that
/// tells nothing that is recorded, an error for one that lacks its number.
pub open spec fn perf_of(line: Seq<char>) -> Result<Option<PerfView>, ErrorView> {
    let ws = words(line);
    match perf_subject(ws) {
        None => Ok(None),
        Some((kind, op)) => if ws.len() > 2 {
            Ok(Some(PerfView { kind, op, number: ws[2] }))
        } else {
            Err(ErrorView::Parse("missing float number"@))
        },
    }
}

/// The view of what `record_ycsb_perf` returns.
pub open spec fn recorded_view(r: Result<Option<PerfRecord>, RunnerError>) -> Result<
    Option<PerfView>,
    ErrorView,
> {
    match r {
        Ok(record) => Ok(record.deep_view()),
        Err(e) => Err(e@),
    }
}

fn header_op(header: &str) -> (op: Option<&'static str>)
    ensures
        match op {
            Some(name) => op_of_header(header@) == Some(name@),
            None => op_of_header(header@) is None,
        },
{
    if str_eq(header, "[INSERT],") {
        Some("INSERT")
    } else if str_eq(header, "[UPDATE],") {
        Some("UPDATE")
    } else if str_eq(header, "[READ],") {
        Some("READ")
    } else if str_eq(header, "[SCAN],") {
        Some("SCAN")
    } else {
        None
    }
}

fn name_overall_kind(name: &str) -> (kind: Option<PerfKind>)
    ensures
        kind == overall_kind(name@),
{
    if str_contains(name, "RunTime(ms)") {
        Some(PerfKind::RunTime)
    } else if str_contains(name, "Throughput") {
        Some(PerfKind::Throughput)
    } else {
        None
    }
}

fn name_op_kind(name: &str) -> (kind: Option<PerfKind>)
    ensures
        kind == op_kind(name@),
{
    if str_contains(name, "Operations") {
        Some(PerfKind::Operations)
    } else if str_contains(name, "AverageLatency") {
        Some(PerfKind::AverageLatency)
    } else if str_contains(name, "MinLatency") {
        Some(PerfKind::MinLatency)
    } else if str_contains(name, "MaxLatency") {
        Some(PerfKind::MaxLatency)
    } else if str_contains(name, "99thPercentileLatency") {
        Some(PerfKind::P99Latency)
    } else {
        None
    }
}

/// Reads a line of the generator's report. The number is handed on as it
/// stands in the line.
pub fn record_ycsb_perf(line: &str) -> (r: Result<Option<PerfRecord>, RunnerError>)
    ensures
        recorded_view(r) == perf_of(line@),
{
    let ws = split_words(line);
    if ws.len() < 2 {
        return Ok(None);
    }
    let (kind, op) = if str_eq(ws[0].as_str(), "[OVERALL],") {
        match name_overall_kind(ws[1].as_str()) {
            Some(kind) => (kind, String::new()),
            None => {
                return Ok(None);
            },
        }
    } else {
        match (header_op(ws[0].as_str()), name_op_kind(ws[1].as_str())) {
            (Some(op), Some(kind)) => (kind, String::from_str(op)),
            _ => {
                return Ok(None);
            },
        }
    };
    if ws.len() > 2 {
        Ok(Some(PerfRecord { kind, op, number: ws[2].clone() }))
    } else {
        Err(RunnerError::Parse(String::from_str("missing float number")))
    }
}

/// What a line of the generator asks of the feeder.
#[derive(Debug)]
pub enum Feed {
    /// Nothing: the line is blank or means nothing.
    Skip,
    /// The call is to be sent, and its response waited for.
    Call(KvCall),
    /// The number is to be recorded.
    Perf(PerfRecord),
}

/// A `Feed` as plain values.
pub enum FeedView {
    Skip,
    Call(CallView),
    Perf(PerfView),
}

impl View for Feed {
    type V = FeedView;

    open spec fn view(&self) -> FeedView {
        match self {
            Feed::Skip => FeedView::Skip,
            Feed::Call(call) => FeedView::Call(call@),
            Feed::Perf(record) => FeedView::Perf(record@),
        }
    }
}

/// What a line of the generator asks of the feeder: a blank line nothing,
/// an operation its call, a line that begins with `[` its record if it
/// has one; a line that tells of a missing file is an error.
pub open spec fn feed_of(line: Seq<char>, keys: Seq<Seq<char>>) -> Result<FeedView, ErrorView> {
    if is_blank(line) {
        Ok(FeedView::Skip)
    } else {
        match interpret(line, keys) {
            Err(e) => Err(e),
            Ok(Some(call)) => Ok(FeedView::Call(call)),
            Ok(None) => if line.len() > 0 && line[0] == '[' {
                match perf_of(line) {
                    Err(e) => Err(e),
                    Ok(Some(record)) => Ok(FeedView::Perf(record)),
                    Ok(None) => Ok(FeedView::Skip),
                }
            } else if has_infix(line, "No such file"@) {
                Err(ErrorView::Io(line))
            } else {
                Ok(FeedView::Skip)
            },
        }
    }
}

/// The view of what `feed_a_line` returns.
pub open spec fn fed_line_view(r: Result<Feed, RunnerError>) -> Result<FeedView, ErrorView> {
    match r {
        Ok(feed) => Ok(feed@),
        Err(e) => Err(e@),
    }
}

/// Decides what a line of the generator asks of the feeder. The key of an
/// `INSERT` is added to `ikeys`.
pub fn feed_a_line(line: &str, ikeys: &mut KeyMap<()>) -> (r: Result<Feed, RunnerError>)
    requires
        old(ikeys).wf(),
    ensures
        final(ikeys).wf(),
        fed_line_view(r) == feed_of(line@, old(ikeys).keys()),
        final(ikeys).keys() == if is_blank(line@) {
            old(ikeys).keys()
        } else {
            keys_after(line@, old(ikeys).keys())
        },
{
    if line_is_blank(line) {
        return Ok(Feed::Skip);
    }
    match interpret_ycsb_call(line, ikeys) {
        Err(e) => Err(e),
        Ok(Some(call)) => Ok(Feed::Call(call)),
        Ok(None) => {
            let cs = chars_of(line);
            if cs.len() > 0 && cs[0] == '[' {
                match record_ycsb_perf(line) {
                    Err(e) => Err(e),
                    Ok(Some(record)) => Ok(Feed::Perf(record)),
                    Ok(None) => Ok(Feed::Skip),
                }
            } else if str_contains(line, "No such file") {
                Err(RunnerError::Io(String::from_str(line)))
            } else {
                Ok(Feed::Skip)
            }
        },
    }
}

/// No two of the operation names of the generator are the same.
proof fn lemma_tags_differ()
    ensures
        "INSERT"@ != "UPDATE"@ && "INSERT"@ != "READ"@ && "INSERT"@ != "SCAN"@,
        "UPDATE"@ != "READ"@ && "UPDATE"@ != "SCAN"@,
        "READ"@ != "SCAN"@,
{
    reveal_strlit("INSERT");
    reveal_strlit("UPDATE");
    reveal_strlit("READ");
    reveal_strlit("SCAN");
    assert("INSERT"@[0] != "UPDATE"@[0]);
    assert("READ"@[0] != "SCAN"@[0]);
}

} // verus!
