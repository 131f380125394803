//! The history checker: it keeps, for each key and client, the updates that
//! were acknowledged, queues each response until no later update can bear on
//! it, and then decides whether some order of the updates explains it.
//!
//! A client's own updates count as witnesses for its own reads, like those of
//! every other client: the lists of all clients are searched.

use std::collections::VecDeque;
use vstd::prelude::*;
use vstd::std_specs::vecdeque::VecDequeAdditionalSpecFns;
use vstd::string::*;

use crate::ioapi::{KvResp, RespView};
use crate::keymap::{index_of, keys_increase, KeyMap};
use crate::text::{lex_lt, str_eq, str_lt};

verus! {

/// An update to one key by one client: the time of its call, the time of its
/// response, and the value written, `None` for a delete. Every list opens
/// with the span `(0, 0, None)`, which is never taken away: the key is
/// absent at the start.
#[derive(Debug)]
pub struct UpdateSpan {
    pub ts_call: u64,
    pub ts_resp: u64,
    pub value: Option<String>,
}

/// An `UpdateSpan` with its value as a sequence of characters.
pub struct SpanView {
    pub ts_call: u64,
    pub ts_resp: u64,
    pub value: Option<Seq<char>>,
}

impl View for UpdateSpan {
    type V = SpanView;

    open spec fn view(&self) -> SpanView {
        SpanView { ts_call: self.ts_call, ts_resp: self.ts_resp, value: self.value.deep_view() }
    }
}

impl DeepView for UpdateSpan {
    type V = SpanView;

    open spec fn deep_view(&self) -> SpanView {
        self@
    }
}

impl Clone for UpdateSpan {
    fn clone(&self) -> (r: Self)
        ensures
            r@ == self@,
    {
        UpdateSpan { ts_call: self.ts_call, ts_resp: self.ts_resp, value: self.value.clone() }
    }
}

impl PartialEq for UpdateSpan {
    fn eq(&self, other: &Self) -> (r: bool) {
        self.ts_call == other.ts_call && self.ts_resp == other.ts_resp && match (
            &self.value,
            &other.value,
        ) {
            (Some(a), Some(b)) => *a == *b,
            (None, None) => true,
            _ => false,
        }
    }
}

impl vstd::std_specs::cmp::PartialEqSpecImpl for UpdateSpan {
    open spec fn obeys_eq_spec() -> bool {
        true
    }

    open spec fn eq_spec(&self, other: &Self) -> bool {
        self@ == other@
    }
}

/// A response that waits for its check, with the times of call and response.
#[derive(Debug)]
pub struct QueuedSpan {
    pub ts_call: u64,
    pub ts_resp: u64,
    pub resp: KvResp,
}

/// A `QueuedSpan` with the view of its response.
pub struct QueuedView {
    pub ts_call: u64,
    pub ts_resp: u64,
    pub resp: RespView,
}

impl View for QueuedSpan {
    type V = QueuedView;

    open spec fn view(&self) -> QueuedView {
        QueuedView { ts_call: self.ts_call, ts_resp: self.ts_resp, resp: self.resp@ }
    }
}

impl DeepView for QueuedSpan {
    type V = QueuedView;

    open spec fn deep_view(&self) -> QueuedView {
        self@
    }
}

/// What a check of a history can come to.
#[derive(Debug)]
pub enum Verdict {
    /// Nothing wrong so far.
    Pass,
    /// The update is to a key that no client's pool holds.
    UnexpectedKey,
    /// No order of the updates explains this response.
    Violation(KvResp),
}

/// A `Verdict` with the view of its response.
pub enum VerdictView {
    Pass,
    UnexpectedKey,
    Violation(RespView),
}

impl View for Verdict {
    type V = VerdictView;

    open spec fn view(&self) -> VerdictView {
        match self {
            Verdict::Pass => VerdictView::Pass,
            Verdict::UnexpectedKey => VerdictView::UnexpectedKey,
            Verdict::Violation(resp) => VerdictView::Violation(resp@),
        }
    }
}

impl PartialEq for Verdict {
    fn eq(&self, other: &Self) -> (r: bool) {
        match (self, other) {
            (Verdict::Pass, Verdict::Pass) => true,
            (Verdict::UnexpectedKey, Verdict::UnexpectedKey) => true,
            (Verdict::Violation(a), Verdict::Violation(b)) => *a == *b,
            _ => false,
        }
    }
}

impl vstd::std_specs::cmp::PartialEqSpecImpl for Verdict {
    open spec fn obeys_eq_spec() -> bool {
        true
    }

    open spec fn eq_spec(&self, other: &Self) -> bool {
        self@ == other@
    }
}

/// A history as plain values: the queue of responses to check, the keys in
/// order, for each key and each client the list of its update spans from the
/// oldest on, and for each client the time of its latest acknowledged update.
pub struct HistoryView {
    pub queue: Seq<QueuedView>,
    pub keys: Seq<Seq<char>>,
    pub spans: Seq<Seq<Seq<SpanView>>>,
    pub maxtr: Seq<u64>,
}

/// The span that opens every list: the key is absent at time 0.
pub open spec fn sentinel() -> SpanView {
    SpanView { ts_call: 0, ts_resp: 0, value: None }
}

/// A valid list of spans: not empty, no span ends before it starts, and each
/// span ends before the later ones start.
pub open spec fn spans_in_order(l: Seq<SpanView>) -> bool {
    &&& l.len() > 0
    &&& forall|i: int| 0 <= i < l.len() ==> (#[trigger] l[i]).ts_call <= l[i].ts_resp
    &&& forall|i: int, j: int|
        0 <= i < j < l.len() ==> (#[trigger] l[i]).ts_resp < (#[trigger] l[j]).ts_call
}

/// A valid queue: each response comes after its call, and each entry's
/// response before those of the later entries.
pub open spec fn queue_in_order(q: Seq<QueuedView>) -> bool {
    &&& forall|i: int| 0 <= i < q.len() ==> (#[trigger] q[i]).ts_call < q[i].ts_resp
    &&& forall|i: int, j: int|
        0 <= i < j < q.len() ==> (#[trigger] q[i]).ts_resp < (#[trigger] q[j]).ts_resp
}

/// A valid history: the keys are in order, every key has a list for every
/// client, every list is valid and begins with the opening span, and the
/// queue is valid.
pub open spec fn history_wf(h: HistoryView) -> bool {
    &&& keys_increase(h.keys)
    &&& h.spans.len() == h.keys.len()
    &&& forall|k: int| 0 <= k < h.spans.len() ==> (#[trigger] h.spans[k]).len() == h.maxtr.len()
    &&& forall|k: int, c: int|
        0 <= k < h.spans.len() && 0 <= c < h.spans[k].len() ==> spans_in_order(
            #[trigger] h.spans[k][c],
        )
    &&& forall|k: int, c: int|
        0 <= k < h.spans.len() && 0 <= c < h.spans[k].len() ==> (#[trigger] h.spans[k][c])[0]
            == sentinel()
    &&& queue_in_order(h.queue)
}

/// What a response claims of a key: that it was present or absent, or the
/// value that it held.
pub enum Expect {
    Presence(bool),
    Value(Option<Seq<char>>),
}

/// Whether a span's value is what the response claims.
pub open spec fn meets(value: Option<Seq<char>>, expect: Expect) -> bool {
    match expect {
        Expect::Presence(found) => value.is_some() == found,
        Expect::Value(v) => value == v,
    }
}

/// Span `i` of `l` explains a response with the times `ts_call` and
/// `ts_resp`: it began before the response, it holds what the response
/// claims, and no later span of the list ended before the call.
pub open spec fn is_witness(l: Seq<SpanView>, i: int, ts_call: u64, ts_resp: u64, expect: Expect) -> bool {
    &&& 0 <= i < l.len()
    &&& l[i].ts_call < ts_resp
    &&& meets(l[i].value, expect)
    &&& forall|j: int| i < j < l.len() ==> (#[trigger] l[j]).ts_resp >= ts_call
}

/// Some span of the list explains the response.
pub open spec fn list_witness(l: Seq<SpanView>, ts_call: u64, ts_resp: u64, expect: Expect) -> bool {
    exists|i: int| is_witness(l, i, ts_call, ts_resp, expect)
}

/// Some span of some client's list explains the response.
pub open spec fn key_witness(
    lists: Seq<Seq<SpanView>>,
    ts_call: u64,
    ts_resp: u64,
    expect: Expect,
) -> bool {
    exists|c: int| 0 <= c < lists.len() && list_witness(#[trigger] lists[c], ts_call, ts_resp, expect)
}

/// `key` lies between `key_start` and `key_end`, both included.
pub open spec fn in_range(key: Seq<char>, key_start: Seq<char>, key_end: Seq<char>) -> bool {
    !lex_lt(key, key_start) && !lex_lt(key_end, key)
}

/// The value that a scan returned for `key`, if it returned the key.
pub open spec fn scan_lookup(entries: Seq<(Seq<char>, Seq<char>)>, key: Seq<char>) -> Option<Seq<char>> {
    if exists|i: int| 0 <= i < entries.len() && entries[i].0 == key {
        Some(entries[choose|i: int| 0 <= i < entries.len() && entries[i].0 == key].1)
    } else {
        None
    }
}

/// The entries of a scan stand on their own: each key lies in the range
/// asked for, and none comes twice.
pub open spec fn scan_well_formed(
    entries: Seq<(Seq<char>, Seq<char>)>,
    key_start: Seq<char>,
    key_end: Seq<char>,
) -> bool {
    &&& forall|i: int| 0 <= i < entries.len() ==> in_range((#[trigger] entries[i]).0, key_start, key_end)
    &&& forall|i: int, j: int|
        0 <= i < j < entries.len() ==> (#[trigger] entries[i]).0 != (#[trigger] entries[j]).0
}

/// A scan is explained: its entries stand on their own, and for every known
/// key in the range, what the scan returned for it (nothing, where the key is
/// missing) is explained as a read of that key would be.
pub open spec fn scan_accepted(
    keys: Seq<Seq<char>>,
    spans: Seq<Seq<Seq<SpanView>>>,
    ts_call: u64,
    ts_resp: u64,
    key_start: Seq<char>,
    key_end: Seq<char>,
    entries: Seq<(Seq<char>, Seq<char>)>,
) -> bool {
    &&& scan_well_formed(entries, key_start, key_end)
    &&& forall|k: int|
        0 <= k < keys.len() && in_range(#[trigger] keys[k], key_start, key_end) ==> key_witness(
            spans[k],
            ts_call,
            ts_resp,
            Expect::Value(scan_lookup(entries, keys[k])),
        )
}

/// A response on one key is explained: the key is known and some span of
/// it is a witness.
pub open spec fn key_accepted(
    keys: Seq<Seq<char>>,
    spans: Seq<Seq<Seq<SpanView>>>,
    key: Seq<char>,
    ts_call: u64,
    ts_resp: u64,
    expect: Expect,
) -> bool {
    match index_of(keys, key) {
        Some(k) => key_witness(spans[k], ts_call, ts_resp, expect),
        None => false,
    }
}

/// Whether the spans explain a queued response. A `Stop` is never explained.
pub open spec fn accepts(keys: Seq<Seq<char>>, spans: Seq<Seq<Seq<SpanView>>>, e: QueuedView) -> bool {
    match e.resp {
        RespView::Put { key, found } => key_accepted(
            keys,
            spans,
            key,
            e.ts_call,
            e.ts_resp,
            Expect::Presence(found),
        ),
        RespView::Swap { key, old_value } => key_accepted(
            keys,
            spans,
            key,
            e.ts_call,
            e.ts_resp,
            Expect::Value(old_value),
        ),
        RespView::Get { key, value } => key_accepted(
            keys,
            spans,
            key,
            e.ts_call,
            e.ts_resp,
            Expect::Value(value),
        ),
        RespView::Scan { key_start, key_end, entries } => scan_accepted(
            keys,
            spans,
            e.ts_call,
            e.ts_resp,
            key_start,
            key_end,
            entries,
        ),
        RespView::Delete { key, found } => key_accepted(
            keys,
            spans,
            key,
            e.ts_call,
            e.ts_resp,
            Expect::Presence(found),
        ),
        RespView::Stop => false,
    }
}

/// What a check looks for in a span, as the checks hold it.
enum Want<'a> {
    Presence(bool),
    Value(Option<&'a String>),
}

impl<'a> View for Want<'a> {
    type V = Expect;

    closed spec fn view(&self) -> Expect {
        match self {
            Want::Presence(found) => Expect::Presence(*found),
            Want::Value(v) => Expect::Value(
                match v {
                    Some(s) => Some(s@),
                    None => None,
                },
            ),
        }
    }
}

fn span_meets(span: &UpdateSpan, want: &Want<'_>) -> (r: bool)
    ensures
        r == meets(span@.value, want@),
{
    match want {
        Want::Presence(found) => span.value.is_some() == *found,
        Want::Value(v) => match (&span.value, v) {
            (Some(a), Some(b)) => str_eq(a.as_str(), b.as_str()),
            (None, None) => true,
            _ => false,
        },
    }
}

/// Walks one client's list from the newest span to the oldest, up to the
/// first span that ended before the call.
fn list_has_witness(l: &VecDeque<UpdateSpan>, ts_call: u64, ts_resp: u64, want: &Want<'_>) -> (r:
    bool)
    ensures
        r == list_witness(l.deep_view(), ts_call, ts_resp, want@),
{
    let ghost lv = l.deep_view();
    let mut i: usize = l.len();
    while i > 0
        invariant
            i <= l.len(),
            lv == l.deep_view(),
            forall|j: int| i <= j < lv.len() ==> (#[trigger] lv[j]).ts_resp >= ts_call,
            forall|j: int| i <= j < lv.len() ==> !is_witness(lv, j, ts_call, ts_resp, want@),
        decreases i,
    {
        i -= 1;
        let span = &l[i];
        if span.ts_call < ts_resp && span_meets(span, want) {
            assert(is_witness(lv, i as int, ts_call, ts_resp, want@));
            return true;
        }
        if span.ts_resp < ts_call {
            assert forall|j: int| !is_witness(lv, j, ts_call, ts_resp, want@) by {}
            return false;
        }
    }
    false
}

fn key_has_witness(
    key_spans: &Vec<VecDeque<UpdateSpan>>,
    ts_call: u64,
    ts_resp: u64,
    want: &Want<'_>,
) -> (r: bool)
    ensures
        r == key_witness(key_spans.deep_view(), ts_call, ts_resp, want@),
{
    let ghost lists = key_spans.deep_view();
    let mut c: usize = 0;
    while c < key_spans.len()
        invariant
            c <= key_spans.len(),
            lists == key_spans.deep_view(),
            forall|d: int| 0 <= d < c ==> !list_witness(#[trigger] lists[d], ts_call, ts_resp, want@),
        decreases key_spans.len() - c,
    {
        assert(key_spans[c as int].deep_view() == lists[c as int]);
        if list_has_witness(&key_spans[c], ts_call, ts_resp, want) {
            return true;
        }
        c += 1;
    }
    false
}

/// The keys of all the pools hold `key`.
pub open spec fn pool_has(pools: Seq<Seq<Seq<char>>>, key: Seq<char>) -> bool {
    exists|c: int, i: int|
        0 <= c < pools.len() && 0 <= i < pools[c].len() && #[trigger] pools[c][i] == key
}

/// For each of `num_clis` clients the list that holds the opening span only.
pub open spec fn fresh_lists(num_clis: nat) -> Seq<Seq<SpanView>> {
    Seq::new(num_clis, |c: int| seq![sentinel()])
}

/// The span lists of all keys as plain values.
pub open spec fn lists_view(values: Seq<Vec<VecDeque<UpdateSpan>>>) -> Seq<Seq<Seq<SpanView>>> {
    Seq::new(values.len(), |k: int| values[k].deep_view())
}

/// The least of `s`, or the greatest number where `s` is empty.
pub open spec fn min_of(s: Seq<u64>) -> u64
    decreases s.len(),
{
    if s.len() == 0 {
        u64::MAX
    } else {
        let m = min_of(s.drop_last());
        if s.last() < m {
            s.last()
        } else {
            m
        }
    }
}

/// The earliest call among the queued responses, or the greatest number
/// where none is queued.
pub open spec fn min_queued(q: Seq<QueuedView>) -> u64
    decreases q.len(),
{
    if q.len() == 0 {
        u64::MAX
    } else {
        let m = min_queued(q.drop_last());
        if q.last().ts_call < m {
            q.last().ts_call
        } else {
            m
        }
    }
}

/// The time before which nothing is still to come: no client will call
/// again before the response of its latest update, and no queued response
/// was called before the earliest queued call.
pub open spec fn trim_bound(h: HistoryView) -> u64 {
    let coming = min_of(h.maxtr);
    let queued = min_queued(h.queue);
    if coming < queued {
        coming
    } else {
        queued
    }
}

/// The call time of the newest span of `l` that ended before `bound`, or 0
/// where there is none.
pub open spec fn keep_ts(l: Seq<SpanView>, bound: u64) -> u64
    decreases l.len(),
{
    if l.len() == 0 {
        0
    } else if l.last().ts_resp < bound {
        l.last().ts_call
    } else {
        keep_ts(l.drop_last(), bound)
    }
}

/// `l` without the spans behind its first that ended before `keep`, one
/// after the other from the second span on. The first span, which opens the
/// list, always stays.
pub open spec fn trim_list(l: Seq<SpanView>, keep: u64) -> Seq<SpanView>
    decreases l.len(),
{
    if l.len() > 1 && l[1].ts_resp < keep {
        trim_list(l.remove(1), keep)
    } else {
        l
    }
}

/// Each client's list of one key, trimmed.
pub open spec fn trim_lists(lists: Seq<Seq<SpanView>>, bound: u64) -> Seq<Seq<SpanView>> {
    Seq::new(lists.len(), |c: int| trim_list(lists[c], keep_ts(lists[c], bound)))
}

/// Each client's list of each key, trimmed.
pub open spec fn trim_spans(spans: Seq<Seq<Seq<SpanView>>>, bound: u64) -> Seq<Seq<Seq<SpanView>>> {
    Seq::new(spans.len(), |k: int| trim_lists(spans[k], bound))
}

/// The history with `span` added to the list of client `cidx` for the key at
/// place `k`, and the client's latest response set to that of the span.
pub open spec fn push_span(h: HistoryView, k: int, cidx: int, span: SpanView) -> HistoryView {
    HistoryView {
        spans: h.spans.update(k, h.spans[k].update(cidx, h.spans[k][cidx].push(span))),
        maxtr: h.maxtr.update(cidx, span.ts_resp),
        ..h
    }
}

/// The history with every list trimmed.
pub open spec fn trim_history(h: HistoryView) -> HistoryView {
    HistoryView { spans: trim_spans(h.spans, trim_bound(h)), ..h }
}

/// Checks the queued responses from the head on, as long as they were
/// acknowledged before `limit`. Returns the queue that is left and the first
/// response that the spans do not explain, which leaves the queue too.
pub open spec fn drain_queue(
    keys: Seq<Seq<char>>,
    spans: Seq<Seq<Seq<SpanView>>>,
    queue: Seq<QueuedView>,
    limit: u64,
) -> (Seq<QueuedView>, Option<RespView>)
    decreases queue.len(),
{
    if queue.len() > 0 && queue[0].ts_resp < limit {
        if accepts(keys, spans, queue[0]) {
            drain_queue(keys, spans, queue.drop_first(), limit)
        } else {
            (queue.drop_first(), Some(queue[0].resp))
        }
    } else {
        (queue, None)
    }
}

/// What an update does to a history, and the verdict. An update to an
/// unknown key changes nothing. Any other is added to its list; then every
/// list is trimmed behind its opening span, and the responses that no later
/// update can bear on any more are checked.
pub open spec fn apply_update_spec(h: HistoryView, cidx: int, key: Seq<char>, span: SpanView) -> (
    HistoryView,
    VerdictView,
) {
    match index_of(h.keys, key) {
        None => (h, VerdictView::UnexpectedKey),
        Some(k) => {
            let t = trim_history(push_span(h, k, cidx, span));
            let (queue, failed) = drain_queue(t.keys, t.spans, t.queue, min_of(t.maxtr));
            (
                HistoryView { queue, ..t },
                match failed {
                    Some(resp) => VerdictView::Violation(resp),
                    None => VerdictView::Pass,
                },
            )
        },
    }
}

/// How many spans `trim_list` takes from `l`.
pub open spec fn trim_count(l: Seq<SpanView>, keep: u64) -> nat
    decreases l.len(),
{
    if l.len() > 1 && l[1].ts_resp < keep {
        1 + trim_count(l.remove(1), keep)
    } else {
        0
    }
}

/// Trimming keeps the first span, takes the spans right behind it, each of
/// which ended before `keep`, and leaves the rest as it was.
pub proof fn lemma_trim_list(l: Seq<SpanView>, keep: u64)
    requires
        l.len() > 0,
    ensures
        trim_count(l, keep) < l.len(),
        trim_list(l, keep) == seq![l[0]] + l.skip(1 + trim_count(l, keep) as int),
        trim_list(l, keep)[0] == l[0],
        forall|j: int| 1 <= j <= trim_count(l, keep) ==> (#[trigger] l[j]).ts_resp < keep,
    decreases l.len(),
{
    if l.len() > 1 && l[1].ts_resp < keep {
        let rest = l.remove(1);
        lemma_trim_list(rest, keep);
        let n = trim_count(rest, keep) as int;
        assert(rest[0] == l[0]);
        assert(rest.skip(1 + n) =~= l.skip(2 + n));
        assert forall|j: int| 1 <= j <= n + 1 implies (#[trigger] l[j]).ts_resp < keep by {
            if j > 1 {
                assert(rest[j - 1] == l[j]);
            }
        }
    } else {
        assert(seq![l[0]] + l.skip(1) =~= l);
    }
}

/// The time that `keep_ts` gives is 0, or the call time of a span of the
/// list that ended before `bound`.
pub proof fn lemma_keep_ts(l: Seq<SpanView>, bound: u64)
    ensures
        keep_ts(l, bound) == 0 || exists|i: int|
            0 <= i < l.len() && (#[trigger] l[i]).ts_call == keep_ts(l, bound) && l[i].ts_resp < bound,
    decreases l.len(),
{
    if l.len() > 0 {
        if l.last().ts_resp >= bound {
            lemma_keep_ts(l.drop_last(), bound);
        }
    }
}

/// A trimmed list is valid where the list was.
pub proof fn lemma_trim_keeps_order(l: Seq<SpanView>, keep: u64)
    requires
        spans_in_order(l),
    ensures
        spans_in_order(trim_list(l, keep)),
{
    lemma_trim_list(l, keep);
    let n = trim_count(l, keep) as int;
    let t = trim_list(l, keep);
    assert forall|i: int| 0 <= i < t.len() implies t[i] == l[if i == 0 {
        0
    } else {
        i + n
    }] by {}
    assert forall|i: int| 0 <= i < t.len() implies (#[trigger] t[i]).ts_call <= t[i].ts_resp by {
        assert(t[i] == l[if i == 0 {
            0
        } else {
            i + n
        }]);
    }
    assert forall|i: int, j: int| 0 <= i < j < t.len() implies (#[trigger] t[i]).ts_resp < (
    #[trigger] t[j]).ts_call by {
        assert(t[i] == l[if i == 0 {
            0
        } else {
            i + n
        }]);
        assert(t[j] == l[j + n]);
    }
}

/// Trimming a valid list for a bound takes no span that ended at the
/// bound or later, and never the last span of the list: the span whose call
/// time is kept stays, and every span that is taken ended before it began.
pub proof fn lemma_trim_keeps_last(l: Seq<SpanView>, bound: u64)
    requires
        spans_in_order(l),
    ensures
        trim_list(l, keep_ts(l, bound)).last() == l.last(),
        trim_count(l, keep_ts(l, bound)) == 0 || trim_count(l, keep_ts(l, bound)) + 1 < l.len(),
        forall|j: int|
            1 <= j <= trim_count(l, keep_ts(l, bound)) ==> (#[trigger] l[j]).ts_resp < bound,
        trim_count(l, keep_ts(l, bound)) > 0 ==> exists|s: int|
            trim_count(l, keep_ts(l, bound)) < s < l.len() && (#[trigger] l[s]).ts_call == keep_ts(
                l,
                bound,
            ) && l[s].ts_resp < bound,
{
    let keep = keep_ts(l, bound);
    let n = trim_count(l, keep) as int;
    lemma_trim_list(l, keep);
    lemma_keep_ts(l, bound);
    if n > 0 {
        assert(l[1].ts_resp < keep);
        let s = choose|i: int|
            0 <= i < l.len() && (#[trigger] l[i]).ts_call == keep && l[i].ts_resp < bound;
        assert(l[s].ts_call <= l[s].ts_resp);
        assert(s > n) by {
            if s <= n {
                if s == 0 {
                    assert(l[0].ts_resp < l[1].ts_call);
                    assert(l[1].ts_call <= l[1].ts_resp);
                } else {
                    assert(l[s].ts_resp < keep);
                }
            }
        }
        assert forall|j: int| 1 <= j <= n implies (#[trigger] l[j]).ts_resp < bound by {
            assert(l[j].ts_resp < keep);
        }
        assert(l.skip(1 + n).last() == l.last());
    }
}

/// What draining leaves of a valid queue is valid.
pub proof fn lemma_drain_keeps_order(
    keys: Seq<Seq<char>>,
    spans: Seq<Seq<Seq<SpanView>>>,
    queue: Seq<QueuedView>,
    limit: u64,
)
    requires
        queue_in_order(queue),
    ensures
        queue_in_order(drain_queue(keys, spans, queue, limit).0),
    decreases queue.len(),
{
    if queue.len() > 0 && queue[0].ts_resp < limit {
        let rest = queue.drop_first();
        lemma_drop_first_keeps_order(queue);
        if accepts(keys, spans, queue[0]) {
            lemma_drain_keeps_order(keys, spans, rest, limit);
        }
    }
}

fn min_u64(v: &Vec<u64>) -> (m: u64)
    ensures
        m == min_of(v@),
{
    let mut m: u64 = u64::MAX;
    let mut i: usize = 0;
    while i < v.len()
        invariant
            i <= v.len(),
            m == min_of(v@.take(i as int)),
        decreases v.len() - i,
    {
        assert(v@.take(i + 1).drop_last() == v@.take(i as int));
        if v[i] < m {
            m = v[i];
        }
        i += 1;
    }
    assert(v@.take(i as int) == v@);
    m
}

fn min_queued_call(q: &VecDeque<QueuedSpan>) -> (m: u64)
    ensures
        m == min_queued(q.deep_view()),
{
    let ghost qv = q.deep_view();
    let mut m: u64 = u64::MAX;
    let mut i: usize = 0;
    while i < q.len()
        invariant
            i <= q.len(),
            qv == q.deep_view(),
            m == min_queued(qv.take(i as int)),
        decreases q.len() - i,
    {
        assert(qv.take(i + 1).drop_last() == qv.take(i as int));
        if q[i].ts_call < m {
            m = q[i].ts_call;
        }
        i += 1;
    }
    assert(qv.take(i as int) == qv);
    m
}

fn trim_client(l: &mut VecDeque<UpdateSpan>, bound: u64)
    ensures
        final(l).deep_view() == trim_list(old(l).deep_view(), keep_ts(old(l).deep_view(), bound)),
{
    let ghost lv = l.deep_view();
    let mut keep: u64 = 0;
    let mut found = false;
    let mut i: usize = l.len();
    assert(lv.take(i as int) == lv);
    while i > 0 && !found
        invariant
            i <= l.len(),
            lv == l.deep_view(),
            found ==> keep == keep_ts(lv, bound),
            !found ==> keep == 0 && keep_ts(lv, bound) == keep_ts(lv.take(i as int), bound),
        decreases i,
    {
        assert(lv.take(i as int).drop_last() == lv.take(i - 1));
        i -= 1;
        if l[i].ts_resp < bound {
            keep = l[i].ts_call;
            found = true;
        }
    }
    while l.len() > 1 && l[1].ts_resp < keep
        invariant
            trim_list(lv, keep) == trim_list(l.deep_view(), keep),
        decreases l.len(),
    {
        let ghost cur = l.deep_view();
        l.remove(1);
        assert(l.deep_view() =~= cur.remove(1));
    }
}

fn trim_key(lists: &mut Vec<VecDeque<UpdateSpan>>, bound: u64)
    ensures
        final(lists).deep_view() == trim_lists(old(lists).deep_view(), bound),
{
    let ghost before = lists.deep_view();
    let mut c: usize = 0;
    while c < lists.len()
        invariant
            c <= lists.len(),
            lists.len() == before.len(),
            forall|d: int| 0 <= d < c ==> (#[trigger] lists.deep_view()[d]) == trim_list(before[d], keep_ts(before[d], bound)),
            forall|d: int| c <= d < lists.len() ==> (#[trigger] lists.deep_view()[d]) == before[d],
        decreases lists.len() - c,
    {
        let ghost cur = lists.deep_view();
        assert(lists[c as int].deep_view() == cur[c as int]);
        trim_client(&mut lists[c], bound);
        assert(lists.deep_view() =~= cur.update(c as int, trim_list(before[c as int], keep_ts(before[c as int], bound))));
        c += 1;
    }
}

fn trim_all(spans: &mut KeyMap<Vec<VecDeque<UpdateSpan>>>, bound: u64)
    ensures
        final(spans).keys() == old(spans).keys(),
        lists_view(final(spans).values()) == trim_spans(lists_view(old(spans).values()), bound),
{
    let ghost before = lists_view(spans.values());
    let ghost keys = spans.keys();
    let n = spans.len();
    let mut k: usize = 0;
    while k < n
        invariant
            k <= n,
            n == spans.keys().len(),
            spans.keys() == keys,
            spans.values().len() == before.len(),
            spans.keys().len() == spans.values().len(),
            forall|q: int| 0 <= q < k ==> (#[trigger] lists_view(spans.values())[q]) == trim_lists(before[q], bound),
            forall|q: int| k <= q < before.len() ==> (#[trigger] lists_view(spans.values())[q]) == before[q],
        decreases n - k,
    {
        let ghost cur = lists_view(spans.values());
        let ghost cur_values = spans.values();
        assert(cur[k as int] == cur_values[k as int].deep_view());
        trim_key(spans.value_mut(k), bound);
        proof {
            assert(lists_view(spans.values()) =~= cur.update(k as int, trim_lists(before[k as int], bound))) by {
                assert forall|q: int| 0 <= q < cur.len() implies #[trigger] lists_view(spans.values())[q] == cur.update(k as int, trim_lists(before[k as int], bound))[q] by {}
            }
        }
        k += 1;
    }
}

/// The checker's state: the responses that wait for their check, and for
/// each key and client the update spans that a later check may need.
pub struct History {
    queue: VecDeque<QueuedSpan>,
    spans: KeyMap<Vec<VecDeque<UpdateSpan>>>,
    maxtr: Vec<u64>,
}

impl View for History {
    type V = HistoryView;

    closed spec fn view(&self) -> HistoryView {
        HistoryView {
            queue: self.queue.deep_view(),
            keys: self.spans.keys(),
            spans: lists_view(self.spans.values()),
            maxtr: self.maxtr@,
        }
    }
}

fn new_lists(num_clis: usize) -> (lists: Vec<VecDeque<UpdateSpan>>)
    ensures
        lists.deep_view() == fresh_lists(num_clis as nat),
{
    let mut lists: Vec<VecDeque<UpdateSpan>> = Vec::new();
    let mut c: usize = 0;
    while c < num_clis
        invariant
            c <= num_clis,
            lists.deep_view() == fresh_lists(c as nat),
        decreases num_clis - c,
    {
        let mut l: VecDeque<UpdateSpan> = VecDeque::new();
        l.push_back(UpdateSpan { ts_call: 0, ts_resp: 0, value: None });
        assert(l.deep_view() =~= seq![sentinel()]);
        let ghost before = lists.deep_view();
        lists.push(l);
        assert(lists.deep_view() =~= before.push(seq![sentinel()]));
        c += 1;
    }
    lists
}

impl History {
    /// The history is valid.
    pub open spec fn wf(&self) -> bool {
        history_wf(self@)
    }

    /// A history of `num_clis` clients over the keys of `keys`, where
    /// nothing has happened yet: each key of any pool is known once, and
    /// holds for each client the opening span only.
    pub fn new(num_clis: usize, keys: &Vec<Vec<String>>) -> (h: History)
        ensures
            h.wf(),
            h@.queue == Seq::<QueuedView>::empty(),
            h@.maxtr == Seq::new(num_clis as nat, |c: int| 0u64),
            forall|key: Seq<char>| h@.keys.contains(key) <==> pool_has(keys.deep_view(), key),
            forall|k: int| 0 <= k < h@.spans.len() ==> #[trigger] h@.spans[k] == fresh_lists(num_clis as nat),
    {
        let ghost pools = keys.deep_view();
        let mut spans: KeyMap<Vec<VecDeque<UpdateSpan>>> = KeyMap::new();
        let mut c: usize = 0;
        while c < keys.len()
            invariant
                c <= keys.len(),
                pools == keys.deep_view(),
                spans.wf(),
                forall|key: Seq<char>| #[trigger]
                    spans.keys().contains(key) <==> pool_has(pools.take(c as int), key),
                forall|k: int| 0 <= k < spans.values().len() ==> (#[trigger] spans.values()[k]).deep_view() == fresh_lists(num_clis as nat),
            decreases keys.len() - c,
        {
            let cli_keys = &keys[c];
            let mut i: usize = 0;
            while i < cli_keys.len()
                invariant
                    i <= cli_keys.len(),
                    c < keys.len(),
                    pools == keys.deep_view(),
                    cli_keys.deep_view() == pools[c as int],
                    spans.wf(),
                    forall|key: Seq<char>| #[trigger]
                        spans.keys().contains(key) <==> (pool_has(pools.take(c as int), key)
                            || cli_keys.deep_view().take(i as int).contains(key)),
                    forall|k: int| 0 <= k < spans.values().len() ==> (#[trigger] spans.values()[k]).deep_view() == fresh_lists(num_clis as nat),
                decreases cli_keys.len() - i,
            {
                let key = &cli_keys[i];
                let ghost old_keys = spans.keys();
                proof {
                    assert(cli_keys.deep_view().take(i + 1) == cli_keys.deep_view().take(i as int).push(key@));
                }
                if spans.find(key.as_str()).is_none() {
                    let lists = new_lists(num_clis);
                    spans.insert(key.clone(), lists);
                    proof {
                        let r = crate::keymap::rank(old_keys, key@);
                        crate::keymap::lemma_rank_bounds(old_keys, key@);
                        assert forall|x: Seq<char>| #[trigger]
                            spans.keys().contains(x) <==> (old_keys.contains(x) || x == key@) by {
                            if old_keys.contains(x) {
                                let j = choose|j: int| 0 <= j < old_keys.len() && old_keys[j] == x;
                                if j < r {
                                    assert(spans.keys()[j] == x);
                                } else {
                                    assert(spans.keys()[j + 1] == x);
                                }
                            }
                            if x == key@ {
                                assert(spans.keys()[r] == x);
                            }
                        }
                        assert forall|k: int| 0 <= k < spans.values().len() implies (#[trigger] spans.values()[k]).deep_view() == fresh_lists(num_clis as nat) by {}
                    }
                }
                proof {
                    let seen = cli_keys.deep_view().take(i as int);
                    assert forall|x: Seq<char>| seen.push(key@).contains(x) <==> (seen.contains(x) || x == key@) by {
                        if x == key@ {
                            assert(seen.push(key@)[seen.len() as int] == x);
                        }
                    }
                }
                i += 1;
            }
            proof {
                assert(cli_keys.deep_view().take(i as int) == pools[c as int]);
                lemma_pool_has_push(pools, c as int);
            }
            c += 1;
        }
        assert(pools.take(c as int) == pools);
        let mut maxtr: Vec<u64> = Vec::new();
        let mut n: usize = 0;
        while n < num_clis
            invariant
                n <= num_clis,
                maxtr@ == Seq::new(n as nat, |c: int| 0u64),
            decreases num_clis - n,
        {
            maxtr.push(0);
            n += 1;
        }
        let h = History { queue: VecDeque::new(), spans, maxtr };
        assert forall|k: int, c: int| 0 <= k < h@.spans.len() && 0 <= c < h@.spans[k].len() implies spans_in_order(#[trigger] h@.spans[k][c]) by {}
        h
    }

    /// Queues a response that was acknowledged at `ts_resp`, for a call made
    /// at `ts_call`, until it can be checked.
    pub fn add_to_queue(&mut self, ts_call: u64, ts_resp: u64, resp: KvResp)
        requires
            old(self).wf(),
            ts_call < ts_resp,
            old(self)@.queue.len() > 0 ==> old(self)@.queue.last().ts_resp < ts_resp,
        ensures
            final(self).wf(),
            final(self)@ == (HistoryView {
                queue: old(self)@.queue.push(QueuedView { ts_call, ts_resp, resp: resp@ }),
                ..old(self)@
            }),
    {
        let ghost before = self@;
        let ghost entry = QueuedView { ts_call, ts_resp, resp: resp@ };
        self.queue.push_back(QueuedSpan { ts_call, ts_resp, resp });
        proof {
            assert(self.queue.deep_view() =~= before.queue.push(entry));
        }
    }

    /// The number of responses that wait for their check.
    pub fn queue_len(&self) -> (n: usize)
        ensures
            n == self@.queue.len(),
    {
        self.queue.len()
    }

    /// Whether the spans of a key explain a `Put` that found the key
    /// present (`found`) or absent.
    pub fn check_put(key_spans: &Vec<VecDeque<UpdateSpan>>, ts_call: u64, ts_resp: u64, found: bool) -> (ok: bool)
        ensures
            ok == key_witness(key_spans.deep_view(), ts_call, ts_resp, Expect::Presence(found)),
    {
        key_has_witness(key_spans, ts_call, ts_resp, &Want::Presence(found))
    }

    /// Whether the spans of a key explain a `Swap` that returned `old_value`.
    pub fn check_swap(
        key_spans: &Vec<VecDeque<UpdateSpan>>,
        ts_call: u64,
        ts_resp: u64,
        old_value: Option<&String>,
    ) -> (ok: bool)
        ensures
            ok == key_witness(
                key_spans.deep_view(),
                ts_call,
                ts_resp,
                Expect::Value(old_value.deep_view()),
            ),
    {
        key_has_witness(key_spans, ts_call, ts_resp, &Want::Value(old_value))
    }

    /// Whether the spans of a key explain a `Get` that returned `value`.
    pub fn check_get(
        key_spans: &Vec<VecDeque<UpdateSpan>>,
        ts_call: u64,
        ts_resp: u64,
        value: Option<&String>,
    ) -> (ok: bool)
        ensures
            ok == key_witness(key_spans.deep_view(), ts_call, ts_resp, Expect::Value(value.deep_view())),
    {
        key_has_witness(key_spans, ts_call, ts_resp, &Want::Value(value))
    }

    /// Whether the spans of a key explain a `Delete` that found the key
    /// present (`found`) or absent.
    pub fn check_delete(
        key_spans: &Vec<VecDeque<UpdateSpan>>,
        ts_call: u64,
        ts_resp: u64,
        found: bool,
    ) -> (ok: bool)
        ensures
            ok == key_witness(key_spans.deep_view(), ts_call, ts_resp, Expect::Presence(found)),
    {
        key_has_witness(key_spans, ts_call, ts_resp, &Want::Presence(found))
    }

    /// Whether the spans explain a `Scan`: every known key of the range is
    /// looked at, with the value that the scan returned for it or with none.
    pub fn check_scan(
        spans: &KeyMap<Vec<VecDeque<UpdateSpan>>>,
        ts_call: u64,
        ts_resp: u64,
        key_start: &String,
        key_end: &String,
        entries: &Vec<(String, String)>,
    ) -> (ok: bool)
        requires
            spans.wf(),
        ensures
            ok == scan_accepted(
                spans.keys(),
                lists_view(spans.values()),
                ts_call,
                ts_resp,
                key_start@,
                key_end@,
                entries.deep_view(),
            ),
    {
        let ghost ev = entries.deep_view();
        let mut index: KeyMap<usize> = KeyMap::new();
        let mut i: usize = 0;
        while i < entries.len()
            invariant
                i <= entries.len(),
                ev == entries.deep_view(),
                index.wf(),
                forall|j: int| 0 <= j < i ==> in_range((#[trigger] ev[j]).0, key_start@, key_end@),
                forall|a: int, b: int| 0 <= a < b < i ==> (#[trigger] ev[a]).0 != (#[trigger] ev[b]).0,
                forall|p: int|
                    0 <= p < index.keys().len() ==> 0 <= (#[trigger] index.values()[p]) < i
                        && ev[index.values()[p] as int].0 == index.keys()[p],
                forall|j: int| 0 <= j < i ==> index.keys().contains((#[trigger] ev[j]).0),
            decreases entries.len() - i,
        {
            let key = &entries[i].0;
            assert(key@ == ev[i as int].0);
            if str_lt(key.as_str(), key_start.as_str()) || str_lt(key_end.as_str(), key.as_str()) {
                return false;
            }
            let ghost old_keys = index.keys();
            let ghost old_values = index.values();
            match index.find(key.as_str()) {
                Some(p) => {
                    assert(ev[old_values[p as int] as int].0 == ev[i as int].0);
                    return false;
                },
                None => {},
            }
            index.insert(key.clone(), i);
            proof {
                let r = crate::keymap::rank(old_keys, key@);
                crate::keymap::lemma_rank_bounds(old_keys, key@);
                assert forall|p: int| 0 <= p < index.keys().len() implies 0 <= (#[trigger] index.values()[p]) < i + 1
                    && ev[index.values()[p] as int].0 == index.keys()[p] by {}
                assert forall|j: int| 0 <= j < i + 1 implies index.keys().contains((#[trigger] ev[j]).0) by {
                    if j < i {
                        let q = choose|q: int| 0 <= q < old_keys.len() && old_keys[q] == ev[j].0;
                        if q < r {
                            assert(index.keys()[q] == ev[j].0);
                        } else {
                            assert(index.keys()[q + 1] == ev[j].0);
                        }
                    } else {
                        assert(index.keys()[r] == ev[j].0);
                    }
                }
                assert forall|a: int, b: int| 0 <= a < b < i + 1 implies (#[trigger] ev[a]).0 != (#[trigger] ev[b]).0 by {}
            }
            i += 1;
        }
        let ghost keys = spans.keys();
        let ghost lists = lists_view(spans.values());
        let mut k: usize = 0;
        while k < spans.len()
            invariant
                k <= spans.keys().len(),
                spans.wf(),
                index.wf(),
                ev == entries.deep_view(),
                keys == spans.keys(),
                lists == lists_view(spans.values()),
                scan_well_formed(ev, key_start@, key_end@),
                forall|p: int|
                    0 <= p < index.keys().len() ==> 0 <= (#[trigger] index.values()[p]) < ev.len()
                        && ev[index.values()[p] as int].0 == index.keys()[p],
                forall|j: int| 0 <= j < ev.len() ==> index.keys().contains((#[trigger] ev[j]).0),
                forall|q: int|
                    0 <= q < k && in_range(#[trigger] keys[q], key_start@, key_end@) ==> key_witness(
                        lists[q],
                        ts_call,
                        ts_resp,
                        Expect::Value(scan_lookup(ev, keys[q])),
                    ),
            decreases spans.keys().len() - k,
        {
            let key = spans.key(k);
            if !str_lt(key.as_str(), key_start.as_str()) && !str_lt(key_end.as_str(), key.as_str()) {
                let value: Option<&String> = match index.find(key.as_str()) {
                    Some(p) => {
                        let j = *index.value(p);
                        Some(&entries[j].1)
                    },
                    None => None,
                };
                assert(value.deep_view() == scan_lookup(ev, key@)) by {}
                if !key_has_witness(spans.value(k), ts_call, ts_resp, &Want::Value(value)) {
                    return false;
                }
            }
            k += 1;
        }
        true
    }

    /// Whether the history explains a response taken from the queue.
    pub fn check_call(&self, entry: &QueuedSpan) -> (ok: bool)
        requires
            self.wf(),
        ensures
            ok == accepts(self@.keys, self@.spans, entry@),
    {
        match &entry.resp {
            KvResp::Put { key, found } => match self.spans.find(key.as_str()) {
                Some(k) => {
                    Self::check_put(self.spans.value(k), entry.ts_call, entry.ts_resp, *found)
                },
                None => false,
            },
            KvResp::Swap { key, old_value } => match self.spans.find(key.as_str()) {
                Some(k) => {
                    Self::check_swap(
                        self.spans.value(k),
                        entry.ts_call,
                        entry.ts_resp,
                        old_value.as_ref(),
                    )
                },
                None => false,
            },
            KvResp::Get { key, value } => match self.spans.find(key.as_str()) {
                Some(k) => {
                    Self::check_get(self.spans.value(k), entry.ts_call, entry.ts_resp, value.as_ref())
                },
                None => false,
            },
            KvResp::Scan { key_start, key_end, entries } => Self::check_scan(
                &self.spans,
                entry.ts_call,
                entry.ts_resp,
                key_start,
                key_end,
                entries,
            ),
            KvResp::Delete { key, found } => match self.spans.find(key.as_str()) {
                Some(k) => {
                    Self::check_delete(self.spans.value(k), entry.ts_call, entry.ts_resp, *found)
                },
                None => false,
            },
            KvResp::Stop => false,
        }
    }

    /// Adds an acknowledged update of client `cidx` to the history. Then
    /// trims the lists of every key, and checks the queued responses that
    /// were acknowledged before the latest update of every client. Trimming
    /// never takes the span that opens a list.
    ///
    /// The client's earlier update of the key, if any, must have been
    /// acknowledged before this call was made.
    pub fn apply_update(
        &mut self,
        cidx: usize,
        ts_call: u64,
        ts_resp: u64,
        key: String,
        value: Option<String>,
    ) -> (verdict: Verdict)
        requires
            old(self).wf(),
            cidx < old(self)@.maxtr.len(),
            ts_call < ts_resp,
            match index_of(old(self)@.keys, key@) {
                Some(k) => old(self)@.spans[k][cidx as int].last().ts_resp < ts_call,
                None => true,
            },
        ensures
            final(self).wf(),
            (final(self)@, verdict@) == apply_update_spec(
                old(self)@,
                cidx as int,
                key@,
                SpanView { ts_call, ts_resp, value: value.deep_view() },
            ),
            forall|k: int, c: int|
                0 <= k < final(self)@.spans.len() && 0 <= c < final(self)@.spans[k].len() ==> (
                #[trigger] final(self)@.spans[k][c])[0] == sentinel(),
    {
        let ghost h0 = self@;
        let ghost span = SpanView { ts_call, ts_resp, value: value.deep_view() };
        let k = match self.spans.find(key.as_str()) {
            Some(k) => k,
            None => {
                return Verdict::UnexpectedKey;
            },
        };
        let lists = self.spans.value_mut(k);
        let ghost lists0 = lists.deep_view();
        let ghost list0 = lists[cidx as int].deep_view();
        lists[cidx].push_back(UpdateSpan { ts_call, ts_resp, value });
        assert(lists[cidx as int].deep_view() =~= list0.push(span));
        self.maxtr[cidx] = ts_resp;
        let ghost h1 = self@;
        proof {
            assert(h1.spans =~= h0.spans.update(k as int, lists0.update(cidx as int, list0.push(span)))) by {
                assert forall|q: int| 0 <= q < h0.spans.len() implies #[trigger] h1.spans[q] == h0.spans.update(k as int, lists0.update(cidx as int, list0.push(span)))[q] by {}
            }
        }
        let min_coming_ts = min_u64(&self.maxtr);
        let min_queued_ts = min_queued_call(&self.queue);
        let bound = if min_coming_ts < min_queued_ts {
            min_coming_ts
        } else {
            min_queued_ts
        };
        trim_all(&mut self.spans, bound);
        let ghost h2 = self@;
        proof {
            lemma_apply_keeps_wf(h0, k as int, cidx as int, span);
        }
        while self.queue.len() > 0 && self.queue[0].ts_resp < min_coming_ts
            invariant
                self.wf(),
                h0 == old(self)@,
                span == (SpanView { ts_call, ts_resp, value: value.deep_view() }),
                index_of(h0.keys, key@) == Some(k as int),
                h2 == trim_history(push_span(h0, k as int, cidx as int, span)),
                min_coming_ts == min_of(h2.maxtr),
                self@.keys == h2.keys,
                self@.spans == h2.spans,
                self@.maxtr == h2.maxtr,
                drain_queue(h2.keys, h2.spans, self@.queue, min_coming_ts) == drain_queue(
                    h2.keys,
                    h2.spans,
                    h2.queue,
                    min_coming_ts,
                ),
            decreases self.queue.len(),
        {
            let ghost cur = self@;
            let entry = self.queue.pop_front().unwrap();
            proof {
                assert(self@.queue =~= cur.queue.drop_first());
                lemma_drop_first_keeps_order(cur.queue);
            }
            if !self.check_call(&entry) {
                return Verdict::Violation(entry.resp);
            }
        }
        Verdict::Pass
    }

    /// The spans that the history holds for `key` and client `cidx`, from
    /// the oldest on; `None` for an unknown key or client.
    pub fn spans_of(&self, key: &str, cidx: usize) -> (spans: Option<Vec<UpdateSpan>>)
        requires
            self.wf(),
        ensures
            match index_of(self@.keys, key@) {
                Some(k) if cidx < self@.maxtr.len() => spans is Some && spans.unwrap().deep_view()
                    == self@.spans[k][cidx as int],
                _ => spans is None,
            },
    {
        let k = match self.spans.find(key) {
            Some(k) => k,
            None => {
                return None;
            },
        };
        assert(self.spans.values()[k as int].deep_view() == self@.spans[k as int]);
        let lists = self.spans.value(k);
        if cidx >= lists.len() {
            return None;
        }
        let l = &lists[cidx];
        let ghost lv = l.deep_view();
        let mut out: Vec<UpdateSpan> = Vec::new();
        let mut i: usize = 0;
        while i < l.len()
            invariant
                i <= l.len(),
                lv == l.deep_view(),
                out.deep_view() == lv.take(i as int),
            decreases l.len() - i,
        {
            out.push(l[i].clone());
            assert(lv.take(i + 1) =~= lv.take(i as int).push(lv[i as int]));
            i += 1;
        }
        Some(out)
    }

    /// The number of clients.
    pub fn num_clients(&self) -> (n: usize)
        ensures
            n == self@.maxtr.len(),
    {
        self.maxtr.len()
    }
}

/// A valid queue without its head is valid.
pub proof fn lemma_drop_first_keeps_order(queue: Seq<QueuedView>)
    requires
        queue_in_order(queue),
        queue.len() > 0,
    ensures
        queue_in_order(queue.drop_first()),
{
    let rest = queue.drop_first();
    assert forall|i: int| 0 <= i < rest.len() implies (#[trigger] rest[i]).ts_call < rest[i].ts_resp by {}
    assert forall|i: int, j: int| 0 <= i < j < rest.len() implies (#[trigger] rest[i]).ts_resp < (
    #[trigger] rest[j]).ts_resp by {}
}

/// A valid list stays valid when a span is added that starts after the last
/// span of the list has ended.
pub proof fn lemma_push_keeps_order(l: Seq<SpanView>, span: SpanView)
    requires
        spans_in_order(l),
        span.ts_call <= span.ts_resp,
        l.last().ts_resp < span.ts_call,
    ensures
        spans_in_order(l.push(span)),
{
    let n = l.push(span);
    assert forall|i: int| 0 <= i < n.len() implies (#[trigger] n[i]).ts_call <= n[i].ts_resp by {}
    assert forall|i: int, j: int| 0 <= i < j < n.len() implies (#[trigger] n[i]).ts_resp < (
    #[trigger] n[j]).ts_call by {}
}

/// A valid history stays valid when a span is added that starts after the
/// last span of its list has ended, and the lists are trimmed.
pub proof fn lemma_apply_keeps_wf(h: HistoryView, k: int, cidx: int, span: SpanView)
    requires
        history_wf(h),
        0 <= k < h.keys.len(),
        0 <= cidx < h.maxtr.len(),
        span.ts_call < span.ts_resp,
        h.spans[k][cidx].last().ts_resp < span.ts_call,
    ensures
        history_wf(push_span(h, k, cidx, span)),
        history_wf(trim_history(push_span(h, k, cidx, span))),
{
    let p = push_span(h, k, cidx, span);
    assert forall|q: int, c: int| 0 <= q < p.spans.len() && 0 <= c < p.spans[q].len() implies spans_in_order(
        #[trigger] p.spans[q][c],
    ) && p.spans[q][c][0] == sentinel() by {
        assert(spans_in_order(h.spans[q][c]));
        assert(h.spans[q][c][0] == sentinel());
        if q == k && c == cidx {
            lemma_push_keeps_order(h.spans[k][cidx], span);
        }
    }
    let t = trim_history(p);
    assert forall|q: int, c: int| 0 <= q < t.spans.len() && 0 <= c < t.spans[q].len() implies spans_in_order(
        #[trigger] t.spans[q][c],
    ) && t.spans[q][c][0] == sentinel() by {
        assert(spans_in_order(p.spans[q][c]));
        assert(p.spans[q][c][0] == sentinel());
        lemma_trim_keeps_order(p.spans[q][c], keep_ts(p.spans[q][c], trim_bound(p)));
        lemma_trim_list(p.spans[q][c], keep_ts(p.spans[q][c], trim_bound(p)));
    }
}

/// A valid history stays valid under an update that starts after the last
/// span of its list has ended.
pub proof fn lemma_update_keeps_wf(h: HistoryView, cidx: int, key: Seq<char>, span: SpanView)
    requires
        history_wf(h),
        0 <= cidx < h.maxtr.len(),
        span.ts_call < span.ts_resp,
        match index_of(h.keys, key) {
            Some(k) => h.spans[k][cidx].last().ts_resp < span.ts_call,
            None => true,
        },
    ensures
        history_wf(apply_update_spec(h, cidx, key, span).0),
{
    match index_of(h.keys, key) {
        Some(k) => {
            lemma_apply_keeps_wf(h, k, cidx, span);
            let t = trim_history(push_span(h, k, cidx, span));
            lemma_drain_keeps_order(t.keys, t.spans, t.queue, min_of(t.maxtr));
        },
        None => {},
    }
}

/// A valid history stays valid when a response is queued that was
/// acknowledged after its call and after every response of the queue.
pub proof fn lemma_queue_keeps_wf(h: HistoryView, e: QueuedView)
    requires
        history_wf(h),
        e.ts_call < e.ts_resp,
        h.queue.len() > 0 ==> h.queue.last().ts_resp < e.ts_resp,
    ensures
        history_wf(HistoryView { queue: h.queue.push(e), ..h }),
{
    let q = h.queue.push(e);
    assert forall|i: int| 0 <= i < q.len() implies (#[trigger] q[i]).ts_call < q[i].ts_resp by {}
    assert forall|i: int, j: int| 0 <= i < j < q.len() implies (#[trigger] q[i]).ts_resp < (
    #[trigger] q[j]).ts_resp by {}
}

/// The keys of the first `c + 1` pools are those of the first `c` pools and
/// those of pool `c`.
proof fn lemma_pool_has_push(pools: Seq<Seq<Seq<char>>>, c: int)
    requires
        0 <= c < pools.len(),
    ensures
        forall|key: Seq<char>|
            pool_has(pools.take(c + 1), key) <==> (pool_has(pools.take(c), key) || pools[c].contains(
                key,
            )),
{
    assert forall|key: Seq<char>|
        pool_has(pools.take(c + 1), key) <==> (pool_has(pools.take(c), key) || pools[c].contains(
            key,
        )) by {
        if pool_has(pools.take(c + 1), key) {
            let (d, i) = choose|d: int, i: int|
                0 <= d < pools.take(c + 1).len() && 0 <= i < pools.take(c + 1)[d].len()
                    && #[trigger] pools.take(c + 1)[d][i] == key;
        }
        if pool_has(pools.take(c), key) {
            let (d, i) = choose|d: int, i: int|
                0 <= d < pools.take(c).len() && 0 <= i < pools.take(c)[d].len()
                    && #[trigger] pools.take(c)[d][i] == key;
        }
        if pools[c].contains(key) {
            let i = choose|i: int| 0 <= i < pools[c].len() && pools[c][i] == key;
            assert(pools.take(c + 1)[c][i] == key);
        }
    }
}

} // verus!
