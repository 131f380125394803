//! The fuzz driver's decisions: a run alternates between calls and
//! harvests, stamps each event with the next number of its clock, and hands
//! every response to the history checker. Sending the calls and waiting for
//! the responses is the caller's part.

use bit_vec::BitVec;
use vstd::prelude::*;
use vstd::string::*;

use crate::history::{
    apply_update_spec, drain_queue, history_wf, lemma_queue_keeps_wf, lemma_update_keeps_wf, min_of,
    push_span, trim_bound, trim_history, History, HistoryView, QueuedView, SpanView, Verdict,
    VerdictView,
};
use crate::ioapi::{update_of, CallView, KvCall, KvResp, RespView};
use crate::keymap::index_of;
use crate::random::{
    all_set, bits, bits_new, bits_set, calls_counted, gen_call_vs_wait, gen_rand_client,
    gen_rand_kvcall, gen_rand_string, is_alnum, is_drawn_call, none_set, stats_wf, turn_of, Stats,
    StatsView, Turn,
};

verus! {

/// The length of the keys of the pools.
pub const KEY_LEN: usize = 8;

/// The number of keys that a pool of shared keys can hold: so many keys
/// have a number of five digits.
pub const MAX_SHARED_KEYS: usize = 100000;

/// The digit of `d`, a number below ten.
pub open spec fn digit_char(d: int) -> char {
    "0123456789"@[d]
}

/// The shared key of number `i`: `key` and the five digits of `i`.
pub open spec fn shared_key(i: int) -> Seq<char> {
    "key"@ + seq![
        digit_char(i / 10000 % 10),
        digit_char(i / 1000 % 10),
        digit_char(i / 100 % 10),
        digit_char(i / 10 % 10),
        digit_char(i % 10),
    ]
}

fn push_digit(text: &mut String, d: usize)
    requires
        d < 10,
    ensures
        final(text)@ == old(text)@.push(digit_char(d as int)),
{
    proof {
        reveal_strlit("0123456789");
    }
    text.append("0123456789".substring_char(d, d + 1));
}

/// The shared key of number `i`.
pub fn conflict_key(i: usize) -> (key: String)
    requires
        i < MAX_SHARED_KEYS,
    ensures
        key@ == shared_key(i as int),
{
    let mut key = String::from_str("key");
    push_digit(&mut key, i / 10000 % 10);
    push_digit(&mut key, i / 1000 % 10);
    push_digit(&mut key, i / 100 % 10);
    push_digit(&mut key, i / 10 % 10);
    push_digit(&mut key, i % 10);
    key
}

/// Whether `keys` are pools as `gen_key_pools` makes them: one pool of
/// `num_keys` keys for each client; the shared keys in the order of their
/// numbers where the pools are shared, else keys of `KEY_LEN` letters and
/// digits.
pub open spec fn are_key_pools(
    keys: Seq<Seq<Seq<char>>>,
    num_clis: usize,
    num_keys: usize,
    conflict: bool,
) -> bool {
    &&& keys.len() == num_clis
    &&& forall|c: int| 0 <= c < keys.len() ==> (#[trigger] keys[c]).len() == num_keys
    &&& forall|c: int, i: int|
        0 <= c < keys.len() && 0 <= i < keys[c].len() ==> if conflict {
            #[trigger] keys[c][i] == shared_key(i)
        } else {
            keys[c][i].len() == KEY_LEN && forall|j: int|
                0 <= j < keys[c][i].len() ==> is_alnum(#[trigger] keys[c][i][j])
        }
}

/// The key pools of a round: for each client `num_keys` random keys, or,
/// with `conflict`, for every client the same `num_keys` shared keys.
pub fn gen_key_pools(num_clis: usize, num_keys: usize, conflict: bool) -> (keys: Vec<Vec<String>>)
    requires
        conflict ==> num_keys <= MAX_SHARED_KEYS,
    ensures
        are_key_pools(keys.deep_view(), num_clis, num_keys, conflict),
{
    let mut keys: Vec<Vec<String>> = Vec::new();
    let mut c: usize = 0;
    while c < num_clis
        invariant
            c <= num_clis,
            conflict ==> num_keys <= MAX_SHARED_KEYS,
            are_key_pools(keys.deep_view(), c, num_keys, conflict),
        decreases num_clis - c,
    {
        let mut pool: Vec<String> = Vec::new();
        let mut i: usize = 0;
        while i < num_keys
            invariant
                i <= num_keys,
                conflict ==> num_keys <= MAX_SHARED_KEYS,
                pool.len() == i,
                forall|k: int|
                    0 <= k < i ==> if conflict {
                        #[trigger] pool.deep_view()[k] == shared_key(k)
                    } else {
                        pool.deep_view()[k].len() == KEY_LEN && forall|j: int|
                            0 <= j < pool.deep_view()[k].len() ==> is_alnum(
                                #[trigger] pool.deep_view()[k][j],
                            )
                    },
            decreases num_keys - i,
        {
            let key = if conflict {
                conflict_key(i)
            } else {
                gen_rand_string(KEY_LEN)
            };
            let ghost before = pool.deep_view();
            pool.push(key);
            assert(pool.deep_view() =~= before.push(key@));
            i += 1;
        }
        let ghost before = keys.deep_view();
        keys.push(pool);
        assert(keys.deep_view() =~= before.push(pool.deep_view()));
        c += 1;
    }
    keys
}

/// From this many unchecked responses on at the end of a run, some client
/// lagged so far behind that the run shows nothing.
pub const REMAIN_THRESH: usize = 1000;

/// What a client's pending call holds: the time of the call, and the update
/// that the call makes, if it makes one.
pub type Memo = (u64, Option<(String, Option<String>)>);

/// A `Memo` as plain values.
pub type MemoView = (u64, Option<(Seq<char>, Option<Seq<char>>)>);

/// How many bits are set.
pub open spec fn count_set(flags: Seq<bool>) -> nat
    decreases flags.len(),
{
    if flags.len() == 0 {
        0
    } else {
        count_set(flags.drop_last()) + if flags.last() {
            1nat
        } else {
            0nat
        }
    }
}

/// Setting a bit changes the count by that bit.
pub proof fn lemma_count_update(flags: Seq<bool>, i: int, bit: bool)
    requires
        0 <= i < flags.len(),
    ensures
        count_set(flags.update(i, bit)) + (if flags[i] {
            1int
        } else {
            0int
        }) == count_set(flags) + (if bit {
            1int
        } else {
            0int
        }),
    decreases flags.len(),
{
    let updated = flags.update(i, bit);
    if i == flags.len() - 1 {
        assert(updated.drop_last() =~= flags.drop_last());
    } else {
        assert(updated.drop_last() =~= flags.drop_last().update(i, bit));
        lemma_count_update(flags.drop_last(), i, bit);
    }
}

/// No more bits are set than there are; all are set where the count is the
/// length, none where it is 0.
pub proof fn lemma_count_bounds(flags: Seq<bool>)
    ensures
        count_set(flags) <= flags.len(),
        count_set(flags) == flags.len() <==> all_set(flags),
        count_set(flags) == 0 <==> none_set(flags),
    decreases flags.len(),
{
    if flags.len() > 0 {
        let front = flags.drop_last();
        lemma_count_bounds(front);
        assert(forall|i: int| 0 <= i < front.len() ==> front[i] == flags[i]);
    }
}

/// The state of a run as plain values.
pub struct FuzzView {
    /// The key pool of each client.
    pub keys: Seq<Seq<Seq<char>>>,
    /// For each client whether it waits for a response.
    pub flying: Seq<bool>,
    /// The clock: the number of the latest event.
    pub timestamp: u64,
    /// For each client the memo of its pending call.
    pub memo: Seq<MemoView>,
    pub history: HistoryView,
    pub stats: StatsView,
    /// The number of calls to make in all.
    pub total_ops: usize,
    pub ops_called: usize,
    pub ops_waited: usize,
    /// The client whose response the run has asked for, if any.
    pub waiting: Option<usize>,
}

/// In every list the last span ended no later than the client's latest
/// acknowledged update.
pub open spec fn lists_below_maxtr(h: HistoryView) -> bool {
    forall|k: int, c: int|
        0 <= k < h.spans.len() && 0 <= c < h.spans[k].len() ==> (#[trigger] h.spans[k][c]).last().ts_resp
            <= h.maxtr[c]
}

/// A valid state of a run.
pub open spec fn fuzz_wf(v: FuzzView) -> bool {
    let n = v.keys.len();
    &&& v.flying.len() == n
    &&& v.memo.len() == n
    &&& v.history.maxtr.len() == n
    &&& v.stats.keys_freq.len() == n
    &&& n > 0 || v.total_ops == 0
    &&& forall|c: int|
        0 <= c < n ==> (#[trigger] v.keys[c]).len() > 0 && v.stats.keys_freq[c].len() == v.keys[c].len()
    &&& history_wf(v.history)
    &&& lists_below_maxtr(v.history)
    &&& stats_wf(v.stats)
    &&& calls_counted(v.stats) == v.ops_called
    &&& v.ops_waited <= v.ops_called <= v.total_ops < usize::MAX / 2
    &&& v.timestamp == v.ops_called + v.ops_waited + (if v.waiting is Some {
        1int
    } else {
        0int
    })
    &&& count_set(v.flying) == v.ops_called - v.ops_waited
    &&& forall|c: int| 0 <= c < n ==> (#[trigger] v.history.maxtr[c]) <= v.timestamp
    &&& forall|c: int|
        0 <= c < n && #[trigger] v.flying[c] ==> v.history.maxtr[c] < v.memo[c].0 <= v.timestamp
    &&& v.history.queue.len() > 0 ==> v.history.queue.last().ts_resp <= v.timestamp
    &&& match v.waiting {
        Some(w) => {
            &&& w < n
            &&& v.flying[w as int]
            &&& forall|c: int| 0 <= c < n && #[trigger] v.flying[c] ==> v.memo[c].0 < v.timestamp
            &&& forall|c: int| 0 <= c < n ==> (#[trigger] v.history.maxtr[c]) < v.timestamp
            &&& v.history.queue.len() > 0 ==> v.history.queue.last().ts_resp < v.timestamp
        },
        None => true,
    }
}

/// What a run does next.
#[derive(Debug)]
pub enum Step {
    /// Client `cidx` is to be sent `call`.
    Call { cidx: usize, call: KvCall },
    /// The response of client `cidx` is to be waited for, and handed to
    /// `harvest`.
    Wait { cidx: usize },
    /// Every response was harvested.
    Done,
}

/// A `Step` with the view of its call.
pub enum StepView {
    Call { cidx: usize, call: CallView },
    Wait { cidx: usize },
    Done,
}

impl View for Step {
    type V = StepView;

    open spec fn view(&self) -> StepView {
        match self {
            Step::Call { cidx, call } => StepView::Call { cidx: *cidx, call: call@ },
            Step::Wait { cidx } => StepView::Wait { cidx: *cidx },
            Step::Done => StepView::Done,
        }
    }
}

/// What a harvest came to.
#[derive(Debug)]
pub enum Outcome {
    /// The response was taken; the run goes on.
    Harvested,
    /// Client `cidx` answered with `Stop` at time `timestamp`.
    UnexpectedStop { cidx: usize, timestamp: u64 },
    /// The update of client `cidx`, called at `ts_call` and acknowledged at
    /// `ts_resp`, set off the check of `resp`, which nothing explains.
    Violation { cidx: usize, ts_call: u64, ts_resp: u64, resp: KvResp },
    /// The update of client `cidx` is to a key of no pool.
    UnexpectedKey { cidx: usize, ts_call: u64, ts_resp: u64 },
}

/// An `Outcome` with the view of its response.
pub enum OutcomeView {
    Harvested,
    UnexpectedStop { cidx: usize, timestamp: u64 },
    Violation { cidx: usize, ts_call: u64, ts_resp: u64, resp: RespView },
    UnexpectedKey { cidx: usize, ts_call: u64, ts_resp: u64 },
}

impl View for Outcome {
    type V = OutcomeView;

    open spec fn view(&self) -> OutcomeView {
        match self {
            Outcome::Harvested => OutcomeView::Harvested,
            Outcome::UnexpectedStop { cidx, timestamp } => OutcomeView::UnexpectedStop {
                cidx: *cidx,
                timestamp: *timestamp,
            },
            Outcome::Violation { cidx, ts_call, ts_resp, resp } => OutcomeView::Violation {
                cidx: *cidx,
                ts_call: *ts_call,
                ts_resp: *ts_resp,
                resp: resp@,
            },
            Outcome::UnexpectedKey { cidx, ts_call, ts_resp } => OutcomeView::UnexpectedKey {
                cidx: *cidx,
                ts_call: *ts_call,
                ts_resp: *ts_resp,
            },
        }
    }
}

/// Whether `step`, with the state `new` after it, is a step that the run
/// may take from the state `old`.
///
/// A run that has asked for a response asks for it again. Else the run is
/// done when every response was harvested. Else the clock advances by one,
/// and the run calls a client that does not wait for a response, or asks
/// for the response of one that does, as `turn_of` allows.
pub open spec fn step_allowed(old: FuzzView, step: StepView, new: FuzzView) -> bool {
    match step {
        StepView::Done => old.waiting is None && old.ops_waited == old.total_ops && new == old,
        StepView::Wait { cidx } => if old.waiting is Some {
            old.waiting == Some(cidx) && new == old
        } else {
            &&& old.ops_waited < old.total_ops
            &&& turn_of(old.ops_called, old.total_ops, old.flying) != Turn::Call
            &&& cidx < old.flying.len()
            &&& old.flying[cidx as int]
            &&& new == FuzzView {
                timestamp: (old.timestamp + 1) as u64,
                waiting: Some(cidx),
                ..old
            }
        },
        StepView::Call { cidx, call } => {
            &&& old.waiting is None
            &&& old.ops_waited < old.total_ops
            &&& turn_of(old.ops_called, old.total_ops, old.flying) != Turn::Wait
            &&& cidx < old.flying.len()
            &&& !old.flying[cidx as int]
            &&& is_drawn_call(old.keys[cidx as int], old.stats, cidx as int, call, new.stats)
            &&& new == FuzzView {
                timestamp: (old.timestamp + 1) as u64,
                flying: old.flying.update(cidx as int, true),
                memo: old.memo.update(cidx as int, ((old.timestamp + 1) as u64, update_of(call))),
                ops_called: (old.ops_called + 1) as usize,
                stats: new.stats,
                ..old
            }
        },
    }
}

/// What the harvest of `resp` makes of a run that has asked for a
/// response, and what it comes to.
///
/// A `Stop` changes nothing. Any other response is queued with the time of
/// its call and the time now; where the call was an update, the update is
/// applied to the history, which may set off checks. The client then waits
/// for no response any more.
pub open spec fn harvest_spec(v: FuzzView, resp: RespView) -> (FuzzView, OutcomeView) {
    let cidx = v.waiting.unwrap();
    if resp is Stop {
        (v, OutcomeView::UnexpectedStop { cidx, timestamp: v.timestamp })
    } else {
        let (ts_call, update) = v.memo[cidx as int];
        let ts_resp = v.timestamp;
        let queued = HistoryView {
            queue: v.history.queue.push(QueuedView { ts_call, ts_resp, resp }),
            ..v.history
        };
        let (history, verdict) = match update {
            Some((key, value)) => apply_update_spec(
                queued,
                cidx as int,
                key,
                SpanView { ts_call, ts_resp, value },
            ),
            None => (queued, VerdictView::Pass),
        };
        (
            FuzzView {
                flying: v.flying.update(cidx as int, false),
                memo: v.memo.update(cidx as int, (0u64, None)),
                history,
                ops_waited: (v.ops_waited + 1) as usize,
                waiting: None,
                ..v
            },
            match verdict {
                VerdictView::Pass => OutcomeView::Harvested,
                VerdictView::UnexpectedKey => OutcomeView::UnexpectedKey { cidx, ts_call, ts_resp },
                VerdictView::Violation(failed) => OutcomeView::Violation {
                    cidx,
                    ts_call,
                    ts_resp,
                    resp: failed,
                },
            },
        )
    }
}

/// In every valid state of a run the queued responses stand in the order
/// of their acknowledgement: each was acknowledged after its call, before
/// every response queued later, and no later than the clock shows.
pub proof fn lemma_timestamps_increase(v: FuzzView)
    requires
        fuzz_wf(v),
    ensures
        forall|i: int|
            0 <= i < v.history.queue.len() ==> (#[trigger] v.history.queue[i]).ts_call
                < v.history.queue[i].ts_resp <= v.timestamp,
        forall|i: int, j: int|
            0 <= i < j < v.history.queue.len() ==> (#[trigger] v.history.queue[i]).ts_resp < (
            #[trigger] v.history.queue[j]).ts_resp,
{
    let q = v.history.queue;
    assert forall|i: int| 0 <= i < q.len() implies (#[trigger] q[i]).ts_call < q[i].ts_resp
        <= v.timestamp by {}
}

/// A harvest queues its response with the time of the clock, which is
/// later than the call of the response and than every response queued
/// before.
pub proof fn lemma_harvest_stamps_later(v: FuzzView, resp: RespView)
    requires
        fuzz_wf(v),
        v.waiting is Some,
        !(resp is Stop),
    ensures
        ({
            let cidx = v.waiting.unwrap() as int;
            &&& v.memo[cidx].0 < v.timestamp
            &&& forall|i: int|
                0 <= i < v.history.queue.len() ==> (#[trigger] v.history.queue[i]).ts_resp
                    < v.timestamp
        }),
{
    let q = v.history.queue;
    assert forall|i: int| 0 <= i < q.len() implies (#[trigger] q[i]).ts_resp < v.timestamp by {}
}

/// What draining leaves of a queue ends as the queue did.
pub proof fn lemma_drain_last(
    keys: Seq<Seq<char>>,
    spans: Seq<Seq<Seq<SpanView>>>,
    queue: Seq<QueuedView>,
    limit: u64,
)
    ensures
        drain_queue(keys, spans, queue, limit).0.len() > 0 ==> queue.len() > 0 && drain_queue(
            keys,
            spans,
            queue,
            limit,
        ).0.last() == queue.last(),
    decreases queue.len(),
{
    if queue.len() > 0 && queue[0].ts_resp < limit {
        let rest = queue.drop_first();
        lemma_drain_last(keys, spans, rest, limit);
    }
}

/// Where no list ends after its client's latest update, and a client's new
/// update ends no earlier than its latest one, no list ends after its
/// client's latest update once the new one is applied.
pub proof fn lemma_apply_keeps_bound(h: HistoryView, k: int, cidx: int, span: SpanView)
    requires
        history_wf(h),
        lists_below_maxtr(h),
        0 <= k < h.keys.len(),
        0 <= cidx < h.maxtr.len(),
        h.maxtr[cidx] <= span.ts_resp,
        span.ts_call < span.ts_resp,
        h.spans[k][cidx].last().ts_resp < span.ts_call,
    ensures
        lists_below_maxtr(trim_history(push_span(h, k, cidx, span))),
{
    let p = push_span(h, k, cidx, span);
    let t = trim_history(p);
    crate::history::lemma_apply_keeps_wf(h, k, cidx, span);
    assert forall|q: int, c: int| 0 <= q < t.spans.len() && 0 <= c < t.spans[q].len() implies (
    #[trigger] t.spans[q][c]).last().ts_resp <= t.maxtr[c] by {
        let l = p.spans[q][c];
        assert(crate::history::spans_in_order(l));
        assert(h.spans[q][c].last().ts_resp <= h.maxtr[c]);
        crate::history::lemma_trim_keeps_last(l, trim_bound(p));
    }
}

/// What an update leaves of a history ends no list after its client's
/// latest update, and its queue ends as the queue did.
pub proof fn lemma_update_keeps_bound(h: HistoryView, cidx: int, key: Seq<char>, span: SpanView)
    requires
        history_wf(h),
        lists_below_maxtr(h),
        0 <= cidx < h.maxtr.len(),
        h.maxtr[cidx] <= span.ts_resp,
        span.ts_call < span.ts_resp,
        match index_of(h.keys, key) {
            Some(k) => h.spans[k][cidx].last().ts_resp < span.ts_call,
            None => true,
        },
    ensures
        lists_below_maxtr(apply_update_spec(h, cidx, key, span).0),
        apply_update_spec(h, cidx, key, span).0.queue.len() > 0 ==> h.queue.len() > 0
            && apply_update_spec(h, cidx, key, span).0.queue.last() == h.queue.last(),
        apply_update_spec(h, cidx, key, span).0.keys == h.keys,
        apply_update_spec(h, cidx, key, span).0.maxtr == if index_of(h.keys, key) is Some {
            h.maxtr.update(cidx, span.ts_resp)
        } else {
            h.maxtr
        },
{
    match index_of(h.keys, key) {
        Some(k) => {
            lemma_apply_keeps_bound(h, k, cidx, span);
            let t = trim_history(push_span(h, k, cidx, span));
            lemma_drain_last(t.keys, t.spans, t.queue, min_of(t.maxtr));
        },
        None => {},
    }
}

/// A valid state stays valid under every step that the run may take.
pub proof fn lemma_step_keeps_wf(old: FuzzView, step: StepView, new: FuzzView)
    requires
        fuzz_wf(old),
        step_allowed(old, step, new),
    ensures
        fuzz_wf(new),
{
    lemma_count_bounds(old.flying);
    match step {
        StepView::Done => {},
        StepView::Wait { cidx } => {},
        StepView::Call { cidx, call } => {
            lemma_count_update(old.flying, cidx as int, true);
            let (bucket, first, second, value) = choose|
                bucket: int,
                first: int,
                second: int,
                value: Seq<char>,
            |
                {
                    &&& 0 <= bucket < 10
                    &&& 0 <= first < old.keys[cidx as int].len()
                    &&& 0 <= second < old.keys[cidx as int].len()
                    &&& crate::random::writes_value(crate::random::kind_of_bucket(bucket))
                        ==> value.len() == crate::random::VALUE_LEN && forall|i: int|
                        0 <= i < value.len() ==> is_alnum(#[trigger] value[i])
                    &&& call == #[trigger] crate::random::call_of_draw(
                        old.keys[cidx as int],
                        bucket,
                        first,
                        second,
                        value,
                    )
                    &&& new.stats == crate::random::recorded(
                        old.stats,
                        cidx as int,
                        crate::random::kind_of_bucket(bucket),
                        first,
                        second,
                    )
                };
            lemma_recorded(old.stats, cidx as int, crate::random::kind_of_bucket(bucket), first, second);
            assert forall|c: int| 0 <= c < new.keys.len() implies (#[trigger] new.keys[c]).len() > 0
                && new.stats.keys_freq[c].len() == new.keys[c].len() by {}
        },
    }
}

/// Counting one more call keeps the counts valid, and leaves each row of
/// the table as long as it was.
pub proof fn lemma_recorded(
    s: StatsView,
    cidx: int,
    kind: crate::random::CallKind,
    first: int,
    second: int,
)
    requires
        stats_wf(s),
        calls_counted(s) < usize::MAX / 2,
        0 <= cidx < s.keys_freq.len(),
        0 <= first < s.keys_freq[cidx].len(),
        0 <= second < s.keys_freq[cidx].len(),
    ensures
        stats_wf(crate::random::recorded(s, cidx, kind, first, second)),
        calls_counted(crate::random::recorded(s, cidx, kind, first, second)) == calls_counted(s) + 1,
        crate::random::recorded(s, cidx, kind, first, second).keys_freq.len() == s.keys_freq.len(),
        forall|c: int|
            0 <= c < s.keys_freq.len() ==> (#[trigger] crate::random::recorded(
                s,
                cidx,
                kind,
                first,
                second,
            ).keys_freq[c]).len() == s.keys_freq[c].len(),
{
    let r = crate::random::recorded(s, cidx, kind, first, second);
    assert forall|c: int, k: int|
        0 <= c < r.keys_freq.len() && 0 <= k < r.keys_freq[c].len() implies #[trigger] r.keys_freq[c][k]
        <= 2 * calls_counted(r) by {}
}

/// A valid state in which the run has asked for a response stays valid
/// when the response is harvested.
pub proof fn lemma_harvest_keeps_wf(v: FuzzView, resp: RespView)
    requires
        fuzz_wf(v),
        v.waiting is Some,
    ensures
        fuzz_wf(harvest_spec(v, resp).0),
{
    if !(resp is Stop) {
        let cidx = v.waiting.unwrap() as int;
        let (ts_call, update) = v.memo[cidx];
        let ts_resp = v.timestamp;
        let entry = QueuedView { ts_call, ts_resp, resp };
        let queued = HistoryView { queue: v.history.queue.push(entry), ..v.history };
        lemma_queue_keeps_wf(v.history, entry);
        lemma_count_update(v.flying, cidx, false);
        match update {
            Some((key, value)) => {
                let span = SpanView { ts_call, ts_resp, value };
                if index_of(queued.keys, key) is Some {
                    let k = index_of(queued.keys, key).unwrap();
                    assert(queued.spans[k][cidx].last().ts_resp <= queued.maxtr[cidx]);
                }
                lemma_update_keeps_wf(queued, cidx, key, span);
                lemma_update_keeps_bound(queued, cidx, key, span);
            },
            None => {},
        }
    }
}

/// A run of the fuzz driver: which clients wait for a response, the clock,
/// the history and the counts.
pub struct FuzzRun {
    keys: Vec<Vec<String>>,
    flying: BitVec,
    timestamp: u64,
    call_memo: Vec<Memo>,
    history: History,
    stats: Stats,
    total_ops: usize,
    ops_called: usize,
    ops_waited: usize,
    waiting: Option<usize>,
}

impl View for FuzzRun {
    type V = FuzzView;

    closed spec fn view(&self) -> FuzzView {
        FuzzView {
            keys: self.keys.deep_view(),
            flying: bits(self.flying),
            timestamp: self.timestamp,
            memo: self.call_memo.deep_view(),
            history: self.history@,
            stats: self.stats@,
            total_ops: self.total_ops,
            ops_called: self.ops_called,
            ops_waited: self.ops_waited,
            waiting: self.waiting,
        }
    }
}

impl FuzzRun {
    /// The state is valid.
    pub open spec fn wf(&self) -> bool {
        fuzz_wf(self@)
    }

    /// A run of `num_ops` calls for each client on the average, over the
    /// key pools `keys`, one for each client; nothing has happened yet.
    pub fn new(num_ops: usize, keys: Vec<Vec<String>>) -> (run: FuzzRun)
        requires
            num_ops * keys.len() < usize::MAX / 2,
            forall|c: int| 0 <= c < keys.len() ==> (#[trigger] keys[c]).len() > 0,
        ensures
            run.wf(),
            run@.keys == keys.deep_view(),
            run@.flying == Seq::new(keys.len() as nat, |c: int| false),
            run@.timestamp == 0,
            run@.memo == Seq::new(keys.len() as nat, |c: int| (0u64, None::<(Seq<char>, Option<Seq<char>>)>)),
            run@.total_ops == num_ops * keys.len(),
            run@.ops_called == 0,
            run@.ops_waited == 0,
            run@.waiting is None,
            run@.history.queue.len() == 0,
            forall|key: Seq<char>|
                run@.history.keys.contains(key) <==> crate::history::pool_has(keys.deep_view(), key),
            forall|k: int|
                0 <= k < run@.history.spans.len() ==> #[trigger] run@.history.spans[k]
                    == crate::history::fresh_lists(keys.len() as nat),
    {
        let n = keys.len();
        let total_ops = num_ops * n;
        let history = History::new(n, &keys);
        let stats = Stats::new(&keys);
        let flying = bits_new(n, false);
        let mut call_memo: Vec<Memo> = Vec::new();
        let mut c: usize = 0;
        while c < n
            invariant
                c <= n,
                call_memo.deep_view() == Seq::new(c as nat, |c: int| (0u64, None::<(Seq<char>, Option<Seq<char>>)>)),
            decreases n - c,
        {
            let ghost before = call_memo.deep_view();
            call_memo.push((0, None));
            assert(call_memo.deep_view() =~= before.push((0u64, None::<(Seq<char>, Option<Seq<char>>)>)));
            c += 1;
        }
        let run = FuzzRun {
            keys,
            flying,
            timestamp: 0,
            call_memo,
            history,
            stats,
            total_ops,
            ops_called: 0,
            ops_waited: 0,
            waiting: None,
        };
        proof {
            let v = run@;
            lemma_count_bounds(v.flying);
            assert forall|c: int| 0 <= c < n implies (#[trigger] v.keys[c]).len() > 0
                && v.stats.keys_freq[c].len() == v.keys[c].len() by {}
            assert forall|k: int, c: int|
                0 <= k < v.history.spans.len() && 0 <= c < v.history.spans[k].len() implies (
            #[trigger] v.history.spans[k][c]).last().ts_resp <= v.history.maxtr[c] by {}
            if n == 0 {
                assert(total_ops == 0) by (nonlinear_arith)
                    requires
                        total_ops == num_ops * n,
                        n == 0,
                ;
            }
        }
        run
    }

    /// The number of responses that the history has not checked yet.
    pub fn remaining(&self) -> (n: usize)
        ensures
            n == self@.history.queue.len(),
    {
        self.history.queue_len()
    }

    /// The counts of the calls made so far.
    pub fn stats(&self) -> (stats: &Stats)
        ensures
            stats@ == self@.stats,
    {
        &self.stats
    }

    /// The number of calls made so far.
    pub fn ops_called(&self) -> (n: usize)
        ensures
            n == self@.ops_called,
    {
        self.ops_called
    }

    /// The number of responses harvested so far.
    pub fn ops_waited(&self) -> (n: usize)
        ensures
            n == self@.ops_waited,
    {
        self.ops_waited
    }

    /// The number of calls to make in all.
    pub fn total_ops(&self) -> (n: usize)
        ensures
            n == self@.total_ops,
    {
        self.total_ops
    }

    /// The client whose response the run has asked for, if any.
    pub fn waiting(&self) -> (w: Option<usize>)
        ensures
            w == self@.waiting,
    {
        self.waiting
    }

    /// Decides what the run does next, and takes note of it.
    pub fn next_step(&mut self) -> (step: Step)
        requires
            old(self).wf(),
        ensures
            final(self).wf(),
            step_allowed(old(self)@, step@, final(self)@),
    {
        let ghost v0 = self@;
        match self.waiting {
            Some(cidx) => {
                return Step::Wait { cidx };
            },
            None => {},
        }
        if self.ops_waited >= self.total_ops {
            return Step::Done;
        }
        proof {
            lemma_count_bounds(v0.flying);
        }
        self.timestamp += 1;
        if gen_call_vs_wait(self.ops_called, self.total_ops, &self.flying) {
            let cidx = gen_rand_client(&self.flying, false);
            assert(self.keys[cidx as int].deep_view() == v0.keys[cidx as int]);
            let call = gen_rand_kvcall(&self.keys[cidx], &mut self.stats, cidx);
            let ghost memo0 = self.call_memo.deep_view();
            self.call_memo[cidx] = (self.timestamp, call.update_info());
            assert(self.call_memo.deep_view() =~= memo0.update(
                cidx as int,
                (self.timestamp, update_of(call@)),
            ));
            bits_set(&mut self.flying, cidx, true);
            self.ops_called += 1;
            proof {
                lemma_count_update(v0.flying, cidx as int, true);
                let v1 = self@;
                assert forall|c: int| 0 <= c < v1.keys.len() implies (#[trigger] v1.keys[c]).len() > 0
                    && v1.stats.keys_freq[c].len() == v1.keys[c].len() by {}
            }
            Step::Call { cidx, call }
        } else {
            let cidx = gen_rand_client(&self.flying, true);
            self.waiting = Some(cidx);
            Step::Wait { cidx }
        }
    }

    /// Takes the response that the run has asked for: queues it for its
    /// check and, where the call was an update, applies the update to the
    /// history.
    pub fn harvest(&mut self, resp: KvResp) -> (outcome: Outcome)
        requires
            old(self).wf(),
            old(self)@.waiting is Some,
        ensures
            final(self).wf(),
            (final(self)@, outcome@) == harvest_spec(old(self)@, resp@),
    {
        let ghost v0 = self@;
        let cidx = self.waiting.unwrap();
        if let KvResp::Stop = resp {
            return Outcome::UnexpectedStop { cidx, timestamp: self.timestamp };
        }
        let ghost memo0 = self.call_memo.deep_view();
        let mut memo: Memo = (0, None);
        std::mem::swap(&mut self.call_memo[cidx], &mut memo);
        assert(self.call_memo.deep_view() =~= memo0.update(
            cidx as int,
            (0u64, None::<(Seq<char>, Option<Seq<char>>)>),
        ));
        let (ts_call, update) = memo;
        let ts_resp = self.timestamp;
        self.history.add_to_queue(ts_call, ts_resp, resp);
        let ghost queued = self.history@;
        let verdict = match update {
            Some((key, value)) => {
                proof {
                    if index_of(queued.keys, key@) is Some {
                        let k = index_of(queued.keys, key@).unwrap();
                        assert(queued.spans[k][cidx as int].last().ts_resp
                            <= queued.maxtr[cidx as int]);
                    }
                }
                self.history.apply_update(cidx, ts_call, ts_resp, key, value)
            },
            None => Verdict::Pass,
        };
        bits_set(&mut self.flying, cidx, false);
        self.ops_waited += 1;
        self.waiting = None;
        proof {
            lemma_harvest_keeps_wf(v0, resp@);
        }
        match verdict {
            Verdict::Pass => Outcome::Harvested,
            Verdict::UnexpectedKey => Outcome::UnexpectedKey { cidx, ts_call, ts_resp },
            Verdict::Violation(failed) => Outcome::Violation { cidx, ts_call, ts_resp, resp: failed },
        }
    }
}

/// How a round of fuzzing ended.
#[derive(Debug, PartialEq, Eq, Clone, Copy, Structural)]
pub enum FuzzResult {
    /// No check failed, and few responses were left unchecked.
    Passed,
    /// No check failed, but so many responses were left unchecked that the
    /// run shows nothing: some client lagged far behind the others.
    Unfair,
    /// A check failed.
    Failed,
}

/// The result of a round: `remaining` is the number of responses left
/// unchecked, or `None` where a check failed.
pub fn fuzz_result(remaining: Option<usize>) -> (result: FuzzResult)
    ensures
        result == match remaining {
            None => FuzzResult::Failed,
            Some(n) => if n >= REMAIN_THRESH {
                FuzzResult::Unfair
            } else {
                FuzzResult::Passed
            },
        },
{
    match remaining {
        None => FuzzResult::Failed,
        Some(n) => if n >= REMAIN_THRESH {
            FuzzResult::Unfair
        } else {
            FuzzResult::Passed
        },
    }
}

/// The exit code of the fuzz tester for a round: 0 where no check failed,
/// 1 where one did.
pub fn exit_code(result: FuzzResult) -> (code: u8)
    ensures
        code == if result == FuzzResult::Failed {
            1u8
        } else {
            0u8
        },
{
    match result {
        FuzzResult::Failed => 1,
        _ => 0,
    }
}

/// The seconds to wait before a round with `num_clis` clients starts: three
/// tenths of a second for each client, rounded up to whole seconds.
pub fn settle_secs(num_clis: usize) -> (secs: u64)
    ensures
        10 * secs >= 3 * num_clis,
        10 * (secs - 1) < 3 * num_clis,
{
    let tenths: u128 = 3 * (num_clis as u128);
    ((tenths + 9) / 10) as u64
}

/// Whether the progress line is due after `ops_waited` harvests of
/// `total_ops`: at every hundredth of the run, and at its end.
pub fn progress_due(ops_waited: usize, total_ops: usize) -> (due: bool)
    requires
        total_ops >= 100,
    ensures
        due == (ops_waited as int % (total_ops as int / 100) == 0 || ops_waited == total_ops),
{
    ops_waited % (total_ops / 100) == 0 || ops_waited == total_ops
}

} // verus!
