//! What holds of the history checker whatever the history: trimming takes
//! away nothing that a check can need, and responses that no write explains
//! are refused.

use vstd::prelude::*;

use crate::history::{
    accepts, apply_update_spec, drain_queue, history_wf, in_range, is_witness, keep_ts, key_witness,
    lemma_trim_keeps_last, lemma_trim_list, lemma_update_keeps_wf, list_witness, min_of, push_span,
    scan_accepted, scan_lookup, scan_well_formed, sentinel, spans_in_order, trim_bound, trim_count,
    trim_history, trim_list, trim_lists, Expect, HistoryView, QueuedView, SpanView, VerdictView,
};
use crate::ioapi::RespView;
use crate::keymap::{index_of, keys_increase, lemma_index_unique};

verus! {

/// Trimming a valid list for the bound `bound` keeps the first span, takes
/// some spans right behind it, each of which ended before the bound, and
/// leaves the rest as it was, the last span always. Where no span behind
/// the first ended before the bound, nothing is taken.
pub proof fn lemma_trim_sound(l: Seq<SpanView>, bound: u64)
    requires
        spans_in_order(l),
    ensures
        ({
            let keep = keep_ts(l, bound);
            let n = trim_count(l, keep) as int;
            &&& 0 <= n < l.len()
            &&& trim_list(l, keep) == seq![l[0]] + l.skip(1 + n)
            &&& trim_list(l, keep)[0] == l[0]
            &&& trim_list(l, keep).last() == l.last()
            &&& forall|j: int| 1 <= j <= n ==> (#[trigger] l[j]).ts_resp < bound
            &&& (forall|j: int| 1 <= j < l.len() ==> (#[trigger] l[j]).ts_resp >= bound) ==> n == 0
        }),
{
    let keep = keep_ts(l, bound);
    let n = trim_count(l, keep) as int;
    lemma_trim_list(l, keep);
    lemma_trim_keeps_last(l, bound);
    if n > 0 {
        assert(l[1].ts_resp < bound);
    }
}

/// An update trims every list soundly: the list that the history holds
/// afterwards is the list with the update applied, without some spans
/// right behind its first that all ended before the bound of the trimming.
/// The opening span stays at the head of every list.
pub proof fn lemma_update_trims_soundly(h: HistoryView, cidx: int, key: Seq<char>, span: SpanView)
    requires
        history_wf(h),
        0 <= cidx < h.maxtr.len(),
        span.ts_call < span.ts_resp,
        index_of(h.keys, key) is Some,
        h.spans[index_of(h.keys, key).unwrap()][cidx].last().ts_resp < span.ts_call,
    ensures
        ({
            let p = push_span(h, index_of(h.keys, key).unwrap(), cidx, span);
            let after = apply_update_spec(h, cidx, key, span).0;
            forall|k: int, c: int|
                0 <= k < p.spans.len() && 0 <= c < p.spans[k].len() ==> {
                    let l = #[trigger] p.spans[k][c];
                    let n = trim_count(l, keep_ts(l, trim_bound(p))) as int;
                    &&& 0 <= n < l.len()
                    &&& after.spans[k][c] == seq![sentinel()] + l.skip(1 + n)
                    &&& after.spans[k][c][0] == sentinel()
                    &&& forall|j: int| 1 <= j <= n ==> (#[trigger] l[j]).ts_resp < trim_bound(p)
                }
        }),
{
    let kk = index_of(h.keys, key).unwrap();
    let p = push_span(h, kk, cidx, span);
    crate::history::lemma_apply_keeps_wf(h, kk, cidx, span);
    let after = apply_update_spec(h, cidx, key, span).0;
    assert forall|k: int, c: int| 0 <= k < p.spans.len() && 0 <= c < p.spans[k].len() implies {
        let l = #[trigger] p.spans[k][c];
        let n = trim_count(l, keep_ts(l, trim_bound(p))) as int;
        &&& 0 <= n < l.len()
        &&& after.spans[k][c] == seq![sentinel()] + l.skip(1 + n)
        &&& after.spans[k][c][0] == sentinel()
        &&& forall|j: int| 1 <= j <= n ==> (#[trigger] l[j]).ts_resp < trim_bound(p)
    } by {
        assert(spans_in_order(p.spans[k][c]));
        assert(p.spans[k][c][0] == sentinel());
        lemma_trim_sound(p.spans[k][c], trim_bound(p));
    }
}

/// The opening span is never taken away: after an update every list of the
/// history still begins with it.
pub proof fn lemma_update_keeps_sentinel(h: HistoryView, cidx: int, key: Seq<char>, span: SpanView)
    requires
        history_wf(h),
        0 <= cidx < h.maxtr.len(),
        span.ts_call < span.ts_resp,
        match index_of(h.keys, key) {
            Some(k) => h.spans[k][cidx].last().ts_resp < span.ts_call,
            None => true,
        },
    ensures
        forall|k: int, c: int|
            0 <= k < h.keys.len() && 0 <= c < h.maxtr.len() ==> (#[trigger] apply_update_spec(
                h,
                cidx,
                key,
                span,
            ).0.spans[k][c])[0] == sentinel(),
{
    lemma_update_keeps_wf(h, cidx, key, span);
    let after = apply_update_spec(h, cidx, key, span).0;
    assert forall|k: int, c: int| 0 <= k < h.keys.len() && 0 <= c < h.maxtr.len() implies (
    #[trigger] after.spans[k][c])[0] == sentinel() by {
        assert(after.spans[k].len() == after.maxtr.len());
    }
}

/// Trimming leaves every check as it was. A response whose call came no
/// earlier than the bound of the trimming is explained by the trimmed list
/// where the whole list explains it, and only there: the span whose call
/// time is kept stays and ended before the call, so no check looks behind
/// it.
pub proof fn lemma_trim_keeps_witness(
    l: Seq<SpanView>,
    bound: u64,
    ts_call: u64,
    ts_resp: u64,
    expect: Expect,
)
    requires
        spans_in_order(l),
        bound <= ts_call,
    ensures
        list_witness(trim_list(l, keep_ts(l, bound)), ts_call, ts_resp, expect) == list_witness(
            l,
            ts_call,
            ts_resp,
            expect,
        ),
{
    let keep = keep_ts(l, bound);
    let n = trim_count(l, keep) as int;
    let t = trim_list(l, keep);
    lemma_trim_list(l, keep);
    lemma_trim_keeps_last(l, bound);
    if n > 0 {
        let s = choose|s: int|
            n < s < l.len() && (#[trigger] l[s]).ts_call == keep && l[s].ts_resp < bound;
        assert(forall|j: int| 1 <= j < t.len() ==> t[j] == l[j + n]);
        assert(t[s - n] == l[s]);
        if list_witness(l, ts_call, ts_resp, expect) {
            let i = choose|i: int| is_witness(l, i, ts_call, ts_resp, expect);
            assert(i >= s) by {
                if i < s {
                    assert(l[s].ts_resp >= ts_call);
                }
            }
            assert(is_witness(t, i - n, ts_call, ts_resp, expect)) by {
                assert(t[i - n] == l[i]);
                assert forall|j: int| i - n < j < t.len() implies (#[trigger] t[j]).ts_resp
                    >= ts_call by {
                    assert(t[j] == l[j + n]);
                    assert(l[j + n].ts_resp >= ts_call);
                }
            }
        }
        if list_witness(t, ts_call, ts_resp, expect) {
            let i = choose|i: int| is_witness(t, i, ts_call, ts_resp, expect);
            assert(i >= s - n) by {
                if i < s - n {
                    assert(t[s - n].ts_resp >= ts_call);
                }
            }
            assert(is_witness(l, i + n, ts_call, ts_resp, expect)) by {
                assert(t[i] == l[i + n]);
                assert forall|j: int| i + n < j < l.len() implies (#[trigger] l[j]).ts_resp
                    >= ts_call by {
                    assert(t[j - n] == l[j]);
                    assert(t[j - n].ts_resp >= ts_call);
                }
            }
        }
    } else {
        assert(t =~= l);
    }
}

/// What a response claims of `key`: nothing, where the response is not
/// about the key.
pub open spec fn claim_of(resp: RespView, key: Seq<char>) -> Option<Expect> {
    match resp {
        RespView::Put { key: k, found } => if k == key {
            Some(Expect::Presence(found))
        } else {
            None
        },
        RespView::Swap { key: k, old_value } => if k == key {
            Some(Expect::Value(old_value))
        } else {
            None
        },
        RespView::Get { key: k, value } => if k == key {
            Some(Expect::Value(value))
        } else {
            None
        },
        RespView::Scan { key_start, key_end, entries } => if in_range(key, key_start, key_end) {
            Some(Expect::Value(scan_lookup(entries, key)))
        } else {
            None
        },
        RespView::Delete { key: k, found } => if k == key {
            Some(Expect::Presence(found))
        } else {
            None
        },
        RespView::Stop => None,
    }
}

/// A response that a check can accept at all: it is about a known key, or
/// it is a scan whose entries stand on their own.
pub open spec fn well_shaped(resp: RespView, keys: Seq<Seq<char>>) -> bool {
    match resp {
        RespView::Put { key, found } => index_of(keys, key) is Some,
        RespView::Swap { key, old_value } => index_of(keys, key) is Some,
        RespView::Get { key, value } => index_of(keys, key) is Some,
        RespView::Scan { key_start, key_end, entries } => scan_well_formed(
            entries,
            key_start,
            key_end,
        ),
        RespView::Delete { key, found } => index_of(keys, key) is Some,
        RespView::Stop => false,
    }
}

/// A response is accepted where it is well shaped and each of its claims
/// has a witness.
pub proof fn lemma_accepts_by_claims(keys: Seq<Seq<char>>, spans: Seq<Seq<Seq<SpanView>>>, e: QueuedView)
    requires
        keys_increase(keys),
    ensures
        accepts(keys, spans, e) == (well_shaped(e.resp, keys) && forall|q: int|
            0 <= q < keys.len() && claim_of(e.resp, #[trigger] keys[q]) is Some ==> key_witness(
                spans[q],
                e.ts_call,
                e.ts_resp,
                claim_of(e.resp, keys[q]).unwrap(),
            )),
{
    match e.resp {
        RespView::Scan { key_start, key_end, entries } => {},
        RespView::Stop => {},
        _ => {
            let key = match e.resp {
                RespView::Put { key, found } => key,
                RespView::Swap { key, old_value } => key,
                RespView::Get { key, value } => key,
                RespView::Delete { key, found } => key,
                _ => arbitrary(),
            };
            if index_of(keys, key) is Some {
                if accepts(keys, spans, e) {
                    assert forall|q: int|
                        0 <= q < keys.len() && claim_of(e.resp, #[trigger] keys[q]) is Some implies key_witness(
                        spans[q],
                        e.ts_call,
                        e.ts_resp,
                        claim_of(e.resp, keys[q]).unwrap(),
                    ) by {
                        lemma_index_unique(keys, q);
                    }
                }
            }
        },
    }
}

/// Trimming leaves every check of a key as it was, for a response whose
/// call came no earlier than the bound of the trimming.
pub proof fn lemma_trim_keeps_key_witness(
    lists: Seq<Seq<SpanView>>,
    bound: u64,
    ts_call: u64,
    ts_resp: u64,
    expect: Expect,
)
    requires
        forall|d: int| 0 <= d < lists.len() ==> spans_in_order(#[trigger] lists[d]),
        bound <= ts_call,
    ensures
        key_witness(trim_lists(lists, bound), ts_call, ts_resp, expect) == key_witness(
            lists,
            ts_call,
            ts_resp,
            expect,
        ),
{
    let trimmed = trim_lists(lists, bound);
    assert forall|d: int| 0 <= d < lists.len() implies list_witness(
        #[trigger] trimmed[d],
        ts_call,
        ts_resp,
        expect,
    ) == list_witness(lists[d], ts_call, ts_resp, expect) by {
        lemma_trim_keeps_witness(lists[d], bound, ts_call, ts_resp, expect);
    }
    if key_witness(lists, ts_call, ts_resp, expect) {
        let d = choose|d: int|
            0 <= d < lists.len() && list_witness(#[trigger] lists[d], ts_call, ts_resp, expect);
        assert(list_witness(trimmed[d], ts_call, ts_resp, expect));
    }
}

/// Trimming a history leaves every check as it was: a response whose call
/// came no earlier than the bound of the trimming is accepted by the
/// trimmed history where the whole history accepts it, and only there. So
/// it is with every queued response.
pub proof fn lemma_trim_keeps_accepts(h: HistoryView, e: QueuedView)
    requires
        history_wf(h),
        trim_bound(h) <= e.ts_call,
    ensures
        accepts(h.keys, trim_history(h).spans, e) == accepts(h.keys, h.spans, e),
{
    let t = trim_history(h);
    let bound = trim_bound(h);
    lemma_accepts_by_claims(h.keys, h.spans, e);
    lemma_accepts_by_claims(h.keys, t.spans, e);
    assert forall|q: int|
        0 <= q < h.keys.len() && claim_of(e.resp, #[trigger] h.keys[q]) is Some implies key_witness(
        t.spans[q],
        e.ts_call,
        e.ts_resp,
        claim_of(e.resp, h.keys[q]).unwrap(),
    ) == key_witness(h.spans[q], e.ts_call, e.ts_resp, claim_of(e.resp, h.keys[q]).unwrap()) by {
        assert forall|d: int| 0 <= d < h.spans[q].len() implies spans_in_order(
            #[trigger] h.spans[q][d],
        ) by {}
        lemma_trim_keeps_key_witness(
            h.spans[q],
            bound,
            e.ts_call,
            e.ts_resp,
            claim_of(e.resp, h.keys[q]).unwrap(),
        );
    }
}

/// An update reports the first queued response that the history does not
/// explain once the update is applied and the lists are trimmed, where that
/// response and all before it were acknowledged before the latest update of
/// every client.
pub proof fn lemma_update_reports(h: HistoryView, cidx: int, key: Seq<char>, span: SpanView, i: int)
    requires
        index_of(h.keys, key) is Some,
        0 <= i < h.queue.len(),
        ({
            let t = trim_history(push_span(h, index_of(h.keys, key).unwrap(), cidx, span));
            &&& forall|j: int| 0 <= j <= i ==> (#[trigger] h.queue[j]).ts_resp < min_of(t.maxtr)
            &&& forall|j: int| 0 <= j < i ==> accepts(t.keys, t.spans, #[trigger] h.queue[j])
            &&& !accepts(t.keys, t.spans, h.queue[i])
        }),
    ensures
        apply_update_spec(h, cidx, key, span).1 == VerdictView::Violation(h.queue[i].resp),
        apply_update_spec(h, cidx, key, span).0.queue == h.queue.skip(i + 1),
{
    let t = trim_history(push_span(h, index_of(h.keys, key).unwrap(), cidx, span));
    lemma_drain_reports(t.keys, t.spans, t.queue, min_of(t.maxtr), i);
}

/// A read of a value that no span of the key holds is not explained.
pub proof fn lemma_unwritten_value_is_refused(
    lists: Seq<Seq<SpanView>>,
    ts_call: u64,
    ts_resp: u64,
    value: Seq<char>,
)
    requires
        forall|c: int, i: int|
            0 <= c < lists.len() && 0 <= i < lists[c].len() ==> (#[trigger] lists[c][i]).value
                != Some(value),
    ensures
        !key_witness(lists, ts_call, ts_resp, Expect::Value(Some(value))),
{
    assert forall|c: int| 0 <= c < lists.len() implies !list_witness(
        #[trigger] lists[c],
        ts_call,
        ts_resp,
        Expect::Value(Some(value)),
    ) by {
        assert forall|i: int| !is_witness(lists[c], i, ts_call, ts_resp, Expect::Value(Some(value))) by {}
    }
}

/// The key is known to be present at `ts_call`: every client's list has a
/// span that ended before `ts_call`, and holds values from that span on.
pub open spec fn present_before(lists: Seq<Seq<SpanView>>, ts_call: u64) -> bool {
    forall|c: int|
        0 <= c < lists.len() ==> exists|i: int|
            0 <= i < (#[trigger] lists[c]).len() && lists[c][i].ts_resp < ts_call && forall|j: int|
                i <= j < lists[c].len() ==> (#[trigger] lists[c][j]).value is Some
}

/// Where a key is known to be present when a call is made, a response that
/// found it absent is not explained: neither a `Put` or `Delete` that did
/// not find the key, nor a read that returned nothing.
pub proof fn lemma_absence_is_refused(lists: Seq<Seq<SpanView>>, ts_call: u64, ts_resp: u64)
    requires
        present_before(lists, ts_call),
    ensures
        !key_witness(lists, ts_call, ts_resp, Expect::Presence(false)),
        !key_witness(lists, ts_call, ts_resp, Expect::Value(None)),
{
    assert forall|c: int| 0 <= c < lists.len() implies !list_witness(
        #[trigger] lists[c],
        ts_call,
        ts_resp,
        Expect::Presence(false),
    ) && !list_witness(lists[c], ts_call, ts_resp, Expect::Value(None)) by {
        let l = lists[c];
        let i = choose|i: int|
            0 <= i < l.len() && l[i].ts_resp < ts_call && forall|j: int|
                i <= j < l.len() ==> (#[trigger] l[j]).value is Some;
        assert forall|w: int|
            !is_witness(l, w, ts_call, ts_resp, Expect::Presence(false)) && !is_witness(
                l,
                w,
                ts_call,
                ts_resp,
                Expect::Value(None),
            ) by {}
    }
}

/// A scan that misses a known key of its range which is known to be
/// present is not explained.
pub proof fn lemma_scan_missing_key_is_refused(
    keys: Seq<Seq<char>>,
    spans: Seq<Seq<Seq<SpanView>>>,
    ts_call: u64,
    ts_resp: u64,
    key_start: Seq<char>,
    key_end: Seq<char>,
    entries: Seq<(Seq<char>, Seq<char>)>,
    k: int,
)
    requires
        0 <= k < keys.len(),
        in_range(keys[k], key_start, key_end),
        forall|i: int| 0 <= i < entries.len() ==> (#[trigger] entries[i]).0 != keys[k],
        present_before(spans[k], ts_call),
    ensures
        !scan_accepted(keys, spans, ts_call, ts_resp, key_start, key_end, entries),
{
    lemma_absence_is_refused(spans[k], ts_call, ts_resp);
}

/// The first queued response that the spans do not explain is reported,
/// where it and all before it were acknowledged before `limit`.
pub proof fn lemma_drain_reports(
    keys: Seq<Seq<char>>,
    spans: Seq<Seq<Seq<SpanView>>>,
    queue: Seq<QueuedView>,
    limit: u64,
    i: int,
)
    requires
        0 <= i < queue.len(),
        forall|j: int| 0 <= j <= i ==> (#[trigger] queue[j]).ts_resp < limit,
        forall|j: int| 0 <= j < i ==> accepts(keys, spans, #[trigger] queue[j]),
        !accepts(keys, spans, queue[i]),
    ensures
        drain_queue(keys, spans, queue, limit) == (queue.skip(i + 1), Some(queue[i].resp)),
    decreases i,
{
    if i > 0 {
        let rest = queue.drop_first();
        assert forall|j: int| 0 <= j <= i - 1 implies (#[trigger] rest[j]).ts_resp < limit by {}
        assert forall|j: int| 0 <= j < i - 1 implies accepts(keys, spans, #[trigger] rest[j]) by {}
        lemma_drain_reports(keys, spans, rest, limit, i - 1);
    }
}

} // verus!
