//! A run against the reference service: every call is answered from one
//! store, at some moment between the call and the harvest of its response.
//! Such a run never fails a check.

use vstd::prelude::*;

use crate::fuzz::{
    fuzz_wf, harvest_spec, lemma_harvest_keeps_wf, lemma_step_keeps_wf, lemma_timestamps_increase,
    step_allowed, FuzzView, OutcomeView, StepView,
};
use crate::history::{
    accepts, drain_queue, fresh_lists, history_wf, is_witness, key_witness, lemma_apply_keeps_wf,
    lemma_queue_keeps_wf, lemma_trim_keeps_last, list_witness, meets, min_of, min_queued, pool_has,
    push_span, spans_in_order, trim_bound, trim_history, Expect, HistoryView, QueuedView, SpanView,
};
use crate::ioapi::{update_of, CallView, RespView};
use crate::keymap::{index_of, keys_increase, lemma_index_unique};
use crate::random::{call_of_draw, kind_of_bucket, recorded, writes_value};
use crate::refcli::{lemma_scan_lookup, lemma_serve_updates, serve, store_get, store_wf, StoreView};
use crate::soundness::{claim_of, lemma_accepts_by_claims, lemma_trim_keeps_witness, well_shaped};

verus! {

/// A span stays a witness when a span is added to its list that ended no
/// earlier than the call of the response.
pub proof fn lemma_push_keeps_witness(
    l: Seq<SpanView>,
    span: SpanView,
    ts_call: u64,
    ts_resp: u64,
    expect: Expect,
)
    requires
        list_witness(l, ts_call, ts_resp, expect),
        span.ts_resp >= ts_call,
    ensures
        list_witness(l.push(span), ts_call, ts_resp, expect),
{
    let i = choose|i: int| is_witness(l, i, ts_call, ts_resp, expect);
    let n = l.push(span);
    assert forall|j: int| i < j < n.len() implies (#[trigger] n[j]).ts_resp >= ts_call by {}
    assert(is_witness(n, i, ts_call, ts_resp, expect));
}

/// A span that is added to a list is a witness for every response that it
/// began before and whose claim it meets.
pub proof fn lemma_pushed_is_witness(
    l: Seq<SpanView>,
    span: SpanView,
    ts_call: u64,
    ts_resp: u64,
    expect: Expect,
)
    requires
        span.ts_call < ts_resp,
        meets(span.value, expect),
    ensures
        list_witness(l.push(span), ts_call, ts_resp, expect),
{
    assert(is_witness(l.push(span), l.len() as int, ts_call, ts_resp, expect));
}

/// The last span of a list is a witness for every response that it began
/// before and whose claim it meets.
pub proof fn lemma_last_is_witness(l: Seq<SpanView>, ts_call: u64, ts_resp: u64, expect: Expect)
    requires
        l.len() > 0,
        l.last().ts_call < ts_resp,
        meets(l.last().value, expect),
    ensures
        list_witness(l, ts_call, ts_resp, expect),
{
    assert(is_witness(l, l.len() - 1, ts_call, ts_resp, expect));
}

/// A witness for a response that is acknowledged at no time yet is one
/// for the response acknowledged at `ts_resp`, where every span of the
/// list began before.
pub proof fn lemma_witness_at(
    l: Seq<SpanView>,
    ts_call: u64,
    ts_resp: u64,
    expect: Expect,
)
    requires
        list_witness(l, ts_call, u64::MAX, expect),
        forall|i: int| 0 <= i < l.len() ==> (#[trigger] l[i]).ts_call < ts_resp,
    ensures
        list_witness(l, ts_call, ts_resp, expect),
{
    let i = choose|i: int| is_witness(l, i, ts_call, u64::MAX, expect);
    assert(is_witness(l, i, ts_call, ts_resp, expect));
}

/// The responses of a queue that were acknowledged before `limit` pass
/// where the spans explain each of them. What is left of the queue are
/// the responses from some place on.
pub proof fn lemma_drain_passes(
    keys: Seq<Seq<char>>,
    spans: Seq<Seq<Seq<SpanView>>>,
    queue: Seq<QueuedView>,
    limit: u64,
)
    requires
        forall|i: int|
            0 <= i < queue.len() && (#[trigger] queue[i]).ts_resp < limit ==> accepts(
                keys,
                spans,
                queue[i],
            ),
    ensures
        drain_queue(keys, spans, queue, limit).1 is None,
        exists|n: int|
            0 <= n <= queue.len() && drain_queue(keys, spans, queue, limit).0 == queue.skip(n),
    decreases queue.len(),
{
    if queue.len() > 0 && queue[0].ts_resp < limit {
        let rest = queue.drop_first();
        assert forall|i: int| 0 <= i < rest.len() && (#[trigger] rest[i]).ts_resp < limit implies accepts(
            keys,
            spans,
            rest[i],
        ) by {}
        lemma_drain_passes(keys, spans, rest, limit);
        let n = choose|n: int|
            0 <= n <= rest.len() && drain_queue(keys, spans, rest, limit).0 == rest.skip(n);
        assert(rest.skip(n) =~= queue.skip(n + 1));
    } else {
        assert(queue.skip(0) =~= queue);
    }
}

/// An update that the service has applied and whose response is not
/// harvested yet: the time of its call, its key, and the value written.
pub struct Flight {
    pub ts_call: u64,
    pub key: Seq<char>,
    pub value: Option<Seq<char>>,
}

/// The update will be a witness for a claim on `key` of a response that is
/// acknowledged at `ts_resp`, once it is applied to the history.
pub open spec fn flight_explains(f: Option<Flight>, key: Seq<char>, ts_resp: u64, expect: Expect) -> bool {
    f matches Some(u) && u.key == key && meets(u.value, expect) && u.ts_call < ts_resp
}

/// A claim on `key` is explained: a span of the key is a witness for it, or
/// an update in flight will be one.
pub open spec fn explained_key(
    lists: Seq<Seq<SpanView>>,
    flights: Seq<Option<Flight>>,
    key: Seq<char>,
    ts_call: u64,
    ts_resp: u64,
    expect: Expect,
) -> bool {
    key_witness(lists, ts_call, ts_resp, expect) || exists|d: int|
        0 <= d < flights.len() && flight_explains(#[trigger] flights[d], key, ts_resp, expect)
}

/// A response is explained: it is well shaped, and each of its claims is
/// explained.
pub open spec fn explained(
    keys: Seq<Seq<char>>,
    spans: Seq<Seq<Seq<SpanView>>>,
    flights: Seq<Option<Flight>>,
    e: QueuedView,
) -> bool {
    &&& well_shaped(e.resp, keys)
    &&& forall|q: int|
        0 <= q < keys.len() && claim_of(e.resp, #[trigger] keys[q]) is Some ==> explained_key(
            spans[q],
            flights,
            keys[q],
            e.ts_call,
            e.ts_resp,
            claim_of(e.resp, keys[q]).unwrap(),
        )
}

/// The list of a client, or its update in flight, carries the value `cur`
/// of `key`.
pub open spec fn source_at(l: Seq<SpanView>, f: Option<Flight>, key: Seq<char>, cur: Option<Seq<char>>) -> bool {
    if f is Some && f.unwrap().key == key {
        f.unwrap().value == cur
    } else {
        l.last().value == cur
    }
}

/// The value `cur` that the service holds for `key` has a source: the
/// update of some client, in flight or the last of its list.
pub open spec fn sourced(
    lists: Seq<Seq<SpanView>>,
    flights: Seq<Option<Flight>>,
    key: Seq<char>,
    cur: Option<Seq<char>>,
) -> bool {
    exists|d: int|
        0 <= d < lists.len() && d < flights.len() && source_at(
            #[trigger] lists[d],
            flights[d],
            key,
            cur,
        )
}

/// The update that `span` is, as a flight.
pub open spec fn flight_of_span(key: Seq<char>, span: SpanView) -> Flight {
    Flight { ts_call: span.ts_call, key, value: span.value }
}

/// Whether the flight of client `x` is nothing or the update `span` of
/// `key`.
pub open spec fn lands(flights: Seq<Option<Flight>>, x: int, key: Seq<char>, span: SpanView) -> bool {
    0 <= x < flights.len() && (flights[x] is None || flights[x] == Some(flight_of_span(key, span)))
}

/// A claim that was explained stays explained when client `x` lands its
/// update in the history: when the update is added to its list, and the
/// lists are trimmed for a bound that is no later than the call of the
/// response.
pub proof fn lemma_landing_keeps_claim(
    h: HistoryView,
    kx: int,
    x: int,
    span: SpanView,
    flights: Seq<Option<Flight>>,
    q: int,
    ts_call: u64,
    ts_resp: u64,
    expect: Expect,
)
    requires
        history_wf(h),
        history_wf(push_span(h, kx, x, span)),
        0 <= kx < h.keys.len(),
        0 <= q < h.keys.len(),
        0 <= x < h.maxtr.len(),
        flights.len() == h.maxtr.len(),
        lands(flights, x, h.keys[kx], span),
        explained_key(h.spans[q], flights, h.keys[q], ts_call, ts_resp, expect),
        span.ts_resp >= ts_call,
        trim_bound(push_span(h, kx, x, span)) <= ts_call,
    ensures
        explained_key(
            trim_history(push_span(h, kx, x, span)).spans[q],
            flights.update(x, None),
            h.keys[q],
            ts_call,
            ts_resp,
            expect,
        ),
{
    let p = push_span(h, kx, x, span);
    let t = trim_history(p);
    let bound = trim_bound(p);
    let flights2 = flights.update(x, None);
    if key_witness(h.spans[q], ts_call, ts_resp, expect) {
        let d = choose|d: int|
            0 <= d < h.spans[q].len() && list_witness(
                #[trigger] h.spans[q][d],
                ts_call,
                ts_resp,
                expect,
            );
        if q == kx && d == x {
            lemma_push_keeps_witness(h.spans[q][d], span, ts_call, ts_resp, expect);
        }
        lemma_trim_keeps_witness(p.spans[q][d], bound, ts_call, ts_resp, expect);
        assert(list_witness(t.spans[q][d], ts_call, ts_resp, expect));
    } else {
        let d = choose|d: int|
            0 <= d < flights.len() && flight_explains(
                #[trigger] flights[d],
                h.keys[q],
                ts_resp,
                expect,
            );
        if d == x {
            lemma_index_unique(h.keys, q);
            lemma_index_unique(h.keys, kx);
            lemma_pushed_is_witness(h.spans[kx][x], span, ts_call, ts_resp, expect);
            lemma_trim_keeps_witness(p.spans[q][x], bound, ts_call, ts_resp, expect);
            assert(list_witness(t.spans[q][x], ts_call, ts_resp, expect));
        } else {
            assert(flights2[d] == flights[d]);
        }
    }
}

/// A response that was explained stays explained when client `x` lands
/// its update in the history.
pub proof fn lemma_landing_keeps_explained(
    h: HistoryView,
    kx: int,
    x: int,
    span: SpanView,
    flights: Seq<Option<Flight>>,
    e: QueuedView,
)
    requires
        history_wf(h),
        history_wf(push_span(h, kx, x, span)),
        0 <= kx < h.keys.len(),
        0 <= x < h.maxtr.len(),
        flights.len() == h.maxtr.len(),
        lands(flights, x, h.keys[kx], span),
        explained(h.keys, h.spans, flights, e),
        span.ts_resp >= e.ts_call,
        trim_bound(push_span(h, kx, x, span)) <= e.ts_call,
    ensures
        explained(
            h.keys,
            trim_history(push_span(h, kx, x, span)).spans,
            flights.update(x, None),
            e,
        ),
{
    let t = trim_history(push_span(h, kx, x, span));
    assert forall|q: int|
        0 <= q < h.keys.len() && claim_of(e.resp, #[trigger] h.keys[q]) is Some implies explained_key(
        t.spans[q],
        flights.update(x, None),
        h.keys[q],
        e.ts_call,
        e.ts_resp,
        claim_of(e.resp, h.keys[q]).unwrap(),
    ) by {
        lemma_landing_keeps_claim(
            h,
            kx,
            x,
            span,
            flights,
            q,
            e.ts_call,
            e.ts_resp,
            claim_of(e.resp, h.keys[q]).unwrap(),
        );
    }
}

/// The source of a value stays its source when client `x` lands its update
/// in the history.
pub proof fn lemma_landing_keeps_source(
    h: HistoryView,
    kx: int,
    x: int,
    span: SpanView,
    flights: Seq<Option<Flight>>,
    q: int,
    cur: Option<Seq<char>>,
)
    requires
        history_wf(h),
        history_wf(push_span(h, kx, x, span)),
        0 <= kx < h.keys.len(),
        0 <= q < h.keys.len(),
        0 <= x < h.maxtr.len(),
        flights.len() == h.maxtr.len(),
        flights[x] == Some(flight_of_span(h.keys[kx], span)),
        sourced(h.spans[q], flights, h.keys[q], cur),
    ensures
        sourced(
            trim_history(push_span(h, kx, x, span)).spans[q],
            flights.update(x, None),
            h.keys[q],
            cur,
        ),
{
    let p = push_span(h, kx, x, span);
    let t = trim_history(p);
    let bound = trim_bound(p);
    let flights2 = flights.update(x, None);
    let d = choose|d: int|
        0 <= d < h.spans[q].len() && d < flights.len() && source_at(
            #[trigger] h.spans[q][d],
            flights[d],
            h.keys[q],
            cur,
        );
    assert(spans_in_order(p.spans[q][d]));
    lemma_trim_keeps_last(p.spans[q][d], bound);
    if h.keys[q] == h.keys[kx] {
        lemma_index_unique(h.keys, q);
        lemma_index_unique(h.keys, kx);
    }
    assert(source_at(t.spans[q][d], flights2[d], h.keys[q], cur));
}

/// A response that is explained, and that no update in flight can explain
/// because all of them were called after it was acknowledged, is accepted.
pub proof fn lemma_explained_accepts(
    keys: Seq<Seq<char>>,
    spans: Seq<Seq<Seq<SpanView>>>,
    flights: Seq<Option<Flight>>,
    e: QueuedView,
)
    requires
        keys_increase(keys),
        explained(keys, spans, flights, e),
        forall|d: int|
            0 <= d < flights.len() && (#[trigger] flights[d]) is Some ==> flights[d].unwrap().ts_call
                >= e.ts_resp,
    ensures
        accepts(keys, spans, e),
{
    lemma_accepts_by_claims(keys, spans, e);
}

/// A response that is explained while it is acknowledged at no time yet is
/// explained when it is acknowledged at `ts_resp`, after the call of every
/// span and of every update in flight.
pub proof fn lemma_explained_at(
    keys: Seq<Seq<char>>,
    spans: Seq<Seq<Seq<SpanView>>>,
    flights: Seq<Option<Flight>>,
    ts_call: u64,
    ts_resp: u64,
    resp: RespView,
)
    requires
        explained(keys, spans, flights, QueuedView { ts_call, ts_resp: u64::MAX, resp }),
        forall|q: int, d: int, i: int|
            0 <= q < keys.len() && 0 <= d < spans[q].len() && 0 <= i < spans[q][d].len() ==> (
            #[trigger] spans[q][d][i]).ts_call < ts_resp,
        forall|d: int|
            0 <= d < flights.len() && (#[trigger] flights[d]) is Some ==> flights[d].unwrap().ts_call
                < ts_resp,
    ensures
        explained(keys, spans, flights, QueuedView { ts_call, ts_resp, resp }),
{
    assert forall|q: int|
        0 <= q < keys.len() && claim_of(resp, #[trigger] keys[q]) is Some implies explained_key(
        spans[q],
        flights,
        keys[q],
        ts_call,
        ts_resp,
        claim_of(resp, keys[q]).unwrap(),
    ) by {
        let expect = claim_of(resp, keys[q]).unwrap();
        if key_witness(spans[q], ts_call, u64::MAX, expect) {
            let d = choose|d: int|
                0 <= d < spans[q].len() && list_witness(
                    #[trigger] spans[q][d],
                    ts_call,
                    u64::MAX,
                    expect,
                );
            assert forall|i: int| 0 <= i < spans[q][d].len() implies (#[trigger] spans[q][d][i]).ts_call < ts_resp by {}
            lemma_witness_at(spans[q][d], ts_call, ts_resp, expect);
        }
    }
}

/// No queued response was called before the earliest queued call.
pub proof fn lemma_min_queued_le(queue: Seq<QueuedView>, i: int)
    requires
        0 <= i < queue.len(),
    ensures
        min_queued(queue) <= queue[i].ts_call,
    decreases queue.len(),
{
    if i < queue.len() - 1 {
        lemma_min_queued_le(queue.drop_last(), i);
    }
}

/// The least of some numbers is above none of them.
pub proof fn lemma_min_of_le(s: Seq<u64>, i: int)
    requires
        0 <= i < s.len(),
    ensures
        min_of(s) <= s[i],
    decreases s.len(),
{
    if i < s.len() - 1 {
        lemma_min_of_le(s.drop_last(), i);
    }
}

/// A response that is explained stays explained when more updates are in
/// flight.
pub proof fn lemma_explained_by_more(
    keys: Seq<Seq<char>>,
    spans: Seq<Seq<Seq<SpanView>>>,
    flights: Seq<Option<Flight>>,
    more: Seq<Option<Flight>>,
    e: QueuedView,
)
    requires
        explained(keys, spans, flights, e),
        more.len() == flights.len(),
        forall|d: int| 0 <= d < flights.len() && (#[trigger] flights[d]) is Some ==> more[d] == flights[d],
    ensures
        explained(keys, spans, more, e),
{
    assert forall|q: int|
        0 <= q < keys.len() && claim_of(e.resp, #[trigger] keys[q]) is Some implies explained_key(
        spans[q],
        more,
        keys[q],
        e.ts_call,
        e.ts_resp,
        claim_of(e.resp, keys[q]).unwrap(),
    ) by {}
}

/// A claim that the value of a key meets is explained, for a response
/// that is acknowledged at no time yet, by the source of the value.
pub proof fn lemma_source_explains(
    lists: Seq<Seq<SpanView>>,
    flights: Seq<Option<Flight>>,
    key: Seq<char>,
    cur: Option<Seq<char>>,
    ts_call: u64,
    expect: Expect,
)
    requires
        sourced(lists, flights, key, cur),
        meets(cur, expect),
        forall|d: int| 0 <= d < lists.len() ==> (#[trigger] lists[d]).len() > 0 && lists[d].last().ts_call < u64::MAX,
        forall|d: int|
            0 <= d < flights.len() && (#[trigger] flights[d]) is Some ==> flights[d].unwrap().ts_call
                < u64::MAX,
    ensures
        explained_key(lists, flights, key, ts_call, u64::MAX, expect),
{
    let d = choose|d: int|
        0 <= d < lists.len() && d < flights.len() && source_at(
            #[trigger] lists[d],
            flights[d],
            key,
            cur,
        );
    if !(flights[d] is Some && flights[d].unwrap().key == key) {
        lemma_last_is_witness(lists[d], ts_call, u64::MAX, expect);
    }
}

/// A run whose calls the reference service answers: the run, what the
/// service holds, and for each client the call that it has made and the
/// response that the service has given, as long as the response is not
/// harvested.
pub struct ServedView {
    pub run: FuzzView,
    pub store: StoreView,
    pub calls: Seq<Option<CallView>>,
    pub answers: Seq<Option<RespView>>,
}

/// The update in flight of client `d`: the update of its call, once the
/// service has answered the call.
pub open spec fn flight_of(s: ServedView, d: int) -> Option<Flight> {
    if s.calls[d] is Some && s.answers[d] is Some {
        match update_of(s.calls[d].unwrap()) {
            Some((key, value)) => Some(Flight { ts_call: s.run.memo[d].0, key, value }),
            None => None,
        }
    } else {
        None
    }
}

/// The updates in flight, client by client.
pub open spec fn flights_of(s: ServedView) -> Seq<Option<Flight>> {
    Seq::new(s.calls.len(), |d: int| flight_of(s, d))
}

/// A call on known keys: the key of a call on one key is known; a scan is
/// on known keys whatever its range; a `Stop` is no call of a run.
pub open spec fn call_is_known(call: CallView, keys: Seq<Seq<char>>) -> bool {
    match call {
        CallView::Put { key, value } => index_of(keys, key) is Some,
        CallView::Swap { key, value } => index_of(keys, key) is Some,
        CallView::Get { key } => index_of(keys, key) is Some,
        CallView::Scan { key_start, key_end } => true,
        CallView::Delete { key } => index_of(keys, key) is Some,
        CallView::Stop => false,
    }
}

/// What holds of client `c`: it waits for a response where it has made a
/// call; the memo of the run is that of the call, which is on known keys;
/// and the response that the service has given is explained.
pub open spec fn client_ok(s: ServedView, c: int) -> bool {
    let v = s.run;
    let h = v.history;
    &&& v.flying[c] == (s.calls[c] is Some)
    &&& s.answers[c] is Some ==> s.calls[c] is Some
    &&& s.calls[c] is Some ==> v.memo[c].1 == update_of(s.calls[c].unwrap()) && call_is_known(
        s.calls[c].unwrap(),
        h.keys,
    )
    &&& s.answers[c] is Some ==> explained(
        h.keys,
        h.spans,
        flights_of(s),
        QueuedView { ts_call: v.memo[c].0, ts_resp: u64::MAX, resp: s.answers[c].unwrap() },
    )
}

/// What holds of every state of a run that the reference service answers:
/// the run and the store are valid, every key of a pool is known, the
/// value of every known key has a source, and every response that is
/// queued or in flight is explained.
pub open spec fn served_inv(s: ServedView) -> bool {
    let v = s.run;
    let h = v.history;
    let n = v.keys.len();
    &&& fuzz_wf(v)
    &&& store_wf(s.store)
    &&& s.calls.len() == n
    &&& s.answers.len() == n
    &&& forall|c: int, i: int|
        0 <= c < n && 0 <= i < v.keys[c].len() ==> index_of(h.keys, #[trigger] v.keys[c][i]) is Some
    &&& forall|c: int| 0 <= c < n ==> #[trigger] client_ok(s, c)
    &&& forall|q: int|
        0 <= q < h.keys.len() ==> sourced(
            #[trigger] h.spans[q],
            flights_of(s),
            h.keys[q],
            store_get(s.store, h.keys[q]),
        )
    &&& forall|i: int|
        0 <= i < h.queue.len() ==> explained(h.keys, h.spans, flights_of(s), #[trigger] h.queue[i])
}

/// The start of a run: nothing has happened, and the service holds
/// nothing.
pub open spec fn is_start(s: ServedView) -> bool {
    let v = s.run;
    let h = v.history;
    let n = v.keys.len();
    &&& fuzz_wf(v)
    &&& h.queue.len() == 0
    &&& forall|q: int| 0 <= q < h.spans.len() ==> #[trigger] h.spans[q] == fresh_lists(n)
    &&& forall|key: Seq<char>| h.keys.contains(key) <==> pool_has(v.keys, key)
    &&& forall|c: int| 0 <= c < n ==> !#[trigger] v.flying[c]
    &&& s.store.keys.len() == 0
    &&& s.store.values.len() == 0
    &&& s.calls == Seq::new(n, |c: int| None::<CallView>)
    &&& s.answers == Seq::new(n, |c: int| None::<RespView>)
}

/// The run makes a call: client `cidx` is sent `call`, which the service
/// has not answered yet.
pub open spec fn call_step(s: ServedView, cidx: usize, call: CallView, next: ServedView) -> bool {
    &&& step_allowed(s.run, StepView::Call { cidx, call }, next.run)
    &&& next.store == s.store
    &&& next.calls == s.calls.update(cidx as int, Some(call))
    &&& next.answers == s.answers.update(cidx as int, None)
}

/// The run asks for the response of client `cidx`.
pub open spec fn wait_step(s: ServedView, cidx: usize, next: ServedView) -> bool {
    &&& step_allowed(s.run, StepView::Wait { cidx }, next.run)
    &&& next.store == s.store
    &&& next.calls == s.calls
    &&& next.answers == s.answers
}

/// The service answers the call of client `c` from its store.
pub open spec fn serve_step(s: ServedView, c: int, next: ServedView) -> bool {
    &&& 0 <= c < s.calls.len()
    &&& s.calls[c] is Some
    &&& s.answers[c] is None
    &&& next == ServedView {
        store: serve(s.store, s.calls[c].unwrap()).0,
        answers: s.answers.update(c, Some(serve(s.store, s.calls[c].unwrap()).1)),
        ..s
    }
}

/// The run harvests the response that it has asked for, which the service
/// has given.
pub open spec fn harvest_step(s: ServedView, next: ServedView) -> bool {
    &&& s.run.waiting is Some
    &&& s.answers[s.run.waiting.unwrap() as int] is Some
    &&& next.run == harvest_spec(s.run, s.answers[s.run.waiting.unwrap() as int].unwrap()).0
    &&& next.store == s.store
    &&& next.calls == s.calls.update(s.run.waiting.unwrap() as int, None)
    &&& next.answers == s.answers.update(s.run.waiting.unwrap() as int, None)
}

/// At the start of a run all is as it has to be.
pub proof fn lemma_start_is_sound(s: ServedView)
    requires
        is_start(s),
    ensures
        served_inv(s),
{
    let v = s.run;
    let h = v.history;
    let n = v.keys.len();
    let fl = flights_of(s);
    assert forall|q: int| 0 <= q < h.keys.len() implies sourced(
        #[trigger] h.spans[q],
        fl,
        h.keys[q],
        store_get(s.store, h.keys[q]),
    ) by {
        assert(pool_has(v.keys, h.keys[q]));
        assert(source_at(h.spans[q][0], fl[0], h.keys[q], store_get(s.store, h.keys[q])));
    }
    assert forall|c: int| 0 <= c < n implies #[trigger] client_ok(s, c) by {}
    assert forall|c: int, i: int| 0 <= c < n && 0 <= i < v.keys[c].len() implies index_of(
        h.keys,
        #[trigger] v.keys[c][i],
    ) is Some by {
        assert(h.keys.contains(v.keys[c][i]));
    }
}

/// A call leaves all as it has to be.
pub proof fn lemma_call_is_sound(s: ServedView, cidx: usize, call: CallView, next: ServedView)
    requires
        served_inv(s),
        call_step(s, cidx, call, next),
    ensures
        served_inv(next),
{
    let v = s.run;
    let h = v.history;
    let n = v.keys.len();
    lemma_step_keeps_wf(v, StepView::Call { cidx, call }, next.run);
    assert(flights_of(next) =~= flights_of(s)) by {
        assert forall|d: int| 0 <= d < n implies flight_of(next, d) == flight_of(s, d) by {
            assert(client_ok(s, d));
        }
    }
    assert(call_is_known(call, h.keys)) by {
        let pool = v.keys[cidx as int];
        let (bucket, first, second, value) = choose|
            bucket: int,
            first: int,
            second: int,
            value: Seq<char>,
        |
            {
                &&& 0 <= bucket < 10
                &&& 0 <= first < pool.len()
                &&& 0 <= second < pool.len()
                &&& writes_value(kind_of_bucket(bucket)) ==> value.len() == crate::random::VALUE_LEN
                    && forall|i: int|
                    0 <= i < value.len() ==> crate::random::is_alnum(#[trigger] value[i])
                &&& call == #[trigger] call_of_draw(pool, bucket, first, second, value)
                &&& next.run.stats == recorded(
                    v.stats,
                    cidx as int,
                    kind_of_bucket(bucket),
                    first,
                    second,
                )
            };
    }
    assert forall|c: int| 0 <= c < n implies #[trigger] client_ok(next, c) by {
        assert(client_ok(s, c));
    }
    assert forall|c: int, i: int| 0 <= c < n && 0 <= i < next.run.keys[c].len() implies index_of(
        h.keys,
        #[trigger] next.run.keys[c][i],
    ) is Some by {}
}

/// Asking for a response leaves all as it has to be.
pub proof fn lemma_wait_is_sound(s: ServedView, cidx: usize, next: ServedView)
    requires
        served_inv(s),
        wait_step(s, cidx, next),
    ensures
        served_inv(next),
{
    let v = s.run;
    let h = v.history;
    let n = v.keys.len();
    lemma_step_keeps_wf(v, StepView::Wait { cidx }, next.run);
    assert(flights_of(next) =~= flights_of(s));
    assert forall|c: int| 0 <= c < n implies #[trigger] client_ok(next, c) by {
        assert(client_ok(s, c));
    }
    assert forall|c: int, i: int| 0 <= c < n && 0 <= i < next.run.keys[c].len() implies index_of(
        h.keys,
        #[trigger] next.run.keys[c][i],
    ) is Some by {}
}

/// In a valid state of a run every span began before the greatest number
/// of the clock, and before the clock's time where the run has asked for a
/// response.
pub proof fn lemma_spans_are_past(v: FuzzView)
    requires
        fuzz_wf(v),
    ensures
        v.timestamp < u64::MAX,
        forall|q: int, d: int, i: int|
            0 <= q < v.history.keys.len() && 0 <= d < v.history.spans[q].len() && 0 <= i
                < v.history.spans[q][d].len() ==> (#[trigger] v.history.spans[q][d][i]).ts_call
                <= v.timestamp,
        v.waiting is Some ==> forall|q: int, d: int, i: int|
            0 <= q < v.history.keys.len() && 0 <= d < v.history.spans[q].len() && 0 <= i
                < v.history.spans[q][d].len() ==> (#[trigger] v.history.spans[q][d][i]).ts_call
                < v.timestamp,
{
    let h = v.history;
    assert forall|q: int, d: int, i: int|
        0 <= q < h.keys.len() && 0 <= d < h.spans[q].len() && 0 <= i < h.spans[q][d].len() implies (
    #[trigger] h.spans[q][d][i]).ts_call <= h.maxtr[d] by {}
}

/// An answer of the service leaves all as it has to be.
pub proof fn lemma_serve_is_sound(s: ServedView, c: int, next: ServedView)
    requires
        served_inv(s),
        serve_step(s, c, next),
    ensures
        served_inv(next),
{
    let v = s.run;
    let h = v.history;
    let n = v.keys.len();
    let call = s.calls[c].unwrap();
    let resp = serve(s.store, call).1;
    let fl = flights_of(s);
    let fl2 = flights_of(next);
    let ts_call = v.memo[c].0;
    lemma_serve_updates(s.store, call);
    lemma_spans_are_past(v);
    assert(client_ok(s, c));
    assert forall|d: int| 0 <= d < n && (#[trigger] fl[d]) is Some implies fl2[d] == fl[d]
        && fl[d].unwrap().ts_call < u64::MAX by {
        assert(client_ok(s, d));
    }
    assert forall|i: int| 0 <= i < h.queue.len() implies explained(
        h.keys,
        h.spans,
        fl2,
        #[trigger] h.queue[i],
    ) by {
        lemma_explained_by_more(h.keys, h.spans, fl, fl2, h.queue[i]);
    }
    // The new response is explained by the sources of the values that it
    // tells of.
    let e = QueuedView { ts_call, ts_resp: u64::MAX, resp };
    assert(explained(h.keys, h.spans, fl, e)) by {
        match call {
            CallView::Scan { key_start, key_end } => {
                lemma_scan_lookup(s.store, key_start, key_end, key_start);
            },
            _ => {},
        }
        assert forall|q: int|
            0 <= q < h.keys.len() && claim_of(resp, #[trigger] h.keys[q]) is Some implies explained_key(
            h.spans[q],
            fl,
            h.keys[q],
            ts_call,
            u64::MAX,
            claim_of(resp, h.keys[q]).unwrap(),
        ) by {
            let cur = store_get(s.store, h.keys[q]);
            let expect = claim_of(resp, h.keys[q]).unwrap();
            match call {
                CallView::Scan { key_start, key_end } => {
                    lemma_scan_lookup(s.store, key_start, key_end, h.keys[q]);
                },
                _ => {},
            }
            assert forall|d: int| 0 <= d < h.spans[q].len() implies (#[trigger] h.spans[q][d]).len() > 0
                && h.spans[q][d].last().ts_call < u64::MAX by {}
            lemma_source_explains(h.spans[q], fl, h.keys[q], cur, ts_call, expect);
        }
    }
    lemma_explained_by_more(h.keys, h.spans, fl, fl2, e);
    assert forall|d: int| 0 <= d < n implies #[trigger] client_ok(next, d) by {
        assert(client_ok(s, d));
        if d != c && s.answers[d] is Some {
            lemma_explained_by_more(
                h.keys,
                h.spans,
                fl,
                fl2,
                QueuedView { ts_call: v.memo[d].0, ts_resp: u64::MAX, resp: s.answers[d].unwrap() },
            );
        }
    }
    assert forall|q: int| 0 <= q < h.keys.len() implies sourced(
        #[trigger] h.spans[q],
        fl2,
        h.keys[q],
        store_get(next.store, h.keys[q]),
    ) by {
        let key = h.keys[q];
        match update_of(call) {
            Some((k, value)) => {
                if key == k {
                    assert(source_at(h.spans[q][c], fl2[c], key, store_get(next.store, key)));
                }
            },
            None => {},
        }
    }
}

/// The harvest of an answer of the service passes, and leaves all as it
/// has to be: no check fails in a run that the reference service answers.
pub proof fn lemma_harvest_is_sound(s: ServedView, next: ServedView)
    requires
        served_inv(s),
        harvest_step(s, next),
    ensures
        harvest_spec(s.run, s.answers[s.run.waiting.unwrap() as int].unwrap()).1
            == OutcomeView::Harvested,
        served_inv(next),
{
    let v = s.run;
    let h = v.history;
    let n = v.keys.len();
    let x = v.waiting.unwrap() as int;
    let resp = s.answers[x].unwrap();
    let (ts_call, update) = v.memo[x];
    let ts_resp = v.timestamp;
    let fl = flights_of(s);
    let fl2 = flights_of(next);
    lemma_harvest_keeps_wf(v, resp);
    lemma_spans_are_past(v);
    lemma_timestamps_increase(v);
    assert(client_ok(s, x));
    let entry = QueuedView { ts_call, ts_resp, resp };
    let queued = HistoryView { queue: h.queue.push(entry), ..h };
    assert(fl2 =~= fl.update(x, None)) by {
        assert forall|d: int| 0 <= d < n implies #[trigger] fl2[d] == fl.update(x, None)[d] by {}
    }
    assert forall|d: int| 0 <= d < n && (#[trigger] fl[d]) is Some implies v.flying[d]
        && fl[d].unwrap().ts_call == v.memo[d].0 && v.memo[d].0 < ts_resp by {
        assert(client_ok(s, d));
    }
    lemma_explained_at(h.keys, h.spans, fl, ts_call, ts_resp, resp);
    assert forall|i: int| 0 <= i < queued.queue.len() implies explained(
        h.keys,
        h.spans,
        fl,
        #[trigger] queued.queue[i],
    ) && queued.queue[i].ts_call < ts_resp by {}
    assert forall|c: int, i: int| 0 <= c < n && 0 <= i < next.run.keys[c].len() implies index_of(
        h.keys,
        #[trigger] next.run.keys[c][i],
    ) is Some by {}
    match update {
        None => {
            assert(fl2 =~= fl);
            assert forall|c: int| 0 <= c < n implies #[trigger] client_ok(next, c) by {
                assert(client_ok(s, c));
            }
        },
        Some((key, value)) => {
            let span = SpanView { ts_call, ts_resp, value };
            let kx = index_of(h.keys, key).unwrap();
            lemma_queue_keeps_wf(h, entry);
            lemma_apply_keeps_wf(queued, kx, x, span);
            let p = push_span(queued, kx, x, span);
            let t = trim_history(p);
            let limit = min_of(t.maxtr);
            assert forall|i: int| 0 <= i < t.queue.len() implies explained(
                h.keys,
                t.spans,
                fl2,
                #[trigger] t.queue[i],
            ) by {
                lemma_min_queued_le(queued.queue, i);
                lemma_landing_keeps_explained(queued, kx, x, span, fl, queued.queue[i]);
            }
            assert forall|i: int|
                0 <= i < t.queue.len() && (#[trigger] t.queue[i]).ts_resp < limit implies accepts(
                t.keys,
                t.spans,
                t.queue[i],
            ) by {
                assert forall|d: int| 0 <= d < fl2.len() && (#[trigger] fl2[d]) is Some implies fl2[d].unwrap().ts_call
                    >= t.queue[i].ts_resp by {
                    lemma_min_of_le(t.maxtr, d);
                }
                lemma_explained_accepts(h.keys, t.spans, fl2, t.queue[i]);
            }
            lemma_drain_passes(t.keys, t.spans, t.queue, limit);
            let n0 = choose|n0: int|
                0 <= n0 <= t.queue.len() && drain_queue(t.keys, t.spans, t.queue, limit).0
                    == t.queue.skip(n0);
            let after = HistoryView { queue: t.queue.skip(n0), ..t };
            assert forall|i: int| 0 <= i < after.queue.len() implies explained(
                after.keys,
                after.spans,
                fl2,
                #[trigger] after.queue[i],
            ) by {}
            assert forall|q: int| 0 <= q < after.keys.len() implies sourced(
                #[trigger] after.spans[q],
                fl2,
                after.keys[q],
                store_get(next.store, after.keys[q]),
            ) by {
                lemma_landing_keeps_source(
                    queued,
                    kx,
                    x,
                    span,
                    fl,
                    q,
                    store_get(s.store, h.keys[q]),
                );
            }
            assert forall|c: int| 0 <= c < n implies #[trigger] client_ok(next, c) by {
                assert(client_ok(s, c));
                if c != x && s.answers[c] is Some {
                    lemma_min_of_le(p.maxtr, c);
                    lemma_landing_keeps_explained(
                        queued,
                        kx,
                        x,
                        span,
                        fl,
                        QueuedView {
                            ts_call: v.memo[c].0,
                            ts_resp: u64::MAX,
                            resp: s.answers[c].unwrap(),
                        },
                    );
                }
            }
        },
    }
}

/// One step of a run that the reference service answers: a call, a
/// request for a response, an answer of the service, or a harvest.
pub open spec fn is_step(s: ServedView, next: ServedView) -> bool {
    ||| exists|cidx: usize, call: CallView| call_step(s, cidx, call, next)
    ||| exists|cidx: usize| wait_step(s, cidx, next)
    ||| exists|c: int| serve_step(s, c, next)
    ||| harvest_step(s, next)
}

/// State `i + 1` of `trace` follows from state `i` by one step.
pub open spec fn step_at(trace: Seq<ServedView>, i: int) -> bool {
    is_step(trace[i], trace[i + 1])
}

/// The harvest from state `i` of `trace`, if the step from there is one,
/// passes.
pub open spec fn harvest_passes_at(trace: Seq<ServedView>, i: int) -> bool {
    harvest_step(trace[i], trace[i + 1]) ==> harvest_spec(
        trace[i].run,
        trace[i].answers[trace[i].run.waiting.unwrap() as int].unwrap(),
    ).1 == OutcomeView::Harvested
}

/// A run that the reference service answers never fails a check: whatever
/// calls the run draws, in whatever order it calls and harvests, and at
/// whatever moment between call and harvest the service answers, every
/// harvest passes.
pub proof fn lemma_run_is_sound(trace: Seq<ServedView>)
    requires
        trace.len() > 0,
        is_start(trace[0]),
        forall|i: int| 0 <= i < trace.len() - 1 ==> #[trigger] step_at(trace, i),
    ensures
        forall|i: int| 0 <= i < trace.len() ==> served_inv(#[trigger] trace[i]),
        forall|i: int| 0 <= i < trace.len() - 1 ==> #[trigger] harvest_passes_at(trace, i),
    decreases trace.len(),
{
    if trace.len() == 1 {
        lemma_start_is_sound(trace[0]);
    } else {
        let front = trace.drop_last();
        let m = trace.len() - 2;
        assert forall|i: int| 0 <= i < front.len() - 1 implies #[trigger] step_at(front, i) by {
            assert(step_at(trace, i));
        }
        lemma_run_is_sound(front);
        let s = trace[m];
        let next = trace[m + 1];
        assert(served_inv(front[m]));
        assert(step_at(trace, m));
        if exists|cidx: usize, call: CallView| call_step(s, cidx, call, next) {
            let (cidx, call) = choose|cidx: usize, call: CallView| call_step(s, cidx, call, next);
            lemma_call_is_sound(s, cidx, call, next);
        }
        if exists|cidx: usize| wait_step(s, cidx, next) {
            let cidx = choose|cidx: usize| wait_step(s, cidx, next);
            lemma_wait_is_sound(s, cidx, next);
        }
        if exists|c: int| serve_step(s, c, next) {
            let c = choose|c: int| serve_step(s, c, next);
            lemma_serve_is_sound(s, c, next);
        }
        if harvest_step(s, next) {
            lemma_harvest_is_sound(s, next);
        }
        assert forall|i: int| 0 <= i < trace.len() implies served_inv(#[trigger] trace[i]) by {
            if i < front.len() {
                assert(front[i] == trace[i]);
            }
        }
        assert forall|i: int| 0 <= i < trace.len() - 1 implies #[trigger] harvest_passes_at(
            trace,
            i,
        ) by {
            if i < m {
                assert(harvest_passes_at(front, i));
            }
        }
    }
}

} // verus!
