//! A reference service held in memory: it reads calls, serves them from a
//! map in the order of its keys, and writes the responses.

use vstd::prelude::*;
use vstd::string::*;

use crate::error::{ErrorView, RunnerError};
use crate::ioapi::{
    concat_lines, entry_lines, found_word, invalid_input_line, optional_word, parse_call, resp_text,
    CallView, KvCall, KvResp, RespView,
};
use crate::history::{in_range, scan_lookup, scan_well_formed};
use crate::ioapi::update_of;
use crate::keymap::{
    index_of, keys_increase, lemma_index_unique, lemma_insert_keeps_order, lemma_rank_bounds,
    lemma_value_after_insert, lemma_value_after_remove, lemma_value_after_update, rank, value_of,
    KeyMap,
};
use crate::text::{
    join_words, lemma_lex_asymmetric, lemma_lex_irreflexive, lemma_lex_total, lex_lt, line_of,
    split_words, str_eq,
};

verus! {

/// The view of what `parse_input_call` returns.
pub open spec fn parsed_view(r: Result<KvCall, RunnerError>) -> Result<CallView, ErrorView> {
    match r {
        Ok(call) => Ok(call@),
        Err(e) => Err(e@),
    }
}

fn invalid_input(line: &str) -> (e: RunnerError)
    ensures
        e@ == invalid_input_line(line@),
{
    RunnerError::Parse(String::from_str("invalid input line: ").concat(line))
}

/// Reads a call from a line of input.
pub fn parse_input_call(line: &str) -> (r: Result<KvCall, RunnerError>)
    ensures
        parsed_view(r) == parse_call(line@),
{
    let ws = split_words(line);
    if ws.len() == 0 {
        return Err(invalid_input(line));
    }
    let tag = ws[0].as_str();
    if str_eq(tag, "PUT") {
        if ws.len() < 3 {
            return Err(invalid_input(line));
        }
        Ok(KvCall::Put { key: ws[1].clone(), value: ws[2].clone() })
    } else if str_eq(tag, "SWAP") {
        if ws.len() < 3 {
            return Err(invalid_input(line));
        }
        Ok(KvCall::Swap { key: ws[1].clone(), value: ws[2].clone() })
    } else if str_eq(tag, "GET") {
        if ws.len() < 2 {
            return Err(invalid_input(line));
        }
        Ok(KvCall::Get { key: ws[1].clone() })
    } else if str_eq(tag, "SCAN") {
        if ws.len() < 3 {
            return Err(invalid_input(line));
        }
        Ok(KvCall::Scan { key_start: ws[1].clone(), key_end: ws[2].clone() })
    } else if str_eq(tag, "DELETE") {
        if ws.len() < 2 {
            return Err(invalid_input(line));
        }
        Ok(KvCall::Delete { key: ws[1].clone() })
    } else if str_eq(tag, "STOP") {
        Ok(KvCall::Stop)
    } else {
        Err(invalid_input(line))
    }
}

fn write_words3(out: &mut String, a: &str, b: &str, c: &str)
    ensures
        final(out)@ == old(out)@ + line_of(seq![a@, b@, c@]),
{
    proof {
        reveal_strlit(" ");
        reveal_strlit("\n");
        reveal_with_fuel(join_words, 4);
    }
    out.append(a);
    out.append(" ");
    out.append(b);
    out.append(" ");
    out.append(c);
    out.append("\n");
}

fn found_text(found: bool) -> (w: &'static str)
    ensures
        w@ == found_word(found),
{
    if found {
        "found"
    } else {
        "not_found"
    }
}

fn optional_text(value: &Option<String>) -> (w: &str)
    ensures
        w@ == optional_word(value.deep_view()),
{
    match value {
        Some(v) => v.as_str(),
        None => "null",
    }
}

/// Appends the text of a response to `out`.
pub fn write_response(resp: KvResp, out: &mut String)
    ensures
        final(out)@ == old(out)@ + resp_text(resp@),
{
    let ghost before = out@;
    proof {
        reveal_with_fuel(concat_lines, 2);
        assert forall|l: Seq<char>| #[trigger] concat_lines(seq![l]) == l by {}
    }
    match resp {
        KvResp::Put { key, found } => {
            write_words3(out, "PUT", key.as_str(), found_text(found));
        },
        KvResp::Swap { key, old_value } => {
            write_words3(out, "SWAP", key.as_str(), optional_text(&old_value));
        },
        KvResp::Get { key, value } => {
            write_words3(out, "GET", key.as_str(), optional_text(&value));
        },
        KvResp::Scan { key_start, key_end, entries } => {
            proof {
                reveal_strlit(" ");
                reveal_strlit("\n");
                reveal_with_fuel(join_words, 5);
            }
            let ghost ev = entries.deep_view();
            let ghost head = line_of(seq!["SCAN"@, key_start@, key_end@, "BEGIN"@]);
            out.append("SCAN");
            out.append(" ");
            out.append(key_start.as_str());
            out.append(" ");
            out.append(key_end.as_str());
            out.append(" ");
            out.append("BEGIN");
            out.append("\n");
            let mut i: usize = 0;
            while i < entries.len()
                invariant
                    i <= entries.len(),
                    ev == entries.deep_view(),
                    out@ == before + head + concat_lines(entry_lines(ev.take(i as int))),
                decreases entries.len() - i,
            {
                out.append("  ");
                out.append(entries[i].0.as_str());
                out.append(" ");
                out.append(entries[i].1.as_str());
                out.append("\n");
                proof {
                    reveal_strlit(" ");
                    reveal_strlit("\n");
                    reveal_with_fuel(join_words, 3);
                    let next = entry_lines(ev.take(i + 1));
                    assert(next.drop_last() =~= entry_lines(ev.take(i as int)));
                }
                i += 1;
            }
            assert(ev.take(i as int) == ev);
            out.append("SCAN");
            out.append(" ");
            out.append("END");
            out.append("\n");
            proof {
                let tail = line_of(seq!["SCAN"@, "END"@]);
                lemma_concat_scan(head, entry_lines(ev), tail);
            }
        },
        KvResp::Delete { key, found } => {
            write_words3(out, "DELETE", key.as_str(), found_text(found));
        },
        KvResp::Stop => {
            proof {
                reveal_strlit("\n");
            }
            out.append("STOP");
            out.append("\n");
        },
    }
}

/// What the service holds: the keys in order, and the value of each.
pub struct StoreView {
    pub keys: Seq<Seq<char>>,
    pub values: Seq<Seq<char>>,
}

/// The view of a store.
pub open spec fn store_view(m: KeyMap<String>) -> StoreView {
    StoreView { keys: m.keys(), values: Seq::new(m.values().len(), |i: int| m.values()[i]@) }
}

/// A valid store: the keys are in order, none twice, each with a value.
pub open spec fn store_wf(s: StoreView) -> bool {
    keys_increase(s.keys) && s.values.len() == s.keys.len()
}

/// The value of `key`, if the store holds the key.
pub open spec fn store_get(s: StoreView, key: Seq<char>) -> Option<Seq<char>> {
    match index_of(s.keys, key) {
        Some(i) => Some(s.values[i]),
        None => None,
    }
}

/// The store with `key` set to `value`.
pub open spec fn store_put(s: StoreView, key: Seq<char>, value: Seq<char>) -> StoreView {
    match index_of(s.keys, key) {
        Some(i) => StoreView { keys: s.keys, values: s.values.update(i, value) },
        None => {
            let r = rank(s.keys, key);
            StoreView { keys: s.keys.insert(r, key), values: s.values.insert(r, value) }
        },
    }
}

/// The store without `key`.
pub open spec fn store_del(s: StoreView, key: Seq<char>) -> StoreView {
    match index_of(s.keys, key) {
        Some(i) => StoreView { keys: s.keys.remove(i), values: s.values.remove(i) },
        None => s,
    }
}

/// The place behind the last key that does not come after `key`.
pub open spec fn rank_through(keys: Seq<Seq<char>>, key: Seq<char>) -> int {
    rank(keys, key) + if index_of(keys, key) is Some {
        1int
    } else {
        0int
    }
}

/// The entries from `key_start` to `key_end`, both included, in the order
/// of their keys.
pub open spec fn store_scan(s: StoreView, key_start: Seq<char>, key_end: Seq<char>) -> Seq<
    (Seq<char>, Seq<char>),
> {
    let lo = rank(s.keys, key_start);
    let hi = rank_through(s.keys, key_end);
    if lo < hi {
        Seq::new((hi - lo) as nat, |i: int| (s.keys[lo + i], s.values[lo + i]))
    } else {
        Seq::empty()
    }
}

/// What the service makes of a call: the store after it, and the response.
pub open spec fn serve(s: StoreView, call: CallView) -> (StoreView, RespView) {
    match call {
        CallView::Put { key, value } => (
            store_put(s, key, value),
            RespView::Put { key, found: store_get(s, key) is Some },
        ),
        CallView::Swap { key, value } => (
            store_put(s, key, value),
            RespView::Swap { key, old_value: store_get(s, key) },
        ),
        CallView::Get { key } => (s, RespView::Get { key, value: store_get(s, key) }),
        CallView::Scan { key_start, key_end } => (
            s,
            RespView::Scan { key_start, key_end, entries: store_scan(s, key_start, key_end) },
        ),
        CallView::Delete { key } => (
            store_del(s, key),
            RespView::Delete { key, found: store_get(s, key) is Some },
        ),
        CallView::Stop => (s, RespView::Stop),
    }
}

/// A scan returns the entries of the range, all of them, each once.
pub proof fn lemma_scan_exact(s: StoreView, key_start: Seq<char>, key_end: Seq<char>)
    requires
        store_wf(s),
    ensures
        forall|i: int|
            0 <= i < store_scan(s, key_start, key_end).len() ==> in_range(
                (#[trigger] store_scan(s, key_start, key_end)[i]).0,
                key_start,
                key_end,
            ),
        forall|i: int, j: int|
            0 <= i < j < store_scan(s, key_start, key_end).len() ==> lex_lt(
                (#[trigger] store_scan(s, key_start, key_end)[i]).0,
                (#[trigger] store_scan(s, key_start, key_end)[j]).0,
            ),
        forall|k: int|
            0 <= k < s.keys.len() && in_range(#[trigger] s.keys[k], key_start, key_end)
                ==> store_scan(s, key_start, key_end).contains((s.keys[k], s.values[k])),
{
    let lo = rank(s.keys, key_start);
    let entries = store_scan(s, key_start, key_end);
    lemma_rank_bounds(s.keys, key_start);
    lemma_rank_bounds(s.keys, key_end);
    lemma_rank_through(s.keys, key_end);
    assert forall|k: int|
        0 <= k < s.keys.len() && in_range(#[trigger] s.keys[k], key_start, key_end) implies entries.contains(
        (s.keys[k], s.values[k]),
    ) by {
        assert(entries[k - lo] == (s.keys[k], s.values[k]));
    }
}

/// What a call leaves of the store: a call that updates a key leaves the
/// key with the value written, or without a value after a `Delete`, and
/// every other key as it was; any other call leaves the store as it was.
pub proof fn lemma_serve_updates(s: StoreView, call: CallView)
    requires
        store_wf(s),
    ensures
        store_wf(serve(s, call).0),
        match update_of(call) {
            Some((key, value)) => {
                &&& store_get(serve(s, call).0, key) == value
                &&& forall|other: Seq<char>|
                    other != key ==> #[trigger] store_get(serve(s, call).0, other) == store_get(
                        s,
                        other,
                    )
            },
            None => serve(s, call).0 == s,
        },
{
    let after = serve(s, call).0;
    assert(forall|k: Seq<char>| store_get(after, k) == value_of(after.keys, after.values, k));
    match update_of(call) {
        Some((key, Some(value))) => {
            match index_of(s.keys, key) {
                Some(i) => {
                    lemma_value_after_update(s.keys, s.values, i, value);
                },
                None => {
                    lemma_rank_bounds(s.keys, key);
                    lemma_insert_keeps_order(s.keys, key);
                    lemma_value_after_insert(s.keys, s.values, key, value);
                },
            }
        },
        Some((key, None)) => {
            match index_of(s.keys, key) {
                Some(i) => {
                    lemma_value_after_remove(s.keys, s.values, i);
                },
                None => {},
            }
        },
        None => {},
    }
}

/// What a scan returns for a key of its range is what the store holds
/// for the key, and its entries stand on their own.
pub proof fn lemma_scan_lookup(s: StoreView, key_start: Seq<char>, key_end: Seq<char>, key: Seq<char>)
    requires
        store_wf(s),
    ensures
        scan_well_formed(store_scan(s, key_start, key_end), key_start, key_end),
        in_range(key, key_start, key_end) ==> scan_lookup(store_scan(s, key_start, key_end), key)
            == store_get(s, key),
{
    let entries = store_scan(s, key_start, key_end);
    lemma_scan_exact(s, key_start, key_end);
    let lo = rank(s.keys, key_start);
    lemma_rank_bounds(s.keys, key_start);
    lemma_rank_through(s.keys, key_end);
    assert forall|i: int, j: int| 0 <= i < j < entries.len() implies (#[trigger] entries[i]).0 != (
    #[trigger] entries[j]).0 by {
        lemma_lex_irreflexive(entries[i].0);
    }
    if in_range(key, key_start, key_end) {
        if exists|i: int| 0 <= i < entries.len() && entries[i].0 == key {
            let i = choose|i: int| 0 <= i < entries.len() && entries[i].0 == key;
            lemma_index_unique(s.keys, lo + i);
        }
    }
}

/// Among keys in order, those that do not come after `key` are the first
/// `rank_through` ones.
pub proof fn lemma_rank_through(keys: Seq<Seq<char>>, key: Seq<char>)
    requires
        keys_increase(keys),
    ensures
        0 <= rank_through(keys, key) <= keys.len(),
        index_of(keys, key) is Some ==> index_of(keys, key) == Some(rank(keys, key)),
        forall|j: int| 0 <= j < rank_through(keys, key) ==> !lex_lt(key, #[trigger] keys[j]),
        forall|j: int| rank_through(keys, key) <= j < keys.len() ==> lex_lt(key, #[trigger] keys[j]),
{
    lemma_rank_bounds(keys, key);
    let r = rank(keys, key);
    lemma_lex_irreflexive(key);
    assert forall|j: int| 0 <= j < r implies !lex_lt(key, #[trigger] keys[j]) by {
        lemma_lex_asymmetric(keys[j], key);
    }
    match index_of(keys, key) {
        Some(i) => {
            assert(i == r) by {
                if i > r {
                    assert(lex_lt(keys[r], keys[i]));
                }
            }
            assert forall|j: int| r + 1 <= j < keys.len() implies lex_lt(key, #[trigger] keys[j]) by {}
        },
        None => {
            assert forall|j: int| r <= j < keys.len() implies lex_lt(key, #[trigger] keys[j]) by {
                lemma_lex_total(keys[j], key);
            }
        },
    }
}

fn store_lookup(state: &KeyMap<String>, key: &str) -> (value: Option<String>)
    requires
        state.wf(),
    ensures
        value.deep_view() == store_get(store_view(*state), key@),
{
    match state.find(key) {
        Some(i) => Some(state.value(i).clone()),
        None => None,
    }
}

fn store_range(state: &KeyMap<String>, key_start: &str, key_end: &str) -> (entries: Vec<
    (String, String),
>)
    requires
        state.wf(),
    ensures
        entries.deep_view() == store_scan(store_view(*state), key_start@, key_end@),
{
    let ghost s = store_view(*state);
    let lo = state.search(key_start);
    let end = state.search(key_end);
    proof {
        lemma_rank_bounds(state.keys(), key_start@);
        lemma_rank_through(state.keys(), key_end@);
    }
    let len = state.len();
    let hi = match state.find(key_end) {
        Some(at) => {
            end + 1
        },
        None => end,
    };
    let mut entries: Vec<(String, String)> = Vec::new();
    if lo >= hi {
        return entries;
    }
    let mut i: usize = lo;
    while i < hi
        invariant
            lo <= i <= hi,
            lo < hi,
            hi <= state.keys().len(),
            state.wf(),
            s == store_view(*state),
            entries.deep_view() == Seq::new(
                (i - lo) as nat,
                |j: int| (s.keys[lo + j], s.values[lo + j]),
            ),
        decreases hi - i,
    {
        let ghost before = entries.deep_view();
        entries.push((state.key(i).clone(), state.value(i).clone()));
        assert(entries.deep_view() =~= before.push((s.keys[i as int], s.values[i as int])));
        assert(entries.deep_view() =~= Seq::new(
            (i + 1 - lo) as nat,
            |j: int| (s.keys[lo + j], s.values[lo + j]),
        ));
        i += 1;
    }
    entries
}

/// Serves a call from the store, and returns the response.
pub fn handle_kv_call(call: KvCall, state: &mut KeyMap<String>) -> (resp: KvResp)
    requires
        old(state).wf(),
    ensures
        final(state).wf(),
        (store_view(*final(state)), resp@) == serve(store_view(*old(state)), call@),
{
    let ghost s0 = store_view(*state);
    match call {
        KvCall::Put { key, value } => {
            let before = state.insert(key.clone(), value);
            proof {
                lemma_rank_bounds(s0.keys, key@);
                lemma_store_put(s0, store_view(*state), key@, value@);
            }
            KvResp::Put { key, found: before.is_some() }
        },
        KvCall::Swap { key, value } => {
            let before = state.insert(key.clone(), value);
            proof {
                lemma_rank_bounds(s0.keys, key@);
                lemma_store_put(s0, store_view(*state), key@, value@);
            }
            KvResp::Swap { key, old_value: before }
        },
        KvCall::Get { key } => {
            let value = store_lookup(state, key.as_str());
            KvResp::Get { key, value }
        },
        KvCall::Scan { key_start, key_end } => {
            let entries = store_range(state, key_start.as_str(), key_end.as_str());
            KvResp::Scan { key_start, key_end, entries }
        },
        KvCall::Delete { key } => {
            let before = state.remove(key.as_str());
            proof {
                let s1 = store_view(*state);
                match index_of(s0.keys, key@) {
                    Some(i) => {
                        assert(s1.values =~= s0.values.remove(i));
                    },
                    None => {},
                }
            }
            KvResp::Delete { key, found: before.is_some() }
        },
        KvCall::Stop => KvResp::Stop,
    }
}

/// A store whose keys are those of `s0` with `key` set, and whose values
/// are those of `s0` but for the value of `key`, is `s0` with `key` put.
proof fn lemma_store_put(s0: StoreView, s1: StoreView, key: Seq<char>, value: Seq<char>)
    requires
        store_wf(s0),
        s1.values.len() == s1.keys.len(),
        match index_of(s0.keys, key) {
            Some(i) => {
                &&& s1.keys == s0.keys
                &&& s1.values[i] == value
                &&& forall|j: int| 0 <= j < s0.values.len() && j != i ==> s1.values[j] == s0.values[j]
            },
            None => {
                let r = rank(s0.keys, key);
                &&& s1.keys == s0.keys.insert(r, key)
                &&& s1.values[r] == value
                &&& forall|j: int| 0 <= j < r ==> s1.values[j] == s0.values[j]
                &&& forall|j: int| r < j < s1.values.len() ==> s1.values[j] == s0.values[j - 1]
            },
        },
    ensures
        s1 == store_put(s0, key, value),
{
    match index_of(s0.keys, key) {
        Some(i) => {
            assert(s1.values =~= s0.values.update(i, value));
        },
        None => {
            let r = rank(s0.keys, key);
            lemma_rank_bounds(s0.keys, key);
            assert(s1.values =~= s0.values.insert(r, value));
        },
    }
}

/// The text of lines one after the other is the text of the first ones and
/// then that of the others.
pub proof fn lemma_concat_add(a: Seq<Seq<char>>, b: Seq<Seq<char>>)
    ensures
        concat_lines(a + b) == concat_lines(a) + concat_lines(b),
    decreases b.len(),
{
    if b.len() > 0 {
        assert((a + b).drop_last() =~= a + b.drop_last());
        lemma_concat_add(a, b.drop_last());
    }
}

proof fn lemma_concat_scan(head: Seq<char>, mid: Seq<Seq<char>>, tail: Seq<char>)
    ensures
        concat_lines(seq![head] + mid + seq![tail]) == head + concat_lines(mid) + tail,
{
    lemma_concat_add(seq![head] + mid, seq![tail]);
    lemma_concat_add(seq![head], mid);
    reveal_with_fuel(concat_lines, 2);
}

} // verus!
