//! The text form loses nothing: a call or a response that is written and
//! read again is the same call or response.

use vstd::prelude::*;
use vstd::string::*;

use crate::error::ErrorView;
use crate::fuzz::are_key_pools;
use crate::random::{
    call_of_draw, is_alnum, is_drawn_call, kind_of_bucket, writes_value, StatsView, VALUE_LEN,
};
use crate::ioapi::{
    call_is_valid, call_line, call_words, concat_lines, entry_line, entry_lines, feed_step,
    found_word, optional_word, parse_call, parse_found, parse_optional, read_resp, resp_is_plain,
    resp_is_valid, resp_lines, resp_text, run_decoder, CallView, DecoderView, RespView,
};
use crate::text::{
    is_blank, is_space, is_token, join_words, lemma_trim_padded, lemma_words_join, lemma_words_line,
    lemma_words_prepend_blank, line_of, lines, words,
};

verus! {

/// The words of the protocol are words, and no two of the tags are the
/// same.
pub proof fn lemma_protocol_words()
    ensures
        is_token("PUT"@),
        is_token("SWAP"@),
        is_token("GET"@),
        is_token("SCAN"@),
        is_token("DELETE"@),
        is_token("STOP"@),
        is_token("BEGIN"@),
        is_token("END"@),
        is_token("found"@),
        is_token("not_found"@),
        is_token("null"@),
        "PUT"@ != "SWAP"@ && "PUT"@ != "GET"@ && "PUT"@ != "SCAN"@ && "PUT"@ != "DELETE"@ && "PUT"@
            != "STOP"@,
        "SWAP"@ != "GET"@ && "SWAP"@ != "SCAN"@ && "SWAP"@ != "DELETE"@ && "SWAP"@ != "STOP"@,
        "GET"@ != "SCAN"@ && "GET"@ != "DELETE"@ && "GET"@ != "STOP"@,
        "SCAN"@ != "DELETE"@ && "SCAN"@ != "STOP"@,
        "DELETE"@ != "STOP"@,
        "found"@ != "not_found"@,
{
    reveal_strlit("PUT");
    reveal_strlit("SWAP");
    reveal_strlit("GET");
    reveal_strlit("SCAN");
    reveal_strlit("DELETE");
    reveal_strlit("STOP");
    reveal_strlit("BEGIN");
    reveal_strlit("END");
    reveal_strlit("found");
    reveal_strlit("not_found");
    reveal_strlit("null");
    assert("PUT"@[0] != "GET"@[0]);
    assert("SCAN"@[1] != "STOP"@[1]);
}

/// Reading the line of a call gives the call.
pub proof fn lemma_call_round_trip(c: CallView)
    requires
        call_is_valid(c),
    ensures
        parse_call(call_line(c)) == Ok::<CallView, ErrorView>(c),
{
    lemma_protocol_words();
    let ws = call_words(c);
    lemma_words_line(ws);
}

/// Reading the word of a `found` field gives the field.
proof fn lemma_found_word(found: bool)
    ensures
        parse_found(found_word(found)) == Ok::<bool, ErrorView>(found),
        is_token(found_word(found)),
{
    lemma_protocol_words();
}

/// Reading the word of a value field gives the field, unless the value is
/// the word `null`.
proof fn lemma_optional_word(value: Option<Seq<char>>)
    requires
        value is Some ==> is_token(value.unwrap()),
        value != Some("null"@),
    ensures
        parse_optional(optional_word(value)) == value,
        is_token(optional_word(value)),
{
    lemma_protocol_words();
}

/// A key and a value with a space between them are the text `SCAN END`
/// only where the key is `SCAN` and the value is `END`.
proof fn lemma_entry_is_not_end(key: Seq<char>, value: Seq<char>)
    requires
        is_token(key),
        is_token(value),
        (key, value) != ("SCAN"@, "END"@),
    ensures
        join_words(seq![key, value]) != "SCAN END"@,
{
    reveal_strlit("SCAN");
    reveal_strlit("END");
    reveal_strlit("SCAN END");
    reveal_with_fuel(join_words, 3);
    let joined = join_words(seq![key, value]);
    assert(joined =~= key + seq![' '] + value);
    if joined == "SCAN END"@ {
        if key.len() < 4 {
            assert(joined[key.len() as int] == ' ');
        } else if key.len() > 4 {
            assert(joined[4] == key[4]);
        }
        assert(key =~= "SCAN"@) by {
            assert forall|i: int| 0 <= i < 4 implies key[i] == "SCAN"@[i] by {
                assert(joined[i] == key[i]);
            }
        }
        assert(value =~= "END"@) by {
            assert forall|i: int| 0 <= i < 3 implies value[i] == "END"@[i] by {
                assert(joined[5 + i] == value[i]);
            }
        }
    }
}

/// What the decoder makes of the line of an entry inside a scan block: it
/// takes the entry.
proof fn lemma_feed_entry(
    key_start: Seq<char>,
    key_end: Seq<char>,
    done: Seq<(Seq<char>, Seq<char>)>,
    entry: (Seq<char>, Seq<char>),
)
    requires
        is_token(entry.0),
        is_token(entry.1),
        entry != ("SCAN"@, "END"@),
    ensures
        feed_step(DecoderView::InScan { key_start, key_end, entries: done }, entry_line(entry)) == (
            DecoderView::InScan { key_start, key_end, entries: done.push(entry) },
            Ok::<Option<RespView>, ErrorView>(None),
        ),
{
    reveal_strlit("  ");
    let ws = seq![entry.0, entry.1];
    let line = entry_line(entry);
    let pad = "  "@;
    lemma_words_line(ws);
    lemma_words_prepend_blank(pad, line_of(ws));
    lemma_words_join(ws);
    let body = join_words(ws);
    assert(line =~= pad + body + seq!['\n']);
    lemma_trim_padded(pad, body, seq!['\n']);
    lemma_entry_is_not_end(entry.0, entry.1);
    assert(!is_blank(line)) by {
        assert(line[2] == body[0]);
    }
}

/// What the decoder makes of the closing line of a scan block: the scan.
proof fn lemma_feed_end(key_start: Seq<char>, key_end: Seq<char>, done: Seq<(Seq<char>, Seq<char>)>)
    ensures
        feed_step(
            DecoderView::InScan { key_start, key_end, entries: done },
            line_of(seq!["SCAN"@, "END"@]),
        ) == (
            DecoderView::Idle,
            Ok::<Option<RespView>, ErrorView>(
                Some(RespView::Scan { key_start, key_end, entries: done }),
            ),
        ),
{
    lemma_protocol_words();
    reveal_strlit("SCAN");
    reveal_strlit("END");
    reveal_strlit("SCAN END");
    reveal_with_fuel(join_words, 3);
    let ws = seq!["SCAN"@, "END"@];
    let body = join_words(ws);
    assert(body =~= "SCAN END"@);
    lemma_words_line(ws);
    assert(line_of(ws) =~= Seq::<char>::empty() + body + seq!['\n']);
    lemma_trim_padded(Seq::<char>::empty(), body, seq!['\n']);
}

/// From inside a scan block, the lines of the entries still to come and
/// the closing line give the scan with all its entries.
proof fn lemma_run_entries(
    key_start: Seq<char>,
    key_end: Seq<char>,
    done: Seq<(Seq<char>, Seq<char>)>,
    left: Seq<(Seq<char>, Seq<char>)>,
    rest: Seq<Seq<char>>,
)
    requires
        forall|i: int|
            0 <= i < left.len() ==> is_token((#[trigger] left[i]).0) && is_token(left[i].1) && left[i]
                != ("SCAN"@, "END"@),
    ensures
        run_decoder(
            DecoderView::InScan { key_start, key_end, entries: done },
            entry_lines(left) + seq![line_of(seq!["SCAN"@, "END"@])] + rest,
        ) == (
            Ok::<RespView, ErrorView>(RespView::Scan { key_start, key_end, entries: done + left }),
            rest,
        ),
    decreases left.len(),
{
    let input = entry_lines(left) + seq![line_of(seq!["SCAN"@, "END"@])] + rest;
    if left.len() == 0 {
        lemma_feed_end(key_start, key_end, done);
    } else {
        let entry = left[0];
        let later = left.drop_first();
        assert(input.drop_first() =~= entry_lines(later) + seq![line_of(seq!["SCAN"@, "END"@])]
            + rest);
        lemma_feed_entry(key_start, key_end, done, entry);
        assert forall|i: int| 0 <= i < later.len() implies is_token((#[trigger] later[i]).0)
            && is_token(later[i].1) && later[i] != ("SCAN"@, "END"@) by {}
        lemma_run_entries(key_start, key_end, done.push(entry), later, rest);
        assert(done.push(entry) + later =~= done + left);
    }
}

/// Reading the lines of a response gives the response, and leaves the lines
/// that follow.
///
/// This holds of every response whose keys and values are words, unless a
/// value is the word `null` or an entry of a scan is the key `SCAN` with
/// the value `END`: those are read as no value and as the end of the scan.
pub proof fn lemma_resp_round_trip(r: RespView, rest: Seq<Seq<char>>)
    requires
        resp_is_valid(r),
        resp_is_plain(r),
    ensures
        read_resp(resp_lines(r) + rest) == (Ok::<RespView, ErrorView>(r), rest),
{
    lemma_protocol_words();
    let input = resp_lines(r) + rest;
    match r {
        RespView::Put { key, found } => {
            lemma_found_word(found);
            lemma_words_line(seq!["PUT"@, key, found_word(found)]);
        },
        RespView::Swap { key, old_value } => {
            lemma_optional_word(old_value);
            lemma_words_line(seq!["SWAP"@, key, optional_word(old_value)]);
        },
        RespView::Get { key, value } => {
            lemma_optional_word(value);
            lemma_words_line(seq!["GET"@, key, optional_word(value)]);
        },
        RespView::Scan { key_start, key_end, entries } => {
            lemma_words_line(seq!["SCAN"@, key_start, key_end, "BEGIN"@]);
            assert(input.drop_first() =~= entry_lines(entries) + seq![
                line_of(seq!["SCAN"@, "END"@]),
            ] + rest);
            lemma_run_entries(key_start, key_end, Seq::empty(), entries, rest);
        },
        RespView::Delete { key, found } => {
            lemma_found_word(found);
            lemma_words_line(seq!["DELETE"@, key, found_word(found)]);
        },
        RespView::Stop => {
            lemma_words_line(seq!["STOP"@]);
        },
    }
}

/// A line as `lines` gives them: it ends with a line feed and holds no
/// other.
pub open spec fn is_line(l: Seq<char>) -> bool {
    &&& l.len() > 0
    &&& l.last() == '\n'
    &&& forall|i: int| 0 <= i < l.len() - 1 ==> #[trigger] l[i] != '\n'
}

/// A text without line feed before its last character, written behind a
/// text that is empty or ends with a line feed, is a new line of it.
proof fn lemma_lines_append(s: Seq<char>, p: Seq<char>)
    requires
        s.len() == 0 || s.last() == '\n',
        p.len() > 0,
        forall|i: int| 0 <= i < p.len() - 1 ==> #[trigger] p[i] != '\n',
    ensures
        lines(s + p) == lines(s).push(p),
    decreases p.len(),
{
    let front = p.drop_last();
    let c = p.last();
    assert((s + p).drop_last() =~= s + front);
    if front.len() == 0 {
        assert(p =~= seq![c]);
    } else {
        lemma_lines_append(s, front);
        assert(front.push(c) =~= p);
    }
}

/// The lines of the text that lines make are those lines.
pub proof fn lemma_lines_concat(ls: Seq<Seq<char>>)
    requires
        forall|i: int| 0 <= i < ls.len() ==> is_line(#[trigger] ls[i]),
    ensures
        lines(concat_lines(ls)) == ls,
        ls.len() > 0 ==> concat_lines(ls).len() > 0 && concat_lines(ls).last() == '\n',
    decreases ls.len(),
{
    if ls.len() > 0 {
        let front = ls.drop_last();
        lemma_lines_concat(front);
        lemma_lines_append(concat_lines(front), ls.last());
    }
}

/// Words joined by spaces hold no line feed.
proof fn lemma_join_one_line(ws: Seq<Seq<char>>)
    requires
        forall|i: int| 0 <= i < ws.len() ==> is_token(#[trigger] ws[i]),
    ensures
        forall|i: int| 0 <= i < join_words(ws).len() ==> #[trigger] join_words(ws)[i] != '\n',
        is_line(line_of(ws)),
    decreases ws.len(),
{
    if ws.len() == 1 {
        assert forall|i: int| 0 <= i < ws[0].len() implies #[trigger] ws[0][i] != '\n' by {}
    } else if ws.len() > 1 {
        let front = ws.drop_last();
        lemma_join_one_line(front);
        assert forall|i: int| 0 <= i < join_words(ws).len() implies #[trigger] join_words(ws)[i]
            != '\n' by {
            let n = join_words(front).len();
        }
    }
    assert forall|i: int| 0 <= i < line_of(ws).len() - 1 implies #[trigger] line_of(ws)[i] != '\n' by {}
}

/// Each line of a response is one line of text.
proof fn lemma_resp_lines_are_lines(r: RespView)
    requires
        resp_is_valid(r),
    ensures
        forall|i: int| 0 <= i < resp_lines(r).len() ==> is_line(#[trigger] resp_lines(r)[i]),
{
    lemma_protocol_words();
    match r {
        RespView::Put { key, found } => {
            lemma_join_one_line(seq!["PUT"@, key, found_word(found)]);
        },
        RespView::Swap { key, old_value } => {
            lemma_join_one_line(seq!["SWAP"@, key, optional_word(old_value)]);
        },
        RespView::Get { key, value } => {
            lemma_join_one_line(seq!["GET"@, key, optional_word(value)]);
        },
        RespView::Scan { key_start, key_end, entries } => {
            reveal_strlit("  ");
            lemma_join_one_line(seq!["SCAN"@, key_start, key_end, "BEGIN"@]);
            lemma_join_one_line(seq!["SCAN"@, "END"@]);
            let ls = resp_lines(r);
            assert forall|i: int| 0 <= i < ls.len() implies is_line(#[trigger] ls[i]) by {
                if 0 < i < ls.len() - 1 {
                    let entry = entries[i - 1];
                    lemma_join_one_line(seq![entry.0, entry.1]);
                    let l = entry_line(entry);
                    assert forall|j: int| 0 <= j < l.len() - 1 implies #[trigger] l[j] != '\n' by {}
                }
            }
        },
        RespView::Delete { key, found } => {
            lemma_join_one_line(seq!["DELETE"@, key, found_word(found)]);
        },
        RespView::Stop => {
            lemma_join_one_line(seq!["STOP"@]);
        },
    }
}

/// Reading the text of a response gives the response: the lines of the text
/// are the lines of the response, and reading them gives the response and
/// leaves nothing.
///
/// This holds of every response whose keys and values are words, unless a
/// value is the word `null` or an entry of a scan is the key `SCAN` with
/// the value `END`.
pub proof fn lemma_resp_text_round_trip(r: RespView)
    requires
        resp_is_valid(r),
        resp_is_plain(r),
    ensures
        lines(resp_text(r)) == resp_lines(r),
        read_resp(lines(resp_text(r))) == (
            Ok::<RespView, ErrorView>(r),
            Seq::<Seq<char>>::empty(),
        ),
{
    lemma_resp_lines_are_lines(r);
    lemma_lines_concat(resp_lines(r));
    lemma_resp_round_trip(r, Seq::empty());
}

/// The line of a call is one line of text.
pub proof fn lemma_call_line_is_line(c: CallView)
    requires
        call_is_valid(c),
    ensures
        lines(call_line(c)) == seq![call_line(c)],
{
    lemma_protocol_words();
    lemma_join_one_line(call_words(c));
    lemma_lines_append(Seq::<char>::empty(), call_line(c));
}

/// The keys of the pools that a round makes are words.
pub proof fn lemma_pool_keys_are_tokens(
    keys: Seq<Seq<Seq<char>>>,
    num_clis: usize,
    num_keys: usize,
    conflict: bool,
)
    requires
        are_key_pools(keys, num_clis, num_keys, conflict),
    ensures
        forall|c: int, i: int|
            0 <= c < keys.len() && 0 <= i < keys[c].len() ==> is_token(#[trigger] keys[c][i]),
{
    reveal_strlit("key");
    reveal_strlit("0123456789");
    assert forall|c: int, i: int| 0 <= c < keys.len() && 0 <= i < keys[c].len() implies is_token(
        #[trigger] keys[c][i],
    ) by {
        let key = keys[c][i];
        if conflict {
            assert forall|j: int| 0 <= j < key.len() implies !is_space(#[trigger] key[j]) by {}
        } else {
            assert forall|j: int| 0 <= j < key.len() implies !is_space(#[trigger] key[j]) by {}
        }
    }
}

/// A call that is drawn from a pool of words is one that the protocol can
/// carry: written as a line and read again, it is the same call.
pub proof fn lemma_drawn_call_is_valid(
    pool: Seq<Seq<char>>,
    before: StatsView,
    cidx: int,
    call: CallView,
    after: StatsView,
)
    requires
        forall|i: int| 0 <= i < pool.len() ==> is_token(#[trigger] pool[i]),
        is_drawn_call(pool, before, cidx, call, after),
    ensures
        call_is_valid(call),
        parse_call(call_line(call)) == Ok::<CallView, ErrorView>(call),
{
    let (bucket, first, second, value) = choose|
        bucket: int,
        first: int,
        second: int,
        value: Seq<char>,
    |
        {
            &&& 0 <= bucket < 10
            &&& 0 <= first < pool.len()
            &&& 0 <= second < pool.len()
            &&& writes_value(kind_of_bucket(bucket)) ==> value.len() == VALUE_LEN && forall|i: int|
                0 <= i < value.len() ==> is_alnum(#[trigger] value[i])
            &&& call == #[trigger] call_of_draw(pool, bucket, first, second, value)
            &&& after == crate::random::recorded(
                before,
                cidx,
                kind_of_bucket(bucket),
                first,
                second,
            )
        };
    if writes_value(kind_of_bucket(bucket)) {
        assert forall|i: int| 0 <= i < value.len() implies !is_space(#[trigger] value[i]) by {}
    }
    lemma_call_round_trip(call);
}

} // verus!
