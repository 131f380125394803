//! The random call generator: whether to call or to harvest, which client,
//! and which call. What chance decides is drawn here; what follows from a
//! draw is computed by functions that take the draw as an argument.

use bit_vec::BitVec;
use rand::distr::{Alphanumeric, SampleString};
use rand::Rng;
use vstd::prelude::*;
use vstd::string::*;

use crate::ioapi::{CallView, KvCall};
use crate::text::{lex_lt, str_lt};

verus! {

/// The length of the values that the generator writes.
pub const VALUE_LEN: usize = 16;

/// How many times `gen_rand_client` draws before it stops leaving the
/// choice to chance.
pub const MAX_DRAWS: u64 = 0xffff_ffff;

/// Trusted: makes `bit_vec::BitVec` known to the verifier, as a type of
/// which nothing is seen but what the functions below say of `bits`.
#[verifier::external_type_specification]
#[verifier::external_body]
#[verifier::reject_recursive_types(B)]
pub struct ExBitVec<B>(BitVec<B>);

/// The bits that a bit vector holds, from index 0 on. Trusted: a name for
/// what `BitVec` holds, of which the functions below say what the methods
/// of `BitVec` do to it.
pub uninterp spec fn bits(v: BitVec) -> Seq<bool>;

/// Every bit is set; true of no bits at all.
pub open spec fn all_set(flags: Seq<bool>) -> bool {
    forall|i: int| 0 <= i < flags.len() ==> #[trigger] flags[i]
}

/// No bit is set; true of no bits at all.
pub open spec fn none_set(flags: Seq<bool>) -> bool {
    forall|i: int| 0 <= i < flags.len() ==> !#[trigger] flags[i]
}

/// A letter or a digit of ASCII.
pub open spec fn is_alnum(c: char) -> bool {
    ('a' <= c <= 'z') || ('A' <= c <= 'Z') || ('0' <= c <= '9')
}

/// Trusted: `BitVec::from_elem` gives a vector of `len` bits, each `bit`.
#[verifier::external_body]
pub(crate) fn bits_new(len: usize, bit: bool) -> (v: BitVec)
    ensures
        bits(v) == Seq::new(len as nat, |i: int| bit),
{
    BitVec::from_elem(len, bit)
}

/// Trusted: `BitVec::len` gives the number of bits.
#[verifier::external_body]
pub(crate) fn bits_len(v: &BitVec) -> (n: usize)
    ensures
        n == bits(*v).len(),
{
    v.len()
}

/// Trusted: `BitVec::all` tells whether all bits are 1.
#[verifier::external_body]
pub(crate) fn bits_all(v: &BitVec) -> (r: bool)
    ensures
        r == all_set(bits(*v)),
{
    v.all()
}

/// Trusted: `BitVec::none` tells whether all bits are 0.
#[verifier::external_body]
pub(crate) fn bits_none(v: &BitVec) -> (r: bool)
    ensures
        r == none_set(bits(*v)),
{
    v.none()
}

/// Trusted: `BitVec::get` gives the bit at `i`, or `None` where `i` is not
/// below the length.
#[verifier::external_body]
pub(crate) fn bits_get(v: &BitVec, i: usize) -> (bit: Option<bool>)
    ensures
        bit == if i < bits(*v).len() {
            Some(bits(*v)[i as int])
        } else {
            None
        },
{
    v.get(i)
}

/// Trusted: `BitVec::set` sets the bit at `i`, which must be below the
/// length, and leaves the others.
#[verifier::external_body]
pub(crate) fn bits_set(v: &mut BitVec, i: usize, bit: bool)
    requires
        i < bits(*old(v)).len(),
    ensures
        bits(*final(v)) == bits(*old(v)).update(i as int, bit),
{
    v.set(i, bit)
}

/// A random index below `max`. Trusted: rand's `random_range` on a range
/// that is not empty gives a number of the range.
#[verifier::external_body]
pub(crate) fn gen_rand_index(max: usize) -> (i: usize)
    requires
        max > 0,
    ensures
        i < max,
{
    rand::rng().random_range(0..max)
}

/// A random text of `len` letters and digits. Trusted: rand's
/// `Alphanumeric.sample_string` gives `len` characters, each of a-z, A-Z
/// and 0-9.
#[verifier::external_body]
pub(crate) fn gen_rand_string(len: usize) -> (s: String)
    requires
        len > 0,
    ensures
        s@.len() == len,
        forall|i: int| 0 <= i < s@.len() ==> is_alnum(#[trigger] s@[i]),
{
    Alphanumeric.sample_string(&mut rand::rng(), len)
}

/// A random `bool`, by rand's `random`. Nothing is claimed of it: it may
/// be either.
#[verifier::external_body]
pub(crate) fn gen_rand_bool() -> bool {
    rand::rng().random()
}

/// What the state of a run leaves to decide between a new call and a
/// harvest.
#[derive(Debug, PartialEq, Eq, Clone, Copy, Structural)]
pub enum Turn {
    /// A new call is made.
    Call,
    /// A response is harvested.
    Wait,
    /// Either: a coin decides.
    Flip,
}

/// A response is harvested where every call was made or every client waits
/// for a response; else a call is made where no client waits for one; else
/// a coin decides.
pub open spec fn turn_of(ops_called: usize, num_ops: usize, flying: Seq<bool>) -> Turn {
    if ops_called == num_ops || all_set(flying) {
        Turn::Wait
    } else if none_set(flying) {
        Turn::Call
    } else {
        Turn::Flip
    }
}

/// Whether the next step is a call or a harvest, as far as the state of the
/// run decides it.
pub fn next_turn(ops_called: usize, num_ops: usize, flying: &BitVec) -> (turn: Turn)
    ensures
        turn == turn_of(ops_called, num_ops, bits(*flying)),
{
    if ops_called == num_ops || bits_all(flying) {
        Turn::Wait
    } else if bits_none(flying) {
        Turn::Call
    } else {
        Turn::Flip
    }
}

/// Decides between a new call (`true`) and a harvest (`false`), by a coin
/// where the state of the run leaves it open.
pub fn gen_call_vs_wait(ops_called: usize, num_ops: usize, flying: &BitVec) -> (call: bool)
    ensures
        turn_of(ops_called, num_ops, bits(*flying)) == Turn::Wait ==> !call,
        turn_of(ops_called, num_ops, bits(*flying)) == Turn::Call ==> call,
{
    match next_turn(ops_called, num_ops, flying) {
        Turn::Wait => false,
        Turn::Call => true,
        Turn::Flip => gen_rand_bool(),
    }
}

/// The client that a draw picks: the client drawn, where its state is the
/// one wanted.
pub fn pick_client(flying: &BitVec, want_flying: bool, drawn: usize) -> (cidx: Option<usize>)
    ensures
        cidx == if drawn < bits(*flying).len() && bits(*flying)[drawn as int] == want_flying {
            Some(drawn)
        } else {
            None
        },
{
    match bits_get(flying, drawn) {
        Some(bit) => if bit == want_flying {
            Some(drawn)
        } else {
            None
        },
        None => None,
    }
}

/// The first client whose state is the one wanted.
pub fn first_client(flying: &BitVec, want_flying: bool) -> (cidx: Option<usize>)
    ensures
        match cidx {
            Some(c) => c < bits(*flying).len() && bits(*flying)[c as int] == want_flying
                && forall|i: int| 0 <= i < c ==> bits(*flying)[i] != want_flying,
            None => forall|i: int| 0 <= i < bits(*flying).len() ==> bits(*flying)[i] != want_flying,
        },
{
    let n = bits_len(flying);
    let mut i: usize = 0;
    while i < n
        invariant
            i <= n,
            n == bits(*flying).len(),
            forall|j: int| 0 <= j < i ==> bits(*flying)[j] != want_flying,
        decreases n - i,
    {
        if pick_client(flying, want_flying, i).is_some() {
            return Some(i);
        }
        i += 1;
    }
    None
}

/// A random client among those that wait for a response (`want_flying`) or
/// among those that do not: clients are drawn until one is in the state
/// wanted. After `MAX_DRAWS` draws without one, the first such client is
/// taken.
pub fn gen_rand_client(flying: &BitVec, want_flying: bool) -> (cidx: usize)
    requires
        exists|i: int| 0 <= i < bits(*flying).len() && bits(*flying)[i] == want_flying,
    ensures
        cidx < bits(*flying).len(),
        bits(*flying)[cidx as int] == want_flying,
{
    let n = bits_len(flying);
    let mut draws: u64 = 0;
    while draws < MAX_DRAWS
        invariant
            n == bits(*flying).len(),
            n > 0,
        decreases MAX_DRAWS - draws,
    {
        match pick_client(flying, want_flying, gen_rand_index(n)) {
            Some(cidx) => {
                return cidx;
            },
            None => {},
        }
        draws += 1;
    }
    match first_client(flying, want_flying) {
        Some(cidx) => cidx,
        None => {
            0
        },
    }
}

/// The kinds of call that the generator makes.
#[derive(Debug, PartialEq, Eq, Clone, Copy, Structural)]
pub enum CallKind {
    Put,
    Swap,
    Get,
    Scan,
    Delete,
}

/// The kind of call for a bucket of ten: two for `Put`, two for `Swap`,
/// three for `Get`, two for `Scan`, one for `Delete`.
pub open spec fn kind_of_bucket(bucket: int) -> CallKind {
    if bucket <= 1 {
        CallKind::Put
    } else if bucket <= 3 {
        CallKind::Swap
    } else if bucket <= 6 {
        CallKind::Get
    } else if bucket <= 8 {
        CallKind::Scan
    } else {
        CallKind::Delete
    }
}

/// The call that the draws make: its kind by the bucket, its key the key at
/// `first`; a scan goes from the lesser to the greater of the keys at
/// `first` and `second`; `value` is what a `Put` or a `Swap` writes.
pub open spec fn call_of_draw(
    keys: Seq<Seq<char>>,
    bucket: int,
    first: int,
    second: int,
    value: Seq<char>,
) -> CallView {
    match kind_of_bucket(bucket) {
        CallKind::Put => CallView::Put { key: keys[first], value },
        CallKind::Swap => CallView::Swap { key: keys[first], value },
        CallKind::Get => CallView::Get { key: keys[first] },
        CallKind::Scan => if lex_lt(keys[second], keys[first]) {
            CallView::Scan { key_start: keys[second], key_end: keys[first] }
        } else {
            CallView::Scan { key_start: keys[first], key_end: keys[second] }
        },
        CallKind::Delete => CallView::Delete { key: keys[first] },
    }
}

/// The kind of call for a bucket below ten.
pub fn bucket_kind(bucket: usize) -> (kind: CallKind)
    ensures
        kind == kind_of_bucket(bucket as int),
{
    if bucket <= 1 {
        CallKind::Put
    } else if bucket <= 3 {
        CallKind::Swap
    } else if bucket <= 6 {
        CallKind::Get
    } else if bucket <= 8 {
        CallKind::Scan
    } else {
        CallKind::Delete
    }
}

/// The call that the draws make.
pub fn kvcall_of_draw(
    keys: &Vec<String>,
    bucket: usize,
    first: usize,
    second: usize,
    value: String,
) -> (call: KvCall)
    requires
        first < keys.len(),
        second < keys.len(),
    ensures
        call@ == call_of_draw(keys.deep_view(), bucket as int, first as int, second as int, value@),
{
    match bucket_kind(bucket) {
        CallKind::Put => KvCall::Put { key: keys[first].clone(), value },
        CallKind::Swap => KvCall::Swap { key: keys[first].clone(), value },
        CallKind::Get => KvCall::Get { key: keys[first].clone() },
        CallKind::Scan => {
            if str_lt(keys[second].as_str(), keys[first].as_str()) {
                KvCall::Scan { key_start: keys[second].clone(), key_end: keys[first].clone() }
            } else {
                KvCall::Scan { key_start: keys[first].clone(), key_end: keys[second].clone() }
            }
        },
        CallKind::Delete => KvCall::Delete { key: keys[first].clone() },
    }
}

/// Counts of the calls that a run has made: by kind, and for each client
/// and each key of its pool how often a call named the key.
#[derive(Debug)]
pub struct Stats {
    pub cnt_put: usize,
    pub cnt_swap: usize,
    pub cnt_get: usize,
    pub cnt_scan: usize,
    pub cnt_delete: usize,
    pub keys_freq: Vec<Vec<usize>>,
}

/// `Stats` as plain values.
pub struct StatsView {
    pub cnt_put: usize,
    pub cnt_swap: usize,
    pub cnt_get: usize,
    pub cnt_scan: usize,
    pub cnt_delete: usize,
    pub keys_freq: Seq<Seq<usize>>,
}

/// The rows of a table as plain values.
pub open spec fn rows(table: Seq<Vec<usize>>) -> Seq<Seq<usize>> {
    Seq::new(table.len(), |c: int| table[c]@)
}

impl View for Stats {
    type V = StatsView;

    open spec fn view(&self) -> StatsView {
        StatsView {
            cnt_put: self.cnt_put,
            cnt_swap: self.cnt_swap,
            cnt_get: self.cnt_get,
            cnt_scan: self.cnt_scan,
            cnt_delete: self.cnt_delete,
            keys_freq: rows(self.keys_freq@),
        }
    }
}

/// The number of calls counted.
pub open spec fn calls_counted(s: StatsView) -> int {
    s.cnt_put + s.cnt_swap + s.cnt_get + s.cnt_scan + s.cnt_delete
}

/// Valid counts: no key was named more often than twice for each call.
pub open spec fn stats_wf(s: StatsView) -> bool {
    forall|c: int, k: int|
        0 <= c < s.keys_freq.len() && 0 <= k < s.keys_freq[c].len() ==> #[trigger] s.keys_freq[c][k]
            <= 2 * calls_counted(s)
}

/// One more in `row` at `k`.
pub open spec fn bumped(row: Seq<usize>, k: int) -> Seq<usize> {
    row.update(k, (row[k] + 1) as usize)
}

/// The counts after one more call of client `cidx`: one more call of its
/// kind, one more for the key at `first`, and for a scan one more for the
/// key at `second`.
pub open spec fn recorded(s: StatsView, cidx: int, kind: CallKind, first: int, second: int) -> StatsView {
    let row = bumped(s.keys_freq[cidx], first);
    let row = if kind == CallKind::Scan {
        bumped(row, second)
    } else {
        row
    };
    StatsView {
        cnt_put: if kind == CallKind::Put {
            (s.cnt_put + 1) as usize
        } else {
            s.cnt_put
        },
        cnt_swap: if kind == CallKind::Swap {
            (s.cnt_swap + 1) as usize
        } else {
            s.cnt_swap
        },
        cnt_get: if kind == CallKind::Get {
            (s.cnt_get + 1) as usize
        } else {
            s.cnt_get
        },
        cnt_scan: if kind == CallKind::Scan {
            (s.cnt_scan + 1) as usize
        } else {
            s.cnt_scan
        },
        cnt_delete: if kind == CallKind::Delete {
            (s.cnt_delete + 1) as usize
        } else {
            s.cnt_delete
        },
        keys_freq: s.keys_freq.update(cidx, row),
    }
}

/// Counts of nothing, for pools of the given sizes.
pub open spec fn no_counts(sizes: Seq<nat>) -> StatsView {
    StatsView {
        cnt_put: 0,
        cnt_swap: 0,
        cnt_get: 0,
        cnt_scan: 0,
        cnt_delete: 0,
        keys_freq: Seq::new(sizes.len(), |c: int| Seq::new(sizes[c], |k: int| 0usize)),
    }
}

/// The sizes of the pools.
pub open spec fn pool_sizes(pools: Seq<Seq<Seq<char>>>) -> Seq<nat> {
    Seq::new(pools.len(), |c: int| pools[c].len())
}

impl Stats {
    /// Counts of nothing, for the pools `keys`.
    pub fn new(keys: &Vec<Vec<String>>) -> (stats: Stats)
        ensures
            stats@ == no_counts(pool_sizes(keys.deep_view())),
            stats_wf(stats@),
    {
        let ghost sizes = pool_sizes(keys.deep_view());
        let mut keys_freq: Vec<Vec<usize>> = Vec::new();
        let mut c: usize = 0;
        while c < keys.len()
            invariant
                c <= keys.len(),
                sizes == pool_sizes(keys.deep_view()),
                rows(keys_freq@) == no_counts(sizes.take(c as int)).keys_freq,
            decreases keys.len() - c,
        {
            let n = keys[c].len();
            let mut row: Vec<usize> = Vec::new();
            let mut k: usize = 0;
            while k < n
                invariant
                    k <= n,
                    row@ == Seq::new(k as nat, |k: int| 0usize),
                decreases n - k,
            {
                row.push(0);
                k += 1;
            }
            let ghost before = rows(keys_freq@);
            keys_freq.push(row);
            assert(rows(keys_freq@) =~= before.push(row@));
            c += 1;
        }
        assert(sizes.take(c as int) == sizes);
        Stats { cnt_put: 0, cnt_swap: 0, cnt_get: 0, cnt_scan: 0, cnt_delete: 0, keys_freq }
    }

    fn bump(&mut self, cidx: usize, k: usize)
        requires
            cidx < old(self)@.keys_freq.len(),
            k < old(self)@.keys_freq[cidx as int].len(),
            old(self)@.keys_freq[cidx as int][k as int] < usize::MAX,
        ensures
            final(self)@ == (StatsView {
                keys_freq: old(self)@.keys_freq.update(
                    cidx as int,
                    bumped(old(self)@.keys_freq[cidx as int], k as int),
                ),
                ..old(self)@
            }),
    {
        let ghost before = self@;
        let n = self.keys_freq[cidx][k];
        self.keys_freq[cidx][k] = n + 1;
        assert(self@.keys_freq =~= before.keys_freq.update(
            cidx as int,
            bumped(before.keys_freq[cidx as int], k as int),
        ));
    }

    /// Counts one more call of client `cidx`, of the given kind, that names
    /// the key at `first` and, where it is a scan, the key at `second`.
    pub fn record(&mut self, cidx: usize, kind: CallKind, first: usize, second: usize)
        requires
            stats_wf(old(self)@),
            calls_counted(old(self)@) < usize::MAX / 2,
            cidx < old(self)@.keys_freq.len(),
            first < old(self)@.keys_freq[cidx as int].len(),
            second < old(self)@.keys_freq[cidx as int].len(),
        ensures
            final(self)@ == recorded(old(self)@, cidx as int, kind, first as int, second as int),
            stats_wf(final(self)@),
            calls_counted(final(self)@) == calls_counted(old(self)@) + 1,
    {
        let ghost s0 = self@;
        self.bump(cidx, first);
        match kind {
            CallKind::Put => {
                self.cnt_put += 1;
            },
            CallKind::Swap => {
                self.cnt_swap += 1;
            },
            CallKind::Get => {
                self.cnt_get += 1;
            },
            CallKind::Scan => {
                self.bump(cidx, second);
                self.cnt_scan += 1;
            },
            CallKind::Delete => {
                self.cnt_delete += 1;
            },
        }
        proof {
            let s1 = self@;
            assert(s1.keys_freq =~= recorded(s0, cidx as int, kind, first as int, second as int).keys_freq);
            assert forall|c: int, k: int|
                0 <= c < s1.keys_freq.len() && 0 <= k < s1.keys_freq[c].len() implies #[trigger] s1.keys_freq[c][k]
                <= 2 * calls_counted(s1) by {}
        }
    }
}

/// Whether a call of this kind writes a value.
pub open spec fn writes_value(kind: CallKind) -> bool {
    kind == CallKind::Put || kind == CallKind::Swap
}

/// What `gen_rand_kvcall` can return for the pool `keys`, and the counts
/// that it then leaves: the call and the counts of some draw of a bucket
/// below ten, two places in the pool, and, for a call that writes, a value
/// of `VALUE_LEN` letters and digits.
pub open spec fn is_drawn_call(
    keys: Seq<Seq<char>>,
    before: StatsView,
    cidx: int,
    call: CallView,
    after: StatsView,
) -> bool {
    exists|bucket: int, first: int, second: int, value: Seq<char>|
        {
            &&& 0 <= bucket < 10
            &&& 0 <= first < keys.len()
            &&& 0 <= second < keys.len()
            &&& writes_value(kind_of_bucket(bucket)) ==> value.len() == VALUE_LEN && forall|i: int|
                0 <= i < value.len() ==> is_alnum(#[trigger] value[i])
            &&& call == #[trigger] call_of_draw(keys, bucket, first, second, value)
            &&& after == recorded(before, cidx, kind_of_bucket(bucket), first, second)
        }
}

/// A random call of client `cidx` on the keys of its pool, counted in
/// `stats`: of ten calls two are `Put`, two `Swap`, three `Get`, two `Scan`
/// and one `Delete`, on the average. The keys are drawn from the pool; the
/// two keys of a scan are drawn one by one, and may be the same.
pub fn gen_rand_kvcall(keys: &Vec<String>, stats: &mut Stats, cidx: usize) -> (call: KvCall)
    requires
        keys.len() > 0,
        stats_wf(old(stats)@),
        calls_counted(old(stats)@) < usize::MAX / 2,
        cidx < old(stats)@.keys_freq.len(),
        old(stats)@.keys_freq[cidx as int].len() == keys.len(),
    ensures
        is_drawn_call(keys.deep_view(), old(stats)@, cidx as int, call@, final(stats)@),
        stats_wf(final(stats)@),
        calls_counted(final(stats)@) == calls_counted(old(stats)@) + 1,
{
    let bucket = gen_rand_index(10);
    let kind = bucket_kind(bucket);
    let first = gen_rand_index(keys.len());
    let second = match kind {
        CallKind::Scan => gen_rand_index(keys.len()),
        _ => first,
    };
    let value = match kind {
        CallKind::Put | CallKind::Swap => gen_rand_string(VALUE_LEN),
        _ => String::new(),
    };
    stats.record(cidx, kind, first, second);
    let call = kvcall_of_draw(keys, bucket, first, second, value);
    call
}

} // verus!
