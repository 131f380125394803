//! Text primitives of the line protocol: white space, words, trimming.

use vstd::prelude::*;
use vstd::string::*;

verus! {

/// Whether `c` is white space: one of the code points U+0009..U+000D, U+0020,
/// U+0085, U+00A0, U+1680, U+2000..U+200A, U+2028, U+2029, U+202F, U+205F
/// and U+3000.
pub open spec fn is_space(c: char) -> bool {
    let n = c as u32;
    ||| 0x09 <= n <= 0x0d
    ||| n == 0x20
    ||| n == 0x85
    ||| n == 0xa0
    ||| n == 0x1680
    ||| 0x2000 <= n <= 0x200a
    ||| n == 0x2028
    ||| n == 0x2029
    ||| n == 0x202f
    ||| n == 0x205f
    ||| n == 0x3000
}

/// A text made of white space only; the empty text is blank.
pub open spec fn is_blank(s: Seq<char>) -> bool {
    forall|i: int| 0 <= i < s.len() ==> is_space(#[trigger] s[i])
}

/// A non-empty text without white space: what one word of a line can hold.
pub open spec fn is_token(s: Seq<char>) -> bool {
    &&& s.len() > 0
    &&& forall|i: int| 0 <= i < s.len() ==> !is_space(#[trigger] s[i])
}

/// The words of a text: its maximal runs of characters that are not white
/// space, from left to right.
///
/// Read from the right end: a trailing white space adds nothing, a character
/// after a non-space extends the last word, and any other character starts a
/// new word.
pub open spec fn words(s: Seq<char>) -> Seq<Seq<char>>
    decreases s.len(),
{
    if s.len() == 0 {
        Seq::empty()
    } else {
        let front = s.drop_last();
        let c = s.last();
        if is_space(c) {
            words(front)
        } else if front.len() > 0 && !is_space(front.last()) {
            let ws = words(front);
            ws.drop_last().push(ws.last().push(c))
        } else {
            words(front).push(seq![c])
        }
    }
}

/// The words `ws` with one space between each two of them.
pub open spec fn join_words(ws: Seq<Seq<char>>) -> Seq<char>
    decreases ws.len(),
{
    if ws.len() == 0 {
        Seq::empty()
    } else if ws.len() == 1 {
        ws[0]
    } else {
        join_words(ws.drop_last()) + seq![' '] + ws.last()
    }
}

/// The lines of a text. A line ends with its line feed; the last line ends
/// with the text where no line feed closes it. The empty text has no line.
pub open spec fn lines(s: Seq<char>) -> Seq<Seq<char>>
    decreases s.len(),
{
    if s.len() == 0 {
        Seq::empty()
    } else {
        let front = s.drop_last();
        let c = s.last();
        if front.len() > 0 && front.last() != '\n' {
            let ls = lines(front);
            ls.drop_last().push(ls.last().push(c))
        } else {
            lines(front).push(seq![c])
        }
    }
}

/// The order of texts: character by character, by code point, a text before
/// every text that it begins.
pub open spec fn lex_lt(a: Seq<char>, b: Seq<char>) -> bool
    decreases a.len(),
{
    if b.len() == 0 {
        false
    } else if a.len() == 0 {
        true
    } else if a[0] == b[0] {
        lex_lt(a.drop_first(), b.drop_first())
    } else {
        a[0] < b[0]
    }
}


/// `s` without its trailing white space.
pub open spec fn trim_end(s: Seq<char>) -> Seq<char>
    decreases s.len(),
{
    if s.len() > 0 && is_space(s.last()) {
        trim_end(s.drop_last())
    } else {
        s
    }
}

/// `s` without its leading white space.
pub open spec fn trim_start(s: Seq<char>) -> Seq<char>
    decreases s.len(),
{
    if s.len() > 0 && is_space(s[0]) {
        trim_start(s.drop_first())
    } else {
        s
    }
}

/// `s` without leading and trailing white space.
pub open spec fn trim(s: Seq<char>) -> Seq<char> {
    trim_start(trim_end(s))
}

/// Whether two texts hold the same characters. Trusted: `==` on `str`
/// compares the two texts character by character.
#[verifier::external_body]
pub(crate) fn str_eq(a: &str, b: &str) -> (r: bool)
    ensures
        r == (a@ == b@),
{
    a == b
}

/// Whether `a` comes before `b`. Trusted: `<` on `str` orders texts byte by
/// byte, which is the order of their code points.
#[verifier::external_body]
pub(crate) fn str_lt(a: &str, b: &str) -> (r: bool)
    ensures
        r == lex_lt(a@, b@),
{
    a < b
}

/// Whether `pat` occurs in `s`: some part of `s` is `pat`.
pub open spec fn has_infix(s: Seq<char>, pat: Seq<char>) -> bool {
    exists|i: int| 0 <= i <= s.len() - pat.len() && #[trigger] s.subrange(i, i + pat.len()) == pat
}

/// Whether `pat` occurs in `s`. Trusted: `str::contains` with a `str` as
/// its pattern tells whether the pattern matches a part of the text.
#[verifier::external_body]
pub(crate) fn str_contains(s: &str, pat: &str) -> (r: bool)
    ensures
        r == has_infix(s@, pat@),
{
    s.contains(pat)
}

/// A decimal digit.
pub open spec fn is_digit(c: char) -> bool {
    '0' <= c <= '9'
}

/// The number that decimal digits stand for.
pub open spec fn digits_value(s: Seq<char>) -> nat
    decreases s.len(),
{
    if s.len() == 0 {
        0
    } else {
        (digits_value(s.drop_last()) * 10 + (s.last() as u32 - '0' as u32)) as nat
    }
}

/// `s` without the `+` that it may begin with.
pub open spec fn unsigned_part(s: Seq<char>) -> Seq<char> {
    if s.len() > 0 && s[0] == '+' {
        s.drop_first()
    } else {
        s
    }
}

/// The number that a text stands for: digits, or `+` and digits, of a
/// number that is not above the greatest `usize`.
pub open spec fn decimal_of(s: Seq<char>) -> Option<usize> {
    let d = unsigned_part(s);
    if d.len() > 0 && (forall|i: int| 0 <= i < d.len() ==> is_digit(#[trigger] d[i])) && digits_value(d)
        <= usize::MAX {
        Some(digits_value(d) as usize)
    } else {
        None
    }
}

/// More digits stand for no less.
pub proof fn lemma_digits_grow(s: Seq<char>, n: int)
    requires
        0 <= n <= s.len(),
        forall|i: int| 0 <= i < s.len() ==> is_digit(#[trigger] s[i]),
    ensures
        digits_value(s.take(n)) <= digits_value(s),
    decreases s.len() - n,
{
    if n < s.len() {
        lemma_digits_grow(s, n + 1);
        assert(s.take(n + 1).drop_last() =~= s.take(n));
    } else {
        assert(s.take(n) =~= s);
    }
}

/// Reads a number, as `decimal_of` says.
pub fn parse_decimal(text: &str) -> (r: Option<usize>)
    ensures
        r == decimal_of(text@),
{
    let cs = chars_of(text);
    let start: usize = if cs.len() > 0 && cs[0] == '+' {
        1
    } else {
        0
    };
    let ghost d = unsigned_part(cs@);
    if start >= cs.len() {
        return None;
    }
    let mut value: usize = 0;
    let mut i: usize = start;
    while i < cs.len()
        invariant
            start <= i <= cs.len(),
            start <= 1,
            cs@ == text@,
            d == unsigned_part(text@),
            d == cs@.skip(start as int),
            forall|j: int| 0 <= j < i - start ==> is_digit(#[trigger] d[j]),
            value == digits_value(d.take(i - start)),
        decreases cs.len() - i,
    {
        let c = cs[i];
        assert(d[i - start] == c);
        if !('0' <= c && c <= '9') {
            return None;
        }
        let digit = (c as u32 - '0' as u32) as usize;
        proof {
            assert(d.take(i - start + 1).drop_last() =~= d.take(i - start));
        }
        let next = match value.checked_mul(10) {
            Some(tens) => tens.checked_add(digit),
            None => None,
        };
        match next {
            Some(n) => {
                value = n;
            },
            None => {
                proof {
                    if forall|j: int| 0 <= j < d.len() ==> is_digit(#[trigger] d[j]) {
                        lemma_digits_grow(d, i - start + 1);
                    }
                }
                return None;
            },
        }
        i += 1;
    }
    assert(d.take(i - start) =~= d);
    Some(value)
}

/// No text comes before itself.
pub proof fn lemma_lex_irreflexive(a: Seq<char>)
    ensures
        !lex_lt(a, a),
    decreases a.len(),
{
    if a.len() > 0 {
        lemma_lex_irreflexive(a.drop_first());
    }
}

/// The order of texts is transitive.
pub proof fn lemma_lex_transitive(a: Seq<char>, b: Seq<char>, c: Seq<char>)
    requires
        lex_lt(a, b),
        lex_lt(b, c),
    ensures
        lex_lt(a, c),
    decreases a.len(),
{
    if a.len() > 0 && a[0] == b[0] && b[0] == c[0] {
        lemma_lex_transitive(a.drop_first(), b.drop_first(), c.drop_first());
    }
}

/// Of two different texts one comes before the other.
pub proof fn lemma_lex_total(a: Seq<char>, b: Seq<char>)
    ensures
        lex_lt(a, b) || a == b || lex_lt(b, a),
    decreases a.len(),
{
    if a.len() > 0 && b.len() > 0 && a[0] == b[0] {
        lemma_lex_total(a.drop_first(), b.drop_first());
        if a.drop_first() == b.drop_first() {
            assert(b =~= seq![b[0]] + b.drop_first());
        }
    }
}

/// Where `a` comes before `b`, `b` does not come before `a`.
pub proof fn lemma_lex_asymmetric(a: Seq<char>, b: Seq<char>)
    requires
        lex_lt(a, b),
    ensures
        !lex_lt(b, a),
{
    if lex_lt(b, a) {
        lemma_lex_transitive(a, b, a);
        lemma_lex_irreflexive(a);
    }
}

/// The words `ws` as a line: one space between each two, and a line feed.
pub open spec fn line_of(ws: Seq<Seq<char>>) -> Seq<char> {
    join_words(ws).push('\n')
}

/// A word written behind a text that is empty or ends in white space is
/// a new word of it.
pub proof fn lemma_words_append_token(s: Seq<char>, w: Seq<char>)
    requires
        is_token(w),
        s.len() == 0 || is_space(s.last()),
    ensures
        words(s + w) == words(s).push(w),
    decreases w.len(),
{
    let front = w.drop_last();
    let c = w.last();
    assert((s + w).drop_last() =~= s + front);
    if front.len() == 0 {
        assert(w =~= seq![c]);
    } else {
        lemma_words_append_token(s, front);
        assert(front.push(c) =~= w);
    }
}

/// White space before a text changes none of its words.
pub proof fn lemma_words_prepend_space(c: char, s: Seq<char>)
    requires
        is_space(c),
    ensures
        words(seq![c] + s) == words(s),
    decreases s.len(),
{
    let t = seq![c] + s;
    if s.len() == 0 {
        assert(words(t) == words(t.drop_last()));
    } else {
        let front = s.drop_last();
        let d = s.last();
        let tf = seq![c] + front;
        assert(t.drop_last() =~= tf);
        lemma_words_prepend_space(c, front);
    }
}

/// Blank text before a text changes none of its words.
pub proof fn lemma_words_prepend_blank(pad: Seq<char>, s: Seq<char>)
    requires
        is_blank(pad),
    ensures
        words(pad + s) == words(s),
    decreases pad.len(),
{
    if pad.len() > 0 {
        let rest = pad.drop_first();
        lemma_words_prepend_blank(rest, s);
        lemma_words_prepend_space(pad[0], rest + s);
        assert(seq![pad[0]] + (rest + s) =~= pad + s);
    }
}

/// Words joined by single spaces are the words of the text that they make.
pub proof fn lemma_words_join(ws: Seq<Seq<char>>)
    requires
        forall|i: int| 0 <= i < ws.len() ==> is_token(#[trigger] ws[i]),
    ensures
        words(join_words(ws)) == ws,
        ws.len() > 0 ==> join_words(ws).len() > 0 && !is_space(join_words(ws).last()) && !is_space(
            join_words(ws)[0],
        ),
    decreases ws.len(),
{
    if ws.len() == 1 {
        lemma_words_append_token(Seq::<char>::empty(), ws[0]);
    } else if ws.len() > 1 {
        let front = ws.drop_last();
        lemma_words_join(front);
        let s = join_words(front) + seq![' '];
        assert(s.drop_last() =~= join_words(front));
        lemma_words_append_token(s, ws.last());
    }
}

/// The words of a line of words are those words, and the line is not
/// blank.
pub proof fn lemma_words_line(ws: Seq<Seq<char>>)
    requires
        ws.len() > 0,
        forall|i: int| 0 <= i < ws.len() ==> is_token(#[trigger] ws[i]),
    ensures
        words(line_of(ws)) == ws,
        !is_blank(line_of(ws)),
{
    lemma_words_join(ws);
    assert(line_of(ws).drop_last() =~= join_words(ws));
}

/// Trimming takes blank text from both ends of a text that begins and
/// ends with other characters.
pub proof fn lemma_trim_padded(pre: Seq<char>, body: Seq<char>, post: Seq<char>)
    requires
        is_blank(pre),
        is_blank(post),
        body.len() > 0,
        !is_space(body[0]),
        !is_space(body.last()),
    ensures
        trim(pre + body + post) == body,
    decreases pre.len() + post.len(),
{
    let s = pre + body + post;
    if post.len() > 0 {
        let rest = post.drop_last();
        assert(s.drop_last() =~= pre + body + rest);
        lemma_trim_padded(pre, body, rest);
    } else {
        if pre.len() > 0 {
            let rest = pre.drop_first();
            assert(s.drop_first() =~= rest + body + post);
            lemma_trim_padded(rest, body, post);
        }
    }
}

/// Tells white space from other characters.
pub fn is_whitespace(c: char) -> (r: bool)
    ensures
        r == is_space(c),
{
    let n: u32 = c as u32;
    (0x09 <= n && n <= 0x0d) || n == 0x20 || n == 0x85 || n == 0xa0 || n == 0x1680 || (0x2000 <= n
        && n <= 0x200a) || n == 0x2028 || n == 0x2029 || n == 0x202f || n == 0x205f || n == 0x3000
}

/// The characters of `s`, one by one.
pub fn chars_of(s: &str) -> (v: Vec<char>)
    ensures
        v@ == s@,
{
    let mut v: Vec<char> = Vec::new();
    for c in it: s.chars()
        invariant
            it.seq() == s@,
            v@ == s@.take(it.index() as int),
    {
        v.push(c);
    }
    v
}

/// Whether `line` holds white space only.
pub fn line_is_blank(line: &str) -> (r: bool)
    ensures
        r == is_blank(line@),
{
    let cs = chars_of(line);
    let mut i: usize = 0;
    while i < cs.len()
        invariant
            i <= cs.len(),
            cs@ == line@,
            forall|k: int| 0 <= k < i ==> is_space(#[trigger] cs@[k]),
        decreases cs.len() - i,
    {
        if !is_whitespace(cs[i]) {
            return false;
        }
        i += 1;
    }
    true
}

/// Splits `line` into its words.
pub fn split_words(line: &str) -> (v: Vec<String>)
    ensures
        v.deep_view() == words(line@),
{
    let cs = chars_of(line);
    let mut out: Vec<String> = Vec::new();
    let mut start: usize = 0;
    let mut in_word = false;
    let mut i: usize = 0;
    while i < cs.len()
        invariant
            i <= cs.len(),
            cs@ == line@,
            in_word <==> i > 0 && !is_space(cs@[i - 1]),
            in_word ==> start < i,
            words(cs@.take(i as int)) == if in_word {
                out.deep_view().push(cs@.subrange(start as int, i as int))
            } else {
                out.deep_view()
            },
        decreases cs.len() - i,
    {
        let c = cs[i];
        proof {
            assert(cs@.take(i + 1).drop_last() == cs@.take(i as int));
        }
        if is_whitespace(c) {
            if in_word {
                out.push(line.substring_char(start, i).to_owned());
                in_word = false;
            }
        } else {
            if !in_word {
                start = i;
                in_word = true;
                assert(cs@.subrange(i as int, i + 1) == seq![c]);
            } else {
                assert(cs@.subrange(start as int, i + 1) == cs@.subrange(
                    start as int,
                    i as int,
                ).push(c));
            }
        }
        i += 1;
    }
    assert(cs@.take(i as int) == cs@);
    if in_word {
        out.push(line.substring_char(start, i).to_owned());
    }
    out
}

/// Splits `text` into its lines, each with its line feed.
pub fn split_lines(text: &str) -> (v: Vec<String>)
    ensures
        v.deep_view() == lines(text@),
{
    let cs = chars_of(text);
    let mut out: Vec<String> = Vec::new();
    let mut start: usize = 0;
    let mut i: usize = 0;
    while i < cs.len()
        invariant
            start <= i <= cs.len(),
            cs@ == text@,
            start < i <==> i > 0 && cs@[i - 1] != '\n',
            lines(cs@.take(i as int)) == if start < i {
                out.deep_view().push(cs@.subrange(start as int, i as int))
            } else {
                out.deep_view()
            },
        decreases cs.len() - i,
    {
        let c = cs[i];
        proof {
            assert(cs@.take(i + 1).drop_last() == cs@.take(i as int));
            assert(cs@.subrange(start as int, i + 1) == cs@.subrange(start as int, i as int).push(
                c,
            ));
            assert(cs@.subrange(i as int, i + 1) == seq![c]);
        }
        i += 1;
        if c == '\n' {
            out.push(text.substring_char(start, i).to_owned());
            start = i;
        }
    }
    assert(cs@.take(i as int) == cs@);
    if start < i {
        out.push(text.substring_char(start, i).to_owned());
    }
    out
}

/// `line` without leading and trailing white space.
pub fn trim_line(line: &str) -> (r: &str)
    ensures
        r@ == trim(line@),
{
    let cs = chars_of(line);
    let mut end: usize = cs.len();
    assert(cs@.take(end as int) == cs@);
    while end > 0 && is_whitespace(cs[end - 1])
        invariant
            end <= cs.len(),
            trim_end(cs@) == trim_end(cs@.take(end as int)),
        decreases end,
    {
        proof {
            assert(cs@.take(end as int).drop_last() == cs@.take(end - 1));
        }
        end -= 1;
    }
    let mut start: usize = 0;
    while start < end && is_whitespace(cs[start])
        invariant
            start <= end <= cs.len(),
            trim_start(cs@.take(end as int)) == trim_start(cs@.subrange(start as int, end as int)),
        decreases end - start,
    {
        proof {
            assert(cs@.subrange(start as int, end as int).drop_first() == cs@.subrange(
                start + 1,
                end as int,
            ));
        }
        start += 1;
    }
    line.substring_char(start, end)
}

} // verus!
