//! Text, as sequences of characters.
use vstd::prelude::*;
use vstd::string::{StrSliceExecFns, StringExecFns};
use vstd::utf8::{decode_utf8, is_ascii_chars, valid_utf8};

verus! {

/// The characters of `s`.
pub fn chars_of(s: &str) -> (v: Vec<char>)
    ensures
        v@ == s@,
{
    let mut v: Vec<char> = Vec::new();
    for c in it: s.chars()
        invariant
            it.seq() == s@,
            it.index() <= s@.len(),
            v@ == s@.take(it.index() as int),
    {
        v.push(c);
        assert(v@ =~= s@.take(it.index() + 1));
    }
    assert(s@.take(s@.len() as int) =~= s@);
    v
}

/// Whether the two texts are the same.
pub fn same_text(a: &str, b: &str) -> (r: bool)
    ensures
        r == (a@ == b@),
{
    let r = crate::wire::same_bytes(a.as_bytes(), b.as_bytes());
    proof {
        vstd::utf8::encode_utf8_decode_utf8(a@);
        vstd::utf8::encode_utf8_decode_utf8(b@);
    }
    r
}

/// The characters with the Unicode property `White_Space`.
pub open spec fn is_white(c: char) -> bool {
    ||| '\u{9}' <= c <= '\u{d}'
    ||| c == ' '
    ||| c == '\u{85}'
    ||| c == '\u{a0}'
    ||| c == '\u{1680}'
    ||| '\u{2000}' <= c <= '\u{200a}'
    ||| c == '\u{2028}'
    ||| c == '\u{2029}'
    ||| c == '\u{202f}'
    ||| c == '\u{205f}'
    ||| c == '\u{3000}'
}

/// `s` without the white space at its start.
pub open spec fn trim_start_of(s: Seq<char>) -> Seq<char>
    decreases s.len(),
{
    if s.len() > 0 && is_white(s[0]) {
        trim_start_of(s.skip(1))
    } else {
        s
    }
}

/// `s` without the white space at its end.
pub open spec fn trim_end_of(s: Seq<char>) -> Seq<char>
    decreases s.len(),
{
    if s.len() > 0 && is_white(s.last()) {
        trim_end_of(s.drop_last())
    } else {
        s
    }
}

/// `s` without the white space at both ends.
pub open spec fn trim_of(s: Seq<char>) -> Seq<char> {
    trim_start_of(trim_end_of(s))
}

/// Whether `c` is white space.
pub fn is_white_space(c: char) -> (r: bool)
    ensures
        r == is_white(c),
{
    ('\u{9}' <= c && c <= '\u{d}') || c == ' ' || c == '\u{85}' || c == '\u{a0}' || c == '\u{1680}'
        || ('\u{2000}' <= c && c <= '\u{200a}') || c == '\u{2028}' || c == '\u{2029}' || c
        == '\u{202f}' || c == '\u{205f}' || c == '\u{3000}'
}

/// `s` without the white space at both ends.
pub fn trim(s: &str) -> (r: &str)
    ensures
        r@ == trim_of(s@),
{
    let v = chars_of(s);
    let mut end: usize = v.len();
    assert(s@.take(s@.len() as int) =~= s@);
    while end > 0 && is_white_space(v[end - 1])
        invariant
            v@ == s@,
            end <= v@.len(),
            trim_end_of(s@.take(end as int)) == trim_end_of(s@),
        decreases end,
    {
        assert(s@.take(end as int).drop_last() =~= s@.take(end - 1));
        end = end - 1;
    }
    let ghost body = s@.take(end as int);
    assert(trim_end_of(body) == body);
    let mut start: usize = 0;
    assert(body.skip(0) =~= body);
    while start < end && is_white_space(v[start])
        invariant
            v@ == s@,
            start <= end <= v@.len(),
            body == s@.take(end as int),
            trim_start_of(body.skip(start as int)) == trim_start_of(body),
        decreases end - start,
    {
        assert(body.skip(start as int).skip(1) =~= body.skip(start + 1));
        start = start + 1;
    }
    assert(body.skip(start as int) =~= s@.subrange(start as int, end as int));
    s.substring_char(start, end)
}

/// The place of the first `c` in `s`, or the length of `s` where there is none.
pub open spec fn first_of(s: Seq<char>, c: char) -> nat
    decreases s.len(),
{
    if s.len() == 0 || s[0] == c {
        0
    } else {
        1 + first_of(s.skip(1), c)
    }
}

/// `first_of` is where `c` stands, and no `c` stands before it.
pub proof fn lemma_first_of(s: Seq<char>, c: char)
    ensures
        first_of(s, c) <= s.len(),
        first_of(s, c) < s.len() ==> s[first_of(s, c) as int] == c,
        forall|i: int| 0 <= i < first_of(s, c) ==> s[i] != c,
    decreases s.len(),
{
    if s.len() > 0 && s[0] != c {
        lemma_first_of(s.skip(1), c);
        assert forall|i: int| 0 <= i < first_of(s, c) implies s[i] != c by {
            if i > 0 {
                assert(s.skip(1)[i - 1] == s[i]);
            }
        }
    }
}

/// Only `first_of` is preceded by no `c` and is itself `c` or the end.
pub proof fn lemma_first_of_unique(s: Seq<char>, c: char, n: int)
    requires
        0 <= n <= s.len(),
        n < s.len() ==> s[n] == c,
        forall|i: int| 0 <= i < n ==> s[i] != c,
    ensures
        first_of(s, c) == n,
{
    lemma_first_of(s, c);
}

/// The place of the first `c` in `s`.
pub fn find_char(s: &str, c: char) -> (r: usize)
    ensures
        r == first_of(s@, c),
        r <= s@.len(),
{
    let v = chars_of(s);
    let mut i: usize = 0;
    while i < v.len() && v[i] != c
        invariant
            v@ == s@,
            i <= v@.len(),
            forall|k: int| 0 <= k < i ==> s@[k] != c,
        decreases v@.len() - i,
    {
        i = i + 1;
    }
    proof {
        lemma_first_of_unique(s@, c, i as int);
    }
    i
}

/// The two sides of the first `c` in `s`.
pub open spec fn split_once_of(s: Seq<char>, c: char) -> Option<(Seq<char>, Seq<char>)> {
    let at = first_of(s, c) as int;
    if at < s.len() {
        Some((s.take(at), s.skip(at + 1)))
    } else {
        None
    }
}

/// The text of a pair of texts.
pub open spec fn pair_text(p: Option<(&str, &str)>) -> Option<(Seq<char>, Seq<char>)> {
    match p {
        Some((a, b)) => Some((a@, b@)),
        None => None,
    }
}

/// The two sides of the first `c` in `s`.
pub fn split_once(s: &str, c: char) -> (r: Option<(&str, &str)>)
    ensures
        pair_text(r) == split_once_of(s@, c),
{
    let at = find_char(s, c);
    let n = s.unicode_len();
    if at < n {
        let a = s.substring_char(0, at);
        let b = s.substring_char(at + 1, n);
        assert(a@ =~= s@.take(at as int));
        assert(b@ =~= s@.skip(at + 1));
        Some((a, b))
    } else {
        None
    }
}

/// The place of the last `c` in `s`, or -1 where there is none.
pub open spec fn last_of(s: Seq<char>, c: char) -> int
    decreases s.len(),
{
    if s.len() == 0 {
        -1
    } else if s.last() == c {
        s.len() - 1
    } else {
        last_of(s.drop_last(), c)
    }
}

/// The two sides of the last `c` in `s`.
pub open spec fn rsplit_once_of(s: Seq<char>, c: char) -> Option<(Seq<char>, Seq<char>)> {
    let at = last_of(s, c);
    if at >= 0 {
        Some((s.take(at), s.skip(at + 1)))
    } else {
        None
    }
}

/// The two sides of the last `c` in `s`.
pub fn rsplit_once(s: &str, c: char) -> (r: Option<(&str, &str)>)
    ensures
        pair_text(r) == rsplit_once_of(s@, c),
{
    let v = chars_of(s);
    let n = v.len();
    let mut end: usize = n;
    assert(s@.take(n as int) =~= s@);
    while end > 0
        invariant
            v@ == s@,
            n == v@.len(),
            end <= n,
            last_of(s@.take(end as int), c) == last_of(s@, c),
        decreases end,
    {
        if v[end - 1] == c {
            let a = s.substring_char(0, end - 1);
            let b = s.substring_char(end, n);
            assert(a@ =~= s@.take(end - 1));
            assert(b@ =~= s@.skip(end as int));
            return Some((a, b));
        }
        assert(s@.take(end as int).drop_last() =~= s@.take(end - 1));
        end = end - 1;
    }
    None
}

/// Whether `s` starts with `p`.
pub fn starts_with(s: &str, p: &str) -> (r: bool)
    ensures
        r == p@.is_prefix_of(s@),
{
    let n = s.unicode_len();
    let m = p.unicode_len();
    if m > n {
        return false;
    }
    let head = s.substring_char(0, m);
    assert(head@ =~= s@.subrange(0, m as int));
    let r = same_text(head, p);
    assert(r == (p@ =~= s@.subrange(0, m as int)));
    r
}

/// Whether `s` ends with `p`.
pub fn ends_with(s: &str, p: &str) -> (r: bool)
    ensures
        r == p@.is_suffix_of(s@),
{
    let n = s.unicode_len();
    let m = p.unicode_len();
    if m > n {
        return false;
    }
    let tail = s.substring_char(n - m, n);
    assert(tail@ =~= s@.subrange(n - m, n as int));
    let r = same_text(tail, p);
    assert(r == (p@ =~= s@.subrange(n - m, n as int)));
    r
}

/// `s` without its first `n` characters.
pub fn skip_chars(s: &str, n: usize) -> (r: &str)
    requires
        n <= s@.len(),
    ensures
        r@ == s@.skip(n as int),
{
    let len = s.unicode_len();
    let r = s.substring_char(n, len);
    assert(r@ =~= s@.skip(n as int));
    r
}

/// The first `n` characters of `s`.
pub fn take_chars(s: &str, n: usize) -> (r: &str)
    requires
        n <= s@.len(),
    ensures
        r@ == s@.take(n as int),
{
    let r = s.substring_char(0, n);
    assert(r@ =~= s@.take(n as int));
    r
}

/// `s` without any `c` at its end.
pub open spec fn strip_end_of(s: Seq<char>, c: char) -> Seq<char>
    decreases s.len(),
{
    if s.len() > 0 && s.last() == c {
        strip_end_of(s.drop_last(), c)
    } else {
        s
    }
}

/// `s` without any `c` at its start.
pub open spec fn strip_start_of(s: Seq<char>, c: char) -> Seq<char>
    decreases s.len(),
{
    if s.len() > 0 && s[0] == c {
        strip_start_of(s.skip(1), c)
    } else {
        s
    }
}

/// What `strip_end_of` leaves does not end with `c`, and is a part of `s` from its start.
pub proof fn lemma_strip_end(s: Seq<char>, c: char)
    ensures
        strip_end_of(s, c).len() <= s.len(),
        strip_end_of(s, c) == s.take(strip_end_of(s, c).len() as int),
        strip_end_of(s, c).len() > 0 ==> strip_end_of(s, c).last() != c,
        forall|i: int| strip_end_of(s, c).len() <= i < s.len() ==> s[i] == c,
    decreases s.len(),
{
    if s.len() > 0 && s.last() == c {
        lemma_strip_end(s.drop_last(), c);
        let n = strip_end_of(s, c).len() as int;
        assert(s.drop_last().take(n) =~= s.take(n));
        assert forall|i: int| n <= i < s.len() implies s[i] == c by {
            if i < s.len() - 1 {
                assert(s.drop_last()[i] == s[i]);
            }
        }
    } else {
        assert(s.take(s.len() as int) =~= s);
    }
}

/// `s` without any `c` at its end.
pub fn strip_end(s: &str, c: char) -> (r: &str)
    ensures
        r@ == strip_end_of(s@, c),
{
    let v = chars_of(s);
    let mut end: usize = v.len();
    assert(s@.take(s@.len() as int) =~= s@);
    while end > 0 && v[end - 1] == c
        invariant
            v@ == s@,
            end <= v@.len(),
            strip_end_of(s@.take(end as int), c) == strip_end_of(s@, c),
        decreases end,
    {
        assert(s@.take(end as int).drop_last() =~= s@.take(end - 1));
        end = end - 1;
    }
    take_chars(s, end)
}

/// `s` without any `c` at its start.
pub fn strip_start(s: &str, c: char) -> (r: &str)
    ensures
        r@ == strip_start_of(s@, c),
{
    let v = chars_of(s);
    let mut start: usize = 0;
    assert(s@.skip(0) =~= s@);
    while start < v.len() && v[start] == c
        invariant
            v@ == s@,
            start <= v@.len(),
            strip_start_of(s@.skip(start as int), c) == strip_start_of(s@, c),
        decreases v@.len() - start,
    {
        assert(s@.skip(start as int).skip(1) =~= s@.skip(start + 1));
        start = start + 1;
    }
    skip_chars(s, start)
}

/// Two texts one after the other.
pub fn joined(a: &str, b: &str) -> (r: String)
    ensures
        r@ == a@ + b@,
{
    let mut r = a.to_owned();
    r.append(b);
    r
}

/// A text between two others.
pub fn enclosed(a: &str, b: &str, c: &str) -> (r: String)
    ensures
        r@ == a@ + b@ + c@,
{
    let mut r = joined(a, b);
    r.append(c);
    r
}

/// A text without white space at its ends is left as it is.
pub proof fn lemma_trim_nothing(s: Seq<char>)
    requires
        s.len() > 0 ==> !is_white(s[0]) && !is_white(s.last()),
    ensures
        trim_of(s) == s,
{
}

/// The text that an option holds.
pub open spec fn opt_text(s: Option<String>) -> Option<Seq<char>> {
    match s {
        Some(t) => Some(t@),
        None => None,
    }
}

/// `s` without its spaces.
pub open spec fn without_spaces_of(s: Seq<char>) -> Seq<char>
    decreases s.len(),
{
    if s.len() == 0 {
        s
    } else if s.last() == ' ' {
        without_spaces_of(s.drop_last())
    } else {
        without_spaces_of(s.drop_last()).push(s.last())
    }
}

/// `s` without its spaces.
pub fn without_spaces(s: &str) -> (r: String)
    ensures
        r@ == without_spaces_of(s@),
{
    let v = chars_of(s);
    let mut out: String = String::new();
    let mut i: usize = 0;
    assert(out@ =~= without_spaces_of(s@.take(0)));
    while i < v.len()
        invariant
            v@ == s@,
            i <= v@.len(),
            out@ == without_spaces_of(s@.take(i as int)),
        decreases v@.len() - i,
    {
        let c = v[i];
        assert(s@.take(i + 1).drop_last() =~= s@.take(i as int));
        if c != ' ' {
            let one = s.substring_char(i, i + 1);
            assert(one@ =~= seq![c]);
            out.append(one);
            assert(out@ =~= without_spaces_of(s@.take(i as int)).push(c));
        }
        i = i + 1;
    }
    assert(s@.take(s@.len() as int) =~= s@);
    out
}

/// The lower-case letter for an upper-case one of ASCII; any other character as it is.
pub open spec fn ascii_lower(c: char) -> char {
    if 'A' <= c <= 'Z' {
        ((c as u8) + 32) as char
    } else {
        c
    }
}

/// `s` with its ASCII letters in lower case.
pub open spec fn ascii_lower_of(s: Seq<char>) -> Seq<char> {
    s.map_values(|c: char| ascii_lower(c))
}

proof fn lemma_ascii_lower(c: char)
    ensures
        is_white(ascii_lower(c)) == is_white(c),
        (ascii_lower(c) == ' ') == (c == ' '),
{
    if 'A' <= c <= 'Z' {
        assert(0x61 <= ascii_lower(c) as u32 <= 0x7a);
    }
}

proof fn lemma_lower_without_spaces(s: Seq<char>)
    ensures
        without_spaces_of(ascii_lower_of(s)) == ascii_lower_of(without_spaces_of(s)),
    decreases s.len(),
{
    if s.len() > 0 {
        lemma_ascii_lower(s.last());
        lemma_lower_without_spaces(s.drop_last());
        assert(ascii_lower_of(s).drop_last() =~= ascii_lower_of(s.drop_last()));
        let rest = without_spaces_of(s.drop_last());
        assert(ascii_lower_of(rest.push(s.last())) =~= ascii_lower_of(rest).push(
            ascii_lower(s.last()),
        ));
    } else {
        assert(ascii_lower_of(s) =~= s);
    }
}

proof fn lemma_lower_trim_end(s: Seq<char>)
    ensures
        trim_end_of(ascii_lower_of(s)) == ascii_lower_of(trim_end_of(s)),
    decreases s.len(),
{
    if s.len() > 0 {
        lemma_ascii_lower(s.last());
        lemma_lower_trim_end(s.drop_last());
        assert(ascii_lower_of(s).drop_last() =~= ascii_lower_of(s.drop_last()));
    }
}

proof fn lemma_lower_trim_start(s: Seq<char>)
    ensures
        trim_start_of(ascii_lower_of(s)) == ascii_lower_of(trim_start_of(s)),
    decreases s.len(),
{
    if s.len() > 0 {
        lemma_ascii_lower(s[0]);
        lemma_lower_trim_start(s.skip(1));
        assert(ascii_lower_of(s).skip(1) =~= ascii_lower_of(s.skip(1)));
    }
}

proof fn lemma_without_spaces_front(s: Seq<char>)
    requires
        s.len() > 0,
    ensures
        without_spaces_of(s) == (if s[0] == ' ' {
            without_spaces_of(s.skip(1))
        } else {
            seq![s[0]] + without_spaces_of(s.skip(1))
        }),
    decreases s.len(),
{
    if s.len() == 1 {
        assert(s.drop_last() =~= Seq::<char>::empty());
        assert(s.skip(1) =~= Seq::<char>::empty());
        let none = without_spaces_of(Seq::<char>::empty());
        assert(none.push(s[0]) =~= seq![s[0]] + none);
    } else {
        let body = s.drop_last();
        lemma_without_spaces_front(body);
        assert(body.skip(1) =~= s.skip(1).drop_last());
        assert(s.skip(1).last() == s.last());
        let rest = without_spaces_of(body.skip(1));
        assert((seq![s[0]] + rest).push(s.last()) =~= seq![s[0]] + rest.push(s.last()));
    }
}

proof fn lemma_spaces_trim_end(s: Seq<char>)
    ensures
        without_spaces_of(trim_end_of(s)) == trim_end_of(without_spaces_of(s)),
    decreases s.len(),
{
    if s.len() > 0 {
        lemma_spaces_trim_end(s.drop_last());
        let rest = without_spaces_of(s.drop_last());
        assert(rest.push(s.last()).drop_last() =~= rest);
    }
}

proof fn lemma_spaces_trim_start(s: Seq<char>)
    ensures
        without_spaces_of(trim_start_of(s)) == trim_start_of(without_spaces_of(s)),
    decreases s.len(),
{
    if s.len() > 0 {
        lemma_without_spaces_front(s);
        lemma_spaces_trim_start(s.skip(1));
        let rest = without_spaces_of(s.skip(1));
        assert((seq![s[0]] + rest).skip(1) =~= rest);
    }
}

/// Trimming, lower case and leaving out spaces come to the same in any order.
pub proof fn lemma_plain_order(s: Seq<char>)
    ensures
        without_spaces_of(ascii_lower_of(trim_of(s))) == trim_of(
            ascii_lower_of(without_spaces_of(s)),
        ),
{
    let e = trim_end_of(s);
    lemma_lower_without_spaces(trim_of(s));
    lemma_spaces_trim_start(e);
    lemma_spaces_trim_end(s);
    let w = without_spaces_of(s);
    lemma_lower_trim_end(w);
    lemma_lower_trim_start(trim_end_of(w));
}

/// What is left of ASCII text is ASCII.
pub proof fn lemma_trim_is_ascii(s: Seq<char>)
    requires
        is_ascii_chars(s),
    ensures
        is_ascii_chars(trim_of(s)),
{
    lemma_trim_end_is_ascii(s);
    lemma_trim_start_is_ascii(trim_end_of(s));
}

proof fn lemma_trim_end_is_ascii(s: Seq<char>)
    requires
        is_ascii_chars(s),
    ensures
        is_ascii_chars(trim_end_of(s)),
    decreases s.len(),
{
    if s.len() > 0 && is_white(s.last()) {
        lemma_trim_end_is_ascii(s.drop_last());
    }
}

proof fn lemma_trim_start_is_ascii(s: Seq<char>)
    requires
        is_ascii_chars(s),
    ensures
        is_ascii_chars(trim_start_of(s)),
    decreases s.len(),
{
    if s.len() > 0 && is_white(s[0]) {
        lemma_trim_start_is_ascii(s.skip(1));
    }
}

/// Whether `c` is a decimal digit.
pub open spec fn is_digit(c: char) -> bool {
    '0' <= c <= '9'
}

/// The number that decimal digits write.
pub open spec fn decimal_value(s: Seq<char>) -> nat
    decreases s.len(),
{
    if s.len() == 0 {
        0
    } else {
        decimal_value(s.drop_last()) * 10 + (s.last() as nat - '0' as nat) as nat
    }
}

/// `s` without a sign in front that changes nothing.
pub open spec fn without_plus(s: Seq<char>) -> Seq<char> {
    if s.len() > 0 && s[0] == '+' {
        s.skip(1)
    } else {
        s
    }
}

/// What an unsigned decimal number up to `max` reads as: an optional `+`, then at
/// least one digit.
pub open spec fn parse_unsigned_of(s: Seq<char>, max: nat) -> Option<nat> {
    let d = without_plus(s);
    if d.len() > 0 && (forall|i: int| 0 <= i < d.len() ==> is_digit(#[trigger] d[i]))
        && decimal_value(d) <= max {
        Some(decimal_value(d))
    } else {
        None
    }
}

proof fn lemma_decimal_prefix(s: Seq<char>, n: int)
    requires
        0 <= n <= s.len(),
    ensures
        decimal_value(s.take(n)) <= decimal_value(s),
    decreases s.len() - n,
{
    if n < s.len() {
        lemma_decimal_prefix(s, n + 1);
        assert(s.take(n + 1).drop_last() =~= s.take(n));
    } else {
        assert(s.take(n) =~= s);
    }
}

/// Reads an unsigned decimal number up to `max`.
pub fn parse_unsigned(s: &str, max: u64) -> (r: Option<u64>)
    ensures
        match r {
            Some(n) => parse_unsigned_of(s@, max as nat) == Some(n as nat),
            None => parse_unsigned_of(s@, max as nat) is None,
        },
{
    let v = chars_of(s);
    let n = v.len();
    let start: usize = if n > 0 && v[0] == '+' {
        1
    } else {
        0
    };
    let ghost d = without_plus(s@);
    assert(d =~= s@.skip(start as int));
    if start == n {
        return None;
    }
    let mut acc: u64 = 0;
    let mut i: usize = start;
    while i < n
        invariant
            v@ == s@,
            n == v@.len(),
            start <= i <= n,
            start <= 1,
            d == s@.skip(start as int),
            d == without_plus(s@),
            acc <= max,
            acc == decimal_value(d.take(i - start)),
            forall|k: int| 0 <= k < i - start ==> is_digit(#[trigger] d[k]),
        decreases n - i,
    {
        let c = v[i];
        assert(c == d[i - start]);
        if !('0' <= c && c <= '9') {
            return None;
        }
        let digit: u64 = (c as u32 - '0' as u32) as u64;
        let next: u128 = (acc as u128) * 10 + (digit as u128);
        assert(d.take(i - start + 1).drop_last() =~= d.take(i - start));
        assert(next == decimal_value(d.take(i - start + 1)));
        if next > max as u128 {
            proof {
                lemma_decimal_prefix(d, i - start + 1);
            }
            return None;
        }
        acc = next as u64;
        i = i + 1;
    }
    assert(d.take(n - start) =~= d);
    Some(acc)
}

/// The decimal digit of `d`.
pub open spec fn digit_char(d: nat) -> char {
    ('0' as u32 + d) as char
}

/// A number in decimal.
pub open spec fn decimal_of(n: nat) -> Seq<char>
    decreases n,
{
    if n < 10 {
        seq![digit_char(n)]
    } else {
        decimal_of(n / 10).push(digit_char(n % 10))
    }
}

/// Writes a number in decimal.
pub fn decimal_text(n: u64) -> (r: String)
    ensures
        r@ == decimal_of(n as nat),
    decreases n,
{
    proof {
        reveal_strlit("0123456789");
    }
    let d: usize = (n % 10) as usize;
    let digits = "0123456789";
    let one = digits.substring_char(d, d + 1);
    proof {
        assert(d == 0 || d == 1 || d == 2 || d == 3 || d == 4 || d == 5 || d == 6 || d == 7 || d
            == 8 || d == 9);
        assert(digits@[d as int] == digit_char(d as nat));
        assert(one@ =~= seq![digit_char(d as nat)]);
    }
    if n < 10 {
        one.to_owned()
    } else {
        let mut r = decimal_text(n / 10);
        r.append(one);
        assert(r@ =~= decimal_of((n / 10) as nat).push(digit_char(d as nat)));
        r
    }
}

/// A number that was written in decimal is read back, and needs no sign.
pub proof fn lemma_decimal_round_trip(n: nat, max: nat)
    requires
        n <= max,
    ensures
        parse_unsigned_of(decimal_of(n), max) == Some(n),
        decimal_of(n).len() > 0,
        decimal_value(decimal_of(n)) == n,
        forall|i: int| 0 <= i < decimal_of(n).len() ==> is_digit(#[trigger] decimal_of(n)[i]),
    decreases n,
{
    let s = decimal_of(n);
    if n < 10 {
        assert(s.drop_last() =~= Seq::<char>::empty());
        assert(decimal_value(s.drop_last()) == 0);
        assert(is_digit(s[0]));
    } else {
        lemma_decimal_round_trip(n / 10, n / 10);
        let head = decimal_of(n / 10);
        assert(s.drop_last() =~= head);
        assert(is_digit(digit_char(n % 10)));
        assert forall|i: int| 0 <= i < s.len() implies is_digit(#[trigger] s[i]) by {
            if i < head.len() {
                assert(s[i] == head[i]);
            }
        }
    }
    assert(is_digit(s[0]));
    assert(without_plus(s) == s);
}

/// What a signed 64-bit decimal number reads as: an optional sign, then at least one
/// digit.
pub open spec fn parse_i64_of(s: Seq<char>) -> Option<int> {
    if s.len() > 0 && s[0] == '-' {
        let d = s.skip(1);
        if d.len() > 0 && d[0] != '+' && parse_unsigned_of(d, 0x8000_0000_0000_0000) is Some {
            Some(-(parse_unsigned_of(d, 0x8000_0000_0000_0000)->0 as int))
        } else {
            None
        }
    } else {
        match parse_unsigned_of(s, 0x7fff_ffff_ffff_ffff) {
            Some(n) => Some(n as int),
            None => None,
        }
    }
}

/// Reads a signed 64-bit decimal number.
pub fn parse_i64(s: &str) -> (r: Option<i64>)
    ensures
        match r {
            Some(n) => parse_i64_of(s@) == Some(n as int),
            None => parse_i64_of(s@) is None,
        },
{
    let n = s.unicode_len();
    if n > 0 && s.get_char(0) == '-' {
        let d = skip_chars(s, 1);
        if n == 1 || d.get_char(0) == '+' {
            return None;
        }
        match parse_unsigned(d, 0x8000_0000_0000_0000) {
            Some(v) => if v == 0x8000_0000_0000_0000 {
                Some(i64::MIN)
            } else {
                Some(-(v as i64))
            },
            None => None,
        }
    } else {
        match parse_unsigned(s, 0x7fff_ffff_ffff_ffff) {
            Some(v) => Some(v as i64),
            None => None,
        }
    }
}

/// The texts of a list.
pub open spec fn texts(v: Seq<String>) -> Seq<Seq<char>> {
    v.map_values(|s: String| s@)
}

/// The pieces of `s` between the `c`s in it.
pub open spec fn pieces_of(s: Seq<char>, c: char) -> Seq<Seq<char>>
    decreases s.len(),
{
    let at = first_of(s, c) as int;
    if at < s.len() {
        seq![s.take(at)] + pieces_of(s.skip(at + 1), c)
    } else {
        seq![s]
    }
}

/// Splits `s` at every `c`.
pub fn pieces(s: &str, c: char) -> (r: Vec<String>)
    ensures
        texts(r@) == pieces_of(s@, c),
{
    let mut out: Vec<String> = Vec::new();
    let mut rest = s;
    assert(texts(out@) + pieces_of(s@, c) =~= pieces_of(s@, c));
    loop
        invariant
            texts(out@) + pieces_of(rest@, c) == pieces_of(s@, c),
        decreases rest@.len(),
    {
        let ghost before = texts(out@);
        match split_once(rest, c) {
            Some((head, tail)) => {
                proof {
                    lemma_first_of(rest@, c);
                }
                out.push(head.to_owned());
                assert(texts(out@) =~= before.push(head@));
                assert(before + (seq![head@] + pieces_of(tail@, c)) =~= before.push(head@)
                    + pieces_of(tail@, c));
                rest = tail;
            },
            None => {
                proof {
                    lemma_first_of(rest@, c);
                }
                out.push(rest.to_owned());
                assert(texts(out@) =~= before + seq![rest@]);
                return out;
            },
        }
    }
}

/// A line without the carriage return that may stand before its line feed.
pub open spec fn without_cr(s: Seq<char>) -> Seq<char> {
    if s.len() > 0 && s.last() == '\r' {
        s.drop_last()
    } else {
        s
    }
}

/// The lines of `s`, which end with a line feed or with a carriage return and a line feed.
pub open spec fn lines_of(s: Seq<char>) -> Seq<Seq<char>>
    decreases s.len(),
{
    if s.len() == 0 {
        Seq::empty()
    } else {
        let at = first_of(s, '\n') as int;
        if at < s.len() {
            seq![without_cr(s.take(at))] + lines_of(s.skip(at + 1))
        } else {
            seq![s]
        }
    }
}

/// Lines with a line feed between each two.
pub open spec fn join_lines(lines: Seq<Seq<char>>) -> Seq<char>
    decreases lines.len(),
{
    if lines.len() == 0 {
        Seq::empty()
    } else if lines.len() == 1 {
        lines[0]
    } else {
        lines[0] + seq!['\n'] + join_lines(lines.drop_first())
    }
}

/// Text that is a line: not empty, without a line feed, and without a carriage return at
/// its end.
pub open spec fn is_line(s: Seq<char>) -> bool {
    &&& s.len() > 0
    &&& s.last() != '\r'
    &&& forall|i: int| 0 <= i < s.len() ==> s[i] != '\n'
}

/// Lines that were joined are read back.
pub proof fn lemma_join_lines(lines: Seq<Seq<char>>)
    requires
        forall|i: int| 0 <= i < lines.len() ==> is_line(#[trigger] lines[i]),
    ensures
        lines_of(join_lines(lines)) == lines,
        lines.len() > 0 ==> join_lines(lines).len() > 0,
    decreases lines.len(),
{
    if lines.len() == 0 {
        assert(lines =~= Seq::<Seq<char>>::empty());
    } else {
        let l = lines[0];
        assert(is_line(l));
        if lines.len() == 1 {
            lemma_first_of_unique(l, '\n', l.len() as int);
            assert(lines =~= seq![l]);
        } else {
            let rest = join_lines(lines.drop_first());
            let all = l + seq!['\n'] + rest;
            assert forall|i: int| 0 <= i < lines.drop_first().len() implies is_line(
                #[trigger] lines.drop_first()[i],
            ) by {
                assert(is_line(lines[i + 1]));
            }
            lemma_join_lines(lines.drop_first());
            lemma_first_of_unique(all, '\n', l.len() as int);
            assert(all.take(l.len() as int) =~= l);
            assert(all.skip(l.len() as int + 1) =~= rest);
            assert(lines =~= seq![l] + lines.drop_first());
        }
    }
}

/// The lines of `s`.
pub fn lines(s: &str) -> (r: Vec<String>)
    ensures
        texts(r@) == lines_of(s@),
{
    let mut out: Vec<String> = Vec::new();
    let mut rest = s;
    assert(texts(out@) + lines_of(s@) =~= lines_of(s@));
    while !rest.is_empty()
        invariant
            texts(out@) + lines_of(rest@) == lines_of(s@),
        decreases rest@.len(),
    {
        let ghost before = texts(out@);
        proof {
            lemma_first_of(rest@, '\n');
        }
        match split_once(rest, '\n') {
            Some((head, tail)) => {
                let n = chars_of(head).len();
                let line = if n > 0 && head.get_char(n - 1) == '\r' {
                    take_chars(head, n - 1)
                } else {
                    head
                };
                assert(head@.len() > 0 ==> head@.take(head@.len() - 1) =~= head@.drop_last());
                out.push(line.to_owned());
                assert(texts(out@) =~= before.push(line@));
                assert(before + (seq![line@] + lines_of(tail@)) =~= before.push(line@) + lines_of(
                    tail@,
                ));
                rest = tail;
            },
            None => {
                out.push(rest.to_owned());
                assert(texts(out@) =~= before + seq![rest@]);
                return out;
            },
        }
    }
    assert(texts(out@) + Seq::<Seq<char>>::empty() =~= texts(out@));
    out
}

/// `String::from_utf8`: the text that `bytes` encode, where they are valid UTF-8.
#[verifier::external_body]
pub(crate) fn utf8_text(bytes: Vec<u8>) -> (r: Option<String>)
    ensures
        r is Some <==> valid_utf8(bytes@),
        r matches Some(s) ==> s@ == decode_utf8(bytes@),
{
    String::from_utf8(bytes).ok()
}

/// What is left of bytes as text when invalid parts are replaced.
pub uninterp spec fn utf8_lossy_of(bytes: Seq<u8>) -> Seq<char>;

/// `String::from_utf8_lossy`: valid UTF-8 is read as it is; anything else comes out
/// with a replacement character in it.
#[verifier::external_body]
pub(crate) fn utf8_lossy(bytes: &[u8]) -> (r: String)
    ensures
        r@ == utf8_lossy_of(bytes@),
        valid_utf8(bytes@) ==> r@ == decode_utf8(bytes@),
        !valid_utf8(bytes@) ==> r@.contains('\u{fffd}'),
{
    String::from_utf8_lossy(bytes).into_owned()
}

/// Unicode lower case.
pub uninterp spec fn lowercase_of(s: Seq<char>) -> Seq<char>;

/// `str::to_lowercase`. Of a text in ASCII it changes the upper-case letters, each to its
/// lower-case one, and nothing else.
#[verifier::external_body]
pub(crate) fn lowercase(s: &str) -> (r: String)
    ensures
        r@ == lowercase_of(s@),
        is_ascii_chars(s@) ==> r@ == ascii_lower_of(s@),
{
    s.to_lowercase()
}

/// A text is split at the first of the characters, so that what comes before holds none,
/// and at the last, so that what comes behind holds none; without one it is not split.
pub proof fn lemma_splits(a: Seq<char>, c: char, b: Seq<char>)
    ensures
        !a.contains(c) ==> split_once_of(a + seq![c] + b, c) == Some((a, b)),
        !b.contains(c) ==> rsplit_once_of(a + seq![c] + b, c) == Some((a, b)),
        !a.contains(c) ==> split_once_of(a, c) is None && rsplit_once_of(a, c) is None,
        !a.contains(c) ==> pieces_of(a, c) == seq![a] && pieces_of(a + seq![c] + b, c) == seq![a]
            + pieces_of(b, c),
{
    let s = a + seq![c] + b;
    let n = a.len() as int;
    if !a.contains(c) {
        assert forall|i: int| 0 <= i < n implies s[i] != c && a[i] != c by {
            assert(s[i] == a[i]);
            assert(a.contains(a[i]));
        }
        lemma_first_of_unique(s, c, n);
        lemma_first_of_unique(a, c, n);
        lemma_last_of_none(a, c);
        assert(s.take(n) =~= a);
        assert(s.skip(n + 1) =~= b);
    }
    if !b.contains(c) {
        lemma_last_of_split(a, c, b);
        assert(s.take(n) =~= a);
        assert(s.skip(n + 1) =~= b);
    }
}

proof fn lemma_last_of_none(s: Seq<char>, c: char)
    requires
        !s.contains(c),
    ensures
        last_of(s, c) == -1,
    decreases s.len(),
{
    if s.len() > 0 {
        assert(s.contains(s[s.len() - 1]));
        assert(!s.drop_last().contains(c)) by {
            if s.drop_last().contains(c) {
                let i = choose|i: int| 0 <= i < s.drop_last().len() && s.drop_last()[i] == c;
                assert(s[i] == c);
            }
        }
        lemma_last_of_none(s.drop_last(), c);
    }
}

proof fn lemma_last_of_split(a: Seq<char>, c: char, b: Seq<char>)
    requires
        !b.contains(c),
    ensures
        last_of(a + seq![c] + b, c) == a.len(),
    decreases b.len(),
{
    let s = a + seq![c] + b;
    if b.len() == 0 {
        assert(s.last() == c);
    } else {
        let e = b.drop_last();
        assert(s.last() == b.last());
        assert(b.contains(b[b.len() - 1]));
        assert(s.drop_last() =~= a + seq![c] + e);
        assert(!e.contains(c)) by {
            if e.contains(c) {
                let i = choose|i: int| 0 <= i < e.len() && e[i] == c;
                assert(b[i] == c);
            }
        }
        lemma_last_of_split(a, c, e);
    }
}

/// White space around a text is taken off, and no more: a text that neither starts nor ends
/// with white space comes out of it as it was, whatever white space stood around it.
pub proof fn lemma_trim(before: Seq<char>, s: Seq<char>, after: Seq<char>)
    requires
        forall|i: int| 0 <= i < before.len() ==> is_white(#[trigger] before[i]),
        forall|i: int| 0 <= i < after.len() ==> is_white(#[trigger] after[i]),
        s.len() > 0,
        !is_white(s[0]),
        !is_white(s.last()),
    ensures
        trim_of(before + s + after) == s,
        trim_of(before) == Seq::<char>::empty(),
{
    lemma_trim_end_part(before + s, after);
    assert((before + s).last() == s.last());
    lemma_trim_start_part(before, s);
    let none = Seq::<char>::empty();
    lemma_trim_end_part(none, before);
    assert(none + before =~= before);
    assert(trim_end_of(none) =~= none);
    assert(trim_start_of(none) =~= none);
}

proof fn lemma_trim_end_part(s: Seq<char>, after: Seq<char>)
    requires
        forall|i: int| 0 <= i < after.len() ==> is_white(#[trigger] after[i]),
    ensures
        trim_end_of(s + after) == trim_end_of(s),
    decreases after.len(),
{
    if after.len() > 0 {
        assert((s + after).last() == after[after.len() - 1]);
        assert((s + after).drop_last() =~= s + after.drop_last());
        lemma_trim_end_part(s, after.drop_last());
    } else {
        assert(s + after =~= s);
    }
}

proof fn lemma_trim_start_part(before: Seq<char>, s: Seq<char>)
    requires
        forall|i: int| 0 <= i < before.len() ==> is_white(#[trigger] before[i]),
    ensures
        trim_start_of(before + s) == trim_start_of(s),
    decreases before.len(),
{
    if before.len() > 0 {
        assert((before + s)[0] == before[0]);
        assert((before + s).skip(1) =~= before.skip(1) + s);
        assert forall|i: int| 0 <= i < before.skip(1).len() implies is_white(
            #[trigger] before.skip(1)[i],
        ) by {
            assert(before.skip(1)[i] == before[i + 1]);
        }
        lemma_trim_start_part(before.skip(1), s);
    } else {
        assert(before + s =~= s);
    }
}

/// Decimal digits count in tens from the left, a single `+` in front changes nothing, and
/// no other character is taken.
pub proof fn lemma_decimal_digits(n: nat, d: nat, s: Seq<char>, c: char)
    requires
        d < 10,
    ensures
        decimal_of(d) == seq![('0' as u32 + d) as char],
        n > 0 ==> decimal_of(10 * n + d) == decimal_of(n) + decimal_of(d),
        decimal_value(s.push(('0' as u32 + d) as char)) == 10 * decimal_value(s) + d,
        parse_unsigned_of(seq!['+'] + decimal_of(n), n) == Some(n),
        n > 0 ==> parse_unsigned_of(decimal_of(n), (n - 1) as nat) is None,
        c != '+' && !('0' <= c <= '9') ==> parse_unsigned_of(s.push(c), n) is None,
        parse_unsigned_of(Seq::empty(), n) is None,
{
    let digit = ('0' as u32 + d) as char;
    assert(decimal_of(d) =~= seq![digit]);
    if n > 0 {
        let m = 10 * n + d;
        assert(m / 10 == n && m % 10 == d);
        assert(decimal_of(n) + decimal_of(d) =~= decimal_of(n).push(digit));
    }
    assert(s.push(digit).drop_last() =~= s);
    lemma_decimal_round_trip(n, n);
    let signed = seq!['+'] + decimal_of(n);
    assert(signed.skip(1) =~= decimal_of(n));
    assert(is_digit(decimal_of(n)[0]));
    if c != '+' && !('0' <= c <= '9') {
        let t = s.push(c);
        let u = without_plus(t);
        assert(u.len() > 0 ==> u[u.len() - 1] == c);
    }
}

/// A line ends at its line feed, and a carriage return before that is not part of it; what
/// has no line feed is one line, and nothing is none.
pub proof fn lemma_line_ends(line: Seq<char>, rest: Seq<char>)
    requires
        is_line(line),
    ensures
        lines_of(line + seq!['\n'] + rest) == seq![line] + lines_of(rest),
        lines_of(line + seq!['\r', '\n'] + rest) == seq![line] + lines_of(rest),
        lines_of(line) == seq![line],
        lines_of(Seq::empty()) == Seq::<Seq<char>>::empty(),
{
    let n = line.len() as int;
    let a = line + seq!['\n'] + rest;
    lemma_first_of_unique(a, '\n', n);
    assert(a.take(n) =~= line);
    assert(a.skip(n + 1) =~= rest);
    let b = line + seq!['\r', '\n'] + rest;
    assert forall|i: int| 0 <= i < n + 1 implies b[i] != '\n' by {
        if i < n {
            assert(b[i] == line[i]);
        }
    }
    lemma_first_of_unique(b, '\n', n + 1);
    assert(b.take(n + 1) =~= line.push('\r'));
    assert(line.push('\r').drop_last() =~= line);
    assert(b.skip(n + 2) =~= rest);
    lemma_first_of_unique(line, '\n', n);
}

/// Leaving out spaces and taking lower case go character by character.
pub proof fn lemma_plain_characters(s: Seq<char>, c: char)
    ensures
        without_spaces_of(s.push(' ')) == without_spaces_of(s),
        c != ' ' ==> without_spaces_of(s.push(c)) == without_spaces_of(s).push(c),
        ascii_lower_of(s.push(c)) == ascii_lower_of(s).push(ascii_lower(c)),
        'A' <= c <= 'Z' ==> ascii_lower(c) as int == c as int + 32,
        !('A' <= c <= 'Z') ==> ascii_lower(c) == c,
{
    assert(s.push(' ').drop_last() =~= s);
    assert(s.push(c).drop_last() =~= s);
    assert(ascii_lower_of(s.push(c)) =~= ascii_lower_of(s).push(ascii_lower(c)));
}

} // verus!
