//! Padding schemes: how the first records of a connection are cut and filled up.
//!
//! A scheme is text: `stop=<n>`, and for each record a line `<index>=<size>,<size>,...`
//! where a size is a range `<lo>-<hi>` or `c`, a place to check for the end of the payload.
use crate::crypto;
use crate::text;
use crate::wire::copy_range;
use std::collections::HashMap;
use vstd::prelude::*;
use vstd::utf8::{decode_utf8, encode_utf8, valid_utf8};

verus! {

broadcast use vstd::std_specs::hash::group_hash_axioms;

/// A size that stands for "check whether the payload is used up".
pub const CHECK_MARK: i64 = -1;

/// One size of a rule, before a number is drawn for it.
#[derive(Debug, Clone, Copy, PartialEq, Eq, Structural)]
pub enum SizeRule {
    Check,
    Fixed(i64),
    Between(i64, i64),
}

/// A number, or 0 where the text is none.
pub open spec fn number_or_zero(s: Seq<char>) -> int {
    match text::parse_i64_of(s) {
        Some(n) => n,
        None => 0,
    }
}

/// The size that one piece of a list stands for, where it is one. A range that is written
/// backwards stands for its lower end.
pub open spec fn size_rule_of(piece: Seq<char>) -> Option<SizeRule> {
    let p = text::trim_of(piece);
    if p == "c"@ {
        Some(SizeRule::Check)
    } else {
        match text::split_once_of(p, '-') {
            None => None,
            Some((a, b)) => {
                let lo = number_or_zero(a);
                let hi = number_or_zero(b);
                if lo <= 0 || hi <= 0 {
                    None
                } else if lo < hi {
                    Some(SizeRule::Between(lo as i64, hi as i64))
                } else {
                    Some(SizeRule::Fixed(hi as i64))
                }
            },
        }
    }
}

/// The sizes that a list of pieces stands for; pieces that are none are left out.
pub open spec fn size_rules_of(pieces: Seq<Seq<char>>) -> Seq<SizeRule>
    decreases pieces.len(),
{
    if pieces.len() == 0 {
        Seq::empty()
    } else {
        match size_rule_of(pieces.last()) {
            Some(r) => size_rules_of(pieces.drop_last()).push(r),
            None => size_rules_of(pieces.drop_last()),
        }
    }
}

/// Whether `size` is one that may be drawn for `rule`.
pub open spec fn drawn(rule: SizeRule, size: i64) -> bool {
    match rule {
        SizeRule::Check => size == CHECK_MARK,
        SizeRule::Fixed(n) => size == n,
        SizeRule::Between(lo, hi) => lo <= size <= hi,
    }
}

/// Whether `sizes` may be drawn for `rules`, one for one.
pub open spec fn all_drawn(rules: Seq<SizeRule>, sizes: Seq<i64>) -> bool {
    sizes.len() == rules.len() && forall|i: int|
        0 <= i < rules.len() ==> drawn(#[trigger] rules[i], sizes[i])
}

/// Reads one piece of a list of sizes.
fn parse_size_rule(piece: &str) -> (r: Option<SizeRule>)
    ensures
        r == size_rule_of(piece@),
{
    let p = text::trim(piece);
    if text::same_text(p, "c") {
        return Some(SizeRule::Check);
    }
    match text::split_once(p, '-') {
        None => None,
        Some((a, b)) => {
            let lo: i64 = match text::parse_i64(a) {
                Some(n) => n,
                None => 0,
            };
            let hi: i64 = match text::parse_i64(b) {
                Some(n) => n,
                None => 0,
            };
            if lo <= 0 || hi <= 0 {
                None
            } else if lo < hi {
                Some(SizeRule::Between(lo, hi))
            } else {
                Some(SizeRule::Fixed(hi))
            }
        },
    }
}

/// Reads a list of sizes.
pub fn parse_size_rules(s: &str) -> (r: Vec<SizeRule>)
    ensures
        r@ == size_rules_of(text::pieces_of(s@, ',')),
{
    let parts = text::pieces(s, ',');
    let ghost all = text::texts(parts@);
    let mut out: Vec<SizeRule> = Vec::new();
    let mut i: usize = 0;
    assert(all.take(0) =~= Seq::<Seq<char>>::empty());
    while i < parts.len()
        invariant
            all == text::texts(parts@),
            i <= parts@.len(),
            out@ == size_rules_of(all.take(i as int)),
        decreases parts@.len() - i,
    {
        assert(all.take(i + 1).drop_last() =~= all.take(i as int));
        assert(all.take(i + 1).last() == parts@[i as int]@);
        if let Some(r) = parse_size_rule(parts[i].as_str()) {
            out.push(r);
        }
        i = i + 1;
    }
    assert(all.take(all.len() as int) =~= all);
    out
}

/// Draws a size for a rule.
pub fn draw(rule: SizeRule) -> (r: i64)
    ensures
        (rule matches SizeRule::Between(lo, hi) ==> lo <= hi) ==> drawn(rule, r),
{
    match rule {
        SizeRule::Check => CHECK_MARK,
        SizeRule::Fixed(n) => n,
        SizeRule::Between(lo, hi) => if lo <= hi {
            crypto::random_between(lo, hi)
        } else {
            lo
        },
    }
}

/// Every range in a list goes upwards.
proof fn lemma_ranges_go_up(pieces: Seq<Seq<char>>, i: int)
    requires
        0 <= i < size_rules_of(pieces).len(),
    ensures
        size_rules_of(pieces)[i] matches SizeRule::Between(lo, hi) ==> lo < hi,
    decreases pieces.len(),
{
    let before = size_rules_of(pieces.drop_last());
    if i < before.len() {
        lemma_ranges_go_up(pieces.drop_last(), i);
    } else {
        assert(size_rule_of(pieces.last()) is Some);
        let p = text::trim_of(pieces.last());
        if let Some((a, b)) = text::split_once_of(p, '-') {
            lemma_number_fits(a);
            lemma_number_fits(b);
        }
    }
}

proof fn lemma_number_fits(s: Seq<char>)
    ensures
        i64::MIN <= number_or_zero(s) <= i64::MAX,
{
}

/// Reads a list of sizes and draws a number for each range in it.
pub fn parse_size_list(s: &str) -> (r: Vec<i64>)
    ensures
        all_drawn(size_rules_of(text::pieces_of(s@, ',')), r@),
{
    let rules = parse_size_rules(s);
    let ghost pieces = text::pieces_of(s@, ',');
    let mut out: Vec<i64> = Vec::new();
    let mut i: usize = 0;
    while i < rules.len()
        invariant
            rules@ == size_rules_of(pieces),
            i <= rules@.len(),
            out@.len() == i,
            forall|k: int| 0 <= k < i ==> drawn(#[trigger] rules@[k], out@[k]),
        decreases rules@.len() - i,
    {
        proof {
            lemma_ranges_go_up(pieces, i as int);
        }
        let size: i64 = draw(rules[i]);
        out.push(size);
        i = i + 1;
    }
    out
}

/// What the lines of a scheme say: where padding stops, and the rules.
pub struct SchemeView {
    pub stop: Option<nat>,
    pub rules: Map<u32, Seq<SizeRule>>,
}

/// What one more line adds. A line without `=`, or a `stop` that is no number, spoils the
/// whole scheme; an unknown key is passed over.
pub open spec fn scheme_line(before: SchemeView, line: Seq<char>) -> Option<SchemeView> {
    let l = text::trim_of(line);
    if l.len() == 0 {
        Some(before)
    } else {
        match text::split_once_of(l, '=') {
            None => None,
            Some((k, v)) => {
                let key = text::trim_of(k);
                let value = text::trim_of(v);
                if key == "stop"@ {
                    match text::parse_unsigned_of(value, u32::MAX as nat) {
                        Some(n) => Some(SchemeView { stop: Some(n), rules: before.rules }),
                        None => None,
                    }
                } else {
                    match text::parse_unsigned_of(key, u32::MAX as nat) {
                        Some(i) => Some(
                            SchemeView {
                                stop: before.stop,
                                rules: before.rules.insert(
                                    i as u32,
                                    size_rules_of(text::pieces_of(value, ',')),
                                ),
                            },
                        ),
                        None => Some(before),
                    }
                }
            },
        }
    }
}

/// What all the lines say.
pub open spec fn scheme_lines(lines: Seq<Seq<char>>) -> Option<SchemeView>
    decreases lines.len(),
{
    if lines.len() == 0 {
        Some(SchemeView { stop: None, rules: Map::empty() })
    } else {
        match scheme_lines(lines.drop_last()) {
            None => None,
            Some(before) => scheme_line(before, lines.last()),
        }
    }
}

/// The scheme in `raw`: text whose lines are in order and say where padding stops.
pub open spec fn scheme_of(raw: Seq<u8>) -> Option<(nat, Map<u32, Seq<SizeRule>>)> {
    if !valid_utf8(raw) {
        None
    } else {
        match scheme_lines(text::lines_of(decode_utf8(raw))) {
            None => None,
            Some(s) => match s.stop {
                None => None,
                Some(n) => Some((n, s.rules)),
            },
        }
    }
}

/// A padding scheme whose sizes are drawn.
#[derive(Debug, Clone)]
pub struct PaddingScheme {
    /// The record at which padding stops.
    pub stop: u32,
    /// The sizes of the records that have a rule.
    pub rules: HashMap<u32, Vec<i64>>,
    /// The text of the scheme, which clients are sent.
    pub raw: Vec<u8>,
    /// The MD5 digest of that text in hexadecimal, by which a client knows the scheme.
    pub md5_hex: String,
}

/// Whether the drawn sizes are ones for the rules.
pub open spec fn rules_drawn(
    rules: Map<u32, Seq<SizeRule>>,
    sizes: Map<u32, Vec<i64>>,
) -> bool {
    &&& sizes.dom() =~= rules.dom()
    &&& forall|k: u32| #[trigger]
        rules.contains_key(k) ==> all_drawn(rules[k], sizes[k]@)
}

/// The MD5 digest of `raw` in hexadecimal.
pub open spec fn fingerprint(raw: Seq<u8>) -> Seq<char> {
    crypto::hex_text(crypto::md5_of(raw))
}

impl PaddingScheme {
    /// Whether this is the scheme that `raw` describes, with sizes drawn for it.
    pub open spec fn describes(&self, raw: Seq<u8>) -> bool {
        &&& scheme_of(raw) matches Some((stop, rules)) && self.stop == stop && rules_drawn(
            rules,
            self.rules@,
        )
        &&& self.raw@ == raw
        &&& self.md5_hex@ == fingerprint(raw)
    }

    /// Reads a scheme and draws its sizes.
    pub fn from_bytes(raw: &[u8]) -> (r: Option<Self>)
        ensures
            r is Some <==> scheme_of(raw@) is Some,
            r matches Some(s) ==> s.describes(raw@),
    {
        let all = copy_range(raw, 0, raw.len());
        assert(all@ =~= raw@);
        let body = match text::utf8_text(all) {
            Some(t) => t,
            None => {
                return None;
            },
        };
        let lines = text::lines(body.as_str());
        let ghost views = text::texts(lines@);
        let mut stop: Option<u32> = None;
        let mut rules: HashMap<u32, Vec<i64>> = HashMap::new();
        let mut i: usize = 0;
        assert(views.take(0) =~= Seq::<Seq<char>>::empty());
        let ghost mut said = SchemeView { stop: None, rules: Map::empty() };
        while i < lines.len()
            invariant
                valid_utf8(raw@),
                views == text::texts(lines@),
                views == text::lines_of(decode_utf8(raw@)),
                i <= lines@.len(),
                scheme_lines(views.take(i as int)) == Some(said),
                (match stop {
                    Some(n) => said.stop == Some(n as nat),
                    None => said.stop is None,
                }),
                rules_drawn(said.rules, rules@),
            decreases lines@.len() - i,
        {
            let ghost before = said;
            let ghost raw_line = views[i as int];
            assert(views.take(i + 1).drop_last() =~= views.take(i as int));
            assert(views.take(i + 1).last() == lines@[i as int]@);
            proof {
                if scheme_line(before, raw_line) is None {
                    lemma_spoiled(views, i + 1);
                }
            }
            let line = text::trim(lines[i].as_str());
            if !line.is_empty() {
                match text::split_once(line, '=') {
                    None => {
                        return None;
                    },
                    Some((k, v)) => {
                        let key = text::trim(k);
                        let value = text::trim(v);
                        if text::same_text(key, "stop") {
                            match text::parse_unsigned(value, u32::MAX as u64) {
                                None => {
                                    return None;
                                },
                                Some(n) => {
                                    stop = Some(n as u32);
                                },
                            }
                        } else if let Some(idx) = text::parse_unsigned(key, u32::MAX as u64) {
                            let sizes = parse_size_list(value);
                            rules.insert(idx as u32, sizes);
                        }
                    },
                }
            }
            proof {
                said = scheme_line(before, raw_line)->0;
            }
            i = i + 1;
        }
        assert(views.take(views.len() as int) =~= views);
        match stop {
            None => None,
            Some(n) => {
                let digest = crypto::md5(raw);
                let own = copy_range(raw, 0, raw.len());
                assert(own@ =~= raw@);
                Some(
                    PaddingScheme {
                        stop: n,
                        rules,
                        raw: own,
                        md5_hex: crypto::hex_encode(digest.as_slice()),
                    },
                )
            },
        }
    }

    /// The sizes for record `pkt`; none where it is sent as it is.
    pub fn sizes_for(&self, pkt: u32) -> (r: &[i64])
        ensures
            r@ == (if self.rules@.contains_key(pkt) {
                self.rules@[pkt]@
            } else {
                Seq::<i64>::empty()
            }),
    {
        match self.rules.get(&pkt) {
            Some(v) => v.as_slice(),
            None => {
                let none: &[i64] = &[];
                assert(none@ =~= Seq::<i64>::empty());
                none
            },
        }
    }
}

/// A scheme that is spoiled stays so.
proof fn lemma_spoiled(lines: Seq<Seq<char>>, n: int)
    requires
        0 <= n <= lines.len(),
        scheme_lines(lines.take(n)) is None,
    ensures
        scheme_lines(lines) is None,
    decreases lines.len() - n,
{
    if n < lines.len() {
        assert(lines.take(n + 1).drop_last() =~= lines.take(n));
        lemma_spoiled(lines, n + 1);
    } else {
        assert(lines.take(n) =~= lines);
    }
}

/// A rule for record `k`.
pub open spec fn rule_line(k: char, sizes: Seq<char>) -> Seq<char> {
    seq![k, '='] + sizes
}

/// Four more checks, each followed by a record of 500 to 1000 bytes.
pub open spec fn checked_sizes(n: nat) -> Seq<char>
    decreases n,
{
    if n == 0 {
        Seq::empty()
    } else {
        ",c,"@ + "500-1000"@ + checked_sizes((n - 1) as nat)
    }
}

/// The lines of the scheme that is used unless another one is set.
pub open spec fn default_lines() -> Seq<Seq<char>> {
    seq![
        "stop=8"@,
        rule_line('0', "30-30"@),
        rule_line('1', "100-400"@),
        rule_line('2', "400-500"@ + checked_sizes(4)),
        rule_line('3', "9-9"@ + ","@ + "500-1000"@),
        rule_line('4', "500-1000"@),
        rule_line('5', "500-1000"@),
        rule_line('6', "500-1000"@),
        rule_line('7', "500-1000"@),
    ]
}

/// The text of the scheme that is used unless another one is set.
pub open spec fn default_text() -> Seq<char> {
    text::join_lines(default_lines())
}

/// Characters that sizes are written with.
spec fn size_chars(s: Seq<char>) -> bool {
    forall|i: int|
        0 <= i < s.len() ==> '0' <= #[trigger] s[i] <= '9' || s[i] == '-' || s[i] == ',' || s[i]
            == 'c'
}

proof fn lemma_size_literals()
    ensures
        size_chars("30-30"@) && "30-30"@.len() == 5,
        size_chars("100-400"@) && "100-400"@.len() == 7,
        size_chars("400-500"@) && "400-500"@.len() == 7,
        size_chars("500-1000"@) && "500-1000"@.len() == 8,
        size_chars("9-9"@) && "9-9"@.len() == 3,
        size_chars(","@) && ","@.len() == 1,
        size_chars(",c,"@) && ",c,"@.len() == 3,
{
    reveal_strlit("30-30");
    reveal_strlit("100-400");
    reveal_strlit("400-500");
    reveal_strlit("500-1000");
    reveal_strlit("9-9");
    reveal_strlit(",");
    reveal_strlit(",c,");
    assert forall|i: int| 0 <= i < "30-30"@.len() implies '0' <= #[trigger] "30-30"@[i] <= '9'
        || "30-30"@[i] == '-' by {
        assert(i == 0 || i == 1 || i == 2 || i == 3 || i == 4);
    }
    assert forall|i: int| 0 <= i < "100-400"@.len() implies '0' <= #[trigger] "100-400"@[i] <= '9'
        || "100-400"@[i] == '-' by {
        assert(i == 0 || i == 1 || i == 2 || i == 3 || i == 4 || i == 5 || i == 6);
    }
    assert forall|i: int| 0 <= i < "400-500"@.len() implies '0' <= #[trigger] "400-500"@[i] <= '9'
        || "400-500"@[i] == '-' by {
        assert(i == 0 || i == 1 || i == 2 || i == 3 || i == 4 || i == 5 || i == 6);
    }
    assert forall|i: int| 0 <= i < "500-1000"@.len() implies '0' <= #[trigger] "500-1000"@[i]
        <= '9' || "500-1000"@[i] == '-' by {
        assert(i == 0 || i == 1 || i == 2 || i == 3 || i == 4 || i == 5 || i == 6 || i == 7);
    }
    assert forall|i: int| 0 <= i < "9-9"@.len() implies '0' <= #[trigger] "9-9"@[i] <= '9'
        || "9-9"@[i] == '-' by {
        assert(i == 0 || i == 1 || i == 2);
    }
    assert forall|i: int| 0 <= i < ",c,"@.len() implies #[trigger] ",c,"@[i] == ',' || ",c,"@[i]
        == 'c' by {
        assert(i == 0 || i == 1 || i == 2);
    }
}

proof fn lemma_size_chars_join(a: Seq<char>, b: Seq<char>)
    requires
        size_chars(a),
        size_chars(b),
    ensures
        size_chars(a + b),
{
}

proof fn lemma_checked_sizes(n: nat)
    ensures
        size_chars(checked_sizes(n)),
    decreases n,
{
    if n > 0 {
        lemma_checked_sizes((n - 1) as nat);
        lemma_size_literals();
        lemma_size_chars_join(",c,"@, "500-1000"@);
        lemma_size_chars_join(",c,"@ + "500-1000"@, checked_sizes((n - 1) as nat));
    }
}

/// A rule for a single digit is a line, and one that every scheme takes.
proof fn lemma_rule_line(before: SchemeView, k: char, sizes: Seq<char>)
    requires
        '0' <= k <= '9',
        size_chars(sizes),
        sizes.len() > 0,
    ensures
        text::is_line(rule_line(k, sizes)),
        scheme_line(before, rule_line(k, sizes)) matches Some(s) && s.stop == before.stop,
{
    let l = rule_line(k, sizes);
    assert(l.last() == sizes.last());
    assert(sizes[sizes.len() - 1] == sizes.last());
    assert(text::trim_end_of(l) == l);
    assert(text::trim_start_of(l) == l);
    assert forall|i: int| 0 <= i < l.len() implies l[i] != '\n' by {
        if i >= 2 {
            assert(l[i] == sizes[i - 2]);
        }
    }
    text::lemma_first_of_unique(l, '=', 1);
    let key = l.take(1);
    assert(text::trim_end_of(key) == key);
    assert(text::trim_start_of(key) == key);
    reveal_strlit("stop");
    assert(key != "stop"@);
}

/// The first line sets where padding stops.
proof fn lemma_stop_line(before: SchemeView)
    ensures
        text::is_line("stop=8"@),
        scheme_line(before, "stop=8"@) == Some(SchemeView { stop: Some(8), rules: before.rules }),
{
    reveal_strlit("stop=8");
    reveal_strlit("stop");
    let l = "stop=8"@;
    assert forall|i: int| 0 <= i < l.len() implies l[i] != '\n' by {
        assert(i == 0 || i == 1 || i == 2 || i == 3 || i == 4 || i == 5);
    }
    assert(text::trim_end_of(l) == l);
    assert(text::trim_start_of(l) == l);
    assert forall|i: int| 0 <= i < 4 implies l[i] != '=' by {
        assert(i == 0 || i == 1 || i == 2 || i == 3);
    }
    text::lemma_first_of_unique(l, '=', 4);
    let key = l.take(4);
    let value = l.skip(5);
    assert(key =~= "stop"@);
    assert(text::trim_end_of(key) == key);
    assert(text::trim_start_of(key) == key);
    assert(value =~= seq!['8']);
    assert(text::trim_end_of(value) == value);
    assert(text::trim_start_of(value) == value);
    assert(text::decimal_value(value.drop_last()) == 0);
    assert(text::decimal_value(value) == 8);
    assert(text::parse_unsigned_of(value, u32::MAX as nat) == Some(8nat));
}

/// The default text is a scheme, and padding stops at record 8.
pub proof fn lemma_default_scheme()
    ensures
        text::lines_of(default_text()) == default_lines(),
        scheme_of(encode_utf8(default_text())) matches Some((stop, _)) && stop == 8,
{
    let d = default_lines();
    lemma_size_literals();
    lemma_checked_sizes(4);
    lemma_size_chars_join("400-500"@, checked_sizes(4));
    lemma_size_chars_join("9-9"@, ","@);
    lemma_size_chars_join("9-9"@ + ","@, "500-1000"@);
    let s0 = SchemeView { stop: None, rules: Map::empty() };
    lemma_stop_line(s0);
    let s1 = scheme_line(s0, d[0])->0;
    lemma_rule_line(s1, '0', "30-30"@);
    let s2 = scheme_line(s1, d[1])->0;
    lemma_rule_line(s2, '1', "100-400"@);
    let s3 = scheme_line(s2, d[2])->0;
    lemma_rule_line(s3, '2', "400-500"@ + checked_sizes(4));
    let s4 = scheme_line(s3, d[3])->0;
    lemma_rule_line(s4, '3', "9-9"@ + ","@ + "500-1000"@);
    let s5 = scheme_line(s4, d[4])->0;
    lemma_rule_line(s5, '4', "500-1000"@);
    let s6 = scheme_line(s5, d[5])->0;
    lemma_rule_line(s6, '5', "500-1000"@);
    let s7 = scheme_line(s6, d[6])->0;
    lemma_rule_line(s7, '6', "500-1000"@);
    let s8 = scheme_line(s7, d[7])->0;
    lemma_rule_line(s8, '7', "500-1000"@);
    let s9 = scheme_line(s8, d[8])->0;
    assert forall|i: int| 0 <= i < d.len() implies text::is_line(#[trigger] d[i]) by {
        assert(i == 0 || i == 1 || i == 2 || i == 3 || i == 4 || i == 5 || i == 6 || i == 7 || i
            == 8);
    }
    text::lemma_join_lines(d);
    lemma_scheme_prefix(d, 0, s0);
    lemma_scheme_prefix(d, 1, s1);
    lemma_scheme_prefix(d, 2, s2);
    lemma_scheme_prefix(d, 3, s3);
    lemma_scheme_prefix(d, 4, s4);
    lemma_scheme_prefix(d, 5, s5);
    lemma_scheme_prefix(d, 6, s6);
    lemma_scheme_prefix(d, 7, s7);
    lemma_scheme_prefix(d, 8, s8);
    assert(d.take(9) =~= d);
    vstd::utf8::encode_utf8_valid_utf8(default_text());
    vstd::utf8::encode_utf8_decode_utf8(default_text());
}

/// One more line.
proof fn lemma_scheme_prefix(lines: Seq<Seq<char>>, n: int, before: SchemeView)
    requires
        0 <= n < lines.len(),
        n > 0 ==> scheme_lines(lines.take(n)) == Some(before),
        n == 0 ==> before == (SchemeView { stop: None, rules: Map::empty() }),
    ensures
        scheme_lines(lines.take(n + 1)) == scheme_line(before, lines[n]),
{
    assert(lines.take(n + 1).drop_last() =~= lines.take(n));
    if n == 0 {
        assert(lines.take(0) =~= Seq::<Seq<char>>::empty());
    }
}

/// A rule for record `k`.
fn rule_text(k: &str, sizes: &str) -> (r: String)
    requires
        k@.len() == 1,
    ensures
        r@ == rule_line(k@[0], sizes@),
{
    proof {
        reveal_strlit("=");
    }
    let head = text::joined(k, "=");
    let r = text::joined(head.as_str(), sizes);
    assert(r@ =~= rule_line(k@[0], sizes@));
    r
}

/// The sizes with four checks between them.
fn checked_text() -> (r: String)
    ensures
        r@ == "400-500"@ + checked_sizes(4),
{
    let mut tail: String = String::new();
    let one = text::joined(",c,", "500-1000");
    let mut n: usize = 0;
    assert(tail@ =~= checked_sizes(0));
    while n < 4
        invariant
            n <= 4,
            one@ == ",c,"@ + "500-1000"@,
            tail@ == checked_sizes(n as nat),
        decreases 4 - n,
    {
        tail = text::joined(one.as_str(), tail.as_str());
        n = n + 1;
    }
    text::joined("400-500", tail.as_str())
}

/// The text of the scheme that is used unless another one is set.
pub fn default_scheme_text() -> (r: String)
    ensures
        r@ == default_text(),
{
    proof {
        reveal_strlit("0");
        reveal_strlit("1");
        reveal_strlit("2");
        reveal_strlit("3");
        reveal_strlit("4");
        reveal_strlit("5");
        reveal_strlit("6");
        reveal_strlit("7");
        reveal_strlit("\n");
        assert("\n"@ =~= seq!['\n']);
    }
    let sizes2 = checked_text();
    let sizes3 = text::joined(text::joined("9-9", ",").as_str(), "500-1000");
    let mut lines: Vec<String> = Vec::new();
    lines.push("stop=8".to_owned());
    lines.push(rule_text("0", "30-30"));
    lines.push(rule_text("1", "100-400"));
    lines.push(rule_text("2", sizes2.as_str()));
    lines.push(rule_text("3", sizes3.as_str()));
    lines.push(rule_text("4", "500-1000"));
    lines.push(rule_text("5", "500-1000"));
    lines.push(rule_text("6", "500-1000"));
    lines.push(rule_text("7", "500-1000"));
    let ghost d = default_lines();
    assert(text::texts(lines@) =~= d);
    let mut out: String = lines[8].clone();
    let mut i: usize = 8;
    assert(d.skip(8) =~= seq![d[8]]);
    while i > 0
        invariant
            i <= 8,
            lines@.len() == 9,
            d.len() == 9,
            d == text::texts(lines@),
            "\n"@ == seq!['\n'],
            out@ == text::join_lines(d.skip(i as int)),
        decreases i,
    {
        i = i - 1;
        let tail = text::joined("\n", out.as_str());
        out = text::joined(lines[i].as_str(), tail.as_str());
        proof {
            let part = d.skip(i as int);
            assert(part.drop_first() =~= d.skip(i + 1));
            assert(part[0] == lines@[i as int]@);
            assert(out@ =~= part[0] + seq!['\n'] + text::join_lines(d.skip(i + 1)));
        }
    }
    assert(d.skip(0) =~= d);
    out
}

/// The scheme in use, which can be replaced. Whoever is to see a replacement needs this very
/// value: callers that share it do so by reference, behind a lock of their own.
#[derive(Debug)]
pub struct SharedPadding {
    scheme: PaddingScheme,
}

impl SharedPadding {
    /// The scheme in use.
    pub closed spec fn current(&self) -> PaddingScheme {
        self.scheme
    }

    /// Starts with the default scheme.
    pub fn new_default() -> (r: Self)
        ensures
            r.current().describes(encode_utf8(default_text())),
    {
        proof {
            lemma_default_scheme();
        }
        let t = default_scheme_text();
        let scheme = PaddingScheme::from_bytes(t.as_str().as_bytes()).unwrap();
        SharedPadding { scheme }
    }

    /// The scheme in use.
    pub fn get(&self) -> (r: &PaddingScheme)
        ensures
            *r == self.current(),
    {
        &self.scheme
    }

    /// Puts the scheme in `raw` to use. What is no scheme changes nothing.
    pub fn update(&mut self, raw: &[u8]) -> (r: bool)
        ensures
            r <==> scheme_of(raw@) is Some,
            r ==> final(self).current().describes(raw@),
            !r ==> final(self).current() == old(self).current(),
    {
        match PaddingScheme::from_bytes(raw) {
            Some(scheme) => {
                self.scheme = scheme;
                true
            },
            None => false,
        }
    }
}

proof fn lemma_decimal_text(n: nat)
    requires
        n <= 0x7fff_ffff_ffff_ffff,
    ensures
        text::decimal_of(n).len() > 0,
        !text::decimal_of(n).contains('-'),
        !text::decimal_of(n).contains('='),
        text::is_digit(text::decimal_of(n)[0]),
        text::is_digit(text::decimal_of(n).last()),
        text::parse_i64_of(text::decimal_of(n)) == Some(n as int),
{
    let d = text::decimal_of(n);
    text::lemma_decimal_round_trip(n, 0x7fff_ffff_ffff_ffff);
    assert(text::is_digit(d[0]));
    assert(text::is_digit(d[d.len() - 1]));
    assert forall|c: char| c == '-' || c == '=' implies !d.contains(c) by {
        if d.contains(c) {
            let i = choose|i: int| 0 <= i < d.len() && d[i] == c;
            assert(text::is_digit(d[i]));
        }
    }
}

/// A piece `lo-hi` stands for the sizes from `lo` to `hi`, both among them; one that does
/// not go up stands for its second number. A piece `c` is the mark, which is -1. White space
/// around a piece does not count, and a piece that is a single number is none.
pub proof fn lemma_size_pieces(lo: nat, hi: nat, size: i64)
    requires
        0 < lo <= i64::MAX,
        0 < hi <= i64::MAX,
    ensures
        ({
            let range = text::decimal_of(lo) + seq!['-'] + text::decimal_of(hi);
            let rule = size_rule_of(range);
            &&& rule is Some
            &&& lo < hi ==> (drawn(rule->0, size) <==> lo <= size <= hi)
            &&& lo >= hi ==> (drawn(rule->0, size) <==> size == hi)
            &&& size_rule_of(seq![' '] + range + seq![' ']) == rule
        }),
        size_rule_of("c"@) is Some,
        drawn(size_rule_of("c"@)->0, size) <==> size == -1,
        size_rule_of(text::decimal_of(lo)) is None,
{
    let a = text::decimal_of(lo);
    let b = text::decimal_of(hi);
    let range = a + seq!['-'] + b;
    lemma_decimal_text(lo);
    lemma_decimal_text(hi);
    assert(range[0] == a[0] && range.last() == b.last());
    text::lemma_trim_nothing(range);
    text::lemma_trim_nothing(a);
    text::lemma_trim(seq![' '], range, seq![' ']);
    text::lemma_splits(a, '-', b);
    reveal_strlit("c");
    assert("c"@[0] == 'c');
    text::lemma_trim_nothing("c"@);
    assert(range != "c"@);
    assert(a != "c"@);
}

/// A line `stop=n` says where padding stops, and a line `k=sizes` gives the rule for record
/// `k`, in place of an earlier one; other keys are passed over, and a line without `=`
/// spoils the scheme.
pub proof fn lemma_scheme_lines(
    before: SchemeView,
    n: u32,
    k: u32,
    sizes: Seq<char>,
    word: Seq<char>,
)
    requires
        sizes.len() > 0,
        !text::is_white(sizes[0]),
        !text::is_white(sizes.last()),
        word.len() > 0,
        !text::is_white(word[0]),
        !text::is_white(word.last()),
        !word.contains('='),
    ensures
        scheme_line(before, "stop"@ + seq!['='] + text::decimal_of(n as nat)) == Some(
            SchemeView { stop: Some(n as nat), rules: before.rules },
        ),
        scheme_line(before, text::decimal_of(k as nat) + seq!['='] + sizes) == Some(
            SchemeView {
                stop: before.stop,
                rules: before.rules.insert(k, size_rules_of(text::pieces_of(sizes, ','))),
            },
        ),
        scheme_line(before, word) is None,
        word != "stop"@ && text::parse_unsigned_of(word, u32::MAX as nat) is None ==> scheme_line(
            before,
            word + seq!['='] + sizes,
        ) == Some(before),
        scheme_line(before, Seq::empty()) == Some(before),
{
    let number = text::decimal_of(n as nat);
    let key = text::decimal_of(k as nat);
    lemma_decimal_text(n as nat);
    lemma_decimal_text(k as nat);
    text::lemma_decimal_round_trip(n as nat, u32::MAX as nat);
    text::lemma_decimal_round_trip(k as nat, u32::MAX as nat);
    reveal_strlit("stop");
    assert("stop"@[0] == 's' && "stop"@.last() == 'p');
    assert(!"stop"@.contains('='));
    let one = "stop"@ + seq!['='] + number;
    let two = key + seq!['='] + sizes;
    let three = word + seq!['='] + sizes;
    assert(one[0] == 's' && one.last() == number.last());
    assert(two[0] == key[0] && two.last() == sizes.last());
    assert(three[0] == word[0] && three.last() == sizes.last());
    text::lemma_trim_nothing(one);
    text::lemma_trim_nothing(two);
    text::lemma_trim_nothing(three);
    text::lemma_trim_nothing("stop"@);
    text::lemma_trim_nothing(number);
    text::lemma_trim_nothing(key);
    text::lemma_trim_nothing(sizes);
    text::lemma_trim_nothing(word);
    text::lemma_splits("stop"@, '=', number);
    text::lemma_splits(key, '=', sizes);
    text::lemma_splits(word, '=', sizes);
    assert(key != "stop"@);
    text::lemma_trim_nothing(Seq::<char>::empty());
}

} // verus!
