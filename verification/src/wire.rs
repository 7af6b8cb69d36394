//! Big-endian integers and the result type of the incremental decoders.
use vstd::prelude::*;

verus! {

/// The number that `s` writes in base 256, most significant byte first.
pub open spec fn be_value(s: Seq<u8>) -> nat
    decreases s.len(),
{
    if s.len() == 0 {
        0
    } else {
        be_value(s.drop_last()) * 256 + s.last() as nat
    }
}

/// The `n` low base-256 digits of `v`, most significant first.
pub open spec fn be_bytes(v: nat, n: nat) -> Seq<u8>
    decreases n,
{
    if n == 0 {
        Seq::empty()
    } else {
        be_bytes(v / 256, (n - 1) as nat).push((v % 256) as u8)
    }
}

/// `256` to the power `n`.
pub open spec fn pow256(n: nat) -> nat
    decreases n,
{
    if n == 0 {
        1
    } else {
        256 * pow256((n - 1) as nat)
    }
}

/// `be_bytes` yields exactly `n` bytes.
pub broadcast proof fn lemma_be_bytes_len(v: nat, n: nat)
    ensures
        #[trigger] be_bytes(v, n).len() == n,
    decreases n,
{
    if n > 0 {
        lemma_be_bytes_len(v / 256, (n - 1) as nat);
    }
}

/// Reading back `n` written digits gives the number, as long as it fits in them.
pub proof fn lemma_be_value_of_bytes(v: nat, n: nat)
    requires
        v < pow256(n),
    ensures
        be_value(be_bytes(v, n)) == v,
    decreases n,
{
    if n > 0 {
        let rest = be_bytes(v / 256, (n - 1) as nat);
        assert(v / 256 < pow256((n - 1) as nat));
        lemma_be_value_of_bytes(v / 256, (n - 1) as nat);
        assert(rest.push((v % 256) as u8).drop_last() =~= rest);
    }
}

/// Writing back a number that was read gives the bytes it was read from.
pub proof fn lemma_be_bytes_of_value(s: Seq<u8>)
    ensures
        be_bytes(be_value(s), s.len()) == s,
    decreases s.len(),
{
    if s.len() > 0 {
        lemma_be_bytes_of_value(s.drop_last());
        assert(be_value(s) / 256 == be_value(s.drop_last()));
        assert(be_value(s) % 256 == s.last() as nat);
        assert(s.drop_last().push(s.last()) =~= s);
    }
}

/// `n` bytes hold a number below `256^n`.
pub proof fn lemma_be_value_bound(s: Seq<u8>)
    ensures
        be_value(s) < pow256(s.len()),
    decreases s.len(),
{
    if s.len() > 0 {
        lemma_be_value_bound(s.drop_last());
    }
}

pub proof fn lemma_be_value_2(s: Seq<u8>)
    requires
        s.len() == 2,
    ensures
        be_value(s) == s[0] * 256 + s[1],
{
    reveal_with_fuel(be_value, 3);
}

pub proof fn lemma_be_value_4(s: Seq<u8>)
    requires
        s.len() == 4,
    ensures
        be_value(s) == ((s[0] * 256 + s[1]) * 256 + s[2]) * 256 + s[3],
{
    reveal_with_fuel(be_value, 5);
}

pub proof fn lemma_be_value_8(s: Seq<u8>)
    requires
        s.len() == 8,
    ensures
        be_value(s) == be_value(s.subrange(0, 4)) * 0x1_0000_0000 + be_value(s.subrange(4, 8)),
{
    reveal_with_fuel(be_value, 9);
    lemma_be_value_4(s.subrange(0, 4));
    lemma_be_value_4(s.subrange(4, 8));
}

pub proof fn lemma_pow256_small()
    ensures
        pow256(0) == 1,
        pow256(1) == 0x100,
        pow256(2) == 0x1_0000,
        pow256(4) == 0x1_0000_0000,
        pow256(8) == 0x1_0000_0000_0000_0000,
{
    reveal_with_fuel(pow256, 9);
}

/// The high digits and the low digits of a number are written one after the other.
pub proof fn lemma_be_bytes_split(v: nat, m: nat, n: nat)
    ensures
        be_bytes(v, m + n) == be_bytes(v / pow256(n), m) + be_bytes(v, n),
    decreases n,
{
    if n > 0 {
        let k = (n - 1) as nat;
        lemma_be_bytes_split(v / 256, m, k);
        lemma_pow256_positive(k);
        vstd::arithmetic::div_mod::lemma_div_denominator(v as int, 256, pow256(k) as int);
        assert(be_bytes(v, m + n) =~= be_bytes(v / pow256(n), m) + be_bytes(v, n));
    } else {
        assert(pow256(n) == 1);
        assert(v / 1 == v);
        assert(be_bytes(v, m) + be_bytes(v, 0) =~= be_bytes(v, m));
    }
}

pub proof fn lemma_pow256_positive(n: nat)
    ensures
        pow256(n) > 0,
    decreases n,
{
    if n > 0 {
        lemma_pow256_positive((n - 1) as nat);
    }
}

/// Multiples of `256^n` do not show in the `n` low digits.
pub proof fn lemma_be_bytes_low(w: nat, q: nat, n: nat)
    ensures
        be_bytes(w + q * pow256(n), n) == be_bytes(w, n),
    decreases n,
{
    if n > 0 {
        let p = pow256((n - 1) as nat);
        let x = q * p;
        assert(q * (256 * p) == 256 * (q * p)) by (nonlinear_arith);
        let v = w + 256 * x;
        assert(v / 256 == w / 256 + x);
        assert(v % 256 == w % 256);
        lemma_be_bytes_low(w / 256, q, (n - 1) as nat);
    }
}

/// The big-endian `u16` at `at`.
pub fn read_u16(b: &[u8], at: usize) -> (v: u16)
    requires
        at + 2 <= b@.len(),
    ensures
        v == be_value(b@.subrange(at as int, at + 2)),
{
    proof {
        lemma_be_value_2(b@.subrange(at as int, at + 2));
    }
    (b[at] as u16) * 256 + (b[at + 1] as u16)
}

/// The big-endian `u32` at `at`.
pub fn read_u32(b: &[u8], at: usize) -> (v: u32)
    requires
        at + 4 <= b@.len(),
    ensures
        v == be_value(b@.subrange(at as int, at + 4)),
{
    proof {
        lemma_be_value_4(b@.subrange(at as int, at + 4));
    }
    (((b[at] as u32) * 256 + (b[at + 1] as u32)) * 256 + (b[at + 2] as u32)) * 256 + (b[at
        + 3] as u32)
}

/// The big-endian `u64` at `at`.
pub fn read_u64(b: &[u8], at: usize) -> (v: u64)
    requires
        at + 8 <= b@.len(),
    ensures
        v == be_value(b@.subrange(at as int, at + 8)),
{
    let n: usize = b.len();
    let hi: u32 = read_u32(b, at);
    let lo: u32 = read_u32(b, at + 4);
    proof {
        let s = b@.subrange(at as int, at + 8);
        lemma_be_value_8(s);
        assert(s.subrange(0, 4) =~= b@.subrange(at as int, at + 4));
        assert(s.subrange(4, 8) =~= b@.subrange(at + 4, at + 8));
    }
    (hi as u64) * 0x1_0000_0000 + (lo as u64)
}

/// Digits that follow others count for less.
pub proof fn lemma_be_value_concat(a: Seq<u8>, b: Seq<u8>)
    ensures
        be_value(a + b) == be_value(a) * pow256(b.len()) + be_value(b),
    decreases b.len(),
{
    if b.len() == 0 {
        assert(a + b =~= a);
        assert(pow256(0) == 1);
    } else {
        lemma_be_value_concat(a, b.drop_last());
        assert((a + b).drop_last() =~= a + b.drop_last());
        let p = pow256((b.len() - 1) as nat) as int;
        let v = be_value(a) as int;
        assert(pow256(b.len()) == 256 * p);
        assert((v * p) * 256 == v * (256 * p)) by (nonlinear_arith);
        assert(be_value(a + b) == be_value(a + b.drop_last()) * 256 + b.last());
        assert(be_value(b) == be_value(b.drop_last()) * 256 + b.last());
    }
}

/// The big-endian `u128` at `at`.
pub fn read_u128(b: &[u8], at: usize) -> (v: u128)
    requires
        at + 16 <= b@.len(),
    ensures
        v == be_value(b@.subrange(at as int, at + 16)),
{
    let n: usize = b.len();
    let hi: u64 = read_u64(b, at);
    let lo: u64 = read_u64(b, at + 8);
    proof {
        let (x, y) = (b@.subrange(at as int, at + 8), b@.subrange(at + 8, at + 16));
        assert(b@.subrange(at as int, at + 16) =~= x + y);
        lemma_be_value_concat(x, y);
        lemma_pow256_small();
    }
    (hi as u128) * 0x1_0000_0000_0000_0000 + (lo as u128)
}

/// Appends `v` in two big-endian bytes.
pub fn push_u16(out: &mut Vec<u8>, v: u16)
    ensures
        final(out)@ == old(out)@ + be_bytes(v as nat, 2),
{
    out.push((v / 256) as u8);
    out.push((v % 256) as u8);
    proof {
        reveal_with_fuel(be_bytes, 3);
        assert(out@ =~= old(out)@ + be_bytes(v as nat, 2));
    }
}

/// Appends `v` in four big-endian bytes.
pub fn push_u32(out: &mut Vec<u8>, v: u32)
    ensures
        final(out)@ == old(out)@ + be_bytes(v as nat, 4),
{
    out.push((v / 0x100_0000) as u8);
    out.push((v / 0x1_0000 % 256) as u8);
    out.push((v / 0x100 % 256) as u8);
    out.push((v % 256) as u8);
    proof {
        reveal_with_fuel(be_bytes, 5);
        assert(out@ =~= old(out)@ + be_bytes(v as nat, 4));
    }
}

/// Appends `v` in eight big-endian bytes.
pub fn push_u64(out: &mut Vec<u8>, v: u64)
    ensures
        final(out)@ == old(out)@ + be_bytes(v as nat, 8),
{
    push_u32(out, (v / 0x1_0000_0000) as u32);
    push_u32(out, (v % 0x1_0000_0000) as u32);
    proof {
        lemma_pow256_small();
        lemma_be_bytes_split(v as nat, 4, 4);
        lemma_be_bytes_low(v as nat % 0x1_0000_0000, v as nat / 0x1_0000_0000, 4);
        assert(out@ =~= old(out)@ + be_bytes(v as nat, 8));
    }
}

/// Appends all of `s`.
pub fn push_slice(out: &mut Vec<u8>, s: &[u8])
    ensures
        final(out)@ == old(out)@ + s@,
{
    let ghost before = out@;
    let mut i: usize = 0;
    while i < s.len()
        invariant
            i <= s@.len(),
            out@ == before + s@.subrange(0, i as int),
        decreases s@.len() - i,
    {
        out.push(s[i]);
        i = i + 1;
        assert(out@ =~= before + s@.subrange(0, i as int));
    }
    assert(s@.subrange(0, s@.len() as int) =~= s@);
}

/// A copy of `b[from..to]`.
pub fn copy_range(b: &[u8], from: usize, to: usize) -> (v: Vec<u8>)
    requires
        from <= to <= b@.len(),
    ensures
        v@ == b@.subrange(from as int, to as int),
{
    let mut v: Vec<u8> = Vec::new();
    push_slice(&mut v, &b[from..to]);
    v
}

/// Whether the two slices hold the same bytes.
pub fn same_bytes(a: &[u8], b: &[u8]) -> (r: bool)
    ensures
        r == (a@ == b@),
{
    if a.len() != b.len() {
        return false;
    }
    let mut i: usize = 0;
    while i < a.len()
        invariant
            a@.len() == b@.len(),
            i <= a@.len(),
            forall|k: int| 0 <= k < i ==> a@[k] == b@[k],
        decreases a@.len() - i,
    {
        if a[i] != b[i] {
            return false;
        }
        i = i + 1;
    }
    assert(a@ =~= b@);
    true
}

/// What an incremental decoder makes of the bytes received so far.
pub enum Decoded<T, E> {
    /// Nothing more can be said before this many bytes have arrived in all.
    More(usize),
    /// A complete value, and how many bytes it took.
    Done(T, usize),
    /// The bytes cannot be the start of a value.
    Bad(E),
}

/// The mathematical counterpart of [`Decoded`].
pub enum DecodedView<V, E> {
    More(nat),
    Done(V, nat),
    Bad(E),
}

impl<T: View, E> View for Decoded<T, E> {
    type V = DecodedView<T::V, E>;

    open spec fn view(&self) -> DecodedView<T::V, E> {
        match *self {
            Decoded::More(n) => DecodedView::More(n as nat),
            Decoded::Done(t, n) => DecodedView::Done(t@, n as nat),
            Decoded::Bad(e) => DecodedView::Bad(e),
        }
    }
}

/// Two bytes, the more significant one first: what a number below `65536` is written as,
/// and what it is read from.
pub proof fn lemma_be_pair(v: nat)
    requires
        v < 0x1_0000,
    ensures
        be_bytes(v, 2) == seq![(v / 256) as u8, (v % 256) as u8],
        be_value(seq![(v / 256) as u8, (v % 256) as u8]) == v,
{
    reveal_with_fuel(be_bytes, 3);
    assert(be_bytes(v, 2) =~= seq![(v / 256) as u8, (v % 256) as u8]);
    lemma_pow256_small();
    lemma_be_value_of_bytes(v, 2);
}

/// Four bytes, the most significant one first.
pub proof fn lemma_be_quad(v: nat)
    requires
        v < 0x1_0000_0000,
    ensures
        be_bytes(v, 4) == seq![
            (v / 0x100_0000) as u8,
            (v / 0x1_0000 % 256) as u8,
            (v / 256 % 256) as u8,
            (v % 256) as u8,
        ],
        be_value(be_bytes(v, 4)) == v,
{
    reveal_with_fuel(be_bytes, 5);
    assert(v / 256 / 256 == v / 0x1_0000);
    assert(v / 256 / 256 / 256 == v / 0x100_0000);
    assert(be_bytes(v, 4) =~= seq![
        (v / 0x100_0000) as u8,
        (v / 0x1_0000 % 256) as u8,
        (v / 256 % 256) as u8,
        (v % 256) as u8,
    ]);
    lemma_pow256_small();
    lemma_be_value_of_bytes(v, 4);
}

} // verus!
