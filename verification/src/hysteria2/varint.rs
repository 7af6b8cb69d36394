//! Variable-length integers: the two high bits of the first byte give the length.
use crate::wire::{be_bytes, be_value, Decoded, DecodedView};
use crate::wire::{push_u16, push_u32, push_u64};
use vstd::prelude::*;

verus! {

/// How many bytes an integer with this first byte takes.
pub open spec fn varint_len(first: u8) -> nat {
    if first < 64 {
        1
    } else if first < 128 {
        2
    } else if first < 192 {
        4
    } else {
        8
    }
}

/// The number in `bytes`, without the two bits that give the length.
pub open spec fn varint_value(bytes: Seq<u8>) -> nat {
    be_value(bytes.update(0, (bytes[0] % 64) as u8))
}

/// What `buf` says of the integer at its start.
pub open spec fn varint_of(buf: Seq<u8>) -> DecodedView<u64, ()> {
    if buf.len() < 1 {
        DecodedView::More(1)
    } else {
        let n = varint_len(buf[0]);
        if buf.len() < n {
            DecodedView::More(n)
        } else {
            DecodedView::Done(varint_value(buf.take(n as int)) as u64, n)
        }
    }
}

/// Reads `n` bytes as a number, without the two high bits of the first.
pub fn masked_number(buf: &[u8], n: usize) -> (r: u64)
    requires
        1 <= n <= 8,
        n <= buf@.len(),
    ensures
        r == varint_value(buf@.take(n as int)),
        r < 0x4000_0000_0000_0000,
{
    let ghost s = buf@.take(n as int).update(0, (buf@[0] % 64) as u8);
    let mut v: u64 = (buf[0] % 64) as u64;
    let mut i: usize = 1;
    proof {
        reveal_with_fuel(be_value, 2);
        assert(s.take(1).drop_last() =~= Seq::<u8>::empty());
        assert(v == be_value(s.take(1)));
        crate::wire::lemma_pow256_small();
    }
    while i < n
        invariant
            1 <= i <= n <= 8,
            n <= buf@.len(),
            s == buf@.take(n as int).update(0, (buf@[0] % 64) as u8),
            v == be_value(s.take(i as int)),
            v < 64 * crate::wire::pow256((i - 1) as nat),
        decreases n - i,
    {
        proof {
            assert(s.take(i + 1).drop_last() =~= s.take(i as int));
            assert(s.take(i + 1).last() == buf@[i as int]);
            lemma_small_powers(i as nat);
        }
        v = v * 256 + (buf[i] as u64);
        i = i + 1;
    }
    proof {
        assert(s.take(n as int) =~= s);
        lemma_small_powers(n as nat);
    }
    v
}

proof fn lemma_small_powers(i: nat)
    requires
        1 <= i <= 8,
    ensures
        64 * crate::wire::pow256((i - 1) as nat) <= 0x4000_0000_0000_0000,
        i < 8 ==> 64 * crate::wire::pow256((i - 1) as nat) <= 0x40_0000_0000_0000,
        crate::wire::pow256(i) == 256 * crate::wire::pow256((i - 1) as nat),
{
    reveal_with_fuel(crate::wire::pow256, 9);
}

/// Reads the integer at the start of `buf`.
pub fn read_varint(buf: &[u8]) -> (r: Decoded<u64, ()>)
    ensures
        r@ == varint_of(buf@),
{
    let have: usize = buf.len();
    if have < 1 {
        return Decoded::More(1);
    }
    let first: u8 = buf[0];
    let n: usize = if first < 64 {
        1
    } else if first < 128 {
        2
    } else if first < 192 {
        4
    } else {
        8
    };
    if have < n {
        return Decoded::More(n);
    }
    Decoded::Done(masked_number(buf, n), n)
}

/// A number in the shortest form that holds it. From `2^62` on the two high bits are lost.
pub open spec fn varint_bytes(v: nat) -> Seq<u8> {
    if v < 64 {
        be_bytes(v, 1)
    } else if v < 16384 {
        be_bytes(0x4000 + v, 2)
    } else if v < 1_073_741_824 {
        be_bytes(0x8000_0000 + v, 4)
    } else {
        be_bytes(0xc000_0000_0000_0000 + v % 0x4000_0000_0000_0000, 8)
    }
}

/// Appends a number in the shortest form that holds it.
pub fn write_varint(out: &mut Vec<u8>, v: u64)
    ensures
        final(out)@ == old(out)@ + varint_bytes(v as nat),
{
    if v < 64 {
        out.push(v as u8);
        proof {
            reveal_with_fuel(be_bytes, 2);
            assert(out@ =~= old(out)@ + be_bytes(v as nat, 1));
        }
    } else if v < 16384 {
        push_u16(out, 0x4000 + (v as u16));
    } else if v < 1_073_741_824 {
        push_u32(out, 0x8000_0000 + (v as u32));
    } else {
        push_u64(out, 0xc000_0000_0000_0000 + v % 0x4000_0000_0000_0000);
    }
}

proof fn lemma_top_digit(w: nat, n: nat)
    requires
        n > 0,
    ensures
        be_bytes(w, n)[0] == (w / crate::wire::pow256((n - 1) as nat)) % 256,
{
    let k = (n - 1) as nat;
    crate::wire::lemma_be_bytes_split(w, 1, k);
    crate::wire::lemma_pow256_positive(k);
    assert(1 + k == n);
    let top = w / crate::wire::pow256(k);
    crate::wire::lemma_be_bytes_len(top, 1);
    assert(be_bytes(w, n)[0] == be_bytes(top, 1)[0]);
    assert(be_bytes(top / 256, 0) =~= Seq::<u8>::empty());
    assert(be_bytes(top, 1) == be_bytes(top / 256, 0).push((top % 256) as u8));
}

/// Taking away what is above the low digits takes away the same number.
proof fn lemma_without_top(s: Seq<u8>, top: u8)
    requires
        s.len() > 0,
        top <= s[0],
    ensures
        be_value(s.update(0, top)) == be_value(s) - (s[0] - top) * crate::wire::pow256(
            (s.len() - 1) as nat,
        ),
    decreases s.len(),
{
    let t = s.update(0, top);
    if s.len() == 1 {
        reveal_with_fuel(be_value, 2);
        assert(s.drop_last() =~= Seq::<u8>::empty());
        assert(t.drop_last() =~= Seq::<u8>::empty());
        assert(crate::wire::pow256(0) == 1);
        assert(be_value(s) == s[0]);
        assert(be_value(t) == top);
    } else {
        assert(t.drop_last() =~= s.drop_last().update(0, top));
        lemma_without_top(s.drop_last(), top);
        let p = crate::wire::pow256((s.len() - 2) as nat) as int;
        let d = s[0] - top;
        assert(crate::wire::pow256((s.len() - 1) as nat) == 256 * p);
        assert(256 * (d * p) == d * (256 * p)) by (nonlinear_arith);
        assert(t.last() == s.last());
        assert(be_value(t) == be_value(t.drop_last()) * 256 + t.last());
        assert(be_value(s) == be_value(s.drop_last()) * 256 + s.last());
    }
}

/// A number below `2^62` that was written is read back, whatever follows it.
pub proof fn lemma_varint_round_trip(v: nat, rest: Seq<u8>)
    requires
        v < 0x4000_0000_0000_0000,
    ensures
        varint_of(varint_bytes(v) + rest) == DecodedView::<u64, ()>::Done(
            v as u64,
            varint_bytes(v).len(),
        ),
        varint_value(varint_bytes(v)) == v,
        varint_bytes(v).len() <= 8,
        v < 64 ==> varint_bytes(v).len() == 1,
        64 <= v < 16384 ==> varint_bytes(v).len() == 2,
{
    let (w, n): (nat, nat) = if v < 64 {
        (v, 1)
    } else if v < 16384 {
        (0x4000 + v, 2)
    } else if v < 1_073_741_824 {
        (0x8000_0000 + v, 4)
    } else {
        (0xc000_0000_0000_0000 + v, 8)
    };
    let b = be_bytes(w, n);
    assert(b == varint_bytes(v)) by {
        if v >= 1_073_741_824 {
            assert(v % 0x4000_0000_0000_0000 == v);
        }
    }
    crate::wire::lemma_be_bytes_len(w, n);
    lemma_powers();
    lemma_top_digit(w, n);
    crate::wire::lemma_be_value_of_bytes(w, n);
    let top = (b[0] % 64) as u8;
    lemma_without_top(b, top);
    let all = b + rest;
    assert(all[0] == b[0]);
    assert(all.take(n as int) =~= b);
    if v < 64 {
        assert(b[0] == v);
    } else if v < 16384 {
        assert(w / 256 < 128 && w / 256 >= 64);
        assert(b[0] - top == 64);
    } else if v < 1_073_741_824 {
        assert(w / 0x100_0000 < 192 && w / 0x100_0000 >= 128);
        assert(b[0] - top == 128);
    } else {
        assert(w / 0x100_0000_0000_0000 < 256 && w / 0x100_0000_0000_0000 >= 192);
        assert(b[0] - top == 192);
    }
}

proof fn lemma_powers()
    ensures
        crate::wire::pow256(0) == 1,
        crate::wire::pow256(1) == 0x100,
        crate::wire::pow256(2) == 0x1_0000,
        crate::wire::pow256(3) == 0x100_0000,
        crate::wire::pow256(4) == 0x1_0000_0000,
        crate::wire::pow256(7) == 0x100_0000_0000_0000,
        crate::wire::pow256(8) == 0x1_0000_0000_0000_0000,
{
    reveal_with_fuel(crate::wire::pow256, 9);
}

/// The four forms of a number, byte by byte: the two high bits of the first byte say how
/// many bytes there are, and the rest is the number with its high byte first.
pub proof fn lemma_varint_layout(v: nat, rest: Seq<u8>)
    requires
        v < 0x4000_0000_0000_0000,
    ensures
        v < 64 ==> varint_bytes(v) == seq![v as u8],
        64 <= v < 0x4000 ==> varint_bytes(v) == seq![(0x40 + v / 256) as u8, (v % 256) as u8],
        0x4000 <= v < 0x4000_0000 ==> varint_bytes(v) == seq![
            (0x80 + v / 0x100_0000) as u8,
            (v / 0x1_0000 % 256) as u8,
            (v / 256 % 256) as u8,
            (v % 256) as u8,
        ],
        0x4000_0000 <= v ==> varint_bytes(v) == seq![(0xc0 + v / 0x100_0000_0000_0000) as u8]
            + be_bytes(v, 7),
        varint_of(varint_bytes(v) + rest) == DecodedView::<u64, ()>::Done(
            v as u64,
            varint_bytes(v).len(),
        ),
{
    lemma_varint_round_trip(v, rest);
    if v < 64 {
        lemma_one_byte(v);
    } else if v < 0x4000 {
        lemma_pair_form(v);
    } else if v < 0x4000_0000 {
        lemma_quad_form(v);
    } else {
        lemma_long_form(v);
    }
}

/// The form of two bytes.
proof fn lemma_pair_form(v: nat)
    requires
        v < 0x4000,
    ensures
        be_bytes(0x4000 + v, 2) == seq![(0x40 + v / 256) as u8, (v % 256) as u8],
{
    let w = 0x4000 + v;
    crate::wire::lemma_be_pair(w);
    assert(w / 256 == 0x40 + v / 256);
    assert(w % 256 == v % 256);
}

/// The form of four bytes.
proof fn lemma_quad_form(v: nat)
    requires
        v < 0x4000_0000,
    ensures
        be_bytes(0x8000_0000 + v, 4) == seq![
            (0x80 + v / 0x100_0000) as u8,
            (v / 0x1_0000 % 256) as u8,
            (v / 256 % 256) as u8,
            (v % 256) as u8,
        ],
{
    let w = 0x8000_0000 + v;
    crate::wire::lemma_be_quad(w);
    assert(w / 0x100_0000 == 0x80 + v / 0x100_0000);
    let x = v / 0x1_0000;
    assert(w / 0x1_0000 == 0x8000 + x);
    assert((0x8000 + x) % 256 == x % 256);
    let y = v / 256;
    assert(w / 256 == 0x80_0000 + y);
    assert((0x80_0000 + y) % 256 == y % 256);
    assert(w % 256 == v % 256);
}

proof fn lemma_one_byte(v: nat)
    requires
        v < 256,
    ensures
        be_bytes(v, 1) == seq![v as u8],
{
    reveal_with_fuel(be_bytes, 2);
    assert(be_bytes(v, 1) =~= seq![v as u8]);
}

/// The form of eight bytes.
proof fn lemma_long_form(v: nat)
    requires
        v < 0x4000_0000_0000_0000,
    ensures
        be_bytes(0xc000_0000_0000_0000 + v, 8) == seq![
            (0xc0 + v / 0x100_0000_0000_0000) as u8,
        ] + be_bytes(v, 7),
{
    let w = 0xc000_0000_0000_0000 + v;
    assert(crate::wire::pow256(7) == 0x100_0000_0000_0000) by {
        reveal_with_fuel(crate::wire::pow256, 8);
    }
    crate::wire::lemma_be_bytes_split(w, 1, 7);
    crate::wire::lemma_be_bytes_low(v, 0xc0, 7);
    let top = w / 0x100_0000_0000_0000;
    assert(top == 0xc0 + v / 0x100_0000_0000_0000);
    lemma_one_byte(top);
}

} // verus!
