//! Trojan: the line with the password's hash, and the request behind it.
use crate::address::{address_of, read_address, AddressError, Target, TargetView};
use crate::crypto::{hex_digit, hex_encode, hex_text, sha224, sha224_of};
use crate::text::{same_text, utf8_lossy};
use crate::wire::{copy_range, Decoded, DecodedView};
use vstd::prelude::*;
use vstd::utf8::{encode_utf8, valid_utf8};

verus! {

/// The longest first line, with the two bytes that end it.
pub const MAX_LINE: usize = 257;

/// The one command that is served.
pub const CMD_CONNECT: u8 = 1;

/// Why a client is turned away.
#[derive(Debug, Clone, Copy, PartialEq, Eq, Structural)]
pub enum TrojanError {
    /// The first line does not end where it has to.
    NoLine,
    Password,
    Command(u8),
    Address(AddressError),
}

/// The first line that a client sends, from the hash of its password.
pub open spec fn line_of(hash: Seq<u8>) -> Seq<u8> {
    encode_utf8(hex_text(hash))
}

/// The hash of a password.
pub open spec fn password_hash(password: Seq<char>) -> Seq<u8> {
    sha224_of(encode_utf8(password))
}

/// Hexadecimal digits are not replacement characters.
proof fn lemma_hex_is_plain(bytes: Seq<u8>)
    ensures
        !hex_text(bytes).contains('\u{fffd}'),
{
    let t = hex_text(bytes);
    assert forall|i: int| 0 <= i < t.len() implies t[i] != '\u{fffd}' by {
        let b = bytes[i / 2];
        let d = if i % 2 == 0 {
            (b / 16) as u8
        } else {
            (b % 16) as u8
        };
        assert(d < 16);
        assert(t[i] == hex_digit(d));
        assert(hex_digit(d) as u32 <= 0x66);
    }
}

/// Whether a line is the one that a client with the password sends.
pub fn check_password(line: &[u8], password: &str) -> (r: bool)
    ensures
        r == (line@ == line_of(password_hash(password@))),
{
    let got = utf8_lossy(line);
    let expected = hex_encode(sha224(password.as_bytes()).as_slice());
    proof {
        let want = hex_text(password_hash(password@));
        lemma_hex_is_plain(password_hash(password@));
        vstd::utf8::encode_utf8_valid_utf8(want);
        vstd::utf8::encode_utf8_decode_utf8(want);
        if valid_utf8(line@) {
            vstd::utf8::decode_utf8_encode_utf8(line@);
        }
    }
    same_text(got.as_str(), expected.as_str())
}

/// Where the first CR LF stands; how many bytes there are, if none does.
pub open spec fn first_crlf(buf: Seq<u8>) -> nat
    decreases buf.len(),
{
    if buf.len() < 2 {
        buf.len()
    } else if buf[0] == 13 && buf[1] == 10 {
        0
    } else {
        1 + first_crlf(buf.skip(1))
    }
}

proof fn lemma_first_crlf(buf: Seq<u8>, at: int)
    requires
        0 <= at,
        forall|i: int| 0 <= i < at && i + 1 < buf.len() ==> !(#[trigger] buf[i] == 13 && buf[i + 1] == 10),
        at + 2 <= buf.len() ==> buf[at] == 13 && buf[at + 1] == 10,
        at + 2 <= buf.len() || at == buf.len(),
    ensures
        first_crlf(buf) == at,
    decreases buf.len(),
{
    if at > 0 && buf.len() >= 2 {
        let rest = buf.skip(1);
        assert(!(buf[0] == 13 && buf[1] == 10));
        assert forall|i: int| 0 <= i < at - 1 && i + 1 < rest.len() implies !(#[trigger] rest[i]
            == 13 && rest[i + 1] == 10) by {
            assert(rest[i] == buf[i + 1]);
        }
        lemma_first_crlf(rest, at - 1);
    }
}

fn find_crlf(buf: &[u8]) -> (r: usize)
    ensures
        r == first_crlf(buf@),
        r + 2 <= buf@.len() || r == buf@.len(),
{
    let n: usize = buf.len();
    let mut i: usize = 0;
    while i < n
        invariant
            n == buf@.len(),
            i <= n,
            forall|k: int|
                0 <= k < i && k + 1 < n ==> !(#[trigger] buf@[k] == 13 && buf@[k + 1] == 10),
        decreases n - i,
    {
        if n - i >= 2 && buf[i] == 13 && buf[i + 1] == 10 {
            proof {
                lemma_first_crlf(buf@, i as int);
            }
            return i;
        }
        i = i + 1;
    }
    proof {
        lemma_first_crlf(buf@, n as int);
    }
    n
}

/// What follows the line in `buf`, from `start` on: `CMD | address | CR LF`. The last two
/// bytes are taken whatever they are.
pub open spec fn request_of(buf: Seq<u8>, start: int) -> DecodedView<TargetView, TrojanError> {
    if buf.len() < start + 1 {
        DecodedView::More((start + 1) as nat)
    } else if buf[start] != CMD_CONNECT {
        DecodedView::Bad(TrojanError::Command(buf[start]))
    } else {
        match address_of(buf.subrange(start + 1, buf.len() as int)) {
            DecodedView::More(n) => DecodedView::More((n + start + 1) as nat),
            DecodedView::Bad(e) => DecodedView::Bad(TrojanError::Address(e)),
            DecodedView::Done(target, n) => if buf.len() < start + 1 + n + 2 {
                DecodedView::More((start + 1 + n + 2) as nat)
            } else {
                DecodedView::Done(target, (start + 1 + n + 2) as nat)
            },
        }
    }
}

/// What the bytes of a client say, where `hash` is that of the password: where to, and
/// where its data starts.
pub open spec fn trojan_of(hash: Seq<u8>, buf: Seq<u8>) -> DecodedView<TargetView, TrojanError> {
    let at = first_crlf(buf);
    if at + 2 <= buf.len() && at + 2 <= MAX_LINE {
        if buf.take(at as int) != line_of(hash) {
            DecodedView::Bad(TrojanError::Password)
        } else {
            request_of(buf, (at + 2) as int)
        }
    } else if buf.len() >= MAX_LINE {
        DecodedView::Bad(TrojanError::NoLine)
    } else {
        DecodedView::More((buf.len() + 1) as nat)
    }
}

fn read_request(buf: &[u8], start: usize) -> (r: Decoded<Target, TrojanError>)
    requires
        start <= MAX_LINE,
    ensures
        r@ == request_of(buf@, start as int),
{
    let n: usize = buf.len();
    if n < start + 1 {
        return Decoded::More(start + 1);
    }
    if buf[start] != CMD_CONNECT {
        return Decoded::Bad(TrojanError::Command(buf[start]));
    }
    proof {
        crate::address::lemma_address_prefix(buf@.subrange(start + 1, n as int), Seq::empty());
    }
    match read_address(&buf[start + 1..n]) {
        Decoded::More(k) => {
            assert(k <= 2 + 255 + 2);
            Decoded::More(k + start + 1)
        },
        Decoded::Bad(e) => Decoded::Bad(TrojanError::Address(e)),
        Decoded::Done(target, k) => {
            assert(k <= 2 + 255 + 2);
            if n < start + 1 + k + 2 {
                Decoded::More(start + 1 + k + 2)
            } else {
                Decoded::Done(target, start + 1 + k + 2)
            }
        },
    }
}

/// Reads what a client has sent so far.
pub fn decode_trojan(password: &str, buf: &[u8]) -> (r: Decoded<Target, TrojanError>)
    ensures
        r@ == trojan_of(password_hash(password@), buf@),
{
    let at: usize = find_crlf(buf);
    let n: usize = buf.len();
    if at <= MAX_LINE - 2 && n >= 2 && at <= n - 2 {
        let line = copy_range(buf, 0, at);
        assert(line@ =~= buf@.take(at as int));
        if !check_password(line.as_slice(), password) {
            return Decoded::Bad(TrojanError::Password);
        }
        read_request(buf, at + 2)
    } else if n >= MAX_LINE {
        Decoded::Bad(TrojanError::NoLine)
    } else {
        Decoded::More(n + 1)
    }
}

/// What a client sends to reach `target`.
pub open spec fn hello(hash: Seq<u8>, target: TargetView) -> Seq<u8> {
    line_of(hash) + seq![13u8, 10, CMD_CONNECT] + crate::address::address_bytes(target) + seq![
        13u8,
        10,
    ]
}

/// The line is the hexadecimal digits as ASCII: none of them ends it.
proof fn lemma_line_is_ascii(hash: Seq<u8>)
    ensures
        line_of(hash).len() == 2 * hash.len(),
        forall|i: int| 0 <= i < 2 * hash.len() ==> #[trigger] line_of(hash)[i] != 13,
{
    let t = hex_text(hash);
    assert forall|i: int| 0 <= i < t.len() implies 0x30 <= #[trigger] t[i] as u32 <= 0x66 by {
        let b = hash[i / 2];
        let d = if i % 2 == 0 {
            (b / 16) as u8
        } else {
            (b % 16) as u8
        };
        assert(d < 16);
        assert(t[i] == hex_digit(d));
    }
    assert(vstd::utf8::is_ascii_chars(t));
    vstd::utf8::is_ascii_chars_encode_utf8(t);
    assert forall|i: int| 0 <= i < 2 * hash.len() implies #[trigger] line_of(hash)[i] != 13 by {
        let c = t[i];
        assert(c as u8 == line_of(hash)[i]);
        assert(0x30 <= c as u32 <= 0x66);
    }
}

/// A client with the password gets where it asks to, and what follows is its data.
pub proof fn lemma_hello_round_trip(hash: Seq<u8>, target: TargetView, data: Seq<u8>)
    requires
        hash.len() == 28,
        crate::address::writable(target.host),
        target.port < 0x1_0000,
    ensures
        trojan_of(hash, hello(hash, target) + data) == DecodedView::<
            TargetView,
            TrojanError,
        >::Done(target, hello(hash, target).len()),
{
    let line = line_of(hash);
    let address = crate::address::address_bytes(target);
    let all = hello(hash, target) + data;
    lemma_line_is_ascii(hash);
    crate::wire::lemma_be_bytes_len(target.port, 2);
    assert forall|i: int| 0 <= i < 56 && i + 1 < all.len() implies !(#[trigger] all[i] == 13 && all[i
        + 1] == 10) by {
        assert(all[i] == line[i]);
    }
    lemma_first_crlf(all, 56);
    assert(all.take(56) =~= line);
    let rest = seq![13u8, 10] + data;
    assert(all.subrange(59, all.len() as int) =~= address + rest);
    crate::address::lemma_address_round_trip(target, rest);
}

/// Nobody gets anywhere whose first line is not that of the password.
pub proof fn lemma_target_needs_password(hash: Seq<u8>, buf: Seq<u8>)
    requires
        trojan_of(hash, buf) is Done,
    ensures
        line_of(hash).len() + 2 <= buf.len(),
        buf.take(line_of(hash).len() as int) == line_of(hash),
{
}

/// What a client sends, byte by byte, and that it is understood: 56 lower-case hexadecimal
/// digits of the hash of its password, CR LF, the command 1, the address and CR LF.
pub proof fn lemma_hello_layout(hash: Seq<u8>, line: Seq<u8>, target: TargetView, data: Seq<u8>)
    requires
        hash.len() == 28,
        line.len() == 56,
        forall|i: int|
            0 <= i < 28 ==> {
                let hi = hash[i] / 16;
                let lo = hash[i] % 16;
                &&& #[trigger] line[2 * i] == if hi < 10 {
                    0x30 + hi
                } else {
                    0x61 + hi - 10
                }
                &&& line[2 * i + 1] == if lo < 10 {
                    0x30 + lo
                } else {
                    0x61 + lo - 10
                }
            },
        crate::address::writable(target.host),
        target.port < 0x1_0000,
    ensures
        trojan_of(
            hash,
            line + seq![0x0du8, 0x0a, 0x01] + crate::address::address_bytes(target) + seq![
                0x0du8,
                0x0a,
            ] + data,
        ) == DecodedView::<TargetView, TrojanError>::Done(
            target,
            61 + crate::address::address_bytes(target).len(),
        ),
{
    lemma_line_is_ascii(hash);
    let t = hex_text(hash);
    assert forall|i: int| 0 <= i < 56 implies line_of(hash)[i] == line[i] by {
        let b = hash[i / 2];
        let d = if i % 2 == 0 {
            (b / 16) as u8
        } else {
            (b % 16) as u8
        };
        assert(d < 16);
        assert(t[i] == hex_digit(d));
        let k = i / 2;
        let high = line[2 * k];
        assert(high == if b / 16 < 10 {
            0x30 + b / 16
        } else {
            0x61 + b / 16 - 10
        });
        assert(i == 2 * k || i == 2 * k + 1);
        assert(hex_digit(d) as u8 == line[i]);
        assert(vstd::utf8::is_ascii_chars(t)) by {
            assert forall|j: int| 0 <= j < t.len() implies 0x30 <= #[trigger] t[j] as u32
                <= 0x66 by {
                let c = hash[j / 2];
                let e = if j % 2 == 0 {
                    (c / 16) as u8
                } else {
                    (c % 16) as u8
                };
                assert(e < 16);
                assert(t[j] == hex_digit(e));
            }
        }
        vstd::utf8::is_ascii_chars_encode_utf8(t);
        assert(t[i] as u8 == line_of(hash)[i]);
    }
    assert(line_of(hash) =~= line);
    lemma_hello_round_trip(hash, target, data);
}

/// Another command behind the right line is refused by its number, and a first line that
/// goes on for 257 bytes is refused for that.
pub proof fn lemma_refused_hello(hash: Seq<u8>, command: u8, rest: Seq<u8>, noise: Seq<u8>)
    requires
        hash.len() == 28,
        noise.len() >= 257,
        forall|i: int| 0 <= i < 257 ==> #[trigger] noise[i] != 13,
    ensures
        command != 1 ==> trojan_of(
            hash,
            line_of(hash) + seq![0x0du8, 0x0a, command] + rest,
        ) == DecodedView::<TargetView, TrojanError>::Bad(TrojanError::Command(command)),
        trojan_of(hash, noise) == DecodedView::<TargetView, TrojanError>::Bad(TrojanError::NoLine),
{
    let line = line_of(hash);
    let all = line + seq![0x0du8, 0x0a, command] + rest;
    lemma_line_is_ascii(hash);
    assert forall|i: int| 0 <= i < 56 && i + 1 < all.len() implies !(#[trigger] all[i] == 13 && all[i
        + 1] == 10) by {
        assert(all[i] == line[i]);
    }
    lemma_first_crlf(all, 56);
    assert(all.take(56) =~= line);
    lemma_crlf_found(noise);
}

/// Where the first CR LF is said to stand, there is a CR.
proof fn lemma_crlf_found(buf: Seq<u8>)
    ensures
        first_crlf(buf) <= buf.len(),
        first_crlf(buf) + 2 <= buf.len() ==> buf[first_crlf(buf) as int] == 13,
    decreases buf.len(),
{
    if buf.len() >= 2 && !(buf[0] == 13 && buf[1] == 10) {
        lemma_crlf_found(buf.skip(1));
    }
}

} // verus!
