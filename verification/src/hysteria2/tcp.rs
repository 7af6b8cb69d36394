//! Proxied TCP streams: the request that opens one, and the answer to it.
use crate::crypto;
use crate::hysteria2::varint::{read_varint, write_varint};
use crate::hysteria2::varint::{varint_bytes, varint_of};
use crate::text;
use crate::wire::{copy_range, push_slice, Decoded, DecodedView};
use vstd::prelude::*;
use vstd::string::{StrSliceExecFns, StringExecFns};
use vstd::utf8::{decode_utf8, encode_utf8, valid_utf8};

verus! {

/// The frame type of a proxied TCP stream.
pub const FRAME_TYPE_TCP: u64 = 0x401;

/// The frame types with which HTTP/3 streams start.
pub const H3_FRAME_SETTINGS: u64 = 0x4;

pub const H3_FRAME_HEADERS: u64 = 0x1;

/// The longest address in a request.
pub const MAX_ADDR_LEN: u64 = 2048;

/// The longest padding that is skipped.
pub const MAX_PADDING: u64 = 4096;

/// What a stream is for, by the frame type that it starts with.
#[derive(Debug, Clone, Copy, PartialEq, Eq, Structural)]
pub enum StreamKind {
    /// A proxied TCP stream.
    Tcp,
    /// A stray HTTP/3 stream, which is let be.
    Http3,
    /// Anything else, which is let be as well.
    Unknown,
}

/// What a stream is for.
pub fn stream_kind(frame_type: u64) -> (r: StreamKind)
    ensures
        r == (if frame_type == FRAME_TYPE_TCP {
            StreamKind::Tcp
        } else if frame_type == H3_FRAME_SETTINGS || frame_type == H3_FRAME_HEADERS {
            StreamKind::Http3
        } else {
            StreamKind::Unknown
        }),
{
    if frame_type == FRAME_TYPE_TCP {
        StreamKind::Tcp
    } else if frame_type == H3_FRAME_SETTINGS || frame_type == H3_FRAME_HEADERS {
        StreamKind::Http3
    } else {
        StreamKind::Unknown
    }
}

/// Why a request is refused.
#[derive(Debug, Clone, Copy, PartialEq, Eq, Structural)]
pub enum TcpRequestError {
    /// An address of no or of more than 2048 bytes.
    AddrLen(u64),
    NotUtf8,
}

/// A request.
#[derive(Debug, Clone, PartialEq, Eq)]
pub struct TcpRequest {
    /// `host:port`.
    pub addr: String,
    /// How many bytes of padding are to be skipped behind the request.
    pub padding: usize,
}

/// The mathematical counterpart of [`TcpRequest`].
pub struct TcpRequestView {
    pub addr: Seq<char>,
    pub padding: nat,
}

impl View for TcpRequest {
    type V = TcpRequestView;

    open spec fn view(&self) -> TcpRequestView {
        TcpRequestView { addr: self.addr@, padding: self.padding as nat }
    }
}

/// Padding that is too long is not skipped.
pub open spec fn skipped(padding: nat) -> nat {
    if padding <= MAX_PADDING {
        padding
    } else {
        0
    }
}

/// What `buf` says of the request at its start, `addr_len | addr | padding_len`.
pub open spec fn tcp_request_of(buf: Seq<u8>) -> DecodedView<TcpRequestView, TcpRequestError> {
    match varint_of(buf) {
        DecodedView::More(n) => DecodedView::More(n),
        DecodedView::Bad(_) => DecodedView::Bad(TcpRequestError::NotUtf8),
        DecodedView::Done(len, n) => {
            let end = (n + len) as int;
            if !(0 < len <= MAX_ADDR_LEN) {
                DecodedView::Bad(TcpRequestError::AddrLen(len))
            } else if buf.len() < end {
                DecodedView::More(end as nat)
            } else if !valid_utf8(buf.subrange(n as int, end)) {
                DecodedView::Bad(TcpRequestError::NotUtf8)
            } else {
                match varint_of(buf.skip(end)) {
                    DecodedView::More(m) => DecodedView::More((end + m) as nat),
                    DecodedView::Bad(_) => DecodedView::Bad(TcpRequestError::NotUtf8),
                    DecodedView::Done(pad, m) => DecodedView::Done(
                        TcpRequestView {
                            addr: decode_utf8(buf.subrange(n as int, end)),
                            padding: skipped(pad as nat),
                        },
                        (end + m) as nat,
                    ),
                }
            }
        },
    }
}

/// Reads the request at the start of `buf`, behind the frame type.
pub fn read_tcp_request(buf: &[u8]) -> (r: Decoded<TcpRequest, TcpRequestError>)
    ensures
        r@ == tcp_request_of(buf@),
{
    let have: usize = buf.len();
    match read_varint(buf) {
        Decoded::More(n) => Decoded::More(n),
        Decoded::Bad(_) => Decoded::Bad(TcpRequestError::NotUtf8),
        Decoded::Done(len, n) => {
            if !(0 < len && len <= MAX_ADDR_LEN) {
                return Decoded::Bad(TcpRequestError::AddrLen(len));
            }
            let end: usize = n + (len as usize);
            if have < end {
                return Decoded::More(end);
            }
            let addr = match text::utf8_text(copy_range(buf, n, end)) {
                Some(t) => t,
                None => {
                    return Decoded::Bad(TcpRequestError::NotUtf8);
                },
            };
            let rest = copy_range(buf, end, have);
            assert(rest@ =~= buf@.skip(end as int));
            match read_varint(rest.as_slice()) {
                Decoded::More(m) => Decoded::More(end + m),
                Decoded::Bad(_) => Decoded::Bad(TcpRequestError::NotUtf8),
                Decoded::Done(pad, m) => {
                    let padding: usize = if pad <= MAX_PADDING {
                        pad as usize
                    } else {
                        0
                    };
                    Decoded::Done(TcpRequest { addr, padding }, end + m)
                },
            }
        },
    }
}

/// A request on the wire.
pub open spec fn tcp_request_bytes(addr: Seq<char>, padding: Seq<u8>) -> Seq<u8> {
    varint_bytes(encode_utf8(addr).len()) + encode_utf8(addr) + varint_bytes(padding.len())
        + padding
}

/// A request is read back, and its padding is what is left to skip.
pub proof fn lemma_tcp_request_round_trip(addr: Seq<char>, padding: Seq<u8>, rest: Seq<u8>)
    requires
        0 < encode_utf8(addr).len() <= MAX_ADDR_LEN,
        padding.len() <= MAX_PADDING,
    ensures
        tcp_request_of(tcp_request_bytes(addr, padding) + rest) == DecodedView::<
            TcpRequestView,
            TcpRequestError,
        >::Done(
            TcpRequestView { addr, padding: padding.len() },
            (tcp_request_bytes(addr, padding).len() - padding.len()) as nat,
        ),
{
    let e = encode_utf8(addr);
    let l = varint_bytes(e.len());
    let p = varint_bytes(padding.len());
    let all = tcp_request_bytes(addr, padding) + rest;
    assert(all =~= l + (e + p + padding + rest));
    crate::hysteria2::varint::lemma_varint_round_trip(e.len(), e + p + padding + rest);
    let end = (l.len() + e.len()) as int;
    assert(all.subrange(l.len() as int, end) =~= e);
    assert(all.skip(end) =~= p + (padding + rest));
    crate::hysteria2::varint::lemma_varint_round_trip(padding.len(), padding + rest);
    vstd::utf8::encode_utf8_valid_utf8(addr);
    vstd::utf8::encode_utf8_decode_utf8(addr);
}

/// The characters that padding is made of.
pub open spec fn padding_alphabet() -> Seq<char> {
    "abcdefghijklmnopqrstuvwxyzABCDEFGHIJKLMNOPQRSTUVWXYZ0123456789"@
}

/// Whether `s` is padding of at least `min` and fewer than `max` characters.
pub open spec fn is_padding(s: Seq<char>, min: nat, max: nat) -> bool {
    &&& min <= s.len() < max
    &&& forall|i: int| 0 <= i < s.len() ==> padding_alphabet().contains(#[trigger] s[i])
}

/// Random padding of at least `min` and fewer than `max` characters.
pub fn gen_padding(min: usize, max: usize) -> (r: String)
    requires
        min < max,
        max <= 0x7fff_ffff_ffff_ffff,
    ensures
        is_padding(r@, min as nat, max as nat),
{
    let len: usize = crypto::random_between(min as i64, max as i64 - 1) as usize;
    let alphabet = "abcdefghijklmnopqrstuvwxyzABCDEFGHIJKLMNOPQRSTUVWXYZ0123456789";
    proof {
        reveal_strlit("abcdefghijklmnopqrstuvwxyzABCDEFGHIJKLMNOPQRSTUVWXYZ0123456789");
    }
    let mut out: String = String::new();
    let mut i: usize = 0;
    while i < len
        invariant
            i <= len,
            alphabet@ == padding_alphabet(),
            alphabet@.len() == 62,
            out@.len() == i,
            forall|k: int| 0 <= k < out@.len() ==> padding_alphabet().contains(#[trigger] out@[k]),
        decreases len - i,
    {
        let at: usize = crypto::random_between(0, 61) as usize;
        let one = alphabet.substring_char(at, at + 1);
        let ghost before = out@;
        out.append(one);
        assert(out@ =~= before.push(alphabet@[at as int]));
        i = i + 1;
    }
    out
}

/// An answer on the wire: `status | message_len | message | padding_len | padding`.
pub open spec fn tcp_response_bytes(ok: bool, message: Seq<char>, padding: Seq<char>) -> Seq<u8> {
    seq![if ok { 0u8 } else { 1u8 }] + varint_bytes(encode_utf8(message).len()) + encode_utf8(
        message,
    ) + varint_bytes(encode_utf8(padding).len()) + encode_utf8(padding)
}

/// Writes an answer with the given padding.
pub fn encode_tcp_response(ok: bool, message: &str, padding: &str) -> (r: Vec<u8>)
    ensures
        r@ == tcp_response_bytes(ok, message@, padding@),
{
    let mut out: Vec<u8> = Vec::new();
    out.push(if ok {
        0
    } else {
        1
    });
    let msg = message.as_bytes();
    write_varint(&mut out, msg.len() as u64);
    push_slice(&mut out, msg);
    let pad = padding.as_bytes();
    write_varint(&mut out, pad.len() as u64);
    push_slice(&mut out, pad);
    assert(out@ =~= tcp_response_bytes(ok, message@, padding@));
    out
}

/// Writes an answer with 128 to 1023 characters of random padding.
pub fn write_tcp_response(ok: bool, message: &str) -> (r: Vec<u8>)
    ensures
        exists|padding: Seq<char>|
            is_padding(padding, 128, 1024) && r@ == #[trigger] tcp_response_bytes(
                ok,
                message@,
                padding,
            ),
{
    let padding = gen_padding(128, 1024);
    let r = encode_tcp_response(ok, message, padding.as_str());
    assert(is_padding(padding@, 128, 1024) && r@ == tcp_response_bytes(ok, message@, padding@));
    r
}

/// A request for an address of at most 63 bytes with at most 63 bytes of padding, byte by
/// byte, and a longer one by its lengths: an address of up to 2048 bytes is taken, and
/// padding of up to 4096 is skipped, where longer padding is not.
pub proof fn lemma_tcp_request_layout(addr: Seq<char>, padding: nat, rest: Seq<u8>)
    requires
        padding < 0x4000_0000_0000_0000,
        encode_utf8(addr).len() < 0x4000_0000_0000_0000,
    ensures
        ({
            let e = encode_utf8(addr);
            let all = varint_bytes(e.len()) + e + varint_bytes(padding) + rest;
            tcp_request_of(all) == if 0 < e.len() <= 2048 {
                DecodedView::Done(
                    TcpRequestView {
                        addr,
                        padding: if padding <= 4096 {
                            padding
                        } else {
                            0
                        },
                    },
                    varint_bytes(e.len()).len() + e.len() + varint_bytes(padding).len(),
                )
            } else {
                DecodedView::Bad(TcpRequestError::AddrLen(e.len() as u64))
            }
        }),
        0 < encode_utf8(addr).len() < 64 && padding < 64 ==> tcp_request_of(
            seq![encode_utf8(addr).len() as u8] + encode_utf8(addr) + seq![padding as u8] + rest,
        ) == DecodedView::<TcpRequestView, TcpRequestError>::Done(
            TcpRequestView { addr, padding },
            encode_utf8(addr).len() + 2,
        ),
{
    let e = encode_utf8(addr);
    let l = varint_bytes(e.len());
    let p = varint_bytes(padding);
    let all = l + e + p + rest;
    assert(all =~= l + (e + p + rest));
    crate::hysteria2::varint::lemma_varint_layout(e.len(), e + p + rest);
    let end = (l.len() + e.len()) as int;
    assert(all.subrange(l.len() as int, end) =~= e);
    assert(all.skip(end) =~= p + rest);
    crate::hysteria2::varint::lemma_varint_layout(padding, rest);
    vstd::utf8::encode_utf8_valid_utf8(addr);
    vstd::utf8::encode_utf8_decode_utf8(addr);
}

/// An answer, byte by byte: 0 where the target was reached and 1 where it was not, then the
/// message and the padding, each behind its length. Whoever reads the two lengths off it
/// finds the message and the padding.
pub proof fn lemma_tcp_response_layout(ok: bool, message: Seq<char>, padding: Seq<char>)
    requires
        encode_utf8(message).len() < 0x4000_0000_0000_0000,
        encode_utf8(padding).len() < 0x4000_0000_0000_0000,
    ensures
        ({
            let b = tcp_response_bytes(ok, message, padding);
            let m = encode_utf8(message);
            let p = encode_utf8(padding);
            &&& b[0] == if ok {
                0u8
            } else {
                1u8
            }
            &&& varint_of(b.skip(1)) matches DecodedView::Done(len, n)
            &&& len == m.len()
            &&& b.subrange(1 + n as int, (1 + n + len) as int) == m
            &&& varint_of(b.skip((1 + n + len) as int)) matches DecodedView::Done(pad, k)
            &&& pad == p.len()
            &&& b.skip((1 + n + len + k) as int) == p
        }),
{
    let b = tcp_response_bytes(ok, message, padding);
    let m = encode_utf8(message);
    let p = encode_utf8(padding);
    let lm = varint_bytes(m.len());
    let lp = varint_bytes(p.len());
    assert(b.skip(1) =~= lm + (m + lp + p));
    crate::hysteria2::varint::lemma_varint_layout(m.len(), m + lp + p);
    let end = (1 + lm.len() + m.len()) as int;
    assert(b.subrange(1 + lm.len() as int, end) =~= m);
    assert(b.skip(end) =~= lp + p);
    crate::hysteria2::varint::lemma_varint_layout(p.len(), p);
    assert(b.skip(end + lp.len()) =~= p);
}

/// Streams that start with the frame type 0x401 are proxied; the settings and header frames
/// of HTTP/3 are 4 and 1.
pub proof fn lemma_frame_types()
    ensures
        FRAME_TYPE_TCP == 0x401,
        H3_FRAME_SETTINGS == 4,
        H3_FRAME_HEADERS == 1,
{
}

} // verus!
