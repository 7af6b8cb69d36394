//! Proxied UDP packets: datagrams of
//! `session(4) | packet(2) | fragment(1) | fragments(1) | addr_len | addr | payload`.
use crate::address::split_authority;
use crate::address::{authority_of, AddressError};
use crate::hysteria2::varint::{masked_number, write_varint};
use crate::hysteria2::varint::{varint_bytes, varint_value};
use crate::text;
use crate::wire::{be_bytes, be_value};
use crate::wire::{copy_range, push_slice, push_u16, push_u32, read_u16, read_u32};
use std::collections::HashMap;
use vstd::prelude::*;
use vstd::utf8::{decode_utf8, encode_utf8, valid_utf8};

verus! {

broadcast use vstd::std_specs::hash::group_hash_axioms;

/// The largest payload that is put into one datagram.
pub const DATAGRAM_MAX_PAYLOAD: usize = 1100;

/// The longest address in a datagram.
pub const MAX_ADDR_LEN: u64 = 2048;

/// Why a datagram is refused.
#[derive(Debug, Clone, Copy, PartialEq, Eq, Structural)]
pub enum FrameError {
    TooShort,
    /// The length of the address is cut off.
    Length,
    /// An address of no or of more than 2048 bytes.
    AddrLen(u64),
    /// The address is cut off.
    AddrTruncated,
    NotUtf8,
    /// The address is not `host:port`.
    Addr(AddressError),
}

/// A datagram.
#[derive(Debug, Clone, PartialEq, Eq)]
pub struct UdpFrame {
    pub session_id: u32,
    pub packet_id: u16,
    pub frag_id: u8,
    pub frag_total: u8,
    pub addr: String,
    pub port: u16,
    pub payload: Vec<u8>,
}

/// The mathematical counterpart of [`UdpFrame`].
pub struct UdpFrameView {
    pub session_id: u32,
    pub packet_id: u16,
    pub frag_id: u8,
    pub frag_total: u8,
    pub addr: Seq<char>,
    pub port: u16,
    pub payload: Seq<u8>,
}

impl View for UdpFrame {
    type V = UdpFrameView;

    open spec fn view(&self) -> UdpFrameView {
        UdpFrameView {
            session_id: self.session_id,
            packet_id: self.packet_id,
            frag_id: self.frag_id,
            frag_total: self.frag_total,
            addr: self.addr@,
            port: self.port,
            payload: self.payload@,
        }
    }
}

/// The length at the start of `buf`, and how many bytes it takes: one, and as many more as
/// its two high bits say. Below 16384 this is the form in which lengths are written.
pub open spec fn length_of(buf: Seq<u8>) -> Option<(nat, nat)> {
    if buf.len() < 1 || buf.len() < 1 + buf[0] / 64 {
        None
    } else {
        let n = 1 + (buf[0] / 64) as nat;
        Some((varint_value(buf.take(n as int)), n))
    }
}

/// Reads the length at the start of `buf`.
pub fn read_varint_bytes(buf: &[u8]) -> (r: Option<(u64, usize)>)
    ensures
        match r {
            Some((v, n)) => length_of(buf@) == Some((v as nat, n as nat)) && 1 <= n <= buf@.len(),
            None => length_of(buf@) is None,
        },
{
    let have: usize = buf.len();
    if have < 1 {
        return None;
    }
    let n: usize = 1 + ((buf[0] / 64) as usize);
    if have < n {
        return None;
    }
    Some((masked_number(buf, n), n))
}

/// Splits `host:port` at its last `:`, and takes the brackets off the host.
pub fn split_host_port(s: &str) -> (r: Result<(String, u16), AddressError>)
    ensures
        match r {
            Ok((h, p)) => authority_of(s@) == Some((h@, p as nat)),
            Err(e) => authority_of(s@) is None && e == AddressError::NoPort,
        },
{
    split_authority(s)
}

/// What a datagram says.
pub open spec fn udp_frame_of(data: Seq<u8>) -> Result<UdpFrameView, FrameError> {
    if data.len() < 8 {
        Err(FrameError::TooShort)
    } else {
        match length_of(data.skip(8)) {
            None => Err(FrameError::Length),
            Some((len, n)) => {
                let at = 8 + n as int;
                if !(0 < len <= MAX_ADDR_LEN) {
                    Err(FrameError::AddrLen(len as u64))
                } else if data.len() < at + len {
                    Err(FrameError::AddrTruncated)
                } else if !valid_utf8(data.subrange(at, at + len)) {
                    Err(FrameError::NotUtf8)
                } else {
                    match authority_of(decode_utf8(data.subrange(at, at + len))) {
                        None => Err(FrameError::Addr(AddressError::NoPort)),
                        Some((host, port)) => Ok(
                            UdpFrameView {
                                session_id: be_value(data.subrange(0, 4)) as u32,
                                packet_id: be_value(data.subrange(4, 6)) as u16,
                                frag_id: data[6],
                                frag_total: data[7],
                                addr: host,
                                port: port as u16,
                                payload: data.skip(at + len),
                            },
                        ),
                    }
                }
            },
        }
    }
}

/// The view of a datagram or the reason that there is none.
pub open spec fn frame_view(r: Result<UdpFrame, FrameError>) -> Result<UdpFrameView, FrameError> {
    match r {
        Ok(f) => Ok(f@),
        Err(e) => Err(e),
    }
}

/// Reads a datagram.
pub fn parse_udp_frame(data: &[u8]) -> (r: Result<UdpFrame, FrameError>)
    ensures
        frame_view(r) == udp_frame_of(data@),
{
    let have: usize = data.len();
    if have < 8 {
        return Err(FrameError::TooShort);
    }
    let rest = copy_range(data, 8, have);
    assert(rest@ =~= data@.skip(8));
    let (len, n) = match read_varint_bytes(rest.as_slice()) {
        Some(p) => p,
        None => {
            return Err(FrameError::Length);
        },
    };
    if !(0 < len && len <= MAX_ADDR_LEN) {
        return Err(FrameError::AddrLen(len));
    }
    let at: usize = 8 + n;
    let len: usize = len as usize;
    if have - at < len {
        return Err(FrameError::AddrTruncated);
    }
    let addr_str = match text::utf8_text(copy_range(data, at, at + len)) {
        Some(t) => t,
        None => {
            return Err(FrameError::NotUtf8);
        },
    };
    match split_host_port(addr_str.as_str()) {
        Err(e) => Err(FrameError::Addr(e)),
        Ok((addr, port)) => {
            let payload = copy_range(data, at + len, have);
            assert(payload@ =~= data@.skip(at + len));
            Ok(
                UdpFrame {
                    session_id: read_u32(data, 0),
                    packet_id: read_u16(data, 4),
                    frag_id: data[6],
                    frag_total: data[7],
                    addr,
                    port,
                    payload,
                },
            )
        },
    }
}

/// A datagram on the wire.
pub open spec fn udp_frame_bytes(
    session_id: u32,
    packet_id: u16,
    frag_id: u8,
    frag_total: u8,
    addr: Seq<char>,
    payload: Seq<u8>,
) -> Seq<u8> {
    be_bytes(session_id as nat, 4) + be_bytes(packet_id as nat, 2) + seq![frag_id, frag_total]
        + varint_bytes(encode_utf8(addr).len()) + encode_utf8(addr) + payload
}

/// Writes a datagram.
pub fn build_single_udp_frame(
    session_id: u32,
    packet_id: u16,
    frag_id: u8,
    frag_total: u8,
    addr_str: &str,
    payload: &[u8],
) -> (r: Vec<u8>)
    ensures
        r@ == udp_frame_bytes(session_id, packet_id, frag_id, frag_total, addr_str@, payload@),
{
    let mut out: Vec<u8> = Vec::new();
    push_u32(&mut out, session_id);
    push_u16(&mut out, packet_id);
    out.push(frag_id);
    out.push(frag_total);
    let addr = addr_str.as_bytes();
    write_varint(&mut out, addr.len() as u64);
    push_slice(&mut out, addr);
    push_slice(&mut out, payload);
    assert(out@ =~= udp_frame_bytes(
        session_id,
        packet_id,
        frag_id,
        frag_total,
        addr_str@,
        payload@,
    ));
    out
}

/// A datagram whose address can be read is read back.
pub proof fn lemma_udp_frame_round_trip(
    session_id: u32,
    packet_id: u16,
    frag_id: u8,
    frag_total: u8,
    addr: Seq<char>,
    host: Seq<char>,
    port: u16,
    payload: Seq<u8>,
)
    requires
        0 < encode_utf8(addr).len() <= MAX_ADDR_LEN,
        authority_of(addr) == Some((host, port as nat)),
    ensures
        udp_frame_of(
            udp_frame_bytes(session_id, packet_id, frag_id, frag_total, addr, payload),
        ) == Ok::<UdpFrameView, FrameError>(
            UdpFrameView {
                session_id,
                packet_id,
                frag_id,
                frag_total,
                addr: host,
                port,
                payload,
            },
        ),
{
    let e = encode_utf8(addr);
    let l = varint_bytes(e.len());
    let all = udp_frame_bytes(session_id, packet_id, frag_id, frag_total, addr, payload);
    crate::wire::lemma_be_bytes_len(session_id as nat, 4);
    crate::wire::lemma_be_bytes_len(packet_id as nat, 2);
    crate::wire::lemma_pow256_small();
    crate::wire::lemma_be_value_of_bytes(session_id as nat, 4);
    crate::wire::lemma_be_value_of_bytes(packet_id as nat, 2);
    assert(all.subrange(0, 4) =~= be_bytes(session_id as nat, 4));
    assert(all.subrange(4, 6) =~= be_bytes(packet_id as nat, 2));
    assert(all[6] == frag_id && all[7] == frag_total);
    let tail = all.skip(8);
    assert(tail =~= l + (e + payload));
    crate::hysteria2::varint::lemma_varint_round_trip(e.len(), e + payload);
    assert(tail.take(l.len() as int) =~= l);
    assert(tail[0] == l[0]);
    assert(crate::hysteria2::varint::varint_len(l[0]) == l.len());
    assert(length_of(tail) == Some((e.len(), l.len())));
    let at = 8 + l.len() as int;
    assert(all.subrange(at, at + e.len()) =~= e);
    assert(all.skip(at + e.len()) =~= payload);
    vstd::utf8::encode_utf8_valid_utf8(addr);
    vstd::utf8::encode_utf8_decode_utf8(addr);
}

/// How many datagrams a payload is spread over.
pub open spec fn fragment_count(payload: Seq<u8>) -> nat {
    if payload.len() <= DATAGRAM_MAX_PAYLOAD {
        1
    } else {
        ((payload.len() + DATAGRAM_MAX_PAYLOAD - 1) / DATAGRAM_MAX_PAYLOAD as int) as nat
    }
}

/// The part of a payload that goes into datagram `i`.
pub open spec fn fragment(payload: Seq<u8>, i: int) -> Seq<u8> {
    let from = i * DATAGRAM_MAX_PAYLOAD;
    let to = (i + 1) * DATAGRAM_MAX_PAYLOAD;
    payload.subrange(
        from,
        if to <= payload.len() {
            to
        } else {
            payload.len() as int
        },
    )
}

/// Whether `frames` are the datagrams that carry a payload.
pub open spec fn carries_payload(
    frames: Seq<Vec<u8>>,
    session_id: u32,
    packet_id: u16,
    addr: Seq<char>,
    payload: Seq<u8>,
) -> bool {
    &&& frames.len() == fragment_count(payload)
    &&& forall|i: int|
        0 <= i < frames.len() ==> (#[trigger] frames[i])@ == udp_frame_bytes(
            session_id,
            packet_id,
            (i % 256) as u8,
            (fragment_count(payload) % 256) as u8,
            addr,
            fragment(payload, i),
        )
}

/// Spreads a payload over as many datagrams as it takes. `addr_str` is `host:port`.
pub fn build_udp_frames(session_id: u32, packet_id: u16, addr_str: &str, payload: &[u8]) -> (r: Vec<
    Vec<u8>,
>)
    ensures
        carries_payload(r@, session_id, packet_id, addr_str@, payload@),
{
    let len: usize = payload.len();
    let mut frames: Vec<Vec<u8>> = Vec::new();
    if len <= DATAGRAM_MAX_PAYLOAD {
        frames.push(build_single_udp_frame(session_id, packet_id, 0, 1, addr_str, payload));
        assert(fragment(payload@, 0) =~= payload@);
        return frames;
    }
    let rest: usize = len % DATAGRAM_MAX_PAYLOAD;
    let whole: usize = len / DATAGRAM_MAX_PAYLOAD;
    let count: usize = if rest == 0 {
        whole
    } else {
        whole + 1
    };
    assert(count == fragment_count(payload@));
    let frag_total: u8 = (count % 256) as u8;
    let mut i: usize = 0;
    let mut from: usize = 0;
    while from < len
        invariant
            len == payload@.len(),
            len > DATAGRAM_MAX_PAYLOAD,
            count == fragment_count(payload@),
            frag_total == (count % 256) as u8,
            i <= count,
            from == i * DATAGRAM_MAX_PAYLOAD || (i == count && from == len),
            from <= len,
            (from < len) == (i < count),
            frames@.len() == i,
            forall|k: int|
                0 <= k < frames@.len() ==> (#[trigger] frames@[k])@ == udp_frame_bytes(
                    session_id,
                    packet_id,
                    (k % 256) as u8,
                    (fragment_count(payload@) % 256) as u8,
                    addr_str@,
                    fragment(payload@, k),
                ),
        decreases len - from,
    {
        let to: usize = if len - from <= DATAGRAM_MAX_PAYLOAD {
            len
        } else {
            from + DATAGRAM_MAX_PAYLOAD
        };
        let chunk = copy_range(payload, from, to);
        assert(chunk@ =~= fragment(payload@, i as int));
        frames.push(
            build_single_udp_frame(
                session_id,
                packet_id,
                (i % 256) as u8,
                frag_total,
                addr_str,
                chunk.as_slice(),
            ),
        );
        i = i + 1;
        from = to;
    }
    frames
}

/// The fragments of one packet that have arrived.
#[verifier::ext_equal]
pub struct FragView {
    pub total: u8,
    pub received: u8,
    pub frags: Map<u8, Seq<u8>>,
    pub addr: Seq<char>,
    pub port: u16,
}

/// The fragments numbered below `n`, in the order of their numbers.
pub open spec fn joined(frags: Map<u8, Seq<u8>>, n: nat) -> Seq<u8>
    decreases n,
{
    if n == 0 {
        Seq::empty()
    } else {
        let before = joined(frags, (n - 1) as nat);
        if n <= 256 && frags.contains_key((n - 1) as u8) {
            before + frags[(n - 1) as u8]
        } else {
            before
        }
    }
}

/// A fragment arrives: the first one with a number is kept, every one counts.
pub open spec fn frag_step(b: FragView, id: u8, payload: Seq<u8>) -> FragView {
    FragView {
        received: (b.received + 1) as u8,
        frags: if b.frags.contains_key(id) {
            b.frags
        } else {
            b.frags.insert(id, payload)
        },
        ..b
    }
}

/// The packet that is put together, with where it goes: there is one once as many
/// fragments have come as it has.
pub open spec fn frag_result(b: FragView) -> Option<(Seq<u8>, Seq<char>, u16)> {
    if b.received >= b.total {
        Some((joined(b.frags, 256), b.addr, b.port))
    } else {
        None
    }
}

/// The view of what [`FragBuffer::insert`] gives.
pub open spec fn packet_view(r: Option<(Vec<u8>, String, u16)>) -> Option<
    (Seq<u8>, Seq<char>, u16),
> {
    match r {
        Some((data, addr, port)) => Some((data@, addr@, port)),
        None => None,
    }
}

/// The contents of the fragments that are held.
pub open spec fn frag_contents(m: Map<u8, Vec<u8>>) -> Map<u8, Seq<u8>> {
    m.map_values(|v: Vec<u8>| v@)
}

/// A packet that is being put together.
#[derive(Debug)]
pub struct FragBuffer {
    total: u8,
    received: u8,
    frags: HashMap<u8, Vec<u8>>,
    addr: String,
    port: u16,
}

impl FragBuffer {
    pub closed spec fn state(&self) -> FragView {
        FragView {
            total: self.total,
            received: self.received,
            frags: frag_contents(self.frags@),
            addr: self.addr@,
            port: self.port,
        }
    }

    pub fn new(total: u8, addr: String, port: u16) -> (r: Self)
        ensures
            r.state() == no_fragments(total, addr@, port),
    {
        let r = FragBuffer { total, received: 0, frags: HashMap::new(), addr, port };
        assert(frag_contents(r.frags@) =~= Map::<u8, Seq<u8>>::empty());
        r
    }

    /// All the fragments, in the order of their numbers.
    fn join(&self) -> (r: Vec<u8>)
        ensures
            r@ == joined(self.state().frags, 256),
    {
        let ghost held = self.state().frags;
        let mut out: Vec<u8> = Vec::new();
        let mut id: u16 = 0;
        while id < 256
            invariant
                id <= 256,
                held == frag_contents(self.frags@),
                out@ == joined(held, id as nat),
            decreases 256 - id,
        {
            let key: u8 = id as u8;
            match self.frags.get(&key) {
                Some(v) => {
                    assert(held.contains_key(key) && held[key] == v@);
                    push_slice(&mut out, v.as_slice());
                },
                None => {
                    assert(!held.contains_key(key));
                },
            }
            id = id + 1;
        }
        out
    }

    /// Takes a fragment. Once as many have come as the packet has, it is put together from
    /// those that are held.
    pub fn insert(&mut self, frag_id: u8, payload: Vec<u8>) -> (r: Option<(Vec<u8>, String, u16)>)
        requires
            old(self).state().received < u8::MAX,
        ensures
            final(self).state() == frag_step(old(self).state(), frag_id, payload@),
            packet_view(r) == frag_result(final(self).state()),
    {
        let ghost before = self.state();
        let ghost body = payload@;
        if !self.frags.contains_key(&frag_id) {
            self.frags.insert(frag_id, payload);
            assert(frag_contents(self.frags@) =~= before.frags.insert(frag_id, body));
        }
        self.received = self.received + 1;
        assert(self.state() =~= frag_step(before, frag_id, body));
        if self.received >= self.total {
            Some((self.join(), self.addr.clone(), self.port))
        } else {
            None
        }
    }
}

/// A packet of `total` fragments of which none has arrived.
pub open spec fn no_fragments(total: u8, addr: Seq<char>, port: u16) -> FragView {
    FragView { total, received: 0, frags: Map::empty(), addr, port }
}

/// What is held once the pieces that `order` names have arrived, one after the other.
pub open spec fn frag_run(b: FragView, pieces: Seq<Seq<u8>>, order: Seq<int>) -> FragView
    decreases order.len(),
{
    if order.len() == 0 {
        b
    } else {
        frag_step(frag_run(b, pieces, order.drop_last()), order.last() as u8, pieces[order.last()])
    }
}

/// Whether `order` names each of `n` pieces once.
pub open spec fn names_each(order: Seq<int>, n: nat) -> bool {
    &&& order.no_duplicates()
    &&& order.len() == n
    &&& forall|k: int| 0 <= k < order.len() ==> 0 <= #[trigger] order[k] < n
}

/// The pieces that `order` names.
spec fn pieces_named(pieces: Seq<Seq<u8>>, order: Seq<int>) -> Map<u8, Seq<u8>> {
    Map::new(|id: u8| order.contains(id as int), |id: u8| pieces[id as int])
}

/// An order of all pieces names every one of them.
proof fn lemma_every_piece_named(order: Seq<int>, n: nat)
    requires
        names_each(order, n),
    ensures
        forall|x: int| 0 <= x < n ==> #[trigger] order.contains(x),
{
    order.unique_seq_to_set();
    vstd::set_lib::lemma_int_range(0, n as int);
    let all = vstd::set_lib::set_int_range(0, n as int);
    assert forall|x: int| order.to_set().contains(x) implies all.contains(x) by {
        let m = choose|m: int| 0 <= m < order.len() && order[m] == x;
        assert(0 <= order[m] < n);
    }
    vstd::set_lib::lemma_subset_equality(order.to_set(), all);
    assert forall|x: int| 0 <= x < n implies #[trigger] order.contains(x) by {
        assert(all.contains(x));
        assert(order.to_set().contains(x));
    }
}

proof fn lemma_frag_run(
    total: u8,
    addr: Seq<char>,
    port: u16,
    pieces: Seq<Seq<u8>>,
    order: Seq<int>,
    k: nat,
)
    requires
        pieces.len() == total,
        names_each(order, total as nat),
        k <= total,
    ensures
        frag_run(no_fragments(total, addr, port), pieces, order.take(k as int)) == (FragView {
            total,
            received: k as u8,
            frags: pieces_named(pieces, order.take(k as int)),
            addr,
            port,
        }),
    decreases k,
{
    let b = no_fragments(total, addr, port);
    let now = order.take(k as int);
    let named = pieces_named(pieces, now);
    if k == 0 {
        assert(named =~= Map::<u8, Seq<u8>>::empty());
    } else {
        let j = (k - 1) as nat;
        lemma_frag_run(total, addr, port, pieces, order, j);
        let earlier = order.take(j as int);
        assert(now.drop_last() =~= earlier);
        let id = order[j as int];
        assert(now.last() == id);
        assert(id as u8 as int == id);
        assert(!earlier.contains(id)) by {
            if earlier.contains(id) {
                let m = choose|m: int| 0 <= m < j && earlier[m] == id;
                assert(order[m] == order[j as int]);
            }
        }
        let before = pieces_named(pieces, earlier);
        assert forall|x: u8| #[trigger] before.insert(id as u8, pieces[id]).contains_key(x)
            == named.contains_key(x) by {
            if now.contains(x as int) {
                let m = choose|m: int| 0 <= m < k && now[m] == x as int;
                if m < j {
                    assert(earlier[m] == x as int);
                }
            }
            if earlier.contains(x as int) {
                let m = choose|m: int| 0 <= m < j && earlier[m] == x as int;
                assert(now[m] == x as int);
            }
            if x as int == id {
                assert(now[j as int] == id);
            }
        }
        assert(before.insert(id as u8, pieces[id]) =~= named);
    }
}

proof fn lemma_pieces_join(pieces: Seq<Seq<u8>>, frags: Map<u8, Seq<u8>>, j: nat)
    requires
        pieces.len() <= 255,
        j <= 256,
        forall|id: u8| #[trigger] frags.contains_key(id) <==> id < pieces.len(),
        forall|id: u8| #[trigger] frags.contains_key(id) ==> frags[id] == pieces[id as int],
    ensures
        joined(frags, j) == pieces.take(
            if j <= pieces.len() {
                j as int
            } else {
                pieces.len() as int
            },
        ).flatten_alt(),
    decreases j,
{
    if j == 0 {
        assert(pieces.take(0) =~= Seq::<Seq<u8>>::empty());
    } else {
        let k = (j - 1) as nat;
        lemma_pieces_join(pieces, frags, k);
        assert(frags.contains_key(k as u8) <==> k < pieces.len());
        if k < pieces.len() {
            assert(pieces.take(j as int).drop_last() =~= pieces.take(k as int));
        }
    }
}

/// In whatever order the pieces of a packet are put in, as long as each of them is put in
/// once, nothing comes out before the last of them, and then the pieces come out one after
/// the other by their numbers.
pub proof fn lemma_pieces_in_any_order(
    total: u8,
    addr: Seq<char>,
    port: u16,
    pieces: Seq<Seq<u8>>,
    order: Seq<int>,
)
    requires
        total >= 1,
        pieces.len() == total,
        names_each(order, total as nat),
    ensures
        forall|k: int|
            0 <= k < total ==> frag_result(
                frag_run(no_fragments(total, addr, port), pieces, #[trigger] order.take(k)),
            ) is None,
        frag_result(frag_run(no_fragments(total, addr, port), pieces, order)) == Some(
            (pieces.flatten(), addr, port),
        ),
{
    assert forall|k: int| 0 <= k < total implies frag_result(
        frag_run(no_fragments(total, addr, port), pieces, #[trigger] order.take(k)),
    ) is None by {
        lemma_frag_run(total, addr, port, pieces, order, k as nat);
    }
    lemma_frag_run(total, addr, port, pieces, order, total as nat);
    assert(order.take(total as int) =~= order);
    lemma_every_piece_named(order, total as nat);
    let frags = pieces_named(pieces, order);
    assert forall|id: u8| #[trigger] frags.contains_key(id) <==> id < pieces.len() by {
        if order.contains(id as int) {
            let m = choose|m: int| 0 <= m < order.len() && order[m] == id as int;
            assert(0 <= order[m] < total);
        }
    }
    lemma_pieces_join(pieces, frags, 256);
    assert(pieces.take(pieces.len() as int) =~= pieces);
    pieces.lemma_flatten_and_flatten_alt_are_equivalent();
}

/// A packet to send on.
pub struct OutPacket {
    pub addr: String,
    pub port: u16,
    pub payload: Vec<u8>,
}

/// The mathematical counterpart of [`OutPacket`].
pub struct OutView {
    pub addr: Seq<char>,
    pub port: u16,
    pub payload: Seq<u8>,
}

impl View for OutPacket {
    type V = OutView;

    open spec fn view(&self) -> OutView {
        OutView { addr: self.addr@, port: self.port, payload: self.payload@ }
    }
}

/// The view of what an option holds.
pub open spec fn out_view(r: Option<OutPacket>) -> Option<OutView> {
    match r {
        Some(p) => Some(p@),
        None => None,
    }
}

/// The packet that a fragment belongs to: one that is being put together, or a new one.
pub open spec fn packet_for(table: Map<u16, FragView>, f: UdpFrameView) -> FragView {
    if table.contains_key(f.packet_id) {
        table[f.packet_id]
    } else {
        no_fragments(f.frag_total, f.addr, f.port)
    }
}

/// What a datagram does: one that is a whole packet is sent on, a fragment is held until
/// its packet is complete.
pub open spec fn relay_step(table: Map<u16, FragView>, f: UdpFrameView) -> (
    Option<OutView>,
    Map<u16, FragView>,
) {
    if f.frag_total <= 1 {
        (Some(OutView { addr: f.addr, port: f.port, payload: f.payload }), table)
    } else {
        let b = frag_step(packet_for(table, f), f.frag_id, f.payload);
        if b.received >= b.total {
            (
                Some(OutView { addr: b.addr, port: b.port, payload: joined(b.frags, 256) }),
                table.remove(f.packet_id),
            )
        } else {
            (None, table.insert(f.packet_id, b))
        }
    }
}

/// The packets that are being put together, as views.
pub open spec fn table_view(m: Map<u16, FragBuffer>) -> Map<u16, FragView> {
    m.map_values(|b: FragBuffer| b.state())
}

/// The packets of one session that are being put together.
pub struct FragTable {
    table: HashMap<u16, FragBuffer>,
}

impl FragTable {
    pub closed spec fn packets(&self) -> Map<u16, FragView> {
        table_view(self.table@)
    }

    /// No packet that is held is complete.
    pub open spec fn wf(&self) -> bool {
        forall|id: u16| #[trigger]
            self.packets().contains_key(id) ==> self.packets()[id].received
                < self.packets()[id].total
    }

    pub fn new() -> (r: Self)
        ensures
            r.wf(),
            r.packets() == Map::<u16, FragView>::empty(),
    {
        let r = FragTable { table: HashMap::new() };
        assert(r.packets() =~= Map::<u16, FragView>::empty());
        r
    }

    /// Takes a datagram, and gives back the packet to send on, where there is one.
    pub fn relay_frame(&mut self, frame: UdpFrame) -> (r: Option<OutPacket>)
        requires
            old(self).wf(),
        ensures
            final(self).wf(),
            (out_view(r), final(self).packets()) == relay_step(old(self).packets(), frame@),
    {
        let ghost before = self.packets();
        let ghost f = frame@;
        if frame.frag_total <= 1 {
            return Some(OutPacket { addr: frame.addr, port: frame.port, payload: frame.payload });
        }
        let id: u16 = frame.packet_id;
        let held = self.table.remove(&id);
        let ghost without = self.packets();
        assert(without =~= before.remove(id));
        let mut buf: FragBuffer = match held {
            Some(b) => {
                assert(before.contains_key(id) && before[id] == b.state());
                b
            },
            None => {
                assert(!before.contains_key(id));
                FragBuffer::new(frame.frag_total, frame.addr, frame.port)
            },
        };
        assert(buf.state() == packet_for(before, f));
        match buf.insert(frame.frag_id, frame.payload) {
            Some((payload, addr, port)) => {
                assert forall|k: u16| #[trigger] self.packets().contains_key(k) implies
                    self.packets()[k].received < self.packets()[k].total by {
                    assert(before.contains_key(k));
                }
                Some(OutPacket { addr, port, payload })
            },
            None => {
                let ghost b = buf.state();
                self.table.insert(id, buf);
                assert(self.packets() =~= before.insert(id, b));
                assert forall|k: u16| #[trigger] self.packets().contains_key(k) implies
                    self.packets()[k].received < self.packets()[k].total by {
                    if k != id {
                        assert(before.contains_key(k));
                    }
                }
                None
            },
        }
    }
}

/// Datagram `i` of those that carry a payload, as it is read.
pub open spec fn fragment_frame(
    session_id: u32,
    packet_id: u16,
    addr: Seq<char>,
    port: u16,
    payload: Seq<u8>,
    i: int,
) -> UdpFrameView {
    UdpFrameView {
        session_id,
        packet_id,
        frag_id: i as u8,
        frag_total: fragment_count(payload) as u8,
        addr,
        port,
        payload: fragment(payload, i),
    }
}

/// The packets that are sent on, and those that are still held, after a series of
/// datagrams.
pub open spec fn relay_run(table: Map<u16, FragView>, frames: Seq<UdpFrameView>) -> (
    Seq<OutView>,
    Map<u16, FragView>,
)
    decreases frames.len(),
{
    if frames.len() == 0 {
        (Seq::empty(), table)
    } else {
        let (sent, mid) = relay_run(table, frames.drop_last());
        let (out, end) = relay_step(mid, frames.last());
        (
            match out {
                Some(p) => sent.push(p),
                None => sent,
            },
            end,
        )
    }
}

/// The datagrams of a payload in the given order.
pub open spec fn shuffled(
    session_id: u32,
    packet_id: u16,
    addr: Seq<char>,
    port: u16,
    payload: Seq<u8>,
    order: Seq<int>,
) -> Seq<UdpFrameView> {
    Seq::new(
        order.len(),
        |k: int| fragment_frame(session_id, packet_id, addr, port, payload, order[k]),
    )
}

/// Whether `order` names every datagram of a payload once.
pub open spec fn each_once(order: Seq<int>, payload: Seq<u8>) -> bool {
    &&& order.no_duplicates()
    &&& order.len() == fragment_count(payload)
    &&& forall|k: int| 0 <= k < order.len() ==> 0 <= #[trigger] order[k] < fragment_count(payload)
}

/// The fragments that `order` names.
spec fn fragments_named(payload: Seq<u8>, order: Seq<int>) -> Map<u8, Seq<u8>> {
    Map::new(
        |id: u8| order.contains(id as int),
        |id: u8| fragment(payload, id as int),
    )
}

/// Where fragment `j` starts.
spec fn fragment_start(payload: Seq<u8>, j: int) -> int {
    if j * DATAGRAM_MAX_PAYLOAD <= payload.len() {
        j * DATAGRAM_MAX_PAYLOAD
    } else {
        payload.len() as int
    }
}

proof fn lemma_fragments_join(payload: Seq<u8>, frags: Map<u8, Seq<u8>>, j: nat)
    requires
        2 <= fragment_count(payload) <= 255,
        j <= 256,
        forall|id: u8| #[trigger] frags.contains_key(id) <==> id < fragment_count(payload),
        forall|id: u8| #[trigger] frags.contains_key(id) ==> frags[id] == fragment(payload, id as int),
    ensures
        joined(frags, j) == payload.take(fragment_start(payload, j as int)),
    decreases j,
{
    if j == 0 {
        assert(payload.take(0) =~= Seq::<u8>::empty());
    } else {
        let k = (j - 1) as nat;
        lemma_fragments_join(payload, frags, k);
        assert(frags.contains_key(k as u8) <==> k < fragment_count(payload));
        if k < fragment_count(payload) {
            assert(fragment_start(payload, k as int) == k * DATAGRAM_MAX_PAYLOAD);
            assert(payload.take(fragment_start(payload, k as int)) + fragment(payload, k as int)
                =~= payload.take(fragment_start(payload, j as int)));
        } else {
            assert(fragment_start(payload, k as int) == payload.len());
            assert(fragment_start(payload, j as int) == payload.len());
        }
    }
}

proof fn lemma_partial_reassembly(
    table: Map<u16, FragView>,
    session_id: u32,
    packet_id: u16,
    addr: Seq<char>,
    port: u16,
    payload: Seq<u8>,
    order: Seq<int>,
    k: nat,
)
    requires
        2 <= fragment_count(payload) <= 255,
        each_once(order, payload),
        !table.contains_key(packet_id),
        k < order.len(),
    ensures
        ({
            let frames = shuffled(session_id, packet_id, addr, port, payload, order);
            let (sent, held) = relay_run(table, frames.take(k as int));
            &&& sent.len() == 0
            &&& k == 0 ==> held == table
            &&& k > 0 ==> held == table.insert(
                packet_id,
                FragView {
                    total: fragment_count(payload) as u8,
                    received: k as u8,
                    frags: fragments_named(payload, order.take(k as int)),
                    addr,
                    port,
                },
            )
        }),
    decreases k,
{
    let frames = shuffled(session_id, packet_id, addr, port, payload, order);
    if k > 0 {
        let j = (k - 1) as nat;
        lemma_partial_reassembly(
            table,
            session_id,
            packet_id,
            addr,
            port,
            payload,
            order,
            j,
        );
        assert(frames.take(k as int).drop_last() =~= frames.take(j as int));
        let f = frames[j as int];
        assert(frames.take(k as int).last() == f);
        let (sent, held) = relay_run(table, frames.take(j as int));
        let id = order[j as int];
        let before = packet_for(held, f);
        let named = fragments_named(payload, order.take(j as int));
        assert(before.frags =~= named) by {
            assert(order.take(0) =~= Seq::<int>::empty());
        }
        assert(!order.take(j as int).contains(id)) by {
            if order.take(j as int).contains(id) {
                let m = choose|m: int| 0 <= m < j && order.take(j as int)[m] == id;
                assert(order[m] == order[j as int]);
            }
        }
        assert(id as u8 as int == id);
        let after = frag_step(before, f.frag_id, f.payload);
        let goal = fragments_named(payload, order.take(k as int));
        assert forall|x: u8| #[trigger] after.frags.contains_key(x) == goal.contains_key(x) by {
            if order.take(k as int).contains(x as int) {
                let m = choose|m: int| 0 <= m < k && order.take(k as int)[m] == x as int;
                if m < j {
                    assert(order.take(j as int)[m] == x as int);
                }
            }
            if order.take(j as int).contains(x as int) {
                let m = choose|m: int| 0 <= m < j && order.take(j as int)[m] == x as int;
                assert(order.take(k as int)[m] == x as int);
            }
            if x as int == id {
                assert(order.take(k as int)[j as int] == id);
            }
        }
        assert(after.frags =~= goal);
        let whole = FragView {
            total: fragment_count(payload) as u8,
            received: k as u8,
            frags: goal,
            addr,
            port,
        };
        assert(after =~= whole);
        assert(held.insert(packet_id, whole) =~= table.insert(packet_id, whole));
    }
}

/// However the datagrams of a payload are ordered on their way, as long as each of them
/// arrives once, the payload is sent on exactly once, as it was, and nothing is held back.
pub proof fn lemma_reassembly(
    table: Map<u16, FragView>,
    session_id: u32,
    packet_id: u16,
    addr: Seq<char>,
    port: u16,
    payload: Seq<u8>,
    order: Seq<int>,
)
    requires
        fragment_count(payload) <= 255,
        each_once(order, payload),
        !table.contains_key(packet_id),
    ensures
        relay_run(table, shuffled(session_id, packet_id, addr, port, payload, order)) == (
            seq![OutView { addr, port, payload }],
            table,
        ),
{
    let frames = shuffled(session_id, packet_id, addr, port, payload, order);
    let n = fragment_count(payload);
    let k = (n - 1) as nat;
    assert(frames.drop_last() =~= frames.take(k as int));
    if n == 1 {
        assert(frames.drop_last() =~= Seq::<UdpFrameView>::empty());
        assert(relay_run(table, frames.drop_last()) == (Seq::<OutView>::empty(), table));
        assert(order[0] == 0);
        assert(fragment(payload, 0) =~= payload);
        assert(relay_step(table, frames.last()) == (Some(OutView { addr, port, payload }), table));
        assert(Seq::<OutView>::empty().push(OutView { addr, port, payload }) =~= seq![
            OutView { addr, port, payload },
        ]);
    } else {
        lemma_partial_reassembly(table, session_id, packet_id, addr, port, payload, order, k);
        let (sent, held) = relay_run(table, frames.take(k as int));
        let f = frames.last();
        let id = order[k as int];
        let b = frag_step(packet_for(held, f), f.frag_id, f.payload);
        lemma_every_piece_named(order, n);
        assert forall|x: u8| #[trigger] b.frags.contains_key(x) <==> x < n by {
            if x < n {
                assert(order.contains(x as int));
                let m = choose|m: int| 0 <= m < order.len() && order[m] == x as int;
                if m < k {
                    assert(order.take(k as int)[m] == x as int);
                }
            }
            if order.take(k as int).contains(x as int) {
                let m = choose|m: int| 0 <= m < k && order.take(k as int)[m] == x as int;
                assert(order[m] == x as int);
            }
        }
        assert(!order.take(k as int).contains(id)) by {
            if order.take(k as int).contains(id) {
                let m = choose|m: int| 0 <= m < k && order.take(k as int)[m] == id;
                assert(order[m] == order[k as int]);
            }
        }
        lemma_fragments_join(payload, b.frags, 256);
        assert(fragment_start(payload, 256) == payload.len());
        assert(payload.take(payload.len() as int) =~= payload);
        assert(held.remove(packet_id) =~= table);
        assert(b.received == n && b.total == n);
        assert(relay_step(held, f) == (Some(OutView { addr, port, payload }), table));
        assert(sent.push(OutView { addr, port, payload }) =~= seq![
            OutView { addr, port, payload },
        ]);
    }
}

/// A datagram, byte by byte: the session in four bytes and the packet in two, high byte
/// first, the number of the fragment and how many there are, the length of the address, the
/// address, and the payload.
pub proof fn lemma_udp_frame_layout(
    session_id: u32,
    packet_id: u16,
    frag_id: u8,
    frag_total: u8,
    addr: Seq<char>,
    payload: Seq<u8>,
)
    ensures
        udp_frame_bytes(session_id, packet_id, frag_id, frag_total, addr, payload) == seq![
            (session_id / 0x100_0000) as u8,
            (session_id / 0x1_0000 % 256) as u8,
            (session_id / 256 % 256) as u8,
            (session_id % 256) as u8,
            (packet_id / 256) as u8,
            (packet_id % 256) as u8,
            frag_id,
            frag_total,
        ] + varint_bytes(encode_utf8(addr).len()) + encode_utf8(addr) + payload,
{
    crate::wire::lemma_be_quad(session_id as nat);
    crate::wire::lemma_be_pair(packet_id as nat);
    assert(udp_frame_bytes(session_id, packet_id, frag_id, frag_total, addr, payload) =~= seq![
        (session_id / 0x100_0000) as u8,
        (session_id / 0x1_0000 % 256) as u8,
        (session_id / 256 % 256) as u8,
        (session_id % 256) as u8,
        (packet_id / 256) as u8,
        (packet_id % 256) as u8,
        frag_id,
        frag_total,
    ] + varint_bytes(encode_utf8(addr).len()) + encode_utf8(addr) + payload);
}

/// A payload goes out in pieces of 1100 bytes, the last one being what is left: every piece
/// but the last is that long, the last is no longer and not empty unless the payload is, and
/// piece `i` starts at byte `1100 * i`.
pub proof fn lemma_fragment_sizes(payload: Seq<u8>, i: int)
    requires
        0 <= i < fragment_count(payload),
    ensures
        payload.len() <= 1100 ==> fragment_count(payload) == 1 && fragment(payload, 0) == payload,
        i < fragment_count(payload) - 1 ==> fragment(payload, i) == payload.subrange(
            1100 * i,
            1100 * i + 1100,
        ),
        i == fragment_count(payload) - 1 ==> fragment(payload, i) == payload.skip(1100 * i),
        i == fragment_count(payload) - 1 ==> fragment(payload, i).len() <= 1100,
        payload.len() > 0 ==> fragment(payload, i).len() > 0,
{
    if payload.len() <= 1100 {
        assert(fragment(payload, 0) =~= payload);
        assert(payload.skip(0) =~= payload);
    } else if i == fragment_count(payload) - 1 {
        assert(fragment(payload, i) =~= payload.skip(1100 * i));
    }
}

/// A datagram that is a whole packet is sent on at once, whatever is held; a fragment leaves
/// the other packets that are held as they are.
pub proof fn lemma_packets_do_not_mix(table: Map<u16, FragView>, f: UdpFrameView, other: u16)
    ensures
        f.frag_total <= 1 ==> relay_step(table, f) == (
            Some(OutView { addr: f.addr, port: f.port, payload: f.payload }),
            table,
        ),
        other != f.packet_id ==> {
            let after = relay_step(table, f).1;
            &&& after.contains_key(other) <==> table.contains_key(other)
            &&& table.contains_key(other) ==> after[other] == table[other]
        },
        f.frag_total > 1 && !table.contains_key(f.packet_id) ==> {
            let (out, after) = relay_step(table, f);
            &&& out is None
            &&& after.contains_key(f.packet_id)
            &&& after[f.packet_id].total == f.frag_total
            &&& after[f.packet_id].received == 1
            &&& after[f.packet_id].addr == f.addr
            &&& after[f.packet_id].port == f.port
            &&& after[f.packet_id].frags.contains_key(f.frag_id)
            &&& after[f.packet_id].frags[f.frag_id] == f.payload
        },
{
}

/// Of two fragments with one number the first is kept, and both count.
pub proof fn lemma_repeated_fragment(b: FragView, id: u8, first: Seq<u8>, second: Seq<u8>)
    requires
        !b.frags.contains_key(id),
        b.received < 254,
    ensures
        ({
            let after = frag_step(frag_step(b, id, first), id, second);
            &&& after.frags[id] == first
            &&& after.frags.dom() == b.frags.dom().insert(id)
            &&& after.received == b.received + 2
            &&& after.total == b.total && after.addr == b.addr && after.port == b.port
        }),
{
}

/// The datagrams that are refused, and for what: fewer than eight bytes, no length behind
/// them, an address of no bytes, and one that is cut off.
pub proof fn lemma_refused_datagrams(head: Seq<u8>, length: u8, rest: Seq<u8>)
    requires
        head.len() == 8,
        length < 64,
    ensures
        udp_frame_of(head) == Err::<UdpFrameView, FrameError>(FrameError::Length),
        udp_frame_of(head.drop_last()) == Err::<UdpFrameView, FrameError>(FrameError::TooShort),
        udp_frame_of(head + seq![0u8] + rest) == Err::<UdpFrameView, FrameError>(
            FrameError::AddrLen(0),
        ),
        0 < length && rest.len() < length ==> udp_frame_of(head + seq![length] + rest) == Err::<
            UdpFrameView,
            FrameError,
        >(FrameError::AddrTruncated),
{
    let a = head + seq![0u8] + rest;
    let b = head + seq![length] + rest;
    reveal_with_fuel(crate::wire::be_value, 2);
    assert(head.skip(8).len() == 0);
    assert(a.skip(8)[0] == 0 && b.skip(8)[0] == length);
    let x = a.skip(8).take(1).update(0, 0u8);
    let y = b.skip(8).take(1).update(0, length);
    assert(x.drop_last() =~= Seq::<u8>::empty());
    assert(y.drop_last() =~= Seq::<u8>::empty());
    assert(a.skip(8).take(1).update(0, (a.skip(8).take(1)[0] % 64) as u8) =~= x);
    assert(b.skip(8).take(1).update(0, (b.skip(8).take(1)[0] % 64) as u8) =~= y);
}

} // verus!
