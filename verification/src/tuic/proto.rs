//! Addresses and commands on the wire.
use crate::address::{array16, array4, SockAddr, SockAddrView};
use crate::text;
use crate::wire::{be_bytes, be_value, Decoded, DecodedView};
use crate::wire::{copy_range, push_slice, push_u16, read_u128, read_u16};
use vstd::prelude::*;
use vstd::utf8::{decode_utf8, encode_utf8, valid_utf8};

verus! {

/// The protocol version.
pub const VERSION: u8 = 0x05;

pub const CMD_AUTHENTICATE: u8 = 0x00;

pub const CMD_CONNECT: u8 = 0x01;

pub const CMD_PACKET: u8 = 0x02;

pub const CMD_DISSOCIATE: u8 = 0x03;

pub const CMD_HEARTBEAT: u8 = 0x04;

/// Where something goes to or comes from.
#[derive(Debug, Clone, PartialEq, Eq)]
pub enum Address {
    /// The address has been given before.
    Absent,
    DomainAddress(String, u16),
    SocketAddress(SockAddr),
}

/// The mathematical counterpart of [`Address`].
pub enum AddressView {
    Absent,
    Domain(Seq<char>, u16),
    Socket(SockAddrView),
}

impl View for Address {
    type V = AddressView;

    open spec fn view(&self) -> AddressView {
        match *self {
            Address::Absent => AddressView::Absent,
            Address::DomainAddress(d, p) => AddressView::Domain(d@, p),
            Address::SocketAddress(a) => AddressView::Socket(a@),
        }
    }
}

/// Why bytes are no command.
#[derive(Debug, Clone, Copy, PartialEq, Eq, Structural)]
pub enum ProtoError {
    Version(u8),
    /// A command that is not known, or not one for this place.
    Command(u8),
    AddressType(u8),
    NotUtf8,
    Truncated,
}

/// What `buf` says of the address at its start.
pub open spec fn address_of(buf: Seq<u8>) -> DecodedView<AddressView, ProtoError> {
    if buf.len() < 1 {
        DecodedView::More(1)
    } else if buf[0] == 0xff {
        DecodedView::Done(AddressView::Absent, 1)
    } else if buf[0] == 0 {
        if buf.len() < 2 {
            DecodedView::More(2)
        } else {
            let end = 2 + buf[1] as int;
            if buf.len() < end + 2 {
                DecodedView::More((end + 2) as nat)
            } else if !valid_utf8(buf.subrange(2, end)) {
                DecodedView::Bad(ProtoError::NotUtf8)
            } else {
                DecodedView::Done(
                    AddressView::Domain(
                        decode_utf8(buf.subrange(2, end)),
                        be_value(buf.subrange(end, end + 2)) as u16,
                    ),
                    (end + 2) as nat,
                )
            }
        }
    } else if buf[0] == 1 {
        if buf.len() < 7 {
            DecodedView::More(7)
        } else {
            DecodedView::Done(
                AddressView::Socket(
                    SockAddrView::V4(buf.subrange(1, 5), be_value(buf.subrange(5, 7)) as u16),
                ),
                7,
            )
        }
    } else if buf[0] == 2 {
        if buf.len() < 19 {
            DecodedView::More(19)
        } else {
            DecodedView::Done(
                AddressView::Socket(
                    SockAddrView::V6(buf.subrange(1, 17), be_value(buf.subrange(17, 19)) as u16),
                ),
                19,
            )
        }
    } else {
        DecodedView::Bad(ProtoError::AddressType(buf[0]))
    }
}

/// An address on the wire. The length of a name is what fits of it in one byte.
pub open spec fn address_bytes(a: AddressView) -> Seq<u8> {
    match a {
        AddressView::Absent => seq![0xffu8],
        AddressView::Domain(d, p) => seq![0u8, (encode_utf8(d).len() % 256) as u8] + encode_utf8(d)
            + be_bytes(p as nat, 2),
        AddressView::Socket(SockAddrView::V4(ip, p)) => seq![1u8] + ip + be_bytes(p as nat, 2),
        AddressView::Socket(SockAddrView::V6(ip, p)) => seq![2u8] + ip + be_bytes(p as nat, 2),
    }
}

/// Whether an address is one that can be written: its parts have the right sizes.
pub open spec fn writable(a: AddressView) -> bool {
    match a {
        AddressView::Absent => true,
        AddressView::Domain(d, _) => encode_utf8(d).len() <= 255,
        AddressView::Socket(SockAddrView::V4(ip, _)) => ip.len() == 4,
        AddressView::Socket(SockAddrView::V6(ip, _)) => ip.len() == 16,
    }
}

impl Address {
    /// Reads the address at the start of `buf`.
    pub fn read_from(buf: &[u8]) -> (r: Decoded<Address, ProtoError>)
        ensures
            r@ == address_of(buf@),
    {
        let have: usize = buf.len();
        if have < 1 {
            return Decoded::More(1);
        }
        let kind: u8 = buf[0];
        if kind == 0xff {
            Decoded::Done(Address::Absent, 1)
        } else if kind == 0 {
            if have < 2 {
                return Decoded::More(2);
            }
            let end: usize = 2 + (buf[1] as usize);
            if have < end + 2 {
                return Decoded::More(end + 2);
            }
            match text::utf8_text(copy_range(buf, 2, end)) {
                None => Decoded::Bad(ProtoError::NotUtf8),
                Some(d) => Decoded::Done(Address::DomainAddress(d, read_u16(buf, end)), end + 2),
            }
        } else if kind == 1 {
            if have < 7 {
                return Decoded::More(7);
            }
            Decoded::Done(
                Address::SocketAddress(SockAddr::V4(array4(buf, 1), read_u16(buf, 5))),
                7,
            )
        } else if kind == 2 {
            if have < 19 {
                return Decoded::More(19);
            }
            Decoded::Done(
                Address::SocketAddress(SockAddr::V6(array16(buf, 1), read_u16(buf, 17))),
                19,
            )
        } else {
            Decoded::Bad(ProtoError::AddressType(kind))
        }
    }

    /// The address on the wire.
    pub fn to_bytes(&self) -> (r: Vec<u8>)
        ensures
            r@ == address_bytes(self@),
    {
        let mut v: Vec<u8> = Vec::new();
        match self {
            Address::Absent => {
                v.push(0xff);
            },
            Address::DomainAddress(d, p) => {
                let name = d.as_str().as_bytes();
                v.push(0);
                v.push((name.len() % 256) as u8);
                push_slice(&mut v, name);
                push_u16(&mut v, *p);
            },
            Address::SocketAddress(SockAddr::V4(ip, p)) => {
                v.push(1);
                push_slice(&mut v, ip.as_slice());
                push_u16(&mut v, *p);
            },
            Address::SocketAddress(SockAddr::V6(ip, p)) => {
                v.push(2);
                push_slice(&mut v, ip.as_slice());
                push_u16(&mut v, *p);
            },
        }
        assert(v@ =~= address_bytes(self@));
        v
    }
}

/// An address that was written is read back, whatever follows it.
pub proof fn lemma_address_round_trip(a: AddressView, rest: Seq<u8>)
    requires
        writable(a),
    ensures
        address_of(address_bytes(a) + rest) == DecodedView::<AddressView, ProtoError>::Done(
            a,
            address_bytes(a).len(),
        ),
{
    let b = address_bytes(a);
    let all = b + rest;
    crate::wire::lemma_pow256_small();
    match a {
        AddressView::Absent => {},
        AddressView::Domain(d, p) => {
            let e = encode_utf8(d);
            let end = 2 + e.len() as int;
            crate::wire::lemma_be_bytes_len(p as nat, 2);
            crate::wire::lemma_be_value_of_bytes(p as nat, 2);
            assert(all[1] == e.len());
            assert(all.subrange(2, end) =~= e);
            assert(all.subrange(end, end + 2) =~= be_bytes(p as nat, 2));
            vstd::utf8::encode_utf8_valid_utf8(d);
            vstd::utf8::encode_utf8_decode_utf8(d);
        },
        AddressView::Socket(SockAddrView::V4(ip, p)) => {
            crate::wire::lemma_be_bytes_len(p as nat, 2);
            crate::wire::lemma_be_value_of_bytes(p as nat, 2);
            assert(all.subrange(1, 5) =~= ip);
            assert(all.subrange(5, 7) =~= be_bytes(p as nat, 2));
        },
        AddressView::Socket(SockAddrView::V6(ip, p)) => {
            crate::wire::lemma_be_bytes_len(p as nat, 2);
            crate::wire::lemma_be_value_of_bytes(p as nat, 2);
            assert(all.subrange(1, 17) =~= ip);
            assert(all.subrange(17, 19) =~= be_bytes(p as nat, 2));
        },
    }
}

/// Who a client says it is.
#[derive(Debug, Clone, PartialEq, Eq)]
pub struct AuthInfo {
    /// The identifier as one big-endian number.
    pub uuid: u128,
    pub token: [u8; 32],
}

/// The head of a UDP packet.
#[derive(Debug, Clone, PartialEq, Eq)]
pub struct PacketInfo {
    pub assoc_id: u16,
    pub pkt_id: u16,
    pub frag_total: u8,
    pub frag_id: u8,
    pub size: u16,
    pub addr: Address,
}

/// A command.
#[derive(Debug, Clone, PartialEq, Eq)]
pub enum Command {
    Authenticate(AuthInfo),
    Connect(Address),
    Packet(PacketInfo),
    Dissociate(u16),
    Heartbeat,
}

/// The mathematical counterpart of [`PacketInfo`].
pub struct PacketView {
    pub assoc_id: u16,
    pub pkt_id: u16,
    pub frag_total: u8,
    pub frag_id: u8,
    pub size: u16,
    pub addr: AddressView,
}

/// The mathematical counterpart of [`Command`].
pub enum CommandView {
    Authenticate(u128, Seq<u8>),
    Connect(AddressView),
    Packet(PacketView),
    Dissociate(u16),
    Heartbeat,
}

impl View for PacketInfo {
    type V = PacketView;

    open spec fn view(&self) -> PacketView {
        PacketView {
            assoc_id: self.assoc_id,
            pkt_id: self.pkt_id,
            frag_total: self.frag_total,
            frag_id: self.frag_id,
            size: self.size,
            addr: self.addr@,
        }
    }
}

impl View for Command {
    type V = CommandView;

    open spec fn view(&self) -> CommandView {
        match *self {
            Command::Authenticate(a) => CommandView::Authenticate(a.uuid, a.token@),
            Command::Connect(a) => CommandView::Connect(a@),
            Command::Packet(p) => CommandView::Packet(p@),
            Command::Dissociate(id) => CommandView::Dissociate(id),
            Command::Heartbeat => CommandView::Heartbeat,
        }
    }
}

/// What an address behind `at` other bytes comes to, as part of something larger.
pub open spec fn with_address(
    buf: Seq<u8>,
    at: int,
    make: spec_fn(AddressView) -> CommandView,
) -> DecodedView<CommandView, ProtoError> {
    match address_of(buf.skip(at)) {
        DecodedView::More(n) => DecodedView::More((at + n) as nat),
        DecodedView::Bad(e) => DecodedView::Bad(e),
        DecodedView::Done(a, n) => DecodedView::Done(make(a), (at + n) as nat),
    }
}

/// The head of a packet in `buf`, with the address that follows it.
pub open spec fn packet_with(buf: Seq<u8>, addr: AddressView) -> CommandView {
    CommandView::Packet(
        PacketView {
            assoc_id: be_value(buf.subrange(2, 4)) as u16,
            pkt_id: be_value(buf.subrange(4, 6)) as u16,
            frag_total: buf[6],
            frag_id: buf[7],
            size: be_value(buf.subrange(8, 10)) as u16,
            addr,
        },
    )
}

/// What `buf` says of the command at its start. A connection can be asked for only on a
/// stream.
pub open spec fn command_of(buf: Seq<u8>, on_stream: bool) -> DecodedView<
    CommandView,
    ProtoError,
> {
    if buf.len() < 2 {
        DecodedView::More(2)
    } else if buf[0] != VERSION {
        DecodedView::Bad(ProtoError::Version(buf[0]))
    } else if buf[1] == CMD_AUTHENTICATE {
        if buf.len() < 50 {
            DecodedView::More(50)
        } else {
            DecodedView::Done(
                CommandView::Authenticate(
                    be_value(buf.subrange(2, 18)) as u128,
                    buf.subrange(18, 50),
                ),
                50,
            )
        }
    } else if buf[1] == CMD_CONNECT && on_stream {
        with_address(buf, 2, |a: AddressView| CommandView::Connect(a))
    } else if buf[1] == CMD_PACKET {
        if buf.len() < 10 {
            DecodedView::More(10)
        } else {
            with_address(buf, 10, |a: AddressView| packet_with(buf, a))
        }
    } else if buf[1] == CMD_DISSOCIATE {
        if buf.len() < 4 {
            DecodedView::More(4)
        } else {
            DecodedView::Done(
                CommandView::Dissociate(be_value(buf.subrange(2, 4)) as u16),
                4,
            )
        }
    } else if buf[1] == CMD_HEARTBEAT {
        DecodedView::Done(CommandView::Heartbeat, 2)
    } else {
        DecodedView::Bad(ProtoError::Command(buf[1]))
    }
}

/// The 32 bytes at `at`.
fn array32(b: &[u8], at: usize) -> (r: [u8; 32])
    requires
        at + 32 <= b@.len(),
    ensures
        r@ == b@.subrange(at as int, at + 32),
{
    let n: usize = b.len();
    let mut r: [u8; 32] = [0; 32];
    let mut i: usize = 0;
    while i < 32
        invariant
            i <= 32,
            at + 32 <= b@.len() <= usize::MAX,
            forall|k: int| 0 <= k < i ==> r@[k] == b@[at + k],
        decreases 32 - i,
    {
        r[i] = b[at + i];
        i = i + 1;
    }
    assert(r@ =~= b@.subrange(at as int, at + 32));
    r
}

/// The view of a command or the reason that there is none.
pub open spec fn command_view(r: Result<Command, ProtoError>) -> Result<CommandView, ProtoError> {
    match r {
        Ok(c) => Ok(c@),
        Err(e) => Err(e),
    }
}

/// A command all of which is there.
pub open spec fn whole_command(buf: Seq<u8>) -> Result<CommandView, ProtoError> {
    match command_of(buf, false) {
        DecodedView::Done(c, _) => Ok(c),
        DecodedView::More(_) => Err(ProtoError::Truncated),
        DecodedView::Bad(e) => Err(e),
    }
}

impl Command {
    /// Reads the command at the start of `buf`.
    pub fn decode(buf: &[u8], on_stream: bool) -> (r: Decoded<Command, ProtoError>)
        ensures
            r@ == command_of(buf@, on_stream),
    {
        let have: usize = buf.len();
        if have < 2 {
            return Decoded::More(2);
        }
        if buf[0] != VERSION {
            return Decoded::Bad(ProtoError::Version(buf[0]));
        }
        let cmd: u8 = buf[1];
        if cmd == CMD_AUTHENTICATE {
            if have < 50 {
                return Decoded::More(50);
            }
            Decoded::Done(
                Command::Authenticate(
                    AuthInfo { uuid: read_u128(buf, 2), token: array32(buf, 18) },
                ),
                50,
            )
        } else if cmd == CMD_CONNECT && on_stream {
            let rest = copy_range(buf, 2, have);
            assert(rest@ =~= buf@.skip(2));
            match Address::read_from(rest.as_slice()) {
                Decoded::More(n) => Decoded::More(2 + n),
                Decoded::Bad(e) => Decoded::Bad(e),
                Decoded::Done(a, n) => Decoded::Done(Command::Connect(a), 2 + n),
            }
        } else if cmd == CMD_PACKET {
            if have < 10 {
                return Decoded::More(10);
            }
            let rest = copy_range(buf, 10, have);
            assert(rest@ =~= buf@.skip(10));
            match Address::read_from(rest.as_slice()) {
                Decoded::More(n) => Decoded::More(10 + n),
                Decoded::Bad(e) => Decoded::Bad(e),
                Decoded::Done(addr, n) => Decoded::Done(
                    Command::Packet(
                        PacketInfo {
                            assoc_id: read_u16(buf, 2),
                            pkt_id: read_u16(buf, 4),
                            frag_total: buf[6],
                            frag_id: buf[7],
                            size: read_u16(buf, 8),
                            addr,
                        },
                    ),
                    10 + n,
                ),
            }
        } else if cmd == CMD_DISSOCIATE {
            if have < 4 {
                return Decoded::More(4);
            }
            Decoded::Done(Command::Dissociate(read_u16(buf, 2)), 4)
        } else if cmd == CMD_HEARTBEAT {
            Decoded::Done(Command::Heartbeat, 2)
        } else {
            Decoded::Bad(ProtoError::Command(cmd))
        }
    }

    /// Reads the command in a datagram.
    pub fn read_from_datagram(data: &[u8]) -> (r: Result<Command, ProtoError>)
        ensures
            command_view(r) == whole_command(data@),
    {
        match Command::decode(data, false) {
            Decoded::Done(c, _) => Ok(c),
            Decoded::More(_) => Err(ProtoError::Truncated),
            Decoded::Bad(e) => Err(e),
        }
    }

    /// Whether two bytes can be the start of a command.
    pub fn is_tuic_prefix(prefix: [u8; 2]) -> (r: bool)
        ensures
            r == (prefix@[0] == VERSION && prefix@[1] <= CMD_HEARTBEAT),
    {
        prefix[0] == VERSION && prefix[1] <= CMD_HEARTBEAT
    }
}

/// The head of a whole packet for a client.
pub open spec fn packet_header_bytes(
    assoc_id: u16,
    pkt_id: u16,
    addr: AddressView,
    payload_len: u16,
) -> Seq<u8> {
    seq![VERSION, CMD_PACKET] + be_bytes(assoc_id as nat, 2) + be_bytes(pkt_id as nat, 2) + seq![
        1u8,
        0u8,
    ] + be_bytes(payload_len as nat, 2) + address_bytes(addr)
}

/// Builds the head of a whole packet for a client.
pub fn build_packet_header(assoc_id: u16, pkt_id: u16, addr: &Address, payload_len: u16) -> (r: Vec<
    u8,
>)
    ensures
        r@ == packet_header_bytes(assoc_id, pkt_id, addr@, payload_len),
{
    let mut buf: Vec<u8> = Vec::new();
    buf.push(VERSION);
    buf.push(CMD_PACKET);
    push_u16(&mut buf, assoc_id);
    push_u16(&mut buf, pkt_id);
    buf.push(1);
    buf.push(0);
    push_u16(&mut buf, payload_len);
    let a = addr.to_bytes();
    push_slice(&mut buf, a.as_slice());
    assert(buf@ =~= packet_header_bytes(assoc_id, pkt_id, addr@, payload_len));
    buf
}

/// A packet for a client is read back, in a datagram as on a stream, and its payload
/// starts where its head ends.
pub proof fn lemma_packet_round_trip(
    assoc_id: u16,
    pkt_id: u16,
    addr: AddressView,
    payload_len: u16,
    payload: Seq<u8>,
    on_stream: bool,
)
    requires
        writable(addr),
    ensures
        command_of(
            packet_header_bytes(assoc_id, pkt_id, addr, payload_len) + payload,
            on_stream,
        ) == DecodedView::<CommandView, ProtoError>::Done(
            CommandView::Packet(
                PacketView {
                    assoc_id,
                    pkt_id,
                    frag_total: 1,
                    frag_id: 0,
                    size: payload_len,
                    addr,
                },
            ),
            packet_header_bytes(assoc_id, pkt_id, addr, payload_len).len(),
        ),
{
    let h = packet_header_bytes(assoc_id, pkt_id, addr, payload_len);
    let all = h + payload;
    crate::wire::lemma_pow256_small();
    crate::wire::lemma_be_bytes_len(assoc_id as nat, 2);
    crate::wire::lemma_be_bytes_len(pkt_id as nat, 2);
    crate::wire::lemma_be_bytes_len(payload_len as nat, 2);
    crate::wire::lemma_be_value_of_bytes(assoc_id as nat, 2);
    crate::wire::lemma_be_value_of_bytes(pkt_id as nat, 2);
    crate::wire::lemma_be_value_of_bytes(payload_len as nat, 2);
    assert(all.subrange(2, 4) =~= be_bytes(assoc_id as nat, 2));
    assert(all.subrange(4, 6) =~= be_bytes(pkt_id as nat, 2));
    assert(all.subrange(8, 10) =~= be_bytes(payload_len as nat, 2));
    assert(all.skip(10) =~= address_bytes(addr) + payload);
    lemma_address_round_trip(addr, payload);
}

/// A command that is read takes no more than there is; one that is not asks for more.
pub proof fn lemma_command_progress(buf: Seq<u8>, on_stream: bool)
    ensures
        command_of(buf, on_stream) matches DecodedView::More(n) ==> n > buf.len(),
        command_of(buf, on_stream) matches DecodedView::Done(_, n) ==> 2 <= n <= buf.len(),
{
}

/// Every kind of address, byte by byte: `ff` for none, `00` and a length for a name, `01`
/// for four bytes, `02` for sixteen, and the port with its high byte first. Read back,
/// with anything behind it, each is what it was and ends where it ended.
pub proof fn lemma_address_layout(
    name: Seq<char>,
    ip4: Seq<u8>,
    ip6: Seq<u8>,
    port: u16,
    rest: Seq<u8>,
)
    requires
        encode_utf8(name).len() <= 255,
        ip4.len() == 4,
        ip6.len() == 16,
    ensures
        ({
            let p = seq![(port / 256) as u8, (port % 256) as u8];
            let n = encode_utf8(name).len();
            let domain = seq![0x00u8, n as u8] + encode_utf8(name) + p;
            let v4 = seq![0x01u8] + ip4 + p;
            let v6 = seq![0x02u8] + ip6 + p;
            &&& address_bytes(AddressView::Absent) == seq![0xffu8]
            &&& address_bytes(AddressView::Domain(name, port)) == domain
            &&& address_bytes(AddressView::Socket(SockAddrView::V4(ip4, port))) == v4
            &&& address_bytes(AddressView::Socket(SockAddrView::V6(ip6, port))) == v6
            &&& address_of(seq![0xffu8] + rest) == DecodedView::<AddressView, ProtoError>::Done(
                AddressView::Absent,
                1,
            )
            &&& address_of(domain + rest) == DecodedView::<AddressView, ProtoError>::Done(
                AddressView::Domain(name, port),
                n + 4,
            )
            &&& address_of(v4 + rest) == DecodedView::<AddressView, ProtoError>::Done(
                AddressView::Socket(SockAddrView::V4(ip4, port)),
                7,
            )
            &&& address_of(v6 + rest) == DecodedView::<AddressView, ProtoError>::Done(
                AddressView::Socket(SockAddrView::V6(ip6, port)),
                19,
            )
        }),
{
    crate::wire::lemma_be_pair(port as nat);
    lemma_address_round_trip(AddressView::Absent, rest);
    lemma_address_round_trip(AddressView::Domain(name, port), rest);
    lemma_address_round_trip(AddressView::Socket(SockAddrView::V4(ip4, port)), rest);
    lemma_address_round_trip(AddressView::Socket(SockAddrView::V6(ip6, port)), rest);
}

/// An address of which bytes are missing is waited for, and no further than to its end.
pub proof fn lemma_address_waits(a: AddressView, k: int)
    requires
        writable(a),
        0 <= k < address_bytes(a).len(),
    ensures
        address_of(address_bytes(a).take(k)) matches DecodedView::More(n) && k < n
            <= address_bytes(a).len(),
{
    match a {
        AddressView::Absent => {},
        AddressView::Domain(_, p) => {
            crate::wire::lemma_be_pair(p as nat);
        },
        AddressView::Socket(SockAddrView::V4(_, p)) => {
            crate::wire::lemma_be_pair(p as nat);
        },
        AddressView::Socket(SockAddrView::V6(_, p)) => {
            crate::wire::lemma_be_pair(p as nat);
        },
    }
}

/// A connection that is asked for on a stream is one to the address that was written, of
/// whatever kind, and takes as many bytes as were written. In a datagram none can be
/// asked for.
pub proof fn lemma_connect_round_trip(addr: AddressView, rest: Seq<u8>)
    requires
        writable(addr),
    ensures
        command_of(seq![0x05u8, 0x01u8] + address_bytes(addr) + rest, true) == DecodedView::<
            CommandView,
            ProtoError,
        >::Done(CommandView::Connect(addr), 2 + address_bytes(addr).len()),
        command_of(seq![0x05u8, 0x01u8] + address_bytes(addr) + rest, false) == DecodedView::<
            CommandView,
            ProtoError,
        >::Bad(ProtoError::Command(0x01)),
{
    let all = seq![0x05u8, 0x01u8] + address_bytes(addr) + rest;
    assert(all.skip(2) =~= address_bytes(addr) + rest);
    lemma_address_round_trip(addr, rest);
}

/// A client that says who it is is heard, in a datagram as on a stream: the identifier is
/// the first sixteen bytes, the token the thirty-two behind them.
pub proof fn lemma_authenticate_round_trip(
    uuid: u128,
    token: Seq<u8>,
    rest: Seq<u8>,
    on_stream: bool,
)
    requires
        token.len() == 32,
    ensures
        command_of(
            seq![0x05u8, 0x00u8] + be_bytes(uuid as nat, 16) + token + rest,
            on_stream,
        ) == DecodedView::<CommandView, ProtoError>::Done(
            CommandView::Authenticate(uuid, token),
            50,
        ),
{
    let all = seq![0x05u8, 0x00u8] + be_bytes(uuid as nat, 16) + token + rest;
    crate::wire::lemma_be_bytes_len(uuid as nat, 16);
    assert(uuid < crate::wire::pow256(16)) by {
        reveal_with_fuel(crate::wire::pow256, 17);
    }
    crate::wire::lemma_be_value_of_bytes(uuid as nat, 16);
    assert(all.subrange(2, 18) =~= be_bytes(uuid as nat, 16));
    assert(all.subrange(18, 50) =~= token);
}

/// The end of an association names it with its high byte first; a heartbeat is two bytes.
pub proof fn lemma_short_commands(id: u16, rest: Seq<u8>, on_stream: bool)
    ensures
        command_of(
            seq![0x05u8, 0x03u8, (id / 256) as u8, (id % 256) as u8] + rest,
            on_stream,
        ) == DecodedView::<CommandView, ProtoError>::Done(CommandView::Dissociate(id), 4),
        command_of(seq![0x05u8, 0x04u8] + rest, on_stream) == DecodedView::<
            CommandView,
            ProtoError,
        >::Done(CommandView::Heartbeat, 2),
{
    let all = seq![0x05u8, 0x03u8, (id / 256) as u8, (id % 256) as u8] + rest;
    crate::wire::lemma_be_pair(id as nat);
    assert(all.subrange(2, 4) =~= seq![(id / 256) as u8, (id % 256) as u8]);
}

/// A packet that a client sends, whole or one of several fragments, is read as it was
/// written, in a datagram as on a stream.
pub proof fn lemma_fragment_round_trip(p: PacketView, payload: Seq<u8>, on_stream: bool)
    requires
        writable(p.addr),
    ensures
        command_of(
            seq![
                0x05u8,
                0x02u8,
                (p.assoc_id / 256) as u8,
                (p.assoc_id % 256) as u8,
                (p.pkt_id / 256) as u8,
                (p.pkt_id % 256) as u8,
                p.frag_total,
                p.frag_id,
                (p.size / 256) as u8,
                (p.size % 256) as u8,
            ] + address_bytes(p.addr) + payload,
            on_stream,
        ) == DecodedView::<CommandView, ProtoError>::Done(
            CommandView::Packet(p),
            10 + address_bytes(p.addr).len(),
        ),
{
    let head = seq![
        0x05u8,
        0x02u8,
        (p.assoc_id / 256) as u8,
        (p.assoc_id % 256) as u8,
        (p.pkt_id / 256) as u8,
        (p.pkt_id % 256) as u8,
        p.frag_total,
        p.frag_id,
        (p.size / 256) as u8,
        (p.size % 256) as u8,
    ];
    let all = head + address_bytes(p.addr) + payload;
    crate::wire::lemma_be_pair(p.assoc_id as nat);
    crate::wire::lemma_be_pair(p.pkt_id as nat);
    crate::wire::lemma_be_pair(p.size as nat);
    assert(all.subrange(2, 4) =~= seq![(p.assoc_id / 256) as u8, (p.assoc_id % 256) as u8]);
    assert(all.subrange(4, 6) =~= seq![(p.pkt_id / 256) as u8, (p.pkt_id % 256) as u8]);
    assert(all.subrange(8, 10) =~= seq![(p.size / 256) as u8, (p.size % 256) as u8]);
    assert(all.skip(10) =~= address_bytes(p.addr) + payload);
    lemma_address_round_trip(p.addr, payload);
}

/// A whole packet for a client, byte by byte: it is fragment 0 of 1.
pub proof fn lemma_packet_header_layout(
    assoc_id: u16,
    pkt_id: u16,
    addr: AddressView,
    payload_len: u16,
)
    ensures
        packet_header_bytes(assoc_id, pkt_id, addr, payload_len) == seq![
            0x05u8,
            0x02u8,
            (assoc_id / 256) as u8,
            (assoc_id % 256) as u8,
            (pkt_id / 256) as u8,
            (pkt_id % 256) as u8,
            1u8,
            0u8,
            (payload_len / 256) as u8,
            (payload_len % 256) as u8,
        ] + address_bytes(addr),
{
    crate::wire::lemma_be_pair(assoc_id as nat);
    crate::wire::lemma_be_pair(pkt_id as nat);
    crate::wire::lemma_be_pair(payload_len as nat);
}

/// Bytes of another version, of a command past the heartbeat, or with an address of a kind
/// that there is none of, are no command, and the byte at fault is named.
pub proof fn lemma_refused_commands(buf: Seq<u8>, on_stream: bool)
    requires
        buf.len() >= 2,
    ensures
        buf[0] != 5 ==> command_of(buf, on_stream) == DecodedView::<CommandView, ProtoError>::Bad(
            ProtoError::Version(buf[0]),
        ),
        buf[0] == 5 && buf[1] > 4 ==> command_of(buf, on_stream) == DecodedView::<
            CommandView,
            ProtoError,
        >::Bad(ProtoError::Command(buf[1])),
        buf[0] == 5 && buf[1] == 1 && buf.len() > 2 && 2 < buf[2] < 0xff ==> command_of(buf, true)
            == DecodedView::<CommandView, ProtoError>::Bad(ProtoError::AddressType(buf[2])),
        buf[0] == 5 && buf[1] == 2 && buf.len() > 10 && 2 < buf[10] < 0xff ==> command_of(
            buf,
            on_stream,
        ) == DecodedView::<CommandView, ProtoError>::Bad(ProtoError::AddressType(buf[10])),
{
}

/// A datagram holds a whole command or none: one that is cut off is refused as that, one
/// that asks for a connection is refused by its number.
pub proof fn lemma_whole_commands(p: PacketView, payload: Seq<u8>, buf: Seq<u8>)
    requires
        writable(p.addr),
    ensures
        buf.len() < 2 ==> whole_command(buf) == Err::<CommandView, ProtoError>(
            ProtoError::Truncated,
        ),
        buf.len() >= 2 && buf[0] == 5 && buf[1] == 1 ==> whole_command(buf) == Err::<
            CommandView,
            ProtoError,
        >(ProtoError::Command(1)),
        2 <= buf.len() < 50 && buf[0] == 5 && buf[1] == 0 ==> whole_command(buf) == Err::<
            CommandView,
            ProtoError,
        >(ProtoError::Truncated),
        2 <= buf.len() < 10 && buf[0] == 5 && buf[1] == 2 ==> whole_command(buf) == Err::<
            CommandView,
            ProtoError,
        >(ProtoError::Truncated),
        whole_command(
            seq![
                0x05u8,
                0x02u8,
                (p.assoc_id / 256) as u8,
                (p.assoc_id % 256) as u8,
                (p.pkt_id / 256) as u8,
                (p.pkt_id % 256) as u8,
                p.frag_total,
                p.frag_id,
                (p.size / 256) as u8,
                (p.size % 256) as u8,
            ] + address_bytes(p.addr) + payload,
        ) == Ok::<CommandView, ProtoError>(CommandView::Packet(p)),
        whole_command(seq![0x05u8, 0x04u8] + payload) == Ok::<CommandView, ProtoError>(
            CommandView::Heartbeat,
        ),
{
    lemma_fragment_round_trip(p, payload, false);
    lemma_short_commands(0, payload, false);
}

} // verus!
