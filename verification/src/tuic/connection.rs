//! What the server does about a client's commands.
use crate::address::{SockAddr, SockAddrView};
use crate::tuic::proto::{command_of, packet_header_bytes};
use crate::tuic::proto::{build_packet_header, Address, Command, PacketInfo};
use crate::tuic::proto::{AddressView, CommandView, PacketView};
use crate::wire::{copy_range, push_slice, same_bytes, Decoded, DecodedView};
use std::collections::HashMap;
use vstd::prelude::*;
use vstd::utf8::encode_utf8;

verus! {

broadcast use vstd::std_specs::hash::group_hash_axioms;

/// How a client sends its UDP packets.
#[derive(Debug, Clone, Copy, PartialEq, Eq, Structural)]
pub enum UdpMode {
    /// On streams.
    Quic,
    /// In datagrams.
    Native,
}

/// What authentication has come to.
#[derive(Debug, Clone, Copy, PartialEq, Eq, Structural)]
pub enum AuthOutcome {
    /// The client has been let in before; nothing changes.
    Duplicate,
    /// The client is let in.
    Accepted,
    /// The connection is closed.
    Rejected,
}

/// What the server remembers of a connection.
#[verifier::ext_equal]
pub struct ConnView {
    /// Who the client is, once that is known.
    pub user: Option<u128>,
    /// How the client sent its first UDP packet.
    pub mode: Option<UdpMode>,
    /// The UDP associations that are open.
    pub sessions: Set<u16>,
}

/// What is done about a UDP packet.
#[derive(Debug, Clone, Copy, PartialEq, Eq, Structural)]
pub enum PacketStep {
    /// It is a fragment, and dropped.
    Drop,
    /// Its address is looked up, and it is sent from the association that is open.
    Relay,
    /// The same, from an association that has to be opened first.
    Open,
}

/// The label and the context from which the token of a user is derived: the identifier's
/// 16 bytes and the password.
pub fn keying_inputs(users: &HashMap<u128, String>, uuid: u128) -> (r: Option<(Vec<u8>, Vec<u8>)>)
    ensures
        r is Some <==> users@.contains_key(uuid),
        r matches Some((label, context)) ==> label@ == crate::wire::be_bytes(uuid as nat, 16)
            && context@ == encode_utf8(users@[uuid]@),
{
    match users.get(&uuid) {
        None => None,
        Some(password) => {
            let mut label: Vec<u8> = Vec::new();
            crate::wire::push_u64(&mut label, (uuid / 0x1_0000_0000_0000_0000) as u64);
            crate::wire::push_u64(&mut label, (uuid % 0x1_0000_0000_0000_0000) as u64);
            proof {
                lemma_split_128(uuid);
                assert(label@ =~= crate::wire::be_bytes(uuid as nat, 16));
            }
            let b = password.as_str().as_bytes();
            let context = copy_range(b, 0, b.len());
            assert(context@ =~= b@);
            Some((label, context))
        },
    }
}

/// The digits of a 128-bit number are those of its halves.
proof fn lemma_split_128(v: u128)
    ensures
        crate::wire::be_bytes(v as nat, 16) == crate::wire::be_bytes(
            (v / 0x1_0000_0000_0000_0000) as nat,
            8,
        ) + crate::wire::be_bytes((v % 0x1_0000_0000_0000_0000) as nat, 8),
{
    crate::wire::lemma_pow256_small();
    crate::wire::lemma_be_bytes_split(v as nat, 8, 8);
    crate::wire::lemma_be_bytes_low(
        v as nat % 0x1_0000_0000_0000_0000,
        v as nat / 0x1_0000_0000_0000_0000,
        8,
    );
}

/// What a message on a one-way stream asks for.
#[derive(Debug, Clone, Copy, PartialEq, Eq, Structural)]
pub enum UniStep {
    Authenticate,
    Packet,
    Dissociate,
    /// Not a command for a one-way stream.
    Ignore,
}

/// Sorts a command on a one-way stream.
pub fn uni_step(cmd: &Command) -> (r: UniStep)
    ensures
        r == (match cmd@ {
            CommandView::Authenticate(_, _) => UniStep::Authenticate,
            CommandView::Packet(_) => UniStep::Packet,
            CommandView::Dissociate(_) => UniStep::Dissociate,
            _ => UniStep::Ignore,
        }),
{
    match cmd {
        Command::Authenticate(_) => UniStep::Authenticate,
        Command::Packet(_) => UniStep::Packet,
        Command::Dissociate(_) => UniStep::Dissociate,
        _ => UniStep::Ignore,
    }
}

/// Where a two-way stream is to be connected to; nothing for any other command.
pub fn bi_target(cmd: Command) -> (r: Option<Address>)
    ensures
        match r {
            Some(a) => cmd@ == CommandView::Connect(a@),
            None => !(cmd@ is Connect),
        },
{
    match cmd {
        Command::Connect(a) => Some(a),
        _ => None,
    }
}

/// What a datagram is.
pub enum DatagramStep {
    /// Nothing to do.
    Ignore,
    /// A packet and its payload.
    Packet(PacketInfo, Vec<u8>),
}

/// What a datagram is: only packets ask for something.
pub open spec fn datagram_packet(dg: Seq<u8>) -> Option<(PacketView, Seq<u8>)> {
    match command_of(dg, false) {
        DecodedView::Done(CommandView::Packet(p), n) => Some((p, dg.skip(n as int))),
        _ => None,
    }
}

/// Sorts a datagram. The payload of a packet is what follows its head.
pub fn datagram_step(dg: &[u8]) -> (r: DatagramStep)
    ensures
        match r {
            DatagramStep::Ignore => datagram_packet(dg@) is None,
            DatagramStep::Packet(p, payload) => datagram_packet(dg@) == Some((p@, payload@)),
        },
{
    proof {
        crate::tuic::proto::lemma_command_progress(dg@, false);
    }
    match Command::decode(dg, false) {
        Decoded::Done(Command::Packet(p), n) => {
            let payload = copy_range(dg, n, dg.len());
            assert(payload@ =~= dg@.skip(n as int));
            DatagramStep::Packet(p, payload)
        },
        _ => DatagramStep::Ignore,
    }
}

/// Who the client is, once that is known.
#[derive(Debug, Clone, Copy)]
pub struct Authenticated {
    pub uuid: Option<u128>,
}

impl Authenticated {
    /// Nobody yet.
    pub fn new() -> (r: Self)
        ensures
            r.uuid is None,
    {
        Authenticated { uuid: None }
    }

    pub fn set(&mut self, uuid: u128)
        ensures
            final(self).uuid == Some(uuid),
    {
        self.uuid = Some(uuid);
    }

    pub fn get(&self) -> (r: Option<u128>)
        ensures
            r == self.uuid,
    {
        self.uuid
    }

    pub fn is_authenticated(&self) -> (r: bool)
        ensures
            r == (self.uuid is Some),
    {
        self.uuid.is_some()
    }
}

/// The server's end of a connection.
pub struct ConnectionState {
    auth: Authenticated,
    mode: Option<UdpMode>,
    sessions: Vec<u16>,
}

impl ConnectionState {
    /// No association is listed twice.
    pub closed spec fn wf(&self) -> bool {
        self.sessions@.no_duplicates()
    }

    pub closed spec fn state(&self) -> ConnView {
        ConnView { user: self.auth.uuid, mode: self.mode, sessions: self.sessions@.to_set() }
    }

    pub fn new() -> (r: Self)
        ensures
            r.wf(),
            r.state() == (ConnView { user: None, mode: None, sessions: Set::empty() }),
    {
        let r = ConnectionState {
            auth: Authenticated::new(),
            mode: None,
            sessions: Vec::new(),
        };
        assert(r.sessions@.to_set() =~= Set::<u16>::empty());
        r
    }

    /// Whether the client has been let in.
    pub fn is_authenticated(&self) -> (r: bool)
        ensures
            r == (self.state().user is Some),
    {
        self.auth.is_authenticated()
    }

    /// Who the client is, once that is known.
    pub fn user(&self) -> (r: Option<u128>)
        ensures
            r == self.state().user,
    {
        self.auth.get()
    }

    /// Takes a client's token. `expected` is the token of the user that the client says it
    /// is, where there is such a user and a token could be derived.
    pub fn authenticate(&mut self, uuid: u128, token: &[u8; 32], expected: &Option<Vec<u8>>) -> (r:
        AuthOutcome)
        requires
            old(self).wf(),
        ensures
            final(self).wf(),
            r == (if old(self).state().user is Some {
                AuthOutcome::Duplicate
            } else if *expected matches Some(e) && e@ == token@ {
                AuthOutcome::Accepted
            } else {
                AuthOutcome::Rejected
            }),
            final(self).state() == (ConnView {
                user: if r == AuthOutcome::Accepted {
                    Some(uuid)
                } else {
                    old(self).state().user
                },
                ..old(self).state()
            }),
    {
        if self.auth.is_authenticated() {
            return AuthOutcome::Duplicate;
        }
        let valid = match expected {
            Some(e) => same_bytes(e.as_slice(), token.as_slice()),
            None => false,
        };
        if valid {
            self.auth.set(uuid);
            AuthOutcome::Accepted
        } else {
            AuthOutcome::Rejected
        }
    }

    fn find(&self, id: u16) -> (r: Option<usize>)
        ensures
            match r {
                Some(i) => i < self.sessions@.len() && self.sessions@[i as int] == id,
                None => !self.sessions@.contains(id),
            },
    {
        let mut i: usize = 0;
        while i < self.sessions.len()
            invariant
                i <= self.sessions@.len(),
                forall|k: int| 0 <= k < i ==> self.sessions@[k] != id,
            decreases self.sessions@.len() - i,
        {
            if self.sessions[i] == id {
                return Some(i);
            }
            i = i + 1;
        }
        None
    }

    /// Takes a UDP packet. The first one settles how packets go back; fragments are
    /// dropped.
    pub fn on_packet(&mut self, info: &PacketInfo, mode: UdpMode) -> (r: PacketStep)
        requires
            old(self).wf(),
        ensures
            final(self).wf(),
            final(self).state() == (ConnView {
                mode: match old(self).state().mode {
                    None => Some(mode),
                    Some(m) => Some(m),
                },
                ..old(self).state()
            }),
            r == (if info@.frag_total != 1 {
                PacketStep::Drop
            } else if old(self).state().sessions.contains(info@.assoc_id) {
                PacketStep::Relay
            } else {
                PacketStep::Open
            }),
    {
        if self.mode.is_none() {
            self.mode = Some(mode);
        }
        if info.frag_total != 1 {
            return PacketStep::Drop;
        }
        match self.find(info.assoc_id) {
            Some(i) => {
                assert(self.sessions@.to_set().contains(info.assoc_id)) by {
                    assert(self.sessions@[i as int] == info.assoc_id);
                }
                PacketStep::Relay
            },
            None => PacketStep::Open,
        }
    }

    /// Takes note of an association that was opened.
    pub fn session_opened(&mut self, id: u16)
        requires
            old(self).wf(),
        ensures
            final(self).wf(),
            final(self).state() == (ConnView {
                sessions: old(self).state().sessions.insert(id),
                ..old(self).state()
            }),
    {
        let ghost before = self.sessions@;
        match self.find(id) {
            Some(i) => {
                assert(before[i as int] == id);
                assert(before.to_set().insert(id) =~= before.to_set());
            },
            None => {
                self.sessions.push(id);
                proof {
                    let after = self.sessions@;
                    assert forall|x: u16| after.to_set().contains(x) == before.to_set().insert(
                        id,
                    ).contains(x) by {
                        if after.contains(x) {
                            let k = choose|k: int| 0 <= k < after.len() && after[k] == x;
                            if k < before.len() {
                                assert(before[k] == x);
                            }
                        }
                        if before.contains(x) {
                            let k = choose|k: int| 0 <= k < before.len() && before[k] == x;
                            assert(after[k] == x);
                        }
                        if x == id {
                            assert(after[before.len() as int] == id);
                        }
                    }
                    assert(after.to_set() =~= before.to_set().insert(id));
                }
            },
        }
    }

    /// Ends an association, and says whether it was open.
    pub fn dissociate(&mut self, id: u16) -> (r: bool)
        requires
            old(self).wf(),
        ensures
            final(self).wf(),
            r == old(self).state().sessions.contains(id),
            final(self).state() == (ConnView {
                sessions: old(self).state().sessions.remove(id),
                ..old(self).state()
            }),
    {
        let ghost before = self.sessions@;
        match self.find(id) {
            Some(i) => {
                let gone = self.sessions.remove(i);
                proof {
                    let after = self.sessions@;
                    assert(before.to_set().contains(id)) by {
                        assert(before[i as int] == id);
                    }
                    assert forall|x: u16| after.to_set().contains(x) == before.to_set().remove(
                        id,
                    ).contains(x) by {
                        if after.contains(x) {
                            let k = choose|k: int| 0 <= k < after.len() && after[k] == x;
                            if k < i {
                                assert(before[k] == x);
                            } else {
                                assert(before[k + 1] == x);
                            }
                        }
                        if before.contains(x) && x != id {
                            let k = choose|k: int| 0 <= k < before.len() && before[k] == x;
                            if k < i {
                                assert(after[k] == x);
                            } else {
                                assert(after[k - 1] == x);
                            }
                        }
                    }
                    assert(after.to_set() =~= before.to_set().remove(id));
                }
                true
            },
            None => {
                assert(!before.to_set().contains(id));
                assert(before.to_set().remove(id) =~= before.to_set());
                false
            },
        }
    }

    /// How packets go back to the client: in datagrams, unless its first packet came on a
    /// stream.
    pub fn reply_mode(&self) -> (r: UdpMode)
        ensures
            r == (if self.state().mode == Some(UdpMode::Quic) {
                UdpMode::Quic
            } else {
                UdpMode::Native
            }),
    {
        match self.mode {
            Some(UdpMode::Quic) => UdpMode::Quic,
            _ => UdpMode::Native,
        }
    }
}

/// An IPv6 address that stands for an IPv4 address.
pub open spec fn is_mapped(ip: Seq<u8>) -> bool {
    &&& ip.len() == 16
    &&& forall|i: int| 0 <= i < 10 ==> ip[i] == 0
    &&& ip[10] == 0xff && ip[11] == 0xff
}

/// The IPv4 address that an address stands for, where it does.
pub open spec fn unmapped(a: SockAddrView) -> SockAddrView {
    match a {
        SockAddrView::V6(ip, p) => if is_mapped(ip) {
            SockAddrView::V4(ip.subrange(12, 16), p)
        } else {
            a
        },
        SockAddrView::V4(_, _) => a,
    }
}

/// Takes an IPv6 address that stands for an IPv4 address as that one.
pub fn unmap(a: SockAddr) -> (r: SockAddr)
    ensures
        r@ == unmapped(a@),
{
    match a {
        SockAddr::V4(ip, p) => SockAddr::V4(ip, p),
        SockAddr::V6(ip, p) => {
            let mut i: usize = 0;
            while i < 10 && ip[i] == 0
                invariant
                    i <= 10,
                    forall|k: int| 0 <= k < i ==> ip@[k] == 0,
                decreases 10 - i,
            {
                i = i + 1;
            }
            if i == 10 && ip[10] == 0xff && ip[11] == 0xff {
                let v4: [u8; 4] = [ip[12], ip[13], ip[14], ip[15]];
                assert(v4@ =~= ip@.subrange(12, 16));
                SockAddr::V4(v4, p)
            } else {
                assert(!is_mapped(ip@)) by {
                    if i < 10 {
                        assert(ip@[i as int] != 0);
                    }
                }
                SockAddr::V6(ip, p)
            }
        },
    }
}

/// Where a UDP packet is sent from and to.
#[derive(Debug, Clone, Copy, PartialEq, Eq)]
pub enum Outgoing {
    /// From the IPv4 socket.
    V4(SockAddr),
    /// From the IPv6 socket.
    V6(SockAddr),
    /// Relaying to IPv6 addresses is switched off.
    Ipv6Disabled,
}

/// Chooses the socket for a UDP packet.
pub fn outgoing(addr: SockAddr, relay_ipv6: bool) -> (r: Outgoing)
    ensures
        match unmapped(addr@) {
            SockAddrView::V4(ip, p) => r matches Outgoing::V4(a) && a@ == SockAddrView::V4(ip, p),
            SockAddrView::V6(ip, p) => if relay_ipv6 {
                r matches Outgoing::V6(a) && a@ == SockAddrView::V6(ip, p)
            } else {
                r is Ipv6Disabled
            },
        },
{
    let a = unmap(addr);
    match a {
        SockAddr::V4(_, _) => Outgoing::V4(a),
        SockAddr::V6(_, _) => if relay_ipv6 {
            Outgoing::V6(a)
        } else {
            Outgoing::Ipv6Disabled
        },
    }
}

/// The head of a UDP packet that goes back to the client.
pub fn reply_header(assoc_id: u16, pkt_id: u16, from: SockAddr, payload_len: usize) -> (r: Vec<u8>)
    ensures
        r@ == packet_header_bytes(
            assoc_id,
            pkt_id,
            AddressView::Socket(from@),
            (payload_len % 0x1_0000) as u16,
        ),
{
    build_packet_header(
        assoc_id,
        pkt_id,
        &Address::SocketAddress(from),
        (payload_len % 0x1_0000) as u16,
    )
}

/// The datagram that carries a UDP packet back.
pub fn reply_datagram(header: &[u8], payload: &[u8]) -> (r: Vec<u8>)
    ensures
        r@ == header@ + payload@,
{
    let mut out: Vec<u8> = Vec::new();
    push_slice(&mut out, header);
    push_slice(&mut out, payload);
    assert(out@ =~= header@ + payload@);
    out
}

/// A UDP packet that goes back is read by the client as a whole packet with its payload.
pub proof fn lemma_reply_round_trip(assoc_id: u16, pkt_id: u16, from: SockAddrView, payload: Seq<u8>)
    requires
        payload.len() < 0x1_0000,
        match from {
            SockAddrView::V4(ip, _) => ip.len() == 4,
            SockAddrView::V6(ip, _) => ip.len() == 16,
        },
    ensures
        datagram_packet(
            packet_header_bytes(
                assoc_id,
                pkt_id,
                AddressView::Socket(from),
                payload.len() as u16,
            ) + payload,
        ) == Some(
            (
                PacketView {
                    assoc_id,
                    pkt_id,
                    frag_total: 1,
                    frag_id: 0,
                    size: payload.len() as u16,
                    addr: AddressView::Socket(from),
                },
                payload,
            ),
        ),
{
    let addr = AddressView::Socket(from);
    let h = packet_header_bytes(assoc_id, pkt_id, addr, payload.len() as u16);
    crate::tuic::proto::lemma_packet_round_trip(
        assoc_id,
        pkt_id,
        addr,
        payload.len() as u16,
        payload,
        false,
    );
    assert((h + payload).skip(h.len() as int) =~= payload);
}

/// A datagram with a packet is that packet and what follows its address; one with another
/// command asks for nothing.
pub proof fn lemma_datagram_payload(p: PacketView, payload: Seq<u8>, other: Seq<u8>)
    requires
        crate::tuic::proto::writable(p.addr),
        other.len() < 2 || other[0] != 5 || other[1] != 2,
    ensures
        datagram_packet(
            seq![
                0x05u8,
                0x02u8,
                (p.assoc_id / 256) as u8,
                (p.assoc_id % 256) as u8,
                (p.pkt_id / 256) as u8,
                (p.pkt_id % 256) as u8,
                p.frag_total,
                p.frag_id,
                (p.size / 256) as u8,
                (p.size % 256) as u8,
            ] + crate::tuic::proto::address_bytes(p.addr) + payload,
        ) == Some((p, payload)),
        datagram_packet(other) is None,
{
    let head = seq![
        0x05u8,
        0x02u8,
        (p.assoc_id / 256) as u8,
        (p.assoc_id % 256) as u8,
        (p.pkt_id / 256) as u8,
        (p.pkt_id % 256) as u8,
        p.frag_total,
        p.frag_id,
        (p.size / 256) as u8,
        (p.size % 256) as u8,
    ];
    let address = crate::tuic::proto::address_bytes(p.addr);
    let dg = head + address + payload;
    crate::tuic::proto::lemma_fragment_round_trip(p, payload, false);
    assert(dg.skip(10 + address.len() as int) =~= payload);
}

/// An IPv4 address behind ten zeros and two bytes `ff` is that IPv4 address; any other
/// address stays what it is.
pub proof fn lemma_unmapped(ip: Seq<u8>, head: Seq<u8>, port: u16)
    requires
        ip.len() == 4,
        head.len() == 12,
    ensures
        unmapped(SockAddrView::V4(ip, port)) == SockAddrView::V4(ip, port),
        head == seq![0u8, 0, 0, 0, 0, 0, 0, 0, 0, 0, 0xff, 0xff] ==> unmapped(
            SockAddrView::V6(head + ip, port),
        ) == SockAddrView::V4(ip, port),
        head != seq![0u8, 0, 0, 0, 0, 0, 0, 0, 0, 0, 0xff, 0xff] ==> unmapped(
            SockAddrView::V6(head + ip, port),
        ) == SockAddrView::V6(head + ip, port),
{
    let all = head + ip;
    let mapped = seq![0u8, 0, 0, 0, 0, 0, 0, 0, 0, 0, 0xff, 0xff];
    assert(all.subrange(12, 16) =~= ip);
    if is_mapped(all) {
        assert forall|i: int| 0 <= i < 12 implies head[i] == mapped[i] by {
            assert(all[i] == head[i]);
        }
        assert(head =~= mapped);
    }
}

} // verus!
