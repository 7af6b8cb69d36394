//! Peers, and the addresses that each may use inside the tunnel.
use crate::address::{array16, array4, SockAddr, SockAddrView};
use crate::wire::same_bytes;
use ip_network::IpNetwork;
use vstd::prelude::*;

verus! {

/// An IP address.
#[derive(Debug, Clone, Copy, PartialEq, Eq)]
pub enum Ip {
    V4([u8; 4]),
    V6([u8; 16]),
}

impl View for Ip {
    type V = Seq<u8>;

    /// Its bytes: four or sixteen.
    open spec fn view(&self) -> Seq<u8> {
        match *self {
            Ip::V4(a) => a@,
            Ip::V6(a) => a@,
        }
    }
}

/// A range of addresses: those that share the first `prefix` bits of `address`.
#[derive(Debug, Clone, Copy, PartialEq, Eq)]
pub struct Network {
    pub address: Ip,
    pub prefix: u8,
}

impl View for Network {
    type V = (Seq<u8>, u8);

    open spec fn view(&self) -> (Seq<u8>, u8) {
        (self.address@, self.prefix)
    }
}

/// The `k`-th bit of an address, counted from the most significant one.
pub open spec fn bit(a: Seq<u8>, k: int) -> bool {
    (a[k / 8] / power_of_two((7 - k % 8) as nat)) % 2 == 1
}

/// Two to the power of `n`, for `n` up to seven.
pub open spec fn power_of_two(n: nat) -> u8 {
    if n == 0 {
        1
    } else if n == 1 {
        2
    } else if n == 2 {
        4
    } else if n == 3 {
        8
    } else if n == 4 {
        16
    } else if n == 5 {
        32
    } else if n == 6 {
        64
    } else {
        128
    }
}

/// Whether `ip` lies in the network: both are of one kind, and clearing every bit of
/// `ip` behind the prefix leaves the address of the network.
pub open spec fn in_network(net: (Seq<u8>, u8), ip: Seq<u8>) -> bool {
    &&& ip.len() == net.0.len()
    &&& forall|k: int|
        0 <= k < 8 * ip.len() ==> #[trigger] bit(net.0, k) == (k < net.1 && bit(ip, k))
}

/// Whether no bit is set behind the prefix, and the prefix is no longer than the address.
pub open spec fn is_network(net: (Seq<u8>, u8)) -> bool {
    &&& net.0.len() == 4 || net.0.len() == 16
    &&& net.1 <= 8 * net.0.len()
    &&& forall|k: int| net.1 <= k < 8 * net.0.len() ==> !#[trigger] bit(net.0, k)
}

/// The network that a text such as `10.0.0.0/8` stands for, where it is one: the bytes
/// of its address and the length of its prefix.
pub uninterp spec fn network_of(text: Seq<char>) -> Option<(Seq<u8>, u8)>;

/// `from_str` of the `ip_network` crate's `IpNetwork`. It accepts a text only if no bit
/// behind the prefix is set.
#[verifier::external_body]
pub(crate) fn read_network(text: &str) -> (r: Option<Network>)
    ensures
        match r {
            Some(net) => network_of(text@) == Some(net@) && is_network(net@),
            None => network_of(text@) is None,
        },
{
    match text.parse::<IpNetwork>() {
        Ok(IpNetwork::V4(n)) => Some(
            Network { address: Ip::V4(n.network_address().octets()), prefix: n.netmask() },
        ),
        Ok(IpNetwork::V6(n)) => Some(
            Network { address: Ip::V6(n.network_address().octets()), prefix: n.netmask() },
        ),
        Err(_) => None,
    }
}

fn byte_power(n: usize) -> (r: u8)
    requires
        n <= 7,
    ensures
        r == power_of_two(n as nat),
        r > 0,
{
    if n == 0 {
        1
    } else if n == 1 {
        2
    } else if n == 2 {
        4
    } else if n == 3 {
        8
    } else if n == 4 {
        16
    } else if n == 5 {
        32
    } else if n == 6 {
        64
    } else {
        128
    }
}

fn bit_at(a: &[u8], k: usize) -> (r: bool)
    requires
        k < 8 * a@.len(),
    ensures
        r == bit(a@, k as int),
{
    (a[k / 8] / byte_power(7 - k % 8)) % 2 == 1
}

fn bytes_in_network(net: &[u8], prefix: u8, ip: &[u8]) -> (r: bool)
    requires
        net@.len() <= 16,
    ensures
        r == in_network((net@, prefix), ip@),
{
    if net.len() != ip.len() {
        return false;
    }
    let mut k: usize = 0;
    while k < 8 * ip.len()
        invariant
            net@.len() == ip@.len() <= 16,
            k <= 8 * ip@.len(),
            forall|j: int| 0 <= j < k ==> #[trigger] bit(net@, j) == (j < prefix && bit(ip@, j)),
        decreases 8 * ip@.len() - k,
    {
        let want: bool = k < prefix as usize && bit_at(ip, k);
        let have: bool = bit_at(net, k);
        if have != want {
            assert(bit(net@, k as int) != (k < prefix && bit(ip@, k as int)));
            return false;
        }
        k = k + 1;
    }
    true
}

impl Network {
    /// Whether the address lies in the network.
    pub fn contains(&self, ip: &Ip) -> (r: bool)
        ensures
            r == in_network(self@, ip@),
    {
        match (&self.address, ip) {
            (Ip::V4(n), Ip::V4(a)) => bytes_in_network(n.as_slice(), self.prefix, a.as_slice()),
            (Ip::V6(n), Ip::V6(a)) => bytes_in_network(n.as_slice(), self.prefix, a.as_slice()),
            _ => false,
        }
    }
}

/// Whether one of the networks holds the address.
pub open spec fn allowed_by(nets: Seq<Network>, ip: Seq<u8>) -> bool {
    exists|i: int| 0 <= i < nets.len() && in_network(#[trigger] nets[i]@, ip)
}

/// A peer of the tunnel.
pub struct Peer {
    /// Where its datagrams last came from.
    pub endpoint: Option<SockAddr>,
    /// The addresses that it may use inside the tunnel.
    pub allowed_ips: Vec<Network>,
    /// When it was last heard from, in milliseconds.
    pub last_seen: u64,
}

impl Peer {
    /// A peer that has not been heard from.
    pub fn new(allowed_ips: Vec<Network>, now: u64) -> (r: Peer)
        ensures
            r.endpoint is None,
            r.allowed_ips == allowed_ips,
            r.last_seen == now,
    {
        Peer { endpoint: None, allowed_ips, last_seen: now }
    }

    /// Whether the peer may use the address inside the tunnel.
    pub fn allows(&self, addr: &Ip) -> (r: bool)
        ensures
            r == allowed_by(self.allowed_ips@, addr@),
    {
        let mut i: usize = 0;
        while i < self.allowed_ips.len()
            invariant
                i <= self.allowed_ips@.len(),
                forall|j: int| 0 <= j < i ==> !in_network(#[trigger] self.allowed_ips@[j]@, addr@),
            decreases self.allowed_ips@.len() - i,
        {
            if self.allowed_ips[i].contains(addr) {
                return true;
            }
            i = i + 1;
        }
        false
    }
}

/// The source address of an IP packet; `0.0.0.0` where its header is cut short.
pub open spec fn source_of(pkt: Seq<u8>) -> Seq<u8> {
    if pkt.len() >= 20 && pkt[0] / 16 == 4 {
        pkt.subrange(12, 16)
    } else if pkt.len() >= 40 && pkt[0] / 16 == 6 {
        pkt.subrange(8, 24)
    } else {
        seq![0u8, 0, 0, 0]
    }
}

/// The source address of an IP packet.
pub fn packet_src_ip(pkt: &[u8]) -> (r: Ip)
    ensures
        r@ == source_of(pkt@),
{
    if pkt.len() >= 20 && pkt[0] / 16 == 4 {
        Ip::V4(array4(pkt, 12))
    } else if pkt.len() >= 40 && pkt[0] / 16 == 6 {
        Ip::V6(array16(pkt, 8))
    } else {
        let zero: [u8; 4] = [0, 0, 0, 0];
        assert(zero@ =~= seq![0u8, 0, 0, 0]);
        Ip::V4(zero)
    }
}

/// Whether the two are one address and port.
pub fn same_endpoint(a: &SockAddr, b: &SockAddr) -> (r: bool)
    ensures
        r == (a@ == b@),
{
    match (a, b) {
        (SockAddr::V4(x, p), SockAddr::V4(y, q)) => *p == *q && same_bytes(
            x.as_slice(),
            y.as_slice(),
        ),
        (SockAddr::V6(x, p), SockAddr::V6(y, q)) => *p == *q && same_bytes(
            x.as_slice(),
            y.as_slice(),
        ),
        _ => false,
    }
}

/// Every network holds its own address.
pub proof fn lemma_network_holds_its_address(net: (Seq<u8>, u8))
    requires
        is_network(net),
    ensures
        in_network(net, net.0),
{
}

/// A network with an empty prefix holds every address of its kind.
pub proof fn lemma_empty_prefix_holds_all(net: (Seq<u8>, u8), ip: Seq<u8>)
    requires
        is_network(net),
        net.1 == 0,
        ip.len() == net.0.len(),
    ensures
        in_network(net, ip),
{
}

/// No network holds an address of the other kind.
pub proof fn lemma_kinds_do_not_mix(net: (Seq<u8>, u8), ip: Seq<u8>)
    requires
        ip.len() != net.0.len(),
    ensures
        !in_network(net, ip),
{
}

/// The source of a packet is what its bytes say: 12 to 15 of one over IPv4, 8 to 23 of one
/// over IPv6. A header that is cut short, or of another version, has the source `0.0.0.0`.
pub proof fn lemma_packet_source(head: Seq<u8>, first: u8, src: Seq<u8>, rest: Seq<u8>)
    ensures
        0x40 <= first < 0x50 && head.len() == 11 && src.len() == 4 && rest.len() >= 4 ==> source_of(
            seq![first] + head + src + rest,
        ) == src,
        0x60 <= first < 0x70 && head.len() == 7 && src.len() == 16 && rest.len() >= 16
            ==> source_of(seq![first] + head + src + rest) == src,
        !(0x40 <= first < 0x50) && !(0x60 <= first < 0x70) ==> source_of(seq![first] + rest)
            == seq![0u8, 0, 0, 0],
        rest.len() < 19 ==> source_of(seq![first] + rest) == seq![0u8, 0, 0, 0],
        0x60 <= first < 0x70 && rest.len() < 39 ==> source_of(seq![first] + rest) == seq![
            0u8,
            0,
            0,
            0,
        ],
        source_of(Seq::empty()) == seq![0u8, 0, 0, 0],
{
    let pkt = seq![first] + head + src + rest;
    assert(pkt[0] == first);
    if 0x40 <= first < 0x50 && head.len() == 11 && src.len() == 4 && rest.len() >= 4 {
        assert(pkt.subrange(12, 16) =~= src);
    }
    if 0x60 <= first < 0x70 && head.len() == 7 && src.len() == 16 && rest.len() >= 16 {
        assert(pkt.subrange(8, 24) =~= src);
    }
    assert((seq![first] + rest)[0] == first);
}

/// The source by which a packet is let through is that of the flow which it belongs to.
pub proof fn lemma_source_is_that_of_the_flow(pkt: Seq<u8>)
    ensures
        crate::wireguard::flow::flow_of(pkt) matches Some(key) ==> match key.src {
            SockAddrView::V4(ip, _) => source_of(pkt) == ip,
            SockAddrView::V6(ip, _) => source_of(pkt) == ip,
        },
{
}

/// The numbers that the first `r` bits of two bytes make are the same exactly if the bits
/// are.
proof fn lemma_leading_bits(x: u8, y: u8)
    ensures
        x / 128 == y / 128 <==> (x / 128) % 2 == (y / 128) % 2,
        x / 64 == y / 64 <==> x / 128 == y / 128 && (x / 64) % 2 == (y / 64) % 2,
        x / 32 == y / 32 <==> x / 64 == y / 64 && (x / 32) % 2 == (y / 32) % 2,
        x / 16 == y / 16 <==> x / 32 == y / 32 && (x / 16) % 2 == (y / 16) % 2,
        x / 8 == y / 8 <==> x / 16 == y / 16 && (x / 8) % 2 == (y / 8) % 2,
        x / 4 == y / 4 <==> x / 8 == y / 8 && (x / 4) % 2 == (y / 4) % 2,
        x / 2 == y / 2 <==> x / 4 == y / 4 && (x / 2) % 2 == (y / 2) % 2,
        x == y <==> x / 2 == y / 2 && x % 2 == y % 2,
{
}

/// Eight bits are the bits of one byte.
proof fn lemma_bits_of_byte(a: Seq<u8>, i: int)
    requires
        0 <= i < a.len(),
    ensures
        bit(a, 8 * i) == ((a[i] / 128) % 2 == 1),
        bit(a, 8 * i + 1) == ((a[i] / 64) % 2 == 1),
        bit(a, 8 * i + 2) == ((a[i] / 32) % 2 == 1),
        bit(a, 8 * i + 3) == ((a[i] / 16) % 2 == 1),
        bit(a, 8 * i + 4) == ((a[i] / 8) % 2 == 1),
        bit(a, 8 * i + 5) == ((a[i] / 4) % 2 == 1),
        bit(a, 8 * i + 6) == ((a[i] / 2) % 2 == 1),
        bit(a, 8 * i + 7) == (a[i] % 2 == 1),
{
    assert((8 * i) / 8 == i && (8 * i) % 8 == 0);
    assert((8 * i + 1) / 8 == i && (8 * i + 1) % 8 == 1);
    assert((8 * i + 2) / 8 == i && (8 * i + 2) % 8 == 2);
    assert((8 * i + 3) / 8 == i && (8 * i + 3) % 8 == 3);
    assert((8 * i + 4) / 8 == i && (8 * i + 4) % 8 == 4);
    assert((8 * i + 5) / 8 == i && (8 * i + 5) % 8 == 5);
    assert((8 * i + 6) / 8 == i && (8 * i + 6) % 8 == 6);
    assert((8 * i + 7) / 8 == i && (8 * i + 7) % 8 == 7);
}

/// An address lies in a network whose prefix is a number of whole bytes exactly if it
/// starts with those bytes of the network's address.
pub proof fn lemma_whole_byte_prefix(net: (Seq<u8>, u8), ip: Seq<u8>)
    requires
        is_network(net),
        ip.len() == net.0.len(),
        net.1 % 8 == 0,
    ensures
        in_network(net, ip) <==> forall|i: int|
            0 <= i < net.1 / 8 ==> #[trigger] ip[i] == net.0[i],
{
    let m = (net.1 / 8) as int;
    if in_network(net, ip) {
        assert forall|i: int| 0 <= i < m implies #[trigger] ip[i] == net.0[i] by {
            lemma_bits_of_byte(net.0, i);
            lemma_bits_of_byte(ip, i);
            lemma_leading_bits(ip[i], net.0[i]);
            assert(bit(net.0, 8 * i) == bit(ip, 8 * i));
            assert(bit(net.0, 8 * i + 1) == bit(ip, 8 * i + 1));
            assert(bit(net.0, 8 * i + 2) == bit(ip, 8 * i + 2));
            assert(bit(net.0, 8 * i + 3) == bit(ip, 8 * i + 3));
            assert(bit(net.0, 8 * i + 4) == bit(ip, 8 * i + 4));
            assert(bit(net.0, 8 * i + 5) == bit(ip, 8 * i + 5));
            assert(bit(net.0, 8 * i + 6) == bit(ip, 8 * i + 6));
            assert(bit(net.0, 8 * i + 7) == bit(ip, 8 * i + 7));
        }
    }
    if forall|i: int| 0 <= i < m ==> #[trigger] ip[i] == net.0[i] {
        assert forall|k: int| 0 <= k < 8 * ip.len() implies #[trigger] bit(net.0, k) == (k < net.1
            && bit(ip, k)) by {
            if k < net.1 {
                assert(ip[k / 8] == net.0[k / 8]);
            }
        }
    }
}

} // verus!
