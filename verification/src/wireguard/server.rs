//! Setting up the peers, and what becomes of each datagram.
use crate::address::{SockAddr, SockAddrView};
use crate::config::{WireGuardConfig, WireGuardPeerConfig};
use crate::crypto::{base64_decode, base64_decoded};
use crate::text::{parse_unsigned, parse_unsigned_of, rsplit_once, rsplit_once_of, trim, trim_of};
use crate::wire::same_bytes;
use crate::wireguard::peer::{allowed_by, network_of, packet_src_ip, read_network};
use crate::wireguard::peer::{same_endpoint, source_of, Network, Peer};
use vstd::prelude::*;

verus! {

/// The largest datagram.
pub const MAX_PACKET: usize = 65535;

/// How often each tunnel's timers are run.
pub const TIMER_TICK_MS: u64 = 250;

/// Why a text is no key.
#[derive(Debug, Clone, Copy, PartialEq, Eq, Structural)]
pub enum KeyError {
    NotBase64,
    /// It does not stand for 32 bytes.
    Length,
}

/// The bytes that the text of a key stands for; space around it does not count.
pub open spec fn key_bytes(b64: Seq<char>) -> Option<Seq<u8>> {
    base64_decoded(trim_of(b64))
}

/// The bytes that the text of a key stands for.
pub fn decode_key(b64: &str) -> (r: Option<Vec<u8>>)
    ensures
        match r {
            Some(b) => key_bytes(b64@) == Some(b@),
            None => key_bytes(b64@) is None,
        },
{
    base64_decode(trim(b64))
}

/// What the text of a key must give.
pub open spec fn is_key(b64: Seq<char>, r: Result<[u8; 32], KeyError>) -> bool {
    accepts_key(key_bytes(b64), r)
}

/// What decoded bytes must give: a key, if they are 32.
pub open spec fn accepts_key(bytes: Option<Seq<u8>>, r: Result<[u8; 32], KeyError>) -> bool {
    match bytes {
        None => r == Err::<[u8; 32], KeyError>(KeyError::NotBase64),
        Some(b) => if b.len() != 32 {
            r == Err::<[u8; 32], KeyError>(KeyError::Length)
        } else {
            r matches Ok(k) && k@ == b
        },
    }
}

/// Whether the text stands for a key.
pub open spec fn key_ok(b64: Seq<char>) -> bool {
    key_bytes(b64) matches Some(b) && b.len() == 32
}

/// A key from decoded bytes.
pub fn accept_key(bytes: Option<Vec<u8>>) -> (r: Result<[u8; 32], KeyError>)
    ensures
        accepts_key(
            match bytes {
                Some(b) => Some(b@),
                None => None,
            },
            r,
        ),
{
    match bytes {
        None => Err(KeyError::NotBase64),
        Some(b) => {
            if b.len() != 32 {
                return Err(KeyError::Length);
            }
            let mut out: [u8; 32] = [0; 32];
            let mut i: usize = 0;
            while i < 32
                invariant
                    i <= 32,
                    b@.len() == 32,
                    forall|j: int| 0 <= j < i ==> out@[j] == b@[j],
                decreases 32 - i,
            {
                out[i] = b[i];
                i = i + 1;
            }
            assert(out@ =~= b@);
            Ok(out)
        },
    }
}

/// The key that a text stands for.
pub fn read_key(b64: &str) -> (r: Result<[u8; 32], KeyError>)
    ensures
        is_key(b64@, r),
{
    accept_key(decode_key(b64))
}

/// What a tunnel address such as `10.0.0.1/24` says before its IP is read: the text
/// of the IP and the length of the prefix.
pub open spec fn cidr_of(s: Seq<char>) -> Option<(Seq<char>, nat)> {
    match rsplit_once_of(s, '/') {
        None => None,
        Some((ip, len)) => match parse_unsigned_of(len, 255) {
            None => None,
            Some(n) => Some((ip, n)),
        },
    }
}

/// The text of the IP and the length of the prefix in a tunnel address.
pub fn split_cidr(s: &str) -> (r: Option<(&str, u8)>)
    ensures
        match r {
            Some((ip, n)) => cidr_of(s@) == Some((ip@, n as nat)),
            None => cidr_of(s@) is None,
        },
{
    match rsplit_once(s, '/') {
        None => None,
        Some((ip, len)) => match parse_unsigned(len, 255) {
            None => None,
            Some(n) => Some((ip, n as u8)),
        },
    }
}

/// A peer as the configuration describes it.
pub struct PeerSetup {
    pub public_key: [u8; 32],
    pub pre_shared_key: Option<[u8; 32]>,
    pub keepalive_interval: Option<u16>,
    /// Its place in the configuration.
    pub index: u32,
    pub allowed_ips: Vec<Network>,
}

/// What is wrong with a peer in the configuration.
#[derive(Debug, Clone, Copy, PartialEq, Eq, Structural)]
pub enum PeerError {
    PublicKey(KeyError),
    PreSharedKey(KeyError),
    /// The place of the first of its networks that is none.
    AllowedIps(usize),
}

/// What is wrong with the configuration.
#[derive(Debug, Clone, Copy, PartialEq, Eq, Structural)]
pub enum SetupError {
    PrivateKey(KeyError),
    /// The place of the peer, and what is wrong with it.
    Peer(usize, PeerError),
}

/// What the texts of the allowed networks must give.
pub open spec fn reads_networks(texts: Seq<String>, r: Result<Vec<Network>, usize>) -> bool {
    match r {
        Ok(nets) => {
            &&& nets@.len() == texts.len()
            &&& forall|i: int|
                #![trigger nets@[i]]
                #![trigger texts[i]]
                0 <= i < texts.len() ==> network_of(texts[i]@) == Some(nets@[i]@)
        },
        Err(k) => {
            &&& k < texts.len()
            &&& network_of(texts[k as int]@) is None
            &&& forall|i: int| 0 <= i < k ==> network_of(#[trigger] texts[i]@) is Some
        },
    }
}

/// The allowed networks, or the place of the first that is none.
pub fn read_networks(texts: &Vec<String>) -> (r: Result<Vec<Network>, usize>)
    ensures
        reads_networks(texts@, r),
{
    let mut nets: Vec<Network> = Vec::new();
    let mut i: usize = 0;
    while i < texts.len()
        invariant
            i <= texts@.len(),
            nets@.len() == i,
            forall|j: int| 0 <= j < i ==> network_of(texts@[j]@) == Some(#[trigger] nets@[j]@),
        decreases texts@.len() - i,
    {
        match read_network(texts[i].as_str()) {
            Some(net) => {
                nets.push(net);
            },
            None => {
                assert forall|j: int| 0 <= j < i implies network_of(
                    #[trigger] texts@[j]@,
                ) is Some by {
                    assert(network_of(texts@[j]@) == Some(nets@[j]@));
                }
                return Err(i);
            },
        }
        i = i + 1;
    }
    Ok(nets)
}

/// What a peer of the configuration must give: its public key is read first, then the
/// shared key, then the networks.
pub open spec fn reads_peer(
    c: WireGuardPeerConfig,
    index: u32,
    r: Result<PeerSetup, PeerError>,
) -> bool {
    match r {
        Ok(p) => {
            &&& is_key(c.public_key@, Ok(p.public_key))
            &&& match c.pre_shared_key {
                None => p.pre_shared_key is None,
                Some(s) => p.pre_shared_key matches Some(k) && is_key(s@, Ok(k)),
            }
            &&& p.keepalive_interval == c.keepalive_interval
            &&& p.index == index
            &&& reads_networks(c.allowed_ips@, Ok(p.allowed_ips))
        },
        Err(PeerError::PublicKey(e)) => is_key(c.public_key@, Err(e)),
        Err(PeerError::PreSharedKey(e)) => {
            &&& key_ok(c.public_key@)
            &&& c.pre_shared_key matches Some(s) && is_key(s@, Err(e))
        },
        Err(PeerError::AllowedIps(at)) => {
            &&& key_ok(c.public_key@)
            &&& c.pre_shared_key matches Some(s) ==> key_ok(s@)
            &&& reads_networks(c.allowed_ips@, Err(at))
        },
    }
}

/// Whether nothing is wrong with a peer of the configuration.
pub open spec fn peer_ok(c: WireGuardPeerConfig) -> bool {
    &&& key_ok(c.public_key@)
    &&& c.pre_shared_key matches Some(s) ==> key_ok(s@)
    &&& forall|i: int|
        0 <= i < c.allowed_ips@.len() ==> network_of(#[trigger] c.allowed_ips@[i]@) is Some
}

/// Reads a peer of the configuration.
pub fn read_peer(c: &WireGuardPeerConfig, index: u32) -> (r: Result<PeerSetup, PeerError>)
    ensures
        reads_peer(*c, index, r),
        r is Ok <==> peer_ok(*c),
{
    let public_key = match read_key(c.public_key.as_str()) {
        Ok(k) => k,
        Err(e) => {
            return Err(PeerError::PublicKey(e));
        },
    };
    let pre_shared_key = match &c.pre_shared_key {
        None => None,
        Some(s) => match read_key(s.as_str()) {
            Ok(k) => Some(k),
            Err(e) => {
                return Err(PeerError::PreSharedKey(e));
            },
        },
    };
    match read_networks(&c.allowed_ips) {
        Err(at) => Err(PeerError::AllowedIps(at)),
        Ok(allowed_ips) => Ok(
            PeerSetup {
                public_key,
                pre_shared_key,
                keepalive_interval: c.keepalive_interval,
                index,
                allowed_ips,
            },
        ),
    }
}

/// Whether the list has a peer with the key.
pub open spec fn has_peer(list: Seq<PeerSetup>, key: Seq<u8>) -> bool {
    exists|i: int| 0 <= i < list.len() && (#[trigger] list[i]).public_key@ == key
}

/// Whether no two peers of the list have one key.
pub open spec fn peers_differ(list: Seq<PeerSetup>) -> bool {
    forall|i: int, j: int|
        0 <= i < j < list.len() ==> (#[trigger] list[i]).public_key@ != (
        #[trigger] list[j]).public_key@
}

/// Whether `after` is the list with the peer in it: in the place of the one with its
/// key, if there is one, else at the end.
pub open spec fn entered(before: Seq<PeerSetup>, p: PeerSetup, after: Seq<PeerSetup>) -> bool {
    if has_peer(before, p.public_key@) {
        exists|i: int|
            {
                &&& 0 <= i < before.len()
                &&& (#[trigger] before[i]).public_key@ == p.public_key@
                &&& after == before.update(i, p)
            }
    } else {
        after == before.push(p)
    }
}

fn enter(list: &mut Vec<PeerSetup>, p: PeerSetup)
    requires
        peers_differ(old(list)@),
    ensures
        peers_differ(final(list)@),
        entered(old(list)@, p, final(list)@),
{
    let ghost before = list@;
    let mut i: usize = 0;
    let mut found: bool = false;
    while !found && i < list.len()
        invariant
            list@ == before,
            i <= list@.len(),
            found ==> i < list@.len() && before[i as int].public_key@ == p.public_key@,
            forall|j: int| 0 <= j < i ==> (#[trigger] before[j]).public_key@ != p.public_key@,
        decreases list@.len() - i + if found { 0int } else { 1 },
    {
        if same_bytes(list[i].public_key.as_slice(), p.public_key.as_slice()) {
            found = true;
        } else {
            i = i + 1;
        }
    }
    if found {
        list.set(i, p);
    } else {
        list.push(p);
    }
}

/// What the private key and the peers are, once read.
pub struct Setup {
    pub private_key: [u8; 32],
    /// Each key once; where the configuration gives it twice, the later peer counts.
    pub peers: Vec<PeerSetup>,
}

/// Whether `p` is the last of the first `n` peers of `cfg` that has its key.
pub open spec fn last_with_key(cfg: Seq<WireGuardPeerConfig>, n: int, p: PeerSetup) -> bool {
    &&& 0 <= p.index < n
    &&& reads_peer(cfg[p.index as int], p.index, Ok(p))
    &&& forall|j: int|
        p.index < j < n ==> key_bytes((#[trigger] cfg[j]).public_key@) != Some(p.public_key@)
}

/// What the first `n` peers of a configuration give: each key once, for each the last
/// peer that has it, and none that the configuration does not have.
pub open spec fn setup_of(cfg: Seq<WireGuardPeerConfig>, n: int, list: Seq<PeerSetup>) -> bool {
    &&& peers_differ(list)
    &&& forall|i: int| 0 <= i < list.len() ==> last_with_key(cfg, n, #[trigger] list[i])
    &&& forall|j: int|
        0 <= j < n ==> exists|i: int|
            0 <= i < list.len() && key_bytes((#[trigger] cfg[j]).public_key@) == Some(
                (#[trigger] list[i]).public_key@,
            )
}

/// Reads the private key and the peers. Where something is wrong, what comes first
/// counts.
pub fn read_setup(cfg: &WireGuardConfig) -> (r: Result<Setup, SetupError>)
    requires
        cfg.peers@.len() <= u32::MAX,
    ensures
        match r {
            Ok(s) => {
                &&& is_key(cfg.private_key@, Ok(s.private_key))
                &&& setup_of(cfg.peers@, cfg.peers@.len() as int, s.peers@)
            },
            Err(SetupError::PrivateKey(e)) => is_key(cfg.private_key@, Err(e)),
            Err(SetupError::Peer(at, e)) => {
                &&& key_ok(cfg.private_key@)
                &&& at < cfg.peers@.len()
                &&& reads_peer(cfg.peers@[at as int], at as u32, Err(e))
                &&& forall|j: int| 0 <= j < at ==> peer_ok(#[trigger] cfg.peers@[j])
            },
        },
        r is Ok <==> key_ok(cfg.private_key@) && forall|j: int|
            0 <= j < cfg.peers@.len() ==> peer_ok(#[trigger] cfg.peers@[j]),
{
    let private_key = match read_key(cfg.private_key.as_str()) {
        Ok(k) => k,
        Err(e) => {
            return Err(SetupError::PrivateKey(e));
        },
    };
    let mut peers: Vec<PeerSetup> = Vec::new();
    let mut i: usize = 0;
    while i < cfg.peers.len()
        invariant
            i <= cfg.peers@.len() <= u32::MAX,
            is_key(cfg.private_key@, Ok(private_key)),
            setup_of(cfg.peers@, i as int, peers@),
            forall|j: int| 0 <= j < i ==> peer_ok(#[trigger] cfg.peers@[j]),
        decreases cfg.peers@.len() - i,
    {
        match read_peer(&cfg.peers[i], i as u32) {
            Err(e) => {
                return Err(SetupError::Peer(i, e));
            },
            Ok(p) => {
                let ghost before = peers@;
                let ghost new = p;
                enter(&mut peers, p);
                proof {
                    lemma_setup_step(cfg.peers@, i as int, before, new, peers@);
                }
            },
        }
        i = i + 1;
    }
    Ok(Setup { private_key, peers })
}

proof fn lemma_setup_step(
    cfg: Seq<WireGuardPeerConfig>,
    n: int,
    before: Seq<PeerSetup>,
    p: PeerSetup,
    after: Seq<PeerSetup>,
)
    requires
        0 <= n < cfg.len() <= u32::MAX,
        setup_of(cfg, n, before),
        reads_peer(cfg[n], n as u32, Ok(p)),
        entered(before, p, after),
        peers_differ(after),
    ensures
        setup_of(cfg, n + 1, after),
{
    let key = p.public_key@;
    assert(key_bytes(cfg[n].public_key@) == Some(key));
    let at = if has_peer(before, key) {
        choose|i: int|
            0 <= i < before.len() && (#[trigger] before[i]).public_key@ == key && after
                == before.update(i, p)
    } else {
        before.len() as int
    };
    assert(after[at] == p);
    assert forall|i: int| 0 <= i < after.len() implies last_with_key(
        cfg,
        n + 1,
        #[trigger] after[i],
    ) by {
        if i != at {
            assert(after[i] == before[i]);
            assert(last_with_key(cfg, n, before[i]));
            assert(after[i].public_key@ != after[at].public_key@);
        }
    }
    assert forall|j: int| 0 <= j < n + 1 implies exists|i: int|
        0 <= i < after.len() && key_bytes((#[trigger] cfg[j]).public_key@) == Some(
            (#[trigger] after[i]).public_key@,
        ) by {
        if j == n {
            assert(after[at].public_key@ == key);
        } else {
            let i = choose|i: int|
                0 <= i < before.len() && key_bytes(cfg[j].public_key@) == Some(
                    (#[trigger] before[i]).public_key@,
                );
            assert(after[i].public_key@ == before[i].public_key@);
        }
    }
}

/// What became of a datagram, or of a turn of the timers, in the tunnel.
pub enum Opened {
    /// A datagram to send back.
    Network(Vec<u8>),
    /// An IP packet from the peer.
    Tunnel(Vec<u8>),
    Done,
    Failed,
}

/// What to do next.
pub enum Step {
    Nothing,
    /// Send the bytes to where the datagram came from.
    Send(Vec<u8>),
    /// Put the IP packet into the peer's stack.
    Deliver(Vec<u8>),
}

/// The peers, in the order of the setup.
pub struct Server {
    pub peers: Vec<Peer>,
}

/// Whether the peer was last heard from at `src`.
pub open spec fn heard_at(p: Peer, src: SockAddrView) -> bool {
    p.endpoint matches Some(a) && a@ == src
}

/// The place of the first peer last heard from at `src`, or how many peers there are.
pub open spec fn first_heard(peers: Seq<Peer>, src: SockAddrView) -> int
    decreases peers.len(),
{
    if peers.len() == 0 {
        0
    } else if heard_at(peers[0], src) {
        0
    } else {
        1 + first_heard(peers.drop_first(), src)
    }
}

proof fn lemma_first_heard(peers: Seq<Peer>, src: SockAddrView, at: int)
    requires
        0 <= at <= peers.len(),
        forall|i: int| 0 <= i < at ==> !heard_at(#[trigger] peers[i], src),
        at < peers.len() ==> heard_at(peers[at], src),
    ensures
        first_heard(peers, src) == at,
    decreases peers.len(),
{
    if peers.len() > 0 && at > 0 {
        assert(!heard_at(peers[0], src));
        let rest = peers.drop_first();
        assert forall|i: int| 0 <= i < at - 1 implies !heard_at(#[trigger] rest[i], src) by {
            assert(!heard_at(peers[i + 1], src));
        }
        lemma_first_heard(rest, src, at - 1);
    }
}

proof fn lemma_first_heard_is(peers: Seq<Peer>, src: SockAddrView)
    ensures
        0 <= first_heard(peers, src) <= peers.len(),
        forall|i: int| 0 <= i < first_heard(peers, src) ==> !heard_at(#[trigger] peers[i], src),
        first_heard(peers, src) < peers.len() ==> heard_at(peers[first_heard(peers, src)], src),
    decreases peers.len(),
{
    if peers.len() > 0 && !heard_at(peers[0], src) {
        let rest = peers.drop_first();
        lemma_first_heard_is(rest, src);
        assert forall|i: int| 0 <= i < first_heard(peers, src) implies !heard_at(
            #[trigger] peers[i],
            src,
        ) by {
            if i > 0 {
                assert(!heard_at(rest[i - 1], src));
            }
        }
    }
}

/// The peer that a datagram from `src` is taken to come from: one last heard from
/// there, else the first one, as nothing else tells them apart before the handshake.
pub open spec fn peer_for(peers: Seq<Peer>, src: SockAddrView) -> Option<int> {
    if first_heard(peers, src) < peers.len() {
        Some(first_heard(peers, src))
    } else if peers.len() > 0 {
        Some(0)
    } else {
        None
    }
}

impl Server {
    /// The peers of a setup, none of them heard from yet.
    pub fn new(setups: &Vec<PeerSetup>, now: u64) -> (r: Server)
        ensures
            r.peers@.len() == setups@.len(),
            forall|i: int|
                0 <= i < setups@.len() ==> {
                    &&& (#[trigger] r.peers@[i]).endpoint is None
                    &&& r.peers@[i].allowed_ips@ == setups@[i].allowed_ips@
                    &&& r.peers@[i].last_seen == now
                },
    {
        let mut peers: Vec<Peer> = Vec::new();
        let mut i: usize = 0;
        while i < setups.len()
            invariant
                i <= setups@.len(),
                peers@.len() == i,
                forall|j: int|
                    0 <= j < i ==> {
                        &&& (#[trigger] peers@[j]).endpoint is None
                        &&& peers@[j].allowed_ips@ == setups@[j].allowed_ips@
                        &&& peers@[j].last_seen == now
                    },
            decreases setups@.len() - i,
        {
            let from: &Vec<Network> = &setups[i].allowed_ips;
            let mut nets: Vec<Network> = Vec::new();
            let mut k: usize = 0;
            while k < from.len()
                invariant
                    k <= from@.len(),
                    nets@ == from@.take(k as int),
                decreases from@.len() - k,
            {
                nets.push(from[k]);
                k = k + 1;
                assert(nets@ =~= from@.take(k as int));
            }
            assert(nets@ =~= from@);
            peers.push(Peer::new(nets, now));
            i = i + 1;
        }
        Server { peers }
    }

    /// The peer that a datagram from `src` is taken to come from.
    pub fn find_peer(&self, src: &SockAddr) -> (r: Option<usize>)
        ensures
            match r {
                Some(i) => peer_for(self.peers@, src@) == Some(i as int),
                None => peer_for(self.peers@, src@) is None,
            },
    {
        let mut i: usize = 0;
        while i < self.peers.len()
            invariant
                i <= self.peers@.len(),
                forall|j: int| 0 <= j < i ==> !heard_at(#[trigger] self.peers@[j], src@),
            decreases self.peers@.len() - i,
        {
            let here: bool = match &self.peers[i].endpoint {
                Some(a) => same_endpoint(a, src),
                None => false,
            };
            if here {
                proof {
                    lemma_first_heard(self.peers@, src@, i as int);
                }
                return Some(i);
            }
            i = i + 1;
        }
        proof {
            lemma_first_heard(self.peers@, src@, self.peers@.len() as int);
        }
        if self.peers.len() > 0 {
            Some(0)
        } else {
            None
        }
    }

    /// Takes a datagram from `src`: notes at its peer that it was heard from there, and
    /// says which peer that is. Nothing, where there are no peers. The next datagram
    /// from there is taken to come from the same peer.
    pub fn on_datagram(&mut self, src: SockAddr, now: u64) -> (r: Option<usize>)
        ensures
            match r {
                None => {
                    &&& peer_for(old(self).peers@, src@) is None
                    &&& *final(self) == *old(self)
                },
                Some(i) => {
                    &&& peer_for(old(self).peers@, src@) == Some(i as int)
                    &&& i < old(self).peers@.len()
                    &&& final(self).peers@ == old(self).peers@.update(
                        i as int,
                        Peer {
                            endpoint: Some(src),
                            allowed_ips: old(self).peers@[i as int].allowed_ips,
                            last_seen: now,
                        },
                    )
                    &&& peer_for(final(self).peers@, src@) == Some(i as int)
                },
            },
    {
        let ghost before = self.peers@;
        match self.find_peer(&src) {
            None => None,
            Some(i) => {
                proof {
                    lemma_first_heard_is(before, src@);
                }
                self.peers[i].endpoint = Some(src);
                self.peers[i].last_seen = now;
                proof {
                    assert(self.peers@ =~= before.update(
                        i as int,
                        Peer {
                            endpoint: Some(src),
                            allowed_ips: before[i as int].allowed_ips,
                            last_seen: now,
                        },
                    ));
                    lemma_first_heard(self.peers@, src@, i as int);
                }
                Some(i)
            },
        }
    }

    /// What to do about what the tunnel of the peer made of a datagram. An IP packet is
    /// delivered only if the peer may use the address that it says it comes from.
    pub fn on_opened(&self, peer: usize, opened: Opened) -> (r: Step)
        requires
            peer < self.peers@.len(),
        ensures
            match opened {
                Opened::Network(b) => r == Step::Send(b),
                Opened::Tunnel(pkt) => if allowed_by(
                    self.peers@[peer as int].allowed_ips@,
                    source_of(pkt@),
                ) {
                    r == Step::Deliver(pkt)
                } else {
                    r is Nothing
                },
                Opened::Done => r is Nothing,
                Opened::Failed => r is Nothing,
            },
    {
        match opened {
            Opened::Network(b) => Step::Send(b),
            Opened::Tunnel(pkt) => {
                let src = packet_src_ip(pkt.as_slice());
                if self.peers[peer].allows(&src) {
                    Step::Deliver(pkt)
                } else {
                    Step::Nothing
                }
            },
            Opened::Done => Step::Nothing,
            Opened::Failed => Step::Nothing,
        }
    }
}

/// A tunnel address `ip/length` is read as that text and that length, which is at most 255;
/// without a `/` there is none.
pub proof fn lemma_cidr(ip: Seq<char>, length: nat)
    ensures
        length <= 255 ==> cidr_of(ip + seq!['/'] + crate::text::decimal_of(length)) == Some(
            (ip, length),
        ),
        length > 255 ==> cidr_of(ip + seq!['/'] + crate::text::decimal_of(length)) is None,
        !ip.contains('/') ==> cidr_of(ip) is None,
{
    let digits = crate::text::decimal_of(length);
    crate::text::lemma_decimal_round_trip(length, length);
    assert(!digits.contains('/')) by {
        if digits.contains('/') {
            let i = choose|i: int| 0 <= i < digits.len() && digits[i] == '/';
            assert(crate::text::is_digit(digits[i]));
        }
    }
    crate::text::lemma_splits(ip, '/', digits);
    if length <= 255 {
        crate::text::lemma_decimal_round_trip(length, 255);
    }
}

/// A datagram belongs to the first peer that was last heard from where it comes from,
/// wherever that peer stands; where there is none it belongs to the first peer.
pub proof fn lemma_peer_for(peers: Seq<Peer>, src: SockAddrView, at: int)
    requires
        0 <= at < peers.len(),
        forall|i: int|
            0 <= i < at ==> ((#[trigger] peers[i]).endpoint matches Some(a) ==> a@ != src),
    ensures
        peers[at].endpoint matches Some(a) ==> a@ == src ==> peer_for(peers, src) == Some(at),
        (forall|i: int|
            0 <= i < peers.len() ==> ((#[trigger] peers[i]).endpoint matches Some(a) ==> a@
                != src)) ==> peer_for(peers, src) == Some(0int),
        peer_for(Seq::empty(), src) is None,
{
    if heard_at(peers[at], src) {
        lemma_first_heard(peers, src, at);
    }
    if forall|i: int|
        0 <= i < peers.len() ==> ((#[trigger] peers[i]).endpoint matches Some(a) ==> a@ != src) {
        lemma_first_heard(peers, src, peers.len() as int);
    }
}

/// Decoded bytes are a key exactly if there are 32 of them, and the key is those bytes; text
/// that does not decode and bytes of another length are told apart.
pub proof fn lemma_key_bytes(bytes: Seq<u8>, r: Result<[u8; 32], KeyError>)
    ensures
        accepts_key(Some(bytes), r) && bytes.len() == 32 ==> (r matches Ok(k) && k@ == bytes),
        bytes.len() != 32 ==> (accepts_key(Some(bytes), r) <==> r == Err::<[u8; 32], KeyError>(
            KeyError::Length,
        )),
        accepts_key(None, r) <==> r == Err::<[u8; 32], KeyError>(KeyError::NotBase64),
{
}

} // verus!
