//! The TCP and UDP flows that a peer's packets belong to.
use crate::address::{array16, array4, SockAddr, SockAddrView};
use crate::wire::{be_value, read_u16};
use crate::wireguard::peer::same_endpoint;
use vstd::prelude::*;

verus! {

pub const PROTO_TCP: u8 = 6;

pub const PROTO_UDP: u8 = 17;

/// After how many idle milliseconds a TCP flow ends.
pub const TCP_IDLE_MS: u64 = 300_000;

/// After how many idle milliseconds a UDP flow ends.
pub const UDP_IDLE_MS: u64 = 60_000;

/// What tells one flow from another.
#[derive(Debug, Clone, Copy, PartialEq, Eq)]
pub struct FlowKey {
    pub proto: u8,
    pub src: SockAddr,
    pub dst: SockAddr,
}

/// The mathematical counterpart of [`FlowKey`].
pub struct FlowKeyView {
    pub proto: u8,
    pub src: SockAddrView,
    pub dst: SockAddrView,
}

impl View for FlowKey {
    type V = FlowKeyView;

    open spec fn view(&self) -> FlowKeyView {
        FlowKeyView { proto: self.proto, src: self.src@, dst: self.dst@ }
    }
}

pub open spec fn opt_key(k: Option<FlowKey>) -> Option<FlowKeyView> {
    match k {
        Some(key) => Some(key@),
        None => None,
    }
}

/// The port at `at`.
pub open spec fn port_at(pkt: Seq<u8>, at: int) -> u16 {
    be_value(pkt.subrange(at, at + 2)) as u16
}

/// The flow of an IPv4 packet. The ports follow the header, whose length the packet
/// gives in words of four bytes.
pub open spec fn ipv4_flow_of(pkt: Seq<u8>) -> Option<FlowKeyView> {
    let ports = (pkt[0] % 16) * 4;
    if pkt.len() < 20 || (pkt[9] != PROTO_TCP && pkt[9] != PROTO_UDP) || pkt.len() < ports + 4 {
        None
    } else {
        Some(
            FlowKeyView {
                proto: pkt[9],
                src: SockAddrView::V4(pkt.subrange(12, 16), port_at(pkt, ports)),
                dst: SockAddrView::V4(pkt.subrange(16, 20), port_at(pkt, ports + 2)),
            },
        )
    }
}

/// The flow of an IPv6 packet whose transport header follows the fixed header.
pub open spec fn ipv6_flow_of(pkt: Seq<u8>) -> Option<FlowKeyView> {
    if pkt.len() < 44 || (pkt[6] != PROTO_TCP && pkt[6] != PROTO_UDP) {
        None
    } else {
        Some(
            FlowKeyView {
                proto: pkt[6],
                src: SockAddrView::V6(pkt.subrange(8, 24), port_at(pkt, 40)),
                dst: SockAddrView::V6(pkt.subrange(24, 40), port_at(pkt, 42)),
            },
        )
    }
}

/// The flow of an IP packet, where it is a whole TCP or UDP one.
pub open spec fn flow_of(pkt: Seq<u8>) -> Option<FlowKeyView> {
    if pkt.len() == 0 {
        None
    } else if pkt[0] / 16 == 4 {
        ipv4_flow_of(pkt)
    } else if pkt[0] / 16 == 6 {
        ipv6_flow_of(pkt)
    } else {
        None
    }
}

fn parse_ipv4_flow(pkt: &[u8]) -> (r: Option<FlowKey>)
    ensures
        opt_key(r) == ipv4_flow_of(pkt@),
{
    if pkt.len() < 20 {
        return None;
    }
    let ports: usize = (pkt[0] % 16) as usize * 4;
    let proto: u8 = pkt[9];
    if proto != PROTO_TCP && proto != PROTO_UDP {
        return None;
    }
    if pkt.len() < ports + 4 {
        return None;
    }
    Some(
        FlowKey {
            proto,
            src: SockAddr::V4(array4(pkt, 12), read_u16(pkt, ports)),
            dst: SockAddr::V4(array4(pkt, 16), read_u16(pkt, ports + 2)),
        },
    )
}

fn parse_ipv6_flow(pkt: &[u8]) -> (r: Option<FlowKey>)
    ensures
        opt_key(r) == ipv6_flow_of(pkt@),
{
    if pkt.len() < 44 {
        return None;
    }
    let proto: u8 = pkt[6];
    if proto != PROTO_TCP && proto != PROTO_UDP {
        return None;
    }
    Some(
        FlowKey {
            proto,
            src: SockAddr::V6(array16(pkt, 8), read_u16(pkt, 40)),
            dst: SockAddr::V6(array16(pkt, 24), read_u16(pkt, 42)),
        },
    )
}

/// The flow that an IP packet belongs to.
pub fn parse_flow_key(pkt: &[u8]) -> (r: Option<FlowKey>)
    ensures
        opt_key(r) == flow_of(pkt@),
{
    if pkt.len() == 0 {
        return None;
    }
    let version: u8 = pkt[0] / 16;
    if version == 4 {
        parse_ipv4_flow(pkt)
    } else if version == 6 {
        parse_ipv6_flow(pkt)
    } else {
        None
    }
}

/// Whether the two name one flow.
pub fn same_flow(a: &FlowKey, b: &FlowKey) -> (r: bool)
    ensures
        r == (a@ == b@),
{
    a.proto == b.proto && same_endpoint(&a.src, &b.src) && same_endpoint(&a.dst, &b.dst)
}

/// A flow that has a socket in the stack.
#[derive(Debug, Clone, Copy)]
pub struct Flow {
    pub key: FlowKey,
    /// The number by which the socket is known.
    pub handle: u64,
    /// Whether its data already goes to and from the real destination.
    pub relaying: bool,
    /// When data last went through it, in milliseconds.
    pub last_active: u64,
}

/// Whether a list of flows holds the key.
pub open spec fn has_key(flows: Seq<Flow>, key: FlowKeyView) -> bool {
    exists|i: int| 0 <= i < flows.len() && (#[trigger] flows[i]).key@ == key
}

/// Whether a list of flows holds the handle.
pub open spec fn has_handle(flows: Seq<Flow>, handle: u64) -> bool {
    exists|i: int| 0 <= i < flows.len() && (#[trigger] flows[i]).handle == handle
}

/// Whether no key stands in the list twice.
pub open spec fn keys_differ(flows: Seq<Flow>) -> bool {
    forall|i: int, j: int|
        0 <= i < j < flows.len() ==> (#[trigger] flows[i]).key@ != (#[trigger] flows[j]).key@
}

/// Whether the flow has been idle for less than `idle` at `now`. One whose data went
/// through later than `now` has not been idle at all.
pub open spec fn alive(f: Flow, now: u64, idle: u64) -> bool {
    now < f.last_active || now - f.last_active < idle
}

/// The flows that are still alive, in their order.
pub open spec fn survivors(flows: Seq<Flow>, now: u64, idle: u64) -> Seq<Flow>
    decreases flows.len(),
{
    if flows.len() == 0 {
        Seq::empty()
    } else {
        let before = survivors(flows.drop_last(), now, idle);
        if alive(flows.last(), now, idle) {
            before.push(flows.last())
        } else {
            before
        }
    }
}

/// The handles of the flows that are no longer alive, in their order.
pub open spec fn expired(flows: Seq<Flow>, now: u64, idle: u64) -> Seq<u64>
    decreases flows.len(),
{
    if flows.len() == 0 {
        Seq::empty()
    } else {
        let before = expired(flows.drop_last(), now, idle);
        if alive(flows.last(), now, idle) {
            before
        } else {
            before.push(flows.last().handle)
        }
    }
}

/// The flow that has been relayed from now on, if it is among the established ones.
pub open spec fn started(f: Flow, established: Seq<u64>) -> Flow {
    Flow { relaying: f.relaying || established.contains(f.handle), ..f }
}

/// The flows that start to be relayed: handle and destination, in their order.
pub open spec fn starting(flows: Seq<Flow>, established: Seq<u64>) -> Seq<(u64, SockAddrView)>
    decreases flows.len(),
{
    if flows.len() == 0 {
        Seq::empty()
    } else {
        let before = starting(flows.drop_last(), established);
        let f = flows.last();
        if !f.relaying && established.contains(f.handle) {
            before.push((f.handle, f.key@.dst))
        } else {
            before
        }
    }
}

/// A flow with the time at which data last went through it moved to `now`, if it is the one.
pub open spec fn touched(f: Flow, handle: u64, now: u64) -> Flow {
    if f.handle == handle {
        Flow { last_active: now, ..f }
    } else {
        f
    }
}

/// What has to be opened in the stack before a packet is put into it.
#[derive(Debug, Clone, Copy)]
pub enum Wanted {
    Nothing,
    Tcp(FlowKey),
    Udp(FlowKey),
}

/// The flows of one peer.
pub struct FlowTable {
    pub tcp: Vec<Flow>,
    pub udp: Vec<Flow>,
}

fn knows(flows: &Vec<Flow>, key: &FlowKey) -> (r: bool)
    ensures
        r == has_key(flows@, key@),
{
    let mut i: usize = 0;
    while i < flows.len()
        invariant
            i <= flows@.len(),
            forall|j: int| 0 <= j < i ==> (#[trigger] flows@[j]).key@ != key@,
        decreases flows@.len() - i,
    {
        if same_flow(&flows[i].key, key) {
            return true;
        }
        i = i + 1;
    }
    false
}

fn holds(list: &Vec<u64>, x: u64) -> (r: bool)
    ensures
        r == list@.contains(x),
{
    let mut i: usize = 0;
    while i < list.len()
        invariant
            i <= list@.len(),
            forall|j: int| 0 <= j < i ==> list@[j] != x,
        decreases list@.len() - i,
    {
        if list[i] == x {
            return true;
        }
        i = i + 1;
    }
    false
}

/// What survives was there before.
proof fn lemma_survivors_from(flows: Seq<Flow>, now: u64, idle: u64, k: int)
    requires
        0 <= k < survivors(flows, now, idle).len(),
    ensures
        flows.contains(survivors(flows, now, idle)[k]),
        alive(survivors(flows, now, idle)[k], now, idle),
    decreases flows.len(),
{
    let before = survivors(flows.drop_last(), now, idle);
    if k < before.len() {
        lemma_survivors_from(flows.drop_last(), now, idle, k);
        let i = choose|i: int| 0 <= i < flows.drop_last().len() && flows.drop_last()[i] == before[k];
        assert(flows[i] == before[k]);
    } else {
        assert(flows[flows.len() - 1] == flows.last());
    }
}

proof fn lemma_survivors_differ(flows: Seq<Flow>, now: u64, idle: u64)
    requires
        keys_differ(flows),
    ensures
        keys_differ(survivors(flows, now, idle)),
    decreases flows.len(),
{
    if flows.len() > 0 {
        let init = flows.drop_last();
        assert(keys_differ(init)) by {
            assert forall|i: int, j: int| 0 <= i < j < init.len() implies (
            #[trigger] init[i]).key@ != (#[trigger] init[j]).key@ by {
                assert(flows[i].key@ != flows[j].key@);
            }
        }
        lemma_survivors_differ(init, now, idle);
        let before = survivors(init, now, idle);
        if alive(flows.last(), now, idle) {
            let all = before.push(flows.last());
            assert forall|i: int, j: int| 0 <= i < j < all.len() implies (
            #[trigger] all[i]).key@ != (#[trigger] all[j]).key@ by {
                if j == before.len() {
                    lemma_survivors_from(init, now, idle, i);
                    let m = choose|m: int| 0 <= m < init.len() && init[m] == before[i];
                    assert(flows[m].key@ != flows[flows.len() - 1].key@);
                } else {
                    assert(before[i].key@ != before[j].key@);
                }
            }
        }
    }
}

/// Drops the flows of a list that have been idle for too long.
fn sweep(flows: &mut Vec<Flow>, now: u64, idle: u64, gone: &mut Vec<u64>)
    ensures
        final(flows)@ == survivors(old(flows)@, now, idle),
        final(gone)@ == old(gone)@ + expired(old(flows)@, now, idle),
{
    let mut kept: Vec<Flow> = Vec::new();
    let mut i: usize = 0;
    let ghost before = gone@;
    proof {
        assert(flows@.take(0).len() == 0);
        assert(before + expired(flows@.take(0), now, idle) =~= before);
    }
    while i < flows.len()
        invariant
            flows@ == old(flows)@,
            i <= flows@.len(),
            kept@ == survivors(flows@.take(i as int), now, idle),
            gone@ == before + expired(flows@.take(i as int), now, idle),
        decreases flows@.len() - i,
    {
        let f: Flow = flows[i];
        proof {
            assert(flows@.take(i + 1).drop_last() =~= flows@.take(i as int));
            assert(flows@.take(i + 1).last() == f);
        }
        if now < f.last_active || now - f.last_active < idle {
            kept.push(f);
        } else {
            gone.push(f.handle);
            assert(gone@ =~= before + expired(flows@.take(i + 1), now, idle));
        }
        i = i + 1;
    }
    assert(flows@.take(flows@.len() as int) =~= flows@);
    *flows = kept;
}

/// Moves the time of the flow with the handle.
fn touch(flows: &mut Vec<Flow>, handle: u64, now: u64)
    ensures
        final(flows)@.len() == old(flows)@.len(),
        forall|i: int|
            0 <= i < old(flows)@.len() ==> #[trigger] final(flows)@[i] == touched(
                old(flows)@[i],
                handle,
                now,
            ),
{
    let mut i: usize = 0;
    while i < flows.len()
        invariant
            flows@.len() == old(flows)@.len(),
            i <= flows@.len(),
            forall|j: int|
                0 <= j < i ==> #[trigger] flows@[j] == touched(old(flows)@[j], handle, now),
            forall|j: int| i <= j < flows@.len() ==> #[trigger] flows@[j] == old(flows)@[j],
        decreases flows@.len() - i,
    {
        let f: Flow = flows[i];
        if f.handle == handle {
            flows.set(
                i,
                Flow { key: f.key, handle: f.handle, relaying: f.relaying, last_active: now },
            );
        }
        i = i + 1;
    }
}

impl FlowTable {
    /// The flow of one key stands in the table at most once, in the list of its protocol.
    pub open spec fn wf(&self) -> bool {
        &&& keys_differ(self.tcp@)
        &&& keys_differ(self.udp@)
        &&& forall|i: int|
            0 <= i < self.tcp@.len() ==> (#[trigger] self.tcp@[i]).key.proto == PROTO_TCP
        &&& forall|i: int|
            0 <= i < self.udp@.len() ==> (#[trigger] self.udp@[i]).key.proto == PROTO_UDP
    }

    /// A table with no flows.
    pub fn new() -> (r: FlowTable)
        ensures
            r.wf(),
            r.tcp@.len() == 0,
            r.udp@.len() == 0,
    {
        FlowTable { tcp: Vec::new(), udp: Vec::new() }
    }

    /// What has to be opened before `pkt` goes into the stack: a socket for its flow,
    /// unless the flow is known.
    pub fn on_inbound(&self, pkt: &[u8]) -> (r: Wanted)
        ensures
            match flow_of(pkt@) {
                None => r is Nothing,
                Some(key) => if key.proto == PROTO_TCP {
                    if has_key(self.tcp@, key) {
                        r is Nothing
                    } else {
                        r matches Wanted::Tcp(k) && k@ == key
                    }
                } else {
                    if has_key(self.udp@, key) {
                        r is Nothing
                    } else {
                        r matches Wanted::Udp(k) && k@ == key
                    }
                },
            },
    {
        match parse_flow_key(pkt) {
            None => Wanted::Nothing,
            Some(key) => {
                if key.proto == PROTO_TCP {
                    if knows(&self.tcp, &key) {
                        Wanted::Nothing
                    } else {
                        Wanted::Tcp(key)
                    }
                } else if knows(&self.udp, &key) {
                    Wanted::Nothing
                } else {
                    Wanted::Udp(key)
                }
            },
        }
    }

    /// Enters a flow whose TCP socket listens. A flow that is known stays as it is.
    pub fn tcp_opened(&mut self, key: FlowKey, handle: u64, now: u64)
        requires
            old(self).wf(),
            key.proto == PROTO_TCP,
        ensures
            final(self).wf(),
            final(self).udp == old(self).udp,
            final(self).tcp@ == if has_key(old(self).tcp@, key@) {
                old(self).tcp@
            } else {
                old(self).tcp@.push(Flow { key, handle, relaying: false, last_active: now })
            },
    {
        if !knows(&self.tcp, &key) {
            self.tcp.push(Flow { key, handle, relaying: false, last_active: now });
        }
    }

    /// Enters a flow whose UDP socket is bound. A flow that is known stays as it is.
    pub fn udp_opened(&mut self, key: FlowKey, handle: u64, now: u64)
        requires
            old(self).wf(),
            key.proto == PROTO_UDP,
        ensures
            final(self).wf(),
            final(self).tcp == old(self).tcp,
            final(self).udp@ == if has_key(old(self).udp@, key@) {
                old(self).udp@
            } else {
                old(self).udp@.push(Flow { key, handle, relaying: true, last_active: now })
            },
    {
        if !knows(&self.udp, &key) {
            self.udp.push(Flow { key, handle, relaying: true, last_active: now });
        }
    }

    /// Starts to relay the TCP flows whose handles are in `established`, and says which
    /// ones start now, with their destinations.
    pub fn start_relays(&mut self, established: &Vec<u64>) -> (r: Vec<(u64, SockAddr)>)
        requires
            old(self).wf(),
        ensures
            final(self).wf(),
            final(self).udp == old(self).udp,
            final(self).tcp@.len() == old(self).tcp@.len(),
            forall|i: int|
                0 <= i < old(self).tcp@.len() ==> #[trigger] final(self).tcp@[i] == started(
                    old(self).tcp@[i],
                    established@,
                ),
            Seq::new(r@.len(), |i: int| (r@[i].0, r@[i].1@)) == starting(
                old(self).tcp@,
                established@,
            ),
    {
        let mut out: Vec<(u64, SockAddr)> = Vec::new();
        let ghost all = self.tcp@;
        let mut i: usize = 0;
        proof {
            assert(all.take(0).len() == 0);
            assert(starting(all.take(0), established@) =~= Seq::empty());
        }
        while i < self.tcp.len()
            invariant
                all == old(self).tcp@,
                old(self).wf(),
                self.udp == old(self).udp,
                self.tcp@.len() == all.len(),
                i <= all.len(),
                forall|j: int|
                    0 <= j < i ==> #[trigger] self.tcp@[j] == started(all[j], established@),
                forall|j: int| i <= j < all.len() ==> #[trigger] self.tcp@[j] == all[j],
                Seq::new(out@.len(), |j: int| (out@[j].0, out@[j].1@)) == starting(
                    all.take(i as int),
                    established@,
                ),
            decreases all.len() - i,
        {
            let f: Flow = self.tcp[i];
            proof {
                assert(all.take(i + 1).drop_last() =~= all.take(i as int));
                assert(all.take(i + 1).last() == f);
            }
            if !f.relaying && holds(established, f.handle) {
                let ghost before = out@;
                out.push((f.handle, f.key.dst));
                proof {
                    assert(Seq::new(out@.len(), |j: int| (out@[j].0, out@[j].1@)) =~= Seq::new(
                        before.len(),
                        |j: int| (before[j].0, before[j].1@),
                    ).push((f.handle, f.key@.dst)));
                }
                self.tcp.set(
                    i,
                    Flow {
                        key: f.key,
                        handle: f.handle,
                        relaying: true,
                        last_active: f.last_active,
                    },
                );
            }
            i = i + 1;
        }
        proof {
            assert(all.take(all.len() as int) =~= all);
            assert forall|a: int, b: int| 0 <= a < b < self.tcp@.len() implies (
            #[trigger] self.tcp@[a]).key@ != (#[trigger] self.tcp@[b]).key@ by {
                assert(all[a].key@ != all[b].key@);
            }
            assert forall|a: int| 0 <= a < self.tcp@.len() implies (
            #[trigger] self.tcp@[a]).key.proto == PROTO_TCP by {
                assert(all[a].key.proto == PROTO_TCP);
            }
        }
        out
    }

    /// Notes that data of the TCP flow went through at `now`.
    pub fn tcp_active(&mut self, handle: u64, now: u64)
        requires
            old(self).wf(),
        ensures
            final(self).wf(),
            final(self).udp == old(self).udp,
            final(self).tcp@.len() == old(self).tcp@.len(),
            forall|i: int|
                0 <= i < old(self).tcp@.len() ==> #[trigger] final(self).tcp@[i] == touched(
                    old(self).tcp@[i],
                    handle,
                    now,
                ),
    {
        let ghost all = self.tcp@;
        touch(&mut self.tcp, handle, now);
        proof {
            lemma_same_keys(all, self.tcp@);
        }
    }

    /// Notes that data of the UDP flow went through at `now`.
    pub fn udp_active(&mut self, handle: u64, now: u64)
        requires
            old(self).wf(),
        ensures
            final(self).wf(),
            final(self).tcp == old(self).tcp,
            final(self).udp@.len() == old(self).udp@.len(),
            forall|i: int|
                0 <= i < old(self).udp@.len() ==> #[trigger] final(self).udp@[i] == touched(
                    old(self).udp@[i],
                    handle,
                    now,
                ),
    {
        let ghost all = self.udp@;
        touch(&mut self.udp, handle, now);
        proof {
            lemma_same_keys(all, self.udp@);
        }
    }

    /// Where an answer that came in for the UDP socket goes: to the source of its flow.
    /// Nowhere, if the flow has ended.
    pub fn udp_reply_to(&self, handle: u64) -> (r: Option<SockAddr>)
        ensures
            match r {
                Some(a) => exists|i: int|
                    {
                        &&& 0 <= i < self.udp@.len()
                        &&& (#[trigger] self.udp@[i]).handle == handle
                        &&& a@ == self.udp@[i].key@.src
                        &&& forall|j: int|
                            0 <= j < i ==> (#[trigger] self.udp@[j]).handle != handle
                    },
                None => !has_handle(self.udp@, handle),
            },
    {
        let mut i: usize = 0;
        while i < self.udp.len()
            invariant
                i <= self.udp@.len(),
                forall|j: int| 0 <= j < i ==> (#[trigger] self.udp@[j]).handle != handle,
            decreases self.udp@.len() - i,
        {
            if self.udp[i].handle == handle {
                return Some(self.udp[i].key.src);
            }
            i = i + 1;
        }
        None
    }

    /// Ends the flows that have been idle for too long, and gives the handles of their
    /// sockets: those of the TCP flows, then those of the UDP flows.
    pub fn evict(&mut self, now: u64) -> (r: Vec<u64>)
        requires
            old(self).wf(),
        ensures
            final(self).wf(),
            final(self).tcp@ == survivors(old(self).tcp@, now, TCP_IDLE_MS),
            final(self).udp@ == survivors(old(self).udp@, now, UDP_IDLE_MS),
            r@ == expired(old(self).tcp@, now, TCP_IDLE_MS) + expired(
                old(self).udp@,
                now,
                UDP_IDLE_MS,
            ),
    {
        let mut gone: Vec<u64> = Vec::new();
        let ghost tcp = self.tcp@;
        let ghost udp = self.udp@;
        sweep(&mut self.tcp, now, TCP_IDLE_MS, &mut gone);
        sweep(&mut self.udp, now, UDP_IDLE_MS, &mut gone);
        proof {
            lemma_survivors_differ(tcp, now, TCP_IDLE_MS);
            lemma_survivors_differ(udp, now, UDP_IDLE_MS);
            assert forall|i: int| 0 <= i < self.tcp@.len() implies (
            #[trigger] self.tcp@[i]).key.proto == PROTO_TCP by {
                lemma_survivors_from(tcp, now, TCP_IDLE_MS, i);
            }
            assert forall|i: int| 0 <= i < self.udp@.len() implies (
            #[trigger] self.udp@[i]).key.proto == PROTO_UDP by {
                lemma_survivors_from(udp, now, UDP_IDLE_MS, i);
            }
            assert(gone@ =~= expired(tcp, now, TCP_IDLE_MS) + expired(udp, now, UDP_IDLE_MS));
        }
        gone
    }
}

proof fn lemma_same_keys(a: Seq<Flow>, b: Seq<Flow>)
    requires
        keys_differ(a),
        a.len() == b.len(),
        forall|i: int| 0 <= i < a.len() ==> (#[trigger] b[i]).key == a[i].key,
    ensures
        keys_differ(b),
        forall|i: int| 0 <= i < a.len() ==> (#[trigger] b[i]).key == a[i].key,
{
    assert forall|i: int, j: int| 0 <= i < j < b.len() implies (#[trigger] b[i]).key@ != (
    #[trigger] b[j]).key@ by {
        assert(a[i].key@ != a[j].key@);
    }
}

/// A flow is ended exactly if it has been idle for the limit: one that is still alive
/// stays, and one that is not loses its place.
pub proof fn lemma_eviction(flows: Seq<Flow>, now: u64, idle: u64, f: Flow)
    requires
        flows.contains(f),
    ensures
        survivors(flows, now, idle).contains(f) <==> alive(f, now, idle),
        !alive(f, now, idle) ==> expired(flows, now, idle).contains(f.handle),
    decreases flows.len(),
{
    let init = flows.drop_last();
    let at = choose|i: int| 0 <= i < flows.len() && flows[i] == f;
    let kept = survivors(flows, now, idle);
    let gone = expired(flows, now, idle);
    if kept.contains(f) {
        let k = choose|k: int| 0 <= k < kept.len() && kept[k] == f;
        lemma_survivors_from(flows, now, idle, k);
    }
    if at < init.len() {
        assert(init[at] == f);
        lemma_eviction(init, now, idle, f);
        if alive(f, now, idle) {
            let before = survivors(init, now, idle);
            let k = choose|k: int| 0 <= k < before.len() && before[k] == f;
            assert(kept[k] == f);
        } else {
            let before = expired(init, now, idle);
            let k = choose|k: int| 0 <= k < before.len() && before[k] == f.handle;
            assert(gone[k] == f.handle);
        }
    } else {
        assert(f == flows.last());
        if alive(f, now, idle) {
            assert(kept[kept.len() - 1] == f);
        } else {
            assert(gone[gone.len() - 1] == f.handle);
        }
    }
}

/// A packet of a flow that the table holds asks for nothing to be opened, whatever
/// else has been opened since.
pub proof fn lemma_known_flow_stays_known(flows: Seq<Flow>, key: FlowKeyView, other: Flow)
    requires
        has_key(flows, key),
    ensures
        has_key(flows.push(other), key),
{
    let i = choose|i: int| 0 <= i < flows.len() && (#[trigger] flows[i]).key@ == key;
    assert(flows.push(other)[i].key@ == key);
}

/// A TCP or UDP packet over IPv6 belongs to the flow that its parts name: the protocol,
/// the two addresses, and the two ports right behind the 40 bytes of the fixed header.
/// `label` is the rest of the first four bytes, `hops` the hop limit.
pub proof fn lemma_ipv6_flow(
    first: u8,
    label: Seq<u8>,
    length: Seq<u8>,
    proto: u8,
    hops: u8,
    src: Seq<u8>,
    dst: Seq<u8>,
    sport: u16,
    dport: u16,
    rest: Seq<u8>,
)
    requires
        0x60 <= first < 0x70,
        label.len() == 3,
        length.len() == 2,
        proto == 6 || proto == 17,
        src.len() == 16,
        dst.len() == 16,
    ensures
        flow_of(
            seq![first] + label + length + seq![proto, hops] + src + dst + seq![
                (sport / 256) as u8,
                (sport % 256) as u8,
                (dport / 256) as u8,
                (dport % 256) as u8,
            ] + rest,
        ) == Some(
            FlowKeyView {
                proto,
                src: SockAddrView::V6(src, sport),
                dst: SockAddrView::V6(dst, dport),
            },
        ),
{
    let ports = seq![
        (sport / 256) as u8,
        (sport % 256) as u8,
        (dport / 256) as u8,
        (dport % 256) as u8,
    ];
    let pkt = seq![first] + label + length + seq![proto, hops] + src + dst + ports + rest;
    crate::wire::lemma_be_pair(sport as nat);
    crate::wire::lemma_be_pair(dport as nat);
    assert(pkt.subrange(8, 24) =~= src);
    assert(pkt.subrange(24, 40) =~= dst);
    assert(pkt.subrange(40, 42) =~= seq![(sport / 256) as u8, (sport % 256) as u8]);
    assert(pkt.subrange(42, 44) =~= seq![(dport / 256) as u8, (dport % 256) as u8]);
}

/// A TCP or UDP packet over IPv4 belongs to the flow that its parts name, whatever the
/// length of its header: the ports stand behind the options, of which there are four bytes
/// for each word beyond five.
pub proof fn lemma_ipv4_flow(
    words: u8,
    middle: Seq<u8>,
    proto: u8,
    checksum: Seq<u8>,
    src: Seq<u8>,
    dst: Seq<u8>,
    options: Seq<u8>,
    sport: u16,
    dport: u16,
    rest: Seq<u8>,
)
    requires
        5 <= words <= 15,
        middle.len() == 8,
        proto == 6 || proto == 17,
        checksum.len() == 2,
        src.len() == 4,
        dst.len() == 4,
        options.len() == 4 * (words - 5),
    ensures
        flow_of(
            seq![(0x40 + words) as u8] + middle + seq![proto] + checksum + src + dst + options
                + seq![
                (sport / 256) as u8,
                (sport % 256) as u8,
                (dport / 256) as u8,
                (dport % 256) as u8,
            ] + rest,
        ) == Some(
            FlowKeyView {
                proto,
                src: SockAddrView::V4(src, sport),
                dst: SockAddrView::V4(dst, dport),
            },
        ),
{
    let ports = seq![
        (sport / 256) as u8,
        (sport % 256) as u8,
        (dport / 256) as u8,
        (dport % 256) as u8,
    ];
    let pkt = seq![(0x40 + words) as u8] + middle + seq![proto] + checksum + src + dst + options
        + ports + rest;
    let at = 4 * words;
    crate::wire::lemma_be_pair(sport as nat);
    crate::wire::lemma_be_pair(dport as nat);
    assert(pkt.subrange(12, 16) =~= src);
    assert(pkt.subrange(16, 20) =~= dst);
    assert(pkt.subrange(at, at + 2) =~= seq![(sport / 256) as u8, (sport % 256) as u8]);
    assert(pkt.subrange(at + 2, at + 4) =~= seq![(dport / 256) as u8, (dport % 256) as u8]);
}

/// A packet has a flow exactly if it is a TCP or UDP one over IPv4 or IPv6 and reaches past
/// its ports, and the flow is the one that its bytes name.
pub proof fn lemma_flow_bytes(pkt: Seq<u8>)
    ensures
        flow_of(pkt) is Some <==> {
            ||| {
                &&& pkt.len() >= 20
                &&& 0x40 <= pkt[0] < 0x50
                &&& pkt[9] == 6 || pkt[9] == 17
                &&& pkt.len() >= 4 * (pkt[0] - 0x40) + 4
            }
            ||| {
                &&& pkt.len() >= 44
                &&& 0x60 <= pkt[0] < 0x70
                &&& pkt[6] == 6 || pkt[6] == 17
            }
        },
        flow_of(pkt) matches Some(key) ==> match key.src {
            SockAddrView::V4(src, sport) => {
                &&& 0x40 <= pkt[0] < 0x50
                &&& key.proto == pkt[9]
                &&& src == seq![pkt[12], pkt[13], pkt[14], pkt[15]]
                &&& sport == pkt[4 * (pkt[0] - 0x40)] * 256 + pkt[4 * (pkt[0] - 0x40) + 1]
                &&& key.dst matches SockAddrView::V4(dst, dport)
                &&& dst == seq![pkt[16], pkt[17], pkt[18], pkt[19]]
                &&& dport == pkt[4 * (pkt[0] - 0x40) + 2] * 256 + pkt[4 * (pkt[0] - 0x40) + 3]
            },
            SockAddrView::V6(src, sport) => {
                &&& 0x60 <= pkt[0] < 0x70
                &&& key.proto == pkt[6]
                &&& src == Seq::new(16, |i: int| pkt[8 + i])
                &&& sport == pkt[40] * 256 + pkt[41]
                &&& key.dst matches SockAddrView::V6(dst, dport)
                &&& dst == Seq::new(16, |i: int| pkt[24 + i])
                &&& dport == pkt[42] * 256 + pkt[43]
            },
        },
{
    if flow_of(pkt) is Some {
        let key = flow_of(pkt)->Some_0;
        if pkt[0] / 16 == 4 {
            let at = (pkt[0] % 16) * 4;
            assert(at == 4 * (pkt[0] - 0x40));
            crate::wire::lemma_be_value_2(pkt.subrange(at, at + 2));
            crate::wire::lemma_be_value_2(pkt.subrange(at + 2, at + 4));
            assert(pkt.subrange(12, 16) =~= seq![pkt[12], pkt[13], pkt[14], pkt[15]]);
            assert(pkt.subrange(16, 20) =~= seq![pkt[16], pkt[17], pkt[18], pkt[19]]);
        } else {
            crate::wire::lemma_be_value_2(pkt.subrange(40, 42));
            crate::wire::lemma_be_value_2(pkt.subrange(42, 44));
            assert(pkt.subrange(8, 24) =~= Seq::new(16, |i: int| pkt[8 + i]));
            assert(pkt.subrange(24, 40) =~= Seq::new(16, |i: int| pkt[24 + i]));
        }
    }
}

/// A TCP flow lives for less than five idle minutes, a UDP flow for less than one.
pub proof fn lemma_idle_limits(f: Flow, now: u64)
    requires
        now >= f.last_active,
    ensures
        alive(f, now, TCP_IDLE_MS) <==> now - f.last_active < 5 * 60 * 1000,
        alive(f, now, UDP_IDLE_MS) <==> now - f.last_active < 60 * 1000,
{
}

/// A TCP flow starts to be relayed once: the flows that start are those that wait and are
/// established, in their order and each with its own destination, and after that none of
/// them starts again.
pub proof fn lemma_relays_start_once(flows: Seq<Flow>, f: Flow, established: Seq<u64>)
    ensures
        starting(flows.push(f), established) == if !f.relaying && established.contains(f.handle) {
            starting(flows, established).push((f.handle, f.key.dst@))
        } else {
            starting(flows, established)
        },
        starting(
            Seq::new(flows.len(), |i: int| started(flows[i], established)),
            established,
        ).len() == 0,
        established.contains(f.handle) ==> started(f, established).relaying,
        !established.contains(f.handle) ==> started(f, established) == f,
        started(f, established).key == f.key,
        started(f, established).handle == f.handle,
        started(f, established).last_active == f.last_active,
    decreases flows.len(),
{
    assert(flows.push(f).drop_last() =~= flows);
    let after = Seq::new(flows.len(), |i: int| started(flows[i], established));
    if flows.len() > 0 {
        let init = flows.drop_last();
        lemma_relays_start_once(init, f, established);
        assert(after.drop_last() =~= Seq::new(
            init.len(),
            |i: int| started(init[i], established),
        ));
    }
}

/// Data that goes through a flow keeps it, and no other, alive from then on, and changes
/// nothing else about it.
pub proof fn lemma_activity_keeps_alive(f: Flow, handle: u64, now: u64, later: u64, idle: u64)
    requires
        now <= later,
    ensures
        f.handle == handle ==> (alive(touched(f, handle, now), later, idle) <==> later - now
            < idle),
        f.handle != handle ==> touched(f, handle, now) == f,
        touched(f, handle, now).key == f.key,
        touched(f, handle, now).handle == f.handle,
        touched(f, handle, now).relaying == f.relaying,
{
}

} // verus!
