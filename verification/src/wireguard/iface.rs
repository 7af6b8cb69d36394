//! The network card that a peer's IP stack runs on: two queues of IP packets.
use std::collections::VecDeque;
use vstd::prelude::*;

verus! {

/// The largest IP packet that the card takes.
pub const MTU: usize = 1500;

/// Packets for the stack in `rx`, packets from the stack in `tx`, oldest first.
pub struct VirtualDevice {
    pub rx: VecDeque<Vec<u8>>,
    pub tx: VecDeque<Vec<u8>>,
}

/// A packet that the stack has taken.
pub struct VirtRx(pub Vec<u8>);

/// The right to send one packet.
pub struct VirtTx<'a>(pub &'a mut VecDeque<Vec<u8>>);

impl VirtualDevice {
    /// A card with nothing in either queue.
    pub fn new() -> (r: VirtualDevice)
        ensures
            r.rx@.len() == 0,
            r.tx@.len() == 0,
    {
        VirtualDevice { rx: VecDeque::new(), tx: VecDeque::new() }
    }

    /// Queues a packet for the stack, behind those that wait.
    pub fn inject(&mut self, pkt: Vec<u8>)
        ensures
            final(self).rx@ == old(self).rx@.push(pkt),
            final(self).tx == old(self).tx,
    {
        self.rx.push_back(pkt);
    }

    /// Hands the stack the oldest packet that waits, with the right to answer it;
    /// nothing, where none waits.
    pub fn receive(&mut self) -> (r: Option<(VirtRx, VirtTx<'_>)>)
        ensures
            match r {
                None => {
                    &&& old(self).rx@.len() == 0
                    &&& final(self).rx@ == old(self).rx@
                    &&& final(self).tx == old(self).tx
                },
                Some((rx, tx)) => {
                    &&& old(self).rx@.len() > 0
                    &&& rx.0@ == old(self).rx@[0]@
                    &&& final(self).rx@ == old(self).rx@.subrange(1, old(self).rx@.len() as int)
                    &&& *tx.0 == old(self).tx
                    &&& final(self).tx == *final(tx.0)
                },
            },
    {
        match self.rx.pop_front() {
            None => None,
            Some(pkt) => Some((VirtRx(pkt), VirtTx(&mut self.tx))),
        }
    }

    /// Hands the stack the right to send a packet.
    pub fn transmit(&mut self) -> (r: VirtTx<'_>)
        ensures
            *r.0 == old(self).tx,
            final(self).tx == *final(r.0),
            final(self).rx == old(self).rx,
    {
        VirtTx(&mut self.tx)
    }

    /// Takes what the stack has sent, in the order in which it was sent.
    pub fn drain_tx(&mut self) -> (r: Vec<Vec<u8>>)
        ensures
            r@ == old(self).tx@,
            final(self).tx@.len() == 0,
            final(self).rx == old(self).rx,
    {
        let mut out: Vec<Vec<u8>> = Vec::new();
        let ghost sent = self.tx@;
        while self.tx.len() > 0
            invariant
                out@ + self.tx@ == sent,
                self.rx == old(self).rx,
            decreases self.tx@.len(),
        {
            match self.tx.pop_front() {
                Some(pkt) => {
                    out.push(pkt);
                    assert(out@ + self.tx@ =~= sent);
                },
                None => {},
            }
        }
        assert(out@ =~= sent);
        out
    }
}

impl<'a> VirtTx<'a> {
    /// Queues a packet behind those already sent.
    pub fn send(self, pkt: Vec<u8>)
        ensures
            (*final(self.0))@ == (*old(self.0))@.push(pkt),
    {
        self.0.push_back(pkt);
    }
}

} // verus!
