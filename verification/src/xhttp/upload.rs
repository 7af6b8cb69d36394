//! The upload side of a stream: chunks that arrive in order, and numbered packets that may
//! not.
use crate::wire::copy_range;
use vstd::prelude::*;

verus! {

/// What a request brings.
pub enum UploadPacket {
    /// The next part of a streamed body.
    Chunk(Vec<u8>),
    /// One packet of a numbered series.
    Packet(u64, Vec<u8>),
    /// The connection is closed.
    Eof,
}

/// The mathematical counterpart of [`UploadPacket`].
pub enum UploadView {
    Chunk(Seq<u8>),
    Packet(u64, Seq<u8>),
    Eof,
}

impl View for UploadPacket {
    type V = UploadView;

    open spec fn view(&self) -> UploadView {
        match *self {
            UploadPacket::Chunk(d) => UploadView::Chunk(d@),
            UploadPacket::Packet(n, d) => UploadView::Packet(n, d@),
            UploadPacket::Eof => UploadView::Eof,
        }
    }
}

/// What an upload holds back: numbered packets in the order of their arrival, the number
/// that is read next, the unread rest of the packet and of the chunk that are being read.
#[verifier::ext_equal]
pub struct QueueView {
    pub packets: Seq<(u64, Seq<u8>)>,
    pub next_seq: u64,
    pub leftover: Seq<u8>,
    pub stream: Seq<u8>,
    pub eof: bool,
}

/// Nothing has arrived.
pub open spec fn empty_queue() -> QueueView {
    QueueView {
        packets: Seq::empty(),
        next_seq: 0,
        leftover: Seq::empty(),
        stream: Seq::empty(),
        eof: false,
    }
}

/// Whether packet `i` is to be read next: it has the next number, is the first to have it,
/// and no packet with a smaller number is held.
pub open spec fn due_at(q: QueueView, i: int) -> bool {
    &&& 0 <= i < q.packets.len()
    &&& q.packets[i].0 == q.next_seq
    &&& forall|k: int| 0 <= k < q.packets.len() ==> (#[trigger] q.packets[k]).0 >= q.next_seq
    &&& forall|k: int| 0 <= k < i ==> (#[trigger] q.packets[k]).0 != q.next_seq
}

/// Whether some packet is to be read next.
pub open spec fn has_due(q: QueueView) -> bool {
    exists|i: int| due_at(q, i)
}

/// The smaller of two numbers.
pub open spec fn min_of(a: nat, b: nat) -> int {
    if a <= b {
        a as int
    } else {
        b as int
    }
}

/// A read of at most `cap` bytes: what it gives, and what is held back after it. Nothing
/// comes back where more has to arrive first. A rest is read before anything new, and the
/// end is reported only once nothing is left to read.
pub open spec fn read_step(q: QueueView, cap: nat) -> (Option<Seq<u8>>, QueueView) {
    if q.leftover.len() > 0 {
        let n = min_of(q.leftover.len(), cap);
        (Some(q.leftover.take(n)), QueueView { leftover: q.leftover.skip(n), ..q })
    } else if q.stream.len() > 0 {
        let n = min_of(q.stream.len(), cap);
        (Some(q.stream.take(n)), QueueView { stream: q.stream.skip(n), ..q })
    } else if has_due(q) {
        let i = choose|i: int| due_at(q, i);
        let data = q.packets[i].1;
        let n = min_of(data.len(), cap);
        (
            Some(data.take(n)),
            QueueView {
                packets: q.packets.remove(i),
                next_seq: (q.next_seq + 1) as u64,
                leftover: data.skip(n),
                ..q
            },
        )
    } else if q.eof {
        (Some(Seq::empty()), q)
    } else {
        (None, q)
    }
}

/// What an arrival adds, where nothing else can be read: a chunk is read at once, and the
/// end of the connection, like that of the channel, at once ends a read.
pub open spec fn arrive_step(q: QueueView, p: UploadView, cap: nat) -> (
    Option<Seq<u8>>,
    QueueView,
) {
    match p {
        UploadView::Chunk(d) => {
            let n = min_of(d.len(), cap);
            (Some(d.take(n)), QueueView { stream: d.skip(n), ..q })
        },
        UploadView::Packet(seq, d) => read_step(
            QueueView { packets: q.packets.push((seq, d)), ..q },
            cap,
        ),
        UploadView::Eof => (Some(Seq::empty()), QueueView { eof: true, ..q }),
    }
}

/// Only one packet is due.
pub proof fn lemma_due_unique(q: QueueView, i: int, j: int)
    requires
        due_at(q, i),
        due_at(q, j),
    ensures
        i == j,
{
    if i < j {
        assert(q.packets[i].0 != q.next_seq);
    } else if j < i {
        assert(q.packets[j].0 != q.next_seq);
    }
}

/// The packets as pairs of number and data.
pub open spec fn packet_views(v: Seq<(u64, Vec<u8>)>) -> Seq<(u64, Seq<u8>)> {
    v.map_values(|p: (u64, Vec<u8>)| (p.0, p.1@))
}

/// An upload that is being read.
pub struct UploadQueue {
    packets: Vec<(u64, Vec<u8>)>,
    next_seq: u64,
    leftover: Vec<u8>,
    stream_buf: Vec<u8>,
    eof: bool,
}

/// The view of what a read gives.
pub open spec fn bytes_view(r: Option<Vec<u8>>) -> Option<Seq<u8>> {
    match r {
        Some(v) => Some(v@),
        None => None,
    }
}

/// Splits `data` after at most `cap` bytes.
fn split_bytes(data: &[u8], cap: usize) -> (r: (Vec<u8>, Vec<u8>))
    ensures
        ({
            let n = min_of(data@.len(), cap as nat);
            r.0@ == data@.take(n) && r.1@ == data@.skip(n)
        }),
{
    let len: usize = data.len();
    let n: usize = if len <= cap {
        len
    } else {
        cap
    };
    let head = copy_range(data, 0, n);
    let tail = copy_range(data, n, len);
    assert(head@ =~= data@.take(n as int));
    assert(tail@ =~= data@.skip(n as int));
    (head, tail)
}

impl UploadQueue {
    pub closed spec fn state(&self) -> QueueView {
        QueueView {
            packets: packet_views(self.packets@),
            next_seq: self.next_seq,
            leftover: self.leftover@,
            stream: self.stream_buf@,
            eof: self.eof,
        }
    }

    pub fn new() -> (r: Self)
        ensures
            r.state() == empty_queue(),
    {
        let r = UploadQueue {
            packets: Vec::new(),
            next_seq: 0,
            leftover: Vec::new(),
            stream_buf: Vec::new(),
            eof: false,
        };
        assert(r.state() =~= empty_queue());
        r
    }

    /// The packet that is to be read next.
    fn find_due(&self) -> (r: Option<usize>)
        ensures
            match r {
                Some(i) => due_at(self.state(), i as int),
                None => !has_due(self.state()),
            },
    {
        let mut found: Option<usize> = None;
        let mut i: usize = 0;
        let ghost q = self.state();
        while i < self.packets.len()
            invariant
                q == self.state(),
                i <= self.packets@.len(),
                q.packets.len() == self.packets@.len(),
                forall|k: int| 0 <= k < i ==> (#[trigger] q.packets[k]).0 >= q.next_seq,
                match found {
                    Some(f) => f < i && q.packets[f as int].0 == q.next_seq && (forall|k: int|
                        0 <= k < f ==> (#[trigger] q.packets[k]).0 != q.next_seq),
                    None => forall|k: int|
                        0 <= k < i ==> (#[trigger] q.packets[k]).0 != q.next_seq,
                },
            decreases self.packets@.len() - i,
        {
            let seq: u64 = self.packets[i].0;
            assert(q.packets[i as int].0 == seq);
            if seq < self.next_seq {
                assert(!has_due(q)) by {
                    if has_due(q) {
                        let j = choose|j: int| due_at(q, j);
                        assert(q.packets[i as int].0 >= q.next_seq);
                    }
                }
                return None;
            }
            if seq == self.next_seq && found.is_none() {
                found = Some(i);
            }
            i = i + 1;
        }
        proof {
            match found {
                Some(f) => {
                    assert(due_at(q, f as int));
                },
                None => {
                    if has_due(q) {
                        let j = choose|j: int| due_at(q, j);
                        assert(q.packets[j].0 != q.next_seq);
                    }
                },
            }
        }
        found
    }

    /// Reads at most `cap` bytes of what has arrived.
    pub fn read(&mut self, cap: usize) -> (r: Option<Vec<u8>>)
        requires
            old(self).state().next_seq < u64::MAX,
        ensures
            (bytes_view(r), final(self).state()) == read_step(old(self).state(), cap as nat),
    {
        let ghost q = self.state();
        if self.leftover.len() > 0 {
            let (head, tail) = split_bytes(self.leftover.as_slice(), cap);
            self.leftover = tail;
            assert(self.state() =~= read_step(q, cap as nat).1);
            return Some(head);
        }
        if self.stream_buf.len() > 0 {
            let (head, tail) = split_bytes(self.stream_buf.as_slice(), cap);
            self.stream_buf = tail;
            assert(self.state() =~= read_step(q, cap as nat).1);
            return Some(head);
        }
        match self.find_due() {
            Some(i) => {
                proof {
                    let j = choose|j: int| due_at(q, j);
                    lemma_due_unique(q, i as int, j);
                }
                let (seq, data) = self.packets.remove(i);
                let (head, tail) = split_bytes(data.as_slice(), cap);
                self.leftover = tail;
                self.next_seq = self.next_seq + 1;
                assert(packet_views(self.packets@) =~= q.packets.remove(i as int));
                assert(self.state() =~= read_step(q, cap as nat).1);
                Some(head)
            },
            None => {
                if self.eof {
                    let none: Vec<u8> = Vec::new();
                    assert(none@ =~= Seq::<u8>::empty());
                    return Some(none);
                }
                None
            },
        }
    }

    /// Takes an arrival after a read that gave nothing, and goes on with that read.
    pub fn arrive(&mut self, p: UploadPacket, cap: usize) -> (r: Option<Vec<u8>>)
        requires
            old(self).state().next_seq < u64::MAX,
            read_step(old(self).state(), cap as nat).0 is None,
        ensures
            (bytes_view(r), final(self).state()) == arrive_step(old(self).state(), p@, cap as nat),
    {
        let ghost q = self.state();
        match p {
            UploadPacket::Chunk(d) => {
                let (head, tail) = split_bytes(d.as_slice(), cap);
                self.stream_buf = tail;
                assert(self.state() =~= arrive_step(q, p@, cap as nat).1);
                Some(head)
            },
            UploadPacket::Packet(seq, d) => {
                let ghost dv = d@;
                self.packets.push((seq, d));
                assert(packet_views(self.packets@) =~= q.packets.push((seq, dv)));
                assert(self.state() =~= (QueueView { packets: q.packets.push((seq, dv)), ..q }));
                self.read(cap)
            },
            UploadPacket::Eof => {
                self.eof = true;
                let none: Vec<u8> = Vec::new();
                assert(none@ =~= Seq::<u8>::empty());
                assert(self.state() =~= arrive_step(q, p@, cap as nat).1);
                Some(none)
            },
        }
    }
}

/// What happens to an upload.
pub enum UploadEvent {
    /// A numbered packet arrives.
    Packet(u64, Seq<u8>),
    /// Something reads.
    Read(nat),
}

/// What has been read, and what is held back, after a series of events.
pub open spec fn upload_run(events: Seq<UploadEvent>) -> (Seq<u8>, QueueView)
    decreases events.len(),
{
    if events.len() == 0 {
        (Seq::empty(), empty_queue())
    } else {
        let (out, q) = upload_run(events.drop_last());
        match events.last() {
            UploadEvent::Packet(seq, d) => (
                out,
                QueueView { packets: q.packets.push((seq, d)), ..q },
            ),
            UploadEvent::Read(cap) => {
                let (got, after) = read_step(q, cap);
                (
                    match got {
                        Some(b) => out + b,
                        None => out,
                    },
                    after,
                )
            },
        }
    }
}

/// The first `n` packets of a series, one after the other.
pub open spec fn in_order(series: spec_fn(nat) -> Seq<u8>, n: nat) -> Seq<u8>
    decreases n,
{
    if n == 0 {
        Seq::empty()
    } else {
        in_order(series, (n - 1) as nat) + series((n - 1) as nat)
    }
}

/// Whether every packet that arrives is the one of the series with its number.
pub open spec fn from_series(events: Seq<UploadEvent>, series: spec_fn(nat) -> Seq<u8>) -> bool {
    forall|i: int|
        0 <= i < events.len() ==> ((#[trigger] events[i]) matches UploadEvent::Packet(seq, d) ==> d
            == series(seq as nat))
}

/// In whatever order the packets of a series arrive, and however they are read, what is
/// read is the series in order, up to somewhere in the packet before the next number. As
/// many packets are behind the reader as have been read, as long as the numbers last.
pub proof fn lemma_read_in_order(events: Seq<UploadEvent>, series: spec_fn(nat) -> Seq<u8>)
    requires
        from_series(events, series),
        events.len() < u64::MAX,
    ensures
        ({
            let (out, q) = upload_run(events);
            &&& out + q.leftover == in_order(series, q.next_seq as nat)
            &&& q.next_seq <= events.len()
            &&& q.stream.len() == 0
            &&& !q.eof
            &&& forall|i: int|
                0 <= i < q.packets.len() ==> (#[trigger] q.packets[i]).1 == series(
                    q.packets[i].0 as nat,
                )
        }),
    decreases events.len(),
{
    if events.len() == 0 {
        assert(Seq::<u8>::empty() + Seq::<u8>::empty() =~= Seq::<u8>::empty());
    } else {
        let before = events.drop_last();
        assert forall|i: int| 0 <= i < before.len() implies ((
        #[trigger] before[i]) matches UploadEvent::Packet(seq, d) ==> d == series(seq as nat)) by {
            assert(before[i] == events[i]);
        }
        lemma_read_in_order(before, series);
        let (out, q) = upload_run(before);
        match events.last() {
            UploadEvent::Packet(seq, d) => {
                assert(events[events.len() - 1] == events.last());
            },
            UploadEvent::Read(cap) => {
                let (got, after) = read_step(q, cap);
                if q.leftover.len() > 0 {
                    let n = min_of(q.leftover.len(), cap);
                    assert(out + q.leftover.take(n) + q.leftover.skip(n) =~= out + q.leftover);
                } else if has_due(q) {
                    let i = choose|i: int| due_at(q, i);
                    let data = q.packets[i].1;
                    let n = min_of(data.len(), cap);
                    assert(out + q.leftover =~= out);
                    assert(out + data.take(n) + data.skip(n) =~= out + data);
                    assert(data == series(q.next_seq as nat));
                    assert forall|k: int| 0 <= k < after.packets.len() implies (
                    #[trigger] after.packets[k]).1 == series(after.packets[k].0 as nat) by {
                        if k < i {
                            assert(after.packets[k] == q.packets[k]);
                        } else {
                            assert(after.packets[k] == q.packets[k + 1]);
                        }
                    }
                }
            },
        }
    }
}

/// Once the packet with the next number is there, and none with a smaller number, a read
/// finds it: nothing that arrived early or late holds it up.
pub proof fn lemma_next_packet_is_read(q: QueueView, i: int, cap: nat)
    requires
        0 <= i < q.packets.len(),
        q.packets[i].0 == q.next_seq,
        forall|k: int| 0 <= k < q.packets.len() ==> (#[trigger] q.packets[k]).0 >= q.next_seq,
        q.leftover.len() == 0,
        q.stream.len() == 0,
        q.next_seq < u64::MAX,
    ensures
        read_step(q, cap).0 is Some,
        read_step(q, cap).1.next_seq == q.next_seq + 1,
    decreases i,
{
    if forall|k: int| 0 <= k < i ==> (#[trigger] q.packets[k]).0 != q.next_seq {
        assert(due_at(q, i));
    } else {
        let k = choose|k: int| 0 <= k < i && (#[trigger] q.packets[k]).0 == q.next_seq;
        lemma_next_packet_is_read(q, k, cap);
    }
}

/// A read that waits: what has arrived is read first, and only where that gives nothing is
/// the next arrival taken from the channel. What is read, what is held back after it, and
/// what is left in the channel; nothing comes back where the channel runs dry.
pub open spec fn poll_step(q: QueueView, channel: Seq<UploadView>, cap: nat) -> (
    Option<Seq<u8>>,
    QueueView,
    Seq<UploadView>,
)
    decreases channel.len(),
{
    let (got, after) = read_step(q, cap);
    if got is Some {
        (got, after, channel)
    } else if channel.len() == 0 {
        (None, q, channel)
    } else {
        let (got, after) = arrive_step(q, channel[0], cap);
        if got is Some {
            (got, after, channel.skip(1))
        } else {
            poll_step(after, channel.skip(1), cap)
        }
    }
}

/// What one read after another gives, up to the first empty one, and whether there was one.
pub open spec fn read_run(q: QueueView, channel: Seq<UploadView>, caps: Seq<nat>) -> (
    Seq<u8>,
    bool,
)
    decreases caps.len(),
{
    if caps.len() == 0 {
        (Seq::empty(), false)
    } else {
        let (got, after, rest) = poll_step(q, channel, caps[0]);
        match got {
            None => (Seq::empty(), false),
            Some(b) => if b.len() == 0 {
                (Seq::empty(), true)
            } else {
                let (more, ended) = read_run(after, rest, caps.skip(1));
                (b + more, ended)
            },
        }
    }
}

/// A channel with packets, and the end behind them.
pub open spec fn whole_channel(packets: Seq<(u64, Seq<u8>)>) -> Seq<UploadView> {
    packets.map_values(|p: (u64, Seq<u8>)| UploadView::Packet(p.0, p.1)).push(UploadView::Eof)
}

/// Whether some packet has the number `k`.
pub open spec fn has_number(packets: Seq<(u64, Seq<u8>)>, k: nat) -> bool {
    exists|i: int| 0 <= i < packets.len() && (#[trigger] packets[i]).0 == k
}

/// Whether the packets are those of a series from number `from` to before `n`, each once, in
/// any order.
pub open spec fn complete_from(
    packets: Seq<(u64, Seq<u8>)>,
    series: spec_fn(nat) -> Seq<u8>,
    from: nat,
    n: nat,
) -> bool {
    &&& forall|i: int|
        0 <= i < packets.len() ==> from <= (#[trigger] packets[i]).0 < n && packets[i].1 == series(
            packets[i].0 as nat,
        )
    &&& forall|i: int, j: int|
        0 <= i < j < packets.len() ==> (#[trigger] packets[i]).0 != (#[trigger] packets[j]).0
    &&& forall|k: nat| from <= k < n ==> #[trigger] has_number(packets, k)
}

/// The packets of a series from number `from` to before `n`, one after the other.
pub open spec fn between(series: spec_fn(nat) -> Seq<u8>, from: nat, n: nat) -> Seq<u8>
    decreases n - from,
{
    if from >= n {
        Seq::empty()
    } else {
        series(from) + between(series, from + 1, n)
    }
}

proof fn lemma_between(series: spec_fn(nat) -> Seq<u8>, k: nat, n: nat)
    requires
        k <= n,
    ensures
        in_order(series, k) + between(series, k, n) == in_order(series, n),
    decreases n - k,
{
    if k < n {
        lemma_between(series, k + 1, n);
        assert(in_order(series, k) + (series(k) + between(series, k + 1, n)) =~= in_order(series, k)
            + series(k) + between(series, k + 1, n));
    } else {
        assert(in_order(series, k) + Seq::<u8>::empty() =~= in_order(series, k));
    }
}

/// Whether what is held back, with what is in the channel, is the rest of a series.
spec fn on_course(
    q: QueueView,
    packets: Seq<(u64, Seq<u8>)>,
    series: spec_fn(nat) -> Seq<u8>,
    n: nat,
) -> bool {
    &&& q.next_seq <= n < u64::MAX
    &&& q.stream.len() == 0
    &&& !q.eof
    &&& complete_from(q.packets + packets, series, q.next_seq as nat, n)
    &&& forall|k: nat| k < n ==> (#[trigger] series(k)).len() > 0
}

/// What is still to be read of a series.
spec fn unread(q: QueueView, series: spec_fn(nat) -> Seq<u8>, n: nat) -> Seq<u8> {
    q.leftover + between(series, q.next_seq as nat, n)
}

/// The series stays on course when the packet that is due is taken out.
proof fn lemma_due_taken(
    packets: Seq<(u64, Seq<u8>)>,
    series: spec_fn(nat) -> Seq<u8>,
    from: nat,
    n: nat,
    i: int,
)
    requires
        complete_from(packets, series, from, n),
        0 <= i < packets.len(),
        packets[i].0 == from,
    ensures
        complete_from(packets.remove(i), series, from + 1, n),
{
    let less = packets.remove(i);
    assert forall|k: int| 0 <= k < less.len() implies from + 1 <= (#[trigger] less[k]).0 < n
        && less[k].1 == series(less[k].0 as nat) by {
        let j = if k < i {
            k
        } else {
            k + 1
        };
        assert(less[k] == packets[j]);
        if j < i {
            assert(packets[j].0 != packets[i].0);
        } else {
            assert(packets[i].0 != packets[j].0);
        }
    }
    assert forall|a: int, b: int| 0 <= a < b < less.len() implies (#[trigger] less[a]).0 != (
    #[trigger] less[b]).0 by {
        let x = if a < i {
            a
        } else {
            a + 1
        };
        let y = if b < i {
            b
        } else {
            b + 1
        };
        assert(packets[x].0 != packets[y].0);
    }
    assert forall|k: nat| from + 1 <= k < n implies #[trigger] has_number(less, k) by {
        assert(has_number(packets, k));
        let j = choose|j: int| 0 <= j < packets.len() && (#[trigger] packets[j]).0 == k;
        if j < i {
            assert(less[j].0 == k);
        } else {
            assert(less[j - 1].0 == k);
        }
    }
}

/// A read of a series that is on course gives the next bytes, or none where all of it has
/// been read. What comes back is what is left in the channel.
proof fn lemma_poll_on_course(
    q: QueueView,
    packets: Seq<(u64, Seq<u8>)>,
    series: spec_fn(nat) -> Seq<u8>,
    n: nat,
    cap: nat,
) -> (later: Seq<(u64, Seq<u8>)>)
    requires
        on_course(q, packets, series, n),
        cap > 0,
    ensures
        ({
            let (got, after, rest) = poll_step(q, whole_channel(packets), cap);
            if unread(q, series, n).len() == 0 {
                got == Some(Seq::<u8>::empty())
            } else {
                &&& got is Some
                &&& 0 < got->Some_0.len() <= cap
                &&& rest == whole_channel(later)
                &&& on_course(after, later, series, n)
                &&& got->Some_0 + unread(after, series, n) == unread(q, series, n)
            }
        }),
    decreases packets.len(),
{
    let channel = whole_channel(packets);
    let (got, after) = read_step(q, cap);
    let all = q.packets + packets;
    let ahead = between(series, q.next_seq as nat, n);
    if q.leftover.len() > 0 {
        let m = min_of(q.leftover.len(), cap);
        assert(q.leftover.take(m) + (q.leftover.skip(m) + ahead) =~= q.leftover + ahead);
        packets
    } else if has_number(q.packets, q.next_seq as nat) {
        let j = choose|j: int|
            0 <= j < q.packets.len() && (#[trigger] q.packets[j]).0 == q.next_seq as nat;
        assert forall|k: int| 0 <= k < q.packets.len() implies (#[trigger] q.packets[k]).0
            >= q.next_seq by {
            assert(all[k] == q.packets[k]);
        }
        assert forall|k: int| 0 <= k < j implies (#[trigger] q.packets[k]).0 != q.next_seq by {
            assert(all[k] == q.packets[k] && all[j] == q.packets[j]);
        }
        assert(due_at(q, j));
        let i = choose|i: int| due_at(q, i);
        lemma_due_unique(q, i, j);
        assert(all[i] == q.packets[i]);
        assert(q.next_seq < n);
        let data = q.packets[i].1;
        assert(data == series(q.next_seq as nat));
        let m = min_of(data.len(), cap);
        let behind = between(series, q.next_seq as nat + 1, n);
        assert(ahead == data + behind);
        assert(data.take(m) + (data.skip(m) + behind) =~= q.leftover + (data + behind));
        lemma_due_taken(all, series, q.next_seq as nat, n, i);
        assert(after.packets + packets =~= all.remove(i));
        packets
    } else {
        assert(!has_due(q)) by {
            if has_due(q) {
                let i = choose|i: int| due_at(q, i);
                assert(q.packets[i].0 == q.next_seq as nat);
            }
        }
        assert(got is None);
        if packets.len() == 0 {
            assert(channel[0] == UploadView::Eof);
            assert(all =~= q.packets);
            assert(q.next_seq >= n) by {
                if q.next_seq < n {
                    assert(has_number(all, q.next_seq as nat));
                }
            }
            packets
        } else {
            let first = packets[0];
            let q1 = QueueView { packets: q.packets.push(first), ..q };
            assert(channel[0] == UploadView::Packet(first.0, first.1));
            assert(channel.skip(1) =~= whole_channel(packets.skip(1)));
            assert(q1.packets + packets.skip(1) =~= all);
            assert(arrive_step(q, channel[0], cap) == read_step(q1, cap));
            assert(read_step(q1, cap).0 is None ==> read_step(q1, cap).1 == q1);
            assert(poll_step(q, channel, cap) == poll_step(q1, channel.skip(1), cap));
            lemma_poll_on_course(q1, packets.skip(1), series, n, cap)
        }
    }
}

proof fn lemma_run_on_course(
    q: QueueView,
    packets: Seq<(u64, Seq<u8>)>,
    series: spec_fn(nat) -> Seq<u8>,
    n: nat,
    caps: Seq<nat>,
)
    requires
        on_course(q, packets, series, n),
        forall|i: int| 0 <= i < caps.len() ==> #[trigger] caps[i] > 0,
    ensures
        ({
            let (out, ended) = read_run(q, whole_channel(packets), caps);
            &&& out.is_prefix_of(unread(q, series, n))
            &&& ended ==> out == unread(q, series, n)
            &&& !ended ==> out.len() >= caps.len()
        }),
    decreases caps.len(),
{
    let all = unread(q, series, n);
    if caps.len() > 0 {
        let later = lemma_poll_on_course(q, packets, series, n, caps[0]);
        let (got, after, rest) = poll_step(q, whole_channel(packets), caps[0]);
        if all.len() == 0 {
            assert(Seq::<u8>::empty() =~= all);
        } else {
            lemma_run_on_course(after, later, series, n, caps.skip(1));
            let (more, ended) = read_run(after, rest, caps.skip(1));
            let left = unread(after, series, n);
            let b = got->Some_0;
            assert(more =~= left.subrange(0, more.len() as int));
            assert(b + more =~= all.subrange(0, (b + more).len() as int)) by {
                assert(all == b + left);
            }
        }
    } else {
        assert(Seq::<u8>::empty() =~= all.subrange(0, 0));
    }
}

/// No read gives more than it asks for.
pub proof fn lemma_read_fits(q: QueueView, channel: Seq<UploadView>, cap: nat)
    ensures
        poll_step(q, channel, cap).0 matches Some(b) ==> b.len() <= cap,
    decreases channel.len(),
{
    if read_step(q, cap).0 is None && channel.len() > 0 {
        let (got, after) = arrive_step(q, channel[0], cap);
        if got is None {
            lemma_read_fits(after, channel.skip(1), cap);
        }
    }
}

/// A series of `n` packets that are not empty arrives, each once and in whatever order, and
/// then the end. However much is asked for at a time, what is read up to the first empty
/// read is the whole series in order; and there is an empty read as soon as there are more
/// reads than bytes.
pub proof fn lemma_whole_series_is_read(
    packets: Seq<(u64, Seq<u8>)>,
    series: spec_fn(nat) -> Seq<u8>,
    n: nat,
    caps: Seq<nat>,
)
    requires
        n < u64::MAX,
        complete_from(packets, series, 0, n),
        forall|k: nat| k < n ==> (#[trigger] series(k)).len() > 0,
        forall|i: int| 0 <= i < caps.len() ==> #[trigger] caps[i] > 0,
    ensures
        ({
            let (out, ended) = read_run(empty_queue(), whole_channel(packets), caps);
            &&& out.is_prefix_of(in_order(series, n))
            &&& ended ==> out == in_order(series, n)
            &&& caps.len() > in_order(series, n).len() ==> ended
        }),
{
    let q = empty_queue();
    assert(q.packets + packets =~= packets);
    lemma_run_on_course(q, packets, series, n, caps);
    lemma_between(series, 0, n);
    assert(unread(q, series, n) =~= in_order(series, n));
}

} // verus!
