//! The frames of a session, `CMD(1) | STREAM_ID(4) | DATA_LEN(2) | DATA`, and what the
//! server does about each.
use crate::address::{address_of, lemma_address_prefix, read_address, AddressError, Target};
use crate::anytls::padding::PaddingScheme;
use crate::text;
use crate::wire::{be_bytes, be_value, Decoded, DecodedView};
use crate::wire::{copy_range, push_slice, push_u16, push_u32, read_u16, read_u32};
use vstd::prelude::*;
use vstd::utf8::{decode_utf8, encode_utf8, valid_utf8};

verus! {

pub const CMD_WASTE: u8 = 0;

pub const CMD_SYN: u8 = 1;

pub const CMD_PSH: u8 = 2;

pub const CMD_FIN: u8 = 3;

pub const CMD_SETTINGS: u8 = 4;

pub const CMD_ALERT: u8 = 5;

pub const CMD_UPDATE_PADDING: u8 = 6;

pub const CMD_SYNACK: u8 = 7;

pub const CMD_HEART_REQUEST: u8 = 8;

pub const CMD_HEART_RESPONSE: u8 = 9;

pub const CMD_SERVER_SETTINGS: u8 = 10;

pub const HEADER_SIZE: usize = 7;

/// A frame.
#[derive(Debug, Clone, PartialEq, Eq)]
pub struct Frame {
    pub cmd: u8,
    pub sid: u32,
    pub data: Vec<u8>,
}

/// The mathematical counterpart of [`Frame`].
pub struct FrameView {
    pub cmd: u8,
    pub sid: u32,
    pub data: Seq<u8>,
}

impl View for Frame {
    type V = FrameView;

    open spec fn view(&self) -> FrameView {
        FrameView { cmd: self.cmd, sid: self.sid, data: self.data@ }
    }
}

/// A frame on the wire. The length is what fits of it in two bytes.
pub open spec fn frame_bytes(f: FrameView) -> Seq<u8> {
    seq![f.cmd] + be_bytes(f.sid as nat, 4) + be_bytes(f.data.len() % 0x1_0000, 2) + f.data
}

/// Writes a frame.
pub fn encode_frame(f: &Frame) -> (r: Vec<u8>)
    ensures
        r@ == frame_bytes(f@),
{
    let mut out: Vec<u8> = Vec::new();
    out.push(f.cmd);
    push_u32(&mut out, f.sid);
    push_u16(&mut out, (f.data.len() % 0x1_0000) as u16);
    push_slice(&mut out, f.data.as_slice());
    assert(out@ =~= frame_bytes(f@));
    out
}

/// What `buf` says of the frame at its start.
pub open spec fn frame_of(buf: Seq<u8>) -> DecodedView<FrameView, ()> {
    if buf.len() < 7 {
        DecodedView::More(7)
    } else {
        let end = 7 + be_value(buf.subrange(5, 7)) as int;
        if buf.len() < end {
            DecodedView::More(end as nat)
        } else {
            DecodedView::Done(
                FrameView {
                    cmd: buf[0],
                    sid: be_value(buf.subrange(1, 5)) as u32,
                    data: buf.subrange(7, end),
                },
                end as nat,
            )
        }
    }
}

/// Reads the frame at the start of `buf`.
pub fn decode_frame(buf: &[u8]) -> (r: Decoded<Frame, ()>)
    ensures
        r@ == frame_of(buf@),
{
    let have: usize = buf.len();
    if have < HEADER_SIZE {
        return Decoded::More(HEADER_SIZE);
    }
    let end: usize = HEADER_SIZE + (read_u16(buf, 5) as usize);
    if have < end {
        return Decoded::More(end);
    }
    Decoded::Done(
        Frame { cmd: buf[0], sid: read_u32(buf, 1), data: copy_range(buf, HEADER_SIZE, end) },
        end,
    )
}

/// A frame whose data fits its length field is read back, whatever follows it.
pub proof fn lemma_frame_round_trip(f: FrameView, rest: Seq<u8>)
    requires
        f.data.len() < 0x1_0000,
    ensures
        frame_of(frame_bytes(f) + rest) == DecodedView::<FrameView, ()>::Done(
            f,
            frame_bytes(f).len(),
        ),
{
    let b = frame_bytes(f);
    let all = b + rest;
    let n = f.data.len();
    crate::wire::lemma_be_bytes_len(f.sid as nat, 4);
    crate::wire::lemma_be_bytes_len(n, 2);
    crate::wire::lemma_pow256_small();
    crate::wire::lemma_be_value_of_bytes(f.sid as nat, 4);
    crate::wire::lemma_be_value_of_bytes(n, 2);
    assert(all.subrange(1, 5) =~= be_bytes(f.sid as nat, 4));
    assert(all.subrange(5, 7) =~= be_bytes(n, 2));
    assert(all.subrange(7, 7 + n as int) =~= f.data);
}

/// The keys and values in lines of `key=value`; other lines are passed over.
pub open spec fn pairs_of(lines: Seq<Seq<char>>) -> Seq<(Seq<char>, Seq<char>)>
    decreases lines.len(),
{
    if lines.len() == 0 {
        Seq::empty()
    } else {
        match text::split_once_of(lines.last(), '=') {
            Some((k, v)) => pairs_of(lines.drop_last()).push((text::trim_of(k), text::trim_of(v))),
            None => pairs_of(lines.drop_last()),
        }
    }
}

/// The keys and values in `data`, where it is text.
pub open spec fn settings_of(data: Seq<u8>) -> Seq<(Seq<char>, Seq<char>)> {
    if valid_utf8(data) {
        pairs_of(text::lines_of(decode_utf8(data)))
    } else {
        Seq::empty()
    }
}

/// The texts of a list of pairs.
pub open spec fn pair_texts(v: Seq<(String, String)>) -> Seq<(Seq<char>, Seq<char>)> {
    v.map_values(|p: (String, String)| (p.0@, p.1@))
}

/// Reads lines of `key=value`.
pub fn parse_kv(data: &[u8]) -> (r: Vec<(String, String)>)
    ensures
        pair_texts(r@) == settings_of(data@),
{
    let mut out: Vec<(String, String)> = Vec::new();
    let all = copy_range(data, 0, data.len());
    assert(all@ =~= data@);
    match text::utf8_text(all) {
        None => {
            assert(pair_texts(out@) =~= Seq::<(Seq<char>, Seq<char>)>::empty());
            out
        },
        Some(body) => {
            let lines = text::lines(body.as_str());
            let ghost views = text::texts(lines@);
            let mut i: usize = 0;
            assert(views.take(0) =~= Seq::<Seq<char>>::empty());
            assert(pair_texts(out@) =~= pairs_of(views.take(0)));
            while i < lines.len()
                invariant
                    views == text::texts(lines@),
                    i <= lines@.len(),
                    pair_texts(out@) == pairs_of(views.take(i as int)),
                decreases lines@.len() - i,
            {
                let ghost before = pair_texts(out@);
                assert(views.take(i + 1).drop_last() =~= views.take(i as int));
                assert(views.take(i + 1).last() == lines@[i as int]@);
                if let Some((k, v)) = text::split_once(lines[i].as_str(), '=') {
                    let key = text::trim(k).to_owned();
                    let value = text::trim(v).to_owned();
                    let ghost added = (key@, value@);
                    out.push((key, value));
                    assert(pair_texts(out@) =~= before.push(added));
                }
                i = i + 1;
            }
            assert(views.take(views.len() as int) =~= views);
            out
        },
    }
}

/// The value of `key`: the last one that is given for it.
pub open spec fn value_of(pairs: Seq<(Seq<char>, Seq<char>)>, key: Seq<char>) -> Option<Seq<char>>
    decreases pairs.len(),
{
    if pairs.len() == 0 {
        None
    } else if pairs.last().0 == key {
        Some(pairs.last().1)
    } else {
        value_of(pairs.drop_last(), key)
    }
}

/// The value of `key`, where there is one.
pub fn lookup<'a>(pairs: &'a Vec<(String, String)>, key: &str) -> (r: Option<&'a str>)
    ensures
        match r {
            Some(v) => value_of(pair_texts(pairs@), key@) == Some(v@),
            None => value_of(pair_texts(pairs@), key@) is None,
        },
{
    let ghost all = pair_texts(pairs@);
    let mut n: usize = pairs.len();
    assert(all.take(n as int) =~= all);
    while n > 0
        invariant
            all == pair_texts(pairs@),
            n <= pairs@.len(),
            value_of(all.take(n as int), key@) == value_of(all, key@),
        decreases n,
    {
        let ghost cut = all.take(n as int);
        assert(cut.last() == all[n - 1]);
        assert(all[n - 1] == (pairs@[n - 1].0@, pairs@[n - 1].1@));
        assert(cut.drop_last() =~= all.take(n - 1));
        let p = &pairs[n - 1];
        if text::same_text(p.0.as_str(), key) {
            return Some(p.1.as_str());
        }
        n = n - 1;
    }
    None
}

/// What a session remembers.
#[verifier::ext_equal]
pub struct SessionView {
    /// The streams that are open.
    pub streams: Set<u32>,
    /// The client's protocol version.
    pub version: u8,
    /// Whether the client has sent its settings.
    pub settings: bool,
}

/// What the server does about a frame.
pub enum Action {
    /// Send a frame.
    Send(Frame),
    /// Start a stream; one that had the same number is over.
    Open(u32),
    /// Hand data to a stream.
    Deliver(u32, Vec<u8>),
    /// Tell a stream that no more data comes.
    Finish(u32),
    /// End the session.
    Stop,
}

/// The mathematical counterpart of [`Action`].
pub enum ActionView {
    Send(FrameView),
    Open(u32),
    Deliver(u32, Seq<u8>),
    Finish(u32),
    Stop,
}

impl View for Action {
    type V = ActionView;

    open spec fn view(&self) -> ActionView {
        match *self {
            Action::Send(f) => ActionView::Send(f@),
            Action::Open(s) => ActionView::Open(s),
            Action::Deliver(s, d) => ActionView::Deliver(s, d@),
            Action::Finish(s) => ActionView::Finish(s),
            Action::Stop => ActionView::Stop,
        }
    }
}

/// The views of a list of actions.
pub open spec fn action_views(v: Seq<Action>) -> Seq<ActionView> {
    v.map_values(|a: Action| a@)
}

/// The version that settings ask for; a version that is no number changes nothing.
pub open spec fn version_after(before: u8, pairs: Seq<(Seq<char>, Seq<char>)>) -> u8 {
    match value_of(pairs, "v"@) {
        None => before,
        Some(v) => match text::parse_unsigned_of(v, 255) {
            Some(n) => n as u8,
            None => before,
        },
    }
}

/// The scheme that the client says it has; none is the empty text.
pub open spec fn client_scheme(pairs: Seq<(Seq<char>, Seq<char>)>) -> Seq<char> {
    match value_of(pairs, "padding-md5"@) {
        Some(v) => v,
        None => Seq::empty(),
    }
}

/// What the server sends in answer to settings: its padding scheme where the client has
/// another one, and its own settings where the client knows about them.
pub open spec fn settings_answer(
    version: u8,
    client_md5: Seq<char>,
    md5: Seq<char>,
    raw: Seq<u8>,
) -> Seq<ActionView> {
    (if client_md5 != md5 {
        seq![ActionView::Send(FrameView { cmd: CMD_UPDATE_PADDING, sid: 0, data: raw })]
    } else {
        Seq::empty()
    }) + (if version >= 2 {
        seq![
            ActionView::Send(
                FrameView { cmd: CMD_SERVER_SETTINGS, sid: 0, data: encode_utf8("v=2"@) },
            ),
        ]
    } else {
        Seq::empty()
    })
}

/// What clients are told that open a stream too early.
pub open spec fn too_early() -> Seq<u8> {
    encode_utf8("client did not send its settings before opening a stream"@)
}

/// What a frame does to a session, and what the server does about it, where the scheme in
/// use has the text `raw` and the digest `md5`.
pub open spec fn session_step(
    s: SessionView,
    f: FrameView,
    md5: Seq<char>,
    raw: Seq<u8>,
) -> (SessionView, Seq<ActionView>) {
    if f.cmd == CMD_SETTINGS {
        let pairs = settings_of(f.data);
        let version = version_after(s.version, pairs);
        (
            SessionView { settings: true, version, ..s },
            settings_answer(version, client_scheme(pairs), md5, raw),
        )
    } else if f.cmd == CMD_SYN {
        if !s.settings {
            (
                s,
                seq![
                    ActionView::Send(FrameView { cmd: CMD_ALERT, sid: 0, data: too_early() }),
                    ActionView::Stop,
                ],
            )
        } else {
            (
                SessionView { streams: s.streams.insert(f.sid), ..s },
                (if s.version >= 2 {
                    seq![
                        ActionView::Send(
                            FrameView { cmd: CMD_SYNACK, sid: f.sid, data: Seq::empty() },
                        ),
                    ]
                } else {
                    Seq::empty()
                }).push(ActionView::Open(f.sid)),
            )
        }
    } else if f.cmd == CMD_PSH {
        if s.streams.contains(f.sid) {
            (s, seq![ActionView::Deliver(f.sid, f.data)])
        } else {
            (s, Seq::empty())
        }
    } else if f.cmd == CMD_FIN {
        if s.streams.contains(f.sid) {
            (
                SessionView { streams: s.streams.remove(f.sid), ..s },
                seq![ActionView::Finish(f.sid)],
            )
        } else {
            (s, Seq::empty())
        }
    } else if f.cmd == CMD_HEART_REQUEST {
        (
            s,
            seq![
                ActionView::Send(
                    FrameView { cmd: CMD_HEART_RESPONSE, sid: f.sid, data: Seq::empty() },
                ),
            ],
        )
    } else if f.cmd == CMD_ALERT {
        (s, seq![ActionView::Stop])
    } else {
        (s, Seq::empty())
    }
}

/// A session that has just begun.
pub open spec fn fresh_session() -> SessionView {
    SessionView { streams: Set::empty(), version: 1, settings: false }
}

/// The server's end of a session.
pub struct Session {
    streams: Vec<u32>,
    peer_version: u8,
    received_settings: bool,
}

impl Session {
    /// No stream is listed twice.
    pub closed spec fn wf(&self) -> bool {
        self.streams@.no_duplicates()
    }

    pub closed spec fn state(&self) -> SessionView {
        SessionView {
            streams: self.streams@.to_set(),
            version: self.peer_version,
            settings: self.received_settings,
        }
    }

    /// A session in which nothing has been said: version 1, no settings, no streams.
    pub fn new() -> (r: Self)
        ensures
            r.wf(),
            r.state() == fresh_session(),
    {
        let r = Session { streams: Vec::new(), peer_version: 1, received_settings: false };
        assert(r.streams@.to_set() =~= Set::<u32>::empty());
        r
    }

    /// The place of a stream in the list.
    fn find(&self, sid: u32) -> (r: Option<usize>)
        ensures
            match r {
                Some(i) => i < self.streams@.len() && self.streams@[i as int] == sid,
                None => !self.streams@.contains(sid),
            },
    {
        let mut i: usize = 0;
        while i < self.streams.len()
            invariant
                i <= self.streams@.len(),
                forall|k: int| 0 <= k < i ==> self.streams@[k] != sid,
            decreases self.streams@.len() - i,
        {
            if self.streams[i] == sid {
                return Some(i);
            }
            i = i + 1;
        }
        None
    }

    /// Forgets a stream, and says whether it was open.
    pub fn drop_stream(&mut self, sid: u32) -> (r: bool)
        requires
            old(self).wf(),
        ensures
            final(self).wf(),
            r == old(self).state().streams.contains(sid),
            final(self).state() == (SessionView {
                streams: old(self).state().streams.remove(sid),
                ..old(self).state()
            }),
    {
        let ghost before = self.streams@;
        match self.find(sid) {
            Some(i) => {
                self.streams.remove(i);
                proof {
                    let after = self.streams@;
                    assert(before.to_set().contains(sid)) by {
                        assert(before[i as int] == sid);
                    }
                    assert forall|x: u32| after.to_set().contains(x) == before.to_set().remove(
                        sid,
                    ).contains(x) by {
                        if after.contains(x) {
                            let k = choose|k: int| 0 <= k < after.len() && after[k] == x;
                            if k < i {
                                assert(before[k] == x);
                            } else {
                                assert(before[k + 1] == x);
                            }
                        }
                        if before.contains(x) && x != sid {
                            let k = choose|k: int| 0 <= k < before.len() && before[k] == x;
                            if k < i {
                                assert(after[k] == x);
                            } else {
                                assert(after[k - 1] == x);
                            }
                        }
                    }
                    assert(after.to_set() =~= before.to_set().remove(sid));
                }
                true
            },
            None => {
                assert(!before.to_set().contains(sid));
                assert(before.to_set().remove(sid) =~= before.to_set());
                false
            },
        }
    }

    /// Lists a stream as open.
    fn add_stream(&mut self, sid: u32)
        requires
            old(self).wf(),
        ensures
            final(self).wf(),
            final(self).state() == (SessionView {
                streams: old(self).state().streams.insert(sid),
                ..old(self).state()
            }),
    {
        let ghost before = self.streams@;
        match self.find(sid) {
            Some(i) => {
                assert(before[i as int] == sid);
                assert(before.to_set().insert(sid) =~= before.to_set());
            },
            None => {
                self.streams.push(sid);
                proof {
                    let after = self.streams@;
                    assert forall|x: u32| after.to_set().contains(x) == before.to_set().insert(
                        sid,
                    ).contains(x) by {
                        if after.contains(x) {
                            let k = choose|k: int| 0 <= k < after.len() && after[k] == x;
                            if k < before.len() {
                                assert(before[k] == x);
                            }
                        }
                        if before.contains(x) {
                            let k = choose|k: int| 0 <= k < before.len() && before[k] == x;
                            assert(after[k] == x);
                        }
                        if x == sid {
                            assert(after[before.len() as int] == sid);
                        }
                    }
                    assert(after.to_set() =~= before.to_set().insert(sid));
                }
            },
        }
    }

    /// Answers the client's settings.
    fn on_settings(&mut self, data: &[u8], scheme: &PaddingScheme) -> (r: Vec<Action>)
        requires
            old(self).wf(),
        ensures
            final(self).wf(),
            ({
                let pairs = settings_of(data@);
                let version = version_after(old(self).state().version, pairs);
                &&& final(self).state() == (SessionView {
                    settings: true,
                    version,
                    ..old(self).state()
                })
                &&& action_views(r@) == settings_answer(
                    version,
                    client_scheme(pairs),
                    scheme.md5_hex@,
                    scheme.raw@,
                )
            }),
    {
        self.received_settings = true;
        let settings = parse_kv(data);
        if let Some(v) = lookup(&settings, "v") {
            if let Some(n) = text::parse_unsigned(v, 255) {
                self.peer_version = n as u8;
            }
        }
        proof {
            reveal_strlit("");
            assert(""@ =~= Seq::<char>::empty());
        }
        let client_md5 = match lookup(&settings, "padding-md5") {
            Some(v) => v,
            None => "",
        };
        let mut out: Vec<Action> = Vec::new();
        if !text::same_text(client_md5, scheme.md5_hex.as_str()) {
            let raw = copy_range(scheme.raw.as_slice(), 0, scheme.raw.len());
            assert(raw@ =~= scheme.raw@);
            out.push(Action::Send(Frame { cmd: CMD_UPDATE_PADDING, sid: 0, data: raw }));
        }
        if self.peer_version >= 2 {
            let data = bytes_of("v=2");
            out.push(Action::Send(Frame { cmd: CMD_SERVER_SETTINGS, sid: 0, data }));
        }
        assert(action_views(out@) =~= settings_answer(
            self.peer_version,
            client_md5@,
            scheme.md5_hex@,
            scheme.raw@,
        ));
        out
    }

    /// Takes a frame from the client.
    pub fn on_frame(&mut self, frame: Frame, scheme: &PaddingScheme) -> (r: Vec<Action>)
        requires
            old(self).wf(),
        ensures
            final(self).wf(),
            (final(self).state(), action_views(r@)) == session_step(
                old(self).state(),
                frame@,
                scheme.md5_hex@,
                scheme.raw@,
            ),
    {
        let ghost s = self.state();
        let cmd: u8 = frame.cmd;
        let sid: u32 = frame.sid;
        let mut out: Vec<Action> = Vec::new();
        if cmd == CMD_SETTINGS {
            return self.on_settings(frame.data.as_slice(), scheme);
        }
        if cmd == CMD_SYN {
            if !self.received_settings {
                let data = bytes_of("client did not send its settings before opening a stream");
                out.push(Action::Send(Frame { cmd: CMD_ALERT, sid: 0, data }));
                out.push(Action::Stop);
            } else {
                self.add_stream(sid);
                if self.peer_version >= 2 {
                    let data: Vec<u8> = Vec::new();
                    assert(data@ =~= Seq::<u8>::empty());
                    out.push(Action::Send(Frame { cmd: CMD_SYNACK, sid, data }));
                }
                out.push(Action::Open(sid));
            }
        } else if cmd == CMD_PSH {
            match self.find(sid) {
                Some(i) => {
                    assert(self.streams@.to_set().contains(sid)) by {
                        assert(self.streams@[i as int] == sid);
                    }
                    out.push(Action::Deliver(sid, frame.data));
                },
                None => {},
            }
        } else if cmd == CMD_FIN {
            assert(!s.streams.contains(sid) ==> s.streams.remove(sid) =~= s.streams);
            if self.drop_stream(sid) {
                out.push(Action::Finish(sid));
            }
        } else if cmd == CMD_HEART_REQUEST {
            let data: Vec<u8> = Vec::new();
            assert(data@ =~= Seq::<u8>::empty());
            out.push(Action::Send(Frame { cmd: CMD_HEART_RESPONSE, sid, data }));
        } else if cmd == CMD_ALERT {
            out.push(Action::Stop);
        }
        assert(action_views(out@) =~= session_step(s, frame@, scheme.md5_hex@, scheme.raw@).1);
        out
    }

    /// The streams that are still open when the session ends, each of them once.
    pub fn open_streams(&self) -> (r: &[u32])
        requires
            self.wf(),
        ensures
            r@.to_set() == self.state().streams,
            r@.no_duplicates(),
    {
        self.streams.as_slice()
    }
}

/// The bytes of a text.
fn bytes_of(s: &str) -> (r: Vec<u8>)
    ensures
        r@ == encode_utf8(s@),
{
    let b = s.as_bytes();
    let r = copy_range(b, 0, b.len());
    assert(r@ =~= b@);
    r
}

/// A session after a series of frames.
pub open spec fn session_after(
    start: SessionView,
    frames: Seq<FrameView>,
    md5: Seq<char>,
    raw: Seq<u8>,
) -> SessionView
    decreases frames.len(),
{
    if frames.len() == 0 {
        start
    } else {
        session_step(
            session_after(start, frames.drop_last(), md5, raw),
            frames.last(),
            md5,
            raw,
        ).0
    }
}

/// No stream is ever opened before the client has sent its settings.
pub proof fn lemma_settings_first(frames: Seq<FrameView>, md5: Seq<char>, raw: Seq<u8>)
    requires
        forall|i: int| 0 <= i < frames.len() ==> (#[trigger] frames[i]).cmd != CMD_SETTINGS,
    ensures
        session_after(fresh_session(), frames, md5, raw) == fresh_session(),
    decreases frames.len(),
{
    if frames.len() > 0 {
        assert forall|i: int| 0 <= i < frames.drop_last().len() implies (
        #[trigger] frames.drop_last()[i]).cmd != CMD_SETTINGS by {
            assert(frames.drop_last()[i] == frames[i]);
        }
        lemma_settings_first(frames.drop_last(), md5, raw);
        assert(frames.last().cmd != CMD_SETTINGS);
    }
}

/// Data reaches a stream only between its opening and its end: a frame with data for a
/// stream that is not open does nothing.
pub proof fn lemma_closed_streams_are_silent(
    s: SessionView,
    sid: u32,
    data: Seq<u8>,
    md5: Seq<char>,
    raw: Seq<u8>,
)
    ensures
        ({
            let closed = session_step(s, FrameView { cmd: CMD_FIN, sid, data: Seq::empty() }, md5, raw).0;
            session_step(closed, FrameView { cmd: CMD_PSH, sid, data }, md5, raw) == (
                closed,
                Seq::<ActionView>::empty(),
            )
        }),
{
}

/// A session after a series of frames, and everything that the server has done by then.
/// Once it has stopped, frames do nothing.
pub open spec fn session_run(
    start: SessionView,
    frames: Seq<FrameView>,
    md5: Seq<char>,
    raw: Seq<u8>,
) -> (SessionView, Seq<ActionView>)
    decreases frames.len(),
{
    if frames.len() == 0 {
        (start, Seq::empty())
    } else {
        let (s, done) = session_run(start, frames.drop_last(), md5, raw);
        if done.contains(ActionView::Stop) {
            (s, done)
        } else {
            let (after, more) = session_step(s, frames.last(), md5, raw);
            (after, done + more)
        }
    }
}

/// What is handed to a stream, in order; an empty piece says that no more comes.
pub open spec fn inbox(actions: Seq<ActionView>, sid: u32) -> Seq<Seq<u8>>
    decreases actions.len(),
{
    if actions.len() == 0 {
        Seq::empty()
    } else {
        let before = inbox(actions.drop_last(), sid);
        match actions.last() {
            ActionView::Deliver(x, data) => if x == sid {
                before.push(data)
            } else {
                before
            },
            ActionView::Finish(x) => if x == sid {
                before.push(Seq::empty())
            } else {
                before
            },
            _ => before,
        }
    }
}

/// The streams that are opened, in order.
pub open spec fn opened(actions: Seq<ActionView>) -> Seq<u32>
    decreases actions.len(),
{
    if actions.len() == 0 {
        Seq::empty()
    } else {
        match actions.last() {
            ActionView::Open(sid) => opened(actions.drop_last()).push(sid),
            _ => opened(actions.drop_last()),
        }
    }
}

/// The data of the frames that carry some for a stream, in order.
pub open spec fn data_for(frames: Seq<FrameView>, sid: u32) -> Seq<Seq<u8>>
    decreases frames.len(),
{
    if frames.len() == 0 {
        Seq::empty()
    } else {
        let before = data_for(frames.drop_last(), sid);
        if frames.last().cmd == CMD_PSH && frames.last().sid == sid {
            before.push(frames.last().data)
        } else {
            before
        }
    }
}

/// The streams that the frames ask for, in order.
pub open spec fn asked_for(frames: Seq<FrameView>) -> Seq<u32>
    decreases frames.len(),
{
    if frames.len() == 0 {
        Seq::empty()
    } else if frames.last().cmd == CMD_SYN {
        asked_for(frames.drop_last()).push(frames.last().sid)
    } else {
        asked_for(frames.drop_last())
    }
}

/// What a stream reads of what it is handed: everything up to the first empty piece.
pub open spec fn stream_bytes(pieces: Seq<Seq<u8>>) -> Seq<u8>
    decreases pieces.len(),
{
    if pieces.len() == 0 || pieces[0].len() == 0 {
        Seq::empty()
    } else {
        pieces[0] + stream_bytes(pieces.skip(1))
    }
}

proof fn lemma_inbox_append(a: Seq<ActionView>, b: Seq<ActionView>, sid: u32)
    ensures
        inbox(a + b, sid) == inbox(a, sid) + inbox(b, sid),
        opened(a + b) == opened(a) + opened(b),
    decreases b.len(),
{
    if b.len() == 0 {
        assert(a + b =~= a);
        assert(inbox(a, sid) + inbox(b, sid) =~= inbox(a, sid));
        assert(opened(a) + opened(b) =~= opened(a));
    } else {
        lemma_inbox_append(a, b.drop_last(), sid);
        assert((a + b).drop_last() =~= a + b.drop_last());
        let before = inbox(b.drop_last(), sid);
        match b.last() {
            ActionView::Deliver(x, data) => {
                assert(inbox(a, sid) + before.push(data) =~= (inbox(a, sid) + before).push(data));
            },
            ActionView::Finish(_) => {
                let none = Seq::<u8>::empty();
                assert(inbox(a, sid) + before.push(none) =~= (inbox(a, sid) + before).push(none));
            },
            ActionView::Open(x) => {
                assert(opened(a) + opened(b.drop_last()).push(x) =~= (opened(a) + opened(
                    b.drop_last(),
                )).push(x));
            },
            _ => {},
        }
    }
}

/// What one frame of a session that has its settings hands to a stream, and opens.
proof fn lemma_step_inbox(s: SessionView, f: FrameView, md5: Seq<char>, raw: Seq<u8>, sid: u32)
    requires
        s.settings || f.cmd == CMD_SETTINGS,
        f.cmd != CMD_ALERT,
    ensures
        ({
            let (after, done) = session_step(s, f, md5, raw);
            let open = s.streams.contains(sid);
            &&& after.settings
            &&& !done.contains(ActionView::Stop)
            &&& inbox(done, sid) == (if open && f.sid == sid && f.cmd == CMD_PSH {
                seq![f.data]
            } else if open && f.sid == sid && f.cmd == CMD_FIN {
                seq![Seq::<u8>::empty()]
            } else {
                Seq::<Seq<u8>>::empty()
            })
            &&& opened(done) == (if f.cmd == CMD_SYN {
                seq![f.sid]
            } else {
                Seq::<u32>::empty()
            })
            &&& after.streams.contains(sid) == (if f.sid == sid && f.cmd == CMD_SYN {
                true
            } else if f.sid == sid && f.cmd == CMD_FIN {
                false
            } else {
                open
            })
        }),
{
    let (after, done) = session_step(s, f, md5, raw);
    reveal_with_fuel(inbox, 3);
    reveal_with_fuel(opened, 3);
    assert(done.len() <= 2);
    assert(inbox(done, sid) =~= (if s.streams.contains(sid) && f.sid == sid && f.cmd == CMD_PSH {
        seq![f.data]
    } else if s.streams.contains(sid) && f.sid == sid && f.cmd == CMD_FIN {
        seq![Seq::<u8>::empty()]
    } else {
        Seq::<Seq<u8>>::empty()
    }));
    assert(opened(done) =~= (if f.cmd == CMD_SYN {
        seq![f.sid]
    } else {
        Seq::<u32>::empty()
    }));
}

/// Whether a stream is opened by frame `a` alone, and ended by frame `b`: the first one
/// behind `a` that does, or none where `b` is the number of frames.
pub open spec fn lives(frames: Seq<FrameView>, sid: u32, a: int, b: int) -> bool {
    &&& 0 <= a < b <= frames.len()
    &&& forall|i: int|
        0 <= i < frames.len() ==> (i == a <==> (#[trigger] frames[i]).cmd == CMD_SYN
            && frames[i].sid == sid)
    &&& forall|i: int|
        a < i < b ==> !((#[trigger] frames[i]).cmd == CMD_FIN && frames[i].sid == sid)
    &&& b < frames.len() ==> frames[b].cmd == CMD_FIN && frames[b].sid == sid
}

/// Whether the frames start with settings, and none of them ends the session.
pub open spec fn goes_on(frames: Seq<FrameView>) -> bool {
    &&& frames.len() > 0 ==> frames[0].cmd == CMD_SETTINGS
    &&& forall|i: int| 0 <= i < frames.len() ==> (#[trigger] frames[i]).cmd != CMD_ALERT
}

proof fn lemma_stream_so_far(
    frames: Seq<FrameView>,
    md5: Seq<char>,
    raw: Seq<u8>,
    sid: u32,
    a: int,
    b: int,
    k: int,
)
    requires
        goes_on(frames),
        lives(frames, sid, a, b),
        0 <= k <= frames.len(),
    ensures
        ({
            let (s, done) = session_run(fresh_session(), frames.take(k), md5, raw);
            &&& k > 0 ==> s.settings
            &&& !done.contains(ActionView::Stop)
            &&& s.streams.contains(sid) <==> a < k <= b
            &&& inbox(done, sid) == (if k <= a {
                Seq::empty()
            } else if k <= b {
                data_for(frames.subrange(a + 1, k), sid)
            } else {
                data_for(frames.subrange(a + 1, b), sid).push(Seq::empty())
            })
        }),
    decreases k,
{
    if k > 0 {
        let j = k - 1;
        lemma_stream_so_far(frames, md5, raw, sid, a, b, j);
        let f = frames[j];
        assert(frames.take(k).drop_last() =~= frames.take(j));
        assert(frames.take(k).last() == f);
        let (s, done) = session_run(fresh_session(), frames.take(j), md5, raw);
        let (after, more) = session_step(s, f, md5, raw);
        lemma_step_inbox(s, f, md5, raw, sid);
        lemma_inbox_append(done, more, sid);
        assert(!(done + more).contains(ActionView::Stop)) by {
            if (done + more).contains(ActionView::Stop) {
                let i = choose|i: int|
                    0 <= i < (done + more).len() && (done + more)[i] == ActionView::Stop;
                if i < done.len() {
                    assert(done[i] == ActionView::Stop);
                } else {
                    assert(more[i - done.len()] == ActionView::Stop);
                }
            }
        }
        let held = inbox(done, sid);
        if a < j < b {
            assert(frames.subrange(a + 1, k).drop_last() =~= frames.subrange(a + 1, j));
            assert(frames.subrange(a + 1, k).last() == f);
            assert(held + seq![f.data] =~= held.push(f.data));
            assert(held + Seq::<Seq<u8>>::empty() =~= held);
        } else if j == b {
            assert(held + seq![Seq::<u8>::empty()] =~= held.push(Seq::empty()));
        } else if j == a {
            assert(frames.subrange(a + 1, k) =~= Seq::<FrameView>::empty());
            assert(held + Seq::<Seq<u8>>::empty() =~= Seq::<Seq<u8>>::empty());
        } else {
            assert(held + Seq::<Seq<u8>>::empty() =~= held);
        }
    }
}

proof fn lemma_stream_bytes(pieces: Seq<Seq<u8>>, rest: Seq<Seq<u8>>)
    requires
        forall|i: int| 0 <= i < pieces.len() ==> (#[trigger] pieces[i]).len() > 0,
        rest.len() > 0 ==> rest[0].len() == 0,
    ensures
        stream_bytes(pieces + rest) == pieces.flatten(),
    decreases pieces.len(),
{
    let all = pieces + rest;
    if pieces.len() == 0 {
        assert(all =~= rest);
    } else {
        assert(all[0] == pieces[0]);
        assert(all.skip(1) =~= pieces.drop_first() + rest);
        lemma_stream_bytes(pieces.drop_first(), rest);
    }
}

proof fn lemma_data_is_there(frames: Seq<FrameView>, sid: u32)
    requires
        forall|i: int|
            0 <= i < frames.len() && (#[trigger] frames[i]).cmd == CMD_PSH && frames[i].sid == sid
                ==> frames[i].data.len() > 0,
    ensures
        forall|i: int|
            0 <= i < data_for(frames, sid).len() ==> (#[trigger] data_for(frames, sid)[i]).len() > 0,
    decreases frames.len(),
{
    if frames.len() > 0 {
        let before = frames.drop_last();
        assert forall|i: int|
            0 <= i < before.len() && (#[trigger] before[i]).cmd == CMD_PSH && before[i].sid
                == sid implies before[i].data.len() > 0 by {
            assert(before[i] == frames[i]);
        }
        lemma_data_is_there(before, sid);
        assert(frames[frames.len() - 1] == frames.last());
        let earlier = data_for(before, sid);
        let now = data_for(frames, sid);
        assert forall|i: int| 0 <= i < now.len() implies (#[trigger] now[i]).len() > 0 by {
            if i < earlier.len() {
                assert(now[i] == earlier[i]);
            }
        }
    }
}

/// In a session that starts with settings, a stream is handed exactly the data of its
/// frames between its opening and its end, in order, and behind that the sign that no more
/// comes; where nothing ends it, it is still open when the frames are over. So it reads
/// that data, one piece after the other, as long as no frame is empty.
pub proof fn lemma_stream_gets_its_data(
    frames: Seq<FrameView>,
    md5: Seq<char>,
    raw: Seq<u8>,
    sid: u32,
    a: int,
    b: int,
)
    requires
        goes_on(frames),
        lives(frames, sid, a, b),
    ensures
        ({
            let (s, done) = session_run(fresh_session(), frames, md5, raw);
            let data = data_for(frames.subrange(a + 1, b), sid);
            &&& inbox(done, sid) == (if b < frames.len() {
                data.push(Seq::empty())
            } else {
                data
            })
            &&& s.streams.contains(sid) <==> b == frames.len()
            &&& (forall|i: int|
                a < i < b && (#[trigger] frames[i]).cmd == CMD_PSH && frames[i].sid == sid
                    ==> frames[i].data.len() > 0) ==> stream_bytes(inbox(done, sid))
                == data.flatten()
        }),
{
    lemma_stream_so_far(frames, md5, raw, sid, a, b, frames.len() as int);
    assert(frames.take(frames.len() as int) =~= frames);
    let (s, done) = session_run(fresh_session(), frames, md5, raw);
    let part = frames.subrange(a + 1, b);
    let data = data_for(part, sid);
    if forall|i: int|
        a < i < b && (#[trigger] frames[i]).cmd == CMD_PSH && frames[i].sid == sid
            ==> frames[i].data.len() > 0 {
        assert forall|i: int|
            0 <= i < part.len() && (#[trigger] part[i]).cmd == CMD_PSH && part[i].sid
                == sid implies part[i].data.len() > 0 by {
            assert(part[i] == frames[a + 1 + i]);
        }
        lemma_data_is_there(part, sid);
        let end = seq![Seq::<u8>::empty()];
        lemma_stream_bytes(data, end);
        lemma_stream_bytes(data, Seq::empty());
        assert(data + end =~= data.push(Seq::empty()));
        assert(data + Seq::<Seq<u8>>::empty() =~= data);
    }
}

/// In a session that starts with settings, every stream that is asked for is opened, in
/// that order, and no other; and a stream that is not asked for is handed nothing.
pub proof fn lemma_streams_open_in_order(
    frames: Seq<FrameView>,
    md5: Seq<char>,
    raw: Seq<u8>,
    sid: u32,
)
    requires
        goes_on(frames),
    ensures
        ({
            let (s, done) = session_run(fresh_session(), frames, md5, raw);
            &&& opened(done) == asked_for(frames)
            &&& !done.contains(ActionView::Stop)
            &&& frames.len() > 0 ==> s.settings
            &&& (forall|i: int|
                0 <= i < frames.len() ==> !((#[trigger] frames[i]).cmd == CMD_SYN && frames[i].sid
                    == sid)) ==> inbox(done, sid).len() == 0 && !s.streams.contains(sid)
        }),
    decreases frames.len(),
{
    if frames.len() > 0 {
        let before = frames.drop_last();
        assert(goes_on(before)) by {
            assert forall|i: int| 0 <= i < before.len() implies (#[trigger] before[i]).cmd
                != CMD_ALERT by {
                assert(before[i] == frames[i]);
            }
        }
        lemma_streams_open_in_order(before, md5, raw, sid);
        let (s, done) = session_run(fresh_session(), before, md5, raw);
        let f = frames.last();
        assert(frames[frames.len() - 1] == f);
        let (after, more) = session_step(s, f, md5, raw);
        lemma_step_inbox(s, f, md5, raw, sid);
        lemma_inbox_append(done, more, sid);
        assert(!(done + more).contains(ActionView::Stop)) by {
            if (done + more).contains(ActionView::Stop) {
                let i = choose|i: int|
                    0 <= i < (done + more).len() && (done + more)[i] == ActionView::Stop;
                if i < done.len() {
                    assert(done[i] == ActionView::Stop);
                } else {
                    assert(more[i - done.len()] == ActionView::Stop);
                }
            }
        }
        assert(opened(done) + seq![f.sid] =~= opened(done).push(f.sid));
        assert(opened(done) + Seq::<u32>::empty() =~= opened(done));
        if forall|i: int|
            0 <= i < frames.len() ==> !((#[trigger] frames[i]).cmd == CMD_SYN && frames[i].sid
                == sid) {
            assert forall|i: int| 0 <= i < before.len() implies !((#[trigger] before[i]).cmd
                == CMD_SYN && before[i].sid == sid) by {
                assert(before[i] == frames[i]);
            }
        }
    }
}

/// A frame that ends the session is the last that does anything.
pub proof fn lemma_alert_ends(
    frames: Seq<FrameView>,
    alert: FrameView,
    rest: Seq<FrameView>,
    md5: Seq<char>,
    raw: Seq<u8>,
)
    requires
        alert.cmd == CMD_ALERT,
    ensures
        session_run(fresh_session(), frames.push(alert) + rest, md5, raw) == session_run(
            fresh_session(),
            frames.push(alert),
            md5,
            raw,
        ),
        session_run(fresh_session(), frames.push(alert), md5, raw).1.contains(ActionView::Stop),
    decreases rest.len(),
{
    let ended = frames.push(alert);
    assert(ended.drop_last() =~= frames);
    let (s, done) = session_run(fresh_session(), frames, md5, raw);
    if !done.contains(ActionView::Stop) {
        let all = done + seq![ActionView::Stop];
        assert(all[done.len() as int] == ActionView::Stop);
    }
    if rest.len() == 0 {
        assert(ended + rest =~= ended);
    } else {
        lemma_alert_ends(frames, alert, rest.drop_last(), md5, raw);
        assert((ended + rest).drop_last() =~= ended + rest.drop_last());
    }
}

/// One stream's received data, as far as it has not been read.
#[derive(Debug)]
pub struct StreamConn {
    pub stream_id: u32,
    pub buf: Vec<u8>,
}

impl StreamConn {
    pub fn new(stream_id: u32) -> (r: Self)
        ensures
            r.stream_id == stream_id,
            r.buf@.len() == 0,
    {
        StreamConn { stream_id, buf: Vec::new() }
    }

    /// Takes delivered data. Empty data says that no more comes, and `false` comes back.
    pub fn feed(&mut self, data: &[u8]) -> (r: bool)
        ensures
            r == (data@.len() > 0),
            final(self).stream_id == old(self).stream_id,
            final(self).buf@ == old(self).buf@ + data@,
    {
        push_slice(&mut self.buf, data);
        data.len() > 0
    }

    /// Up to `max` bytes of what has been delivered; nothing where it is used up.
    pub fn read(&mut self, max: usize) -> (r: Option<Vec<u8>>)
        ensures
            final(self).stream_id == old(self).stream_id,
            r is Some <==> old(self).buf@.len() > 0,
            r is None ==> final(self).buf@ == old(self).buf@,
            r matches Some(v) ==> v@ + final(self).buf@ == old(self).buf@ && v@.len() == (if max
                <= old(self).buf@.len() {
                max as nat
            } else {
                old(self).buf@.len()
            }),
    {
        let len: usize = self.buf.len();
        if len == 0 {
            return None;
        }
        let n: usize = if max <= len {
            max
        } else {
            len
        };
        let out = copy_range(self.buf.as_slice(), 0, n);
        let rest = copy_range(self.buf.as_slice(), n, len);
        assert(out@ + rest@ =~= self.buf@);
        self.buf = rest;
        Some(out)
    }

    /// Exactly `n` bytes of what has been delivered; nothing, and none taken, where there
    /// are not that many.
    pub fn read_exact_from(&mut self, n: usize) -> (r: Option<Vec<u8>>)
        ensures
            final(self).stream_id == old(self).stream_id,
            match r {
                Some(v) => v@.len() == n && v@ + final(self).buf@ == old(self).buf@,
                None => n > old(self).buf@.len() && final(self).buf@ == old(self).buf@,
            },
    {
        let len: usize = self.buf.len();
        if n > len {
            return None;
        }
        let out = copy_range(self.buf.as_slice(), 0, n);
        let rest = copy_range(self.buf.as_slice(), n, len);
        assert(out@ + rest@ =~= self.buf@);
        self.buf = rest;
        Some(out)
    }

    /// Takes the destination that a stream starts with, once all of it has been delivered.
    pub fn read_socks5_addr(&mut self) -> (r: Decoded<Target, AddressError>)
        ensures
            final(self).stream_id == old(self).stream_id,
            r@ == address_of(old(self).buf@),
            match r {
                Decoded::Done(_, n) => final(self).buf@ == old(self).buf@.skip(n as int),
                _ => final(self).buf@ == old(self).buf@,
            },
    {
        proof {
            lemma_address_prefix(self.buf@, Seq::empty());
        }
        let r = read_address(self.buf.as_slice());
        if let Decoded::Done(_, n) = &r {
            let rest = copy_range(self.buf.as_slice(), *n, self.buf.len());
            assert(rest@ =~= self.buf@.skip(*n as int));
            self.buf = rest;
        }
        r
    }

    /// The frame that carries data to the client.
    pub fn write(&self, data: &[u8]) -> (r: Frame)
        ensures
            r@ == (FrameView { cmd: CMD_PSH, sid: self.stream_id, data: data@ }),
    {
        let own = copy_range(data, 0, data.len());
        assert(own@ =~= data@);
        Frame { cmd: CMD_PSH, sid: self.stream_id, data: own }
    }

    /// The frame that tells the client that no more data comes.
    pub fn close(&self) -> (r: Frame)
        ensures
            r@ == (FrameView { cmd: CMD_FIN, sid: self.stream_id, data: Seq::empty() }),
    {
        let data: Vec<u8> = Vec::new();
        assert(data@ =~= Seq::<u8>::empty());
        Frame { cmd: CMD_FIN, sid: self.stream_id, data }
    }
}

/// A frame, byte by byte: the command, the stream in four bytes and the length in two, high
/// byte first, and the data.
pub proof fn lemma_frame_layout(f: FrameView, rest: Seq<u8>)
    requires
        f.data.len() < 0x1_0000,
    ensures
        ({
            let b = seq![
                f.cmd,
                (f.sid / 0x100_0000) as u8,
                (f.sid / 0x1_0000 % 256) as u8,
                (f.sid / 256 % 256) as u8,
                (f.sid % 256) as u8,
                (f.data.len() / 256) as u8,
                (f.data.len() % 256) as u8,
            ] + f.data;
            &&& frame_bytes(f) == b
            &&& frame_of(b + rest) == DecodedView::<FrameView, ()>::Done(f, 7 + f.data.len())
        }),
{
    let b = seq![
        f.cmd,
        (f.sid / 0x100_0000) as u8,
        (f.sid / 0x1_0000 % 256) as u8,
        (f.sid / 256 % 256) as u8,
        (f.sid % 256) as u8,
        (f.data.len() / 256) as u8,
        (f.data.len() % 256) as u8,
    ] + f.data;
    crate::wire::lemma_be_quad(f.sid as nat);
    crate::wire::lemma_be_pair(f.data.len());
    assert(frame_bytes(f) =~= b);
    lemma_frame_round_trip(f, rest);
}

/// A line `key=value` adds that pair, and a line without `=` adds none. A value may hold
/// further `=`.
pub proof fn lemma_setting_line(lines: Seq<Seq<char>>, key: Seq<char>, value: Seq<char>)
    requires
        !key.contains('='),
        key.len() > 0 ==> !text::is_white(key[0]) && !text::is_white(key.last()),
        value.len() > 0 ==> !text::is_white(value[0]) && !text::is_white(value.last()),
    ensures
        pairs_of(lines.push(key + seq!['='] + value)) == pairs_of(lines).push((key, value)),
        pairs_of(lines.push(key)) == pairs_of(lines),
        value_of(pairs_of(lines.push(key + seq!['='] + value)), key) == Some(value),
{
    let line = key + seq!['='] + value;
    let n = key.len() as int;
    assert forall|i: int| 0 <= i < n implies line[i] != '=' by {
        assert(line[i] == key[i]);
        assert(key.contains(key[i]));
    }
    assert(line[n] == '=');
    text::lemma_first_of_unique(line, '=', n);
    assert(line.take(n) =~= key);
    assert(line.skip(n + 1) =~= value);
    text::lemma_trim_nothing(key);
    text::lemma_trim_nothing(value);
    assert(lines.push(line).drop_last() =~= lines);
    assert forall|i: int| 0 <= i < n implies key[i] != '=' by {
        assert(key.contains(key[i]));
    }
    text::lemma_first_of_unique(key, '=', n);
    assert(lines.push(key).drop_last() =~= lines);
    let pairs = pairs_of(lines).push((key, value));
    assert(pairs.last() == (key, value));
}

/// The settings of a client that names a version and the digest of its padding scheme, and
/// the answer to them: the scheme in a frame 6 if the digest is another one, and the
/// server's own settings in a frame 10 from version 2 on.
pub proof fn lemma_settings_exchange(
    s: SessionView,
    version: u8,
    scheme: Seq<char>,
    md5: Seq<char>,
    raw: Seq<u8>,
    lines: Seq<Seq<char>>,
    data: Seq<u8>,
)
    requires
        lines == seq![
            "v"@ + seq!['='] + text::decimal_of(version as nat),
            "padding-md5"@ + seq!['='] + scheme,
        ],
        valid_utf8(data),
        text::lines_of(decode_utf8(data)) == lines,
        scheme.len() > 0,
        !text::is_white(scheme[0]),
        !text::is_white(scheme.last()),
    ensures
        ({
            let (after, actions) = session_step(s, FrameView { cmd: 4, sid: 0, data }, md5, raw);
            let update = ActionView::Send(FrameView { cmd: 6, sid: 0, data: raw });
            let own = ActionView::Send(FrameView { cmd: 10, sid: 0, data: encode_utf8("v=2"@) });
            &&& after.settings
            &&& after.version == version
            &&& after.streams == s.streams
            &&& scheme == md5 && version < 2 ==> actions == Seq::<ActionView>::empty()
            &&& scheme != md5 && version < 2 ==> actions == seq![update]
            &&& scheme == md5 && version >= 2 ==> actions == seq![own]
            &&& scheme != md5 && version >= 2 ==> actions == seq![update, own]
        }),
{
    let number = text::decimal_of(version as nat);
    let none = Seq::<Seq<char>>::empty();
    reveal_strlit("v");
    reveal_strlit("padding-md5");
    text::lemma_decimal_round_trip(version as nat, 255);
    assert(text::is_digit(number[0]) && text::is_digit(number[number.len() - 1]));
    assert(!"v"@.contains('='));
    assert(!"padding-md5"@.contains('='));
    lemma_setting_line(none, "v"@, number);
    lemma_setting_line(none.push(lines[0]), "padding-md5"@, scheme);
    assert(none.push(lines[0]).push(lines[1]) =~= lines);
    let pairs = pairs_of(lines);
    assert(pairs_of(none) =~= Seq::<(Seq<char>, Seq<char>)>::empty());
    assert(pairs =~= seq![("v"@, number), ("padding-md5"@, scheme)]);
    assert("v"@.len() != "padding-md5"@.len());
    assert(pairs.drop_last() =~= seq![("v"@, number)]);
    assert(value_of(pairs, "v"@) == value_of(pairs.drop_last(), "v"@));
    let (after, actions) = session_step(s, FrameView { cmd: 4, sid: 0, data }, md5, raw);
    assert(actions =~= settings_answer(version, scheme, md5, raw));
}

/// What the other commands do, by their numbers: 1 opens a stream, told the client by a
/// frame 7 from version 2 on; 2 hands data to an open stream; 3 ends one; 8 is answered by
/// a frame 9; 5 ends the session; 0 is nothing but filling. Before there are settings a
/// stream that is asked for ends the session with a frame 5.
pub proof fn lemma_commands_by_number(
    s: SessionView,
    sid: u32,
    data: Seq<u8>,
    md5: Seq<char>,
    raw: Seq<u8>,
)
    ensures
        ({
            let step = |cmd: u8| session_step(s, FrameView { cmd, sid, data }, md5, raw);
            let syn = step(1);
            let psh = step(2);
            let fin = step(3);
            &&& s.settings ==> syn.0.streams == s.streams.insert(sid)
            &&& s.settings && s.version >= 2 ==> syn.1 == seq![
                ActionView::Send(FrameView { cmd: 7, sid, data: Seq::empty() }),
                ActionView::Open(sid),
            ]
            &&& s.settings && s.version < 2 ==> syn.1 == seq![ActionView::Open(sid)]
            &&& !s.settings ==> syn.0 == s && syn.1.len() == 2 && syn.1[1] == ActionView::Stop
                && (syn.1[0] matches ActionView::Send(f) && f.cmd == 5 && f.sid == 0)
            &&& s.streams.contains(sid) ==> psh.1 == seq![ActionView::Deliver(sid, data)]
            &&& !s.streams.contains(sid) ==> psh.1.len() == 0 && fin.1.len() == 0
            &&& psh.0 == s
            &&& s.streams.contains(sid) ==> fin.1 == seq![ActionView::Finish(sid)]
            &&& fin.0.streams == s.streams.remove(sid)
            &&& step(8) == (
                s,
                seq![ActionView::Send(FrameView { cmd: 9, sid, data: Seq::empty() })],
            )
            &&& step(5) == (s, seq![ActionView::Stop])
            &&& step(0) == (s, Seq::<ActionView>::empty())
        }),
{
    let syn = session_step(s, FrameView { cmd: 1, sid, data }, md5, raw);
    if s.settings {
        if s.version >= 2 {
            assert(syn.1 =~= seq![
                ActionView::Send(FrameView { cmd: 7, sid, data: Seq::empty() }),
                ActionView::Open(sid),
            ]);
        } else {
            assert(syn.1 =~= seq![ActionView::Open(sid)]);
        }
    }
    if !s.streams.contains(sid) {
        assert(s.streams.remove(sid) =~= s.streams);
    }
}

} // verus!
