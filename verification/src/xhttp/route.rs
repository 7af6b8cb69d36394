//! Which request is for which direction of which session.
use crate::text;
use vstd::prelude::*;

verus! {

/// Where a stream is served.
#[derive(Debug, Clone)]
pub struct XhttpConfig {
    pub path: String,
    pub host: Option<String>,
}

impl Default for XhttpConfig {
    fn default() -> (r: Self)
        ensures
            r.path@ == "/"@,
            r.host is None,
    {
        XhttpConfig { path: "/".to_owned(), host: None }
    }
}

/// `path` with exactly one `/` at its end, and one at its start.
pub open spec fn normalized(path: Seq<char>) -> Seq<char> {
    let p = text::strip_end_of(path, '/');
    if p.len() == 0 {
        seq!['/']
    } else if p[0] == '/' {
        p.push('/')
    } else {
        seq!['/'] + p.push('/')
    }
}

impl XhttpConfig {
    /// The base path: it starts with `/` and ends with exactly one.
    pub fn normalized_path(&self) -> (r: String)
        ensures
            r@ == normalized(self.path@),
    {
        proof {
            reveal_strlit("/");
            assert("/"@ =~= seq!['/']);
        }
        let p = text::strip_end(self.path.as_str(), '/');
        if p.is_empty() {
            "/".to_owned()
        } else if text::starts_with(p, "/") {
            assert("/"@.is_prefix_of(p@));
            assert(p@.subrange(0, 1)[0] == p@[0]);
            let r = text::joined(p, "/");
            assert(r@ =~= p@.push('/'));
            r
        } else {
            assert(p@[0] != '/') by {
                if p@[0] == '/' {
                    assert("/"@ =~= p@.subrange(0, 1));
                }
            }
            let tail = text::joined(p, "/");
            let r = text::joined("/", tail.as_str());
            assert(r@ =~= seq!['/'] + p@.push('/'));
            r
        }
    }
}

/// A base path starts and ends with `/`.
pub proof fn lemma_normalized_shape(path: Seq<char>)
    ensures
        normalized(path).len() > 0,
        normalized(path)[0] == '/',
        normalized(path).last() == '/',
        normalized(path).len() > 1 ==> normalized(path)[normalized(path).len() - 2] != '/',
{
    text::lemma_strip_end(path, '/');
}

/// Normalizing a base path again changes nothing.
pub proof fn lemma_normalized_idempotent(path: Seq<char>)
    ensures
        normalized(normalized(path)) == normalized(path),
{
    let n = normalized(path);
    lemma_normalized_shape(path);
    text::lemma_strip_end(path, '/');
    assert(text::strip_end_of(n, '/') == text::strip_end_of(n.drop_last(), '/'));
    if n.len() == 1 {
        assert(n.drop_last().len() == 0);
        assert(n =~= seq!['/']);
    } else {
        assert(n.drop_last().last() != '/');
        assert(n.drop_last().push('/') =~= n);
        assert(n.drop_last()[0] == '/');
    }
}

/// Text that is there.
pub open spec fn nonempty(s: Seq<char>) -> Option<Seq<char>> {
    if s.len() > 0 {
        Some(s)
    } else {
        None
    }
}

/// The session and the sequence number in what follows the base path.
pub open spec fn session_and_seq(rest: Seq<char>) -> (Option<Seq<char>>, Option<Seq<char>>) {
    match text::split_once_of(rest, '/') {
        Some((session, seq)) => (nonempty(session), nonempty(seq)),
        None => (nonempty(rest), None),
    }
}

/// What a request path names below `base`: nothing where it is `base` itself, with or
/// without the `/` at its end.
pub open spec fn path_parts(path: Seq<char>, base: Seq<char>) -> Option<
    (Option<Seq<char>>, Option<Seq<char>>),
> {
    if path == text::strip_end_of(base, '/') || path == base {
        Some((None, None))
    } else if base.is_prefix_of(path) {
        Some(session_and_seq(text::strip_start_of(path.skip(base.len() as int), '/')))
    } else {
        None
    }
}

/// The texts of what [`parse_path`] gives.
pub open spec fn parts_text(p: Option<(Option<String>, Option<String>)>) -> Option<
    (Option<Seq<char>>, Option<Seq<char>>),
> {
    match p {
        Some((a, b)) => Some((text::opt_text(a), text::opt_text(b))),
        None => None,
    }
}

/// A copy of `s`, where it is not empty.
fn kept(s: &str) -> (r: Option<String>)
    ensures
        text::opt_text(r) == nonempty(s@),
{
    if s.is_empty() {
        None
    } else {
        Some(s.to_owned())
    }
}

/// Splits a request path into a session and a sequence number:
/// `/<base>/<session>` and `/<base>/<session>/<seq>`. Nothing comes back for a path
/// outside of `base_path`.
pub fn parse_path(req_path: &str, base_path: &str) -> (r: Option<(Option<String>, Option<String>)>)
    ensures
        parts_text(r) == path_parts(req_path@, base_path@),
{
    let bare = text::strip_end(base_path, '/');
    if text::same_text(req_path, bare) || text::same_text(req_path, base_path) {
        return Some((None, None));
    }
    if !text::starts_with(req_path, base_path) {
        return None;
    }
    let n = text::chars_of(base_path).len();
    let rest = text::strip_start(text::skip_chars(req_path, n), '/');
    match text::split_once(rest, '/') {
        Some((session, seq)) => Some((kept(session), kept(seq))),
        None => Some((kept(rest), None)),
    }
}

/// A path built from a session and a sequence number is read back as the two, below
/// every base path.
pub proof fn lemma_parse_built_path(base: Seq<char>, session: Seq<char>, seq: Seq<char>)
    requires
        session.len() > 0,
        forall|i: int| 0 <= i < session.len() ==> session[i] != '/',
        seq.len() > 0,
    ensures
        path_parts(base + session, base) == Some((Some(session), None::<Seq<char>>)),
        path_parts(base + session.push('/') + seq, base) == Some((Some(session), Some(seq))),
{
    text::lemma_strip_end(base, '/');
    let one = base + session;
    let two = base + session.push('/') + seq;
    assert(one.len() > base.len());
    assert(two.len() > base.len());
    assert(base =~= one.subrange(0, base.len() as int));
    assert(base =~= two.subrange(0, base.len() as int));
    assert(one.skip(base.len() as int) =~= session);
    let rest = session.push('/') + seq;
    assert(two.skip(base.len() as int) =~= rest);
    assert(text::strip_start_of(session, '/') == session);
    assert(rest[0] == session[0]);
    assert(text::strip_start_of(rest, '/') == rest);
    text::lemma_first_of_unique(session, '/', session.len() as int);
    text::lemma_first_of_unique(rest, '/', session.len() as int);
    assert(rest.take(session.len() as int) =~= session);
    assert(rest.skip(session.len() as int + 1) =~= seq);
}

/// What a request asks for.
pub enum Route {
    /// The host or the path is not served here.
    NotFound,
    /// A browser asks what it may do.
    Preflight,
    /// Data towards the client; without a session the request's own body goes up.
    Downlink(Option<String>),
    /// Data from the client, for a session, with a sequence number.
    Uplink(Option<String>, Option<String>),
}

/// The mathematical counterpart of [`Route`].
pub enum RouteView {
    NotFound,
    Preflight,
    Downlink(Option<Seq<char>>),
    Uplink(Option<Seq<char>>, Option<Seq<char>>),
}

impl View for Route {
    type V = RouteView;

    open spec fn view(&self) -> RouteView {
        match *self {
            Route::NotFound => RouteView::NotFound,
            Route::Preflight => RouteView::Preflight,
            Route::Downlink(s) => RouteView::Downlink(text::opt_text(s)),
            Route::Uplink(s, q) => RouteView::Uplink(text::opt_text(s), text::opt_text(q)),
        }
    }
}

/// How a request is routed: the host must be the expected one, where one is expected; a
/// `GET` without a sequence number is a downlink, everything else an uplink.
pub open spec fn route_of(
    method: Seq<char>,
    host: Seq<char>,
    path: Seq<char>,
    base: Seq<char>,
    expected_host: Option<Seq<char>>,
) -> RouteView {
    if expected_host is Some && host != expected_host->0 {
        RouteView::NotFound
    } else if method == "OPTIONS"@ {
        RouteView::Preflight
    } else {
        match path_parts(path, base) {
            None => RouteView::NotFound,
            Some((session, seq)) => if method == "GET"@ && seq is None {
                RouteView::Downlink(session)
            } else {
                RouteView::Uplink(session, seq)
            },
        }
    }
}

/// Routes a request. `host` is the `Host` header, empty where there is none that is text.
pub fn route_request(
    method: &str,
    host: &str,
    path: &str,
    base_path: &str,
    expected_host: &Option<String>,
) -> (r: Route)
    ensures
        r@ == route_of(method@, host@, path@, base_path@, text::opt_text(*expected_host)),
{
    if let Some(expected) = expected_host {
        if !text::same_text(host, expected.as_str()) {
            return Route::NotFound;
        }
    }
    if text::same_text(method, "OPTIONS") {
        return Route::Preflight;
    }
    match parse_path(path, base_path) {
        None => Route::NotFound,
        Some((session, seq)) => {
            if text::same_text(method, "GET") && seq.is_none() {
                Route::Downlink(session)
            } else {
                Route::Uplink(session, seq)
            }
        },
    }
}

/// What an uplink request carries.
#[derive(Debug, Clone, Copy, PartialEq, Eq, Structural)]
pub enum Uplink {
    /// A stream of its own.
    Stream,
    /// One packet of a numbered series.
    Packet(u64),
    /// A number that is none.
    BadSequence,
}

/// What an uplink with this sequence number carries.
pub open spec fn uplink_of(seq: Option<Seq<char>>) -> Uplink {
    match seq {
        None => Uplink::Stream,
        Some(s) => match text::parse_unsigned_of(s, u64::MAX as nat) {
            Some(n) => Uplink::Packet(n as u64),
            None => Uplink::BadSequence,
        },
    }
}

/// Decides what an uplink request carries.
pub fn uplink_kind(seq: &Option<String>) -> (r: Uplink)
    ensures
        r == uplink_of(text::opt_text(*seq)),
{
    match seq {
        None => Uplink::Stream,
        Some(s) => match text::parse_unsigned(s.as_str(), u64::MAX) {
            Some(n) => Uplink::Packet(n),
            None => Uplink::BadSequence,
        },
    }
}

/// The status that answers an uplink: 200, or 400 for a bad sequence number.
pub fn uplink_status(kind: Uplink) -> (r: u16)
    ensures
        r == (if kind == Uplink::BadSequence { 400u16 } else { 200u16 }),
{
    match kind {
        Uplink::BadSequence => 400,
        _ => 200,
    }
}

/// A base path is one and the same with and without `/` at its ends.
pub proof fn lemma_normalized_path(p: Seq<char>)
    requires
        p.len() > 0,
        p[0] != '/',
        p.last() != '/',
    ensures
        normalized(p) == seq!['/'] + p + seq!['/'],
        normalized(p.push('/')) == seq!['/'] + p + seq!['/'],
        normalized(seq!['/'] + p) == seq!['/'] + p + seq!['/'],
        normalized(seq!['/'] + p + seq!['/']) == seq!['/'] + p + seq!['/'],
        normalized(Seq::empty()) == seq!['/'],
        normalized(seq!['/']) == seq!['/'],
{
    let full = seq!['/'] + p + seq!['/'];
    let front = seq!['/'] + p;
    assert(text::strip_end_of(p, '/') == p);
    assert(p.push('/').drop_last() =~= p);
    assert(text::strip_end_of(p.push('/'), '/') == text::strip_end_of(p, '/'));
    assert(front.last() == p.last());
    assert(text::strip_end_of(front, '/') == front);
    assert(full.last() == '/');
    assert(full.drop_last() =~= front);
    assert(text::strip_end_of(full, '/') == text::strip_end_of(front, '/'));
    assert(seq!['/'] + p.push('/') =~= full);
    assert(front.push('/') =~= full);
    let slash = seq!['/'];
    assert(slash.drop_last() =~= Seq::<char>::empty());
    assert(text::strip_end_of(slash, '/') == text::strip_end_of(slash.drop_last(), '/'));
    assert(text::strip_end_of(Seq::<char>::empty(), '/') =~= Seq::<char>::empty());
}

/// What a request asks for, by its method and by what follows the base path: below the base
/// a `GET` that names at most a session is data towards the client, and a sequence number,
/// or any other method, makes it data from the client. Nothing else is served, and nothing
/// to a host that is not the expected one.
pub proof fn lemma_routes(
    method: Seq<char>,
    host: Seq<char>,
    base: Seq<char>,
    session: Seq<char>,
    number: u64,
    other: Seq<char>,
)
    requires
        session.len() > 0,
        forall|i: int| 0 <= i < session.len() ==> session[i] != '/',
        method != "OPTIONS"@,
        other != text::strip_end_of(base, '/'),
        !base.is_prefix_of(other),
    ensures
        ({
            let digits = text::decimal_of(number as nat);
            let numbered = base + session.push('/') + digits;
            let get = method == "GET"@;
            &&& route_of(method, host, base, base, None) == if get {
                RouteView::Downlink(None)
            } else {
                RouteView::Uplink(None, None)
            }
            &&& route_of(method, host, base + session, base, Some(host)) == if get {
                RouteView::Downlink(Some(session))
            } else {
                RouteView::Uplink(Some(session), None)
            }
            &&& route_of(method, host, numbered, base, Some(host)) == RouteView::Uplink(
                Some(session),
                Some(digits),
            )
            &&& uplink_of(Some(digits)) == Uplink::Packet(number)
            &&& uplink_of(None) == Uplink::Stream
            &&& route_of(method, host, other, base, Some(host)) == RouteView::NotFound
            &&& route_of(method, host, base + session, base, Some(host.push('x')))
                == RouteView::NotFound
            &&& route_of("OPTIONS"@, host, other, base, Some(host)) == RouteView::Preflight
        }),
{
    let digits = text::decimal_of(number as nat);
    text::lemma_decimal_round_trip(number as nat, u64::MAX as nat);
    lemma_parse_built_path(base, session, digits);
    assert(host.len() != host.push('x').len());
    if other == base {
        assert(base =~= other.subrange(0, base.len() as int));
    }
}

} // verus!
