//! Destinations, and the SOCKS5 form in which several protocols write them:
//! `ATYP(1) | ADDR | PORT(2)`.
use crate::text;
use crate::wire::{be_bytes, be_value, Decoded, DecodedView};
use crate::wire::{copy_range, push_slice, push_u16, read_u16};
use vstd::prelude::*;
use vstd::utf8::{decode_utf8, encode_utf8, valid_utf8};

verus! {

pub const ATYP_IPV4: u8 = 0x01;

pub const ATYP_DOMAIN: u8 = 0x03;

pub const ATYP_IPV6: u8 = 0x04;

/// A host by address or by name.
#[derive(Debug, Clone, PartialEq, Eq)]
pub enum Host {
    V4([u8; 4]),
    V6([u8; 16]),
    Domain(String),
}

/// A host and a port.
#[derive(Debug, Clone, PartialEq, Eq)]
pub struct Target {
    pub host: Host,
    pub port: u16,
}

/// The mathematical counterpart of [`Host`].
pub enum HostView {
    V4(Seq<u8>),
    V6(Seq<u8>),
    Domain(Seq<char>),
}

/// The mathematical counterpart of [`Target`].
pub struct TargetView {
    pub host: HostView,
    pub port: nat,
}

impl View for Host {
    type V = HostView;

    open spec fn view(&self) -> HostView {
        match *self {
            Host::V4(a) => HostView::V4(a@),
            Host::V6(a) => HostView::V6(a@),
            Host::Domain(s) => HostView::Domain(s@),
        }
    }
}

impl View for Target {
    type V = TargetView;

    open spec fn view(&self) -> TargetView {
        TargetView { host: self.host@, port: self.port as nat }
    }
}

/// An IP address and a port.
#[derive(Debug, Clone, Copy, PartialEq, Eq)]
pub enum SockAddr {
    V4([u8; 4], u16),
    V6([u8; 16], u16),
}

/// The mathematical counterpart of [`SockAddr`].
pub enum SockAddrView {
    V4(Seq<u8>, u16),
    V6(Seq<u8>, u16),
}

impl View for SockAddr {
    type V = SockAddrView;

    open spec fn view(&self) -> SockAddrView {
        match *self {
            SockAddr::V4(a, p) => SockAddrView::V4(a@, p),
            SockAddr::V6(a, p) => SockAddrView::V6(a@, p),
        }
    }
}

/// Why an address cannot be read or written.
#[derive(Debug, Clone, Copy, PartialEq, Eq, Structural)]
pub enum AddressError {
    /// An address type that is none of the three.
    UnknownType(u8),
    /// A name that is not UTF-8.
    NotUtf8,
    /// The bytes end before the address does.
    Truncated,
    /// A name of more than 255 bytes.
    DomainTooLong,
    /// A text without a port behind a `:`.
    NoPort,
}

/// What `buf` says of the address at its start.
pub open spec fn address_of(buf: Seq<u8>) -> DecodedView<TargetView, AddressError> {
    if buf.len() < 1 {
        DecodedView::More(1)
    } else if buf[0] == ATYP_IPV4 {
        if buf.len() < 7 {
            DecodedView::More(7)
        } else {
            DecodedView::Done(
                TargetView {
                    host: HostView::V4(buf.subrange(1, 5)),
                    port: be_value(buf.subrange(5, 7)),
                },
                7,
            )
        }
    } else if buf[0] == ATYP_IPV6 {
        if buf.len() < 19 {
            DecodedView::More(19)
        } else {
            DecodedView::Done(
                TargetView {
                    host: HostView::V6(buf.subrange(1, 17)),
                    port: be_value(buf.subrange(17, 19)),
                },
                19,
            )
        }
    } else if buf[0] == ATYP_DOMAIN {
        if buf.len() < 2 {
            DecodedView::More(2)
        } else {
            let end = 2 + buf[1] as int;
            if buf.len() < end {
                DecodedView::More(end as nat)
            } else if !valid_utf8(buf.subrange(2, end)) {
                DecodedView::Bad(AddressError::NotUtf8)
            } else if buf.len() < end + 2 {
                DecodedView::More((end + 2) as nat)
            } else {
                DecodedView::Done(
                    TargetView {
                        host: HostView::Domain(decode_utf8(buf.subrange(2, end))),
                        port: be_value(buf.subrange(end, end + 2)),
                    },
                    (end + 2) as nat,
                )
            }
        }
    } else {
        DecodedView::Bad(AddressError::UnknownType(buf[0]))
    }
}

/// The four bytes at `at`.
pub fn array4(b: &[u8], at: usize) -> (r: [u8; 4])
    requires
        at + 4 <= b@.len(),
    ensures
        r@ == b@.subrange(at as int, at + 4),
{
    let n: usize = b.len();
    let r: [u8; 4] = [b[at], b[at + 1], b[at + 2], b[at + 3]];
    assert(r@ =~= b@.subrange(at as int, at + 4));
    r
}

/// The sixteen bytes at `at`.
pub fn array16(b: &[u8], at: usize) -> (r: [u8; 16])
    requires
        at + 16 <= b@.len(),
    ensures
        r@ == b@.subrange(at as int, at + 16),
{
    let n: usize = b.len();
    let mut r: [u8; 16] = [0; 16];
    let mut i: usize = 0;
    while i < 16
        invariant
            i <= 16,
            at + 16 <= b@.len() <= usize::MAX,
            forall|k: int| 0 <= k < i ==> r@[k] == b@[at + k],
        decreases 16 - i,
    {
        r[i] = b[at + i];
        i = i + 1;
    }
    assert(r@ =~= b@.subrange(at as int, at + 16));
    r
}

/// Reads the address at the start of `buf`.
pub fn read_address(buf: &[u8]) -> (r: Decoded<Target, AddressError>)
    ensures
        r@ == address_of(buf@),
{
    let n: usize = buf.len();
    if n < 1 {
        return Decoded::More(1);
    }
    let atyp: u8 = buf[0];
    if atyp == ATYP_IPV4 {
        if n < 7 {
            return Decoded::More(7);
        }
        Decoded::Done(Target { host: Host::V4(array4(buf, 1)), port: read_u16(buf, 5) }, 7)
    } else if atyp == ATYP_IPV6 {
        if n < 19 {
            return Decoded::More(19);
        }
        Decoded::Done(Target { host: Host::V6(array16(buf, 1)), port: read_u16(buf, 17) }, 19)
    } else if atyp == ATYP_DOMAIN {
        if n < 2 {
            return Decoded::More(2);
        }
        let end: usize = 2 + (buf[1] as usize);
        if n < end {
            return Decoded::More(end);
        }
        match text::utf8_text(copy_range(buf, 2, end)) {
            None => Decoded::Bad(AddressError::NotUtf8),
            Some(name) => {
                if n < end + 2 {
                    return Decoded::More(end + 2);
                }
                Decoded::Done(
                    Target { host: Host::Domain(name), port: read_u16(buf, end) },
                    end + 2,
                )
            },
        }
    } else {
        Decoded::Bad(AddressError::UnknownType(atyp))
    }
}

/// Bytes behind an address do not change how it is read.
pub proof fn lemma_address_prefix(buf: Seq<u8>, rest: Seq<u8>)
    ensures
        address_of(buf) !is More ==> address_of(buf + rest) == address_of(buf),
        address_of(buf) matches DecodedView::More(n) ==> n > buf.len(),
        address_of(buf) matches DecodedView::Done(_, n) ==> 0 < n <= buf.len(),
{
    let all = buf + rest;
    if buf.len() >= 7 {
        assert(all.subrange(1, 5) =~= buf.subrange(1, 5));
        assert(all.subrange(5, 7) =~= buf.subrange(5, 7));
    }
    if buf.len() >= 19 {
        assert(all.subrange(1, 17) =~= buf.subrange(1, 17));
        assert(all.subrange(17, 19) =~= buf.subrange(17, 19));
    }
    if buf.len() >= 2 {
        let end = 2 + buf[1] as int;
        if buf.len() >= end {
            assert(all.subrange(2, end) =~= buf.subrange(2, end));
        }
        if buf.len() >= end + 2 {
            assert(all.subrange(end, end + 2) =~= buf.subrange(end, end + 2));
        }
    }
}

/// Whether a host can be written: its address has the right size, its name fits in one
/// length byte.
pub open spec fn writable(host: HostView) -> bool {
    match host {
        HostView::V4(a) => a.len() == 4,
        HostView::V6(a) => a.len() == 16,
        HostView::Domain(s) => encode_utf8(s).len() <= 255,
    }
}

/// A host and a port in SOCKS5 form.
pub open spec fn address_bytes(t: TargetView) -> Seq<u8> {
    (match t.host {
        HostView::V4(a) => seq![ATYP_IPV4] + a,
        HostView::V6(a) => seq![ATYP_IPV6] + a,
        HostView::Domain(s) => seq![ATYP_DOMAIN, encode_utf8(s).len() as u8] + encode_utf8(s),
    }) + be_bytes(t.port, 2)
}

/// Writes an address in SOCKS5 form. A name of more than 255 bytes is refused and leaves
/// `out` with no more than the address type added.
pub fn encode_address(target: &Target, out: &mut Vec<u8>) -> (r: Result<(), AddressError>)
    ensures
        writable(target@.host) ==> r is Ok && final(out)@ == old(out)@ + address_bytes(target@),
        !writable(target@.host) ==> r == Err::<(), AddressError>(AddressError::DomainTooLong)
            && final(out)@ == old(out)@.push(ATYP_DOMAIN),
{
    match &target.host {
        Host::V4(a) => {
            out.push(ATYP_IPV4);
            push_slice(out, a.as_slice());
        },
        Host::V6(a) => {
            out.push(ATYP_IPV6);
            push_slice(out, a.as_slice());
        },
        Host::Domain(s) => {
            out.push(ATYP_DOMAIN);
            let name = s.as_str().as_bytes();
            if name.len() > 255 {
                return Err(AddressError::DomainTooLong);
            }
            out.push(name.len() as u8);
            push_slice(out, name);
        },
    }
    push_u16(out, target.port);
    assert(out@ =~= old(out)@ + address_bytes(target@));
    Ok(())
}

/// An address that was written is read back, whatever follows it.
pub proof fn lemma_address_round_trip(t: TargetView, rest: Seq<u8>)
    requires
        writable(t.host),
        t.port < 0x1_0000,
    ensures
        address_of(address_bytes(t) + rest) == DecodedView::<TargetView, AddressError>::Done(
            t,
            address_bytes(t).len(),
        ),
{
    let b = address_bytes(t);
    let all = b + rest;
    crate::wire::lemma_be_bytes_len(t.port, 2);
    crate::wire::lemma_pow256_small();
    crate::wire::lemma_be_value_of_bytes(t.port, 2);
    match t.host {
        HostView::V4(a) => {
            assert(all.subrange(1, 5) =~= a);
            assert(all.subrange(5, 7) =~= be_bytes(t.port, 2));
        },
        HostView::V6(a) => {
            assert(all.subrange(1, 17) =~= a);
            assert(all.subrange(17, 19) =~= be_bytes(t.port, 2));
        },
        HostView::Domain(s) => {
            let e = encode_utf8(s);
            let end = 2 + e.len() as int;
            assert(all[1] == e.len());
            assert(all.subrange(2, end) =~= e);
            assert(all.subrange(end, end + 2) =~= be_bytes(t.port, 2));
            vstd::utf8::encode_utf8_valid_utf8(s);
            vstd::utf8::encode_utf8_decode_utf8(s);
        },
    }
}

/// `s` without the brackets at both ends.
pub open spec fn without_brackets(s: Seq<char>) -> Seq<char> {
    strip_brackets_start(strip_brackets_end(s))
}

pub open spec fn is_bracket(c: char) -> bool {
    c == '[' || c == ']'
}

pub open spec fn strip_brackets_start(s: Seq<char>) -> Seq<char>
    decreases s.len(),
{
    if s.len() > 0 && is_bracket(s[0]) {
        strip_brackets_start(s.skip(1))
    } else {
        s
    }
}

pub open spec fn strip_brackets_end(s: Seq<char>) -> Seq<char>
    decreases s.len(),
{
    if s.len() > 0 && is_bracket(s.last()) {
        strip_brackets_end(s.drop_last())
    } else {
        s
    }
}

fn trim_brackets(s: &str) -> (r: &str)
    ensures
        r@ == without_brackets(s@),
{
    let v = text::chars_of(s);
    let mut end: usize = v.len();
    assert(s@.take(s@.len() as int) =~= s@);
    while end > 0 && (v[end - 1] == '[' || v[end - 1] == ']')
        invariant
            v@ == s@,
            end <= v@.len(),
            strip_brackets_end(s@.take(end as int)) == strip_brackets_end(s@),
        decreases end,
    {
        assert(s@.take(end as int).drop_last() =~= s@.take(end - 1));
        end = end - 1;
    }
    let ghost body = s@.take(end as int);
    assert(strip_brackets_end(body) == body);
    let mut start: usize = 0;
    assert(body.skip(0) =~= body);
    while start < end && (v[start] == '[' || v[start] == ']')
        invariant
            v@ == s@,
            start <= end <= v@.len(),
            body == s@.take(end as int),
            strip_brackets_start(body.skip(start as int)) == strip_brackets_start(body),
        decreases end - start,
    {
        assert(body.skip(start as int).skip(1) =~= body.skip(start + 1));
        start = start + 1;
    }
    let head = text::take_chars(s, end);
    text::skip_chars(head, start)
}

/// The host, without brackets, and the port of a text `host:port`.
pub open spec fn authority_of(s: Seq<char>) -> Option<(Seq<char>, nat)> {
    match text::rsplit_once_of(s, ':') {
        None => None,
        Some((host, port)) => match text::parse_unsigned_of(port, 65535) {
            None => None,
            Some(p) => Some((without_brackets(host), p)),
        },
    }
}

/// Splits a text `host:port` at its last `:`.
pub fn split_authority(addr: &str) -> (r: Result<(String, u16), AddressError>)
    ensures
        match r {
            Ok((h, p)) => authority_of(addr@) == Some((h@, p as nat)),
            Err(e) => authority_of(addr@) is None && e == AddressError::NoPort,
        },
{
    match text::rsplit_once(addr, ':') {
        None => Err(AddressError::NoPort),
        Some((host, port)) => match text::parse_unsigned(port, 65535) {
            None => Err(AddressError::NoPort),
            Some(p) => Ok((trim_brackets(host).to_owned(), p as u16)),
        },
    }
}

/// The three forms of an address, byte by byte: `01` and four bytes, `03` with a length and
/// a name, `04` and sixteen bytes, each followed by the port with its high byte first. Read
/// back, with anything behind it, each is what it was and ends where it ended.
pub proof fn lemma_address_layout(
    name: Seq<char>,
    ip4: Seq<u8>,
    ip6: Seq<u8>,
    port: nat,
    rest: Seq<u8>,
)
    requires
        encode_utf8(name).len() <= 255,
        ip4.len() == 4,
        ip6.len() == 16,
        port < 0x1_0000,
    ensures
        ({
            let p = seq![(port / 256) as u8, (port % 256) as u8];
            let n = encode_utf8(name).len();
            let v4 = seq![0x01u8] + ip4 + p;
            let domain = seq![0x03u8, n as u8] + encode_utf8(name) + p;
            let v6 = seq![0x04u8] + ip6 + p;
            &&& address_bytes(TargetView { host: HostView::V4(ip4), port }) == v4
            &&& address_bytes(TargetView { host: HostView::Domain(name), port }) == domain
            &&& address_bytes(TargetView { host: HostView::V6(ip6), port }) == v6
            &&& address_of(v4 + rest) == DecodedView::<TargetView, AddressError>::Done(
                TargetView { host: HostView::V4(ip4), port },
                7,
            )
            &&& address_of(domain + rest) == DecodedView::<TargetView, AddressError>::Done(
                TargetView { host: HostView::Domain(name), port },
                n + 4,
            )
            &&& address_of(v6 + rest) == DecodedView::<TargetView, AddressError>::Done(
                TargetView { host: HostView::V6(ip6), port },
                19,
            )
        }),
{
    crate::wire::lemma_be_pair(port);
    lemma_address_round_trip(TargetView { host: HostView::V4(ip4), port }, rest);
    lemma_address_round_trip(TargetView { host: HostView::Domain(name), port }, rest);
    lemma_address_round_trip(TargetView { host: HostView::V6(ip6), port }, rest);
}

/// An address of which bytes are missing is waited for, and no further than to its end; an
/// address of no known form is refused at its first byte.
pub proof fn lemma_address_waits(t: TargetView, k: int, buf: Seq<u8>)
    requires
        writable(t.host),
        t.port < 0x1_0000,
        0 <= k < address_bytes(t).len(),
        buf.len() > 0,
    ensures
        address_of(address_bytes(t).take(k)) matches DecodedView::More(n) && k < n
            <= address_bytes(t).len(),
        buf[0] != 1 && buf[0] != 3 && buf[0] != 4 ==> address_of(buf) == DecodedView::<
            TargetView,
            AddressError,
        >::Bad(AddressError::UnknownType(buf[0])),
{
    crate::wire::lemma_be_pair(t.port);
    if let HostView::Domain(s) = t.host {
        let e = encode_utf8(s);
        let end = 2 + e.len() as int;
        vstd::utf8::encode_utf8_valid_utf8(s);
        if k >= end {
            assert(address_bytes(t).take(k).subrange(2, end) =~= e);
        }
    }
}

/// A text `host:port` is read as that host and that port, and so is one with the host in
/// brackets; a host in brackets may hold further `:`. Without a `:`, or with a port past
/// 65535, there is none.
pub proof fn lemma_authority(host: Seq<char>, port: nat)
    requires
        host.len() > 0 ==> !is_bracket(host[0]) && !is_bracket(host.last()),
    ensures
        port <= 65535 ==> authority_of(host + seq![':'] + text::decimal_of(port)) == Some(
            (host, port),
        ),
        port <= 65535 ==> authority_of(
            seq!['['] + host + seq![']'] + seq![':'] + text::decimal_of(port),
        ) == Some((host, port)),
        port > 65535 ==> authority_of(host + seq![':'] + text::decimal_of(port)) is None,
        !host.contains(':') ==> authority_of(host) is None,
{
    let digits = text::decimal_of(port);
    text::lemma_decimal_round_trip(port, port);
    assert(!digits.contains(':')) by {
        if digits.contains(':') {
            let i = choose|i: int| 0 <= i < digits.len() && digits[i] == ':';
            assert(text::is_digit(digits[i]));
        }
    }
    text::lemma_splits(host, ':', digits);
    text::lemma_splits(host, ':', host);
    let inside = seq!['['] + host + seq![']'];
    text::lemma_splits(inside, ':', digits);
    assert(without_brackets(host) == host);
    if port <= 65535 {
        text::lemma_decimal_round_trip(port, 65535);
        let open = seq!['['] + host;
        assert(inside.last() == ']');
        assert(inside.drop_last() =~= open);
        if host.len() > 0 {
            assert(open.last() == host.last());
            assert(strip_brackets_end(open) == open);
            assert(open.skip(1) =~= host);
            assert(strip_brackets_start(open) == strip_brackets_start(host));
        } else {
            assert(host =~= Seq::<char>::empty());
            assert(open.drop_last() =~= host);
            assert(strip_brackets_end(open) == strip_brackets_end(open.drop_last()));
        }
        assert(strip_brackets_end(inside) == strip_brackets_end(open));
    }
}

} // verus!
