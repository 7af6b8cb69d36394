//! The fixed headers: `TYPE | TIMESTAMP | address | PADDING_LEN | PADDING` of a request,
//! `TYPE | TIMESTAMP | REQUEST_SALT` of a response.
use crate::address::{address_bytes, address_of, writable, TargetView};
use crate::address::{encode_address, read_address, AddressError, Target};
use crate::wire::{be_bytes, be_value, Decoded, DecodedView};
use crate::wire::{copy_range, push_slice, push_u16, push_u64, read_u16, read_u64};
use vstd::prelude::*;

verus! {

/// How far, in seconds, a peer's clock may be off.
pub const MAX_TIMESTAMP_DIFF: u64 = 30;

pub const STREAM_TYPE_REQUEST: u8 = 0x00;

pub const STREAM_TYPE_RESPONSE: u8 = 0x01;

/// Why a header is refused.
#[derive(Debug, Clone, Copy, PartialEq, Eq, Structural)]
pub enum HeaderError {
    TooShort,
    /// The stream type that was found.
    WrongType(u8),
    /// How many seconds the timestamp is off.
    Stale(u64),
    Address(AddressError),
    /// The padding length is missing.
    NoPadding,
    TruncatedPadding,
    /// This machine's clock is set before 1970.
    Clock,
}

/// `SystemTime::now` as whole seconds since 1970, or nothing where the clock is set
/// before that.
#[verifier::external_body]
pub fn now_unix_secs() -> (r: Option<u64>) {
    std::time::SystemTime::now().duration_since(std::time::UNIX_EPOCH).ok().map(|d| d.as_secs())
}

/// The distance between two times.
pub open spec fn distance(a: nat, b: nat) -> nat {
    if a >= b {
        (a - b) as nat
    } else {
        (b - a) as nat
    }
}

/// Checks a timestamp against a clock.
pub fn check_timestamp_at(ts: u64, now: u64) -> (r: Result<(), HeaderError>)
    ensures
        r == timestamp_verdict(ts as nat, now as nat),
{
    let diff: u64 = if ts >= now {
        ts - now
    } else {
        now - ts
    };
    if diff > MAX_TIMESTAMP_DIFF {
        return Err(HeaderError::Stale(diff));
    }
    Ok(())
}

/// A timestamp is taken if it is at most `MAX_TIMESTAMP_DIFF` seconds off.
pub open spec fn timestamp_verdict(ts: nat, now: nat) -> Result<(), HeaderError> {
    if distance(ts, now) > MAX_TIMESTAMP_DIFF {
        Err(HeaderError::Stale(distance(ts, now) as u64))
    } else {
        Ok(())
    }
}

/// Checks a timestamp against this machine's clock.
pub fn check_timestamp(ts: u64) -> (r: Result<(), HeaderError>)
    ensures
        r == Err::<(), HeaderError>(HeaderError::Clock) || exists|now: u64|
            r == #[trigger] timestamp_verdict(ts as nat, now as nat),
{
    match now_unix_secs() {
        None => Err(HeaderError::Clock),
        Some(now) => check_timestamp_at(ts, now),
    }
}

/// The address at the start of `buf`, all of which is there.
pub open spec fn whole_address(buf: Seq<u8>) -> Result<(TargetView, nat), AddressError> {
    match address_of(buf) {
        DecodedView::Done(t, n) => Ok((t, n)),
        DecodedView::More(_) => Err(AddressError::Truncated),
        DecodedView::Bad(e) => Err(e),
    }
}

/// The view of an address and its length.
pub open spec fn address_view(r: Result<(Target, usize), AddressError>) -> Result<
    (TargetView, nat),
    AddressError,
> {
    match r {
        Ok((t, n)) => Ok((t@, n as nat)),
        Err(e) => Err(e),
    }
}

/// Reads the address at the start of a decrypted header, and says how long it is.
pub fn parse_address(buf: &[u8]) -> (r: Result<(Target, usize), AddressError>)
    ensures
        address_view(r) == whole_address(buf@),
        r matches Ok((_, n)) ==> n <= buf@.len(),
{
    proof {
        crate::address::lemma_address_prefix(buf@, Seq::empty());
    }
    match read_address(buf) {
        Decoded::Done(t, n) => Ok((t, n)),
        Decoded::More(_) => Err(AddressError::Truncated),
        Decoded::Bad(e) => Err(e),
    }
}

/// Checks in order: length, stream type, timestamp, address, padding.
pub open spec fn request_target(data: Seq<u8>, expected_type: u8, now: nat) -> Result<
    TargetView,
    HeaderError,
> {
    if data.len() < 18 {
        Err(HeaderError::TooShort)
    } else if data[0] != expected_type {
        Err(HeaderError::WrongType(data[0]))
    } else if timestamp_verdict(be_value(data.subrange(1, 9)), now) is Err {
        Err(timestamp_verdict(be_value(data.subrange(1, 9)), now)->Err_0)
    } else {
        match whole_address(data.skip(9)) {
            Err(e) => Err(HeaderError::Address(e)),
            Ok((target, n)) => {
                let at = 9 + n as int;
                if data.len() < at + 2 {
                    Err(HeaderError::NoPadding)
                } else if data.len() < at + 2 + be_value(data.subrange(at, at + 2)) {
                    Err(HeaderError::TruncatedPadding)
                } else {
                    Ok(target)
                }
            },
        }
    }
}

/// The view of a target or the reason that there is none.
pub open spec fn target_view(r: Result<Target, HeaderError>) -> Result<TargetView, HeaderError> {
    match r {
        Ok(t) => Ok(t@),
        Err(e) => Err(e),
    }
}

/// Reads a request header at the time `now`: where the client wants to go.
pub fn parse_request_header_at(data: &[u8], expected_type: u8, now: u64) -> (r: Result<
    Target,
    HeaderError,
>)
    ensures
        target_view(r) == request_target(data@, expected_type, now as nat),
{
    let len: usize = data.len();
    if len < 18 {
        return Err(HeaderError::TooShort);
    }
    if data[0] != expected_type {
        return Err(HeaderError::WrongType(data[0]));
    }
    if let Err(e) = check_timestamp_at(read_u64(data, 1), now) {
        return Err(e);
    }
    let rest = copy_range(data, 9, len);
    assert(rest@ =~= data@.skip(9));
    match parse_address(rest.as_slice()) {
        Err(e) => Err(HeaderError::Address(e)),
        Ok((target, n)) => {
            let at: usize = 9 + n;
            if len - at < 2 {
                return Err(HeaderError::NoPadding);
            }
            let padding: usize = read_u16(data, at) as usize;
            if len - at - 2 < padding {
                return Err(HeaderError::TruncatedPadding);
            }
            Ok(target)
        },
    }
}

/// Reads a request header by this machine's clock.
pub fn parse_request_header(data: &[u8], expected_type: u8) -> (r: Result<Target, HeaderError>)
    ensures
        target_view(r) == Err::<TargetView, HeaderError>(HeaderError::Clock) || exists|now: u64|
            target_view(r) == #[trigger] request_target(data@, expected_type, now as nat),
{
    match now_unix_secs() {
        None => Err(HeaderError::Clock),
        Some(now) => parse_request_header_at(data, expected_type, now),
    }
}

/// Checks in order: length, stream type, timestamp. What is left is the salt.
pub open spec fn response_salt(data: Seq<u8>, key_len: nat, now: nat) -> Result<
    Seq<u8>,
    HeaderError,
> {
    if data.len() < 9 + key_len {
        Err(HeaderError::TooShort)
    } else if data[0] != STREAM_TYPE_RESPONSE {
        Err(HeaderError::WrongType(data[0]))
    } else if timestamp_verdict(be_value(data.subrange(1, 9)), now) is Err {
        Err(timestamp_verdict(be_value(data.subrange(1, 9)), now)->Err_0)
    } else {
        Ok(data.subrange(9, 9 + key_len as int))
    }
}

/// The view of a salt or the reason that there is none.
pub open spec fn salt_view(r: Result<Vec<u8>, HeaderError>) -> Result<Seq<u8>, HeaderError> {
    match r {
        Ok(s) => Ok(s@),
        Err(e) => Err(e),
    }
}

/// Reads a response header at the time `now`: the salt of the request that it answers.
pub fn parse_response_header_at(data: &[u8], key_len: usize, now: u64) -> (r: Result<
    Vec<u8>,
    HeaderError,
>)
    ensures
        salt_view(r) == response_salt(data@, key_len as nat, now as nat),
{
    let len: usize = data.len();
    if len < 9 || len - 9 < key_len {
        return Err(HeaderError::TooShort);
    }
    if data[0] != STREAM_TYPE_RESPONSE {
        return Err(HeaderError::WrongType(data[0]));
    }
    if let Err(e) = check_timestamp_at(read_u64(data, 1), now) {
        return Err(e);
    }
    Ok(copy_range(data, 9, 9 + key_len))
}

/// Reads a response header by this machine's clock.
pub fn parse_response_header(data: &[u8], key_len: usize) -> (r: Result<Vec<u8>, HeaderError>)
    ensures
        salt_view(r) == Err::<Seq<u8>, HeaderError>(HeaderError::Clock) || exists|now: u64|
            salt_view(r) == #[trigger] response_salt(data@, key_len as nat, now as nat),
{
    match now_unix_secs() {
        None => Err(HeaderError::Clock),
        Some(now) => parse_response_header_at(data, key_len, now),
    }
}

/// A request header without padding.
pub open spec fn request_header_bytes(target: TargetView, now: nat) -> Seq<u8> {
    seq![STREAM_TYPE_REQUEST] + be_bytes(now, 8) + address_bytes(target) + be_bytes(0, 2)
}

/// Builds a request header at the time `now`.
pub fn build_request_header_at(target: &Target, now: u64) -> (r: Result<Vec<u8>, AddressError>)
    ensures
        r is Ok <==> writable(target@.host),
        r matches Ok(b) ==> b@ == request_header_bytes(target@, now as nat),
        r matches Err(e) ==> e == AddressError::DomainTooLong,
{
    let mut out: Vec<u8> = Vec::new();
    out.push(STREAM_TYPE_REQUEST);
    push_u64(&mut out, now);
    if let Err(e) = encode_address(target, &mut out) {
        return Err(e);
    }
    push_u16(&mut out, 0);
    assert(out@ =~= request_header_bytes(target@, now as nat));
    Ok(out)
}

/// Why no request header can be built.
#[derive(Debug, Clone, Copy, PartialEq, Eq, Structural)]
pub enum BuildError {
    Address(AddressError),
    Clock,
}

/// Builds a request header by this machine's clock.
pub fn build_request_header(target: &Target) -> (r: Result<Vec<u8>, BuildError>)
    ensures
        r matches Ok(b) ==> writable(target@.host) && exists|now: u64|
            b@ == #[trigger] request_header_bytes(target@, now as nat),
        r matches Err(BuildError::Address(e)) ==> !writable(target@.host) && e
            == AddressError::DomainTooLong,
{
    match now_unix_secs() {
        None => Err(BuildError::Clock),
        Some(now) => match build_request_header_at(target, now) {
            Ok(b) => Ok(b),
            Err(e) => Err(BuildError::Address(e)),
        },
    }
}

/// A response header.
pub open spec fn response_header_bytes(request_salt: Seq<u8>, now: nat) -> Seq<u8> {
    seq![STREAM_TYPE_RESPONSE] + be_bytes(now, 8) + request_salt
}

/// Builds a response header at the time `now`.
pub fn build_response_header_at(request_salt: &[u8], now: u64) -> (r: Vec<u8>)
    ensures
        r@ == response_header_bytes(request_salt@, now as nat),
{
    let mut out: Vec<u8> = Vec::new();
    out.push(STREAM_TYPE_RESPONSE);
    push_u64(&mut out, now);
    push_slice(&mut out, request_salt);
    assert(out@ =~= response_header_bytes(request_salt@, now as nat));
    out
}

/// Builds a response header at the time that a clock shows; there is none where the clock
/// shows nothing.
pub fn build_response_header_by(request_salt: &[u8], clock: Option<u64>) -> (r: Option<Vec<u8>>)
    ensures
        r is Some <==> clock is Some,
        clock matches Some(now) ==> r->Some_0@ == response_header_bytes(request_salt@, now as nat),
{
    match clock {
        None => None,
        Some(now) => Some(build_response_header_at(request_salt, now)),
    }
}

/// Builds a response header by this machine's clock, unless that is set before 1970. What
/// the clock shows decides, and [`build_response_header_by`] says how.
pub fn build_response_header(request_salt: &[u8]) -> (r: Option<Vec<u8>>)
    ensures
        r matches Some(b) ==> exists|now: u64|
            b@ == #[trigger] response_header_bytes(request_salt@, now as nat),
{
    build_response_header_by(request_salt, now_unix_secs())
}

/// A request header that was built is read back by a peer whose clock is close enough,
/// whatever stands behind it. On its own, a header for a name of fewer than three bytes is
/// too short to be taken.
pub proof fn lemma_request_header_round_trip(
    target: TargetView,
    sent: nat,
    now: nat,
    rest: Seq<u8>,
)
    requires
        writable(target.host),
        target.port < 0x1_0000,
        sent < 0x1_0000_0000_0000_0000,
        distance(sent, now) <= MAX_TIMESTAMP_DIFF,
        address_bytes(target).len() + rest.len() >= 7,
    ensures
        request_target(
            request_header_bytes(target, sent) + rest,
            STREAM_TYPE_REQUEST,
            now,
        ) == Ok::<TargetView, HeaderError>(target),
{
    let b = request_header_bytes(target, sent) + rest;
    crate::wire::lemma_be_bytes_len(sent, 8);
    crate::wire::lemma_be_bytes_len(0, 2);
    crate::wire::lemma_pow256_small();
    crate::wire::lemma_be_value_of_bytes(sent, 8);
    crate::wire::lemma_be_value_of_bytes(0, 2);
    assert(b.subrange(1, 9) =~= be_bytes(sent, 8));
    assert(b.skip(9) =~= address_bytes(target) + (be_bytes(0, 2) + rest));
    crate::address::lemma_address_round_trip(target, be_bytes(0, 2) + rest);
    let at = 9 + address_bytes(target).len() as int;
    assert(b.subrange(at, at + 2) =~= be_bytes(0, 2));
}

/// A response header that was built gives the salt back to a peer whose clock is close
/// enough.
pub proof fn lemma_response_header_round_trip(salt: Seq<u8>, sent: nat, now: nat)
    requires
        sent < 0x1_0000_0000_0000_0000,
        distance(sent, now) <= MAX_TIMESTAMP_DIFF,
    ensures
        response_salt(response_header_bytes(salt, sent), salt.len(), now) == Ok::<
            Seq<u8>,
            HeaderError,
        >(salt),
{
    let b = response_header_bytes(salt, sent);
    crate::wire::lemma_be_bytes_len(sent, 8);
    crate::wire::lemma_pow256_small();
    crate::wire::lemma_be_value_of_bytes(sent, 8);
    assert(b.subrange(1, 9) =~= be_bytes(sent, 8));
    assert(b.subrange(9, 9 + salt.len() as int) =~= salt);
}

/// A request header, byte by byte: type 0, the time in eight bytes, the address, the length
/// of the padding with its high byte first, and the padding. It is taken if the clocks are
/// at most thirty seconds apart, for the target that was written, whatever the padding.
/// Otherwise it is refused with the distance.
pub proof fn lemma_request_header_layout(
    target: TargetView,
    sent: nat,
    now: nat,
    padding: Seq<u8>,
    rest: Seq<u8>,
)
    requires
        writable(target.host),
        target.port < 0x1_0000,
        sent < 0x1_0000_0000_0000_0000,
        now < 0x1_0000_0000_0000_0000,
        padding.len() < 0x1_0000,
        address_bytes(target).len() + padding.len() + rest.len() >= 7,
    ensures
        ({
            let b = seq![0u8] + be_bytes(sent, 8) + address_bytes(target) + seq![
                (padding.len() / 256) as u8,
                (padding.len() % 256) as u8,
            ] + padding + rest;
            let off = if sent >= now {
                sent - now
            } else {
                now - sent
            };
            &&& request_target(b, 0, now) == if off <= 30 {
                Ok::<TargetView, HeaderError>(target)
            } else {
                Err(HeaderError::Stale(off as u64))
            }
            &&& request_target(b, 1, now) == Err::<TargetView, HeaderError>(
                HeaderError::WrongType(0),
            )
        }),
        request_header_bytes(target, sent) == seq![0u8] + be_bytes(sent, 8) + address_bytes(target)
            + seq![0u8, 0u8],
{
    let length = seq![(padding.len() / 256) as u8, (padding.len() % 256) as u8];
    let b = seq![0u8] + be_bytes(sent, 8) + address_bytes(target) + length + padding + rest;
    crate::wire::lemma_be_bytes_len(sent, 8);
    crate::wire::lemma_pow256_small();
    crate::wire::lemma_be_value_of_bytes(sent, 8);
    crate::wire::lemma_be_pair(padding.len());
    crate::wire::lemma_be_pair(0);
    assert(b.subrange(1, 9) =~= be_bytes(sent, 8));
    assert(b.skip(9) =~= address_bytes(target) + (length + padding + rest));
    crate::address::lemma_address_round_trip(target, length + padding + rest);
    let at = 9 + address_bytes(target).len() as int;
    assert(b.subrange(at, at + 2) =~= length);
    assert(request_header_bytes(target, sent) =~= seq![0u8] + be_bytes(sent, 8) + address_bytes(
        target,
    ) + seq![0u8, 0u8]);
}

/// A response header, byte by byte: type 1, the time in eight bytes, the salt. It gives back
/// the salt if the clocks are at most thirty seconds apart.
pub proof fn lemma_response_header_layout(salt: Seq<u8>, sent: nat, now: nat, rest: Seq<u8>)
    requires
        sent < 0x1_0000_0000_0000_0000,
        now < 0x1_0000_0000_0000_0000,
    ensures
        response_header_bytes(salt, sent) == seq![1u8] + be_bytes(sent, 8) + salt,
        ({
            let off = if sent >= now {
                sent - now
            } else {
                now - sent
            };
            response_salt(seq![1u8] + be_bytes(sent, 8) + salt + rest, salt.len(), now) == if off
                <= 30 {
                Ok::<Seq<u8>, HeaderError>(salt)
            } else {
                Err(HeaderError::Stale(off as u64))
            }
        }),
        response_salt(seq![0u8] + be_bytes(sent, 8) + salt + rest, salt.len(), now) == Err::<
            Seq<u8>,
            HeaderError,
        >(HeaderError::WrongType(0)),
{
    let b = seq![1u8] + be_bytes(sent, 8) + salt + rest;
    crate::wire::lemma_be_bytes_len(sent, 8);
    crate::wire::lemma_pow256_small();
    crate::wire::lemma_be_value_of_bytes(sent, 8);
    assert(b.subrange(1, 9) =~= be_bytes(sent, 8));
    assert(b.subrange(9, 9 + salt.len() as int) =~= salt);
}

} // verus!
