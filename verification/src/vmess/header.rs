//! The request header `authid(16) | length(18) | nonce(8) | header`, and the response
//! header that answers it.
use crate::address::{array16, array4, Host, HostView, Target, TargetView};
use crate::crypto;
use crate::shadowsocks::header::now_unix_secs;
use crate::text;
use crate::vmess::chunk::BodyCipher;
use crate::vmess::kdf::{fnv1a32, kdf12, kdf16, sha256_16};
use crate::vmess::kdf::{fnv1a32_of, kdf_of, salts};
use crate::wire::{be_bytes, be_value, Decoded, DecodedView};
use crate::wire::{copy_range, push_slice, push_u16, read_u16, read_u32, read_u64};
use vstd::prelude::*;
use vstd::utf8::{decode_utf8, encode_utf8, valid_utf8};

verus! {

/// How far, in seconds, the time in an authentication id may be off.
pub const MAX_AUTH_AGE: i64 = 120;

/// Why a request is refused.
#[derive(Debug, Clone, Copy, PartialEq, Eq, Structural)]
pub enum RequestError {
    /// The checksum of the authentication id is wrong: another user, or none.
    BadChecksum,
    /// The time in the authentication id is too far off.
    StaleAuthId,
    /// This machine's clock is set before 1970.
    Clock,
    /// The sealed length does not open.
    LengthTag,
    /// A length outside of 41 to 2048.
    BadLength(usize),
    /// The sealed header does not open.
    HeaderTag,
    TooShort,
    Version(u8),
    /// Anything but a stream to a target.
    Command(u8),
    /// The address runs past the end of the header.
    TruncatedAddress,
    NotUtf8,
    AddressType(u8),
    /// The checksum at the end is missing.
    NoChecksum,
    /// The checksum at the end is wrong.
    ChecksumMismatch,
}

/// A request that was taken.
#[derive(Debug, Clone)]
pub struct VmessRequest {
    pub target: Target,
    pub request_body_key: [u8; 16],
    pub request_body_iv: [u8; 16],
    pub response_body_key: [u8; 16],
    pub response_body_iv: [u8; 16],
    pub response_token: u8,
    pub option: u8,
    pub security: u8,
}

/// The mathematical counterpart of [`VmessRequest`].
pub struct RequestView {
    pub target: TargetView,
    pub request_body_key: Seq<u8>,
    pub request_body_iv: Seq<u8>,
    pub response_body_key: Seq<u8>,
    pub response_body_iv: Seq<u8>,
    pub response_token: u8,
    pub option: u8,
    pub security: u8,
}

impl View for VmessRequest {
    type V = RequestView;

    open spec fn view(&self) -> RequestView {
        RequestView {
            target: self.target@,
            request_body_key: self.request_body_key@,
            request_body_iv: self.request_body_iv@,
            response_body_key: self.response_body_key@,
            response_body_iv: self.response_body_iv@,
            response_token: self.response_token,
            option: self.option,
            security: self.security,
        }
    }
}

impl VmessRequest {
    /// The protection of the body that the client sends.
    pub fn uplink(&self) -> (r: BodyCipher)
        ensures
            r.key@ == self.request_body_key@,
            r.iv@ == self.request_body_iv@,
            r.opt == self.option,
            r.sec == self.security,
    {
        BodyCipher {
            key: self.request_body_key,
            iv: self.request_body_iv,
            opt: self.option,
            sec: self.security,
        }
    }

    /// The protection of the body that goes back.
    pub fn downlink(&self) -> (r: BodyCipher)
        ensures
            r.key@ == self.response_body_key@,
            r.iv@ == self.response_body_iv@,
            r.opt == self.option,
            r.sec == self.security,
    {
        BodyCipher {
            key: self.response_body_key,
            iv: self.response_body_iv,
            opt: self.option,
            sec: self.security,
        }
    }
}

/// `v` as a two's complement number of 64 bits.
pub open spec fn signed64(v: nat) -> int {
    if v < 0x8000_0000_0000_0000 {
        v as int
    } else {
        v - 0x1_0000_0000_0000_0000
    }
}

/// An opened authentication id is `time(8) | random(4) | crc32(4)`.
pub open spec fn auth_verdict(plain: Seq<u8>, now: int) -> Result<(), RequestError> {
    let ts = signed64(be_value(plain.subrange(0, 8)));
    if crypto::crc32_of(plain.subrange(0, 12)) != be_value(plain.subrange(12, 16)) {
        Err(RequestError::BadChecksum)
    } else if ts - now > 120 || now - ts > 120 {
        Err(RequestError::StaleAuthId)
    } else {
        Ok(())
    }
}

/// Checks an opened authentication id.
pub fn check_auth_plain(plain: &[u8; 16], now: i64) -> (r: Result<(), RequestError>)
    ensures
        r == auth_verdict(plain@, now as int),
{
    let body = copy_range(plain.as_slice(), 0, 12);
    if crypto::crc32(body.as_slice()) != read_u32(plain.as_slice(), 12) {
        return Err(RequestError::BadChecksum);
    }
    let raw: u64 = read_u64(plain.as_slice(), 0);
    let ts: i128 = if raw < 0x8000_0000_0000_0000 {
        raw as i128
    } else {
        (raw as i128) - 0x1_0000_0000_0000_0000
    };
    let diff: i128 = ts - (now as i128);
    if diff > MAX_AUTH_AGE as i128 || -diff > MAX_AUTH_AGE as i128 {
        return Err(RequestError::StaleAuthId);
    }
    Ok(())
}

/// The key under which a user's authentication ids are encrypted.
pub open spec fn auth_id_key(cmd_key: Seq<u8>) -> Seq<u8> {
    kdf_of(seq![encode_utf8("AES Auth ID Encryption"@)], cmd_key).subrange(0, 16)
}

/// What an authentication id is worth at the time `now`.
pub open spec fn auth_id_verdict(auth_id: Seq<u8>, cmd_key: Seq<u8>, now: int) -> Result<
    (),
    RequestError,
> {
    auth_verdict(crypto::aes128_block_decrypted(auth_id_key(cmd_key), auth_id), now)
}

/// Checks an authentication id at the time `now`.
pub fn validate_auth_id_at(auth_id: &[u8; 16], cmd_key: &[u8; 16], now: i64) -> (r: Result<
    (),
    RequestError,
>)
    ensures
        r == auth_id_verdict(auth_id@, cmd_key@, now as int),
{
    let label = "AES Auth ID Encryption".as_bytes();
    let path: [&[u8]; 1] = [label];
    assert(salts(path@) =~= seq![encode_utf8("AES Auth ID Encryption"@)]);
    let key = kdf16(cmd_key.as_slice(), path.as_slice());
    let plain = crypto::aes128_decrypt_block(&key, auth_id);
    check_auth_plain(&plain, now)
}

/// Checks an authentication id by this machine's clock.
pub fn validate_auth_id(auth_id: &[u8; 16], cmd_key: &[u8; 16]) -> (r: Result<(), RequestError>)
    ensures
        r == Err::<(), RequestError>(RequestError::Clock) || exists|now: i64|
            r == #[trigger] auth_id_verdict(auth_id@, cmd_key@, now as int),
{
    match now_unix_secs() {
        None => Err(RequestError::Clock),
        Some(now) => {
            if now > 0x7fff_ffff_ffff_ffff {
                return Err(RequestError::Clock);
            }
            validate_auth_id_at(auth_id, cmd_key, now as i64)
        },
    }
}

/// The host in a plain header, and where it ends.
pub open spec fn header_host(h: Seq<u8>) -> Result<(HostView, nat), RequestError> {
    if h[40] == 1 {
        if h.len() < 45 {
            Err(RequestError::TruncatedAddress)
        } else {
            Ok((HostView::V4(h.subrange(41, 45)), 45))
        }
    } else if h[40] == 2 {
        if h.len() < 42 || h.len() < 42 + h[41] {
            Err(RequestError::TruncatedAddress)
        } else if !valid_utf8(h.subrange(42, 42 + h[41])) {
            Err(RequestError::NotUtf8)
        } else {
            Ok((HostView::Domain(decode_utf8(h.subrange(42, 42 + h[41]))), (42 + h[41]) as nat))
        }
    } else if h[40] == 3 {
        if h.len() < 57 {
            Err(RequestError::TruncatedAddress)
        } else {
            Ok((HostView::V6(h.subrange(41, 57)), 57))
        }
    } else {
        Err(RequestError::AddressType(h[40]))
    }
}

/// The request in a plain header: `version | iv | key | token | option | padding and
/// security | 0 | command | port | address | padding | fnv1a32`.
pub open spec fn request_of(h: Seq<u8>) -> Result<RequestView, RequestError> {
    if h.len() < 41 {
        Err(RequestError::TooShort)
    } else if h[0] != 1 {
        Err(RequestError::Version(h[0]))
    } else if h[37] != 1 {
        Err(RequestError::Command(h[37]))
    } else {
        match header_host(h) {
            Err(e) => Err(e),
            Ok((host, end)) => {
                let at = end + (h[35] >> 4) as int;
                if h.len() < at + 4 {
                    Err(RequestError::NoChecksum)
                } else if fnv1a32_of(h.subrange(0, at)) != be_value(h.subrange(at, at + 4)) {
                    Err(RequestError::ChecksumMismatch)
                } else {
                    Ok(
                        RequestView {
                            target: TargetView { host, port: be_value(h.subrange(38, 40)) },
                            request_body_key: h.subrange(17, 33),
                            request_body_iv: h.subrange(1, 17),
                            response_body_key: crypto::sha256_of(h.subrange(17, 33)).subrange(
                                0,
                                16,
                            ),
                            response_body_iv: crypto::sha256_of(h.subrange(1, 17)).subrange(0, 16),
                            response_token: h[33],
                            option: h[34],
                            security: h[35] & 0x0f,
                        },
                    )
                }
            },
        }
    }
}

/// The view of a request or the reason that there is none.
pub open spec fn request_view(r: Result<VmessRequest, RequestError>) -> Result<
    RequestView,
    RequestError,
> {
    match r {
        Ok(q) => Ok(q@),
        Err(e) => Err(e),
    }
}

/// Reads the host of a plain header.
fn parse_host(h: &[u8]) -> (r: Result<(Host, usize), RequestError>)
    requires
        h@.len() >= 41,
    ensures
        match r {
            Ok((host, end)) => header_host(h@) == Ok::<(HostView, nat), RequestError>(
                (host@, end as nat),
            ) && end <= h@.len(),
            Err(e) => header_host(h@) == Err::<(HostView, nat), RequestError>(e),
        },
{
    let len: usize = h.len();
    let atyp: u8 = h[40];
    if atyp == 1 {
        if len < 45 {
            return Err(RequestError::TruncatedAddress);
        }
        Ok((Host::V4(array4(h, 41)), 45))
    } else if atyp == 2 {
        if len < 42 {
            return Err(RequestError::TruncatedAddress);
        }
        let end: usize = 42 + (h[41] as usize);
        if len < end {
            return Err(RequestError::TruncatedAddress);
        }
        match text::utf8_text(copy_range(h, 42, end)) {
            Some(name) => Ok((Host::Domain(name), end)),
            None => Err(RequestError::NotUtf8),
        }
    } else if atyp == 3 {
        if len < 57 {
            return Err(RequestError::TruncatedAddress);
        }
        Ok((Host::V6(array16(h, 41)), 57))
    } else {
        Err(RequestError::AddressType(atyp))
    }
}

/// Reads a plain header.
pub fn parse_plain_header(h: &[u8]) -> (r: Result<VmessRequest, RequestError>)
    ensures
        request_view(r) == request_of(h@),
{
    let len: usize = h.len();
    if len < 41 {
        return Err(RequestError::TooShort);
    }
    if h[0] != 1 {
        return Err(RequestError::Version(h[0]));
    }
    if h[37] != 1 {
        return Err(RequestError::Command(h[37]));
    }
    let (host, end) = match parse_host(h) {
        Ok(p) => p,
        Err(e) => {
            return Err(e);
        },
    };
    let b: u8 = h[35];
    assert(b >> 4 < 16) by (bit_vector);
    let pad: usize = (b >> 4) as usize;
    if len - end < pad || len - end - pad < 4 {
        return Err(RequestError::NoChecksum);
    }
    let at: usize = end + pad;
    let covered = copy_range(h, 0, at);
    if fnv1a32(covered.as_slice()) != read_u32(h, at) {
        return Err(RequestError::ChecksumMismatch);
    }
    let request_body_iv = array16(h, 1);
    let request_body_key = array16(h, 17);
    Ok(
        VmessRequest {
            target: Target { host, port: read_u16(h, 38) },
            request_body_key,
            request_body_iv,
            response_body_key: sha256_16(&request_body_key),
            response_body_iv: sha256_16(&request_body_iv),
            response_token: h[33],
            option: h[34],
            security: b & 0x0f,
        },
    )
}

/// Bytes derived from a user's key for one part of one request header.
pub open spec fn header_secret(
    cmd_key: Seq<u8>,
    label: Seq<char>,
    auth_id: Seq<u8>,
    nonce: Seq<u8>,
    n: int,
) -> Seq<u8> {
    kdf_of(seq![encode_utf8(label), auth_id, nonce], cmd_key).subrange(0, n)
}

/// The opened length of a request header.
pub open spec fn header_length(cmd_key: Seq<u8>, buf: Seq<u8>) -> Option<Seq<u8>> {
    let auth_id = buf.subrange(0, 16);
    let nonce = buf.subrange(34, 42);
    crypto::aes128_gcm_opened(
        header_secret(cmd_key, "VMess Header AEAD Key_Length"@, auth_id, nonce, 16),
        header_secret(cmd_key, "VMess Header AEAD Nonce_Length"@, auth_id, nonce, 12),
        auth_id,
        buf.subrange(16, 34),
    )
}

/// The opened request header, which ends at `end`.
pub open spec fn header_plain(cmd_key: Seq<u8>, buf: Seq<u8>, end: int) -> Option<Seq<u8>> {
    let auth_id = buf.subrange(0, 16);
    let nonce = buf.subrange(34, 42);
    crypto::aes128_gcm_opened(
        header_secret(cmd_key, "VMess Header AEAD Key"@, auth_id, nonce, 16),
        header_secret(cmd_key, "VMess Header AEAD Nonce"@, auth_id, nonce, 12),
        auth_id,
        buf.subrange(42, end),
    )
}

/// What `buf` says of the request at its start, at the time `now`.
pub open spec fn request_header_of(cmd_key: Seq<u8>, now: int, buf: Seq<u8>) -> DecodedView<
    RequestView,
    RequestError,
> {
    if buf.len() < 16 {
        DecodedView::More(16)
    } else if auth_id_verdict(buf.subrange(0, 16), cmd_key, now) is Err {
        DecodedView::Bad(auth_id_verdict(buf.subrange(0, 16), cmd_key, now)->Err_0)
    } else if buf.len() < 42 {
        DecodedView::More(42)
    } else {
        match header_length(cmd_key, buf) {
            None => DecodedView::Bad(RequestError::LengthTag),
            Some(l) => {
                let len = be_value(l);
                let end = 58 + len as int;
                if !(41 <= len <= 2048) {
                    DecodedView::Bad(RequestError::BadLength(len as usize))
                } else if buf.len() < end {
                    DecodedView::More(end as nat)
                } else {
                    match header_plain(cmd_key, buf, end) {
                        None => DecodedView::Bad(RequestError::HeaderTag),
                        Some(h) => match request_of(h) {
                            Ok(q) => DecodedView::Done(q, end as nat),
                            Err(e) => DecodedView::Bad(e),
                        },
                    }
                }
            },
        }
    }
}

/// Sixteen bytes derived for one part of one request header.
fn header_key(cmd_key: &[u8; 16], label: &str, auth_id: &[u8; 16], nonce: &[u8]) -> (r: [u8; 16])
    ensures
        r@ == header_secret(cmd_key@, label@, auth_id@, nonce@, 16),
{
    let path: [&[u8]; 3] = [label.as_bytes(), auth_id.as_slice(), nonce];
    assert(salts(path@) =~= seq![encode_utf8(label@), auth_id@, nonce@]);
    kdf16(cmd_key.as_slice(), path.as_slice())
}

/// Twelve bytes derived for one part of one request header.
fn header_iv(cmd_key: &[u8; 16], label: &str, auth_id: &[u8; 16], nonce: &[u8]) -> (r: [u8; 12])
    ensures
        r@ == header_secret(cmd_key@, label@, auth_id@, nonce@, 12),
{
    let path: [&[u8]; 3] = [label.as_bytes(), auth_id.as_slice(), nonce];
    assert(salts(path@) =~= seq![encode_utf8(label@), auth_id@, nonce@]);
    kdf12(cmd_key.as_slice(), path.as_slice())
}

/// Reads the request at the start of `buf`, at the time `now`.
pub fn decode_request_header_at(cmd_key: &[u8; 16], now: i64, buf: &[u8]) -> (r: Decoded<
    VmessRequest,
    RequestError,
>)
    ensures
        r@ == request_header_of(cmd_key@, now as int, buf@),
{
    let have: usize = buf.len();
    if have < 16 {
        return Decoded::More(16);
    }
    let auth_id = array16(buf, 0);
    if let Err(e) = validate_auth_id_at(&auth_id, cmd_key, now) {
        return Decoded::Bad(e);
    }
    if have < 42 {
        return Decoded::More(42);
    }
    let enc_len = copy_range(buf, 16, 34);
    let nonce = copy_range(buf, 34, 42);
    let len_key = header_key(
        cmd_key,
        "VMess Header AEAD Key_Length",
        &auth_id,
        nonce.as_slice(),
    );
    let len_iv = header_iv(
        cmd_key,
        "VMess Header AEAD Nonce_Length",
        &auth_id,
        nonce.as_slice(),
    );
    let len: usize = match aead_open(enc_len.as_slice(), &len_key, &len_iv, auth_id.as_slice()) {
        None => {
            return Decoded::Bad(RequestError::LengthTag);
        },
        Some(l) => {
            assert(l@.subrange(0, 2) =~= l@);
            read_u16(l.as_slice(), 0) as usize
        },
    };
    if !(41 <= len && len <= 2048) {
        return Decoded::Bad(RequestError::BadLength(len));
    }
    let end: usize = 58 + len;
    if have < end {
        return Decoded::More(end);
    }
    let enc_hdr = copy_range(buf, 42, end);
    let hdr_key = header_key(cmd_key, "VMess Header AEAD Key", &auth_id, nonce.as_slice());
    let hdr_iv = header_iv(cmd_key, "VMess Header AEAD Nonce", &auth_id, nonce.as_slice());
    match aead_open(enc_hdr.as_slice(), &hdr_key, &hdr_iv, auth_id.as_slice()) {
        None => Decoded::Bad(RequestError::HeaderTag),
        Some(h) => match parse_plain_header(h.as_slice()) {
            Ok(q) => Decoded::Done(q, end),
            Err(e) => Decoded::Bad(e),
        },
    }
}

/// Reads the request at the start of `buf` by this machine's clock.
pub fn decode_request_header(cmd_key: &[u8; 16], buf: &[u8]) -> (r: Decoded<
    VmessRequest,
    RequestError,
>)
    ensures
        r@ == DecodedView::<RequestView, RequestError>::Bad(RequestError::Clock) || exists|
            now: i64,
        |
            r@ == #[trigger] request_header_of(cmd_key@, now as int, buf@),
{
    match now_unix_secs() {
        None => Decoded::Bad(RequestError::Clock),
        Some(now) => {
            if now > 0x7fff_ffff_ffff_ffff {
                return Decoded::Bad(RequestError::Clock);
            }
            decode_request_header_at(cmd_key, now as i64, buf)
        },
    }
}

/// Opens AES-128-GCM with associated data.
pub fn aead_open(ct: &[u8], key: &[u8; 16], nonce: &[u8; 12], aad: &[u8]) -> (r: Option<Vec<u8>>)
    requires
        aad@.len() <= crypto::AES_GCM_LIMIT,
    ensures
        match r {
            Some(m) => crypto::aes128_gcm_opened(key@, nonce@, aad@, ct@) == Some(m@) && ct@.len()
                == m@.len() + 16,
            None => crypto::aes128_gcm_opened(key@, nonce@, aad@, ct@) is None,
        },
{
    crypto::aes128_gcm_decrypt(key.as_slice(), nonce, aad, ct)
}

/// Seals AES-128-GCM with associated data. What was sealed can be opened again.
pub fn aead_seal(pt: &[u8], key: &[u8; 16], nonce: &[u8; 12], aad: &[u8]) -> (r: Option<Vec<u8>>)
    ensures
        r is Some <==> pt@.len() <= crypto::AES_GCM_LIMIT && aad@.len() <= crypto::AES_GCM_LIMIT,
        r matches Some(c) ==> c@ == crypto::aes128_gcm_sealed(key@, nonce@, aad@, pt@) && c@.len()
            == pt@.len() + 16 && crypto::aes128_gcm_opened(key@, nonce@, aad@, c@) == Some(pt@),
{
    crypto::aes128_gcm_encrypt(key.as_slice(), nonce, aad, pt)
}

/// Bytes derived from a response key or vector for one part of a response header.
pub open spec fn response_secret(base: Seq<u8>, label: Seq<char>, n: int) -> Seq<u8> {
    kdf_of(seq![encode_utf8(label)], base).subrange(0, n)
}

/// What a response header says: the request's token and options, and no command.
pub open spec fn response_payload(q: RequestView) -> Seq<u8> {
    seq![q.response_token, q.option, 0u8, 0u8]
}

/// The sealed length of a response header.
pub open spec fn response_length_bytes(q: RequestView) -> Seq<u8> {
    crypto::aes128_gcm_sealed(
        response_secret(q.response_body_key, "AEAD Resp Header Len Key"@, 16),
        response_secret(q.response_body_iv, "AEAD Resp Header Len IV"@, 12),
        Seq::empty(),
        be_bytes(4, 2),
    )
}

/// The sealed response header itself.
pub open spec fn response_payload_bytes(q: RequestView) -> Seq<u8> {
    crypto::aes128_gcm_sealed(
        response_secret(q.response_body_key, "AEAD Resp Header Key"@, 16),
        response_secret(q.response_body_iv, "AEAD Resp Header IV"@, 12),
        Seq::empty(),
        response_payload(q),
    )
}

/// What a client opens of the response header at the start of `buf`.
pub open spec fn response_opened(q: RequestView, buf: Seq<u8>) -> Option<Seq<u8>> {
    match crypto::aes128_gcm_opened(
        response_secret(q.response_body_key, "AEAD Resp Header Len Key"@, 16),
        response_secret(q.response_body_iv, "AEAD Resp Header Len IV"@, 12),
        Seq::empty(),
        buf.subrange(0, 18),
    ) {
        None => None,
        Some(l) => crypto::aes128_gcm_opened(
            response_secret(q.response_body_key, "AEAD Resp Header Key"@, 16),
            response_secret(q.response_body_iv, "AEAD Resp Header IV"@, 12),
            Seq::empty(),
            buf.subrange(18, 34 + be_value(l) as int),
        ),
    }
}

fn response_key(base: &[u8; 16], label: &str) -> (r: [u8; 16])
    ensures
        r@ == response_secret(base@, label@, 16),
{
    let path: [&[u8]; 1] = [label.as_bytes()];
    assert(salts(path@) =~= seq![encode_utf8(label@)]);
    kdf16(base.as_slice(), path.as_slice())
}

fn response_iv(base: &[u8; 16], label: &str) -> (r: [u8; 12])
    ensures
        r@ == response_secret(base@, label@, 12),
{
    let path: [&[u8]; 1] = [label.as_bytes()];
    assert(salts(path@) =~= seq![encode_utf8(label@)]);
    kdf12(base.as_slice(), path.as_slice())
}

/// Builds the response header that answers a request. The client that sent the request
/// opens it and finds its token and options.
pub fn encode_response_header(req: &VmessRequest) -> (r: Vec<u8>)
    ensures
        r@ == response_length_bytes(req@) + response_payload_bytes(req@),
        r@.len() == 38,
        response_opened(req@, r@) == Some(response_payload(req@)),
{
    let rk = &req.response_body_key;
    let ri = &req.response_body_iv;
    let none: [u8; 0] = [];
    assert(none@ =~= Seq::<u8>::empty());
    let payload: [u8; 4] = [req.response_token, req.option, 0, 0];
    assert(payload@ =~= response_payload(req@));
    let mut length: Vec<u8> = Vec::new();
    push_u16(&mut length, 4);
    assert(length@ =~= be_bytes(4, 2));
    proof {
        crate::wire::lemma_be_bytes_len(4, 2);
        crate::wire::lemma_pow256_small();
        crate::wire::lemma_be_value_of_bytes(4, 2);
    }
    let len_key = response_key(rk, "AEAD Resp Header Len Key");
    let len_iv = response_iv(ri, "AEAD Resp Header Len IV");
    let enc_len = aead_seal(length.as_slice(), &len_key, &len_iv, none.as_slice()).unwrap();
    let pay_key = response_key(rk, "AEAD Resp Header Key");
    let pay_iv = response_iv(ri, "AEAD Resp Header IV");
    let enc_pay = aead_seal(payload.as_slice(), &pay_key, &pay_iv, none.as_slice()).unwrap();
    let ghost head = enc_len@;
    let mut out: Vec<u8> = enc_len;
    push_slice(&mut out, enc_pay.as_slice());
    assert(out@.subrange(0, 18) =~= head);
    assert(out@.subrange(18, 38) =~= enc_pay@);
    out
}

proof fn lemma_nibbles(high: u8, low: u8)
    requires
        high < 16,
        low < 16,
    ensures
        ((high * 16 + low) as u8) >> 4 == high,
        ((high * 16 + low) as u8) & 0x0f == low,
{
    assert(((high * 16 + low) as u8) >> 4 == high) by (bit_vector)
        requires
            high < 16,
            low < 16,
    ;
    assert(((high * 16 + low) as u8) & 0x0f == low) by (bit_vector)
        requires
            high < 16,
            low < 16,
    ;
}

proof fn lemma_halves(b: u8)
    ensures
        b >> 4 == b / 16,
        b & 0x0f == b % 16,
{
    assert(b >> 4 == b / 16) by (bit_vector);
    assert(b & 0x0f == b % 16) by (bit_vector);
}

/// A request that a client writes is read back as that very request, whether its host is
/// four bytes, a name or sixteen bytes: version 1, the vector, the key, the token, the
/// options, the padding's length above the protection, a byte that is not looked at,
/// command 1, the port with its high byte first, the kind of the host and the host, the
/// padding, and the FNV-1a sum of all that. What follows does not matter.
pub proof fn lemma_request_round_trip(
    iv: Seq<u8>,
    key: Seq<u8>,
    token: u8,
    option: u8,
    security: u8,
    unused: u8,
    port: u16,
    host: HostView,
    addr: Seq<u8>,
    padding: Seq<u8>,
    rest: Seq<u8>,
)
    requires
        iv.len() == 16,
        key.len() == 16,
        security < 16,
        padding.len() < 16,
        match host {
            HostView::V4(a) => a.len() == 4 && addr == seq![1u8] + a,
            HostView::Domain(d) => encode_utf8(d).len() <= 255 && addr == seq![
                2u8,
                encode_utf8(d).len() as u8,
            ] + encode_utf8(d),
            HostView::V6(a) => a.len() == 16 && addr == seq![3u8] + a,
        },
    ensures
        ({
            let covered = seq![1u8] + iv + key + seq![
                token,
                option,
                (padding.len() * 16 + security) as u8,
                unused,
                1u8,
                (port / 256) as u8,
                (port % 256) as u8,
            ] + addr + padding;
            let sum = fnv1a32_of(covered);
            request_of(
                covered + seq![
                    (sum / 0x100_0000) as u8,
                    (sum / 0x1_0000 % 256) as u8,
                    (sum / 256 % 256) as u8,
                    (sum % 256) as u8,
                ] + rest,
            ) == Ok::<RequestView, RequestError>(
                RequestView {
                    target: TargetView { host, port: port as nat },
                    request_body_key: key,
                    request_body_iv: iv,
                    response_body_key: crypto::sha256_of(key).subrange(0, 16),
                    response_body_iv: crypto::sha256_of(iv).subrange(0, 16),
                    response_token: token,
                    option,
                    security,
                },
            )
        }),
{
    let mixed = (padding.len() * 16 + security) as u8;
    let fixed = seq![1u8] + iv + key + seq![
        token,
        option,
        mixed,
        unused,
        1u8,
        (port / 256) as u8,
        (port % 256) as u8,
    ];
    let covered = fixed + addr + padding;
    let sum = fnv1a32_of(covered);
    let bytes = seq![
        (sum / 0x100_0000) as u8,
        (sum / 0x1_0000 % 256) as u8,
        (sum / 256 % 256) as u8,
        (sum % 256) as u8,
    ];
    let h = covered + bytes + rest;
    lemma_nibbles(padding.len() as u8, security);
    crate::wire::lemma_be_pair(port as nat);
    crate::wire::lemma_be_quad(sum as nat);
    assert(fixed.len() == 40);
    assert(h[40] == addr[0]);
    assert(h.subrange(1, 17) =~= iv);
    assert(h.subrange(17, 33) =~= key);
    assert(h.subrange(38, 40) =~= seq![(port / 256) as u8, (port % 256) as u8]);
    let end = 40 + addr.len() as int;
    let at = end + padding.len() as int;
    assert(h.subrange(0, at) =~= covered);
    assert(h.subrange(at, at + 4) =~= bytes);
    match host {
        HostView::V4(a) => {
            assert(h.subrange(41, 45) =~= a);
        },
        HostView::Domain(d) => {
            assert(h[41] == addr[1]);
            assert(h.subrange(42, 42 + h[41]) =~= encode_utf8(d));
            vstd::utf8::encode_utf8_valid_utf8(d);
            vstd::utf8::encode_utf8_decode_utf8(d);
        },
        HostView::V6(a) => {
            assert(h.subrange(41, 57) =~= a);
        },
    }
}

/// A plain header is accepted only for what it says byte by byte, and only if the sum over
/// everything before it is right.
pub proof fn lemma_accepted_request(h: Seq<u8>)
    ensures
        request_of(h) matches Ok(q) ==> {
            let end = match q.target.host {
                HostView::V4(_) => 45int,
                HostView::V6(_) => 57int,
                HostView::Domain(_) => 42 + h[41],
            };
            let at = end + h[35] / 16;
            &&& h[0] == 1
            &&& h[37] == 1
            &&& q.request_body_iv == h.subrange(1, 17)
            &&& q.request_body_key == h.subrange(17, 33)
            &&& q.response_token == h[33]
            &&& q.option == h[34]
            &&& q.security == h[35] % 16
            &&& q.target.port == h[38] * 256 + h[39]
            &&& match q.target.host {
                HostView::V4(a) => h[40] == 1 && a == h.subrange(41, 45),
                HostView::V6(a) => h[40] == 3 && a == h.subrange(41, 57),
                HostView::Domain(d) => h[40] == 2 && valid_utf8(h.subrange(42, end)) && d
                    == decode_utf8(h.subrange(42, end)),
            }
            &&& h.len() >= at + 4
            &&& ((h[at] * 256 + h[at + 1]) * 256 + h[at + 2]) * 256 + h[at + 3] == fnv1a32_of(
                h.subrange(0, at),
            )
        },
{
    if request_of(h) is Ok {
        lemma_halves(h[35]);
        crate::wire::lemma_be_value_2(h.subrange(38, 40));
        let at = header_host(h)->Ok_0.1 + (h[35] >> 4) as int;
        crate::wire::lemma_be_value_4(h.subrange(at, at + 4));
    }
}

/// The reasons for which a plain header is refused, first come first named.
pub proof fn lemma_refused_request(h: Seq<u8>)
    ensures
        h.len() < 41 ==> request_of(h) == Err::<RequestView, RequestError>(RequestError::TooShort),
        h.len() >= 41 && h[0] != 1 ==> request_of(h) == Err::<RequestView, RequestError>(
            RequestError::Version(h[0]),
        ),
        h.len() >= 41 && h[0] == 1 && h[37] != 1 ==> request_of(h) == Err::<
            RequestView,
            RequestError,
        >(RequestError::Command(h[37])),
        h.len() >= 41 && h[0] == 1 && h[37] == 1 && (h[40] == 0 || h[40] > 3) ==> request_of(h)
            == Err::<RequestView, RequestError>(RequestError::AddressType(h[40])),
        41 <= h.len() < 45 && h[0] == 1 && h[37] == 1 && h[40] == 1 ==> request_of(h) == Err::<
            RequestView,
            RequestError,
        >(RequestError::TruncatedAddress),
        41 <= h.len() < 57 && h[0] == 1 && h[37] == 1 && h[40] == 3 ==> request_of(h) == Err::<
            RequestView,
            RequestError,
        >(RequestError::TruncatedAddress),
        h.len() == 41 && h[0] == 1 && h[37] == 1 && h[40] == 2 ==> request_of(h) == Err::<
            RequestView,
            RequestError,
        >(RequestError::TruncatedAddress),
        42 <= h.len() < 42 + h[41] && h[0] == 1 && h[37] == 1 && h[40] == 2 ==> request_of(h)
            == Err::<RequestView, RequestError>(RequestError::TruncatedAddress),
        45 <= h.len() < 49 + h[35] / 16 && h[0] == 1 && h[37] == 1 && h[40] == 1 ==> request_of(h)
            == Err::<RequestView, RequestError>(RequestError::NoChecksum),
        57 <= h.len() < 61 + h[35] / 16 && h[0] == 1 && h[37] == 1 && h[40] == 3 ==> request_of(h)
            == Err::<RequestView, RequestError>(RequestError::NoChecksum),
{
    if h.len() >= 41 {
        lemma_halves(h[35]);
    }
}

/// An opened authentication id holds for two minutes around its time, if its sum is that
/// of its first twelve bytes, and at no other time.
pub proof fn lemma_auth_window(time: nat, random: Seq<u8>, now: int)
    requires
        time < 0x8000_0000_0000_0000,
        random.len() == 4,
    ensures
        ({
            let body = be_bytes(time, 8) + random;
            let sum = crypto::crc32_of(body);
            auth_verdict(
                body + seq![
                    (sum / 0x100_0000) as u8,
                    (sum / 0x1_0000 % 256) as u8,
                    (sum / 256 % 256) as u8,
                    (sum % 256) as u8,
                ],
                now,
            ) == if now - 120 <= time <= now + 120 {
                Ok::<(), RequestError>(())
            } else {
                Err(RequestError::StaleAuthId)
            }
        }),
{
    let body = be_bytes(time, 8) + random;
    let sum = crypto::crc32_of(body);
    let bytes = seq![
        (sum / 0x100_0000) as u8,
        (sum / 0x1_0000 % 256) as u8,
        (sum / 256 % 256) as u8,
        (sum % 256) as u8,
    ];
    let plain = body + bytes;
    crate::wire::lemma_be_bytes_len(time, 8);
    crate::wire::lemma_pow256_small();
    crate::wire::lemma_be_value_of_bytes(time, 8);
    crate::wire::lemma_be_quad(sum as nat);
    assert(plain.subrange(0, 8) =~= be_bytes(time, 8));
    assert(plain.subrange(0, 12) =~= body);
    assert(plain.subrange(12, 16) =~= bytes);
}

/// An opened authentication id whose sum is another one is refused at any time.
pub proof fn lemma_auth_sum(plain: Seq<u8>, now: int)
    requires
        plain.len() == 16,
    ensures
        ((plain[12] * 256 + plain[13]) * 256 + plain[14]) * 256 + plain[15] != crypto::crc32_of(
            plain.subrange(0, 12),
        ) ==> auth_verdict(plain, now) == Err::<(), RequestError>(RequestError::BadChecksum),
{
    crate::wire::lemma_be_value_4(plain.subrange(12, 16));
}

/// A request on the wire is `id | sealed length | nonce | sealed header`. Each part is
/// sealed under a key and a nonce that are derived from the user's key along a label, the
/// id and the eight bytes between the two parts, with the id as associated data. Where the
/// id is good, and the two parts open to a length and to a header of that length, the
/// request is the one in the header, and nothing past the header is taken.
pub proof fn lemma_sealed_request(
    cmd_key: Seq<u8>,
    now: int,
    id: Seq<u8>,
    length: Seq<u8>,
    nonce: Seq<u8>,
    header: Seq<u8>,
    plain: Seq<u8>,
    rest: Seq<u8>,
)
    requires
        id.len() == 16,
        length.len() == 18,
        nonce.len() == 8,
        41 <= plain.len() <= 2048,
        header.len() == plain.len() + 16,
    ensures
        ({
            let key = |label: Seq<char>|
                kdf_of(seq![encode_utf8(label), id, nonce], cmd_key).subrange(0, 16);
            let iv = |label: Seq<char>|
                kdf_of(seq![encode_utf8(label), id, nonce], cmd_key).subrange(0, 12);
            let buf = id + length + nonce + header + rest;
            auth_verdict(
                crypto::aes128_block_decrypted(
                    kdf_of(seq![encode_utf8("AES Auth ID Encryption"@)], cmd_key).subrange(0, 16),
                    id,
                ),
                now,
            ) is Ok && crypto::aes128_gcm_opened(
                key("VMess Header AEAD Key_Length"@),
                iv("VMess Header AEAD Nonce_Length"@),
                id,
                length,
            ) == Some(seq![(plain.len() / 256) as u8, (plain.len() % 256) as u8])
                && crypto::aes128_gcm_opened(
                key("VMess Header AEAD Key"@),
                iv("VMess Header AEAD Nonce"@),
                id,
                header,
            ) == Some(plain) ==> request_header_of(cmd_key, now, buf) == match request_of(plain) {
                Ok(q) => DecodedView::Done(q, 58 + plain.len()),
                Err(e) => DecodedView::Bad(e),
            }
        }),
{
    let buf = id + length + nonce + header + rest;
    let end = 58 + plain.len() as int;
    assert(buf.subrange(0, 16) =~= id);
    assert(buf.subrange(16, 34) =~= length);
    assert(buf.subrange(34, 42) =~= nonce);
    assert(buf.subrange(42, end) =~= header);
    crate::wire::lemma_be_pair(plain.len());
}

/// The answer to a request, byte by byte: the length 4 and then the token, the options and
/// two zeros, each sealed under a key and a nonce that are derived from the halves of the
/// digests of the request's own key and vector.
pub proof fn lemma_response_layout(q: RequestView)
    ensures
        response_length_bytes(q) == crypto::aes128_gcm_sealed(
            kdf_of(
                seq![encode_utf8("AEAD Resp Header Len Key"@)],
                q.response_body_key,
            ).subrange(0, 16),
            kdf_of(
                seq![encode_utf8("AEAD Resp Header Len IV"@)],
                q.response_body_iv,
            ).subrange(0, 12),
            Seq::empty(),
            seq![0u8, 4u8],
        ),
        response_payload_bytes(q) == crypto::aes128_gcm_sealed(
            kdf_of(seq![encode_utf8("AEAD Resp Header Key"@)], q.response_body_key).subrange(0, 16),
            kdf_of(seq![encode_utf8("AEAD Resp Header IV"@)], q.response_body_iv).subrange(0, 12),
            Seq::empty(),
            seq![q.response_token, q.option, 0u8, 0u8],
        ),
{
    crate::wire::lemma_be_pair(4);
}

/// Times past the middle of the range are before 1970, so an id with such a time is stale at
/// any time that is not.
pub proof fn lemma_negative_time(before: nat, plain: Seq<u8>, now: int)
    requires
        120 < before <= 0x8000_0000_0000_0000,
        now >= 0,
        plain.len() == 16,
        plain.subrange(0, 8) == be_bytes((0x1_0000_0000_0000_0000 - before) as nat, 8),
    ensures
        signed64((0x1_0000_0000_0000_0000 - before) as nat) == -before,
        auth_verdict(plain, now) is Err,
{
    let v = (0x1_0000_0000_0000_0000 - before) as nat;
    crate::wire::lemma_pow256_small();
    crate::wire::lemma_be_value_of_bytes(v, 8);
}

} // verus!
