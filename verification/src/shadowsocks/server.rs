//! A connection as the server sees it: the client's salt and request, then its own salt
//! and response header.
use crate::address::{Target, TargetView};
use crate::config::ShadowsocksCipher;
use crate::crypto::{aes128_gcm_opened, aes256_gcm_opened, chacha20_poly1305_opened};
use crate::crypto::{aes128_gcm_sealed, aes256_gcm_sealed, chacha20_poly1305_sealed};
use crate::crypto::{blake3_derived, random_bytes};
use crate::shadowsocks::aead::{chunk_of, derive_session_subkey, first_nonce, nonce_after};
use crate::shadowsocks::aead::{sealed_chunk, subkey_context, AeadError, AeadReader, AeadWriter};
use crate::shadowsocks::aead::ReaderView;
use crate::shadowsocks::aead::{count_nonce, lemma_length_is_opened_first};
use crate::shadowsocks::aead::{lemma_length_is_sealed_first, lemma_nonces_count};
use crate::shadowsocks::header::{build_response_header_at, now_unix_secs};
use crate::shadowsocks::header::{parse_request_header_at, request_target, response_header_bytes};
use crate::shadowsocks::header::{HeaderError, STREAM_TYPE_REQUEST};
use crate::wire::{be_bytes, copy_range, lemma_be_bytes_len, pow256, push_slice};
use crate::wire::{Decoded, DecodedView};
use vstd::prelude::*;

verus! {

/// Why a connection ends before anything is relayed.
#[derive(Debug, Clone, Copy, PartialEq, Eq, Structural)]
pub enum SessionError {
    Chunk(AeadError),
    Header(HeaderError),
    /// This machine's clock is set before 1970.
    Clock,
}

/// The key of one direction, from the master key and that direction's salt.
pub open spec fn session_key(cipher: ShadowsocksCipher, master: Seq<u8>, salt: Seq<u8>) -> Seq<u8> {
    blake3_derived(subkey_context(), master + salt).subrange(0, cipher.key_size() as int)
}

/// A request: where the client wants to go, its salt, and the reader for what follows.
pub struct Opening {
    pub target: Target,
    pub client_salt: Vec<u8>,
    pub reader: AeadReader,
}

/// The mathematical counterpart of [`Opening`].
#[verifier::ext_equal]
pub struct OpeningView {
    pub target: TargetView,
    pub client_salt: Seq<u8>,
    pub reader: ReaderView,
}

impl View for Opening {
    type V = OpeningView;

    open spec fn view(&self) -> OpeningView {
        OpeningView {
            target: self.target@,
            client_salt: self.client_salt@,
            reader: self.reader@,
        }
    }
}

/// What the client's bytes say at the time `now`: its salt, then the chunk with the
/// request header. The reader goes on behind that chunk, with the key of that salt.
pub open spec fn opening_of(
    cipher: ShadowsocksCipher,
    master: Seq<u8>,
    buf: Seq<u8>,
    now: nat,
) -> DecodedView<OpeningView, SessionError> {
    let n = cipher.key_size();
    if buf.len() < n {
        DecodedView::More(n)
    } else {
        let key = session_key(cipher, master, buf.take(n as int));
        match chunk_of(cipher, key, first_nonce(), buf.skip(n as int)) {
            DecodedView::More(k) => DecodedView::More(n + k),
            DecodedView::Bad(e) => DecodedView::Bad(SessionError::Chunk(e)),
            DecodedView::Done(header, k) => match request_target(header, STREAM_TYPE_REQUEST, now) {
                Err(e) => DecodedView::Bad(SessionError::Header(e)),
                Ok(target) => DecodedView::Done(
                    OpeningView {
                        target,
                        client_salt: buf.take(n as int),
                        reader: ReaderView {
                            cipher,
                            subkey: key,
                            nonce: nonce_after(first_nonce()),
                            buf: Seq::empty(),
                        },
                    },
                    n + k,
                ),
            },
        }
    }
}

/// Reads the client's salt and request at the time `now`.
pub fn read_opening_at(cipher: ShadowsocksCipher, master_key: &[u8], buf: &[u8], now: u64) -> (r:
    Decoded<Opening, SessionError>)
    ensures
        r@ == opening_of(cipher, master_key@, buf@, now as nat),
        r matches Decoded::Done(o, _) ==> o.reader.wf(),
{
    let salt_len: usize = cipher.salt_len();
    let n: usize = buf.len();
    if n < salt_len {
        return Decoded::More(salt_len);
    }
    let client_salt = copy_range(buf, 0, salt_len);
    assert(client_salt@ =~= buf@.take(salt_len as int));
    let subkey = derive_session_subkey(master_key, client_salt.as_slice(), salt_len);
    let mut reader = AeadReader::new(cipher, subkey);
    let rest = copy_range(buf, salt_len, n);
    assert(rest@ =~= buf@.skip(salt_len as int));
    match reader.read_header_chunk(rest.as_slice()) {
        Decoded::More(k) => Decoded::More(salt_len + k),
        Decoded::Bad(e) => Decoded::Bad(SessionError::Chunk(e)),
        Decoded::Done(header, k) => {
            match parse_request_header_at(header.as_slice(), STREAM_TYPE_REQUEST, now) {
                Err(e) => Decoded::Bad(SessionError::Header(e)),
                Ok(target) => {
                    let o = Opening { target, client_salt, reader };
                    assert(o@.reader.buf =~= Seq::<u8>::empty());
                    Decoded::Done(o, salt_len + k)
                },
            }
        },
    }
}

/// Reads the client's salt and request by this machine's clock.
pub fn read_opening(cipher: ShadowsocksCipher, master_key: &[u8], buf: &[u8]) -> (r: Decoded<
    Opening,
    SessionError,
>)
    ensures
        r@ == DecodedView::<OpeningView, SessionError>::Bad(SessionError::Clock) || exists|now: u64|
            r@ == #[trigger] opening_of(cipher, master_key@, buf@, now as nat),
        r matches Decoded::Done(o, _) ==> o.reader.wf(),
{
    match now_unix_secs() {
        None => Decoded::Bad(SessionError::Clock),
        Some(now) => read_opening_at(cipher, master_key, buf, now),
    }
}

/// The server's side of the opening: its salt, then the sealed response header.
pub open spec fn answer_bytes(
    cipher: ShadowsocksCipher,
    master: Seq<u8>,
    client_salt: Seq<u8>,
    salt: Seq<u8>,
    now: nat,
) -> Seq<u8> {
    salt + sealed_chunk(
        cipher,
        session_key(cipher, master, salt),
        first_nonce(),
        response_header_bytes(client_salt, now),
    )
}

/// Whether `bytes` and `writer` start the answer with `salt` at the time `now`. Whoever has
/// the master key reads back from the bytes the header, with the salt of the request in it.
pub open spec fn answers(
    cipher: ShadowsocksCipher,
    master: Seq<u8>,
    client_salt: Seq<u8>,
    salt: Seq<u8>,
    now: u64,
    bytes: Seq<u8>,
    writer: AeadWriter,
) -> bool {
    let key = session_key(cipher, master, salt);
    &&& bytes == answer_bytes(cipher, master, client_salt, salt, now as nat)
    &&& writer.cipher == cipher
    &&& writer.subkey@ == key
    &&& writer.subkey@.len() == cipher.key_size()
    &&& writer.nonce@ == nonce_after(first_nonce())
    &&& bytes.take(cipher.key_size() as int) == salt
    &&& chunk_of(cipher, key, first_nonce(), bytes.skip(cipher.key_size() as int))
        == DecodedView::<Seq<u8>, AeadError>::Done(
        response_header_bytes(client_salt, now as nat),
        (bytes.len() - cipher.key_size()) as nat,
    )
}

/// Starts the answer with the given salt at the time `now`: the bytes to send, and the
/// writer for what follows.
pub fn begin_answer_at(
    cipher: ShadowsocksCipher,
    master_key: &[u8],
    client_salt: &[u8],
    salt: &[u8],
    now: u64,
) -> (r: (Vec<u8>, AeadWriter))
    requires
        client_salt@.len() == cipher.key_size(),
        salt@.len() == cipher.key_size(),
    ensures
        answers(cipher, master_key@, client_salt@, salt@, now, r.0@, r.1),
{
    let salt_len: usize = cipher.salt_len();
    let subkey = derive_session_subkey(master_key, salt, salt_len);
    let mut writer = AeadWriter::new(cipher, subkey);
    let header = build_response_header_at(client_salt, now);
    proof {
        crate::wire::lemma_be_bytes_len(now as nat, 8);
    }
    let mut out = copy_range(salt, 0, salt_len);
    assert(out@ =~= salt@);
    match writer.write_header_chunk(header.as_slice()) {
        Ok(chunk) => {
            push_slice(&mut out, chunk.as_slice());
            assert(out@.skip(salt_len as int) =~= chunk@);
            assert(out@.take(salt_len as int) =~= salt@);
        },
        Err(_) => {},
    }
    (out, writer)
}

/// Starts the answer with the given salt at the time that a clock shows; there is none
/// where the clock shows nothing.
pub fn begin_answer_by(
    cipher: ShadowsocksCipher,
    master_key: &[u8],
    client_salt: &[u8],
    salt: &[u8],
    clock: Option<u64>,
) -> (r: Option<(Vec<u8>, AeadWriter)>)
    requires
        client_salt@.len() == cipher.key_size(),
        salt@.len() == cipher.key_size(),
    ensures
        r is Some <==> clock is Some,
        clock matches Some(now) ==> answers(
            cipher,
            master_key@,
            client_salt@,
            salt@,
            now,
            r->Some_0.0@,
            r->Some_0.1,
        ),
{
    match clock {
        None => None,
        Some(now) => Some(begin_answer_at(cipher, master_key, client_salt, salt, now)),
    }
}

/// Starts the answer with a fresh salt, by this machine's clock; not where that is set
/// before 1970. What the clock shows decides, and [`begin_answer_by`] says how.
pub fn begin_answer(cipher: ShadowsocksCipher, master_key: &[u8], client_salt: &[u8]) -> (r: Option<
    (Vec<u8>, AeadWriter),
>)
    requires
        client_salt@.len() == cipher.key_size(),
    ensures
        r matches Some((bytes, writer)) ==> exists|now: u64| #[trigger]
            answers(
                cipher,
                master_key@,
                client_salt@,
                bytes@.take(cipher.key_size() as int),
                now,
                bytes@,
                writer,
            ),
{
    let salt = random_bytes(cipher.salt_len());
    begin_answer_by(cipher, master_key, client_salt, salt.as_slice(), now_unix_secs())
}

/// How a connection opens, in terms of the ciphers alone: as many bytes of salt as the
/// cipher's key has; then, under the key that BLAKE3 derives from the master key and that
/// salt, the length of the header under twelve zeros and the header under the count 1. What
/// follows is read under that key from the count 2 on.
pub proof fn lemma_opening_layout(
    cipher: ShadowsocksCipher,
    master: Seq<u8>,
    salt: Seq<u8>,
    length_ct: Seq<u8>,
    header_ct: Seq<u8>,
    header: Seq<u8>,
    rest: Seq<u8>,
    now: nat,
)
    requires
        salt.len() == (if cipher == ShadowsocksCipher::Blake3Aes128Gcm {
            16nat
        } else {
            32nat
        }),
        length_ct.len() == 18,
        header_ct.len() == header.len() + 16,
        header.len() < 0x1_0000,
    ensures
        ({
            let key = blake3_derived(
                "shadowsocks 2022 session subkey"@,
                master + salt,
            ).subrange(0, salt.len() as int);
            let open = |n: nat, ct: Seq<u8>|
                match cipher {
                    ShadowsocksCipher::Blake3Aes128Gcm => aes128_gcm_opened(
                        key,
                        count_nonce(n),
                        Seq::empty(),
                        ct,
                    ),
                    ShadowsocksCipher::Blake3Aes256Gcm => aes256_gcm_opened(
                        key,
                        count_nonce(n),
                        Seq::empty(),
                        ct,
                    ),
                    ShadowsocksCipher::Blake3Chacha20Poly1305 => chacha20_poly1305_opened(
                        key,
                        count_nonce(n),
                        Seq::empty(),
                        ct,
                    ),
                };
            open(0, length_ct) == Some(
                seq![(header.len() / 256) as u8, (header.len() % 256) as u8],
            ) && open(1, header_ct) == Some(header) ==> opening_of(
                cipher,
                master,
                salt + length_ct + header_ct + rest,
                now,
            ) == match request_target(header, 0, now) {
                Err(e) => DecodedView::Bad(SessionError::Header(e)),
                Ok(target) => DecodedView::Done(
                    OpeningView {
                        target,
                        client_salt: salt,
                        reader: ReaderView {
                            cipher,
                            subkey: key,
                            nonce: count_nonce(2),
                            buf: Seq::empty(),
                        },
                    },
                    salt.len() + 34 + header.len(),
                ),
            }
        }),
{
    let buf = salt + length_ct + header_ct + rest;
    let n = salt.len() as int;
    let key = session_key(cipher, master, salt);
    let wire = length_ct + header_ct + rest;
    assert(buf.take(n) =~= salt);
    assert(buf.skip(n) =~= wire);
    assert(wire.take(18) =~= length_ct);
    assert(wire.subrange(18, 34 + header.len() as int) =~= header_ct);
    assert(2 < pow256(12)) by {
        reveal_with_fuel(pow256, 13);
    }
    lemma_nonces_count(0);
    lemma_length_is_opened_first(cipher, key, 0, wire, header);
}

/// How an answer starts, in terms of the ciphers alone: the server's salt, and under the key
/// of that salt the length under twelve zeros and the header under the count 1. The header
/// is type 1, the time, and the client's salt.
pub proof fn lemma_answer_layout(
    cipher: ShadowsocksCipher,
    master: Seq<u8>,
    client_salt: Seq<u8>,
    salt: Seq<u8>,
    now: nat,
)
    requires
        client_salt.len() <= 32,
    ensures
        ({
            let n = if cipher == ShadowsocksCipher::Blake3Aes128Gcm {
                16int
            } else {
                32int
            };
            let key = blake3_derived("shadowsocks 2022 session subkey"@, master + salt).subrange(
                0,
                n,
            );
            let header = seq![1u8] + be_bytes(now, 8) + client_salt;
            let length = seq![0u8, (9 + client_salt.len()) as u8];
            let none = Seq::<u8>::empty();
            answer_bytes(cipher, master, client_salt, salt, now) == salt + match cipher {
                ShadowsocksCipher::Blake3Aes128Gcm => aes128_gcm_sealed(
                    key,
                    count_nonce(0),
                    none,
                    length,
                ) + aes128_gcm_sealed(key, count_nonce(1), none, header),
                ShadowsocksCipher::Blake3Aes256Gcm => aes256_gcm_sealed(
                    key,
                    count_nonce(0),
                    none,
                    length,
                ) + aes256_gcm_sealed(key, count_nonce(1), none, header),
                ShadowsocksCipher::Blake3Chacha20Poly1305 => chacha20_poly1305_sealed(
                    key,
                    count_nonce(0),
                    none,
                    length,
                ) + chacha20_poly1305_sealed(key, count_nonce(1), none, header),
            }
        }),
{
    let key = session_key(cipher, master, salt);
    let header = response_header_bytes(client_salt, now);
    lemma_be_bytes_len(now, 8);
    assert(0 < pow256(12)) by {
        reveal_with_fuel(pow256, 13);
    }
    lemma_nonces_count(0);
    lemma_length_is_sealed_first(key, 0, header);
    assert(header.len() == 9 + client_salt.len());
    assert(header.len() / 256 == 0 && header.len() % 256 == header.len());
}

} // verus!
