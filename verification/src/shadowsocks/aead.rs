//! Session keys and the sealed chunks of a stream.
//!
//! A chunk is `seal(length, 2 bytes) | seal(payload)`; every seal takes the next value of
//! a little-endian nonce counter.
use crate::config::ShadowsocksCipher;
use crate::crypto;
use crate::text;
use crate::wire::{be_bytes, be_value, Decoded, DecodedView};
use crate::wire::{copy_range, push_slice, push_u16, read_u16};
use vstd::prelude::*;

verus! {

/// The longest payload of a data chunk.
pub const MAX_CHUNK: usize = 0x3FFF;

/// Bytes of a sealed length.
pub const LENGTH_CT: usize = 18;

/// Why a chunk or a key cannot be used.
#[derive(Debug, Clone, Copy, PartialEq, Eq, Structural)]
pub enum AeadError {
    /// The key does not have the cipher's key length.
    KeyLength,
    /// The message is beyond what the cipher can number.
    TooLong,
    /// The tag does not match.
    Tag,
    /// The password is not Base64.
    NotBase64,
}

/// The text that separates session keys from other derived keys.
pub open spec fn subkey_context() -> Seq<char> {
    "shadowsocks 2022 session subkey"@
}

/// Derives a session key: the first `key_len` bytes of the BLAKE3 key derived from
/// `master_key || salt`.
pub fn derive_session_subkey(master_key: &[u8], salt: &[u8], key_len: usize) -> (r: Vec<u8>)
    requires
        key_len <= 32,
    ensures
        r@ == crypto::blake3_derived(subkey_context(), master_key@ + salt@).subrange(
            0,
            key_len as int,
        ),
        r@.len() == key_len,
{
    let mut ikm: Vec<u8> = Vec::new();
    push_slice(&mut ikm, master_key);
    push_slice(&mut ikm, salt);
    assert(ikm@ =~= master_key@ + salt@);
    let derived = crypto::blake3_derive_key("shadowsocks 2022 session subkey", ikm.as_slice());
    copy_range(derived.as_slice(), 0, key_len)
}

/// The key that a password stands for, given what it decodes to.
pub open spec fn master_key_of(decoded: Option<Seq<u8>>, key_len: nat) -> Result<
    Seq<u8>,
    AeadError,
> {
    match decoded {
        None => Err(AeadError::NotBase64),
        Some(k) => if k.len() == key_len {
            Ok(k)
        } else {
            Err(AeadError::KeyLength)
        },
    }
}

/// The view of a key or the reason that there is none.
pub open spec fn key_view(r: Result<Vec<u8>, AeadError>) -> Result<Seq<u8>, AeadError> {
    match r {
        Ok(k) => Ok(k@),
        Err(e) => Err(e),
    }
}

/// Takes a decoded password as a key, if it has the right length.
pub fn accept_master_key(decoded: Option<Vec<u8>>, key_len: usize) -> (r: Result<
    Vec<u8>,
    AeadError,
>)
    ensures
        key_view(r) == master_key_of(
            match decoded {
                Some(k) => Some(k@),
                None => None,
            },
            key_len as nat,
        ),
{
    match decoded {
        None => Err(AeadError::NotBase64),
        Some(key) => {
            if key.len() != key_len {
                Err(AeadError::KeyLength)
            } else {
                Ok(key)
            }
        },
    }
}

/// Decodes a password: it is the key itself, in Base64, with white space around it.
pub fn decode_master_key(password: &str, key_len: usize) -> (r: Result<Vec<u8>, AeadError>)
    ensures
        key_view(r) == master_key_of(
            crypto::base64_decoded(text::trim_of(password@)),
            key_len as nat,
        ),
{
    accept_master_key(crypto::base64_decode(text::trim(password)), key_len)
}

/// What the cipher makes of a message.
pub open spec fn sealed(
    cipher: ShadowsocksCipher,
    key: Seq<u8>,
    nonce: Seq<u8>,
    msg: Seq<u8>,
) -> Seq<u8> {
    match cipher {
        ShadowsocksCipher::Blake3Aes128Gcm => crypto::aes128_gcm_sealed(
            key,
            nonce,
            Seq::empty(),
            msg,
        ),
        ShadowsocksCipher::Blake3Aes256Gcm => crypto::aes256_gcm_sealed(
            key,
            nonce,
            Seq::empty(),
            msg,
        ),
        ShadowsocksCipher::Blake3Chacha20Poly1305 => crypto::chacha20_poly1305_sealed(
            key,
            nonce,
            Seq::empty(),
            msg,
        ),
    }
}

/// The message in a ciphertext, where its tag is right.
pub open spec fn opened(
    cipher: ShadowsocksCipher,
    key: Seq<u8>,
    nonce: Seq<u8>,
    ct: Seq<u8>,
) -> Option<Seq<u8>> {
    match cipher {
        ShadowsocksCipher::Blake3Aes128Gcm => crypto::aes128_gcm_opened(
            key,
            nonce,
            Seq::empty(),
            ct,
        ),
        ShadowsocksCipher::Blake3Aes256Gcm => crypto::aes256_gcm_opened(
            key,
            nonce,
            Seq::empty(),
            ct,
        ),
        ShadowsocksCipher::Blake3Chacha20Poly1305 => crypto::chacha20_poly1305_opened(
            key,
            nonce,
            Seq::empty(),
            ct,
        ),
    }
}

/// The longest message that the cipher takes.
pub open spec fn message_limit(cipher: ShadowsocksCipher) -> nat {
    match cipher {
        ShadowsocksCipher::Blake3Chacha20Poly1305 => crypto::CHACHA_LIMIT as nat,
        _ => crypto::AES_GCM_LIMIT as nat,
    }
}

/// Seals a message. What was sealed can be opened again.
pub fn aead_encrypt(
    cipher: &ShadowsocksCipher,
    key: &[u8],
    nonce: &[u8; 12],
    pt: &[u8],
) -> (r: Result<Vec<u8>, AeadError>)
    ensures
        r == Err::<Vec<u8>, AeadError>(AeadError::KeyLength) <==> key@.len() != cipher.key_size(),
        r == Err::<Vec<u8>, AeadError>(AeadError::TooLong) <==> key@.len() == cipher.key_size()
            && pt@.len() > message_limit(*cipher),
        r is Ok <==> key@.len() == cipher.key_size() && pt@.len() <= message_limit(*cipher),
        r matches Ok(c) ==> c@ == sealed(*cipher, key@, nonce@, pt@) && c@.len() == pt@.len() + 16
            && opened(*cipher, key@, nonce@, c@) == Some(pt@),
{
    if key.len() != cipher.key_len() {
        return Err(AeadError::KeyLength);
    }
    let none: [u8; 0] = [];
    assert(none@ =~= Seq::<u8>::empty());
    let r = match cipher {
        ShadowsocksCipher::Blake3Aes128Gcm => crypto::aes128_gcm_encrypt(
            key,
            nonce,
            none.as_slice(),
            pt,
        ),
        ShadowsocksCipher::Blake3Aes256Gcm => crypto::aes256_gcm_encrypt(
            key,
            nonce,
            none.as_slice(),
            pt,
        ),
        ShadowsocksCipher::Blake3Chacha20Poly1305 => {
            if pt.len() as u64 > crypto::CHACHA_LIMIT {
                None
            } else {
                crypto::chacha20_poly1305_encrypt(key, nonce, none.as_slice(), pt)
            }
        },
    };
    match r {
        Some(c) => Ok(c),
        None => Err(AeadError::TooLong),
    }
}

/// Opens a ciphertext.
pub fn aead_decrypt(
    cipher: &ShadowsocksCipher,
    key: &[u8],
    nonce: &[u8; 12],
    ct: &[u8],
) -> (r: Result<Vec<u8>, AeadError>)
    requires
        ct@.len() <= crypto::CHACHA_LIMIT + 16,
    ensures
        r == Err::<Vec<u8>, AeadError>(AeadError::KeyLength) <==> key@.len() != cipher.key_size(),
        key@.len() == cipher.key_size() ==> (match r {
            Ok(m) => opened(*cipher, key@, nonce@, ct@) == Some(m@) && ct@.len() == m@.len() + 16,
            Err(e) => e == AeadError::Tag && opened(*cipher, key@, nonce@, ct@) is None,
        }),
{
    if key.len() != cipher.key_len() {
        return Err(AeadError::KeyLength);
    }
    let none: [u8; 0] = [];
    assert(none@ =~= Seq::<u8>::empty());
    let r = match cipher {
        ShadowsocksCipher::Blake3Aes128Gcm => crypto::aes128_gcm_decrypt(
            key,
            nonce,
            none.as_slice(),
            ct,
        ),
        ShadowsocksCipher::Blake3Aes256Gcm => crypto::aes256_gcm_decrypt(
            key,
            nonce,
            none.as_slice(),
            ct,
        ),
        ShadowsocksCipher::Blake3Chacha20Poly1305 => crypto::chacha20_poly1305_decrypt(
            key,
            nonce,
            none.as_slice(),
            ct,
        ),
    };
    match r {
        Some(m) => Ok(m),
        None => Err(AeadError::Tag),
    }
}

/// The number that `s` writes in base 256, least significant byte first.
pub open spec fn le_value(s: Seq<u8>) -> nat
    decreases s.len(),
{
    if s.len() == 0 {
        0
    } else {
        s[0] as nat + 256 * le_value(s.skip(1))
    }
}

/// The `n` low base-256 digits of `v`, least significant first.
pub open spec fn le_bytes(v: nat, n: nat) -> Seq<u8>
    decreases n,
{
    if n == 0 {
        Seq::empty()
    } else {
        seq![(v % 256) as u8] + le_bytes(v / 256, (n - 1) as nat)
    }
}

/// The nonce that follows `n`: one more, as a little-endian number, around `2^96`.
pub open spec fn next_nonce(n: Seq<u8>) -> Seq<u8> {
    le_bytes(le_value(n) + 1, n.len())
}

/// A counter whose first byte can still grow grows in that byte alone.
proof fn lemma_next_no_carry(n: Seq<u8>)
    requires
        n.len() > 0,
        n[0] < 255,
    ensures
        next_nonce(n) == n.update(0, (n[0] + 1) as u8),
{
    let v = le_value(n) + 1;
    let rest = n.skip(1);
    assert(v == (n[0] + 1) as nat + 256 * le_value(rest));
    assert(v % 256 == n[0] + 1);
    assert(v / 256 == le_value(rest));
    lemma_le_bytes_of_value(rest);
    assert(n.update(0, (n[0] + 1) as u8) =~= seq![(n[0] + 1) as u8] + rest);
}

/// A counter whose first byte is full carries into the bytes behind it.
proof fn lemma_next_carry(n: Seq<u8>)
    requires
        n.len() > 0,
        n[0] == 255,
    ensures
        next_nonce(n) == seq![0u8] + next_nonce(n.skip(1)),
{
    let v = le_value(n) + 1;
    let rest = n.skip(1);
    assert(v == 256 * (le_value(rest) + 1));
    assert(v % 256 == 0);
    assert(v / 256 == le_value(rest) + 1);
}

/// Writing back a number that was read gives the bytes it was read from.
pub proof fn lemma_le_bytes_of_value(s: Seq<u8>)
    ensures
        le_bytes(le_value(s), s.len()) == s,
    decreases s.len(),
{
    if s.len() > 0 {
        lemma_le_bytes_of_value(s.skip(1));
        assert(le_value(s) % 256 == s[0] as nat);
        assert(le_value(s) / 256 == le_value(s.skip(1)));
        assert(seq![s[0]] + s.skip(1) =~= s);
    } else {
        assert(le_bytes(le_value(s), 0) =~= s);
    }
}

pub proof fn lemma_le_bytes_len(v: nat, n: nat)
    ensures
        le_bytes(v, n).len() == n,
    decreases n,
{
    if n > 0 {
        lemma_le_bytes_len(v / 256, (n - 1) as nat);
    }
}

/// Counting on from `v` passes through `2^(8n)` different nonces before one recurs: two
/// different counts below that bound are written differently.
pub proof fn lemma_nonces_distinct(v: nat, w: nat, n: nat)
    requires
        v < crate::wire::pow256(n),
        w < crate::wire::pow256(n),
        v != w,
    ensures
        le_bytes(v, n) != le_bytes(w, n),
    decreases n,
{
    if n > 0 {
        let a = le_bytes(v, n);
        let b = le_bytes(w, n);
        if v % 256 != w % 256 {
            assert(a[0] == (v % 256) as u8);
            assert(b[0] == (w % 256) as u8);
        } else {
            assert(v / 256 != w / 256);
            assert(v / 256 < crate::wire::pow256((n - 1) as nat));
            assert(w / 256 < crate::wire::pow256((n - 1) as nat));
            lemma_nonces_distinct(v / 256, w / 256, (n - 1) as nat);
            if a == b {
                assert(a.skip(1) =~= le_bytes(v / 256, (n - 1) as nat));
                assert(b.skip(1) =~= le_bytes(w / 256, (n - 1) as nat));
            }
        }
    }
}

/// Moves a nonce on by one, as a little-endian number that wraps around.
pub fn increment_nonce(n: &mut [u8; 12])
    ensures
        final(n)@ == next_nonce(old(n)@),
{
    let ghost start = n@;
    let mut i: usize = 0;
    assert(start.skip(0) =~= start);
    while i < 12
        invariant_except_break
            forall|k: int| 0 <= k < i ==> n@[k] == 0,
            forall|k: int| i <= k < 12 ==> n@[k] == start[k],
            next_nonce(start) == Seq::new(i as nat, |k: int| 0u8) + next_nonce(
                start.skip(i as int),
            ),
        invariant
            i <= 12,
            start.len() == 12,
            n@.len() == 12,
        ensures
            n@ == next_nonce(start),
        decreases 12 - i,
    {
        let b: u8 = n[i];
        if b != 255 {
            n[i] = b + 1;
            proof {
                lemma_next_no_carry(start.skip(i as int));
                assert(n@ =~= next_nonce(start));
            }
            break ;
        }
        n[i] = 0;
        proof {
            lemma_next_carry(start.skip(i as int));
            assert(start.skip(i as int).skip(1) =~= start.skip(i + 1));
            assert(Seq::new(i as nat, |k: int| 0u8) + (seq![0u8] + next_nonce(start.skip(i + 1)))
                =~= Seq::new((i + 1) as nat, |k: int| 0u8) + next_nonce(start.skip(i + 1)));
        }
        i = i + 1;
        if i == 12 {
            proof {
                assert(start.skip(12).len() == 0);
                assert(next_nonce(start.skip(12)) =~= Seq::<u8>::empty());
                assert(n@ =~= next_nonce(start));
            }
            break ;
        }
    }
}

/// One chunk of a stream.
pub open spec fn sealed_chunk(
    cipher: ShadowsocksCipher,
    key: Seq<u8>,
    nonce: Seq<u8>,
    payload: Seq<u8>,
) -> Seq<u8> {
    sealed(cipher, key, nonce, be_bytes(payload.len() % 0x1_0000, 2)) + sealed(
        cipher,
        key,
        next_nonce(nonce),
        payload,
    )
}

/// What `buf` says of the chunk at its start.
pub open spec fn chunk_of(
    cipher: ShadowsocksCipher,
    key: Seq<u8>,
    nonce: Seq<u8>,
    buf: Seq<u8>,
) -> DecodedView<Seq<u8>, AeadError> {
    if buf.len() < 18 {
        DecodedView::More(18)
    } else {
        match opened(cipher, key, nonce, buf.take(18)) {
            None => DecodedView::Bad(AeadError::Tag),
            Some(length) => {
                let end = 34 + be_value(length);
                if buf.len() < end {
                    DecodedView::More(end)
                } else {
                    match opened(cipher, key, next_nonce(nonce), buf.subrange(18, end as int)) {
                        None => DecodedView::Bad(AeadError::Tag),
                        Some(payload) => DecodedView::Done(payload, end),
                    }
                }
            },
        }
    }
}

/// The nonce behind one chunk.
pub open spec fn nonce_after(nonce: Seq<u8>) -> Seq<u8> {
    next_nonce(next_nonce(nonce))
}

/// The nonce `n` steps behind `nonce`.
pub open spec fn nonce_steps(nonce: Seq<u8>, n: nat) -> Seq<u8>
    decreases n,
{
    if n == 0 {
        nonce
    } else {
        next_nonce(nonce_steps(nonce, (n - 1) as nat))
    }
}

/// How many pieces of at most `MAX_CHUNK` bytes `len` bytes make.
pub open spec fn pieces_of(len: nat) -> nat {
    (len + MAX_CHUNK - 1) as nat / MAX_CHUNK as nat
}

/// The nonce behind `len` bytes of data: every piece takes two steps, one for its length
/// and one for itself.
#[verifier::opaque]
pub open spec fn nonce_behind(nonce: Seq<u8>, len: nat) -> Seq<u8> {
    nonce_steps(nonce, 2 * pieces_of(len))
}

proof fn lemma_nonce_behind_nothing(nonce: Seq<u8>)
    ensures
        nonce_behind(nonce, 0) == nonce,
{
    reveal(nonce_behind);
}

/// One more piece behind whole ones takes two more steps.
proof fn lemma_one_more_piece(nonce: Seq<u8>, offset: nat, n: nat)
    requires
        offset % (MAX_CHUNK as nat) == 0,
        0 < n <= MAX_CHUNK,
    ensures
        nonce_behind(nonce, offset + n) == nonce_after(nonce_behind(nonce, offset)),
        n == MAX_CHUNK ==> (offset + n) % (MAX_CHUNK as nat) == 0,
{
    reveal(nonce_behind);
    let k = pieces_of(offset);
    assert(pieces_of(offset + n) == k + 1);
    assert(nonce_steps(nonce, 2 * k + 1) == next_nonce(nonce_steps(nonce, 2 * k)));
    assert(nonce_steps(nonce, 2 * (k + 1)) == next_nonce(nonce_steps(nonce, 2 * k + 1)));
}

/// The payloads of all the chunks that make up `bytes`, and the nonce behind them.
pub open spec fn stream_of(
    cipher: ShadowsocksCipher,
    key: Seq<u8>,
    nonce: Seq<u8>,
    bytes: Seq<u8>,
) -> Option<(Seq<u8>, Seq<u8>)>
    decreases bytes.len(),
{
    if bytes.len() == 0 {
        Some((Seq::empty(), nonce))
    } else {
        match chunk_of(cipher, key, nonce, bytes) {
            DecodedView::Done(payload, n) => if 0 < n <= bytes.len() {
                match stream_of(cipher, key, nonce_after(nonce), bytes.skip(n as int)) {
                    Some((more, last)) => Some((payload + more, last)),
                    None => None,
                }
            } else {
                None
            },
            _ => None,
        }
    }
}

/// Bytes behind a chunk do not change how it is read.
pub proof fn lemma_chunk_prefix(
    cipher: ShadowsocksCipher,
    key: Seq<u8>,
    nonce: Seq<u8>,
    buf: Seq<u8>,
    rest: Seq<u8>,
)
    ensures
        chunk_of(cipher, key, nonce, buf) !is More ==> chunk_of(cipher, key, nonce, buf + rest)
            == chunk_of(cipher, key, nonce, buf),
        chunk_of(cipher, key, nonce, buf) matches DecodedView::More(n) ==> n > buf.len(),
        chunk_of(cipher, key, nonce, buf) matches DecodedView::Done(_, n) ==> 0 < n <= buf.len(),
{
    if buf.len() >= 18 {
        assert((buf + rest).take(18) =~= buf.take(18));
        if let Some(length) = opened(cipher, key, nonce, buf.take(18)) {
            let end = 34 + be_value(length);
            if buf.len() >= end {
                assert((buf + rest).subrange(18, end as int) =~= buf.subrange(18, end as int));
            }
        }
    }
}

/// A stream goes on where it left off: a chunk behind it adds its payload.
pub proof fn lemma_stream_append(
    cipher: ShadowsocksCipher,
    key: Seq<u8>,
    nonce: Seq<u8>,
    bytes: Seq<u8>,
    data: Seq<u8>,
    last: Seq<u8>,
    chunk: Seq<u8>,
    payload: Seq<u8>,
)
    requires
        stream_of(cipher, key, nonce, bytes) == Some((data, last)),
        chunk_of(cipher, key, last, chunk) == DecodedView::<Seq<u8>, AeadError>::Done(
            payload,
            chunk.len(),
        ),
    ensures
        stream_of(cipher, key, nonce, bytes + chunk) == Some((data + payload, nonce_after(last))),
    decreases bytes.len(),
{
    if bytes.len() == 0 {
        assert(bytes + chunk =~= chunk);
        lemma_chunk_prefix(cipher, key, nonce, chunk, Seq::empty());
        assert(chunk.skip(chunk.len() as int) =~= Seq::<u8>::empty());
        assert(stream_of(cipher, key, nonce_after(nonce), Seq::empty()) == Some(
            (Seq::<u8>::empty(), nonce_after(nonce)),
        ));
        assert(payload + Seq::<u8>::empty() =~= payload);
        assert(data + payload =~= payload);
    } else {
        lemma_chunk_prefix(cipher, key, nonce, bytes, chunk);
        let n = chunk_of(cipher, key, nonce, bytes)->Done_1 as int;
        let first = chunk_of(cipher, key, nonce, bytes)->Done_0;
        assert((bytes + chunk).skip(n) =~= bytes.skip(n) + chunk);
        if let Some((more, _)) = stream_of(cipher, key, nonce_after(nonce), bytes.skip(n)) {
            lemma_stream_append(
                cipher,
                key,
                nonce_after(nonce),
                bytes.skip(n),
                more,
                last,
                chunk,
                payload,
            );
            assert((first + more) + payload =~= first + (more + payload));
        }
    }
}

/// The receiving end of a stream.
#[derive(Debug)]
pub struct AeadReader {
    pub cipher: ShadowsocksCipher,
    pub subkey: Vec<u8>,
    pub nonce: [u8; 12],
    pub buf: Vec<u8>,
}

/// Twelve zeros.
pub open spec fn first_nonce() -> Seq<u8> {
    Seq::new(12, |i: int| 0u8)
}

/// The mathematical counterpart of [`AeadReader`].
#[verifier::ext_equal]
pub struct ReaderView {
    pub cipher: ShadowsocksCipher,
    pub subkey: Seq<u8>,
    pub nonce: Seq<u8>,
    pub buf: Seq<u8>,
}

impl View for AeadReader {
    type V = ReaderView;

    open spec fn view(&self) -> ReaderView {
        ReaderView {
            cipher: self.cipher,
            subkey: self.subkey@,
            nonce: self.nonce@,
            buf: self.buf@,
        }
    }
}

impl AeadReader {
    /// Whether the key is one for the cipher.
    pub open spec fn wf(&self) -> bool {
        self.subkey@.len() == self.cipher.key_size()
    }

    pub fn new(cipher: ShadowsocksCipher, subkey: Vec<u8>) -> (r: Self)
        ensures
            r.cipher == cipher,
            r.subkey@ == subkey@,
            r.nonce@ == first_nonce(),
            r.buf@.len() == 0,
    {
        let nonce: [u8; 12] = [0; 12];
        assert(nonce@ =~= first_nonce());
        AeadReader { cipher, subkey, nonce, buf: Vec::new() }
    }

    /// Opens the chunk at the start of `wire`. Only a complete chunk moves the nonce on.
    pub fn read_header_chunk(&mut self, wire: &[u8]) -> (r: Decoded<Vec<u8>, AeadError>)
        requires
            old(self).wf(),
        ensures
            r@ == chunk_of(old(self).cipher, old(self).subkey@, old(self).nonce@, wire@),
            final(self).wf(),
            final(self).cipher == old(self).cipher,
            final(self).subkey@ == old(self).subkey@,
            final(self).buf@ == old(self).buf@,
            r is Done ==> final(self).nonce@ == nonce_after(old(self).nonce@),
            r !is Done ==> final(self).nonce@ == old(self).nonce@,
            r matches Decoded::More(n) ==> n <= 34 + 0xffff,
            r matches Decoded::Done(_, n) ==> n <= wire@.len(),
            r matches Decoded::Done(p, n) ==> {
                &&& opened(
                    old(self).cipher,
                    old(self).subkey@,
                    old(self).nonce@,
                    wire@.take(18),
                ) == Some(seq![(p@.len() / 256) as u8, (p@.len() % 256) as u8])
                &&& opened(
                    old(self).cipher,
                    old(self).subkey@,
                    next_nonce(old(self).nonce@),
                    wire@.subrange(18, n as int),
                ) == Some(p@)
            },
    {
        let n: usize = wire.len();
        if n < LENGTH_CT {
            return Decoded::More(LENGTH_CT);
        }
        let length_ct = copy_range(wire, 0, LENGTH_CT);
        assert(length_ct@ =~= wire@.take(18));
        let length: Vec<u8> = match aead_decrypt(
            &self.cipher,
            self.subkey.as_slice(),
            &self.nonce,
            length_ct.as_slice(),
        ) {
            Ok(m) => m,
            Err(e) => {
                return Decoded::Bad(e);
            },
        };
        assert(length@.subrange(0, 2) =~= length@);
        let payload_len: usize = read_u16(length.as_slice(), 0) as usize;
        let end: usize = LENGTH_CT + payload_len + crypto::TAG_LEN;
        if n < end {
            return Decoded::More(end);
        }
        let mut second: [u8; 12] = self.nonce;
        increment_nonce(&mut second);
        let payload_ct = copy_range(wire, LENGTH_CT, end);
        match aead_decrypt(
            &self.cipher,
            self.subkey.as_slice(),
            &second,
            payload_ct.as_slice(),
        ) {
            Ok(payload) => {
                proof {
                    crate::wire::lemma_be_bytes_of_value(length@);
                    crate::wire::lemma_be_pair(payload@.len());
                }
                increment_nonce(&mut second);
                self.nonce = second;
                Decoded::Done(payload, end)
            },
            Err(e) => Decoded::Bad(e),
        }
    }

    /// Opens the chunk at the start of `wire`, and adds its payload to the buffer.
    pub fn fill_buf(&mut self, wire: &[u8]) -> (r: Decoded<Vec<u8>, AeadError>)
        requires
            old(self).wf(),
        ensures
            r@ == chunk_of(old(self).cipher, old(self).subkey@, old(self).nonce@, wire@),
            final(self).wf(),
            final(self).cipher == old(self).cipher,
            final(self).subkey@ == old(self).subkey@,
            r matches Decoded::Done(p, _) ==> final(self).buf@ == old(self).buf@ + p@
                && final(self).nonce@ == nonce_after(old(self).nonce@),
            r !is Done ==> final(self).buf@ == old(self).buf@ && final(self).nonce@ == old(
                self,
            ).nonce@,
    {
        let r = self.read_header_chunk(wire);
        if let Decoded::Done(p, _) = &r {
            push_slice(&mut self.buf, p.as_slice());
        }
        r
    }

    /// Takes up to `max` bytes out of the buffer.
    pub fn read_plain(&mut self, max: usize) -> (r: Vec<u8>)
        ensures
            r@ + final(self).buf@ == old(self).buf@,
            r@.len() == (if max <= old(self).buf@.len() {
                max as nat
            } else {
                old(self).buf@.len()
            }),
            final(self).cipher == old(self).cipher,
            final(self).subkey@ == old(self).subkey@,
            final(self).nonce@ == old(self).nonce@,
    {
        let len: usize = self.buf.len();
        let n: usize = if max <= len {
            max
        } else {
            len
        };
        let out = copy_range(self.buf.as_slice(), 0, n);
        let rest = copy_range(self.buf.as_slice(), n, len);
        assert(out@ + rest@ =~= self.buf@);
        self.buf = rest;
        out
    }

    /// Takes exactly `n` bytes out of the buffer, where it holds that many.
    pub fn read_exact_plain(&mut self, n: usize) -> (r: Option<Vec<u8>>)
        ensures
            r is Some <==> n <= old(self).buf@.len(),
            r matches Some(v) ==> v@.len() == n && v@ + final(self).buf@ == old(self).buf@,
            r is None ==> final(self).buf@ == old(self).buf@,
            final(self).cipher == old(self).cipher,
            final(self).subkey@ == old(self).subkey@,
            final(self).nonce@ == old(self).nonce@,
    {
        if n > self.buf.len() {
            None
        } else {
            Some(self.read_plain(n))
        }
    }
}

/// The sending end of a stream.
#[derive(Debug)]
pub struct AeadWriter {
    pub cipher: ShadowsocksCipher,
    pub subkey: Vec<u8>,
    pub nonce: [u8; 12],
}

impl AeadWriter {
    pub fn new(cipher: ShadowsocksCipher, subkey: Vec<u8>) -> (r: Self)
        ensures
            r.cipher == cipher,
            r.subkey@ == subkey@,
            r.nonce@ == first_nonce(),
    {
        let nonce: [u8; 12] = [0; 12];
        assert(nonce@ =~= first_nonce());
        AeadWriter { cipher, subkey, nonce }
    }

    /// Starts over with a new key.
    pub fn reset_subkey(&mut self, new_subkey: Vec<u8>)
        ensures
            final(self).cipher == old(self).cipher,
            final(self).subkey@ == new_subkey@,
            final(self).nonce@ == first_nonce(),
    {
        self.subkey = new_subkey;
        let nonce: [u8; 12] = [0; 12];
        assert(nonce@ =~= first_nonce());
        self.nonce = nonce;
    }

    /// Seals `data` as one chunk. A reader with the same key and nonce reads it back, as
    /// long as its length fits in two bytes. Data that is too long for the cipher is found
    /// out only behind its length, whose nonce is then used up.
    pub fn write_header_chunk(&mut self, data: &[u8]) -> (r: Result<Vec<u8>, AeadError>)
        ensures
            final(self).cipher == old(self).cipher,
            final(self).subkey@ == old(self).subkey@,
            r == Err::<Vec<u8>, AeadError>(AeadError::KeyLength) <==> old(self).subkey@.len()
                != old(self).cipher.key_size(),
            r is Ok <==> old(self).subkey@.len() == old(self).cipher.key_size() && data@.len()
                <= message_limit(old(self).cipher),
            r matches Err(e) ==> e == AeadError::KeyLength || e == AeadError::TooLong,
            r matches Err(e) ==> final(self).nonce@ == (if e == AeadError::KeyLength {
                old(self).nonce@
            } else {
                next_nonce(old(self).nonce@)
            }),
            r matches Ok(c) ==> {
                &&& c@ == sealed_chunk(
                    old(self).cipher,
                    old(self).subkey@,
                    old(self).nonce@,
                    data@,
                )
                &&& final(self).nonce@ == nonce_after(old(self).nonce@)
                &&& c@.len() == data@.len() + 34
                &&& data@.len() < 0x1_0000 ==> c@.take(18) == sealed(
                    old(self).cipher,
                    old(self).subkey@,
                    old(self).nonce@,
                    seq![(data@.len() / 256) as u8, (data@.len() % 256) as u8],
                )
                &&& c@.skip(18) == sealed(
                    old(self).cipher,
                    old(self).subkey@,
                    next_nonce(old(self).nonce@),
                    data@,
                )
                &&& data@.len() < 0x1_0000 ==> chunk_of(
                    old(self).cipher,
                    old(self).subkey@,
                    old(self).nonce@,
                    c@,
                ) == DecodedView::<Seq<u8>, AeadError>::Done(data@, c@.len())
            },
    {
        let len: usize = data.len();
        let mut length: Vec<u8> = Vec::new();
        push_u16(&mut length, (len % 0x1_0000) as u16);
        assert(length@ =~= be_bytes(data@.len() % 0x1_0000, 2));
        proof {
            crate::wire::lemma_be_bytes_len(data@.len() % 0x1_0000, 2);
            crate::wire::lemma_pow256_small();
            crate::wire::lemma_be_value_of_bytes(data@.len() % 0x1_0000, 2);
        }
        let length_ct: Vec<u8> = match aead_encrypt(
            &self.cipher,
            self.subkey.as_slice(),
            &self.nonce,
            length.as_slice(),
        ) {
            Ok(c) => c,
            Err(e) => {
                return Err(e);
            },
        };
        let mut second: [u8; 12] = self.nonce;
        increment_nonce(&mut second);
        let payload_ct: Vec<u8> = match aead_encrypt(
            &self.cipher,
            self.subkey.as_slice(),
            &second,
            data,
        ) {
            Ok(c) => c,
            Err(e) => {
                self.nonce = second;
                return Err(e);
            },
        };
        increment_nonce(&mut second);
        self.nonce = second;
        let mut out: Vec<u8> = length_ct;
        let ghost head = out@;
        push_slice(&mut out, payload_ct.as_slice());
        proof {
            assert(out@.take(18) =~= head);
            assert(out@.skip(18) =~= payload_ct@);
            if data@.len() < 0x1_0000 {
                crate::wire::lemma_be_pair(data@.len());
                assert(out@.subrange(18, out@.len() as int) =~= payload_ct@);
            }
        }
        Ok(out)
    }

    /// Seals `data` in chunks of at most `MAX_CHUNK` bytes. A reader with the same key and
    /// nonce reads back exactly `data`.
    #[verifier::rlimit(40)]
    pub fn write_data(&mut self, data: &[u8]) -> (r: Result<Vec<u8>, AeadError>)
        ensures
            final(self).cipher == old(self).cipher,
            final(self).subkey@ == old(self).subkey@,
            r is Ok <==> data@.len() == 0 || old(self).subkey@.len() == old(
                self,
            ).cipher.key_size(),
            r matches Err(e) ==> e == AeadError::KeyLength && final(self).nonce@ == old(
                self,
            ).nonce@,
            r is Ok ==> final(self).nonce@ == nonce_behind(old(self).nonce@, data@.len()),
            r matches Ok(c) ==> stream_of(
                old(self).cipher,
                old(self).subkey@,
                old(self).nonce@,
                c@,
            ) == Some((data@, final(self).nonce@)) && c@ == sealed_stream(
                old(self).cipher,
                old(self).subkey@,
                old(self).nonce@,
                data@,
            ),
    {
        let ghost cipher = self.cipher;
        let ghost key = self.subkey@;
        let ghost nonce = self.nonce@;
        let mut out: Vec<u8> = Vec::new();
        let mut offset: usize = 0;
        let len: usize = data.len();
        proof {
            lemma_nonce_behind_nothing(nonce);
        }
        assert(data@.take(0) =~= Seq::<u8>::empty());
        assert(data@.skip(0) =~= data@);
        assert(out@ + sealed_stream(cipher, key, nonce, data@) =~= sealed_stream(
            cipher,
            key,
            nonce,
            data@,
        ));
        while offset < len
            invariant
                len == data@.len(),
                offset <= len,
                cipher == old(self).cipher,
                key == old(self).subkey@,
                nonce == old(self).nonce@,
                self.cipher == cipher,
                self.subkey@ == key,
                offset > 0 ==> key.len() == cipher.key_size(),
                offset == 0 ==> self.nonce@ == nonce,
                offset == len || offset % MAX_CHUNK == 0,
                self.nonce@ == nonce_behind(nonce, offset as nat),
                stream_of(cipher, key, nonce, out@) == Some((data@.take(offset as int), self.nonce@)),
                out@ + sealed_stream(cipher, key, self.nonce@, data@.skip(offset as int))
                    == sealed_stream(cipher, key, nonce, data@),
            decreases len - offset,
        {
            let left: usize = len - offset;
            let n: usize = if left <= MAX_CHUNK {
                left
            } else {
                MAX_CHUNK
            };
            let ghost before = self.nonce@;
            let ghost written = out@;
            let piece = copy_range(data, offset, offset + n);
            let chunk: Vec<u8> = match self.write_header_chunk(piece.as_slice()) {
                Ok(c) => c,
                Err(e) => {
                    return Err(e);
                },
            };
            push_slice(&mut out, chunk.as_slice());
            proof {
                lemma_stream_append(
                    cipher,
                    key,
                    nonce,
                    written,
                    data@.take(offset as int),
                    before,
                    chunk@,
                    piece@,
                );
                assert(data@.take(offset as int) + piece@ =~= data@.take(offset + n));
                let tail = data@.skip(offset as int);
                assert(tail.take(n as int) =~= piece@);
                assert(tail.skip(n as int) =~= data@.skip(offset + n));
                let more = sealed_stream(cipher, key, nonce_after(before), data@.skip(offset + n));
                assert(written + (chunk@ + more) =~= (written + chunk@) + more);
                lemma_one_more_piece(nonce, offset as nat, n as nat);
            }
            offset = offset + n;
        }
        assert(data@.take(len as int) =~= data@);
        assert(sealed_stream(cipher, key, self.nonce@, data@.skip(len as int)) =~= Seq::<u8>::empty());
        assert(out@ + Seq::<u8>::empty() =~= out@);
        Ok(out)
    }
}

/// `data` as chunks of `MAX_CHUNK` bytes, the last one shorter.
pub open spec fn sealed_stream(
    cipher: ShadowsocksCipher,
    key: Seq<u8>,
    nonce: Seq<u8>,
    data: Seq<u8>,
) -> Seq<u8>
    decreases data.len(),
{
    if data.len() == 0 {
        Seq::empty()
    } else {
        let n = if data.len() <= MAX_CHUNK {
            data.len() as int
        } else {
            MAX_CHUNK as int
        };
        sealed_chunk(cipher, key, nonce, data.take(n)) + sealed_stream(
            cipher,
            key,
            nonce_after(nonce),
            data.skip(n),
        )
    }
}

/// What is read of a number that was written, as long as it fits.
proof fn lemma_le_value_of_bytes(v: nat, n: nat)
    requires
        v < crate::wire::pow256(n),
    ensures
        le_value(le_bytes(v, n)) == v,
    decreases n,
{
    if n > 0 {
        let rest = le_bytes(v / 256, (n - 1) as nat);
        lemma_le_value_of_bytes(v / 256, (n - 1) as nat);
        assert(le_bytes(v, n).skip(1) =~= rest);
    }
}

proof fn lemma_le_digit(v: nat, n: nat, i: nat)
    requires
        i < n,
    ensures
        le_bytes(v, n)[i as int] == (v / crate::wire::pow256(i)) % 256,
    decreases n,
{
    let rest = le_bytes(v / 256, (n - 1) as nat);
    lemma_le_bytes_len(v / 256, (n - 1) as nat);
    if i > 0 {
        let j = (i - 1) as nat;
        lemma_le_digit(v / 256, (n - 1) as nat, j);
        assert(le_bytes(v, n)[i as int] == rest[i - 1]);
        crate::wire::lemma_pow256_positive(j);
        vstd::arithmetic::div_mod::lemma_div_denominator(
            v as int,
            256,
            crate::wire::pow256(j) as int,
        );
    } else {
        assert(crate::wire::pow256(0) == 1);
    }
}

/// The count `v` in twelve bytes, of which byte `i` is worth `256^i`.
pub open spec fn count_nonce(v: nat) -> Seq<u8> {
    Seq::new(12, |i: int| (v / crate::wire::pow256(i as nat) % 256) as u8)
}

/// Nonces are counted from twelve zeros up, the first byte first: the nonce behind the
/// count `v` is the count `v + 1`, and one chunk moves it on by two.
pub proof fn lemma_nonces_count(v: nat)
    requires
        v < crate::wire::pow256(12),
    ensures
        first_nonce() == count_nonce(0),
        next_nonce(count_nonce(v)) == count_nonce(v + 1),
        v + 1 < crate::wire::pow256(12) ==> nonce_after(count_nonce(v)) == count_nonce(v + 2),
        v < 255 ==> count_nonce(v) == seq![v as u8] + Seq::new(11, |i: int| 0u8),
{
    lemma_count_nonce(0);
    lemma_count_nonce(v);
    lemma_count_nonce(v + 1);
    lemma_count_nonce(v + 2);
    lemma_le_value_of_bytes(v, 12);
    lemma_le_bytes_len(v, 12);
    lemma_le_bytes_len(v + 1, 12);
    if v + 1 < crate::wire::pow256(12) {
        lemma_le_value_of_bytes(v + 1, 12);
    }
    assert forall|w: nat, i: nat| w < 256 && 0 < i implies #[trigger] (w / crate::wire::pow256(i))
        == 0 by {
        crate::wire::lemma_pow256_positive((i - 1) as nat);
        vstd::arithmetic::div_mod::lemma_basic_div(w as int, crate::wire::pow256(i) as int);
    }
    assert(crate::wire::pow256(0) == 1);
    if v < 255 {
        assert(count_nonce(v) =~= seq![v as u8] + Seq::new(11, |i: int| 0u8));
    }
    assert(first_nonce() =~= count_nonce(0));
}

proof fn lemma_count_nonce(v: nat)
    ensures
        count_nonce(v) == le_bytes(v, 12),
{
    lemma_le_bytes_len(v, 12);
    assert forall|i: int| 0 <= i < 12 implies count_nonce(v)[i] == #[trigger] le_bytes(v, 12)[i] by {
        lemma_le_digit(v, 12, i as nat);
    }
    assert(count_nonce(v) =~= le_bytes(v, 12));
}

/// The chunk that is written at the count `v`, in terms of the ciphers alone: its length,
/// high byte first, sealed under the nonce `v` itself, and behind it the payload sealed
/// under the nonce `v + 1`, both with no associated data. The first chunk of a stream has
/// its length sealed under twelve zeros.
pub proof fn lemma_length_is_sealed_first(key: Seq<u8>, v: nat, payload: Seq<u8>)
    requires
        v < crate::wire::pow256(12),
        payload.len() < 0x1_0000,
    ensures
        ({
            let length = seq![(payload.len() / 256) as u8, (payload.len() % 256) as u8];
            let none = Seq::<u8>::empty();
            &&& sealed_chunk(ShadowsocksCipher::Blake3Aes128Gcm, key, count_nonce(v), payload)
                == crypto::aes128_gcm_sealed(key, count_nonce(v), none, length)
                + crypto::aes128_gcm_sealed(key, count_nonce(v + 1), none, payload)
            &&& sealed_chunk(ShadowsocksCipher::Blake3Aes256Gcm, key, count_nonce(v), payload)
                == crypto::aes256_gcm_sealed(key, count_nonce(v), none, length)
                + crypto::aes256_gcm_sealed(key, count_nonce(v + 1), none, payload)
            &&& sealed_chunk(
                ShadowsocksCipher::Blake3Chacha20Poly1305,
                key,
                count_nonce(v),
                payload,
            ) == crypto::chacha20_poly1305_sealed(key, count_nonce(v), none, length)
                + crypto::chacha20_poly1305_sealed(key, count_nonce(v + 1), none, payload)
            &&& count_nonce(0) == Seq::new(12, |i: int| 0u8)
        }),
{
    lemma_nonces_count(v);
    lemma_nonces_count(0);
    crate::wire::lemma_be_pair(payload.len());
}

/// What a reader at the count `v` accepts, in terms of the ciphers alone: bytes of which
/// the first eighteen open under the nonce `v` to the length of the payload, and the rest
/// of which opens under the nonce `v + 1` to the payload. It accepts all such bytes, and
/// no others; where the first eighteen do not open under `v` it refuses them.
pub proof fn lemma_length_is_opened_first(
    cipher: ShadowsocksCipher,
    key: Seq<u8>,
    v: nat,
    buf: Seq<u8>,
    payload: Seq<u8>,
)
    requires
        v < crate::wire::pow256(12),
        payload.len() < 0x1_0000,
        buf.len() >= 18,
    ensures
        ({
            let open = |n: nat, ct: Seq<u8>|
                match cipher {
                    ShadowsocksCipher::Blake3Aes128Gcm => crypto::aes128_gcm_opened(
                        key,
                        count_nonce(n),
                        Seq::empty(),
                        ct,
                    ),
                    ShadowsocksCipher::Blake3Aes256Gcm => crypto::aes256_gcm_opened(
                        key,
                        count_nonce(n),
                        Seq::empty(),
                        ct,
                    ),
                    ShadowsocksCipher::Blake3Chacha20Poly1305 => crypto::chacha20_poly1305_opened(
                        key,
                        count_nonce(n),
                        Seq::empty(),
                        ct,
                    ),
                };
            let length = seq![(payload.len() / 256) as u8, (payload.len() % 256) as u8];
            let end = 34 + payload.len();
            let r = chunk_of(cipher, key, count_nonce(v), buf);
            &&& open(v, buf.take(18)) == Some(length) && buf.len() >= end && open(
                v + 1,
                buf.subrange(18, end as int),
            ) == Some(payload) ==> r == DecodedView::<Seq<u8>, AeadError>::Done(payload, end)
            &&& open(v, buf.take(18)) == Some(length) && buf.len() < end ==> r == DecodedView::<
                Seq<u8>,
                AeadError,
            >::More(end)
            &&& open(v, buf.take(18)) is None ==> r == DecodedView::<Seq<u8>, AeadError>::Bad(
                AeadError::Tag,
            )
            &&& open(v, buf.take(18)) == Some(length) && buf.len() >= end && open(
                v + 1,
                buf.subrange(18, end as int),
            ) is None ==> r == DecodedView::<Seq<u8>, AeadError>::Bad(AeadError::Tag)
            &&& r matches DecodedView::Done(p, used) ==> open(v, buf.take(18)) is Some && open(
                v + 1,
                buf.subrange(18, used as int),
            ) == Some(p)
        }),
{
    lemma_nonces_count(v);
    crate::wire::lemma_be_pair(payload.len());
}

/// Data is cut into pieces of 16383 bytes, the last one being what is left, and every
/// piece is a chunk two nonces behind the one before it.
pub proof fn lemma_stream_pieces(
    cipher: ShadowsocksCipher,
    key: Seq<u8>,
    nonce: Seq<u8>,
    data: Seq<u8>,
)
    ensures
        data.len() == 0 ==> sealed_stream(cipher, key, nonce, data) == Seq::<u8>::empty(),
        0 < data.len() <= 16383 ==> sealed_stream(cipher, key, nonce, data) == sealed_chunk(
            cipher,
            key,
            nonce,
            data,
        ),
        data.len() > 16383 ==> sealed_stream(cipher, key, nonce, data) == sealed_chunk(
            cipher,
            key,
            nonce,
            data.take(16383),
        ) + sealed_stream(cipher, key, next_nonce(next_nonce(nonce)), data.skip(16383)),
{
    if 0 < data.len() <= 16383 {
        let n = data.len() as int;
        assert(data.take(n) =~= data);
        assert(data.skip(n) =~= Seq::<u8>::empty());
        assert(sealed_stream(cipher, key, nonce_after(nonce), data.skip(n)) =~= Seq::<u8>::empty());
        assert(sealed_chunk(cipher, key, nonce, data) + Seq::<u8>::empty() =~= sealed_chunk(
            cipher,
            key,
            nonce,
            data,
        ));
    }
}

/// A password is a key exactly if it decodes to as many bytes as the cipher's keys have;
/// one that does not decode and one of another length are told apart.
pub proof fn lemma_master_key(decoded: Seq<u8>, n: nat)
    ensures
        decoded.len() == n ==> master_key_of(Some(decoded), n) == Ok::<Seq<u8>, AeadError>(decoded),
        decoded.len() != n ==> master_key_of(Some(decoded), n) == Err::<Seq<u8>, AeadError>(
            AeadError::KeyLength,
        ),
        master_key_of(None, n) == Err::<Seq<u8>, AeadError>(AeadError::NotBase64),
{
}

} // verus!
