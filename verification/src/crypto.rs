//! The cryptographic primitives, called through functions whose contracts are
//! trusted rather than proved.
//!
//! What a primitive computes is given a name (`aes128_gcm_sealed`, `sha256_of`,
//! ...): the same inputs give the same output, and beside that only the facts stated
//! below are used.
use aes_gcm::aead::generic_array::GenericArray;
use aes_gcm::aead::{Aead, KeyInit, Payload};
use aes_gcm::aes::cipher::{BlockDecrypt, BlockEncrypt};
use aes_gcm::aes::Aes128;
use aes_gcm::{Aes128Gcm, Aes256Gcm};
use base64::Engine;
use chacha20poly1305::ChaCha20Poly1305;
use hmac::{Hmac, Mac};
use sha2::{Digest, Sha224, Sha256};
use vstd::prelude::*;

verus! {

/// Bytes that authenticated encryption adds to a message.
pub const TAG_LEN: usize = 16;

/// The longest message, and the longest associated data, that AES-GCM takes.
pub const AES_GCM_LIMIT: u64 = 0x10_0000_0000;

/// The longest message that ChaCha20-Poly1305 takes.
pub const CHACHA_LIMIT: u64 = 0x3F_FFFF_FF80;

/// Whether AES-GCM takes this much message or associated data.
pub open spec fn within_aes_gcm(data: Seq<u8>) -> bool {
    data.len() <= AES_GCM_LIMIT
}

/// What AES-128-GCM makes of a message.
pub uninterp spec fn aes128_gcm_sealed(
    key: Seq<u8>,
    nonce: Seq<u8>,
    aad: Seq<u8>,
    msg: Seq<u8>,
) -> Seq<u8>;

/// The message in an AES-128-GCM ciphertext, where its tag is right.
pub uninterp spec fn aes128_gcm_opened(
    key: Seq<u8>,
    nonce: Seq<u8>,
    aad: Seq<u8>,
    ct: Seq<u8>,
) -> Option<Seq<u8>>;

/// What AES-256-GCM makes of a message.
pub uninterp spec fn aes256_gcm_sealed(
    key: Seq<u8>,
    nonce: Seq<u8>,
    aad: Seq<u8>,
    msg: Seq<u8>,
) -> Seq<u8>;

/// The message in an AES-256-GCM ciphertext, where its tag is right.
pub uninterp spec fn aes256_gcm_opened(
    key: Seq<u8>,
    nonce: Seq<u8>,
    aad: Seq<u8>,
    ct: Seq<u8>,
) -> Option<Seq<u8>>;

/// What ChaCha20-Poly1305 makes of a message.
pub uninterp spec fn chacha20_poly1305_sealed(
    key: Seq<u8>,
    nonce: Seq<u8>,
    aad: Seq<u8>,
    msg: Seq<u8>,
) -> Seq<u8>;

/// The message in a ChaCha20-Poly1305 ciphertext, where its tag is right.
pub uninterp spec fn chacha20_poly1305_opened(
    key: Seq<u8>,
    nonce: Seq<u8>,
    aad: Seq<u8>,
    ct: Seq<u8>,
) -> Option<Seq<u8>>;

/// `Aes128Gcm::encrypt` of the `aes-gcm` crate. It fails exactly on a key that is not
/// 16 bytes long or on more than `AES_GCM_LIMIT` bytes of message or associated data;
/// otherwise the ciphertext is the message's length plus a 16-byte tag, and
/// `Aes128Gcm::decrypt` gives the message back.
#[verifier::external_body]
pub(crate) fn aes128_gcm_encrypt(key: &[u8], nonce: &[u8; 12], aad: &[u8], msg: &[u8]) -> (r: Option<Vec<u8>>)
    ensures
        r is Some <==> (key@.len() == 16 && within_aes_gcm(msg@) && within_aes_gcm(aad@)),
        r matches Some(c) ==> c@ == aes128_gcm_sealed(key@, nonce@, aad@, msg@) && c@.len()
            == msg@.len() + 16 && aes128_gcm_opened(key@, nonce@, aad@, c@) == Some(msg@),
{
    let cipher = Aes128Gcm::new_from_slice(key).ok()?;
    cipher.encrypt(GenericArray::from_slice(nonce), Payload { msg, aad }).ok()
}

/// `Aes128Gcm::decrypt` of the `aes-gcm` crate. A wrong key length, or associated data
/// beyond `AES_GCM_LIMIT`, gives nothing; a message comes out 16 bytes shorter than
/// its ciphertext.
#[verifier::external_body]
pub(crate) fn aes128_gcm_decrypt(key: &[u8], nonce: &[u8; 12], aad: &[u8], ct: &[u8]) -> (r: Option<Vec<u8>>)
    ensures
        key@.len() != 16 || !within_aes_gcm(aad@) ==> r is None,
        key@.len() == 16 && within_aes_gcm(aad@) ==> (match r {
            Some(m) => aes128_gcm_opened(key@, nonce@, aad@, ct@) == Some(m@),
            None => aes128_gcm_opened(key@, nonce@, aad@, ct@) is None,
        }),
        r matches Some(m) ==> ct@.len() == m@.len() + 16,
{
    let cipher = Aes128Gcm::new_from_slice(key).ok()?;
    cipher.decrypt(GenericArray::from_slice(nonce), Payload { msg: ct, aad }).ok()
}

/// `Aes256Gcm::encrypt` of the `aes-gcm` crate. It fails exactly on a key that is not
/// 32 bytes long or on more than `AES_GCM_LIMIT` bytes of message or associated data;
/// otherwise the ciphertext is the message's length plus a 16-byte tag, and
/// `Aes256Gcm::decrypt` gives the message back.
#[verifier::external_body]
pub(crate) fn aes256_gcm_encrypt(key: &[u8], nonce: &[u8; 12], aad: &[u8], msg: &[u8]) -> (r: Option<Vec<u8>>)
    ensures
        r is Some <==> (key@.len() == 32 && within_aes_gcm(msg@) && within_aes_gcm(aad@)),
        r matches Some(c) ==> c@ == aes256_gcm_sealed(key@, nonce@, aad@, msg@) && c@.len()
            == msg@.len() + 16 && aes256_gcm_opened(key@, nonce@, aad@, c@) == Some(msg@),
{
    let cipher = Aes256Gcm::new_from_slice(key).ok()?;
    cipher.encrypt(GenericArray::from_slice(nonce), Payload { msg, aad }).ok()
}

/// `Aes256Gcm::decrypt` of the `aes-gcm` crate. A wrong key length, or associated data
/// beyond `AES_GCM_LIMIT`, gives nothing; a message comes out 16 bytes shorter than
/// its ciphertext.
#[verifier::external_body]
pub(crate) fn aes256_gcm_decrypt(key: &[u8], nonce: &[u8; 12], aad: &[u8], ct: &[u8]) -> (r: Option<Vec<u8>>)
    ensures
        key@.len() != 32 || !within_aes_gcm(aad@) ==> r is None,
        key@.len() == 32 && within_aes_gcm(aad@) ==> (match r {
            Some(m) => aes256_gcm_opened(key@, nonce@, aad@, ct@) == Some(m@),
            None => aes256_gcm_opened(key@, nonce@, aad@, ct@) is None,
        }),
        r matches Some(m) ==> ct@.len() == m@.len() + 16,
{
    let cipher = Aes256Gcm::new_from_slice(key).ok()?;
    cipher.decrypt(GenericArray::from_slice(nonce), Payload { msg: ct, aad }).ok()
}

/// `ChaCha20Poly1305::encrypt` of the `chacha20poly1305` crate, for messages that its
/// block counter can number. It fails exactly on a key that is not 32 bytes long;
/// otherwise the ciphertext is the message's length plus a 16-byte tag, and
/// `ChaCha20Poly1305::decrypt` gives the message back.
#[verifier::external_body]
pub(crate) fn chacha20_poly1305_encrypt(
    key: &[u8],
    nonce: &[u8; 12],
    aad: &[u8],
    msg: &[u8],
) -> (r: Option<Vec<u8>>)
    requires
        msg@.len() <= CHACHA_LIMIT,
    ensures
        r is Some <==> key@.len() == 32,
        r matches Some(c) ==> c@ == chacha20_poly1305_sealed(key@, nonce@, aad@, msg@)
            && c@.len() == msg@.len() + 16 && chacha20_poly1305_opened(key@, nonce@, aad@, c@)
            == Some(msg@),
{
    let cipher = ChaCha20Poly1305::new_from_slice(key).ok()?;
    cipher.encrypt(GenericArray::from_slice(nonce), Payload { msg, aad }).ok()
}

/// `ChaCha20Poly1305::decrypt` of the `chacha20poly1305` crate, for ciphertexts that
/// its block counter can number. A wrong key length gives nothing; a message comes out
/// 16 bytes shorter than its ciphertext.
#[verifier::external_body]
pub(crate) fn chacha20_poly1305_decrypt(
    key: &[u8],
    nonce: &[u8; 12],
    aad: &[u8],
    ct: &[u8],
) -> (r: Option<Vec<u8>>)
    requires
        ct@.len() <= CHACHA_LIMIT + 16,
    ensures
        key@.len() != 32 ==> r is None,
        key@.len() == 32 ==> (match r {
            Some(m) => chacha20_poly1305_opened(key@, nonce@, aad@, ct@) == Some(m@),
            None => chacha20_poly1305_opened(key@, nonce@, aad@, ct@) is None,
        }),
        r matches Some(m) ==> ct@.len() == m@.len() + 16,
{
    let cipher = ChaCha20Poly1305::new_from_slice(key).ok()?;
    cipher.decrypt(GenericArray::from_slice(nonce), Payload { msg: ct, aad }).ok()
}

/// One block under AES-128.
pub uninterp spec fn aes128_block_encrypted(key: Seq<u8>, block: Seq<u8>) -> Seq<u8>;

/// One block under AES-128, the other way.
pub uninterp spec fn aes128_block_decrypted(key: Seq<u8>, block: Seq<u8>) -> Seq<u8>;

/// `Aes128::encrypt_block` of the `aes` crate: one block in, one block out.
#[verifier::external_body]
pub(crate) fn aes128_encrypt_block(key: &[u8; 16], block: &[u8; 16]) -> (r: [u8; 16])
    ensures
        r@ == aes128_block_encrypted(key@, block@),
{
    let mut out = *GenericArray::from_slice(block);
    Aes128::new(GenericArray::from_slice(key)).encrypt_block(&mut out);
    out.into()
}

/// `Aes128::decrypt_block` of the `aes` crate: one block in, one block out.
#[verifier::external_body]
pub(crate) fn aes128_decrypt_block(key: &[u8; 16], block: &[u8; 16]) -> (r: [u8; 16])
    ensures
        r@ == aes128_block_decrypted(key@, block@),
{
    let mut out = *GenericArray::from_slice(block);
    Aes128::new(GenericArray::from_slice(key)).decrypt_block(&mut out);
    out.into()
}

/// The SHA-256 digest.
pub uninterp spec fn sha256_of(data: Seq<u8>) -> Seq<u8>;

/// The SHA-224 digest.
pub uninterp spec fn sha224_of(data: Seq<u8>) -> Seq<u8>;

/// The MD5 digest.
pub uninterp spec fn md5_of(data: Seq<u8>) -> Seq<u8>;

/// The CRC-32 checksum.
pub uninterp spec fn crc32_of(data: Seq<u8>) -> u32;

/// HMAC with SHA-256.
pub uninterp spec fn hmac_sha256_of(key: Seq<u8>, msg: Seq<u8>) -> Seq<u8>;

/// BLAKE3 in its key derivation mode.
pub uninterp spec fn blake3_derived(context: Seq<char>, material: Seq<u8>) -> Seq<u8>;

/// `Sha256::digest` of the `sha2` crate.
#[verifier::external_body]
pub(crate) fn sha256(data: &[u8]) -> (r: [u8; 32])
    ensures
        r@ == sha256_of(data@),
{
    Sha256::digest(data).into()
}

/// `Sha224::digest` of the `sha2` crate.
#[verifier::external_body]
pub(crate) fn sha224(data: &[u8]) -> (r: [u8; 28])
    ensures
        r@ == sha224_of(data@),
{
    Sha224::digest(data).into()
}

/// `Md5::digest` of the `md-5` crate.
#[verifier::external_body]
pub(crate) fn md5(data: &[u8]) -> (r: [u8; 16])
    ensures
        r@ == md5_of(data@),
{
    md5::Md5::digest(data).into()
}

/// `crc32fast::hash`.
#[verifier::external_body]
pub(crate) fn crc32(data: &[u8]) -> (r: u32)
    ensures
        r == crc32_of(data@),
{
    crc32fast::hash(data)
}

/// `Hmac::<Sha256>` of the `hmac` crate, which takes a key of any length.
#[verifier::external_body]
pub(crate) fn hmac_sha256(key: &[u8], msg: &[u8]) -> (r: [u8; 32])
    ensures
        r@ == hmac_sha256_of(key@, msg@),
{
    let mut mac = <Hmac<Sha256> as Mac>::new_from_slice(key).unwrap();
    Mac::update(&mut mac, msg);
    mac.finalize().into_bytes().into()
}

/// `blake3::derive_key`.
#[verifier::external_body]
pub(crate) fn blake3_derive_key(context: &str, material: &[u8]) -> (r: [u8; 32])
    ensures
        r@ == blake3_derived(context@, material@),
{
    blake3::derive_key(context, material)
}

/// The bytes that a text in padded standard Base64 stands for, where it is one.
pub uninterp spec fn base64_decoded(text: Seq<char>) -> Option<Seq<u8>>;

/// Padded standard Base64.
pub uninterp spec fn base64_encoded(bytes: Seq<u8>) -> Seq<char>;

/// `decode` of the `base64` crate's `STANDARD` engine.
#[verifier::external_body]
pub(crate) fn base64_decode(text: &str) -> (r: Option<Vec<u8>>)
    ensures
        match r {
            Some(b) => base64_decoded(text@) == Some(b@),
            None => base64_decoded(text@) is None,
        },
{
    base64::engine::general_purpose::STANDARD.decode(text).ok()
}

/// Whether `c` can stand in padded standard Base64.
pub open spec fn is_base64(c: char) -> bool {
    ||| 'A' <= c <= 'Z'
    ||| 'a' <= c <= 'z'
    ||| '0' <= c <= '9'
    ||| c == '+'
    ||| c == '/'
    ||| c == '='
}

/// `encode` of the `base64` crate's `STANDARD` engine, on input short enough for the
/// length of the text to be counted. The text holds characters of the alphabet and of
/// the padding only, and decoding it gives the bytes back.
#[verifier::external_body]
pub(crate) fn base64_encode(bytes: &[u8]) -> (r: String)
    requires
        bytes@.len() <= 0x4000_0000,
    ensures
        r@ == base64_encoded(bytes@),
        base64_decoded(r@) == Some(bytes@),
        forall|i: int| 0 <= i < r@.len() ==> is_base64(#[trigger] r@[i]),
{
    base64::engine::general_purpose::STANDARD.encode(bytes)
}

/// URL-safe Base64 without padding.
pub uninterp spec fn base64_url_encoded(bytes: Seq<u8>) -> Seq<char>;

/// `encode` of the `base64` crate's `URL_SAFE_NO_PAD` engine, on input short enough for
/// the length of the text to be counted.
#[verifier::external_body]
pub(crate) fn base64_url_encode(bytes: &[u8]) -> (r: String)
    requires
        bytes@.len() <= 0x4000_0000,
    ensures
        r@ == base64_url_encoded(bytes@),
{
    base64::engine::general_purpose::URL_SAFE_NO_PAD.encode(bytes)
}

/// The lower-case hexadecimal digit of `d`.
pub open spec fn hex_digit(d: u8) -> char {
    if d < 10 {
        (('0' as u8) + d) as char
    } else {
        (('a' as u8) + (d - 10)) as char
    }
}

/// Two lower-case hexadecimal digits per byte.
pub open spec fn hex_text(bytes: Seq<u8>) -> Seq<char> {
    Seq::new(
        2 * bytes.len(),
        |i: int|
            if i % 2 == 0 {
                hex_digit((bytes[i / 2] / 16) as u8)
            } else {
                hex_digit((bytes[i / 2] % 16) as u8)
            },
    )
}

/// `hex::encode`: two lower-case hexadecimal digits per byte, high digit first.
#[verifier::external_body]
pub(crate) fn hex_encode(bytes: &[u8]) -> (r: String)
    ensures
        r@ == hex_text(bytes@),
{
    hex::encode(bytes)
}

/// The public key that belongs to an X25519 secret.
pub uninterp spec fn x25519_public_of(secret: Seq<u8>) -> Seq<u8>;

/// `PublicKey::from` of the `x25519-dalek` crate.
#[verifier::external_body]
pub(crate) fn x25519_public_key(secret: &[u8; 32]) -> (r: [u8; 32])
    ensures
        r@ == x25519_public_of(secret@),
{
    let secret = x25519_dalek::StaticSecret::from(*secret);
    *x25519_dalek::PublicKey::from(&secret).as_bytes()
}

/// `random_from_rng` of the `x25519-dalek` crate's `StaticSecret`, with the `rand` crate's
/// thread-local generator: some secret, of which nothing more is known.
#[verifier::external_body]
pub(crate) fn x25519_secret() -> (r: [u8; 32]) {
    x25519_dalek::StaticSecret::random_from_rng(rand::thread_rng()).to_bytes()
}

/// `fill_bytes` of the `rand` crate's thread-local generator: `n` bytes, of which
/// nothing more is known.
#[verifier::external_body]
pub(crate) fn random_bytes(n: usize) -> (r: Vec<u8>)
    ensures
        r@.len() == n,
{
    let mut v = vec![0u8; n];
    rand::RngCore::fill_bytes(&mut rand::thread_rng(), &mut v);
    v
}

/// `gen_range` of the `rand` crate's thread-local generator: some number from `lo`
/// to `hi`, both of them possible.
#[verifier::external_body]
pub(crate) fn random_between(lo: i64, hi: i64) -> (r: i64)
    requires
        lo <= hi,
    ensures
        lo <= r <= hi,
{
    rand::Rng::gen_range(&mut rand::thread_rng(), lo..=hi)
}

/// The output of SHAKE128, read from the front: the reader of the `sha3` crate.
#[verifier::external_body]
pub struct ShakeOutput {
    reader: sha3::Shake128Reader,
}

/// The bytes that a SHAKE128 reader has still to give.
pub uninterp spec fn shake128_rest(output: ShakeOutput) -> Map<nat, u8>;

/// All the bytes that SHAKE128 gives for a seed.
pub uninterp spec fn shake128_of(seed: Seq<u8>) -> Map<nat, u8>;

/// `Shake128::finalize_xof` of the `sha3` crate after one update with `seed`: a reader
/// with everything still to give.
#[verifier::external_body]
pub(crate) fn shake128(seed: &[u8]) -> (r: ShakeOutput)
    ensures
        shake128_rest(r) == shake128_of(seed@),
{
    let mut h = sha3::Shake128::default();
    sha3::digest::Update::update(&mut h, seed);
    ShakeOutput { reader: sha3::digest::ExtendableOutput::finalize_xof(h) }
}

/// `XofReader::read` of the `sha3` crate, for two bytes: it gives the next two and
/// leaves the ones behind them.
#[verifier::external_body]
pub(crate) fn shake128_next(output: &mut ShakeOutput) -> (r: [u8; 2])
    ensures
        r@[0] == shake128_rest(*old(output))[0],
        r@[1] == shake128_rest(*old(output))[1],
        forall|i: nat| #[trigger]
            shake128_rest(*final(output))[i] == shake128_rest(*old(output))[i + 2],
{
    let mut b = [0u8; 2];
    sha3::digest::XofReader::read(&mut output.reader, &mut b);
    b
}

} // verus!
