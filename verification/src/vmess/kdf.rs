//! Key derivation: HMAC-SHA256 nested once per salt of a path.
use crate::crypto::{hmac_sha256, md5, sha256};
use crate::crypto::{hmac_sha256_of, md5_of, sha256_of};
use crate::wire::push_slice;
use vstd::prelude::*;
use vstd::utf8::encode_utf8;

verus! {

/// The length to which every salt is brought.
pub const BLOCK: usize = 64;

/// The key of the innermost HMAC.
pub open spec fn kdf_root() -> Seq<u8> {
    encode_utf8("VMess AEAD KDF"@)
}

/// The first 64 bytes of `salt`, filled up with zeros.
pub open spec fn padded_salt(salt: Seq<u8>) -> Seq<u8> {
    Seq::new(64, |i: int| if i < salt.len() { salt[i] } else { 0u8 })
}

/// Every byte of `s` combined with `mask`.
pub open spec fn masked(s: Seq<u8>, mask: u8) -> Seq<u8> {
    Seq::new(s.len(), |i: int| s[i] ^ mask)
}

/// The contents of the salts of a path.
pub open spec fn salts(path: Seq<&[u8]>) -> Seq<Seq<u8>> {
    path.map_values(|s: &[u8]| s@)
}

/// HMAC-SHA256 under the root key, made into a new HMAC by each salt in turn:
/// `f(salt ^ 0x5c.. || f(salt ^ 0x36.. || msg))` where `f` is the function one salt
/// shorter.
pub open spec fn kdf_of(path: Seq<Seq<u8>>, msg: Seq<u8>) -> Seq<u8>
    decreases path.len(),
{
    if path.len() == 0 {
        hmac_sha256_of(kdf_root(), msg)
    } else {
        let salt = padded_salt(path.last());
        let inner = kdf_of(path.drop_last(), masked(salt, 0x36) + msg);
        kdf_of(path.drop_last(), masked(salt, 0x5c) + inner)
    }
}

/// `salt` brought to 64 bytes, combined with `mask`, and followed by `msg`.
fn keyed_block(salt: &[u8], mask: u8, msg: &[u8]) -> (r: Vec<u8>)
    ensures
        r@ == masked(padded_salt(salt@), mask) + msg@,
{
    let mut v: Vec<u8> = Vec::new();
    let mut i: usize = 0;
    while i < BLOCK
        invariant
            i <= 64,
            v@ == masked(padded_salt(salt@), mask).subrange(0, i as int),
        decreases 64 - i,
    {
        let b: u8 = if i < salt.len() {
            salt[i]
        } else {
            0
        };
        v.push(b ^ mask);
        i = i + 1;
        assert(v@ =~= masked(padded_salt(salt@), mask).subrange(0, i as int));
    }
    assert(masked(padded_salt(salt@), mask).subrange(0, 64) =~= masked(padded_salt(salt@), mask));
    push_slice(&mut v, msg);
    v
}

/// The derivation along the first `n` salts of `path`.
fn kdf_level(path: &[&[u8]], n: usize, msg: &[u8]) -> (r: [u8; 32])
    requires
        n <= path@.len(),
    ensures
        r@ == kdf_of(salts(path@).subrange(0, n as int), msg@),
    decreases n,
{
    let ghost levels = salts(path@).subrange(0, n as int);
    if n == 0 {
        hmac_sha256("VMess AEAD KDF".as_bytes(), msg)
    } else {
        let salt = path[n - 1];
        assert(levels.drop_last() =~= salts(path@).subrange(0, n - 1));
        let inner_msg = keyed_block(salt, 0x36, msg);
        let inner = kdf_level(path, n - 1, inner_msg.as_slice());
        let outer_msg = keyed_block(salt, 0x5c, inner.as_slice());
        kdf_level(path, n - 1, outer_msg.as_slice())
    }
}

/// Derives 32 bytes from `key` along `path`.
pub fn vmess_kdf(key: &[u8], path: &[&[u8]]) -> (r: [u8; 32])
    ensures
        r@ == kdf_of(salts(path@), key@),
{
    assert(salts(path@).subrange(0, path@.len() as int) =~= salts(path@));
    kdf_level(path, path.len(), key)
}

/// The first 16 bytes of a 32-byte value.
pub fn first16(v: &[u8; 32]) -> (r: [u8; 16])
    ensures
        r@ == v@.subrange(0, 16),
{
    let mut out: [u8; 16] = [0; 16];
    let mut i: usize = 0;
    while i < 16
        invariant
            i <= 16,
            forall|k: int| 0 <= k < i ==> out@[k] == v@[k],
        decreases 16 - i,
    {
        out[i] = v[i];
        i = i + 1;
    }
    assert(out@ =~= v@.subrange(0, 16));
    out
}

/// The first 12 bytes of a 32-byte value.
pub fn first12(v: &[u8; 32]) -> (r: [u8; 12])
    ensures
        r@ == v@.subrange(0, 12),
{
    let mut out: [u8; 12] = [0; 12];
    let mut i: usize = 0;
    while i < 12
        invariant
            i <= 12,
            forall|k: int| 0 <= k < i ==> out@[k] == v@[k],
        decreases 12 - i,
    {
        out[i] = v[i];
        i = i + 1;
    }
    assert(out@ =~= v@.subrange(0, 12));
    out
}

/// Sixteen derived bytes: a key.
pub fn kdf16(key: &[u8], path: &[&[u8]]) -> (r: [u8; 16])
    ensures
        r@ == kdf_of(salts(path@), key@).subrange(0, 16),
{
    first16(&vmess_kdf(key, path))
}

/// Twelve derived bytes: a nonce.
pub fn kdf12(key: &[u8], path: &[&[u8]]) -> (r: [u8; 12])
    ensures
        r@ == kdf_of(salts(path@), key@).subrange(0, 12),
{
    first12(&vmess_kdf(key, path))
}

/// The first half of the SHA-256 digest of `b`.
pub fn sha256_16(b: &[u8; 16]) -> (r: [u8; 16])
    ensures
        r@ == sha256_of(b@).subrange(0, 16),
{
    first16(&sha256(b.as_slice()))
}

/// The text that is hashed behind a user's identifier.
pub open spec fn cmd_key_suffix() -> Seq<u8> {
    encode_utf8("c48619fe-8f02-49e0-b9e9-edf763e17e21"@)
}

/// The key that belongs to a user's identifier.
pub fn vmess_cmd_key(uuid: &[u8; 16]) -> (r: [u8; 16])
    ensures
        r@ == md5_of(uuid@ + cmd_key_suffix()),
{
    let mut v: Vec<u8> = Vec::new();
    push_slice(&mut v, uuid.as_slice());
    push_slice(&mut v, "c48619fe-8f02-49e0-b9e9-edf763e17e21".as_bytes());
    assert(v@ =~= uuid@ + cmd_key_suffix());
    md5(v.as_slice())
}

/// The ChaCha20 key that belongs to a body key: its MD5 digest, and the digest of that.
pub open spec fn chacha_key_of(key: Seq<u8>) -> Seq<u8> {
    md5_of(key) + md5_of(md5_of(key))
}

/// Stretches a body key to the 32 bytes that ChaCha20 takes.
pub fn chacha_key(key: &[u8; 16]) -> (r: [u8; 32])
    ensures
        r@ == chacha_key_of(key@),
{
    let h1 = md5(key.as_slice());
    let h2 = md5(h1.as_slice());
    let mut out: [u8; 32] = [0; 32];
    let mut i: usize = 0;
    while i < 16
        invariant
            i <= 16,
            forall|k: int| 0 <= k < i ==> out@[k] == h1@[k] && out@[16 + k] == h2@[k],
        decreases 16 - i,
    {
        out[i] = h1[i];
        out[16 + i] = h2[i];
        i = i + 1;
    }
    assert(out@ =~= h1@ + h2@);
    out
}

/// One step of FNV-1a over 32 bits.
pub open spec fn fnv1a32_step(h: u32, b: u8) -> u32 {
    (((h ^ (b as u32)) as nat * 16777619) % 0x1_0000_0000) as u32
}

/// The 32-bit FNV-1a hash.
pub open spec fn fnv1a32_of(data: Seq<u8>) -> u32
    decreases data.len(),
{
    if data.len() == 0 {
        2166136261
    } else {
        fnv1a32_step(fnv1a32_of(data.drop_last()), data.last())
    }
}

/// The 32-bit FNV-1a hash of `data`.
pub fn fnv1a32(data: &[u8]) -> (r: u32)
    ensures
        r == fnv1a32_of(data@),
{
    let mut h: u32 = 2166136261;
    let mut i: usize = 0;
    while i < data.len()
        invariant
            i <= data@.len(),
            h == fnv1a32_of(data@.subrange(0, i as int)),
        decreases data@.len() - i,
    {
        let mixed: u32 = h ^ (data[i] as u32);
        h = ((mixed as u64) * 16777619 % 0x1_0000_0000) as u32;
        i = i + 1;
        assert(data@.subrange(0, i as int).drop_last() =~= data@.subrange(0, i - 1));
    }
    assert(data@.subrange(0, data@.len() as int) =~= data@);
    h
}

/// The derivation along no salt is HMAC-SHA256 under the root text; one salt more wraps it
/// twice, in the way in which HMAC wraps a digest. A salt of at most 64 bytes counts whole.
pub proof fn lemma_kdf_steps(path: Seq<Seq<u8>>, salt: Seq<u8>, msg: Seq<u8>)
    requires
        salt.len() <= 64,
    ensures
        kdf_of(Seq::empty(), msg) == hmac_sha256_of(encode_utf8("VMess AEAD KDF"@), msg),
        ({
            let block = salt + Seq::new((64 - salt.len()) as nat, |i: int| 0u8);
            let ipad = Seq::new(64, |i: int| block[i] ^ 0x36);
            let opad = Seq::new(64, |i: int| block[i] ^ 0x5c);
            kdf_of(path.push(salt), msg) == kdf_of(path, opad + kdf_of(path, ipad + msg))
        }),
{
    let block = salt + Seq::new((64 - salt.len()) as nat, |i: int| 0u8);
    assert(path.push(salt).drop_last() =~= path);
    assert(padded_salt(salt) =~= block);
    assert(masked(padded_salt(salt), 0x36) =~= Seq::new(64, |i: int| block[i] ^ 0x36));
    assert(masked(padded_salt(salt), 0x5c) =~= Seq::new(64, |i: int| block[i] ^ 0x5c));
}

/// FNV-1a from its offset basis, byte by byte: combined, then multiplied by the prime.
pub proof fn lemma_fnv1a_steps(data: Seq<u8>, b: u8)
    ensures
        fnv1a32_of(Seq::empty()) == 0x811c_9dc5,
        fnv1a32_of(data.push(b)) == ((fnv1a32_of(data) ^ (b as u32)) as nat * 0x0100_0193)
            % 0x1_0000_0000,
{
    assert(data.push(b).drop_last() =~= data);
}

} // verus!
