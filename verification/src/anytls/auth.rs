//! The first bytes of a connection: `sha256(password)(32) | length(2) | padding`.
use crate::crypto;
use crate::wire::{be_value, copy_range, read_u16, same_bytes, Decoded, DecodedView};
use vstd::prelude::*;
use vstd::utf8::encode_utf8;

verus! {

/// Why a connection is dropped.
#[derive(Debug, Clone, Copy, PartialEq, Eq, Structural)]
pub enum AuthError {
    WrongPassword,
}

/// What clients send in place of the password.
pub open spec fn password_digest(password: Seq<char>) -> Seq<u8> {
    crypto::sha256_of(encode_utf8(password))
}

/// What clients send in place of the password.
pub fn password_hash(password: &str) -> (r: [u8; 32])
    ensures
        r@ == password_digest(password@),
{
    crypto::sha256(password.as_bytes())
}

/// What `buf` says of the authentication at its start: how much padding it has.
pub open spec fn auth_of(digest: Seq<u8>, buf: Seq<u8>) -> DecodedView<u16, AuthError> {
    if buf.len() < 34 {
        DecodedView::More(34)
    } else if buf.subrange(0, 32) != digest {
        DecodedView::Bad(AuthError::WrongPassword)
    } else {
        let n = be_value(buf.subrange(32, 34));
        if buf.len() < 34 + n {
            DecodedView::More(34 + n)
        } else {
            DecodedView::Done(n as u16, 34 + n)
        }
    }
}

/// Reads the authentication at the start of `buf`. The padding behind it is skipped.
pub fn decode_auth(digest: &[u8; 32], buf: &[u8]) -> (r: Decoded<u16, AuthError>)
    ensures
        r@ == auth_of(digest@, buf@),
{
    let have: usize = buf.len();
    if have < 34 {
        return Decoded::More(34);
    }
    let head = copy_range(buf, 0, 32);
    if !same_bytes(head.as_slice(), digest.as_slice()) {
        return Decoded::Bad(AuthError::WrongPassword);
    }
    let n: u16 = read_u16(buf, 32);
    let end: usize = 34 + (n as usize);
    if have < end {
        return Decoded::More(end);
    }
    Decoded::Done(n, end)
}

/// Only the digest of the password lets a client in, and with it a client always gets in.
pub proof fn lemma_auth_needs_password(digest: Seq<u8>, sent: Seq<u8>, padding: Seq<u8>, rest: Seq<u8>)
    requires
        digest.len() == 32,
        sent.len() == 32,
        padding.len() < 0x1_0000,
    ensures
        ({
            let buf = sent + crate::wire::be_bytes(padding.len(), 2) + padding + rest;
            if sent == digest {
                auth_of(digest, buf) == DecodedView::<u16, AuthError>::Done(
                    padding.len() as u16,
                    34 + padding.len(),
                )
            } else {
                auth_of(digest, buf) == DecodedView::<u16, AuthError>::Bad(
                    AuthError::WrongPassword,
                )
            }
        }),
{
    let n = padding.len();
    let field = crate::wire::be_bytes(n, 2);
    let buf = sent + field + padding + rest;
    crate::wire::lemma_be_bytes_len(n, 2);
    crate::wire::lemma_pow256_small();
    crate::wire::lemma_be_value_of_bytes(n, 2);
    assert(buf.subrange(0, 32) =~= sent);
    assert(buf.subrange(32, 34) =~= field);
}

/// The first bytes of a connection, byte by byte: the digest, the length of the padding with
/// its high byte first, and the padding, all of which is waited for.
pub proof fn lemma_auth_layout(digest: Seq<u8>, padding: Seq<u8>, rest: Seq<u8>, k: int)
    requires
        digest.len() == 32,
        padding.len() < 0x1_0000,
        0 <= k < 34 + padding.len(),
    ensures
        ({
            let head = digest + seq![(padding.len() / 256) as u8, (padding.len() % 256) as u8]
                + padding;
            &&& auth_of(digest, head + rest) == DecodedView::<u16, AuthError>::Done(
                padding.len() as u16,
                34 + padding.len(),
            )
            &&& auth_of(digest, head.take(k)) matches DecodedView::More(n) && k < n <= 34
                + padding.len()
        }),
{
    let field = seq![(padding.len() / 256) as u8, (padding.len() % 256) as u8];
    let head = digest + field + padding;
    crate::wire::lemma_be_pair(padding.len());
    assert((head + rest).subrange(0, 32) =~= digest);
    assert((head + rest).subrange(32, 34) =~= field);
    if k >= 34 {
        assert(head.take(k).subrange(0, 32) =~= digest);
        assert(head.take(k).subrange(32, 34) =~= field);
    }
}

} // verus!
