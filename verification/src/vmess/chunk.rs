//! The chunked body.
//!
//! A chunk is `size | payload | padding`, where `size` counts payload and padding. The
//! size is masked with the output of SHAKE128, or sealed, or plain; the payload is sealed
//! or plain. The length of the padding comes from the same SHAKE128 output, ahead of the
//! mask of the size.
use crate::crypto;
use crate::crypto::ShakeOutput;
use crate::vmess::kdf::{chacha_key, chacha_key_of, kdf16, kdf_of};
use crate::wire::{be_bytes, be_value, Decoded, DecodedView};
use crate::wire::{copy_range, push_slice, push_u16, read_u16};
use vstd::prelude::*;
use vstd::utf8::encode_utf8;

verus! {

pub const OPT_CHUNK_STREAM: u8 = 0x01;

pub const OPT_CHUNK_MASKING: u8 = 0x04;

pub const OPT_GLOBAL_PADDING: u8 = 0x08;

pub const OPT_AUTH_LEN: u8 = 0x10;

pub const SEC_NONE: u8 = 0x00;

pub const SEC_AES128_GCM: u8 = 0x03;

pub const SEC_CHACHA20: u8 = 0x04;

/// The client leaves the choice to the server, which takes AES-128-GCM.
pub const SEC_AUTO: u8 = 0x05;

/// The longest payload that is put into one chunk.
pub const CHUNK_SIZE: usize = 8192;

/// Why a chunk is refused.
#[derive(Debug, Clone, Copy, PartialEq, Eq, Structural)]
pub enum ChunkError {
    /// The sealed size does not open.
    SizeTag,
    /// A sealed payload shorter than its tag.
    TooSmall(usize),
    /// The sealed payload does not open.
    PayloadTag,
    /// A payload protection that is not known.
    Unsupported(u8),
}

/// The keys and options of one direction of a body.
#[derive(Debug, Clone, Copy)]
pub struct BodyCipher {
    pub key: [u8; 16],
    pub iv: [u8; 16],
    pub opt: u8,
    pub sec: u8,
}

impl BodyCipher {
    pub open spec fn masking(&self) -> bool {
        self.opt & OPT_CHUNK_MASKING != 0
    }

    pub open spec fn padding(&self) -> bool {
        self.opt & OPT_GLOBAL_PADDING != 0
    }

    pub open spec fn auth_len(&self) -> bool {
        self.opt & OPT_AUTH_LEN != 0
    }

    pub open spec fn sec_aes(&self) -> bool {
        self.sec == SEC_AES128_GCM || self.sec == SEC_AUTO
    }

    /// Whether the payload protection is one that is known.
    pub open spec fn supported(&self) -> bool {
        self.sec == SEC_NONE || self.sec_aes() || self.sec == SEC_CHACHA20
    }

    /// The key of sealed sizes.
    pub open spec fn auth_len_key(&self) -> Seq<u8> {
        kdf_of(seq![encode_utf8("auth_len"@)], self.key@).subrange(0, 16)
    }

    /// Whether the body is not chunked at all: no protection, and no chunks asked for.
    pub fn passes_through(&self) -> (r: bool)
        ensures
            r == (self.sec == SEC_NONE && self.opt & OPT_CHUNK_STREAM == 0),
    {
        self.sec == SEC_NONE && self.opt & OPT_CHUNK_STREAM == 0
    }
}

/// Where in a body a chunk stands: how many nonces are used up, and the SHAKE128 words to
/// come.
#[verifier::ext_equal]
pub struct BodyPos {
    pub count: nat,
    pub words: Map<nat, u16>,
}

/// The `i`-th pair of bytes as a big-endian number.
pub open spec fn word_at(bytes: Map<nat, u8>, i: nat) -> u16 {
    (bytes[2 * i] * 256 + bytes[2 * i + 1]) as u16
}

/// All the words in `bytes`.
pub open spec fn words_of(bytes: Map<nat, u8>) -> Map<nat, u16> {
    Map::new(|i: nat| true, |i: nat| word_at(bytes, i))
}

/// `words` without the first `n`.
pub open spec fn words_after(words: Map<nat, u16>, n: nat) -> Map<nat, u16> {
    Map::new(|i: nat| true, |i: nat| words[i + n])
}

impl BodyPos {
    /// The position after `nonces` more nonces and `draws` more words.
    pub open spec fn advanced(&self, nonces: nat, draws: nat) -> BodyPos {
        BodyPos { count: (self.count + nonces) % 0x1_0000, words: words_after(self.words, draws) }
    }
}

/// How a body starts.
pub open spec fn start_of(c: BodyCipher) -> BodyPos {
    BodyPos { count: 0, words: words_of(crypto::shake128_of(c.iv@)) }
}

/// The nonce of chunk `count`: the count in two bytes, then bytes 2 to 11 of the vector.
pub open spec fn chunk_nonce_of(iv: Seq<u8>, count: nat) -> Seq<u8> {
    be_bytes(count, 2) + iv.subrange(2, 12)
}

/// The nonce of chunk `count`.
pub fn chunk_nonce(iv: &[u8; 16], count: u16) -> (r: [u8; 12])
    ensures
        r@ == chunk_nonce_of(iv@, count as nat),
{
    let r: [u8; 12] = [
        (count / 256) as u8,
        (count % 256) as u8,
        iv[2],
        iv[3],
        iv[4],
        iv[5],
        iv[6],
        iv[7],
        iv[8],
        iv[9],
        iv[10],
        iv[11],
    ];
    proof {
        reveal_with_fuel(be_bytes, 3);
        assert(r@ =~= chunk_nonce_of(iv@, count as nat));
    }
    r
}

/// How many words go into the padding length.
pub open spec fn padding_draws(c: BodyCipher) -> nat {
    if c.padding() && c.masking() {
        1
    } else {
        0
    }
}

/// How many words go into the size.
pub open spec fn size_draws(c: BodyCipher) -> nat {
    if c.masking() && !c.auth_len() {
        1
    } else {
        0
    }
}

/// How many nonces go into the size.
pub open spec fn size_nonces(c: BodyCipher) -> nat {
    if c.auth_len() {
        1
    } else {
        0
    }
}

/// The length of the padding: below 64, and 0 without masking.
pub open spec fn padding_len(c: BodyCipher, pos: BodyPos) -> nat {
    if padding_draws(c) == 1 {
        (pos.words[0] % 64) as nat
    } else {
        0
    }
}

/// The length of the size field.
pub open spec fn size_field_len(c: BodyCipher) -> nat {
    if c.auth_len() {
        18
    } else {
        2
    }
}

/// The mask of the size.
pub open spec fn size_mask(c: BodyCipher, pos: BodyPos) -> u16 {
    if size_draws(c) == 1 {
        pos.words[padding_draws(c)]
    } else {
        0
    }
}

/// The size in a size field.
pub open spec fn opened_size(c: BodyCipher, pos: BodyPos, field: Seq<u8>) -> Option<nat> {
    if c.auth_len() {
        match crypto::aes128_gcm_opened(
            c.auth_len_key(),
            chunk_nonce_of(c.iv@, pos.count),
            Seq::empty(),
            field,
        ) {
            Some(plain) => Some(be_value(plain)),
            None => None,
        }
    } else {
        Some(((be_value(field) as u16) ^ size_mask(c, pos)) as nat)
    }
}

/// The payload in its protected form.
pub open spec fn opened_payload(c: BodyCipher, count: nat, ct: Seq<u8>) -> Option<Seq<u8>> {
    let nonce = chunk_nonce_of(c.iv@, count);
    if c.sec == SEC_NONE {
        Some(ct)
    } else if c.sec_aes() {
        crypto::aes128_gcm_opened(c.key@, nonce, Seq::empty(), ct)
    } else {
        crypto::chacha20_poly1305_opened(chacha_key_of(c.key@), nonce, Seq::empty(), ct)
    }
}

/// The protected form of a payload.
pub open spec fn sealed_payload(c: BodyCipher, count: nat, plain: Seq<u8>) -> Seq<u8> {
    let nonce = chunk_nonce_of(c.iv@, count);
    if c.sec == SEC_NONE {
        plain
    } else if c.sec_aes() {
        crypto::aes128_gcm_sealed(c.key@, nonce, Seq::empty(), plain)
    } else {
        crypto::chacha20_poly1305_sealed(chacha_key_of(c.key@), nonce, Seq::empty(), plain)
    }
}

/// A chunk as it is read.
pub enum Chunk {
    /// Some payload.
    Data(Vec<u8>),
    /// The end of the body.
    End,
}

/// The mathematical counterpart of [`Chunk`].
pub enum ChunkView {
    Data(Seq<u8>),
    End,
}

impl View for Chunk {
    type V = ChunkView;

    open spec fn view(&self) -> ChunkView {
        match *self {
            Chunk::Data(d) => ChunkView::Data(d@),
            Chunk::End => ChunkView::End,
        }
    }
}

/// A payload, where an empty one ends the body.
pub open spec fn payload_chunk(plain: Seq<u8>) -> ChunkView {
    if plain.len() == 0 {
        ChunkView::End
    } else {
        ChunkView::Data(plain)
    }
}

/// The position behind the size of a chunk that is read.
pub open spec fn after_size(c: BodyCipher, pos: BodyPos) -> BodyPos {
    pos.advanced(size_nonces(c), padding_draws(c) + size_draws(c))
}

/// What `buf` says of the chunk at its start, and the position behind it. Where there is
/// no complete chunk yet the position stays.
pub open spec fn chunk_of(c: BodyCipher, pos: BodyPos, buf: Seq<u8>) -> (
    DecodedView<ChunkView, ChunkError>,
    BodyPos,
) {
    let n = size_field_len(c) as int;
    let pad = padding_len(c, pos);
    if buf.len() < n {
        (DecodedView::More(n as nat), pos)
    } else {
        match opened_size(c, pos, buf.take(n)) {
            None => (DecodedView::Bad(ChunkError::SizeTag), pos),
            Some(total) => {
                let len = if total > pad {
                    total - pad
                } else {
                    0
                };
                let mid = after_size(c, pos);
                if len == 0 {
                    (DecodedView::Done(ChunkView::End, n as nat), mid)
                } else if !c.supported() {
                    (DecodedView::Bad(ChunkError::Unsupported(c.sec)), pos)
                } else if c.sec != SEC_NONE && len < 16 {
                    (DecodedView::Bad(ChunkError::TooSmall(len as usize)), pos)
                } else if buf.len() < n + len {
                    (DecodedView::More((n + len) as nat), pos)
                } else {
                    match opened_payload(c, mid.count, buf.subrange(n, n + len)) {
                        None => (DecodedView::Bad(ChunkError::PayloadTag), pos),
                        Some(plain) => if buf.len() < n + len + pad {
                            (DecodedView::More((n + len + pad) as nat), pos)
                        } else {
                            (
                                DecodedView::Done(payload_chunk(plain), (n + len + pad) as nat),
                                mid.advanced(1, 0),
                            )
                        },
                    }
                }
            },
        }
    }
}

/// The size field of a chunk that is written.
pub open spec fn sealed_size(c: BodyCipher, pos: BodyPos, total: nat) -> Seq<u8> {
    if c.auth_len() {
        crypto::aes128_gcm_sealed(
            c.auth_len_key(),
            chunk_nonce_of(c.iv@, pos.count),
            Seq::empty(),
            be_bytes(total, 2),
        )
    } else {
        be_bytes(((total as u16) ^ size_mask(c, pos)) as nat, 2)
    }
}

/// A chunk that is written: where the size is sealed, the payload takes the nonce behind
/// that of the size.
pub open spec fn chunk_bytes(
    c: BodyCipher,
    pos: BodyPos,
    plain: Seq<u8>,
    pad: Seq<u8>,
) -> Seq<u8> {
    let ct = sealed_payload(c, (pos.count + size_nonces(c)) % 0x1_0000, plain);
    sealed_size(c, pos, ct.len() + pad.len()) + ct + pad
}

/// The position behind a chunk that is written.
pub open spec fn after_written(c: BodyCipher, pos: BodyPos) -> BodyPos {
    pos.advanced(1 + size_nonces(c), padding_draws(c) + size_draws(c))
}

/// SHAKE128 output in words, some of which are already fetched.
pub struct WordStream {
    output: ShakeOutput,
    ahead: Vec<u16>,
}

impl WordStream {
    /// The words to come.
    pub closed spec fn words(&self) -> Map<nat, u16> {
        Map::new(
            |i: nat| true,
            |i: nat|
                if i < self.ahead@.len() {
                    self.ahead@[i as int]
                } else {
                    word_at(crypto::shake128_rest(self.output), (i - self.ahead@.len()) as nat)
                },
        )
    }

    /// The output for `seed`.
    pub fn new(seed: &[u8]) -> (r: Self)
        ensures
            r.words() == words_of(crypto::shake128_of(seed@)),
    {
        let r = WordStream { output: crypto::shake128(seed), ahead: Vec::new() };
        assert(r.words() =~= words_of(crypto::shake128_of(seed@)));
        r
    }

    /// Fetches one more word.
    fn fetch(&mut self)
        ensures
            final(self).words() == old(self).words(),
            final(self).ahead@.len() == old(self).ahead@.len() + 1,
    {
        let ghost before = self.words();
        let ghost rest = crypto::shake128_rest(self.output);
        let ghost n = self.ahead@.len();
        let b: [u8; 2] = crypto::shake128_next(&mut self.output);
        let word: u16 = (b[0] as u16) * 256 + (b[1] as u16);
        assert(word == word_at(rest, 0));
        self.ahead.push(word);
        proof {
            let later = crypto::shake128_rest(self.output);
            assert forall|i: nat| #[trigger] word_at(later, i) == word_at(rest, i + 1) by {
                assert(later[2 * i] == rest[2 * i + 2]);
                assert(later[2 * i + 1] == rest[2 * i + 1 + 2]);
                assert(2 * (i + 1) == 2 * i + 2);
                assert(2 * (i + 1) + 1 == 2 * i + 1 + 2);
            }
            assert forall|i: nat| self.words()[i] == before[i] by {
                if i > n {
                    assert(word_at(later, (i - n - 1) as nat) == word_at(rest, (i - n) as nat));
                }
            }
            assert(self.words() =~= before);
        }
    }

    /// Word `i`, which stays to come.
    pub fn peek(&mut self, i: usize) -> (r: u16)
        requires
            i < 2,
        ensures
            r == old(self).words()[i as nat],
            final(self).words() == old(self).words(),
    {
        let ghost before = self.words();
        while self.ahead.len() <= i
            invariant
                self.words() == before,
                i < 2,
            decreases 2 - self.ahead@.len(),
        {
            self.fetch();
        }
        self.ahead[i]
    }

    /// Takes `n` words off the front.
    pub fn advance(&mut self, n: usize)
        requires
            n <= 2,
        ensures
            final(self).words() == words_after(old(self).words(), n as nat),
    {
        let ghost before = self.words();
        while self.ahead.len() < n
            invariant
                self.words() == before,
                n <= 2,
            decreases 2 - self.ahead@.len(),
        {
            self.fetch();
        }
        let ghost held = self.ahead@;
        let mut kept: Vec<u16> = Vec::new();
        let mut i: usize = n;
        while i < self.ahead.len()
            invariant
                n <= i <= held.len(),
                self.ahead@ == held,
                self.words() == before,
                kept@ == held.subrange(n as int, i as int),
            decreases held.len() - i,
        {
            kept.push(self.ahead[i]);
            i = i + 1;
            assert(kept@ =~= held.subrange(n as int, i as int));
        }
        self.ahead = kept;
        assert(self.words() =~= words_after(before, n as nat));
    }
}

/// One direction of a body, at some position.
pub struct BodyStream {
    cipher: BodyCipher,
    words: WordStream,
    count: u16,
}

impl BodyStream {
    /// The keys and options.
    pub closed spec fn params(&self) -> BodyCipher {
        self.cipher
    }

    /// The position.
    pub closed spec fn pos(&self) -> BodyPos {
        BodyPos { count: self.count as nat, words: self.words.words() }
    }

    /// A body from its start.
    pub fn new(cipher: BodyCipher) -> (r: Self)
        ensures
            r.params() == cipher,
            r.pos() == start_of(cipher),
    {
        BodyStream { cipher, words: WordStream::new(cipher.iv.as_slice()), count: 0 }
    }

    /// Moves the position on.
    fn step(&mut self, nonces: u16, draws: usize)
        requires
            draws <= 2,
        ensures
            final(self).params() == old(self).params(),
            final(self).pos() == old(self).pos().advanced(nonces as nat, draws as nat),
    {
        self.words.advance(draws);
        self.count = ((self.count as u32 + nonces as u32) % 0x1_0000) as u16;
        assert(self.pos() =~= old(self).pos().advanced(nonces as nat, draws as nat));
    }

    /// The length of the padding of the next chunk.
    pub fn next_padding(&mut self) -> (r: usize)
        ensures
            r == padding_len(old(self).params(), old(self).pos()),
            r < 64,
            final(self).params() == old(self).params(),
            final(self).pos() == old(self).pos(),
            forall|k: nat|
                old(self).pos() == #[trigger] position(old(self).params(), k) && old(
                    self,
                ).params().opt & 0x1c == 0x0c ==> r == (crypto::shake128_of(
                    old(self).params().iv@,
                )[4 * k] * 256 + crypto::shake128_of(old(self).params().iv@)[4 * k + 1]) % 64,
    {
        proof {
            let c = self.cipher;
            let s = crypto::shake128_of(c.iv@);
            assert forall|k: nat|
                self.pos() == #[trigger] position(c, k) && c.opt & 0x1c == 0x0c implies padding_len(
                c,
                self.pos(),
            ) == (s[4 * k] * 256 + s[4 * k + 1]) % 64 by {
                let opt = c.opt;
                assert(opt & 0x04 != 0 && opt & 0x08 != 0 && opt & 0x10 == 0) by (bit_vector)
                    requires
                        opt & 0x1c == 0x0c,
                ;
                lemma_drawn_words(c, k);
            }
        }
        if self.cipher.opt & OPT_GLOBAL_PADDING != 0 && self.cipher.opt & OPT_CHUNK_MASKING != 0 {
            let w: u16 = self.words.peek(0);
            (w % 64) as usize
        } else {
            0
        }
    }

    /// The mask of the next size.
    fn next_mask(&mut self) -> (r: u16)
        ensures
            r == size_mask(old(self).params(), old(self).pos()),
            final(self).params() == old(self).params(),
            final(self).pos() == old(self).pos(),
    {
        let opt: u8 = self.cipher.opt;
        if opt & OPT_CHUNK_MASKING != 0 && opt & OPT_AUTH_LEN == 0 {
            if opt & OPT_GLOBAL_PADDING != 0 {
                self.words.peek(1)
            } else {
                self.words.peek(0)
            }
        } else {
            0
        }
    }

    /// How many words one chunk uses up.
    fn draws(&self) -> (r: usize)
        ensures
            r == padding_draws(self.params()) + size_draws(self.params()),
            r <= 2,
    {
        let opt: u8 = self.cipher.opt;
        let masking = opt & OPT_CHUNK_MASKING != 0;
        let pad: usize = if masking && opt & OPT_GLOBAL_PADDING != 0 {
            1
        } else {
            0
        };
        let size: usize = if masking && opt & OPT_AUTH_LEN == 0 {
            1
        } else {
            0
        };
        pad + size
    }

    /// The key of sealed sizes.
    fn len_key(&self) -> (r: [u8; 16])
        ensures
            r@ == self.params().auth_len_key(),
    {
        let label = "auth_len".as_bytes();
        let path: [&[u8]; 1] = [label];
        assert(crate::vmess::kdf::salts(path@) =~= seq![encode_utf8("auth_len"@)]);
        kdf16(self.cipher.key.as_slice(), path.as_slice())
    }

    /// The size in a size field.
    fn open_size(&mut self, field: &[u8]) -> (r: Option<u16>)
        requires
            field@.len() == size_field_len(old(self).params()),
        ensures
            match r {
                Some(n) => opened_size(old(self).params(), old(self).pos(), field@) == Some(
                    n as nat,
                ),
                None => opened_size(old(self).params(), old(self).pos(), field@) is None,
            },
            final(self).params() == old(self).params(),
            final(self).pos() == old(self).pos(),
    {
        if self.cipher.opt & OPT_AUTH_LEN != 0 {
            let nonce = chunk_nonce(&self.cipher.iv, self.count);
            let key = self.len_key();
            let none: [u8; 0] = [];
            assert(none@ =~= Seq::<u8>::empty());
            match crypto::aes128_gcm_decrypt(key.as_slice(), &nonce, none.as_slice(), field) {
                Some(plain) => {
                    assert(plain@.subrange(0, 2) =~= plain@);
                    Some(read_u16(plain.as_slice(), 0))
                },
                None => None,
            }
        } else {
            assert(field@.subrange(0, 2) =~= field@);
            let raw: u16 = read_u16(field, 0);
            let mask: u16 = self.next_mask();
            Some(raw ^ mask)
        }
    }

    /// The payload in its protected form.
    fn open_payload(&self, count: u16, ct: &[u8]) -> (r: Option<Vec<u8>>)
        requires
            self.params().supported(),
            ct@.len() < 0x1_0000,
        ensures
            match r {
                Some(p) => opened_payload(self.params(), count as nat, ct@) == Some(p@),
                None => opened_payload(self.params(), count as nat, ct@) is None,
            },
    {
        let nonce = chunk_nonce(&self.cipher.iv, count);
        let none: [u8; 0] = [];
        assert(none@ =~= Seq::<u8>::empty());
        if self.cipher.sec == SEC_NONE {
            let r = copy_range(ct, 0, ct.len());
            assert(r@ =~= ct@);
            Some(r)
        } else if self.cipher.sec == SEC_AES128_GCM || self.cipher.sec == SEC_AUTO {
            crypto::aes128_gcm_decrypt(self.cipher.key.as_slice(), &nonce, none.as_slice(), ct)
        } else {
            let key = chacha_key(&self.cipher.key);
            crypto::chacha20_poly1305_decrypt(key.as_slice(), &nonce, none.as_slice(), ct)
        }
    }

    /// Reads the chunk at the start of `buf`. Only a complete chunk moves the position on.
    pub fn decode_chunk(&mut self, buf: &[u8]) -> (r: Decoded<Chunk, ChunkError>)
        ensures
            final(self).params() == old(self).params(),
            (r@, final(self).pos()) == chunk_of(old(self).params(), old(self).pos(), buf@),
    {
        let have: usize = buf.len();
        let auth_len = self.cipher.opt & OPT_AUTH_LEN != 0;
        let n: usize = if auth_len {
            18
        } else {
            2
        };
        let pad: usize = self.next_padding();
        if have < n {
            return Decoded::More(n);
        }
        let field = copy_range(buf, 0, n);
        assert(field@ =~= buf@.take(n as int));
        let total: usize = match self.open_size(field.as_slice()) {
            Some(t) => t as usize,
            None => {
                return Decoded::Bad(ChunkError::SizeTag);
            },
        };
        let len: usize = if total > pad {
            total - pad
        } else {
            0
        };
        let nonces: u16 = if auth_len {
            1
        } else {
            0
        };
        let draws: usize = self.draws();
        if len == 0 {
            self.step(nonces, draws);
            return Decoded::Done(Chunk::End, n);
        }
        let sec: u8 = self.cipher.sec;
        if !(sec == SEC_NONE || sec == SEC_AES128_GCM || sec == SEC_AUTO || sec == SEC_CHACHA20) {
            return Decoded::Bad(ChunkError::Unsupported(sec));
        }
        if sec != SEC_NONE && len < 16 {
            return Decoded::Bad(ChunkError::TooSmall(len));
        }
        if have < n + len {
            return Decoded::More(n + len);
        }
        let ct = copy_range(buf, n, n + len);
        let count: u16 = ((self.count as u32 + nonces as u32) % 0x1_0000) as u16;
        match self.open_payload(count, ct.as_slice()) {
            None => Decoded::Bad(ChunkError::PayloadTag),
            Some(plain) => {
                if have < n + len + pad {
                    return Decoded::More(n + len + pad);
                }
                let ghost mid = after_size(self.params(), self.pos());
                let ghost before = self.pos();
                self.step(nonces + 1, draws);
                assert(before.advanced(
                    (nonces + 1) as nat,
                    draws as nat,
                ) =~= mid.advanced(1, 0)) by {
                    assert(words_after(mid.words, 0) =~= mid.words);
                }
                if plain.len() == 0 {
                    Decoded::Done(Chunk::End, n + len + pad)
                } else {
                    Decoded::Done(Chunk::Data(plain), n + len + pad)
                }
            },
        }
    }

    /// The protected form of a payload. It can be opened again.
    fn seal_payload(&self, count: u16, plain: &[u8]) -> (r: Vec<u8>)
        requires
            self.params().supported(),
            plain@.len() <= CHUNK_SIZE,
        ensures
            r@ == sealed_payload(self.params(), count as nat, plain@),
            opened_payload(self.params(), count as nat, r@) == Some(plain@),
            r@.len() == plain@.len() + (if self.params().sec == SEC_NONE {
                0int
            } else {
                16int
            }),
    {
        let nonce = chunk_nonce(&self.cipher.iv, count);
        let none: [u8; 0] = [];
        assert(none@ =~= Seq::<u8>::empty());
        let sealed: Option<Vec<u8>> = if self.cipher.sec == SEC_NONE {
            let r = copy_range(plain, 0, plain.len());
            assert(r@ =~= plain@);
            Some(r)
        } else if self.cipher.sec == SEC_AES128_GCM || self.cipher.sec == SEC_AUTO {
            crypto::aes128_gcm_encrypt(self.cipher.key.as_slice(), &nonce, none.as_slice(), plain)
        } else {
            let key = chacha_key(&self.cipher.key);
            crypto::chacha20_poly1305_encrypt(key.as_slice(), &nonce, none.as_slice(), plain)
        };
        sealed.unwrap()
    }

    /// The size field for a payload and padding of `total` bytes. It can be opened again.
    fn seal_size(&mut self, total: u16) -> (r: Vec<u8>)
        ensures
            r@ == sealed_size(old(self).params(), old(self).pos(), total as nat),
            r@.len() == size_field_len(old(self).params()),
            opened_size(old(self).params(), old(self).pos(), r@) == Some(total as nat),
            final(self).params() == old(self).params(),
            final(self).pos() == old(self).pos(),
    {
        let mut out: Vec<u8> = Vec::new();
        if self.cipher.opt & OPT_AUTH_LEN != 0 {
            let nonce = chunk_nonce(&self.cipher.iv, self.count);
            let key = self.len_key();
            let none: [u8; 0] = [];
            assert(none@ =~= Seq::<u8>::empty());
            push_u16(&mut out, total);
            assert(out@ =~= be_bytes(total as nat, 2));
            proof {
                crate::wire::lemma_be_bytes_len(total as nat, 2);
                crate::wire::lemma_pow256_small();
                crate::wire::lemma_be_value_of_bytes(total as nat, 2);
            }
            crypto::aes128_gcm_encrypt(
                key.as_slice(),
                &nonce,
                none.as_slice(),
                out.as_slice(),
            ).unwrap()
        } else {
            let mask: u16 = self.next_mask();
            push_u16(&mut out, total ^ mask);
            proof {
                crate::wire::lemma_be_bytes_len((total ^ mask) as nat, 2);
                assert(out@ =~= be_bytes((total ^ mask) as nat, 2));
                crate::wire::lemma_pow256_small();
                crate::wire::lemma_be_value_of_bytes((total ^ mask) as nat, 2);
                lemma_unmask(total, mask);
            }
            out
        }
    }

    /// Writes `plain` as one chunk with `pad` as its padding; an empty `plain` ends the
    /// body. A reader at the same position reads `plain` back and comes to the same
    /// position, whatever follows the chunk.
    pub fn seal_chunk(&mut self, plain: &[u8], pad: &[u8]) -> (r: Result<Vec<u8>, ChunkError>)
        requires
            plain@.len() <= CHUNK_SIZE,
            pad@.len() == padding_len(old(self).params(), old(self).pos()),
        ensures
            final(self).params() == old(self).params(),
            !old(self).params().supported() ==> r == Err::<Vec<u8>, ChunkError>(
                ChunkError::Unsupported(old(self).params().sec),
            ) && final(self).pos() == old(self).pos(),
            old(self).params().supported() ==> r is Ok && final(self).pos() == after_written(
                old(self).params(),
                old(self).pos(),
            ),
            r matches Ok(b) ==> b@ == chunk_bytes(
                old(self).params(),
                old(self).pos(),
                plain@,
                pad@,
            ),
            r matches Ok(b) ==> reads_as(
                old(self).params(),
                old(self).pos(),
                b@,
                payload_chunk(plain@),
                final(self).pos(),
            ),
    {
        let sec: u8 = self.cipher.sec;
        if !(sec == SEC_NONE || sec == SEC_AES128_GCM || sec == SEC_AUTO || sec == SEC_CHACHA20) {
            return Err(ChunkError::Unsupported(sec));
        }
        let ghost c = self.params();
        let ghost pos = self.pos();
        let auth_len = self.cipher.opt & OPT_AUTH_LEN != 0;
        let count: u16 = if auth_len {
            ((self.count as u32 + 1) % 0x1_0000) as u16
        } else {
            self.count
        };
        let ct = self.seal_payload(count, plain);
        let known = self.next_padding();
        let total: u16 = (ct.len() + pad.len()) as u16;
        let size = self.seal_size(total);
        let nonces: u16 = if auth_len {
            2
        } else {
            1
        };
        let draws: usize = self.draws();
        self.step(nonces, draws);
        let ghost field = size@;
        let mut out: Vec<u8> = size;
        push_slice(&mut out, ct.as_slice());
        push_slice(&mut out, pad);
        proof {
            assert(out@ =~= chunk_bytes(c, pos, plain@, pad@));
            lemma_written_reads_back(c, pos, plain@, pad@, ct@);
        }
        Ok(out)
    }

    /// Writes `plain` as one chunk with random padding.
    pub fn encode_chunk(&mut self, plain: &[u8]) -> (r: Result<Vec<u8>, ChunkError>)
        requires
            plain@.len() <= CHUNK_SIZE,
        ensures
            final(self).params() == old(self).params(),
            !old(self).params().supported() ==> r == Err::<Vec<u8>, ChunkError>(
                ChunkError::Unsupported(old(self).params().sec),
            ) && final(self).pos() == old(self).pos(),
            old(self).params().supported() ==> r is Ok && final(self).pos() == after_written(
                old(self).params(),
                old(self).pos(),
            ),
            r matches Ok(b) ==> exists|pad: Seq<u8>|
                pad.len() == padding_len(old(self).params(), old(self).pos()) && b@
                    == #[trigger] chunk_bytes(old(self).params(), old(self).pos(), plain@, pad),
            r matches Ok(b) ==> reads_as(
                old(self).params(),
                old(self).pos(),
                b@,
                payload_chunk(plain@),
                final(self).pos(),
            ),
    {
        let n: usize = self.next_padding();
        let pad = crypto::random_bytes(n);
        self.seal_chunk(plain, pad.as_slice())
    }
}

/// Whether `bytes`, with anything behind them, are read from `pos` as `chunk`, and leave
/// the reader at `next`. A chunk that ends the body may be understood from its first bytes.
pub open spec fn reads_as(
    c: BodyCipher,
    pos: BodyPos,
    bytes: Seq<u8>,
    chunk: ChunkView,
    next: BodyPos,
) -> bool {
    forall|rest: Seq<u8>|
        #![trigger bytes + rest]
        match chunk {
            ChunkView::Data(_) => chunk_of(c, pos, bytes + rest) == (
                DecodedView::<ChunkView, ChunkError>::Done(chunk, bytes.len()),
                next,
            ),
            ChunkView::End => chunk_of(c, pos, bytes + rest).0 matches DecodedView::Done(
                ChunkView::End,
                n,
            ) && n <= bytes.len(),
        }
}

proof fn lemma_unmask(total: u16, mask: u16)
    ensures
        (total ^ mask) ^ mask == total,
{
    assert((total ^ mask) ^ mask == total) by (bit_vector);
}

proof fn lemma_written_reads_back(
    c: BodyCipher,
    pos: BodyPos,
    plain: Seq<u8>,
    pad: Seq<u8>,
    ct: Seq<u8>,
)
    requires
        c.supported(),
        pos.count < 0x1_0000,
        plain.len() <= CHUNK_SIZE,
        pad.len() == padding_len(c, pos),
        ct == sealed_payload(c, (pos.count + size_nonces(c)) % 0x1_0000, plain),
        opened_payload(c, (pos.count + size_nonces(c)) % 0x1_0000, ct) == Some(plain),
        ct.len() == plain.len() + (if c.sec == SEC_NONE {
            0int
        } else {
            16int
        }),
        sealed_size(c, pos, ct.len() + pad.len()).len() == size_field_len(c),
        opened_size(c, pos, sealed_size(c, pos, ct.len() + pad.len())) == Some(
            ct.len() + pad.len(),
        ),
    ensures
        reads_as(
            c,
            pos,
            chunk_bytes(c, pos, plain, pad),
            payload_chunk(plain),
            after_written(c, pos),
        ),
{
    let b = chunk_bytes(c, pos, plain, pad);
    let total = ct.len() + pad.len();
    let field = sealed_size(c, pos, total);
    let n = size_field_len(c) as int;
    assert(pad.len() < 64);
    assert(b =~= field + ct + pad);
    let mid = after_size(c, pos);
    assert(mid.advanced(1, 0) =~= after_written(c, pos)) by {
        assert(words_after(mid.words, 0) =~= mid.words);
    }
    assert forall|rest: Seq<u8>|
        #![trigger b + rest]
        match payload_chunk(plain) {
            ChunkView::Data(_) => chunk_of(c, pos, b + rest) == (
                DecodedView::<ChunkView, ChunkError>::Done(payload_chunk(plain), b.len()),
                after_written(c, pos),
            ),
            ChunkView::End => chunk_of(c, pos, b + rest).0 matches DecodedView::Done(
                ChunkView::End,
                n,
            ) && n <= b.len(),
        } by {
        let all = b + rest;
        assert(all.take(n) =~= field);
        if ct.len() > 0 {
            assert(all.subrange(n, n + ct.len()) =~= ct);
        }
    }
}

/// The payloads of a body up to its end, where all of it is there.
pub open spec fn body_of(c: BodyCipher, pos: BodyPos, bytes: Seq<u8>) -> Option<Seq<Seq<u8>>>
    decreases bytes.len(),
{
    let (got, next) = chunk_of(c, pos, bytes);
    match got {
        DecodedView::Done(ChunkView::End, _) => Some(Seq::empty()),
        DecodedView::Done(ChunkView::Data(d), n) => if 0 < n <= bytes.len() {
            match body_of(c, next, bytes.skip(n as int)) {
                Some(more) => Some(seq![d] + more),
                None => None,
            }
        } else {
            None
        },
        _ => None,
    }
}

/// Whether the `i`-th chunk carries the `i`-th payload.
pub open spec fn carries(
    c: BodyCipher,
    positions: Seq<BodyPos>,
    chunks: Seq<Seq<u8>>,
    plains: Seq<Seq<u8>>,
    i: int,
) -> bool {
    plains[i].len() > 0 && reads_as(
        c,
        positions[i],
        chunks[i],
        ChunkView::Data(plains[i]),
        positions[i + 1],
    )
}

/// Chunks that were written one after another, the last one ending the body, are read
/// back as the payloads that went into them.
pub proof fn lemma_body_round_trip(
    c: BodyCipher,
    positions: Seq<BodyPos>,
    chunks: Seq<Seq<u8>>,
    plains: Seq<Seq<u8>>,
    end: Seq<u8>,
    rest: Seq<u8>,
)
    requires
        chunks.len() == plains.len(),
        positions.len() == chunks.len() + 1,
        forall|i: int|
            0 <= i < chunks.len() ==> #[trigger] carries(c, positions, chunks, plains, i),
        reads_as(c, positions[chunks.len() as int], end, ChunkView::End, after_written(
            c,
            positions[chunks.len() as int],
        )),
    ensures
        body_of(c, positions[0], chunks.flatten() + end + rest) == Some(plains),
    decreases chunks.len(),
{
    if chunks.len() == 0 {
        assert(chunks.flatten() + end + rest =~= end + rest);
        assert(plains =~= Seq::<Seq<u8>>::empty());
    } else {
        let tail = chunks.drop_first().flatten() + end + rest;
        assert(chunks.flatten() == chunks.first() + chunks.drop_first().flatten());
        assert(chunks.flatten() + end + rest =~= chunks[0] + tail);
        let all = chunks[0] + tail;
        lemma_chunk_progress(c, positions[0], all);
        assert(all.skip(chunks[0].len() as int) =~= tail);
        let (later, others, texts) = (
            positions.drop_first(),
            chunks.drop_first(),
            plains.drop_first(),
        );
        assert(carries(c, positions, chunks, plains, 0));
        assert forall|i: int| 0 <= i < others.len() implies #[trigger] carries(
            c,
            later,
            others,
            texts,
            i,
        ) by {
            assert(carries(c, positions, chunks, plains, i + 1));
        }
        lemma_body_round_trip(c, later, others, texts, end, rest);
        assert(seq![plains[0]] + plains.drop_first() =~= plains);
    }
}

/// A chunk that is read takes at least its size field, and no more than there is.
pub proof fn lemma_chunk_progress(c: BodyCipher, pos: BodyPos, buf: Seq<u8>)
    ensures
        chunk_of(c, pos, buf).0 matches DecodedView::Done(_, n) ==> 2 <= n <= buf.len(),
        chunk_of(c, pos, buf).0 matches DecodedView::More(n) ==> n > buf.len(),
        chunk_of(c, pos, buf).0 !is Done ==> chunk_of(c, pos, buf).1 == pos,
{
}

/// Bytes behind a chunk do not change how it is read.
pub proof fn lemma_chunk_prefix(c: BodyCipher, pos: BodyPos, buf: Seq<u8>, rest: Seq<u8>)
    ensures
        chunk_of(c, pos, buf).0 !is More ==> chunk_of(c, pos, buf + rest) == chunk_of(c, pos, buf),
{
    let n = size_field_len(c) as int;
    let pad = padding_len(c, pos);
    if buf.len() >= n {
        assert((buf + rest).take(n) =~= buf.take(n));
        if let Some(total) = opened_size(c, pos, buf.take(n)) {
            let len = if total > pad {
                total - pad
            } else {
                0
            };
            if buf.len() >= n + len {
                assert((buf + rest).subrange(n, n + len) =~= buf.subrange(n, n + len));
            }
        }
    }
}

proof fn lemma_mask_bytes(a: u8, b: u8, x: u8, y: u8)
    ensures
        ((a * 256 + b) as u16) ^ ((x * 256 + y) as u16) == (a ^ x) * 256 + (b ^ y),
{
    assert(((a * 256 + b) as u16) ^ ((x * 256 + y) as u16) == (a ^ x) * 256 + (b ^ y))
        by (bit_vector);
}

/// Where the chunk with the number `k` stands in a body, counted from 0.
pub open spec fn position(c: BodyCipher, k: nat) -> BodyPos
    decreases k,
{
    if k == 0 {
        start_of(c)
    } else {
        after_written(c, position(c, (k - 1) as nat))
    }
}

/// Every chunk uses up as many nonces and as many words as the first one.
proof fn lemma_position(c: BodyCipher, k: nat)
    ensures
        position(c, k).count == (k * (1 + size_nonces(c))) % 0x1_0000,
        forall|i: nat|
            #[trigger] position(c, k).words[i] == word_at(
                crypto::shake128_of(c.iv@),
                k * (padding_draws(c) + size_draws(c)) + i,
            ),
    decreases k,
{
    let m = 1 + size_nonces(c);
    let d = padding_draws(c) + size_draws(c);
    if k > 0 {
        let j = (k - 1) as nat;
        lemma_position(c, j);
        assert(j * m + m == k * m) by (nonlinear_arith)
            requires
                k == j + 1,
        ;
        assert(j * d + d == k * d) by (nonlinear_arith)
            requires
                k == j + 1,
        ;
        vstd::arithmetic::div_mod::lemma_add_mod_noop(
            (j * m) as int,
            m as int,
            0x1_0000,
        );
        let before = position(c, j);
        assert forall|i: nat|
            #[trigger] position(c, k).words[i] == word_at(
                crypto::shake128_of(c.iv@),
                k * d + i,
            ) by {
            assert(position(c, k).words[i] == before.words[i + d]);
            assert(j * d + (i + d) == k * d + i);
        }
    } else {
        assert(0 * m == 0 && 0 * d == 0) by (nonlinear_arith);
    }
}

/// The words that a chunk takes, read off the output of SHAKE128 itself. With masking and
/// global padding and without sealed sizes chunk `k` takes words `2k` and `2k + 1`: the
/// first, modulo 64, is the length of its padding, and the second masks its size. So the
/// first chunk has as many bytes of padding as bytes 0 and 1 say, and bytes 2 and 3 mask
/// its size; the chunk behind it goes on at byte 4.
pub proof fn lemma_padding_word_comes_first(
    c: BodyCipher,
    k: nat,
    plain: Seq<u8>,
    pad: Seq<u8>,
)
    requires
        c.opt & 0x04 != 0,
        c.opt & 0x08 != 0,
        c.opt & 0x10 == 0,
    ensures
        ({
            let s = crypto::shake128_of(c.iv@);
            let b = chunk_bytes(c, position(c, k), plain, pad);
            let total = b.len() - 2;
            &&& padding_len(c, position(c, k)) == (s[4 * k] * 256 + s[4 * k + 1]) % 64
            &&& total < 0x1_0000 ==> {
                &&& b[0] == ((total / 256) as u8) ^ s[4 * k + 2]
                &&& b[1] == ((total % 256) as u8) ^ s[4 * k + 3]
            }
        }),
{
    let s = crypto::shake128_of(c.iv@);
    let pos = position(c, k);
    lemma_position(c, k);
    assert(k * 2 + 1 == 2 * k + 1);
    assert(pos.words[0] == word_at(s, 2 * k));
    assert(pos.words[1] == word_at(s, 2 * k + 1));
    let b = chunk_bytes(c, pos, plain, pad);
    let ct = sealed_payload(c, (pos.count + size_nonces(c)) % 0x1_0000, plain);
    let total = ct.len() + pad.len();
    let masked = ((total as u16) ^ pos.words[1]) as nat;
    crate::wire::lemma_be_pair(masked);
    assert(b.len() == 2 + total);
    assert(b[0] == (masked / 256) as u8);
    assert(b[1] == (masked % 256) as u8);
    if total < 0x1_0000 {
        let hi = (total / 256) as u8;
        let lo = (total % 256) as u8;
        assert(total == hi * 256 + lo);
        lemma_mask_bytes(hi, lo, s[4 * k + 2], s[4 * k + 3]);
        assert(2 * (2 * k + 1) == 4 * k + 2);
    }
}

/// What chunk `k` of a body is on the wire, for every choice of options, in terms of the
/// outside functions alone. It takes the word for its padding, where masking and padding
/// are both on, and then the word for the mask of its size, where the size is masked and not
/// sealed. The nonces are `k`, or `2k` for a sealed size and `2k + 1` for the payload behind
/// it.
pub proof fn lemma_chunk_on_the_wire(c: BodyCipher, k: nat, plain: Seq<u8>, pad: Seq<u8>)
    ensures
        ({
            let s = crypto::shake128_of(c.iv@);
            let masks = c.opt & 0x04 != 0;
            let pads = masks && c.opt & 0x08 != 0;
            let seals = c.opt & 0x10 != 0;
            let at: nat = if pads && !seals {
                4 * k
            } else if pads || (masks && !seals) {
                2 * k
            } else {
                0
            };
            let mask_at: nat = if pads {
                at + 2
            } else {
                at
            };
            let nonce = |count: nat|
                seq![(count / 256 % 256) as u8, (count % 256) as u8] + c.iv@.subrange(2, 12);
            let payload_nonce = nonce(
                if seals {
                    2 * k + 1
                } else {
                    k
                },
            );
            let ct = if c.sec == 0 {
                plain
            } else if c.sec == 3 || c.sec == 5 {
                crypto::aes128_gcm_sealed(c.key@, payload_nonce, Seq::empty(), plain)
            } else {
                crypto::chacha20_poly1305_sealed(
                    crypto::md5_of(c.key@) + crypto::md5_of(crypto::md5_of(c.key@)),
                    payload_nonce,
                    Seq::empty(),
                    plain,
                )
            };
            let total = ct.len() + pad.len();
            let hi = (total / 256) as u8;
            let lo = (total % 256) as u8;
            let size = if seals {
                crypto::aes128_gcm_sealed(
                    kdf_of(seq![encode_utf8("auth_len"@)], c.key@).subrange(0, 16),
                    nonce(2 * k),
                    Seq::empty(),
                    seq![hi, lo],
                )
            } else if masks {
                seq![hi ^ s[mask_at], lo ^ s[mask_at + 1]]
            } else {
                seq![hi, lo]
            };
            &&& padding_len(c, position(c, k)) == if pads {
                (s[at] * 256 + s[at + 1]) % 64
            } else {
                0
            }
            &&& total < 0x1_0000 ==> chunk_bytes(c, position(c, k), plain, pad) == size + ct + pad
        }),
{
    let pos = position(c, k);
    let seals = c.opt & 0x10 != 0;
    lemma_drawn_words(c, k);
    lemma_drawn_nonces(c, k);
    let ct = sealed_payload(c, (pos.count + size_nonces(c)) % 0x1_0000, plain);
    let total = ct.len() + pad.len();
    if total < 0x1_0000 {
        lemma_size_field(c, k, total);
    }
}

/// The words of chunk `k`, in bytes.
proof fn lemma_drawn_words(c: BodyCipher, k: nat)
    ensures
        ({
            let s = crypto::shake128_of(c.iv@);
            let pos = position(c, k);
            let masks = c.opt & 0x04 != 0;
            let pads = masks && c.opt & 0x08 != 0;
            let seals = c.opt & 0x10 != 0;
            let at: nat = if pads && !seals {
                4 * k
            } else if pads || (masks && !seals) {
                2 * k
            } else {
                0
            };
            let mask_at: nat = if pads {
                at + 2
            } else {
                at
            };
            &&& padding_len(c, pos) == if pads {
                (s[at] * 256 + s[at + 1]) % 64
            } else {
                0
            }
            &&& size_mask(c, pos) == if masks && !seals {
                s[mask_at] * 256 + s[mask_at + 1]
            } else {
                0
            }
        }),
{
    let s = crypto::shake128_of(c.iv@);
    let pos = position(c, k);
    let d = padding_draws(c) + size_draws(c);
    assert(pos.words[0] == word_at(s, k * d) && pos.words[1] == word_at(s, k * d + 1)) by {
        lemma_position(c, k);
    }
    if d == 1 {
        assert(k * d == k);
    } else if d == 2 {
        assert(k * d == 2 * k);
        assert(2 * (2 * k + 1) == 4 * k + 2);
    }
}

/// The nonces of chunk `k`, in bytes.
proof fn lemma_drawn_nonces(c: BodyCipher, k: nat)
    ensures
        ({
            let pos = position(c, k);
            let seals = c.opt & 0x10 != 0;
            &&& seals ==> chunk_nonce_of(c.iv@, pos.count) == seq![
                (2 * k / 256 % 256) as u8,
                (2 * k % 256) as u8,
            ] + c.iv@.subrange(2, 12)
            &&& chunk_nonce_of(c.iv@, (pos.count + size_nonces(c)) % 0x1_0000) == if seals {
                seq![((2 * k + 1) / 256 % 256) as u8, ((2 * k + 1) % 256) as u8] + c.iv@.subrange(
                    2,
                    12,
                )
            } else {
                seq![(k / 256 % 256) as u8, (k % 256) as u8] + c.iv@.subrange(2, 12)
            }
        }),
{
    let pos = position(c, k);
    let m = 1 + size_nonces(c);
    assert(pos.count == (k * m) % 0x1_0000) by {
        lemma_position(c, k);
    }
    if c.opt & 0x10 != 0 {
        assert(k * m == 2 * k) by (nonlinear_arith)
            requires
                m == 2,
        ;
        assert((pos.count + 1) % 0x1_0000 == (2 * k + 1) % 0x1_0000);
        lemma_nonce_bytes(c.iv@, 2 * k);
        lemma_nonce_bytes(c.iv@, 2 * k + 1);
    } else {
        assert(k * m == k) by (nonlinear_arith)
            requires
                m == 1,
        ;
        assert((pos.count + 0) % 0x1_0000 == k % 0x1_0000);
        lemma_nonce_bytes(c.iv@, k);
    }
}

/// The size field of chunk `k`, in bytes.
proof fn lemma_size_field(c: BodyCipher, k: nat, total: nat)
    requires
        total < 0x1_0000,
    ensures
        ({
            let s = crypto::shake128_of(c.iv@);
            let masks = c.opt & 0x04 != 0;
            let pads = masks && c.opt & 0x08 != 0;
            let seals = c.opt & 0x10 != 0;
            let mask_at: nat = if pads {
                4 * k + 2
            } else {
                2 * k
            };
            let hi = (total / 256) as u8;
            let lo = (total % 256) as u8;
            sealed_size(c, position(c, k), total) == if seals {
                crypto::aes128_gcm_sealed(
                    kdf_of(seq![encode_utf8("auth_len"@)], c.key@).subrange(0, 16),
                    seq![(2 * k / 256 % 256) as u8, (2 * k % 256) as u8] + c.iv@.subrange(2, 12),
                    Seq::empty(),
                    seq![hi, lo],
                )
            } else if masks {
                seq![hi ^ s[mask_at], lo ^ s[mask_at + 1]]
            } else {
                seq![hi, lo]
            }
        }),
{
    let s = crypto::shake128_of(c.iv@);
    let pos = position(c, k);
    let masks = c.opt & 0x04 != 0;
    let pads = masks && c.opt & 0x08 != 0;
    let mask_at: nat = if pads {
        4 * k + 2
    } else {
        2 * k
    };
    let hi = (total / 256) as u8;
    let lo = (total % 256) as u8;
    lemma_drawn_words(c, k);
    lemma_drawn_nonces(c, k);
    crate::wire::lemma_be_pair(total);
    if c.opt & 0x10 == 0 {
        let t = total as u16;
        let mask = size_mask(c, pos);
        assert(t == hi * 256 + lo);
        crate::wire::lemma_be_pair((t ^ mask) as nat);
        if masks {
            lemma_mask_bytes(hi, lo, s[mask_at], s[mask_at + 1]);
        } else {
            assert(t ^ 0u16 == t) by (bit_vector);
        }
    }
}

/// The size in the size field of chunk `k`, in bytes.
proof fn lemma_opened_size(c: BodyCipher, k: nat, field: Seq<u8>, total: nat)
    requires
        total < 0x1_0000,
        field.len() == size_field_len(c),
    ensures
        ({
            let s = crypto::shake128_of(c.iv@);
            let masks = c.opt & 0x04 != 0;
            let pads = masks && c.opt & 0x08 != 0;
            let seals = c.opt & 0x10 != 0;
            let mask_at: nat = if pads {
                4 * k + 2
            } else {
                2 * k
            };
            let hi = (total / 256) as u8;
            let lo = (total % 256) as u8;
            let says_total = if seals {
                crypto::aes128_gcm_opened(
                    kdf_of(seq![encode_utf8("auth_len"@)], c.key@).subrange(0, 16),
                    seq![(2 * k / 256 % 256) as u8, (2 * k % 256) as u8] + c.iv@.subrange(2, 12),
                    Seq::empty(),
                    field,
                ) == Some(seq![hi, lo])
            } else if masks {
                field[0] ^ s[mask_at] == hi && field[1] ^ s[mask_at + 1] == lo
            } else {
                field[0] == hi && field[1] == lo
            };
            says_total ==> opened_size(c, position(c, k), field) == Some(total)
        }),
{
    let s = crypto::shake128_of(c.iv@);
    let pos = position(c, k);
    let masks = c.opt & 0x04 != 0;
    let pads = masks && c.opt & 0x08 != 0;
    let mask_at: nat = if pads {
        4 * k + 2
    } else {
        2 * k
    };
    lemma_drawn_words(c, k);
    lemma_drawn_nonces(c, k);
    crate::wire::lemma_be_pair(total);
    if c.opt & 0x10 == 0 {
        let v = be_value(field) as u16;
        crate::wire::lemma_be_value_2(field);
        if masks {
            lemma_mask_bytes(field[0], field[1], s[mask_at], s[mask_at + 1]);
        } else {
            assert(v ^ 0u16 == v) by (bit_vector);
        }
    }
}

proof fn lemma_nonce_bytes(iv: Seq<u8>, count: nat)
    ensures
        chunk_nonce_of(iv, count % 0x1_0000) == seq![
            (count / 256 % 256) as u8,
            (count % 256) as u8,
        ] + iv.subrange(2, 12),
{
    let n = count % 0x1_0000;
    crate::wire::lemma_be_pair(n);
    assert(n / 256 == count / 256 % 256);
    assert(n % 256 == count % 256);
}

/// What is read as chunk `k` of a body, for every choice of options, in terms of the
/// outside functions alone: where the size field says `total`, the padding is `pad` bytes,
/// and the payload opens to `plain`, the chunk is `plain`, takes the size field and `total`
/// bytes, and leaves the body at chunk `k + 1`; an empty one ends the body. Where there is
/// no more in it than padding the body ends with the size field.
pub proof fn lemma_chunk_off_the_wire(
    c: BodyCipher,
    k: nat,
    buf: Seq<u8>,
    total: nat,
    plain: Seq<u8>,
)
    requires
        total < 0x1_0000,
        c.sec == 0 || c.sec == 3 || c.sec == 4 || c.sec == 5,
    ensures
        ({
            let s = crypto::shake128_of(c.iv@);
            let masks = c.opt & 0x04 != 0;
            let pads = masks && c.opt & 0x08 != 0;
            let seals = c.opt & 0x10 != 0;
            let at: nat = if pads && !seals {
                4 * k
            } else if pads || (masks && !seals) {
                2 * k
            } else {
                0
            };
            let mask_at: nat = if pads {
                at + 2
            } else {
                at
            };
            let nonce = |count: nat|
                seq![(count / 256 % 256) as u8, (count % 256) as u8] + c.iv@.subrange(2, 12);
            let payload_nonce = nonce(
                if seals {
                    2 * k + 1
                } else {
                    k
                },
            );
            let pad = if pads {
                (s[at] * 256 + s[at + 1]) % 64
            } else {
                0
            };
            let n: int = if seals {
                18
            } else {
                2
            };
            let hi = (total / 256) as u8;
            let lo = (total % 256) as u8;
            let says_total = if seals {
                crypto::aes128_gcm_opened(
                    kdf_of(seq![encode_utf8("auth_len"@)], c.key@).subrange(0, 16),
                    nonce(2 * k),
                    Seq::empty(),
                    buf.take(n),
                ) == Some(seq![hi, lo])
            } else if masks {
                buf[0] ^ s[mask_at] == hi && buf[1] ^ s[mask_at + 1] == lo
            } else {
                buf[0] == hi && buf[1] == lo
            };
            let ct = buf.subrange(n, n + total - pad);
            let opens = if c.sec == 0 {
                Some(ct)
            } else if c.sec == 4 {
                crypto::chacha20_poly1305_opened(
                    crypto::md5_of(c.key@) + crypto::md5_of(crypto::md5_of(c.key@)),
                    payload_nonce,
                    Seq::empty(),
                    ct,
                )
            } else {
                crypto::aes128_gcm_opened(c.key@, payload_nonce, Seq::empty(), ct)
            };
            let r = chunk_of(c, position(c, k), buf);
            &&& buf.len() >= n && says_total && total <= pad ==> r.0 == DecodedView::<
                ChunkView,
                ChunkError,
            >::Done(ChunkView::End, n as nat)
            &&& buf.len() >= n + total && says_total && total > pad && (c.sec == 0 || total - pad
                >= 16) && opens == Some(plain) ==> r == (
                DecodedView::<ChunkView, ChunkError>::Done(
                    if plain.len() > 0 {
                        ChunkView::Data(plain)
                    } else {
                        ChunkView::End
                    },
                    (n + total) as nat,
                ),
                position(c, k + 1),
            )
            &&& buf.len() >= n + total && says_total && total > pad && (c.sec == 0 || total - pad
                >= 16) && opens is None ==> r.0 == DecodedView::<ChunkView, ChunkError>::Bad(
                ChunkError::PayloadTag,
            )
            &&& buf.len() >= n && says_total && total > pad && c.sec != 0 && total - pad < 16
                ==> r.0 == DecodedView::<ChunkView, ChunkError>::Bad(
                ChunkError::TooSmall((total - pad) as usize),
            )
        }),
{
    let pos = position(c, k);
    let n = size_field_len(c) as int;
    lemma_drawn_words(c, k);
    lemma_drawn_nonces(c, k);
    if buf.len() >= n {
        lemma_opened_size(c, k, buf.take(n), total);
    }
    let mid = after_size(c, pos);
    assert(mid.advanced(1, 0).words =~= after_written(c, pos).words);
    assert(mid.advanced(1, 0) =~= after_written(c, pos));
    assert(position(c, k + 1) == after_written(c, pos));
}

/// What is refused of a chunk, and what is waited for: a sealed size that does not open, a
/// protection that is none of the known ones, and a size field that is not all there.
pub proof fn lemma_chunk_refused(c: BodyCipher, k: nat, buf: Seq<u8>, total: nat)
    requires
        total < 0x1_0000,
    ensures
        ({
            let n: int = if c.opt & 0x10 != 0 {
                18
            } else {
                2
            };
            let opens = crypto::aes128_gcm_opened(
                kdf_of(seq![encode_utf8("auth_len"@)], c.key@).subrange(0, 16),
                seq![(2 * k / 256 % 256) as u8, (2 * k % 256) as u8] + c.iv@.subrange(2, 12),
                Seq::empty(),
                buf.take(18),
            );
            let known = c.sec == 0 || c.sec == 3 || c.sec == 4 || c.sec == 5;
            let r = chunk_of(c, position(c, k), buf).0;
            &&& buf.len() < n ==> r == DecodedView::<ChunkView, ChunkError>::More(n as nat)
            &&& c.opt & 0x10 != 0 && buf.len() >= 18 && opens is None ==> r == DecodedView::<
                ChunkView,
                ChunkError,
            >::Bad(ChunkError::SizeTag)
            &&& c.opt & 0x1c == 0 && !known && buf.len() >= 2 && buf[0] * 256 + buf[1] == total
                && total > 0 ==> r == DecodedView::<ChunkView, ChunkError>::Bad(
                ChunkError::Unsupported(c.sec),
            )
        }),
{
    lemma_drawn_nonces(c, k);
    lemma_drawn_words(c, k);
    let opt = c.opt;
    if opt & 0x1c == 0 {
        assert(opt & 0x10 == 0 && opt & 0x04 == 0 && opt & 0x08 == 0) by (bit_vector)
            requires
                opt & 0x1c == 0,
        ;
        if buf.len() >= 2 && buf[0] * 256 + buf[1] == total {
            assert(buf[0] == (total / 256) as u8 && buf[1] == (total % 256) as u8);
            lemma_opened_size(c, k, buf.take(2), total);
        }
    }
}

} // verus!
