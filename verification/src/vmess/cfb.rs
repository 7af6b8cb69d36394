//! AES-128 in cipher feedback mode, and a writer that never encrypts the same bytes twice.
use crate::crypto;
use crate::wire::copy_range;
use vstd::prelude::*;

verus! {

/// A cipher feedback state: the register that is being filled with ciphertext, the
/// keystream block that it gave when it was last full, and how much of that is used up.
pub struct CfbState {
    pub register: Seq<u8>,
    pub keystream: Seq<u8>,
    pub used: nat,
}

/// The state behind one byte.
pub open spec fn cfb_step(key: Seq<u8>, s: CfbState, b: u8) -> (u8, CfbState) {
    let keystream = if s.used == 16 {
        crypto::aes128_block_encrypted(key, s.register)
    } else {
        s.keystream
    };
    let used = if s.used == 16 {
        0
    } else {
        s.used
    };
    let c = b ^ keystream[used as int];
    (c, CfbState { register: s.register.update(used as int, c), keystream, used: used + 1 })
}

/// Encrypts `data` byte by byte.
pub open spec fn cfb_run(key: Seq<u8>, s: CfbState, data: Seq<u8>) -> (Seq<u8>, CfbState)
    decreases data.len(),
{
    if data.len() == 0 {
        (Seq::empty(), s)
    } else {
        let (out, mid) = cfb_run(key, s, data.drop_last());
        let (c, end) = cfb_step(key, mid, data.last());
        (out.push(c), end)
    }
}

/// The state before the first byte.
pub open spec fn cfb_start(key: Seq<u8>, iv: Seq<u8>) -> CfbState {
    CfbState { register: iv, keystream: crypto::aes128_block_encrypted(key, iv), used: 0 }
}

/// It does not matter how a text is cut up: encrypting its parts one after another gives
/// what encrypting it at once gives.
pub proof fn lemma_cfb_split(key: Seq<u8>, s: CfbState, a: Seq<u8>, b: Seq<u8>)
    ensures
        cfb_run(key, s, a + b) == (
            cfb_run(key, s, a).0 + cfb_run(key, cfb_run(key, s, a).1, b).0,
            cfb_run(key, cfb_run(key, s, a).1, b).1,
        ),
    decreases b.len(),
{
    if b.len() == 0 {
        assert(a + b =~= a);
        assert(cfb_run(key, s, a).0 + Seq::<u8>::empty() =~= cfb_run(key, s, a).0);
    } else {
        lemma_cfb_split(key, s, a, b.drop_last());
        assert((a + b).drop_last() =~= a + b.drop_last());
        let mid = cfb_run(key, s, a).1;
        let first = cfb_run(key, s, a).0;
        let inner = cfb_run(key, mid, b.drop_last());
        let c = cfb_step(key, inner.1, b.last()).0;
        assert((first + inner.0).push(c) =~= first + inner.0.push(c));
    }
}

/// Encryption keeps the length.
pub proof fn lemma_cfb_len(key: Seq<u8>, s: CfbState, data: Seq<u8>)
    ensures
        cfb_run(key, s, data).0.len() == data.len(),
    decreases data.len(),
{
    if data.len() > 0 {
        lemma_cfb_len(key, s, data.drop_last());
    }
}

/// What the channel below made of a write.
#[derive(Debug, Clone, Copy, PartialEq, Eq, Structural)]
pub enum WriteEvent {
    /// It took this many bytes.
    Took(usize),
    /// It cannot take any yet.
    Pending,
    /// It failed.
    Failed,
}

/// What a write has come to.
#[derive(Debug, Clone, Copy, PartialEq, Eq, Structural)]
pub enum WriteStep {
    /// Hand the pending bytes to the channel.
    Send,
    /// All of the plaintext is on its way.
    Done,
    /// Nothing can be done before the channel is ready.
    Wait,
    /// The channel took nothing.
    WriteZero,
    /// The channel failed.
    Failed,
}

/// Encrypts what is written, and keeps the ciphertext until the channel below has taken it.
pub struct Aes128CfbWriter {
    key: [u8; 16],
    register: [u8; 16],
    keystream: [u8; 16],
    ks_pos: usize,
    pending: Vec<u8>,
}

impl Aes128CfbWriter {
    /// The position in the keystream is one.
    pub closed spec fn wf(&self) -> bool {
        self.ks_pos <= 16
    }

    pub closed spec fn secret(&self) -> Seq<u8> {
        self.key@
    }

    pub closed spec fn state(&self) -> CfbState {
        CfbState { register: self.register@, keystream: self.keystream@, used: self.ks_pos as nat }
    }

    /// Ciphertext that the channel has not taken yet.
    pub closed spec fn waiting(&self) -> Seq<u8> {
        self.pending@
    }

    pub fn new(key: &[u8; 16], iv: &[u8; 16]) -> (r: Self)
        ensures
            r.wf(),
            r.secret() == key@,
            r.state() == cfb_start(key@, iv@),
            r.waiting().len() == 0,
    {
        Aes128CfbWriter {
            key: *key,
            register: *iv,
            keystream: crypto::aes128_encrypt_block(key, iv),
            ks_pos: 0,
            pending: Vec::new(),
        }
    }

    /// Encrypts `data`.
    pub fn encrypt_bytes(&mut self, data: &[u8]) -> (r: Vec<u8>)
        requires
            old(self).wf(),
        ensures
            final(self).wf(),
            final(self).secret() == old(self).secret(),
            final(self).waiting() == old(self).waiting(),
            (r@, final(self).state()) == cfb_run(old(self).secret(), old(self).state(), data@),
    {
        let ghost key = self.secret();
        let ghost start = self.state();
        let mut out: Vec<u8> = Vec::new();
        let mut i: usize = 0;
        assert(data@.take(0) =~= Seq::<u8>::empty());
        while i < data.len()
            invariant
                i <= data@.len(),
                self.wf(),
                self.secret() == key,
                key == old(self).secret(),
                self.waiting() == old(self).waiting(),
                (out@, self.state()) == cfb_run(key, start, data@.take(i as int)),
            decreases data@.len() - i,
        {
            let ghost before = self.state();
            if self.ks_pos == 16 {
                self.keystream = crypto::aes128_encrypt_block(&self.key, &self.register);
                self.ks_pos = 0;
            }
            let at: usize = self.ks_pos;
            let c: u8 = data[i] ^ self.keystream[at];
            self.register[at] = c;
            self.ks_pos = at + 1;
            out.push(c);
            proof {
                let (byte, after) = cfb_step(key, before, data@[i as int]);
                assert(self.register@ =~= after.register);
                assert(data@.take(i + 1).drop_last() =~= data@.take(i as int));
                assert(data@.take(i + 1).last() == data@[i as int]);
            }
            i = i + 1;
        }
        assert(data@.take(data@.len() as int) =~= data@);
        out
    }

    /// Starts, or takes up again, the write of `data`. Plaintext is encrypted only where no
    /// ciphertext is waiting, so that a write that is tried again goes on with the same
    /// ciphertext.
    pub fn start_write(&mut self, data: &[u8]) -> (r: WriteStep)
        requires
            old(self).wf(),
        ensures
            final(self).wf(),
            final(self).secret() == old(self).secret(),
            old(self).waiting().len() > 0 ==> final(self).waiting() == old(self).waiting()
                && final(self).state() == old(self).state(),
            old(self).waiting().len() == 0 ==> (final(self).waiting(), final(self).state())
                == cfb_run(old(self).secret(), old(self).state(), data@),
            r == (if final(self).waiting().len() > 0 {
                WriteStep::Send
            } else {
                WriteStep::Done
            }),
    {
        if self.pending.len() == 0 {
            let fresh = self.encrypt_bytes(data);
            self.pending = fresh;
        }
        if self.pending.len() > 0 {
            WriteStep::Send
        } else {
            WriteStep::Done
        }
    }

    /// The ciphertext to hand to the channel.
    pub fn pending_bytes(&self) -> (r: &[u8])
        ensures
            r@ == self.waiting(),
    {
        self.pending.as_slice()
    }

    /// Takes note of what the channel made of the pending ciphertext.
    pub fn on_event(&mut self, event: WriteEvent) -> (r: WriteStep)
        requires
            old(self).wf(),
            old(self).waiting().len() > 0,
            event matches WriteEvent::Took(n) ==> n <= old(self).waiting().len(),
        ensures
            final(self).wf(),
            final(self).secret() == old(self).secret(),
            final(self).state() == old(self).state(),
            match event {
                WriteEvent::Took(n) => {
                    &&& final(self).waiting() == old(self).waiting().skip(n as int)
                    &&& r == (if n == 0 {
                        WriteStep::WriteZero
                    } else if n < old(self).waiting().len() {
                        WriteStep::Send
                    } else {
                        WriteStep::Done
                    })
                },
                WriteEvent::Pending => final(self).waiting() == old(self).waiting() && r
                    == WriteStep::Wait,
                WriteEvent::Failed => final(self).waiting() == old(self).waiting() && r
                    == WriteStep::Failed,
            },
    {
        match event {
            WriteEvent::Took(n) => {
                let len: usize = self.pending.len();
                let rest = copy_range(self.pending.as_slice(), n, len);
                assert(rest@ =~= self.pending@.skip(n as int));
                self.pending = rest;
                if n == 0 {
                    WriteStep::WriteZero
                } else if n < len {
                    WriteStep::Send
                } else {
                    WriteStep::Done
                }
            },
            WriteEvent::Pending => WriteStep::Wait,
            WriteEvent::Failed => WriteStep::Failed,
        }
    }
}

/// What feeds the keystream of the block that byte `i` of the output lies in: the block of
/// output before it, and the vector for the first one.
pub open spec fn feedback(iv: Seq<u8>, out: Seq<u8>, i: int) -> Seq<u8> {
    let at = 16 * (i / 16);
    if at == 0 {
        iv
    } else {
        out.subrange(at - 16, at)
    }
}

proof fn lemma_cfb_so_far(key: Seq<u8>, iv: Seq<u8>, data: Seq<u8>)
    requires
        iv.len() == 16,
    ensures
        ({
            let (out, s) = cfb_run(key, cfb_start(key, iv), data);
            let n = data.len() as int;
            let b = 16 * ((n - 1) / 16);
            &&& out.len() == n
            &&& s.register.len() == 16
            &&& n > 0 ==> {
                &&& s.used == n - b
                &&& s.keystream == crypto::aes128_block_encrypted(key, feedback(iv, out, b))
                &&& forall|j: int| 0 <= j < n - b ==> s.register[j] == #[trigger] out[b + j]
            }
            &&& forall|i: int|
                0 <= i < n ==> #[trigger] out[i] == data[i] ^ crypto::aes128_block_encrypted(
                    key,
                    feedback(iv, out, i),
                )[i % 16]
        }),
    decreases data.len(),
{
    if data.len() > 0 {
        let init = data.drop_last();
        lemma_cfb_so_far(key, iv, init);
        let (before, mid) = cfb_run(key, cfb_start(key, iv), init);
        let (out, s) = cfb_run(key, cfb_start(key, iv), data);
        let m = init.len() as int;
        let at = 16 * (m / 16);
        assert(out.take(m) =~= before);
        if m > 0 && m % 16 == 0 {
            let c = 16 * ((m - 1) / 16);
            assert(c == m - 16);
            assert(mid.register =~= before.subrange(m - 16, m)) by {
                assert forall|j: int| 0 <= j < 16 implies mid.register[j] == before.subrange(
                    m - 16,
                    m,
                )[j] by {
                    assert(mid.register[j] == before[c + j]);
                }
            }
            assert(out.subrange(m - 16, m) =~= before.subrange(m - 16, m));
            assert(feedback(iv, out, m) == mid.register);
        } else if m > 0 {
            assert(16 * ((m - 1) / 16) == at);
            if at > 0 {
                assert(out.subrange(at - 16, at) =~= before.subrange(at - 16, at));
            }
        }
        assert(16 * ((m + 1 - 1) / 16) == at);
        assert(at / 16 == m / 16);
        assert(feedback(iv, out, at) == feedback(iv, out, m));
        assert forall|i: int| 0 <= i < data.len() implies #[trigger] out[i] == data[i]
            ^ crypto::aes128_block_encrypted(key, feedback(iv, out, i))[i % 16] by {
            if i < m {
                assert(out[i] == before[i]);
                let a = 16 * (i / 16);
                if a > 0 {
                    assert(out.subrange(a - 16, a) =~= before.subrange(a - 16, a));
                }
                assert(feedback(iv, out, i) == feedback(iv, before, i));
            }
        }
        assert forall|j: int| 0 <= j < data.len() - at implies s.register[j] == #[trigger] out[at
            + j] by {
            if at + j < m {
                assert(out[at + j] == before[at + j]);
                assert(mid.register[j] == before[at + j]);
            }
        }
    }
}

/// Every byte is combined with a byte of the encrypted block of output before it, and those
/// of the first block with the encrypted vector. So whoever has the key and the vector can
/// take the keystream off again from the output alone.
pub proof fn lemma_cfb_blocks(key: Seq<u8>, iv: Seq<u8>, data: Seq<u8>, i: int)
    requires
        iv.len() == 16,
        0 <= i < data.len(),
    ensures
        ({
            let out = cfb_run(key, cfb_start(key, iv), data).0;
            let at = 16 * (i / 16);
            let fed = if i < 16 {
                iv
            } else {
                out.subrange(at - 16, at)
            };
            let k = crypto::aes128_block_encrypted(key, fed)[i % 16];
            &&& out.len() == data.len()
            &&& out[i] == data[i] ^ k
            &&& data[i] == out[i] ^ k
        }),
{
    lemma_cfb_so_far(key, iv, data);
    let out = cfb_run(key, cfb_start(key, iv), data).0;
    let k = crypto::aes128_block_encrypted(key, feedback(iv, out, i))[i % 16];
    let d = data[i];
    assert((d ^ k) ^ k == d) by (bit_vector);
}

} // verus!
