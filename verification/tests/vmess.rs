use aes_gcm::aes::cipher::{BlockEncrypt, KeyInit};
use aes_gcm::aes::{Aes128, Block};
use ruproxy::address::{Host, Target};
use ruproxy::vmess::cfb::{Aes128CfbWriter, WriteEvent, WriteStep};
use ruproxy::vmess::chunk::{
    chunk_nonce, BodyCipher, BodyStream, Chunk, ChunkError, WordStream, CHUNK_SIZE, OPT_AUTH_LEN,
    OPT_CHUNK_MASKING, OPT_CHUNK_STREAM, OPT_GLOBAL_PADDING, SEC_AES128_GCM, SEC_AUTO, SEC_CHACHA20,
    SEC_NONE,
};
use ruproxy::vmess::header::{
    aead_open, aead_seal, check_auth_plain, decode_request_header, decode_request_header_at,
    encode_response_header, parse_plain_header, validate_auth_id, validate_auth_id_at, RequestError,
};
use ruproxy::vmess::kdf::{
    chacha_key, fnv1a32, kdf12, kdf16, sha256_16, vmess_cmd_key, vmess_kdf,
};
use ruproxy::wire::Decoded;

#[test]
fn the_command_key_is_an_md5() {
    assert_eq!(hex::encode(vmess_cmd_key(&[0; 16])), "5e20f3239545e3f48e0ff445aa7c4c3b");
}

#[test]
fn derived_keys() {
    assert_eq!(
        hex::encode(vmess_kdf(b"key", &[])),
        "385e28ac08671660f62ac976f5e64a31827aea172eff77cb2b046c52de9c08b0"
    );
    let one: [&[u8]; 1] = [b"AES Auth ID Encryption"];
    assert_eq!(
        hex::encode(vmess_kdf(b"key", &one)),
        "ffe9b1a9952b7c91b33c21540d8522207e7706c52fa3a95891f69efb3b88e087"
    );
    let two: [&[u8]; 2] = [b"a", b"b"];
    assert_eq!(
        hex::encode(vmess_kdf(b"key", &two)),
        "721bea6cc9f16fac53b2afd131a33b9dc08e884e5b997a8ffac94a12cfd639ec"
    );
    assert_eq!(hex::encode(kdf16(b"key", &two)), "721bea6cc9f16fac53b2afd131a33b9d");
    assert_eq!(hex::encode(kdf12(b"key", &two)), "721bea6cc9f16fac53b2afd1");
}

#[test]
fn small_hashes() {
    assert_eq!(fnv1a32(b""), 0x811c9dc5);
    assert_eq!(fnv1a32(b"a"), 0xe40c292c);
    assert_eq!(fnv1a32(b"foobar"), 0xbf9cf968);
    assert_eq!(
        hex::encode(chacha_key(&[0; 16])),
        "4ae71336e44bf9bf79d2752e234818a5398d01fdf7934d1292c263d374778e1a"
    );
    assert_eq!(hex::encode(sha256_16(&[0; 16])), "374708fff7719dd5979ec875d56cd228");
}

#[test]
fn words_come_from_shake128() {
    let mut w = WordStream::new(b"");
    assert_eq!(w.peek(0), 0x7f9c);
    assert_eq!(w.peek(1), 0x2ba4);
    w.advance(2);
    assert_eq!(w.peek(0), 0xe88f);
    w.advance(1);
    assert_eq!(w.peek(0), 0x827d);
}

#[test]
fn the_nonce_counts_chunks() {
    let iv: [u8; 16] = [0, 1, 2, 3, 4, 5, 6, 7, 8, 9, 10, 11, 12, 13, 14, 15];
    assert_eq!(chunk_nonce(&iv, 0x0102), [1, 2, 2, 3, 4, 5, 6, 7, 8, 9, 10, 11]);
}

fn cipher(opt: u8, sec: u8) -> BodyCipher {
    BodyCipher { key: [1; 16], iv: [2; 16], opt, sec }
}

#[test]
fn bodies_are_read_back() {
    let options = [
        OPT_CHUNK_STREAM,
        OPT_CHUNK_STREAM | OPT_CHUNK_MASKING,
        OPT_CHUNK_STREAM | OPT_CHUNK_MASKING | OPT_GLOBAL_PADDING,
        OPT_CHUNK_STREAM | OPT_GLOBAL_PADDING,
        OPT_CHUNK_STREAM | OPT_AUTH_LEN,
        OPT_CHUNK_STREAM | OPT_CHUNK_MASKING | OPT_GLOBAL_PADDING | OPT_AUTH_LEN,
    ];
    for opt in options {
        for sec in [SEC_NONE, SEC_AES128_GCM, SEC_CHACHA20, SEC_AUTO] {
            let mut w = BodyStream::new(cipher(opt, sec));
            let mut r = BodyStream::new(cipher(opt, sec));
            let data: Vec<u8> = (0..CHUNK_SIZE).map(|i| i as u8).collect();
            for part in [&data[..], b"x", b"last"] {
                let bytes = w.encode_chunk(part).unwrap();
                let field = if opt & OPT_AUTH_LEN != 0 { 18 } else { 2 };
                assert!(matches!(r.decode_chunk(&bytes[..1]), Decoded::More(n) if n == field));
                match r.decode_chunk(&bytes) {
                    Decoded::Done(Chunk::Data(d), n) => {
                        assert_eq!(d, part);
                        assert_eq!(n, bytes.len());
                    }
                    _ => panic!("not read back"),
                }
            }
            let end = w.encode_chunk(b"").unwrap();
            assert!(matches!(r.decode_chunk(&end), Decoded::Done(Chunk::End, _)));
        }
    }
}

#[test]
fn a_body_that_is_cut_or_bent() {
    let mut w = BodyStream::new(cipher(OPT_CHUNK_STREAM, SEC_AES128_GCM));
    let bytes = w.encode_chunk(b"abc").unwrap();
    assert_eq!(bytes.len(), 2 + 3 + 16);
    let mut r = BodyStream::new(cipher(OPT_CHUNK_STREAM, SEC_AES128_GCM));
    assert!(matches!(r.decode_chunk(&bytes[..20]), Decoded::More(21)));
    let mut bent = bytes.clone();
    bent[5] ^= 1;
    assert!(matches!(r.decode_chunk(&bent), Decoded::Bad(ChunkError::PayloadTag)));
    assert!(matches!(r.decode_chunk(&[0, 5]), Decoded::Bad(ChunkError::TooSmall(5))));
    assert!(matches!(r.decode_chunk(&[0, 0]), Decoded::Done(Chunk::End, 2)));
    let mut r = BodyStream::new(cipher(OPT_CHUNK_STREAM, 9));
    assert!(matches!(r.decode_chunk(&[0, 20]), Decoded::Bad(ChunkError::Unsupported(9))));
    let mut r = BodyStream::new(cipher(OPT_CHUNK_STREAM | OPT_AUTH_LEN, SEC_AES128_GCM));
    assert!(matches!(r.decode_chunk(&[0; 18]), Decoded::Bad(ChunkError::SizeTag)));
}

#[test]
fn a_plain_body_passes_through() {
    assert!(cipher(0, SEC_NONE).passes_through());
    assert!(!cipher(OPT_CHUNK_STREAM, SEC_NONE).passes_through());
    assert!(!cipher(0, SEC_AES128_GCM).passes_through());
}

fn auth_plain(time: i64) -> [u8; 16] {
    let mut p = [0u8; 16];
    p[..8].copy_from_slice(&time.to_be_bytes());
    p[8..12].copy_from_slice(&[1, 2, 3, 4]);
    let sum = crc32fast::hash(&p[..12]);
    p[12..].copy_from_slice(&sum.to_be_bytes());
    p
}

#[test]
fn auth_ids_have_a_checksum_and_a_time() {
    let p = auth_plain(1_700_000_000);
    assert_eq!(p[12..], [0xb8, 0x55, 0x75, 0xf7]);
    assert_eq!(check_auth_plain(&p, 1_700_000_120), Ok(()));
    assert_eq!(check_auth_plain(&p, 1_699_999_880), Ok(()));
    assert_eq!(check_auth_plain(&p, 1_700_000_121), Err(RequestError::StaleAuthId));
    let mut bent = p;
    bent[9] ^= 1;
    assert_eq!(check_auth_plain(&bent, 1_700_000_000), Err(RequestError::BadChecksum));
    assert_eq!(check_auth_plain(&auth_plain(i64::MIN), 1), Err(RequestError::StaleAuthId));
}

fn auth_id(cmd_key: &[u8; 16], time: i64) -> [u8; 16] {
    let key = kdf16(cmd_key, &[b"AES Auth ID Encryption"]);
    let cipher = Aes128::new_from_slice(&key).unwrap();
    let mut block = Block::clone_from_slice(&auth_plain(time));
    cipher.encrypt_block(&mut block);
    block.into()
}

#[test]
fn auth_ids_are_one_block() {
    let key = vmess_cmd_key(&[3; 16]);
    let id = auth_id(&key, 5000);
    assert_eq!(validate_auth_id_at(&id, &key, 5000), Ok(()));
    assert_eq!(validate_auth_id_at(&id, &vmess_cmd_key(&[4; 16]), 5000), Err(RequestError::BadChecksum));
    assert_eq!(validate_auth_id(&id, &key), Err(RequestError::StaleAuthId));
    let now = ruproxy::shadowsocks::header::now_unix_secs().unwrap() as i64;
    assert_eq!(validate_auth_id(&auth_id(&key, now), &key), Ok(()));
}

fn plain_header() -> Vec<u8> {
    let mut h = vec![1u8];
    h.extend(1u8..=32);
    h.extend_from_slice(&[0x5a, 0x05, 0x03, 0, 1]);
    h.extend_from_slice(&443u16.to_be_bytes());
    h.extend_from_slice(&[1, 127, 0, 0, 1]);
    h.extend_from_slice(&0x87dba190u32.to_be_bytes());
    h
}

fn resum(mut h: Vec<u8>) -> Vec<u8> {
    let n = h.len() - 4;
    let sum = fnv1a32(&h[..n]);
    h[n..].copy_from_slice(&sum.to_be_bytes());
    h
}

#[test]
fn plain_headers_say_where_to() {
    let q = parse_plain_header(&plain_header()).unwrap();
    assert_eq!(q.target, Target { host: Host::V4([127, 0, 0, 1]), port: 443 });
    assert_eq!(q.request_body_iv.to_vec(), (1u8..=16).collect::<Vec<u8>>());
    assert_eq!(q.request_body_key.to_vec(), (17u8..=32).collect::<Vec<u8>>());
    assert_eq!(q.response_body_key, sha256_16(&q.request_body_key));
    assert_eq!(q.response_body_iv, sha256_16(&q.request_body_iv));
    assert_eq!((q.response_token, q.option, q.security), (0x5a, 5, 3));
    assert_eq!(q.uplink().key, q.request_body_key);
    assert_eq!(q.downlink().iv, q.response_body_iv);
    let mut padded = plain_header();
    padded[35] = 0x23;
    padded.splice(45..45, [9, 9]);
    assert!(parse_plain_header(&resum(padded)).is_ok());
    let mut named = plain_header();
    named.splice(40..45, [2, 3, b'a', b'.', b'b']);
    assert_eq!(
        parse_plain_header(&resum(named)).unwrap().target,
        Target { host: Host::Domain("a.b".to_string()), port: 443 }
    );
}

fn refusal(h: &[u8]) -> RequestError {
    match parse_plain_header(h) {
        Err(e) => e,
        Ok(_) => panic!("taken"),
    }
}

#[test]
fn plain_headers_that_are_refused() {
    let h = plain_header();
    assert_eq!(refusal(&h[..40]), RequestError::TooShort);
    let with = |at: usize, b: u8| {
        let mut v = h.clone();
        v[at] = b;
        v
    };
    assert_eq!(refusal(&with(0, 2)), RequestError::Version(2));
    assert_eq!(refusal(&with(37, 2)), RequestError::Command(2));
    assert_eq!(refusal(&with(40, 9)), RequestError::AddressType(9));
    assert_eq!(refusal(&with(48, 0)), RequestError::ChecksumMismatch);
    assert_eq!(refusal(&h[..48]), RequestError::NoChecksum);
    assert_eq!(refusal(&h[..43]), RequestError::TruncatedAddress);
    let mut name = h.clone();
    name.splice(40..45, [2, 1, 0xff]);
    assert_eq!(refusal(&name), RequestError::NotUtf8);
}

fn sealed_header(cmd_key: &[u8; 16], time: i64, plain: &[u8]) -> Vec<u8> {
    let id = auth_id(cmd_key, time);
    let nonce = [7u8; 8];
    let len_key = kdf16(cmd_key, &[b"VMess Header AEAD Key_Length", &id, &nonce]);
    let len_iv = kdf12(cmd_key, &[b"VMess Header AEAD Nonce_Length", &id, &nonce]);
    let key = kdf16(cmd_key, &[b"VMess Header AEAD Key", &id, &nonce]);
    let iv = kdf12(cmd_key, &[b"VMess Header AEAD Nonce", &id, &nonce]);
    let mut out = id.to_vec();
    out.extend(aead_seal(&(plain.len() as u16).to_be_bytes(), &len_key, &len_iv, &id).unwrap());
    out.extend_from_slice(&nonce);
    out.extend(aead_seal(plain, &key, &iv, &id).unwrap());
    out
}

#[test]
fn sealed_headers_are_opened() {
    let key = vmess_cmd_key(&[3; 16]);
    let bytes = sealed_header(&key, 5000, &plain_header());
    match decode_request_header_at(&key, 5000, &bytes) {
        Decoded::Done(q, n) => {
            assert_eq!(q.target.port, 443);
            assert_eq!(n, bytes.len());
        }
        _ => panic!("not opened"),
    }
    for k in 0..bytes.len() {
        assert!(matches!(decode_request_header_at(&key, 5000, &bytes[..k]), Decoded::More(n) if n > k));
    }
    assert!(matches!(
        decode_request_header_at(&key, 9000, &bytes),
        Decoded::Bad(RequestError::StaleAuthId)
    ));
    let mut bent = bytes.clone();
    bent[20] ^= 1;
    assert!(matches!(
        decode_request_header_at(&key, 5000, &bent),
        Decoded::Bad(RequestError::LengthTag)
    ));
    let mut bent = bytes.clone();
    bent[50] ^= 1;
    assert!(matches!(
        decode_request_header_at(&key, 5000, &bent),
        Decoded::Bad(RequestError::HeaderTag)
    ));
    let short = sealed_header(&key, 5000, &[0; 40]);
    assert!(matches!(
        decode_request_header_at(&key, 5000, &short),
        Decoded::Bad(RequestError::BadLength(40))
    ));
    let now = ruproxy::shadowsocks::header::now_unix_secs().unwrap() as i64;
    let live = sealed_header(&key, now, &plain_header());
    assert!(matches!(decode_request_header(&key, &live), Decoded::Done(_, _)));
}

#[test]
fn a_client_opens_the_response() {
    let q = parse_plain_header(&plain_header()).unwrap();
    let bytes = encode_response_header(&q);
    let rk = q.response_body_key;
    let ri = q.response_body_iv;
    let len_key = kdf16(&rk, &[b"AEAD Resp Header Len Key"]);
    let len_iv = kdf12(&ri, &[b"AEAD Resp Header Len IV"]);
    assert_eq!(aead_open(&bytes[..18], &len_key, &len_iv, b""), Some(vec![0, 4]));
    let key = kdf16(&rk, &[b"AEAD Resp Header Key"]);
    let iv = kdf12(&ri, &[b"AEAD Resp Header IV"]);
    assert_eq!(aead_open(&bytes[18..], &key, &iv, b""), Some(vec![0x5a, 5, 0, 0]));
    assert_eq!(aead_open(&bytes[18..], &key, &iv, b"x"), None);
}

#[test]
fn cfb_of_the_standard() {
    let key: [u8; 16] = [
        0x2b, 0x7e, 0x15, 0x16, 0x28, 0xae, 0xd2, 0xa6, 0xab, 0xf7, 0x15, 0x88, 0x09, 0xcf, 0x4f, 0x3c,
    ];
    let iv: [u8; 16] = [0, 1, 2, 3, 4, 5, 6, 7, 8, 9, 10, 11, 12, 13, 14, 15];
    let plain = hex::decode("6bc1bee22e409f96e93d7e117393172aae2d8a571e03ac9c9eb76fac45af8e51").unwrap();
    let sealed = "3b3fd92eb72dad20333449f8e83cfb4ac8a64537a0b3a93fcde3cdad9f1ce58b";
    let mut w = Aes128CfbWriter::new(&key, &iv);
    assert_eq!(hex::encode(w.encrypt_bytes(&plain)), sealed);
    let mut w = Aes128CfbWriter::new(&key, &iv);
    let mut out = w.encrypt_bytes(&plain[..5]);
    out.extend(w.encrypt_bytes(&plain[5..]));
    assert_eq!(hex::encode(out), sealed);
}

#[test]
fn a_write_that_waits_is_not_encrypted_twice() {
    let mut w = Aes128CfbWriter::new(&[1; 16], &[2; 16]);
    assert!(matches!(w.start_write(b"hello"), WriteStep::Send));
    let first = w.pending_bytes().to_vec();
    assert_eq!(first.len(), 5);
    assert!(matches!(w.on_event(WriteEvent::Pending), WriteStep::Wait));
    assert!(matches!(w.start_write(b"hello"), WriteStep::Send));
    assert_eq!(w.pending_bytes(), first);
    assert!(matches!(w.on_event(WriteEvent::Took(2)), WriteStep::Send));
    assert_eq!(w.pending_bytes(), &first[2..]);
    assert!(matches!(w.on_event(WriteEvent::Took(0)), WriteStep::WriteZero));
    assert!(matches!(w.on_event(WriteEvent::Failed), WriteStep::Failed));
    assert!(matches!(w.on_event(WriteEvent::Took(3)), WriteStep::Done));
}
