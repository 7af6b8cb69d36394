use ruproxy::address::{AddressError, Host, Target};
use ruproxy::config::ShadowsocksCipher;
use ruproxy::shadowsocks::aead::{
    aead_decrypt, aead_encrypt, decode_master_key, derive_session_subkey, increment_nonce, AeadError,
    AeadReader, AeadWriter, MAX_CHUNK,
};
use ruproxy::shadowsocks::header::{
    build_request_header, build_request_header_at, build_response_header, build_response_header_at,
    build_response_header_by,
    check_timestamp, check_timestamp_at, now_unix_secs, parse_address, parse_request_header,
    parse_request_header_at, parse_response_header, parse_response_header_at, BuildError,
    HeaderError,
};
use ruproxy::shadowsocks::server::{
    begin_answer, begin_answer_at, begin_answer_by, read_opening, read_opening_at, SessionError,
};
use ruproxy::wire::Decoded;

const CIPHERS: [ShadowsocksCipher; 3] = [
    ShadowsocksCipher::Blake3Aes128Gcm,
    ShadowsocksCipher::Blake3Aes256Gcm,
    ShadowsocksCipher::Blake3Chacha20Poly1305,
];

fn target() -> Target {
    Target { host: Host::Domain("example.com".to_string()), port: 443 }
}

#[test]
fn subkeys_are_derived_by_blake3() {
    let key = derive_session_subkey(&[1; 32], &[2; 32], 16);
    let mut ikm = vec![1u8; 32];
    ikm.extend_from_slice(&[2; 32]);
    let whole = blake3::derive_key("shadowsocks 2022 session subkey", &ikm);
    assert_eq!(key, whole[..16]);
    assert_eq!(derive_session_subkey(&[1; 32], &[2; 32], 32), whole);
    assert_ne!(derive_session_subkey(&[1; 32], &[3; 32], 16), key);
}

#[test]
fn a_password_is_the_key_in_base64() {
    assert_eq!(decode_master_key(" AAECAwQFBgcICQoLDA0ODw== ", 16), Ok((0..16).collect::<Vec<u8>>()));
    assert_eq!(decode_master_key("AAECAwQFBgcICQoLDA0ODw==", 32), Err(AeadError::KeyLength));
    assert_eq!(decode_master_key("***", 16), Err(AeadError::NotBase64));
}

#[test]
fn messages_are_sealed_and_opened() {
    for c in CIPHERS {
        let key = vec![7u8; c.key_len()];
        let sealed = aead_encrypt(&c, &key, &[1; 12], b"hello").unwrap();
        assert_eq!(sealed.len(), 5 + 16);
        assert_ne!(&sealed[..5], b"hello");
        assert_eq!(aead_decrypt(&c, &key, &[1; 12], &sealed), Ok(b"hello".to_vec()));
        assert_eq!(aead_decrypt(&c, &key, &[2; 12], &sealed), Err(AeadError::Tag));
        assert_eq!(aead_encrypt(&c, &key[1..], &[1; 12], b""), Err(AeadError::KeyLength));
    }
}

#[test]
fn the_aes_gcm_of_the_standard() {
    let sealed = aead_encrypt(&CIPHERS[0], &[0; 16], &[0; 12], &[0; 16]).unwrap();
    assert_eq!(hex::encode(sealed), "0388dace60b6a392f328c2b971b2fe78ab6e47d42cec13bdf53a67b21257bddf");
    let sealed = aead_encrypt(&CIPHERS[1], &[0; 32], &[0; 12], &[0; 16]).unwrap();
    assert_eq!(hex::encode(sealed), "cea7403d4d606b6e074ec5d3baf39d18d0d1c8a799996bf0265b98b5d48ab919");
}

#[test]
fn nonces_count_up_from_the_low_end() {
    let mut n = [0u8; 12];
    increment_nonce(&mut n);
    assert_eq!(n, [1, 0, 0, 0, 0, 0, 0, 0, 0, 0, 0, 0]);
    let mut n = [0xff; 12];
    n[11] = 0;
    increment_nonce(&mut n);
    assert_eq!(n, [0, 0, 0, 0, 0, 0, 0, 0, 0, 0, 0, 1]);
    let mut n = [0xff; 12];
    increment_nonce(&mut n);
    assert_eq!(n, [0; 12]);
}

#[test]
fn a_stream_is_read_back() {
    for c in CIPHERS {
        let key = vec![3u8; c.key_len()];
        let data: Vec<u8> = (0..2 * MAX_CHUNK + 5).map(|i| i as u8).collect();
        let mut w = AeadWriter::new(c, key.clone());
        let head = w.write_header_chunk(b"head").unwrap();
        let bytes = w.write_data(&data).unwrap();
        let mut r = AeadReader::new(c, key);
        match r.read_header_chunk(&head) {
            Decoded::Done(p, n) => {
                assert_eq!(p, b"head");
                assert_eq!(n, head.len());
            }
            _ => panic!("no header"),
        }
        let mut at = 0;
        while at < bytes.len() {
            match r.fill_buf(&bytes[at..]) {
                Decoded::Done(_, n) => at += n,
                _ => panic!("no chunk"),
            }
        }
        assert_eq!(r.nonce, w.nonce);
        assert_eq!(r.read_exact_plain(3), Some(data[..3].to_vec()));
        assert_eq!(r.read_plain(usize::MAX), data[3..].to_vec());
        assert_eq!(r.read_exact_plain(1), None);
    }
}

#[test]
fn a_chunk_waits_for_its_bytes() {
    let c = CIPHERS[0];
    let mut w = AeadWriter::new(c, vec![3; 16]);
    let chunk = w.write_header_chunk(b"abc").unwrap();
    let mut r = AeadReader::new(c, vec![3; 16]);
    assert!(matches!(r.read_header_chunk(&chunk[..17]), Decoded::More(18)));
    assert!(matches!(r.read_header_chunk(&chunk[..18]), Decoded::More(37)));
    let mut bent = chunk.clone();
    bent[20] ^= 1;
    assert!(matches!(r.read_header_chunk(&bent), Decoded::Bad(AeadError::Tag)));
    assert!(matches!(r.read_header_chunk(&chunk), Decoded::Done(_, 37)));
}

#[test]
fn a_new_key_starts_over() {
    let mut w = AeadWriter::new(CIPHERS[0], vec![3; 16]);
    let first = w.write_data(b"x").unwrap();
    w.reset_subkey(vec![3; 16]);
    assert_eq!(w.write_data(b"x").unwrap(), first);
    let mut bad = AeadWriter::new(CIPHERS[0], vec![3; 15]);
    assert_eq!(bad.write_data(b"x"), Err(AeadError::KeyLength));
    assert_eq!(bad.write_data(b""), Ok(vec![]));
}

#[test]
fn timestamps_may_be_off_by_half_a_minute() {
    assert_eq!(check_timestamp_at(100, 130), Ok(()));
    assert_eq!(check_timestamp_at(130, 100), Ok(()));
    assert_eq!(check_timestamp_at(100, 131), Err(HeaderError::Stale(31)));
    let now = now_unix_secs().unwrap();
    assert!(now > 1_600_000_000);
    assert_eq!(check_timestamp(now), Ok(()));
    assert!(matches!(check_timestamp(0), Err(HeaderError::Stale(_))));
}

#[test]
fn request_headers_are_read_back() {
    let b = build_request_header_at(&target(), 1000).unwrap();
    assert_eq!(b[..9], [0, 0, 0, 0, 0, 0, 0, 3, 0xe8]);
    assert_eq!(parse_request_header_at(&b, 0, 1030), Ok(target()));
    assert_eq!(parse_request_header_at(&b, 0, 1031), Err(HeaderError::Stale(31)));
    assert_eq!(parse_request_header_at(&b, 1, 1000), Err(HeaderError::WrongType(0)));
    assert_eq!(parse_request_header_at(&b[..17], 0, 1000), Err(HeaderError::TooShort));
    assert_eq!(parse_request_header_at(&b[..b.len() - 1], 0, 1000), Err(HeaderError::NoPadding));
    let mut padded = b.clone();
    let n = padded.len();
    padded[n - 1] = 1;
    assert_eq!(parse_request_header_at(&padded, 0, 1000), Err(HeaderError::TruncatedPadding));
    padded.push(0);
    assert_eq!(parse_request_header_at(&padded, 0, 1000), Ok(target()));
    let live = build_request_header(&target()).unwrap();
    assert_eq!(parse_request_header(&live, 0), Ok(target()));
}

#[test]
fn a_short_name_makes_a_header_too_short() {
    let t = Target { host: Host::Domain("ab".to_string()), port: 1 };
    let b = build_request_header_at(&t, 1000).unwrap();
    assert_eq!(parse_request_header_at(&b, 0, 1000), Err(HeaderError::TooShort));
}

#[test]
fn long_names_are_not_written() {
    let t = Target { host: Host::Domain("x".repeat(256)), port: 1 };
    assert_eq!(build_request_header_at(&t, 0), Err(AddressError::DomainTooLong));
    assert!(matches!(
        build_request_header(&t),
        Err(BuildError::Address(AddressError::DomainTooLong))
    ));
}

#[test]
fn response_headers_give_the_salt_back() {
    let salt: Vec<u8> = (0..16).collect();
    let b = build_response_header_at(&salt, 5);
    assert_eq!(b[..9], [1, 0, 0, 0, 0, 0, 0, 0, 5]);
    assert_eq!(parse_response_header_at(&b, 16, 5), Ok(salt.clone()));
    assert_eq!(parse_response_header_at(&b, 32, 5), Err(HeaderError::TooShort));
    assert_eq!(parse_response_header_at(&b, 16, 36), Err(HeaderError::Stale(31)));
    let live = build_response_header(&salt).unwrap();
    assert_eq!(parse_response_header(&live, 16), Ok(salt));
}

#[test]
fn addresses_in_headers_must_be_whole() {
    assert_eq!(
        parse_address(&[1, 1, 2, 3, 4, 0, 80, 9]),
        Ok((Target { host: Host::V4([1, 2, 3, 4]), port: 80 }, 7))
    );
    assert_eq!(parse_address(&[1, 1, 2]), Err(AddressError::Truncated));
    assert_eq!(parse_address(&[]), Err(AddressError::Truncated));
    assert_eq!(parse_address(&[9]), Err(AddressError::UnknownType(9)));
}

fn client_hello(c: ShadowsocksCipher, master: &[u8], salt: &[u8], now: u64) -> Vec<u8> {
    let key = derive_session_subkey(master, salt, c.key_len());
    let mut w = AeadWriter::new(c, key);
    let header = build_request_header_at(&target(), now).unwrap();
    let mut out = salt.to_vec();
    out.extend_from_slice(&w.write_header_chunk(&header).unwrap());
    out.extend_from_slice(&w.write_data(b"payload").unwrap());
    out
}

#[test]
fn a_connection_opens() {
    for c in CIPHERS {
        let master = vec![9u8; c.key_len()];
        let salt = vec![4u8; c.salt_len()];
        let hello = client_hello(c, &master, &salt, 1000);
        match read_opening_at(c, &master, &hello, 1000) {
            Decoded::Done(mut o, n) => {
                assert_eq!(o.target, target());
                assert_eq!(o.client_salt, salt);
                assert!(matches!(o.reader.fill_buf(&hello[n..]), Decoded::Done(_, _)));
                assert_eq!(o.reader.read_plain(100), b"payload");
            }
            _ => panic!("not opened"),
        }
        let (bytes, mut writer) = begin_answer_at(c, &master, &salt, &vec![6; c.salt_len()], 1000);
        let n = c.salt_len();
        assert_eq!(&bytes[..n], &vec![6; n]);
        let key = derive_session_subkey(&master, &bytes[..n], n);
        let mut r = AeadReader::new(c, key);
        match r.read_header_chunk(&bytes[n..]) {
            Decoded::Done(h, used) => {
                assert_eq!(used, bytes.len() - n);
                assert_eq!(parse_response_header_at(&h, n, 1000), Ok(salt));
            }
            _ => panic!("no answer"),
        }
        let data = writer.write_data(b"reply").unwrap();
        assert!(matches!(r.fill_buf(&data), Decoded::Done(_, _)));
        assert_eq!(r.read_plain(100), b"reply");
    }
}

#[test]
fn openings_that_are_refused() {
    let c = CIPHERS[0];
    let hello = client_hello(c, &[9; 16], &[4; 16], 1000);
    assert!(matches!(read_opening_at(c, &[9; 16], &hello[..15], 1000), Decoded::More(16)));
    assert!(matches!(read_opening_at(c, &[9; 16], &hello[..20], 1000), Decoded::More(34)));
    assert!(matches!(
        read_opening_at(c, &[8; 16], &hello, 1000),
        Decoded::Bad(SessionError::Chunk(AeadError::Tag))
    ));
    assert!(matches!(
        read_opening_at(c, &[9; 16], &hello, 2000),
        Decoded::Bad(SessionError::Header(HeaderError::Stale(1000)))
    ));
    let now = now_unix_secs().unwrap();
    let live = client_hello(c, &[9; 16], &[4; 16], now);
    match read_opening(c, &[9; 16], &live) {
        Decoded::Done(o, _) => {
            assert_eq!(o.target, target());
            assert_eq!(o.client_salt, vec![4; 16]);
            assert_eq!(o.reader.subkey, derive_session_subkey(&[9; 16], &[4; 16], 16));
            assert_eq!(o.reader.nonce, [2, 0, 0, 0, 0, 0, 0, 0, 0, 0, 0, 0]);
            assert!(o.reader.buf.is_empty());
        }
        _ => panic!("not opened"),
    }
}

#[test]
fn answers_use_fresh_salts() {
    let c = CIPHERS[1];
    let (a, _) = begin_answer(c, &[9; 32], &[4; 32]).unwrap();
    let (b, _) = begin_answer(c, &[9; 32], &[4; 32]).unwrap();
    assert_ne!(a[..32], b[..32]);
}

#[test]
fn the_clock_decides_whether_there_is_an_answer() {
    let salt: Vec<u8> = vec![4; 16];
    assert_eq!(build_response_header_by(&salt, None), None);
    assert_eq!(build_response_header_by(&salt, Some(5)), Some(build_response_header_at(&salt, 5)));
    let c = CIPHERS[0];
    assert!(begin_answer_by(c, &[9; 16], &salt, &[6; 16], None).is_none());
    let (by, _) = begin_answer_by(c, &[9; 16], &salt, &[6; 16], Some(5)).unwrap();
    let (at, _) = begin_answer_at(c, &[9; 16], &salt, &[6; 16], 5);
    assert_eq!(by, at);
}

#[test]
fn every_piece_takes_two_nonces() {
    let c = CIPHERS[0];
    for (len, nonce) in [(0, 0), (1, 2), (0x3fff, 2), (0x4000, 4), (3 * 0x3fff, 6)] {
        let mut w = AeadWriter::new(c, vec![1; 16]);
        w.write_data(&vec![7; len]).unwrap();
        assert_eq!(w.nonce, [nonce, 0, 0, 0, 0, 0, 0, 0, 0, 0, 0, 0]);
    }
    let mut bad = AeadWriter::new(c, vec![1; 3]);
    assert_eq!(bad.write_header_chunk(b"x"), Err(AeadError::KeyLength));
    assert_eq!(bad.nonce, [0; 12]);
}

#[test]
fn bytes_behind_a_request_header_do_not_count() {
    let short = Target { host: Host::Domain("ab".to_string()), port: 80 };
    let mut b = build_request_header_at(&short, 5).unwrap();
    assert_eq!(parse_request_header_at(&b, 0, 5), Err(HeaderError::TooShort));
    b.extend_from_slice(&[9, 9, 9]);
    assert_eq!(parse_request_header_at(&b, 0, 5), Ok(short));
}
