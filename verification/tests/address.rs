use ruproxy::address::{encode_address, read_address, split_authority, AddressError, Host, Target};
use ruproxy::wire::Decoded;

fn round_trip(t: Target) -> Vec<u8> {
    let mut out = Vec::new();
    assert_eq!(encode_address(&t, &mut out), Ok(()));
    let whole = out.len();
    let mut with_rest = out.clone();
    with_rest.extend_from_slice(b"rest");
    match read_address(&with_rest) {
        Decoded::Done(back, n) => {
            assert_eq!(back, t);
            assert_eq!(n, whole);
        }
        _ => panic!("not read back"),
    }
    for k in 0..whole {
        assert!(matches!(read_address(&out[..k]), Decoded::More(n) if n > k && n <= whole));
    }
    out
}

#[test]
fn addresses_are_read_back() {
    assert_eq!(
        round_trip(Target { host: Host::V4([127, 0, 0, 1]), port: 443 }),
        vec![1, 127, 0, 0, 1, 1, 187]
    );
    round_trip(Target { host: Host::V6([7; 16]), port: 0 });
    assert_eq!(
        round_trip(Target { host: Host::Domain("a.b".to_string()), port: 0xfffe }),
        vec![3, 3, b'a', b'.', b'b', 0xff, 0xfe]
    );
    round_trip(Target { host: Host::Domain(String::new()), port: 1 });
    round_trip(Target { host: Host::Domain("x".repeat(255)), port: 1 });
}

#[test]
fn bad_addresses_are_refused() {
    assert!(matches!(read_address(&[2]), Decoded::Bad(AddressError::UnknownType(2))));
    assert!(matches!(read_address(&[3, 1, 0xff]), Decoded::Bad(AddressError::NotUtf8)));
    let mut out = Vec::new();
    let long = Target { host: Host::Domain("x".repeat(256)), port: 1 };
    assert_eq!(encode_address(&long, &mut out), Err(AddressError::DomainTooLong));
}

#[test]
fn authorities_are_split_at_the_last_colon() {
    assert_eq!(split_authority("example.com:80"), Ok(("example.com".to_string(), 80)));
    assert_eq!(split_authority("[::1]:443"), Ok(("::1".to_string(), 443)));
    assert_eq!(split_authority("::1:443"), Ok(("::1".to_string(), 443)));
    assert_eq!(split_authority("example.com"), Err(AddressError::NoPort));
    assert_eq!(split_authority("example.com:65536"), Err(AddressError::NoPort));
    assert_eq!(split_authority("example.com:"), Err(AddressError::NoPort));
}
