use ruproxy::address::{AddressError, Host, Target};
use ruproxy::trojan::{check_password, decode_trojan, TrojanError};
use ruproxy::wire::Decoded;

const ABC: &str = "23097d223405d8228642a477bda255b32aadbce4bda0b3f7e36c9da7";

fn hello() -> Vec<u8> {
    let mut v = ABC.as_bytes().to_vec();
    v.extend_from_slice(b"\r\n");
    v.extend_from_slice(&[1, 1, 10, 0, 0, 1, 0x1f, 0x90]);
    v.extend_from_slice(b"\r\n");
    v
}

#[test]
fn a_client_with_the_password_gets_through() {
    let mut all = hello();
    all.extend_from_slice(b"data");
    match decode_trojan("abc", &all) {
        Decoded::Done(t, n) => {
            assert_eq!(t, Target { host: Host::V4([10, 0, 0, 1]), port: 8080 });
            assert_eq!(n, hello().len());
        }
        _ => panic!("not read"),
    }
    for k in 0..hello().len() {
        assert!(matches!(decode_trojan("abc", &all[..k]), Decoded::More(n) if n > k));
    }
}

#[test]
fn the_password_line_is_the_hash() {
    assert!(check_password(ABC.as_bytes(), "abc"));
    assert!(!check_password(ABC.to_uppercase().as_bytes(), "abc"));
    assert!(!check_password(b"abc", "abc"));
    assert!(!check_password(&[0xff; 56], "abc"));
}

#[test]
fn other_clients_are_turned_away() {
    assert!(matches!(decode_trojan("abd", &hello()), Decoded::Bad(TrojanError::Password)));
    assert!(matches!(decode_trojan("abc", &[b'a'; 256]), Decoded::More(257)));
    assert!(matches!(decode_trojan("abc", &[b'a'; 257]), Decoded::Bad(TrojanError::NoLine)));
    let mut udp = hello();
    udp[58] = 3;
    assert!(matches!(decode_trojan("abc", &udp), Decoded::Bad(TrojanError::Command(3))));
    let mut atyp = hello();
    atyp[59] = 2;
    assert!(matches!(
        decode_trojan("abc", &atyp),
        Decoded::Bad(TrojanError::Address(AddressError::UnknownType(2)))
    ));
}

#[test]
fn the_longest_line_that_is_read() {
    let mut v = vec![b'a'; 255];
    v.extend_from_slice(b"\r\n");
    assert!(matches!(decode_trojan("abc", &v), Decoded::Bad(TrojanError::Password)));
    let mut v = vec![b'a'; 256];
    v.extend_from_slice(b"\r\n");
    assert!(matches!(decode_trojan("abc", &v), Decoded::Bad(TrojanError::NoLine)));
}
