use ruproxy::address::{AddressError, Host, Target};
use ruproxy::config::SocksUser;
use ruproxy::socks::{check_login, connect_reply, reply, Handshake, SocksError, SocksStep, Stage};

fn users() -> Vec<SocksUser> {
    vec![
        SocksUser { username: "alice".to_string(), password: "secret".to_string() },
        SocksUser { username: "bob".to_string(), password: "\u{fffd}".to_string() },
    ]
}

fn expect_reply(step: SocksStep) -> (Vec<u8>, usize) {
    match step {
        SocksStep::Reply(b, n) => (b, n),
        _ => panic!("no reply"),
    }
}

fn expect_refusal(step: SocksStep) -> (Vec<u8>, SocksError) {
    match step {
        SocksStep::Refuse(b, e) => (b, e),
        _ => panic!("not refused"),
    }
}

#[test]
fn an_open_server_takes_a_client_without_login() {
    let mut h = Handshake::new();
    let none = vec![];
    assert!(matches!(h.step(&none, &[]), SocksStep::More(1)));
    assert!(matches!(h.step(&none, &[5]), SocksStep::More(2)));
    assert!(matches!(h.step(&none, &[5, 2, 0]), SocksStep::More(4)));
    assert_eq!(expect_reply(h.step(&none, &[5, 2, 1, 0])), (vec![5, 0], 4));
    assert_eq!(h.stage, Stage::Request);
    let mut req = vec![5, 1, 0, 3, 3, b'a', b'.', b'b', 0, 80];
    req.extend_from_slice(b"GET");
    match h.step(&none, &req) {
        SocksStep::Connect(t, n) => {
            assert_eq!(t, Target { host: Host::Domain("a.b".to_string()), port: 80 });
            assert_eq!(n, 10);
        }
        _ => panic!("no connection"),
    }
    assert_eq!(h.stage, Stage::Over);
}

#[test]
fn a_user_logs_in() {
    let mut h = Handshake::new();
    assert_eq!(expect_reply(h.step(&users(), &[5, 2, 0, 2])), (vec![5, 2], 4));
    let mut login = vec![1, 5];
    login.extend_from_slice(b"alice");
    assert!(matches!(h.step(&users(), &login), SocksStep::More(8)));
    login.push(6);
    login.extend_from_slice(b"secret");
    assert_eq!(expect_reply(h.step(&users(), &login)), (vec![1, 0], 14));
    assert_eq!(h.stage, Stage::Request);
}

#[test]
fn a_wrong_password_is_refused() {
    let mut h = Handshake::new();
    h.step(&users(), &[5, 1, 2]);
    let mut login = vec![1, 5];
    login.extend_from_slice(b"alice");
    login.push(5);
    login.extend_from_slice(b"wrong");
    assert_eq!(expect_refusal(h.step(&users(), &login)), (vec![1, 1], SocksError::Login));
    assert_eq!(expect_refusal(h.step(&users(), &login)), (vec![], SocksError::Over));
}

#[test]
fn a_server_with_users_takes_nobody_without_login() {
    let mut h = Handshake::new();
    assert_eq!(expect_refusal(h.step(&users(), &[5, 1, 0])), (vec![5, 0xff], SocksError::NoMethod));
    let mut h = Handshake::new();
    assert_eq!(expect_refusal(h.step(&vec![], &[5, 1, 2])), (vec![5, 0xff], SocksError::NoMethod));
}

#[test]
fn wrong_versions_are_refused() {
    assert_eq!(
        expect_refusal(Handshake::new().step(&vec![], &[4])),
        (vec![], SocksError::Version(4))
    );
    let mut h = Handshake { stage: Stage::Credentials };
    assert_eq!(expect_refusal(h.step(&users(), &[5])), (vec![], SocksError::CredentialsVersion(5)));
    let mut h = Handshake { stage: Stage::Request };
    assert_eq!(expect_refusal(h.step(&users(), &[4])), (vec![], SocksError::Version(4)));
}

#[test]
fn requests_that_are_not_served() {
    let mut h = Handshake { stage: Stage::Request };
    assert_eq!(
        expect_refusal(h.step(&vec![], &[5, 1, 0, 9])),
        (reply(8), SocksError::Address(AddressError::UnknownType(9)))
    );
    let mut h = Handshake { stage: Stage::Request };
    assert_eq!(
        expect_refusal(h.step(&vec![], &[5, 3, 0, 1, 1, 2, 3, 4, 0, 1])),
        (reply(7), SocksError::Command(3))
    );
    let mut h = Handshake { stage: Stage::Request };
    assert_eq!(
        expect_refusal(h.step(&vec![], &[5, 1, 0, 3, 1, 0xff])),
        (vec![], SocksError::Address(AddressError::NotUtf8))
    );
}

#[test]
fn replies_hold_their_code() {
    assert_eq!(reply(7), vec![5, 7, 0, 1, 0, 0, 0, 0, 0, 0]);
    assert_eq!(connect_reply(true), vec![5, 0, 0, 1, 0, 0, 0, 0, 0, 0]);
    assert_eq!(connect_reply(false), vec![5, 1, 0, 1, 0, 0, 0, 0, 0, 0]);
}

#[test]
fn invalid_bytes_are_replaced_before_they_are_compared() {
    assert!(check_login(&users(), b"bob", &[0xff]));
    assert!(check_login(&users(), b"bob", "\u{fffd}".as_bytes()));
    assert!(!check_login(&users(), b"alice", &[0xff]));
}
