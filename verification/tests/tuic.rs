use ruproxy::address::SockAddr;
use ruproxy::tuic::connection::{
    bi_target, datagram_step, keying_inputs, outgoing, reply_datagram, reply_header, uni_step, unmap,
    AuthOutcome, Authenticated, ConnectionState, DatagramStep, Outgoing, PacketStep, UdpMode,
    UniStep,
};
use ruproxy::tuic::error::Error;
use ruproxy::tuic::proto::{
    build_packet_header, Address, AuthInfo, Command, PacketInfo, ProtoError,
};
use ruproxy::wire::Decoded;
use std::collections::HashMap;

fn v4() -> Address {
    Address::SocketAddress(SockAddr::V4([1, 2, 3, 4], 53))
}

#[test]
fn tuic_addresses_are_read_back() {
    let all = [
        (Address::Absent, vec![0xff]),
        (Address::DomainAddress("a.b".to_string(), 80), vec![0, 3, b'a', b'.', b'b', 0, 80]),
        (v4(), vec![1, 1, 2, 3, 4, 0, 53]),
    ];
    for (a, b) in all {
        assert_eq!(a.to_bytes(), b);
        match Address::read_from(&b) {
            Decoded::Done(back, n) => {
                assert_eq!(back, a);
                assert_eq!(n, b.len());
            }
            _ => panic!("not read back"),
        }
        for k in 0..b.len() {
            assert!(matches!(Address::read_from(&b[..k]), Decoded::More(n) if n > k));
        }
    }
    let v6 = Address::SocketAddress(SockAddr::V6([9; 16], 1));
    assert!(matches!(Address::read_from(&v6.to_bytes()), Decoded::Done(a, 19) if a == v6));
    assert!(matches!(Address::read_from(&[7]), Decoded::Bad(ProtoError::AddressType(7))));
    assert!(matches!(Address::read_from(&[0, 1, 0xff, 0, 1]), Decoded::Bad(ProtoError::NotUtf8)));
}

#[test]
fn commands_are_decoded() {
    let mut auth = vec![5, 0];
    auth.extend(0u8..48);
    match Command::decode(&auth, true) {
        Decoded::Done(Command::Authenticate(a), 50) => {
            assert_eq!(a.uuid, 0x000102030405060708090a0b0c0d0e0f);
            assert_eq!(a.token.to_vec(), (16u8..48).collect::<Vec<u8>>());
        }
        _ => panic!("no command"),
    }
    let mut connect = vec![5, 1];
    connect.extend(v4().to_bytes());
    assert!(matches!(Command::decode(&connect, true), Decoded::Done(Command::Connect(a), 9) if a == v4()));
    assert!(matches!(Command::decode(&connect, false), Decoded::Bad(ProtoError::Command(1))));
    assert!(matches!(Command::decode(&[5, 3, 1, 2], true), Decoded::Done(Command::Dissociate(0x102), 4)));
    assert!(matches!(Command::decode(&[5, 4], true), Decoded::Done(Command::Heartbeat, 2)));
    assert!(matches!(Command::decode(&[4, 4], true), Decoded::Bad(ProtoError::Version(4))));
    assert!(matches!(Command::decode(&[5, 9], true), Decoded::Bad(ProtoError::Command(9))));
    assert_eq!(Command::read_from_datagram(&[5, 3, 1]), Err(ProtoError::Truncated));
    assert_eq!(Command::read_from_datagram(&[5, 4]), Ok(Command::Heartbeat));
}

#[test]
fn the_prefix_tells_commands_apart() {
    assert!(Command::is_tuic_prefix([5, 0]));
    assert!(Command::is_tuic_prefix([5, 4]));
    assert!(!Command::is_tuic_prefix([5, 5]));
    assert!(!Command::is_tuic_prefix([4, 0]));
}

fn packet(frag_total: u8, assoc_id: u16) -> PacketInfo {
    PacketInfo { assoc_id, pkt_id: 2, frag_total, frag_id: 0, size: 3, addr: v4() }
}

#[test]
fn packets_are_read_back() {
    let mut b = build_packet_header(1, 2, &v4(), 3);
    assert_eq!(b, vec![5, 2, 0, 1, 0, 2, 1, 0, 0, 3, 1, 1, 2, 3, 4, 0, 53]);
    b.extend_from_slice(b"abc");
    match datagram_step(&b) {
        DatagramStep::Packet(p, payload) => {
            assert_eq!(p, packet(1, 1));
            assert_eq!(payload, b"abc");
        }
        _ => panic!("no packet"),
    }
    assert!(matches!(datagram_step(&[5, 4]), DatagramStep::Ignore));
    assert!(matches!(datagram_step(&[1, 2, 3]), DatagramStep::Ignore));
}

#[test]
fn replies_are_packets() {
    let head = reply_header(1, 2, SockAddr::V4([1, 2, 3, 4], 53), 3);
    assert_eq!(head, build_packet_header(1, 2, &v4(), 3));
    let dg = reply_datagram(&head, b"abc");
    assert!(matches!(datagram_step(&dg), DatagramStep::Packet(p, d) if p == packet(1, 1) && d == b"abc"));
}

#[test]
fn streams_carry_their_own_commands() {
    let auth = Command::Authenticate(AuthInfo { uuid: 1, token: [0; 32] });
    assert_eq!(uni_step(&auth), UniStep::Authenticate);
    assert_eq!(uni_step(&Command::Packet(packet(1, 1))), UniStep::Packet);
    assert_eq!(uni_step(&Command::Dissociate(1)), UniStep::Dissociate);
    assert_eq!(uni_step(&Command::Heartbeat), UniStep::Ignore);
    assert_eq!(uni_step(&Command::Connect(v4())), UniStep::Ignore);
    assert_eq!(bi_target(Command::Connect(v4())), Some(v4()));
    assert_eq!(bi_target(Command::Heartbeat), None);
}

#[test]
fn a_client_signs_on_once() {
    let mut c = ConnectionState::new();
    assert!(!c.is_authenticated());
    assert_eq!(c.authenticate(1, &[1; 32], &None), AuthOutcome::Rejected);
    assert_eq!(c.authenticate(1, &[1; 32], &Some(vec![2; 32])), AuthOutcome::Rejected);
    assert!(!c.is_authenticated());
    assert_eq!(c.authenticate(1, &[1; 32], &Some(vec![1; 32])), AuthOutcome::Accepted);
    assert_eq!(c.user(), Some(1));
    assert_eq!(c.authenticate(2, &[1; 32], &Some(vec![1; 32])), AuthOutcome::Duplicate);
    assert_eq!(c.user(), Some(1));
    let mut a = Authenticated::new();
    assert!(!a.is_authenticated());
    a.set(9);
    assert!(a.is_authenticated());
    assert_eq!(a.get(), Some(9));
}

#[test]
fn tokens_come_from_the_user() {
    let mut users = HashMap::new();
    users.insert(0x0102u128, "pw".to_string());
    let (label, context) = keying_inputs(&users, 0x0102).unwrap();
    assert_eq!(label, 0x0102u128.to_be_bytes());
    assert_eq!(context, b"pw");
    assert!(keying_inputs(&users, 3).is_none());
}

#[test]
fn packets_open_their_association() {
    let mut c = ConnectionState::new();
    assert_eq!(c.reply_mode(), UdpMode::Native);
    assert_eq!(c.on_packet(&packet(2, 7), UdpMode::Quic), PacketStep::Drop);
    assert_eq!(c.reply_mode(), UdpMode::Quic);
    assert_eq!(c.on_packet(&packet(1, 7), UdpMode::Native), PacketStep::Open);
    assert_eq!(c.reply_mode(), UdpMode::Quic);
    c.session_opened(7);
    assert_eq!(c.on_packet(&packet(1, 7), UdpMode::Quic), PacketStep::Relay);
    assert!(c.dissociate(7));
    assert!(!c.dissociate(7));
    assert_eq!(c.on_packet(&packet(1, 7), UdpMode::Quic), PacketStep::Open);
}

#[test]
fn mapped_addresses_are_ipv4() {
    let mut m = [0u8; 16];
    m[10] = 0xff;
    m[11] = 0xff;
    m[12..].copy_from_slice(&[1, 2, 3, 4]);
    let mapped = SockAddr::V6(m, 5);
    let plain = SockAddr::V4([1, 2, 3, 4], 5);
    assert_eq!(unmap(mapped), plain);
    assert_eq!(unmap(plain), plain);
    let six = SockAddr::V6([1; 16], 5);
    assert_eq!(unmap(six), six);
    assert!(matches!(outgoing(mapped, false), Outgoing::V4(a) if a == plain));
    assert!(matches!(outgoing(six, true), Outgoing::V6(a) if a == six));
    assert!(matches!(outgoing(six, false), Outgoing::Ipv6Disabled));
}

#[test]
fn quiet_ends() {
    assert!(Error::TimedOut.is_trivial());
    assert!(Error::LocallyClosed.is_trivial());
    assert!(!Error::DuplicatedAuth.is_trivial());
    assert!(!Error::Io("x".to_string()).is_trivial());
}
