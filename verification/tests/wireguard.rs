use ruproxy::address::SockAddr;
use ruproxy::config::{WireGuardConfig, WireGuardPeerConfig};
use ruproxy::generate::key_text;
use ruproxy::wireguard::flow::{parse_flow_key, FlowTable, Wanted, PROTO_TCP, PROTO_UDP};
use ruproxy::wireguard::iface::VirtualDevice;
use ruproxy::wireguard::peer::{packet_src_ip, Ip, Network, Peer};
use ruproxy::wireguard::server::{
    read_key, read_networks, read_peer, read_setup, split_cidr, KeyError, Opened, PeerError, Server,
    SetupError, Step,
};

fn v4(a: u8, b: u8, c: u8, d: u8) -> Ip {
    Ip::V4([a, b, c, d])
}

fn nets(texts: &[&str]) -> Vec<Network> {
    let own: Vec<String> = texts.iter().map(|t| t.to_string()).collect();
    match read_networks(&own) {
        Ok(n) => n,
        Err(k) => panic!("no network: {}", texts[k]),
    }
}

#[test]
fn networks_hold_their_addresses() {
    let n = nets(&["10.1.0.0/16"])[0];
    assert_eq!(n, Network { address: v4(10, 1, 0, 0), prefix: 16 });
    assert!(n.contains(&v4(10, 1, 0, 0)));
    assert!(n.contains(&v4(10, 1, 255, 255)));
    assert!(!n.contains(&v4(10, 2, 0, 0)));
    assert!(!n.contains(&Ip::V6([0; 16])));
    let odd = nets(&["192.168.4.0/22"])[0];
    assert!(odd.contains(&v4(192, 168, 7, 1)));
    assert!(!odd.contains(&v4(192, 168, 8, 1)));
    let one = nets(&["10.0.0.2/32"])[0];
    assert!(one.contains(&v4(10, 0, 0, 2)));
    assert!(!one.contains(&v4(10, 0, 0, 3)));
}

#[test]
fn networks_agree_with_the_ip_network_crate() {
    for text in ["0.0.0.0/0", "10.0.0.0/8", "10.128.0.0/9", "255.255.255.252/30"] {
        let net = nets(&[text])[0];
        let own: ip_network::IpNetwork = text.parse().unwrap();
        for ip in [[0u8, 0, 0, 0], [10, 127, 0, 1], [10, 128, 0, 1], [255, 255, 255, 253], [11, 0, 0, 0]] {
            assert_eq!(net.contains(&Ip::V4(ip)), own.contains(ip), "{} {:?}", text, ip);
        }
    }
    let all = nets(&["::/0"])[0];
    assert!(all.contains(&Ip::V6([255; 16])));
}

#[test]
fn texts_that_are_no_networks() {
    for text in ["10.0.0.1/8", "10.0.0.0", "10.0.0.0/33", "x/8", ""] {
        assert_eq!(read_networks(&vec!["::/0".to_string(), text.to_string()]), Err(1));
    }
}

#[test]
fn a_peer_may_use_its_own_addresses_only() {
    let p = Peer::new(nets(&["10.0.0.2/32", "fd00::/8"]), 0);
    assert!(p.allows(&v4(10, 0, 0, 2)));
    assert!(!p.allows(&v4(10, 0, 0, 3)));
    let mut v6 = [0; 16];
    v6[0] = 0xfd;
    assert!(p.allows(&Ip::V6(v6)));
    assert!(!Peer::new(vec![], 0).allows(&v4(0, 0, 0, 0)));
}

fn ipv4_packet(proto: u8, src: [u8; 4], dst: [u8; 4], sport: u16, dport: u16) -> Vec<u8> {
    let mut p = vec![0u8; 28];
    p[0] = 0x45;
    p[9] = proto;
    p[12..16].copy_from_slice(&src);
    p[16..20].copy_from_slice(&dst);
    p[20..22].copy_from_slice(&sport.to_be_bytes());
    p[22..24].copy_from_slice(&dport.to_be_bytes());
    p
}

fn ipv6_packet(proto: u8) -> Vec<u8> {
    let mut p = vec![0u8; 44];
    p[0] = 0x60;
    p[6] = proto;
    p[8..24].copy_from_slice(&[1; 16]);
    p[24..40].copy_from_slice(&[2; 16]);
    p[40..44].copy_from_slice(&[0, 53, 1, 187]);
    p
}

#[test]
fn packets_name_their_flow() {
    let p = ipv4_packet(6, [10, 0, 0, 2], [1, 1, 1, 1], 4000, 443);
    let k = parse_flow_key(&p).unwrap();
    assert_eq!(k.proto, PROTO_TCP);
    assert_eq!(k.src, SockAddr::V4([10, 0, 0, 2], 4000));
    assert_eq!(k.dst, SockAddr::V4([1, 1, 1, 1], 443));
    let k = parse_flow_key(&ipv6_packet(17)).unwrap();
    assert_eq!(k.proto, PROTO_UDP);
    assert_eq!(k.src, SockAddr::V6([1; 16], 53));
    assert_eq!(k.dst, SockAddr::V6([2; 16], 443));
}

#[test]
fn options_move_the_ports() {
    let mut p = ipv4_packet(17, [10, 0, 0, 2], [1, 1, 1, 1], 1, 2);
    p[0] = 0x46;
    p[24..28].copy_from_slice(&[0, 7, 0, 8]);
    let k = parse_flow_key(&p).unwrap();
    assert_eq!(k.src, SockAddr::V4([10, 0, 0, 2], 7));
    assert_eq!(k.dst, SockAddr::V4([1, 1, 1, 1], 8));
    p[0] = 0x4f;
    assert_eq!(parse_flow_key(&p), None);
}

#[test]
fn packets_without_a_flow() {
    assert_eq!(parse_flow_key(&[]), None);
    assert_eq!(parse_flow_key(&[0x50; 60]), None);
    assert_eq!(parse_flow_key(&ipv4_packet(1, [0; 4], [0; 4], 0, 0)), None);
    assert_eq!(parse_flow_key(&ipv4_packet(6, [0; 4], [0; 4], 0, 0)[..19]), None);
    assert_eq!(parse_flow_key(&ipv6_packet(58)), None);
    assert_eq!(parse_flow_key(&ipv6_packet(6)[..43]), None);
}

#[test]
fn packets_name_their_source() {
    assert_eq!(packet_src_ip(&ipv4_packet(6, [9, 8, 7, 6], [0; 4], 0, 0)), v4(9, 8, 7, 6));
    assert_eq!(packet_src_ip(&ipv6_packet(6)), Ip::V6([1; 16]));
    assert_eq!(packet_src_ip(&[0x45; 19]), v4(0, 0, 0, 0));
    assert_eq!(packet_src_ip(&[]), v4(0, 0, 0, 0));
}

#[test]
fn a_flow_is_opened_once() {
    let mut t = FlowTable::new();
    let pkt = ipv4_packet(6, [10, 0, 0, 2], [1, 1, 1, 1], 4000, 443);
    let key = match t.on_inbound(&pkt) {
        Wanted::Tcp(k) => k,
        _ => panic!("nothing wanted"),
    };
    t.tcp_opened(key, 1, 0);
    assert!(matches!(t.on_inbound(&pkt), Wanted::Nothing));
    t.tcp_opened(key, 2, 0);
    assert_eq!(t.tcp.len(), 1);
    let udp = ipv4_packet(17, [10, 0, 0, 2], [1, 1, 1, 1], 4000, 443);
    let key = match t.on_inbound(&udp) {
        Wanted::Udp(k) => k,
        _ => panic!("nothing wanted"),
    };
    t.udp_opened(key, 3, 0);
    assert!(matches!(t.on_inbound(&udp), Wanted::Nothing));
    assert_eq!(t.udp_reply_to(3), Some(SockAddr::V4([10, 0, 0, 2], 4000)));
    assert_eq!(t.udp_reply_to(1), None);
}

#[test]
fn a_relay_starts_once() {
    let mut t = FlowTable::new();
    let key = parse_flow_key(&ipv4_packet(6, [10, 0, 0, 2], [1, 1, 1, 1], 1, 2)).unwrap();
    t.tcp_opened(key, 7, 0);
    assert_eq!(t.start_relays(&vec![]), vec![]);
    assert_eq!(t.start_relays(&vec![7]), vec![(7, SockAddr::V4([1, 1, 1, 1], 2))]);
    assert_eq!(t.start_relays(&vec![7]), vec![]);
    assert!(t.tcp[0].relaying);
}

#[test]
fn idle_flows_end() {
    let mut t = FlowTable::new();
    let tcp = parse_flow_key(&ipv4_packet(6, [10, 0, 0, 2], [1, 1, 1, 1], 1, 2)).unwrap();
    let udp = parse_flow_key(&ipv4_packet(17, [10, 0, 0, 2], [1, 1, 1, 1], 1, 2)).unwrap();
    t.tcp_opened(tcp, 1, 0);
    t.udp_opened(udp, 2, 0);
    assert_eq!(t.evict(59_999), vec![]);
    t.udp_active(2, 50_000);
    assert_eq!(t.evict(100_000), vec![]);
    assert_eq!(t.evict(110_000), vec![2]);
    t.tcp_active(1, 200_000);
    assert_eq!(t.evict(499_999), vec![]);
    assert_eq!(t.evict(500_000), vec![1]);
    assert!(t.tcp.is_empty() && t.udp.is_empty());
    t.tcp_opened(tcp, 3, 600_000);
    assert_eq!(t.evict(0), vec![]);
}

#[test]
fn a_card_keeps_its_packets_in_order() {
    let mut d = VirtualDevice::new();
    assert!(d.receive().is_none());
    d.inject(vec![1]);
    d.inject(vec![2]);
    if let Some((rx, tx)) = d.receive() {
        assert_eq!(rx.0, vec![1]);
        tx.send(vec![10]);
    } else {
        panic!("nothing waits");
    }
    d.transmit().send(vec![11]);
    assert_eq!(d.drain_tx(), vec![vec![10], vec![11]]);
    assert_eq!(d.drain_tx(), Vec::<Vec<u8>>::new());
    assert_eq!(d.rx.len(), 1);
}

#[test]
fn keys_are_32_bytes() {
    assert_eq!(read_key(&format!("  {}\n", key_text(&[5; 32]))), Ok([5; 32]));
    assert_eq!(read_key("AAAA"), Err(KeyError::Length));
    assert_eq!(read_key("!"), Err(KeyError::NotBase64));
}

#[test]
fn tunnel_addresses_are_split() {
    assert_eq!(split_cidr("10.0.0.1/24"), Some(("10.0.0.1", 24)));
    assert_eq!(split_cidr("fd00::1/64"), Some(("fd00::1", 64)));
    assert_eq!(split_cidr("10.0.0.1"), None);
    assert_eq!(split_cidr("10.0.0.1/256"), None);
}

fn peer_config(key: [u8; 32], allowed: &[&str]) -> WireGuardPeerConfig {
    WireGuardPeerConfig {
        public_key: key_text(&key),
        pre_shared_key: None,
        allowed_ips: allowed.iter().map(|t| t.to_string()).collect(),
        keepalive_interval: Some(25),
        dns: vec![],
    }
}

fn config(peers: Vec<WireGuardPeerConfig>) -> WireGuardConfig {
    WireGuardConfig {
        listen: "0.0.0.0:51820".to_string(),
        private_key: key_text(&[1; 32]),
        server_address: vec![],
        mtu: 1420,
        peers,
    }
}

#[test]
fn a_setup_holds_each_key_once() {
    let s = match read_setup(&config(vec![
        peer_config([2; 32], &["10.0.0.2/32"]),
        peer_config([3; 32], &["10.0.0.3/32"]),
        peer_config([2; 32], &["10.0.0.4/32"]),
    ])) {
        Ok(s) => s,
        Err(_) => panic!("no setup"),
    };
    assert_eq!(s.private_key, [1; 32]);
    assert_eq!(s.peers.len(), 2);
    let p = s.peers.iter().find(|p| p.public_key == [2; 32]).unwrap();
    assert_eq!(p.index, 2);
    assert_eq!(p.allowed_ips, nets(&["10.0.0.4/32"]));
    assert_eq!(p.keepalive_interval, Some(25));
}

#[test]
fn what_is_wrong_with_a_setup() {
    let mut bad = config(vec![]);
    bad.private_key = "x".to_string();
    assert!(matches!(read_setup(&bad), Err(SetupError::PrivateKey(KeyError::NotBase64))));
    let good = peer_config([2; 32], &[]);
    let mut p = peer_config([3; 32], &[]);
    p.public_key = "AAAA".to_string();
    assert!(matches!(
        read_setup(&config(vec![good.clone(), p])),
        Err(SetupError::Peer(1, PeerError::PublicKey(KeyError::Length)))
    ));
    let mut p = good.clone();
    p.pre_shared_key = Some("AAAA".to_string());
    assert!(matches!(read_peer(&p, 0), Err(PeerError::PreSharedKey(KeyError::Length))));
    p.pre_shared_key = Some(key_text(&[8; 32]));
    assert!(matches!(read_peer(&p, 0), Ok(s) if s.pre_shared_key == Some([8; 32])));
    let p = peer_config([3; 32], &["10.0.0.0/8", "10.0.0.1/8"]);
    assert!(matches!(read_peer(&p, 0), Err(PeerError::AllowedIps(1))));
}

#[test]
fn datagrams_find_their_peer() {
    let s = match read_setup(&config(vec![
        peer_config([2; 32], &["10.0.0.2/32"]),
        peer_config([3; 32], &["10.0.0.3/32"]),
    ])) {
        Ok(s) => s,
        Err(_) => panic!("no setup"),
    };
    let mut server = Server::new(&s.peers, 0);
    let a = SockAddr::V4([1, 2, 3, 4], 1000);
    let b = SockAddr::V4([1, 2, 3, 4], 1001);
    assert_eq!(server.on_datagram(a, 5), Some(0));
    assert_eq!(server.peers[0].endpoint, Some(a));
    assert_eq!(server.peers[0].last_seen, 5);
    assert_eq!(server.find_peer(&a), Some(0));
    server.peers[1].endpoint = Some(b);
    assert_eq!(server.on_datagram(b, 6), Some(1));
    assert_eq!(server.on_datagram(b, 7), Some(1));
    assert_eq!(Server::new(&vec![], 0).on_datagram(a, 0), None);
}

#[test]
fn only_allowed_packets_are_delivered() {
    let s = match read_setup(&config(vec![peer_config([2; 32], &["10.0.0.2/32"])])) {
        Ok(s) => s,
        Err(_) => panic!("no setup"),
    };
    let server = Server::new(&s.peers, 0);
    let mine = ipv4_packet(6, [10, 0, 0, 2], [1, 1, 1, 1], 1, 2);
    let other = ipv4_packet(6, [10, 0, 0, 3], [1, 1, 1, 1], 1, 2);
    assert!(matches!(server.on_opened(0, Opened::Tunnel(mine.clone())), Step::Deliver(p) if p == mine));
    assert!(matches!(server.on_opened(0, Opened::Tunnel(other)), Step::Nothing));
    assert!(matches!(server.on_opened(0, Opened::Network(vec![9])), Step::Send(b) if b == vec![9]));
    assert!(matches!(server.on_opened(0, Opened::Done), Step::Nothing));
    assert!(matches!(server.on_opened(0, Opened::Failed), Step::Nothing));
}
