use ruproxy::config::{
    default_masquerade_type, default_ss_cipher, default_tuic_auth_timeout, default_tuic_idle_time,
    default_tuic_max_udp_packet_size, default_tuic_udp_timeout, default_wg_mtu, BandwidthConfig,
    Config, LogConfig, Rate, ShadowsocksCipher, SocksConfig, TransportConfig, VlessTlsConfig,
    RealityConfig, StandardTlsConfig,
};
use ruproxy::transport::{
    security_label, tls_security, transport_named, vless_layers, vless_security, xhttp_settings,
    Security, Transport,
};

fn scaled(s: &str) -> (String, u64) {
    match BandwidthConfig::parse_bps(s) {
        Some(Rate::Scaled { number, bits }) => (number, bits),
        _ => panic!("not scaled: {}", s),
    }
}

#[test]
fn bandwidths_are_read_by_their_unit() {
    assert_eq!(scaled("1000 mbps"), ("1000".to_string(), 1_000_000));
    assert_eq!(scaled(" 1.5 Gbps "), ("1.5".to_string(), 1_000_000_000));
    assert_eq!(scaled("10KBPS"), ("10".to_string(), 1_000));
    assert!(matches!(BandwidthConfig::parse_bps("800 bps"), Some(Rate::Exact(800))));
    assert!(BandwidthConfig::parse_bps("x bps").is_none());
    assert!(BandwidthConfig::parse_bps("100").is_none());
    assert!(BandwidthConfig::parse_bps("").is_none());
}

#[test]
fn bandwidth_settings_may_be_absent() {
    let none = BandwidthConfig::default();
    assert!(none.up_bps().is_none());
    assert!(none.down_bps().is_none());
    let set = BandwidthConfig { up: Some("8 bps".to_string()), down: Some("1 kbps".to_string()) };
    assert!(matches!(set.up_bps(), Some(Rate::Exact(8))));
    assert!(matches!(set.down_bps(), Some(Rate::Scaled { bits: 1000, .. })));
}

#[test]
fn default_settings() {
    assert_eq!(LogConfig::default().level, "info");
    let t = TransportConfig::default();
    assert_eq!((t.kind.as_str(), t.ws_path.as_str(), t.xhttp_path.as_str()), ("tcp", "/", "/"));
    assert_eq!(default_masquerade_type(), "none");
    assert_eq!(default_wg_mtu(), 1420);
    assert_eq!(default_ss_cipher(), ShadowsocksCipher::Blake3Aes256Gcm);
    assert_eq!(default_tuic_idle_time(), 30_000);
    assert_eq!(default_tuic_auth_timeout(), 3_000);
    assert_eq!(default_tuic_udp_timeout(), 30_000);
    assert_eq!(default_tuic_max_udp_packet_size(), 65535);
}

#[test]
fn cipher_sizes() {
    let c = ShadowsocksCipher::Blake3Aes128Gcm;
    assert_eq!((c.key_len(), c.salt_len(), c.tag_len()), (16, 16, 16));
    let c = ShadowsocksCipher::Blake3Chacha20Poly1305;
    assert_eq!((c.key_len(), c.salt_len(), c.tag_len()), (32, 32, 16));
}

#[test]
fn a_configuration_is_empty_without_inbounds() {
    let mut cfg = Config {
        log: LogConfig::default(),
        hysteria2: vec![],
        vless: vec![],
        tuic: vec![],
        trojan: vec![],
        vmess: vec![],
        shadowsocks: vec![],
        wireguard: vec![],
        anytls: vec![],
        socks: vec![],
    };
    assert!(cfg.is_empty());
    cfg.socks.push(SocksConfig { listen: "127.0.0.1:1080".to_string(), users: vec![] });
    assert!(!cfg.is_empty());
}

#[test]
fn transports_go_by_name() {
    assert_eq!(transport_named("tcp"), Some(Transport::Tcp));
    assert_eq!(transport_named("ws"), Some(Transport::Ws));
    assert_eq!(transport_named("xhttp"), Some(Transport::Xhttp));
    assert_eq!(transport_named("TCP"), None);
    assert_eq!(transport_named(""), None);
}

#[test]
fn securities_go_by_settings() {
    let standard = StandardTlsConfig { cert_path: None, key_path: None, self_signed_domain: None };
    assert_eq!(tls_security(&None), Security::Plain);
    assert_eq!(tls_security(&Some(standard.clone())), Security::Tls);
    assert_eq!(vless_security(&None), Security::Plain);
    assert_eq!(vless_security(&Some(VlessTlsConfig::Tls { standard })), Security::Tls);
    let reality = RealityConfig {
        private_key: String::new(),
        short_ids: vec![],
        dest: String::new(),
        server_name: String::new(),
    };
    assert_eq!(vless_security(&Some(VlessTlsConfig::Reality(reality))), Security::Reality);
    assert_eq!(security_label(Security::Plain), "none");
    assert_eq!(security_label(Security::Tls), "tls");
    assert_eq!(security_label(Security::Reality), "reality");
}

#[test]
fn xhttp_settings_come_from_the_transport() {
    let mut t = TransportConfig::default();
    t.xhttp_path = "/x".to_string();
    t.xhttp_host = Some("h".to_string());
    let x = xhttp_settings(&t);
    assert_eq!(x.path, "/x");
    assert_eq!(x.host.as_deref(), Some("h"));
    assert_eq!(x.normalized_path(), "/x/");
}

#[test]
fn case_and_spaces_of_bandwidths_do_not_count() {
    for s in ["1gbps", " 1 GBps ", "1 G b P s", "\t1gBPS \n"] {
        assert_eq!(scaled(s), ("1".to_string(), 1_000_000_000), "{:?}", s);
    }
}

fn reality() -> RealityConfig {
    RealityConfig {
        private_key: "k".to_string(),
        short_ids: vec![],
        dest: String::new(),
        server_name: String::new(),
    }
}

#[test]
fn vless_settings_are_sorted_into_layers() {
    let own = StandardTlsConfig {
        cert_path: Some("c".to_string()),
        key_path: None,
        self_signed_domain: None,
    };
    let kind = |k: &str| TransportConfig { kind: k.to_string(), ..TransportConfig::default() };
    let (t, tls) = vless_layers(kind("ws"), None, true, own.clone(), None);
    assert_eq!(t.kind, "ws");
    assert!(matches!(tls, Some(VlessTlsConfig::Tls { standard }) if standard.cert_path.as_deref() == Some("c")));
    let (t, tls) = vless_layers(kind("tcp"), None, false, own.clone(), Some(reality()));
    assert_eq!(t.kind, "tcp");
    assert!(tls.is_none());
    let (t, tls) = vless_layers(kind("reality"), None, true, own.clone(), Some(reality()));
    assert_eq!(t.kind, "tcp");
    assert!(matches!(tls, Some(VlessTlsConfig::Reality(r)) if r.private_key == "k"));
    let section = Some(VlessTlsConfig::Reality(reality()));
    let (t, tls) = vless_layers(kind("ws"), section, true, own.clone(), None);
    assert_eq!(t.kind, "ws");
    assert!(matches!(tls, Some(VlessTlsConfig::Reality(_))));
    let (t, tls) = vless_layers(kind("reality"), None, true, own, None);
    assert_eq!(t.kind, "reality");
    assert!(tls.is_none());
}
