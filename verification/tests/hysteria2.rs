use ruproxy::address::AddressError;
use ruproxy::config::{AuthConfig, MasqueradeConfig, MasqueradeProxy};
use ruproxy::hysteria2::auth::{
    auth_fail_headers, auth_ok_headers, auth_step, AuthStep, UdpSessions,
};
use ruproxy::hysteria2::congestion::{
    BrutalConfig, BrutalController, BrutalFactory, Stats, DEFAULT_RTT, MAX_INITIAL_WINDOW,
    MAX_WINDOW, MIN_WINDOW,
};
use ruproxy::hysteria2::masquerade::{
    forward_headers, is_redirection, masquerade, masquerade_404, masquerade_502, proxied_response,
    proxy_request, redirect_response, request_for, target_url, Disguise, Header,
};
use ruproxy::hysteria2::tcp::{
    encode_tcp_response, gen_padding, read_tcp_request, stream_kind, write_tcp_response, StreamKind,
    TcpRequestError,
};
use ruproxy::hysteria2::udp::{
    build_single_udp_frame, build_udp_frames, parse_udp_frame, read_varint_bytes, split_host_port,
    FragBuffer, FragTable, FrameError, DATAGRAM_MAX_PAYLOAD,
};
use ruproxy::hysteria2::varint::{read_varint, write_varint};
use ruproxy::wire::Decoded;

fn varint(v: u64) -> Vec<u8> {
    let mut out = Vec::new();
    write_varint(&mut out, v);
    out
}

#[test]
fn varints_are_read_back() {
    for v in [0u64, 63, 64, 16383, 16384, 0x3fff_ffff, 0x4000_0000, 0x3fff_ffff_ffff_ffff] {
        let b = varint(v);
        assert!(matches!(read_varint(&b), Decoded::Done(w, n) if w == v && n == b.len()));
        for k in 0..b.len() {
            assert!(matches!(read_varint(&b[..k]), Decoded::More(n) if n > k));
        }
    }
    assert_eq!(varint(0x401), vec![0x44, 0x01]);
    assert_eq!(varint(15293), vec![0x7b, 0xbd]);
    assert_eq!(varint(494878333), vec![0x9d, 0x7f, 0x3e, 0x7d]);
    assert_eq!(varint(151288809941952652), vec![0xc2, 0x19, 0x7c, 0x5e, 0xff, 0x14, 0xe8, 0x8c]);
}

#[test]
fn streams_are_told_apart() {
    assert_eq!(stream_kind(0x401), StreamKind::Tcp);
    assert_eq!(stream_kind(4), StreamKind::Http3);
    assert_eq!(stream_kind(1), StreamKind::Http3);
    assert_eq!(stream_kind(2), StreamKind::Unknown);
}

#[test]
fn tcp_requests_say_where_to() {
    let mut b = varint(11);
    b.extend_from_slice(b"example:443");
    b.extend(varint(3));
    b.extend_from_slice(b"pad");
    match read_tcp_request(&b) {
        Decoded::Done(q, n) => {
            assert_eq!(q.addr, "example:443");
            assert_eq!(q.padding, 3);
            assert_eq!(n, b.len() - 3);
        }
        _ => panic!("not read"),
    }
    assert!(matches!(read_tcp_request(&[0]), Decoded::Bad(TcpRequestError::AddrLen(0))));
    assert!(matches!(read_tcp_request(&varint(2049)), Decoded::Bad(TcpRequestError::AddrLen(2049))));
    assert!(matches!(read_tcp_request(&[1, 0xff, 0]), Decoded::Bad(TcpRequestError::NotUtf8)));
    assert!(matches!(read_tcp_request(&[5, b'a']), Decoded::More(_)));
}

#[test]
fn tcp_responses() {
    assert_eq!(encode_tcp_response(true, "ok", "xyz"), vec![0, 2, b'o', b'k', 3, b'x', b'y', b'z']);
    assert_eq!(encode_tcp_response(false, "", ""), vec![1, 0, 0]);
    let b = write_tcp_response(true, "Connected");
    assert_eq!(&b[..11], b"\x00\x09Connected");
    assert!(b.len() >= 11 + 2 + 128 && b.len() < 11 + 2 + 1024);
}

#[test]
fn padding_is_random_text() {
    let p = gen_padding(64, 256);
    assert!(p.len() >= 64 && p.len() < 256);
    assert!(p.chars().all(|c| c.is_ascii_alphanumeric()));
    assert_ne!(gen_padding(64, 65), gen_padding(64, 65));
}

#[test]
fn datagrams_are_read_back() {
    let b = build_single_udp_frame(7, 8, 0, 1, "[::1]:53", b"query");
    assert_eq!(&b[..9], &[0, 0, 0, 7, 0, 8, 0, 1, 8]);
    let f = match parse_udp_frame(&b) {
        Ok(f) => f,
        Err(_) => panic!("not read back"),
    };
    assert_eq!((f.session_id, f.packet_id, f.frag_id, f.frag_total), (7, 8, 0, 1));
    assert_eq!((f.addr.as_str(), f.port), ("::1", 53));
    assert_eq!(f.payload, b"query");
}

fn frame_error(b: &[u8]) -> FrameError {
    match parse_udp_frame(b) {
        Err(e) => e,
        Ok(_) => panic!("taken"),
    }
}

#[test]
fn datagrams_that_are_refused() {
    let head = [0u8, 0, 0, 1, 0, 1, 0, 1];
    let with = |tail: &[u8]| {
        let mut v = head.to_vec();
        v.extend_from_slice(tail);
        v
    };
    assert!(matches!(frame_error(&head[..7]), FrameError::TooShort));
    assert!(matches!(frame_error(&head), FrameError::Length));
    assert!(matches!(frame_error(&with(&[0])), FrameError::AddrLen(0)));
    assert!(matches!(frame_error(&with(&[5, b'a'])), FrameError::AddrTruncated));
    assert!(matches!(frame_error(&with(&[1, 0xff])), FrameError::NotUtf8));
    assert!(matches!(frame_error(&with(b"\x03abc")), FrameError::Addr(AddressError::NoPort)));
}

#[test]
fn lengths_in_datagrams_take_their_first_bits_as_a_count() {
    assert_eq!(read_varint_bytes(&[0x3f]), Some((63, 1)));
    assert_eq!(read_varint_bytes(&[0x44, 0x01]), Some((0x401, 2)));
    assert_eq!(read_varint_bytes(&[0x80, 0, 1]), Some((1, 3)));
    assert_eq!(read_varint_bytes(&[0x80, 0]), None);
    assert_eq!(read_varint_bytes(&[]), None);
}

#[test]
fn hosts_and_ports() {
    assert_eq!(split_host_port("a:1"), Ok(("a".to_string(), 1)));
    assert_eq!(split_host_port("[::]:1"), Ok(("::".to_string(), 1)));
    assert_eq!(split_host_port("a"), Err(AddressError::NoPort));
}

#[test]
fn a_long_packet_goes_in_fragments_and_comes_together() {
    let payload: Vec<u8> = (0..3 * DATAGRAM_MAX_PAYLOAD + 7).map(|i| i as u8).collect();
    let frames = build_udp_frames(1, 42, "1.2.3.4:53", &payload);
    assert_eq!(frames.len(), 4);
    for order in [[0usize, 1, 2, 3], [3, 1, 0, 2]] {
        let mut t = FragTable::new();
        for (k, i) in order.iter().enumerate() {
            let f = match parse_udp_frame(&frames[*i]) {
                Ok(f) => f,
                Err(_) => panic!("bad frame"),
            };
            let out = t.relay_frame(f);
            if k < 3 {
                assert!(out.is_none());
            } else {
                let p = out.unwrap();
                assert_eq!(p.payload, payload);
                assert_eq!((p.addr.as_str(), p.port), ("1.2.3.4", 53));
            }
        }
    }
    let one = build_udp_frames(1, 42, "1.2.3.4:53", b"short");
    assert_eq!(one.len(), 1);
    let f = match parse_udp_frame(&one[0]) {
        Ok(f) => f,
        Err(_) => panic!("bad frame"),
    };
    assert_eq!(FragTable::new().relay_frame(f).unwrap().payload, b"short");
}

#[test]
fn a_fragment_counts_whenever_it_comes() {
    let mut b = FragBuffer::new(2, "h".to_string(), 1);
    assert!(b.insert(0, vec![1]).is_none());
    let (data, addr, port) = b.insert(0, vec![2]).unwrap();
    assert_eq!((data, addr.as_str(), port), (vec![1], "h", 1));
}

fn password(p: &str) -> AuthConfig {
    AuthConfig::Password { password: p.to_string() }
}

#[test]
fn the_password_decides() {
    assert_eq!(auth_step(&password("x"), "POST", "hysteria", "/auth", "x"), AuthStep::Accept);
    assert_eq!(auth_step(&password("x"), "POST", "hysteria", "/auth", "y"), AuthStep::Reject);
    assert_eq!(auth_step(&AuthConfig::Open, "POST", "hysteria", "/auth", ""), AuthStep::Accept);
    assert_eq!(auth_step(&password("x"), "GET", "hysteria", "/auth", "x"), AuthStep::Masquerade);
    assert_eq!(auth_step(&password("x"), "POST", "example", "/auth", "x"), AuthStep::Masquerade);
    assert_eq!(auth_step(&password("x"), "POST", "hysteria", "/", "x"), AuthStep::Masquerade);
}

#[test]
fn answers_to_a_sign_on() {
    let h = auth_ok_headers(Some(125_000));
    assert_eq!(h.len(), 3);
    assert_eq!(h[0], ("hysteria-udp".to_string(), "true".to_string()));
    assert_eq!(h[1], ("hysteria-cc-rx".to_string(), "125000".to_string()));
    assert_eq!(h[2].0, "hysteria-padding");
    assert!(h[2].1.len() >= 256 && h[2].1.len() < 2048);
    assert_eq!(auth_ok_headers(None)[1].1, "0");
    let h = auth_fail_headers();
    assert_eq!(h.len(), 1);
    assert!(h[0].1.len() >= 64 && h[0].1.len() < 256);
}

#[test]
fn sessions_are_opened_once() {
    let mut s = UdpSessions::new();
    assert!(s.on_datagram(1));
    assert!(!s.on_datagram(1));
    assert!(s.on_datagram(2));
    s.on_closed(1);
    assert!(s.on_datagram(1));
    assert!(!s.on_datagram(2));
}

#[test]
fn pages_of_a_plain_server() {
    let r = masquerade_404();
    assert_eq!(r.status, 404);
    assert_eq!(r.body, b"<html><body><h1>404 Not Found</h1></body></html>");
    assert_eq!(
        r.headers,
        vec![
            ("server".to_string(), b"nginx/1.24.0".to_vec()),
            ("content-type".to_string(), b"text/html; charset=utf-8".to_vec()),
            ("content-length".to_string(), b"48".to_vec()),
        ]
    );
    let r = masquerade_502();
    assert_eq!(r.status, 502);
    assert_eq!(r.body, b"<html><body><h1>502 Bad Gateway</h1></body></html>");
}

#[test]
fn the_disguise_goes_by_the_settings() {
    let site = MasqueradeProxy { url: "http://site".to_string(), rewrite_host: true };
    let cfg = MasqueradeConfig { kind: "proxy".to_string(), proxy: Some(site) };
    assert!(matches!(masquerade(&cfg), Disguise::Proxy(u, true) if u == "http://site"));
    let cfg = MasqueradeConfig { kind: "proxy".to_string(), proxy: None };
    assert!(matches!(masquerade(&cfg), Disguise::NotFound));
    assert!(matches!(masquerade(&MasqueradeConfig::default()), Disguise::NotFound));
    assert_eq!(target_url("http://site//", "/a?b"), "http://site/a?b");
}

fn header(name: &str, value: &str) -> Header {
    (name.to_string(), value.as_bytes().to_vec())
}

#[test]
fn headers_are_passed_on() {
    let h = vec![header("host", "a"), header("accept", "b")];
    assert_eq!(forward_headers(&h, false, &Some("s".to_string()), None), h);
    assert_eq!(
        forward_headers(&h, true, &Some("s".to_string()), Some(81)),
        vec![header("accept", "b"), header("host", "s:81")]
    );
    assert_eq!(
        forward_headers(&h, true, &Some("s".to_string()), None),
        vec![header("accept", "b"), header("host", "s")]
    );
    assert_eq!(forward_headers(&h, true, &None, None), vec![header("accept", "b")]);
}

#[test]
fn fetched_answers() {
    assert!(is_redirection(301));
    assert!(!is_redirection(200));
    let h = vec![header("location", "/x"), header("server", "s")];
    let r = redirect_response(302, &h);
    assert_eq!((r.status, r.headers, r.body), (302, vec![header("location", "/x")], vec![]));
    let h = vec![
        header("transfer-encoding", "chunked"),
        header("content-length", "9"),
        header("server", "s"),
    ];
    let r = proxied_response(200, &h, b"body".to_vec());
    assert_eq!(
        r.headers,
        vec![
            header("server", "s"),
            header("content-type", "application/octet-stream"),
            header("content-length", "4"),
        ]
    );
    let r = proxied_response(200, &vec![header("content-type", "t")], vec![]);
    assert_eq!(r.headers, vec![header("content-type", "t"), header("content-length", "0")]);
}

#[test]
fn round_trips_are_averaged() {
    let mut s = Stats::new(0);
    assert_eq!(s.avg_rtt(), DEFAULT_RTT);
    for k in 1..=17 {
        s.push_rtt(k * 10);
    }
    assert_eq!(s.rtt_samples.len(), 16);
    assert_eq!(s.rtt_samples[0], 20);
    assert_eq!(s.avg_rtt(), 95);
    s.ack_count = 5;
    s.maybe_reset(999_999_999);
    assert_eq!(s.ack_count, 5);
    s.maybe_reset(1_000_000_000);
    assert_eq!((s.ack_count, s.window_start), (0, 1_000_000_000));
}

#[test]
fn windows_stay_within_bounds() {
    assert_eq!(BrutalConfig::default().send_bps, 50 * 1024 * 1024);
    let c = BrutalController::new(BrutalConfig { send_bps: 1 }, 0, 0);
    assert_eq!(c.window, MIN_WINDOW);
    let mut c = BrutalController::new(BrutalConfig { send_bps: 1 }, u64::MAX, 0);
    assert_eq!(c.window, MAX_INITIAL_WINDOW);
    c.recalculate_window(u64::MAX);
    assert_eq!(c.window, MAX_WINDOW);
    c.recalculate_window(100_000);
    assert_eq!(c.window, 100_000);
    let free = BrutalFactory::new(0).build(0, 0);
    assert_eq!(free.window, u64::MAX);
}

#[test]
fn events_are_counted() {
    let mut c = BrutalController::new(BrutalConfig { send_bps: 1 }, 0, 0);
    c.on_ack(1000, 30, 5);
    c.on_congestion_event(6);
    assert_eq!((c.stats.ack_count, c.stats.loss_count), (1000, 1));
    assert_eq!(c.stats.rtt_samples, vec![30]);
    c.on_congestion_event(1_000_000_000);
    assert_eq!((c.stats.ack_count, c.stats.loss_count), (0, 0));
}

#[test]
fn a_site_is_asked_by_its_address() {
    let h = vec![header("host", "a"), header("accept", "b")];
    assert_eq!(
        proxy_request("http://site.example:81/", "/x?y", &h, true),
        Some((
            "http://site.example:81/x?y".to_string(),
            vec![header("accept", "b"), header("host", "site.example:81")]
        ))
    );
    assert_eq!(
        proxy_request("http://site.example", "/", &h, false),
        Some(("http://site.example/".to_string(), h.clone()))
    );
    assert_eq!(proxy_request("http://no site", "/", &h, true), None);
    assert_eq!(request_for("u".to_string(), None, &h, true), None);
}

#[test]
fn pieces_of_any_size_in_any_order() {
    let pieces: [&[u8]; 4] = [b"a", b"", b"ccc", b"dd"];
    for order in [[0, 1, 2, 3], [3, 2, 1, 0], [2, 0, 3, 1]] {
        let mut b = FragBuffer::new(4, "h".to_string(), 9);
        for (k, i) in order.into_iter().enumerate() {
            let got = b.insert(i as u8, pieces[i].to_vec());
            if k < 3 {
                assert!(got.is_none());
            } else {
                assert_eq!(got, Some((b"acccdd".to_vec(), "h".to_string(), 9)));
            }
        }
    }
}
