use ruproxy::xhttp::route::{
    parse_path, route_request, uplink_kind, uplink_status, Route, Uplink, XhttpConfig,
};
use ruproxy::xhttp::session::{
    download_headers, plain_headers, preflight_headers, Downlink, SessionTable,
};
use ruproxy::xhttp::upload::{UploadPacket, UploadQueue};

#[test]
fn base_paths_are_normal_once() {
    for p in ["", "/", "x", "/x//", "a/b", "//"] {
        let once = XhttpConfig { path: p.to_string(), host: None }.normalized_path();
        let twice = XhttpConfig { path: once.clone(), host: None }.normalized_path();
        assert_eq!(once, twice, "{:?}", p);
        assert!(once.starts_with('/') && once.ends_with('/'));
    }
}

#[test]
fn paths_under_the_root() {
    assert_eq!(parse_path("/", "/"), Some((None, None)));
    assert_eq!(parse_path("/sid", "/"), Some((Some("sid".to_string()), None)));
    assert_eq!(
        parse_path("/sid/3", "/"),
        Some((Some("sid".to_string()), Some("3".to_string())))
    );
    assert_eq!(parse_path("/x/sid/", "/x/"), Some((Some("sid".to_string()), None)));
}

#[test]
fn requests_are_routed() {
    let host = Some("h".to_string());
    assert!(matches!(route_request("GET", "other", "/x/s", "/x/", &host), Route::NotFound));
    assert!(matches!(route_request("OPTIONS", "h", "/nowhere", "/x/", &host), Route::Preflight));
    assert!(matches!(route_request("GET", "h", "/nowhere", "/x/", &host), Route::NotFound));
    assert!(matches!(
        route_request("GET", "", "/x/s", "/x/", &None),
        Route::Downlink(Some(s)) if s == "s"
    ));
    assert!(matches!(route_request("GET", "", "/x", "/x/", &None), Route::Downlink(None)));
    assert!(matches!(
        route_request("GET", "", "/x/s/1", "/x/", &None),
        Route::Uplink(Some(s), Some(q)) if s == "s" && q == "1"
    ));
    assert!(matches!(route_request("POST", "", "/x/s", "/x/", &None), Route::Uplink(Some(_), None)));
}

#[test]
fn uploads_are_streams_or_packets() {
    assert!(matches!(uplink_kind(&None), Uplink::Stream));
    assert!(matches!(uplink_kind(&Some("42".to_string())), Uplink::Packet(42)));
    assert!(matches!(uplink_kind(&Some("x".to_string())), Uplink::BadSequence));
    assert_eq!(uplink_status(Uplink::Stream), 200);
    assert_eq!(uplink_status(Uplink::Packet(0)), 200);
    assert_eq!(uplink_status(Uplink::BadSequence), 400);
}

#[test]
fn the_download_is_handed_out_once() {
    let mut t = SessionTable::new();
    let s = Some("s".to_string());
    assert!(t.on_post(&s));
    assert!(!t.on_post(&s));
    assert!(!t.on_post(&None));
    assert_eq!(t.on_get(&s), Downlink::Granted);
    assert_eq!(t.on_get(&s), Downlink::Conflict);
    t.on_expired("s");
    assert!(t.on_post(&s));
}

#[test]
fn headers_of_answers() {
    assert_eq!(plain_headers(), vec![("Access-Control-Allow-Origin", "*")]);
    assert_eq!(preflight_headers().len(), 3);
    assert_eq!(download_headers()[1], ("Cache-Control", "no-cache, no-store"));
}

#[test]
fn packets_are_read_in_order() {
    let mut q = UploadQueue::new();
    assert_eq!(q.read(10), None);
    assert_eq!(q.arrive(UploadPacket::Packet(1, b"def".to_vec()), 10), None);
    assert_eq!(q.arrive(UploadPacket::Packet(0, b"abc".to_vec()), 2), Some(b"ab".to_vec()));
    assert_eq!(q.read(10), Some(b"c".to_vec()));
    assert_eq!(q.read(10), Some(b"def".to_vec()));
    assert_eq!(q.read(10), None);
}

#[test]
fn a_packet_from_the_past_holds_up_the_rest() {
    let mut q = UploadQueue::new();
    assert_eq!(q.arrive(UploadPacket::Packet(0, b"a".to_vec()), 9), Some(b"a".to_vec()));
    assert_eq!(q.arrive(UploadPacket::Packet(0, b"a".to_vec()), 9), None);
    assert_eq!(q.arrive(UploadPacket::Packet(1, b"b".to_vec()), 9), None);
}

#[test]
fn chunks_are_read_as_they_come() {
    let mut q = UploadQueue::new();
    assert_eq!(q.arrive(UploadPacket::Chunk(b"hello".to_vec()), 2), Some(b"he".to_vec()));
    assert_eq!(q.read(9), Some(b"llo".to_vec()));
    assert_eq!(q.read(9), None);
    assert_eq!(q.arrive(UploadPacket::Eof, 9), Some(vec![]));
    assert_eq!(q.read(9), Some(vec![]));
}

#[test]
fn a_whole_series_is_read_before_the_end() {
    let data: [&[u8]; 4] = [b"ab", b"cde", b"f", b"ghij"];
    for order in [[0, 1, 2, 3], [3, 2, 1, 0], [1, 3, 0, 2]] {
        for cap in [1, 2, 9] {
            let mut arrivals: Vec<UploadPacket> = Vec::new();
            for i in order {
                arrivals.push(UploadPacket::Packet(i as u64, data[i].to_vec()));
            }
            arrivals.push(UploadPacket::Eof);
            let mut channel = arrivals.into_iter();
            let mut q = UploadQueue::new();
            let mut out: Vec<u8> = Vec::new();
            loop {
                let got = match q.read(cap) {
                    Some(b) => Some(b),
                    None => q.arrive(channel.next().unwrap(), cap),
                };
                if let Some(b) = got {
                    assert!(b.len() <= cap);
                    if b.is_empty() {
                        break;
                    }
                    out.extend_from_slice(&b);
                }
            }
            assert_eq!(out, b"abcdefghij");
        }
    }
}
