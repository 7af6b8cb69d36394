use ruproxy::address::{AddressError, Host, Target};
use ruproxy::anytls::auth::{decode_auth, password_hash, AuthError};
use ruproxy::anytls::padding::{
    default_scheme_text, draw, parse_size_list, parse_size_rules, PaddingScheme, SharedPadding,
    SizeRule, CHECK_MARK,
};
use ruproxy::anytls::session::{
    decode_frame, encode_frame, lookup, parse_kv, Action, Frame, Session, StreamConn, CMD_ALERT,
    CMD_FIN, CMD_HEART_REQUEST, CMD_HEART_RESPONSE, CMD_PSH, CMD_SERVER_SETTINGS, CMD_SETTINGS,
    CMD_SYN, CMD_SYNACK, CMD_UPDATE_PADDING, CMD_WASTE,
};
use ruproxy::wire::Decoded;

const DEFAULT: &str = "stop=8\n0=30-30\n1=100-400\n2=400-500,c,500-1000,c,500-1000,c,500-1000,c,500-1000\n3=9-9,500-1000\n4=500-1000\n5=500-1000\n6=500-1000\n7=500-1000";

#[test]
fn the_default_scheme() {
    assert_eq!(default_scheme_text(), DEFAULT);
    let p = SharedPadding::new_default();
    let s = p.get();
    assert_eq!(s.stop, 8);
    assert_eq!(s.raw, DEFAULT.as_bytes());
    assert_eq!(s.md5_hex, "75cff2ad89aadf5e257059ee571ebe11");
    assert_eq!(s.sizes_for(0), &[30]);
    assert_eq!(s.sizes_for(2).len(), 9);
    assert_eq!(s.sizes_for(2)[1], CHECK_MARK);
    assert!(s.sizes_for(1)[0] >= 100 && s.sizes_for(1)[0] <= 400);
    assert_eq!(s.sizes_for(8), &[] as &[i64]);
}

#[test]
fn size_lists() {
    assert!(matches!(parse_size_rules("c")[..], [SizeRule::Check]));
    assert!(matches!(parse_size_rules(" 5-5 , 7-9,x,0-3,3")[..], [SizeRule::Fixed(5), SizeRule::Between(7, 9)]));
    assert!(matches!(parse_size_rules("9-7")[..], [SizeRule::Fixed(7)]));
    assert_eq!(parse_size_list("c,5-5"), vec![CHECK_MARK, 5]);
    let mut seen = [false; 3];
    for _ in 0..200 {
        let v = draw(SizeRule::Between(7, 9));
        assert!((7..=9).contains(&v));
        seen[(v - 7) as usize] = true;
    }
    assert_eq!(seen, [true; 3]);
}

#[test]
fn schemes_that_are_none() {
    assert!(PaddingScheme::from_bytes(b"0=1-1").is_none());
    assert!(PaddingScheme::from_bytes(b"stop=x").is_none());
    assert!(PaddingScheme::from_bytes(b"stop=1\njunk").is_none());
    assert!(PaddingScheme::from_bytes(&[0xff]).is_none());
    let s = PaddingScheme::from_bytes(b"stop=1").unwrap();
    assert_eq!(s.md5_hex, "0f90ac628ea5d808d36a6522a492d7b6");
    let s = PaddingScheme::from_bytes(b"\n stop = 3 \r\nother=1\n1=2-2\n1=4-4").unwrap();
    assert_eq!(s.stop, 3);
    assert_eq!(s.sizes_for(1), &[4]);
}

#[test]
fn a_bad_update_changes_nothing() {
    let mut p = SharedPadding::new_default();
    assert!(!p.update(b"nonsense"));
    assert_eq!(p.get().stop, 8);
    assert!(p.update(b"stop=2"));
    assert_eq!(p.get().stop, 2);
    assert_eq!(p.get().raw, b"stop=2");
}

#[test]
fn frames_are_read_back() {
    let f = Frame { cmd: CMD_PSH, sid: 0x01020304, data: b"abc".to_vec() };
    let b = encode_frame(&f);
    assert_eq!(b, vec![2, 1, 2, 3, 4, 0, 3, b'a', b'b', b'c']);
    match decode_frame(&b) {
        Decoded::Done(g, n) => {
            assert_eq!((g.cmd, g.sid, g.data), (CMD_PSH, 0x01020304, b"abc".to_vec()));
            assert_eq!(n, 10);
        }
        _ => panic!("not read back"),
    }
    assert!(matches!(decode_frame(&b[..6]), Decoded::More(7)));
    assert!(matches!(decode_frame(&b[..9]), Decoded::More(10)));
}

#[test]
fn settings_are_lines_of_pairs() {
    let kv = parse_kv(b"v=2\n client = x \njunk\nv=3");
    assert_eq!(lookup(&kv, "v"), Some("3"));
    assert_eq!(lookup(&kv, "client"), Some("x"));
    assert_eq!(lookup(&kv, "junk"), None);
    assert!(parse_kv(&[0xff]).is_empty());
}

fn frame(cmd: u8, sid: u32, data: &[u8]) -> Frame {
    Frame { cmd, sid, data: data.to_vec() }
}

fn sent(a: &Action) -> (u8, u32, Vec<u8>) {
    match a {
        Action::Send(f) => (f.cmd, f.sid, f.data.clone()),
        _ => panic!("nothing sent"),
    }
}

#[test]
fn a_session_of_the_second_version() {
    let p = SharedPadding::new_default();
    let mut s = Session::new();
    let hello = format!("v=2\npadding-md5={}", p.get().md5_hex);
    let a = s.on_frame(frame(CMD_SETTINGS, 0, hello.as_bytes()), p.get());
    assert_eq!(a.len(), 1);
    assert_eq!(sent(&a[0]), (CMD_SERVER_SETTINGS, 0, b"v=2".to_vec()));
    let a = s.on_frame(frame(CMD_SYN, 5, b""), p.get());
    assert_eq!(a.len(), 2);
    assert_eq!(sent(&a[0]), (CMD_SYNACK, 5, vec![]));
    assert!(matches!(a[1], Action::Open(5)));
    let a = s.on_frame(frame(CMD_PSH, 5, b"data"), p.get());
    assert!(matches!(&a[..], [Action::Deliver(5, d)] if d == b"data"));
    assert_eq!(s.open_streams(), &[5]);
    let a = s.on_frame(frame(CMD_FIN, 5, b""), p.get());
    assert!(matches!(&a[..], [Action::Finish(5)]));
    assert!(s.on_frame(frame(CMD_PSH, 5, b"late"), p.get()).is_empty());
    assert!(s.on_frame(frame(CMD_FIN, 5, b""), p.get()).is_empty());
}

#[test]
fn a_session_of_the_first_version() {
    let p = SharedPadding::new_default();
    let mut s = Session::new();
    let a = s.on_frame(frame(CMD_SETTINGS, 0, b"v=1"), p.get());
    assert_eq!(a.len(), 1);
    assert_eq!(sent(&a[0]), (CMD_UPDATE_PADDING, 0, DEFAULT.as_bytes().to_vec()));
    let a = s.on_frame(frame(CMD_SYN, 1, b""), p.get());
    assert!(matches!(&a[..], [Action::Open(1)]));
    assert!(s.drop_stream(1));
    assert!(!s.drop_stream(1));
}

#[test]
fn a_stream_needs_settings_first() {
    let p = SharedPadding::new_default();
    let mut s = Session::new();
    let a = s.on_frame(frame(CMD_SYN, 1, b""), p.get());
    assert_eq!(a.len(), 2);
    assert_eq!(
        sent(&a[0]),
        (CMD_ALERT, 0, b"client did not send its settings before opening a stream".to_vec())
    );
    assert!(matches!(a[1], Action::Stop));
}

#[test]
fn other_frames() {
    let p = SharedPadding::new_default();
    let mut s = Session::new();
    assert!(s.on_frame(frame(CMD_WASTE, 0, b"pad"), p.get()).is_empty());
    assert!(s.on_frame(frame(CMD_HEART_RESPONSE, 0, b""), p.get()).is_empty());
    assert!(s.on_frame(frame(99, 0, b""), p.get()).is_empty());
    let a = s.on_frame(frame(CMD_HEART_REQUEST, 7, b""), p.get());
    assert_eq!(sent(&a[0]), (CMD_HEART_RESPONSE, 7, vec![]));
    let a = s.on_frame(frame(CMD_ALERT, 0, b"bye"), p.get());
    assert!(matches!(&a[..], [Action::Stop]));
}

#[test]
fn a_stream_gives_back_what_was_delivered() {
    let mut c = StreamConn::new(9);
    assert_eq!(c.read(10), None);
    assert!(c.feed(b"hello"));
    assert!(!c.feed(b""));
    assert_eq!(c.read(2), Some(b"he".to_vec()));
    assert_eq!(c.read_exact_from(4), None);
    assert_eq!(c.read_exact_from(3), Some(b"llo".to_vec()));
    let f = c.write(b"x");
    assert_eq!((f.cmd, f.sid, f.data), (CMD_PSH, 9, b"x".to_vec()));
    let f = c.close();
    assert_eq!((f.cmd, f.sid, f.data), (CMD_FIN, 9, vec![]));
}

#[test]
fn a_stream_starts_with_its_destination() {
    let mut c = StreamConn::new(1);
    c.feed(&[1, 1, 2]);
    assert!(matches!(c.read_socks5_addr(), Decoded::More(7)));
    c.feed(&[3, 4, 0, 80, b'd']);
    match c.read_socks5_addr() {
        Decoded::Done(t, n) => {
            assert_eq!(t, Target { host: Host::V4([1, 2, 3, 4]), port: 80 });
            assert_eq!(n, 7);
        }
        _ => panic!("no destination"),
    }
    assert_eq!(c.buf, b"d");
    let mut c = StreamConn::new(1);
    c.feed(&[2]);
    assert!(matches!(c.read_socks5_addr(), Decoded::Bad(AddressError::UnknownType(2))));
}

#[test]
fn the_password_opens_a_connection() {
    let digest = password_hash("abc");
    assert_eq!(
        hex::encode(digest),
        "ba7816bf8f01cfea414140de5dae2223b00361a396177a9cb410ff61f20015ad"
    );
    let mut b = digest.to_vec();
    b.extend_from_slice(&[0, 2, 9, 9, b'x']);
    assert!(matches!(decode_auth(&digest, &b), Decoded::Done(2, 36)));
    assert!(matches!(decode_auth(&digest, &b[..33]), Decoded::More(34)));
    assert!(matches!(decode_auth(&digest, &b[..35]), Decoded::More(36)));
    b[0] ^= 1;
    assert!(matches!(decode_auth(&digest, &b), Decoded::Bad(AuthError::WrongPassword)));
}

#[test]
fn streams_get_their_own_data_in_order() {
    let p = SharedPadding::new_default();
    let mut s = Session::new();
    let frame = |cmd: u8, sid: u32, data: &[u8]| Frame { cmd, sid, data: data.to_vec() };
    let frames = [
        frame(CMD_SETTINGS, 0, b"v=1"),
        frame(CMD_PSH, 1, b"early"),
        frame(CMD_SYN, 1, b""),
        frame(CMD_PSH, 1, b"a"),
        frame(CMD_SYN, 2, b""),
        frame(CMD_PSH, 2, b"x"),
        frame(CMD_PSH, 1, b"b"),
        frame(CMD_FIN, 1, b""),
        frame(CMD_PSH, 1, b"late"),
        frame(CMD_PSH, 2, b"y"),
    ];
    let mut opened: Vec<u32> = Vec::new();
    let mut first: Vec<Vec<u8>> = Vec::new();
    let mut second: Vec<Vec<u8>> = Vec::new();
    for f in frames {
        for a in s.on_frame(f, p.get()) {
            match a {
                Action::Open(sid) => opened.push(sid),
                Action::Deliver(1, d) => first.push(d),
                Action::Deliver(_, d) => second.push(d),
                Action::Finish(1) => first.push(vec![]),
                _ => {}
            }
        }
    }
    assert_eq!(opened, vec![1, 2]);
    assert_eq!(first, vec![b"a".to_vec(), b"b".to_vec(), vec![]]);
    assert_eq!(second, vec![b"x".to_vec(), b"y".to_vec()]);
    assert_eq!(s.open_streams(), &[2]);
}
