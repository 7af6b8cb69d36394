use ruproxy::text::{
    decimal_text, find_char, is_white_space, joined, lines, parse_i64, parse_unsigned, pieces,
    rsplit_once, same_text, split_once, strip_end, strip_start, trim, without_spaces,
};
use ruproxy::wire::{
    copy_range, push_u16, push_u32, push_u64, read_u128, read_u16, read_u32, read_u64, same_bytes,
};

#[test]
fn white_space_is_what_char_says() {
    for n in 0..=0x10ffffu32 {
        if let Some(c) = char::from_u32(n) {
            assert_eq!(is_white_space(c), c.is_whitespace(), "{:x}", n);
        }
    }
}

#[test]
fn trimming_agrees_with_str() {
    for s in ["", "  ", "a", " a b ", "\u{3000}x\u{a0}", "\ta\n"] {
        assert_eq!(trim(s), s.trim());
    }
}

#[test]
fn splitting_agrees_with_str() {
    for s in ["", "=", "a=b", "a=b=c", "ab", "é=ü"] {
        assert_eq!(split_once(s, '='), s.split_once('='));
        assert_eq!(rsplit_once(s, '='), s.rsplit_once('='));
        let own: Vec<String> = s.split('=').map(|p| p.to_string()).collect();
        assert_eq!(pieces(s, '='), own);
    }
    assert_eq!(find_char("héllo", 'l'), 2);
    assert_eq!(find_char("x", 'y'), 1);
}

#[test]
fn lines_agree_with_str() {
    for s in ["", "\n", "a", "a\n", "a\nb", "a\r\nb\r\n", "a\r", "\r\n\n x", "a\n\nb"] {
        let own: Vec<String> = s.lines().map(|p| p.to_string()).collect();
        assert_eq!(lines(s), own, "{:?}", s);
    }
}

#[test]
fn numbers_agree_with_str() {
    for s in ["", "0", "+7", "-7", "+", "-", "007", "18446744073709551615", "18446744073709551616", "1a", " 1"] {
        assert_eq!(parse_unsigned(s, u64::MAX), s.parse::<u64>().ok(), "{:?}", s);
        assert_eq!(parse_unsigned(s, 255), s.parse::<u8>().ok().map(|v| v as u64), "{:?}", s);
        assert_eq!(parse_i64(s), s.parse::<i64>().ok(), "{:?}", s);
    }
    for s in ["9223372036854775807", "9223372036854775808", "-9223372036854775808", "-9223372036854775809"] {
        assert_eq!(parse_i64(s), s.parse::<i64>().ok(), "{:?}", s);
    }
    for n in [0u64, 9, 10, 1420, u64::MAX] {
        assert_eq!(decimal_text(n), n.to_string());
        assert_eq!(parse_unsigned(&decimal_text(n), u64::MAX), Some(n));
    }
}

#[test]
fn small_pieces_of_text() {
    assert_eq!(strip_end("/a//", '/'), "/a");
    assert_eq!(strip_start("//a/", '/'), "a/");
    assert_eq!(without_spaces("1 0 mbps"), "10mbps");
    assert_eq!(joined("ab", "cd"), "abcd");
    assert!(same_text("ä", "ä"));
    assert!(!same_text("a", "ab"));
}

#[test]
fn integers_on_the_wire() {
    let mut v = Vec::new();
    push_u16(&mut v, 0x0102);
    push_u32(&mut v, 0x03040506);
    push_u64(&mut v, 0x0708090a0b0c0d0e);
    assert_eq!(v, (1u8..=14).collect::<Vec<u8>>());
    assert_eq!(read_u16(&v, 0), 0x0102);
    assert_eq!(read_u32(&v, 2), 0x03040506);
    assert_eq!(read_u64(&v, 6), 0x0708090a0b0c0d0e);
    let w: Vec<u8> = (0..16).collect();
    assert_eq!(read_u128(&w, 0), 0x000102030405060708090a0b0c0d0e0f);
    assert_eq!(copy_range(&v, 1, 3), vec![2, 3]);
    assert!(same_bytes(&v, &v));
    assert!(!same_bytes(&v, &w));
}
