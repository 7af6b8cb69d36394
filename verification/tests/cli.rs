use base64::engine::general_purpose::{STANDARD, URL_SAFE_NO_PAD};
use base64::Engine;
use ruproxy::cli::{parse_args, parse_config_arg, Invocation};
use ruproxy::generate::{
    key_text, reality_keypair, reality_keys_from, reality_lines, wireguard_keypair,
    wireguard_keys_from, wireguard_lines,
};
use ruproxy::wireguard::server::read_key;

fn args(words: &[&str]) -> Vec<String> {
    words.iter().map(|w| w.to_string()).collect()
}

#[test]
fn the_config_path_follows_its_flag() {
    assert_eq!(parse_config_arg(&args(&["ruproxy"])), "config.toml");
    assert_eq!(parse_config_arg(&args(&["ruproxy", "-c", "a.toml"])), "a.toml");
    assert_eq!(parse_config_arg(&args(&["ruproxy", "x", "-c", "a", "-c", "b"])), "a");
    assert_eq!(parse_config_arg(&args(&["ruproxy", "-c"])), "config.toml");
    assert_eq!(parse_config_arg(&args(&["-c", "a"])), "config.toml");
    assert_eq!(parse_config_arg(&args(&[])), "config.toml");
}

#[test]
fn subcommands_are_recognised() {
    assert!(matches!(
        parse_args(&args(&["r", "generate", "wireguard-keypair"])),
        Invocation::WireguardKeypair
    ));
    assert!(matches!(
        parse_args(&args(&["r", "generate", "reality-keypair"])),
        Invocation::RealityKeypair
    ));
    assert!(matches!(parse_args(&args(&["r", "generate"])), Invocation::Usage));
    assert!(matches!(parse_args(&args(&["r", "generate", "x"])), Invocation::Usage));
    match parse_args(&args(&["r", "-c", "p"])) {
        Invocation::Serve(p) => assert_eq!(p, "p"),
        _ => panic!("not served"),
    }
}

const ALICE: [u8; 32] = [
    0x77, 0x07, 0x6d, 0x0a, 0x73, 0x18, 0xa5, 0x7d, 0x3c, 0x16, 0xc1, 0x72, 0x51, 0xb2, 0x66, 0x45,
    0xdf, 0x4c, 0x2f, 0x87, 0xeb, 0xc0, 0x99, 0x2a, 0xb1, 0x77, 0xfb, 0xa5, 0x1d, 0xb9, 0x2c, 0x2a,
];

const ALICE_PUBLIC: [u8; 32] = [
    0x85, 0x20, 0xf0, 0x09, 0x89, 0x30, 0xa7, 0x54, 0x74, 0x8b, 0x7d, 0xdc, 0xb4, 0x3e, 0xf7, 0x5a,
    0x0d, 0xbf, 0x3a, 0x0d, 0x26, 0x38, 0x1a, 0xf4, 0xeb, 0xa4, 0xa9, 0x8e, 0xaa, 0x9b, 0x4e, 0x6a,
];

#[test]
fn public_keys_belong_to_their_secrets() {
    let k = wireguard_keys_from(&ALICE, &[9; 32]);
    assert_eq!(k.server_private, STANDARD.encode(ALICE));
    assert_eq!(k.server_public, STANDARD.encode(ALICE_PUBLIC));
    assert_eq!(k.client_private, STANDARD.encode([9; 32]));
    let r = reality_keys_from(&ALICE, &[0xab, 0x01]);
    assert_eq!(r.private, URL_SAFE_NO_PAD.encode(ALICE));
    assert_eq!(r.public, URL_SAFE_NO_PAD.encode(ALICE_PUBLIC));
    assert_eq!(r.short_id, "ab01");
}

#[test]
fn a_key_text_stands_for_the_key() {
    assert_eq!(read_key(&key_text(&ALICE)), Ok(ALICE));
    assert_eq!(read_key(&key_text(&[0; 32])), Ok([0; 32]));
}

#[test]
fn what_is_printed_holds_the_keys() {
    let k = wireguard_keys_from(&ALICE, &[9; 32]);
    let lines = wireguard_lines(&k);
    assert_eq!(lines.len(), 24);
    assert_eq!(lines[3], "[wireguard]");
    assert_eq!(lines[4], format!("private_key    = \"{}\"", k.server_private));
    assert_eq!(lines[15], format!("PublicKey           = {}", k.server_public));
    assert_eq!(lines[22], format!("public_key  = \"{}\"", k.client_public));
    let r = reality_keys_from(&ALICE, &[1; 8]);
    let lines = reality_lines(&r);
    assert_eq!(lines.len(), 18);
    assert_eq!(lines[6], "short_ids   = [\"0101010101010101\"]");
    assert_eq!(lines[17], "short_id    : 0101010101010101");
}

#[test]
fn fresh_keys_differ() {
    assert_ne!(wireguard_keypair()[4], wireguard_keypair()[4]);
    let r = reality_keypair();
    assert_eq!(r[17].len(), "short_id    : ".len() + 16);
    assert_ne!(r[15], reality_keypair()[15]);
}
