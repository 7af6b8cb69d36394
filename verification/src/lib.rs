//! The protocol logic of a multi-protocol proxy server.
//!
//! Every module decodes, encodes or decides on plain values; sockets, timers and
//! TLS live in the program around this library.
pub mod address;
pub mod anytls;
pub mod cli;
pub mod config;
pub mod crypto;
pub mod generate;
pub mod hysteria2;
pub mod shadowsocks;
pub mod socks;
pub mod text;
pub mod tls;
pub mod transport;
pub mod trojan;
pub mod tuic;
pub mod vmess;
pub mod wire;
pub mod wireguard;
pub mod xhttp;

use vstd::prelude::*;

verus! {

} // verus!
