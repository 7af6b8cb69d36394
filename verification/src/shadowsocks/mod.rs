//! Shadowsocks 2022: a salted session key, then a stream of sealed chunks.
pub mod aead;
pub mod header;
pub mod server;
