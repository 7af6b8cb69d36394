//! Hysteria2: TCP streams and UDP datagrams over one QUIC connection.
pub mod auth;
pub mod congestion;
pub mod masquerade;
pub mod tcp;
pub mod udp;
pub mod varint;
