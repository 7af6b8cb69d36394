//! TUIC: TCP streams and UDP packets over one QUIC connection.
pub mod connection;
pub mod error;
pub mod proto;
