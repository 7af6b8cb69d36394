//! AnyTLS: many streams in one TLS connection, with padded records.
pub mod auth;
pub mod padding;
pub mod session;
