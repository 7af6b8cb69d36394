//! VMess: AEAD request and response headers around a chunked body.
pub mod cfb;
pub mod chunk;
pub mod header;
pub mod kdf;
