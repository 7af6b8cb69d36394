//! Streams carried by HTTP requests: one `GET` brings data down, `POST`s take it up.
pub mod route;
pub mod session;
pub mod upload;
