//! Encoding detection and conversion, and range access to mapped file bytes.

pub mod encoding;
pub mod mapper;
