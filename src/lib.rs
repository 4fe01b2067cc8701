//! A caching HTTP/1.1 reverse proxy: wire codec, header maps, cache entry
//! format and the per-request decisions, with their contracts.

pub mod text;
pub mod framing;
pub mod headers;
pub mod request;
pub mod cache;
pub mod response;
pub mod opts;
pub mod handler;
pub mod queue;
