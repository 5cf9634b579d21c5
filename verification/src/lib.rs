//! A small HTTP toolkit: request and response parsing, serialisation of
//! responses, extractors that read query strings, path parameters and
//! cookies out of a request, and a routing table that decides which handler
//! answers a request.

pub mod text;
pub mod outside;
pub mod strmap;
pub mod http;
pub mod extractor;
pub mod route;
pub mod roundtrip;
pub mod framing;
