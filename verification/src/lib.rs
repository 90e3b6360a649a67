//! Building blocks of a small HTTP/1.x reverse proxy: byte classifiers and
//! parsers for request and response heads, the wire form of messages, the
//! hop-by-hop header filter and a terminator-delimited stream buffer.

pub mod combinators;
pub mod grammar;
pub mod text;
pub mod message;
pub mod headers;
pub mod request;
pub mod response;
pub mod wire;
pub mod streambuf;
pub mod filters;
pub mod proxy;
pub mod roundtrip;
pub mod response_roundtrip;
pub mod head_readback;
