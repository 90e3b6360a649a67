//! The library's model of HTTP messages: plain bytes for every part.

use vstd::prelude::*;

verus! {

/// The protocol version of a message.
#[derive(Clone, Copy, Debug, PartialEq, Eq, Structural)]
pub enum HttpVersion {
    Http09,
    Http10,
    Http11,
    H2,
    H3,
}

/// One header field: its name and its value, as bytes.
#[derive(Debug)]
pub struct Header {
    pub name: Vec<u8>,
    pub value: Vec<u8>,
}

impl View for Header {
    type V = (Seq<u8>, Seq<u8>);

    open spec fn view(&self) -> (Seq<u8>, Seq<u8>) {
        (self.name@, self.value@)
    }
}

/// The header fields of a message, in order, as pairs of byte strings.
pub open spec fn fields_view(hs: Seq<Header>) -> Seq<(Seq<u8>, Seq<u8>)> {
    hs.map_values(|h: Header| h@)
}

/// A request: method, target, version, header fields in order, and body.
#[derive(Debug)]
pub struct HttpRequest {
    pub method: Vec<u8>,
    pub target: Vec<u8>,
    pub version: HttpVersion,
    pub headers: Vec<Header>,
    pub body: Vec<u8>,
}

pub struct SpecRequest {
    pub method: Seq<u8>,
    pub target: Seq<u8>,
    pub version: HttpVersion,
    pub headers: Seq<(Seq<u8>, Seq<u8>)>,
    pub body: Seq<u8>,
}

impl View for HttpRequest {
    type V = SpecRequest;

    open spec fn view(&self) -> SpecRequest {
        SpecRequest {
            method: self.method@,
            target: self.target@,
            version: self.version,
            headers: fields_view(self.headers@),
            body: self.body@,
        }
    }
}

/// A response: status code, version, header fields in order, and body.
#[derive(Debug)]
pub struct HttpResponse {
    pub status: u16,
    pub version: HttpVersion,
    pub headers: Vec<Header>,
    pub body: Vec<u8>,
}

pub struct SpecResponse {
    pub status: u16,
    pub version: HttpVersion,
    pub headers: Seq<(Seq<u8>, Seq<u8>)>,
    pub body: Seq<u8>,
}

impl View for HttpResponse {
    type V = SpecResponse;

    open spec fn view(&self) -> SpecResponse {
        SpecResponse {
            status: self.status,
            version: self.version,
            headers: fields_view(self.headers@),
            body: self.body@,
        }
    }
}

/// How a version is written on the wire, as `http::Version`'s `Debug`
/// writes it: `HTTP/0.9`, `HTTP/1.0`, `HTTP/1.1`, `HTTP/2.0`, `HTTP/3.0`.
pub open spec fn version_text(v: HttpVersion) -> Seq<u8> {
    let (major, minor) = match v {
        HttpVersion::Http09 => (0x30u8, 0x39u8),
        HttpVersion::Http10 => (0x31u8, 0x30u8),
        HttpVersion::Http11 => (0x31u8, 0x31u8),
        HttpVersion::H2 => (0x32u8, 0x30u8),
        HttpVersion::H3 => (0x33u8, 0x30u8),
    };
    seq![0x48u8, 0x54u8, 0x54u8, 0x50u8, 0x2Fu8, major, 0x2Eu8, minor]
}

/// Formats the `http::Version` that `v` stands for with its `Debug` impl,
/// whose source writes one fixed text per version (`"HTTP/1.1"` and so on);
/// the contract states those texts.
#[verifier::external_body]
pub(crate) fn version_debug_text(v: HttpVersion) -> (r: Vec<u8>)
    ensures
        r@ == version_text(v),
{
    let version = match v {
        HttpVersion::Http09 => http::Version::HTTP_09,
        HttpVersion::Http10 => http::Version::HTTP_10,
        HttpVersion::Http11 => http::Version::HTTP_11,
        HttpVersion::H2 => http::Version::HTTP_2,
        HttpVersion::H3 => http::Version::HTTP_3,
    };
    format!("{:?}", version).into_bytes()
}

} // verus!
