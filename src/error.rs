use vstd::prelude::*;

verus! {

/// Declares `std::io::Error` so that a transport failure can be carried as it is.
#[verifier::external_type_specification]
#[verifier::external_body]
pub struct ExIoError(std::io::Error);

/// Declares `url::ParseError`, the reason a URL was refused.
#[verifier::external_type_specification]
#[verifier::external_body]
pub struct ExUrlParseError(url::ParseError);

/// Declares `serde_json::Error`, a JSON codec failure.
#[verifier::external_type_specification]
#[verifier::external_body]
pub struct ExJsonError(serde_json::Error);

/// Declares `quick_xml::DeError`, an XML decoding failure.
#[verifier::external_type_specification]
#[verifier::external_body]
pub struct ExXmlDeError(quick_xml::DeError);

/// Declares `quick_xml::SeError`, an XML encoding failure.
#[verifier::external_type_specification]
#[verifier::external_body]
pub struct ExXmlSeError(quick_xml::SeError);

/// Every way in which an operation of this library can fail.
#[derive(Debug)]
pub enum HttpError {
    /// A body accessor was called on a message that carries no body.
    ExpectedBody,
    /// The transport failed.
    Io(std::io::Error),
    /// The bytes do not follow the wire format, or the whole stream ended
    /// before the message did.
    InvalidFormat,
    /// The bytes that have arrived so far are not a whole message yet.
    Incomplete,
    /// A content length or status code is not a decimal number of the expected range.
    InvalidInt,
    /// A URL could not be parsed.
    InvalidUrl(url::ParseError),
    /// Text that must be UTF-8 is not.
    InvalidUtf8,
    /// The JSON codec failed.
    Json(serde_json::Error),
    /// The XML codec failed to decode.
    Xml(quick_xml::DeError),
    /// The XML codec failed to encode.
    XmlEncode(quick_xml::SeError),
    /// The protocol version is not `HTTP/1.1`.
    UnsupportedHttp,
    /// The method token is none of the known methods.
    UnknownMethod,
}

} // verus!
