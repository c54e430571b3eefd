use vstd::prelude::*;
use vstd::utf8::*;

use crate::error::HttpError;
use crate::extract::{crlf, ended, find, http_1_1, http_version, until, Reader};
use crate::header::{
    body_wire, content_length_name, from_reader as headers_from_reader, headers_view,
    headers_wire, opt_bytes, parse_body, parse_headers, read_body, write_body, write_headers,
    Header, IntoHeader,
};
use crate::target::{parse_target, target_wire, url_parts, Target};
use crate::wire::{append_bytes, append_str, bytes_eq, decimal, utf8_string};

verus! {

broadcast use vstd::utf8::decode_utf8_encode_utf8;

/// The request methods spoken.
#[derive(Debug, Clone, Copy, PartialEq, Eq, Structural)]
pub enum Method {
    Delete,
    Get,
    Options,
    Patch,
    Post,
    Put,
}

/// The wire token of a method.
pub open spec fn method_token(m: Method) -> Seq<u8> {
    match m {
        Method::Delete => seq![68u8, 69u8, 76u8, 69u8, 84u8, 69u8],
        Method::Get => seq![71u8, 69u8, 84u8],
        Method::Options => seq![79u8, 80u8, 84u8, 73u8, 79u8, 78u8, 83u8],
        Method::Patch => seq![80u8, 65u8, 84u8, 67u8, 72u8],
        Method::Post => seq![80u8, 79u8, 83u8, 84u8],
        Method::Put => seq![80u8, 85u8, 84u8],
    }
}

/// The method whose token is `s`, if any.
pub open spec fn method_of(s: Seq<u8>) -> Option<Method> {
    if s == method_token(Method::Delete) {
        Some(Method::Delete)
    } else if s == method_token(Method::Get) {
        Some(Method::Get)
    } else if s == method_token(Method::Options) {
        Some(Method::Options)
    } else if s == method_token(Method::Patch) {
        Some(Method::Patch)
    } else if s == method_token(Method::Post) {
        Some(Method::Post)
    } else if s == method_token(Method::Put) {
        Some(Method::Put)
    } else {
        None
    }
}

/// The token of a method read back gives the method.
pub proof fn lemma_method_token(m: Method)
    ensures
        method_of(method_token(m)) == Some(m),
{
    assert(method_token(Method::Get) != method_token(Method::Delete));
    assert(method_token(Method::Options) != method_token(Method::Delete));
    assert(method_token(Method::Patch) != method_token(Method::Delete));
    assert(method_token(Method::Post) != method_token(Method::Delete));
    assert(method_token(Method::Put) != method_token(Method::Delete));
    assert(method_token(Method::Options) != method_token(Method::Get));
    assert(method_token(Method::Patch) != method_token(Method::Get));
    assert(method_token(Method::Post) != method_token(Method::Get));
    assert(method_token(Method::Put) != method_token(Method::Get));
    assert(method_token(Method::Patch) != method_token(Method::Options));
    assert(method_token(Method::Post) != method_token(Method::Options));
    assert(method_token(Method::Put) != method_token(Method::Options));
    assert(method_token(Method::Post) != method_token(Method::Patch));
    assert(method_token(Method::Put) != method_token(Method::Patch));
    assert(method_token(Method::Put)[1] != method_token(Method::Post)[1]);
}

impl Method {
    /// The wire token.
    pub fn as_str(&self) -> (s: &str)
        ensures
            encode_utf8(s@) == method_token(*self),
    {
        match self {
            Method::Delete => {
                proof {
                    reveal_strlit("DELETE");
                    is_ascii_chars_encode_utf8("DELETE"@);
                    assert(encode_utf8("DELETE"@) =~= method_token(*self));
                }
                "DELETE"
            },
            Method::Get => {
                proof {
                    reveal_strlit("GET");
                    is_ascii_chars_encode_utf8("GET"@);
                    assert(encode_utf8("GET"@) =~= method_token(*self));
                }
                "GET"
            },
            Method::Options => {
                proof {
                    reveal_strlit("OPTIONS");
                    is_ascii_chars_encode_utf8("OPTIONS"@);
                    assert(encode_utf8("OPTIONS"@) =~= method_token(*self));
                }
                "OPTIONS"
            },
            Method::Patch => {
                proof {
                    reveal_strlit("PATCH");
                    is_ascii_chars_encode_utf8("PATCH"@);
                    assert(encode_utf8("PATCH"@) =~= method_token(*self));
                }
                "PATCH"
            },
            Method::Post => {
                proof {
                    reveal_strlit("POST");
                    is_ascii_chars_encode_utf8("POST"@);
                    assert(encode_utf8("POST"@) =~= method_token(*self));
                }
                "POST"
            },
            Method::Put => {
                proof {
                    reveal_strlit("PUT");
                    is_ascii_chars_encode_utf8("PUT"@);
                    assert(encode_utf8("PUT"@) =~= method_token(*self));
                }
                "PUT"
            },
        }
    }

    /// The method whose token is `value`.
    pub fn from_bytes(value: &[u8]) -> (r: Result<Method, HttpError>)
        ensures
            match method_of(value@) {
                Some(m) => r == Ok::<Method, HttpError>(m),
                None => r == Err::<Method, HttpError>(HttpError::UnknownMethod),
            },
    {
        let delete: [u8; 6] = [68, 69, 76, 69, 84, 69];
        let get: [u8; 3] = [71, 69, 84];
        let options: [u8; 7] = [79, 80, 84, 73, 79, 78, 83];
        let patch: [u8; 5] = [80, 65, 84, 67, 72];
        let post: [u8; 4] = [80, 79, 83, 84];
        let put: [u8; 3] = [80, 85, 84];
        assert(delete@ =~= method_token(Method::Delete));
        assert(get@ =~= method_token(Method::Get));
        assert(options@ =~= method_token(Method::Options));
        assert(patch@ =~= method_token(Method::Patch));
        assert(post@ =~= method_token(Method::Post));
        assert(put@ =~= method_token(Method::Put));
        if bytes_eq(value, &delete) {
            Ok(Method::Delete)
        } else if bytes_eq(value, &get) {
            Ok(Method::Get)
        } else if bytes_eq(value, &options) {
            Ok(Method::Options)
        } else if bytes_eq(value, &patch) {
            Ok(Method::Patch)
        } else if bytes_eq(value, &post) {
            Ok(Method::Post)
        } else if bytes_eq(value, &put) {
            Ok(Method::Put)
        } else {
            Err(HttpError::UnknownMethod)
        }
    }
}

/// A request: method, target, headers in order, and an optional body.
#[derive(Debug)]
pub struct Request {
    pub url: Target,
    pub method: Method,
    pub body: Option<Vec<u8>>,
    pub headers: Vec<Header>,
}

/// What a request holds, with headers and body as wire bytes.
pub struct RequestView {
    pub method: Method,
    pub target: (Option<Seq<char>>, Option<u16>, Seq<char>, Option<Seq<char>>),
    pub headers: Seq<(Seq<u8>, Seq<u8>)>,
    pub body: Option<Seq<u8>>,
}

impl View for Request {
    type V = RequestView;

    open spec fn view(&self) -> RequestView {
        RequestView {
            method: self.method,
            target: self.url@,
            headers: headers_view(self.headers@),
            body: opt_bytes(self.body),
        }
    }
}

/// The request line: method, space, target, space, version, line ending.
pub open spec fn request_line(r: RequestView) -> Seq<u8> {
    method_token(r.method) + seq![32u8] + target_wire(r.target) + seq![32u8] + http_1_1() + crlf()
}

/// The wire form of a request.
pub open spec fn request_wire(r: RequestView) -> Seq<u8> {
    request_line(r) + headers_wire(r.headers) + crlf() + body_wire(r.body)
}

/// The request line's parts, checked in this order: two spaces, the
/// method, the version (exactly `HTTP/1.1`), the target.
pub open spec fn parse_request_line(line: Seq<u8>) -> Result<
    (Method, (Option<Seq<char>>, Option<u16>, Seq<char>, Option<Seq<char>>)),
    HttpError,
> {
    match find(line, seq![32u8]) {
        None => Err(HttpError::InvalidFormat),
        Some(a) => {
            let rest = line.skip((a + 1) as int);
            match find(rest, seq![32u8]) {
                None => Err(HttpError::InvalidFormat),
                Some(b) => match method_of(line.take(a as int)) {
                    None => Err(HttpError::UnknownMethod),
                    Some(m) => {
                        let version = rest.skip((b + 1) as int);
                        if version.len() < 8 {
                            Err(HttpError::InvalidFormat)
                        } else if !http_1_1().is_prefix_of(version) {
                            Err(HttpError::UnsupportedHttp)
                        } else if version.len() > 8 {
                            Err(HttpError::InvalidFormat)
                        } else {
                            match parse_target(rest.take(b as int)) {
                                Err(e) => Err(e),
                                Ok(t) => Ok((m, t)),
                            }
                        }
                    },
                },
            }
        },
    }
}

/// What the bytes `s` start with, read as a request: the request and how
/// many bytes it takes. `more` tells whether bytes after `s` may still
/// arrive.
pub open spec fn parse_request(s: Seq<u8>, more: bool) -> Result<(RequestView, nat), HttpError> {
    match find(s, crlf()) {
        None => Err(ended(more)),
        Some(e) => match parse_request_line(s.take(e as int)) {
            Err(err) => Err(err),
            Ok((m, t)) => {
                let s2 = s.skip((e + 2) as int);
                match parse_headers(s2, None, more) {
                    Err(err) => Err(err),
                    Ok((hs, cl, used)) => match parse_body(s2.skip(used as int), cl, more) {
                        Err(err) => Err(err),
                        Ok((body, n)) => Ok(
                            (
                                RequestView { method: m, target: t, headers: hs, body },
                                e + 2 + used + n,
                            ),
                        ),
                    },
                }
            },
        },
    }
}

/// Reads a request line, its ending removed.
fn read_request_line(line: Vec<u8>) -> (r: Result<(Method, Target), HttpError>)
    ensures
        match parse_request_line(line@) {
            Ok((m, t)) => r is Ok && r->Ok_0.0 == m && r->Ok_0.1@ == t,
            Err(e) => r == Err::<(Method, Target), HttpError>(e),
        },
{
    let space: [u8; 1] = [32];
    assert(space@ =~= seq![32u8]);
    let ghost l = line@;
    let mut reader = Reader::new(line);
    let method = match until(&mut reader, &space) {
        Ok(m) => m,
        Err(e) => return Err(e),
    };
    let ghost a = method@.len();
    assert(reader@ =~= l.skip((a + 1) as int));
    let target = match until(&mut reader, &space) {
        Ok(t) => t,
        Err(e) => return Err(e),
    };
    let ghost b = target@.len();
    assert(reader@ =~= l.skip((a + 1) as int).skip((b + 1) as int));
    let method = match Method::from_bytes(method.as_slice()) {
        Ok(m) => m,
        Err(e) => return Err(e),
    };
    if let Err(e) = http_version(&mut reader) {
        return Err(e);
    }
    if reader.remaining() != 0 {
        return Err(HttpError::InvalidFormat);
    }
    match Target::from_wire(target) {
        Ok(t) => Ok((method, t)),
        Err(e) => Err(e),
    }
}

impl Request {
    pub fn delete(url: &str) -> (b: RequestBuilder)
        ensures
            b.spec_new(Method::Delete, url@),
    {
        RequestBuilder::new(Method::Delete, url)
    }

    pub fn get(url: &str) -> (b: RequestBuilder)
        ensures
            b.spec_new(Method::Get, url@),
    {
        RequestBuilder::new(Method::Get, url)
    }

    pub fn options(url: &str) -> (b: RequestBuilder)
        ensures
            b.spec_new(Method::Options, url@),
    {
        RequestBuilder::new(Method::Options, url)
    }

    pub fn patch(url: &str) -> (b: RequestBuilder)
        ensures
            b.spec_new(Method::Patch, url@),
    {
        RequestBuilder::new(Method::Patch, url)
    }

    pub fn post(url: &str) -> (b: RequestBuilder)
        ensures
            b.spec_new(Method::Post, url@),
    {
        RequestBuilder::new(Method::Post, url)
    }

    pub fn put(url: &str) -> (b: RequestBuilder)
        ensures
            b.spec_new(Method::Put, url@),
    {
        RequestBuilder::new(Method::Put, url)
    }

    /// Reads a request: request line, header block, and as many body bytes
    /// as `content-length` gives.
    pub fn from_reader(reader: &mut Reader) -> (r: Result<Request, HttpError>)
        ensures
            match parse_request(old(reader)@, old(reader).may_grow()) {
                Ok((v, used)) => r is Ok && r->Ok_0@ == v && used <= old(reader)@.len() && final(reader)@
                    == old(reader)@.skip(used as int),
                Err(e) => r == Err::<Request, HttpError>(e),
            },
    {
        let ghost s = reader@;
        let end: [u8; 2] = [13, 10];
        assert(end@ =~= crlf());
        let line = match until(reader, &end) {
            Ok(l) => l,
            Err(e) => return Err(e),
        };
        let ghost e = line@.len();
        assert(reader@ =~= s.skip((e + 2) as int));
        let (method, url) = match read_request_line(line) {
            Ok(p) => p,
            Err(e) => return Err(e),
        };
        let ghost s2 = reader@;
        let (headers, cl) = match headers_from_reader(reader) {
            Ok(p) => p,
            Err(e) => return Err(e),
        };
        let ghost used = s2.len() - reader@.len();
        assert(reader@ =~= s2.skip(used));
        let body = match read_body(reader, cl) {
            Ok(b) => b,
            Err(e) => return Err(e),
        };
        assert(reader@ =~= s.skip(s.len() - reader@.len()));
        Ok(Request { url, method, body, headers })
    }

    /// Appends the wire form of the request to `sink`. A body's
    /// `content-length` must already stand among the headers.
    pub fn write(&self, sink: &mut Vec<u8>)
        ensures
            final(sink)@ == old(sink)@ + request_wire(self@),
    {
        let space: [u8; 1] = [32];
        let version: [u8; 11] = [32, 72, 84, 84, 80, 47, 49, 46, 49, 13, 10];
        let end: [u8; 2] = [13, 10];
        assert(version@ =~= seq![32u8] + http_1_1() + crlf());
        assert(end@ =~= crlf());
        append_str(sink, self.method.as_str());
        append_bytes(sink, &space);
        self.url.write(sink);
        append_bytes(sink, &version);
        write_headers(sink, &self.headers);
        append_bytes(sink, &end);
        write_body(sink, &self.body);
        assert(sink@ =~= old(sink)@ + request_wire(self@));
    }

    /// The wire form of the request.
    pub fn to_bytes(&self) -> (r: Vec<u8>)
        ensures
            r@ == request_wire(self@),
    {
        let mut out: Vec<u8> = Vec::new();
        self.write(&mut out);
        assert(out@ =~= request_wire(self@));
        out
    }

    /// The path of the target.
    pub fn path(&self) -> (p: &str)
        ensures
            p@ == self@.target.2,
    {
        self.url.path.as_str()
    }

    /// The body as text; it must be present and valid UTF-8.
    pub fn text(self) -> (r: Result<String, HttpError>)
        ensures
            match self@.body {
                None => r == Err::<String, HttpError>(HttpError::ExpectedBody),
                Some(b) => if valid_utf8(b) {
                    r is Ok && encode_utf8(r->Ok_0@) == b
                } else {
                    r == Err::<String, HttpError>(HttpError::InvalidUtf8)
                },
            },
    {
        match self.body {
            None => Err(HttpError::ExpectedBody),
            Some(b) => match utf8_string(b) {
                Some(s) => Ok(s),
                None => Err(HttpError::InvalidUtf8),
            },
        }
    }

    /// The body as bytes; it must be present.
    pub fn bytes(self) -> (r: Result<Vec<u8>, HttpError>)
        ensures
            match self@.body {
                None => r == Err::<Vec<u8>, HttpError>(HttpError::ExpectedBody),
                Some(b) => r is Ok && r->Ok_0@ == b,
            },
    {
        match self.body {
            None => Err(HttpError::ExpectedBody),
            Some(b) => Ok(b),
        }
    }
}

/// `connection: close`
pub open spec fn connection_close() -> (Seq<u8>, Seq<u8>) {
    (
        seq![99u8, 111u8, 110u8, 110u8, 101u8, 99u8, 116u8, 105u8, 111u8, 110u8],
        seq![99u8, 108u8, 111u8, 115u8, 101u8],
    )
}

/// `host`
pub open spec fn host_name() -> Seq<u8> {
    seq![104u8, 111u8, 115u8, 116u8]
}

/// `content-type`
pub open spec fn content_type_name() -> Seq<u8> {
    seq![99u8, 111u8, 110u8, 116u8, 101u8, 110u8, 116u8, 45u8, 116u8, 121u8, 112u8, 101u8]
}

/// `text/plain`
pub open spec fn text_plain() -> Seq<u8> {
    seq![116u8, 101u8, 120u8, 116u8, 47u8, 112u8, 108u8, 97u8, 105u8, 110u8]
}

/// The headers every new request starts with: `connection: close`, and
/// `host` where the target names a host.
pub open spec fn seed_headers(t: (Option<Seq<char>>, Option<u16>, Seq<char>, Option<Seq<char>>)) -> Seq<
    (Seq<u8>, Seq<u8>),
> {
    match t.0 {
        Some(h) => seq![connection_close(), (host_name(), encode_utf8(h))],
        None => seq![connection_close()],
    }
}

/// Builds a request step by step. A codec failure is kept and given back by
/// `finish`.
#[derive(Debug)]
pub struct RequestBuilder {
    request: Request,
    error: Option<HttpError>,
}

impl View for RequestBuilder {
    type V = (RequestView, Option<HttpError>);

    closed spec fn view(&self) -> (RequestView, Option<HttpError>) {
        (self.request@, self.error)
    }
}

/// An ASCII literal encodes to the bytes of its characters.
proof fn lemma_literal(s: &str, b: Seq<u8>)
    requires
        is_ascii_chars(s@),
        s@.len() == b.len(),
        forall|i: int| 0 <= i < b.len() ==> s@[i] as u8 == b[i],
    ensures
        encode_utf8(s@) == b,
{
    is_ascii_chars_encode_utf8(s@);
    assert(encode_utf8(s@) =~= b);
}

impl RequestBuilder {
    /// What `new(method, url)` gives: a fresh builder where the URL parses,
    /// a kept `InvalidUrl` error where it does not.
    pub open spec fn spec_new(&self, method: Method, url: Seq<char>) -> bool {
        match url_parts(url) {
            Some(t) => self@ == (
                RequestView { method, target: t, headers: seed_headers(t), body: None },
                None::<HttpError>,
            ),
            None => self@.1 matches Some(HttpError::InvalidUrl(_)),
        }
    }

    /// A builder for `method` on the URL `url`.
    pub fn new(method: Method, url: &str) -> (b: Self)
        ensures
            b.spec_new(method, url@),
    {
        match Target::parse(url) {
            Ok(t) => RequestBuilder::from_target(method, t),
            Err(e) => {
                let t = Target { host: None, port: None, path: String::new(), query: None };
                let mut b = RequestBuilder::from_target(method, t);
                b.error = Some(e);
                b
            },
        }
    }

    /// A builder for `method` on a parsed target: headers `connection: close`
    /// and, where the target names a host, `host`; no body, no error.
    pub fn from_target(method: Method, target: Target) -> (b: Self)
        ensures
            b@ == (
                RequestView {
                    method,
                    target: target@,
                    headers: seed_headers(target@),
                    body: None,
                },
                None::<HttpError>,
            ),
    {
        proof {
            reveal_strlit("connection");
            reveal_strlit("close");
            reveal_strlit("host");
            lemma_literal("connection", connection_close().0);
            lemma_literal("close", connection_close().1);
            lemma_literal("host", host_name());
        }
        let mut headers: Vec<Header> = Vec::new();
        headers.push(Header { name: "connection".to_owned(), value: "close".to_owned() });
        match &target.host {
            Some(h) => {
                headers.push(Header { name: "host".to_owned(), value: h.clone() });
            },
            None => {},
        }
        let b = RequestBuilder {
            request: Request { url: target, method, body: None, headers },
            error: None,
        };
        assert(b@.0.headers =~= seed_headers(target@));
        b
    }

    /// The kept error, if any.
    pub fn error(&self) -> (e: Option<&HttpError>)
        ensures
            match self@.1 {
                Some(x) => e == Some(&x),
                None => e is None,
            },
    {
        match &self.error {
            Some(x) => Some(x),
            None => None,
        }
    }

    /// Appends a header, as it is. Once an error is kept, does nothing.
    pub fn header<H: IntoHeader>(self, header: H) -> (b: Self)
        ensures
            self@.1 is Some ==> b@ == self@,
            self@.1 is None ==> b@ == (
                RequestView { headers: self@.0.headers.push(header.header_view()), ..self@.0 },
                self@.1,
            ),
    {
        if self.error.is_some() {
            return self;
        }
        let mut b = self;
        let h = header.into_header();
        b.request.headers.push(h);
        proof {
            assert(headers_view(b.request.headers@) =~= self@.0.headers.push(h@));
        }
        b
    }

    /// Sets the body and appends `content-type: text/plain`. Once an error
    /// is kept, does nothing.
    pub fn body(self, payload: Vec<u8>) -> (b: Self)
        ensures
            self@.1 is Some ==> b@ == self@,
            self@.1 is None ==> b@ == (
                RequestView {
                    headers: self@.0.headers.push((content_type_name(), text_plain())),
                    body: Some(payload@),
                    ..self@.0
                },
                self@.1,
            ),
    {
        if self.error.is_some() {
            return self;
        }
        let mut b = self;
        b.request.body = Some(payload);
        proof {
            reveal_strlit("content-type");
            reveal_strlit("text/plain");
            lemma_literal("content-type", content_type_name());
            lemma_literal("text/plain", text_plain());
        }
        b.header(("content-type", "text/plain"))
    }

    /// Takes the outcome of encoding a payload: on success the bytes become
    /// the body and `content-type: <content_type>` is appended; on failure
    /// the error is kept and nothing else changes. Once an error is kept,
    /// does nothing, so the first error is the one given back.
    pub fn encoded(self, payload: Result<Vec<u8>, HttpError>, content_type: &str) -> (b: Self)
        ensures
            self@.1 is Some ==> b@ == self@,
            self@.1 is None ==> match payload {
                Ok(p) => b@ == (
                    RequestView {
                        headers: self@.0.headers.push((content_type_name(), encode_utf8(content_type@))),
                        body: Some(p@),
                        ..self@.0
                    },
                    self@.1,
                ),
                Err(e) => b@ == (self@.0, Some(e)),
            },
    {
        if self.error.is_some() {
            return self;
        }
        let mut b = self;
        match payload {
            Ok(p) => {
                b.request.body = Some(p);
                proof {
                    reveal_strlit("content-type");
                    lemma_literal("content-type", content_type_name());
                }
                b.header(("content-type", content_type))
            },
            Err(e) => {
                b.error = Some(e);
                b
            },
        }
    }

    /// The request to send: the kept error if there is one; otherwise the
    /// request, with `content-length` appended where it has a body.
    pub fn finish(self) -> (r: Result<Request, HttpError>)
        ensures
            match self@.1 {
                Some(e) => r == Err::<Request, HttpError>(e),
                None => r is Ok && r->Ok_0@ == match self@.0.body {
                    Some(b) => RequestView {
                        headers: self@.0.headers.push((content_length_name(), decimal(b.len()))),
                        ..self@.0
                    },
                    None => self@.0,
                },
            },
    {
        if let Some(e) = self.error {
            return Err(e);
        }
        let len = match &self.request.body {
            Some(b) => Some(b.len()),
            None => None,
        };
        match len {
            Some(n) => {
                proof {
                    reveal_strlit("content-length");
                    lemma_literal("content-length", content_length_name());
                }
                let b = self.header(("content-length", n));
                Ok(b.request)
            },
            None => Ok(self.request),
        }
    }
}

} // verus!
