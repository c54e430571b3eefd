use vstd::prelude::*;
use vstd::utf8::*;

use crate::error::HttpError;
use crate::extract::{crlf, ended, find, http_1_1, http_version, skip, until, Reader};
use crate::header::{
    body_wire, content_length_name, headers_view, headers_wire, opt_bytes, parse_body,
    parse_headers, read_body, write_body, write_headers, from_reader as headers_from_reader,
    Header, IntoHeader,
};
use crate::request::content_type_name;
use crate::wire::{
    append_bytes, append_str, decimal, eq_ignore_case, lower, parse_unsigned, parse_unsigned_exec,
    push_decimal, utf8_string,
};

verus! {

broadcast use vstd::utf8::decode_utf8_encode_utf8;

/// A response: a status code, headers in order, and an optional body.
#[derive(Debug)]
pub struct Response {
    headers: Vec<Header>,
    status: u16,
    body: Option<Vec<u8>>,
}

/// What a response holds, with headers and body as wire bytes.
pub struct ResponseView {
    pub status: u16,
    pub headers: Seq<(Seq<u8>, Seq<u8>)>,
    pub body: Option<Seq<u8>>,
}

impl View for Response {
    type V = ResponseView;

    closed spec fn view(&self) -> ResponseView {
        ResponseView {
            status: self.status,
            headers: headers_view(self.headers@),
            body: opt_bytes(self.body),
        }
    }
}

/// The status line: version, space, status, space, an empty reason phrase,
/// line ending.
pub open spec fn status_line(status: u16) -> Seq<u8> {
    http_1_1() + seq![32u8] + decimal(status as nat) + seq![32u8] + crlf()
}

/// The wire form of a response.
pub open spec fn response_wire(r: ResponseView) -> Seq<u8> {
    status_line(r.status) + headers_wire(r.headers) + crlf() + body_wire(r.body)
}

/// The status line at the front of `s`: the status and the line's length.
/// The reason phrase is skipped. `more` tells whether bytes after `s` may
/// still arrive.
pub open spec fn parse_status_line(s: Seq<u8>, more: bool) -> Result<(u16, nat), HttpError> {
    if s.len() < 8 {
        Err(ended(more))
    } else if !http_1_1().is_prefix_of(s) {
        Err(HttpError::UnsupportedHttp)
    } else if s.len() < 9 {
        Err(ended(more))
    } else if !seq![32u8].is_prefix_of(s.skip(8)) {
        Err(HttpError::InvalidFormat)
    } else {
        let s1 = s.skip(9);
        match find(s1, seq![32u8]) {
            None => Err(ended(more)),
            Some(k) => match parse_unsigned(s1.take(k as int), 65535) {
                None => Err(HttpError::InvalidInt),
                Some(status) => match find(s1.skip((k + 1) as int), crlf()) {
                    None => Err(ended(more)),
                    Some(j) => Ok((status as u16, 9 + k + 1 + j + 2)),
                },
            },
        }
    }
}

/// What the bytes `s` start with, read as a response: the response and
/// how many bytes it takes.
pub open spec fn parse_response(s: Seq<u8>, more: bool) -> Result<(ResponseView, nat), HttpError> {
    match parse_status_line(s, more) {
        Err(e) => Err(e),
        Ok((status, line)) => {
            let s3 = s.skip(line as int);
            match parse_headers(s3, None, more) {
                Err(e) => Err(e),
                Ok((hs, cl, used)) => match parse_body(s3.skip(used as int), cl, more) {
                    Err(e) => Err(e),
                    Ok((body, n)) => Ok(
                        (ResponseView { status, headers: hs, body }, line + used + n),
                    ),
                },
            }
        },
    }
}

/// The index of the first header whose name equals `name`, ignoring ASCII case.
pub open spec fn first_named(hs: Seq<(Seq<u8>, Seq<u8>)>, name: Seq<u8>) -> Option<int> {
    if exists|i: int| 0 <= i < hs.len() && lower(hs[i].0) == lower(name) {
        Some(
            choose|i: int|
                0 <= i < hs.len() && lower(hs[i].0) == lower(name) && forall|j: int|
                    0 <= j < i ==> lower(hs[j].0) != lower(name),
        )
    } else {
        None
    }
}

impl Response {
    /// A builder for a response: status 200, no headers, no body.
    pub fn builder() -> (b: ResponseBuilder)
        ensures
            b@ == (ResponseView { status: 200, headers: seq![], body: None }),
            b.pending() is None,
    {
        ResponseBuilder::new()
    }

    #[must_use]
    pub fn status(&self) -> (s: u16)
        ensures
            s == self@.status,
    {
        self.status
    }

    /// The headers, in order.
    pub fn headers(&self) -> (h: &Vec<Header>)
        ensures
            headers_view(h@) == self@.headers,
    {
        &self.headers
    }

    /// The body as text; it must be present and valid UTF-8.
    pub fn text(self) -> (r: Result<String, HttpError>)
        ensures
            match self@.body {
                None => r == Err::<String, HttpError>(HttpError::ExpectedBody),
                Some(b) => if valid_utf8(b) {
                    r is Ok && encode_utf8(r->Ok_0@) == b
                } else {
                    r == Err::<String, HttpError>(HttpError::InvalidUtf8)
                },
            },
    {
        match self.body {
            None => Err(HttpError::ExpectedBody),
            Some(b) => match utf8_string(b) {
                Some(s) => Ok(s),
                None => Err(HttpError::InvalidUtf8),
            },
        }
    }

    /// The body as bytes; it must be present.
    pub fn bytes(self) -> (r: Result<Vec<u8>, HttpError>)
        ensures
            match self@.body {
                None => r == Err::<Vec<u8>, HttpError>(HttpError::ExpectedBody),
                Some(b) => r is Ok && r->Ok_0@ == b,
            },
    {
        match self.body {
            None => Err(HttpError::ExpectedBody),
            Some(b) => Ok(b),
        }
    }

    /// Reads a response: status line, header block, and as many body bytes
    /// as `content-length` gives.
    pub fn from_reader(reader: &mut Reader) -> (r: Result<Response, HttpError>)
        ensures
            match parse_response(old(reader)@, old(reader).may_grow()) {
                Ok((v, used)) => r is Ok && r->Ok_0@ == v && used <= old(reader)@.len() && final(reader)@
                    == old(reader)@.skip(used as int),
                Err(e) => r == Err::<Response, HttpError>(e),
            },
    {
        let ghost s = reader@;
        let space: [u8; 1] = [32];
        let end: [u8; 2] = [13, 10];
        assert(space@ =~= seq![32u8]);
        assert(end@ =~= crlf());
        if let Err(e) = http_version(reader) {
            return Err(e);
        }
        assert(reader@ == s.skip(8));
        if let Err(e) = skip(reader, &space) {
            return Err(e);
        }
        assert(reader@ =~= s.skip(9));
        let token = match until(reader, &space) {
            Ok(t) => t,
            Err(e) => return Err(e),
        };
        let status = match parse_unsigned_exec(token.as_slice(), 65535) {
            Some(n) => n as u16,
            None => return Err(HttpError::InvalidInt),
        };
        let ghost k = token@.len();
        assert(reader@ =~= s.skip(9).skip((k + 1) as int));
        let reason = match until(reader, &end) {
            Ok(t) => t,
            Err(e) => return Err(e),
        };
        let ghost j = reason@.len();
        assert(reader@ =~= s.skip(9).skip((k + 1) as int).skip((j + 2) as int));
        assert(reader@ =~= s.skip((9 + k + 1 + j + 2) as int));
        let ghost s3 = reader@;
        let (headers, cl) = match headers_from_reader(reader) {
            Ok(p) => p,
            Err(e) => return Err(e),
        };
        let ghost used = s3.len() - reader@.len();
        assert(reader@ =~= s3.skip(used));
        let body = match read_body(reader, cl) {
            Ok(b) => b,
            Err(e) => return Err(e),
        };
        assert(reader@ =~= s.skip(s.len() - reader@.len()));
        Ok(Response { headers, status, body })
    }

    /// Reads a response from the front of `bytes`.
    pub fn from_bytes(bytes: Vec<u8>) -> (r: Result<Response, HttpError>)
        ensures
            match parse_response(bytes@, false) {
                Ok((v, used)) => r is Ok && r->Ok_0@ == v,
                Err(e) => r == Err::<Response, HttpError>(e),
            },
    {
        let mut reader = Reader::new(bytes);
        Response::from_reader(&mut reader)
    }

    /// Appends the wire form of the response to `sink`.
    pub fn write(&self, sink: &mut Vec<u8>)
        ensures
            final(sink)@ == old(sink)@ + response_wire(self@),
    {
        let version: [u8; 9] = [72, 84, 84, 80, 47, 49, 46, 49, 32];
        let tail: [u8; 3] = [32, 13, 10];
        let end: [u8; 2] = [13, 10];
        assert(version@ =~= http_1_1() + seq![32u8]);
        assert(tail@ =~= seq![32u8] + crlf());
        assert(end@ =~= crlf());
        append_bytes(sink, &version);
        push_decimal(sink, self.status as usize);
        append_bytes(sink, &tail);
        write_headers(sink, &self.headers);
        append_bytes(sink, &end);
        write_body(sink, &self.body);
        assert(sink@ =~= old(sink)@ + response_wire(self@));
    }

    /// The wire form of the response.
    pub fn to_bytes(&self) -> (r: Vec<u8>)
        ensures
            r@ == response_wire(self@),
    {
        let mut out: Vec<u8> = Vec::new();
        self.write(&mut out);
        assert(out@ =~= response_wire(self@));
        out
    }

    /// The value of the first header named `name`, ignoring ASCII case.
    #[must_use]
    pub fn header(&self, name: &str) -> (r: Option<&str>)
        ensures
            match first_named(self@.headers, encode_utf8(name@)) {
                Some(i) => r is Some && encode_utf8(r->Some_0@) == self@.headers[i].1,
                None => r is None,
            },
    {
        let key = name.as_bytes();
        let mut i: usize = 0;
        while i < self.headers.len()
            invariant
                i <= self.headers@.len(),
                key@ == encode_utf8(name@),
                forall|j: int|
                    0 <= j < i ==> lower(#[trigger] self@.headers[j].0) != lower(key@),
            decreases self.headers@.len() - i,
        {
            let h = &self.headers[i];
            if eq_ignore_case(h.name.as_str().as_bytes(), key) {
                proof {
                    let hs = self@.headers;
                    assert(hs[i as int] == h@);
                    let c = choose|c: int|
                        0 <= c < hs.len() && lower(hs[c].0) == lower(key@) && forall|j: int|
                            0 <= j < c ==> lower(hs[j].0) != lower(key@);
                    assert(c == i) by {
                        if c < i {
                            assert(lower(hs[c].0) != lower(key@));
                        }
                        if c > i {
                            assert(lower(hs[i as int].0) != lower(key@));
                        }
                    }
                }
                return Some(h.value.as_str());
            }
            i += 1;
        }
        None
    }
}

/// Builds a response step by step. A codec failure is kept: once one is
/// kept, every later step does nothing, and the caller checks `error`
/// before `build`.
#[must_use]
#[derive(Debug)]
pub struct ResponseBuilder {
    response: Response,
    error: Option<HttpError>,
}

impl View for ResponseBuilder {
    type V = ResponseView;

    closed spec fn view(&self) -> ResponseView {
        self.response@
    }
}

impl Default for ResponseBuilder {
    fn default() -> (b: Self)
        ensures
            b@ == (ResponseView { status: 200, headers: seq![], body: None }),
            b.pending() is None,
    {
        ResponseBuilder::new()
    }
}

impl From<Response> for ResponseBuilder {
    fn from(response: Response) -> (b: Self)
        ensures
            b@ == response@,
            b.pending() is None,
    {
        ResponseBuilder { response, error: None }
    }
}

impl vstd::std_specs::convert::FromSpecImpl<Response> for ResponseBuilder {
    open spec fn obeys_from_spec() -> bool {
        true
    }

    closed spec fn from_spec(response: Response) -> Self {
        ResponseBuilder { response, error: None }
    }
}

/// The `content-length` header for a body of `n` bytes.
pub open spec fn length_header(n: nat) -> (Seq<u8>, Seq<u8>) {
    (content_length_name(), decimal(n))
}

impl ResponseBuilder {
    /// The kept codec failure, if any.
    pub closed spec fn pending(&self) -> Option<HttpError> {
        self.error
    }

    pub fn new() -> (b: Self)
        ensures
            b@ == (ResponseView { status: 200, headers: seq![], body: None }),
            b.pending() is None,
    {
        let b = ResponseBuilder {
            response: Response { headers: Vec::new(), status: 200, body: None },
            error: None,
        };
        assert(b@.headers =~= seq![]);
        b
    }

    /// The kept error, if any.
    pub fn error(&self) -> (e: Option<&HttpError>)
        ensures
            match self.pending() {
                Some(x) => e == Some(&x),
                None => e is None,
            },
    {
        match &self.error {
            Some(x) => Some(x),
            None => None,
        }
    }

    /// Sets the status code.
    pub fn status(self, status: u16) -> (b: Self)
        ensures
            b.pending() == self.pending(),
            self.pending() is Some ==> b@ == self@,
            self.pending() is None ==> b@ == (ResponseView { status, ..self@ }),
    {
        if self.error.is_some() {
            return self;
        }
        let mut b = self;
        b.response.status = status;
        b
    }

    /// Sets the body and appends a `content-length` header sized to it.
    pub fn body(self, body: Vec<u8>) -> (b: Self)
        ensures
            b.pending() == self.pending(),
            self.pending() is Some ==> b@ == self@,
            self.pending() is None ==> b@ == (ResponseView {
                status: self@.status,
                headers: self@.headers.push(length_header(body@.len())),
                body: Some(body@),
            }),
    {
        if self.error.is_some() {
            return self;
        }
        let len = body.len();
        let mut b = self;
        b.response.body = Some(body);
        proof { reveal_strlit("content-length"); }
        let b = b.header(("content-length", len));
        proof {
            assert("content-length"@ =~= seq!['c', 'o', 'n', 't', 'e', 'n', 't', '-', 'l', 'e', 'n', 'g', 't', 'h']);
            vstd::utf8::is_ascii_chars_encode_utf8("content-length"@);
            assert(encode_utf8("content-length"@) =~= content_length_name());
        }
        b
    }

    /// Takes the outcome of encoding a payload: on success the bytes become
    /// the body, with its `content-length`, and `content-type:
    /// <content_type>` is appended; on failure the error is kept and
    /// nothing else changes.
    pub fn encoded(self, payload: Result<Vec<u8>, HttpError>, content_type: &str) -> (b: Self)
        ensures
            self.pending() is Some ==> b@ == self@ && b.pending() == self.pending(),
            self.pending() is None ==> match payload {
                Ok(p) => b.pending() is None && b@ == (ResponseView {
                    status: self@.status,
                    headers: self@.headers.push(length_header(p@.len())).push(
                        (content_type_name(), encode_utf8(content_type@)),
                    ),
                    body: Some(p@),
                }),
                Err(e) => b@ == self@ && b.pending() == Some(e),
            },
    {
        if self.error.is_some() {
            return self;
        }
        match payload {
            Ok(p) => {
                proof {
                    reveal_strlit("content-type");
                    vstd::utf8::is_ascii_chars_encode_utf8("content-type"@);
                    assert(encode_utf8("content-type"@) =~= content_type_name());
                }
                self.body(p).header(("content-type", content_type))
            },
            Err(e) => {
                let mut b = self;
                b.error = Some(e);
                b
            },
        }
    }

    /// The response built so far.
    pub fn build(self) -> (r: Response)
        ensures
            r@ == self@,
    {
        self.response
    }

    /// Appends a header, as it is.
    pub fn header<H: IntoHeader>(self, header: H) -> (b: Self)
        ensures
            b.pending() == self.pending(),
            self.pending() is Some ==> b@ == self@,
            self.pending() is None ==> b@ == (ResponseView {
                headers: self@.headers.push(header.header_view()),
                ..self@
            }),
    {
        if self.error.is_some() {
            return self;
        }
        let mut b = self;
        let h = header.into_header();
        b.response.headers.push(h);
        proof {
            assert(headers_view(b.response.headers@) =~= self@.headers.push(h@));
        }
        b
    }
}

/// A value a handler can answer with.
pub trait IntoResponse: Sized {
    /// The response the value stands for.
    spec fn response_view(&self) -> ResponseView;

    fn into_response(self) -> (r: Response)
        ensures
            r@ == self.response_view(),
    ;
}

/// Status 200 with `body` and its `content-length`.
pub open spec fn ok_with(body: Seq<u8>) -> ResponseView {
    ResponseView { status: 200, headers: seq![length_header(body.len())], body: Some(body) }
}

/// Status `status`, no headers, no body.
pub open spec fn bare(status: u16) -> ResponseView {
    ResponseView { status, headers: seq![], body: None }
}

impl IntoResponse for Response {
    open spec fn response_view(&self) -> ResponseView {
        self@
    }

    fn into_response(self) -> (r: Response) {
        self
    }
}

impl IntoResponse for Vec<u8> {
    open spec fn response_view(&self) -> ResponseView {
        ok_with(self@)
    }

    fn into_response(self) -> (r: Response) {
        Response::builder().body(self).build()
    }
}

impl IntoResponse for String {
    open spec fn response_view(&self) -> ResponseView {
        ok_with(encode_utf8(self@))
    }

    fn into_response(self) -> (r: Response) {
        let mut bytes: Vec<u8> = Vec::new();
        append_str(&mut bytes, self.as_str());
        assert(bytes@ =~= encode_utf8(self@));
        Response::builder().body(bytes).build()
    }
}

impl IntoResponse for &'static str {
    open spec fn response_view(&self) -> ResponseView {
        ok_with(encode_utf8(self@))
    }

    fn into_response(self) -> (r: Response) {
        let mut bytes: Vec<u8> = Vec::new();
        append_str(&mut bytes, self);
        assert(bytes@ =~= encode_utf8(self@));
        Response::builder().body(bytes).build()
    }
}

impl IntoResponse for () {
    open spec fn response_view(&self) -> ResponseView {
        bare(204)
    }

    fn into_response(self) -> (r: Response) {
        Response::builder().status(204).build()
    }
}

impl IntoResponse for u16 {
    open spec fn response_view(&self) -> ResponseView {
        bare(*self)
    }

    fn into_response(self) -> (r: Response) {
        Response::builder().status(self).build()
    }
}

impl<T: IntoResponse> IntoResponse for (u16, T) {
    /// The status given, with the body (and its length) of the other part.
    open spec fn response_view(&self) -> ResponseView {
        match self.1.response_view().body {
            Some(b) => ResponseView { status: self.0, ..ok_with(b) },
            None => bare(self.0),
        }
    }

    fn into_response(self) -> (r: Response) {
        let (status, inner) = self;
        let builder = Response::builder().status(status);
        let builder = match inner.into_response().body {
            Some(body) => builder.body(body),
            None => builder,
        };
        builder.build()
    }
}

} // verus!
