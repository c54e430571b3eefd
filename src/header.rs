use vstd::prelude::*;
use vstd::utf8::*;

use crate::error::HttpError;
use crate::extract::{crlf, ended, find, peek_byte, skip, take, until, Reader};
use crate::wire::{
    decimal, lemma_ascii_valid_utf8, lemma_decimal_ascii, push_decimal, append_bytes, append_str, bytes_eq, lower, parse_unsigned, parse_unsigned_exec, to_lower,
    utf8_string,
};

verus! {

broadcast use vstd::utf8::decode_utf8_encode_utf8;

/// One header: a name and a value.
#[derive(Debug)]
pub struct Header {
    pub name: String,
    pub value: String,
}

impl View for Header {
    /// The wire bytes of the name and of the value.
    type V = (Seq<u8>, Seq<u8>);

    open spec fn view(&self) -> (Seq<u8>, Seq<u8>) {
        (encode_utf8(self.name@), encode_utf8(self.value@))
    }
}

/// The wire bytes of a list of headers.
pub open spec fn headers_view(hs: Seq<Header>) -> Seq<(Seq<u8>, Seq<u8>)> {
    hs.map_values(|h: Header| h@)
}

/// `content-length`
pub open spec fn content_length_name() -> Seq<u8> {
    seq![99u8, 111u8, 110u8, 116u8, 101u8, 110u8, 116u8, 45u8, 108u8, 101u8, 110u8, 103u8, 116u8, 104u8]
}

/// `: `, between a name and its value.
pub open spec fn separator() -> Seq<u8> {
    seq![58u8, 32u8]
}

/// One header line, its line ending included.
pub open spec fn header_line(h: (Seq<u8>, Seq<u8>)) -> Seq<u8> {
    h.0 + separator() + h.1 + crlf()
}

/// The header lines, in order, without the blank line that ends the block.
pub open spec fn headers_wire(hs: Seq<(Seq<u8>, Seq<u8>)>) -> Seq<u8>
    decreases hs.len(),
{
    if hs.len() == 0 {
        seq![]
    } else {
        header_line(hs[0]) + headers_wire(hs.drop_first())
    }
}

/// Whether a value begins with white space, which would make the separator
/// more than the single space it must be.
pub open spec fn starts_blank(v: Seq<u8>) -> bool {
    v.len() > 0 && (v[0] == 32 || v[0] == 9)
}

/// What a header line (its ending removed) stands for: the name, in lower
/// case, before the first colon; exactly one space; the value.
pub open spec fn parse_line(line: Seq<u8>) -> Result<(Seq<u8>, Seq<u8>), HttpError> {
    match find(line, seq![58u8]) {
        None => Err(HttpError::InvalidFormat),
        Some(c) => {
            let rest = line.skip((c + 1) as int);
            if seq![32u8].is_prefix_of(rest) && !starts_blank(rest.skip(1)) {
                let name = lower(line.take(c as int));
                let value = rest.skip(1);
                if valid_utf8(name) && valid_utf8(value) {
                    Ok((name, value))
                } else {
                    Err(HttpError::InvalidUtf8)
                }
            } else {
                Err(HttpError::InvalidFormat)
            }
        },
    }
}

/// The content length after header `h`, where it was `cl` before: a
/// `content-length` header sets it, the last one winning.
pub open spec fn next_length(h: (Seq<u8>, Seq<u8>), cl: Option<nat>) -> Result<Option<nat>, HttpError> {
    if h.0 == content_length_name() {
        match parse_unsigned(h.1, usize::MAX as nat) {
            Some(n) => Ok(Some(n)),
            None => Err(HttpError::InvalidInt),
        }
    } else {
        Ok(cl)
    }
}

/// Puts the headers `done`, which took `used` bytes, in front of a parse of what follows.
pub open spec fn after(
    done: Seq<(Seq<u8>, Seq<u8>)>,
    used: nat,
    r: Result<(Seq<(Seq<u8>, Seq<u8>)>, Option<nat>, nat), HttpError>,
) -> Result<(Seq<(Seq<u8>, Seq<u8>)>, Option<nat>, nat), HttpError> {
    match r {
        Ok((hs, c, u)) => Ok((done + hs, c, used + u)),
        Err(e) => Err(e),
    }
}

/// A header block: lines up to a blank line. The result holds the headers,
/// the content length (`cl` where no header sets it) and how many bytes the
/// block takes, blank line included. `more` tells whether bytes after `s`
/// may still arrive.
pub open spec fn parse_headers(s: Seq<u8>, cl: Option<nat>, more: bool) -> Result<
    (Seq<(Seq<u8>, Seq<u8>)>, Option<nat>, nat),
    HttpError,
>
    decreases s.len(),
{
    match find(s, crlf()) {
        None => Err(ended(more)),
        Some(k) => {
            if k + 2 > s.len() {
                Err(HttpError::InvalidFormat)
            } else if k == 0 {
                Ok((seq![], cl, 2))
            } else {
                match parse_line(s.take(k as int)) {
                    Err(e) => Err(e),
                    Ok(h) => match next_length(h, cl) {
                        Err(e) => Err(e),
                        Ok(c) => after(seq![h], k + 2, parse_headers(s.skip((k + 2) as int), c, more)),
                    },
                }
            }
        },
    }
}

/// Reads one header line, its ending already removed.
fn parse_header_line(line: Vec<u8>) -> (r: Result<Header, HttpError>)
    ensures
        match parse_line(line@) {
            Ok(h) => r is Ok && r->Ok_0@ == h,
            Err(e) => r == Err::<Header, HttpError>(e),
        },
{
    let colon: [u8; 1] = [58];
    let space: [u8; 1] = [32];
    assert(colon@ =~= seq![58u8]);
    assert(space@ =~= seq![32u8]);
    let ghost l = line@;
    let mut reader = Reader::new(line);
    let raw = match until(&mut reader, &colon) {
        Ok(raw) => raw,
        Err(e) => return Err(e),
    };
    let ghost c = raw@.len();
    assert(reader@ =~= l.skip((c + 1) as int));
    if let Err(e) = skip(&mut reader, &space) {
        return Err(e);
    }
    match peek_byte(&reader) {
        Some(b) => if b == 32 || b == 9 {
            return Err(HttpError::InvalidFormat);
        },
        None => {},
    }
    let n = reader.remaining();
    let value = match take(&mut reader, n) {
        Ok(v) => v,
        Err(e) => return Err(e),
    };
    assert(value@ =~= l.skip((c + 1) as int).skip(1));
    let name = to_lower(raw.as_slice());
    let name = match utf8_string(name) {
        Some(s) => s,
        None => return Err(HttpError::InvalidUtf8),
    };
    let value = match utf8_string(value) {
        Some(s) => s,
        None => return Err(HttpError::InvalidUtf8),
    };
    Ok(Header { name, value })
}

/// The content length after the header `name: value`, where it was `cl` before.
fn length_of(name: &[u8], value: &[u8], cl: Option<usize>) -> (r: Result<Option<usize>, HttpError>)
    ensures
        match next_length((name@, value@), opt_nat(cl)) {
            Ok(c) => r is Ok && opt_nat(r->Ok_0) == c,
            Err(e) => r == Err::<Option<usize>, HttpError>(e),
        },
{
    let cl_name: [u8; 14] = [99, 111, 110, 116, 101, 110, 116, 45, 108, 101, 110, 103, 116, 104];
    assert(cl_name@ =~= content_length_name());
    if bytes_eq(name, &cl_name) {
        match parse_unsigned_exec(value, usize::MAX) {
            Some(n) => Ok(Some(n)),
            None => Err(HttpError::InvalidInt),
        }
    } else {
        Ok(cl)
    }
}

/// An optional length as a natural number.
pub open spec fn opt_nat(o: Option<usize>) -> Option<nat> {
    match o {
        Some(n) => Some(n as nat),
        None => None,
    }
}

/// Reads a header block up to and including the blank line that ends it.
/// Returns the headers in order, names in lower case, and the length that
/// the last `content-length` header gives.
pub fn from_reader(reader: &mut Reader) -> (r: Result<(Vec<Header>, Option<usize>), HttpError>)
    ensures
        final(reader).may_grow() == old(reader).may_grow(),
        match parse_headers(old(reader)@, None, old(reader).may_grow()) {
            Ok((hs, cl, used)) => r is Ok && headers_view(r->Ok_0.0@) == hs && opt_nat(r->Ok_0.1)
                == cl && used <= old(reader)@.len() && final(reader)@ == old(reader)@.skip(
                used as int,
            ),
            Err(e) => r == Err::<(Vec<Header>, Option<usize>), HttpError>(e),
        },
{
    let end: [u8; 2] = [13, 10];
    assert(end@ =~= crlf());
    let ghost s0 = reader@;
    let mut headers: Vec<Header> = Vec::new();
    let mut cl: Option<usize> = None;
    loop
        invariant
            end@ == crlf(),
            s0 == old(reader)@,
            reader.may_grow() == old(reader).may_grow(),
            s0.len() >= reader@.len(),
            reader@ == s0.skip(s0.len() - reader@.len()),
            parse_headers(s0, None, reader.may_grow()) == after(
                headers_view(headers@),
                (s0.len() - reader@.len()) as nat,
                parse_headers(reader@, opt_nat(cl), reader.may_grow()),
            ),
        decreases reader@.len(),
    {
        let ghost s = reader@;
        let line = match until(reader, &end) {
            Ok(line) => line,
            Err(e) => return Err(e),
        };
        let ghost k = line@.len();
        if line.len() == 0 {
            assert(headers_view(headers@) + seq![] =~= headers_view(headers@));
            return Ok((headers, cl));
        }
        assert(s.take(k as int) =~= line@);
        let h = match parse_header_line(line) {
            Ok(h) => h,
            Err(e) => return Err(e),
        };
        let c = match length_of(h.name.as_str().as_bytes(), h.value.as_str().as_bytes(), cl) {
            Ok(c) => c,
            Err(e) => return Err(e),
        };
        proof {
            assert(s.skip((k + 2) as int) =~= reader@);
            assert(headers_view(headers@.push(h)) =~= headers_view(headers@) + seq![h@]);
            assert(reader@ =~= s0.skip(s0.len() - reader@.len()));
            match parse_headers(reader@, opt_nat(c), reader.may_grow()) {
                Ok((hs, cc, u)) => {
                    assert(headers_view(headers@) + (seq![h@] + hs) =~= headers_view(headers@)
                        + seq![h@] + hs);
                },
                Err(_) => {},
            }
        }
        headers.push(h);
        cl = c;
    }
}

/// Writes each header as `name: value` and a line ending, in order.
pub fn write_headers(sink: &mut Vec<u8>, headers: &Vec<Header>)
    ensures
        final(sink)@ == old(sink)@ + headers_wire(headers_view(headers@)),
{
    let sep: [u8; 2] = [58, 32];
    let end: [u8; 2] = [13, 10];
    assert(sep@ =~= separator());
    assert(end@ =~= crlf());
    let mut i: usize = 0;
    assert(headers@.skip(0) =~= headers@);
    while i < headers.len()
        invariant
            i <= headers@.len(),
            sep@ == separator(),
            end@ == crlf(),
            old(sink)@ + headers_wire(headers_view(headers@)) == sink@ + headers_wire(
                headers_view(headers@.skip(i as int)),
            ),
        decreases headers@.len() - i,
    {
        let ghost before = sink@;
        let h = &headers[i];
        append_str(sink, h.name.as_str());
        append_bytes(sink, &sep);
        append_str(sink, h.value.as_str());
        append_bytes(sink, &end);
        proof {
            let rest = headers_view(headers@.skip(i as int));
            assert(rest.drop_first() =~= headers_view(headers@.skip(i + 1)));
            assert(rest[0] == h@);
            assert(sink@ =~= before + header_line(h@));
        }
        i += 1;
    }
    assert(headers_view(headers@.skip(i as int)) =~= Seq::<(Seq<u8>, Seq<u8>)>::empty());
}

/// The body after the header block: exactly `cl` bytes where a length was
/// given, none otherwise. The result holds it and how many bytes it takes.
pub open spec fn parse_body(s: Seq<u8>, cl: Option<nat>, more: bool) -> Result<
    (Option<Seq<u8>>, nat),
    HttpError,
> {
    match cl {
        None => Ok((None, 0)),
        Some(n) => if n <= s.len() {
            Ok((Some(s.take(n as int)), n))
        } else {
            Err(ended(more))
        },
    }
}

/// The bytes of an optional body.
pub open spec fn opt_bytes(b: Option<Vec<u8>>) -> Option<Seq<u8>> {
    match b {
        Some(v) => Some(v@),
        None => None,
    }
}

/// What an optional body puts on the wire.
pub open spec fn body_wire(b: Option<Seq<u8>>) -> Seq<u8> {
    match b {
        Some(b) => b,
        None => seq![],
    }
}

/// Reads the body that a content length announces; a stream that ends
/// before all of it has arrived is an error.
pub fn read_body(reader: &mut Reader, cl: Option<usize>) -> (r: Result<Option<Vec<u8>>, HttpError>)
    ensures
        final(reader).may_grow() == old(reader).may_grow(),
        match parse_body(old(reader)@, opt_nat(cl), old(reader).may_grow()) {
            Ok((b, used)) => r is Ok && opt_bytes(r->Ok_0) == b && used <= old(reader)@.len()
                && final(reader)@ == old(reader)@.skip(used as int),
            Err(e) => r == Err::<Option<Vec<u8>>, HttpError>(e),
        },
{
    match cl {
        None => {
            assert(old(reader)@.skip(0) =~= old(reader)@);
            Ok(None)
        },
        Some(n) => match take(reader, n) {
            Ok(b) => Ok(Some(b)),
            Err(e) => Err(e),
        },
    }
}

/// Writes an optional body.
pub fn write_body(sink: &mut Vec<u8>, body: &Option<Vec<u8>>)
    ensures
        final(sink)@ == old(sink)@ + body_wire(opt_bytes(*body)),
{
    match body {
        Some(b) => append_bytes(sink, b.as_slice()),
        None => {
            assert(sink@ =~= sink@ + Seq::<u8>::empty());
        },
    }
}

/// The decimal digits of `n` as text.
pub fn decimal_string(n: usize) -> (r: String)
    ensures
        encode_utf8(r@) == decimal(n as nat),
{
    let mut digits: Vec<u8> = Vec::new();
    push_decimal(&mut digits, n);
    assert(digits@ =~= decimal(n as nat));
    proof {
        lemma_decimal_ascii(n as nat);
        lemma_ascii_valid_utf8(decimal(n as nat));
    }
    match utf8_string(digits) {
        Some(s) => s,
        None => String::new(),
    }
}

/// A value that can become a header value.
pub trait IntoHeaderValue: Sized {
    /// The wire bytes of the value.
    spec fn value_view(&self) -> Seq<u8>;

    fn into_header_value(self) -> (s: String)
        ensures
            encode_utf8(s@) == self.value_view(),
    ;
}

/// A value that can become a header.
pub trait IntoHeader: Sized {
    /// The wire bytes of the name and of the value.
    spec fn header_view(&self) -> (Seq<u8>, Seq<u8>);

    fn into_header(self) -> (h: Header)
        ensures
            h@ == self.header_view(),
    ;
}

impl IntoHeader for Header {
    open spec fn header_view(&self) -> (Seq<u8>, Seq<u8>) {
        self@
    }

    fn into_header(self) -> (h: Header) {
        self
    }
}

impl<N: IntoHeaderValue, V: IntoHeaderValue> IntoHeader for (N, V) {
    open spec fn header_view(&self) -> (Seq<u8>, Seq<u8>) {
        (self.0.value_view(), self.1.value_view())
    }

    fn into_header(self) -> (h: Header) {
        let (n, v) = self;
        Header { name: n.into_header_value(), value: v.into_header_value() }
    }
}

impl<'a> IntoHeaderValue for &'a str {
    open spec fn value_view(&self) -> Seq<u8> {
        encode_utf8(self@)
    }

    fn into_header_value(self) -> (s: String) {
        self.to_owned()
    }
}

impl IntoHeaderValue for String {
    open spec fn value_view(&self) -> Seq<u8> {
        encode_utf8(self@)
    }

    fn into_header_value(self) -> (s: String) {
        self
    }
}

impl IntoHeaderValue for usize {
    open spec fn value_view(&self) -> Seq<u8> {
        decimal(*self as nat)
    }

    fn into_header_value(self) -> (s: String) {
        decimal_string(self)
    }
}

} // verus!
