use vstd::prelude::*;
use vstd::utf8::*;

use crate::error::HttpError;
use crate::extract::find;
use crate::wire::utf8_string;

verus! {

broadcast use vstd::utf8::decode_utf8_encode_utf8;

/// Where a request goes: the parts of its URL that the wire form and the
/// transport need.
#[derive(Debug)]
pub struct Target {
    pub host: Option<String>,
    pub port: Option<u16>,
    pub path: String,
    pub query: Option<String>,
}

/// An optional text as characters.
pub open spec fn opt_chars(s: Option<String>) -> Option<Seq<char>> {
    match s {
        Some(s) => Some(s@),
        None => None,
    }
}

impl View for Target {
    /// Host, port, path and query.
    type V = (Option<Seq<char>>, Option<u16>, Seq<char>, Option<Seq<char>>);

    open spec fn view(&self) -> (Option<Seq<char>>, Option<u16>, Seq<char>, Option<Seq<char>>) {
        (opt_chars(self.host), self.port, self.path@, opt_chars(self.query))
    }
}

/// The host, port (given or the scheme's default), path and query that the
/// URL parser finds in `s`, or `None` where it refuses `s`.
pub uninterp spec fn url_parts(s: Seq<char>) -> Option<
    (Option<Seq<char>>, Option<u16>, Seq<char>, Option<Seq<char>>),
>;

/// Relies on `url::Url::parse`, and on the parsed URL's `host_str`,
/// `port_or_known_default`, `path` and `query`: the parts depend on the
/// input text alone.
#[verifier::external_body]
pub(crate) fn parse_url(input: &str) -> (r: Result<Target, url::ParseError>)
    ensures
        match url_parts(input@) {
            Some(p) => r is Ok && r->Ok_0@ == p,
            None => r is Err,
        },
{
    let u = url::Url::parse(input)?;
    Ok(Target {
        host: u.host_str().map(String::from),
        port: u.port_or_known_default(),
        path: String::from(u.path()),
        query: u.query().map(String::from),
    })
}

/// What a request target puts on the wire: the path, then `?` and the query
/// if there is one.
pub open spec fn target_wire(t: (Option<Seq<char>>, Option<u16>, Seq<char>, Option<Seq<char>>)) -> Seq<u8> {
    match t.3 {
        Some(q) => encode_utf8(t.2) + seq![63u8] + encode_utf8(q),
        None => encode_utf8(t.2),
    }
}

/// A request target read off the wire: the path up to the first `?`, and
/// the query after it. Both must be UTF-8.
pub open spec fn parse_target(t: Seq<u8>) -> Result<
    (Option<Seq<char>>, Option<u16>, Seq<char>, Option<Seq<char>>),
    HttpError,
> {
    match find(t, seq![63u8]) {
        None => if valid_utf8(t) {
            Ok((None, None, decode_utf8(t), None))
        } else {
            Err(HttpError::InvalidUtf8)
        },
        Some(q) => {
            let path = t.take(q as int);
            let query = t.skip((q + 1) as int);
            if valid_utf8(path) && valid_utf8(query) {
                Ok((None, None, decode_utf8(path), Some(decode_utf8(query))))
            } else {
                Err(HttpError::InvalidUtf8)
            }
        },
    }
}

impl Target {
    /// Reads a request target: a path with an optional query.
    pub fn from_wire(t: Vec<u8>) -> (r: Result<Target, HttpError>)
        ensures
            match parse_target(t@) {
                Ok(v) => r is Ok && r->Ok_0@ == v,
                Err(e) => r == Err::<Target, HttpError>(e),
            },
    {
        let mark: [u8; 1] = [63];
        assert(mark@ =~= seq![63u8]);
        let ghost s = t@;
        let mut reader = crate::extract::Reader::new(t);
        match crate::extract::until(&mut reader, &mark) {
            Ok(path) => {
                let n = reader.remaining();
                let query = match crate::extract::take(&mut reader, n) {
                    Ok(q) => q,
                    Err(e) => return Err(e),
                };
                assert(query@ =~= s.skip((path@.len() + 1) as int));
                let path = match utf8_string(path) {
                    Some(p) => p,
                    None => return Err(HttpError::InvalidUtf8),
                };
                let query = match utf8_string(query) {
                    Some(q) => q,
                    None => return Err(HttpError::InvalidUtf8),
                };
                Ok(Target { host: None, port: None, path, query: Some(query) })
            },
            Err(_) => {
                let n = reader.remaining();
                let path = match crate::extract::take(&mut reader, n) {
                    Ok(p) => p,
                    Err(e) => return Err(e),
                };
                assert(path@ =~= s);
                match utf8_string(path) {
                    Some(p) => Ok(Target { host: None, port: None, path: p, query: None }),
                    None => Err(HttpError::InvalidUtf8),
                }
            },
        }
    }

    /// Parses a URL.
    pub fn parse(input: &str) -> (r: Result<Target, HttpError>)
        ensures
            match url_parts(input@) {
                Some(p) => r is Ok && r->Ok_0@ == p,
                None => r matches Err(HttpError::InvalidUrl(_)),
            },
    {
        match parse_url(input) {
            Ok(t) => Ok(t),
            Err(e) => Err(HttpError::InvalidUrl(e)),
        }
    }

    /// Appends the wire form of the target: path, and `?` and query if any.
    pub fn write(&self, sink: &mut Vec<u8>)
        ensures
            final(sink)@ == old(sink)@ + target_wire(self@),
    {
        crate::wire::append_str(sink, self.path.as_str());
        match &self.query {
            Some(q) => {
                let mark: [u8; 1] = [63];
                crate::wire::append_bytes(sink, &mark);
                crate::wire::append_str(sink, q.as_str());
                assert(sink@ =~= old(sink)@ + target_wire(self@));
            },
            None => {},
        }
    }
}

} // verus!
