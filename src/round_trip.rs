use vstd::prelude::*;
use vstd::utf8::*;

use crate::error::HttpError;
use crate::extract::{crlf, ended, find, http_1_1, lemma_find_from, lemma_find_is, occurs_at};
use crate::header::{
    content_length_name, header_line, headers_wire, next_length, parse_body, parse_headers,
    parse_line, separator, starts_blank,
};
use crate::response::{
    length_header, parse_response, parse_status_line, response_wire, status_line, ResponseView,
};
use crate::header::body_wire;
use crate::request::{
    lemma_method_token, method_token, parse_request, parse_request_line, request_line,
    request_wire, Method, RequestView,
};
use crate::target::{parse_target, target_wire};
use crate::wire::{decimal, lemma_decimal, lemma_parse_decimal, lower, parse_unsigned};

verus! {

/// No line ending inside `s`.
pub open spec fn no_crlf(s: Seq<u8>) -> bool {
    forall|i: int| 0 <= i < s.len() - 1 ==> !(#[trigger] s[i] == 13 && s[i + 1] == 10)
}

/// The byte `b` does not occur in `s`.
pub open spec fn lacks(s: Seq<u8>, b: u8) -> bool {
    forall|i: int| 0 <= i < s.len() ==> #[trigger] s[i] != b
}

/// A header that reads back as itself: a lower case name without colon,
/// name and value UTF-8 without line endings, a value that does not begin
/// with white space, and a `content-length` value that is a number in range.
pub open spec fn header_ok(h: (Seq<u8>, Seq<u8>)) -> bool {
    &&& lower(h.0) == h.0
    &&& lacks(h.0, 58)
    &&& no_crlf(h.0)
    &&& no_crlf(h.1)
    &&& !starts_blank(h.1)
    &&& valid_utf8(h.0)
    &&& valid_utf8(h.1)
    &&& h.0 == content_length_name() ==> parse_unsigned(h.1, usize::MAX as nat) is Some
}

pub open spec fn headers_ok(hs: Seq<(Seq<u8>, Seq<u8>)>) -> bool {
    forall|i: int| 0 <= i < hs.len() ==> header_ok(#[trigger] hs[i])
}

/// The content length that headers `hs` leave, starting from `cl`.
pub open spec fn length_after(hs: Seq<(Seq<u8>, Seq<u8>)>, cl: Option<nat>) -> Option<nat>
    decreases hs.len(),
{
    if hs.len() == 0 {
        cl
    } else {
        let h = hs[0];
        let c = if h.0 == content_length_name() {
            parse_unsigned(h.1, usize::MAX as nat)
        } else {
            cl
        };
        length_after(hs.drop_first(), c)
    }
}

/// A header line is found up to its own line ending, and reads back as the header.
proof fn lemma_line(h: (Seq<u8>, Seq<u8>), rest: Seq<u8>)
    requires
        header_ok(h),
    ensures
        find(header_line(h) + rest, crlf()) == Some((h.0.len() + 2 + h.1.len()) as nat),
        (header_line(h) + rest).take((h.0.len() + 2 + h.1.len()) as int) == h.0 + separator() + h.1,
        parse_line(h.0 + separator() + h.1) == Ok::<(Seq<u8>, Seq<u8>), HttpError>(h),
{
    let n0 = h.0.len() as int;
    let n1 = h.1.len() as int;
    let e = n0 + 2 + n1;
    let s = header_line(h) + rest;
    assert(s.len() == e + 2 + rest.len());
    assert forall|j: int| 0 <= j < s.len() implies s[j] == (if j < n0 {
        h.0[j]
    } else if j == n0 {
        58u8
    } else if j == n0 + 1 {
        32u8
    } else if j < e {
        h.1[j - n0 - 2]
    } else if j == e {
        13u8
    } else if j == e + 1 {
        10u8
    } else {
        rest[j - e - 2]
    }) by {}
    assert(s.subrange(e, e + 2) =~= crlf());
    assert forall|j: int| 0 <= j < e implies !occurs_at(s, crlf(), j) by {
        if occurs_at(s, crlf(), j) {
            assert(s.subrange(j, j + 2)[0] == s[j]);
            assert(s.subrange(j, j + 2)[1] == s[j + 1]);
            if j < n0 - 1 {
                assert(h.0[j] == 13 && h.0[j + 1] == 10);
            } else if j < e - 1 && j > n0 + 1 {
                assert(h.1[j - n0 - 2] == 13 && h.1[j - n0 - 1] == 10);
            }
        }
    }
    lemma_find_is(s, crlf(), e);
    let line = h.0 + separator() + h.1;
    assert(s.take(e) =~= line);
    assert(line.subrange(n0, n0 + 1) =~= seq![58u8]);
    assert forall|j: int| 0 <= j < n0 implies !occurs_at(line, seq![58u8], j) by {
        if occurs_at(line, seq![58u8], j) {
            assert(line.subrange(j, j + 1)[0] == line[j]);
            assert(h.0[j] == 58);
        }
    }
    lemma_find_is(line, seq![58u8], n0);
    assert(line.skip(n0 + 1) =~= seq![32u8] + h.1);
    assert(seq![32u8].is_prefix_of(line.skip(n0 + 1)));
    assert(line.take(n0) =~= h.0);
    assert(line.skip(n0 + 1).skip(1) =~= h.1);
    assert(!starts_blank(line.skip(n0 + 1).skip(1)));
}

/// Well formed headers, written out and ended by a blank line, read back as
/// themselves, whatever follows.
pub proof fn lemma_headers(hs: Seq<(Seq<u8>, Seq<u8>)>, rest: Seq<u8>, cl: Option<nat>, more: bool)
    requires
        headers_ok(hs),
    ensures
        parse_headers(headers_wire(hs) + crlf() + rest, cl, more) == Ok::<
            (Seq<(Seq<u8>, Seq<u8>)>, Option<nat>, nat),
            HttpError,
        >((hs, length_after(hs, cl), (headers_wire(hs).len() + 2) as nat)),
    decreases hs.len(),
{
    let s = headers_wire(hs) + crlf() + rest;
    if hs.len() == 0 {
        assert(s =~= crlf() + rest);
        assert(s.subrange(0, 2) =~= crlf());
        lemma_find_is(s, crlf(), 0);
        assert(hs =~= seq![]);
    } else {
        let h = hs[0];
        let tail = hs.drop_first();
        assert(headers_ok(tail)) by {
            assert forall|i: int| 0 <= i < tail.len() implies header_ok(#[trigger] tail[i]) by {
                assert(tail[i] == hs[i + 1]);
            }
        }
        assert(header_ok(hs[0]));
        let after = headers_wire(tail) + crlf() + rest;
        assert(s =~= header_line(h) + after);
        lemma_line(h, after);
        let e = (h.0.len() + 2 + h.1.len()) as nat;
        assert(s.skip((e + 2) as int) =~= after);
        let c = if h.0 == content_length_name() {
            parse_unsigned(h.1, usize::MAX as nat)
        } else {
            cl
        };
        assert(next_length(h, cl) == Ok::<Option<nat>, HttpError>(c));
        lemma_headers(tail, rest, c, more);
        assert(seq![h] + tail =~= hs);
    }
}

/// A header block that is well formed reads back as itself, and writing
/// what was read gives the very same bytes, whatever follows the block.
pub proof fn lemma_header_block_round_trip(hs: Seq<(Seq<u8>, Seq<u8>)>, rest: Seq<u8>, more: bool)
    requires
        headers_ok(hs),
    ensures
        match parse_headers(headers_wire(hs) + crlf() + rest, None, more) {
            Ok((read, _, used)) => read == hs && headers_wire(read) + crlf() == (headers_wire(hs)
                + crlf() + rest).take(used as int),
            Err(_) => false,
        },
{
    lemma_headers(hs, rest, None, more);
    assert((headers_wire(hs) + crlf() + rest).take(headers_wire(hs).len() + 2int) =~= headers_wire(hs)
        + crlf());
}

/// A response that reads back as itself: headers that do, and a body
/// exactly when they give a length, of that length.
pub open spec fn response_ok(r: ResponseView) -> bool {
    &&& headers_ok(r.headers)
    &&& match r.body {
        Some(b) => length_after(r.headers, None) == Some(b.len()),
        None => length_after(r.headers, None) is None,
    }
}

/// The body that the length of well formed headers announces is read back.
proof fn lemma_body(hs: Seq<(Seq<u8>, Seq<u8>)>, body: Option<Seq<u8>>, rest: Seq<u8>, more: bool)
    requires
        match body {
            Some(b) => length_after(hs, None) == Some(b.len()),
            None => length_after(hs, None) is None,
        },
    ensures
        parse_body(body_wire(body) + rest, length_after(hs, None), more) == Ok::<
            (Option<Seq<u8>>, nat),
            HttpError,
        >((body, body_wire(body).len())),
{
    match body {
        Some(b) => {
            assert((b + rest).take(b.len() as int) =~= b);
        },
        None => {},
    }
}

/// A status line reads back as its status, whatever follows it.
proof fn lemma_status_line(status: u16, tail: Seq<u8>, more: bool)
    ensures
        parse_status_line(status_line(status) + tail, more) == Ok::<(u16, nat), HttpError>(
            (status, status_line(status).len()),
        ),
{
    let d = decimal(status as nat);
    let s = status_line(status) + tail;
    lemma_decimal(status as nat);
    lemma_parse_decimal(status as nat, 65535);
    assert(s =~= http_1_1() + seq![32u8] + (d + seq![32u8] + crlf() + tail));
    assert(s.subrange(0, 8) =~= http_1_1());
    assert(s.skip(8).subrange(0, 1) =~= seq![32u8]);
    let s1 = s.skip(9);
    assert(s1 =~= d + seq![32u8] + (crlf() + tail));
    let k = d.len() as int;
    assert(s1.subrange(k, k + 1) =~= seq![32u8]);
    assert forall|j: int| 0 <= j < k implies !occurs_at(s1, seq![32u8], j) by {
        if occurs_at(s1, seq![32u8], j) {
            assert(s1.subrange(j, j + 1)[0] == s1[j]);
            assert(s1[j] == d[j]);
        }
    }
    lemma_find_is(s1, seq![32u8], k);
    assert(s1.take(k) =~= d);
    let s2 = s1.skip(k + 1);
    assert(s2 =~= crlf() + tail);
    assert(s2.subrange(0, 2) =~= crlf());
    lemma_find_is(s2, crlf(), 0);
}

/// A well formed response, written out, reads back as itself and takes
/// exactly its own bytes, whatever follows it.
pub proof fn lemma_response_round_trip(r: ResponseView, rest: Seq<u8>, more: bool)
    requires
        response_ok(r),
    ensures
        parse_response(response_wire(r) + rest, more) == Ok::<(ResponseView, nat), HttpError>(
            (r, response_wire(r).len()),
        ),
{
    let hw = headers_wire(r.headers);
    let bw = body_wire(r.body);
    let s = response_wire(r) + rest;
    let tail = hw + crlf() + bw + rest;
    assert(s =~= status_line(r.status) + tail);
    lemma_status_line(r.status, tail, more);
    let s3 = s.skip(status_line(r.status).len() as int);
    assert(s3 =~= hw + crlf() + (bw + rest));
    lemma_headers(r.headers, bw + rest, None, more);
    assert(s3.skip(hw.len() + 2int) =~= bw + rest);
    lemma_body(r.headers, r.body, rest, more);
}

/// The `content-length` header that a builder adds reads back as itself.
pub proof fn lemma_length_header_ok(n: nat)
    requires
        n <= usize::MAX,
    ensures
        header_ok(length_header(n)),
{
    let h = length_header(n);
    lemma_decimal(n);
    lemma_parse_decimal(n, usize::MAX as nat);
    crate::wire::lemma_ascii_valid_utf8(h.0);
    crate::wire::lemma_decimal_ascii(n);
    crate::wire::lemma_ascii_valid_utf8(h.1);
    assert(lower(h.0) =~= h.0);
    assert(crate::wire::is_digit(h.1[0]));
    assert forall|i: int| 0 <= i < h.1.len() - 1 implies !(#[trigger] h.1[i] == 13 && h.1[i + 1]
        == 10) by {
        assert(crate::wire::is_digit(h.1[i]));
    }
}

/// Headers other than `content-length` leave the length as it was, and a
/// `content-length` header sets it.
pub proof fn lemma_length_after_push(hs: Seq<(Seq<u8>, Seq<u8>)>, h: (Seq<u8>, Seq<u8>), cl: Option<nat>)
    ensures
        length_after(hs.push(h), cl) == (if h.0 == content_length_name() {
            parse_unsigned(h.1, usize::MAX as nat)
        } else {
            length_after(hs, cl)
        }),
    decreases hs.len(),
{
    if hs.len() == 0 {
        let c = if h.0 == content_length_name() {
            parse_unsigned(h.1, usize::MAX as nat)
        } else {
            cl
        };
        assert(hs.push(h).drop_first() =~= Seq::<(Seq<u8>, Seq<u8>)>::empty());
        assert(hs.push(h)[0] == h);
        assert(length_after(Seq::<(Seq<u8>, Seq<u8>)>::empty(), c) == c);
    } else {
        assert(hs.push(h)[0] == hs[0]);
        let c = if hs[0].0 == content_length_name() {
            parse_unsigned(hs[0].1, usize::MAX as nat)
        } else {
            cl
        };
        assert(hs.push(h).drop_first() =~= hs.drop_first().push(h));
        lemma_length_after_push(hs.drop_first(), h, c);
    }
}

/// A response made by a builder reads back as itself: status `status`,
/// well formed headers `hs` of which none is `content-length`, then a body
/// with its length header. Writing it out and reading it back gives the
/// same status, headers and body.
pub proof fn lemma_built_response_round_trip(
    status: u16,
    hs: Seq<(Seq<u8>, Seq<u8>)>,
    body: Option<Seq<u8>>,
    rest: Seq<u8>,
    more: bool,
)
    requires
        headers_ok(hs),
        forall|i: int| 0 <= i < hs.len() ==> (#[trigger] hs[i]).0 != content_length_name(),
        body is Some ==> body->Some_0.len() <= usize::MAX,
    ensures
        ({
            let r = ResponseView {
                status,
                headers: match body {
                    Some(b) => hs.push(length_header(b.len())),
                    None => hs,
                },
                body,
            };
            parse_response(response_wire(r) + rest, more) == Ok::<(ResponseView, nat), HttpError>(
                (r, response_wire(r).len()),
            )
        }),
{
    lemma_no_length(hs, None);
    let headers = match body {
        Some(b) => hs.push(length_header(b.len())),
        None => hs,
    };
    match body {
        Some(b) => {
            lemma_length_header_ok(b.len());
            lemma_length_after_push(hs, length_header(b.len()), None);
            lemma_parse_decimal(b.len(), usize::MAX as nat);
            assert(headers_ok(headers)) by {
                assert forall|i: int| 0 <= i < headers.len() implies header_ok(
                    #[trigger] headers[i],
                ) by {
                    if i < hs.len() {
                        assert(headers[i] == hs[i]);
                    }
                }
            }
        },
        None => {},
    }
    lemma_response_round_trip(ResponseView { status, headers, body }, rest, more);
}

/// Headers without `content-length` leave the length as it was.
proof fn lemma_no_length(hs: Seq<(Seq<u8>, Seq<u8>)>, cl: Option<nat>)
    requires
        forall|i: int| 0 <= i < hs.len() ==> (#[trigger] hs[i]).0 != content_length_name(),
    ensures
        length_after(hs, cl) == cl,
    decreases hs.len(),
{
    if hs.len() > 0 {
        assert(hs[0].0 != content_length_name());
        let t = hs.drop_first();
        assert forall|i: int| 0 <= i < t.len() implies (#[trigger] t[i]).0 != content_length_name() by {
            assert(t[i] == hs[i + 1]);
        }
        lemma_no_length(t, cl);
    }
}

/// A response whose bytes stop before its whole body has arrived is not
/// read: a short stream is an error, never a short body.
pub proof fn lemma_short_response_fails(r: ResponseView, k: int, more: bool)
    requires
        response_ok(r),
        r.body is Some,
        response_wire(r).len() - r.body->Some_0.len() <= k < response_wire(r).len(),
    ensures
        parse_response(response_wire(r).take(k), more) == Err::<(ResponseView, nat), HttpError>(
            ended(more),
        ),
{
    let b = r.body->Some_0;
    let head = response_wire(r).len() - b.len();
    let cut = b.take(k - head);
    let short = ResponseView { body: Some(cut), ..r };
    assert(response_wire(r).take(k) =~= response_wire(short));
    let hw = headers_wire(r.headers);
    let s = response_wire(short);
    let tail = hw + crlf() + cut;
    assert(s =~= status_line(r.status) + tail);
    lemma_status_line(r.status, tail, more);
    let s3 = s.skip(status_line(r.status).len() as int);
    assert(s3 =~= hw + crlf() + cut);
    lemma_headers(r.headers, cut, None, more);
    assert(s3.skip(hw.len() + 2int) =~= cut);
}

/// In `a + [b] + tail`, where `a` lacks `b`, the first `b` ends `a`.
proof fn lemma_find_byte(a: Seq<u8>, b: u8, tail: Seq<u8>)
    requires
        lacks(a, b),
    ensures
        find(a + seq![b] + tail, seq![b]) == Some(a.len()),
{
    let s = a + seq![b] + tail;
    let k = a.len() as int;
    assert(s.subrange(k, k + 1) =~= seq![b]);
    assert forall|j: int| 0 <= j < k implies !occurs_at(s, seq![b], j) by {
        if occurs_at(s, seq![b], j) {
            assert(s.subrange(j, j + 1)[0] == s[j]);
            assert(s[j] == a[j]);
        }
    }
    lemma_find_is(s, seq![b], k);
}

/// In `a + CRLF + tail`, where `a` has no carriage return, the first line
/// ending ends `a`.
proof fn lemma_find_crlf(a: Seq<u8>, tail: Seq<u8>)
    requires
        lacks(a, 13),
    ensures
        find(a + crlf() + tail, crlf()) == Some(a.len()),
{
    let s = a + crlf() + tail;
    let k = a.len() as int;
    assert(s.subrange(k, k + 2) =~= crlf());
    assert forall|j: int| 0 <= j < k implies !occurs_at(s, crlf(), j) by {
        if occurs_at(s, crlf(), j) {
            assert(s.subrange(j, j + 2)[0] == s[j]);
            assert(s[j] == a[j]);
        }
    }
    lemma_find_is(s, crlf(), k);
}

/// A method token holds neither a space nor a carriage return.
proof fn lemma_method_plain(m: Method)
    ensures
        lacks(method_token(m), 32),
        lacks(method_token(m), 13),
{
    let t = method_token(m);
    assert forall|i: int| 0 <= i < t.len() implies #[trigger] t[i] != 32 && t[i] != 13 by {
        assert(65 <= t[i] <= 90);
    }
}

/// A target that reads back as its path and query: neither holds a space
/// or a carriage return, and the path holds no `?`.
pub open spec fn target_ok(t: (Option<Seq<char>>, Option<u16>, Seq<char>, Option<Seq<char>>)) -> bool {
    &&& lacks(encode_utf8(t.2), 32)
    &&& lacks(encode_utf8(t.2), 13)
    &&& lacks(encode_utf8(t.2), 63)
    &&& match t.3 {
        Some(q) => lacks(encode_utf8(q), 32) && lacks(encode_utf8(q), 13),
        None => true,
    }
}

/// A request that reads back as itself: a target as above, headers that
/// read back, and a body exactly when they give a length, of that length.
pub open spec fn request_ok(r: RequestView) -> bool {
    &&& target_ok(r.target)
    &&& headers_ok(r.headers)
    &&& match r.body {
        Some(b) => length_after(r.headers, None) == Some(b.len()),
        None => length_after(r.headers, None) is None,
    }
}

/// A target as above, written out, holds no space or carriage return and
/// reads back as its path and query.
proof fn lemma_target(t: (Option<Seq<char>>, Option<u16>, Seq<char>, Option<Seq<char>>))
    requires
        target_ok(t),
    ensures
        lacks(target_wire(t), 32),
        lacks(target_wire(t), 13),
        parse_target(target_wire(t)) == Ok::<
            (Option<Seq<char>>, Option<u16>, Seq<char>, Option<Seq<char>>),
            HttpError,
        >((None, None, t.2, t.3)),
{
    broadcast use vstd::utf8::encode_utf8_valid_utf8, vstd::utf8::encode_utf8_decode_utf8;

    let w = target_wire(t);
    let p = encode_utf8(t.2);
    match t.3 {
        Some(q) => {
            let e = encode_utf8(q);
            assert forall|i: int| 0 <= i < w.len() implies #[trigger] w[i] != 32 && w[i] != 13 by {
                if i < p.len() {
                    assert(w[i] == p[i]);
                } else if i > p.len() {
                    assert(w[i] == e[i - p.len() - 1]);
                }
            }
            lemma_find_byte(p, 63, e);
            assert(w =~= p + seq![63u8] + e);
            assert(w.take(p.len() as int) =~= p);
            assert(w.skip(p.len() + 1int) =~= e);
        },
        None => {
            lemma_find_from(w, seq![63u8], 0);
            if find(w, seq![63u8]) is Some {
                let j = find(w, seq![63u8])->Some_0 as int;
                assert(occurs_at(w, seq![63u8], j));
                assert(w.subrange(j, j + 1)[0] == w[j]);
            }
        },
    }
}

/// A request line reads back as its method, path and query.
proof fn lemma_request_line(r: RequestView, tail: Seq<u8>)
    requires
        target_ok(r.target),
    ensures
        find(request_line(r) + tail, crlf()) == Some((request_line(r).len() - 2) as nat),
        parse_request_line(request_line(r).take(request_line(r).len() - 2)) == Ok::<
            (Method, (Option<Seq<char>>, Option<u16>, Seq<char>, Option<Seq<char>>)),
            HttpError,
        >((r.method, (None, None, r.target.2, r.target.3))),
{
    let m = method_token(r.method);
    let t = target_wire(r.target);
    let v = http_1_1();
    lemma_method_plain(r.method);
    lemma_method_token(r.method);
    lemma_target(r.target);
    let line = m + seq![32u8] + t + seq![32u8] + v;
    assert(lacks(line, 13)) by {
        assert forall|i: int| 0 <= i < line.len() implies #[trigger] line[i] != 13 by {
            if i < m.len() {
                assert(line[i] == m[i]);
            } else if m.len() < i < m.len() + 1 + t.len() {
                assert(line[i] == t[i - m.len() - 1]);
            } else if i > m.len() + 1 + t.len() {
                assert(line[i] == v[i - m.len() - 2 - t.len()]);
            }
        }
    }
    assert(request_line(r) =~= line + crlf());
    assert(request_line(r) + tail =~= line + crlf() + tail);
    lemma_find_crlf(line, tail);
    assert(request_line(r).take(request_line(r).len() - 2) =~= line);
    assert(line =~= m + seq![32u8] + (t + seq![32u8] + v));
    lemma_find_byte(m, 32, t + seq![32u8] + v);
    assert(line.take(m.len() as int) =~= m);
    let rest = line.skip(m.len() + 1int);
    assert(rest =~= t + seq![32u8] + v);
    lemma_find_byte(t, 32, v);
    assert(rest.skip(t.len() + 1int) =~= v);
    assert(rest.take(t.len() as int) =~= t);
}

/// A well formed request, written out, reads back with the same method,
/// path, query, headers and body, and takes exactly its own bytes,
/// whatever follows it.
pub proof fn lemma_request_round_trip(r: RequestView, rest: Seq<u8>, more: bool)
    requires
        request_ok(r),
    ensures
        parse_request(request_wire(r) + rest, more) == Ok::<(RequestView, nat), HttpError>(
            (
                RequestView { target: (None, None, r.target.2, r.target.3), ..r },
                request_wire(r).len(),
            ),
        ),
{
    let hw = headers_wire(r.headers);
    let bw = body_wire(r.body);
    let s = request_wire(r) + rest;
    let tail = hw + crlf() + bw + rest;
    assert(s =~= request_line(r) + tail);
    lemma_request_line(r, tail);
    assert(s.take(request_line(r).len() - 2) =~= request_line(r).take(request_line(r).len() - 2));
    let s2 = s.skip(request_line(r).len() as int);
    assert(s2 =~= hw + crlf() + (bw + rest));
    lemma_headers(r.headers, bw + rest, None, more);
    assert(s2.skip(hw.len() + 2int) =~= bw + rest);
    lemma_body(r.headers, r.body, rest, more);
}

/// A request made by a builder reads back as itself: method `method`, a
/// target as above, well formed headers `hs` of which none is
/// `content-length`, then a body with the length header that `finish`
/// adds. Writing it out and reading it back gives the same method, path,
/// query, headers and body.
pub proof fn lemma_built_request_round_trip(
    method: Method,
    target: (Option<Seq<char>>, Option<u16>, Seq<char>, Option<Seq<char>>),
    hs: Seq<(Seq<u8>, Seq<u8>)>,
    body: Option<Seq<u8>>,
    rest: Seq<u8>,
    more: bool,
)
    requires
        target_ok(target),
        headers_ok(hs),
        forall|i: int| 0 <= i < hs.len() ==> (#[trigger] hs[i]).0 != content_length_name(),
        body is Some ==> body->Some_0.len() <= usize::MAX,
    ensures
        ({
            let headers = match body {
                Some(b) => hs.push(length_header(b.len())),
                None => hs,
            };
            let r = RequestView { method, target, headers, body };
            parse_request(request_wire(r) + rest, more) == Ok::<(RequestView, nat), HttpError>(
                (
                    RequestView { method, target: (None, None, target.2, target.3), headers, body },
                    request_wire(r).len(),
                ),
            )
        }),
{
    lemma_no_length(hs, None);
    let headers = match body {
        Some(b) => hs.push(length_header(b.len())),
        None => hs,
    };
    match body {
        Some(b) => {
            lemma_length_header_ok(b.len());
            lemma_length_after_push(hs, length_header(b.len()), None);
            lemma_parse_decimal(b.len(), usize::MAX as nat);
            assert(headers_ok(headers)) by {
                assert forall|i: int| 0 <= i < headers.len() implies header_ok(
                    #[trigger] headers[i],
                ) by {
                    if i < hs.len() {
                        assert(headers[i] == hs[i]);
                    }
                }
            }
        },
        None => {},
    }
    lemma_request_round_trip(RequestView { method, target, headers, body }, rest, more);
}

/// A request whose bytes stop before its whole body has arrived is not
/// read: a short stream is an error, never a short body.
pub proof fn lemma_short_request_fails(r: RequestView, k: int, more: bool)
    requires
        request_ok(r),
        r.body is Some,
        request_wire(r).len() - r.body->Some_0.len() <= k < request_wire(r).len(),
    ensures
        parse_request(request_wire(r).take(k), more) == Err::<(RequestView, nat), HttpError>(
            ended(more),
        ),
{
    let b = r.body->Some_0;
    let head = request_wire(r).len() - b.len();
    let cut = b.take(k - head);
    let short = RequestView { body: Some(cut), ..r };
    assert(request_wire(r).take(k) =~= request_wire(short));
    let hw = headers_wire(r.headers);
    let s = request_wire(short);
    let tail = hw + crlf() + cut;
    assert(s =~= request_line(r) + tail);
    assert(request_line(short) == request_line(r));
    lemma_request_line(r, tail);
    assert(s.take(request_line(r).len() - 2) =~= request_line(r).take(request_line(r).len() - 2));
    let s2 = s.skip(request_line(r).len() as int);
    assert(s2 =~= hw + crlf() + cut);
    lemma_headers(r.headers, cut, None, more);
    assert(s2.skip(hw.len() + 2int) =~= cut);
}

} // verus!
