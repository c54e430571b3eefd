use basket::extract::{http_version, skip, take, until};
use basket::header::from_reader;
use basket::{HttpError, Method, Reader, Request, Response};

fn reader(s: &str) -> Reader {
    Reader::new(s.as_bytes().to_vec())
}

#[test]
fn skip_reads_exact_literal() {
    let mut r = reader("\r\nrest");
    assert!(skip(&mut r, &[13, 10]).is_ok());
    assert_eq!(r.remaining(), 4);
    let mut r = reader("x\r\n");
    assert!(matches!(skip(&mut r, &[13, 10]), Err(HttpError::InvalidFormat)));
    assert_eq!(r.remaining(), 1);
    let mut r = reader("\r");
    assert!(matches!(skip(&mut r, &[13, 10]), Err(HttpError::InvalidFormat)));
    assert_eq!(r.remaining(), 1);
    let mut r = Reader::partial(b"\r".to_vec());
    assert!(matches!(skip(&mut r, &[13, 10]), Err(HttpError::Incomplete)));
    assert_eq!(r.remaining(), 1);
}

#[test]
fn until_returns_bytes_before_delimiter() {
    let mut r = reader("abc\r\ndef\r\n");
    assert_eq!(until(&mut r, b"\r\n").unwrap(), b"abc".to_vec());
    assert_eq!(until(&mut r, b"\r\n").unwrap(), b"def".to_vec());
    assert_eq!(r.remaining(), 0);
}

#[test]
fn until_handles_long_delimiter_and_overlap() {
    let mut r = reader("aaXYXYZtail");
    assert_eq!(until(&mut r, b"XYZ").unwrap(), b"aaXY".to_vec());
    assert_eq!(r.remaining(), 4);
    let mut r = reader("\r\n");
    assert_eq!(until(&mut r, b"\r\n").unwrap(), Vec::<u8>::new());
}

#[test]
fn until_without_delimiter_is_malformed() {
    let mut r = reader("no end here");
    assert!(matches!(until(&mut r, b"\r\n"), Err(HttpError::InvalidFormat)));
    assert_eq!(r.remaining(), 11);
}

#[test]
fn http_version_accepts_only_1_1() {
    let mut r = reader("HTTP/1.1 200");
    assert!(http_version(&mut r).is_ok());
    assert_eq!(r.remaining(), 4);
    let mut r = reader("HTTP/1.0 200");
    assert!(matches!(http_version(&mut r), Err(HttpError::UnsupportedHttp)));
    assert_eq!(r.remaining(), 4);
    assert!(matches!(http_version(&mut reader("HTTP/2.0 200")), Err(HttpError::UnsupportedHttp)));
    assert!(matches!(http_version(&mut reader("HTTP/1")), Err(HttpError::InvalidFormat)));
    assert!(matches!(http_version(&mut Reader::partial(b"HTTP/1".to_vec())), Err(HttpError::Incomplete)));
}

#[test]
fn take_needs_all_bytes() {
    let mut r = reader("pingpong");
    assert_eq!(take(&mut r, 4).unwrap(), b"ping".to_vec());
    assert!(matches!(take(&mut r, 5), Err(HttpError::InvalidFormat)));
    assert_eq!(r.remaining(), 4);
}

#[test]
fn header_block_is_parsed_in_order() {
    let mut r = reader("Content-Type: Text/Plain\r\nX-A: 1\r\nx-a: 2\r\n\r\nbody");
    let (headers, length) = from_reader(&mut r).unwrap();
    assert_eq!(length, None);
    assert_eq!(headers.len(), 3);
    assert_eq!(headers[0].name, "content-type");
    assert_eq!(headers[0].value, "Text/Plain");
    assert_eq!(headers[1].name, "x-a");
    assert_eq!(headers[2].value, "2");
    assert_eq!(r.remaining(), 4);
}

#[test]
fn header_content_length_last_wins() {
    let mut r = reader("content-length: 3\r\nContent-Length: +12\r\n\r\n");
    let (headers, length) = from_reader(&mut r).unwrap();
    assert_eq!(headers.len(), 2);
    assert_eq!(length, Some(12));
}

#[test]
fn header_separator_must_be_one_space() {
    for block in ["a:b\r\n\r\n", "a:\tb\r\n\r\n", "a:  b\r\n\r\n", "a: \tb\r\n\r\n", "novalue\r\n\r\n"] {
        assert!(matches!(from_reader(&mut reader(block)), Err(HttpError::InvalidFormat)), "{block:?}");
    }
    let (headers, _) = from_reader(&mut reader("a: \r\n\r\n")).unwrap();
    assert_eq!(headers[0].value, "");
    let (headers, _) = from_reader(&mut reader("a: b: c\r\n\r\n")).unwrap();
    assert_eq!(headers[0].value, "b: c");
}

#[test]
fn header_bad_content_length_is_invalid_int() {
    let e = from_reader(&mut reader("content-length: abc\r\n\r\n"));
    assert!(matches!(e, Err(HttpError::InvalidInt)));
    let e = from_reader(&mut reader("content-length: 99999999999999999999999\r\n\r\n"));
    assert!(matches!(e, Err(HttpError::InvalidInt)));
    let e = from_reader(&mut reader("content-length: -1\r\n\r\n"));
    assert!(matches!(e, Err(HttpError::InvalidInt)));
}

#[test]
fn header_invalid_utf8_is_rejected() {
    let mut r = Reader::new(vec![b'a', b':', b' ', 0xff, b'\r', b'\n', b'\r', b'\n']);
    assert!(matches!(from_reader(&mut r), Err(HttpError::InvalidUtf8)));
}

#[test]
fn header_block_without_blank_line_is_malformed() {
    assert!(matches!(from_reader(&mut reader("a: b\r\n")), Err(HttpError::InvalidFormat)));
}

#[test]
fn response_is_parsed_with_exact_body() {
    let bytes = b"HTTP/1.1 200 OK\r\nContent-Length: 4\r\nX-Y: z\r\n\r\npingEXTRA".to_vec();
    let mut r = Reader::new(bytes);
    let response = Response::from_reader(&mut r).unwrap();
    assert_eq!(response.status(), 200);
    assert_eq!(response.header("x-y"), Some("z"));
    assert_eq!(response.header("CONTENT-LENGTH"), Some("4"));
    assert_eq!(r.remaining(), 5);
    assert_eq!(response.bytes().unwrap(), b"ping".to_vec());
}

#[test]
fn response_body_split_across_reads_still_needs_all_bytes() {
    let full = b"HTTP/1.1 200 \r\ncontent-length: 10\r\n\r\n0123456789".to_vec();
    for cut in 0..full.len() {
        let partial = full[..cut].to_vec();
        assert!(matches!(Response::from_bytes(partial), Err(HttpError::InvalidFormat)), "cut {cut}");
    }
    let response = Response::from_bytes(full).unwrap();
    assert_eq!(response.text().unwrap(), "0123456789");
}

#[test]
fn response_status_must_be_numeric() {
    let e = Response::from_bytes(b"HTTP/1.1 abc OK\r\n\r\n".to_vec());
    assert!(matches!(e, Err(HttpError::InvalidInt)));
    let e = Response::from_bytes(b"HTTP/1.1 70000 OK\r\n\r\n".to_vec());
    assert!(matches!(e, Err(HttpError::InvalidInt)));
}

#[test]
fn response_other_versions_are_rejected() {
    let e = Response::from_bytes(b"HTTP/1.0 200 OK\r\n\r\n".to_vec());
    assert!(matches!(e, Err(HttpError::UnsupportedHttp)));
    let e = Response::from_bytes(b"HTTP/2 200 OK\r\n\r\n".to_vec());
    assert!(matches!(e, Err(HttpError::UnsupportedHttp)));
}

#[test]
fn response_without_length_has_no_body() {
    let response = Response::from_bytes(b"HTTP/1.1 204 No Content\r\n\r\ntrailing".to_vec()).unwrap();
    assert_eq!(response.status(), 204);
    assert!(matches!(response.text(), Err(HttpError::ExpectedBody)));
}

#[test]
fn response_text_rejects_invalid_utf8() {
    let mut bytes = b"HTTP/1.1 200 \r\ncontent-length: 2\r\n\r\n".to_vec();
    bytes.extend_from_slice(&[0xc3, 0x28]);
    let response = Response::from_bytes(bytes).unwrap();
    assert!(matches!(response.text(), Err(HttpError::InvalidUtf8)));
}

#[test]
fn response_header_lookup_is_case_insensitive_and_first_wins() {
    let response = Response::builder()
        .header(("X-Token", "one"))
        .header(("x-token", "two"))
        .build();
    assert_eq!(response.header("x-TOKEN"), Some("one"));
    assert_eq!(response.header("missing"), None);
}

#[test]
fn request_is_parsed() {
    let bytes = b"POST /echo?x=1 HTTP/1.1\r\nHost: example.com\r\ncontent-length: 4\r\n\r\nping".to_vec();
    let mut r = Reader::new(bytes);
    let request = Request::from_reader(&mut r).unwrap();
    assert_eq!(request.method, Method::Post);
    assert_eq!(request.path(), "/echo");
    assert_eq!(request.url.query.as_deref(), Some("x=1"));
    assert_eq!(request.url.host, None);
    assert_eq!(request.headers[0].name, "host");
    assert_eq!(request.headers[0].value, "example.com");
    assert_eq!(r.remaining(), 0);
    assert_eq!(request.text().unwrap(), "ping");
}

#[test]
fn request_line_without_method_space_is_malformed() {
    let e = Request::from_reader(&mut reader("GET/hello HTTP/1.1\r\n\r\n"));
    assert!(matches!(e, Err(HttpError::InvalidFormat)));
    let e = Request::from_reader(&mut reader("GET/hello\r\n\r\n"));
    assert!(matches!(e, Err(HttpError::InvalidFormat)));
}

#[test]
fn request_unknown_method_and_version() {
    let e = Request::from_reader(&mut reader("FETCH / HTTP/1.1\r\n\r\n"));
    assert!(matches!(e, Err(HttpError::UnknownMethod)));
    let e = Request::from_reader(&mut reader("get / HTTP/1.1\r\n\r\n"));
    assert!(matches!(e, Err(HttpError::UnknownMethod)));
    let e = Request::from_reader(&mut reader("GET / HTTP/1.0\r\n\r\n"));
    assert!(matches!(e, Err(HttpError::UnsupportedHttp)));
    let e = Request::from_reader(&mut reader("GET / HTTP/1.1 x\r\n\r\n"));
    assert!(matches!(e, Err(HttpError::InvalidFormat)));
}

#[test]
fn request_short_body_is_an_error() {
    let e = Request::from_reader(&mut reader("PUT / HTTP/1.1\r\ncontent-length: 5\r\n\r\nabc"));
    assert!(matches!(e, Err(HttpError::InvalidFormat)));
}

#[test]
fn method_tokens() {
    let all = [Method::Delete, Method::Get, Method::Options, Method::Patch, Method::Post, Method::Put];
    let names = ["DELETE", "GET", "OPTIONS", "PATCH", "POST", "PUT"];
    for (m, n) in all.iter().zip(names.iter()) {
        assert_eq!(m.as_str(), *n);
        assert_eq!(Method::from_bytes(n.as_bytes()).unwrap(), *m);
    }
    assert!(matches!(Method::from_bytes(b"TRACE"), Err(HttpError::UnknownMethod)));
    assert!(matches!(Method::from_bytes(b""), Err(HttpError::UnknownMethod)));
}

#[test]
fn partial_input_is_incomplete_not_malformed() {
    let full = b"POST /x HTTP/1.1\r\ncontent-length: 4\r\n\r\nping".to_vec();
    for cut in 0..full.len() {
        let e = Request::from_reader(&mut Reader::partial(full[..cut].to_vec()));
        assert!(matches!(e, Err(HttpError::Incomplete)), "cut {cut}");
    }
    let request = Request::from_reader(&mut Reader::partial(full)).unwrap();
    assert_eq!(request.bytes().unwrap(), b"ping".to_vec());
    let e = Request::from_reader(&mut Reader::partial(b"GET/hello HTTP/1.1\r\n".to_vec()));
    assert!(matches!(e, Err(HttpError::InvalidFormat)));
    let e = Request::from_reader(&mut Reader::partial(b"GET / HTTP/1.1\r\nbad line\r\n".to_vec()));
    assert!(matches!(e, Err(HttpError::InvalidFormat)));
    let e = Response::from_reader(&mut Reader::partial(b"HTTP/1.1 20".to_vec()));
    assert!(matches!(e, Err(HttpError::Incomplete)));
    let e = Response::from_reader(&mut Reader::partial(b"HTTP/1.0 200 OK\r\n".to_vec()));
    assert!(matches!(e, Err(HttpError::UnsupportedHttp)));
}
