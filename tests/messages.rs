use basket::header::from_reader;
use basket::{Header, HttpError, IntoResponse, Method, Reader, Request, RequestBuilder, Response, ResponseBuilder};

#[test]
fn response_builder_defaults_and_body() {
    let response = ResponseBuilder::new().build();
    assert_eq!(response.status(), 200);
    assert!(response.headers().is_empty());
    assert!(matches!(response.bytes(), Err(HttpError::ExpectedBody)));

    let response = Response::builder().status(201).body(b"hello".to_vec()).build();
    assert_eq!(response.status(), 201);
    assert_eq!(response.header("content-length"), Some("5"));
    assert_eq!(response.text().unwrap(), "hello");
}

#[test]
fn response_is_written_exactly() {
    let response = Response::builder().status(418).build();
    assert_eq!(response.to_bytes(), b"HTTP/1.1 418 \r\n\r\n".to_vec());

    let response = Response::builder().header(("x-a", "b")).body(b"hi".to_vec()).build();
    let mut sink = b"prefix".to_vec();
    response.write(&mut sink);
    assert_eq!(sink, b"prefixHTTP/1.1 200 \r\nx-a: b\r\ncontent-length: 2\r\n\r\nhi".to_vec());
}

#[test]
fn response_round_trip_through_wire() {
    let built = Response::builder()
        .status(404)
        .header(("x-first", "1"))
        .header((String::from("x-second"), String::from("two words")))
        .body(b"not here".to_vec())
        .build();
    let bytes = built.to_bytes();
    let parsed = Response::from_bytes(bytes.clone()).unwrap();
    assert_eq!(parsed.status(), 404);
    let names: Vec<(&str, &str)> = parsed.headers().iter().map(|h| (h.name.as_str(), h.value.as_str())).collect();
    assert_eq!(names, vec![("x-first", "1"), ("x-second", "two words"), ("content-length", "8")]);
    assert_eq!(parsed.to_bytes(), bytes);
    assert_eq!(parsed.bytes().unwrap(), b"not here".to_vec());
}

#[test]
fn request_builder_seeds_headers() {
    let request = Request::get("http://localhost:1337/status/418?x=y").finish().unwrap();
    assert_eq!(request.method, Method::Get);
    assert_eq!(request.headers.len(), 2);
    assert_eq!((request.headers[0].name.as_str(), request.headers[0].value.as_str()), ("connection", "close"));
    assert_eq!((request.headers[1].name.as_str(), request.headers[1].value.as_str()), ("host", "localhost"));
    assert_eq!(request.url.port, Some(1337));
    assert_eq!(request.path(), "/status/418");
    assert_eq!(request.url.query.as_deref(), Some("x=y"));
    assert!(request.body.is_none());
}

#[test]
fn request_builder_without_host() {
    let request = RequestBuilder::new(Method::Put, "unix:/run/foo.socket").finish().unwrap();
    assert_eq!(request.headers.len(), 1);
    assert_eq!(request.url.host, None);
}

#[test]
fn request_builder_bad_url_is_deferred() {
    let builder = Request::post("not a url").body(b"x".to_vec());
    assert!(matches!(builder.error(), Some(HttpError::InvalidUrl(_))));
    assert!(matches!(builder.finish(), Err(HttpError::InvalidUrl(_))));
}

#[test]
fn request_builder_body_and_length() {
    let request = Request::post("http://localhost:1337/text")
        .body(b"Hello, world!".to_vec())
        .header(("x-trace", "7"))
        .finish()
        .unwrap();
    let wire = String::from_utf8(request.to_bytes()).unwrap();
    assert_eq!(
        wire,
        "POST /text HTTP/1.1\r\nconnection: close\r\nhost: localhost\r\ncontent-type: text/plain\r\nx-trace: 7\r\ncontent-length: 13\r\n\r\nHello, world!"
    );
}

#[test]
fn request_query_is_written_after_question_mark() {
    let request = Request::delete("http://h/a/b?k=v&w=1").finish().unwrap();
    let wire = String::from_utf8(request.to_bytes()).unwrap();
    assert!(wire.starts_with("DELETE /a/b?k=v&w=1 HTTP/1.1\r\n"), "{wire}");
}

#[test]
fn request_builder_encoded_payload() {
    let payload = serde_json::to_vec(&vec![1, 2, 3]).map_err(HttpError::Json);
    let request = Request::patch("http://localhost/json")
        .encoded(payload, "application/json")
        .finish()
        .unwrap();
    assert_eq!(request.headers[2].name, "content-type");
    assert_eq!(request.headers[2].value, "application/json");
    assert_eq!(request.headers[3].value, "7");
    assert_eq!(request.body.as_deref(), Some(&b"[1,2,3]"[..]));
}

#[test]
fn request_builder_codec_error_is_deferred() {
    let failure = serde_json::from_str::<u8>("not json").unwrap_err();
    let builder = Request::options("http://localhost/")
        .encoded(Err(HttpError::Json(failure)), "application/json")
        .header(("x-after", "ignored"))
        .body(b"ignored".to_vec())
        .encoded(Err(HttpError::InvalidUtf8), "text/plain");
    assert!(matches!(builder.error(), Some(HttpError::Json(_))));
    assert!(matches!(builder.finish(), Err(HttpError::Json(_))));
}

#[test]
fn response_builder_encoded_payload_and_deferred_error() {
    let response = Response::builder()
        .status(201)
        .encoded(serde_json::to_vec(&vec![1, 2]).map_err(HttpError::Json), "application/json");
    assert!(response.error().is_none());
    let response = response.build();
    let names: Vec<(&str, &str)> = response.headers().iter().map(|h| (h.name.as_str(), h.value.as_str())).collect();
    assert_eq!(names, vec![("content-length", "5"), ("content-type", "application/json")]);
    assert_eq!(response.text().unwrap(), "[1,2]");

    let failure = serde_json::from_str::<u8>("x").unwrap_err();
    let builder = Response::builder()
        .encoded(Err(HttpError::Json(failure)), "application/json")
        .status(500)
        .header(("x", "y"))
        .body(b"z".to_vec());
    assert!(matches!(builder.error(), Some(HttpError::Json(_))));
    let response = builder.build();
    assert_eq!(response.status(), 200);
    assert!(response.headers().is_empty());
}

#[test]
fn request_round_trip_through_wire() {
    let request = Request::post("http://example.com/upload?id=9")
        .header(("x-custom", "value with spaces"))
        .body(vec![0, 1, 2, 255])
        .finish()
        .unwrap();
    let bytes = request.to_bytes();
    let parsed = Request::from_reader(&mut Reader::new(bytes.clone())).unwrap();
    assert_eq!(parsed.method, Method::Post);
    assert_eq!(parsed.path(), "/upload");
    assert_eq!(parsed.url.query.as_deref(), Some("id=9"));
    let a: Vec<(&str, &str)> = request.headers.iter().map(|h| (h.name.as_str(), h.value.as_str())).collect();
    let b: Vec<(&str, &str)> = parsed.headers.iter().map(|h| (h.name.as_str(), h.value.as_str())).collect();
    assert_eq!(a, b);
    assert_eq!(parsed.to_bytes(), bytes);
    assert_eq!(parsed.bytes().unwrap(), vec![0, 1, 2, 255]);
}

#[test]
fn header_block_parse_then_write_is_identical() {
    let block = "content-type: text/html\r\nset-cookie: a=1\r\nset-cookie: a=1\r\nx-empty: \r\n\r\n";
    let mut r = Reader::new(block.as_bytes().to_vec());
    let (headers, _) = from_reader(&mut r).unwrap();
    let mut out = Vec::new();
    basket::header::write_headers(&mut out, &headers);
    out.extend_from_slice(b"\r\n");
    assert_eq!(out, block.as_bytes().to_vec());
}

#[test]
fn uppercase_names_are_lowered_on_parse_only() {
    let response = Response::builder().header(("X-Upper", "V")).build();
    assert_eq!(response.headers()[0].name, "X-Upper");
    let parsed = Response::from_bytes(response.to_bytes()).unwrap();
    assert_eq!(parsed.headers()[0].name, "x-upper");
    assert_eq!(parsed.headers()[0].value, "V");
}

#[test]
fn header_values_from_numbers() {
    let response = Response::builder().header(("x-n", 1234567usize)).build();
    assert_eq!(response.header("x-n"), Some("1234567"));
    let h = Header { name: "x-h".to_string(), value: "v".to_string() };
    let response = Response::builder().header(h).build();
    assert_eq!(response.header("X-H"), Some("v"));
}

#[test]
fn into_response_variants() {
    let r = "hello".into_response();
    assert_eq!(r.status(), 200);
    assert_eq!(r.header("content-length"), Some("5"));
    assert_eq!(r.text().unwrap(), "hello");

    let r = String::from("héllo").into_response();
    assert_eq!(r.header("content-length"), Some("6"));

    let r = vec![1u8, 2].into_response();
    assert_eq!(r.bytes().unwrap(), vec![1, 2]);

    let r = ().into_response();
    assert_eq!(r.status(), 204);
    assert!(matches!(r.bytes(), Err(HttpError::ExpectedBody)));

    let r = 503u16.into_response();
    assert_eq!(r.status(), 503);

    let r = (418u16, "teapot").into_response();
    assert_eq!(r.status(), 418);
    assert_eq!(r.headers().len(), 1);
    assert_eq!(r.text().unwrap(), "teapot");

    let r = (400u16, ()).into_response();
    assert_eq!(r.status(), 400);
    assert!(r.headers().is_empty());
}

#[test]
fn consumed_body_cannot_be_read_twice() {
    // `bytes` and `text` take the message by value, so a second read does
    // not compile; a message read without a body reports it.
    let response = Response::builder().status(418).build();
    assert!(matches!(response.bytes(), Err(HttpError::ExpectedBody)));
    let response = Response::builder().status(418).build();
    assert!(matches!(response.text(), Err(HttpError::ExpectedBody)));
}

#[test]
fn response_builder_from_response_keeps_it() {
    let response = Response::builder().status(302).header(("location", "/x")).build();
    let again = ResponseBuilder::from(response).header(("x", "y")).build();
    assert_eq!(again.status(), 302);
    assert_eq!(again.headers().len(), 2);
}
