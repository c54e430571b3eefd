use basket::{not_found, with_server_header, HttpError, IntoResponse, Reader, Request, Response, Router};

type Handler = fn((), Request) -> Response;

fn hello(_: (), _: Request) -> Response {
    (200u16, "hello").into_response()
}

fn index(_: (), _: Request) -> Response {
    (200u16, "index").into_response()
}

fn echo(_: (), request: Request) -> Response {
    let body = request.bytes().unwrap_or_default();
    Response::builder().status(200).body(body).build()
}

fn teapot(_: (), _: Request) -> Response {
    Response::builder().status(418).build()
}

fn root_and_echo(_: (), request: Request) -> Response {
    if request.path() == "/" {
        "hello, world!".into_response()
    } else {
        (200u16, request.bytes().unwrap_or_default()).into_response()
    }
}

fn status_route(_: (), request: Request) -> Response {
    let code: u16 = request.path().rsplit('/').next().unwrap().parse().unwrap();
    code.into_response()
}

/// Runs one exchange over in-memory bytes: the client's request is written,
/// read by the server side, routed, answered, written, and read back.
fn exchange(router: &Router<(), Handler>, request: Request) -> Response {
    let wire = request.to_bytes();
    let received = Request::from_reader(&mut Reader::new(wire)).unwrap();
    let response = match router.select(received.path()) {
        Some(i) => (router.handler(i))(*router.state(), received),
        None => not_found(),
    };
    let answer = with_server_header(response).to_bytes();
    Response::from_bytes(answer).unwrap()
}

#[test]
fn router_first_registered_prefix_wins() {
    let router: Router<(), Handler> = Router::<(), Handler>::new(()).route("/hello", hello).route("/", index);
    assert_eq!(router.select("/hello/"), Some(0));
    assert_eq!(router.select("/hello"), Some(0));
    assert_eq!(router.select("/helloworld"), Some(0));
    assert_eq!(router.select("/other"), Some(1));
    assert_eq!(router.select("/"), Some(1));

    let response = exchange(&router, Request::get("http://localhost/hello/").finish().unwrap());
    assert_eq!(response.header("server"), Some("basket"));
    assert_eq!(response.text().unwrap(), "hello");
}

#[test]
fn router_trailing_slash_route_needs_slash() {
    let router: Router<(), Handler> = Router::<(), Handler>::new(()).route("/a/", hello);
    assert_eq!(router.select("/a/"), None);
    assert_eq!(router.select("/a/b"), Some(0));
    assert_eq!(router.select("/a"), None);
}

#[test]
fn router_without_match_answers_404() {
    let router: Router<(), Handler> = Router::<(), Handler>::new(()).route("/hello", hello);
    let response = exchange(&router, Request::get("http://localhost/nope").finish().unwrap());
    assert_eq!(response.status(), 404);
    assert_eq!(response.headers().len(), 1);
    assert_eq!(response.header("server"), Some("basket"));
    assert!(matches!(response.bytes(), Err(HttpError::ExpectedBody)));
}

#[test]
fn server_header_is_appended() {
    let response = with_server_header(Response::builder().header(("server", "other")).build());
    assert_eq!(response.headers().len(), 2);
    assert_eq!(response.headers()[1].name, "server");
    assert_eq!(response.headers()[1].value, "basket");
    assert_eq!(not_found().status(), 404);
}

#[test]
fn end_to_end_echo() {
    let router: Router<(), Handler> = Router::<(), Handler>::new(()).route("/echo", echo);
    let request = Request::post("http://localhost:3000/echo")
        .body(b"ping".to_vec())
        .finish()
        .unwrap();
    assert_eq!(request.headers[2].value, "text/plain");
    let response = exchange(&router, request);
    assert_eq!(response.status(), 200);
    assert_eq!(response.text().unwrap(), "ping");
}

#[test]
fn end_to_end_teapot_without_body() {
    let router: Router<(), Handler> = Router::<(), Handler>::new(()).route("/", teapot);
    let response = exchange(&router, Request::get("http://localhost/brew").finish().unwrap());
    assert_eq!(response.status(), 418);
    let wire = with_server_header(Response::builder().status(418).build()).to_bytes();
    assert!(matches!(response.bytes(), Err(HttpError::ExpectedBody)));
    let again = Response::from_bytes(wire).unwrap();
    assert_eq!(again.status(), 418);
    assert!(matches!(again.text(), Err(HttpError::ExpectedBody)));
}

#[test]
fn lib_test_get_request() {
    let router: Router<(), Handler> = Router::<(), Handler>::new(()).route("/", root_and_echo);
    let response = exchange(&router, Request::get("http://localhost:1337").finish().unwrap());
    assert_eq!(response.status(), 200);
    assert_eq!(response.text().unwrap(), "hello, world!");
}

#[test]
fn lib_test_post_request() {
    const INPUT: &str = "Hello, world!";
    let router: Router<(), Handler> = Router::<(), Handler>::new(()).route("/", root_and_echo);
    let request = Request::post("http://localhost:1337/text")
        .body(INPUT.as_bytes().to_vec())
        .finish()
        .unwrap();
    let response = exchange(&router, request);
    assert_eq!(response.status(), 200);
    assert_eq!(response.text().unwrap(), INPUT);
}

#[test]
fn lib_test_json_request() {
    let mut input = serde_json::Map::new();
    input.insert("name".to_string(), serde_json::Value::from("John Doe"));
    input.insert("age".to_string(), serde_json::Value::from(42u8));
    let input = serde_json::Value::Object(input);
    let router: Router<(), Handler> = Router::<(), Handler>::new(()).route("/", root_and_echo);
    let request = Request::post("http://localhost:1337/json")
        .encoded(serde_json::to_vec(&input).map_err(HttpError::Json), "application/json")
        .finish()
        .unwrap();
    let response = exchange(&router, request);
    assert_eq!(response.status(), 200);
    let output: serde_json::Value = serde_json::from_slice(&response.bytes().unwrap()).unwrap();
    assert_eq!(output, input);
}

#[test]
fn lib_test_get_request_status() {
    let router: Router<(), Handler> = Router::<(), Handler>::new(()).route("/status", status_route);
    let response = exchange(&router, Request::get("http://localhost:1337/status/418").finish().unwrap());
    assert_eq!(response.status(), 418);
}
