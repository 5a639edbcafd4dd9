use ohkami::cookie::SetCookieBuilder;
use ohkami::date::UTCDateTime;
use ohkami::header::Header;
use ohkami::method::Method;
use ohkami::request::{form_value, Request};
use ohkami::response::Response;
use ohkami::router::Router;
use ohkami::server::{after_response, dispatch, keep_alive, parse_error_response, Dispatch, Next};
use ohkami::status::Status;

/// Sun, 06 Nov 1994 08:49:37 GMT
const NOW: u64 = 784111777;
const DATE: &str = "Sun, 06 Nov 1994 08:49:37 GMT";

type Handler = fn(&Request, &[(String, String)]) -> Response;

fn text(status: Status, body: &str) -> Response {
    let mut r = Response::new(status);
    r.set_body(body.as_bytes().to_vec());
    r
}

fn serve(router: &Router, handlers: &[Handler], raw: &[u8]) -> String {
    let resp = match Request::parse(raw.to_vec()) {
        Err(e) => parse_error_response(e),
        Ok(req) => match dispatch(router, &req) {
            Dispatch::Respond(r) => r,
            Dispatch::Handler(h, caps) => {
                let path = req.path_bytes();
                let params: Vec<(String, String)> = caps
                    .iter()
                    .map(|(n, s)| {
                        (
                            String::from_utf8(n.clone()).unwrap(),
                            String::from_utf8(path[s.start..s.end].to_vec()).unwrap(),
                        )
                    })
                    .collect();
                handlers[h](&req, &params)
            }
        },
    };
    let mut resp = resp;
    resp.finalize(&UTCDateTime::from_unix_seconds(NOW).imf_fixdate());
    let bytes = resp.to_bytes();
    assert_eq!(bytes.len(), resp.size());
    String::from_utf8(bytes).unwrap()
}

fn hello(_: &Request, _: &[(String, String)]) -> Response {
    text(Status::OK, "hi")
}

fn echo_id(_: &Request, params: &[(String, String)]) -> Response {
    let id = params.iter().find(|(k, _)| k == "id").map(|(_, v)| v.clone()).unwrap();
    text(Status::OK, &id)
}

fn form_name(req: &Request, _: &[(String, String)]) -> Response {
    let (_, body) = req.payload().unwrap();
    text(Status::OK, &form_value(body, "name").unwrap())
}

fn app() -> (Router, Vec<Handler>) {
    let mut r = Router::new();
    r.register(Method::GET, "/hello.htm", 0).unwrap();
    r.register(Method::GET, "/users/:id", 1).unwrap();
    r.register(Method::POST, "/x", 2).unwrap();
    (r, vec![hello, echo_id, form_name])
}

#[test]
fn date_is_imf_fixdate() {
    assert_eq!(UTCDateTime::from_unix_seconds(NOW).imf_fixdate(), DATE);
    assert_eq!(UTCDateTime::from_unix_seconds(0).imf_fixdate(), "Thu, 01 Jan 1970 00:00:00 GMT");
    assert_eq!(
        UTCDateTime::from_unix_seconds(951782400).imf_fixdate(),
        "Tue, 29 Feb 2000 00:00:00 GMT"
    );
}

#[test]
fn static_route_answers_with_length_and_date() {
    let (r, h) = app();
    let out = serve(&r, &h, b"GET /hello.htm HTTP/1.1\r\nHost: x\r\n\r\n");
    assert_eq!(
        out,
        format!("HTTP/1.1 200 OK\r\nContent-Length: 2\r\nDate: {DATE}\r\n\r\nhi")
    );
}

#[test]
fn parameter_is_echoed() {
    let (r, h) = app();
    let out = serve(&r, &h, b"GET /users/42 HTTP/1.1\r\n\r\n");
    assert!(out.ends_with("\r\n\r\n42"));
    assert!(out.starts_with("HTTP/1.1 200 OK\r\n"));
}

#[test]
fn form_body_is_decoded() {
    let (r, h) = app();
    let out = serve(
        &r,
        &h,
        b"POST /x HTTP/1.1\r\nContent-Type: application/x-www-form-urlencoded\r\nContent-Length: 12\r\n\r\nname=Joe%20B",
    );
    assert!(out.ends_with("\r\n\r\nJoe B"));
    // A declared length of 11 cuts the body before its last byte.
    let out = serve(
        &r,
        &h,
        b"POST /x HTTP/1.1\r\nContent-Type: application/x-www-form-urlencoded\r\nContent-Length: 11\r\n\r\nname=Joe%20B",
    );
    assert!(out.ends_with("\r\n\r\nJoe "));
}

#[test]
fn unknown_path_is_not_found() {
    let (r, h) = app();
    let out = serve(&r, &h, b"GET /nope HTTP/1.1\r\n\r\n");
    assert_eq!(
        out,
        format!("HTTP/1.1 404 Not Found\r\nContent-Length: 0\r\nDate: {DATE}\r\n\r\n")
    );
}

#[test]
fn wrong_method_is_not_allowed() {
    let (r, h) = app();
    let out = serve(&r, &h, b"PUT /hello.htm HTTP/1.1\r\n\r\n");
    assert_eq!(
        out,
        format!("HTTP/1.1 405 Method Not Allowed\r\nAllow: GET\r\nContent-Length: 0\r\nDate: {DATE}\r\n\r\n")
    );
}

#[test]
fn bad_requests_get_error_statuses() {
    let (r, h) = app();
    assert!(serve(&r, &h, b"BREW /pot HTTP/1.1\r\n\r\n").starts_with("HTTP/1.1 400 Bad Request\r\n"));
    assert!(serve(&r, &h, b"GET / HTTP/2.0\r\n\r\n")
        .starts_with("HTTP/1.1 505 HTTP Version Not Supported\r\n"));
}

#[test]
fn back_to_back_requests_are_answered_in_order() {
    let (r, h) = app();
    let stream = b"GET /users/1 HTTP/1.1\r\n\r\nGET /users/2 HTTP/1.1\r\nConnection: close\r\n\r\n".to_vec();
    let first = Request::parse(stream.clone()).unwrap();
    assert!(keep_alive(&first));
    let rest = stream[first.consumed()..].to_vec();
    let second = Request::parse(rest.clone()).unwrap();
    assert!(!keep_alive(&second));
    assert_eq!(second.consumed(), rest.len());
    let out1 = serve(&r, &h, &stream[..first.consumed()]);
    let out2 = serve(&r, &h, &rest);
    assert!(out1.ends_with("\r\n\r\n1"));
    assert!(out2.ends_with("\r\n\r\n2"));
    assert_eq!(after_response(true, keep_alive(&first)), Next::ReadNext);
    assert_eq!(after_response(true, keep_alive(&second)), Next::Close);
    assert_eq!(after_response(false, true), Next::Close);
}

#[test]
fn response_keeps_explicit_headers() {
    let mut resp = Response::new(Status::NoContent);
    resp.set_header(Header::Date, "fixed");
    resp.finalize(DATE);
    assert_eq!(resp.header(Header::Date), Some("fixed"));
    assert_eq!(resp.header(Header::ContentLength), None);
    assert_eq!(
        String::from_utf8(resp.to_bytes()).unwrap(),
        "HTTP/1.1 204 No Content\r\nDate: fixed\r\n\r\n"
    );
}

#[test]
fn cookies_are_written_in_order() {
    let mut resp = Response::new(Status::OK);
    resp.set_cookie(&SetCookieBuilder::new("id", "42").Path("/").SameSiteLax().Secure().build());
    resp.set_cookie(
        &SetCookieBuilder::new("id", "10")
            .MaxAge(1280)
            .HttpOnly()
            .Path("/where")
            .SameSiteStrict()
            .build(),
    );
    resp.set_custom_header("X-Trace", "t");
    resp.append_header(Header::Vary, "a");
    resp.append_header(Header::Vary, "b");
    let out = String::from_utf8(resp.to_bytes()).unwrap();
    assert_eq!(
        out,
        "HTTP/1.1 200 OK\r\nVary: a, b\r\nX-Trace: t\r\n\
         Set-Cookie: id=42; Path=/; Secure; SameSite=Lax\r\n\
         Set-Cookie: id=10; Max-Age=1280; Path=/where; HttpOnly; SameSite=Strict\r\n\r\n"
    );
    assert_eq!(out.len(), resp.size());
    assert_eq!(resp.custom_header("X-Trace"), Some("t"));
}

#[test]
fn cookie_with_every_directive() {
    let c = SetCookieBuilder::new("a", "b")
        .Expires(DATE)
        .Domain("example.com")
        .SameSiteNone()
        .build();
    assert_eq!(c, format!("a=b; Expires={DATE}; Domain=example.com; SameSite=None"));
}
