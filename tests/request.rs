use ohkami::content_type::ContentType;
use ohkami::method::Method;
use ohkami::request::{ParseError, Request};

struct DebugRequest {
    method: Method,
    path: &'static str,
    queries: &'static [(&'static str, &'static str)],
    headers: &'static [(&'static str, &'static str)],
    payload: Option<(ContentType, &'static str)>,
}

impl DebugRequest {
    fn assert_parsed_from(self, req_str: &'static str) {
        let DebugRequest { method, path, queries, headers, payload } = self;
        let req = Request::parse(req_str.as_bytes().to_vec()).unwrap();

        assert_eq!(req.method(), method);
        assert_eq!(req.path(), path);
        assert_eq!(
            req.payload().map(|(ct, s)| (ct.clone(), std::str::from_utf8(s).unwrap())),
            payload
        );
        for (k, v) in queries {
            assert_eq!(req.query(k), Some((*v).to_owned()))
        }
        for (k, v) in headers {
            assert_eq!(req.header(k).as_deref(), Some(*v))
        }
    }
}

#[test]
fn check_request_parsing() {
    DebugRequest {
        method: Method::GET,
        path: "/hello.htm",
        queries: &[],
        headers: &[
            ("User-Agent", "Mozilla/4.0 (compatible; MSIE5.01; Windows NT)"),
            ("Host", "www.tutorialspoint.com"),
            ("Accept-Language", "en-us"),
            ("Accept-Encoding", "gzip, deflate"),
            ("Connection", "Keep-Alive"),
        ],
        payload: None,
    }
    .assert_parsed_from(
        "GET /hello.htm HTTP/1.1\r
User-Agent: Mozilla/4.0 (compatible; MSIE5.01; Windows NT)\r
Host: www.tutorialspoint.com\r
Accept-Language: en-us\r
Accept-Encoding: gzip, deflate\r
Connection: Keep-Alive",
    );

    DebugRequest {
        method: Method::POST,
        path: "/cgi-bin/process.cgi",
        queries: &[],
        headers: &[
            ("User-Agent", "Mozilla/4.0 (compatible; MSIE5.01; Windows NT)"),
            ("Host", "www.tutorialspoint.com"),
            ("Content-Length", "length"),
            ("Accept-Language", "en-us"),
            ("Accept-Encoding", "gzip, deflate"),
            ("Connection", "Keep-Alive"),
        ],
        payload: Some((
            ContentType::URLEncoded,
            "licenseID=string&content=string&/paramsXML=string",
        )),
    }
    .assert_parsed_from(
        "POST /cgi-bin/process.cgi HTTP/1.1\r
User-Agent: Mozilla/4.0 (compatible; MSIE5.01; Windows NT)\r
Host: www.tutorialspoint.com\r
Content-Type: application/x-www-form-urlencoded\r
Content-Length: length\r
Accept-Language: en-us\r
Accept-Encoding: gzip, deflate\r
Connection: Keep-Alive\r
\r
licenseID=string&content=string&/paramsXML=string",
    );

    DebugRequest {
        method: Method::GET,
        path: "/genapp/customers",
        queries: &[("name", "Joe Bloggs"), ("email", "abc@email.com")],
        headers: &[("Host", "www.example.com")],
        payload: None,
    }
    .assert_parsed_from(
        "GET /genapp/customers?name=Joe%20Bloggs&email=abc@email.com HTTP/1.1\r
Host: www.example.com",
    );
}

#[test]
fn rejects_unknown_method() {
    let r = Request::parse(b"FETCH / HTTP/1.1\r\n\r\n".to_vec());
    assert_eq!(r.err(), Some(ParseError::BadRequest));
}

#[test]
fn rejects_other_versions() {
    let r = Request::parse(b"GET / HTTP/1.0\r\n\r\n".to_vec());
    assert_eq!(r.err(), Some(ParseError::HTTPVersionNotSupported));
}

#[test]
fn rejects_header_without_colon() {
    let r = Request::parse(b"GET / HTTP/1.1\r\nHost x\r\n\r\n".to_vec());
    assert_eq!(r.err(), Some(ParseError::BadRequest));
}

#[test]
fn rejects_too_many_queries() {
    let r = Request::parse(b"GET /q?a=1&b=2&c=3&d=4&e=5 HTTP/1.1\r\n\r\n".to_vec());
    assert_eq!(r.err(), Some(ParseError::BadRequest));
    let ok = Request::parse(b"GET /q?a=1&b=2&c=3&d=4 HTTP/1.1\r\n\r\n".to_vec()).unwrap();
    assert_eq!(ok.query("D"), Some("4".to_owned()));
}

#[test]
fn rejects_too_many_headers() {
    let mut raw = String::from("GET / HTTP/1.1\r\n");
    for i in 0..33 {
        raw.push_str(&format!("X-{i}: v\r\n"));
    }
    raw.push_str("\r\n");
    let r = Request::parse(raw.into_bytes());
    assert_eq!(r.err(), Some(ParseError::BadRequest));

    let mut raw = String::from("GET / HTTP/1.1\r\n");
    for i in 0..32 {
        raw.push_str(&format!("X-{i}: v{i}\r\n"));
    }
    raw.push_str("\r\n");
    let req = Request::parse(raw.into_bytes()).unwrap();
    assert_eq!(req.header("x-31").as_deref(), Some("v31"));
}

#[test]
fn header_values_are_trimmed_and_first_wins() {
    let req = Request::parse(b"GET / HTTP/1.1\r\nX-A:   one  \r\nx-a: two\r\n\r\n".to_vec()).unwrap();
    assert_eq!(req.header("X-A").as_deref(), Some("one"));
    assert_eq!(req.header("missing"), None);
}

#[test]
fn body_is_capped_by_content_length() {
    let req = Request::parse(
        b"POST /x HTTP/1.1\r\nContent-Type: application/json\r\nContent-Length: 4\r\n\r\n{\"a\":1}".to_vec(),
    )
    .unwrap();
    let (ct, body) = req.payload().unwrap();
    assert_eq!(ct, &ContentType::JSON);
    assert_eq!(body, b"{\"a\"");
    assert_eq!(req.missing_payload(), 0);
}

#[test]
fn body_still_to_read_is_reported_and_filled() {
    let mut req =
        Request::parse(b"POST /x HTTP/1.1\r\nContent-Length: 10\r\n\r\nhello".to_vec()).unwrap();
    assert_eq!(req.missing_payload(), 5);
    req.fill_payload(b"world");
    let (ct, body) = req.payload().unwrap();
    assert_eq!(ct, &ContentType::Text);
    assert_eq!(body, b"helloworld");
    assert_eq!(req.missing_payload(), 0);
}

#[test]
fn large_content_length_is_clamped() {
    let req = Request::parse(b"POST /x HTTP/1.1\r\nContent-Length: 99999999999999999999\r\n\r\nab".to_vec())
        .unwrap();
    assert_eq!(req.missing_payload(), 65536 - 2);
    assert!(req.payload_too_large());
    let at_limit = Request::parse(b"POST /x HTTP/1.1\r\nContent-Length: 65536\r\n\r\n".to_vec()).unwrap();
    assert!(!at_limit.payload_too_large());
    assert_eq!(at_limit.missing_payload(), 65536);
    let over = Request::parse(b"POST /x HTTP/1.1\r\nContent-Length: 65537\r\n\r\n".to_vec()).unwrap();
    assert!(over.payload_too_large());
}

#[test]
fn form_data_boundary_is_kept() {
    let req = Request::parse(
        b"POST /x HTTP/1.1\r\nContent-Type: multipart/form-data; boundary=XyZ\r\nContent-Length: 1\r\n\r\nz".to_vec(),
    )
    .unwrap();
    assert_eq!(req.payload().unwrap().0, &ContentType::FormData(b"XyZ".to_vec()));
}

#[test]
fn round_trip_of_a_serialized_request() {
    let raw = b"PUT /items/7 HTTP/1.1\r\nHost: example.org\r\nContent-Length: 3\r\nContent-Type: text/html\r\n\r\nabc";
    let req = Request::parse(raw.to_vec()).unwrap();
    assert_eq!(req.method(), Method::PUT);
    assert_eq!(req.path(), "/items/7");
    assert_eq!(req.header("host").as_deref(), Some("example.org"));
    assert_eq!(req.header("content-length").as_deref(), Some("3"));
    let (ct, body) = req.payload().unwrap();
    assert_eq!(ct, &ContentType::HTML);
    assert_eq!(body, b"abc");
}

#[test]
fn query_style_body_decodes() {
    let raw = b"POST /x HTTP/1.1\r\nContent-Type: application/x-www-form-urlencoded\r\nContent-Length: 11\r\n\r\nname=Joe%20B";
    let req = Request::parse(raw.to_vec()).unwrap();
    let (ct, body) = req.payload().unwrap();
    assert_eq!(ct, &ContentType::URLEncoded);
    assert_eq!(body, b"name=Joe%20");
}

#[test]
fn invalid_utf8_is_replaced_and_raw_bytes_kept() {
    let req = Request::parse(b"GET /a%FFb HTTP/1.1\r\nX-Raw: \xFFok\r\n\r\n".to_vec()).unwrap();
    assert_eq!(req.header("x-raw").as_deref(), Some("\u{FFFD}ok"));
    assert_eq!(req.header_bytes(b"X-RAW"), Some(b"\xFFok".to_vec()));
    assert_eq!(req.path(), "/a\u{FFFD}b");
    assert_eq!(req.path_bytes(), b"/a%FFb".to_vec());
}

#[test]
fn percent_signs_without_two_hex_digits_stay() {
    let req = Request::parse(b"GET /p%2 HTTP/1.1\r\n\r\n".to_vec()).unwrap();
    assert_eq!(req.path(), "/p%2");
    let req = Request::parse(b"GET /p%zz%41 HTTP/1.1\r\n\r\n".to_vec()).unwrap();
    assert_eq!(req.path(), "/p%zzA");
}

#[test]
fn form_values_decode_and_reject_malformed_forms() {
    assert_eq!(ohkami::request::form_value(b"a=1&name=Joe%20B", "NAME"), Some("Joe B".to_owned()));
    assert_eq!(ohkami::request::form_value(b"a=1", "b"), None);
    assert_eq!(ohkami::request::form_value(b"a&b=2", "b"), None);
}

#[test]
fn written_requests_parse_back() {
    let headers = vec![
        (b"Host".to_vec(), b"example.org".to_vec()),
        (b"Content-Length".to_vec(), b"5".to_vec()),
        (b"X-Empty".to_vec(), b"".to_vec()),
    ];
    let raw = ohkami::request::write_request(Method::DELETE, b"/things/9", &headers, b"hello");
    assert_eq!(
        raw,
        b"DELETE /things/9 HTTP/1.1\r\nHost: example.org\r\nContent-Length: 5\r\nX-Empty: \r\n\r\nhello".to_vec()
    );
    let req = Request::parse(raw.clone()).unwrap();
    assert_eq!(req.method(), Method::DELETE);
    assert_eq!(req.path_bytes(), b"/things/9".to_vec());
    for (k, v) in &headers {
        assert_eq!(req.header_bytes(k), Some(v.clone()));
    }
    assert_eq!(req.payload().unwrap().1, b"hello");
    assert_eq!(req.consumed(), raw.len());
}

#[test]
fn head_completion_is_detected() {
    assert!(ohkami::request::head_complete(b"GET / HTTP/1.1\r\n\r\n"));
    assert!(!ohkami::request::head_complete(b"GET / HTTP/1.1\r\nHost: x\r\n"));
    assert!(!ohkami::request::head_complete(b""));
}
