use ohkami::header::Header;
use ohkami::headers::{Headers, Value};

const NOW: &str = "Sun, 06 Nov 1994 08:49:37 GMT";

fn written(h: &Headers) -> String {
    let mut buf = Vec::new();
    h.write_to(&mut buf);
    assert_eq!(buf.len(), h.size());
    String::from_utf8(buf).unwrap()
}

#[test]
fn insert_and_write() {
    let mut h = Headers::new();
    h.insert(Header::Date, NOW);
    h.insert(Header::Server, "A");
    assert_eq!(written(&h), format!("Date: {NOW}\r\nServer: A\r\n\r\n"));

    let mut h = Headers::new();
    h.insert(Header::Date, NOW);
    h.insert(Header::Server, "A");
    h.insert(Header::ContentType, "application/json");
    h.insert(Header::Server, "B");
    h.insert(Header::ContentType, "text/html");
    assert_eq!(
        written(&h),
        format!("Content-Type: text/html\r\nDate: {NOW}\r\nServer: B\r\n\r\n")
    );
}

#[test]
fn append_header() {
    let mut h = Headers::new();
    h.insert(Header::Date, NOW);

    h.append(Header::Server, "X");
    assert_eq!(h.get(Header::Server), Some("X"));
    assert_eq!(written(&h), format!("Date: {NOW}\r\nServer: X\r\n\r\n"));

    h.append(Header::Server, "Y");
    assert_eq!(h.get(Header::Server), Some("X, Y"));
    assert_eq!(written(&h), format!("Date: {NOW}\r\nServer: X, Y\r\n\r\n"));
}

#[test]
fn append_custom_header() {
    let mut h = Headers::new();
    h.insert(Header::Date, NOW);

    h.append_custom("Custom-Header", "A");
    assert_eq!(h.get_custom("Custom-Header"), Some("A"));
    assert_eq!(written(&h), format!("Date: {NOW}\r\nCustom-Header: A\r\n\r\n"));

    h.append_custom("Custom-Header", "B");
    assert_eq!(h.get_custom("Custom-Header"), Some("A, B"));
    assert_eq!(written(&h), format!("Date: {NOW}\r\nCustom-Header: A, B\r\n\r\n"));
}

#[test]
fn server_set_then_appended() {
    let mut h = Headers::new();
    h.insert(Header::Server, "A");
    h.append(Header::Server, "B");
    let out = written(&h);
    assert_eq!(out, "Server: A, B\r\n\r\n");
    assert_eq!(h.size(), out.len());
}

#[test]
fn append_twice_joins_with_comma() {
    let mut h = Headers::new();
    h.append(Header::Vary, "a");
    h.append(Header::Vary, "b");
    assert_eq!(h.get(Header::Vary), Some("a, b"));
    assert_eq!(written(&h), "Vary: a, b\r\n\r\n");
}

#[test]
fn size_tracks_every_operation() {
    let mut h = Headers::new();
    assert_eq!(written(&h), "\r\n");
    h.insert(Header::ETag, "\"x\"");
    h.insert_custom("X-Trace", "1");
    h.set_cookie("id=42; Path=/");
    h.set_cookie("name=ü");
    h.append(Header::ETag, "y");
    h.append_custom("X-Trace", "2");
    h.insert_custom("X-Other", "zz");
    written(&h);
    h.remove(Header::ETag);
    h.remove(Header::Age);
    h.remove_custom("X-Trace");
    h.remove_custom("X-None");
    assert_eq!(
        written(&h),
        "X-Other: zz\r\nSet-Cookie: id=42; Path=/\r\nSet-Cookie: name=ü\r\n\r\n"
    );
    assert_eq!(h.get(Header::ETag), None);
    assert_eq!(h.get_custom("X-Trace"), None);
}

#[test]
fn header_names_resolve_without_case() {
    assert_eq!(Header::from_bytes(b"content-type"), Some(Header::ContentType));
    assert_eq!(Header::from_bytes(b"X-Unknown"), None);
    assert_eq!(Header::WWWAuthenticate.as_str(), "WWW-Authenticate");
}

#[test]
fn value_append_and_replace() {
    let mut v = Value::none();
    assert_eq!(v.as_str(), "");
    v.append("ab");
    v.append("cd");
    assert_eq!(v.as_str(), "ab, cd");
    v.replace("z");
    assert_eq!(v.as_str(), "z");
}

#[test]
fn entries_list_every_header_once_per_cookie() {
    let mut h = Headers::new();
    h.insert(Header::Server, "s");
    h.insert(Header::Age, "1");
    h.insert_custom("X-A", "a");
    h.set_cookie("a=1");
    h.set_cookie("b=2");
    let e = h.entries();
    let pairs: Vec<(&str, &str)> = e.iter().map(|(k, v)| (k.as_str(), v.as_str())).collect();
    assert_eq!(
        pairs,
        vec![
            ("Age", "1"),
            ("Server", "s"),
            ("X-A", "a"),
            ("Set-Cookie", "a=1"),
            ("Set-Cookie", "b=2"),
        ]
    );
}
