use ohkami::method::Method;

#[test]
fn method_tokens() {
    for m in [
        Method::GET,
        Method::PUT,
        Method::POST,
        Method::PATCH,
        Method::DELETE,
        Method::HEAD,
        Method::OPTIONS,
    ] {
        assert_eq!(Method::from_bytes(m.as_str().as_bytes()), Some(m));
    }
    assert_eq!(Method::from_bytes(b"get"), None);
    assert_eq!(Method::from_bytes(b""), None);
    assert!(Method::GET.isGET());
    assert!(!Method::GET.isPOST());
    assert!(Method::OPTIONS.isOPTIONS());
    assert!(Method::DELETE.isDELETE());
    assert!(Method::HEAD.isHEAD());
    assert!(Method::PATCH.isPATCH());
    assert!(Method::PUT.isPUT());
}
