use ohkami::num::{decimal_bytes, encode_itoa, hexized, hexized_bytes, itoa, itoa_bytes};

#[test]
fn test_hexize() {
    for (n, expected) in [
        (1, "1"),
        (9, "9"),
        (12, "c"),
        (16, "10"),
        (42, "2a"),
        (314, "13a"),
    ] {
        assert_eq!(hexized(n).trim_start_matches('0'), expected)
    }
}

#[test]
fn test_itoa() {
    for n in [
        0,
        1,
        4,
        10,
        11,
        99,
        100,
        109,
        999,
        1000,
        10_usize.pow(usize::ilog10(usize::MAX)) - 1,
        10_usize.pow(usize::ilog10(usize::MAX)),
        usize::MAX - 1,
        usize::MAX,
    ] {
        assert_eq!(itoa(n), n.to_string());
        assert_eq!(
            {
                let mut buf = Vec::with_capacity(1 + usize::MAX.ilog10() as usize);
                encode_itoa(n, &mut buf);
                String::from_utf8(buf).unwrap()
            },
            n.to_string()
        );
    }
}

#[test]
fn encoders_write_digits() {
    let mut buf = b"n=".to_vec();
    encode_itoa(1280, &mut buf);
    assert_eq!(buf, b"n=1280");
    assert_eq!(decimal_bytes(u64::MAX), u64::MAX.to_string().into_bytes());
    assert_eq!(itoa_bytes(0), b"0");
    assert_eq!(hexized_bytes(255), b"00000000000000ff");
}
