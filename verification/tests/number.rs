use ft_kalman::number::{float_literal, parse_u32};
use ft_kalman::utf8_text::is_utf8;

#[test]
fn u32_values() {
    assert_eq!(parse_u32(b"0"), Some(0));
    assert_eq!(parse_u32(b"00"), Some(0));
    assert_eq!(parse_u32(b"+12"), Some(12));
    assert_eq!(parse_u32(b"4294967295"), Some(u32::MAX));
    assert_eq!(parse_u32(b"00004294967295"), Some(u32::MAX));
}

#[test]
fn u32_rejections() {
    assert_eq!(parse_u32(b""), None);
    assert_eq!(parse_u32(b"+"), None);
    assert_eq!(parse_u32(b"-0"), None);
    assert_eq!(parse_u32(b"++1"), None);
    assert_eq!(parse_u32(b"1a"), None);
    assert_eq!(parse_u32(b" 1"), None);
    assert_eq!(parse_u32(b"4294967296"), None);
    assert_eq!(parse_u32(b"99999999999999999999"), None);
}

#[test]
fn u32_agrees_with_std() {
    for s in ["", "+", "0", "+0", "-0", "12", "4294967295", "4294967296", "1a", "+-1", "007"] {
        assert_eq!(parse_u32(s.as_bytes()), s.parse::<u32>().ok(), "{}", s);
    }
}

#[test]
fn float_literals_accepted() {
    for s in [
        "0", "1.", ".5", "1.5", "-1.5", "+1.5", "1e5", "1E5", "1e+5", "1e-5", "1.5e10", ".5E-3",
        "inf", "INF", "+inf", "-inf", "infinity", "-Infinity", "nan", "NaN", "-nan", "007",
    ] {
        assert!(float_literal(s.as_bytes()), "{}", s);
    }
}

#[test]
fn float_literals_rejected() {
    for s in [
        "", ".", "+", "-", "e5", "1e", "1e+", "1.5.2", " 1", "1 ", "1,5", "in", "infinit", "nana",
        "0x10", "--1", "1e5.0", "inf1",
    ] {
        assert!(!float_literal(s.as_bytes()), "{}", s);
    }
}

#[test]
fn float_literals_agree_with_std() {
    for s in [
        "0", "1.", ".5", "-.5e-2", "inf", "Infinity", "NAN", "", ".", "e", "1e", "x", "1_0",
        "+-1", "1e99999", "12345678901234567890",
    ] {
        assert_eq!(float_literal(s.as_bytes()), s.parse::<f64>().is_ok(), "{}", s);
    }
}

#[test]
fn utf8_texts() {
    assert!(is_utf8(b""));
    assert!(is_utf8(b"MSG_START"));
    assert!(is_utf8("é€𝄞".as_bytes()));
    assert!(!is_utf8(&[0xff]));
    assert!(!is_utf8(&[0xc0, 0x80]));
    assert!(!is_utf8(&[0xe0, 0x80, 0x80]));
    assert!(!is_utf8(&[0xed, 0xa0, 0x80]));
    assert!(!is_utf8(&[0xf4, 0x90, 0x80, 0x80]));
    assert!(!is_utf8(&[0xe2, 0x82]));
    assert!(is_utf8(&[0xf0, 0x90, 0x80, 0x80]));
}

#[test]
fn utf8_agrees_with_std() {
    let samples: Vec<Vec<u8>> = vec![
        vec![0x41, 0x80],
        vec![0xc2, 0x80],
        vec![0xc1, 0xbf],
        vec![0xef, 0xbf, 0xbf],
        vec![0xed, 0x9f, 0xbf],
        vec![0xf4, 0x8f, 0xbf, 0xbf],
        vec![0xf5, 0x80, 0x80, 0x80],
        vec![0xf0, 0x8f, 0xbf, 0xbf],
    ];
    for s in samples {
        assert_eq!(is_utf8(&s), std::str::from_utf8(&s).is_ok(), "{:?}", s);
    }
}
