use ft_kalman::scan::{bytes_equal, find_byte, next_line_of, split_once_at};

fn all_lines(s: &[u8]) -> Vec<Vec<u8>> {
    let mut out = Vec::new();
    let mut rest = s;
    while let Some((line, after)) = next_line_of(rest) {
        out.push(line.to_vec());
        rest = after;
    }
    out
}

#[test]
fn lines_agree_with_std() {
    for s in [
        "", "\n", "a", "a\n", "a\nb", "a\r\nb\r\n", "a\rb\n", "a\r", "\r\n", "\n\n", "1\n2\n3\n",
        "x\r\r\n",
    ] {
        let ours = all_lines(s.as_bytes());
        let std_lines: Vec<Vec<u8>> = s.lines().map(|l| l.as_bytes().to_vec()).collect();
        assert_eq!(ours, std_lines, "{:?}", s);
    }
}

#[test]
fn split_once_agrees_with_std() {
    for s in ["", "a", ":", "a:b", "a:b:c", "::", "ab:"] {
        let ours = split_once_at(s.as_bytes(), b':').map(|(a, b)| (a.to_vec(), b.to_vec()));
        let std_split = s.split_once(':').map(|(a, b)| (a.as_bytes().to_vec(), b.as_bytes().to_vec()));
        assert_eq!(ours, std_split, "{:?}", s);
    }
}

#[test]
fn first_occurrence_is_found() {
    assert_eq!(find_byte(b"a]b]c", b']'), Some(1));
    assert_eq!(find_byte(b"abc", b']'), None);
    assert_eq!(find_byte(b"", b']'), None);
}

#[test]
fn byte_equality() {
    assert!(bytes_equal(b"SPEED", b"SPEED"));
    assert!(!bytes_equal(b"SPEED", b"SPEEd"));
    assert!(!bytes_equal(b"SPEED", b"SPEE"));
    assert!(bytes_equal(b"", b""));
}
