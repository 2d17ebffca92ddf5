use ft_kalman::udp_parser::{cuts_timestamp_badly, parse, parse_time};
use ft_kalman::{Frame, ParsedData, Time};

fn time(hours: u32, minutes: u32, seconds: &str) -> Option<Time> {
    Some(Time { hours, minutes, seconds: seconds.as_bytes().to_vec() })
}

fn text(s: &str) -> Vec<u8> {
    s.as_bytes().to_vec()
}

fn decode(s: &str) -> Frame {
    assert!(!cuts_timestamp_badly(s.as_bytes()));
    parse(s.as_bytes())
}

#[test]
fn msg_start_is_read() {
    let f = decode("MSG_START");
    assert_eq!(f, Frame { time: None, data: ParsedData::MsgStart });
}

#[test]
fn msg_end_is_read() {
    let f = decode("MSG_END");
    assert_eq!(f, Frame { time: None, data: ParsedData::MsgEnd });
}

#[test]
fn documented_true_position_datagram() {
    let msg = "[00:00:00.000]TRUE POSITION\n8.087830169543953\n-3.684344480772115\n0.5\n";
    assert_eq!(msg.len(), 69);
    let f = decode(msg);
    assert_eq!(f.time, time(0, 0, "00.000"));
    assert_eq!(
        f.data,
        ParsedData::TruePosition {
            x: text("8.087830169543953"),
            y: text("-3.684344480772115"),
            z: text("0.5"),
        }
    );
}

#[test]
fn documented_speed_datagram() {
    let msg = "[00:00:00.000]SPEED\n54.33707206642073\n";
    assert_eq!(msg.len(), 38);
    let f = decode(msg);
    assert_eq!(f.time, time(0, 0, "00.000"));
    assert_eq!(f.data, ParsedData::Speed { s: text("54.33707206642073") });
}

#[test]
fn documented_acceleration_datagram() {
    let msg = "[00:00:00.000]ACCELERATION\n-0.006974409692370343\n0.002745037193434422\n0.015353371960037995\n";
    assert_eq!(msg.len(), 91);
    let f = decode(msg);
    assert_eq!(f.time, time(0, 0, "00.000"));
    assert_eq!(
        f.data,
        ParsedData::Acceleration {
            x: text("-0.006974409692370343"),
            y: text("0.002745037193434422"),
            z: text("0.015353371960037995"),
        }
    );
}

#[test]
fn documented_direction_datagram() {
    let msg = "[00:00:00.000]DIRECTION\n0.011132070329239845\n0.010590600280816103\n0.014958991641497313\n";
    assert_eq!(msg.len(), 87);
    let f = decode(msg);
    assert_eq!(f.time, time(0, 0, "00.000"));
    assert_eq!(
        f.data,
        ParsedData::Direction {
            x: text("0.011132070329239845"),
            y: text("0.010590600280816103"),
            z: text("0.014958991641497313"),
        }
    );
}

#[test]
fn timestamp_values_are_read() {
    let f = decode("[12:34:56.789]SPEED\n1\n");
    assert_eq!(f.time, time(12, 34, "56.789"));
    assert_eq!(f.data, ParsedData::Speed { s: text("1") });
}

#[test]
fn bytes_that_are_not_utf8_are_undefined() {
    let data: Vec<u8> = vec![b'[', 0xff, b']', b'S', b'\n', b'1', b'\n'];
    assert!(!cuts_timestamp_badly(&data));
    let f = parse(&data);
    assert_eq!(f, Frame { time: None, data: ParsedData::Undefined });
}

#[test]
fn text_without_line_break_is_undefined() {
    let f = decode("[00:00:00.0]SPEED");
    assert_eq!(f, Frame { time: None, data: ParsedData::Undefined });
}

#[test]
fn header_without_bracket_is_undefined() {
    let f = decode("00:00:00.0 SPEED\n1\n");
    assert_eq!(f, Frame { time: None, data: ParsedData::Undefined });
}

#[test]
fn unknown_header_keeps_the_time() {
    let f = decode("[1:2:3]POSITION\n1\n2\n3\n");
    assert_eq!(f.time, time(1, 2, "3"));
    assert_eq!(f.data, ParsedData::Undefined);
}

#[test]
fn unreadable_time_keeps_the_data() {
    let f = decode("[00:00]SPEED\n2.5\n");
    assert_eq!(f.time, None);
    assert_eq!(f.data, ParsedData::Speed { s: text("2.5") });
}

#[test]
fn first_timestamp_character_is_skipped_whatever_it_is() {
    let f = decode("x7:8:9]SPEED\n2\n");
    assert_eq!(f.time, time(7, 8, "9"));
}

#[test]
fn missing_value_is_undefined() {
    let f = decode("[0:0:0]TRUE POSITION\n1\n2\n");
    assert_eq!(f.time, time(0, 0, "0"));
    assert_eq!(f.data, ParsedData::Undefined);
}

#[test]
fn unreadable_value_is_undefined() {
    let f = decode("[0:0:0]DIRECTION\n1\nabc\n3\n");
    assert_eq!(f.data, ParsedData::Undefined);
    let f = decode("[0:0:0]SPEED\n\n");
    assert_eq!(f.data, ParsedData::Undefined);
}

#[test]
fn extra_lines_are_ignored() {
    let f = decode("[0:0:0]SPEED\n4\nnot a number\n");
    assert_eq!(f.data, ParsedData::Speed { s: text("4") });
}

#[test]
fn last_value_needs_no_line_break() {
    let f = decode("[0:0:0]ACCELERATION\n1\n2\n3");
    assert_eq!(
        f.data,
        ParsedData::Acceleration { x: text("1"), y: text("2"), z: text("3") }
    );
}

#[test]
fn crlf_line_endings_in_the_body() {
    let f = decode("[0:0:0]SPEED\n4.5\r\n");
    assert_eq!(f.data, ParsedData::Speed { s: text("4.5") });
    let f = decode("[0:0:0]SPEED\r\n4.5\n");
    assert_eq!(f.data, ParsedData::Undefined);
    let f = decode("[0:0:0]SPEED\n4.5\r");
    assert_eq!(f.data, ParsedData::Undefined);
}

#[test]
fn special_float_values() {
    let f = decode("[0:0:0]DIRECTION\ninf\n-Infinity\nNaN\n");
    assert_eq!(
        f.data,
        ParsedData::Direction { x: text("inf"), y: text("-Infinity"), z: text("NaN") }
    );
}

#[test]
fn cut_failures_are_detected() {
    assert!(cuts_timestamp_badly(b"]SPEED\n1\n"));
    assert!(cuts_timestamp_badly("é0:0:0]SPEED\n1\n".as_bytes()));
    assert!(!cuts_timestamp_badly(b"[0:0:0]SPEED\n1\n"));
    assert!(!cuts_timestamp_badly(b"]SPEED"));
    assert!(!cuts_timestamp_badly(b"MSG_START"));
}

#[test]
fn parse_time_reads_three_fields() {
    assert_eq!(parse_time(b"01:02:03.5"), time(1, 2, "03.5"));
    assert_eq!(parse_time(b"+4294967295:0:1e3"), time(4294967295, 0, "1e3"));
    assert_eq!(parse_time(b"1:2:3:4"), None);
}

#[test]
fn parse_time_rejects_malformed_fields() {
    assert_eq!(parse_time(b"4294967296:0:0"), None);
    assert_eq!(parse_time(b"-1:0:0"), None);
    assert_eq!(parse_time(b":0:0"), None);
    assert_eq!(parse_time(b"+:0:0"), None);
    assert_eq!(parse_time(b"1 :0:0"), None);
    assert_eq!(parse_time(b"1:0:"), None);
    assert_eq!(parse_time(b"1:0:x"), None);
    assert_eq!(parse_time(b"1:0"), None);
    assert_eq!(parse_time(b""), None);
}

#[test]
fn documented_format_is_read_back() {
    let cases: Vec<(&str, &str, &str, &str, Vec<&str>)> = vec![
        ("007", "59", "1.5e1", "ACCELERATION", vec!["1", "-2.", ".3"]),
        ("4294967295", "0", "nan", "SPEED", vec!["+INF"]),
        ("23", "01", "00.000", "TRUE POSITION", vec!["8.1", "-3.6", "0.5"]),
        ("0", "0", "0", "DIRECTION", vec!["1E-3", "2e+3", "3"]),
    ];
    for (h, m, s, tag, values) in cases {
        let mut msg = format!("[{}:{}:{}]{}\n", h, m, s, tag);
        for v in &values {
            msg.push_str(v);
            msg.push('\n');
        }
        let f = decode(&msg);
        assert_eq!(f.time, time(h.parse().unwrap(), m.parse().unwrap(), s));
        let t: Vec<Vec<u8>> = values.iter().map(|v| text(v)).collect();
        let expected = match tag {
            "SPEED" => ParsedData::Speed { s: t[0].clone() },
            "TRUE POSITION" => ParsedData::TruePosition { x: t[0].clone(), y: t[1].clone(), z: t[2].clone() },
            "DIRECTION" => ParsedData::Direction { x: t[0].clone(), y: t[1].clone(), z: t[2].clone() },
            _ => ParsedData::Acceleration { x: t[0].clone(), y: t[1].clone(), z: t[2].clone() },
        };
        assert_eq!(f.data, expected);
    }
}

fn numbers_of(f: &Frame) -> Vec<Vec<u8>> {
    let mut out = Vec::new();
    if let Some(t) = &f.time {
        out.push(t.seconds.clone());
    }
    match &f.data {
        ParsedData::TruePosition { x, y, z }
        | ParsedData::Acceleration { x, y, z }
        | ParsedData::Direction { x, y, z } => {
            out.push(x.clone());
            out.push(y.clone());
            out.push(z.clone());
        }
        ParsedData::Speed { s } => out.push(s.clone()),
        _ => {}
    }
    out
}

#[test]
fn decoded_numbers_parse_as_f64() {
    for msg in [
        "[00:00:00.000]TRUE POSITION\n8.087830169543953\n-3.684344480772115\n0.5\n",
        "[1:2:-3e-1]SPEED\n+inf\n",
        "[1:2:x]DIRECTION\n1\n.5\n5.\n",
        "[1:2:3]ACCELERATION\nNaN\n1E9\n-0\r\n",
        "[1:2:3]ACCELERATION\n1\n2\n",
    ] {
        let f = decode(msg);
        for n in numbers_of(&f) {
            let s = std::str::from_utf8(&n).unwrap();
            assert!(s.parse::<f64>().is_ok(), "{}", s);
        }
    }
}
