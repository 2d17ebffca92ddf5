use ft_kalman::udp_parser::{parse, process_parsing};
use ft_kalman::{Frame, ParsedData, Report, Time, VehicleData};

fn text(s: &str) -> Vec<u8> {
    s.as_bytes().to_vec()
}

fn zero_time() -> Time {
    Time { hours: 0, minutes: 0, seconds: text("0.") }
}

fn fresh() -> VehicleData {
    VehicleData {
        true_position: (text("-1."), text("-1."), text("-1.")),
        initial_speed: text("-1."),
        acceleration: (text("-1."), text("-1."), text("-1.")),
        direction: (text("-1."), text("-1."), text("-1.")),
        time: zero_time(),
        previous_time: zero_time(),
    }
}

#[test]
fn markers_are_reported_and_change_nothing() {
    let mut v = fresh();
    assert_eq!(process_parsing(&mut v, parse(b"MSG_START")), Report::MessageStarted);
    assert_eq!(v, fresh());
    assert_eq!(process_parsing(&mut v, parse(b"MSG_END")), Report::MessageEnded);
    assert_eq!(v, fresh());
    assert_eq!(process_parsing(&mut v, parse(b"garbage")), Report::UndefinedEntry);
    assert_eq!(v, fresh());
}

#[test]
fn readings_are_stored() {
    let mut v = fresh();
    let r = process_parsing(&mut v, parse(b"[0:0:1.5]TRUE POSITION\n1\n2\n3\n"));
    assert_eq!(r, Report::Updated);
    assert_eq!(v.true_position, (text("1"), text("2"), text("3")));
    assert_eq!(v.time, Time { hours: 0, minutes: 0, seconds: text("1.5") });
    assert_eq!(v.previous_time, zero_time());

    process_parsing(&mut v, parse(b"[0:0:2.5]SPEED\n54.3\n"));
    assert_eq!(v.initial_speed, text("54.3"));
    assert_eq!(v.time, Time { hours: 0, minutes: 0, seconds: text("2.5") });
    assert_eq!(v.previous_time, Time { hours: 0, minutes: 0, seconds: text("1.5") });

    process_parsing(&mut v, parse(b"[0:0:3]ACCELERATION\n4\n5\n6\n"));
    assert_eq!(v.acceleration, (text("4"), text("5"), text("6")));
    process_parsing(&mut v, parse(b"[0:0:4]DIRECTION\n7\n8\n9\n"));
    assert_eq!(v.direction, (text("7"), text("8"), text("9")));
    assert_eq!(v.true_position, (text("1"), text("2"), text("3")));
    assert_eq!(v.previous_time, Time { hours: 0, minutes: 0, seconds: text("3") });
}

#[test]
fn undefined_data_with_time_moves_the_clock() {
    let mut v = fresh();
    let r = process_parsing(&mut v, parse(b"[1:2:3]UNKNOWN\n"));
    assert_eq!(r, Report::UndefinedEntry);
    assert_eq!(v.time, Time { hours: 1, minutes: 2, seconds: text("3") });
    assert_eq!(v.previous_time, zero_time());
    assert_eq!(v.direction, fresh().direction);
}

#[test]
fn frame_without_time_keeps_the_clock() {
    let mut v = fresh();
    let f = Frame { time: None, data: ParsedData::Speed { s: text("9") } };
    assert_eq!(process_parsing(&mut v, f), Report::Updated);
    assert_eq!(v.initial_speed, text("9"));
    assert_eq!(v.time, zero_time());
}

#[test]
fn readings_stay_float_literals() {
    let mut v = fresh();
    for msg in [
        "MSG_START",
        "[0:0:0.01]TRUE POSITION\n1\n2e3\n-inf\n",
        "[0:0:0.02]SPEED\n.5\n",
        "[0:0:0.03]DIRECTION\nnan\n0\n0\n",
        "[0:0:0.04]ACCELERATION\n1\n1\n1\n",
        "bad",
        "MSG_END",
    ] {
        process_parsing(&mut v, parse(msg.as_bytes()));
        let texts = [
            &v.true_position.0, &v.true_position.1, &v.true_position.2, &v.initial_speed,
            &v.acceleration.0, &v.acceleration.1, &v.acceleration.2, &v.direction.0,
            &v.direction.1, &v.direction.2, &v.time.seconds, &v.previous_time.seconds,
        ];
        for t in texts {
            assert!(std::str::from_utf8(t).unwrap().parse::<f64>().is_ok());
        }
    }
}
