//! Decoding the datagrams of the telemetry stream.
//!
//! A stream opens with `MSG_START`, closes with `MSG_END`, and in between
//! carries datagrams of the form
//! `[hh:mm:ss.sss]HEADER\nvalue\n...`, where `HEADER` is one of
//! `TRUE POSITION`, `DIRECTION`, `ACCELERATION` (three values) or `SPEED`
//! (one value), one value per line.

use vstd::prelude::*;
use vstd::slice::{slice_subrange, slice_to_vec};
use vstd::utf8::{
    is_char_boundary, is_char_boundary_iff_not_is_continuation_byte, valid_utf8, valid_utf8_split,
};

use crate::frame::{DataView, Frame, FrameView, ParsedData, Time, TimeView, frame_literals};
use crate::number::{float_literal, is_float_literal, parse_u32, spec_parse_u32};
use crate::scan::{
    bytes_equal, index_of, lemma_index_of, lines, next_line_of, split_once, split_once_at,
};
use crate::utf8_text::is_utf8;

pub use crate::vehicle::process_parsing;

verus! {

/// The datagram that opens a message: `MSG_START`.
pub open spec fn msg_start_text() -> Seq<u8> {
    seq![
        'M' as u8, 'S' as u8, 'G' as u8, '_' as u8, 'S' as u8, 'T' as u8, 'A' as u8, 'R' as u8,
        'T' as u8,
    ]
}

/// The datagram that closes a message: `MSG_END`.
pub open spec fn msg_end_text() -> Seq<u8> {
    seq!['M' as u8, 'S' as u8, 'G' as u8, '_' as u8, 'E' as u8, 'N' as u8, 'D' as u8]
}

/// The header `TRUE POSITION`.
pub open spec fn true_position_tag() -> Seq<u8> {
    seq![
        'T' as u8, 'R' as u8, 'U' as u8, 'E' as u8, ' ' as u8, 'P' as u8, 'O' as u8, 'S' as u8,
        'I' as u8, 'T' as u8, 'I' as u8, 'O' as u8, 'N' as u8,
    ]
}

/// The header `DIRECTION`.
pub open spec fn direction_tag() -> Seq<u8> {
    seq![
        'D' as u8, 'I' as u8, 'R' as u8, 'E' as u8, 'C' as u8, 'T' as u8, 'I' as u8, 'O' as u8,
        'N' as u8,
    ]
}

/// The header `ACCELERATION`.
pub open spec fn acceleration_tag() -> Seq<u8> {
    seq![
        'A' as u8, 'C' as u8, 'C' as u8, 'E' as u8, 'L' as u8, 'E' as u8, 'R' as u8, 'A' as u8,
        'T' as u8, 'I' as u8, 'O' as u8, 'N' as u8,
    ]
}

/// The header `SPEED`.
pub open spec fn speed_tag() -> Seq<u8> {
    seq!['S' as u8, 'P' as u8, 'E' as u8, 'E' as u8, 'D' as u8]
}

/// The `k`-th line of a body, where there is one and it is a float literal.
pub open spec fn spec_field(ls: Seq<Seq<u8>>, k: int) -> Option<Seq<u8>> {
    if 0 <= k < ls.len() && is_float_literal(ls[k]) {
        Some(ls[k])
    } else {
        None
    }
}

/// The content that a header announces, read from the lines of the body that
/// follows it; `Undefined` for an unknown header or a missing or unreadable value.
pub open spec fn spec_parse_data(tag: Seq<u8>, body: Seq<u8>) -> DataView {
    let ls = lines(body);
    if tag == true_position_tag() || tag == direction_tag() || tag == acceleration_tag() {
        match (spec_field(ls, 0), spec_field(ls, 1), spec_field(ls, 2)) {
            (Some(x), Some(y), Some(z)) => if tag == true_position_tag() {
                DataView::TruePosition { x, y, z }
            } else if tag == direction_tag() {
                DataView::Direction { x, y, z }
            } else {
                DataView::Acceleration { x, y, z }
            },
            _ => DataView::Undefined,
        }
    } else if tag == speed_tag() {
        match spec_field(ls, 0) {
            Some(s) => DataView::Speed { s },
            None => DataView::Undefined,
        }
    } else {
        DataView::Undefined
    }
}

/// The timestamp written as `hours:minutes:seconds`: the text before the first
/// `:` as a `u32`, the text up to the next `:` as a `u32`, the rest as a float.
pub open spec fn spec_parse_time(t: Seq<u8>) -> Option<TimeView> {
    match split_once(t, ':' as u8) {
        None => None,
        Some((h, rest)) => match split_once(rest, ':' as u8) {
            None => None,
            Some((m, sec)) => match (spec_parse_u32(h), spec_parse_u32(m)) {
                (Some(hours), Some(minutes)) => if is_float_literal(sec) {
                    Some(TimeView { hours, minutes, seconds: sec })
                } else {
                    None
                },
                _ => None,
            },
        },
    }
}

/// The frame of a datagram that cannot be read.
pub open spec fn undefined_frame() -> FrameView {
    FrameView { time: None, data: DataView::Undefined }
}

/// The frame that a datagram decodes to.
///
/// Bytes that are not UTF-8 give the undefined frame; so does text without a
/// line break, or whose first line has no `]`. Otherwise the text before the
/// `]` less its first byte is the timestamp, the rest of the first line the
/// header, and the lines after it the values.
pub open spec fn spec_parse(data: Seq<u8>) -> FrameView {
    if !valid_utf8(data) {
        undefined_frame()
    } else if data == msg_start_text() {
        FrameView { time: None, data: DataView::MsgStart }
    } else if data == msg_end_text() {
        FrameView { time: None, data: DataView::MsgEnd }
    } else {
        match split_once(data, 10) {
            None => undefined_frame(),
            Some((header, body)) => match split_once(header, ']' as u8) {
                None => undefined_frame(),
                Some((time, tag)) => FrameView {
                    time: spec_parse_time(time.drop_first()),
                    data: spec_parse_data(tag, body),
                },
            },
        }
    }
}

/// The datagrams on which cutting the first character off the timestamp text
/// fails: the text before `]` is empty, or its first byte is not ASCII, so that
/// byte 1 is no character boundary.
pub open spec fn timestamp_cut_fails(data: Seq<u8>) -> bool {
    &&& valid_utf8(data)
    &&& data != msg_start_text()
    &&& data != msg_end_text()
    &&& match split_once(data, 10) {
        None => false,
        Some((header, body)) => match split_once(header, ']' as u8) {
            None => false,
            Some((time, tag)) => time.len() == 0 || time[0] >= 0x80,
        },
    }
}

/// In UTF-8 text, byte 1 is a character boundary exactly when the text starts with
/// an ASCII character.
pub proof fn lemma_boundary_after_first_byte(t: Seq<u8>)
    requires
        valid_utf8(t),
    ensures
        is_char_boundary(t, 1) <==> (t.len() > 0 && t[0] < 0x80),
{
    if t.len() > 0 {
        reveal_with_fuel(is_char_boundary, 2);
    }
}

/// Splitting UTF-8 text at an ASCII byte leaves UTF-8 text before it.
proof fn lemma_utf8_before_ascii(s: Seq<u8>, c: u8)
    requires
        valid_utf8(s),
        c < 0x80,
        split_once(s, c) is Some,
    ensures
        match split_once(s, c) {
            Some((before, after)) => valid_utf8(before),
            None => true,
        },
{
    lemma_index_of(s, c);
    let i = index_of(s, c)->0;
    is_char_boundary_iff_not_is_continuation_byte(s, i);
    valid_utf8_split(s, i);
}

/// The datagrams that `parse` leaves out are exactly those on which the
/// timestamp text, the text before `]` less its first character, cannot be cut
/// out of the string because byte 1 of the text before `]` is no character boundary.
pub proof fn lemma_timestamp_cut_fails_exactly(data: Seq<u8>)
    ensures
        timestamp_cut_fails(data) == {
            &&& valid_utf8(data)
            &&& data != msg_start_text()
            &&& data != msg_end_text()
            &&& match split_once(data, 10) {
                None => false,
                Some((header, body)) => match split_once(header, ']' as u8) {
                    None => false,
                    Some((time, tag)) => !is_char_boundary(time, 1),
                },
            }
        },
{
    if valid_utf8(data) {
        if let Some((header, body)) = split_once(data, 10) {
            lemma_utf8_before_ascii(data, 10);
            if let Some((time, tag)) = split_once(header, ']' as u8) {
                lemma_utf8_before_ascii(header, ']' as u8);
                lemma_boundary_after_first_byte(time);
            }
        }
    }
}

/// Every number that a decoded frame holds is text that `f64::from_str` accepts.
pub proof fn lemma_decoded_numbers_are_literals(data: Seq<u8>)
    ensures
        frame_literals(spec_parse(data)),
{
}

/// Whether `data` is a datagram on which cutting the first character off the
/// timestamp text fails (see `timestamp_cut_fails`); `parse` takes every other one.
pub fn cuts_timestamp_badly(data: &[u8]) -> (r: bool)
    ensures
        r == timestamp_cut_fails(data@),
{
    if !is_utf8(data) {
        return false;
    }
    let msg_start: Vec<u8> = vec![77, 83, 71, 95, 83, 84, 65, 82, 84];
    let msg_end: Vec<u8> = vec![77, 83, 71, 95, 69, 78, 68];
    assert(msg_start@ =~= msg_start_text());
    assert(msg_end@ =~= msg_end_text());
    if bytes_equal(data, msg_start.as_slice()) || bytes_equal(data, msg_end.as_slice()) {
        return false;
    }
    let header = match split_once_at(data, 10) {
        Some((header, _)) => header,
        None => return false,
    };
    match split_once_at(header, ']' as u8) {
        Some((time, _)) => time.len() == 0 || time[0] >= 0x80,
        None => false,
    }
}

/// Reads `hours:minutes:seconds`.
pub fn parse_time(time_text: &[u8]) -> (r: Option<Time>)
    ensures
        match r {
            Some(t) => spec_parse_time(time_text@) == Some(t@),
            None => spec_parse_time(time_text@) is None,
        },
{
    let (hour, rest) = match split_once_at(time_text, ':' as u8) {
        Some(p) => p,
        None => return None,
    };
    let (minute, second) = match split_once_at(rest, ':' as u8) {
        Some(p) => p,
        None => return None,
    };
    let hours = match parse_u32(hour) {
        Some(h) => h,
        None => return None,
    };
    let minutes = match parse_u32(minute) {
        Some(m) => m,
        None => return None,
    };
    if !float_literal(second) {
        return None;
    }
    Some(Time { hours, minutes, seconds: slice_to_vec(second) })
}

/// The next line of a body as a value: `Some` where the line exists and is a
/// float literal. The rest of the body comes back either way.
fn next_field<'a>(body: &'a [u8]) -> (r: (Option<Vec<u8>>, &'a [u8]))
    ensures
        match r.0 {
            Some(v) => spec_field(lines(body@), 0) == Some(v@),
            None => spec_field(lines(body@), 0) is None,
        },
        lines(r.1@) == if lines(body@).len() > 0 {
            lines(body@).drop_first()
        } else {
            lines(body@)
        },
{
    match next_line_of(body) {
        None => {
            assert(lines(body@) =~= Seq::<Seq<u8>>::empty());
            (None, body)
        },
        Some((line, rest)) => {
            assert(lines(body@) =~= seq![line@] + lines(rest@));
            assert(lines(body@).drop_first() =~= lines(rest@));
            if float_literal(line) {
                (Some(slice_to_vec(line)), rest)
            } else {
                (None, rest)
            }
        },
    }
}

/// The first three lines of a body as values, where all three are readable.
fn three_fields(body: &[u8]) -> (r: Option<(Vec<u8>, Vec<u8>, Vec<u8>)>)
    ensures
        match r {
            Some((x, y, z)) => {
                &&& spec_field(lines(body@), 0) == Some(x@)
                &&& spec_field(lines(body@), 1) == Some(y@)
                &&& spec_field(lines(body@), 2) == Some(z@)
            },
            None => spec_field(lines(body@), 0) is None || spec_field(lines(body@), 1) is None
                || spec_field(lines(body@), 2) is None,
        },
{
    let ghost ls = lines(body@);
    let (x, rest1) = next_field(body);
    let (y, rest2) = next_field(rest1);
    let (z, _rest3) = next_field(rest2);
    proof {
        if ls.len() > 0 {
            assert(spec_field(lines(rest1@), 0) == spec_field(ls, 1));
            if ls.len() > 1 {
                assert(spec_field(lines(rest2@), 0) == spec_field(ls, 2));
            }
        }
    }
    match (x, y, z) {
        (Some(x), Some(y), Some(z)) => Some((x, y, z)),
        _ => None,
    }
}

/// The content that a header announces.
fn parse_data(tag: &[u8], body: &[u8]) -> (d: ParsedData)
    ensures
        d@ == spec_parse_data(tag@, body@),
{
    let true_position: Vec<u8> = vec![84, 82, 85, 69, 32, 80, 79, 83, 73, 84, 73, 79, 78];
    let direction: Vec<u8> = vec![68, 73, 82, 69, 67, 84, 73, 79, 78];
    let acceleration: Vec<u8> = vec![65, 67, 67, 69, 76, 69, 82, 65, 84, 73, 79, 78];
    let speed: Vec<u8> = vec![83, 80, 69, 69, 68];
    assert(true_position@ =~= true_position_tag());
    assert(direction@ =~= direction_tag());
    assert(acceleration@ =~= acceleration_tag());
    assert(speed@ =~= speed_tag());
    if bytes_equal(tag, true_position.as_slice()) {
        match three_fields(body) {
            Some((x, y, z)) => ParsedData::TruePosition { x, y, z },
            None => ParsedData::Undefined,
        }
    } else if bytes_equal(tag, direction.as_slice()) {
        match three_fields(body) {
            Some((x, y, z)) => ParsedData::Direction { x, y, z },
            None => ParsedData::Undefined,
        }
    } else if bytes_equal(tag, acceleration.as_slice()) {
        match three_fields(body) {
            Some((x, y, z)) => ParsedData::Acceleration { x, y, z },
            None => ParsedData::Undefined,
        }
    } else if bytes_equal(tag, speed.as_slice()) {
        match next_field(body) {
            (Some(s), _) => ParsedData::Speed { s },
            (None, _) => ParsedData::Undefined,
        }
    } else {
        ParsedData::Undefined
    }
}

fn undefined() -> (f: Frame)
    ensures
        f@ == undefined_frame(),
{
    Frame { time: None, data: ParsedData::Undefined }
}

/// Decodes one datagram of the stream.
pub fn parse(data: &[u8]) -> (f: Frame)
    requires
        !timestamp_cut_fails(data@),
    ensures
        f@ == spec_parse(data@),
{
    if !is_utf8(data) {
        return undefined();
    }
    let msg_start: Vec<u8> = vec![77, 83, 71, 95, 83, 84, 65, 82, 84];
    let msg_end: Vec<u8> = vec![77, 83, 71, 95, 69, 78, 68];
    assert(msg_start@ =~= msg_start_text());
    assert(msg_end@ =~= msg_end_text());
    if bytes_equal(data, msg_start.as_slice()) {
        return Frame { time: None, data: ParsedData::MsgStart };
    }
    if bytes_equal(data, msg_end.as_slice()) {
        return Frame { time: None, data: ParsedData::MsgEnd };
    }
    let (header, body) = match split_once_at(data, 10) {
        Some(p) => p,
        None => return undefined(),
    };
    let (time, tag) = match split_once_at(header, ']' as u8) {
        Some(p) => p,
        None => return undefined(),
    };
    let time_text = slice_subrange(time, 1, time.len());
    assert(time_text@ =~= time@.drop_first());
    let current_time = parse_time(time_text);
    let content = parse_data(tag, body);
    Frame { time: current_time, data: content }
}

} // verus!
