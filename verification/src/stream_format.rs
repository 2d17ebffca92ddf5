//! The datagram format of the telemetry stream, written out, and the law that
//! `parse` reads back what that format carries.

use vstd::prelude::*;
use vstd::utf8::{partial_valid_utf8, partial_valid_utf8_extend_ascii_block, valid_utf8};

use crate::frame::{DataView, FrameView, TimeView};
use crate::number::{
    all_digits, ascii_lower, digit_run, digits_value, is_decimal, is_digit,
    is_exponent_tail, is_float_literal, is_sign, lemma_digit_run_prefix, matches_word,
    spec_parse_u32, unsigned_part, word_inf, word_infinity, word_nan,
};
use crate::scan::{lemma_split_once_concat, lines, next_line, split_once, strip_cr};
use crate::udp_parser::{
    acceleration_tag, direction_tag, msg_end_text, msg_start_text, spec_parse, spec_parse_data,
    spec_parse_time, timestamp_cut_fails, speed_tag, true_position_tag,
};

verus! {

/// The timestamp text `hours:minutes:seconds` from the texts of its three parts.
pub open spec fn timestamp_text(hours: Seq<u8>, minutes: Seq<u8>, seconds: Seq<u8>) -> Seq<u8> {
    hours + seq![':' as u8] + minutes + seq![':' as u8] + seconds
}

/// Each value on a line of its own, every line ended by `\n`.
pub open spec fn value_lines(values: Seq<Seq<u8>>) -> Seq<u8>
    decreases values.len(),
{
    if values.len() == 0 {
        Seq::empty()
    } else {
        values[0] + seq![10u8] + value_lines(values.drop_first())
    }
}

/// A datagram `[stamp]TAG\nvalue\n...` of the stream.
pub open spec fn datagram(stamp: Seq<u8>, tag: Seq<u8>, values: Seq<Seq<u8>>) -> Seq<u8> {
    seq!['[' as u8] + stamp + seq![']' as u8] + tag + seq![10u8] + value_lines(values)
}

/// The headers of the stream, with the number of values that each announces.
pub open spec fn value_count(tag: Seq<u8>) -> int {
    if tag == speed_tag() {
        1
    } else if tag == true_position_tag() || tag == direction_tag() || tag == acceleration_tag() {
        3
    } else {
        0
    }
}

/// The content that a header with its values stands for.
pub open spec fn announced(tag: Seq<u8>, values: Seq<Seq<u8>>) -> DataView {
    if tag == speed_tag() {
        DataView::Speed { s: values[0] }
    } else if tag == true_position_tag() {
        DataView::TruePosition { x: values[0], y: values[1], z: values[2] }
    } else if tag == direction_tag() {
        DataView::Direction { x: values[0], y: values[1], z: values[2] }
    } else {
        DataView::Acceleration { x: values[0], y: values[1], z: values[2] }
    }
}

/// The timestamp that decimal hours and minutes texts and a seconds literal stand for.
pub open spec fn timestamp_value(hours: Seq<u8>, minutes: Seq<u8>, seconds: Seq<u8>) -> TimeView {
    TimeView {
        hours: digits_value(hours) as u32,
        minutes: digits_value(minutes) as u32,
        seconds,
    }
}

/// A byte that a float literal may hold.
pub open spec fn literal_byte(b: u8) -> bool {
    is_digit(b) || is_sign(b) || b == '.' as u8 || (65 <= b <= 90) || (97 <= b <= 122)
}

pub open spec fn bytes_all(s: Seq<u8>, p: spec_fn(u8) -> bool) -> bool {
    forall|i: int| 0 <= i < s.len() ==> #[trigger] p(s[i])
}

proof fn lemma_bytes_all_concat(a: Seq<u8>, b: Seq<u8>, p: spec_fn(u8) -> bool)
    requires
        bytes_all(a, p),
        bytes_all(b, p),
    ensures
        bytes_all(a + b, p),
{
    assert forall|i: int| 0 <= i < (a + b).len() implies #[trigger] p((a + b)[i]) by {
        if i < a.len() {
            assert((a + b)[i] == a[i]);
        } else {
            assert((a + b)[i] == b[i - a.len()]);
        }
    }
}

proof fn lemma_bytes_all_weaken(s: Seq<u8>, p: spec_fn(u8) -> bool, q: spec_fn(u8) -> bool)
    requires
        bytes_all(s, p),
        forall|b: u8| #[trigger] p(b) ==> q(b),
    ensures
        bytes_all(s, q),
{
    assert forall|i: int| 0 <= i < s.len() implies #[trigger] q(s[i]) by {
        assert(p(s[i]));
    }
}

proof fn lemma_word_bytes(u: Seq<u8>, w: Seq<u8>)
    requires
        matches_word(u, w),
        forall|i: int| 0 <= i < w.len() ==> 97 <= #[trigger] w[i] <= 122,
    ensures
        bytes_all(u, |b: u8| literal_byte(b)),
{
    assert forall|i: int| 0 <= i < u.len() implies #[trigger] literal_byte(u[i]) by {
        assert(ascii_lower(u[i]) == w[i]);
    }
}

proof fn lemma_digits_bytes(d: Seq<u8>)
    requires
        all_digits(d),
    ensures
        bytes_all(d, |b: u8| literal_byte(b)),
{
    assert forall|i: int| 0 <= i < d.len() implies #[trigger] literal_byte(d[i]) by {
        assert(is_digit(d[i]));
    }
}

proof fn lemma_unsigned_bytes(s: Seq<u8>)
    requires
        bytes_all(unsigned_part(s), |b: u8| literal_byte(b)),
    ensures
        bytes_all(s, |b: u8| literal_byte(b)),
{
    if s.len() > 0 && is_sign(s[0]) {
        assert(bytes_all(seq![s[0]], |b: u8| literal_byte(b)));
        lemma_bytes_all_concat(seq![s[0]], s.drop_first(), |b: u8| literal_byte(b));
        assert(seq![s[0]] + s.drop_first() =~= s);
    }
}

proof fn lemma_digit_prefix_bytes(s: Seq<u8>)
    ensures
        bytes_all(s.take(digit_run(s) as int), |b: u8| literal_byte(b)),
{
    lemma_digit_run_prefix(s);
    lemma_digits_bytes(s.take(digit_run(s) as int));
}

proof fn lemma_exponent_tail_bytes(t: Seq<u8>)
    requires
        is_exponent_tail(t),
    ensures
        bytes_all(t, |b: u8| literal_byte(b)),
{
    if t.len() > 0 {
        let e = t.drop_first();
        lemma_digits_bytes(unsigned_part(e));
        lemma_unsigned_bytes(e);
        assert(literal_byte(t[0]));
        assert(bytes_all(seq![t[0]], |b: u8| literal_byte(b)));
        lemma_bytes_all_concat(seq![t[0]], e, |b: u8| literal_byte(b));
        assert(seq![t[0]] + e =~= t);
    }
}

proof fn lemma_decimal_bytes(u: Seq<u8>)
    requires
        is_decimal(u),
    ensures
        bytes_all(u, |b: u8| literal_byte(b)),
        u.len() > 0,
{
    let a = digit_run(u) as int;
    lemma_digit_run_prefix(u);
    lemma_digit_prefix_bytes(u);
    let r = u.skip(a);
    assert(u.take(a) + r =~= u);
    if r.len() > 0 && r[0] == '.' as u8 {
        let f = r.drop_first();
        let b = digit_run(f) as int;
        lemma_digit_run_prefix(f);
        lemma_digit_prefix_bytes(f);
        let t = r.skip(1 + b);
        lemma_exponent_tail_bytes(t);
        assert(f.take(b) + t =~= f);
        lemma_bytes_all_concat(f.take(b), t, |x: u8| literal_byte(x));
        assert(bytes_all(seq![r[0]], |x: u8| literal_byte(x)));
        lemma_bytes_all_concat(seq![r[0]], f, |x: u8| literal_byte(x));
        assert(seq![r[0]] + f =~= r);
    } else {
        lemma_exponent_tail_bytes(r);
    }
    lemma_bytes_all_concat(u.take(a), r, |x: u8| literal_byte(x));
}

/// Every byte of a float literal is a digit, a sign, a point or an ASCII letter,
/// and a literal is never empty.
pub proof fn lemma_float_literal_bytes(s: Seq<u8>)
    requires
        is_float_literal(s),
    ensures
        s.len() > 0,
        bytes_all(s, |b: u8| literal_byte(b)),
{
    let u = unsigned_part(s);
    if matches_word(u, word_inf()) {
        lemma_word_bytes(u, word_inf());
    } else if matches_word(u, word_infinity()) {
        lemma_word_bytes(u, word_infinity());
    } else if matches_word(u, word_nan()) {
        lemma_word_bytes(u, word_nan());
    } else {
        lemma_decimal_bytes(u);
    }
    lemma_unsigned_bytes(s);
}

/// The lines of `value_lines(values)` are the values, where no value is empty,
/// holds a `\n` or ends in `\r`.
pub proof fn lemma_lines_of_values(values: Seq<Seq<u8>>)
    requires
        forall|k: int|
            0 <= k < values.len() ==> {
                &&& (#[trigger] values[k]).len() > 0
                &&& forall|i: int| 0 <= i < values[k].len() ==> values[k][i] != 10
                &&& values[k].last() != 13
            },
    ensures
        lines(value_lines(values)) == values,
    decreases values.len(),
{
    if values.len() == 0 {
        assert(lines(value_lines(values)) =~= values);
    } else {
        let v = values[0];
        let rest = values.drop_first();
        assert forall|k: int| 0 <= k < rest.len() implies {
            &&& (#[trigger] rest[k]).len() > 0
            &&& forall|i: int| 0 <= i < rest[k].len() ==> rest[k][i] != 10
            &&& rest[k].last() != 13
        } by {
            assert(rest[k] == values[k + 1]);
        }
        lemma_lines_of_values(rest);
        let s = value_lines(values);
        assert(values[0].len() > 0);
        lemma_split_once_concat(v, 10, value_lines(rest));
        assert(strip_cr(v) == v);
        assert(next_line(s) == Some((v, value_lines(rest))));
        assert(lines(s) =~= seq![v] + lines(value_lines(rest)));
        assert(seq![v] + rest =~= values);
    }
}

/// ASCII text is UTF-8.
pub proof fn lemma_ascii_is_utf8(s: Seq<u8>)
    requires
        bytes_all(s, |b: u8| b < 0x80),
    ensures
        valid_utf8(s),
{
    assert(s.subrange(0, 0) =~= Seq::<u8>::empty());
    assert(partial_valid_utf8(s, 0));
    assert forall|i: int| 0 <= 0 <= i < s.len() <= s.len() implies #[trigger]
        vstd::utf8::is_leading_byte_width_1(s[i]) by {
        assert((|b: u8| b < 0x80)(s[i]));
    }
    partial_valid_utf8_extend_ascii_block(s, 0, s.len() as int);
    assert(s.subrange(0, s.len() as int) =~= s);
}

/// A byte that may stand in the first line of a datagram before its `]`.
pub open spec fn stamp_byte(b: u8) -> bool {
    b < 0x80 && b != 10 && b != ']' as u8
}

proof fn lemma_literal_is_stamp_byte(s: Seq<u8>)
    requires
        is_float_literal(s),
    ensures
        bytes_all(s, |b: u8| stamp_byte(b)),
{
    lemma_float_literal_bytes(s);
    lemma_bytes_all_weaken(s, |b: u8| literal_byte(b), |b: u8| stamp_byte(b));
}

proof fn lemma_digits_are_stamp_bytes(d: Seq<u8>)
    requires
        all_digits(d),
    ensures
        bytes_all(d, |b: u8| stamp_byte(b)),
        forall|i: int| 0 <= i < d.len() ==> d[i] != ':' as u8,
{
    assert forall|i: int| 0 <= i < d.len() implies #[trigger] stamp_byte(d[i]) by {
        assert(is_digit(d[i]));
    }
    assert forall|i: int| 0 <= i < d.len() implies d[i] != ':' as u8 by {
        assert(is_digit(d[i]));
    }
}

/// The headers of the stream are ASCII text without line break or `]`.
proof fn lemma_tag_bytes(tag: Seq<u8>)
    requires
        value_count(tag) > 0,
    ensures
        bytes_all(tag, |b: u8| stamp_byte(b)),
{
    assert forall|i: int| 0 <= i < tag.len() implies #[trigger] stamp_byte(tag[i]) by {
        assert(65 <= tag[i] <= 90 || tag[i] == 32);
    }
}

/// `parse_time` reads back the parts of a timestamp written as
/// `hours:minutes:seconds`, the hours and minutes in decimal digits.
pub proof fn lemma_parse_time_reads_timestamp(hours: Seq<u8>, minutes: Seq<u8>, seconds: Seq<u8>)
    requires
        hours.len() > 0,
        all_digits(hours),
        digits_value(hours) <= u32::MAX,
        minutes.len() > 0,
        all_digits(minutes),
        digits_value(minutes) <= u32::MAX,
        is_float_literal(seconds),
    ensures
        spec_parse_time(timestamp_text(hours, minutes, seconds)) == Some(
            timestamp_value(hours, minutes, seconds),
        ),
{
    let colon = ':' as u8;
    let rest = minutes + seq![colon] + seconds;
    lemma_digits_are_stamp_bytes(hours);
    lemma_digits_are_stamp_bytes(minutes);
    assert(timestamp_text(hours, minutes, seconds) =~= hours + seq![colon] + rest);
    lemma_split_once_concat(hours, colon, rest);
    lemma_split_once_concat(minutes, colon, seconds);
    assert(is_digit(hours[0]));
    assert(is_digit(minutes[0]));
    assert(spec_parse_u32(hours) == Some(digits_value(hours) as u32));
    assert(spec_parse_u32(minutes) == Some(digits_value(minutes) as u32));
}

proof fn lemma_value_lines_ascii(values: Seq<Seq<u8>>)
    requires
        forall|k: int| 0 <= k < values.len() ==> is_float_literal(#[trigger] values[k]),
    ensures
        bytes_all(value_lines(values), |b: u8| b < 0x80),
    decreases values.len(),
{
    if values.len() > 0 {
        let rest = values.drop_first();
        assert forall|k: int| 0 <= k < rest.len() implies is_float_literal(#[trigger] rest[k]) by {
            assert(rest[k] == values[k + 1]);
        }
        lemma_value_lines_ascii(rest);
        assert(is_float_literal(values[0]));
        lemma_literal_is_stamp_byte(values[0]);
        lemma_bytes_all_weaken(values[0], |b: u8| stamp_byte(b), |b: u8| b < 0x80);
        assert(bytes_all(seq![10u8], |b: u8| b < 0x80));
        lemma_bytes_all_concat(values[0], seq![10u8], |b: u8| b < 0x80);
        lemma_bytes_all_concat(values[0] + seq![10u8], value_lines(rest), |b: u8| b < 0x80);
    }
}

/// The stream's documented datagram format is read back exactly: a datagram
/// `[hours:minutes:seconds]HEADER\n` followed by the values that `HEADER`
/// announces, one per line, decodes to the timestamp with those hours, minutes
/// and seconds and to the content announced with those values; and decoding it
/// never fails on the timestamp.
pub proof fn lemma_parse_reads_datagram(
    hours: Seq<u8>,
    minutes: Seq<u8>,
    seconds: Seq<u8>,
    tag: Seq<u8>,
    values: Seq<Seq<u8>>,
)
    requires
        hours.len() > 0,
        all_digits(hours),
        digits_value(hours) <= u32::MAX,
        minutes.len() > 0,
        all_digits(minutes),
        digits_value(minutes) <= u32::MAX,
        is_float_literal(seconds),
        value_count(tag) > 0,
        values.len() == value_count(tag),
        forall|k: int| 0 <= k < values.len() ==> is_float_literal(#[trigger] values[k]),
    ensures
        !timestamp_cut_fails(datagram(timestamp_text(hours, minutes, seconds), tag, values)),
        spec_parse(datagram(timestamp_text(hours, minutes, seconds), tag, values)) == (FrameView {
            time: Some(timestamp_value(hours, minutes, seconds)),
            data: announced(tag, values),
        }),
        spec_parse(datagram(timestamp_text(hours, minutes, seconds), tag, values)).time == Some(
            (TimeView {
                hours: digits_value(hours) as u32,
                minutes: digits_value(minutes) as u32,
                seconds: seconds,
            }),
        ),
        tag == speed_tag() ==> spec_parse(
            datagram(timestamp_text(hours, minutes, seconds), tag, values),
        ).data == (DataView::Speed { s: values[0] }),
        tag == true_position_tag() ==> spec_parse(
            datagram(timestamp_text(hours, minutes, seconds), tag, values),
        ).data == (DataView::TruePosition { x: values[0], y: values[1], z: values[2] }),
        tag == direction_tag() ==> spec_parse(
            datagram(timestamp_text(hours, minutes, seconds), tag, values),
        ).data == (DataView::Direction { x: values[0], y: values[1], z: values[2] }),
        tag == acceleration_tag() ==> spec_parse(
            datagram(timestamp_text(hours, minutes, seconds), tag, values),
        ).data == (DataView::Acceleration { x: values[0], y: values[1], z: values[2] }),
{
    assert(true_position_tag().len() == 13);
    assert(direction_tag().len() == 9);
    assert(acceleration_tag().len() == 12);
    assert(speed_tag().len() == 5);
    let stamp = timestamp_text(hours, minutes, seconds);
    let d = datagram(stamp, tag, values);
    let vl = value_lines(values);
    let time = seq!['[' as u8] + stamp;
    let header = time + seq![']' as u8] + tag;

    // The first line holds no line break, and the timestamp part no `]`.
    lemma_digits_are_stamp_bytes(hours);
    lemma_digits_are_stamp_bytes(minutes);
    lemma_literal_is_stamp_byte(seconds);
    let colon = seq![':' as u8];
    assert(bytes_all(colon, |b: u8| stamp_byte(b)));
    lemma_bytes_all_concat(hours, colon, |b: u8| stamp_byte(b));
    lemma_bytes_all_concat(hours + colon, minutes, |b: u8| stamp_byte(b));
    lemma_bytes_all_concat(hours + colon + minutes, colon, |b: u8| stamp_byte(b));
    lemma_bytes_all_concat(hours + colon + minutes + colon, seconds, |b: u8| stamp_byte(b));
    assert(bytes_all(seq!['[' as u8], |b: u8| stamp_byte(b)));
    lemma_bytes_all_concat(seq!['[' as u8], stamp, |b: u8| stamp_byte(b));
    assert forall|i: int| 0 <= i < time.len() implies time[i] != ']' as u8 by {
        assert((|b: u8| stamp_byte(b))(time[i]));
    }
    lemma_split_once_concat(time, ']' as u8, tag);
    lemma_tag_bytes(tag);
    let close = seq![']' as u8];
    assert(bytes_all(close, |b: u8| b < 0x80 && b != 10));
    lemma_bytes_all_weaken(time, |b: u8| stamp_byte(b), |b: u8| b < 0x80 && b != 10);
    lemma_bytes_all_weaken(tag, |b: u8| stamp_byte(b), |b: u8| b < 0x80 && b != 10);
    lemma_bytes_all_concat(time, close, |b: u8| b < 0x80 && b != 10);
    lemma_bytes_all_concat(time + close, tag, |b: u8| b < 0x80 && b != 10);
    assert forall|i: int| 0 <= i < header.len() implies header[i] != 10 by {
        assert((|b: u8| b < 0x80 && b != 10)(header[i]));
    }
    assert(d =~= header + seq![10u8] + vl);
    lemma_split_once_concat(header, 10, vl);

    // The datagram is ASCII, hence UTF-8, and is neither stream marker.
    lemma_value_lines_ascii(values);
    let nl = seq![10u8];
    assert(bytes_all(nl, |b: u8| b < 0x80));
    lemma_bytes_all_weaken(header, |b: u8| b < 0x80 && b != 10, |b: u8| b < 0x80);
    lemma_bytes_all_concat(header, nl, |b: u8| b < 0x80);
    lemma_bytes_all_concat(header + nl, vl, |b: u8| b < 0x80);
    lemma_ascii_is_utf8(d);
    assert(d[0] == '[' as u8);
    assert(msg_start_text()[0] == 'M' as u8);
    assert(msg_end_text()[0] == 'M' as u8);

    // The timestamp.
    assert(time.drop_first() =~= stamp);
    lemma_parse_time_reads_timestamp(hours, minutes, seconds);

    // The values.
    assert forall|k: int| 0 <= k < values.len() implies {
        &&& (#[trigger] values[k]).len() > 0
        &&& forall|i: int| 0 <= i < values[k].len() ==> values[k][i] != 10
        &&& values[k].last() != 13
    } by {
        lemma_literal_is_stamp_byte(values[k]);
        assert forall|i: int| 0 <= i < values[k].len() implies values[k][i] != 10 by {
            assert((|b: u8| stamp_byte(b))(values[k][i]));
        }
        lemma_float_literal_bytes(values[k]);
        assert((|b: u8| literal_byte(b))(values[k][values[k].len() - 1]));
    }
    lemma_lines_of_values(values);
    assert(spec_parse_data(tag, vl) == announced(tag, values));
}

/// The markers decode from exactly the texts `MSG_START` and `MSG_END` and carry
/// no timestamp; text that is not UTF-8, or is no marker and has no line break,
/// or whose first line has no `]`, decodes to nothing: no timestamp, content
/// `Undefined`.
pub proof fn lemma_markers_and_unreadable_text(data: Seq<u8>)
    ensures
        (spec_parse(data).data is MsgStart) <==> data == msg_start_text(),
        (spec_parse(data).data is MsgEnd) <==> data == msg_end_text(),
        (data == msg_start_text() || data == msg_end_text()) ==> spec_parse(data).time is None,
        !valid_utf8(data) ==> spec_parse(data).time is None && (spec_parse(data).data is Undefined),
        (data != msg_start_text() && data != msg_end_text() && forall|i: int|
            0 <= i < data.len() ==> data[i] != 10) ==> spec_parse(data).time is None && (spec_parse(
            data,
        ).data is Undefined),
        (data != msg_start_text() && data != msg_end_text() && forall|i: int|
            0 <= i < data.len() ==> data[i] != ']' as u8) ==> spec_parse(data).time is None && (
        spec_parse(data).data is Undefined),
{
    assert(bytes_all(msg_start_text(), |b: u8| b < 0x80));
    assert(bytes_all(msg_end_text(), |b: u8| b < 0x80));
    lemma_ascii_is_utf8(msg_start_text());
    lemma_ascii_is_utf8(msg_end_text());
    assert(msg_start_text() != msg_end_text()) by {
        assert(msg_start_text().len() != msg_end_text().len());
    }
    crate::scan::lemma_index_of(data, 10);
    if let Some((header, body)) = split_once(data, 10) {
        crate::scan::lemma_index_of(header, ']' as u8);
        if let Some((time, tag)) = split_once(header, ']' as u8) {
            let k = crate::scan::index_of(header, ']' as u8)->0;
            assert(header[k] == data[k]);
        }
    }
}

} // verus!
