//! The values that a telemetry datagram decodes to.
//!
//! Every number of the stream is kept as the text that carried it, which is a
//! literal that `f64::from_str` accepts (see `number::is_float_literal`); the
//! float itself is made from that text by the caller.

use vstd::prelude::*;

use crate::number::is_float_literal;

verus! {

/// A timestamp `hours:minutes:seconds` of the stream.
#[derive(Debug, PartialEq, Eq)]
pub struct Time {
    pub hours: u32,
    pub minutes: u32,
    /// The seconds as written, a float literal.
    pub seconds: Vec<u8>,
}

/// What a datagram announces.
#[derive(Debug, PartialEq, Eq)]
pub enum ParsedData {
    MsgStart,
    MsgEnd,
    TruePosition { x: Vec<u8>, y: Vec<u8>, z: Vec<u8> },
    Speed { s: Vec<u8> },
    Acceleration { x: Vec<u8>, y: Vec<u8>, z: Vec<u8> },
    Direction { x: Vec<u8>, y: Vec<u8>, z: Vec<u8> },
    Undefined,
}

/// One decoded datagram: its timestamp, when it has a readable one, and its content.
#[derive(Debug, PartialEq, Eq)]
pub struct Frame {
    pub time: Option<Time>,
    pub data: ParsedData,
}

/// The mathematical value of a `Time`.
pub struct TimeView {
    pub hours: u32,
    pub minutes: u32,
    pub seconds: Seq<u8>,
}

/// The mathematical value of a `ParsedData`.
pub enum DataView {
    MsgStart,
    MsgEnd,
    TruePosition { x: Seq<u8>, y: Seq<u8>, z: Seq<u8> },
    Speed { s: Seq<u8> },
    Acceleration { x: Seq<u8>, y: Seq<u8>, z: Seq<u8> },
    Direction { x: Seq<u8>, y: Seq<u8>, z: Seq<u8> },
    Undefined,
}

/// The mathematical value of a `Frame`.
pub struct FrameView {
    pub time: Option<TimeView>,
    pub data: DataView,
}

impl View for Time {
    type V = TimeView;

    open spec fn view(&self) -> TimeView {
        TimeView { hours: self.hours, minutes: self.minutes, seconds: self.seconds@ }
    }
}

impl View for ParsedData {
    type V = DataView;

    open spec fn view(&self) -> DataView {
        match self {
            ParsedData::MsgStart => DataView::MsgStart,
            ParsedData::MsgEnd => DataView::MsgEnd,
            ParsedData::TruePosition { x, y, z } => DataView::TruePosition { x: x@, y: y@, z: z@ },
            ParsedData::Speed { s } => DataView::Speed { s: s@ },
            ParsedData::Acceleration { x, y, z } => DataView::Acceleration { x: x@, y: y@, z: z@ },
            ParsedData::Direction { x, y, z } => DataView::Direction { x: x@, y: y@, z: z@ },
            ParsedData::Undefined => DataView::Undefined,
        }
    }
}

/// The view of an optional timestamp.
pub open spec fn time_view(t: Option<Time>) -> Option<TimeView> {
    match t {
        Some(t) => Some(t@),
        None => None,
    }
}

impl View for Frame {
    type V = FrameView;

    open spec fn view(&self) -> FrameView {
        FrameView { time: time_view(self.time), data: self.data@ }
    }
}

/// Every number of a content is a float literal.
pub open spec fn data_literals(d: DataView) -> bool {
    match d {
        DataView::TruePosition { x, y, z } => is_float_literal(x) && is_float_literal(y)
            && is_float_literal(z),
        DataView::Acceleration { x, y, z } => is_float_literal(x) && is_float_literal(y)
            && is_float_literal(z),
        DataView::Direction { x, y, z } => is_float_literal(x) && is_float_literal(y)
            && is_float_literal(z),
        DataView::Speed { s } => is_float_literal(s),
        _ => true,
    }
}

/// Every number of a frame, its seconds included, is a float literal.
pub open spec fn frame_literals(f: FrameView) -> bool {
    &&& match f.time {
        Some(t) => is_float_literal(t.seconds),
        None => true,
    }
    &&& data_literals(f.data)
}

} // verus!
