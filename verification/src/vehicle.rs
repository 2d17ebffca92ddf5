//! The vehicle's latest readings, as the datagrams of the stream update them.

use vstd::prelude::*;

use crate::frame::{
    DataView, Frame, FrameView, ParsedData, Time, TimeView, frame_literals, time_view,
};
use crate::number::is_float_literal;

verus! {

/// The latest value of each reading, each number kept as the float literal
/// that carried it.
#[derive(Debug, PartialEq, Eq)]
pub struct VehicleData {
    pub true_position: (Vec<u8>, Vec<u8>, Vec<u8>),
    pub initial_speed: Vec<u8>,
    pub acceleration: (Vec<u8>, Vec<u8>, Vec<u8>),
    pub direction: (Vec<u8>, Vec<u8>, Vec<u8>),
    /// The timestamp of the latest timestamped datagram.
    pub time: Time,
    /// The timestamp before it; the time step is `time` less `previous_time`.
    pub previous_time: Time,
}

/// The mathematical value of a `VehicleData`.
pub struct VehicleView {
    pub true_position: (Seq<u8>, Seq<u8>, Seq<u8>),
    pub initial_speed: Seq<u8>,
    pub acceleration: (Seq<u8>, Seq<u8>, Seq<u8>),
    pub direction: (Seq<u8>, Seq<u8>, Seq<u8>),
    pub time: TimeView,
    pub previous_time: TimeView,
}

impl View for VehicleData {
    type V = VehicleView;

    open spec fn view(&self) -> VehicleView {
        VehicleView {
            true_position: (self.true_position.0@, self.true_position.1@, self.true_position.2@),
            initial_speed: self.initial_speed@,
            acceleration: (self.acceleration.0@, self.acceleration.1@, self.acceleration.2@),
            direction: (self.direction.0@, self.direction.1@, self.direction.2@),
            time: self.time@,
            previous_time: self.previous_time@,
        }
    }
}

/// What a datagram asks to be told once it is taken in.
#[derive(PartialEq, Eq, Structural, Debug, Clone, Copy)]
pub enum Report {
    /// A reading was stored, or nothing was (a timestamp alone).
    Updated,
    /// The stream announced a new message.
    MessageStarted,
    /// The message is complete: the readings are ready.
    MessageEnded,
    /// The datagram could not be read.
    UndefinedEntry,
}

/// The report on a datagram's content.
pub open spec fn spec_report(d: DataView) -> Report {
    match d {
        DataView::MsgStart => Report::MessageStarted,
        DataView::MsgEnd => Report::MessageEnded,
        DataView::Undefined => Report::UndefinedEntry,
        _ => Report::Updated,
    }
}

/// The readings once a frame is taken in: a timestamp becomes the current time
/// and the current time the previous one; a reading replaces the one it names.
pub open spec fn spec_process(v: VehicleView, f: FrameView) -> VehicleView {
    let v = match f.time {
        Some(t) => VehicleView { previous_time: v.time, time: t, ..v },
        None => v,
    };
    match f.data {
        DataView::TruePosition { x, y, z } => VehicleView { true_position: (x, y, z), ..v },
        DataView::Acceleration { x, y, z } => VehicleView { acceleration: (x, y, z), ..v },
        DataView::Direction { x, y, z } => VehicleView { direction: (x, y, z), ..v },
        DataView::Speed { s } => VehicleView { initial_speed: s, ..v },
        _ => v,
    }
}

/// Every reading of the vehicle, and the seconds of both its timestamps, are
/// float literals.
pub open spec fn vehicle_literals(v: VehicleView) -> bool {
    &&& is_float_literal(v.true_position.0)
    &&& is_float_literal(v.true_position.1)
    &&& is_float_literal(v.true_position.2)
    &&& is_float_literal(v.initial_speed)
    &&& is_float_literal(v.acceleration.0)
    &&& is_float_literal(v.acceleration.1)
    &&& is_float_literal(v.acceleration.2)
    &&& is_float_literal(v.direction.0)
    &&& is_float_literal(v.direction.1)
    &&& is_float_literal(v.direction.2)
    &&& is_float_literal(v.time.seconds)
    &&& is_float_literal(v.previous_time.seconds)
}

/// Taking in a frame whose numbers are float literals keeps every reading of
/// the vehicle a float literal.
pub proof fn lemma_process_keeps_literals(v: VehicleView, f: FrameView)
    requires
        vehicle_literals(v),
        frame_literals(f),
    ensures
        vehicle_literals(spec_process(v, f)),
{
}

/// The report tells what a content is: `UndefinedEntry` exactly for an
/// unreadable datagram, `MessageStarted` and `MessageEnded` exactly for the two
/// markers, and `Updated` exactly for the four readings.
pub proof fn lemma_report_tells_content(d: DataView)
    ensures
        (spec_report(d) == Report::UndefinedEntry) <==> (d is Undefined),
        (spec_report(d) == Report::MessageStarted) <==> (d is MsgStart),
        (spec_report(d) == Report::MessageEnded) <==> (d is MsgEnd),
        (spec_report(d) == Report::Updated) <==> (d is TruePosition || d is Speed
            || d is Acceleration || d is Direction),
{
}

/// Taking a frame in moves the clock only when the frame has a timestamp: then
/// the old current time becomes the previous one and the frame's the current
/// one; otherwise both stay. A reading replaces exactly the reading of its
/// kind; every other reading stays.
pub proof fn lemma_process_clock(v: VehicleView, f: FrameView)
    ensures
        f.time is None ==> spec_process(v, f).time == v.time,
        f.time is None ==> spec_process(v, f).previous_time == v.previous_time,
        f.time is Some ==> spec_process(v, f).time == f.time->0,
        f.time is Some ==> spec_process(v, f).previous_time == v.time,
        (f.data is TruePosition) ==> spec_process(v, f).true_position == (
            f.data->TruePosition_x,
            f.data->TruePosition_y,
            f.data->TruePosition_z,
        ),
        !(f.data is TruePosition) ==> spec_process(v, f).true_position == v.true_position,
        (f.data is Acceleration) ==> spec_process(v, f).acceleration == (
            f.data->Acceleration_x,
            f.data->Acceleration_y,
            f.data->Acceleration_z,
        ),
        !(f.data is Acceleration) ==> spec_process(v, f).acceleration == v.acceleration,
        (f.data is Direction) ==> spec_process(v, f).direction == (
            f.data->Direction_x,
            f.data->Direction_y,
            f.data->Direction_z,
        ),
        !(f.data is Direction) ==> spec_process(v, f).direction == v.direction,
        (f.data is Speed) ==> spec_process(v, f).initial_speed == f.data->s,
        !(f.data is Speed) ==> spec_process(v, f).initial_speed == v.initial_speed,
{
}

/// Takes a decoded datagram in: stores its timestamp and reading, and says what
/// is to be told of it.
pub fn process_parsing(vehicle: &mut VehicleData, res: Frame) -> (r: Report)
    ensures
        final(vehicle)@ == spec_process(old(vehicle)@, res@),
        r == spec_report(res.data@),
        (r == Report::UndefinedEntry) <==> (res.data@ is Undefined),
        (r == Report::MessageStarted) <==> (res.data@ is MsgStart),
        (r == Report::MessageEnded) <==> (res.data@ is MsgEnd),
        res.time is None ==> final(vehicle)@.time == old(vehicle)@.time,
        res.time is None ==> final(vehicle)@.previous_time == old(vehicle)@.previous_time,
        res.time is Some ==> final(vehicle)@.time == time_view(res.time)->0,
        res.time is Some ==> final(vehicle)@.previous_time == old(vehicle)@.time,
{
    proof {
        lemma_report_tells_content(res.data@);
        lemma_process_clock(old(vehicle)@, res@);
    }
    if let Some(t) = res.time {
        let mut t = t;
        std::mem::swap(&mut vehicle.time, &mut t);
        vehicle.previous_time = t;
    }
    match res.data {
        ParsedData::TruePosition { x, y, z } => {
            vehicle.true_position = (x, y, z);
            Report::Updated
        },
        ParsedData::Acceleration { x, y, z } => {
            vehicle.acceleration = (x, y, z);
            Report::Updated
        },
        ParsedData::Direction { x, y, z } => {
            vehicle.direction = (x, y, z);
            Report::Updated
        },
        ParsedData::Speed { s } => {
            vehicle.initial_speed = s;
            Report::Updated
        },
        ParsedData::MsgStart => Report::MessageStarted,
        ParsedData::MsgEnd => Report::MessageEnded,
        ParsedData::Undefined => Report::UndefinedEntry,
    }
}

} // verus!
