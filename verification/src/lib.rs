//! Frame decoding for the vehicle telemetry stream that feeds the Kalman filters.

pub mod frame;
pub mod number;
pub mod scan;
pub mod stream_format;
pub mod udp_parser;
pub mod utf8_text;
pub mod vehicle;

pub use frame::{Frame, ParsedData, Time};
pub use vehicle::{Report, VehicleData};
