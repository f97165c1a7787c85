//! Support library for RSSI-based indoor positioning.
//!
//! The library keeps the bookkeeping of a positioning pipeline: the latest
//! signal-strength report per beacon ([`signals::SignalReadings`]), the unit in
//! which distances are expressed ([`units::DistanceUnit`]), and the
//! integer-valued steps of estimation and aggregation ([`estimator`]).

pub mod estimator;
pub mod signals;
pub mod units;
