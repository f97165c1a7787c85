//! Units in which the positioning pipeline expresses distances.

use vstd::prelude::*;

verus! {

/// Unit of the distances handled by a distance model and its consumers.
#[derive(Clone, Copy, Debug, PartialEq, Eq, Structural)]
pub enum DistanceUnit {
    /// Centimetres.
    Centimeter,
    /// Metres.
    Meter,
    /// Millimetres.
    Millimeter,
}

} // verus!
