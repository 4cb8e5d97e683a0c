//! The ways in which a request to the traffic model can be refused.

use vstd::prelude::*;

verus! {

/// Why a construction or an operation was refused.
#[derive(Clone, Copy, Debug, PartialEq, Eq, Structural)]
pub enum TrafficError {
    /// A car's size was zero or negative.
    NonPositiveSize,
    /// A speed ceiling or a posted limit was zero or negative.
    NonPositiveSpeed,
    /// A zone's length was zero or negative.
    NonPositiveLength,
    /// A car's mass was zero or negative.
    NonPositiveMass,
    /// Two cars stand at the same position, where their repulsion has no value.
    Collision,
    /// A transition was asked of a pair that is not a flag acting on a car.
    Pairing,
}

} // verus!
