//! Numeric codes of the actuator interface.
//!
//! The hardware driver identifies call buttons and motor directions by small
//! integers. The scheduler stores and compares these codes as they are, so a
//! command can be handed to the driver as it is.

use vstd::prelude::*;

verus! {

/// Call button on a landing, asking to travel up.
pub const HALL_UP: u8 = 0;

/// Call button on a landing, asking to travel down.
pub const HALL_DOWN: u8 = 1;

/// Destination button inside the cabin.
pub const CAB: u8 = 2;

/// Number of call-button kinds: every kind is a code below this bound.
pub const CALL_KINDS: u8 = 3;

/// Motor direction: towards lower floors.
pub const DIRN_DOWN: u8 = 255;

/// Motor direction: standing still.
pub const DIRN_STOP: u8 = 0;

/// Motor direction: towards higher floors.
pub const DIRN_UP: u8 = 1;

/// Direction of travel from floor `from` to floor `to`.
pub open spec fn direction(from: u8, to: u8) -> u8 {
    if from < to {
        DIRN_UP
    } else if from == to {
        DIRN_STOP
    } else {
        DIRN_DOWN
    }
}

/// Computes the direction of travel from `from` to `to`.
pub fn direction_from_to(from: u8, to: u8) -> (d: u8)
    ensures
        d == direction(from, to),
{
    if from < to {
        DIRN_UP
    } else if from == to {
        DIRN_STOP
    } else {
        DIRN_DOWN
    }
}

} // verus!
