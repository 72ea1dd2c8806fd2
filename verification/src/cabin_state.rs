//! Where the cabin is and whether its door is open.

use vstd::prelude::*;
use crate::codes::{direction, direction_from_to, DIRN_STOP};

verus! {

/// The state of the cabin. A cabin is in exactly one of the three states.
#[derive(Clone, Copy, Debug, PartialEq, Eq, Structural)]
pub enum State {
    /// Stopped at the floor, door open.
    DoorOpen(u8),
    /// Stopped at the floor, door closed.
    DoorClose(u8),
    /// Moving: the first floor is the last one seen, the second the floor the
    /// cabin is heading for.
    Between(u8, u8),
}

impl State {
    /// The floor the cabin is at; while it moves, the last floor it has seen.
    pub open spec fn spec_current_floor(&self) -> u8 {
        match *self {
            State::DoorOpen(floor) => floor,
            State::DoorClose(floor) => floor,
            State::Between(floor, _) => floor,
        }
    }

    /// The direction in which the cabin moves: `DIRN_STOP` while it stands at
    /// a floor, else the direction from the last floor seen to the floor it
    /// is heading for.
    pub open spec fn spec_direction(&self) -> u8 {
        match *self {
            State::DoorOpen(_) => DIRN_STOP,
            State::DoorClose(_) => DIRN_STOP,
            State::Between(from, to) => direction(from, to),
        }
    }

    /// The cabin stands at a floor with its door open.
    pub open spec fn is_door_open(&self) -> bool {
        *self is DoorOpen
    }

    /// The cabin stands at a floor with its door closed.
    pub open spec fn is_door_closed(&self) -> bool {
        *self is DoorClose
    }

    /// The cabin is moving.
    pub open spec fn is_between(&self) -> bool {
        *self is Between
    }

    /// Returns the floor the cabin is at, or has last seen while moving.
    #[verifier::when_used_as_spec(spec_current_floor)]
    pub fn get_current_floor(&self) -> (floor: u8)
        ensures
            floor == self.spec_current_floor(),
    {
        match self {
            State::DoorOpen(floor) => *floor,
            State::DoorClose(floor) => *floor,
            State::Between(floor, _) => *floor,
        }
    }

    /// Returns the direction of travel from the current floor to floor `to`.
    pub fn get_direction_to(&self, to: u8) -> (d: u8)
        ensures
            d == direction(self.spec_current_floor(), to),
    {
        direction_from_to(self.get_current_floor(), to)
    }

    /// Returns the direction in which a cabin moves that is between `from`
    /// and `to`.
    pub fn get_direction_from_to(from: u8, to: u8) -> (d: u8)
        ensures
            d == direction(from, to),
    {
        State::Between(from, to).get_direction()
    }

    /// Returns the direction in which the cabin moves.
    #[verifier::when_used_as_spec(spec_direction)]
    pub fn get_direction(&self) -> (d: u8)
        ensures
            d == self.spec_direction(),
    {
        match self {
            State::DoorOpen(_) => DIRN_STOP,
            State::DoorClose(_) => DIRN_STOP,
            State::Between(from, to) => direction_from_to(*from, *to),
        }
    }
}

/// Of the three conditions door open, door closed and moving, a cabin state
/// meets exactly one.
pub proof fn lemma_one_state_at_a_time(state: State)
    ensures
        state.is_door_open() || state.is_door_closed() || state.is_between(),
        !(state.is_door_open() && state.is_door_closed()),
        !(state.is_door_open() && state.is_between()),
        !(state.is_door_closed() && state.is_between()),
{
}

} // verus!
