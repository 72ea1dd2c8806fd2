//! A call made by a passenger, from the cabin or from a landing.

use vstd::prelude::*;
use crate::codes::{CAB, DIRN_DOWN, DIRN_UP, HALL_DOWN, HALL_UP};

verus! {

/// A call made by pressing a button of the cabin panel or of a landing panel.
///
/// Two requests are equal exactly when they are the same variant with the
/// same fields.
#[derive(Clone, Copy, Debug, PartialEq, Eq, Structural)]
pub enum Request {
    /// A passenger inside the cabin asked for a floor.
    Cab(u8),
    /// A passenger on the landing of a floor asked to travel in a direction,
    /// which is `DIRN_UP` or `DIRN_DOWN`.
    Hall(u8, u8),
}

impl Request {
    /// The floor the cabin has to reach to complete the request.
    pub open spec fn spec_target(&self) -> u8 {
        match *self {
            Request::Cab(floor) => floor,
            Request::Hall(floor, _) => floor,
        }
    }

    /// The requested direction of travel, which only a hall request has.
    pub open spec fn spec_direction(&self) -> Option<u8> {
        match *self {
            Request::Cab(_) => None,
            Request::Hall(_, direction) => Some(direction),
        }
    }

    /// A hall request is valid when it asks to go up or down; every cab
    /// request is valid.
    pub open spec fn is_valid(&self) -> bool {
        match *self {
            Request::Cab(_) => true,
            Request::Hall(_, direction) => direction == DIRN_UP || direction == DIRN_DOWN,
        }
    }

    /// The call-button light that shows the request as accepted.
    pub open spec fn spec_light_id(&self) -> u8 {
        match *self {
            Request::Cab(_) => CAB,
            Request::Hall(_, direction) => if direction == DIRN_UP {
                HALL_UP
            } else {
                HALL_DOWN
            },
        }
    }

    /// Returns the target of the request: the floor the cabin needs to reach
    /// to complete it. For a hall request that is the floor of the button, for
    /// a cab request the floor written on the button.
    #[verifier::when_used_as_spec(spec_target)]
    pub fn target(&self) -> (floor: u8)
        ensures
            floor == self.spec_target(),
    {
        match self {
            Request::Cab(floor) => *floor,
            Request::Hall(floor, _) => *floor,
        }
    }

    /// Returns the direction of the request, if it has one. Only hall
    /// requests have a direction.
    #[verifier::when_used_as_spec(spec_direction)]
    pub fn direction(&self) -> (direction: Option<u8>)
        ensures
            direction == self.spec_direction(),
    {
        match self {
            Request::Cab(_) => None,
            Request::Hall(_, direction) => Some(*direction),
        }
    }

    /// Returns the identifier of the call-button light of the request.
    #[verifier::when_used_as_spec(spec_light_id)]
    pub fn light_id(&self) -> (id: u8)
        requires
            self.is_valid(),
        ensures
            id == self.spec_light_id(),
            id == CAB || id == HALL_UP || id == HALL_DOWN,
    {
        match self {
            Request::Cab(_) => CAB,
            Request::Hall(_, direction) => if *direction == DIRN_UP {
                HALL_UP
            } else {
                HALL_DOWN
            },
        }
    }
}

/// One slot of the request queue.
#[derive(Clone, Copy, Debug, PartialEq, Eq, Structural)]
pub struct QueueElement {
    /// The request waiting in this slot.
    pub request: Request,
}

impl QueueElement {
    /// Wraps a request into a queue slot.
    pub fn new(request: Request) -> (element: QueueElement)
        ensures
            element.request == request,
    {
        QueueElement { request }
    }
}

} // verus!
