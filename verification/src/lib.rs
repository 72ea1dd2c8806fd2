//! Control core of a single-cabin elevator.
//!
//! The library is a set of pure state machines. Hardware events go in, state
//! changes and an ordered list of actuator commands come out; every transition
//! is specified over a mathematical model and proved against it.
//!
//! * [`codes`]: numeric codes of the actuator interface.
//! * [`request`]: a call made from the cabin or from a landing.
//! * [`queue`]: the bounded FIFO of pending, pairwise distinct requests.
//! * [`cabin_state`]: where the cabin is and whether its door is open.
//! * [`current_service`]: the trip in progress and the requests served on the way.
//! * [`elevator_state`]: the scheduler that reacts to hardware events.
//! * [`door_control`]: the hold-open timer of the door.
//! * [`runs`]: what holds of every sequence of events that the scheduler takes.

pub mod codes;
pub mod request;
pub mod queue;
pub mod cabin_state;
pub mod current_service;
pub mod elevator_state;
pub mod door_control;
pub mod runs;
