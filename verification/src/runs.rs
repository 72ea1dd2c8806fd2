//! Runs of the scheduler: what holds of every sequence of events.

use vstd::prelude::*;
use crate::cabin_state::State;
use crate::codes::{direction, CALL_KINDS};
use crate::elevator_state::{
    lemma_add_call_keeps_invariant,
    lemma_all_off,
    lemma_event_keeps_invariant,
    request_of,
    Command,
    ElevatorView,
    Event,
};
use crate::request::Request;

verus! {

/// The state of a scheduler that was in state `state` and then took
/// `events`, first event first.
pub open spec fn after_all(state: ElevatorView, events: Seq<Event>) -> ElevatorView
    decreases events.len(),
{
    if events.len() == 0 {
        state
    } else {
        after_all(state, events.drop_last()).handle_event(events.last()).0
    }
}

/// Whether a scheduler in state `state` can take `events` one after the
/// other: each event is one that the scheduler can take in the state in
/// which the event finds it.
pub open spec fn admits_all(state: ElevatorView, events: Seq<Event>) -> bool
    decreases events.len(),
{
    events.len() == 0 || (admits_all(state, events.drop_last()) && after_all(
        state,
        events.drop_last(),
    ).admits(events.last()))
}

/// Whether `event` makes the door open.
pub open spec fn opens_door(state: ElevatorView, event: Event) -> bool {
    state.handle_event(event).1.contains(Command::OpenDoor)
}

/// Whether the next request to carry out is for the floor where the cabin
/// stands with its door closed: the primary request, or, for an idle cabin,
/// the request at the head of the queue.
pub open spec fn serves_own_floor(state: ElevatorView) -> bool {
    let floor = state.service.cabin.spec_current_floor();
    &&& state.service.cabin.is_door_closed()
    &&& if state.service.primary is Some {
        (state.service.primary->0).spec_target() == floor
    } else {
        state.queue.len() > 0 && state.queue[0].spec_target() == floor
    }
}

/// Whether `event` opens the door of a cabin that stands at a floor: a stop
/// at a floor that is reported while the cabin stands, or a request for the
/// floor where the cabin stands that is carried out when the door has closed
/// or when it is called.
pub open spec fn opens_in_place(state: ElevatorView, event: Event) -> bool {
    let floor = state.service.cabin.spec_current_floor();
    &&& !state.service.cabin.is_between()
    &&& match event {
        Event::FloorSensor(reached) => state.service.stops_at(reached),
        Event::CloseDoor => serves_own_floor(state.with_cabin(State::DoorClose(floor))),
        Event::CallButton(call) => state.add_call(request_of(call)).1 && serves_own_floor(
            state.add_call(request_of(call)).0,
        ),
        _ => false,
    }
}

/// The invariant of the scheduler holds in every state that it reaches.
pub proof fn lemma_events_keep_invariant(state: ElevatorView, events: Seq<Event>)
    requires
        state.wf(),
        admits_all(state, events),
    ensures
        after_all(state, events).wf(),
    decreases events.len(),
{
    if events.len() > 0 {
        lemma_events_keep_invariant(state, events.drop_last());
        lemma_event_keeps_invariant(after_all(state, events.drop_last()), events.last());
    }
}

/// An idle cabin has no piggyback requests, in every state that the
/// scheduler reaches.
pub proof fn lemma_idle_cabin_has_no_piggyback(state: ElevatorView, events: Seq<Event>)
    requires
        state.wf(),
        admits_all(state, events),
    ensures
        after_all(state, events).service.primary is None ==> after_all(
            state,
            events,
        ).service.piggyback.len() == 0,
{
    lemma_events_keep_invariant(state, events);
}

/// Looking for work opens the door only for a request for the floor where
/// the cabin stands.
pub proof fn lemma_update_opens_in_place(state: ElevatorView)
    requires
        state.wf(),
    ensures
        state.update_elevator().1.contains(Command::OpenDoor) ==> serves_own_floor(state),
{
    let commands = state.update_elevator().1;
    if commands.contains(Command::OpenDoor) {
        let i = choose|i: int| 0 <= i < commands.len() && commands[i] == Command::OpenDoor;
        assert(commands[i] == Command::OpenDoor);
    }
}

/// When the door opens, the cabin has arrived from another floor: it was
/// moving, and the floor it had last seen is not the floor of the stop.
/// This holds of every opening but those in place.
pub proof fn lemma_door_opens_on_arrival(state: ElevatorView, event: Event)
    requires
        state.wf(),
        state.admits(event),
        opens_door(state, event),
        !opens_in_place(state, event),
    ensures
        event is FloorSensor,
        state.handle_event(event).0.service.cabin == State::DoorOpen(event->FloorSensor_0),
        state.service.cabin matches State::Between(from, to) && from != to && from != (
        event->FloorSensor_0),
{
    let commands = state.handle_event(event).1;
    let i = choose|i: int| 0 <= i < commands.len() && commands[i] == Command::OpenDoor;
    assert(commands[i] == Command::OpenDoor);
    match event {
        Event::CallButton(call) => {
            let taken = state.add_call(request_of(call)).0;
            lemma_add_call_keeps_invariant(state, request_of(call));
            lemma_update_opens_in_place(taken);
            if state.add_call(request_of(call)).1 {
                let rest = taken.update_elevator().1;
                assert(i >= 1);
                assert(rest[i - 1] == Command::OpenDoor);
                assert(state.service.cabin == taken.service.cabin);
            }
        },
        Event::FloorSensor(reached) => {
            let end = (state.service.primary->0).spec_target();
            if state.service.stops_at(reached) && end != reached {
                let request = if state.service.piggyback.contains(Request::Cab(reached)) {
                    Request::Cab(reached)
                } else {
                    Request::Hall(reached, direction(reached, end))
                };
                let k = choose|k: int|
                    0 <= k < state.service.piggyback.len() && state.service.piggyback[k]
                        == request;
                assert(state.service.piggyback[k].spec_target() == reached);
            }
        },
        Event::StopButton(is_pressed) => {
            lemma_all_off(state.num_floors as nat, CALL_KINDS as nat);
        },
        Event::Obstruction(_) => {},
        Event::CloseDoor => {
            let floor = state.service.cabin.spec_current_floor();
            let closed = state.with_cabin(State::DoorClose(floor));
            lemma_update_opens_in_place(closed);
            let rest = closed.update_elevator().1;
            assert(i >= 1);
            assert(rest[i - 1] == Command::OpenDoor);
        },
    }
}

/// Between two openings of the door at the same floor the cabin moves. Let
/// the door be open at `floor`, and let the last of `events` open it at
/// `floor` again, not in place. Then before that event, and after some of
/// the others, the cabin was moving, and the floor it had last seen was
/// another one than `floor`.
pub proof fn lemma_reopening_needs_a_move(state: ElevatorView, events: Seq<Event>, floor: u8)
    requires
        state.wf(),
        state.service.cabin == State::DoorOpen(floor),
        admits_all(state, events),
        events.len() > 0,
        opens_door(after_all(state, events.drop_last()), events.last()),
        !opens_in_place(after_all(state, events.drop_last()), events.last()),
        after_all(state, events).service.cabin == State::DoorOpen(floor),
    ensures
        exists|k: int|
            0 < k < events.len() && (#[trigger] after_all(
                state,
                events.take(k),
            ).service.cabin matches State::Between(from, to) && from != to && from != floor),
{
    let earlier = events.drop_last();
    lemma_events_keep_invariant(state, earlier);
    lemma_door_opens_on_arrival(after_all(state, earlier), events.last());
    assert(earlier =~= events.take(events.len() - 1));
    assert(events.len() - 1 > 0) by {
        if events.len() == 1 {
            assert(earlier.len() == 0);
            assert(after_all(state, earlier) == state);
        }
    }
}

/// A scheduler that can take `events` can take every prefix of them.
pub proof fn lemma_admits_prefix(state: ElevatorView, events: Seq<Event>, k: int)
    requires
        admits_all(state, events),
        0 <= k <= events.len(),
    ensures
        admits_all(state, events.take(k)),
        k < events.len() ==> after_all(state, events.take(k)).admits(events[k]),
        k < events.len() ==> after_all(state, events.take(k + 1)) == after_all(
            state,
            events.take(k),
        ).handle_event(events[k]).0,
    decreases events.len() - k,
{
    if k == events.len() {
        assert(events.take(k) =~= events);
    } else {
        lemma_admits_prefix(state, events, k + 1);
        let longer = events.take(k + 1);
        assert(longer.drop_last() =~= events.take(k));
        assert(longer.last() == events[k]);
    }
}

/// A moving cabin keeps moving until the door opens.
pub proof fn lemma_cabin_moves_until_door_opens(state: ElevatorView, event: Event)
    requires
        state.wf(),
        state.admits(event),
        state.service.cabin.is_between(),
        !opens_door(state, event),
    ensures
        state.handle_event(event).0.service.cabin.is_between(),
{
    let commands = state.handle_event(event).1;
    match event {
        Event::FloorSensor(reached) => {
            if state.service.stops_at(reached) {
                assert(commands[1] == Command::OpenDoor);
            }
        },
        _ => {},
    }
}

/// An opening in place comes without a move. Let the last of `events` open
/// the door in place, and let none of the events before it open the door.
/// Then the cabin stood still before each of the events.
pub proof fn lemma_opening_in_place_needs_no_move(
    state: ElevatorView,
    events: Seq<Event>,
    k: int,
)
    requires
        state.wf(),
        admits_all(state, events),
        events.len() > 0,
        forall|i: int|
            0 <= i < events.len() - 1 ==> !opens_door(
                #[trigger] after_all(state, events.take(i)),
                events[i],
            ),
        opens_in_place(after_all(state, events.drop_last()), events.last()),
        0 <= k < events.len(),
    ensures
        !after_all(state, events.take(k)).service.cabin.is_between(),
    decreases events.len() - k,
{
    let here = after_all(state, events.take(k));
    if k == events.len() - 1 {
        assert(events.take(k) =~= events.drop_last());
    } else {
        lemma_opening_in_place_needs_no_move(state, events, k + 1);
        lemma_admits_prefix(state, events, k);
        lemma_events_keep_invariant(state, events.take(k));
        if here.service.cabin.is_between() {
            lemma_cabin_moves_until_door_opens(here, events[k]);
        }
    }
}

} // verus!
