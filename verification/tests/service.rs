use elevator_control::cabin_state::State;
use elevator_control::codes::{DIRN_DOWN, DIRN_UP};
use elevator_control::current_service::{joins_trip, CurrentService};
use elevator_control::queue::Queue;
use elevator_control::request::Request;

fn trip(state: State, primary: Request) -> CurrentService {
    let mut service = CurrentService::from(state);
    service.update_request(primary);
    service
}

fn drain(queue: &mut Queue) -> Vec<Request> {
    let mut out = Vec::new();
    while let Some(request) = queue.pop() {
        out.push(request);
    }
    out
}

#[test]
fn a_new_record_is_idle() {
    let service = CurrentService::from(State::DoorClose(2));
    assert_eq!(service.is_init(), false);
    assert_eq!(service.request(), None);
    assert_eq!(service.state(), State::DoorClose(2));
    assert_eq!(service.already_serviceable(&Request::Cab(1)), false);
}

#[test]
fn update_request_starts_a_trip() {
    let service = trip(State::DoorClose(0), Request::Cab(3));
    assert_eq!(service.is_init(), true);
    assert_eq!(service.request(), Some(Request::Cab(3)));
    assert_eq!(service.is_current_request(&Request::Cab(3)), true);
    assert_eq!(service.is_current_request(&Request::Cab(2)), false);
    assert_eq!(service.is_current_request(&Request::Hall(3, DIRN_UP)), false);
    assert_eq!(service.is_final_floor(3), true);
    assert_eq!(service.is_final_floor(2), false);
}

#[test]
fn cab_request_between_cabin_and_target_is_serviceable() {
    let service = trip(State::Between(0, 3), Request::Cab(3));
    assert_eq!(service.is_serviceable(&Request::Cab(1)), true);
    assert_eq!(service.is_serviceable(&Request::Cab(2)), true);
}

#[test]
fn requests_at_the_ends_of_the_trip_are_not_serviceable() {
    let service = trip(State::Between(1, 3), Request::Cab(3));
    assert_eq!(service.is_serviceable(&Request::Cab(1)), false);
    assert_eq!(service.is_serviceable(&Request::Cab(3)), false);
    assert_eq!(service.is_serviceable(&Request::Hall(3, DIRN_UP)), false);
    assert_eq!(service.is_serviceable(&Request::Cab(0)), false);
    assert_eq!(service.is_serviceable(&Request::Cab(4)), false);
}

#[test]
fn hall_request_needs_the_direction_of_the_trip() {
    let up = trip(State::Between(0, 3), Request::Cab(3));
    assert_eq!(up.is_serviceable(&Request::Hall(2, DIRN_UP)), true);
    assert_eq!(up.is_serviceable(&Request::Hall(2, DIRN_DOWN)), false);
    let down = trip(State::DoorOpen(3), Request::Hall(0, DIRN_UP));
    assert_eq!(down.is_serviceable(&Request::Hall(2, DIRN_DOWN)), true);
    assert_eq!(down.is_serviceable(&Request::Hall(2, DIRN_UP)), false);
    assert_eq!(down.is_serviceable(&Request::Cab(1)), true);
    assert_eq!(down.is_serviceable(&Request::Cab(3)), false);
    assert_eq!(down.is_serviceable(&Request::Cab(0)), false);
}

#[test]
fn nothing_is_serviceable_on_a_trip_to_the_own_floor() {
    let service = trip(State::DoorClose(2), Request::Cab(2));
    assert_eq!(service.is_serviceable(&Request::Cab(1)), false);
    assert_eq!(service.is_serviceable(&Request::Cab(3)), false);
    assert_eq!(service.is_serviceable(&Request::Hall(2, DIRN_UP)), false);
}

#[test]
fn an_admitted_request_is_not_serviceable_again() {
    let mut service = trip(State::Between(0, 3), Request::Cab(3));
    assert_eq!(service.is_serviceable(&Request::Cab(2)), true);
    service.add_to_serviceable(Request::Cab(2));
    assert_eq!(service.already_serviceable(&Request::Cab(2)), true);
    assert_eq!(service.is_serviceable(&Request::Cab(2)), false);
    assert_eq!(service.is_serviceable(&Request::Hall(2, DIRN_UP)), true);
}

#[test]
fn joins_trip_agrees_with_the_admission_rule() {
    let primary = Request::Cab(0);
    let state = State::Between(255, 0);
    assert_eq!(joins_trip(&primary, &state, &Request::Cab(2)), true);
    assert_eq!(joins_trip(&primary, &state, &Request::Hall(2, DIRN_DOWN)), true);
    assert_eq!(joins_trip(&primary, &state, &Request::Hall(2, DIRN_UP)), false);
    assert_eq!(joins_trip(&primary, &state, &Request::Cab(0)), false);
    assert_eq!(joins_trip(&primary, &state, &Request::Cab(255)), false);
}

#[test]
fn cabin_stops_at_the_final_floor() {
    let service = trip(State::Between(0, 3), Request::Cab(3));
    assert_eq!(service.does_stop(3), true);
    assert_eq!(service.does_stop(1), false);
    assert_eq!(service.does_stop(2), false);
}

#[test]
fn cabin_stops_for_a_piggyback_request() {
    let mut service = trip(State::Between(0, 3), Request::Cab(3));
    service.add_to_serviceable(Request::Hall(2, DIRN_UP));
    assert_eq!(service.does_stop(2), true);
    assert_eq!(service.does_stop(1), false);
    service.add_to_serviceable(Request::Cab(1));
    assert_eq!(service.does_stop(1), true);
}

#[test]
fn remove_serviced_takes_what_the_stop_serves() {
    let mut service = trip(State::Between(0, 4), Request::Cab(4));
    service.add_to_serviceable(Request::Cab(2));
    service.add_to_serviceable(Request::Cab(1));
    service.add_to_serviceable(Request::Hall(2, DIRN_UP));
    service.add_to_serviceable(Request::Cab(3));
    let serviced = service.remove_serviced(2);
    assert_eq!(serviced, vec![Request::Cab(2), Request::Hall(2, DIRN_UP)]);
    assert_eq!(service.already_serviceable(&Request::Cab(2)), false);
    assert_eq!(service.already_serviceable(&Request::Hall(2, DIRN_UP)), false);
    assert_eq!(service.already_serviceable(&Request::Cab(1)), true);
    assert_eq!(service.already_serviceable(&Request::Cab(3)), true);
    assert_eq!(service.does_stop(2), false);
    assert_eq!(service.remove_serviced(1), vec![Request::Cab(1)]);
    assert_eq!(service.remove_serviced(3), vec![Request::Cab(3)]);
    assert_eq!(service.remove_serviced(3), Vec::<Request>::new());
}

#[test]
fn reset_ends_the_trip_and_drops_the_piggyback_requests() {
    let mut service = trip(State::DoorOpen(1), Request::Cab(3));
    service.add_to_serviceable(Request::Cab(2));
    service.reset();
    assert_eq!(service.is_init(), false);
    assert_eq!(service.already_serviceable(&Request::Cab(2)), false);
    assert_eq!(service.state(), State::DoorOpen(1));
}

#[test]
fn set_state_moves_the_cabin_only() {
    let mut service = trip(State::DoorClose(1), Request::Cab(3));
    service.set_state(State::Between(1, 3));
    assert_eq!(service.state(), State::Between(1, 3));
    assert_eq!(service.request(), Some(Request::Cab(3)));
}

#[test]
fn update_serviceable_moves_what_can_join_from_the_queue() {
    let mut queue = Queue::new(8);
    queue.push_unique(Request::Hall(2, DIRN_DOWN));
    queue.push_unique(Request::Cab(2));
    queue.push_unique(Request::Cab(0));
    queue.push_unique(Request::Hall(1, DIRN_UP));
    queue.push_unique(Request::Hall(3, DIRN_UP));
    queue.push_unique(Request::Cab(3));
    let mut service = trip(State::DoorClose(0), Request::Cab(3));
    service.update_serviceable(&mut queue);
    assert_eq!(service.already_serviceable(&Request::Cab(2)), true);
    assert_eq!(service.already_serviceable(&Request::Hall(1, DIRN_UP)), true);
    assert_eq!(service.already_serviceable(&Request::Hall(2, DIRN_DOWN)), false);
    assert_eq!(
        drain(&mut queue),
        vec![
            Request::Hall(2, DIRN_DOWN),
            Request::Cab(0),
            Request::Hall(3, DIRN_UP),
            Request::Cab(3),
        ]
    );
    assert_eq!(
        service.remove_serviced(1),
        vec![Request::Hall(1, DIRN_UP)]
    );
    assert_eq!(service.remove_serviced(2), vec![Request::Cab(2)]);
}

#[test]
fn update_serviceable_forgets_the_previous_piggyback_requests() {
    let mut queue = Queue::new(8);
    let mut service = trip(State::Between(0, 3), Request::Cab(3));
    service.add_to_serviceable(Request::Cab(1));
    service.update_serviceable(&mut queue);
    assert_eq!(service.already_serviceable(&Request::Cab(1)), false);
    assert_eq!(queue.is_empty(), true);
}
