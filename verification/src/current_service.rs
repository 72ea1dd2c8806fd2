//! The trip in progress: the primary request the cabin is travelling for, the
//! piggyback requests that are served on the way, and the cabin state.

use vstd::prelude::*;
use crate::cabin_state::State;
use crate::codes::{direction, direction_from_to, DIRN_DOWN, DIRN_UP};
use crate::queue::{lemma_filter_agree, lemma_filter_subsequence, negation, Queue};
use crate::request::Request;

verus! {

/// Whether a cabin travelling in direction `travel` may pick the request up:
/// a cab request always, a hall request if it asks for that direction.
pub open spec fn compatible(request: Request, travel: u8) -> bool {
    match request {
        Request::Cab(_) => true,
        Request::Hall(_, wanted) => wanted == travel,
    }
}

/// Whether `request` lies on the way of a cabin in state `cabin` that travels
/// for `primary`: its direction is compatible with the direction of the trip
/// and its target lies strictly between the current floor and the target of
/// the primary. Nothing lies on the way of a trip that goes nowhere.
pub open spec fn on_the_way(primary: Request, cabin: State, request: Request) -> bool {
    let floor = cabin.spec_current_floor();
    let end = primary.spec_target();
    let target = request.spec_target();
    let travel = direction(floor, end);
    &&& compatible(request, travel)
    &&& if travel == DIRN_UP {
        floor < target && target < end
    } else if travel == DIRN_DOWN {
        floor > target && target > end
    } else {
        false
    }
}

/// Whether `request` can join the trip for `primary` as its first piggyback
/// request: it is another request with another target, and it lies on the
/// way.
pub open spec fn joins(primary: Request, cabin: State, request: Request) -> bool {
    &&& request != primary
    &&& request.spec_target() != primary.spec_target()
    &&& on_the_way(primary, cabin, request)
}

/// The predicate `joins(primary, cabin, _)`.
pub open spec fn joining(primary: Request, cabin: State) -> spec_fn(Request) -> bool {
    |request: Request| joins(primary, cabin, request)
}

/// Whether `request` may ride along with a trip that ends at `end`, wherever
/// the cabin is: it has another target, and a hall request asks for the
/// direction in which the cabin leaves its floor.
pub open spec fn rides_along(end: u8, request: Request) -> bool {
    &&& request.spec_target() != end
    &&& compatible(request, direction(request.spec_target(), end))
}

/// Whether a stop at `floor` during a trip that ends at `end` serves
/// `request`: it is the cab request for the floor, or the hall request of the
/// floor in the direction of the rest of the trip.
pub open spec fn served_at(end: u8, floor: u8, request: Request) -> bool {
    request == Request::Cab(floor) || request == Request::Hall(floor, direction(floor, end))
}

/// The predicate `served_at(end, floor, _)`.
pub open spec fn serving(end: u8, floor: u8) -> spec_fn(Request) -> bool {
    |request: Request| served_at(end, floor, request)
}

/// Mathematical model of a [`CurrentService`].
pub struct ServiceView {
    /// The request the cabin is travelling for; `None` while it is idle.
    pub primary: Option<Request>,
    /// The state of the cabin.
    pub cabin: State,
    /// The requests admitted to the trip, in the order of admission.
    pub piggyback: Seq<Request>,
}

impl ServiceView {
    /// The admission predicate: `request` can be served on the current trip.
    /// There is a primary request; `request` is neither the primary nor
    /// admitted already; its target differs from that of the primary; and it
    /// lies on the way.
    pub open spec fn serviceable(self, request: Request) -> bool {
        &&& self.primary is Some
        &&& !self.piggyback.contains(request)
        &&& joins(self.primary->0, self.cabin, request)
    }

    /// Whether the cabin stops when it reaches `floor`: the floor is the
    /// target of the primary request, or a piggyback request is served
    /// there.
    pub open spec fn stops_at(self, floor: u8) -> bool {
        &&& self.primary is Some
        &&& {
            let end = (self.primary->0).spec_target();
            ||| end == floor
            ||| self.piggyback.contains(Request::Cab(floor))
            ||| self.piggyback.contains(Request::Hall(floor, direction(floor, end)))
        }
    }

    /// The invariant of a trip. An idle cabin has no piggyback requests and
    /// does not move. A moving cabin is heading for the target of its
    /// primary request, which is another floor than the last one seen. The
    /// piggyback requests are pairwise distinct; each of them may ride along
    /// with the primary request, and none is for the floor where the cabin
    /// is.
    pub open spec fn wf(self) -> bool {
        &&& self.primary is None ==> self.piggyback.len() == 0
        &&& self.cabin matches State::Between(from, to) ==> {
            &&& self.primary is Some
            &&& (self.primary->0).spec_target() == to
            &&& from != to
        }
        &&& self.piggyback.no_duplicates()
        &&& forall|i: int|
            0 <= i < self.piggyback.len() ==> (#[trigger] self.piggyback[i]).spec_target()
                != self.cabin.spec_current_floor()
        &&& self.primary is Some ==> forall|i: int|
            0 <= i < self.piggyback.len() ==> rides_along(
                (self.primary->0).spec_target(),
                #[trigger] self.piggyback[i],
            )
    }
}

/// The trip in progress.
pub struct CurrentService {
    request: Option<Request>,
    state: State,
    serviceable_request: Vec<Request>,
}

impl View for CurrentService {
    type V = ServiceView;

    closed spec fn view(&self) -> ServiceView {
        ServiceView {
            primary: self.request,
            cabin: self.state,
            piggyback: self.serviceable_request@,
        }
    }
}

/// Computes whether `request` can join the trip for `primary` of a cabin in
/// state `state`.
pub fn joins_trip(primary: &Request, state: &State, request: &Request) -> (joins_it: bool)
    ensures
        joins_it == joins(*primary, *state, *request),
{
    let end = primary.target();
    let target = request.target();
    if target == end {
        return false;
    }
    let floor = state.get_current_floor();
    let travel = direction_from_to(floor, end);
    let direction_ok = match request {
        Request::Cab(_) => true,
        Request::Hall(_, wanted) => *wanted == travel,
    };
    direction_ok && if travel == DIRN_UP {
        floor < target && target < end
    } else if travel == DIRN_DOWN {
        floor > target && target > end
    } else {
        false
    }
}

impl CurrentService {
    /// Builds the record of an idle cabin in state `state`.
    pub fn from(state: State) -> (service: CurrentService)
        ensures
            service@ == (ServiceView { primary: None, cabin: state, piggyback: Seq::empty() }),
            !state.is_between() ==> service@.wf(),
    {
        CurrentService { request: None, state, serviceable_request: Vec::new() }
    }

    /// Tells whether a trip is in progress.
    pub fn is_init(&self) -> (init: bool)
        ensures
            init == (self@.primary is Some),
    {
        self.request.is_some()
    }

    /// Returns the primary request, if a trip is in progress.
    pub fn request(&self) -> (request: Option<Request>)
        ensures
            request == self@.primary,
    {
        self.request
    }

    /// Returns the state of the cabin.
    pub fn state(&self) -> (state: State)
        ensures
            state == self@.cabin,
    {
        self.state
    }

    /// Records that the cabin went into state `state`.
    pub fn set_state(&mut self, state: State)
        ensures
            final(self)@ == (ServiceView { cabin: state, ..old(self)@ }),
    {
        self.state = state;
    }

    /// Ends the trip: the cabin is idle and no piggyback request is left.
    pub fn reset(&mut self)
        ensures
            final(self)@ == (ServiceView {
                primary: None,
                cabin: old(self)@.cabin,
                piggyback: Seq::empty(),
            }),
            !old(self)@.cabin.is_between() ==> final(self)@.wf(),
    {
        self.request = None;
        self.serviceable_request.clear();
    }

    /// Makes `request` the primary request.
    pub fn update_request(&mut self, request: Request)
        ensures
            final(self)@ == (ServiceView { primary: Some(request), ..old(self)@ }),
            old(self)@.wf() && old(self)@.primary is None ==> final(self)@.wf(),
    {
        self.request = Some(request);
    }

    /// Tells whether `new_request` is one of the piggyback requests.
    pub fn already_serviceable(&self, new_request: &Request) -> (found: bool)
        ensures
            found == self@.piggyback.contains(*new_request),
    {
        let mut i: usize = 0;
        while i < self.serviceable_request.len()
            invariant
                i <= self.serviceable_request.len(),
                forall|j: int| 0 <= j < i ==> self.serviceable_request@[j] != *new_request,
            decreases self.serviceable_request.len() - i,
        {
            if self.serviceable_request[i] == *new_request {
                return true;
            }
            i += 1;
        }
        false
    }

    /// Tells whether `new_request` is the primary request.
    pub fn is_current_request(&self, new_request: &Request) -> (current: bool)
        requires
            self@.primary is Some,
        ensures
            current == (self@.primary == Some(*new_request)),
    {
        self.request.unwrap() == *new_request
    }

    /// Tells whether `floor` is the target of the primary request.
    pub fn is_final_floor(&self, floor: u8) -> (is_final: bool)
        requires
            self@.primary is Some,
        ensures
            is_final == ((self@.primary->0).spec_target() == floor),
    {
        self.request.unwrap().target() == floor
    }

    /// Decides whether `new_request` can be served on the current trip.
    pub fn is_serviceable(&self, new_request: &Request) -> (serviceable: bool)
        requires
            self@.primary is Some,
        ensures
            serviceable == self@.serviceable(*new_request),
    {
        if self.is_current_request(new_request) || self.already_serviceable(new_request) {
            return false;
        }
        let primary = self.request.unwrap();
        joins_trip(&primary, &self.state, new_request)
    }

    /// Admits `request` to the trip as a piggyback request.
    pub fn add_to_serviceable(&mut self, request: Request)
        requires
            old(self)@.serviceable(request),
        ensures
            final(self)@ == (ServiceView {
                piggyback: old(self)@.piggyback.push(request),
                ..old(self)@
            }),
            old(self)@.wf() ==> final(self)@.wf(),
    {
        self.serviceable_request.push(request);
        proof {
            if old(self)@.wf() {
                lemma_admission_keeps_trip(old(self)@, request);
            }
        }
    }

    /// Starts the piggyback list of a trip afresh from the queue: the queued
    /// requests that can join the trip leave the queue and become the
    /// piggyback requests, in the order in which they were queued. The
    /// requests that cannot join stay queued in their order.
    pub fn update_serviceable(&mut self, queue: &mut Queue)
        requires
            old(self)@.primary is Some,
            old(self)@.wf(),
            old(queue).wf(),
        ensures
            final(queue).wf(),
            final(queue).spec_limit() == old(queue).spec_limit(),
            final(queue)@ == old(queue)@.filter(
                negation(joining(old(self)@.primary->0, old(self)@.cabin)),
            ),
            final(self)@ == (ServiceView {
                piggyback: old(queue)@.filter(
                    joining(old(self)@.primary->0, old(self)@.cabin),
                ),
                ..old(self)@
            }),
            final(self)@.wf(),
    {
        self.serviceable_request.clear();
        let primary = self.request.unwrap();
        let state = self.state;
        let ghost queued = queue@;
        let ghost join = joining(primary, state);
        let keep_waiting = |request: &Request| -> (keep: bool)
            ensures
                keep == !joins(primary, state, *request),
            { !joins_trip(&primary, &state, request) };
        let newly_serviceable = queue.retain(keep_waiting);
        proof {
            let kept = choose|kept: spec_fn(Request) -> bool|
                {
                    &&& forall|request: Request| #[trigger]
                        queued.contains(request) ==> call_ensures(
                            keep_waiting,
                            (&request,),
                            kept(request),
                        )
                    &&& queue@ == #[trigger] queued.filter(kept)
                    &&& newly_serviceable@ == queued.filter(negation(kept))
                };
            assert forall|i: int| 0 <= i < queued.len() implies kept(#[trigger] queued[i])
                == negation(join)(queued[i]) by {
                assert(queued.contains(queued[i]));
            }
            lemma_filter_agree(queued, kept, negation(join));
            lemma_filter_agree(queued, negation(kept), join);
            lemma_filter_subsequence(queued, join);
            assert(newly_serviceable@.take(0) =~= Seq::<Request>::empty());
        }
        let mut i: usize = 0;
        while i < newly_serviceable.len()
            invariant
                i <= newly_serviceable.len(),
                newly_serviceable@ == queued.filter(join),
                newly_serviceable@.no_duplicates(),
                forall|request: Request| #[trigger]
                    newly_serviceable@.contains(request) ==> join(request),
                join == joining(primary, state),
                self@ == (ServiceView {
                    piggyback: newly_serviceable@.take(i as int),
                    ..old(self)@
                }),
                old(self)@.primary == Some(primary),
                old(self)@.cabin == state,
                self@.wf(),
            decreases newly_serviceable.len() - i,
        {
            let s_req = newly_serviceable[i];
            proof {
                assert(newly_serviceable@.contains(s_req));
                assert(join(s_req));
                assert(!newly_serviceable@.take(i as int).contains(s_req)) by {
                    if newly_serviceable@.take(i as int).contains(s_req) {
                        let j = choose|j: int|
                            0 <= j < i && newly_serviceable@.take(i as int)[j] == s_req;
                        assert(newly_serviceable@[j] == newly_serviceable@[i as int]);
                    }
                }
            }
            if !self.already_serviceable(&s_req) && !self.is_current_request(&s_req) {
                self.add_to_serviceable(s_req);
            }
            proof {
                assert(newly_serviceable@.take(i as int).push(s_req)
                    =~= newly_serviceable@.take(i as int + 1));
            }
            i += 1;
        }
        proof {
            assert(newly_serviceable@.take(i as int) =~= newly_serviceable@);
        }
    }

    /// Decides whether the cabin stops at `floor`.
    pub fn does_stop(&self, floor: u8) -> (stops: bool)
        requires
            self@.primary is Some,
        ensures
            stops == self@.stops_at(floor),
    {
        let primary = self.request.unwrap();
        if self.is_final_floor(floor) {
            true
        } else {
            let serviceable_hall_req = Request::Hall(
                floor,
                State::get_direction_from_to(floor, primary.target()),
            );
            let serviceable_call_req = Request::Cab(floor);
            self.already_serviceable(&serviceable_call_req) || self.already_serviceable(
                &serviceable_hall_req,
            )
        }
    }

    /// Takes the piggyback requests that a stop at `floor` serves off the
    /// trip and returns them. Both the requests returned and those that stay
    /// keep their order.
    pub fn remove_serviced(&mut self, floor: u8) -> (serviced: Vec<Request>)
        requires
            old(self)@.primary is Some,
            (old(self)@.primary->0).spec_target() != floor,
        ensures
            serviced@ == old(self)@.piggyback.filter(
                serving((old(self)@.primary->0).spec_target(), floor),
            ),
            final(self)@ == (ServiceView {
                piggyback: old(self)@.piggyback.filter(
                    negation(serving((old(self)@.primary->0).spec_target(), floor)),
                ),
                ..old(self)@
            }),
            old(self)@.wf() ==> final(self)@.wf(),
            old(self)@.wf() ==> forall|request: Request| #[trigger]
                final(self)@.piggyback.contains(request) ==> request.spec_target() != floor,
    {
        let primary = self.request.unwrap();
        let serviceable_hall_req = Request::Hall(
            floor,
            State::get_direction_from_to(floor, primary.target()),
        );
        let serviceable_call_req = Request::Cab(floor);
        let ghost before = self.serviceable_request@;
        let ghost served = serving(primary.spec_target(), floor);
        let mut serviced: Vec<Request> = Vec::new();
        let mut rest: Vec<Request> = Vec::new();
        let mut i: usize = 0;
        proof {
            reveal(Seq::filter);
            assert(before.take(0) =~= Seq::<Request>::empty());
        }
        while i < self.serviceable_request.len()
            invariant
                i <= self.serviceable_request.len(),
                self.serviceable_request@ == before,
                served == serving(primary.spec_target(), floor),
                serviceable_call_req == Request::Cab(floor),
                serviceable_hall_req == Request::Hall(
                    floor,
                    direction(floor, primary.spec_target()),
                ),
                serviced@ == before.take(i as int).filter(served),
                rest@ == before.take(i as int).filter(negation(served)),
            decreases self.serviceable_request.len() - i,
        {
            let other_req = self.serviceable_request[i];
            proof {
                assert(before.take(i as int + 1) =~= before.take(i as int).push(other_req));
                before.take(i as int).lemma_filter_push(other_req, served);
                before.take(i as int).lemma_filter_push(other_req, negation(served));
            }
            if other_req == serviceable_call_req || other_req == serviceable_hall_req {
                serviced.push(other_req);
            } else {
                rest.push(other_req);
            }
            i += 1;
        }
        self.serviceable_request = rest;
        proof {
            assert(before.take(i as int) =~= before);
            if old(self)@.wf() {
                lemma_stop_keeps_trip(old(self)@, floor);
            }
        }
        serviced
    }
}

/// Admitting a serviceable request keeps the invariant of the trip: what is
/// serviceable may ride along.
pub proof fn lemma_admission_keeps_trip(trip: ServiceView, request: Request)
    requires
        trip.wf(),
        trip.serviceable(request),
    ensures
        rides_along((trip.primary->0).spec_target(), request),
        (ServiceView { piggyback: trip.piggyback.push(request), ..trip }).wf(),
{
    let after = trip.piggyback.push(request);
    assert forall|i: int, j: int|
        0 <= i < after.len() && 0 <= j < after.len() && i != j implies after[i] != after[j] by {
        if i < trip.piggyback.len() {
            assert(trip.piggyback.contains(after[i])) by {
                assert(trip.piggyback[i] == after[i]);
            }
        }
        if j < trip.piggyback.len() {
            assert(trip.piggyback.contains(after[j])) by {
                assert(trip.piggyback[j] == after[j]);
            }
        }
    }
    assert forall|i: int| 0 <= i < after.len() implies rides_along(
        (trip.primary->0).spec_target(),
        #[trigger] after[i],
    ) by {
        if i < trip.piggyback.len() {
            assert(after[i] == trip.piggyback[i]);
        }
    }
}

/// Removing the requests served by a stop at `floor` keeps the invariant of
/// the trip, and no piggyback request for that floor is left.
pub proof fn lemma_stop_keeps_trip(trip: ServiceView, floor: u8)
    requires
        trip.wf(),
        trip.primary is Some,
    ensures
        (ServiceView {
            piggyback: trip.piggyback.filter(
                negation(serving((trip.primary->0).spec_target(), floor)),
            ),
            ..trip
        }).wf(),
        forall|request: Request| #[trigger]
            trip.piggyback.filter(
                negation(serving((trip.primary->0).spec_target(), floor)),
            ).contains(request) ==> request.spec_target() != floor,
{
    let end = (trip.primary->0).spec_target();
    let stays = negation(serving(end, floor));
    let after = trip.piggyback.filter(stays);
    lemma_filter_subsequence(trip.piggyback, stays);
    assert forall|request: Request| #[trigger] after.contains(request) implies rides_along(
        end,
        request,
    ) && request.spec_target() != floor by {
        assert(trip.piggyback.contains(request));
        let k = choose|k: int| 0 <= k < trip.piggyback.len() && trip.piggyback[k] == request;
        assert(rides_along(end, trip.piggyback[k]));
        assert(stays(request));
    }
    assert forall|i: int| 0 <= i < after.len() implies rides_along(end, #[trigger] after[i])
        && after[i].spec_target() != trip.cabin.spec_current_floor() by {
        assert(after.contains(after[i]));
        assert(trip.piggyback.contains(after[i]));
        let k = choose|k: int| 0 <= k < trip.piggyback.len() && trip.piggyback[k] == after[i];
        assert(trip.piggyback[k].spec_target() != trip.cabin.spec_current_floor());
    }
}

} // verus!
