//! The scheduler: it takes the hardware events one at a time, keeps the
//! request queue and the current trip, and answers each event with the
//! actuator commands to carry out, in order.

use vstd::prelude::*;
use crate::cabin_state::State;
use crate::codes::{direction, CAB, CALL_KINDS, DIRN_DOWN, DIRN_STOP, DIRN_UP, HALL_DOWN};
use crate::current_service::{
    joining,
    lemma_admission_keeps_trip,
    lemma_stop_keeps_trip,
    rides_along,
    serving,
    CurrentService,
    ServiceView,
};
use crate::queue::{
    accepts,
    head,
    lemma_filter_subsequence,
    lemma_popped_well_formed,
    lemma_pushed_well_formed,
    negation,
    pushed,
    well_formed,
    Queue,
};
use crate::request::Request;

verus! {

/// Capacity of the request queue of a scheduler built by `ElevatorState::new`.
pub const QUEUE_CAPACITY: usize = 8;

/// A command for an actuator. The caller carries the commands of a handler
/// out in the order in which the handler returned them.
#[derive(Clone, Copy, Debug, PartialEq, Eq, Structural)]
pub enum Command {
    /// Run the motor in the direction, or stop it.
    MotorDirection(u8),
    /// Switch the call-button light at the floor, with the light identifier,
    /// on or off.
    CallButtonLight(u8, u8, bool),
    /// Switch the door light on or off.
    DoorLight(bool),
    /// Open the door and start its hold-open timer.
    OpenDoor,
    /// Tell the door timer whether the door is obstructed.
    Obstruction(bool),
}

/// A call button that was pressed: the floor of the button and its kind,
/// which is `HALL_UP`, `HALL_DOWN` or `CAB`.
#[derive(Clone, Copy, Debug, PartialEq, Eq, Structural)]
pub struct CallButton {
    /// The floor of the button; for a cab button, the floor written on it.
    pub floor: u8,
    /// The kind of the button.
    pub call: u8,
}

/// A hardware event.
#[derive(Clone, Copy, Debug, PartialEq, Eq, Structural)]
pub enum Event {
    /// A call button was pressed.
    CallButton(CallButton),
    /// The cabin reached the floor.
    FloorSensor(u8),
    /// The stop button was pressed or released.
    StopButton(bool),
    /// The door obstruction sensor changed.
    Obstruction(bool),
    /// The door timer ran out: the door has closed.
    CloseDoor,
}

/// The request made by pressing `call`.
pub open spec fn request_of(call: CallButton) -> Request {
    if call.call == CAB {
        Request::Cab(call.floor)
    } else if call.call == HALL_DOWN {
        Request::Hall(call.floor, DIRN_DOWN)
    } else {
        Request::Hall(call.floor, DIRN_UP)
    }
}

/// The commands that switch off, at `floor`, the light of each request of
/// `served`, in the order of `served`.
pub open spec fn lights_off_for(floor: u8, served: Seq<Request>) -> Seq<Command> {
    served.map_values(
        |request: Request| Command::CallButtonLight(floor, request.spec_light_id(), false),
    )
}

/// The commands that switch the light of kind `kind` off at each of the
/// first `floors` floors, lowest floor first.
pub open spec fn kind_off(floors: nat, kind: u8) -> Seq<Command> {
    Seq::new(floors, |floor: int| Command::CallButtonLight(floor as u8, kind, false))
}

/// The commands that switch the lights of the first `kinds` kinds off at
/// each of the first `floors` floors: kind by kind, and lowest floor first
/// within a kind.
pub open spec fn all_off(floors: nat, kinds: nat) -> Seq<Command>
    decreases kinds,
{
    if kinds == 0 {
        Seq::empty()
    } else {
        all_off(floors, (kinds - 1) as nat) + kind_off(floors, (kinds - 1) as u8)
    }
}

/// Mathematical model of an [`ElevatorState`].
#[verifier::ext_equal]
pub struct ElevatorView {
    /// Number of floors that the cabin serves.
    pub num_floors: u8,
    /// Capacity of the request queue.
    pub limit: nat,
    /// The queued requests, head first.
    pub queue: Seq<Request>,
    /// The current trip.
    pub service: ServiceView,
}

impl ElevatorView {
    /// The invariant of the scheduler. The queue holds pairwise distinct
    /// requests within its capacity, the current trip is well formed, and the
    /// queued requests and the primary request are valid.
    pub open spec fn wf(self) -> bool {
        &&& well_formed(self.queue, self.limit)
        &&& self.service.wf()
        &&& forall|i: int| 0 <= i < self.queue.len() ==> (#[trigger] self.queue[i]).is_valid()
        &&& self.service.primary is Some ==> (self.service.primary->0).is_valid()
    }

    /// The state with the cabin in state `cabin`.
    pub open spec fn with_cabin(self, cabin: State) -> ElevatorView {
        ElevatorView { service: ServiceView { cabin, ..self.service }, ..self }
    }

    /// The state after the current trip ended with the cabin in state
    /// `cabin`.
    pub open spec fn idle_in(self, cabin: State) -> ElevatorView {
        ElevatorView {
            service: ServiceView { primary: None, cabin, piggyback: Seq::empty() },
            ..self
        }
    }

    /// A new call: the state after it, and whether its light is to be
    /// switched on. An idle cabin with an empty queue takes the request as
    /// its primary request. A request that is the primary or a piggyback
    /// request already changes nothing. A request that is serviceable on the
    /// current trip becomes a piggyback request. Every other request is
    /// pushed onto the queue, which may refuse it.
    pub open spec fn add_call(self, request: Request) -> (ElevatorView, bool) {
        if self.service.primary is None && self.queue.len() == 0 {
            (
                ElevatorView {
                    service: ServiceView { primary: Some(request), ..self.service },
                    ..self
                },
                true,
            )
        } else if self.service.primary is Some && (self.service.piggyback.contains(request)
            || self.service.primary == Some(request)) {
            (self, false)
        } else if self.service.primary is Some && self.service.serviceable(request) {
            (
                ElevatorView {
                    service: ServiceView {
                        piggyback: self.service.piggyback.push(request),
                        ..self.service
                    },
                    ..self
                },
                true,
            )
        } else {
            (
                ElevatorView { queue: pushed(self.queue, self.limit, request), ..self },
                accepts(self.queue, self.limit, request),
            )
        }
    }

    /// The cabin carries its primary request out from a floor at which it
    /// stands with the door closed. If the request is for that floor, the
    /// trip ends there: the door opens and the light of the request goes
    /// off. Else the cabin leaves for the target.
    pub open spec fn dispatch(self) -> (ElevatorView, Seq<Command>) {
        let floor = self.service.cabin.spec_current_floor();
        let primary = self.service.primary->0;
        let end = primary.spec_target();
        if end == floor {
            (
                self.idle_in(State::DoorOpen(floor)),
                seq![
                    Command::OpenDoor,
                    Command::DoorLight(true),
                    Command::CallButtonLight(floor, primary.spec_light_id(), false),
                ],
            )
        } else {
            (
                self.with_cabin(State::Between(floor, end)),
                seq![Command::MotorDirection(direction(floor, end))],
            )
        }
    }

    /// The head of the queue becomes the primary request. The queued
    /// requests that can join its trip become the piggyback requests, the
    /// others stay queued.
    pub open spec fn promote(self) -> ElevatorView {
        let primary = self.queue[0];
        let rest = self.queue.drop_first();
        let join = joining(primary, self.service.cabin);
        ElevatorView {
            queue: rest.filter(negation(join)),
            service: ServiceView {
                primary: Some(primary),
                cabin: self.service.cabin,
                piggyback: rest.filter(join),
            },
            ..self
        }
    }

    /// The cabin looks for work. Only a cabin that stands with its door
    /// closed does: it carries its primary request out, or, if it is idle,
    /// promotes the head of the queue and carries that out.
    pub open spec fn update_elevator(self) -> (ElevatorView, Seq<Command>) {
        if !self.service.cabin.is_door_closed() {
            (self, Seq::empty())
        } else if self.service.primary is Some {
            self.dispatch()
        } else if self.queue.len() > 0 {
            self.promote().dispatch()
        } else {
            (self, Seq::empty())
        }
    }

    /// A call button was pressed. If the call is taken, its light goes on
    /// and the cabin looks for work.
    pub open spec fn handle_call_button(self, call: CallButton) -> (ElevatorView, Seq<Command>) {
        let request = request_of(call);
        let (taken, light) = self.add_call(request);
        if light {
            let (after, commands) = taken.update_elevator();
            (
                after,
                seq![Command::CallButtonLight(call.floor, request.spec_light_id(), true)]
                    + commands,
            )
        } else {
            (taken, Seq::empty())
        }
    }

    /// The cabin reached `floor` during a trip. If it stops there, the motor
    /// stops and the door opens. At the target of the primary request the
    /// trip ends: the light of the primary goes off, and so does the light at
    /// this floor of the kind of the request at the head of the queue. At
    /// another stop the piggyback requests served there leave the trip and
    /// their lights go off. If the cabin does not stop, it is between `floor`
    /// and the target of the primary.
    pub open spec fn handle_floor_sensor(self, floor: u8) -> (ElevatorView, Seq<Command>) {
        let primary = self.service.primary->0;
        let end = primary.spec_target();
        let stop = seq![
            Command::MotorDirection(DIRN_STOP),
            Command::OpenDoor,
            Command::DoorLight(true),
        ];
        if !self.service.stops_at(floor) {
            (self.with_cabin(State::Between(floor, end)), Seq::empty())
        } else if end == floor {
            let next = match head(self.queue) {
                Some(request) => seq![request],
                None => Seq::empty(),
            };
            (
                self.idle_in(State::DoorOpen(floor)),
                stop.push(Command::CallButtonLight(floor, primary.spec_light_id(), false))
                    + lights_off_for(floor, next),
            )
        } else {
            (
                ElevatorView {
                    service: ServiceView {
                        primary: self.service.primary,
                        cabin: State::DoorOpen(floor),
                        piggyback: self.service.piggyback.filter(negation(serving(end, floor))),
                    },
                    ..self
                },
                stop + lights_off_for(floor, self.service.piggyback.filter(serving(end, floor))),
            )
        }
    }

    /// The door has closed: the door light goes off and the cabin looks for
    /// work.
    pub open spec fn handle_close_door(self) -> (ElevatorView, Seq<Command>) {
        let floor = self.service.cabin.spec_current_floor();
        let (after, commands) = self.with_cabin(State::DoorClose(floor)).update_elevator();
        (after, seq![Command::DoorLight(false)] + commands)
    }

    /// The stop button: when it is pressed, every call-button light of
    /// every floor goes off. Nothing else changes.
    pub open spec fn handle_stop(self, is_pressed: bool) -> (ElevatorView, Seq<Command>) {
        if is_pressed {
            (self, all_off(self.num_floors as nat, CALL_KINDS as nat))
        } else {
            (self, Seq::empty())
        }
    }

    /// The obstruction sensor: its reading is passed on to the door timer.
    pub open spec fn handle_obstruction(self, is_obstructed: bool) -> (
        ElevatorView,
        Seq<Command>,
    ) {
        (self, seq![Command::Obstruction(is_obstructed)])
    }

    /// Whether the scheduler can take `event` in this state. A call button is
    /// of one of the three kinds. A floor is reached only during a trip. The
    /// door closes only while it is open.
    pub open spec fn admits(self, event: Event) -> bool {
        match event {
            Event::CallButton(call) => call.call < CALL_KINDS,
            Event::FloorSensor(_) => self.service.primary is Some,
            Event::StopButton(_) => true,
            Event::Obstruction(_) => true,
            Event::CloseDoor => self.service.cabin.is_door_open(),
        }
    }

    /// The state after `event` and the commands it causes.
    pub open spec fn handle_event(self, event: Event) -> (ElevatorView, Seq<Command>) {
        match event {
            Event::CallButton(call) => self.handle_call_button(call),
            Event::FloorSensor(floor) => self.handle_floor_sensor(floor),
            Event::StopButton(is_pressed) => self.handle_stop(is_pressed),
            Event::Obstruction(is_obstructed) => self.handle_obstruction(is_obstructed),
            Event::CloseDoor => self.handle_close_door(),
        }
    }
}

/// The state of a scheduler that starts with the cabin standing at
/// `current_floor`, door closed: the first trip is for the floor itself.
pub open spec fn calibrated(current_floor: u8, num_floors: u8, limit: nat) -> ElevatorView {
    ElevatorView {
        num_floors,
        limit,
        queue: Seq::empty(),
        service: ServiceView {
            primary: Some(Request::Cab(current_floor)),
            cabin: State::DoorClose(current_floor),
            piggyback: Seq::empty(),
        },
    }
}

/// The state of a scheduler that starts with the cabin between floors: the
/// cabin counts as coming down from the highest floor number towards floor
/// 0, and the first trip is for floor 0.
pub open spec fn uncalibrated(num_floors: u8, limit: nat) -> ElevatorView {
    calibrated(0, num_floors, limit).with_cabin(State::Between(u8::MAX, 0))
}

/// The scheduler of one cabin.
pub struct ElevatorState {
    num_floors: u8,
    main_queue: Queue,
    current_service: CurrentService,
}

impl View for ElevatorState {
    type V = ElevatorView;

    closed spec fn view(&self) -> ElevatorView {
        ElevatorView {
            num_floors: self.num_floors,
            limit: self.main_queue.spec_limit(),
            queue: self.main_queue@,
            service: self.current_service@,
        }
    }
}

impl ElevatorState {
    /// The invariant of the scheduler.
    pub open spec fn wf(&self) -> bool {
        self@.wf()
    }

    /// Builds the scheduler of a cabin that stands at `current_floor` with
    /// its door closed, for a building of `num_floors` floors. The queue has
    /// room for `QUEUE_CAPACITY` requests.
    pub fn new(current_floor: u8, num_floors: u8) -> (scheduler: ElevatorState)
        ensures
            scheduler.wf(),
            scheduler@ == calibrated(current_floor, num_floors, QUEUE_CAPACITY as nat),
    {
        ElevatorState::with_capacity(current_floor, num_floors, QUEUE_CAPACITY)
    }

    /// Builds the scheduler of a cabin that is between floors, for a
    /// building of `num_floors` floors. The caller sends the cabin down; the
    /// first floor it reaches tells where it is.
    pub fn new_uncalibrated(num_floors: u8) -> (scheduler: ElevatorState)
        ensures
            scheduler.wf(),
            scheduler@ == uncalibrated(num_floors, QUEUE_CAPACITY as nat),
    {
        let mut uncalibrated = ElevatorState::new(0, num_floors);
        uncalibrated.current_service.set_state(State::Between(u8::MAX, 0));
        uncalibrated
    }

    /// Builds the scheduler of a cabin that stands at `current_floor` with
    /// its door closed, with a queue that has room for `capacity` requests.
    pub fn with_capacity(current_floor: u8, num_floors: u8, capacity: usize) -> (scheduler:
        ElevatorState)
        ensures
            scheduler.wf(),
            scheduler@ == calibrated(current_floor, num_floors, capacity as nat),
    {
        let mut calibrated = ElevatorState {
            num_floors,
            main_queue: Queue::new(capacity),
            current_service: CurrentService::from(State::DoorClose(current_floor)),
        };
        calibrated.add_call(Request::Cab(current_floor));
        calibrated
    }

    /// Builds the scheduler from the first reading of the floor sensor. With
    /// a floor, the cabin stands there. Without one it is between floors: the
    /// scheduler starts uncalibrated and the motor is sent down.
    pub fn calibrate(sensor: Option<u8>, num_floors: u8) -> (start: (ElevatorState, Vec<Command>))
        ensures
            start.0.wf(),
            start.0@ == match sensor {
                Some(floor) => calibrated(floor, num_floors, QUEUE_CAPACITY as nat),
                None => uncalibrated(num_floors, QUEUE_CAPACITY as nat),
            },
            start.1@ == match sensor {
                Some(_) => Seq::<Command>::empty(),
                None => seq![Command::MotorDirection(DIRN_DOWN)],
            },
    {
        let mut commands: Vec<Command> = Vec::new();
        match sensor {
            None => {
                commands.push(Command::MotorDirection(DIRN_DOWN));
                (ElevatorState::new_uncalibrated(num_floors), commands)
            },
            Some(current_floor) => (ElevatorState::new(current_floor, num_floors), commands),
        }
    }

    /// Returns the state of the cabin.
    pub fn cabin_state(&self) -> (state: State)
        ensures
            state == self@.service.cabin,
    {
        self.current_service.state()
    }

    /// Returns the primary request, if a trip is in progress.
    pub fn primary(&self) -> (request: Option<Request>)
        ensures
            request == self@.service.primary,
    {
        self.current_service.request()
    }

    /// Returns the number of queued requests.
    pub fn queued(&self) -> (size: usize)
        ensures
            size == self@.queue.len(),
    {
        self.main_queue.size()
    }

    /// Tells whether the scheduler can take `event` in its present state.
    pub fn can_handle(&self, event: &Event) -> (admitted: bool)
        ensures
            admitted == self@.admits(*event),
    {
        match event {
            Event::CallButton(call) => call.call < CALL_KINDS,
            Event::FloorSensor(_) => self.current_service.is_init(),
            Event::StopButton(_) => true,
            Event::Obstruction(_) => true,
            Event::CloseDoor => match self.current_service.state() {
                State::DoorOpen(_) => true,
                _ => false,
            },
        }
    }

    /// Takes one hardware event and returns the commands to carry out.
    pub fn handle_event(&mut self, event: Event) -> (commands: Vec<Command>)
        requires
            old(self).wf(),
            old(self)@.admits(event),
        ensures
            final(self).wf(),
            final(self)@ == old(self)@.handle_event(event).0,
            commands@ == old(self)@.handle_event(event).1,
    {
        match event {
            Event::CallButton(call) => self.handle_call_button(call),
            Event::FloorSensor(floor) => self.handle_floor_sensor(floor),
            Event::StopButton(is_pressed) => self.handle_stop(is_pressed),
            Event::Obstruction(is_obstructed) => self.handle_obstruction(is_obstructed),
            Event::CloseDoor => self.handle_close_door(),
        }
    }

    /// The obstruction sensor changed: the reading goes to the door timer.
    pub fn handle_obstruction(&self, is_obstructed: bool) -> (commands: Vec<Command>)
        ensures
            commands@ == self@.handle_obstruction(is_obstructed).1,
    {
        let mut commands: Vec<Command> = Vec::new();
        commands.push(Command::Obstruction(is_obstructed));
        commands
    }

    /// The stop button changed. When it is pressed, every call-button light
    /// goes off: for each kind of light, at each floor. Motion and pending
    /// requests stay as they are.
    pub fn handle_stop(&self, is_pressed: bool) -> (commands: Vec<Command>)
        ensures
            commands@ == self@.handle_stop(is_pressed).1,
            is_pressed ==> forall|floor: u8, kind: u8|
                floor < self@.num_floors && kind < CALL_KINDS ==> #[trigger] commands@.contains(
                    Command::CallButtonLight(floor, kind, false),
                ),
            forall|i: int|
                0 <= i < commands@.len() ==> (#[trigger] commands@[i] matches Command::CallButtonLight(
                    _,
                    _,
                    on,
                ) && !on),
    {
        let mut commands: Vec<Command> = Vec::new();
        if is_pressed {
            let mut i: u8 = 0;
            while i < CALL_KINDS
                invariant
                    i <= CALL_KINDS,
                    commands@ == all_off(self.num_floors as nat, i as nat),
                decreases CALL_KINDS - i,
            {
                let mut j: u8 = 0;
                let ghost done = commands@;
                while j < self.num_floors
                    invariant
                        j <= self.num_floors,
                        i < CALL_KINDS,
                        commands@ == done + kind_off(j as nat, i),
                    decreases self.num_floors - j,
                {
                    commands.push(Command::CallButtonLight(j, i, false));
                    assert(commands@ =~= done + kind_off((j + 1) as nat, i));
                    j += 1;
                }
                i += 1;
            }
            proof {
                lemma_all_off(self.num_floors as nat, CALL_KINDS as nat);
            }
        }
        commands
    }

    /// The door has closed. The door light goes off and the cabin looks for
    /// work.
    pub fn handle_close_door(&mut self) -> (commands: Vec<Command>)
        requires
            old(self).wf(),
            old(self)@.service.cabin.is_door_open(),
        ensures
            final(self).wf(),
            final(self)@ == old(self)@.handle_close_door().0,
            commands@ == old(self)@.handle_close_door().1,
    {
        proof {
            lemma_close_door_keeps_invariant(self@);
        }
        let mut commands: Vec<Command> = Vec::new();
        let current_floor = self.current_service.state().get_current_floor();
        commands.push(Command::DoorLight(false));
        self.current_service.set_state(State::DoorClose(current_floor));
        self.update_elevator(&mut commands);
        commands
    }

    /// A call button was pressed. If the call is taken, its light goes on
    /// and the cabin looks for work; else nothing happens.
    pub fn handle_call_button(&mut self, call: CallButton) -> (commands: Vec<Command>)
        requires
            old(self).wf(),
            call.call < CALL_KINDS,
        ensures
            final(self).wf(),
            final(self)@ == old(self)@.handle_call_button(call).0,
            commands@ == old(self)@.handle_call_button(call).1,
    {
        let mut commands: Vec<Command> = Vec::new();
        let request = if call.call == CAB {
            Request::Cab(call.floor)
        } else if call.call == HALL_DOWN {
            Request::Hall(call.floor, DIRN_DOWN)
        } else {
            Request::Hall(call.floor, DIRN_UP)
        };
        let light_id = request.light_id();
        if self.add_call(request) {
            commands.push(Command::CallButtonLight(call.floor, light_id, true));
            self.update_elevator(&mut commands);
        }
        commands
    }

    /// The cabin reached `current_floor`. Decides whether it stops there,
    /// and what a stop serves.
    pub fn handle_floor_sensor(&mut self, current_floor: u8) -> (commands: Vec<Command>)
        requires
            old(self).wf(),
            old(self)@.service.primary is Some,
        ensures
            final(self).wf(),
            final(self)@ == old(self)@.handle_floor_sensor(current_floor).0,
            commands@ == old(self)@.handle_floor_sensor(current_floor).1,
    {
        proof {
            lemma_floor_sensor_keeps_invariant(self@, current_floor);
        }
        let mut commands: Vec<Command> = Vec::new();
        let primary = self.current_service.request().unwrap();
        if self.current_service.does_stop(current_floor) {
            commands.push(Command::MotorDirection(DIRN_STOP));
            self.open_door(current_floor, &mut commands);
            if self.current_service.is_final_floor(current_floor) {
                self.current_service.reset();
                commands.push(Command::CallButtonLight(current_floor, primary.light_id(), false));
                if let Some(next_request) = self.main_queue.peek() {
                    assert(next_request == self@.queue[0]);
                    commands.push(
                        Command::CallButtonLight(current_floor, next_request.light_id(), false),
                    );
                    assert(commands@ =~= old(self)@.handle_floor_sensor(current_floor).1);
                } else {
                    assert(commands@ =~= old(self)@.handle_floor_sensor(current_floor).1);
                }
            } else {
                let ghost trip = self.current_service@;
                let ghost stop = commands@;
                let serviced_requests = self.current_service.remove_serviced(current_floor);
                proof {
                    lemma_filter_subsequence(
                        trip.piggyback,
                        serving(primary.spec_target(), current_floor),
                    );
                }
                let mut i: usize = 0;
                while i < serviced_requests.len()
                    invariant
                        i <= serviced_requests.len(),
                        forall|k: int|
                            0 <= k < serviced_requests.len() ==> (
                            #[trigger] serviced_requests@[k]).is_valid(),
                        commands@ == stop + lights_off_for(
                            current_floor,
                            serviced_requests@.take(i as int),
                        ),
                    decreases serviced_requests.len() - i,
                {
                    let s_req = serviced_requests[i];
                    commands.push(
                        Command::CallButtonLight(current_floor, s_req.light_id(), false),
                    );
                    assert(commands@ =~= stop + lights_off_for(
                        current_floor,
                        serviced_requests@.take(i as int + 1),
                    ));
                    i += 1;
                }
                assert(serviced_requests@.take(i as int) =~= serviced_requests@);
            }
        } else {
            self.current_service.set_state(State::Between(current_floor, primary.target()));
        }
        commands
    }

    /// The door opens at `current_floor`: the door timer is told first, then
    /// the door light goes on.
    fn open_door(&mut self, current_floor: u8, commands: &mut Vec<Command>)
        ensures
            final(self)@ == old(self)@.with_cabin(State::DoorOpen(current_floor)),
            final(commands)@ == old(commands)@.push(Command::OpenDoor).push(
                Command::DoorLight(true),
            ),
    {
        self.current_service.set_state(State::DoorOpen(current_floor));
        commands.push(Command::OpenDoor);
        commands.push(Command::DoorLight(true));
    }

    /// Takes a new call. Returns whether the light of its button is to be
    /// switched on: the call became the primary request, joined the current
    /// trip, or was queued. A call that is already being served, and one
    /// that the queue refuses, returns `false`.
    pub fn add_call(&mut self, request: Request) -> (light: bool)
        requires
            old(self).wf(),
            request.is_valid(),
        ensures
            final(self).wf(),
            final(self)@ == old(self)@.add_call(request).0,
            light == old(self)@.add_call(request).1,
    {
        proof {
            lemma_add_call_keeps_invariant(self@, request);
        }
        if !self.current_service.is_init() {
            if self.main_queue.is_empty() {
                self.current_service.update_request(request);
                return true;
            }
        } else {
            if self.current_service.already_serviceable(&request)
                || self.current_service.is_current_request(&request) {
                return false;
            } else if self.current_service.is_serviceable(&request) {
                self.current_service.add_to_serviceable(request);
                return true;
            }
        }
        self.main_queue.push_unique(request)
    }

    /// The cabin looks for work, and the commands that follow are appended
    /// to `commands`.
    fn update_elevator(&mut self, commands: &mut Vec<Command>)
        requires
            old(self).wf(),
        ensures
            final(self).wf(),
            final(self)@ == old(self)@.update_elevator().0,
            final(commands)@ == old(commands)@ + old(self)@.update_elevator().1,
    {
        proof {
            lemma_update_keeps_invariant(self@);
        }
        match self.current_service.state() {
            State::DoorOpen(_) | State::Between(_, _) => {
                assert(commands@ =~= old(commands)@ + Seq::<Command>::empty());
            },
            State::DoorClose(current_floor) => {
                if !self.current_service.is_init() && !self.main_queue.is_empty() {
                    let next = self.main_queue.pop().unwrap();
                    self.current_service.update_request(next);
                    self.current_service.update_serviceable(&mut self.main_queue);
                    assert(self@ == old(self)@.promote());
                }
                if self.current_service.is_init() {
                    let current_request = self.current_service.request().unwrap();
                    if current_request.target() == current_floor {
                        self.current_service.reset();
                        self.open_door(current_floor, commands);
                        commands.push(
                            Command::CallButtonLight(
                                current_floor,
                                current_request.light_id(),
                                false,
                            ),
                        );
                    } else {
                        self.current_service.set_state(
                            State::Between(current_floor, current_request.target()),
                        );
                        commands.push(
                            Command::MotorDirection(self.current_service.state().get_direction()),
                        );
                    }
                    assert(commands@ =~= old(commands)@ + old(self)@.update_elevator().1);
                } else {
                    assert(commands@ =~= old(commands)@ + Seq::<Command>::empty());
                }
            },
        }
    }
}

/// The command list of the stop button holds the light of every kind at
/// every floor, and nothing but commands that switch a call-button light
/// off.
pub proof fn lemma_all_off(floors: nat, kinds: nat)
    requires
        floors <= u8::MAX,
        kinds <= u8::MAX,
    ensures
        all_off(floors, kinds).len() == kinds * floors,
        forall|floor: u8, kind: u8|
            floor < floors && kind < kinds ==> #[trigger] all_off(floors, kinds).contains(
                Command::CallButtonLight(floor, kind, false),
            ),
        forall|i: int|
            0 <= i < all_off(floors, kinds).len() ==> (#[trigger] all_off(
                floors,
                kinds,
            )[i] matches Command::CallButtonLight(_, _, on) && !on),
    decreases kinds,
{
    if kinds > 0 {
        let before = all_off(floors, (kinds - 1) as nat);
        let last = kind_off(floors, (kinds - 1) as u8);
        let all = all_off(floors, kinds);
        lemma_all_off(floors, (kinds - 1) as nat);
        assert(kinds * floors == (kinds - 1) * floors + floors) by (nonlinear_arith);
        assert forall|floor: u8, kind: u8| floor < floors && kind < kinds implies #[trigger]
            all.contains(Command::CallButtonLight(floor, kind, false)) by {
            let light = Command::CallButtonLight(floor, kind, false);
            if kind < kinds - 1 {
                assert(before.contains(light));
                let k = choose|k: int| 0 <= k < before.len() && before[k] == light;
                assert(all[k] == light);
            } else {
                assert(last[floor as int] == light);
                assert(all[before.len() + floor] == light);
            }
        }
        assert forall|i: int| 0 <= i < all.len() implies (#[trigger] all[i] matches Command::CallButtonLight(
            _,
            _,
            on,
        ) && !on) by {
            if i < before.len() {
                assert(all[i] == before[i]);
            } else {
                assert(all[i] == last[i - before.len()]);
            }
        }
    }
}

/// A new call keeps the invariant of the scheduler.
pub proof fn lemma_add_call_keeps_invariant(state: ElevatorView, request: Request)
    requires
        state.wf(),
        request.is_valid(),
    ensures
        state.add_call(request).0.wf(),
{
    let after = state.add_call(request).0;
    if state.service.primary is None && state.queue.len() == 0 {
    } else if state.service.primary is Some && (state.service.piggyback.contains(request)
        || state.service.primary == Some(request)) {
    } else if state.service.primary is Some && state.service.serviceable(request) {
        lemma_admission_keeps_trip(state.service, request);
    } else {
        lemma_pushed_well_formed(state.queue, state.limit, request);
        assert forall|i: int| 0 <= i < after.queue.len() implies (
        #[trigger] after.queue[i]).is_valid() by {
            if i < state.queue.len() {
                assert(after.queue[i] == state.queue[i]);
            }
        }
    }
}

/// Promoting the head of the queue keeps the invariant of the scheduler, and
/// every piggyback request of the new trip can join it from where the cabin
/// is.
pub proof fn lemma_promote_keeps_invariant(state: ElevatorView)
    requires
        state.wf(),
        state.service.primary is None,
        state.queue.len() > 0,
    ensures
        state.promote().wf(),
        forall|i: int|
            0 <= i < state.promote().service.piggyback.len() ==> joining(
                state.queue[0],
                state.service.cabin,
            )(#[trigger] state.promote().service.piggyback[i]),
{
    let primary = state.queue[0];
    let rest = state.queue.drop_first();
    let join = joining(primary, state.service.cabin);
    let after = state.promote();
    lemma_popped_well_formed(state.queue, state.limit);
    lemma_filter_subsequence(rest, join);
    lemma_filter_subsequence(rest, negation(join));
    assert forall|request: Request| #[trigger] rest.contains(request) implies request.is_valid()
        && state.queue.contains(request) by {
        let k = choose|k: int| 0 <= k < rest.len() && rest[k] == request;
        assert(state.queue[k + 1] == request);
    }
    assert forall|i: int| 0 <= i < after.queue.len() implies (
    #[trigger] after.queue[i]).is_valid() by {
        assert(after.queue.contains(after.queue[i]));
        assert(rest.contains(after.queue[i]));
    }
    assert forall|i: int| 0 <= i < after.service.piggyback.len() implies rides_along(
        primary.spec_target(),
        #[trigger] after.service.piggyback[i],
    ) && join(after.service.piggyback[i]) by {
        assert(after.service.piggyback.contains(after.service.piggyback[i]));
    }
}

/// Looking for work keeps the invariant of the scheduler.
pub proof fn lemma_update_keeps_invariant(state: ElevatorView)
    requires
        state.wf(),
    ensures
        state.update_elevator().0.wf(),
{
    if state.service.cabin.is_door_closed() && state.service.primary is None && state.queue.len()
        > 0 {
        lemma_promote_keeps_invariant(state);
    }
}

/// Reaching a floor keeps the invariant of the scheduler.
pub proof fn lemma_floor_sensor_keeps_invariant(state: ElevatorView, floor: u8)
    requires
        state.wf(),
        state.service.primary is Some,
    ensures
        state.handle_floor_sensor(floor).0.wf(),
{
    let end = (state.service.primary->0).spec_target();
    let trip = state.service;
    if !trip.stops_at(floor) {
        assert forall|i: int| 0 <= i < trip.piggyback.len() implies (
        #[trigger] trip.piggyback[i]).spec_target() != floor by {
            let request = trip.piggyback[i];
            assert(rides_along(end, request));
            assert(trip.piggyback.contains(request));
        }
    } else if end != floor {
        lemma_stop_keeps_trip(trip, floor);
        let rest = trip.piggyback.filter(negation(serving(end, floor)));
        assert forall|i: int| 0 <= i < rest.len() implies (#[trigger] rest[i]).spec_target()
            != floor by {
            assert(rest.contains(rest[i]));
        }
    }
}

/// Closing the door keeps the invariant of the scheduler.
pub proof fn lemma_close_door_keeps_invariant(state: ElevatorView)
    requires
        state.wf(),
        state.service.cabin.is_door_open(),
    ensures
        state.handle_close_door().0.wf(),
{
    let floor = state.service.cabin.spec_current_floor();
    lemma_update_keeps_invariant(state.with_cabin(State::DoorClose(floor)));
}

/// Every event that the scheduler can take keeps its invariant.
pub proof fn lemma_event_keeps_invariant(state: ElevatorView, event: Event)
    requires
        state.wf(),
        state.admits(event),
    ensures
        state.handle_event(event).0.wf(),
{
    match event {
        Event::CallButton(call) => {
            lemma_add_call_keeps_invariant(state, request_of(call));
            lemma_update_keeps_invariant(state.add_call(request_of(call)).0);
        },
        Event::FloorSensor(floor) => {
            lemma_floor_sensor_keeps_invariant(state, floor);
        },
        Event::StopButton(_) => {},
        Event::Obstruction(_) => {},
        Event::CloseDoor => {
            lemma_close_door_keeps_invariant(state);
        },
    }
}

/// The scheduler starts in a state that meets its invariant, whether or not
/// the cabin stands at a floor.
pub proof fn lemma_start_is_well_formed(sensor: Option<u8>, num_floors: u8, limit: nat)
    ensures
        match sensor {
            Some(floor) => calibrated(floor, num_floors, limit).wf(),
            None => uncalibrated(num_floors, limit).wf(),
        },
{
}

/// A call joins the current trip only if it meets the admission predicate
/// in the state in which it arrives; the piggyback requests change in no
/// other way.
pub proof fn lemma_admitted_call_is_serviceable(state: ElevatorView, request: Request)
    ensures
        state.add_call(request).0.service.piggyback == state.service.piggyback || (
        state.service.serviceable(request) && state.add_call(request).0.service.piggyback
            == state.service.piggyback.push(request)),
{
}

} // verus!
