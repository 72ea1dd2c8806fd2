//! The hold-open timer of the door.
//!
//! The timer is a state machine that is driven from outside: a thread polls
//! it with the present time, in milliseconds on a clock of its choice, and
//! does what the answer says. The machine holds the two flags that the
//! scheduler and the obstruction sensor set, and the time at which the
//! current hold interval began.

use vstd::prelude::*;

verus! {

/// How long the door stays open once nothing obstructs it, in milliseconds.
pub const STAYS_OPEN_FOR: u64 = 3000;

/// How long the timer sleeps between two looks at a closed door, in
/// milliseconds.
pub const POLL_TIME: u64 = 25;

/// What the polling thread does after a poll.
#[derive(Clone, Copy, Debug, PartialEq, Eq, Structural)]
pub enum TimerStep {
    /// The door is closed: sleep for `POLL_TIME`, then poll again.
    Sleep,
    /// The door is held open: poll again at once.
    Spin,
    /// The hold interval is over and the door has closed: publish the close
    /// event, sleep for `POLL_TIME`, then poll again.
    Close,
}

/// What can happen to the door timer.
#[derive(Clone, Copy, Debug, PartialEq, Eq, Structural)]
pub enum DoorEvent {
    /// The scheduler asks for the door to open.
    Open,
    /// The obstruction sensor reports a reading.
    Obstruction(bool),
    /// The polling thread looks at the timer at the given time.
    Poll(u64),
}

/// The time from `begin` to `now`; zero if `now` is the earlier one.
pub open spec fn elapsed(begin: u64, now: u64) -> nat {
    if now >= begin {
        (now - begin) as nat
    } else {
        0
    }
}

/// Mathematical model of a [`DoorControl`].
pub struct DoorView {
    /// Whether the door is to be held open.
    pub is_open: bool,
    /// The latest reading of the obstruction sensor.
    pub is_obstructed: bool,
    /// The time at which the running hold interval began; `None` while no
    /// interval runs.
    pub started: Option<u64>,
}

impl DoorView {
    /// An interval runs only while the door is held open.
    pub open spec fn wf(self) -> bool {
        self.started is Some ==> self.is_open
    }

    /// A request to open the door. It is idempotent, and it does not
    /// restart an interval that runs.
    pub open spec fn open(self) -> DoorView {
        DoorView { is_open: true, ..self }
    }

    /// A reading of the obstruction sensor.
    pub open spec fn obstruction(self, obstructed: bool) -> DoorView {
        DoorView { is_obstructed: obstructed, ..self }
    }

    /// A poll at time `now`. While no interval runs, an open door starts one
    /// at `now` and a closed door lets the thread sleep. While an interval
    /// runs, an obstructed door restarts it at `now`; else the door closes
    /// once more than `STAYS_OPEN_FOR` has passed since the interval began.
    pub open spec fn poll(self, now: u64) -> (DoorView, TimerStep) {
        match self.started {
            None => if self.is_open {
                (DoorView { started: Some(now), ..self }, TimerStep::Spin)
            } else {
                (self, TimerStep::Sleep)
            },
            Some(begin) => if self.is_obstructed {
                (DoorView { started: Some(now), ..self }, TimerStep::Spin)
            } else if elapsed(begin, now) > STAYS_OPEN_FOR {
                (DoorView { is_open: false, started: None, ..self }, TimerStep::Close)
            } else {
                (self, TimerStep::Spin)
            },
        }
    }

    /// The timer after `event`.
    pub open spec fn after(self, event: DoorEvent) -> DoorView {
        match event {
            DoorEvent::Open => self.open(),
            DoorEvent::Obstruction(obstructed) => self.obstruction(obstructed),
            DoorEvent::Poll(now) => self.poll(now).0,
        }
    }

    /// Whether `event` closes the door: it is a poll that answers `Close`.
    pub open spec fn closes_on(self, event: DoorEvent) -> bool {
        event matches DoorEvent::Poll(now) && self.poll(now).1 == TimerStep::Close
    }

    /// The timer after the events of `events`, first event first.
    pub open spec fn after_all(self, events: Seq<DoorEvent>) -> DoorView
        decreases events.len(),
    {
        if events.len() == 0 {
            self
        } else {
            self.after_all(events.drop_last()).after(events.last())
        }
    }
}

/// The hold-open timer of the door.
pub struct DoorControl {
    is_open: bool,
    is_obstructed: bool,
    started: Option<u64>,
}

impl View for DoorControl {
    type V = DoorView;

    closed spec fn view(&self) -> DoorView {
        DoorView {
            is_open: self.is_open,
            is_obstructed: self.is_obstructed,
            started: self.started,
        }
    }
}

impl DoorControl {
    /// Builds the timer of a closed, unobstructed door.
    pub fn new() -> (door: DoorControl)
        ensures
            door@ == (DoorView { is_open: false, is_obstructed: false, started: None }),
            door@.wf(),
    {
        DoorControl { is_open: false, is_obstructed: false, started: None }
    }

    /// Asks for the door to open. The hold interval starts at the next poll,
    /// unless one runs already.
    pub fn open(&mut self)
        ensures
            final(self)@ == old(self)@.open(),
            old(self)@.wf() ==> final(self)@.wf(),
    {
        self.is_open = true;
    }

    /// Records a reading of the obstruction sensor.
    pub fn obstruction(&mut self, obstructed: bool)
        ensures
            final(self)@ == old(self)@.obstruction(obstructed),
            old(self)@.wf() ==> final(self)@.wf(),
    {
        self.is_obstructed = obstructed;
    }

    /// Tells whether the door is held open.
    pub fn is_open(&self) -> (open: bool)
        ensures
            open == self@.is_open,
    {
        self.is_open
    }

    /// Tells whether the latest reading of the sensor was an obstruction.
    pub fn is_obstructed(&self) -> (obstructed: bool)
        ensures
            obstructed == self@.is_obstructed,
    {
        self.is_obstructed
    }

    /// One look of the polling thread at the timer, at time `now`. Returns
    /// what the thread does next.
    pub fn poll(&mut self, now: u64) -> (step: TimerStep)
        ensures
            final(self)@ == old(self)@.poll(now).0,
            step == old(self)@.poll(now).1,
            old(self)@.wf() ==> final(self)@.wf(),
    {
        match self.started {
            None => {
                if self.is_open {
                    self.started = Some(now);
                    TimerStep::Spin
                } else {
                    TimerStep::Sleep
                }
            },
            Some(begin) => {
                if self.is_obstructed {
                    self.started = Some(now);
                    TimerStep::Spin
                } else if now >= begin && now - begin > STAYS_OPEN_FOR {
                    self.is_open = false;
                    self.started = None;
                    TimerStep::Close
                } else {
                    TimerStep::Spin
                }
            },
        }
    }

    /// Applies one event to the timer. Returns the answer of a poll, and
    /// `None` for the other events.
    pub fn handle(&mut self, event: DoorEvent) -> (step: Option<TimerStep>)
        ensures
            final(self)@ == old(self)@.after(event),
            step == match event {
                DoorEvent::Poll(now) => Some(old(self)@.poll(now).1),
                _ => None,
            },
            old(self)@.wf() ==> final(self)@.wf(),
    {
        match event {
            DoorEvent::Open => {
                self.open();
                None
            },
            DoorEvent::Obstruction(obstructed) => {
                self.obstruction(obstructed);
                None
            },
            DoorEvent::Poll(now) => Some(self.poll(now)),
        }
    }
}

/// Whether no poll among `events` is earlier than `time`.
pub open spec fn polls_not_before(events: Seq<DoorEvent>, time: u64) -> bool {
    forall|i: int|
        0 <= i < events.len() ==> (#[trigger] events[i] matches DoorEvent::Poll(now) ==> now
            >= time)
}

/// Whether the polls among `events` come at times that never decrease.
pub open spec fn polls_in_order(events: Seq<DoorEvent>) -> bool {
    forall|i: int, j: int|
        0 <= i < j < events.len() ==> (#[trigger] events[i] matches DoorEvent::Poll(earlier)
            ==> (#[trigger] events[j] matches DoorEvent::Poll(later) ==> earlier <= later))
}

/// Every event keeps the invariant of the timer.
pub proof fn lemma_events_keep_invariant(door: DoorView, events: Seq<DoorEvent>)
    requires
        door.wf(),
    ensures
        door.after_all(events).wf(),
    decreases events.len(),
{
    if events.len() > 0 {
        lemma_events_keep_invariant(door, events.drop_last());
    }
}

/// An interval that runs after some events, on a door that was closed before
/// them, began with one of the polls: not before `time`, if no poll is.
pub proof fn lemma_interval_began_with_a_poll(door: DoorView, events: Seq<DoorEvent>, time: u64)
    requires
        door.started is None || door.started->0 >= time,
        polls_not_before(events, time),
    ensures
        door.after_all(events).started is Some ==> door.after_all(events).started->0 >= time,
    decreases events.len(),
{
    if events.len() > 0 {
        let earlier = events.drop_last();
        assert forall|i: int| 0 <= i < earlier.len() implies (
        #[trigger] earlier[i] matches DoorEvent::Poll(now) ==> now >= time) by {
            assert(earlier[i] == events[i]);
        }
        lemma_interval_began_with_a_poll(door, earlier, time);
        assert(events.last() == events[events.len() - 1]);
    }
}

/// The door does not close early. On a door that is closed at first, let no
/// poll be earlier than `opened_at`, the time by which the door was asked
/// to open. Then a poll that closes the door comes more than
/// `STAYS_OPEN_FOR` after `opened_at`.
pub proof fn lemma_close_waits_for_hold_time(
    door: DoorView,
    events: Seq<DoorEvent>,
    opened_at: u64,
    now: u64,
)
    requires
        door.wf(),
        !door.is_open,
        polls_not_before(events, opened_at),
        now >= opened_at,
        door.after_all(events).closes_on(DoorEvent::Poll(now)),
    ensures
        now - opened_at > STAYS_OPEN_FOR,
{
    lemma_interval_began_with_a_poll(door, events, opened_at);
}

/// Whether no event among `events` reports an obstruction.
pub open spec fn stays_free(events: Seq<DoorEvent>) -> bool {
    forall|i: int| 0 <= i < events.len() ==> #[trigger] events[i] != DoorEvent::Obstruction(true)
}

/// Whether every poll among `events` comes while the hold time of an
/// interval that began at `began` is not yet over.
pub open spec fn polls_within_hold_time(events: Seq<DoorEvent>, began: u64) -> bool {
    forall|i: int|
        0 <= i < events.len() ==> (#[trigger] events[i] matches DoorEvent::Poll(now) ==> elapsed(
            began,
            now,
        ) <= STAYS_OPEN_FOR)
}

/// The door closes in time. Let an interval run that began at `began`, on a
/// door that is free and stays free. The polls that come within the hold
/// time leave the interval as it is, and the first poll that comes more than
/// `STAYS_OPEN_FOR` after `began` closes the door.
pub proof fn lemma_free_door_closes_at_first_late_poll(
    door: DoorView,
    began: u64,
    events: Seq<DoorEvent>,
    now: u64,
)
    requires
        door.started == Some(began),
        !door.is_obstructed,
        stays_free(events),
        polls_within_hold_time(events, began),
        elapsed(began, now) > STAYS_OPEN_FOR,
    ensures
        door.after_all(events).started == Some(began),
        door.after_all(events).closes_on(DoorEvent::Poll(now)),
    decreases events.len(),
{
    if events.len() > 0 {
        let earlier = events.drop_last();
        assert forall|i: int| 0 <= i < earlier.len() implies #[trigger] earlier[i]
            != DoorEvent::Obstruction(true) by {
            assert(earlier[i] == events[i]);
        }
        assert forall|i: int| 0 <= i < earlier.len() implies (
        #[trigger] earlier[i] matches DoorEvent::Poll(at) ==> elapsed(began, at)
            <= STAYS_OPEN_FOR) by {
            assert(earlier[i] == events[i]);
        }
        lemma_free_door_closes_at_first_late_poll(door, began, earlier, now);
        assert(events.last() == events[events.len() - 1]);
    }
}

/// An obstruction extends the dwell. Let the polls come in the order of
/// their times, and let the poll at time `seen` find the door held open and
/// obstructed. Then a later poll that closes the door comes more than
/// `STAYS_OPEN_FOR` after `seen`.
pub proof fn lemma_obstruction_restarts_hold_time(
    door: DoorView,
    before: Seq<DoorEvent>,
    seen: u64,
    between: Seq<DoorEvent>,
    now: u64,
)
    requires
        polls_in_order(before.push(DoorEvent::Poll(seen)) + between.push(DoorEvent::Poll(now))),
        door.after_all(before).started is Some,
        door.after_all(before).is_obstructed,
        door.after_all(before).after(DoorEvent::Poll(seen)).after_all(between).closes_on(
            DoorEvent::Poll(now),
        ),
    ensures
        now - seen > STAYS_OPEN_FOR,
{
    let all = before.push(DoorEvent::Poll(seen)) + between.push(DoorEvent::Poll(now));
    let found = door.after_all(before).after(DoorEvent::Poll(seen));
    assert(all[before.len() as int] == DoorEvent::Poll(seen));
    assert(all[(before.len() + 1 + between.len()) as int] == DoorEvent::Poll(now));
    assert forall|i: int| 0 <= i < between.len() implies (
    #[trigger] between[i] matches DoorEvent::Poll(t) ==> t >= seen) by {
        assert(all[before.len() + 1 + i] == between[i]);
    }
    lemma_interval_began_with_a_poll(found, between, seen);
}

} // verus!
