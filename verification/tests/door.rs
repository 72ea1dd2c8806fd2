use elevator_control::door_control::{DoorControl, DoorEvent, TimerStep, POLL_TIME, STAYS_OPEN_FOR};

/// Polls the timer every `step` milliseconds from `from` on, with the given
/// obstruction readings taking effect at their times, and returns the time of
/// the poll that closed the door.
fn run_until_close(door: &mut DoorControl, from: u64, step: u64, readings: &[(u64, bool)]) -> u64 {
    let mut now = from;
    loop {
        for (at, obstructed) in readings {
            if *at <= now && now < *at + step {
                door.obstruction(*obstructed);
            }
        }
        if door.poll(now) == TimerStep::Close {
            return now;
        }
        now += step;
        assert!(now < 1_000_000);
    }
}

#[test]
fn hold_time_and_poll_period() {
    assert_eq!(STAYS_OPEN_FOR, 3000);
    assert_eq!(POLL_TIME, 25);
}

#[test]
fn a_new_door_is_closed_and_free() {
    let mut door = DoorControl::new();
    assert_eq!(door.is_open(), false);
    assert_eq!(door.is_obstructed(), false);
    assert_eq!(door.poll(0), TimerStep::Sleep);
    assert_eq!(door.poll(10_000), TimerStep::Sleep);
    assert_eq!(door.is_open(), false);
}

#[test]
fn door_closes_once_the_hold_time_is_over() {
    let mut door = DoorControl::new();
    door.open();
    assert_eq!(door.is_open(), true);
    assert_eq!(door.poll(100), TimerStep::Spin);
    assert_eq!(door.poll(101), TimerStep::Spin);
    assert_eq!(door.poll(3099), TimerStep::Spin);
    assert_eq!(door.poll(3100), TimerStep::Spin);
    assert_eq!(door.is_open(), true);
    assert_eq!(door.poll(3101), TimerStep::Close);
    assert_eq!(door.is_open(), false);
    assert_eq!(door.is_obstructed(), false);
    assert_eq!(door.poll(3102), TimerStep::Sleep);
}

#[test]
fn close_comes_within_one_poll_after_the_hold_time() {
    let mut door = DoorControl::new();
    door.open();
    let closed_at = run_until_close(&mut door, 0, POLL_TIME, &[]);
    assert!(closed_at > STAYS_OPEN_FOR);
    assert!(closed_at <= STAYS_OPEN_FOR + POLL_TIME);
    assert_eq!(closed_at, 3025);
}

#[test]
fn open_is_idempotent() {
    let mut once = DoorControl::new();
    once.open();
    let mut twice = DoorControl::new();
    twice.open();
    twice.open();
    assert_eq!(once.poll(0), twice.poll(0));
    twice.open();
    assert_eq!(once.poll(3000), TimerStep::Spin);
    assert_eq!(twice.poll(3000), TimerStep::Spin);
    assert_eq!(once.poll(3001), TimerStep::Close);
    assert_eq!(twice.poll(3001), TimerStep::Close);
}

#[test]
fn open_during_the_hold_time_does_not_restart_it() {
    let mut door = DoorControl::new();
    door.open();
    assert_eq!(door.poll(0), TimerStep::Spin);
    assert_eq!(door.poll(2000), TimerStep::Spin);
    door.open();
    assert_eq!(door.poll(3001), TimerStep::Close);
}

#[test]
fn obstruction_restarts_the_hold_time() {
    let mut door = DoorControl::new();
    door.open();
    assert_eq!(door.poll(0), TimerStep::Spin);
    door.obstruction(true);
    assert_eq!(door.is_obstructed(), true);
    assert_eq!(door.poll(2000), TimerStep::Spin);
    assert_eq!(door.poll(10_000), TimerStep::Spin);
    assert_eq!(door.is_open(), true);
    door.obstruction(false);
    assert_eq!(door.poll(13_000), TimerStep::Spin);
    assert_eq!(door.poll(13_001), TimerStep::Close);
    assert_eq!(door.is_open(), false);
}

#[test]
fn obstruction_extends_the_dwell() {
    let mut door = DoorControl::new();
    door.open();
    let closed_at = run_until_close(&mut door, 0, 1, &[(1000, true), (4000, false)]);
    assert!(closed_at >= 7000);
    assert!(closed_at <= 7000 + POLL_TIME);
    assert_eq!(closed_at, 7000);
}

#[test]
fn obstruction_of_a_closed_door_starts_nothing() {
    let mut door = DoorControl::new();
    door.obstruction(true);
    assert_eq!(door.poll(0), TimerStep::Sleep);
    assert_eq!(door.poll(5000), TimerStep::Sleep);
    assert_eq!(door.is_open(), false);
    assert_eq!(door.is_obstructed(), true);
}

#[test]
fn a_clock_that_steps_back_does_not_close_the_door() {
    let mut door = DoorControl::new();
    door.open();
    assert_eq!(door.poll(5000), TimerStep::Spin);
    assert_eq!(door.poll(1000), TimerStep::Spin);
    assert_eq!(door.poll(8000), TimerStep::Spin);
    assert_eq!(door.poll(8001), TimerStep::Close);
}

#[test]
fn door_opens_again_after_a_close() {
    let mut door = DoorControl::new();
    door.open();
    assert_eq!(door.poll(0), TimerStep::Spin);
    assert_eq!(door.poll(3001), TimerStep::Close);
    door.open();
    assert_eq!(door.poll(4000), TimerStep::Spin);
    assert_eq!(door.poll(7000), TimerStep::Spin);
    assert_eq!(door.poll(7001), TimerStep::Close);
}

#[test]
fn events_are_applied_one_by_one() {
    let mut door = DoorControl::new();
    assert_eq!(door.handle(DoorEvent::Poll(0)), Some(TimerStep::Sleep));
    assert_eq!(door.handle(DoorEvent::Open), None);
    assert_eq!(door.is_open(), true);
    assert_eq!(door.handle(DoorEvent::Poll(25)), Some(TimerStep::Spin));
    assert_eq!(door.handle(DoorEvent::Obstruction(true)), None);
    assert_eq!(door.is_obstructed(), true);
    assert_eq!(door.handle(DoorEvent::Poll(5000)), Some(TimerStep::Spin));
    assert_eq!(door.handle(DoorEvent::Obstruction(false)), None);
    assert_eq!(door.handle(DoorEvent::Poll(8000)), Some(TimerStep::Spin));
    assert_eq!(door.handle(DoorEvent::Poll(8001)), Some(TimerStep::Close));
    assert_eq!(door.is_open(), false);
}

/// Lets `millis` milliseconds pass on the clock `now`, with one poll of the
/// timer in each of them, and notes the time of a poll that closes the door.
fn sleep(door: &mut DoorControl, now: &mut u64, millis: u64, closed_at: &mut Option<u64>) {
    for _ in 0..millis {
        *now += 1;
        if door.poll(*now) == TimerStep::Close {
            *closed_at = Some(*now);
        }
    }
}

#[test]
fn door_close_timer() {
    let mut door_control = DoorControl::new();
    let mut now: u64 = 0;
    let mut closed_at = None;

    let opened_at = now;
    door_control.open();
    sleep(&mut door_control, &mut now, 5000, &mut closed_at);

    assert!(closed_at.unwrap() - opened_at > STAYS_OPEN_FOR);
    assert_eq!(door_control.is_open(), false);
    assert_eq!(door_control.is_obstructed(), false);
}

#[test]
fn door_obstructed() {
    let mut door_control = DoorControl::new();
    let mut now: u64 = 0;
    let mut closed_at = None;

    let opened_at = now;
    door_control.open();
    door_control.obstruction(true);

    let mut i = 0;
    while i < 5 {
        sleep(&mut door_control, &mut now, 2000, &mut closed_at);
        assert_eq!(door_control.is_open(), true);
        assert_eq!(door_control.is_obstructed(), true);
        i += 1;
    }

    door_control.obstruction(false);
    sleep(&mut door_control, &mut now, 4000, &mut closed_at);

    assert!(closed_at.unwrap() - opened_at > 10_000 + STAYS_OPEN_FOR);
    assert_eq!(door_control.is_open(), false);
    assert_eq!(door_control.is_obstructed(), false);
}
