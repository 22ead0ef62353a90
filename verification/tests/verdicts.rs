//! Turning the flags of a check into its result, and checks that time out.
use porcupine::checker::{check_events, check_operations, to_check_result};
use porcupine::{CheckResult, Event, EventKind, Model, Operation};
use std::time::{Duration, Instant};

const STEP_MS: u64 = 50;
const TIMER_MS: u64 = 2;

#[derive(Clone)]
struct SlowModel;

impl Model for SlowModel {
    type State = ();
    type Input = ();
    type Output = ();

    fn init(&self) {}

    fn step(&self, _state: &(), _input: &(), _output: &()) -> Option<()> {
        // Spin for the step's duration.
        let start = Instant::now();
        while start.elapsed() < Duration::from_millis(STEP_MS) {}
        Some(())
    }
}

fn slow_op(id: u64) -> Operation<(), ()> {
    Operation { client_id: id, input: (), output: (), call: id, return_time: id + 1 }
}

#[test]
fn timeout_short_duration_returns_unknown() {
    let history = [slow_op(0)];
    assert_eq!(
        check_operations(&SlowModel, &history, Some(Duration::from_millis(TIMER_MS))),
        CheckResult::Unknown
    );
}

#[test]
fn timeout_short_duration_events_returns_unknown() {
    let history = [
        Event { client_id: 0, kind: EventKind::Call, input: Some(()), output: None, id: 0 },
        Event { client_id: 0, kind: EventKind::Return, input: None, output: Some(()), id: 0 },
    ];
    assert_eq!(
        check_events(&SlowModel, &history, Some(Duration::from_millis(TIMER_MS))),
        CheckResult::Unknown
    );
}

#[test]
fn illegal_takes_priority_over_unknown() {
    assert_eq!(to_check_result(false, true, true), CheckResult::Illegal);
}

#[test]
fn unknown_when_only_timer_fired() {
    assert_eq!(to_check_result(false, true, false), CheckResult::Unknown);
}

#[test]
fn ok_when_dfs_completed_cleanly() {
    assert_eq!(to_check_result(true, false, false), CheckResult::Legal);
}

#[test]
fn illegal_when_dfs_finished_no_timeout() {
    assert_eq!(to_check_result(false, false, false), CheckResult::Illegal);
}

#[test]
fn timer_that_fired_after_a_clean_finish_gives_unknown() {
    assert_eq!(to_check_result(true, true, false), CheckResult::Unknown);
}
