//! Event histories checked against an integer register.
use porcupine::checker::{check_events, check_operations};
use porcupine::events::well_formed_events;
use porcupine::{CheckResult, Event, EventKind, Model, Operation};
use std::time::Duration;

#[derive(Clone)]
struct Reg;

#[derive(Clone, Debug, PartialEq)]
struct RegInput {
    is_write: bool,
    value: i32,
}

impl Model for Reg {
    type State = i32;
    type Input = RegInput;
    type Output = i32;

    fn init(&self) -> i32 {
        0
    }

    fn step(&self, state: &i32, input: &RegInput, output: &i32) -> Option<i32> {
        if input.is_write {
            Some(input.value)
        } else if *output == *state {
            Some(*state)
        } else {
            None
        }
    }
}

fn write(v: i32) -> RegInput {
    RegInput { is_write: true, value: v }
}

fn read() -> RegInput {
    RegInput { is_write: false, value: 0 }
}

fn op(id: u64, input: RegInput, output: i32, call: u64, ret: u64) -> Operation<RegInput, i32> {
    Operation { client_id: id, input, output, call, return_time: ret }
}

fn call_ev(id: u64, input: RegInput) -> Event<RegInput, i32> {
    Event { client_id: id, kind: EventKind::Call, input: Some(input), output: None, id }
}

fn ret_ev(id: u64, output: i32) -> Event<RegInput, i32> {
    Event { client_id: id, kind: EventKind::Return, input: None, output: Some(output), id }
}

#[test]
fn events_empty_history_is_ok() {
    let events: Vec<Event<RegInput, i32>> = vec![];
    assert_eq!(check_events(&Reg, &events, None), CheckResult::Legal);
}

#[test]
fn events_single_write_is_ok() {
    let events = [call_ev(0, write(42)), ret_ev(0, 0)];
    assert_eq!(check_events(&Reg, &events, None), CheckResult::Legal);
}

#[test]
fn events_single_read_returning_init_value_is_ok() {
    let events = [call_ev(0, read()), ret_ev(0, 0)];
    assert_eq!(check_events(&Reg, &events, None), CheckResult::Legal);
}

#[test]
fn events_single_read_returning_wrong_value_is_illegal() {
    let events = [call_ev(0, read()), ret_ev(0, 99)];
    assert_eq!(check_events(&Reg, &events, None), CheckResult::Illegal);
}

#[test]
fn events_sequential_write_then_correct_read_is_ok() {
    let events = [call_ev(0, write(5)), ret_ev(0, 0), call_ev(1, read()), ret_ev(1, 5)];
    assert_eq!(check_events(&Reg, &events, None), CheckResult::Legal);
}

#[test]
fn events_sequential_read_after_write_returning_stale_value_is_illegal() {
    let events = [call_ev(0, write(5)), ret_ev(0, 0), call_ev(1, read()), ret_ev(1, 0)];
    assert_eq!(check_events(&Reg, &events, None), CheckResult::Illegal);
}

#[test]
fn events_concurrent_write_and_read_returning_written_value_is_ok() {
    let events = [call_ev(0, write(1)), call_ev(1, read()), ret_ev(1, 1), ret_ev(0, 0)];
    assert_eq!(check_events(&Reg, &events, None), CheckResult::Legal);
}

#[test]
fn events_concurrent_write_and_read_returning_init_value_is_ok() {
    let events = [call_ev(0, write(1)), call_ev(1, read()), ret_ev(1, 0), ret_ev(0, 0)];
    assert_eq!(check_events(&Reg, &events, None), CheckResult::Legal);
}

#[test]
fn events_sequential_read_after_completed_write_returning_stale_is_illegal() {
    let events = [call_ev(0, write(1)), ret_ev(0, 0), call_ev(1, read()), ret_ev(1, 0)];
    assert_eq!(check_events(&Reg, &events, None), CheckResult::Illegal);
}

#[test]
fn events_noncontiguous_ids_produce_same_result_as_contiguous_ids() {
    let contiguous = [call_ev(0, write(5)), ret_ev(0, 0), call_ev(1, read()), ret_ev(1, 5)];
    let noncontiguous = [
        Event { client_id: 0, kind: EventKind::Call, input: Some(write(5)), output: None, id: 100 },
        Event { client_id: 0, kind: EventKind::Return, input: None, output: Some(0), id: 100 },
        Event { client_id: 1, kind: EventKind::Call, input: Some(read()), output: None, id: 999 },
        Event { client_id: 1, kind: EventKind::Return, input: None, output: Some(5), id: 999 },
    ];
    assert_eq!(check_events(&Reg, &contiguous, None), CheckResult::Legal);
    assert_eq!(check_events(&Reg, &noncontiguous, None), CheckResult::Legal);
}

#[test]
fn events_agree_with_operations_on_linearizable_history() {
    let ops = [op(0, write(1), 0, 0, 10), op(1, read(), 1, 5, 15)];
    let events = [call_ev(0, write(1)), call_ev(1, read()), ret_ev(0, 0), ret_ev(1, 1)];
    assert_eq!(check_operations(&Reg, &ops, None), CheckResult::Legal);
    assert_eq!(check_events(&Reg, &events, None), CheckResult::Legal);
}

#[test]
fn events_agree_with_operations_on_illegal_history() {
    let ops = [op(0, write(1), 0, 0, 10), op(1, read(), 0, 12, 20)];
    let events = [call_ev(0, write(1)), ret_ev(0, 0), call_ev(1, read()), ret_ev(1, 0)];
    assert_eq!(check_operations(&Reg, &ops, None), CheckResult::Illegal);
    assert_eq!(check_events(&Reg, &events, None), CheckResult::Illegal);
}

#[test]
fn events_backtracking_finds_valid_ordering_after_failed_attempts() {
    let events = [
        call_ev(0, write(1)),
        call_ev(1, write(2)),
        call_ev(2, read()),
        ret_ev(2, 1),
        ret_ev(1, 0),
        ret_ev(0, 0),
    ];
    assert_eq!(check_events(&Reg, &events, None), CheckResult::Legal);
}

#[test]
fn timeout_events_very_long_does_not_affect_result() {
    let events = [call_ev(0, write(1)), call_ev(1, read()), ret_ev(1, 1), ret_ev(0, 0)];
    assert_eq!(check_events(&Reg, &events, Some(Duration::from_secs(60))), CheckResult::Legal);
}

#[test]
fn well_formed_events_accepts_paired_history() {
    let events = [call_ev(0, write(1)), call_ev(1, read()), ret_ev(1, 1), ret_ev(0, 0)];
    assert!(well_formed_events(&events));
    let empty: [Event<RegInput, i32>; 0] = [];
    assert!(well_formed_events(&empty));
}

#[test]
fn well_formed_events_rejects_malformed_histories() {
    // Return before its call.
    assert!(!well_formed_events(&[ret_ev(0, 0), call_ev(0, read())]));
    // Call without a return.
    assert!(!well_formed_events(&[call_ev(0, read())]));
    // Two calls with one id.
    assert!(!well_formed_events(&[call_ev(0, read()), call_ev(0, read()), ret_ev(0, 0)]));
    // Two returns with one id.
    assert!(!well_formed_events(&[call_ev(0, read()), ret_ev(0, 0), ret_ev(0, 0)]));
    // A call without an input.
    let no_input = Event { client_id: 0, kind: EventKind::Call, input: None, output: None, id: 0 };
    assert!(!well_formed_events(&[no_input, ret_ev(0, 0)]));
    // A return without an output.
    let no_output = Event { client_id: 0, kind: EventKind::Return, input: None, output: None, id: 0 };
    assert!(!well_formed_events(&[call_ev(0, read()), no_output]));
}
