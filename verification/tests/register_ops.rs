//! Operation histories checked against an integer register.
use porcupine::checker::check_operations;
use porcupine::{CheckResult, Model, Operation};
use std::time::Duration;

#[derive(Clone)]
struct Reg;

#[derive(Clone, Debug, PartialEq)]
struct RegInput {
    is_write: bool,
    value: i32,
}

impl Model for Reg {
    type State = i32;
    type Input = RegInput;
    type Output = i32;

    fn init(&self) -> i32 {
        0
    }

    fn step(&self, state: &i32, input: &RegInput, output: &i32) -> Option<i32> {
        if input.is_write {
            Some(input.value)
        } else if *output == *state {
            Some(*state)
        } else {
            None
        }
    }
}

fn write(v: i32) -> RegInput {
    RegInput { is_write: true, value: v }
}

fn read() -> RegInput {
    RegInput { is_write: false, value: 0 }
}

fn op(id: u64, input: RegInput, output: i32, call: u64, ret: u64) -> Operation<RegInput, i32> {
    Operation { client_id: id, input, output, call, return_time: ret }
}

#[test]
fn ops_empty_history_is_ok() {
    assert_eq!(check_operations(&Reg, &[], None), CheckResult::Legal);
}

#[test]
fn ops_single_write_is_ok() {
    assert_eq!(check_operations(&Reg, &[op(0, write(42), 0, 0, 10)], None), CheckResult::Legal);
}

#[test]
fn ops_single_read_returning_init_value_is_ok() {
    assert_eq!(check_operations(&Reg, &[op(0, read(), 0, 0, 10)], None), CheckResult::Legal);
}

#[test]
fn ops_single_read_returning_wrong_value_is_illegal() {
    assert_eq!(check_operations(&Reg, &[op(0, read(), 42, 0, 10)], None), CheckResult::Illegal);
}

#[test]
fn ops_sequential_write_then_correct_read_is_ok() {
    let history = [op(0, write(5), 0, 0, 10), op(1, read(), 5, 11, 20)];
    assert_eq!(check_operations(&Reg, &history, None), CheckResult::Legal);
}

#[test]
fn ops_sequential_read_after_write_returning_stale_value_is_illegal() {
    let history = [op(0, write(5), 0, 0, 10), op(1, read(), 0, 11, 20)];
    assert_eq!(check_operations(&Reg, &history, None), CheckResult::Illegal);
}

#[test]
fn ops_concurrent_write_and_read_returning_written_value_is_ok() {
    let history = [op(0, write(1), 0, 0, 20), op(1, read(), 1, 5, 15)];
    assert_eq!(check_operations(&Reg, &history, None), CheckResult::Legal);
}

#[test]
fn ops_concurrent_write_and_read_returning_init_value_is_ok() {
    let history = [op(0, write(1), 0, 0, 20), op(1, read(), 0, 5, 15)];
    assert_eq!(check_operations(&Reg, &history, None), CheckResult::Legal);
}

#[test]
fn ops_read_starts_after_write_completes_returning_stale_is_illegal() {
    let history = [op(0, write(1), 0, 0, 10), op(1, read(), 0, 12, 20)];
    assert_eq!(check_operations(&Reg, &history, None), CheckResult::Illegal);
}

#[test]
fn ops_instantaneous_op_is_ok() {
    assert_eq!(check_operations(&Reg, &[op(0, write(7), 0, 5, 5)], None), CheckResult::Legal);
}

#[test]
fn ops_multiple_reads_all_return_init_before_any_write_is_ok() {
    let history = [op(0, read(), 0, 0, 10), op(1, read(), 0, 2, 8), op(2, read(), 0, 4, 6)];
    assert_eq!(check_operations(&Reg, &history, None), CheckResult::Legal);
}

#[test]
fn ops_two_sequential_writes_then_wrong_read_is_illegal() {
    let history = [
        op(0, write(1), 0, 0, 10),
        op(1, write(2), 0, 11, 20),
        op(2, read(), 1, 21, 30),
    ];
    assert_eq!(check_operations(&Reg, &history, None), CheckResult::Illegal);
}

#[test]
fn ops_cache_pruning_does_not_cause_false_illegal() {
    let history = [
        op(0, write(1), 0, 0, 20),
        op(1, write(1), 0, 5, 15),
        op(2, read(), 1, 25, 35),
    ];
    assert_eq!(check_operations(&Reg, &history, None), CheckResult::Legal);
}

#[test]
fn ops_backtracking_finds_valid_ordering_after_failed_attempts() {
    let history = [
        op(0, write(1), 0, 0, 30),
        op(1, write(2), 0, 5, 20),
        op(2, read(), 1, 25, 35),
    ];
    assert_eq!(check_operations(&Reg, &history, None), CheckResult::Legal);
}

#[test]
fn ops_touching_intervals_may_overlap() {
    // The read is called at the instant the write returns: the two overlap,
    // so the read may still see the initial value.
    let history = [op(0, write(1), 0, 0, 10), op(1, read(), 0, 10, 20)];
    assert_eq!(check_operations(&Reg, &history, None), CheckResult::Legal);
}

#[test]
fn ops_history_order_does_not_matter() {
    let a = [op(0, write(1), 0, 0, 10), op(1, read(), 1, 11, 20)];
    let b = [op(1, read(), 1, 11, 20), op(0, write(1), 0, 0, 10)];
    assert_eq!(check_operations(&Reg, &a, None), CheckResult::Legal);
    assert_eq!(check_operations(&Reg, &b, None), CheckResult::Legal);
}

#[test]
fn timeout_zero_duration_returns_unknown_or_definitive() {
    let history = [op(0, write(1), 0, 0, 10), op(1, read(), 1, 5, 15)];
    let result = check_operations(&Reg, &history, Some(Duration::ZERO));
    assert!(
        matches!(result, CheckResult::Legal | CheckResult::Unknown),
        "expected Legal or Unknown for a zero-duration timeout, got {:?}",
        result
    );
}

#[test]
fn timeout_very_long_does_not_affect_result() {
    let history = [op(0, write(1), 0, 0, 10), op(1, read(), 1, 5, 15)];
    assert_eq!(
        check_operations(&Reg, &history, Some(Duration::from_secs(60))),
        CheckResult::Legal
    );
}

#[test]
fn timeout_very_long_does_not_affect_illegal_result() {
    let history = [op(0, write(1), 0, 0, 10), op(1, read(), 0, 12, 20)];
    assert_eq!(
        check_operations(&Reg, &history, Some(Duration::from_secs(60))),
        CheckResult::Illegal
    );
}

#[test]
fn timeout_none_matches_none_no_timeout() {
    let history = [op(0, write(5), 0, 0, 10), op(1, read(), 5, 11, 20)];
    assert_eq!(
        check_operations(&Reg, &history, None),
        check_operations(&Reg, &history, Some(Duration::from_secs(60)))
    );
}
