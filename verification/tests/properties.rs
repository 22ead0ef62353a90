//! Whole-history properties: illegal histories are detected, an empty history
//! is linearizable, and the power-set adapter tracks every reachable state.
use porcupine::checker::{check_events, check_operations};
use porcupine::model::{deduplicate, NondeterministicModel, PowerSetModel};
use porcupine::{CheckResult, Event, EventKind, Model, Operation};

#[derive(Clone)]
struct RegisterModel;

#[derive(Clone, Debug)]
struct RegisterInput {
    is_write: bool,
    value: i64,
}

impl Model for RegisterModel {
    type State = i64;
    type Input = RegisterInput;
    type Output = i64;

    fn init(&self) -> i64 {
        0
    }

    fn step(&self, state: &i64, input: &RegisterInput, output: &i64) -> Option<i64> {
        if input.is_write {
            Some(input.value)
        } else if *output == *state {
            Some(*state)
        } else {
            None
        }
    }
}

/// A register whose writes may be lost.
#[derive(Clone)]
struct LossyNdRegister;

#[derive(Clone, Debug, PartialEq)]
enum LossyInput {
    Write(i64),
    Read,
}

impl NondeterministicModel for LossyNdRegister {
    type State = i64;
    type Input = LossyInput;
    type Output = Option<i64>;

    fn init(&self) -> Vec<i64> {
        vec![0]
    }

    fn step(&self, state: &i64, input: &LossyInput, output: &Option<i64>) -> Vec<i64> {
        match (input, output) {
            (LossyInput::Write(v), None) => {
                if *v == *state {
                    vec![*state]
                } else {
                    vec![*v, *state]
                }
            }
            (LossyInput::Read, Some(o)) if *o == *state => vec![*state],
            _ => vec![],
        }
    }
}

fn reg_op(client: u64, is_write: bool, value: i64, output: i64, call: u64, ret: u64) -> Operation<RegisterInput, i64> {
    Operation { client_id: client, input: RegisterInput { is_write, value }, call, output, return_time: ret }
}

fn illegal_register_history() -> Vec<Operation<RegisterInput, i64>> {
    vec![
        reg_op(0, true, 1, 0, 0, 10),
        reg_op(1, false, 0, 0, 5, 15),
        reg_op(2, false, 0, 0, 12, 20),
    ]
}

fn illegal_register_history_as_events() -> Vec<Event<RegisterInput, i64>> {
    vec![
        Event {
            client_id: 0,
            kind: EventKind::Call,
            input: Some(RegisterInput { is_write: true, value: 1 }),
            output: None,
            id: 0,
        },
        Event { client_id: 0, kind: EventKind::Return, input: None, output: Some(0), id: 0 },
        Event {
            client_id: 1,
            kind: EventKind::Call,
            input: Some(RegisterInput { is_write: false, value: 0 }),
            output: None,
            id: 1,
        },
        Event { client_id: 1, kind: EventKind::Return, input: None, output: Some(0), id: 1 },
    ]
}

#[test]
fn prop_illegal_history_is_detected() {
    let history = illegal_register_history();
    let model = RegisterModel;
    let result = check_operations(&model, &history, None);
    assert_eq!(result, CheckResult::Illegal, "a non-linearizable history must be detected as Illegal");
}

#[test]
fn prop_events_illegal_history_is_detected() {
    let events = illegal_register_history_as_events();
    let result = check_events(&RegisterModel, &events, None);
    assert_eq!(result, CheckResult::Illegal, "a non-linearizable event history must be detected as Illegal");
}

#[test]
fn prop_events_empty_history_is_ok() {
    let events: Vec<Event<RegisterInput, i64>> = vec![];
    let result = check_events(&RegisterModel, &events, None);
    assert_eq!(result, CheckResult::Legal, "empty event history must be linearizable");
}

#[test]
fn prop_nd_impossible_read_is_illegal() {
    let model = PowerSetModel(LossyNdRegister);
    let history = vec![
        Operation { client_id: 0, input: LossyInput::Write(42), output: None, call: 0, return_time: 5 },
        Operation { client_id: 1, input: LossyInput::Read, output: Some(99), call: 6, return_time: 10 },
    ];
    assert_eq!(
        check_operations(&model, &history, None),
        CheckResult::Illegal,
        "a read of an impossible value must be Illegal"
    );
}

#[test]
fn nd_lost_write_may_be_read_as_old_value() {
    let model = PowerSetModel(LossyNdRegister);
    let history = vec![
        Operation { client_id: 0, input: LossyInput::Write(42), output: None, call: 0, return_time: 5 },
        Operation { client_id: 1, input: LossyInput::Read, output: Some(0), call: 6, return_time: 10 },
        Operation { client_id: 1, input: LossyInput::Read, output: Some(0), call: 11, return_time: 12 },
    ];
    assert_eq!(check_operations(&model, &history, None), CheckResult::Legal);
}

#[test]
fn power_set_step_collects_every_successor_once() {
    let model = PowerSetModel(LossyNdRegister);
    assert_eq!(model.init(), vec![0]);
    let after = model.step(&vec![0, 7], &LossyInput::Write(7), &None);
    // From 0: {7, 0}; from 7: {7}; deduplicated in order of first occurrence.
    assert_eq!(after, Some(vec![7, 0]));
    assert_eq!(model.step(&vec![0, 7], &LossyInput::Read, &Some(5)), None);
    assert_eq!(model.step(&vec![0, 7], &LossyInput::Read, &Some(7)), Some(vec![7]));
}

#[test]
fn deduplicate_keeps_first_occurrences_in_order() {
    assert_eq!(deduplicate(vec![3, 1, 3, 2, 1, 3]), vec![3, 1, 2]);
    assert_eq!(deduplicate(Vec::<u8>::new()), Vec::<u8>::new());
    assert_eq!(deduplicate(vec![5, 5, 5]), vec![5]);
}

#[test]
fn deduplicate_twice_is_deduplicate_once() {
    let once = deduplicate(vec![3, 1, 3, 2, 1, 3]);
    assert_eq!(deduplicate(once.clone()), once);
}

/// The register as a nondeterministic model with at most one successor.
#[derive(Clone)]
struct SingleSuccessorRegister;

impl NondeterministicModel for SingleSuccessorRegister {
    type State = i64;
    type Input = RegisterInput;
    type Output = i64;

    fn init(&self) -> Vec<i64> {
        vec![0]
    }

    fn step(&self, state: &i64, input: &RegisterInput, output: &i64) -> Vec<i64> {
        match RegisterModel.step(state, input, output) {
            Some(next) => vec![next],
            None => vec![],
        }
    }
}

#[test]
fn single_successor_model_agrees_with_deterministic_model() {
    let histories = vec![
        illegal_register_history(),
        vec![reg_op(0, true, 3, 0, 0, 10), reg_op(1, false, 0, 3, 5, 15)],
        vec![reg_op(0, true, 3, 0, 0, 10), reg_op(1, false, 0, 0, 11, 15)],
        vec![],
    ];
    for history in histories {
        assert_eq!(
            check_operations(&PowerSetModel(SingleSuccessorRegister), &history, None),
            check_operations(&RegisterModel, &history, None)
        );
    }
}
