//! An append-only stream with a tail, the hash of the last appended batch and
//! an optional fencing token. An append that fails indefinitely may or may not
//! have become durable, so the model is nondeterministic and is checked
//! through `PowerSetModel`.
use porcupine::{
    checker::check_events,
    model::{NondeterministicModel, PowerSetModel},
    types::{CheckResult, Event, EventKind},
};

// ---------------------------------------------------------------------------
// State and I/O types
// ---------------------------------------------------------------------------

#[derive(Clone, PartialEq, Debug)]
struct S2StreamState {
    tail: u32,
    xxh3: u64,
    fencing_token: Option<String>,
}

/// The input side of an S2 operation, captured at invocation time.
#[derive(Clone, PartialEq, Debug)]
enum S2Input {
    Append {
        num_records: u32,
        /// xxh3 hash of the last record in the batch.
        xxh3: u64,
        /// If Some, install this as the new stream-level fencing token on success.
        set_fencing_token: Option<String>,
        /// Guard: the append must be rejected if the stream's current fencing
        /// token does not equal this value.
        fencing_token: Option<String>,
        /// Guard: the append must be rejected if the current tail does not
        /// equal this value.
        match_seq_num: Option<u32>,
    },
    Read,
    CheckTail,
}

/// The output side of an S2 operation, observed at return time.
#[derive(Clone, PartialEq, Debug)]
enum S2Output {
    AppendSuccess { tail: u32 },
    /// The append definitely did not become durable (validation/fencing error).
    AppendDefiniteFailure,
    /// Network or server error — the append may or may not have become durable.
    AppendIndefiniteFailure,
    ReadSuccess { tail: u32, xxh3: u64 },
    ReadFailure,
    CheckTailSuccess { tail: u32 },
    CheckTailFailure,
}

// ---------------------------------------------------------------------------
// NondeterministicModel implementation
// ---------------------------------------------------------------------------

struct S2StreamModel;

impl NondeterministicModel for S2StreamModel {
    type State = S2StreamState;
    type Input = S2Input;
    type Output = S2Output;

    fn init(&self) -> Vec<S2StreamState> {
        vec![S2StreamState {
            tail: 0,
            xxh3: 0,
            fencing_token: None,
        }]
    }

    fn step(
        &self,
        state: &S2StreamState,
        input: &S2Input,
        output: &S2Output,
    ) -> Vec<S2StreamState> {
        match input {
            S2Input::Append {
                num_records,
                xxh3,
                set_fencing_token,
                fencing_token,
                match_seq_num,
            } => {
                // The state that results if the append became durable.
                let optimistic_token = set_fencing_token
                    .clone()
                    .or_else(|| state.fencing_token.clone());
                let optimistic = S2StreamState {
                    tail: state.tail + num_records,
                    xxh3: *xxh3,
                    fencing_token: optimistic_token,
                };

                match output {
                    S2Output::AppendDefiniteFailure => {
                        // Guaranteed not durable.
                        vec![state.clone()]
                    }
                    S2Output::AppendIndefiniteFailure => {
                        // Fencing token mismatch → cannot have become durable.
                        if let (Some(bt), Some(ft)) = (fencing_token, &state.fencing_token) {
                            if bt != ft {
                                return vec![state.clone()];
                            }
                        }
                        // matchSeqNum mismatch → cannot have become durable.
                        if let Some(msn) = match_seq_num {
                            if *msn != state.tail {
                                return vec![state.clone()];
                            }
                        }
                        // Both outcomes are possible.
                        vec![optimistic, state.clone()]
                    }
                    S2Output::AppendSuccess { tail } => {
                        // Durable: validate preconditions.
                        if let Some(bt) = fencing_token {
                            match &state.fencing_token {
                                None => return vec![],
                                Some(ft) if ft != bt => return vec![],
                                _ => {}
                            }
                        }
                        if let Some(msn) = match_seq_num {
                            if *msn != state.tail {
                                return vec![];
                            }
                        }
                        if *tail != optimistic.tail {
                            return vec![];
                        }
                        vec![optimistic]
                    }
                    // Wrong output kind for an Append input.
                    _ => vec![],
                }
            }

            S2Input::Read => match output {
                S2Output::ReadSuccess { tail, xxh3 } => {
                    if state.xxh3 != *xxh3 {
                        return vec![];
                    }
                    if state.tail == *tail {
                        vec![state.clone()]
                    } else {
                        vec![]
                    }
                }
                S2Output::ReadFailure => vec![state.clone()],
                _ => vec![],
            },

            S2Input::CheckTail => match output {
                S2Output::CheckTailSuccess { tail } => {
                    if state.tail == *tail {
                        vec![state.clone()]
                    } else {
                        vec![]
                    }
                }
                S2Output::CheckTailFailure => vec![state.clone()],
                _ => vec![],
            },
        }
    }
}

// ---------------------------------------------------------------------------
// Helpers
// ---------------------------------------------------------------------------

fn call(client_id: u64, op_id: u64, input: S2Input) -> Event<S2Input, S2Output> {
    Event {
        client_id,
        kind: EventKind::Call,
        input: Some(input),
        output: None,
        id: op_id,
    }
}

fn ret(client_id: u64, op_id: u64, output: S2Output) -> Event<S2Input, S2Output> {
    Event {
        client_id,
        kind: EventKind::Return,
        input: None,
        output: Some(output),
        id: op_id,
    }
}

fn append_input(num_records: u32, xxh3: u64) -> S2Input {
    S2Input::Append {
        num_records,
        xxh3,
        set_fencing_token: None,
        fencing_token: None,
        match_seq_num: None,
    }
}

fn check(events: &[Event<S2Input, S2Output>]) -> CheckResult {
    check_events(&PowerSetModel(S2StreamModel), events, None)
}

// ---------------------------------------------------------------------------
// Tests
// ---------------------------------------------------------------------------

/// Append(4) → Read → CheckTail, all succeed sequentially.
#[test]
fn basic_no_concurrency() {
    let events = vec![
        call(0, 0, append_input(4, 12345)),
        ret(0, 0, S2Output::AppendSuccess { tail: 4 }),
        call(0, 1, S2Input::Read),
        ret(0, 1, S2Output::ReadSuccess { tail: 4, xxh3: 12345 }),
        call(0, 2, S2Input::CheckTail),
        ret(0, 2, S2Output::CheckTailSuccess { tail: 4 }),
    ];
    assert_eq!(check(&events), CheckResult::Legal);
}

/// Append(4) ok → Read ok → CheckTail ok → Append(5) definite-fail → Read still sees tail=4.
#[test]
fn definite_failure_linearizable() {
    let events = vec![
        call(0, 0, append_input(4, 12345)),
        ret(0, 0, S2Output::AppendSuccess { tail: 4 }),
        call(0, 1, S2Input::Read),
        ret(0, 1, S2Output::ReadSuccess { tail: 4, xxh3: 12345 }),
        call(0, 2, S2Input::CheckTail),
        ret(0, 2, S2Output::CheckTailSuccess { tail: 4 }),
        call(0, 3, append_input(5, 67890)),
        ret(0, 3, S2Output::AppendDefiniteFailure),
        call(0, 4, S2Input::Read),
        ret(0, 4, S2Output::ReadSuccess { tail: 4, xxh3: 12345 }),
    ];
    assert_eq!(check(&events), CheckResult::Legal);
}

/// Same as above but the final Read returns tail=9 (the failed append's tail) — illegal.
#[test]
fn definite_failure_illegal() {
    let events = vec![
        call(0, 0, append_input(4, 12345)),
        ret(0, 0, S2Output::AppendSuccess { tail: 4 }),
        call(0, 1, S2Input::Read),
        ret(0, 1, S2Output::ReadSuccess { tail: 4, xxh3: 12345 }),
        call(0, 2, S2Input::CheckTail),
        ret(0, 2, S2Output::CheckTailSuccess { tail: 4 }),
        call(0, 3, append_input(5, 67890)),
        ret(0, 3, S2Output::AppendDefiniteFailure),
        // Read returns updated tail despite definite failure — illegal.
        call(0, 4, S2Input::Read),
        ret(0, 4, S2Output::ReadSuccess { tail: 9, xxh3: 67890 }),
    ];
    assert_eq!(check(&events), CheckResult::Illegal);
}

/// Append(5) indefinite-fails, then Read returns the updated tail=9 — still linearizable
/// because an indefinite failure may have become durable.
#[test]
fn indefinite_failure_updated_tail_ok() {
    let events = vec![
        call(0, 0, append_input(4, 12345)),
        ret(0, 0, S2Output::AppendSuccess { tail: 4 }),
        call(0, 1, S2Input::Read),
        ret(0, 1, S2Output::ReadSuccess { tail: 4, xxh3: 12345 }),
        call(0, 2, S2Input::CheckTail),
        ret(0, 2, S2Output::CheckTailSuccess { tail: 4 }),
        call(0, 3, append_input(5, 67890)),
        ret(0, 3, S2Output::AppendIndefiniteFailure),
        call(0, 4, S2Input::Read),
        ret(0, 4, S2Output::ReadSuccess { tail: 9, xxh3: 67890 }),
    ];
    assert_eq!(check(&events), CheckResult::Legal);
}

/// Same but Read returns the original tail=4 — also linearizable
/// (the indefinite failure did not become durable in this execution).
#[test]
fn indefinite_failure_original_tail_ok() {
    let events = vec![
        call(0, 0, append_input(4, 12345)),
        ret(0, 0, S2Output::AppendSuccess { tail: 4 }),
        call(0, 1, S2Input::Read),
        ret(0, 1, S2Output::ReadSuccess { tail: 4, xxh3: 12345 }),
        call(0, 2, S2Input::CheckTail),
        ret(0, 2, S2Output::CheckTailSuccess { tail: 4 }),
        call(0, 3, append_input(5, 67890)),
        ret(0, 3, S2Output::AppendIndefiniteFailure),
        call(0, 4, S2Input::Read),
        ret(0, 4, S2Output::ReadSuccess { tail: 4, xxh3: 12345 }),
    ];
    assert_eq!(check(&events), CheckResult::Legal);
}
