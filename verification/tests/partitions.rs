//! Histories of a key-value store, checked one key at a time.
use porcupine::checker::{
    check_events, check_events_partitioned, check_operations, check_operations_partitioned,
};
use porcupine::{CheckResult, Event, EventKind, Model, Operation};
use std::collections::HashMap;

#[derive(Clone)]
struct KvModel;

#[derive(Clone, Debug, PartialEq)]
struct KvInput {
    key: u8,
    is_write: bool,
    value: i32,
}

fn kv_step(state: &HashMap<u8, i32>, input: &KvInput, output: &i32) -> Option<HashMap<u8, i32>> {
    let mut next = state.clone();
    if input.is_write {
        next.insert(input.key, input.value);
        Some(next)
    } else {
        let stored = *state.get(&input.key).unwrap_or(&0);
        if *output == stored {
            Some(next)
        } else {
            None
        }
    }
}

impl Model for KvModel {
    type State = HashMap<u8, i32>;
    type Input = KvInput;
    type Output = i32;

    fn init(&self) -> Self::State {
        HashMap::new()
    }

    fn step(&self, state: &Self::State, input: &KvInput, output: &i32) -> Option<Self::State> {
        kv_step(state, input, output)
    }

    fn partition(&self, history: &[Operation<KvInput, i32>]) -> Option<Vec<Vec<usize>>> {
        let mut by_key: HashMap<u8, Vec<usize>> = HashMap::new();
        for (i, op) in history.iter().enumerate() {
            by_key.entry(op.input.key).or_default().push(i);
        }
        Some(by_key.into_values().collect())
    }
}

#[derive(Clone)]
struct KvEventsModel;

impl Model for KvEventsModel {
    type State = HashMap<u8, i32>;
    type Input = KvInput;
    type Output = i32;

    fn init(&self) -> Self::State {
        HashMap::new()
    }

    fn step(&self, state: &Self::State, input: &KvInput, output: &i32) -> Option<Self::State> {
        kv_step(state, input, output)
    }

    fn partition_events(&self, history: &[Event<KvInput, i32>]) -> Option<Vec<Vec<usize>>> {
        let mut id_to_key: HashMap<u64, u8> = HashMap::new();
        for ev in history {
            if let (EventKind::Call, Some(input)) = (&ev.kind, &ev.input) {
                id_to_key.insert(ev.id, input.key);
            }
        }
        let mut by_key: HashMap<u8, Vec<usize>> = HashMap::new();
        for (i, ev) in history.iter().enumerate() {
            if let Some(&key) = id_to_key.get(&ev.id) {
                by_key.entry(key).or_default().push(i);
            }
        }
        Some(by_key.into_values().collect())
    }
}

fn kv_write(key: u8, value: i32) -> KvInput {
    KvInput { key, is_write: true, value }
}

fn kv_read(key: u8) -> KvInput {
    KvInput { key, is_write: false, value: 0 }
}

fn kv_op(id: u64, input: KvInput, output: i32, call: u64, ret: u64) -> Operation<KvInput, i32> {
    Operation { client_id: id, input, output, call, return_time: ret }
}

fn kv_call(id: u64, key: u8, is_write: bool, value: i32) -> Event<KvInput, i32> {
    Event {
        client_id: id,
        kind: EventKind::Call,
        input: Some(KvInput { key, is_write, value }),
        output: None,
        id,
    }
}

fn kv_ret(id: u64, output: i32) -> Event<KvInput, i32> {
    Event { client_id: id, kind: EventKind::Return, input: None, output: Some(output), id }
}

#[test]
fn two_partition_ok_history() {
    let history = [
        kv_op(0, kv_write(0, 1), 0, 0, 10),
        kv_op(1, kv_read(0), 1, 11, 20),
        kv_op(2, kv_write(1, 5), 0, 0, 10),
        kv_op(3, kv_read(1), 5, 11, 20),
    ];
    assert_eq!(check_operations(&KvModel, &history, None), CheckResult::Legal);
}

#[test]
fn two_partition_illegal_history() {
    let history = [
        kv_op(0, kv_write(0, 1), 0, 0, 10),
        kv_op(1, kv_read(0), 0, 11, 20),
        kv_op(2, kv_write(1, 5), 0, 0, 10),
        kv_op(3, kv_read(1), 5, 11, 20),
    ];
    assert_eq!(check_operations(&KvModel, &history, None), CheckResult::Illegal);
}

#[test]
fn three_partitions_all_ok() {
    let history = [
        kv_op(0, kv_write(0, 1), 0, 0, 10),
        kv_op(1, kv_read(0), 1, 11, 20),
        kv_op(2, kv_write(1, 2), 0, 0, 10),
        kv_op(3, kv_read(1), 2, 11, 20),
        kv_op(4, kv_write(2, 3), 0, 0, 10),
        kv_op(5, kv_read(2), 3, 11, 20),
    ];
    assert_eq!(check_operations(&KvModel, &history, None), CheckResult::Legal);
}

#[test]
fn check_events_partition_two_keys_ok() {
    let history = [
        kv_call(0, 0, true, 1),
        kv_ret(0, 0),
        kv_call(1, 0, false, 0),
        kv_ret(1, 1),
        kv_call(2, 1, true, 5),
        kv_ret(2, 0),
        kv_call(3, 1, false, 0),
        kv_ret(3, 5),
    ];
    assert_eq!(check_events(&KvEventsModel, &history, None), CheckResult::Legal);
}

#[test]
fn check_events_partition_detects_illegal_in_one_key() {
    let history = [
        kv_call(0, 0, true, 1),
        kv_ret(0, 0),
        kv_call(1, 0, false, 0),
        kv_ret(1, 0),
        kv_call(2, 1, true, 5),
        kv_ret(2, 0),
        kv_call(3, 1, false, 0),
        kv_ret(3, 5),
    ];
    assert_eq!(check_events(&KvEventsModel, &history, None), CheckResult::Illegal);
}

#[test]
fn check_events_partition_concurrent_writes_ok() {
    let history = [kv_call(0, 0, true, 1), kv_call(1, 1, true, 5), kv_ret(0, 0), kv_ret(1, 0)];
    assert_eq!(check_events(&KvEventsModel, &history, None), CheckResult::Legal);
}

/// A history of `per_key` sequential write/read pairs on each of `keys`
/// keys; the reads of key `bad`, if any, return a stale value.
fn big_history(keys: u8, per_key: u64, bad: Option<u8>) -> Vec<Operation<KvInput, i32>> {
    let mut ops = Vec::new();
    let mut id = 0;
    for k in 0..keys {
        for j in 0..per_key {
            let t = 100 * j;
            let v = (j as i32) + 1;
            ops.push(kv_op(id, kv_write(k, v), 0, t, t + 10));
            id += 1;
            let seen = if bad == Some(k) && j == per_key - 1 { v - 1 } else { v };
            ops.push(kv_op(id, kv_read(k), seen, t + 20, t + 30));
            id += 1;
        }
    }
    ops
}

#[test]
fn many_partitions_on_thread_pool_ok() {
    // 3 keys x 400 pairs x 2 entries per operation: above the sequential threshold.
    let history = big_history(3, 400, None);
    assert_eq!(check_operations(&KvModel, &history, None), CheckResult::Legal);
}

#[test]
fn many_partitions_on_thread_pool_illegal() {
    let history = big_history(3, 400, Some(1));
    assert_eq!(check_operations(&KvModel, &history, None), CheckResult::Illegal);
}

#[test]
fn invalid_partitioning_falls_back_to_whole_history() {
    let history = [
        kv_op(0, kv_write(0, 1), 0, 0, 10),
        kv_op(1, kv_read(0), 1, 11, 20),
        kv_op(2, kv_write(1, 5), 0, 0, 10),
        kv_op(3, kv_read(1), 0, 11, 20),
    ];
    // Index 3 is missing: the whole history is checked, and is illegal.
    let parts = Some(vec![vec![0, 1], vec![2]]);
    assert_eq!(check_operations_partitioned(&KvModel, &history, parts, None), CheckResult::Illegal);
    // Overlapping blocks are refused as well.
    let parts = Some(vec![vec![0, 1, 2], vec![2, 3]]);
    assert_eq!(check_operations_partitioned(&KvModel, &history, parts, None), CheckResult::Illegal);
    // A valid partitioning checks each key alone.
    let parts = Some(vec![vec![3, 2], vec![1, 0]]);
    assert_eq!(check_operations_partitioned(&KvModel, &history, parts, None), CheckResult::Illegal);
    assert_eq!(check_operations_partitioned(&KvModel, &history[..3], None, None), CheckResult::Legal);
}

#[test]
fn event_partition_out_of_order_block_is_illegal() {
    let history = [kv_call(0, 0, true, 1), kv_call(1, 1, true, 5), kv_ret(0, 0), kv_ret(1, 0)];
    // A block that lists a return before its call has no linearization.
    let parts = Some(vec![vec![2, 0], vec![1, 3]]);
    assert_eq!(check_events_partitioned(&KvEventsModel, &history, parts, None), CheckResult::Illegal);
    // The same blocks in order are each linearizable.
    let parts = Some(vec![vec![0, 2], vec![1, 3]]);
    assert_eq!(check_events_partitioned(&KvEventsModel, &history, parts, None), CheckResult::Legal);
    // A block that splits a call from its return is refused too.
    let parts = Some(vec![vec![0, 1], vec![2, 3]]);
    assert_eq!(check_events_partitioned(&KvEventsModel, &history, parts, None), CheckResult::Legal);
}

#[test]
fn single_block_in_order_is_the_whole_history() {
    let ok = [
        kv_op(0, kv_write(0, 1), 0, 0, 10),
        kv_op(1, kv_read(0), 1, 11, 20),
        kv_op(2, kv_write(1, 5), 0, 0, 10),
    ];
    let bad = [
        kv_op(0, kv_write(0, 1), 0, 0, 10),
        kv_op(1, kv_read(0), 0, 11, 20),
        kv_op(2, kv_write(1, 5), 0, 0, 10),
    ];
    for history in [&ok[..], &bad[..]] {
        let one = Some(vec![vec![0, 1, 2]]);
        assert_eq!(
            check_operations_partitioned(&KvModel, history, one, None),
            check_operations_partitioned(&KvModel, history, None, None)
        );
    }
}

#[test]
fn repeated_checks_agree() {
    let ok = [
        kv_op(0, kv_write(0, 1), 0, 0, 10),
        kv_op(1, kv_read(0), 1, 11, 20),
        kv_op(2, kv_write(1, 5), 0, 0, 10),
        kv_op(3, kv_read(1), 5, 11, 20),
    ];
    let bad = [
        kv_op(0, kv_write(0, 1), 0, 0, 10),
        kv_op(1, kv_read(0), 0, 11, 20),
        kv_op(2, kv_write(1, 5), 0, 0, 10),
        kv_op(3, kv_read(1), 5, 11, 20),
    ];
    for _ in 0..3 {
        assert_eq!(check_operations(&KvModel, &ok, None), CheckResult::Legal);
        assert_eq!(check_operations(&KvModel, &bad, None), CheckResult::Illegal);
        assert_eq!(
            check_operations(&KvModel, &ok, Some(std::time::Duration::from_secs(60))),
            CheckResult::Legal
        );
    }
}

#[test]
fn renamed_event_ids_keep_partitioned_result() {
    let history = [kv_call(0, 0, true, 1), kv_call(1, 1, true, 5), kv_ret(0, 0), kv_ret(1, 0), kv_call(2, 0, false, 0), kv_ret(2, 1)];
    let renamed = [kv_call(70, 0, true, 1), kv_call(9, 1, true, 5), kv_ret(70, 0), kv_ret(9, 0), kv_call(1000, 0, false, 0), kv_ret(1000, 1)];
    assert_eq!(check_events(&KvEventsModel, &history, None), CheckResult::Legal);
    assert_eq!(check_events(&KvEventsModel, &renamed, None), CheckResult::Legal);
    let stale = [kv_call(0, 0, true, 1), kv_ret(0, 0), kv_call(2, 0, false, 0), kv_ret(2, 0)];
    let stale_renamed = [kv_call(5, 0, true, 1), kv_ret(5, 0), kv_call(3, 0, false, 0), kv_ret(3, 0)];
    assert_eq!(check_events(&KvEventsModel, &stale, None), CheckResult::Illegal);
    assert_eq!(check_events(&KvEventsModel, &stale_renamed, None), CheckResult::Illegal);
}
