//! A put/get register, a key-value store partitioned by key, and a set.
use porcupine::checker::{check_events, check_operations};
use porcupine::{CheckResult, Event, EventKind, Model, Operation};
use std::collections::HashMap;
use std::sync::Arc;

#[derive(Clone)]
struct RegisterModel;

#[derive(Clone, Debug, PartialEq)]
enum RegOp {
    Put,
    Get,
}

#[derive(Clone, Debug, PartialEq)]
struct RegisterInput {
    op: RegOp,
    value: i32,
}

impl Model for RegisterModel {
    type State = i32;
    type Input = RegisterInput;
    type Output = i32;

    fn init(&self) -> i32 {
        0
    }

    fn step(&self, state: &i32, input: &RegisterInput, output: &i32) -> Option<i32> {
        match input.op {
            RegOp::Put => Some(input.value),
            RegOp::Get => {
                if *output == *state {
                    Some(*state)
                } else {
                    None
                }
            }
        }
    }
}

fn reg_op(id: u64, op: RegOp, value: i32, output: i32, call: u64, ret: u64) -> Operation<RegisterInput, i32> {
    Operation { client_id: id, input: RegisterInput { op, value }, output, call, return_time: ret }
}

// A multi-key store with get / put / append, partitioned by key; the state of
// a partition is the value of its key.
#[derive(Clone)]
struct KvModel;

#[derive(Clone, Debug, PartialEq)]
enum KvOp {
    Get,
    Put,
    Append,
}

#[derive(Clone, Debug, PartialEq)]
struct KvInput {
    op: KvOp,
    key: Arc<str>,
    value: Arc<str>,
}

#[derive(Clone, Debug, PartialEq)]
struct KvOutput {
    value: Arc<str>,
}

impl Model for KvModel {
    type State = Arc<str>;
    type Input = KvInput;
    type Output = KvOutput;

    fn init(&self) -> Arc<str> {
        Arc::from("")
    }

    fn step(&self, state: &Arc<str>, input: &KvInput, output: &KvOutput) -> Option<Arc<str>> {
        match input.op {
            KvOp::Get => {
                if *output.value == **state {
                    Some(Arc::clone(state))
                } else {
                    None
                }
            }
            KvOp::Put => Some(Arc::clone(&input.value)),
            KvOp::Append => {
                let s = format!("{}{}", &**state, &*input.value);
                Some(Arc::from(s.as_str()))
            }
        }
    }

    fn partition(&self, history: &[Operation<KvInput, KvOutput>]) -> Option<Vec<Vec<usize>>> {
        let mut by_key: HashMap<Arc<str>, Vec<usize>> = HashMap::new();
        for (i, op) in history.iter().enumerate() {
            by_key.entry(Arc::clone(&op.input.key)).or_default().push(i);
        }
        Some(by_key.into_values().collect())
    }
}

// A set of integers: `add` inserts; `read` must observe exactly the set, with
// no value twice, unless its response is unknown.
#[derive(Clone)]
struct SetModel;

#[derive(Clone, Debug, PartialEq)]
enum SetOp {
    Add,
    Read,
}

#[derive(Clone, Debug, PartialEq)]
struct SetInput {
    op: SetOp,
    value: i32,
}

#[derive(Clone, Debug, PartialEq)]
struct SetOutput {
    values: Vec<i32>,
    unknown: bool,
}

impl Model for SetModel {
    type State = Vec<i32>;
    type Input = SetInput;
    type Output = SetOutput;

    fn init(&self) -> Vec<i32> {
        vec![]
    }

    fn step(&self, state: &Vec<i32>, input: &SetInput, output: &SetOutput) -> Option<Vec<i32>> {
        match input.op {
            SetOp::Add => {
                let mut next = state.clone();
                next.push(input.value);
                next.sort();
                next.dedup();
                Some(next)
            }
            SetOp::Read => {
                if output.unknown {
                    return Some(state.clone());
                }
                let mut vals = output.values.clone();
                vals.sort();
                for w in vals.windows(2) {
                    if w[0] == w[1] {
                        return None;
                    }
                }
                if vals == *state {
                    Some(state.clone())
                } else {
                    None
                }
            }
        }
    }
}

#[test]
fn register_case1_ok() {
    // put(100)[0,100] overlaps get→100[50,75] and get→0[25,80].
    // Valid linearization: get→0, put(100), get→100.
    let history = [
        reg_op(0, RegOp::Put, 100, 0, 0, 100),
        reg_op(1, RegOp::Get, 0, 100, 50, 75),
        reg_op(2, RegOp::Get, 0, 0, 25, 80),
    ];
    assert_eq!(check_operations(&RegisterModel, &history, None), CheckResult::Legal);
}

#[test]
fn register_case2_illegal() {
    // get→200 forces put(200) before it; get→0 is called after get→200
    // returned, so it must follow put(200) too, yet it returns 0.
    let history = [
        reg_op(0, RegOp::Put, 200, 0, 0, 100),
        reg_op(1, RegOp::Get, 0, 200, 10, 30),
        reg_op(2, RegOp::Get, 0, 0, 40, 90),
    ];
    assert_eq!(check_operations(&RegisterModel, &history, None), CheckResult::Illegal);
}

#[test]
fn register_zero_duration_ok() {
    let history = [reg_op(0, RegOp::Get, 0, 0, 0, 0), reg_op(1, RegOp::Get, 0, 0, 0, 0)];
    assert_eq!(check_operations(&RegisterModel, &history, None), CheckResult::Legal);
}

#[test]
fn register_zero_duration_illegal() {
    let history = [reg_op(0, RegOp::Get, 0, 1, 0, 0)];
    assert_eq!(check_operations(&RegisterModel, &history, None), CheckResult::Illegal);
}

#[test]
fn check_no_partitions() {
    // An empty history with a partitioning model.
    let history: Vec<Operation<KvInput, KvOutput>> = vec![];
    assert_eq!(check_operations(&KvModel, &history, None), CheckResult::Legal);
}

#[test]
fn kv_appends_per_key() {
    let kv = |client: u64, op: KvOp, key: &str, value: &str, out: &str, call: u64, ret: u64| Operation {
        client_id: client,
        input: KvInput { op, key: Arc::from(key), value: Arc::from(value) },
        output: KvOutput { value: Arc::from(out) },
        call,
        return_time: ret,
    };
    let ok = [
        kv(0, KvOp::Append, "a", "x", "", 0, 10),
        kv(1, KvOp::Append, "a", "y", "", 5, 15),
        kv(2, KvOp::Get, "a", "", "yx", 20, 30),
        kv(3, KvOp::Put, "b", "z", "", 0, 10),
        kv(4, KvOp::Get, "b", "", "z", 11, 12),
    ];
    assert_eq!(check_operations(&KvModel, &ok, None), CheckResult::Legal);
    let bad = [
        kv(0, KvOp::Append, "a", "x", "", 0, 10),
        kv(1, KvOp::Append, "a", "y", "", 11, 15),
        kv(2, KvOp::Get, "a", "", "yx", 20, 30),
    ];
    assert_eq!(check_operations(&KvModel, &bad, None), CheckResult::Illegal);
}

fn set_call(id: u64, op: SetOp, value: i32) -> Event<SetInput, SetOutput> {
    Event { client_id: id, kind: EventKind::Call, input: Some(SetInput { op, value }), output: None, id }
}

fn set_ret(id: u64, values: Vec<i32>, unknown: bool) -> Event<SetInput, SetOutput> {
    Event {
        client_id: id,
        kind: EventKind::Return,
        input: None,
        output: Some(SetOutput { values, unknown }),
        id,
    }
}

#[test]
fn set_model_all_cases() {
    // add(100) completes; add(0) overlaps with read→{100}.
    let case1 = [
        set_call(0, SetOp::Add, 100),
        set_ret(0, vec![], false),
        set_call(1, SetOp::Add, 0),
        set_call(2, SetOp::Read, 0),
        set_ret(2, vec![100], false),
        set_ret(1, vec![], false),
    ];
    // All three concurrent; the read returns the full set {100, 110}.
    let case2 = [
        set_call(0, SetOp::Add, 100),
        set_call(1, SetOp::Add, 110),
        set_call(2, SetOp::Read, 0),
        set_ret(2, vec![100, 110], false),
        set_ret(0, vec![], false),
        set_ret(1, vec![], false),
    ];
    // All concurrent; the read's response is unknown.
    let case3 = [
        set_call(0, SetOp::Add, 100),
        set_call(1, SetOp::Add, 110),
        set_call(2, SetOp::Read, 0),
        set_ret(2, vec![], true),
        set_ret(0, vec![], false),
        set_ret(1, vec![], false),
    ];
    // All concurrent; the read returns {100, 100, 110}, a duplicate.
    let case4 = [
        set_call(0, SetOp::Add, 100),
        set_call(1, SetOp::Add, 110),
        set_call(2, SetOp::Read, 0),
        set_ret(2, vec![100, 100, 110], false),
        set_ret(0, vec![], false),
        set_ret(1, vec![], false),
    ];
    assert_eq!(check_events(&SetModel, &case1, None), CheckResult::Legal, "case 1");
    assert_eq!(check_events(&SetModel, &case2, None), CheckResult::Legal, "case 2");
    assert_eq!(check_events(&SetModel, &case3, None), CheckResult::Legal, "case 3");
    assert_eq!(check_events(&SetModel, &case4, None), CheckResult::Illegal, "case 4");
}
