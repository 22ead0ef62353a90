//! Flattening histories into entries, renumbering event ids, and the linked
//! list of nodes that the search lifts operations out of.
use porcupine::arena::{NodeArena, NodeRef};
use porcupine::entries::{make_entries, EntryValue};
use porcupine::events::{convert_entries, renumber};
use porcupine::{Event, EventKind, Operation};

#[derive(Clone, Debug, PartialEq)]
struct RegInput {
    is_write: bool,
    value: i32,
}

fn write(v: i32) -> RegInput {
    RegInput { is_write: true, value: v }
}

fn read() -> RegInput {
    RegInput { is_write: false, value: 0 }
}

fn op(id: u64, input: RegInput, output: i32, call: u64, ret: u64) -> Operation<RegInput, i32> {
    Operation { client_id: id, input, output, call, return_time: ret }
}

fn call_ev(id: u64, input: RegInput) -> Event<RegInput, i32> {
    Event { client_id: id, kind: EventKind::Call, input: Some(input), output: None, id }
}

fn ret_ev(id: u64, output: i32) -> Event<RegInput, i32> {
    Event { client_id: id, kind: EventKind::Return, input: None, output: Some(output), id }
}

#[test]
fn make_entries_empty_produces_no_entries() {
    let entries = make_entries::<RegInput, i32>(&[]);
    assert!(entries.is_empty());
}

#[test]
fn make_entries_single_op_produces_two_entries() {
    let entries = make_entries(&[op(0, write(1), 0, 5, 15)]);
    assert_eq!(entries.len(), 2);
    assert!(matches!(entries[0].value, EntryValue::Call(_)));
    assert!(matches!(entries[1].value, EntryValue::Return(_)));
    assert_eq!(entries[0].time, 5);
    assert_eq!(entries[1].time, 15);
    assert_eq!(entries[0].id, 0);
    assert_eq!(entries[1].id, 0);
}

#[test]
fn make_entries_call_before_return_at_equal_timestamps() {
    let entries = make_entries(&[op(0, write(1), 0, 10, 10)]);
    assert!(
        matches!(entries[0].value, EntryValue::Call(_)),
        "Call must precede Return when timestamps are equal"
    );
}

#[test]
fn make_entries_time_sorted_across_two_ops() {
    let entries = make_entries(&[op(0, write(1), 0, 5, 15), op(1, write(2), 0, 0, 10)]);
    assert_eq!(entries.len(), 4);
    assert_eq!(
        [entries[0].time, entries[1].time, entries[2].time, entries[3].time],
        [0, 5, 10, 15]
    );
    assert!(matches!(entries[0].value, EntryValue::Call(_)));
    assert!(matches!(entries[1].value, EntryValue::Call(_)));
    assert!(matches!(entries[2].value, EntryValue::Return(_)));
    assert!(matches!(entries[3].value, EntryValue::Return(_)));
}

#[test]
fn make_entries_large_timestamps_do_not_overflow() {
    let t = u64::MAX - 10;
    let entries = make_entries(&[op(0, write(1), 0, t, t + 5), op(1, write(2), 0, t + 1, t + 6)]);
    assert_eq!(entries[0].id, 0);
    assert_eq!(entries[1].id, 1);
    assert!(entries[0].time < entries[1].time);
    assert!(entries[1].time < entries[2].time);
    assert!(entries[2].time < entries[3].time);
}

#[test]
fn make_entries_equal_calls_ordered_by_id_and_payloads_kept() {
    // Two operations called at the same instant: ordered by id; a return at
    // the same instant as a call comes after it.
    let entries = make_entries(&[op(0, write(7), 3, 4, 9), op(1, read(), 5, 4, 4)]);
    let keys: Vec<(u64, bool, usize)> = entries
        .iter()
        .map(|e| (e.time, matches!(e.value, EntryValue::Return(_)), e.id))
        .collect();
    assert_eq!(keys, vec![(4, false, 0), (4, false, 1), (4, true, 1), (9, true, 0)]);
    match &entries[0].value {
        EntryValue::Call(i) => assert_eq!(*i, write(7)),
        EntryValue::Return(_) => panic!("expected a call"),
    }
    match &entries[3].value {
        EntryValue::Return(o) => assert_eq!(*o, 3),
        EntryValue::Call(_) => panic!("expected a return"),
    }
}

#[test]
fn renumber_empty_produces_empty() {
    let out = renumber::<RegInput, i32>(&[]);
    assert!(out.is_empty());
}

#[test]
fn renumber_contiguous_ids_are_unchanged() {
    let events = vec![call_ev(0, write(1)), ret_ev(0, 0), call_ev(1, read()), ret_ev(1, 0)];
    let out = renumber(&events);
    assert_eq!([out[0].id, out[1].id, out[2].id, out[3].id], [0, 0, 1, 1]);
}

#[test]
fn renumber_noncontiguous_ids_become_0_based() {
    let events = vec![
        Event { client_id: 0, kind: EventKind::Call, input: Some(write(5)), output: None, id: 100 },
        Event { client_id: 0, kind: EventKind::Return, input: None, output: Some(0), id: 100 },
        Event { client_id: 1, kind: EventKind::Call, input: Some(read()), output: None, id: 999 },
        Event { client_id: 1, kind: EventKind::Return, input: None, output: Some(5), id: 999 },
    ];
    let out = renumber(&events);
    assert_eq!(out[0].id, out[1].id);
    assert_eq!(out[2].id, out[3].id);
    assert_ne!(out[0].id, out[2].id);
    assert!(out[0].id < 2 && out[2].id < 2);
}

#[test]
fn renumber_preserves_event_kind_and_payload() {
    let events = vec![call_ev(7, write(42)), ret_ev(7, 0)];
    let out = renumber(&events);
    assert_eq!(out.len(), 2);
    assert!(matches!(out[0].kind, EventKind::Call));
    assert!(matches!(out[1].kind, EventKind::Return));
    assert_eq!(out[0].id, out[1].id);
}

#[test]
fn renumber_numbers_ids_in_order_of_first_occurrence() {
    let events = vec![call_ev(9, write(1)), call_ev(3, read()), ret_ev(3, 0), ret_ev(9, 0)];
    let out = renumber(&events);
    assert_eq!([out[0].id, out[1].id, out[2].id, out[3].id], [0, 1, 1, 0]);
    assert_eq!(out[0].input, Some(write(1)));
    assert_eq!(out[2].output, Some(0));
    assert_eq!(out[1].client_id, 3);
}

#[test]
fn convert_entries_uses_slice_index_as_time() {
    let events = vec![call_ev(0, write(1)), ret_ev(0, 0)];
    let entries = convert_entries(&events);
    assert_eq!(entries[0].time, 0);
    assert_eq!(entries[1].time, 1);
}

#[test]
fn convert_entries_maps_kinds_and_ids_correctly() {
    let events = vec![call_ev(0, write(1)), ret_ev(0, 0)];
    let entries = convert_entries(&events);
    assert!(matches!(entries[0].value, EntryValue::Call(_)));
    assert!(matches!(entries[1].value, EntryValue::Return(_)));
    assert_eq!(entries[0].id, 0);
    assert_eq!(entries[1].id, 0);
}

#[test]
fn arena_lift_and_unlift_restores_two_op_list() {
    let entries = make_entries(&[op(0, write(1), 0, 0, 15), op(1, write(2), 0, 5, 10)]);
    let mut arena = NodeArena::from_entries(entries);

    arena.lift(NodeRef(1));
    assert_eq!(arena.head_next(), Some(NodeRef(2)));
    assert_eq!(arena.nodes[2].next, Some(NodeRef(3)));
    assert_eq!(arena.nodes[3].next, None);

    arena.unlift(NodeRef(1));
    assert_eq!(arena.head_next(), Some(NodeRef(1)));
    assert_eq!(arena.nodes[1].next, Some(NodeRef(2)));
    assert_eq!(arena.nodes[2].next, Some(NodeRef(3)));
    assert_eq!(arena.nodes[3].next, Some(NodeRef(4)));
    assert_eq!(arena.nodes[4].next, None);
}

#[test]
fn arena_nested_lift_unlift_restores_three_op_list() {
    let entries = make_entries(&[
        op(0, write(1), 0, 0, 30),
        op(1, write(2), 0, 5, 20),
        op(2, read(), 1, 25, 35),
    ]);
    let mut arena = NodeArena::from_entries(entries);

    arena.lift(NodeRef(1));
    arena.lift(NodeRef(2));
    assert_eq!(arena.head_next(), Some(NodeRef(4)));
    assert_eq!(arena.nodes[4].next, Some(NodeRef(6)));

    arena.unlift(NodeRef(2));
    assert_eq!(arena.head_next(), Some(NodeRef(2)));
    assert_eq!(arena.nodes[2].next, Some(NodeRef(3)));
    assert_eq!(arena.nodes[3].next, Some(NodeRef(4)));

    arena.unlift(NodeRef(1));
    assert_eq!(arena.head_next(), Some(NodeRef(1)));
    assert_eq!(arena.nodes[1].next, Some(NodeRef(2)));
    assert_eq!(arena.nodes[4].next, Some(NodeRef(5)));
    assert_eq!(arena.nodes[5].next, Some(NodeRef(6)));
    assert_eq!(arena.nodes[6].next, None);
}

#[test]
fn arena_from_entries_links_calls_to_their_returns() {
    let entries = make_entries(&[op(0, write(1), 0, 0, 15), op(1, write(2), 0, 5, 10)]);
    let arena = NodeArena::from_entries(entries);
    assert_eq!(arena.nodes.len(), 5);
    assert_eq!(arena.nodes[1].match_idx, Some(NodeRef(4)));
    assert_eq!(arena.nodes[2].match_idx, Some(NodeRef(3)));
    assert_eq!(arena.nodes[3].match_idx, None);
    assert_eq!(arena.nodes[4].prev, NodeRef(3));
    assert_eq!(arena.nodes[0].next, Some(NodeRef(1)));
}

#[test]
fn renumber_twice_keeps_the_ids_of_once() {
    let events = vec![call_ev(9, write(1)), call_ev(3, read()), ret_ev(3, 0), ret_ev(9, 0)];
    let once = renumber(&events);
    let twice = renumber(&once);
    let ids_once: Vec<u64> = once.iter().map(|e| e.id).collect();
    let ids_twice: Vec<u64> = twice.iter().map(|e| e.id).collect();
    assert_eq!(ids_once, ids_twice);
}

#[test]
fn lift_then_unlift_restores_the_list() {
    let ops = vec![
        Operation { client_id: 0, input: write(1), call: 0, output: 0, return_time: 10 },
        Operation { client_id: 1, input: read(), call: 5, output: 1, return_time: 15 },
    ];
    let mut arena = NodeArena::from_entries(make_entries(&ops));
    let before = arena.head_next();
    let first = before.unwrap();
    arena.lift(first);
    assert_ne!(arena.head_next(), before);
    arena.unlift(first);
    assert_eq!(arena.head_next(), before);
}
