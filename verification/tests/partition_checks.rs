//! Checks on partitionings: disjoint, covering, in bounds, and pairs kept together.
use porcupine::invariants::{
    assert_partition_covers_ops, assert_partition_events_paired, check_partition_covers_ops,
    check_partition_events_paired, scan_partition_covering, scan_partitions, PartitionError,
};
use porcupine::{Event, EventKind};

fn call(id: u64) -> Event<i32, i32> {
    Event { client_id: id, kind: EventKind::Call, input: Some(0), output: None, id }
}

fn ret(id: u64) -> Event<i32, i32> {
    Event { client_id: id, kind: EventKind::Return, input: None, output: Some(0), id }
}

#[test]
fn ops_valid_partition_passes() {
    let parts = vec![vec![0, 2], vec![1, 3]];
    assert_partition_covers_ops(&parts, 4);
    assert_eq!(check_partition_covers_ops(&parts, 4), Ok(()));
}

#[test]
fn ops_overlapping_partitions_rejected() {
    let parts = vec![vec![0, 1], vec![1, 2]];
    assert_eq!(
        check_partition_covers_ops(&parts, 3),
        Err(PartitionError::Overlap { index: 1 })
    );
}

#[test]
fn ops_missing_index_rejected() {
    let parts = vec![vec![0, 2]];
    assert_eq!(
        check_partition_covers_ops(&parts, 3),
        Err(PartitionError::Missing { covered: 2, len: 3 })
    );
}

#[test]
fn ops_out_of_bounds_rejected() {
    let parts = vec![vec![0, 1, 2, 5]];
    assert_eq!(
        check_partition_covers_ops(&parts, 3),
        Err(PartitionError::OutOfBounds { index: 5, len: 3 })
    );
}

#[test]
fn events_valid_partition_passes() {
    let history = vec![call(0), call(1), ret(0), ret(1)];
    let parts = vec![vec![0, 2], vec![1, 3]];
    assert_partition_events_paired(&parts, &history);
    assert_eq!(check_partition_events_paired(&parts, &history), Ok(()));
}

#[test]
fn events_split_pair_rejected() {
    let history = vec![call(0), call(1), ret(0), ret(1)];
    let parts = vec![vec![0, 1], vec![2, 3]];
    assert_eq!(
        check_partition_events_paired(&parts, &history),
        Err(PartitionError::SplitPair { id: 0, call_part: 0, return_part: 1 })
    );
}

#[test]
fn events_missing_index_rejected() {
    let history = vec![call(0), call(1), ret(0), ret(1)];
    let parts = vec![vec![0, 2], vec![1]];
    assert_eq!(
        check_partition_events_paired(&parts, &history),
        Err(PartitionError::Missing { covered: 3, len: 4 })
    );
}

#[test]
fn scan_reports_owner_of_each_index() {
    let parts = vec![vec![2, 0], vec![1]];
    assert_eq!(scan_partition_covering(&parts, 3), vec![Some(0), Some(1), Some(0)]);
    assert_eq!(scan_partitions(&parts, 3), Ok(vec![Some(0), Some(1), Some(0)]));
}

#[test]
fn scan_reports_first_violation_in_scan_order() {
    // Index 0 repeats before the out-of-bounds 7 is reached.
    let parts = vec![vec![0, 0, 7]];
    assert_eq!(scan_partitions(&parts, 3), Err(PartitionError::Overlap { index: 0 }));
}
