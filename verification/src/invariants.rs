//! Checks on what a model's partitioner returns: the partitions of a history
//! must be disjoint, cover every index of the history, stay in bounds, and, for
//! event histories, keep each call with its return.
use crate::types::{Event, EventKind};
use std::collections::HashMap;
use vstd::prelude::*;

verus! {

/// Why a partitioning of a history is refused.
#[derive(Debug, Clone, Copy, PartialEq, Eq, Structural)]
pub enum PartitionError {
    /// An index is not below the length of the history.
    OutOfBounds { index: usize, len: usize },
    /// An index appears a second time.
    Overlap { index: usize },
    /// The partitions cover fewer indices than the history has.
    Missing { covered: usize, len: usize },
    /// A call event and its return event lie in different partitions.
    SplitPair { id: u64, call_part: u32, return_part: u32 },
}

/// All indices of all partitions, partition after partition.
pub open spec fn flatten(ps: Seq<Vec<usize>>) -> Seq<usize>
    decreases ps.len(),
{
    if ps.len() == 0 {
        Seq::empty()
    } else {
        flatten(ps.drop_last()) + ps.last()@
    }
}

/// Position `t` of the scan is out of bounds or repeats an earlier index.
pub open spec fn bad_at(f: Seq<usize>, n: nat, t: int) -> bool {
    f[t] >= n || f.take(t).contains(f[t])
}

/// No position of the scan is out of bounds or repeated.
pub open spec fn scan_clean(f: Seq<usize>, n: nat) -> bool {
    forall|t: int| 0 <= t < f.len() ==> !#[trigger] bad_at(f, n, t)
}

/// `t` is the first bad position of the scan.
pub open spec fn first_bad(f: Seq<usize>, n: nat, t: int) -> bool {
    &&& 0 <= t < f.len()
    &&& bad_at(f, n, t)
    &&& forall|u: int| 0 <= u < t ==> !#[trigger] bad_at(f, n, u)
}

/// The partitions are disjoint, in bounds and cover every index below `n`.
pub open spec fn scan_ok(ps: Seq<Vec<usize>>, n: nat) -> bool {
    scan_clean(flatten(ps), n) && flatten(ps).len() == n
}

/// The error that a scan of the partitions reports when `scan_ok` fails: the
/// first index in scan order that is out of bounds or repeated, or else the
/// shortfall in coverage.
pub open spec fn scan_error(ps: Seq<Vec<usize>>, n: usize) -> PartitionError {
    let f = flatten(ps);
    if exists|t: int| first_bad(f, n as nat, t) {
        let t = choose|t: int| first_bad(f, n as nat, t);
        if f[t] >= n {
            PartitionError::OutOfBounds { index: f[t], len: n }
        } else {
            PartitionError::Overlap { index: f[t] }
        }
    } else {
        PartitionError::Missing { covered: f.len() as usize, len: n }
    }
}

/// The partition that holds index `i`.
pub open spec fn part_of(ps: Seq<Vec<usize>>, i: int) -> int {
    owner(index_lists(ps), i)
}

/// The index lists of the partitions.
pub open spec fn index_lists(ps: Seq<Vec<usize>>) -> Seq<Seq<usize>> {
    ps.map_values(|v: Vec<usize>| v@)
}

/// The list of `vs` that holds index `i`.
pub open spec fn owner(vs: Seq<Seq<usize>>, i: int) -> int {
    choose|c: int| 0 <= c < vs.len() && vs[c].contains(i as usize)
}

/// Partition `c` holds index `i`, and no other partition does.
pub open spec fn sole_owner(ps: Seq<Vec<usize>>, i: int, c: int) -> bool {
    &&& 0 <= c < ps.len()
    &&& ps[c]@.contains(i as usize)
    &&& forall|d: int| 0 <= d < ps.len() && d != c ==> !(#[trigger] ps[d]@).contains(i as usize)
}

pub proof fn lemma_flatten_step(ps: Seq<Vec<usize>>, b: int)
    requires
        0 <= b < ps.len(),
    ensures
        flatten(ps.take(b + 1)) == flatten(ps.take(b)) + ps[b]@,
{
    assert(ps.take(b + 1).drop_last() =~= ps.take(b));
}

/// Flattening a shorter prefix of the partitions gives a prefix of the
/// flattening of a longer one.
pub proof fn lemma_flatten_prefix(ps: Seq<Vec<usize>>, b: int, c: int)
    requires
        0 <= b <= c <= ps.len(),
    ensures
        flatten(ps.take(b)).len() <= flatten(ps.take(c)).len(),
        flatten(ps.take(c)).take(flatten(ps.take(b)).len() as int) == flatten(ps.take(b)),
    decreases c - b,
{
    if b < c {
        lemma_flatten_prefix(ps, b, c - 1);
        lemma_flatten_step(ps, c - 1);
        let fb = flatten(ps.take(b));
        let fc1 = flatten(ps.take(c - 1));
        assert((fc1 + ps[c - 1]@).take(fb.len() as int) =~= fc1.take(fb.len() as int));
    } else {
        assert(flatten(ps.take(c)).take(flatten(ps.take(b)).len() as int) =~= flatten(ps.take(b)));
    }
}

/// A duplicate-free sequence of indices below `n` has at most `n` elements,
/// and with exactly `n` it holds every index below `n`.
proof fn lemma_distinct_below(s: Seq<usize>, n: nat)
    requires
        s.no_duplicates(),
        forall|k: int| 0 <= k < s.len() ==> #[trigger] s[k] < n,
    ensures
        s.len() <= n,
        s.len() == n ==> forall|i: int| 0 <= i < n ==> #[trigger] s.contains(i as usize),
{
    let si = Seq::new(s.len(), |k: int| s[k] as int);
    let range = vstd::set_lib::set_int_range(0, n as int);
    assert(si.no_duplicates());
    assert(si.to_set().subset_of(range));
    vstd::set_lib::lemma_int_range(0, n as int);
    vstd::set_lib::lemma_len_subset(si.to_set(), range);
    si.unique_seq_to_set();
    if s.len() == n {
        vstd::set_lib::lemma_subset_equality(si.to_set(), range);
        assert forall|i: int| 0 <= i < n implies #[trigger] s.contains(i as usize) by {
            assert(range.contains(i));
            assert(si.to_set().contains(i));
            let k = choose|k: int| 0 <= k < si.len() && si[k] == i;
            assert(s[k] == i as usize);
        }
    }
}

/// Walk every partition once, checking that each index is in bounds and seen
/// only once, then that every index below `n` was seen. On success, returns
/// for each index the partition that holds it.
#[verifier::rlimit(80)]
pub fn scan_partitions(partitions: &[Vec<usize>], n: usize) -> (r: Result<Vec<Option<u32>>, PartitionError>)
    requires
        partitions@.len() <= u32::MAX + 1,
    ensures
        r is Ok <==> scan_ok(partitions@, n as nat),
        r matches Err(e) ==> e == scan_error(partitions@, n),
        r matches Ok(t) ==> t@.len() == n && forall|i: int|
            0 <= i < n ==> {
                &&& (#[trigger] t@[i]) is Some
                &&& t@[i]->0 == part_of(partitions@, i)
                &&& sole_owner(partitions@, i, t@[i]->0 as int)
            },
{
    let ghost ps = partitions@;
    let ghost f = flatten(ps);
    let mut idx_to_part: Vec<Option<u32>> = Vec::with_capacity(n);
    for i in 0..n
        invariant
            idx_to_part@.len() == i,
            forall|k: int| 0 <= k < i ==> (#[trigger] idx_to_part@[k]) is None,
    {
        idx_to_part.push(None);
    }
    let mut count: usize = 0;
    let mut b: usize = 0;
    proof {
        assert(ps.take(0) =~= Seq::<Vec<usize>>::empty());
        assert(ps.take(ps.len() as int) =~= ps);
    }
    while b < partitions.len()
        invariant
            ps == partitions@,
            f == flatten(ps),
            ps.len() <= u32::MAX + 1,
            ps.take(ps.len() as int) == ps,
            0 <= b <= ps.len(),
            count == flatten(ps.take(b as int)).len(),
            count <= n,
            scan_clean(flatten(ps.take(b as int)), n as nat),
            idx_to_part@.len() == n,
            forall|i: int| 0 <= i < n ==> ((#[trigger] idx_to_part@[i]) is Some <==> flatten(ps.take(b as int)).contains(i as usize)),
            forall|i: int|
                0 <= i < n && (#[trigger] idx_to_part@[i]) is Some ==> {
                    let c = idx_to_part@[i]->0 as int;
                    c < b && ps[c]@.contains(i as usize)
                },
            forall|d: int, j: int|
                0 <= d < b && 0 <= j < ps[d]@.len() ==> #[trigger] ps[d]@[j] < n && idx_to_part@[ps[d]@[j] as int]
                    == Some(d as u32),
        decreases ps.len() - b,
    {
        let part_id = b as u32;
        let part = &partitions[b];
        let ghost fl = flatten(ps.take(b as int));
        proof {
            lemma_flatten_step(ps, b as int);
            lemma_flatten_prefix(ps, b + 1, ps.len() as int);
            assert forall|d: int, k: int|
                0 <= d < b && 0 <= k < ps[d]@.len() implies #[trigger] ps[d]@[k] < n && idx_to_part@[ps[d]@[k] as int]
                    == Some(d as u32) by {
            }
        }
        let mut j: usize = 0;
        while j < part.len()
            invariant
                ps == partitions@,
                f == flatten(ps),
                ps.take(ps.len() as int) == ps,
                0 <= b < ps.len(),
                part_id == b,
                *part == ps[b as int],
                fl == flatten(ps.take(b as int)),
                flatten(ps.take(b + 1)) == fl + ps[b as int]@,
                f.take(flatten(ps.take(b + 1)).len() as int) == flatten(ps.take(b + 1)),
                flatten(ps.take(b + 1)).len() <= f.len(),
                0 <= j <= part@.len(),
                count == fl.len() + j,
                count <= n,
                scan_clean(fl + part@.take(j as int), n as nat),
                idx_to_part@.len() == n,
                forall|i: int| 0 <= i < n ==> ((#[trigger] idx_to_part@[i]) is Some <==> (fl + part@.take(j as int)).contains(i as usize)),
                forall|i: int|
                    0 <= i < n && (#[trigger] idx_to_part@[i]) is Some ==> {
                        let c = idx_to_part@[i]->0 as int;
                        c <= b && ps[c]@.contains(i as usize)
                    },
                forall|d: int, k: int|
                    0 <= d < b && 0 <= k < ps[d]@.len() ==> #[trigger] ps[d]@[k] < n && idx_to_part@[ps[d]@[k] as int]
                        == Some(d as u32),
                forall|k: int| 0 <= k < j ==> #[trigger] part@[k] < n && idx_to_part@[part@[k] as int] == Some(part_id),
            decreases part@.len() - j,
        {
            let idx = part[j];
            let ghost done = fl + part@.take(j as int);
            let ghost t = done.len() as int;
            proof {
                assert(part@ == ps[b as int]@);
                let whole = fl + part@;
                assert(f.take(whole.len() as int) == whole);
                assert(whole[t] == idx);
                assert(f.take(whole.len() as int)[t] == f[t]);
                assert(f[t] == idx);
                assert(f.take(t) =~= done);
                assert forall|u: int| 0 <= u < t implies !#[trigger] bad_at(f, n as nat, u) by {
                    assert(f.take(u) =~= done.take(u));
                    assert(f[u] == done[u]);
                    assert(!bad_at(done, n as nat, u));
                }
            }
            if idx >= n {
                proof {
                    assert(first_bad(f, n as nat, t));
                    lemma_first_bad_unique(f, n as nat, t);
                }
                return Err(PartitionError::OutOfBounds { index: idx, len: n });
            }
            if idx_to_part[idx].is_some() {
                proof {
                    assert(done.contains(idx));
                    assert(first_bad(f, n as nat, t));
                    lemma_first_bad_unique(f, n as nat, t);
                }
                return Err(PartitionError::Overlap { index: idx });
            }
            let ghost old_table = idx_to_part@;
            idx_to_part.set(idx, Some(part_id));
            j = j + 1;
            proof {
                assert forall|d: int, k: int|
                    0 <= d < b && 0 <= k < ps[d]@.len() implies #[trigger] ps[d]@[k] < n && idx_to_part@[ps[d]@[k] as int]
                        == Some(d as u32) by {
                    assert(old_table[ps[d]@[k] as int] == Some(d as u32));
                }
                assert forall|k: int| 0 <= k < j implies #[trigger] part@[k] < n && idx_to_part@[part@[k] as int] == Some(part_id) by {
                    if k < j - 1 {
                        assert(old_table[part@[k] as int] == Some(part_id));
                    }
                }
                let done2 = fl + part@.take(j as int);
                assert(done2 =~= done.push(idx));
                assert(!done.contains(idx));
                assert forall|u: int| 0 <= u < done2.len() implies !#[trigger] bad_at(done2, n as nat, u) by {
                    if u < t {
                        assert(done2.take(u) =~= done.take(u));
                        assert(!bad_at(done, n as nat, u));
                    } else {
                        assert(done2.take(u) =~= done);
                    }
                }
                assert forall|i: int| 0 <= i < n implies ((#[trigger] idx_to_part@[i]) is Some <==> done2.contains(
                    i as usize,
                )) by {
                    if done.contains(i as usize) {
                        let k = choose|k: int| 0 <= k < done.len() && done[k] == i as usize;
                        assert(done2[k] == i as usize);
                    }
                    if done2.contains(i as usize) && i != idx {
                        let k = choose|k: int| 0 <= k < done2.len() && done2[k] == i as usize;
                        assert(done[k] == i as usize);
                    }
                    assert(done2[t] == idx);
                }
                assert(part@[j - 1] == idx);
                assert(ps[b as int]@.contains(idx));
                assert forall|u: int, v: int| 0 <= u < done2.len() && 0 <= v < done2.len() && u != v implies done2[u] != done2[v] by {
                    let (lo, hi) = if u < v { (u, v) } else { (v, u) };
                    assert(!bad_at(done2, n as nat, hi));
                    assert(done2.take(hi)[lo] == done2[lo]);
                }
                assert forall|k: int| 0 <= k < done2.len() implies #[trigger] done2[k] < n by {
                    assert(!bad_at(done2, n as nat, k));
                }
                lemma_distinct_below(done2, n as nat);
            }
            count = count + 1;
        }
        proof {
            assert(part@.take(part@.len() as int) =~= part@);
            assert forall|d: int, k: int|
                0 <= d < b + 1 && 0 <= k < ps[d]@.len() implies #[trigger] ps[d]@[k] < n && idx_to_part@[ps[d]@[k] as int]
                    == Some(d as u32) by {
                if d == b {
                    assert(part@[k] < n && idx_to_part@[part@[k] as int] == Some(part_id));
                }
            }
        }
        b = b + 1;
    }
    let ghost fin = flatten(ps.take(b as int));
    proof {
        assert(fin == f);
        assert(f.no_duplicates()) by {
            assert forall|u: int, v: int| 0 <= u < f.len() && 0 <= v < f.len() && u != v implies f[u] != f[v] by {
                let (lo, hi) = if u < v { (u, v) } else { (v, u) };
                assert(!bad_at(f, n as nat, hi));
                assert(f.take(hi)[lo] == f[lo]);
            }
        }
        assert forall|k: int| 0 <= k < f.len() implies #[trigger] f[k] < n by {
            assert(!bad_at(f, n as nat, k));
        }
        lemma_distinct_below(f, n as nat);
        if !(exists|t: int| first_bad(f, n as nat, t)) {
        } else {
            let t = choose|t: int| first_bad(f, n as nat, t);
            assert(!bad_at(f, n as nat, t));
        }
    }
    if count != n {
        return Err(PartitionError::Missing { covered: count, len: n });
    }
    proof {
        assert forall|i: int| 0 <= i < n implies {
            &&& (#[trigger] idx_to_part@[i]) is Some
            &&& idx_to_part@[i]->0 == part_of(ps, i)
            &&& sole_owner(ps, i, idx_to_part@[i]->0 as int)
        } by {
            assert(f.contains(i as usize));
            let c = idx_to_part@[i]->0 as int;
            assert(ps[c]@.contains(i as usize));
            assert forall|d: int| 0 <= d < ps.len() && d != c implies !(#[trigger] ps[d]@).contains(i as usize) by {
                if ps[d]@.contains(i as usize) {
                    let k = choose|k: int| 0 <= k < ps[d]@.len() && ps[d]@[k] == i as usize;
                    assert(idx_to_part@[ps[d]@[k] as int] == Some(d as u32));
                }
            }
            assert(index_lists(ps)[c] == ps[c]@);
            let p = part_of(ps, i);
            assert(0 <= p < ps.len() && index_lists(ps)[p].contains(i as usize));
            assert(index_lists(ps)[p] == ps[p]@);
        }
    }
    Ok(idx_to_part)
}

/// A first bad position is unique.
proof fn lemma_first_bad_unique(f: Seq<usize>, n: nat, t: int)
    requires
        first_bad(f, n, t),
    ensures
        (choose|u: int| first_bad(f, n, u)) == t,
{
    let u = choose|u: int| first_bad(f, n, u);
    if u < t {
        assert(!bad_at(f, n, u));
    }
    if t < u {
        assert(!bad_at(f, n, t));
    }
}

/// The outcome of checking a partitioning of an operation history of length
/// `n`.
pub open spec fn ops_partition_outcome(ps: Seq<Vec<usize>>, n: usize) -> Result<(), PartitionError> {
    if scan_ok(ps, n as nat) {
        Ok(())
    } else {
        Err(scan_error(ps, n))
    }
}

/// Check that the partitions of an operation history of length `history_len`
/// are disjoint, in bounds, and cover the history.
pub fn check_partition_covers_ops(partitions: &[Vec<usize>], history_len: usize) -> (r: Result<(), PartitionError>)
    requires
        partitions@.len() <= u32::MAX + 1,
    ensures
        r == ops_partition_outcome(partitions@, history_len),
{
    match scan_partitions(partitions, history_len) {
        Ok(_) => Ok(()),
        Err(e) => Err(e),
    }
}

/// The position of the latest call event with id `x` before position `q`.
pub open spec fn last_call_before<I, O>(evs: Seq<Event<I, O>>, x: u64, q: int) -> Option<int>
    decreases q,
{
    if q <= 0 {
        None
    } else if evs[q - 1].kind == EventKind::Call && evs[q - 1].id == x {
        Some(q - 1)
    } else {
        last_call_before(evs, x, q - 1)
    }
}

/// The return event at position `q` lies in another partition than the latest
/// call event of its id before it.
pub open spec fn split_at<I, O>(ps: Seq<Vec<usize>>, evs: Seq<Event<I, O>>, q: int) -> bool {
    &&& evs[q].kind == EventKind::Return
    &&& last_call_before(evs, evs[q].id, q) matches Some(c) && part_of(ps, c) != part_of(ps, q)
}

/// `q` is the first position at which a call and its return are split.
pub open spec fn first_split<I, O>(ps: Seq<Vec<usize>>, evs: Seq<Event<I, O>>, q: int) -> bool {
    &&& 0 <= q < evs.len()
    &&& split_at(ps, evs, q)
    &&& forall|u: int| 0 <= u < q ==> !#[trigger] split_at(ps, evs, u)
}

/// The outcome of checking a partitioning of an event history.
pub open spec fn events_partition_outcome<I, O>(ps: Seq<Vec<usize>>, evs: Seq<Event<I, O>>) -> Result<
    (),
    PartitionError,
> {
    if !scan_ok(ps, evs.len()) {
        Err(scan_error(ps, evs.len() as usize))
    } else if exists|q: int| first_split(ps, evs, q) {
        let q = choose|q: int| first_split(ps, evs, q);
        let c = last_call_before(evs, evs[q].id, q)->0;
        Err(PartitionError::SplitPair { id: evs[q].id, call_part: part_of(ps, c) as u32, return_part: part_of(ps, q) as u32 })
    } else {
        Ok(())
    }
}

/// Check that the partitions of an event history are disjoint, in bounds,
/// cover the history, and keep each return in the partition of the latest
/// call of its id before it.
pub fn check_partition_events_paired<I, O>(partitions: &[Vec<usize>], history: &[Event<I, O>]) -> (r: Result<(), PartitionError>)
    requires
        partitions@.len() <= u32::MAX + 1,
    ensures
        r == events_partition_outcome(partitions@, history@),
{
    broadcast use vstd::std_specs::hash::group_hash_axioms;
    let ghost ps = partitions@;
    let ghost evs = history@;
    let n = history.len();
    let idx_to_part = match scan_partitions(partitions, n) {
        Ok(t) => t,
        Err(e) => {
            return Err(e);
        },
    };
    let mut call_part: HashMap<u64, u32> = HashMap::with_capacity(n / 2);
    for pos in 0..n
        invariant
            ps == partitions@,
            evs == history@,
            n == evs.len(),
            scan_ok(ps, n as nat),
            idx_to_part@.len() == n,
            forall|i: int|
                0 <= i < n ==> {
                    &&& (#[trigger] idx_to_part@[i]) is Some
                    &&& idx_to_part@[i]->0 == part_of(ps, i)
                    &&& sole_owner(ps, i, idx_to_part@[i]->0 as int)
                },
            forall|x: u64| #[trigger] call_part@.contains_key(x) <==> last_call_before(evs, x, pos as int) is Some,
            forall|x: u64|
                #[trigger] call_part@.contains_key(x) ==> call_part@[x] == part_of(ps, last_call_before(evs, x, pos as int)->0),
            forall|u: int| 0 <= u < pos ==> !#[trigger] split_at(ps, evs, u),
    {
        let ev = &history[pos];
        let part = idx_to_part[pos].unwrap();
        proof {
            assert(idx_to_part@[pos as int] is Some);
        }
        match ev.kind {
            EventKind::Call => {
                call_part.insert(ev.id, part);
                proof {
                    assert(!split_at(ps, evs, pos as int));
                    assert forall|x: u64| #[trigger] call_part@.contains_key(x) <==> last_call_before(evs, x, pos + 1) is Some by {
                    }
                }
            },
            EventKind::Return => {
                proof {
                    assert forall|x: u64| #[trigger] call_part@.contains_key(x) <==> last_call_before(evs, x, pos + 1) is Some by {
                    }
                }
                match call_part.get(&ev.id) {
                    Some(cpart) => {
                        if *cpart != part {
                            proof {
                                let c = last_call_before(evs, ev.id, pos as int)->0;
                                lemma_last_call_before_range(evs, ev.id, pos as int);
                                assert(idx_to_part@[c] is Some);
                                assert(split_at(ps, evs, pos as int));
                                assert(first_split(ps, evs, pos as int));
                                lemma_first_split_unique(ps, evs, pos as int);
                                lemma_part_of_range(ps, c);
                                lemma_part_of_range(ps, pos as int);
                            }
                            return Err(PartitionError::SplitPair { id: ev.id, call_part: *cpart, return_part: part });
                        }
                    },
                    None => {},
                }
            },
        }
    }
    proof {
        if exists|q: int| first_split(ps, evs, q) {
            let q = choose|q: int| first_split(ps, evs, q);
            assert(!split_at(ps, evs, q));
        }
    }
    Ok(())
}

pub proof fn lemma_last_call_before_range<I, O>(evs: Seq<Event<I, O>>, x: u64, q: int)
    requires
        last_call_before(evs, x, q) is Some,
    ensures
        0 <= last_call_before(evs, x, q)->0 < q,
    decreases q,
{
    if q > 0 && !(evs[q - 1].kind == EventKind::Call && evs[q - 1].id == x) {
        lemma_last_call_before_range(evs, x, q - 1);
    }
}

proof fn lemma_first_split_unique<I, O>(ps: Seq<Vec<usize>>, evs: Seq<Event<I, O>>, q: int)
    requires
        first_split(ps, evs, q),
    ensures
        (choose|u: int| first_split(ps, evs, u)) == q,
{
    let u = choose|u: int| first_split(ps, evs, u);
    if u < q {
        assert(!split_at(ps, evs, u));
    }
    if q < u {
        assert(!split_at(ps, evs, q));
    }
}

proof fn lemma_part_of_range(ps: Seq<Vec<usize>>, i: int)
    requires
        exists|c: int| 0 <= c < ps.len() && ps[c]@.contains(i as usize),
    ensures
        0 <= part_of(ps, i) < ps.len(),
{
    let c = choose|c: int| 0 <= c < ps.len() && ps[c]@.contains(i as usize);
    assert(index_lists(ps)[c] == ps[c]@);
}

/// Under a valid partitioning of `0..n`, every partition is no longer than
/// `n` and holds only indices below `n`.
pub proof fn lemma_scan_ok_blocks(ps: Seq<Vec<usize>>, n: nat, b: int)
    requires
        scan_ok(ps, n),
        0 <= b < ps.len(),
    ensures
        ps[b]@.len() <= n,
        forall|j: int| 0 <= j < ps[b]@.len() ==> #[trigger] ps[b]@[j] < n,
{
    let f = flatten(ps);
    lemma_flatten_step(ps, b);
    lemma_flatten_prefix(ps, b + 1, ps.len() as int);
    assert(ps.take(ps.len() as int) =~= ps);
    let fb = flatten(ps.take(b));
    let w = flatten(ps.take(b + 1));
    assert forall|j: int| 0 <= j < ps[b]@.len() implies #[trigger] ps[b]@[j] < n by {
        let t = fb.len() + j;
        assert(w[t] == ps[b]@[j]);
        assert(f.take(w.len() as int)[t] == f[t]);
        assert(!bad_at(f, n, t));
    }
}


/// An index that the flattening lists is listed by some partition.
proof fn lemma_flatten_member(ps: Seq<Vec<usize>>, x: usize)
    requires
        flatten(ps).contains(x),
    ensures
        exists|c: int| 0 <= c < ps.len() && ps[c]@.contains(x),
    decreases ps.len(),
{
    let d = ps.drop_last();
    let f = flatten(ps);
    let fd = flatten(d);
    assert(f == fd + ps.last()@);
    let t = choose|t: int| 0 <= t < f.len() && f[t] == x;
    if t < fd.len() {
        assert(fd[t] == x);
        lemma_flatten_member(d, x);
        let c = choose|c: int| 0 <= c < d.len() && d[c]@.contains(x);
        assert(ps[c] == d[c]);
    } else {
        let j = t - fd.len();
        assert(ps.last()@[j] == x);
        assert(ps[ps.len() - 1]@.contains(x));
    }
}

/// Where the partitions list `0..n` once each, every index below `n` lies in
/// exactly one partition, the one that `part_of` names.
pub proof fn lemma_scan_ok_owner(ps: Seq<Vec<usize>>, n: nat, i: int)
    requires
        scan_ok(ps, n),
        0 <= i < n,
    ensures
        sole_owner(ps, i, part_of(ps, i)),
{
    let f = flatten(ps);
    assert forall|k: int| 0 <= k < f.len() implies #[trigger] f[k] < n by {
        assert(!bad_at(f, n, k));
    }
    assert(f.no_duplicates()) by {
        assert forall|a: int, b: int| 0 <= a < b < f.len() implies f[a] != f[b] by {
            assert(!bad_at(f, n, b));
            assert(f.take(b)[a] == f[a]);
        }
    }
    lemma_distinct_below(f, n);
    assert(f.contains(i as usize));
    lemma_flatten_member(ps, i as usize);
    let c0 = choose|c: int| 0 <= c < ps.len() && ps[c]@.contains(i as usize);
    assert(index_lists(ps)[c0] == ps[c0]@);
    let c = part_of(ps, i);
    assert(0 <= c < ps.len() && index_lists(ps)[c].contains(i as usize));
    assert(index_lists(ps)[c] == ps[c]@);
    assert(ps.take(ps.len() as int) =~= ps);
    assert forall|d: int| 0 <= d < ps.len() && d != c implies !(#[trigger] ps[d]@).contains(i as usize) by {
        if ps[d]@.contains(i as usize) {
            let (lo, hi) = if c < d { (c, d) } else { (d, c) };
            let jl = choose|j: int| 0 <= j < ps[lo]@.len() && ps[lo]@[j] == i as usize;
            let jh = choose|j: int| 0 <= j < ps[hi]@.len() && ps[hi]@[j] == i as usize;
            lemma_flatten_step(ps, lo);
            lemma_flatten_step(ps, hi);
            lemma_flatten_prefix(ps, lo + 1, hi);
            lemma_flatten_prefix(ps, lo + 1, ps.len() as int);
            lemma_flatten_prefix(ps, hi + 1, ps.len() as int);
            let pl = flatten(ps.take(lo)).len() + jl;
            let ph = flatten(ps.take(hi)).len() + jh;
            assert(flatten(ps.take(lo + 1))[pl] == i as usize);
            assert(flatten(ps.take(hi + 1))[ph] == i as usize);
            assert(f.take(flatten(ps.take(lo + 1)).len() as int)[pl] == f[pl]);
            assert(f.take(flatten(ps.take(hi + 1)).len() as int)[ph] == f[ph]);
            assert(pl < ph);
            assert(f[pl] == f[ph]);
        }
    }
}


/// Walk every partition once and return, for each index below `n`, the
/// partition that holds it. The partitions list every index below `n` exactly
/// once; `scan_partitions` is the walk that reports where they do not.
pub fn scan_partition_covering(partitions: &[Vec<usize>], n: usize) -> (r: Vec<Option<u32>>)
    requires
        partitions@.len() <= u32::MAX + 1,
        scan_ok(partitions@, n as nat),
    ensures
        r@.len() == n,
        forall|i: int|
            0 <= i < n ==> {
                &&& (#[trigger] r@[i]) is Some
                &&& r@[i]->0 == part_of(partitions@, i)
                &&& sole_owner(partitions@, i, r@[i]->0 as int)
            },
{
    match scan_partitions(partitions, n) {
        Ok(t) => t,
        Err(_) => {
            proof {
                assert(false);
            }
            Vec::new()
        },
    }
}

/// Check that the partitions of an operation history of length `history_len`
/// are disjoint, in bounds, and cover the history, which they must be;
/// `check_partition_covers_ops` reports where they are not.
pub fn assert_partition_covers_ops(partitions: &[Vec<usize>], history_len: usize)
    requires
        partitions@.len() <= u32::MAX + 1,
        ops_partition_outcome(partitions@, history_len) is Ok,
{
    let r = check_partition_covers_ops(partitions, history_len);
    proof {
        assert(r is Ok);
    }
}

/// Check that the partitions of an event history are disjoint, in bounds,
/// cover the history and keep each call with its return, which they must;
/// `check_partition_events_paired` reports where they do not.
pub fn assert_partition_events_paired<I, O>(partitions: &[Vec<usize>], history: &[Event<I, O>])
    requires
        partitions@.len() <= u32::MAX + 1,
        events_partition_outcome(partitions@, history@) is Ok,
{
    let r = check_partition_events_paired(partitions, history);
    proof {
        assert(r is Ok);
    }
}

} // verus!
