//! The public entry points: check an operation history or an event history,
//! optionally split into independent partitions that are searched separately.
use crate::clock::{
    deadline_after_logged, deadline_reached, lemma_log_extends_trans, lemma_seen_passed_append,
    lemma_seen_passed_widen, log_extends, seen_passed, timeout_elapsed, ClockEvent, ClockLog,
};
use crate::entries::{
    entries_history, entries_well_formed, lemma_entries_of_ops, make_entries, ops_history,
    ops_well_formed, Entry,
};
use crate::events::{
    convert_entries, events_history, events_of_ops, events_well_formed, injective_on_ids, lemma_entries_of_events,
    lemma_events_of_ops,
    lemma_events_history_relabel, lemma_relabel_last_call, lemma_relabel_well_formed, opt_cloned,
    payloads_present, relabeled, renumber, well_formed_events,
};
use crate::history::{lemma_linearizable_renumbered, lemma_linearizable_same_shape, linearizable, AbsOp};
use crate::invariants::{
    check_partition_covers_ops, check_partition_events_paired, events_partition_outcome, first_split,
    bad_at, flatten, index_lists, last_call_before, lemma_last_call_before_range, lemma_scan_ok_owner,
    scan_clean, lemma_scan_ok_blocks, part_of, scan_ok, split_at,
};
use crate::model::{
    clone_copies, eq_is_identity, faithful, first_occurrences, has_vec, lemma_power_set_faithful,
    lemma_power_set_linearizable, nd_linearizable, ps_representable, Model, NondeterministicModel,
    PowerSetModel,
};
use crate::search::{check_single_logged, check_single_with_log, search_result, SearchOutcome};
use crate::types::{CheckResult, Event, EventKind, Operation};
use rayon::iter::{IntoParallelIterator, ParallelIterator};
use std::time::{Duration, Instant};
use vstd::prelude::*;

verus! {

/// Below this many entries in all, partitions are checked one after another
/// on the calling thread; dispatching them to the thread pool would cost more
/// than it saves.
pub const SEQUENTIAL_THRESHOLD: usize = 2000;

/// What the search on one entry list may return: no timeout without a
/// deadline, and an exact verdict where the model is faithful.
pub open spec fn single_outcome<M: Model>(
    model: M,
    es: Seq<Entry<M::Input, M::Output>>,
    deadline: Option<Instant>,
    r: SearchOutcome,
) -> bool {
    &&& deadline is None ==> r != SearchOutcome::TimedOut
    &&& faithful::<M>() && r == SearchOutcome::Linearizable ==> linearizable(model, entries_history(es))
    &&& faithful::<M>() && r == SearchOutcome::Illegal ==> !linearizable(model, entries_history(es))
}

/// Every partition is a well-formed entry list of a length that the search
/// can index.
pub open spec fn partitions_ok<I, O>(parts: Seq<Vec<Entry<I, O>>>) -> bool {
    forall|i: int|
        0 <= i < parts.len() ==> entries_well_formed((#[trigger] parts[i])@) && parts[i]@.len() < usize::MAX
}

/// `rayon`'s `into_par_iter().map(..).collect()` over the partitions: the
/// search runs on each partition on the thread pool, and the outcomes, each
/// with the clock's readings its search made, are collected in the order of
/// the partitions, as an indexed parallel iterator collects. What each result
/// satisfies is what `check_single_with_log` ensures.
#[verifier::external_body]
fn check_all_par<M>(
    model: &M,
    partitions: Vec<Vec<Entry<M::Input, M::Output>>>,
    deadline: Option<Instant>,
) -> (r: Vec<(SearchOutcome, ClockLog)>) where M: Model + Sync, M::Input: Send, M::Output: Send
    requires
        partitions_ok(partitions@),
    ensures
        r@.len() == partitions@.len(),
        forall|i: int|
            0 <= i < r@.len() ==> search_result(*model, partitions@[i]@, deadline, (#[trigger] r@[i]).0, r@[i].1@),
{
    partitions.into_par_iter().map(|p| check_single_with_log(model, p, deadline)).collect()
}

/// Translate the flags of a check into its result: a partition that was proved
/// not linearizable makes the history `Illegal`; otherwise a timeout makes it
/// `Unknown`; otherwise it is `Legal` when every partition was linearized.
pub fn to_check_result(ok: bool, timed_out: bool, definitive_illegal: bool) -> (r: CheckResult)
    ensures
        r == (if !ok && definitive_illegal {
            CheckResult::Illegal
        } else if timed_out {
            CheckResult::Unknown
        } else if ok {
            CheckResult::Legal
        } else {
            CheckResult::Illegal
        }),
{
    if !ok && definitive_illegal {
        CheckResult::Illegal
    } else if timed_out {
        CheckResult::Unknown
    } else if ok {
        CheckResult::Legal
    } else {
        CheckResult::Illegal
    }
}

/// The flags of a check of all `parts`: `(ok, timed_out, definitive_illegal)`.
/// Every partition is linearizable when `ok`; some partition is proved not
/// linearizable when `definitive_illegal`; a check that is not `ok` either
/// timed out or found such a partition, and without a deadline never times out.
pub open spec fn parallel_flags<M: Model>(
    model: M,
    parts: Seq<Vec<Entry<M::Input, M::Output>>>,
    deadline: Option<Instant>,
    r: (bool, bool, bool),
) -> bool {
    let (ok, timed_out, definitive) = r;
    &&& deadline is None ==> !timed_out
    &&& ok ==> !timed_out && !definitive
    &&& !ok ==> timed_out || definitive
    &&& faithful::<M>() && ok ==> forall|i: int|
        0 <= i < parts.len() ==> linearizable(model, entries_history(#[trigger] parts[i]@))
    &&& faithful::<M>() && definitive ==> exists|i: int|
        0 <= i < parts.len() && !linearizable(model, entries_history(#[trigger] parts[i]@))
}

/// The flags of a check of all `parts`, with the clock's readings made from
/// position `from` of `log` on: they are flags of the check, and the check
/// timed out only where a reading found the deadline passed.
pub open spec fn logged_flags<M: Model>(
    model: M,
    parts: Seq<Vec<Entry<M::Input, M::Output>>>,
    deadline: Option<Instant>,
    r: (bool, bool, bool),
    log: Seq<ClockEvent>,
    from: int,
) -> bool {
    &&& parallel_flags(model, parts, deadline, r)
    &&& r.1 ==> seen_passed(log, from, deadline)
}

/// Flags of one search outcome.
fn outcome_flags(o: SearchOutcome) -> (r: (bool, bool, bool))
    ensures
        r == (match o {
            SearchOutcome::Linearizable => (true, false, false),
            SearchOutcome::Illegal => (false, false, true),
            SearchOutcome::TimedOut => (false, true, false),
        }),
{
    match o {
        SearchOutcome::Linearizable => (true, false, false),
        SearchOutcome::Illegal => (false, false, true),
        SearchOutcome::TimedOut => (false, true, false),
    }
}

/// Check every partition: one partition directly; otherwise shortest first,
/// one after another on the calling thread when they hold few entries in all
/// (stopping at the first that is not linearized), else on the thread pool,
/// longest first.
pub fn check_parallel<M>(
    model: &M,
    partitions: Vec<Vec<Entry<M::Input, M::Output>>>,
    deadline: Option<Instant>,
) -> (r: (bool, bool, bool)) where M: Model + Sync, M::Input: Send, M::Output: Send
    requires
        partitions_ok(partitions@),
    ensures
        parallel_flags(*model, partitions@, deadline, r),
{
    let mut log = ClockLog::new();
    check_parallel_logged(model, partitions, deadline, &mut log)
}

/// The check of `check_parallel`, recording in `log` each reading of the
/// clock that it makes: it reports a timeout only where a reading found the
/// deadline passed.
pub fn check_parallel_logged<M>(
    model: &M,
    partitions: Vec<Vec<Entry<M::Input, M::Output>>>,
    deadline: Option<Instant>,
    log: &mut ClockLog,
) -> (r: (bool, bool, bool)) where M: Model + Sync, M::Input: Send, M::Output: Send
    requires
        partitions_ok(partitions@),
    ensures
        log_extends(old(log)@, final(log)@),
        logged_flags(*model, partitions@, deadline, r, final(log)@, old(log)@.len() as int),
{
    let ghost parts = partitions@;
    proof {
        assert(log@.take(log@.len() as int) =~= log@);
    }
    if partitions.len() == 0 {
        return (true, false, false);
    }
    if partitions.len() == 1 {
        let mut partitions = partitions;
        let p = partitions.pop().unwrap();
        proof {
            assert(parts[0] == p);
        }
        let o = check_single_logged(model, p, deadline, log);
        return outcome_flags(o);
    }
    let mut partitions = partitions;
    sort_by_len(&mut partitions);
    proof {
        lemma_same_partitions(parts, partitions@);
    }
    let total = total_entries_capped(&partitions);
    if total < SEQUENTIAL_THRESHOLD {
        let ghost sorted = partitions@;
        let r = check_sequential(model, partitions, deadline, log);
        proof {
            lemma_flags_permuted(*model, sorted, parts, deadline, r);
        }
        r
    } else {
        let ghost sorted = partitions@;
        let longest_first = reversed(partitions);
        proof {
            sorted.lemma_reverse_to_multiset();
            assert(longest_first@.to_multiset() == parts.to_multiset());
            lemma_same_partitions(parts, longest_first@);
        }
        let r = check_pool(model, longest_first, deadline, log);
        proof {
            lemma_flags_permuted(*model, longest_first@, parts, deadline, r);
        }
        r
    }
}

/// The number of entries of a partition.
fn entry_count<I, O>(p: &Vec<Entry<I, O>>) -> (r: usize)
    ensures
        r == p@.len(),
{
    p.len()
}

/// `slice::sort_unstable_by_key` on the partitions, keyed by their number of
/// entries: afterwards they are a permutation of what they were, shortest
/// first.
#[verifier::external_body]
fn sort_by_len<I, O>(parts: &mut Vec<Vec<Entry<I, O>>>)
    ensures
        final(parts)@.to_multiset() == old(parts)@.to_multiset(),
        forall|i: int, j: int|
            0 <= i < j < final(parts)@.len() ==> final(parts)@[i]@.len() <= final(parts)@[j]@.len(),
{
    parts.sort_unstable_by_key(|p| entry_count(p));
}

/// The elements of `v` in reverse order.
fn reversed<T>(v: Vec<T>) -> (r: Vec<T>)
    ensures
        r@ == v@.reverse(),
{
    let ghost v0 = v@;
    let mut v = v;
    let mut r: Vec<T> = Vec::new();
    while v.len() > 0
        invariant
            v@ == v0.take(v@.len() as int),
            r@ == v0.skip(v@.len() as int).reverse(),
            v@.len() <= v0.len(),
        decreases v@.len(),
    {
        let ghost k = v@.len() as int;
        let x = v.pop().unwrap();
        r.push(x);
        proof {
            assert(v0.skip(k - 1).reverse() =~= v0.skip(k).reverse().push(v0[k - 1]));
            assert(v@ =~= v0.take(k - 1));
        }
    }
    proof {
        assert(v0.skip(0) =~= v0);
    }
    r
}

/// The number of entries in all of `parts`.
pub open spec fn entry_total<I, O>(parts: Seq<Vec<Entry<I, O>>>) -> nat
    decreases parts.len(),
{
    if parts.len() == 0 {
        0
    } else {
        entry_total(parts.drop_last()) + parts.last()@.len()
    }
}

/// The entries of a prefix of the partitions are no more than those of all.
proof fn lemma_entry_total_prefix<I, O>(parts: Seq<Vec<Entry<I, O>>>, k: int)
    requires
        0 <= k <= parts.len(),
    ensures
        entry_total(parts.take(k)) <= entry_total(parts),
    decreases parts.len() - k,
{
    if k < parts.len() {
        lemma_entry_total_prefix(parts, k + 1);
        assert(parts.take(k + 1).drop_last() =~= parts.take(k));
    } else {
        assert(parts.take(k) =~= parts);
    }
}

/// The number of entries in all partitions, or `SEQUENTIAL_THRESHOLD` if
/// there are at least as many.
fn total_entries_capped<I, O>(partitions: &Vec<Vec<Entry<I, O>>>) -> (r: usize)
    ensures
        r == (if entry_total(partitions@) < SEQUENTIAL_THRESHOLD {
            entry_total(partitions@)
        } else {
            SEQUENTIAL_THRESHOLD as nat
        }),
{
    let ghost parts = partitions@;
    let mut total: usize = 0;
    let mut k: usize = 0;
    proof {
        assert(parts.take(0) =~= Seq::<Vec<Entry<I, O>>>::empty());
    }
    while k < partitions.len() && total < SEQUENTIAL_THRESHOLD
        invariant
            parts == partitions@,
            k <= parts.len(),
            total <= SEQUENTIAL_THRESHOLD,
            total < SEQUENTIAL_THRESHOLD ==> total == entry_total(parts.take(k as int)),
            total == SEQUENTIAL_THRESHOLD ==> entry_total(parts.take(k as int)) >= SEQUENTIAL_THRESHOLD,
        decreases parts.len() - k,
    {
        proof {
            assert(parts.take(k + 1).drop_last() =~= parts.take(k as int));
            assert(parts.take(k + 1).last() == parts[k as int]);
        }
        if partitions[k].len() >= SEQUENTIAL_THRESHOLD - total {
            total = SEQUENTIAL_THRESHOLD;
        } else {
            total = total + partitions[k].len();
        }
        k = k + 1;
    }
    proof {
        lemma_entry_total_prefix(parts, k as int);
        if k == parts.len() {
            assert(parts.take(k as int) =~= parts);
        }
    }
    total
}

/// Two lists of partitions with the same elements are both valid or both not.
proof fn lemma_same_partitions<I, O>(a: Seq<Vec<Entry<I, O>>>, b: Seq<Vec<Entry<I, O>>>)
    requires
        partitions_ok(a),
        a.to_multiset() == b.to_multiset(),
    ensures
        partitions_ok(b),
        forall|x: Vec<Entry<I, O>>| a.contains(x) <==> b.contains(x),
{
    broadcast use vstd::seq_lib::group_to_multiset_ensures;
    assert forall|x: Vec<Entry<I, O>>| a.contains(x) <==> b.contains(x) by {
        vstd::seq_lib::to_multiset_contains(a, x);
        vstd::seq_lib::to_multiset_contains(b, x);
        assert(a.to_multiset().count(x) == b.to_multiset().count(x));
    }
    assert forall|i: int| 0 <= i < b.len() implies entries_well_formed((#[trigger] b[i])@) && b[i]@.len() < usize::MAX by {
        assert(b.contains(b[i]));
        let j = choose|j: int| 0 <= j < a.len() && a[j] == b[i];
    }
}

/// The flags of a check of a permutation of the partitions are flags of a
/// check of the partitions.
proof fn lemma_flags_permuted<M: Model>(
    model: M,
    p2: Seq<Vec<Entry<M::Input, M::Output>>>,
    p1: Seq<Vec<Entry<M::Input, M::Output>>>,
    deadline: Option<Instant>,
    r: (bool, bool, bool),
)
    requires
        parallel_flags(model, p2, deadline, r),
        forall|x: Vec<Entry<M::Input, M::Output>>| p1.contains(x) <==> p2.contains(x),
    ensures
        parallel_flags(model, p1, deadline, r),
{
    let (ok, timed_out, definitive) = r;
    if faithful::<M>() && ok {
        assert forall|i: int| 0 <= i < p1.len() implies linearizable(model, entries_history(#[trigger] p1[i]@)) by {
            assert(p1.contains(p1[i]));
            let j = choose|j: int| 0 <= j < p2.len() && p2[j] == p1[i];
            assert(linearizable(model, entries_history(p2[j]@)));
        }
    }
    if faithful::<M>() && definitive {
        let j = choose|j: int| 0 <= j < p2.len() && !linearizable(model, entries_history(#[trigger] p2[j]@));
        assert(p2.contains(p2[j]));
        let i = choose|i: int| 0 <= i < p1.len() && p1[i] == p2[j];
        assert(!linearizable(model, entries_history(p1[i]@)));
    }
}

/// Check the partitions one after another on the calling thread, stopping at
/// the first that is not linearized or once the deadline has passed.
fn check_sequential<M>(
    model: &M,
    partitions: Vec<Vec<Entry<M::Input, M::Output>>>,
    deadline: Option<Instant>,
    log: &mut ClockLog,
) -> (r: (bool, bool, bool)) where M: Model + Sync, M::Input: Send, M::Output: Send
    requires
        partitions_ok(partitions@),
    ensures
        log_extends(old(log)@, final(log)@),
        logged_flags(*model, partitions@, deadline, r, final(log)@, old(log)@.len() as int),
{
    let ghost parts = partitions@;
    let ghost log0 = log@;
    proof {
        assert(log0.take(log0.len() as int) =~= log0);
    }
    for p in it: partitions
        invariant
            parts == it.seq(),
            partitions_ok(parts),
            log0 == old(log)@,
            log_extends(log0, log@),
            faithful::<M>() ==> forall|j: int|
                0 <= j < it.index() ==> linearizable(*model, entries_history(#[trigger] parts[j]@)),
    {
        let ghost before = log@;
        if deadline_reached(&deadline, log) {
            proof {
                assert(log@[before.len() as int] == ClockEvent::Checked(deadline, true));
                assert(log@.take(before.len() as int) =~= before);
                lemma_log_extends_trans(log0, before, log@);
            }
            return (false, true, false);
        }
        proof {
            assert(log@.take(before.len() as int) =~= before);
            lemma_log_extends_trans(log0, before, log@);
            assert(parts[it.index() as int] == p);
        }
        let ghost mid = log@;
        let o = check_single_logged(model, p, deadline, log);
        proof {
            lemma_log_extends_trans(log0, mid, log@);
        }
        match o {
            SearchOutcome::Linearizable => {},
            SearchOutcome::Illegal => {
                return (false, false, true);
            },
            SearchOutcome::TimedOut => {
                proof {
                    assert(log@.take(log@.len() as int) =~= log@);
                    lemma_seen_passed_widen(log@, log@, log0.len() as int, mid.len() as int, deadline);
                }
                return (false, true, false);
            },
        }
    }
    (true, false, false)
}

/// Check the partitions on the thread pool and combine their outcomes: the
/// check is linearized when every partition is, proved not linearizable when
/// some partition is, and timed out when the search of some partition did.
fn check_pool<M>(
    model: &M,
    partitions: Vec<Vec<Entry<M::Input, M::Output>>>,
    deadline: Option<Instant>,
    log: &mut ClockLog,
) -> (r: (bool, bool, bool)) where M: Model + Sync, M::Input: Send, M::Output: Send
    requires
        partitions_ok(partitions@),
    ensures
        log_extends(old(log)@, final(log)@),
        logged_flags(*model, partitions@, deadline, r, final(log)@, old(log)@.len() as int),
{
    let ghost parts = partitions@;
    let ghost log0 = log@;
    proof {
        assert(log0.take(log0.len() as int) =~= log0);
    }
    let results = check_all_par(model, partitions, deadline);
    let ghost rs = results@;
    let mut ok = true;
    let mut timed_out = false;
    let mut definitive = false;
    for item in it: results
        invariant
            rs == it.seq(),
            rs.len() == parts.len(),
            forall|i: int| 0 <= i < rs.len() ==> search_result(*model, parts[i]@, deadline, (#[trigger] rs[i]).0, rs[i].1@),
            log0 == old(log)@,
            log_extends(log0, log@),
            ok <==> forall|i: int| 0 <= i < it.index() ==> (#[trigger] rs[i]).0 == SearchOutcome::Linearizable,
            timed_out <==> exists|i: int| 0 <= i < it.index() && (#[trigger] rs[i]).0 == SearchOutcome::TimedOut,
            definitive <==> exists|i: int| 0 <= i < it.index() && (#[trigger] rs[i]).0 == SearchOutcome::Illegal,
            timed_out ==> seen_passed(log@, log0.len() as int, deadline),
    {
        let ghost k = it.index() as int;
        let (o, l) = item;
        proof {
            assert(rs[k] == (o, l));
        }
        let ghost before = log@;
        let ghost lv = l@;
        log.absorb(l);
        proof {
            assert(log@.take(before.len() as int) =~= before);
            lemma_log_extends_trans(log0, before, log@);
            if timed_out {
                lemma_seen_passed_widen(before, log@, log0.len() as int, log0.len() as int, deadline);
            }
            if o == SearchOutcome::TimedOut {
                lemma_seen_passed_append(before, lv, deadline);
                assert(log@.take(log@.len() as int) =~= log@);
                lemma_seen_passed_widen(log@, log@, log0.len() as int, before.len() as int, deadline);
            }
        }
        match o {
            SearchOutcome::Linearizable => {},
            SearchOutcome::Illegal => {
                ok = false;
                definitive = true;
            },
            SearchOutcome::TimedOut => {
                ok = false;
                timed_out = true;
            },
        }
        proof {
            assert forall|i: int| 0 <= i < k + 1 implies (#[trigger] rs[i]).0 == SearchOutcome::Linearizable || !ok by {}
            if !ok && o == SearchOutcome::Linearizable {
                let i = choose|i: int| 0 <= i < k && !((#[trigger] rs[i]).0 == SearchOutcome::Linearizable);
            }
        }
    }
    proof {
        let n = rs.len() as int;
        if !ok {
            assert(!(forall|i: int| 0 <= i < n ==> (#[trigger] rs[i]).0 == SearchOutcome::Linearizable));
            let i = choose|i: int| 0 <= i < n && !((#[trigger] rs[i]).0 == SearchOutcome::Linearizable);
            assert(search_result(*model, parts[i]@, deadline, rs[i].0, rs[i].1@));
        }
        if faithful::<M>() && ok {
            assert forall|i: int| 0 <= i < parts.len() implies linearizable(*model, entries_history(#[trigger] parts[i]@)) by {
                assert(search_result(*model, parts[i]@, deadline, rs[i].0, rs[i].1@));
            }
        }
        if faithful::<M>() && definitive {
            let i = choose|i: int| 0 <= i < n && (#[trigger] rs[i]).0 == SearchOutcome::Illegal;
            assert(search_result(*model, parts[i]@, deadline, rs[i].0, rs[i].1@));
        }
        if deadline is None && timed_out {
            let i = choose|i: int| 0 <= i < n && (#[trigger] rs[i]).0 == SearchOutcome::TimedOut;
            assert(search_result(*model, parts[i]@, deadline, rs[i].0, rs[i].1@));
        }
    }
    (ok, timed_out, definitive)
}

/// `b` is a copy of `a`: the same client and timestamps, with its input and
/// output cloned.
pub open spec fn op_copied<I: Clone, O: Clone>(a: Operation<I, O>, b: Operation<I, O>) -> bool {
    &&& a.client_id == b.client_id
    &&& a.call == b.call
    &&& a.return_time == b.return_time
    &&& vstd::pervasive::strictly_cloned(a.input, b.input)
    &&& vstd::pervasive::strictly_cloned(a.output, b.output)
}

/// Copy an operation, cloning its input and output.
pub fn copy_operation<I: Clone, O: Clone>(op: &Operation<I, O>) -> (r: Operation<I, O>)
    ensures
        op_copied(*op, r),
{
    Operation {
        client_id: op.client_id,
        input: op.input.clone(),
        call: op.call,
        output: op.output.clone(),
        return_time: op.return_time,
    }
}

/// The block of all indices `0..n`.
pub open spec fn whole_block(n: nat) -> Seq<usize> {
    Seq::new(n, |i: int| i as usize)
}

/// The operations of `h` at the indices of `block`, in the order of the block.
pub open spec fn sub_history<I, O>(h: Seq<AbsOp<I, O>>, block: Seq<usize>) -> Seq<AbsOp<I, O>> {
    Seq::new(block.len(), |j: int| h[block[j] as int])
}

/// A partitioning that the checker accepts for a history of length `n`:
/// disjoint, in bounds, covering, and few enough partitions to number them.
pub open spec fn valid_partition(ps: Seq<Vec<usize>>, n: usize) -> bool {
    ps.len() <= u32::MAX + 1 && scan_ok(ps, n as nat)
}

/// The blocks that a check searches: the partitions returned by the model
/// where they are valid, else one block of the whole history.
pub open spec fn chosen_blocks(parts: Option<Vec<Vec<usize>>>, n: usize) -> Seq<Seq<usize>> {
    match parts {
        Some(ps) => if valid_partition(ps@, n) {
            Seq::new(ps@.len(), |b: int| ps@[b]@)
        } else {
            seq![whole_block(n as nat)]
        },
        None => seq![whole_block(n as nat)],
    }
}

/// The sub-histories of the operation history `ops` that a check with the
/// partitioning `parts` searches.
pub open spec fn ops_block_histories<I, O>(ops: Seq<Operation<I, O>>, parts: Option<Vec<Vec<usize>>>) -> Seq<
    Seq<AbsOp<I, O>>,
> {
    let blocks = chosen_blocks(parts, ops.len() as usize);
    Seq::new(blocks.len(), |b: int| sub_history(ops_history(ops), blocks[b]))
}

/// The verdict `r` is correct for the sub-histories `hs`: `Legal` only when
/// every one is linearizable, `Illegal` only when one is not.
pub open spec fn verdict<M: Model>(model: M, hs: Seq<Seq<AbsOp<M::Input, M::Output>>>, r: CheckResult) -> bool {
    &&& r == CheckResult::Legal ==> forall|b: int| 0 <= b < hs.len() ==> linearizable(model, #[trigger] hs[b])
    &&& r == CheckResult::Illegal ==> exists|b: int| 0 <= b < hs.len() && !linearizable(model, #[trigger] hs[b])
}

/// The whole history is its own one block.
pub proof fn lemma_whole_block<I, O>(h: Seq<AbsOp<I, O>>)
    requires
        h.len() <= usize::MAX,
    ensures
        sub_history(h, whole_block(h.len())) == h,
{
    assert(sub_history(h, whole_block(h.len())) =~= h);
}

/// Flatten the operations of `history` at the indices of `block`.
fn block_entries<I: Clone, O: Clone>(history: &[Operation<I, O>], block: &Vec<usize>) -> (r: Vec<Entry<I, O>>)
    requires
        ops_well_formed(history@),
        2 * history@.len() < usize::MAX,
        block@.len() <= history@.len(),
        forall|j: int| 0 <= j < block@.len() ==> #[trigger] block@[j] < history@.len(),
    ensures
        entries_well_formed(r@),
        r@.len() < usize::MAX,
        crate::model::clone_copies::<I>() && crate::model::clone_copies::<O>() ==> crate::history::same_shape(
            entries_history(r@),
            sub_history(ops_history(history@), block@),
        ),
{
    let mut sub: Vec<Operation<I, O>> = Vec::with_capacity(block.len());
    for j in 0..block.len()
        invariant
            sub@.len() == j,
            forall|j: int| 0 <= j < block@.len() ==> #[trigger] block@[j] < history@.len(),
            forall|k: int| 0 <= k < j ==> op_copied(history@[block@[k] as int], #[trigger] sub@[k]),
    {
        sub.push(copy_operation(&history[block[j]]));
    }
    proof {
        assert forall|k: int| 0 <= k < sub@.len() implies (#[trigger] sub@[k]).call <= sub@[k].return_time by {
            assert(op_copied(history@[block@[k] as int], sub@[k]));
            assert(history@[block@[k] as int].call <= history@[block@[k] as int].return_time);
        }
    }
    let r = make_entries(&sub);
    proof {
        if crate::model::clone_copies::<I>() && crate::model::clone_copies::<O>() {
            lemma_entries_of_ops(sub@, r@);
            assert(ops_history(sub@) =~= sub_history(ops_history(history@), block@)) by {
                assert forall|k: int| 0 <= k < sub@.len() implies ops_history(sub@)[k] == sub_history(ops_history(history@), block@)[k] by {
                    assert(op_copied(history@[block@[k] as int], sub@[k]));
                }
            }
        }
    }
    r
}

/// Check an operation history whose partitioning into independent
/// sub-histories is `parts`: the partitions where they are valid, else the
/// whole history as one. Without a timeout the check always decides.
pub fn check_operations_partitioned<M>(
    model: &M,
    history: &[Operation<M::Input, M::Output>],
    parts: Option<Vec<Vec<usize>>>,
    timeout: Option<Duration>,
) -> (r: CheckResult) where M: Model + Sync, M::Input: Send, M::Output: Send
    requires
        ops_well_formed(history@),
        2 * history@.len() < usize::MAX,
    ensures
        timeout is None ==> r != CheckResult::Unknown,
        faithful::<M>() ==> verdict(*model, ops_block_histories(history@, parts), r),
{
    let mut log = ClockLog::new();
    check_operations_partitioned_logged(model, history, parts, timeout, &mut log)
}

/// The check of `check_operations_partitioned`, recording in `log` each reading of
/// the clock that it makes: it answers `Unknown` only where the timeout
/// elapsed, a deadline made from it having been found passed.
pub fn check_operations_partitioned_logged<M>(
    model: &M,
    history: &[Operation<M::Input, M::Output>],
    parts: Option<Vec<Vec<usize>>>,
    timeout: Option<Duration>,
    log: &mut ClockLog,
) -> (r: CheckResult) where M: Model + Sync, M::Input: Send, M::Output: Send
    requires
        ops_well_formed(history@),
        2 * history@.len() < usize::MAX,
    ensures
        log_extends(old(log)@, final(log)@),
        timeout is None ==> r != CheckResult::Unknown,
        r == CheckResult::Unknown ==> timeout_elapsed(final(log)@, old(log)@.len() as int, timeout),
        faithful::<M>() ==> verdict(*model, ops_block_histories(history@, parts), r),
{
    let ghost log0 = log@;
    proof {
        assert(log0.take(log0.len() as int) =~= log0);
    }
    let n = history.len();
    let ghost blocks = chosen_blocks(parts, n);
    let ghost hs = ops_block_histories(history@, parts);
    let use_parts = match &parts {
        Some(ps) => (ps.len() as u64) <= (u32::MAX as u64) + 1 && check_partition_covers_ops(ps, n).is_ok(),
        None => false,
    };
    let mut partitions: Vec<Vec<Entry<M::Input, M::Output>>> = Vec::new();
    if use_parts {
        let ps = parts.unwrap();
        proof {
            assert(blocks.len() == ps@.len());
        }
        for b in 0..ps.len()
            invariant
                ops_well_formed(history@),
                2 * history@.len() < usize::MAX,
                n == history@.len(),
                valid_partition(ps@, n),
                blocks == Seq::new(ps@.len(), |b: int| ps@[b]@),
                hs.len() == blocks.len(),
                forall|c: int| 0 <= c < hs.len() ==> #[trigger] hs[c] == sub_history(ops_history(history@), blocks[c]),
                partitions@.len() == b,
                partitions_ok(partitions@),
                forall|c: int|
                    0 <= c < b ==> faithful::<M>() ==> (linearizable(*model, entries_history((#[trigger] partitions@[c])@))
                        <==> linearizable(*model, hs[c])),
        {
            proof {
                lemma_scan_ok_blocks(ps@, n as nat, b as int);
            }
            let es = block_entries(history, &ps[b]);
            proof {
                if faithful::<M>() {
                    lemma_linearizable_same_shape(*model, entries_history(es@), hs[b as int]);
                }
            }
            partitions.push(es);
        }
    } else {
        proof {
            assert(blocks.len() == 1 && blocks[0] == whole_block(n as nat));
            lemma_whole_block(ops_history(history@));
            assert(hs[0] == ops_history(history@));
            assert(ops_history(history@).len() == n);
        }
        let es = block_entries_whole(history);
        proof {
            if faithful::<M>() {
                lemma_linearizable_same_shape(*model, entries_history(es@), hs[0]);
            }
        }
        partitions.push(es);
    }
    let ghost pp = partitions@;
    let ghost k = log@.len() as int;
    let deadline = deadline_after_logged(timeout, log);
    let ghost made = log@;
    let (ok, timed_out, definitive) = check_parallel_logged(model, partitions, deadline, log);
    let r = to_check_result(ok, timed_out, definitive);
    proof {
        assert(made.take(log0.len() as int) =~= log0);
        lemma_log_extends_trans(log0, made, log@);
        if r == CheckResult::Unknown {
            assert(log@.take(made.len() as int)[k] == made[k]);
            assert(log@[k] == ClockEvent::Made(timeout, deadline));
            assert(seen_passed(log@, k + 1, log@[k]->Made_1));
        }
    }
    proof {
        if faithful::<M>() && r == CheckResult::Legal {
            assert forall|b: int| 0 <= b < hs.len() implies linearizable(*model, #[trigger] hs[b]) by {
                assert(linearizable(*model, entries_history(pp[b]@)));
            }
        }
        if faithful::<M>() && r == CheckResult::Illegal {
            let b = choose|b: int| 0 <= b < pp.len() && !linearizable(*model, entries_history(#[trigger] pp[b]@));
            assert(!linearizable(*model, hs[b]));
        }
    }
    r
}

/// Flatten a whole operation history.
fn block_entries_whole<I: Clone, O: Clone>(history: &[Operation<I, O>]) -> (r: Vec<Entry<I, O>>)
    requires
        ops_well_formed(history@),
        2 * history@.len() < usize::MAX,
    ensures
        entries_well_formed(r@),
        r@.len() < usize::MAX,
        crate::model::clone_copies::<I>() && crate::model::clone_copies::<O>() ==> crate::history::same_shape(
            entries_history(r@),
            ops_history(history@),
        ),
{
    let r = make_entries(history);
    proof {
        if crate::model::clone_copies::<I>() && crate::model::clone_copies::<O>() {
            lemma_entries_of_ops(history@, r@);
        }
    }
    r
}

/// The verdict `r` is correct for `history` split as the model partitions it:
/// for a partitioning that the model's `partition` returns for `history`, `r`
/// is a correct verdict on the sub-histories of that partitioning (the whole
/// history where it returns none, or none that is valid).
pub open spec fn ops_outcome<M: Model>(model: M, history: &[Operation<M::Input, M::Output>], r: CheckResult) -> bool {
    exists|parts: Option<Vec<Vec<usize>>>|
        #[trigger] call_ensures(M::partition, (&model, history), parts) && verdict(
            model,
            ops_block_histories(history@, parts),
            r,
        )
}

/// Check an operation history for linearizability, split into the partitions
/// that the model returns for it (checked as one block where it returns none,
/// or where they are not a valid partitioning). With `timeout`, the check gives
/// up with `Unknown` once the timeout has passed; without, it always decides.
pub fn check_operations<M>(
    model: &M,
    history: &[Operation<M::Input, M::Output>],
    timeout: Option<Duration>,
) -> (r: CheckResult) where M: Model + Sync, M::Input: Send, M::Output: Send
    requires
        ops_well_formed(history@),
        2 * history@.len() < usize::MAX,
    ensures
        timeout is None ==> r != CheckResult::Unknown,
        faithful::<M>() ==> ops_outcome(*model, history, r),
{
    let parts = model.partition(history);
    let ghost p = parts;
    proof {
        assert(call_ensures(M::partition, (model, history), p));
    }
    let r = check_operations_partitioned(model, history, parts, timeout);
    proof {
        if faithful::<M>() {
            assert(verdict(*model, ops_block_histories(history@, p), r));
        }
    }
    r
}

/// `b` is a copy of `a`: the same client, kind and id, with its payloads cloned.
pub open spec fn event_copied<I: Clone, O: Clone>(a: Event<I, O>, b: Event<I, O>) -> bool {
    &&& a.client_id == b.client_id
    &&& a.kind == b.kind
    &&& a.id == b.id
    &&& opt_cloned(a.input, b.input)
    &&& opt_cloned(a.output, b.output)
}

/// Copy an event, cloning its payloads.
pub fn copy_event<I: Clone, O: Clone>(ev: &Event<I, O>) -> (r: Event<I, O>)
    ensures
        event_copied(*ev, r),
{
    Event {
        client_id: ev.client_id,
        kind: ev.kind,
        input: match &ev.input {
            Some(i) => Some(i.clone()),
            None => None,
        },
        output: match &ev.output {
            Some(o) => Some(o.clone()),
            None => None,
        },
        id: ev.id,
    }
}

/// The events of `evs` at the indices of `block`, in the order of the block.
pub open spec fn sub_events<I, O>(evs: Seq<Event<I, O>>, block: Seq<usize>) -> Seq<Event<I, O>> {
    Seq::new(block.len(), |j: int| evs[block[j] as int])
}

/// A partitioning of an event history that the checker accepts: few enough
/// partitions to number them, disjoint, in bounds, covering, and keeping each
/// call with its return.
pub open spec fn valid_event_partition<I, O>(ps: Seq<Vec<usize>>, evs: Seq<Event<I, O>>) -> bool {
    &&& ps.len() <= u32::MAX + 1
    &&& events_partition_outcome(ps, evs) is Ok
}

/// The blocks of events that a check with the partitioning `parts` searches:
/// those of the partitions, each in the order it lists its indices, where they
/// are valid, else the whole history.
pub open spec fn event_blocks<I, O>(evs: Seq<Event<I, O>>, parts: Option<Vec<Vec<usize>>>) -> Seq<Seq<Event<I, O>>> {
    match parts {
        Some(ps) => if valid_event_partition(ps@, evs) {
            Seq::new(ps@.len(), |b: int| sub_events(evs, ps@[b]@))
        } else {
            seq![evs]
        },
        None => seq![evs],
    }
}

/// A block of events has a linearization: it lists each call before its
/// return, and its operations are linearizable. A block that lists a return
/// before its call has none.
pub open spec fn block_linearizable<M: Model>(model: M, block: Seq<Event<M::Input, M::Output>>) -> bool {
    events_well_formed(block) && linearizable(model, events_history(block))
}

/// The verdict `r` is correct for the event blocks `bs`: `Legal` only when
/// every one has a linearization, `Illegal` only when one has none.
pub open spec fn event_verdict<M: Model>(model: M, bs: Seq<Seq<Event<M::Input, M::Output>>>, r: CheckResult) -> bool {
    &&& r == CheckResult::Legal ==> forall|b: int| 0 <= b < bs.len() ==> block_linearizable(model, #[trigger] bs[b])
    &&& r == CheckResult::Illegal ==> exists|b: int| 0 <= b < bs.len() && !block_linearizable(model, #[trigger] bs[b])
}

/// Whether an event history is well-formed depends only on the kinds, ids and
/// presence of payloads of its events.
proof fn lemma_well_formed_copies<I: Clone, O: Clone>(a: Seq<Event<I, O>>, b: Seq<Event<I, O>>)
    requires
        a.len() == b.len(),
        forall|j: int| 0 <= j < a.len() ==> event_copied(#[trigger] a[j], b[j]),
    ensures
        events_well_formed(a) == events_well_formed(b),
        clone_copies_events::<I, O>() ==> a == b,
{
    assert forall|p: int| 0 <= p < a.len() implies (crate::events::has_partner(a, p) <==> crate::events::has_partner(b, p)) by {
        assert(event_copied(a[p], b[p]));
        if crate::events::has_partner(a, p) {
            let q = choose|q: int| #[trigger] crate::events::is_partner(a, p, q);
            assert(event_copied(a[q], b[q]));
            assert(crate::events::is_partner(b, p, q));
        }
        if crate::events::has_partner(b, p) {
            let q = choose|q: int| #[trigger] crate::events::is_partner(b, p, q);
            assert(event_copied(a[q], b[q]));
            assert(crate::events::is_partner(a, p, q));
        }
    }
    assert(payloads_present(a) == payloads_present(b)) by {
        assert forall|p: int| 0 <= p < a.len() implies (a[p].kind == b[p].kind && (a[p].input is Some <==> b[p].input is Some)
            && (a[p].output is Some <==> b[p].output is Some)) by {
            assert(event_copied(a[p], b[p]));
        }
    }
    if events_well_formed(a) != events_well_formed(b) {
        assert forall|p: int, q: int| 0 <= p < a.len() && 0 <= q < a.len() implies (a[p].id == a[q].id <==> b[p].id == b[q].id)
            && (a[p].kind == b[p].kind) by {
            assert(event_copied(a[p], b[p]));
            assert(event_copied(a[q], b[q]));
        }
    }
    if clone_copies_events::<I, O>() {
        assert forall|j: int| 0 <= j < a.len() implies a[j] == b[j] by {
            assert(event_copied(a[j], b[j]));
        }
        assert(a =~= b);
    }
}

/// Clones of inputs and outputs are copies.
pub open spec fn clone_copies_events<I: Clone, O: Clone>() -> bool {
    crate::model::clone_copies::<I>() && crate::model::clone_copies::<O>()
}

/// Copy the events of `history` at the indices of `block`.
fn copy_block<I: Clone, O: Clone>(history: &[Event<I, O>], block: &Vec<usize>) -> (r: Vec<Event<I, O>>)
    requires
        forall|j: int| 0 <= j < block@.len() ==> #[trigger] block@[j] < history@.len(),
    ensures
        r@.len() == block@.len(),
        forall|j: int| 0 <= j < r@.len() ==> event_copied(history@[block@[j] as int], #[trigger] r@[j]),
{
    let mut sub: Vec<Event<I, O>> = Vec::with_capacity(block.len());
    for j in 0..block.len()
        invariant
            sub@.len() == j,
            forall|j: int| 0 <= j < block@.len() ==> #[trigger] block@[j] < history@.len(),
            forall|k: int| 0 <= k < j ==> event_copied(history@[block@[k] as int], #[trigger] sub@[k]),
    {
        sub.push(copy_event(&history[block[j]]));
    }
    sub
}

/// Flatten a well-formed event history: renumber its ids, then turn each
/// event into an entry at its position.
fn event_entries<I: Clone, O: Clone>(evs: &[Event<I, O>]) -> (r: Vec<Entry<I, O>>)
    requires
        events_well_formed(evs@),
        evs@.len() < usize::MAX,
    ensures
        entries_well_formed(r@),
        r@.len() < usize::MAX,
        clone_copies_events::<I, O>() ==> crate::history::same_shape(entries_history(r@), events_history(evs@)),
{
    let rn = renumber(evs);
    proof {
        assert forall|p: int| 0 <= p < rn@.len() implies (#[trigger] rn@[p].kind == EventKind::Call ==> rn@[p].input is Some)
            && (rn@[p].kind == EventKind::Return ==> rn@[p].output is Some) by {
            assert(opt_cloned(evs@[p].input, rn@[p].input));
            assert(opt_cloned(evs@[p].output, rn@[p].output));
        }
        assert forall|p: int| 0 <= p < rn@.len() implies (#[trigger] rn@[p].id) <= usize::MAX by {
            assert(rn@[p].id < crate::model::first_occurrences(crate::events::event_ids(evs@)).len());
        }
    }
    let es = convert_entries(&rn);
    proof {
        lemma_entries_of_events(evs@, rn@, es@);
    }
    es
}

/// Check an event history whose partitioning into independent sub-histories
/// is `parts`: the partitions where they are valid, else the whole history as
/// one. A partition that lists a return before its call has no linearization,
/// and makes the history `Illegal`. Without a timeout the check always decides.
pub fn check_events_partitioned<M>(
    model: &M,
    history: &[Event<M::Input, M::Output>],
    parts: Option<Vec<Vec<usize>>>,
    timeout: Option<Duration>,
) -> (r: CheckResult) where M: Model + Sync, M::Input: Send, M::Output: Send
    requires
        events_well_formed(history@),
        history@.len() < usize::MAX,
    ensures
        timeout is None ==> r != CheckResult::Unknown,
        faithful::<M>() ==> event_verdict(*model, event_blocks(history@, parts), r),
{
    let mut log = ClockLog::new();
    check_events_partitioned_logged(model, history, parts, timeout, &mut log)
}

/// The check of `check_events_partitioned`, recording in `log` each reading of
/// the clock that it makes: it answers `Unknown` only where the timeout
/// elapsed, a deadline made from it having been found passed.
pub fn check_events_partitioned_logged<M>(
    model: &M,
    history: &[Event<M::Input, M::Output>],
    parts: Option<Vec<Vec<usize>>>,
    timeout: Option<Duration>,
    log: &mut ClockLog,
) -> (r: CheckResult) where M: Model + Sync, M::Input: Send, M::Output: Send
    requires
        events_well_formed(history@),
        history@.len() < usize::MAX,
    ensures
        log_extends(old(log)@, final(log)@),
        timeout is None ==> r != CheckResult::Unknown,
        r == CheckResult::Unknown ==> timeout_elapsed(final(log)@, old(log)@.len() as int, timeout),
        faithful::<M>() ==> event_verdict(*model, event_blocks(history@, parts), r),
{
    let ghost log0 = log@;
    proof {
        assert(log0.take(log0.len() as int) =~= log0);
    }
    let n = history.len();
    let ghost evs = history@;
    let ghost bs = event_blocks(evs, parts);
    let mut partitions: Vec<Vec<Entry<M::Input, M::Output>>> = Vec::new();
    let mut split = false;
    if let Some(ps) = &parts {
        if (ps.len() as u64) <= (u32::MAX as u64) + 1 && check_partition_events_paired(ps, history).is_ok() {
            split = true;
            proof {
                assert(valid_event_partition(ps@, evs));
                assert(bs.len() == ps@.len());
            }
            let mut b: usize = 0;
            while b < ps.len()
                invariant
                    log@ == log0,
                    log0 == old(log)@,
                    log0.take(log0.len() as int) =~= log0,
                    evs == history@,
                    n == evs.len(),
                    n < usize::MAX,
                    ps@.len() <= u32::MAX + 1,
                    events_partition_outcome(ps@, evs) is Ok,
                    bs == event_blocks(evs, parts),
                    parts == Some(*ps),
                    bs.len() == ps@.len(),
                    b <= ps@.len(),
                    partitions@.len() == b,
                    partitions_ok(partitions@),
                    forall|c: int| 0 <= c < b ==> events_well_formed(#[trigger] bs[c]),
                    forall|c: int|
                        0 <= c < b ==> faithful::<M>() ==> (linearizable(*model, entries_history((#[trigger] partitions@[c])@))
                            <==> linearizable(*model, events_history(bs[c]))),
                decreases ps@.len() - b,
            {
                proof {
                    lemma_scan_ok_blocks(ps@, n as nat, b as int);
                }
                let sub = copy_block(history, &ps[b]);
                let ghost spec_sub = sub_events(evs, ps@[b as int]@);
                proof {
                    assert(bs[b as int] == spec_sub);
                    lemma_well_formed_copies(spec_sub, sub@);
                }
                if !well_formed_events(&sub) {
                    // A return listed before its call: no order of this
                    // partition passes its return before its call is taken.
                    proof {
                        assert(!block_linearizable(*model, bs[b as int]));
                    }
                    return CheckResult::Illegal;
                }
                let es = event_entries(&sub);
                proof {
                    if faithful::<M>() {
                        assert(sub@ == spec_sub);
                        lemma_linearizable_same_shape(*model, entries_history(es@), events_history(spec_sub));
                    }
                }
                partitions.push(es);
                b = b + 1;
            }
        }
    }
    if !split {
        let es = event_entries(history);
        proof {
            assert(bs == seq![evs]);
            if faithful::<M>() {
                lemma_linearizable_same_shape(*model, entries_history(es@), events_history(evs));
            }
        }
        partitions.push(es);
    }
    let ghost pp = partitions@;
    proof {
        assert(pp.len() == bs.len());
        assert(forall|c: int| 0 <= c < bs.len() ==> events_well_formed(#[trigger] bs[c]));
        assert(forall|c: int| 0 <= c < pp.len() ==> faithful::<M>() ==> (linearizable(*model, entries_history((#[trigger] pp[c])@))
            <==> linearizable(*model, events_history(bs[c]))));
    }
    let ghost k = log@.len() as int;
    let deadline = deadline_after_logged(timeout, log);
    let ghost made = log@;
    let (ok, timed_out, definitive) = check_parallel_logged(model, partitions, deadline, log);
    let r = to_check_result(ok, timed_out, definitive);
    proof {
        assert(made.take(log0.len() as int) =~= log0);
        lemma_log_extends_trans(log0, made, log@);
        if r == CheckResult::Unknown {
            assert(log@.take(made.len() as int)[k] == made[k]);
            assert(log@[k] == ClockEvent::Made(timeout, deadline));
            assert(seen_passed(log@, k + 1, log@[k]->Made_1));
        }
    }
    proof {
        if faithful::<M>() && r == CheckResult::Legal {
            assert forall|b: int| 0 <= b < bs.len() implies block_linearizable(*model, #[trigger] bs[b]) by {
                assert(linearizable(*model, entries_history(pp[b]@)));
            }
        }
        if faithful::<M>() && r == CheckResult::Illegal {
            let b = choose|b: int| 0 <= b < pp.len() && !linearizable(*model, entries_history(#[trigger] pp[b]@));
            assert(!block_linearizable(*model, bs[b]));
        }
    }
    r
}

/// The verdict `r` is correct for the event history `history` split as the
/// model partitions it: for a partitioning that the model's
/// `partition_events` returns for `history`, `r` is a correct verdict on the
/// blocks of that partitioning (the whole history where it returns none, or
/// none that is valid).
pub open spec fn events_outcome<M: Model>(model: M, history: &[Event<M::Input, M::Output>], r: CheckResult) -> bool {
    exists|parts: Option<Vec<Vec<usize>>>|
        #[trigger] call_ensures(M::partition_events, (&model, history), parts) && event_verdict(
            model,
            event_blocks(history@, parts),
            r,
        )
}

/// Check an event history for linearizability, with each event's position in
/// the slice as its instant, split into the partitions that the model returns
/// for it (checked as one block where it returns none, or where they are not a
/// valid partitioning; a partition that lists a return before its call makes
/// the history `Illegal`). With `timeout`, the check gives up with `Unknown`
/// once the timeout has passed; without, it always decides.
pub fn check_events<M>(
    model: &M,
    history: &[Event<M::Input, M::Output>],
    timeout: Option<Duration>,
) -> (r: CheckResult) where M: Model + Sync, M::Input: Send, M::Output: Send
    requires
        events_well_formed(history@),
        history@.len() < usize::MAX,
    ensures
        timeout is None ==> r != CheckResult::Unknown,
        faithful::<M>() ==> events_outcome(*model, history, r),
{
    let parts = model.partition_events(history);
    let ghost p = parts;
    proof {
        assert(call_ensures(M::partition_events, (model, history), p));
    }
    let r = check_events_partitioned(model, history, parts, timeout);
    proof {
        if faithful::<M>() {
            assert(event_verdict(*model, event_blocks(history@, p), r));
        }
    }
    r
}

/// A decided verdict is unique: two verdicts on the same sub-histories that
/// are not `Unknown` agree.
pub proof fn lemma_verdict_unique<M: Model>(
    model: M,
    hs: Seq<Seq<AbsOp<M::Input, M::Output>>>,
    r1: CheckResult,
    r2: CheckResult,
)
    requires
        verdict(model, hs, r1),
        verdict(model, hs, r2),
        r1 != CheckResult::Unknown,
        r2 != CheckResult::Unknown,
    ensures
        r1 == r2,
{
    if r1 == CheckResult::Legal && r2 == CheckResult::Illegal {
        let b = choose|b: int| 0 <= b < hs.len() && !linearizable(model, #[trigger] hs[b]);
        assert(linearizable(model, hs[b]));
    }
    if r2 == CheckResult::Legal && r1 == CheckResult::Illegal {
        let b = choose|b: int| 0 <= b < hs.len() && !linearizable(model, #[trigger] hs[b]);
        assert(linearizable(model, hs[b]));
    }
}

/// A decided verdict on event blocks is unique: two verdicts on the same
/// blocks that are not `Unknown` agree.
pub proof fn lemma_event_verdict_unique<M: Model>(
    model: M,
    bs: Seq<Seq<Event<M::Input, M::Output>>>,
    r1: CheckResult,
    r2: CheckResult,
)
    requires
        event_verdict(model, bs, r1),
        event_verdict(model, bs, r2),
        r1 != CheckResult::Unknown,
        r2 != CheckResult::Unknown,
    ensures
        r1 == r2,
{
    if r1 == CheckResult::Legal && r2 == CheckResult::Illegal {
        let b = choose|b: int| 0 <= b < bs.len() && !block_linearizable(model, #[trigger] bs[b]);
        assert(block_linearizable(model, bs[b]));
    }
    if r2 == CheckResult::Legal && r1 == CheckResult::Illegal {
        let b = choose|b: int| 0 <= b < bs.len() && !block_linearizable(model, #[trigger] bs[b]);
        assert(block_linearizable(model, bs[b]));
    }
}

/// The model's `partition` gives `history` one partitioning: every result
/// that it may return lists the same blocks, in some order.
pub open spec fn ops_partition_determined<M: Model>(model: M, history: &[Operation<M::Input, M::Output>]) -> bool {
    forall|p1: Option<Vec<Vec<usize>>>, p2: Option<Vec<Vec<usize>>>|
        #![trigger call_ensures(M::partition, (&model, history), p1), call_ensures(M::partition, (&model, history), p2)]
        call_ensures(M::partition, (&model, history), p1) && call_ensures(M::partition, (&model, history), p2)
            ==> same_blocks(p1, p2)
}

/// The model's `partition_events` gives `history` one partitioning: every
/// result that it may return lists the same blocks, in some order.
pub open spec fn events_partition_determined<M: Model>(model: M, history: &[Event<M::Input, M::Output>]) -> bool {
    forall|p1: Option<Vec<Vec<usize>>>, p2: Option<Vec<Vec<usize>>>|
        #![trigger call_ensures(M::partition_events, (&model, history), p1), call_ensures(M::partition_events, (&model, history), p2)]
        call_ensures(M::partition_events, (&model, history), p1) && call_ensures(M::partition_events, (&model, history), p2)
            ==> same_blocks(p1, p2)
}

/// The index lists of the partitions of `s` and then of `t`, flattened, are
/// those of `s` and then those of `t`.
proof fn lemma_flatten_append(s: Seq<Vec<usize>>, t: Seq<Vec<usize>>)
    ensures
        flatten(s + t) == flatten(s) + flatten(t),
    decreases t.len(),
{
    if t.len() == 0 {
        assert(s + t =~= s);
        assert(flatten(s) + flatten(t) =~= flatten(s));
    } else {
        assert((s + t).drop_last() =~= s + t.drop_last());
        assert((s + t).last() == t.last());
        lemma_flatten_append(s, t.drop_last());
        assert(flatten(s + t) =~= flatten(s) + flatten(t));
    }
}

/// Partitions that list the same blocks, in any order, flatten to the same
/// indices, in some order.
proof fn lemma_flatten_permuted(a: Seq<Vec<usize>>, b: Seq<Vec<usize>>)
    requires
        index_lists(a).to_multiset() == index_lists(b).to_multiset(),
    ensures
        flatten(a).to_multiset() == flatten(b).to_multiset(),
    decreases a.len(),
{
    broadcast use vstd::seq_lib::group_to_multiset_ensures, vstd::seq_lib::lemma_multiset_commutative;

    let la = index_lists(a);
    let lb = index_lists(b);
    assert(la.len() == la.to_multiset().len() && lb.len() == lb.to_multiset().len());
    if a.len() == 0 {
        assert(b.len() == 0);
        assert(flatten(a) == Seq::<usize>::empty());
        assert(flatten(b) == Seq::<usize>::empty());
    } else {
        let x = la.last();
        assert(la[la.len() - 1] == x);
        assert(la.contains(x));
        assert(la.to_multiset().count(x) > 0);
        assert(lb.contains(x));
        let k = choose|k: int| 0 <= k < lb.len() && lb[k] == x;
        let b2 = b.remove(k);
        assert(index_lists(b2) =~= lb.remove(k));
        assert(la.drop_last() =~= la.remove(la.len() - 1));
        assert(index_lists(a.drop_last()) =~= la.drop_last());
        assert(index_lists(a.drop_last()).to_multiset() == index_lists(b2).to_multiset());
        lemma_flatten_permuted(a.drop_last(), b2);
        let pre = b.take(k);
        let post = b.skip(k + 1);
        assert(b =~= pre + seq![b[k]] + post);
        assert(b2 =~= pre + post);
        lemma_flatten_append(pre + seq![b[k]], post);
        lemma_flatten_append(pre, seq![b[k]]);
        lemma_flatten_append(pre, post);
        assert(seq![b[k]].drop_last() =~= Seq::<Vec<usize>>::empty());
        assert(flatten(seq![b[k]].drop_last()) == Seq::<usize>::empty());
        assert(seq![b[k]].last() == b[k]);
        assert(flatten(seq![b[k]]) =~= b[k]@);
        assert(b[k]@ == x);
        assert(a.last()@ == x);
        assert(flatten(a) == flatten(a.drop_last()) + a.last()@);
        assert(flatten(b) == flatten(pre) + b[k]@ + flatten(post));
        assert(flatten(b2) == flatten(pre) + flatten(post));
        assert(flatten(a).to_multiset() =~= flatten(b).to_multiset());
    }
}

/// A scan is clean exactly when it lists no index twice and none out of bounds.
proof fn lemma_scan_clean_iff(f: Seq<usize>, n: nat)
    ensures
        scan_clean(f, n) <==> (f.no_duplicates() && forall|t: int| 0 <= t < f.len() ==> f[t] < n),
{
    if scan_clean(f, n) {
        assert forall|i: int, j: int| 0 <= i < j < f.len() implies f[i] != f[j] by {
            assert(!bad_at(f, n, j));
            assert(f.take(j)[i] == f[i]);
        }
        assert forall|t: int| 0 <= t < f.len() implies f[t] < n by {
            assert(!bad_at(f, n, t));
        }
    }
    if f.no_duplicates() && forall|t: int| 0 <= t < f.len() ==> f[t] < n {
        assert forall|t: int| 0 <= t < f.len() implies !#[trigger] bad_at(f, n, t) by {
            if f.take(t).contains(f[t]) {
                let u = choose|u: int| 0 <= u < f.take(t).len() && f.take(t)[u] == f[t];
                assert(f[u] == f[t]);
            }
        }
    }
}

/// Partitionings that list the same blocks, in any order, are both valid or
/// both not.
proof fn lemma_valid_permuted(a: Seq<Vec<usize>>, b: Seq<Vec<usize>>, n: usize)
    requires
        index_lists(a).to_multiset() == index_lists(b).to_multiset(),
    ensures
        a.len() == b.len(),
        scan_ok(a, n as nat) == scan_ok(b, n as nat),
        valid_partition(a, n) == valid_partition(b, n),
{
    broadcast use vstd::seq_lib::group_to_multiset_ensures;

    assert(index_lists(a).len() == index_lists(a).to_multiset().len());
    assert(index_lists(b).len() == index_lists(b).to_multiset().len());
    lemma_flatten_permuted(a, b);
    let fa = flatten(a);
    let fb = flatten(b);
    assert(fa.len() == fa.to_multiset().len() && fb.len() == fb.to_multiset().len());
    lemma_scan_clean_iff(fa, n as nat);
    lemma_scan_clean_iff(fb, n as nat);
    assert(fa.no_duplicates() == fb.no_duplicates()) by {
        if fa.no_duplicates() {
            fa.lemma_multiset_has_no_duplicates();
            fb.lemma_multiset_has_no_duplicates_conv();
        }
        if fb.no_duplicates() {
            fb.lemma_multiset_has_no_duplicates();
            fa.lemma_multiset_has_no_duplicates_conv();
        }
    }
    assert((forall|t: int| 0 <= t < fa.len() ==> fa[t] < n) == (forall|t: int| 0 <= t < fb.len() ==> fb[t] < n)) by {
        if forall|t: int| 0 <= t < fa.len() ==> fa[t] < n {
            assert forall|t: int| 0 <= t < fb.len() implies fb[t] < n by {
                assert(fb.contains(fb[t]));
                assert(fb.to_multiset().count(fb[t]) > 0);
                assert(fa.to_multiset().count(fb[t]) > 0);
                assert(fa.contains(fb[t]));
            }
        }
        if forall|t: int| 0 <= t < fb.len() ==> fb[t] < n {
            assert forall|t: int| 0 <= t < fa.len() implies fa[t] < n by {
                assert(fa.contains(fa[t]));
                assert(fa.to_multiset().count(fa[t]) > 0);
                assert(fb.to_multiset().count(fa[t]) > 0);
                assert(fb.contains(fa[t]));
            }
        }
    }
}

/// Two partitionings list the same blocks, in any order.
pub open spec fn same_blocks(p1: Option<Vec<Vec<usize>>>, p2: Option<Vec<Vec<usize>>>) -> bool {
    match (p1, p2) {
        (Some(a), Some(b)) => index_lists(a@).to_multiset() == index_lists(b@).to_multiset(),
        (None, None) => true,
        _ => false,
    }
}

/// A verdict on the sub-histories of a partitioning is one on those of a
/// partitioning that lists the same blocks in another order.
proof fn lemma_verdict_same_blocks<M: Model>(
    model: M,
    h: Seq<Operation<M::Input, M::Output>>,
    p1: Option<Vec<Vec<usize>>>,
    p2: Option<Vec<Vec<usize>>>,
    r: CheckResult,
)
    requires
        same_blocks(p1, p2),
        verdict(model, ops_block_histories(h, p1), r),
    ensures
        verdict(model, ops_block_histories(h, p2), r),
{
    broadcast use vstd::seq_lib::group_to_multiset_ensures;

    let n = h.len() as usize;
    if p1 is Some {
        let a = p1->0;
        let b = p2->0;
        lemma_valid_permuted(a@, b@, n);
        if valid_partition(a@, n) {
            let la = index_lists(a@);
            let lb = index_lists(b@);
            let hs1 = ops_block_histories(h, p1);
            let hs2 = ops_block_histories(h, p2);
            assert(hs1.len() == la.len() && hs2.len() == lb.len());
            if r == CheckResult::Legal {
                assert forall|j: int| 0 <= j < hs2.len() implies linearizable(model, #[trigger] hs2[j]) by {
                    assert(lb.contains(lb[j]));
                    assert(lb.to_multiset().count(lb[j]) > 0);
                    assert(la.to_multiset().count(lb[j]) > 0);
                    assert(la.contains(lb[j]));
                    let i = choose|i: int| 0 <= i < la.len() && la[i] == lb[j];
                    assert(hs1[i] == hs2[j]);
                    assert(linearizable(model, hs1[i]));
                }
            }
            if r == CheckResult::Illegal {
                let i = choose|i: int| 0 <= i < hs1.len() && !linearizable(model, #[trigger] hs1[i]);
                assert(la.contains(la[i]));
                assert(la.to_multiset().count(la[i]) > 0);
                assert(lb.to_multiset().count(la[i]) > 0);
                assert(lb.contains(la[i]));
                let j = choose|j: int| 0 <= j < lb.len() && lb[j] == la[i];
                assert(hs1[i] == hs2[j]);
            }
        } else {
            assert(ops_block_histories(h, p1) =~= ops_block_histories(h, p2));
        }
    }
}

/// Where two partitionings of an event history list the same blocks, in any
/// order, and list `0..n` once each, a return lies in another partition than
/// the latest call of its id before it in both or in neither.
proof fn lemma_split_permuted<I, O>(a: Seq<Vec<usize>>, b: Seq<Vec<usize>>, evs: Seq<Event<I, O>>, q: int)
    requires
        index_lists(a).to_multiset() == index_lists(b).to_multiset(),
        scan_ok(a, evs.len()),
        scan_ok(b, evs.len()),
        0 <= q < evs.len(),
    ensures
        split_at(a, evs, q) == split_at(b, evs, q),
{
    broadcast use vstd::seq_lib::group_to_multiset_ensures;

    if evs[q].kind == EventKind::Return && last_call_before(evs, evs[q].id, q) is Some {
        let c = last_call_before(evs, evs[q].id, q)->0;
        lemma_last_call_before_range(evs, evs[q].id, q);
        let n = evs.len();
        lemma_scan_ok_owner(a, n, c);
        lemma_scan_ok_owner(a, n, q);
        lemma_scan_ok_owner(b, n, c);
        lemma_scan_ok_owner(b, n, q);
        let la = index_lists(a);
        let lb = index_lists(b);
        let ca = part_of(a, c);
        let cb = part_of(b, c);
        // The partition of `c` is the same list in both.
        assert(la[ca] == a[ca]@);
        assert(la.contains(la[ca]));
        assert(la.to_multiset().count(la[ca]) > 0);
        assert(lb.to_multiset().count(la[ca]) > 0);
        assert(lb.contains(la[ca]));
        let k = choose|k: int| 0 <= k < lb.len() && lb[k] == la[ca];
        assert(lb[k] == b[k]@);
        assert(b[k]@.contains(c as usize));
        assert(k == cb);
        assert(b[cb]@ == a[ca]@);
        // `q` is in the partition of `c` exactly when it is that list.
        assert((part_of(a, c) == part_of(a, q)) == a[ca]@.contains(q as usize));
        assert((part_of(b, c) == part_of(b, q)) == b[cb]@.contains(q as usize));
    }
}

/// A verdict on the blocks of a partitioning of an event history is one on
/// those of a partitioning that lists the same blocks in another order.
proof fn lemma_event_verdict_same_blocks<M: Model>(
    model: M,
    evs: Seq<Event<M::Input, M::Output>>,
    p1: Option<Vec<Vec<usize>>>,
    p2: Option<Vec<Vec<usize>>>,
    r: CheckResult,
)
    requires
        evs.len() <= usize::MAX,
        same_blocks(p1, p2),
        event_verdict(model, event_blocks(evs, p1), r),
    ensures
        event_verdict(model, event_blocks(evs, p2), r),
{
    broadcast use vstd::seq_lib::group_to_multiset_ensures;

    if p1 is Some {
        let a = p1->0;
        let b = p2->0;
        let n = evs.len() as usize;
        lemma_valid_permuted(a@, b@, n);
        assert(scan_ok(a@, evs.len()) == scan_ok(b@, evs.len()));
        if scan_ok(a@, evs.len()) {
            assert forall|u: int| 0 <= u < evs.len() implies #[trigger] split_at(a@, evs, u) == split_at(b@, evs, u) by {
                lemma_split_permuted(a@, b@, evs, u);
            }
            if exists|q: int| first_split(a@, evs, q) {
                let q = choose|q: int| first_split(a@, evs, q);
                assert(split_at(a@, evs, q) == split_at(b@, evs, q));
                assert forall|u: int| 0 <= u < q implies !#[trigger] split_at(b@, evs, u) by {
                    assert(split_at(a@, evs, u) == split_at(b@, evs, u));
                }
                assert(first_split(b@, evs, q));
            }
            if exists|q: int| first_split(b@, evs, q) {
                let q = choose|q: int| first_split(b@, evs, q);
                assert(split_at(a@, evs, q) == split_at(b@, evs, q));
                assert forall|u: int| 0 <= u < q implies !#[trigger] split_at(a@, evs, u) by {
                    assert(split_at(a@, evs, u) == split_at(b@, evs, u));
                }
                assert(first_split(a@, evs, q));
            }
        }
        assert(valid_event_partition(a@, evs) == valid_event_partition(b@, evs));
        if valid_event_partition(a@, evs) {
            let la = index_lists(a@);
            let lb = index_lists(b@);
            let bs1 = event_blocks(evs, p1);
            let bs2 = event_blocks(evs, p2);
            assert(bs1.len() == la.len() && bs2.len() == lb.len());
            if r == CheckResult::Legal {
                assert forall|j: int| 0 <= j < bs2.len() implies block_linearizable(model, #[trigger] bs2[j]) by {
                    assert(lb.contains(lb[j]));
                    assert(lb.to_multiset().count(lb[j]) > 0);
                    assert(la.to_multiset().count(lb[j]) > 0);
                    assert(la.contains(lb[j]));
                    let i = choose|i: int| 0 <= i < la.len() && la[i] == lb[j];
                    assert(bs1[i] == bs2[j]);
                    assert(block_linearizable(model, bs1[i]));
                }
            }
            if r == CheckResult::Illegal {
                let i = choose|i: int| 0 <= i < bs1.len() && !block_linearizable(model, #[trigger] bs1[i]);
                assert(la.contains(la[i]));
                assert(la.to_multiset().count(la[i]) > 0);
                assert(lb.to_multiset().count(la[i]) > 0);
                assert(lb.contains(la[i]));
                let j = choose|j: int| 0 <= j < lb.len() && lb[j] == la[i];
                assert(bs1[i] == bs2[j]);
            }
        } else {
            assert(event_blocks(evs, p1) =~= event_blocks(evs, p2));
        }
    }
}

/// Determinism: where the model gives a history one partitioning, two checks
/// of the operation history that decide give the same result. In particular
/// the same history checked twice without a timeout gets the same result.
pub proof fn lemma_check_operations_deterministic<M: Model>(
    model: M,
    history: &[Operation<M::Input, M::Output>],
    r1: CheckResult,
    r2: CheckResult,
)
    requires
        ops_partition_determined(model, history),
        ops_outcome(model, history, r1),
        ops_outcome(model, history, r2),
        r1 != CheckResult::Unknown,
        r2 != CheckResult::Unknown,
    ensures
        r1 == r2,
{
    let p1 = choose|p: Option<Vec<Vec<usize>>>|
        #[trigger] call_ensures(M::partition, (&model, history), p) && verdict(model, ops_block_histories(history@, p), r1);
    let p2 = choose|p: Option<Vec<Vec<usize>>>|
        #[trigger] call_ensures(M::partition, (&model, history), p) && verdict(model, ops_block_histories(history@, p), r2);
    lemma_verdict_same_blocks(model, history@, p1, p2, r1);
    lemma_verdict_unique(model, ops_block_histories(history@, p2), r1, r2);
}

/// A bounded check of an operation history gives the result of the unbounded
/// check, or `Unknown`, where the model gives the history one partitioning.
pub proof fn lemma_check_operations_bounded<M: Model>(
    model: M,
    history: &[Operation<M::Input, M::Output>],
    unbounded: CheckResult,
    bounded: CheckResult,
)
    requires
        ops_partition_determined(model, history),
        ops_outcome(model, history, unbounded),
        ops_outcome(model, history, bounded),
        unbounded != CheckResult::Unknown,
    ensures
        bounded == unbounded || bounded == CheckResult::Unknown,
{
    if bounded != CheckResult::Unknown {
        lemma_check_operations_deterministic(model, history, unbounded, bounded);
    }
}

/// Determinism for event histories: where the model gives a history one
/// partitioning, two checks of it that decide give the same result.
pub proof fn lemma_check_events_deterministic<M: Model>(
    model: M,
    history: &[Event<M::Input, M::Output>],
    r1: CheckResult,
    r2: CheckResult,
)
    requires
        history@.len() <= usize::MAX,
        events_partition_determined(model, history),
        events_outcome(model, history, r1),
        events_outcome(model, history, r2),
        r1 != CheckResult::Unknown,
        r2 != CheckResult::Unknown,
    ensures
        r1 == r2,
{
    let p1 = choose|p: Option<Vec<Vec<usize>>>|
        #[trigger] call_ensures(M::partition_events, (&model, history), p) && event_verdict(model, event_blocks(history@, p), r1);
    let p2 = choose|p: Option<Vec<Vec<usize>>>|
        #[trigger] call_ensures(M::partition_events, (&model, history), p) && event_verdict(model, event_blocks(history@, p), r2);
    lemma_event_verdict_same_blocks(model, history@, p1, p2, r1);
    lemma_event_verdict_unique(model, event_blocks(history@, p2), r1, r2);
}

/// A bounded check of an event history gives the result of the unbounded
/// check, or `Unknown`, where the model gives the history one partitioning.
pub proof fn lemma_check_events_bounded<M: Model>(
    model: M,
    history: &[Event<M::Input, M::Output>],
    unbounded: CheckResult,
    bounded: CheckResult,
)
    requires
        history@.len() <= usize::MAX,
        events_partition_determined(model, history),
        events_outcome(model, history, unbounded),
        events_outcome(model, history, bounded),
        unbounded != CheckResult::Unknown,
    ensures
        bounded == unbounded || bounded == CheckResult::Unknown,
{
    if bounded != CheckResult::Unknown {
        lemma_check_events_deterministic(model, history, unbounded, bounded);
    }
}

/// Where the model does not partition the history, a check of the operation
/// history that decides answers `Legal` exactly when the history is
/// linearizable.
pub proof fn lemma_check_operations_unpartitioned<M: Model>(
    model: M,
    history: &[Operation<M::Input, M::Output>],
    r: CheckResult,
)
    requires
        history@.len() <= usize::MAX,
        forall|p: Option<Vec<Vec<usize>>>| #[trigger] call_ensures(M::partition, (&model, history), p) ==> p is None,
        ops_outcome(model, history, r),
        r != CheckResult::Unknown,
    ensures
        r == CheckResult::Legal <==> linearizable(model, ops_history(history@)),
{
    let p = choose|p: Option<Vec<Vec<usize>>>|
        #[trigger] call_ensures(M::partition, (&model, history), p) && verdict(model, ops_block_histories(history@, p), r);
    assert(p is None);
    lemma_whole_block(ops_history(history@));
    assert(ops_block_histories(history@, p) =~= seq![ops_history(history@)]);
    let hs = ops_block_histories(history@, p);
    if r == CheckResult::Legal {
        assert(linearizable(model, hs[0]));
    } else {
        let b = choose|b: int| 0 <= b < hs.len() && !linearizable(model, #[trigger] hs[b]);
        assert(b == 0);
    }
}

/// Compositionality: where the model gives an operation history a valid
/// partitioning, a check that decides answers `Legal` exactly when every
/// partition, taken alone, is linearizable.
pub proof fn lemma_check_operations_compositional<M: Model>(
    model: M,
    history: &[Operation<M::Input, M::Output>],
    ps: Vec<Vec<usize>>,
    r: CheckResult,
)
    requires
        call_ensures(M::partition, (&model, history), Some(ps)),
        valid_partition(ps@, history@.len() as usize),
        ops_partition_determined(model, history),
        ops_outcome(model, history, r),
        r != CheckResult::Unknown,
    ensures
        r == CheckResult::Legal <==> forall|b: int|
            0 <= b < ps@.len() ==> linearizable(model, sub_history(ops_history(history@), #[trigger] ps@[b]@)),
{
    let p = choose|p: Option<Vec<Vec<usize>>>|
        #[trigger] call_ensures(M::partition, (&model, history), p) && verdict(model, ops_block_histories(history@, p), r);
    lemma_verdict_same_blocks(model, history@, p, Some(ps), r);
    let hs = ops_block_histories(history@, Some(ps));
    assert(hs.len() == ps@.len());
    assert(forall|b: int| 0 <= b < ps@.len() ==> #[trigger] hs[b] == sub_history(ops_history(history@), ps@[b]@));
    if r == CheckResult::Legal {
        assert forall|b: int| 0 <= b < ps@.len() implies linearizable(model, sub_history(ops_history(history@), #[trigger] ps@[b]@)) by {
            assert(linearizable(model, hs[b]));
        }
    } else {
        let b = choose|b: int| 0 <= b < hs.len() && !linearizable(model, #[trigger] hs[b]);
        assert(!linearizable(model, sub_history(ops_history(history@), ps@[b]@)));
    }
}

/// Where the model does not partition the history, a check of the event
/// history that decides answers `Legal` exactly when the history is
/// linearizable.
pub proof fn lemma_check_events_unpartitioned<M: Model>(
    model: M,
    history: &[Event<M::Input, M::Output>],
    r: CheckResult,
)
    requires
        events_well_formed(history@),
        forall|p: Option<Vec<Vec<usize>>>| #[trigger] call_ensures(M::partition_events, (&model, history), p) ==> p is None,
        events_outcome(model, history, r),
        r != CheckResult::Unknown,
    ensures
        r == CheckResult::Legal <==> linearizable(model, events_history(history@)),
{
    let p = choose|p: Option<Vec<Vec<usize>>>|
        #[trigger] call_ensures(M::partition_events, (&model, history), p) && event_verdict(model, event_blocks(history@, p), r);
    assert(p is None);
    let bs = event_blocks(history@, p);
    assert(bs == seq![history@]);
    if r == CheckResult::Legal {
        assert(block_linearizable(model, bs[0]));
    } else {
        let b = choose|b: int| 0 <= b < bs.len() && !block_linearizable(model, #[trigger] bs[b]);
        assert(b == 0);
    }
}

/// Compositionality for event histories: where the model gives an event
/// history a valid partitioning, a check that decides answers `Legal` exactly
/// when every partition, taken alone, lists each call before its return and
/// is linearizable.
pub proof fn lemma_check_events_compositional<M: Model>(
    model: M,
    history: &[Event<M::Input, M::Output>],
    ps: Vec<Vec<usize>>,
    r: CheckResult,
)
    requires
        call_ensures(M::partition_events, (&model, history), Some(ps)),
        history@.len() <= usize::MAX,
        valid_event_partition(ps@, history@),
        events_partition_determined(model, history),
        events_outcome(model, history, r),
        r != CheckResult::Unknown,
    ensures
        r == CheckResult::Legal <==> forall|b: int|
            0 <= b < ps@.len() ==> block_linearizable(model, sub_events(history@, #[trigger] ps@[b]@)),
{
    let p = choose|p: Option<Vec<Vec<usize>>>|
        #[trigger] call_ensures(M::partition_events, (&model, history), p) && event_verdict(model, event_blocks(history@, p), r);
    lemma_event_verdict_same_blocks(model, history@, p, Some(ps), r);
    let bs = event_blocks(history@, Some(ps));
    assert(bs.len() == ps@.len());
    assert(forall|b: int| 0 <= b < ps@.len() ==> #[trigger] bs[b] == sub_events(history@, ps@[b]@));
    if r == CheckResult::Legal {
        assert forall|b: int| 0 <= b < ps@.len() implies block_linearizable(model, sub_events(history@, #[trigger] ps@[b]@)) by {
            assert(block_linearizable(model, bs[b]));
        }
    } else {
        let b = choose|b: int| 0 <= b < bs.len() && !block_linearizable(model, #[trigger] bs[b]);
        assert(!block_linearizable(model, sub_events(history@, ps@[b]@)));
    }
}

/// Renaming ids injectively gives the same blocks, renamed, and each renamed
/// block has a linearization exactly when the original one does.
proof fn lemma_event_blocks_relabel<M: Model>(
    model: M,
    a: Seq<Event<M::Input, M::Output>>,
    b: Seq<Event<M::Input, M::Output>>,
    f: spec_fn(u64) -> u64,
    parts: Option<Vec<Vec<usize>>>,
)
    requires
        events_well_formed(a),
        relabeled(a, b, f),
        injective_on_ids(a, f),
    ensures
        event_blocks(a, parts).len() == event_blocks(b, parts).len(),
        forall|k: int|
            0 <= k < event_blocks(a, parts).len() ==> block_linearizable(model, #[trigger] event_blocks(a, parts)[k])
                == block_linearizable(model, event_blocks(b, parts)[k]),
{
    lemma_events_history_relabel(a, b, f);
    if parts is Some {
        let ps = parts->0;
        assert forall|u: int| 0 <= u < a.len() implies #[trigger] split_at(ps@, b, u) == split_at(ps@, a, u) by {
            lemma_relabel_last_call(a, b, f, u, u);
        }
        if exists|q: int| first_split(ps@, a, q) {
            let q = choose|q: int| first_split(ps@, a, q);
            assert(split_at(ps@, b, q) == split_at(ps@, a, q));
            assert forall|u: int| 0 <= u < q implies !#[trigger] split_at(ps@, b, u) by {
                assert(split_at(ps@, b, u) == split_at(ps@, a, u));
            }
            assert(first_split(ps@, b, q));
        }
        if exists|q: int| first_split(ps@, b, q) {
            let q = choose|q: int| first_split(ps@, b, q);
            assert(split_at(ps@, b, q) == split_at(ps@, a, q));
            assert forall|u: int| 0 <= u < q implies !#[trigger] split_at(ps@, a, u) by {
                assert(split_at(ps@, b, u) == split_at(ps@, a, u));
            }
            assert(first_split(ps@, a, q));
        }
        assert(valid_event_partition(ps@, a) == valid_event_partition(ps@, b));
        if valid_event_partition(ps@, a) {
            assert forall|k: int| 0 <= k < ps@.len() implies block_linearizable(model, #[trigger] event_blocks(a, parts)[k])
                == block_linearizable(model, event_blocks(b, parts)[k]) by {
                lemma_scan_ok_blocks(ps@, a.len(), k);
                let sa = sub_events(a, ps@[k]@);
                let sb = sub_events(b, ps@[k]@);
                assert(relabeled(sa, sb, f));
                assert(injective_on_ids(sa, f)) by {
                    assert forall|p: int, q: int| 0 <= p < sa.len() && 0 <= q < sa.len() && #[trigger] f(sa[p].id) == #[trigger] f(sa[q].id)
                        implies sa[p].id == sa[q].id by {
                        assert(sa[p] == a[ps@[k]@[p] as int] && sa[q] == a[ps@[k]@[q] as int]);
                    }
                }
                lemma_relabel_well_formed(sa, sb, f);
                if events_well_formed(sa) {
                    lemma_events_history_relabel(sa, sb, f);
                }
            }
        }
    }
}

/// Operation ids are labels only: where the model gives two event histories
/// that differ by an injective renaming of ids the same blocks (in any order),
/// checks of the two that decide give the same result.
pub proof fn lemma_check_events_relabel<M: Model>(
    model: M,
    h1: &[Event<M::Input, M::Output>],
    h2: &[Event<M::Input, M::Output>],
    f: spec_fn(u64) -> u64,
    r1: CheckResult,
    r2: CheckResult,
)
    requires
        events_well_formed(h1@),
        h2@.len() <= usize::MAX,
        relabeled(h1@, h2@, f),
        injective_on_ids(h1@, f),
        forall|p1: Option<Vec<Vec<usize>>>, p2: Option<Vec<Vec<usize>>>|
            #![trigger call_ensures(M::partition_events, (&model, h1), p1), call_ensures(M::partition_events, (&model, h2), p2)]
            call_ensures(M::partition_events, (&model, h1), p1) && call_ensures(M::partition_events, (&model, h2), p2)
                ==> same_blocks(p1, p2),
        events_outcome(model, h1, r1),
        events_outcome(model, h2, r2),
        r1 != CheckResult::Unknown,
        r2 != CheckResult::Unknown,
    ensures
        r1 == r2,
{
    let p1 = choose|p: Option<Vec<Vec<usize>>>|
        #[trigger] call_ensures(M::partition_events, (&model, h1), p) && event_verdict(model, event_blocks(h1@, p), r1);
    let p2 = choose|p: Option<Vec<Vec<usize>>>|
        #[trigger] call_ensures(M::partition_events, (&model, h2), p) && event_verdict(model, event_blocks(h2@, p), r2);
    assert(same_blocks(p2, p1));
    lemma_event_verdict_same_blocks(model, h2@, p2, p1, r2);
    lemma_event_blocks_relabel(model, h1@, h2@, f, p1);
    let bs1 = event_blocks(h1@, p1);
    let bs2 = event_blocks(h2@, p1);
    assert(event_verdict(model, bs1, r2)) by {
        if r2 == CheckResult::Legal {
            assert forall|k: int| 0 <= k < bs1.len() implies block_linearizable(model, #[trigger] bs1[k]) by {
                assert(block_linearizable(model, bs2[k]));
            }
        }
        if r2 == CheckResult::Illegal {
            let k = choose|k: int| 0 <= k < bs2.len() && !block_linearizable(model, #[trigger] bs2[k]);
            assert(!block_linearizable(model, bs1[k]));
        }
    }
    lemma_event_verdict_unique(model, bs1, r1, r2);
}

/// Events listed in time order from operations give the same result as the
/// operations: where the model partitions neither, checks of the two that
/// decide agree.
pub proof fn lemma_events_agree_with_operations<M: Model>(
    model: M,
    ops: &[Operation<M::Input, M::Output>],
    evs: &[Event<M::Input, M::Output>],
    r_ops: CheckResult,
    r_evs: CheckResult,
)
    requires
        ops@.len() <= usize::MAX,
        ops_well_formed(ops@),
        events_of_ops(ops@, evs@),
        forall|p: Option<Vec<Vec<usize>>>| #[trigger] call_ensures(M::partition, (&model, ops), p) ==> p is None,
        forall|p: Option<Vec<Vec<usize>>>| #[trigger] call_ensures(M::partition_events, (&model, evs), p) ==> p is None,
        ops_outcome(model, ops, r_ops),
        events_outcome(model, evs, r_evs),
        r_ops != CheckResult::Unknown,
        r_evs != CheckResult::Unknown,
    ensures
        r_ops == r_evs,
{
    lemma_events_of_ops(ops@, evs@);
    lemma_check_operations_unpartitioned(model, ops, r_ops);
    lemma_check_events_unpartitioned(model, evs, r_evs);
    lemma_linearizable_renumbered(
        model,
        events_history(evs@),
        ops_history(ops@),
        crate::model::first_occurrences(crate::events::event_ids(evs@)).map_values(|x: u64| x as int),
    );
}

/// Power-set reduction, end to end: where a nondeterministic model computes
/// its spec functions, its clones are copies, `==` on its states is equality
/// and it does not partition the history, a check of an operation history
/// against its power-set model that decides answers `Legal` only when the
/// nondeterministic model has a linearization of the history, and `Illegal`
/// only when it has none, where every power-state built along an ordering can
/// be held in a vector.
pub proof fn lemma_power_set_check<M: NondeterministicModel>(
    m: M,
    history: &[Operation<M::Input, M::Output>],
    r: CheckResult,
)
    requires
        M::obeys_nd_model_spec(),
        clone_copies::<M::State>(),
        clone_copies::<M::Input>(),
        clone_copies::<M::Output>(),
        eq_is_identity::<M::State>(),
        history@.len() <= usize::MAX,
        has_vec(first_occurrences(m.init_spec())),
        forall|p: Option<Vec<Vec<usize>>>| #[trigger] call_ensures(M::partition, (&m, history), p) ==> p is None,
        faithful::<PowerSetModel<M>>() ==> ops_outcome(PowerSetModel(m), history, r),
        r != CheckResult::Unknown,
    ensures
        r == CheckResult::Legal ==> nd_linearizable(m, ops_history(history@)),
        (forall|order: Seq<int>| #[trigger] ps_representable(m, first_occurrences(m.init_spec()), ops_history(history@), order))
            ==> (r == CheckResult::Illegal ==> !nd_linearizable(m, ops_history(history@))),
{
    lemma_power_set_faithful::<M>();
    let psm = PowerSetModel(m);
    assert forall|p: Option<Vec<Vec<usize>>>| #[trigger] call_ensures(PowerSetModel::<M>::partition, (&psm, history), p) implies p is None by {
        assert(call_ensures(M::partition, (&m, history), p));
    }
    lemma_check_operations_unpartitioned(psm, history, r);
    lemma_power_set_linearizable(m, ops_history(history@));
}

/// A check of partitions whose clock never found the deadline passed decides
/// as a check without a deadline does: it did not time out, it either
/// linearized every partition or proved one not linearizable, and where the
/// model is faithful it linearized them exactly when every partition is
/// linearizable.
pub proof fn lemma_flags_decide_unless_timed_out<M: Model>(
    model: M,
    parts: Seq<Vec<Entry<M::Input, M::Output>>>,
    deadline: Option<Instant>,
    r: (bool, bool, bool),
    log: Seq<ClockEvent>,
    from: int,
)
    requires
        logged_flags(model, parts, deadline, r, log, from),
        !seen_passed(log, from, deadline),
    ensures
        !r.1,
        r.0 != r.2,
        faithful::<M>() ==> (r.0 <==> forall|i: int|
            0 <= i < parts.len() ==> linearizable(model, entries_history(#[trigger] parts[i]@))),
{
    if faithful::<M>() && !r.0 {
        let i = choose|i: int| 0 <= i < parts.len() && !linearizable(model, entries_history(#[trigger] parts[i]@));
    }
}

/// A bounded check of an operation history whose clock never found a
/// deadline made from its timeout passed gives the result of the check without
/// a timeout, with the same partitioning.
pub proof fn lemma_check_operations_bounded_decides<M: Model>(
    model: M,
    history: Seq<Operation<M::Input, M::Output>>,
    parts: Option<Vec<Vec<usize>>>,
    timeout: Option<Duration>,
    bounded: CheckResult,
    log: Seq<ClockEvent>,
    from: int,
    unbounded: CheckResult,
)
    requires
        faithful::<M>(),
        bounded == CheckResult::Unknown ==> timeout_elapsed(log, from, timeout),
        verdict(model, ops_block_histories(history, parts), bounded),
        unbounded != CheckResult::Unknown,
        verdict(model, ops_block_histories(history, parts), unbounded),
        !timeout_elapsed(log, from, timeout),
    ensures
        bounded == unbounded,
{
    lemma_verdict_unique(model, ops_block_histories(history, parts), bounded, unbounded);
}

/// A bounded check of an event history whose clock never found a deadline
/// made from its timeout passed gives the result of the check without a
/// timeout, with the same partitioning: a history with a block that has no
/// linearization is `Illegal`.
pub proof fn lemma_check_events_bounded_decides<M: Model>(
    model: M,
    history: Seq<Event<M::Input, M::Output>>,
    parts: Option<Vec<Vec<usize>>>,
    timeout: Option<Duration>,
    bounded: CheckResult,
    log: Seq<ClockEvent>,
    from: int,
    unbounded: CheckResult,
)
    requires
        faithful::<M>(),
        bounded == CheckResult::Unknown ==> timeout_elapsed(log, from, timeout),
        event_verdict(model, event_blocks(history, parts), bounded),
        unbounded != CheckResult::Unknown,
        event_verdict(model, event_blocks(history, parts), unbounded),
        !timeout_elapsed(log, from, timeout),
    ensures
        bounded == unbounded,
        (exists|b: int|
            0 <= b < event_blocks(history, parts).len() && !block_linearizable(model, #[trigger] event_blocks(history, parts)[b]))
            ==> bounded == CheckResult::Illegal,
{
    lemma_event_verdict_unique(model, event_blocks(history, parts), bounded, unbounded);
    if exists|b: int|
        0 <= b < event_blocks(history, parts).len() && !block_linearizable(model, #[trigger] event_blocks(history, parts)[b]) {
        let b = choose|b: int|
            0 <= b < event_blocks(history, parts).len() && !block_linearizable(model, #[trigger] event_blocks(history, parts)[b]);
        if bounded == CheckResult::Legal {
            assert(block_linearizable(model, event_blocks(history, parts)[b]));
        }
    }
}

/// A partitioning into one block that lists every index in order is the same
/// check as no partitioning: the whole history.
pub proof fn lemma_single_block_is_whole<I, O>(ops: Seq<Operation<I, O>>, ps: Vec<Vec<usize>>)
    requires
        ops.len() <= usize::MAX,
        ps@.len() == 1,
        ps@[0]@ == whole_block(ops.len()),
    ensures
        ops_block_histories(ops, Some(ps)) == ops_block_histories(ops, None),
        ops_block_histories(ops, None) == seq![ops_history(ops)],
{
    let n = ops.len() as usize;
    let f = crate::invariants::flatten(ps@);
    assert(ps@.drop_last() =~= Seq::<Vec<usize>>::empty());
    assert(crate::invariants::flatten(ps@.drop_last()) == Seq::<usize>::empty());
    assert(f == crate::invariants::flatten(ps@.drop_last()) + ps@.last()@);
    assert(f =~= whole_block(ops.len()));
    assert forall|t: int| 0 <= t < f.len() implies !#[trigger] crate::invariants::bad_at(f, n as nat, t) by {
        if f.take(t).contains(f[t]) {
            let u = choose|u: int| 0 <= u < f.take(t).len() && f.take(t)[u] == f[t];
            assert(f[u] == u);
        }
    }
    assert(valid_partition(ps@, n));
    assert(chosen_blocks(Some(ps), n) =~= chosen_blocks(None, n));
    lemma_whole_block(ops_history(ops));
    assert(ops_block_histories(ops, None) =~= seq![ops_history(ops)]);
}

} // verus!
