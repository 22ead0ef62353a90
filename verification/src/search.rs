//! The depth-first search with backtracking and a cache of explored
//! (linearized set, state) pairs that decides linearizability of one entry list.
use crate::arena::{lemma_next_facts, linked_within, NodeArena, NodeRef};
use crate::bitset::{has_bit, words_for, Bitset};
use crate::clock::{deadline_reached, log_extends, seen_passed, ClockEvent, ClockLog};
use crate::entries::{
    call_pos, entries_history, entries_well_formed, input_of, lemma_entry_is_endpoint,
    lemma_entry_positions, n_ops, output_of, ret_pos, Entry, EntryValue,
};
use crate::fxmap::{fx_get, fx_insert, fx_new, fx_remove};
use crate::history::{
    all_done, eligible, extendable, lemma_extendable_all_done, lemma_extendable_step,
    lemma_extendable_same_state, lemma_extendable_unfold, lemma_linearizable_iff_extendable, linearizable,
    precedes, AbsOp,
};
use crate::model::{faithful, same_state_respected, Model};
use rustc_hash::FxHashMap;
use std::time::Instant;
use vstd::prelude::*;
use vstd::std_specs::cmp::PartialEqSpec;

verus! {

/// How a search over one entry list ended.
#[derive(Debug, Clone, Copy, PartialEq, Eq, Structural)]
pub enum SearchOutcome {
    /// Every operation was linearized.
    Linearizable,
    /// The search was exhausted: no linearization exists.
    Illegal,
    /// The deadline passed before the search finished.
    TimedOut,
}

/// A cached (linearized set, state) pair whose subtree has been entered.
/// The pairs that share a hash are kept in a `Vec`, whose contents are its
/// view: they hold the model's state, of any type.
pub struct CacheEntry<S> {
    pub linearized: Bitset,
    pub state: S,
}

/// A backtracking frame: the call node that was linearized and the model state
/// before that step.
pub struct CallFrame<S> {
    pub node_ref: NodeRef,
    pub state: S,
}

/// Whether the bucket `hash` of `cache` holds an entry with the words of
/// `bitset` and a state `==` to `state`.
pub fn cache_contains<S: PartialEq>(
    cache: &FxHashMap<u64, Vec<CacheEntry<S>>>,
    hash: u64,
    bitset: &Bitset,
    state: &S,
) -> (r: bool)
    ensures
        r ==> cache@.contains_key(hash),
        S::obeys_eq_spec() ==> (r <==> (cache@.contains_key(hash) && exists|i: int|
            0 <= i < cache@[hash]@.len() && (#[trigger] cache@[hash]@[i]).linearized@ == bitset@
                && cache@[hash]@[i].state.eq_spec(state))),
{
    match fx_get(cache, &hash) {
        Some(entries) => {
            let mut i: usize = 0;
            while i < entries.len()
                invariant
                    cache@.contains_key(hash),
                    *entries == cache@[hash],
                    i <= entries@.len(),
                    S::obeys_eq_spec() ==> forall|j: int|
                        0 <= j < i ==> !((#[trigger] entries@[j]).linearized@ == bitset@
                            && entries@[j].state.eq_spec(state)),
                decreases entries@.len() - i,
            {
                let e = &entries[i];
                if e.linearized == *bitset && e.state == *state {
                    return true;
                }
                i = i + 1;
            }
            false
        },
        None => false,
    }
}

// ---------------------------------------------------------------------------
// Termination measure: positions of the cursors of every level, read as a
// number with one digit per level; every step of the search increases it.
// ---------------------------------------------------------------------------

/// `b` to the power `e`.
pub open spec fn pw(b: nat, e: nat) -> nat
    decreases e,
{
    if e == 0 {
        1
    } else {
        b * pw(b, (e - 1) as nat)
    }
}

/// The cursor positions `p` (one per level, at most `d + 1` levels) read as
/// digits in base `b`, the first level most significant.
pub open spec fn rank(p: Seq<int>, b: nat, d: nat) -> int
    decreases p.len(),
{
    if p.len() == 0 {
        0
    } else {
        rank(p.drop_last(), b, d) + (p.last() + 1) * pw(b, (d - (p.len() - 1)) as nat)
    }
}

proof fn lemma_pw_positive(b: nat, e: nat)
    requires
        b >= 1,
    ensures
        pw(b, e) >= 1,
    decreases e,
{
    if e > 0 {
        lemma_pw_positive(b, (e - 1) as nat);
        assert(b * pw(b, (e - 1) as nat) >= 1) by (nonlinear_arith)
            requires
                b >= 1,
                pw(b, (e - 1) as nat) >= 1,
        ;
    }
}

/// Advancing the cursor of the deepest level increases the rank.
proof fn lemma_rank_advance(p: Seq<int>, v: int, b: nat, d: nat)
    requires
        p.len() >= 1,
        p.len() <= d + 1,
        b >= 1,
        v > p.last(),
    ensures
        rank(p.drop_last().push(v), b, d) > rank(p, b, d),
{
    let q = p.drop_last();
    let p2 = q.push(v);
    assert(p2.drop_last() =~= q);
    let w = pw(b, (d - (p.len() - 1)) as nat);
    lemma_pw_positive(b, (d - (p.len() - 1)) as nat);
    assert((v + 1) * w > (p.last() + 1) * w) by (nonlinear_arith)
        requires
            w >= 1,
            v > p.last(),
    ;
}

/// Opening a deeper level increases the rank.
proof fn lemma_rank_push(p: Seq<int>, x: int, b: nat, d: nat)
    requires
        p.len() + 1 <= d + 1,
        b >= 1,
        x >= 0,
    ensures
        rank(p.push(x), b, d) > rank(p, b, d),
{
    let p2 = p.push(x);
    assert(p2.drop_last() =~= p);
    let w = pw(b, (d - p.len()) as nat);
    lemma_pw_positive(b, (d - p.len()) as nat);
    assert((x + 1) * w > 0) by (nonlinear_arith)
        requires
            w >= 1,
            x >= 0,
    ;
}

/// Closing the deepest level and advancing the one above increases the rank.
proof fn lemma_rank_backtrack(q: Seq<int>, u: int, v: int, w: int, b: nat, d: nat)
    requires
        q.len() + 2 <= d + 1,
        b >= 1,
        w > u,
        0 <= v,
        v + 1 < b,
    ensures
        rank(q.push(w), b, d) > rank(q.push(u).push(v), b, d),
{
    let p = q.push(u).push(v);
    assert(p.drop_last() =~= q.push(u));
    assert(q.push(u).drop_last() =~= q);
    assert(q.push(w).drop_last() =~= q);
    let e = (d - q.len()) as nat;
    let e1 = (e - 1) as nat;
    let x = pw(b, e1);
    assert(pw(b, e) == b * x);
    assert(rank(p, b, d) == rank(q.push(u), b, d) + (v + 1) * x);
    assert(rank(q.push(u), b, d) == rank(q, b, d) + (u + 1) * (b * x));
    assert(rank(q.push(w), b, d) == rank(q, b, d) + (w + 1) * (b * x));
    lemma_pw_positive(b, e1);
    assert((w + 1) * (b * x) > (u + 1) * (b * x) + (v + 1) * x) by (nonlinear_arith)
        requires
            x >= 1,
            w > u,
            v + 1 < b,
            0 <= v,
    ;
}

/// With every digit below `b - 1`, the rank stays below `b` to the `d + 1`.
proof fn lemma_rank_bound(p: Seq<int>, b: nat, d: nat)
    requires
        p.len() <= d + 1,
        b >= 1,
        forall|j: int| 0 <= j < p.len() ==> 0 <= #[trigger] p[j] && p[j] + 2 <= b,
    ensures
        rank(p, b, d) + pw(b, (d + 1 - p.len()) as nat) <= pw(b, d + 1),
        rank(p, b, d) < pw(b, d + 1),
    decreases p.len(),
{
    if p.len() > 0 {
        let q = p.drop_last();
        lemma_rank_bound(q, b, d);
        let e = (d - q.len()) as nat;
        let x = pw(b, e);
        assert(pw(b, (e + 1) as nat) == b * x);
        assert((p.last() + 1) * x + x <= b * x) by (nonlinear_arith)
            requires
                p.last() + 2 <= b,
                x >= 0,
        ;
    }
    lemma_pw_positive(b, (d + 1 - p.len()) as nat);
}

// ---------------------------------------------------------------------------
// The search's invariant
// ---------------------------------------------------------------------------

/// The set of positions whose bit is one.
pub open spec fn bits_of(ws: Seq<u64>) -> Set<int> {
    Set::new(|k: int| has_bit(ws, k))
}

/// Placing operation `b` next after `done`, in state `s`, has been ruled out:
/// the model rejects it or the resulting state cannot be completed.
pub open spec fn tried<M: Model>(
    model: M,
    h: Seq<AbsOp<M::Input, M::Output>>,
    done: Set<int>,
    s: M::State,
    b: int,
) -> bool {
    match model.step_spec(s, h[b].input, h[b].output) {
        None => true,
        Some(t) => !extendable(model, h, done.insert(b), t),
    }
}

/// The model state at level `j` of the search: before the `j`-th frame's step,
/// or the current state at the deepest level.
pub open spec fn path_state<S>(calls: Seq<CallFrame<S>>, state: S, j: int) -> S {
    if j < calls.len() {
        calls[j].state
    } else {
        state
    }
}

/// Operation id of node `y` (node `y` holds entry `y - 1`).
pub open spec fn op_at<I, O>(es: Seq<Entry<I, O>>, y: int) -> int {
    es[y - 1].id as int
}

/// The live nodes once the operations `done` are linearized.
pub open spec fn live_nodes<I, O>(es: Seq<Entry<I, O>>, done: Set<int>) -> Set<int> {
    Set::new(|y: int| y == 0 || (1 <= y <= es.len() && !done.contains(op_at(es, y))))
}

/// Every live node before position `cur` is a call node.
pub open spec fn calls_before<I, O>(es: Seq<Entry<I, O>>, done: Set<int>, cur: int) -> bool {
    forall|y: int|
        1 <= y < cur && #[trigger] live_nodes(es, done).contains(y) ==> es[y - 1].value is Call
}

/// The operation of every live node before position `cur` has been tried.
pub open spec fn tried_before<M: Model>(
    model: M,
    es: Seq<Entry<M::Input, M::Output>>,
    done: Set<int>,
    s: M::State,
    cur: int,
) -> bool {
    forall|y: int|
        1 <= y < cur && #[trigger] live_nodes(es, done).contains(y) ==> tried(
            model,
            entries_history(es),
            done,
            s,
            op_at(es, y),
        )
}

/// The path of the search: level `j` has linearized `sets[j]`; the frame at
/// level `j` placed the operation of node `chosen[j]`, which was eligible and
/// accepted by the model, moving to the state of level `j + 1`. Level 0 is
/// empty and holds the initial state.
pub open spec fn path_ok<M: Model>(
    model: M,
    es: Seq<Entry<M::Input, M::Output>>,
    chosen: Seq<int>,
    sets: Seq<Set<int>>,
    calls: Seq<CallFrame<M::State>>,
    state: M::State,
) -> bool {
    let h = entries_history(es);
    &&& sets.len() == chosen.len() + 1
    &&& calls.len() == chosen.len()
    &&& sets[0] == Set::<int>::empty()
    &&& forall|j: int|
        #![trigger chosen[j]]
        0 <= j < chosen.len() ==> {
            let b = op_at(es, chosen[j]);
            &&& 1 <= chosen[j] <= es.len()
            &&& es[chosen[j] - 1].value is Call
            &&& eligible(h, sets[j], b)
            &&& sets[j + 1] == sets[j].insert(b)
            &&& calls_before(es, sets[j], chosen[j])
        }
}

/// The model accepts operation `op` from state `s`, moving to the same state as `t`.
pub open spec fn steps_to<M: Model>(model: M, s: M::State, op: AbsOp<M::Input, M::Output>, t: M::State) -> bool {
    &&& model.step_spec(s, op.input, op.output) is Some
    &&& M::same_state(model.step_spec(s, op.input, op.output)->Some_0, t)
}

/// The model's side of the path: states follow the model, and at every level
/// the nodes before the chosen one were tried.
pub open spec fn path_states_ok<M: Model>(
    model: M,
    es: Seq<Entry<M::Input, M::Output>>,
    chosen: Seq<int>,
    sets: Seq<Set<int>>,
    calls: Seq<CallFrame<M::State>>,
    state: M::State,
) -> bool {
    let h = entries_history(es);
    &&& M::same_state(path_state(calls, state, 0), model.init_spec())
    &&& forall|j: int|
        #![trigger chosen[j]]
        0 <= j < chosen.len() ==> {
            let b = op_at(es, chosen[j]);
            &&& steps_to(model, path_state(calls, state, j), h[b], path_state(calls, state, j + 1))
            &&& tried_before(model, es, sets[j], path_state(calls, state, j), chosen[j])
        }
}

/// Every cached pair either lies on the current path or cannot be completed.
pub open spec fn cache_ok<M: Model>(
    model: M,
    es: Seq<Entry<M::Input, M::Output>>,
    sets: Seq<Set<int>>,
    calls: Seq<CallFrame<M::State>>,
    state: M::State,
    cache: Map<u64, Vec<CacheEntry<M::State>>>,
) -> bool {
    forall|hk: u64, i: int|
        #![trigger cache[hk]@[i]]
        cache.contains_key(hk) && 0 <= i < cache[hk]@.len() ==> {
            let e = cache[hk]@[i];
            ||| !extendable(model, entries_history(es), bits_of(e.linearized@), e.state)
            ||| exists|j: int|
                1 <= j < sets.len() && bits_of(e.linearized@) == #[trigger] sets[j] && M::same_state(
                    e.state,
                    path_state(calls, state, j),
                )
        }
}

/// Position of the cursor: its node, or one past the last node.
pub open spec fn cursor_pos<I, O>(es: Seq<Entry<I, O>>, cursor: Option<NodeRef>) -> int {
    match cursor {
        Some(c) => c.0 as int,
        None => es.len() + 1int,
    }
}

impl<I, O> NodeArena<I, O> {
    /// The lifted nodes are distinct nodes, so there are fewer of them than nodes.
    pub proof fn lemma_lifted_len(self)
        requires
            self.wf(),
        ensures
            self.lifted@.len() < self.nodes@.len(),
    {
        let s = self.lifted@;
        assert(s.no_duplicates()) by {
            assert forall|i: int, j: int| 0 <= i < j < s.len() implies s[i] != s[j] by {
                assert(self.frame_ok(i));
                assert(self.frame_ok(j));
                if s[i] == s[j] {
                    assert(self.lifted_ops(j).contains(self.node_op(s[j])));
                }
            }
        }
        let range = vstd::set_lib::set_int_range(1, self.nodes@.len() as int);
        assert(s.to_set().subset_of(range)) by {
            assert forall|x: int| s.to_set().contains(x) implies range.contains(x) by {
                let i = choose|i: int| 0 <= i < s.len() && s[i] == x;
                assert(self.frame_ok(i));
            }
        }
        s.unique_seq_to_set();
        vstd::set_lib::lemma_int_range(1, self.nodes@.len() as int);
        vstd::set_lib::lemma_len_subset(s.to_set(), range);
    }
}

/// The path carries completability from the deepest level back to level 0.
proof fn lemma_path_back<M: Model>(
    model: M,
    es: Seq<Entry<M::Input, M::Output>>,
    chosen: Seq<int>,
    sets: Seq<Set<int>>,
    calls: Seq<CallFrame<M::State>>,
    state: M::State,
    j: int,
)
    requires
        same_state_respected::<M>(),
        path_ok(model, es, chosen, sets, calls, state),
        path_states_ok(model, es, chosen, sets, calls, state),
        0 <= j <= chosen.len(),
        extendable(model, entries_history(es), sets[chosen.len() as int], state),
    ensures
        extendable(model, entries_history(es), sets[j], path_state(calls, state, j)),
    decreases chosen.len() - j,
{
    if j < chosen.len() {
        lemma_path_back(model, es, chosen, sets, calls, state, j + 1);
        let b = op_at(es, chosen[j]);
        let h = entries_history(es);
        let s = path_state(calls, state, j);
        assert(steps_to(model, s, h[b], path_state(calls, state, j + 1)));
        let t = model.step_spec(s, h[b].input, h[b].output)->Some_0;
        lemma_extendable_same_state(model, h, sets[j + 1], t, path_state(calls, state, j + 1));
        lemma_extendable_step(model, h, sets[j], s, b, t);
    } else {
        assert(path_state(calls, state, j) == state);
    }
}

/// Facts about the abstract history of a well-formed entry list.
proof fn lemma_history_facts<I, O>(es: Seq<Entry<I, O>>, k: int)
    requires
        entries_well_formed(es),
        0 <= k < n_ops(es),
    ensures
        entries_history(es).len() == n_ops(es),
        entries_history(es)[k].call == call_pos(es, k),
        entries_history(es)[k].ret == ret_pos(es, k),
        entries_history(es)[k].input == input_of(es[call_pos(es, k)].value),
        entries_history(es)[k].output == output_of(es[ret_pos(es, k)].value),
        0 <= call_pos(es, k) < ret_pos(es, k) < es.len(),
        es[call_pos(es, k)].id == k,
        es[ret_pos(es, k)].id == k,
        es[call_pos(es, k)].value is Call,
        es[ret_pos(es, k)].value is Return,
{
    lemma_entry_positions(es, k);
}

/// When every live node is a call node, every operation is linearized.
proof fn lemma_all_linearized<I, O>(es: Seq<Entry<I, O>>, done: Set<int>)
    requires
        entries_well_formed(es),
        calls_before(es, done, es.len() + 1int),
    ensures
        all_done(entries_history(es), done),
{
    let h = entries_history(es);
    assert forall|k: int| 0 <= k < h.len() implies #[trigger] done.contains(k) by {
        lemma_history_facts(es, k);
        let rn = ret_pos(es, k) + 1;
        if !done.contains(k) {
            assert(live_nodes(es, done).contains(rn));
        }
    }
}

/// A call node reached before any live return node carries an eligible operation.
proof fn lemma_eligible_at<I, O>(es: Seq<Entry<I, O>>, done: Set<int>, idx: int)
    requires
        entries_well_formed(es),
        1 <= idx <= es.len(),
        live_nodes(es, done).contains(idx),
        es[idx - 1].value is Call,
        calls_before(es, done, idx),
    ensures
        eligible(entries_history(es), done, op_at(es, idx)),
{
    let h = entries_history(es);
    let b = op_at(es, idx);
    lemma_entry_is_endpoint(es, idx - 1);
    lemma_history_facts(es, b);
    assert forall|x: int| 0 <= x < h.len() && !done.contains(x) && x != b implies !#[trigger] precedes(
        h,
        x,
        b,
    ) by {
        lemma_history_facts(es, x);
        let rn = ret_pos(es, x) + 1;
        assert(live_nodes(es, done).contains(rn));
        if rn < idx {
            assert(es[rn - 1].value is Call);
        }
    }
}

/// Stuck at a live return node with every earlier live node tried: the
/// current partial linearization cannot be completed.
proof fn lemma_stuck<M: Model>(
    model: M,
    es: Seq<Entry<M::Input, M::Output>>,
    done: Set<int>,
    s: M::State,
    idx: int,
)
    requires
        entries_well_formed(es),
        1 <= idx <= es.len(),
        live_nodes(es, done).contains(idx),
        es[idx - 1].value is Return,
        tried_before(model, es, done, s, idx),
    ensures
        !extendable(model, entries_history(es), done, s),
{
    let h = entries_history(es);
    let a = op_at(es, idx);
    lemma_entry_is_endpoint(es, idx - 1);
    lemma_history_facts(es, a);
    if extendable(model, h, done, s) {
        assert(!all_done(h, done)) by {
            assert(!done.contains(a));
        }
        lemma_extendable_unfold(model, h, done, s);
        let (b, t) = choose|b: int, t: M::State|
            eligible(h, done, b) && model.step_spec(s, h[b].input, h[b].output) == Some(t)
                && extendable(model, h, done.insert(b), t);
        lemma_history_facts(es, b);
        let cn = call_pos(es, b) + 1;
        if b != a {
            assert(!precedes(h, a, b));
        }
        assert(cn < idx);
        assert(live_nodes(es, done).contains(cn));
        assert(op_at(es, cn) == b);
        assert(tried(model, h, done, s, b));
    }
}

proof fn lemma_words_bound(n: nat)
    ensures
        64 * words_for(n) <= n + 63,
{
    if n % 64 == 0 {
        assert(64 * (n / 64) == n) by (nonlinear_arith)
            requires
                n % 64 == 0,
        ;
    } else {
        assert(64 * (n / 64 + 1) <= n + 63) by (nonlinear_arith)
            requires
                n % 64 != 0,
        ;
    }
}

/// Each level's linearized set contains the ones before it.
proof fn lemma_sets_grow<M: Model>(
    model: M,
    es: Seq<Entry<M::Input, M::Output>>,
    chosen: Seq<int>,
    sets: Seq<Set<int>>,
    calls: Seq<CallFrame<M::State>>,
    state: M::State,
    i: int,
    j: int,
)
    requires
        path_ok(model, es, chosen, sets, calls, state),
        0 <= i <= j < sets.len(),
    ensures
        sets[i].subset_of(sets[j]),
    decreases j - i,
{
    if i < j {
        lemma_sets_grow(model, es, chosen, sets, calls, state, i, j - 1);
        assert(sets[j] == sets[j - 1].insert(op_at(es, chosen[j - 1])));
    }
}

/// The search's invariant at the deepest level, with the cursor at position `cur`.
pub open spec fn search_inv<M: Model>(
    model: M,
    es: Seq<Entry<M::Input, M::Output>>,
    chosen: Seq<int>,
    sets: Seq<Set<int>>,
    calls: Seq<CallFrame<M::State>>,
    state: M::State,
    cache: Map<u64, Vec<CacheEntry<M::State>>>,
    cur: int,
) -> bool {
    &&& path_ok(model, es, chosen, sets, calls, state)
    &&& calls_before(es, sets.last(), cur)
    &&& faithful::<M>() ==> {
        &&& path_states_ok(model, es, chosen, sets, calls, state)
        &&& tried_before(model, es, sets.last(), state, cur)
        &&& cache_ok(model, es, sets, calls, state, cache)
    }
}

/// Past the last node with every live node a tried call: the path is a linearization.
proof fn lemma_search_done<M: Model>(
    model: M,
    es: Seq<Entry<M::Input, M::Output>>,
    chosen: Seq<int>,
    sets: Seq<Set<int>>,
    calls: Seq<CallFrame<M::State>>,
    state: M::State,
    cache: Map<u64, Vec<CacheEntry<M::State>>>,
)
    requires
        entries_well_formed(es),
        search_inv(model, es, chosen, sets, calls, state, cache, es.len() + 1int),
    ensures
        faithful::<M>() ==> linearizable(model, entries_history(es)),
{
    if faithful::<M>() {
        let h = entries_history(es);
        let m = chosen.len() as int;
        assert(sets.last() == sets[m]);
        lemma_all_linearized(es, sets[m]);
        lemma_extendable_all_done(model, h, sets[m], state);
        lemma_path_back(model, es, chosen, sets, calls, state, 0);
        lemma_extendable_same_state(model, h, sets[0], path_state(calls, state, 0), model.init_spec());
        lemma_linearizable_iff_extendable(model, h);
    }
}

/// At a live return node the current partial linearization cannot be completed.
proof fn lemma_search_stuck<M: Model>(
    model: M,
    es: Seq<Entry<M::Input, M::Output>>,
    chosen: Seq<int>,
    sets: Seq<Set<int>>,
    calls: Seq<CallFrame<M::State>>,
    state: M::State,
    cache: Map<u64, Vec<CacheEntry<M::State>>>,
    i: int,
)
    requires
        entries_well_formed(es),
        search_inv(model, es, chosen, sets, calls, state, cache, i),
        1 <= i <= es.len(),
        live_nodes(es, sets.last()).contains(i),
        es[i - 1].value is Return,
    ensures
        faithful::<M>() ==> !extendable(model, entries_history(es), sets.last(), state),
        faithful::<M>() && chosen.len() == 0 ==> !linearizable(model, entries_history(es)),
{
    if faithful::<M>() {
        lemma_stuck(model, es, sets.last(), state, i);
        if chosen.len() == 0 {
            assert(sets.last() == sets[0]);
            assert(path_state(calls, state, 0) == state);
            lemma_extendable_same_state(model, entries_history(es), sets[0], state, model.init_spec());
            lemma_linearizable_iff_extendable(model, entries_history(es));
        }
    }
}

/// Moving the cursor past a tried call node keeps the invariant.
proof fn lemma_search_advance<M: Model>(
    model: M,
    es: Seq<Entry<M::Input, M::Output>>,
    chosen: Seq<int>,
    sets: Seq<Set<int>>,
    calls: Seq<CallFrame<M::State>>,
    state: M::State,
    cache: Map<u64, Vec<CacheEntry<M::State>>>,
    i: int,
    next: int,
)
    requires
        search_inv(model, es, chosen, sets, calls, state, cache, i),
        1 <= i,
        es[i - 1].value is Call,
        faithful::<M>() ==> tried(model, entries_history(es), sets.last(), state, op_at(es, i)),
        i < next,
        forall|z: int| i < z < next ==> !#[trigger] live_nodes(es, sets.last()).contains(z),
    ensures
        search_inv(model, es, chosen, sets, calls, state, cache, next),
{
}

/// Linearizing the call node at the cursor and opening a new level keeps the invariant.
proof fn lemma_search_descend<M: Model>(
    model: M,
    es: Seq<Entry<M::Input, M::Output>>,
    chosen: Seq<int>,
    sets: Seq<Set<int>>,
    calls: Seq<CallFrame<M::State>>,
    state: M::State,
    cache: Map<u64, Vec<CacheEntry<M::State>>>,
    i: int,
    next_state: M::State,
    hash: u64,
    old_bucket: Seq<CacheEntry<M::State>>,
    entry: CacheEntry<M::State>,
    cache2: Map<u64, Vec<CacheEntry<M::State>>>,
    calls2: Seq<CallFrame<M::State>>,
    cur2: int,
)
    requires
        entries_well_formed(es),
        search_inv(model, es, chosen, sets, calls, state, cache, i),
        1 <= i <= es.len(),
        live_nodes(es, sets.last()).contains(i),
        es[i - 1].value is Call,
        faithful::<M>() ==> steps_to(model, state, entries_history(es)[op_at(es, i)], next_state),
        bits_of(entry.linearized@) == sets.last().insert(op_at(es, i)),
        faithful::<M>() ==> M::same_state(entry.state, next_state),
        cache.contains_key(hash) ==> old_bucket == cache[hash]@,
        !cache.contains_key(hash) ==> old_bucket.len() == 0,
        cache2.contains_key(hash),
        cache2[hash]@ == old_bucket.push(entry),
        forall|k: u64| k != hash ==> (#[trigger] cache2.contains_key(k) <==> cache.contains_key(k)),
        forall|k: u64| k != hash && cache.contains_key(k) ==> #[trigger] cache2[k] == cache[k],
        calls2 == calls.push(CallFrame { node_ref: NodeRef(i as usize), state }),
        forall|z: int| 1 <= z < cur2 ==> !#[trigger] live_nodes(es, sets.last().insert(op_at(es, i))).contains(z),
    ensures
        search_inv(
            model,
            es,
            chosen.push(i),
            sets.push(sets.last().insert(op_at(es, i))),
            calls2,
            next_state,
            cache2,
            cur2,
        ),
{
    let h = entries_history(es);
    let b = op_at(es, i);
    let m = chosen.len() as int;
    let chosen2 = chosen.push(i);
    let sets2 = sets.push(sets.last().insert(b));
    assert(sets.last() == sets[m]);
    lemma_eligible_at(es, sets[m], i);
    assert(path_ok(model, es, chosen2, sets2, calls2, next_state)) by {
        assert forall|j: int| #![trigger chosen2[j]] 0 <= j < chosen2.len() implies {
            let bj = op_at(es, chosen2[j]);
            &&& 1 <= chosen2[j] <= es.len()
            &&& es[chosen2[j] - 1].value is Call
            &&& eligible(h, sets2[j], bj)
            &&& sets2[j + 1] == sets2[j].insert(bj)
            &&& calls_before(es, sets2[j], chosen2[j])
        } by {
            if j < m {
                assert(chosen2[j] == chosen[j]);
            }
        }
    }
    if faithful::<M>() {
        assert forall|j: int| 0 <= j <= m implies path_state(calls2, next_state, j) == #[trigger] path_state(
            calls,
            state,
            j,
        ) by {
            if j < m {
                assert(calls2[j] == calls[j]);
            }
        }
        assert(path_state(calls2, next_state, m + 1) == next_state);
        assert(path_states_ok(model, es, chosen2, sets2, calls2, next_state)) by {
            assert forall|j: int| #![trigger chosen2[j]] 0 <= j < chosen2.len() implies {
                let bj = op_at(es, chosen2[j]);
                &&& steps_to(model, path_state(calls2, next_state, j), h[bj], path_state(calls2, next_state, j + 1))
                &&& tried_before(model, es, sets2[j], path_state(calls2, next_state, j), chosen2[j])
            } by {
                if j < m {
                    assert(chosen2[j] == chosen[j]);
                    assert(path_state(calls2, next_state, j + 1) == path_state(calls, state, j + 1));
                }
            }
            assert(path_state(calls2, next_state, 0) == path_state(calls, state, 0));
        }
        assert(cache_ok(model, es, sets2, calls2, next_state, cache2)) by {
            assert forall|hk: u64, k: int|
                #![trigger cache2[hk]@[k]]
                cache2.contains_key(hk) && 0 <= k < cache2[hk]@.len() implies {
                let e = cache2[hk]@[k];
                ||| !extendable(model, h, bits_of(e.linearized@), e.state)
                ||| exists|j: int|
                    1 <= j < sets2.len() && bits_of(e.linearized@) == #[trigger] sets2[j] && M::same_state(
                        e.state,
                        path_state(calls2, next_state, j),
                    )
            } by {
                let e = cache2[hk]@[k];
                if hk == hash && k == old_bucket.len() {
                    assert(e == entry);
                    assert(bits_of(e.linearized@) == sets2[m + 1]);
                } else {
                    let e0 = cache[hk]@[k];
                    if hk == hash {
                        assert(e == old_bucket[k]);
                    }
                    assert(e == e0);
                    if extendable(model, h, bits_of(e.linearized@), e.state) {
                        let j = choose|j: int|
                            1 <= j < sets.len() && bits_of(e0.linearized@) == #[trigger] sets[j]
                                && M::same_state(e0.state, path_state(calls, state, j));
                        assert(sets2[j] == sets[j]);
                    }
                }
            }
        }
    }
}

/// Leaving the deepest level and moving its call node's cursor past it keeps the invariant.
proof fn lemma_search_backtrack<M: Model>(
    model: M,
    es: Seq<Entry<M::Input, M::Output>>,
    chosen: Seq<int>,
    sets: Seq<Set<int>>,
    calls: Seq<CallFrame<M::State>>,
    state: M::State,
    cache: Map<u64, Vec<CacheEntry<M::State>>>,
    i: int,
    cur2: int,
)
    requires
        entries_well_formed(es),
        search_inv(model, es, chosen, sets, calls, state, cache, i),
        1 <= i <= es.len(),
        live_nodes(es, sets.last()).contains(i),
        es[i - 1].value is Return,
        chosen.len() > 0,
        chosen.last() < cur2,
        forall|z: int| chosen.last() < z < cur2 ==> !#[trigger] live_nodes(es, sets[chosen.len() - 1]).contains(z),
    ensures
        search_inv(
            model,
            es,
            chosen.drop_last(),
            sets.drop_last(),
            calls.drop_last(),
            calls.last().state,
            cache,
            cur2,
        ),
{
    let h = entries_history(es);
    let m = chosen.len() as int;
    let c = chosen[m - 1];
    let b = op_at(es, c);
    let chosen2 = chosen.drop_last();
    let sets2 = sets.drop_last();
    let calls2 = calls.drop_last();
    let state2 = calls[m - 1].state;
    lemma_search_stuck(model, es, chosen, sets, calls, state, cache, i);
    assert(sets.last() == sets[m]);
    assert(sets2.last() == sets[m - 1]);
    assert(path_ok(model, es, chosen2, sets2, calls2, state2)) by {
        assert forall|j: int| #![trigger chosen2[j]] 0 <= j < chosen2.len() implies {
            let bj = op_at(es, chosen2[j]);
            &&& 1 <= chosen2[j] <= es.len()
            &&& es[chosen2[j] - 1].value is Call
            &&& eligible(h, sets2[j], bj)
            &&& sets2[j + 1] == sets2[j].insert(bj)
            &&& calls_before(es, sets2[j], chosen2[j])
        } by {
            assert(chosen2[j] == chosen[j]);
        }
    }
    assert(chosen[m - 1] == c);
    assert(calls_before(es, sets[m - 1], c));
    if faithful::<M>() {
        assert forall|j: int| 0 <= j < m implies path_state(calls2, state2, j) == #[trigger] path_state(
            calls,
            state,
            j,
        ) by {
            if j < m - 1 {
                assert(calls2[j] == calls[j]);
            }
        }
        assert(path_state(calls, state, m) == state);
        assert(steps_to(model, path_state(calls, state, m - 1), h[b], state));
        assert(tried_before(model, es, sets[m - 1], path_state(calls, state, m - 1), c));
        assert(sets[m] == sets[m - 1].insert(b));
        let t = model.step_spec(state2, h[b].input, h[b].output)->Some_0;
        lemma_extendable_same_state(model, h, sets[m], t, state);
        assert(tried(model, h, sets[m - 1], state2, b));
        assert(tried_before(model, es, sets2.last(), state2, cur2));
        assert(path_states_ok(model, es, chosen2, sets2, calls2, state2)) by {
            assert forall|j: int| #![trigger chosen2[j]] 0 <= j < chosen2.len() implies {
                let bj = op_at(es, chosen2[j]);
                &&& steps_to(model, path_state(calls2, state2, j), h[bj], path_state(calls2, state2, j + 1))
                &&& tried_before(model, es, sets2[j], path_state(calls2, state2, j), chosen2[j])
            } by {
                assert(chosen2[j] == chosen[j]);
            }
            assert(path_state(calls2, state2, 0) == path_state(calls, state, 0));
        }
        assert(cache_ok(model, es, sets2, calls2, state2, cache)) by {
            assert forall|hk: u64, k: int|
                #![trigger cache[hk]@[k]]
                cache.contains_key(hk) && 0 <= k < cache[hk]@.len() implies {
                let e = cache[hk]@[k];
                ||| !extendable(model, h, bits_of(e.linearized@), e.state)
                ||| exists|j: int|
                    1 <= j < sets2.len() && bits_of(e.linearized@) == #[trigger] sets2[j] && M::same_state(
                        e.state,
                        path_state(calls2, state2, j),
                    )
            } by {
                let e = cache[hk]@[k];
                if extendable(model, h, bits_of(e.linearized@), e.state) {
                    let j = choose|j: int|
                        1 <= j < sets.len() && bits_of(e.linearized@) == #[trigger] sets[j] && M::same_state(
                            e.state,
                            path_state(calls, state, j),
                        );
                    if j == m {
                        lemma_extendable_same_state(model, h, sets[m], e.state, state);
                    }
                    assert(j != m);
                    assert(sets2[j] == sets[j]);
                }
            }
        }
    }
}

/// A cache hit on the pair that linearizing operation `b` would reach means
/// that operation has been tried.
proof fn lemma_search_hit<M: Model>(
    model: M,
    es: Seq<Entry<M::Input, M::Output>>,
    chosen: Seq<int>,
    sets: Seq<Set<int>>,
    calls: Seq<CallFrame<M::State>>,
    state: M::State,
    cache: Map<u64, Vec<CacheEntry<M::State>>>,
    cur: int,
    b: int,
    next_state: M::State,
    e: CacheEntry<M::State>,
)
    requires
        faithful::<M>(),
        search_inv(model, es, chosen, sets, calls, state, cache, cur),
        !sets.last().contains(b),
        steps_to(model, state, entries_history(es)[b], next_state),
        exists|hk: u64, k: int|
            #![trigger cache[hk]@[k]]
            cache.contains_key(hk) && 0 <= k < cache[hk]@.len() && cache[hk]@[k] == e,
        bits_of(e.linearized@) == sets.last().insert(b),
        M::same_state(e.state, next_state),
    ensures
        tried(model, entries_history(es), sets.last(), state, b),
{
    let h = entries_history(es);
    let m = chosen.len() as int;
    assert(sets.last() == sets[m]);
    lemma_extendable_same_state(model, h, sets[m].insert(b), e.state, next_state);
    let t = model.step_spec(state, h[b].input, h[b].output)->Some_0;
    lemma_extendable_same_state(model, h, sets[m].insert(b), t, next_state);
    if extendable(model, h, sets[m].insert(b), next_state) {
        let (hk, k) = choose|hk: u64, k: int|
            #![trigger cache[hk]@[k]]
            cache.contains_key(hk) && 0 <= k < cache[hk]@.len() && cache[hk]@[k] == e;
        let j = choose|j: int|
            1 <= j < sets.len() && bits_of(e.linearized@) == #[trigger] sets[j] && M::same_state(
                e.state,
                path_state(calls, state, j),
            );
        lemma_sets_grow(model, es, chosen, sets, calls, state, j, m);
        assert(sets[j].contains(b));
    }
}

/// The termination measure of the search stays below its bound.
proof fn lemma_positions_bound<I, O>(
    arena: NodeArena<I, O>,
    es: Seq<Entry<I, O>>,
    cursor: Option<NodeRef>,
    bb: nat,
    dd: nat,
)
    requires
        arena.wf(),
        arena.nodes@.len() == es.len() + 1,
        bb == es.len() + 3,
        dd == es.len() + 1,
        cursor matches Some(c) ==> 1 <= c.0 <= es.len(),
    ensures
        rank(arena.lifted@.push(cursor_pos(es, cursor)), bb, dd) < pw(bb, dd + 1),
{
    arena.lemma_lifted_len();
    let p = arena.lifted@.push(cursor_pos(es, cursor));
    assert forall|j: int| 0 <= j < p.len() implies 0 <= #[trigger] p[j] && p[j] + 2 <= bb by {
        if j < arena.lifted@.len() {
            assert(arena.frame_ok(j));
        }
    }
    lemma_rank_bound(p, bb, dd);
}

/// Decide whether the history described by `entries` is linearizable with
/// respect to `model`, by depth-first search with backtracking over
/// linearization points, pruning (linearized set, state) pairs seen before.
/// With a deadline, the search gives up once it has passed.
pub fn check_single<M: Model>(
    model: &M,
    entries: Vec<Entry<M::Input, M::Output>>,
    deadline: Option<Instant>,
) -> (r: SearchOutcome)
    requires
        entries_well_formed(entries@),
        entries@.len() < usize::MAX,
    ensures
        deadline is None ==> r != SearchOutcome::TimedOut,
        faithful::<M>() && r == SearchOutcome::Linearizable ==> linearizable(*model, entries_history(entries@)),
        faithful::<M>() && r == SearchOutcome::Illegal ==> !linearizable(*model, entries_history(entries@)),
{
    let (r, _log) = check_single_with_log(model, entries, deadline);
    r
}

/// The search of `check_single`, with the clock's readings it made: it times
/// out only where a reading found the deadline passed.
pub fn check_single_with_log<M: Model>(
    model: &M,
    entries: Vec<Entry<M::Input, M::Output>>,
    deadline: Option<Instant>,
) -> (r: (SearchOutcome, ClockLog))
    requires
        entries_well_formed(entries@),
        entries@.len() < usize::MAX,
    ensures
        search_result(*model, entries@, deadline, r.0, r.1@),
{
    let mut log = ClockLog::new();
    let o = check_single_logged(model, entries, deadline, &mut log);
    proof {
        assert(log@.take(0) =~= Seq::<ClockEvent>::empty());
    }
    (o, log)
}

/// What a search of the entries `es` may end with, given the clock's readings
/// `log` made during it: a timeout only with a deadline that a reading found
/// passed, and an exact verdict where the model is faithful.
pub open spec fn search_result<M: Model>(
    model: M,
    es: Seq<Entry<M::Input, M::Output>>,
    deadline: Option<Instant>,
    r: SearchOutcome,
    log: Seq<ClockEvent>,
) -> bool {
    &&& deadline is None ==> r != SearchOutcome::TimedOut
    &&& r == SearchOutcome::TimedOut ==> seen_passed(log, 0, deadline)
    &&& faithful::<M>() && r == SearchOutcome::Linearizable ==> linearizable(model, entries_history(es))
    &&& faithful::<M>() && r == SearchOutcome::Illegal ==> !linearizable(model, entries_history(es))
}

/// A search whose clock never found its deadline passed decides, and decides
/// exactly where the model is faithful: as the search without a deadline does.
pub proof fn lemma_search_decides_unless_timed_out<M: Model>(
    model: M,
    es: Seq<Entry<M::Input, M::Output>>,
    deadline: Option<Instant>,
    r: SearchOutcome,
    log: Seq<ClockEvent>,
    unbounded: SearchOutcome,
    log0: Seq<ClockEvent>,
)
    requires
        faithful::<M>(),
        search_result(model, es, deadline, r, log),
        search_result(model, es, None, unbounded, log0),
        !seen_passed(log, 0, deadline),
    ensures
        r == unbounded,
{
}

/// The search, recording in `log` each reading of the clock that it makes.
#[verifier::rlimit(100)]
#[verifier::spinoff_prover]
pub fn check_single_logged<M: Model>(
    model: &M,
    entries: Vec<Entry<M::Input, M::Output>>,
    deadline: Option<Instant>,
    log: &mut ClockLog,
) -> (r: SearchOutcome)
    requires
        entries_well_formed(entries@),
        entries@.len() < usize::MAX,
    ensures
        log_extends(old(log)@, final(log)@),
        deadline is None ==> r != SearchOutcome::TimedOut,
        r == SearchOutcome::TimedOut ==> seen_passed(final(log)@, old(log)@.len() as int, deadline),
        faithful::<M>() && r == SearchOutcome::Linearizable ==> linearizable(*model, entries_history(entries@)),
        faithful::<M>() && r == SearchOutcome::Illegal ==> !linearizable(*model, entries_history(entries@)),
{
    let ghost log0 = log@;
    proof {
        assert(log0.take(log0.len() as int) =~= log0);
    }
    let ghost es = entries@;
    if entries.len() == 0 {
        proof {
            let h = entries_history(es);
            assert(h.len() == 0);
            lemma_extendable_all_done(*model, h, Set::<int>::empty(), model.init_spec());
            lemma_linearizable_iff_extendable(*model, h);
        }
        return SearchOutcome::Linearizable;
    }
    let n_ops = entries.len() / 2;
    let mut arena = NodeArena::from_entries(entries);
    let mut linearized = Bitset::new(n_ops);
    let mut cache: FxHashMap<u64, Vec<CacheEntry<M::State>>> = fx_new();
    let mut calls: Vec<CallFrame<M::State>> = Vec::new();
    let mut state = model.init();
    let mut cursor = arena.head_next();
    let ghost mut sets: Seq<Set<int>> = seq![Set::<int>::empty()];
    let ghost bb: nat = (es.len() + 3) as nat;
    let ghost dd: nat = (es.len() + 1) as nat;
    proof {
        lemma_words_bound(n_ops as nat);
        assert(arena.lifted_ops(0) =~= Set::<int>::empty());
        assert(arena.live() =~= live_nodes(es, sets[0]));
        let live = arena.live();
        assert(linked_within(arena.nodes@, live, 0));
        lemma_next_facts(live, 0, arena.nodes@.len() as int, arena.nodes@[0].next);
        assert forall|k: int| has_bit(linearized@, k) <==> sets[0].contains(k) by {}
        assert(cache@.dom() =~= Set::<u64>::empty());
    }
    loop
        invariant
            es == entries@,
            entries_well_formed(es),
            es.len() < usize::MAX,
            n_ops == es.len() / 2,
            64 * linearized@.len() <= n_ops + 63,
            bb == es.len() + 3,
            dd == es.len() + 1,
            arena.wf(),
            arena.entries@ == es,
            arena.nodes@.len() == es.len() + 1,
            sets.len() == arena.lifted@.len() + 1,
            forall|j: int| 0 <= j < sets.len() ==> #[trigger] arena.lifted_ops(j) == sets[j],
            arena.live() == live_nodes(es, sets.last()),
            forall|j: int| 0 <= j < calls@.len() ==> (#[trigger] calls@[j]).node_ref.0 == arena.lifted@[j],
            linearized@.len() == words_for(n_ops as nat),
            forall|k: int| has_bit(linearized@, k) <==> #[trigger] sets.last().contains(k),
            cursor matches Some(c) ==> 1 <= c.0 <= es.len() && live_nodes(es, sets.last()).contains(c.0 as int),
            search_inv(*model, es, arena.lifted@, sets, calls@, state, cache@, cursor_pos(es, cursor)),
            log0 == old(log)@,
            log_extends(log0, log@),
        decreases pw(bb, dd + 1) - rank(arena.lifted@.push(cursor_pos(es, cursor)), bb, dd),
    {
        let ghost before = log@;
        if deadline_reached(&deadline, log) {
            proof {
                assert(log@[before.len() as int] == ClockEvent::Checked(deadline, true));
                assert(log@.take(log0.len() as int) =~= before.take(log0.len() as int));
            }
            return SearchOutcome::TimedOut;
        }
        proof {
            assert(log@.take(log0.len() as int) =~= before.take(log0.len() as int));
        }
        match cursor {
            None => {
                // All operations linearized successfully.
                proof {
                    lemma_search_done(*model, es, arena.lifted@, sets, calls@, state, cache@);
                }
                return SearchOutcome::Linearizable;
            },
            Some(idx) => {
                let ghost m = calls@.len() as int;
                let ghost live = arena.live();
                let ghost ns = arena.nodes@;
                let ghost old_arena = arena;
                let ghost i = idx.0 as int;
                proof {
                    old_arena.lemma_lifted_len();
                    assert(ns[i].value == Some(es[i - 1].value));
                    assert(linked_within(ns, live, i));
                    lemma_next_facts(live, i, ns.len() as int, ns[i].next);
                    lemma_entry_is_endpoint(es, i - 1);
                    assert(sets.last() == sets[m]);
                }
                match arena.nodes[idx.get()].match_idx {
                    Some(ret_ref) => {
                        // A call node: try to linearize its operation now.
                        let op_id = arena.nodes[idx.get()].id;
                        let ghost b = op_id as int;
                        let ghost h = entries_history(es);
                        proof {
                            lemma_history_facts(es, b);
                            assert(ret_ref.0 == ret_pos(es, b) + 1);
                            assert(ns[ret_ref.0 as int].value == Some(es[ret_pos(es, b)].value));
                            lemma_eligible_at(es, sets[m], i);
                        }
                        let step = match (&arena.nodes[idx.get()].value, &arena.nodes[ret_ref.get()].value) {
                            (Some(EntryValue::Call(input)), Some(EntryValue::Return(output))) => {
                                model.step(&state, input, output)
                            },
                            _ => {
                                proof {
                                    assert(false);
                                }
                                None
                            },
                        };
                        match step {
                            Some(next_state) => {
                                let mut new_linearized = linearized.clone();
                                new_linearized.set(op_id);
                                let hash = new_linearized.hash();
                                let ghost new_set = sets[m].insert(b);
                                proof {
                                    assert(bits_of(new_linearized@) =~= new_set);
                                }
                                if !cache_contains(&cache, hash, &new_linearized, &next_state) {
                                    // A new (linearized set, state) pair: descend.
                                    let old_state = state;
                                    state = next_state;
                                    let cached_state = state.clone();
                                    proof {
                                        assert(vstd::pervasive::strictly_cloned(state, cached_state));
                                    }
                                    let entry = CacheEntry { linearized: new_linearized, state: cached_state };
                                    let ghost old_cache = cache@;
                                    let ghost old_calls = calls@;
                                    let mut bucket = match fx_remove(&mut cache, &hash) {
                                        Some(bk) => bk,
                                        None => Vec::new(),
                                    };
                                    let ghost old_bucket = bucket@;
                                    bucket.push(entry);
                                    fx_insert(&mut cache, hash, bucket);
                                    calls.push(CallFrame { node_ref: idx, state: old_state });
                                    linearized.set(op_id);
                                    arena.lift(idx);
                                    cursor = arena.head_next();
                                    proof {
                                        let sets0 = sets;
                                        sets = sets.push(new_set);
                                        old_arena.lemma_lifted_ops_push(arena, i);
                                        assert forall|j: int| 0 <= j < sets.len() implies #[trigger] arena.lifted_ops(j) == sets[j] by {
                                            if j < sets0.len() {
                                                assert(old_arena.lifted_ops(j) == sets0[j]);
                                            }
                                        }
                                        let live2 = arena.live();
                                        assert(live2 =~= live_nodes(es, new_set));
                                        assert(linked_within(arena.nodes@, live2, 0));
                                        lemma_next_facts(live2, 0, arena.nodes@.len() as int, arena.nodes@[0].next);
                                        assert forall|j: int| 0 <= j < calls@.len() implies (#[trigger] calls@[j]).node_ref.0 == arena.lifted@[j] by {
                                            if j < m {
                                                assert(old_calls[j] == calls@[j]);
                                            }
                                        }
                                        assert(sets0.last() == sets0[m]);
                                        lemma_search_descend(
                                            *model, es, old_arena.lifted@, sets0, old_calls, old_state, old_cache,
                                            i, state, hash, old_bucket, entry, cache@, calls@,
                                            cursor_pos(es, cursor),
                                        );
                                        assert(arena.lifted@ == old_arena.lifted@.push(i));
                                        assert(sets == sets0.push(sets0.last().insert(b)));
                                        lemma_rank_push(old_arena.lifted@.push(i), cursor_pos(es, cursor), bb, dd);
                                        assert(arena.lifted@.push(cursor_pos(es, cursor)) =~= old_arena.lifted@.push(i).push(cursor_pos(es, cursor)));
                                        lemma_positions_bound(arena, es, cursor, bb, dd);
                                    }
                                } else {
                                    // Already explored this (linearized set, state) pair: skip.
                                    cursor = arena.nodes[idx.get()].next;
                                    proof {
                                        if faithful::<M>() {
                                            let k = choose|k: int| 0 <= k < cache@[hash]@.len() && (#[trigger] cache@[hash]@[k]).linearized@ == new_linearized@ && cache@[hash]@[k].state.eq_spec(&next_state);
                                            let e = cache@[hash]@[k];
                                            assert(M::same_state(e.state, next_state));
                                            assert(bits_of(e.linearized@) == new_set);
                                            lemma_search_hit(*model, es, arena.lifted@, sets, calls@, state, cache@, i, b, next_state, e);
                                        }
                                        lemma_search_advance(*model, es, arena.lifted@, sets, calls@, state, cache@, i, cursor_pos(es, cursor));
                                        lemma_rank_advance(arena.lifted@.push(i), cursor_pos(es, cursor), bb, dd);
                                        assert(arena.lifted@.push(i).drop_last() =~= arena.lifted@);
                                        lemma_positions_bound(arena, es, cursor, bb, dd);
                                    }
                                }
                            },
                            None => {
                                // The model rejects this linearization point: try the next.
                                cursor = arena.nodes[idx.get()].next;
                                proof {
                                    lemma_search_advance(*model, es, arena.lifted@, sets, calls@, state, cache@, i, cursor_pos(es, cursor));
                                    lemma_rank_advance(arena.lifted@.push(i), cursor_pos(es, cursor), bb, dd);
                                    assert(arena.lifted@.push(i).drop_last() =~= arena.lifted@);
                                    lemma_positions_bound(arena, es, cursor, bb, dd);
                                }
                            },
                        }
                    },
                    None => {
                        // A return node whose call is not linearized: backtrack.
                        if calls.is_empty() {
                            proof {
                                lemma_search_stuck(*model, es, arena.lifted@, sets, calls@, state, cache@, i);
                            }
                            return SearchOutcome::Illegal;
                        }
                        let ghost old_calls = calls@;
                        let ghost old_state = state;
                        let ghost old_linearized = linearized@;
                        let frame = calls.pop().unwrap();
                        let ghost c = frame.node_ref.0 as int;
                        let ghost b = op_at(es, c);
                        proof {
                            assert(old_calls[m - 1] == frame);
                            assert(arena.lifted@[m - 1] == c);
                            assert(arena.frame_ok(m - 1));
                            assert(ns[c].value == Some(es[c - 1].value));
                            assert(ns[c].id == es[c - 1].id);
                        }
                        let call_op_id = arena.nodes[frame.node_ref.get()].id;
                        state = frame.state;
                        linearized.clear(call_op_id);
                        arena.unlift(frame.node_ref);
                        cursor = arena.nodes[frame.node_ref.get()].next;
                        proof {
                            let sets0 = sets;
                            sets = sets.drop_last();
                            old_arena.lemma_lifted_ops_prefix(arena, m - 1);
                            assert forall|j: int| 0 <= j < sets.len() implies #[trigger] arena.lifted_ops(j) == sets[j] by {
                                assert(old_arena.lifted_ops(j) == sets0[j]);
                            }
                            assert(old_arena.lifted@[m - 1] == c);
                            assert(sets0[m] == sets0[m - 1].insert(b));
                            assert(!sets0[m - 1].contains(b));
                            assert(sets.last() == sets0[m - 1]);
                            let live2 = arena.live();
                            assert(live2 =~= live_nodes(es, sets.last()));
                            assert(live2.contains(c));
                            assert(linked_within(arena.nodes@, live2, c));
                            lemma_next_facts(live2, c, arena.nodes@.len() as int, arena.nodes@[c].next);
                            assert(call_op_id == b);
                            assert forall|k: int| has_bit(linearized@, k) <==> #[trigger] sets.last().contains(k) by {
                                assert(has_bit(old_linearized, k) <==> sets0[m].contains(k));
                            }
                            assert forall|j: int| 0 <= j < calls@.len() implies (#[trigger] calls@[j]).node_ref.0 == arena.lifted@[j] by {
                                assert(old_calls[j] == calls@[j]);
                                assert(old_arena.lifted@[j] == arena.lifted@[j]);
                            }
                            lemma_search_backtrack(*model, es, old_arena.lifted@, sets0, old_calls, old_state, cache@, i, cursor_pos(es, cursor));
                            assert(arena.lifted@ == old_arena.lifted@.drop_last());
                            assert(calls@ == old_calls.drop_last());
                            assert(arena.lifted@.push(cursor_pos(es, cursor)) =~= old_arena.lifted@.drop_last().push(cursor_pos(es, cursor)));
                            assert(old_arena.lifted@.push(i) =~= old_arena.lifted@.drop_last().push(c).push(i));
                            lemma_rank_backtrack(old_arena.lifted@.drop_last(), c, i, cursor_pos(es, cursor), bb, dd);
                            lemma_positions_bound(arena, es, cursor, bb, dd);
                        }
                    },
                }
            },
        }
    }
}

} // verus!
