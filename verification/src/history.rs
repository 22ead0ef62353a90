//! What it means for a history to be linearizable.
use crate::model::{same_outcome, same_state_respected, Model};
use vstd::prelude::*;

verus! {

/// One operation of an abstract history: the instants of its call and of its
/// return (timestamps, or positions in an event sequence) and its input and output.
pub struct AbsOp<I, O> {
    pub call: int,
    pub ret: int,
    pub input: I,
    pub output: O,
}

/// Operation `a` returned strictly before operation `b` was called, so every
/// linearization must place `a` before `b`.
pub open spec fn precedes<I, O>(h: Seq<AbsOp<I, O>>, a: int, b: int) -> bool {
    h[a].ret < h[b].call
}

/// `order` lists every index in `0..n` exactly once.
pub open spec fn is_permutation(order: Seq<int>, n: nat) -> bool {
    &&& order.len() == n
    &&& order.no_duplicates()
    &&& forall|k: int| 0 <= k < order.len() ==> 0 <= #[trigger] order[k] < n
    &&& forall|x: int| 0 <= x < n ==> #[trigger] order.contains(x)
}

/// No operation placed later in `order` returned before an earlier one was called.
pub open spec fn respects_real_time<I, O>(h: Seq<AbsOp<I, O>>, order: Seq<int>) -> bool {
    forall|i: int, j: int|
        0 <= i < j < order.len() ==> !precedes(h, #[trigger] order[j], #[trigger] order[i])
}

/// Starting from `s`, the model accepts the operations of `h` in the order `order`.
pub open spec fn accepts<M: Model>(model: M, s: M::State, h: Seq<AbsOp<M::Input, M::Output>>, order: Seq<int>) -> bool
    decreases order.len(),
{
    if order.len() == 0 {
        true
    } else {
        match model.step_spec(s, h[order[0]].input, h[order[0]].output) {
            Some(t) => accepts(model, t, h, order.drop_first()),
            None => false,
        }
    }
}

/// `order` is a linearization of `h` with respect to `model`.
pub open spec fn is_linearization<M: Model>(model: M, h: Seq<AbsOp<M::Input, M::Output>>, order: Seq<int>) -> bool {
    &&& is_permutation(order, h.len())
    &&& respects_real_time(h, order)
    &&& accepts(model, model.init_spec(), h, order)
}

/// Some ordering of the operations of `h` respects real-time precedence and is
/// accepted by `model` from its initial state.
pub open spec fn linearizable<M: Model>(model: M, h: Seq<AbsOp<M::Input, M::Output>>) -> bool {
    exists|order: Seq<int>| is_linearization(model, h, order)
}

/// Operation `b` may be placed next once the operations in `done` have been
/// placed: no other pending operation returned before `b` was called.
pub open spec fn eligible<I, O>(h: Seq<AbsOp<I, O>>, done: Set<int>, b: int) -> bool {
    &&& 0 <= b < h.len()
    &&& !done.contains(b)
    &&& forall|x: int|
        0 <= x < h.len() && !done.contains(x) && x != b ==> !#[trigger] precedes(h, x, b)
}

/// `rest` completes a partial linearization that has placed the operations in
/// `done` and left the model in state `s`.
pub open spec fn completes<M: Model>(
    model: M,
    h: Seq<AbsOp<M::Input, M::Output>>,
    done: Set<int>,
    s: M::State,
    rest: Seq<int>,
) -> bool
    decreases rest.len(),
{
    if rest.len() == 0 {
        forall|k: int| 0 <= k < h.len() ==> #[trigger] done.contains(k)
    } else {
        &&& eligible(h, done, rest[0])
        &&& match model.step_spec(s, h[rest[0]].input, h[rest[0]].output) {
            Some(t) => completes(model, h, done.insert(rest[0]), t, rest.drop_first()),
            None => false,
        }
    }
}

/// A partial linearization that has placed `done`, in state `s`, can be completed.
pub open spec fn extendable<M: Model>(
    model: M,
    h: Seq<AbsOp<M::Input, M::Output>>,
    done: Set<int>,
    s: M::State,
) -> bool {
    exists|rest: Seq<int>| completes(model, h, done, s, rest)
}

/// Every operation of `h` is in `done`.
pub open spec fn all_done<I, O>(h: Seq<AbsOp<I, O>>, done: Set<int>) -> bool {
    forall|k: int| 0 <= k < h.len() ==> #[trigger] done.contains(k)
}

/// Once every operation is placed, the linearization is complete.
pub proof fn lemma_extendable_all_done<M: Model>(
    model: M,
    h: Seq<AbsOp<M::Input, M::Output>>,
    done: Set<int>,
    s: M::State,
)
    requires
        all_done(h, done),
    ensures
        extendable(model, h, done, s),
{
    assert(completes(model, h, done, s, Seq::<int>::empty()));
}

/// Placing an eligible, accepted operation next keeps a completable state completable.
pub proof fn lemma_extendable_step<M: Model>(
    model: M,
    h: Seq<AbsOp<M::Input, M::Output>>,
    done: Set<int>,
    s: M::State,
    b: int,
    t: M::State,
)
    requires
        eligible(h, done, b),
        model.step_spec(s, h[b].input, h[b].output) == Some(t),
        extendable(model, h, done.insert(b), t),
    ensures
        extendable(model, h, done, s),
{
    let rest = choose|rest: Seq<int>| completes(model, h, done.insert(b), t, rest);
    let full = seq![b] + rest;
    assert(full.drop_first() =~= rest);
    assert(completes(model, h, done, s, full));
}

/// A completable state that is not final has an eligible, accepted next operation
/// whose successor is completable.
pub proof fn lemma_extendable_unfold<M: Model>(
    model: M,
    h: Seq<AbsOp<M::Input, M::Output>>,
    done: Set<int>,
    s: M::State,
)
    requires
        extendable(model, h, done, s),
        !all_done(h, done),
    ensures
        exists|b: int, t: M::State|
            #![trigger eligible(h, done, b), model.step_spec(s, h[b].input, h[b].output), extendable(model, h, done.insert(b), t)]
            eligible(h, done, b) && model.step_spec(s, h[b].input, h[b].output) == Some(t)
                && extendable(model, h, done.insert(b), t),
{
    let rest = choose|rest: Seq<int>| completes(model, h, done, s, rest);
    assert(rest.len() != 0);
    let b = rest[0];
    let t = model.step_spec(s, h[b].input, h[b].output)->Some_0;
    assert(completes(model, h, done.insert(b), t, rest.drop_first()));
    assert(extendable(model, h, done.insert(b), t));
    assert(eligible(h, done, b) && model.step_spec(s, h[b].input, h[b].output) == Some(t)
        && extendable(model, h, done.insert(b), t));
}

/// The facts a completion gives: it is a sequence of distinct pending operations
/// that covers every pending operation, respects real-time precedence among
/// them and is accepted from `s`.
proof fn lemma_completes_facts<M: Model>(
    model: M,
    h: Seq<AbsOp<M::Input, M::Output>>,
    done: Set<int>,
    s: M::State,
    rest: Seq<int>,
)
    requires
        completes(model, h, done, s, rest),
    ensures
        rest.no_duplicates(),
        forall|k: int| 0 <= k < rest.len() ==> 0 <= #[trigger] rest[k] < h.len() && !done.contains(rest[k]),
        forall|x: int| 0 <= x < h.len() ==> done.contains(x) || #[trigger] rest.contains(x),
        respects_real_time(h, rest),
        accepts(model, s, h, rest),
    decreases rest.len(),
{
    if rest.len() > 0 {
        let b = rest[0];
        let t = model.step_spec(s, h[b].input, h[b].output)->Some_0;
        let tail = rest.drop_first();
        lemma_completes_facts(model, h, done.insert(b), t, tail);
        assert forall|k: int| 0 <= k < rest.len() implies 0 <= #[trigger] rest[k] < h.len()
            && !done.contains(rest[k]) by {
            if k > 0 {
                assert(rest[k] == tail[k - 1]);
            }
        }
        assert forall|x: int| 0 <= x < h.len() implies done.contains(x) || #[trigger] rest.contains(x) by {
            if !done.contains(x) && x != b {
                assert(tail.contains(x));
                let k = choose|k: int| 0 <= k < tail.len() && tail[k] == x;
                assert(rest[k + 1] == x);
            } else if x == b {
                assert(rest[0] == x);
            }
        }
        assert forall|i: int, j: int| 0 <= i < j < rest.len() implies !precedes(
            h,
            #[trigger] rest[j],
            #[trigger] rest[i],
        ) by {
            if i == 0 {
                assert(rest[j] == tail[j - 1]);
                assert(!done.insert(b).contains(tail[j - 1]));
            } else {
                assert(rest[j] == tail[j - 1]);
                assert(rest[i] == tail[i - 1]);
            }
        }
        assert(rest.no_duplicates()) by {
            assert forall|i: int, j: int| 0 <= i < j < rest.len() implies rest[i] != rest[j] by {
                assert(rest[j] == tail[j - 1]);
                if i > 0 {
                    assert(rest[i] == tail[i - 1]);
                } else {
                    assert(!done.insert(b).contains(tail[j - 1]));
                }
            }
        }
        assert(tail =~= rest.drop_first());
    }
}

/// A suffix of a linearization completes the prefix before it.
proof fn lemma_linearization_suffix<M: Model>(
    model: M,
    h: Seq<AbsOp<M::Input, M::Output>>,
    order: Seq<int>,
    k: int,
    s: M::State,
)
    requires
        is_permutation(order, h.len()),
        respects_real_time(h, order),
        0 <= k <= order.len(),
        accepts(model, s, h, order.skip(k)),
    ensures
        completes(model, h, order.take(k).to_set(), s, order.skip(k)),
    decreases order.len() - k,
{
    let done = order.take(k).to_set();
    if k == order.len() {
        assert forall|x: int| 0 <= x < h.len() implies #[trigger] done.contains(x) by {
            assert(order.contains(x));
            let i = choose|i: int| 0 <= i < order.len() && order[i] == x;
            assert(order.take(k)[i] == x);
        }
        assert(order.skip(k).len() == 0);
    } else {
        let b = order[k];
        let rest = order.skip(k);
        assert(rest[0] == b);
        let t = model.step_spec(s, h[b].input, h[b].output)->Some_0;
        assert(rest.drop_first() =~= order.skip(k + 1));
        let pre = order.take(k + 1);
        let pre0 = order.take(k);
        assert(pre.to_set() =~= done.insert(b)) by {
            assert forall|x: int| pre.to_set().contains(x) <==> done.insert(b).contains(x) by {
                if pre.to_set().contains(x) {
                    let i = choose|i: int| 0 <= i < pre.len() && pre[i] == x;
                    if i < k {
                        assert(pre0[i] == x);
                    }
                }
                if done.contains(x) {
                    let i = choose|i: int| 0 <= i < pre0.len() && pre0[i] == x;
                    assert(pre[i] == x);
                }
                if x == b {
                    assert(pre[k] == x);
                }
            }
        }
        lemma_linearization_suffix(model, h, order, k + 1, t);
        assert(!done.contains(b)) by {
            if done.contains(b) {
                let i = choose|i: int| 0 <= i < k && order.take(k)[i] == b;
                assert(order[i] == order[k]);
            }
        }
        assert forall|x: int| 0 <= x < h.len() && !done.contains(x) && x != b implies !#[trigger] precedes(
            h,
            x,
            b,
        ) by {
            assert(order.contains(x));
            let j = choose|j: int| 0 <= j < order.len() && order[j] == x;
            if j < k {
                assert(order.take(k)[j] == x);
            }
            assert(j != k);
            assert(!precedes(h, order[j], order[k]));
        }
    }
}

/// Linearizability is the completability of the empty partial linearization
/// from the model's initial state.
pub proof fn lemma_linearizable_iff_extendable<M: Model>(
    model: M,
    h: Seq<AbsOp<M::Input, M::Output>>,
)
    ensures
        linearizable(model, h) <==> extendable(model, h, Set::<int>::empty(), model.init_spec()),
{
    if linearizable(model, h) {
        let order = choose|order: Seq<int>| is_linearization(model, h, order);
        assert(order.skip(0) =~= order);
        lemma_linearization_suffix(model, h, order, 0, model.init_spec());
        assert(order.take(0).to_set() =~= Set::<int>::empty());
    }
    if extendable(model, h, Set::<int>::empty(), model.init_spec()) {
        let rest = choose|rest: Seq<int>| completes(model, h, Set::<int>::empty(), model.init_spec(), rest);
        lemma_completes_facts(model, h, Set::<int>::empty(), model.init_spec(), rest);
        assert(rest.len() == h.len()) by {
            lemma_perm_len(rest, h.len());
        }
        assert(is_linearization(model, h, rest));
    }
}

/// A duplicate-free sequence of indices below `n` that contains each of them
/// has length `n`.
proof fn lemma_perm_len(s: Seq<int>, n: nat)
    requires
        s.no_duplicates(),
        forall|k: int| 0 <= k < s.len() ==> 0 <= #[trigger] s[k] < n,
        forall|x: int| 0 <= x < n ==> #[trigger] s.contains(x),
    ensures
        s.len() == n,
{
    let range = Set::new(|x: int| 0 <= x < n);
    assert(s.to_set() =~= range) by {
        assert forall|x: int| s.to_set().contains(x) <==> range.contains(x) by {
            if s.to_set().contains(x) {
                let k = choose|k: int| 0 <= k < s.len() && s[k] == x;
            }
        }
    }
    s.unique_seq_to_set();
    vstd::set_lib::lemma_int_range(0, n as int);
    assert(range =~= vstd::set_lib::set_int_range(0, n as int));
}

/// `h1` and `h2` have the same operations, with the same inputs and outputs,
/// and the same real-time precedence between them.
pub open spec fn same_shape<I, O>(h1: Seq<AbsOp<I, O>>, h2: Seq<AbsOp<I, O>>) -> bool {
    &&& h1.len() == h2.len()
    &&& forall|k: int| 0 <= k < h1.len() ==> (#[trigger] h1[k]).input == h2[k].input && h1[k].output == h2[k].output
    &&& forall|a: int, b: int|
        0 <= a < h1.len() && 0 <= b < h1.len() ==> (#[trigger] precedes(h1, a, b) <==> #[trigger] precedes(h2, a, b))
}

/// A model accepts an ordering of operations of `h1` exactly when it accepts
/// the same ordering of the same operations of `h2`.
proof fn lemma_accepts_same_shape<M: Model>(
    model: M,
    s: M::State,
    h1: Seq<AbsOp<M::Input, M::Output>>,
    h2: Seq<AbsOp<M::Input, M::Output>>,
    order: Seq<int>,
)
    requires
        same_shape(h1, h2),
        forall|k: int| 0 <= k < order.len() ==> 0 <= #[trigger] order[k] < h1.len(),
    ensures
        accepts(model, s, h1, order) == accepts(model, s, h2, order),
    decreases order.len(),
{
    if order.len() > 0 {
        let b = order[0];
        assert(h1[b].input == h2[b].input && h1[b].output == h2[b].output);
        match model.step_spec(s, h1[b].input, h1[b].output) {
            Some(t) => {
                let tail = order.drop_first();
                assert forall|k: int| 0 <= k < tail.len() implies 0 <= #[trigger] tail[k] < h1.len() by {
                    assert(tail[k] == order[k + 1]);
                }
                lemma_accepts_same_shape(model, t, h1, h2, tail);
            },
            None => {},
        }
    }
}

/// Linearizability depends only on the operations' inputs and outputs and on
/// real-time precedence between them, not on the instants themselves.
pub proof fn lemma_linearizable_same_shape<M: Model>(
    model: M,
    h1: Seq<AbsOp<M::Input, M::Output>>,
    h2: Seq<AbsOp<M::Input, M::Output>>,
)
    requires
        same_shape(h1, h2),
    ensures
        linearizable(model, h1) <==> linearizable(model, h2),
{
    assert forall|order: Seq<int>| is_linearization(model, h1, order) implies is_linearization(model, h2, order) by {
        lemma_accepts_same_shape(model, model.init_spec(), h1, h2, order);
        assert forall|i: int, j: int| 0 <= i < j < order.len() implies !precedes(
            h2,
            #[trigger] order[j],
            #[trigger] order[i],
        ) by {
            assert(!precedes(h1, order[j], order[i]));
        }
    }
    assert forall|order: Seq<int>| is_linearization(model, h2, order) implies is_linearization(model, h1, order) by {
        lemma_accepts_same_shape(model, model.init_spec(), h1, h2, order);
        assert forall|i: int, j: int| 0 <= i < j < order.len() implies !precedes(
            h1,
            #[trigger] order[j],
            #[trigger] order[i],
        ) by {
            assert(!precedes(h2, order[j], order[i]));
        }
    }
    if linearizable(model, h1) {
        let order = choose|order: Seq<int>| is_linearization(model, h1, order);
        assert(is_linearization(model, h2, order));
    }
    if linearizable(model, h2) {
        let order = choose|order: Seq<int>| is_linearization(model, h2, order);
        assert(is_linearization(model, h1, order));
    }
}

/// Real-time order is preserved: in every linearization, an operation that
/// returned before another was called is placed before it.
pub proof fn lemma_real_time_order<M: Model>(
    model: M,
    h: Seq<AbsOp<M::Input, M::Output>>,
    order: Seq<int>,
    i: int,
    j: int,
)
    requires
        is_linearization(model, h, order),
        0 <= i < order.len(),
        0 <= j < order.len(),
        i != j,
        precedes(h, order[i], order[j]),
    ensures
        i < j,
{
    if j < i {
        assert(!precedes(h, order[i], order[j]));
    }
}

/// The empty history is linearizable.
pub proof fn lemma_empty_linearizable<M: Model>(model: M)
    ensures
        linearizable(model, Seq::<AbsOp<M::Input, M::Output>>::empty()),
{
    let h = Seq::<AbsOp<M::Input, M::Output>>::empty();
    assert(is_linearization(model, h, Seq::<int>::empty()));
}

/// The operations of `h` in index order, starting from state `s`, step by step
/// accepted by the model.
pub open spec fn accepts_in_order<M: Model>(model: M, s: M::State, h: Seq<AbsOp<M::Input, M::Output>>) -> bool
    decreases h.len(),
{
    if h.len() == 0 {
        true
    } else {
        match model.step_spec(s, h[0].input, h[0].output) {
            Some(t) => accepts_in_order(model, t, h.drop_first()),
            None => false,
        }
    }
}

/// A sequential history (each operation called no earlier than the one
/// before it returned) that the model accepts in order is linearizable.
pub proof fn lemma_sequential_linearizable<M: Model>(model: M, h: Seq<AbsOp<M::Input, M::Output>>)
    requires
        forall|k: int| 0 <= k < h.len() ==> (#[trigger] h[k]).call <= h[k].ret,
        forall|k: int| 0 <= k < h.len() - 1 ==> #[trigger] h[k].ret <= h[k + 1].call,
        accepts_in_order(model, model.init_spec(), h),
    ensures
        linearizable(model, h),
{
    let order = Seq::new(h.len(), |k: int| k);
    assert forall|a: int, b: int| 0 <= a <= b < h.len() implies h[a].call <= h[b].call && h[a].ret <= h[b].ret by {
        lemma_sequential_monotone(h, a, b);
    }
    assert(order.no_duplicates());
    assert forall|x: int| 0 <= x < h.len() implies #[trigger] order.contains(x) by {
        assert(order[x] == x);
    }
    assert forall|i: int, j: int| 0 <= i < j < order.len() implies !precedes(h, #[trigger] order[j], #[trigger] order[i]) by {
        assert(h[j].call <= h[j].ret);
        assert(h[i].call <= h[j].call);
    }
    assert(h.skip(0) =~= h);
    lemma_accepts_in_order(model, model.init_spec(), h, order, 0);
    assert(order.skip(0) =~= order);
    assert(is_linearization(model, h, order));
}

/// In a sequential history, instants never decrease along the index order.
proof fn lemma_sequential_monotone<I, O>(h: Seq<AbsOp<I, O>>, a: int, b: int)
    requires
        forall|k: int| 0 <= k < h.len() ==> (#[trigger] h[k]).call <= h[k].ret,
        forall|k: int| 0 <= k < h.len() - 1 ==> #[trigger] h[k].ret <= h[k + 1].call,
        0 <= a <= b < h.len(),
    ensures
        h[a].call <= h[b].call,
        h[a].ret <= h[b].ret,
    decreases b - a,
{
    if a < b {
        lemma_sequential_monotone(h, a, b - 1);
        assert(h[b - 1].ret <= h[b].call);
        assert(h[b].call <= h[b].ret);
        assert(h[b - 1].call <= h[b - 1].ret);
    }
}

/// Accepting the operations in index order from position `k` is accepting
/// the suffix of the identity ordering from `k`.
proof fn lemma_accepts_in_order<M: Model>(
    model: M,
    s: M::State,
    h: Seq<AbsOp<M::Input, M::Output>>,
    order: Seq<int>,
    k: int,
)
    requires
        order == Seq::new(h.len(), |i: int| i),
        0 <= k <= h.len(),
        accepts_in_order(model, s, h.skip(k)),
    ensures
        accepts(model, s, h, order.skip(k)),
    decreases h.len() - k,
{
    if k < h.len() {
        let hs = h.skip(k);
        assert(hs[0] == h[k]);
        assert(order.skip(k)[0] == k);
        match model.step_spec(s, h[k].input, h[k].output) {
            Some(t) => {
                assert(hs.drop_first() =~= h.skip(k + 1));
                assert(order.skip(k).drop_first() =~= order.skip(k + 1));
                lemma_accepts_in_order(model, t, h, order, k + 1);
            },
            None => {},
        }
    }
}


/// `h2` holds the operations of `h1` under new indices: operation `k` of `h1`
/// is operation `pi[k]` of `h2`, with the same input and output and the same
/// real-time precedence.
pub open spec fn renumbered<I, O>(h1: Seq<AbsOp<I, O>>, h2: Seq<AbsOp<I, O>>, pi: Seq<int>) -> bool {
    &&& h1.len() == h2.len()
    &&& is_permutation(pi, h1.len())
    &&& forall|k: int|
        0 <= k < h1.len() ==> h2[#[trigger] pi[k]].input == h1[k].input && h2[pi[k]].output == h1[k].output
    &&& forall|a: int, b: int|
        0 <= a < h1.len() && 0 <= b < h1.len() ==> (precedes(h1, a, b) <==> precedes(h2, #[trigger] pi[a], #[trigger] pi[b]))
}

/// The model accepts an ordering of `h1` exactly when it accepts the renumbered
/// ordering of `h2`.
proof fn lemma_accepts_renumbered<M: Model>(
    model: M,
    s: M::State,
    h1: Seq<AbsOp<M::Input, M::Output>>,
    h2: Seq<AbsOp<M::Input, M::Output>>,
    pi: Seq<int>,
    order: Seq<int>,
)
    requires
        renumbered(h1, h2, pi),
        forall|k: int| 0 <= k < order.len() ==> 0 <= #[trigger] order[k] < h1.len(),
    ensures
        accepts(model, s, h1, order) == accepts(model, s, h2, order.map_values(|x: int| pi[x])),
    decreases order.len(),
{
    let o2 = order.map_values(|x: int| pi[x]);
    if order.len() > 0 {
        let b = order[0];
        assert(o2[0] == pi[b]);
        assert(h2[pi[b]].input == h1[b].input && h2[pi[b]].output == h1[b].output);
        let tail = order.drop_first();
        assert(o2.drop_first() =~= tail.map_values(|x: int| pi[x]));
        match model.step_spec(s, h1[b].input, h1[b].output) {
            Some(t) => {
                assert forall|k: int| 0 <= k < tail.len() implies 0 <= #[trigger] tail[k] < h1.len() by {
                    assert(tail[k] == order[k + 1]);
                }
                lemma_accepts_renumbered(model, t, h1, h2, pi, tail);
            },
            None => {},
        }
    }
}

/// Renumbering the operations keeps a linearization a linearization.
proof fn lemma_linearization_renumbered<M: Model>(
    model: M,
    h1: Seq<AbsOp<M::Input, M::Output>>,
    h2: Seq<AbsOp<M::Input, M::Output>>,
    pi: Seq<int>,
    order: Seq<int>,
)
    requires
        renumbered(h1, h2, pi),
        is_linearization(model, h1, order),
    ensures
        is_linearization(model, h2, order.map_values(|x: int| pi[x])),
{
    let n = h1.len();
    let o2 = order.map_values(|x: int| pi[x]);
    lemma_accepts_renumbered(model, model.init_spec(), h1, h2, pi, order);
    assert forall|k: int| 0 <= k < o2.len() implies 0 <= #[trigger] o2[k] < n by {
        assert(pi.contains(pi[order[k]]));
    }
    assert(o2.no_duplicates()) by {
        assert forall|i: int, j: int| 0 <= i < j < o2.len() implies o2[i] != o2[j] by {
            assert(order[i] != order[j]);
            assert(pi[order[i]] != pi[order[j]]);
        }
    }
    assert forall|x: int| 0 <= x < n implies #[trigger] o2.contains(x) by {
        assert(pi.contains(x));
        let k = choose|k: int| 0 <= k < pi.len() && pi[k] == x;
        assert(order.contains(k));
        let i = choose|i: int| 0 <= i < order.len() && order[i] == k;
        assert(o2[i] == x);
    }
    assert forall|i: int, j: int| 0 <= i < j < o2.len() implies !precedes(h2, #[trigger] o2[j], #[trigger] o2[i]) by {
        assert(!precedes(h1, order[j], order[i]));
        assert(o2[j] == pi[order[j]] && o2[i] == pi[order[i]]);
    }
}

/// The inverse of a permutation of `0..n`.
pub open spec fn inverse(pi: Seq<int>) -> Seq<int> {
    Seq::new(pi.len(), |x: int| choose|k: int| 0 <= k < pi.len() && pi[k] == x)
}

/// The inverse of a permutation is a permutation that undoes it.
proof fn lemma_inverse(pi: Seq<int>, n: nat)
    requires
        is_permutation(pi, n),
    ensures
        is_permutation(inverse(pi), n),
        forall|k: int| 0 <= k < n ==> #[trigger] inverse(pi)[pi[k]] == k,
        forall|x: int| 0 <= x < n ==> #[trigger] pi[inverse(pi)[x]] == x,
{
    let inv = inverse(pi);
    assert forall|x: int| 0 <= x < n implies 0 <= #[trigger] inv[x] < n && pi[inv[x]] == x by {
        assert(pi.contains(x));
    }
    assert forall|k: int| 0 <= k < n implies #[trigger] inv[pi[k]] == k by {
        let x = pi[k];
        assert(pi.contains(x)) by {
            assert(pi[k] == x);
        }
        assert(0 <= x < n);
        let j = inv[x];
        assert(pi[j] == x);
        if j != k {
            assert(pi[j] != pi[k]);
        }
    }
    assert(inv.no_duplicates()) by {
        assert forall|i: int, j: int| 0 <= i < j < inv.len() implies inv[i] != inv[j] by {
            assert(pi[inv[i]] == i && pi[inv[j]] == j);
        }
    }
    assert forall|k: int| 0 <= k < n implies #[trigger] inv.contains(k) by {
        assert(0 <= pi[k] < n);
        assert(inv[pi[k]] == k);
    }
}

/// Linearizability does not depend on how the operations are numbered.
pub proof fn lemma_linearizable_renumbered<M: Model>(
    model: M,
    h1: Seq<AbsOp<M::Input, M::Output>>,
    h2: Seq<AbsOp<M::Input, M::Output>>,
    pi: Seq<int>,
)
    requires
        renumbered(h1, h2, pi),
    ensures
        linearizable(model, h1) <==> linearizable(model, h2),
{
    let n = h1.len();
    if linearizable(model, h1) {
        let order = choose|order: Seq<int>| is_linearization(model, h1, order);
        lemma_linearization_renumbered(model, h1, h2, pi, order);
    }
    if linearizable(model, h2) {
        lemma_inverse(pi, n);
        let inv = inverse(pi);
        assert(renumbered(h2, h1, inv)) by {
            assert forall|x: int| 0 <= x < n implies h1[#[trigger] inv[x]].input == h2[x].input && h1[inv[x]].output
                == h2[x].output by {
                assert(pi[inv[x]] == x);
                assert(0 <= inv[x] < n) by {
                    assert(inv.contains(inv[x]));
                }
            }
            assert forall|a: int, b: int| 0 <= a < n && 0 <= b < n implies (precedes(h2, a, b) <==> precedes(
                h1,
                #[trigger] inv[a],
                #[trigger] inv[b],
            )) by {
                assert(pi[inv[a]] == a && pi[inv[b]] == b);
                assert(inv.contains(inv[a]) && inv.contains(inv[b]));
            }
        }
        let order = choose|order: Seq<int>| is_linearization(model, h2, order);
        lemma_linearization_renumbered(model, h2, h1, inv, order);
    }
}


/// A completion from a state completes from the same state in another
/// representation.
proof fn lemma_completes_same_state<M: Model>(
    model: M,
    h: Seq<AbsOp<M::Input, M::Output>>,
    done: Set<int>,
    s: M::State,
    t: M::State,
    rest: Seq<int>,
)
    requires
        same_state_respected::<M>(),
        M::same_state(s, t),
        completes(model, h, done, s, rest),
    ensures
        completes(model, h, done, t, rest),
    decreases rest.len(),
{
    if rest.len() > 0 {
        let b = rest[0];
        let ss = model.step_spec(s, h[b].input, h[b].output);
        assert(same_outcome::<M>(ss, model.step_spec(t, h[b].input, h[b].output)));
        let s2 = ss->Some_0;
        let t2 = model.step_spec(t, h[b].input, h[b].output)->Some_0;
        lemma_completes_same_state(model, h, done.insert(b), s2, t2, rest.drop_first());
    }
}

/// Whether a partial linearization can be completed does not depend on the
/// representation of its state.
pub proof fn lemma_extendable_same_state<M: Model>(
    model: M,
    h: Seq<AbsOp<M::Input, M::Output>>,
    done: Set<int>,
    s: M::State,
    t: M::State,
)
    requires
        same_state_respected::<M>(),
        M::same_state(s, t),
    ensures
        extendable(model, h, done, s) == extendable(model, h, done, t),
{
    assert(M::same_state(t, s));
    if extendable(model, h, done, s) {
        let rest = choose|rest: Seq<int>| completes(model, h, done, s, rest);
        lemma_completes_same_state(model, h, done, s, t, rest);
    }
    if extendable(model, h, done, t) {
        let rest = choose|rest: Seq<int>| completes(model, h, done, t, rest);
        lemma_completes_same_state(model, h, done, t, s, rest);
    }
}

} // verus!
