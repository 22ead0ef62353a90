//! Sequential models that histories are checked against: deterministic
//! models, nondeterministic ones, and the power-set construction that turns the
//! second kind into the first.
use crate::history::{accepts, is_permutation, linearizable, respects_real_time, AbsOp};
use crate::types::{Event, Operation};
use vstd::prelude::*;
use vstd::std_specs::cmp::PartialEqSpec;

verus! {

/// A sequential specification that a concurrent history is checked against.
///
/// Implement this trait to define the state machine your system should conform to.
/// `init_spec` and `step_spec` state mathematically what `init` and `step` compute;
/// `obeys_model_spec` says whether the executable methods agree with them.
pub trait Model {
    /// The type representing the state of the model.
    type State: Clone + PartialEq;

    /// The type of operation inputs.
    type Input: Clone;

    /// The type of operation outputs.
    type Output: Clone;

    /// Whether `init` and `step` compute `init_spec` and `step_spec`, up to
    /// `same_state`. A model that states nothing of itself does not; a model
    /// verified against its spec functions overrides all three.
    open spec fn obeys_model_spec() -> bool {
        false
    }

    /// The initial state.
    open spec fn init_spec(&self) -> Self::State {
        arbitrary()
    }

    /// The successor of `state` under `input`/`output`, or `None` when the
    /// transition is invalid.
    open spec fn step_spec(&self, state: Self::State, input: Self::Input, output: Self::Output) -> Option<
        Self::State,
    > {
        None
    }

    /// Whether two states are the same state of the model. By default they are
    /// when they are equal; a model whose states have several representations
    /// of one value relates the representations.
    open spec fn same_state(a: Self::State, b: Self::State) -> bool {
        a == b
    }

    /// Returns the initial state of the model.
    fn init(&self) -> (r: Self::State)
        ensures
            Self::obeys_model_spec() ==> Self::same_state(r, self.init_spec()),
    ;

    /// Attempts to apply `input`/`output` to `state`.
    ///
    /// Returns `Some(next_state)` if the transition is valid, `None` otherwise.
    fn step(&self, state: &Self::State, input: &Self::Input, output: &Self::Output) -> (r: Option<
        Self::State,
    >)
        ensures
            Self::obeys_model_spec() ==> match (r, self.step_spec(*state, *input, *output)) {
                (Some(x), Some(y)) => Self::same_state(x, y),
                (None, None) => true,
                _ => false,
            },
    ;

    /// Optionally partition a history into independent sub-histories.
    ///
    /// Returning `None` (the default) disables partitioning; the whole history
    /// is checked as one unit.
    fn partition(&self, history: &[Operation<Self::Input, Self::Output>]) -> (r: Option<Vec<Vec<usize>>>)
        default_ensures
            r is None,
    {
        None
    }

    /// Optionally partition an event-based history into independent sub-histories.
    fn partition_events(&self, history: &[Event<Self::Input, Self::Output>]) -> (r: Option<
        Vec<Vec<usize>>,
    >)
        default_ensures
            r is None,
    {
        None
    }
}

/// Two outcomes of a step are alike: both reject, or both accept with the
/// same state.
pub open spec fn same_outcome<M: Model>(a: Option<M::State>, b: Option<M::State>) -> bool {
    match (a, b) {
        (Some(x), Some(y)) => M::same_state(x, y),
        (None, None) => true,
        _ => false,
    }
}

/// `same_state` is an equivalence that the model's steps respect: from the
/// same state, a step accepts or rejects alike, and accepts with the same state.
pub open spec fn same_state_respected<M: Model>() -> bool {
    &&& forall|a: M::State| #[trigger] M::same_state(a, a)
    &&& forall|a: M::State, b: M::State| #[trigger] M::same_state(a, b) ==> M::same_state(b, a)
    &&& forall|a: M::State, b: M::State, c: M::State|
        #[trigger] M::same_state(a, b) && #[trigger] M::same_state(b, c) ==> M::same_state(a, c)
    &&& forall|m: M, a: M::State, b: M::State, i: M::Input, o: M::Output|
        #![trigger M::same_state(a, b), m.step_spec(a, i, o)]
        M::same_state(a, b) ==> same_outcome::<M>(m.step_spec(a, i, o), m.step_spec(b, i, o))
}

/// `clone` on `T` yields an equal value.
pub open spec fn clone_copies<T: Clone>() -> bool {
    forall|a: T, b: T| #[trigger] vstd::pervasive::strictly_cloned(a, b) ==> a == b
}

/// `==` on `T` is mathematical equality.
pub open spec fn eq_is_identity<T: PartialEq>() -> bool {
    &&& T::obeys_eq_spec()
    &&& forall|a: T, b: T| #[trigger] a.eq_spec(&b) <==> a == b
}

/// `clone` on states yields the same state.
pub open spec fn clone_keeps_state<M: Model>() -> bool {
    forall|a: M::State, b: M::State| #[trigger] vstd::pervasive::strictly_cloned(a, b) ==> M::same_state(a, b)
}

/// `==` on states is `same_state`.
pub open spec fn eq_is_same_state<M: Model>() -> bool {
    &&& M::State::obeys_eq_spec()
    &&& forall|a: M::State, b: M::State| #[trigger] a.eq_spec(&b) <==> M::same_state(a, b)
}

/// The conditions under which the checker's answers are exact: the model's
/// methods compute its spec functions, up to `same_state`, which the steps
/// respect; clones of states are the same state and clones of inputs and
/// outputs are copies; and `==` on states is `same_state`.
pub open spec fn faithful<M: Model>() -> bool {
    &&& M::obeys_model_spec()
    &&& same_state_respected::<M>()
    &&& clone_keeps_state::<M>()
    &&& clone_copies::<M::Input>()
    &&& clone_copies::<M::Output>()
    &&& eq_is_same_state::<M>()
}

/// The distinct elements of `s` in the order of their first occurrence.
pub open spec fn first_occurrences<T>(s: Seq<T>) -> Seq<T>
    decreases s.len(),
{
    if s.len() == 0 {
        Seq::empty()
    } else {
        let o = first_occurrences(s.drop_last());
        if o.contains(s.last()) {
            o
        } else {
            o.push(s.last())
        }
    }
}

/// `first_occurrences` lists each element of `s` once.
pub proof fn lemma_first_occurrences<T>(s: Seq<T>)
    ensures
        first_occurrences(s).no_duplicates(),
        forall|x: T| first_occurrences(s).contains(x) <==> s.contains(x),
    decreases s.len(),
{
    if s.len() > 0 {
        let d = s.drop_last();
        lemma_first_occurrences(d);
        let o = first_occurrences(d);
        assert forall|x: T| first_occurrences(s).contains(x) <==> s.contains(x) by {
            if d.contains(x) {
                let j = choose|j: int| 0 <= j < d.len() && d[j] == x;
                assert(s[j] == x);
            }
            if s.contains(x) {
                let j = choose|j: int| 0 <= j < s.len() && s[j] == x;
                if j < d.len() {
                    assert(d[j] == x);
                }
            }
            if !o.contains(s.last()) && o.push(s.last()).contains(x) {
                let j = choose|j: int| 0 <= j < o.len() + 1 && o.push(s.last())[j] == x;
                if j < o.len() {
                    assert(o[j] == x);
                }
            }
            if !o.contains(s.last()) && o.contains(x) {
                let j = choose|j: int| 0 <= j < o.len() && o[j] == x;
                assert(o.push(s.last())[j] == x);
            }
            if !o.contains(s.last()) && x == s.last() {
                assert(o.push(s.last())[o.len() as int] == x);
            }
        }
    }
}

/// Some element of `v` is `==` to `x`.
pub open spec fn has_eq<S: PartialEq>(v: Seq<S>, x: S) -> bool {
    exists|k: int| 0 <= k < v.len() && #[trigger] v[k].eq_spec(&x)
}

/// The elements of `s` that are kept when each is dropped if it is `==` to
/// one kept before it: the first of every group of `==` elements, in order.
pub open spec fn first_reps<S: PartialEq>(s: Seq<S>) -> Seq<S>
    decreases s.len(),
{
    if s.len() == 0 {
        Seq::empty()
    } else {
        let o = first_reps(s.drop_last());
        if has_eq(o, s.last()) {
            o
        } else {
            o.push(s.last())
        }
    }
}

/// No element of `t` is `==` to a later one.
pub open spec fn no_eq_pairs<S: PartialEq>(t: Seq<S>) -> bool {
    forall|k: int, j: int| 0 <= k < j < t.len() ==> !#[trigger] t[k].eq_spec(&t[j])
}

/// What `first_reps` keeps: elements of `s`, no one `==` to a later one, and
/// every element of `s` is kept or `==` to one kept.
pub proof fn lemma_first_reps<S: PartialEq>(s: Seq<S>)
    ensures
        no_eq_pairs(first_reps(s)),
        forall|k: int| 0 <= k < first_reps(s).len() ==> s.contains(#[trigger] first_reps(s)[k]),
        forall|i: int| 0 <= i < s.len() ==> first_reps(s).contains(#[trigger] s[i]) || has_eq(first_reps(s), s[i]),
        first_reps(s).len() <= s.len(),
    decreases s.len(),
{
    if s.len() > 0 {
        let d = s.drop_last();
        lemma_first_reps(d);
        let o = first_reps(d);
        let x = s.last();
        assert forall|k: int| 0 <= k < first_reps(s).len() implies s.contains(#[trigger] first_reps(s)[k]) by {
            if k < o.len() {
                assert(d.contains(o[k]));
                let j = choose|j: int| 0 <= j < d.len() && d[j] == o[k];
                assert(s[j] == o[k]);
            } else {
                assert(s[s.len() - 1] == x);
            }
        }
        assert forall|i: int| 0 <= i < s.len() implies first_reps(s).contains(#[trigger] s[i]) || has_eq(
            first_reps(s),
            s[i],
        ) by {
            if i < d.len() {
                assert(s[i] == d[i]);
                if !has_eq(o, x) {
                    if o.contains(d[i]) {
                        let k = choose|k: int| 0 <= k < o.len() && o[k] == d[i];
                        assert(o.push(x)[k] == d[i]);
                    } else {
                        let k = choose|k: int| 0 <= k < o.len() && #[trigger] o[k].eq_spec(&d[i]);
                        assert(o.push(x)[k] == o[k]);
                    }
                }
            } else if !has_eq(o, x) {
                assert(o.push(x)[o.len() as int] == x);
            }
        }
        if !has_eq(o, x) {
            assert forall|k: int, j: int| 0 <= k < j < o.push(x).len() implies !#[trigger] o.push(x)[k].eq_spec(
                &o.push(x)[j],
            ) by {
                if j == o.len() {
                    assert(o.push(x)[k] == o[k]);
                }
            }
        }
    }
}

/// A sequence with no `==` pair keeps all its elements.
proof fn lemma_first_reps_keeps<S: PartialEq>(t: Seq<S>)
    requires
        no_eq_pairs(t),
    ensures
        first_reps(t) == t,
    decreases t.len(),
{
    if t.len() > 0 {
        let d = t.drop_last();
        assert(no_eq_pairs(d)) by {
            assert forall|k: int, j: int| 0 <= k < j < d.len() implies !#[trigger] d[k].eq_spec(&d[j]) by {
                assert(d[k] == t[k] && d[j] == t[j]);
            }
        }
        lemma_first_reps_keeps(d);
        assert(!has_eq(d, t.last())) by {
            assert forall|k: int| 0 <= k < d.len() implies !#[trigger] d[k].eq_spec(&t.last()) by {
                assert(d[k] == t[k]);
                assert(!t[k].eq_spec(&t[t.len() - 1]));
            }
        }
        assert(d.push(t.last()) =~= t);
    }
}

/// Deduplicating twice is deduplicating once.
pub proof fn lemma_first_reps_idempotent<S: PartialEq>(s: Seq<S>)
    ensures
        first_reps(first_reps(s)) == first_reps(s),
{
    lemma_first_reps(s);
    lemma_first_reps_keeps(first_reps(s));
}

/// Where `==` is equality, keeping first representatives is keeping first
/// occurrences.
proof fn lemma_first_reps_identity<S: PartialEq>(s: Seq<S>)
    requires
        eq_is_identity::<S>(),
    ensures
        first_reps(s) == first_occurrences(s),
    decreases s.len(),
{
    if s.len() > 0 {
        let d = s.drop_last();
        lemma_first_reps_identity(d);
        let o = first_reps(d);
        let x = s.last();
        if has_eq(o, x) {
            let k = choose|k: int| 0 <= k < o.len() && #[trigger] o[k].eq_spec(&x);
            assert(o[k] == x);
        }
        if o.contains(x) {
            let k = choose|k: int| 0 <= k < o.len() && o[k] == x;
            assert(o[k].eq_spec(&x));
        }
    }
}

/// Whether `v` holds an element `==` to `x`.
fn contains_eq<S: PartialEq>(v: &Vec<S>, x: &S) -> (r: bool)
    ensures
        S::obeys_eq_spec() ==> r == has_eq(v@, *x),
{
    let mut i: usize = 0;
    while i < v.len()
        invariant
            i <= v@.len(),
            S::obeys_eq_spec() ==> forall|k: int| 0 <= k < i ==> !#[trigger] v@[k].eq_spec(x),
        decreases v@.len() - i,
    {
        if v[i] == *x {
            proof {
                if S::obeys_eq_spec() {
                    assert(v@[i as int].eq_spec(x));
                }
            }
            return true;
        }
        i = i + 1;
    }
    false
}

/// Remove duplicate states from `states`, keeping the first occurrence of
/// each, in order: a state is dropped when it is `==` to one already kept.
pub fn deduplicate<S: PartialEq>(states: Vec<S>) -> (r: Vec<S>)
    ensures
        r@.len() <= states@.len(),
        forall|k: int| 0 <= k < r@.len() ==> states@.contains(#[trigger] r@[k]),
        S::obeys_eq_spec() ==> r@ == first_reps(states@),
        eq_is_identity::<S>() ==> r@ == first_occurrences(states@),
{
    let ghost all = states@;
    let mut out: Vec<S> = Vec::with_capacity(states.len());
    proof {
        assert(all.take(0) =~= Seq::<S>::empty());
    }
    for s in it: states
        invariant
            all == it.seq(),
            out@.len() <= it.index(),
            forall|k: int| 0 <= k < out@.len() ==> all.contains(#[trigger] out@[k]),
            S::obeys_eq_spec() ==> out@ == first_reps(all.take(it.index() as int)),
    {
        let ghost k = it.index() as int;
        proof {
            assert(all[k] == s);
            let t = all.take(k + 1);
            assert(t.drop_last() =~= all.take(k));
            assert(t.last() == s);
        }
        if !contains_eq(&out, &s) {
            out.push(s);
            proof {
                assert forall|j: int| 0 <= j < out@.len() implies all.contains(#[trigger] out@[j]) by {
                    if j == out@.len() - 1 {
                        assert(all[k] == out@[j]);
                    }
                }
            }
        }
    }
    proof {
        assert(all.take(all.len() as int) =~= all);
        if eq_is_identity::<S>() {
            lemma_first_reps_identity(all);
        }
    }
    out
}

/// A nondeterministic sequential specification: `step` returns every valid
/// successor of a state; none means the transition is invalid.
/// `init_spec` and `step_spec` state what `init` and `step` return;
/// `obeys_nd_model_spec` says whether the executable methods agree with them.
pub trait NondeterministicModel {
    /// The concrete (per-branch) state type.
    type State: Clone + PartialEq;

    /// The type of operation inputs.
    type Input: Clone;

    /// The type of operation outputs.
    type Output: Clone;

    /// Whether `init` and `step` compute exactly `init_spec` and `step_spec`.
    /// A model that states nothing of itself does not.
    open spec fn obeys_nd_model_spec() -> bool {
        false
    }

    /// All possible initial states.
    open spec fn init_spec(&self) -> Seq<Self::State> {
        Seq::empty()
    }

    /// All valid successors of `state` under `input`/`output`.
    open spec fn step_spec(&self, state: Self::State, input: Self::Input, output: Self::Output) -> Seq<Self::State> {
        Seq::empty()
    }

    /// Returns all possible initial states.
    fn init(&self) -> (r: Vec<Self::State>)
        ensures
            Self::obeys_nd_model_spec() ==> r@ == self.init_spec(),
    ;

    /// Returns all valid successor states for the given transition; none when
    /// the transition is rejected.
    fn step(&self, state: &Self::State, input: &Self::Input, output: &Self::Output) -> (r: Vec<Self::State>)
        ensures
            Self::obeys_nd_model_spec() ==> r@ == self.step_spec(*state, *input, *output),
    ;

    /// Optionally partition an operation history into independent sub-histories.
    fn partition(&self, history: &[Operation<Self::Input, Self::Output>]) -> (r: Option<Vec<Vec<usize>>>)
        default_ensures
            r is None,
    {
        None
    }

    /// Optionally partition an event-based history into independent sub-histories.
    fn partition_events(&self, history: &[Event<Self::Input, Self::Output>]) -> (r: Option<
        Vec<Vec<usize>>,
    >)
        default_ensures
            r is None,
    {
        None
    }
}

/// The successors of every state of `states`, state after state.
pub open spec fn successors<M: NondeterministicModel>(m: M, states: Seq<M::State>, input: M::Input, output: M::Output) -> Seq<
    M::State,
>
    decreases states.len(),
{
    if states.len() == 0 {
        Seq::empty()
    } else {
        successors(m, states.drop_last(), input, output) + m.step_spec(states.last(), input, output)
    }
}

/// Some vector holds the elements `s`.
pub open spec fn has_vec<T>(s: Seq<T>) -> bool {
    exists|v: Vec<T>| v@ == s
}

/// A vector with the elements `s`.
pub open spec fn vec_with_view<T>(s: Seq<T>) -> Vec<T> {
    choose|v: Vec<T>| v@ == s
}

/// Adapts a [`NondeterministicModel`] into a [`Model`] by the power-set
/// construction: a state is the list of all concrete states the system could
/// be in, each once; a step fans out over all of them and keeps every
/// successor once, and is rejected when there is none.
pub struct PowerSetModel<M>(pub M);

impl<M: NondeterministicModel> Model for PowerSetModel<M> {
    /// The power-state: the concrete states reachable so far.
    type State = Vec<M::State>;

    type Input = M::Input;

    type Output = M::Output;

    open spec fn obeys_model_spec() -> bool {
        &&& M::obeys_nd_model_spec()
        &&& eq_is_identity::<M::State>()
    }

    /// Two power-states are the same when they list the same states in the
    /// same order.
    open spec fn same_state(a: Vec<M::State>, b: Vec<M::State>) -> bool {
        a@ == b@
    }

    open spec fn init_spec(&self) -> Vec<M::State> {
        vec_with_view(first_occurrences(self.0.init_spec()))
    }

    open spec fn step_spec(&self, state: Vec<M::State>, input: M::Input, output: M::Output) -> Option<
        Vec<M::State>,
    > {
        let succ = first_occurrences(successors(self.0, state@, input, output));
        if succ.len() == 0 || !has_vec(succ) {
            None
        } else {
            Some(vec_with_view(succ))
        }
    }

    fn init(&self) -> (r: Vec<M::State>)
        ensures
            M::obeys_nd_model_spec() && M::State::obeys_eq_spec() ==> r@ == first_reps(self.0.init_spec()),
            M::obeys_nd_model_spec() && eq_is_identity::<M::State>() ==> r@ == first_occurrences(self.0.init_spec()),
    {
        let r = deduplicate(self.0.init());
        proof {
            if Self::obeys_model_spec() {
                assert(r@ == first_occurrences(self.0.init_spec()));
                assert(vec_with_view(first_occurrences(self.0.init_spec()))@ == r@);
            }
        }
        r
    }

    fn step(&self, state: &Vec<M::State>, input: &M::Input, output: &M::Output) -> (r: Option<Vec<M::State>>)
        ensures
            M::obeys_nd_model_spec() && M::State::obeys_eq_spec() ==> match r {
                Some(v) => v@ == first_reps(successors(self.0, state@, *input, *output)) && v@.len() > 0,
                None => first_reps(successors(self.0, state@, *input, *output)).len() == 0,
            },
            M::obeys_nd_model_spec() && eq_is_identity::<M::State>() ==> match r {
                Some(v) => v@ == first_occurrences(successors(self.0, state@, *input, *output)) && v@.len() > 0,
                None => first_occurrences(successors(self.0, state@, *input, *output)).len() == 0,
            },
    {
        let mut succ: Vec<M::State> = Vec::new();
        proof {
            assert(state@.take(0) =~= Seq::<M::State>::empty());
        }
        for k in 0..state.len()
            invariant
                M::obeys_nd_model_spec() ==> succ@ == successors(self.0, state@.take(k as int), *input, *output),
        {
            let mut next = self.0.step(&state[k], input, output);
            succ.append(&mut next);
            proof {
                let t = state@.take(k + 1);
                assert(t.drop_last() =~= state@.take(k as int));
                assert(t.last() == state@[k as int]);
            }
        }
        proof {
            assert(state@.take(state@.len() as int) =~= state@);
        }
        let deduped = deduplicate(succ);
        if deduped.len() == 0 {
            None
        } else {
            proof {
                if Self::obeys_model_spec() {
                    assert(vec_with_view(deduped@)@ == deduped@);
                }
            }
            Some(deduped)
        }
    }

    /// The partitioning that the wrapped model returns for `history`.
    fn partition(&self, history: &[Operation<M::Input, M::Output>]) -> (r: Option<Vec<Vec<usize>>>)
        ensures
            call_ensures(M::partition, (&self.0, history), r),
    {
        self.0.partition(history)
    }

    /// The partitioning that the wrapped model returns for the event history.
    fn partition_events(&self, history: &[Event<M::Input, M::Output>]) -> (r: Option<Vec<Vec<usize>>>)
        ensures
            call_ensures(M::partition_events, (&self.0, history), r),
    {
        self.0.partition_events(history)
    }
}

/// The states that `m` can reach in one step under `input`/`output` from
/// some state of `states`.
pub open spec fn nd_step_set<M: NondeterministicModel>(m: M, states: Set<M::State>, input: M::Input, output: M::Output) -> Set<
    M::State,
> {
    Set::new(|t: M::State| exists|s: M::State| states.contains(s) && m.step_spec(s, input, output).contains(t))
}

/// Starting from the set of states `states`, the nondeterministic model can
/// take every operation of `h` in the order `order`: after each one some state
/// is still reachable.
pub open spec fn nd_accepts<M: NondeterministicModel>(
    m: M,
    states: Set<M::State>,
    h: Seq<AbsOp<M::Input, M::Output>>,
    order: Seq<int>,
) -> bool
    decreases order.len(),
{
    if order.len() == 0 {
        true
    } else {
        let next = nd_step_set(m, states, h[order[0]].input, h[order[0]].output);
        &&& exists|t: M::State| next.contains(t)
        &&& nd_accepts(m, next, h, order.drop_first())
    }
}

/// Some ordering of the operations of `h` respects real-time precedence and
/// can be taken by the nondeterministic model from its initial states.
pub open spec fn nd_linearizable<M: NondeterministicModel>(m: M, h: Seq<AbsOp<M::Input, M::Output>>) -> bool {
    exists|order: Seq<int>|
        is_permutation(order, h.len()) && respects_real_time(h, order) && #[trigger] nd_accepts(
            m,
            m.init_spec().to_set(),
            h,
            order,
        )
}

/// Every power-state that the power-set construction builds along `order`
/// from the power-state `s` can be held in a vector.
pub open spec fn ps_representable<M: NondeterministicModel>(
    m: M,
    s: Seq<M::State>,
    h: Seq<AbsOp<M::Input, M::Output>>,
    order: Seq<int>,
) -> bool
    decreases order.len(),
{
    if order.len() == 0 {
        true
    } else {
        let succ = first_occurrences(successors(m, s, h[order[0]].input, h[order[0]].output));
        succ.len() > 0 ==> has_vec(succ) && ps_representable(m, succ, h, order.drop_first())
    }
}

/// `t` is reachable in one step from some state of `states`.
pub open spec fn reachable_from<M: NondeterministicModel>(
    m: M,
    states: Seq<M::State>,
    input: M::Input,
    output: M::Output,
    t: M::State,
) -> bool {
    exists|k: int| 0 <= k < states.len() && #[trigger] m.step_spec(states[k], input, output).contains(t)
}

/// The successors of a list of states are the states reachable in one step
/// from one of them.
pub proof fn lemma_successors<M: NondeterministicModel>(m: M, states: Seq<M::State>, input: M::Input, output: M::Output)
    ensures
        forall|t: M::State|
            #[trigger] successors(m, states, input, output).contains(t) <==> reachable_from(m, states, input, output, t),
    decreases states.len(),
{
    if states.len() > 0 {
        let d = states.drop_last();
        let last = states.last();
        lemma_successors(m, d, input, output);
        let prev = successors(m, d, input, output);
        let here = m.step_spec(last, input, output);
        let all = prev + here;
        assert(successors(m, states, input, output) == all);
        assert forall|t: M::State| #[trigger] all.contains(t) <==> reachable_from(m, states, input, output, t) by {
            if all.contains(t) {
                let j = choose|j: int| 0 <= j < all.len() && all[j] == t;
                if j < prev.len() {
                    assert(prev[j] == t);
                    assert(prev.contains(t));
                    assert(reachable_from(m, d, input, output, t));
                    let k = choose|k: int| 0 <= k < d.len() && #[trigger] m.step_spec(d[k], input, output).contains(t);
                    assert(states[k] == d[k]);
                } else {
                    assert(here[j - prev.len()] == t);
                    assert(here.contains(t));
                    assert(states[states.len() - 1] == last);
                    assert(m.step_spec(states[states.len() - 1], input, output).contains(t));
                }
            }
            if reachable_from(m, states, input, output, t) {
                let k = choose|k: int| 0 <= k < states.len() && #[trigger] m.step_spec(states[k], input, output).contains(t);
                if k < d.len() {
                    assert(d[k] == states[k]);
                    assert(m.step_spec(d[k], input, output).contains(t));
                    assert(reachable_from(m, d, input, output, t));
                    assert(prev.contains(t));
                    let j = choose|j: int| 0 <= j < prev.len() && prev[j] == t;
                    assert(all[j] == t);
                } else {
                    assert(states[k] == last);
                    let j = choose|j: int| 0 <= j < here.len() && here[j] == t;
                    assert(all[prev.len() + j] == t);
                }
            }
        }
    }
}

/// One step of the power-set construction: the new power-state lists, each
/// once, exactly the states reachable in one step from a state of the old one.
pub proof fn lemma_power_set_step<M: NondeterministicModel>(m: M, states: Seq<M::State>, input: M::Input, output: M::Output)
    ensures
        first_occurrences(successors(m, states, input, output)).no_duplicates(),
        first_occurrences(successors(m, states, input, output)).to_set() == nd_step_set(
            m,
            states.to_set(),
            input,
            output,
        ),
{
    lemma_successors(m, states, input, output);
    lemma_first_occurrences(successors(m, states, input, output));
    assert forall|t: M::State| #[trigger] nd_step_set(m, states.to_set(), input, output).contains(t) <==> reachable_from(
        m,
        states,
        input,
        output,
        t,
    ) by {
        if reachable_from(m, states, input, output, t) {
            let k = choose|k: int| 0 <= k < states.len() && #[trigger] m.step_spec(states[k], input, output).contains(t);
            assert(states.to_set().contains(states[k]));
        }
        if nd_step_set(m, states.to_set(), input, output).contains(t) {
            let s = choose|s: M::State| states.to_set().contains(s) && m.step_spec(s, input, output).contains(t);
            let k = choose|k: int| 0 <= k < states.len() && states[k] == s;
            assert(m.step_spec(states[k], input, output).contains(t));
        }
    }
    let fo = first_occurrences(successors(m, states, input, output));
    assert forall|t: M::State| fo.to_set().contains(t) <==> nd_step_set(m, states.to_set(), input, output).contains(t) by {
        assert(fo.contains(t) <==> successors(m, states, input, output).contains(t));
    }
    assert(first_occurrences(successors(m, states, input, output)).to_set() =~= nd_step_set(
        m,
        states.to_set(),
        input,
        output,
    ));
}

/// The power-set model accepts an ordering from power-state `v` exactly when
/// the nondeterministic model can take it from the states of `v`; the
/// direction from the nondeterministic model holds where the power-states
/// built along the way can be held in vectors.
pub proof fn lemma_power_set_accepts<M: NondeterministicModel>(
    m: M,
    v: Vec<M::State>,
    h: Seq<AbsOp<M::Input, M::Output>>,
    order: Seq<int>,
)
    ensures
        accepts(PowerSetModel(m), v, h, order) ==> nd_accepts(m, v@.to_set(), h, order),
        nd_accepts(m, v@.to_set(), h, order) && ps_representable(m, v@, h, order) ==> accepts(
            PowerSetModel(m),
            v,
            h,
            order,
        ),
    decreases order.len(),
{
    if order.len() > 0 {
        let b = order[0];
        let input = h[b].input;
        let output = h[b].output;
        let succ = first_occurrences(successors(m, v@, input, output));
        lemma_power_set_step(m, v@, input, output);
        let next = nd_step_set(m, v@.to_set(), input, output);
        if succ.len() > 0 && has_vec(succ) {
            let w = vec_with_view(succ);
            assert(w@ == succ);
            lemma_power_set_accepts(m, w, h, order.drop_first());
            assert(w@.to_set() == next);
            assert(succ.contains(succ[0]));
            assert(next.contains(succ[0]));
        } else if succ.len() == 0 {
            assert(succ.to_set() =~= Set::<M::State>::empty());
            assert(!(exists|t: M::State| next.contains(t)));
        }
    }
}

/// Power-set reduction: where the initial power-state and every power-state
/// built along every ordering can be held in vectors, the power-set model of
/// `m` is linearizable for `h` exactly when the nondeterministic model is;
/// the direction to the nondeterministic model needs only the first.
pub proof fn lemma_power_set_linearizable<M: NondeterministicModel>(m: M, h: Seq<AbsOp<M::Input, M::Output>>)
    requires
        has_vec(first_occurrences(m.init_spec())),
    ensures
        linearizable(PowerSetModel(m), h) ==> nd_linearizable(m, h),
        (forall|order: Seq<int>| #[trigger] ps_representable(m, first_occurrences(m.init_spec()), h, order))
            ==> (nd_linearizable(m, h) ==> linearizable(PowerSetModel(m), h)),
{
    let psm = PowerSetModel(m);
    let init = psm.init_spec();
    assert(init@ == first_occurrences(m.init_spec()));
    lemma_first_occurrences(m.init_spec());
    assert(init@.to_set() =~= m.init_spec().to_set());
    if linearizable(psm, h) {
        let order = choose|order: Seq<int>| crate::history::is_linearization(psm, h, order);
        lemma_power_set_accepts(m, init, h, order);
        assert(nd_accepts(m, m.init_spec().to_set(), h, order));
    }
    if (forall|order: Seq<int>| #[trigger] ps_representable(m, first_occurrences(m.init_spec()), h, order))
        && nd_linearizable(m, h) {
        let order = choose|order: Seq<int>|
            is_permutation(order, h.len()) && respects_real_time(h, order) && #[trigger] nd_accepts(
                m,
                m.init_spec().to_set(),
                h,
                order,
            );
        assert(ps_representable(m, first_occurrences(m.init_spec()), h, order));
        lemma_power_set_accepts(m, init, h, order);
        assert(crate::history::is_linearization(psm, h, order));
    }
}

/// The successor list of a deterministic step: its successor, if any.
pub open spec fn det_successors<S>(r: Option<S>) -> Seq<S> {
    match r {
        Some(t) => seq![t],
        None => Seq::empty(),
    }
}

/// From one state, a nondeterministic model whose steps are those of a
/// deterministic model takes an ordering exactly when the deterministic model
/// accepts it.
proof fn lemma_single_successor_accepts<M: NondeterministicModel, D: Model<State = M::State, Input = M::Input, Output = M::Output>>(
    m: M,
    d: D,
    s: M::State,
    h: Seq<AbsOp<M::Input, M::Output>>,
    order: Seq<int>,
)
    requires
        forall|x: M::State, i: M::Input, o: M::Output| #[trigger] m.step_spec(x, i, o) == det_successors(d.step_spec(x, i, o)),
    ensures
        nd_accepts(m, set![s], h, order) == accepts(d, s, h, order),
    decreases order.len(),
{
    if order.len() > 0 {
        let b = order[0];
        let next = nd_step_set(m, set![s], h[b].input, h[b].output);
        assert(m.step_spec(s, h[b].input, h[b].output) == det_successors(d.step_spec(s, h[b].input, h[b].output)));
        match d.step_spec(s, h[b].input, h[b].output) {
            Some(t) => {
                assert(seq![t][0] == t);
                assert(seq![t].contains(t));
                assert(next =~= set![t]) by {
                    assert forall|u: M::State| next.contains(u) <==> u == t by {
                        if u == t {
                            assert(set![s].contains(s));
                            assert(m.step_spec(s, h[b].input, h[b].output).contains(t));
                        }
                        if next.contains(u) {
                            let x = choose|x: M::State| set![s].contains(x) && m.step_spec(x, h[b].input, h[b].output).contains(u);
                            assert(x == s);
                        }
                    }
                }
                assert(next.contains(t));
                lemma_single_successor_accepts(m, d, t, h, order.drop_first());
                assert(nd_accepts(m, set![s], h, order) == nd_accepts(m, set![t], h, order.drop_first()));
            },
            None => {
                assert forall|u: M::State| !next.contains(u) by {
                    if next.contains(u) {
                        let x = choose|x: M::State| set![s].contains(x) && m.step_spec(x, h[b].input, h[b].output).contains(u);
                        assert(x == s);
                    }
                }
            },
        }
    }
}

/// A nondeterministic model whose initial states and steps are those of a
/// deterministic model, as single successors, is linearizable for exactly the
/// histories that the deterministic model is.
pub proof fn lemma_single_successor_agrees<M: NondeterministicModel, D: Model<State = M::State, Input = M::Input, Output = M::Output>>(
    m: M,
    d: D,
    h: Seq<AbsOp<M::Input, M::Output>>,
)
    requires
        m.init_spec() == seq![d.init_spec()],
        forall|x: M::State, i: M::Input, o: M::Output| #[trigger] m.step_spec(x, i, o) == det_successors(d.step_spec(x, i, o)),
    ensures
        nd_linearizable(m, h) <==> linearizable(d, h),
{
    assert(m.init_spec().to_set() =~= set![d.init_spec()]) by {
        assert(m.init_spec()[0] == d.init_spec());
    }
    if nd_linearizable(m, h) {
        let order = choose|order: Seq<int>|
            is_permutation(order, h.len()) && respects_real_time(h, order) && #[trigger] nd_accepts(
                m,
                m.init_spec().to_set(),
                h,
                order,
            );
        lemma_single_successor_accepts(m, d, d.init_spec(), h, order);
        assert(crate::history::is_linearization(d, h, order));
    }
    if linearizable(d, h) {
        let order = choose|order: Seq<int>| crate::history::is_linearization(d, h, order);
        lemma_single_successor_accepts(m, d, d.init_spec(), h, order);
        assert(nd_accepts(m, m.init_spec().to_set(), h, order));
    }
}

/// The power-set model of a nondeterministic model that computes its spec
/// functions, whose clones are copies and whose `==` on states is equality, is
/// a faithful model: power-states are the same when they list the same states.
pub proof fn lemma_power_set_faithful<M: NondeterministicModel>()
    requires
        M::obeys_nd_model_spec(),
        clone_copies::<M::State>(),
        clone_copies::<M::Input>(),
        clone_copies::<M::Output>(),
        eq_is_identity::<M::State>(),
    ensures
        faithful::<PowerSetModel<M>>(),
{
    assert forall|a: Vec<M::State>, b: Vec<M::State>| #[trigger] vstd::pervasive::strictly_cloned(a, b) implies a@
        == b@ by {
        assert forall|i: int| 0 <= i < a@.len() implies a@[i] == b@[i] by {
            assert(vstd::pervasive::cloned(a[i], b[i]));
        }
        assert(a@ =~= b@);
    }
    assert forall|a: Vec<M::State>, b: Vec<M::State>| #[trigger] a.eq_spec(&b) <==> a@ == b@ by {
        if a.eq_spec(&b) {
            assert forall|i: int| 0 <= i < a@.len() implies a@[i] == b@[i] by {
                assert(a[i].eq_spec(&b[i]));
            }
            assert(a@ =~= b@);
        }
        if a@ == b@ {
            assert forall|i: int| 0 <= i < a.len() implies a[i].eq_spec(&b[i]) by {
                assert(a[i] == b[i]);
            }
        }
    }
    assert forall|m: PowerSetModel<M>, a: Vec<M::State>, b: Vec<M::State>, i: M::Input, o: M::Output|
        #![trigger PowerSetModel::<M>::same_state(a, b), m.step_spec(a, i, o)]
        PowerSetModel::<M>::same_state(a, b) implies same_outcome::<PowerSetModel<M>>(m.step_spec(a, i, o), m.step_spec(b, i, o)) by {
        assert(m.step_spec(a, i, o) == m.step_spec(b, i, o));
    }
}

} // verus!
