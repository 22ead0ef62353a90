# porcupine

A linearizability checker for histories of concurrent operations, verified
with Verus. A history is linearizable when its operations can be put in an
order that respects real-time precedence (an operation that returned before
another was called comes first) and that a sequential model accepts step by
step from its initial state.

## Layout

- `src/history.rs` — what linearizability means: abstract histories,
  linearizations, and the completion view that the search works with.
- `src/entries.rs`, `src/events.rs` — flattening operation histories and event
  histories into time-ordered call/return entries; renumbering event ids;
  checking that an event history is well formed.
- `src/arena.rs` — the doubly-linked list of entries out of which the search
  lifts an operation's call and return, and puts them back.
- `src/bitset.rs` — the set of linearized operations, on a `smallvec` word store.
- `src/search.rs` — the depth-first search with backtracking and a cache of
  (linearized set, state) pairs; proved to answer exactly whether the entry
  list is linearizable.
- `src/invariants.rs` — checks on the partitions that a model returns.
- `src/checker.rs` — `check_operations` and `check_events`: partitioning,
  checking partitions in turn or on the `rayon` thread pool, timeouts.
- `src/model.rs` — the `Model` and `NondeterministicModel` traits and the
  power-set adapter, with its reduction laws.
- `src/clock.rs`, `src/fxmap.rs` — the monotonic clock and `rustc_hash` maps.
- `app/lib.rs` — entry points that check the checks' preconditions at run time.

The answers are exact for models whose executable methods compute their spec
functions (`Model::obeys_model_spec`) up to `Model::same_state`, which their
steps respect, whose states clone to the same state and whose inputs and
outputs clone to equal values, with `==` on states being `same_state`
(`model::faithful`). A check's verdict is for the partitioning that the
model's `partition` (or `partition_events`) returns for the history.
