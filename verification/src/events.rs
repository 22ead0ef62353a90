//! Event-based histories: renumbering their operation ids and flattening them
//! into entries, with the slice position of an event as its instant.
use crate::entries::{
    call_pos, entries_history, entries_well_formed, has_endpoints, input_of, is_call_of, is_return_of,
    lemma_entry_positions, n_ops, output_of, ret_pos, Entry, EntryValue,
};
use crate::fxmap::{fx_get, fx_insert, fx_new};
use crate::entries::{ops_history, ops_well_formed};
use crate::history::{precedes, same_shape, AbsOp};
use crate::types::Operation;
use crate::model::{clone_copies, first_occurrences, lemma_first_occurrences};
use crate::types::{Event, EventKind};
use rustc_hash::FxHashMap;
use std::collections::HashMap;
use vstd::prelude::*;

verus! {

/// `b` is a clone of `a`: both absent, or both present with the second a clone
/// of the first.
pub open spec fn opt_cloned<T: Clone>(a: Option<T>, b: Option<T>) -> bool {
    match (a, b) {
        (Some(x), Some(y)) => vstd::pervasive::strictly_cloned(x, y),
        (None, None) => true,
        _ => false,
    }
}

/// The operation ids of a sequence of events, in order.
pub open spec fn event_ids<I, O>(evs: Seq<Event<I, O>>) -> Seq<u64> {
    Seq::new(evs.len(), |p: int| evs[p].id)
}

/// Clone an optional value, element by element.
fn clone_opt<T: Clone>(x: &Option<T>) -> (r: Option<T>)
    ensures
        opt_cloned(*x, r),
{
    match x {
        Some(v) => Some(v.clone()),
        None => None,
    }
}

/// Renumber the operation ids of `events` to be contiguous from 0, in the
/// order in which ids first occur; everything else is copied.
pub fn renumber<I: Clone, O: Clone>(events: &[Event<I, O>]) -> (r: Vec<Event<I, O>>)
    ensures
        r@.len() == events@.len(),
        forall|p: int|
            0 <= p < r@.len() ==> {
                &&& (#[trigger] r@[p]).client_id == events@[p].client_id
                &&& r@[p].kind == events@[p].kind
                &&& opt_cloned(events@[p].input, r@[p].input)
                &&& opt_cloned(events@[p].output, r@[p].output)
                &&& r@[p].id < first_occurrences(event_ids(events@)).len()
                &&& first_occurrences(event_ids(events@))[r@[p].id as int] == events@[p].id
            },
        first_occurrences(event_ids(events@)).no_duplicates(),
        first_occurrences(event_ids(events@)).len() <= events@.len(),
        renumbered_ids(events@, r@),
{
    let ghost ids = event_ids(events@);
    let mut out: Vec<Event<I, O>> = Vec::with_capacity(events.len());
    let mut map: FxHashMap<u64, u64> = fx_new();
    let mut next_id: u64 = 0;
    let ghost mut o: Seq<u64> = Seq::empty();
    proof {
        assert(ids.take(0) =~= Seq::<u64>::empty());
    }
    for i in 0..events.len()
        invariant
            ids == event_ids(events@),
            out@.len() == i,
            o == first_occurrences(ids.take(i as int)),
            o.no_duplicates(),
            o.len() <= i,
            next_id == o.len(),
            forall|x: u64| map@.contains_key(x) <==> o.contains(x),
            forall|j: int| 0 <= j < o.len() ==> map@[#[trigger] o[j]] == j,
            forall|p: int|
                0 <= p < i ==> {
                    &&& (#[trigger] out@[p]).client_id == events@[p].client_id
                    &&& out@[p].kind == events@[p].kind
                    &&& opt_cloned(events@[p].input, out@[p].input)
                    &&& opt_cloned(events@[p].output, out@[p].output)
                    &&& out@[p].id < o.len()
                    &&& o[out@[p].id as int] == events@[p].id
                },
    {
        let ev = &events[i];
        let ghost o0 = o;
        proof {
            let t = ids.take(i + 1);
            assert(t.drop_last() =~= ids.take(i as int));
            assert(t.last() == ev.id);
            lemma_first_occurrences(t);
        }
        let new_id = match fx_get(&map, &ev.id) {
            Some(v) => {
                proof {
                    let j = choose|j: int| 0 <= j < o.len() && o[j] == ev.id;
                    assert(map@[o[j]] == j);
                }
                *v
            },
            None => {
                let id = next_id;
                fx_insert(&mut map, ev.id, id);
                next_id = next_id + 1;
                proof {
                    o = o.push(ev.id);
                    assert forall|x: u64| map@.contains_key(x) <==> o.contains(x) by {
                        if o0.contains(x) {
                            let j = choose|j: int| 0 <= j < o0.len() && o0[j] == x;
                            assert(o[j] == x);
                        }
                        if o.contains(x) && x != ev.id {
                            let j = choose|j: int| 0 <= j < o.len() && o[j] == x;
                            assert(o0[j] == x);
                        }
                        assert(o[o0.len() as int] == ev.id);
                    }
                    assert forall|j: int| 0 <= j < o.len() implies map@[#[trigger] o[j]] == j by {
                        if j < o0.len() {
                            assert(o0[j] == o[j]);
                            assert(o0.contains(o0[j]));
                        }
                    }
                }
                id
            },
        };
        out.push(
            Event {
                client_id: ev.client_id,
                kind: ev.kind,
                input: clone_opt(&ev.input),
                output: clone_opt(&ev.output),
                id: new_id,
            },
        );
        proof {
            assert forall|p: int| 0 <= p < i + 1 implies {
                &&& (#[trigger] out@[p]).client_id == events@[p].client_id
                &&& out@[p].kind == events@[p].kind
                &&& opt_cloned(events@[p].input, out@[p].input)
                &&& opt_cloned(events@[p].output, out@[p].output)
                &&& out@[p].id < o.len()
                &&& o[out@[p].id as int] == events@[p].id
            } by {
                if p < i {
                    assert(o0[out@[p].id as int] == o[out@[p].id as int]);
                }
            }
        }
    }
    proof {
        assert(ids.take(events@.len() as int) =~= ids);
    }
    out
}

/// Every call event carries an input and every return event an output.
pub open spec fn payloads_present<I, O>(evs: Seq<Event<I, O>>) -> bool {
    forall|p: int|
        0 <= p < evs.len() ==> (#[trigger] evs[p].kind == EventKind::Call ==> evs[p].input is Some)
            && (evs[p].kind == EventKind::Return ==> evs[p].output is Some)
}

/// Flatten renumbered events into entries, one per event, with the event's
/// position as its instant.
pub fn convert_entries<I: Clone, O: Clone>(events: &[Event<I, O>]) -> (r: Vec<Entry<I, O>>)
    requires
        payloads_present(events@),
        forall|p: int| 0 <= p < events@.len() ==> (#[trigger] events@[p].id) <= usize::MAX,
    ensures
        r@.len() == events@.len(),
        forall|p: int|
            0 <= p < r@.len() ==> {
                &&& (#[trigger] r@[p]).id == events@[p].id
                &&& r@[p].time == p
                &&& (r@[p].value is Call <==> events@[p].kind == EventKind::Call)
                &&& (r@[p].value is Call ==> vstd::pervasive::strictly_cloned(
                    events@[p].input->Some_0,
                    input_of(r@[p].value),
                ))
                &&& (r@[p].value is Return ==> vstd::pervasive::strictly_cloned(
                    events@[p].output->Some_0,
                    output_of(r@[p].value),
                ))
            },
{
    let mut r: Vec<Entry<I, O>> = Vec::with_capacity(events.len());
    for i in 0..events.len()
        invariant
            payloads_present(events@),
            forall|p: int| 0 <= p < events@.len() ==> (#[trigger] events@[p].id) <= usize::MAX,
            r@.len() == i,
            forall|p: int|
                0 <= p < i ==> {
                    &&& (#[trigger] r@[p]).id == events@[p].id
                    &&& r@[p].time == p
                    &&& (r@[p].value is Call <==> events@[p].kind == EventKind::Call)
                    &&& (r@[p].value is Call ==> vstd::pervasive::strictly_cloned(
                        events@[p].input->Some_0,
                        input_of(r@[p].value),
                    ))
                    &&& (r@[p].value is Return ==> vstd::pervasive::strictly_cloned(
                        events@[p].output->Some_0,
                        output_of(r@[p].value),
                    ))
                },
    {
        let ev = &events[i];
        proof {
            assert(events@[i as int].id <= usize::MAX);
        }
        let value = match ev.kind {
            EventKind::Call => EntryValue::Call(ev.input.as_ref().unwrap().clone()),
            EventKind::Return => EntryValue::Return(ev.output.as_ref().unwrap().clone()),
        };
        r.push(Entry { id: ev.id as usize, time: i as u64, value });
    }
    r
}

/// Event `q` is the other half (call or return) of the operation of event `p`.
pub open spec fn is_partner<I, O>(evs: Seq<Event<I, O>>, p: int, q: int) -> bool {
    0 <= q < evs.len() && evs[q].id == evs[p].id && evs[q].kind != evs[p].kind
}

/// Event `p` has its other half in `evs`.
pub open spec fn has_partner<I, O>(evs: Seq<Event<I, O>>, p: int) -> bool {
    exists|q: int| #[trigger] is_partner(evs, p, q)
}

/// Every operation id occurs in exactly one call event, which carries an input,
/// and in exactly one later return event, which carries an output.
pub open spec fn events_well_formed<I, O>(evs: Seq<Event<I, O>>) -> bool {
    &&& payloads_present(evs)
    &&& forall|p: int, q: int|
        0 <= p < evs.len() && 0 <= q < evs.len() && p != q && #[trigger] evs[p].id == #[trigger] evs[q].id
            ==> evs[p].kind != evs[q].kind
    &&& forall|p: int, q: int|
        #![trigger evs[p].id, evs[q].id]
        0 <= p < evs.len() && 0 <= q < evs.len() && evs[p].id == evs[q].id && evs[p].kind == EventKind::Call
            && evs[q].kind == EventKind::Return ==> p < q
    &&& forall|p: int| 0 <= p < evs.len() ==> #[trigger] has_partner(evs, p)
}

/// Position of the event of kind `kind` of the operation with id `x`.
pub open spec fn event_pos<I, O>(evs: Seq<Event<I, O>>, x: u64, kind: EventKind) -> int {
    choose|p: int| 0 <= p < evs.len() && evs[p].id == x && evs[p].kind == kind
}

/// The abstract history of a sequence of events: one operation per distinct
/// id, in the order of first occurrence, called and returning at the positions
/// of its call and return events.
pub open spec fn events_history<I, O>(evs: Seq<Event<I, O>>) -> Seq<AbsOp<I, O>> {
    let o = first_occurrences(event_ids(evs));
    Seq::new(
        o.len(),
        |k: int|
            AbsOp {
                call: event_pos(evs, o[k], EventKind::Call),
                ret: event_pos(evs, o[k], EventKind::Return),
                input: evs[event_pos(evs, o[k], EventKind::Call)].input->Some_0,
                output: evs[event_pos(evs, o[k], EventKind::Return)].output->Some_0,
            },
    )
}

/// The event at position `p` is the unique event of its id and kind.
proof fn lemma_event_pos<I, O>(evs: Seq<Event<I, O>>, p: int)
    requires
        events_well_formed(evs),
        0 <= p < evs.len(),
    ensures
        event_pos(evs, evs[p].id, evs[p].kind) == p,
{
    let c = event_pos(evs, evs[p].id, evs[p].kind);
    assert(0 <= c < evs.len() && evs[c].id == evs[p].id && evs[c].kind == evs[p].kind);
}

/// Renumbering and flattening a well-formed event history gives a well-formed
/// entry list that describes the same history, where clones are copies.
pub proof fn lemma_entries_of_events<I: Clone, O: Clone>(
    evs: Seq<Event<I, O>>,
    rn: Seq<Event<I, O>>,
    es: Seq<Entry<I, O>>,
)
    requires
        events_well_formed(evs),
        rn.len() == evs.len(),
        forall|p: int|
            0 <= p < rn.len() ==> {
                &&& (#[trigger] rn[p]).kind == evs[p].kind
                &&& opt_cloned(evs[p].input, rn[p].input)
                &&& opt_cloned(evs[p].output, rn[p].output)
                &&& rn[p].id < first_occurrences(event_ids(evs)).len()
                &&& first_occurrences(event_ids(evs))[rn[p].id as int] == evs[p].id
            },
        first_occurrences(event_ids(evs)).no_duplicates(),
        es.len() == rn.len(),
        forall|p: int|
            0 <= p < es.len() ==> {
                &&& (#[trigger] es[p]).id == rn[p].id
                &&& (es[p].value is Call <==> rn[p].kind == EventKind::Call)
                &&& (es[p].value is Call ==> vstd::pervasive::strictly_cloned(
                    rn[p].input->Some_0,
                    input_of(es[p].value),
                ))
                &&& (es[p].value is Return ==> vstd::pervasive::strictly_cloned(
                    rn[p].output->Some_0,
                    output_of(es[p].value),
                ))
            },
    ensures
        entries_well_formed(es),
        clone_copies::<I>() && clone_copies::<O>() ==> same_shape(entries_history(es), events_history(evs)),
{
    let ids = event_ids(evs);
    let o = first_occurrences(ids);
    let n = o.len();
    lemma_first_occurrences(ids);
    // The renumbered id of an event determines its id before renumbering.
    assert forall|p: int, q: int|
        0 <= p < es.len() && 0 <= q < es.len() && #[trigger] es[p].id == #[trigger] es[q].id implies evs[p].id
        == evs[q].id by {
        assert(rn[p].id == rn[q].id);
    }
    // Each renumbered id with each kind occurs exactly once: the entries are in
    // one-to-one correspondence with 0..2n.
    let f = |p: int| 2 * (es[p].id as int) + if es[p].value is Call { 0int } else { 1int };
    let x = vstd::set_lib::set_int_range(0, es.len() as int);
    let y = vstd::set_lib::set_int_range(0, 2 * n as int);
    assert(vstd::relations::injective_on(f, x)) by {
        assert forall|p: int, q: int| x.contains(p) && x.contains(q) && #[trigger] f(p) == #[trigger] f(q) implies p
            == q by {
            assert(es[p].id == es[q].id);
            assert(evs[p].id == evs[q].id);
            assert(es[p].value is Call == es[q].value is Call);
        }
    }
    assert(x.map(f) =~= y) by {
        assert forall|j: int| y.contains(j) implies x.map(f).contains(j) by {
            let k = j / 2;
            let want_call = j % 2 == 0;
            assert(o.contains(o[k]));
            assert(ids.contains(o[k]));
            let p = choose|p: int| 0 <= p < ids.len() && ids[p] == o[k];
            assert(has_partner(evs, p));
            let q = choose|q: int| #[trigger] is_partner(evs, p, q);
            let r = if (evs[p].kind == EventKind::Call) == want_call { p } else { q };
            assert(rn[r].id < n && o[rn[r].id as int] == o[k]);
            assert(rn[r].id == k);
            assert(x.contains(r) && f(r) == j);
        }
        assert forall|j: int| x.map(f).contains(j) implies y.contains(j) by {
            let p = choose|p: int| x.contains(p) && f(p) == j;
            assert(rn[p].id < n);
        }
    }
    vstd::set_lib::lemma_int_range(0, es.len() as int);
    vstd::set_lib::lemma_int_range(0, 2 * n as int);
    vstd::set_lib::lemma_map_size(x, y, f);
    assert(es.len() == 2 * n);
    // Each renumbered id has a call entry and a return entry.
    assert forall|k: int| 0 <= k < n_ops(es) implies #[trigger] has_endpoints(es, k) by {
        assert(y.contains(2 * k) && y.contains(2 * k + 1));
        assert(x.map(f).contains(2 * k));
        assert(x.map(f).contains(2 * k + 1));
        let p = choose|p: int| x.contains(p) && f(p) == 2 * k;
        let q = choose|q: int| x.contains(q) && f(q) == 2 * k + 1;
        assert(is_call_of(es, p, k));
        assert(is_return_of(es, q, k));
    }
    assert(entries_well_formed(es)) by {
        assert forall|p: int| 0 <= p < es.len() implies (#[trigger] es[p].id as int) < n_ops(es) by {
            assert(rn[p].id < n);
        }
        assert forall|p: int, q: int|
            0 <= p < es.len() && 0 <= q < es.len() && p != q && #[trigger] es[p].id == #[trigger] es[q].id
            implies (es[p].value is Call) != (es[q].value is Call) by {
            assert(evs[p].id == evs[q].id);
        }
        assert forall|p: int, q: int|
            #![trigger es[p].id, es[q].id]
            0 <= p < es.len() && 0 <= q < es.len() && es[p].id == es[q].id && es[p].value is Call
                && es[q].value is Return implies p < q by {
            assert(evs[p].id == evs[q].id);
        }
    }
    let eh = entries_history(es);
    let vh = events_history(evs);
    assert forall|k: int| 0 <= k < eh.len() implies eh[k].call == vh[k].call && eh[k].ret == vh[k].ret by {
        lemma_entry_positions(es, k);
        let p = call_pos(es, k);
        let q = ret_pos(es, k);
        assert(o[rn[p].id as int] == evs[p].id);
        assert(o[rn[q].id as int] == evs[q].id);
        lemma_event_pos(evs, p);
        lemma_event_pos(evs, q);
    }
    if clone_copies::<I>() && clone_copies::<O>() {
        assert forall|k: int| 0 <= k < eh.len() implies (#[trigger] eh[k]).input == vh[k].input && eh[k].output
            == vh[k].output by {
            lemma_entry_positions(es, k);
            let p = call_pos(es, k);
            let q = ret_pos(es, k);
            assert(eh[k].call == vh[k].call && eh[k].ret == vh[k].ret);
            assert(opt_cloned(evs[p].input, rn[p].input));
            assert(opt_cloned(evs[q].output, rn[q].output));
            assert(vstd::pervasive::strictly_cloned(rn[p].input->Some_0, input_of(es[p].value)));
            assert(vstd::pervasive::strictly_cloned(rn[q].output->Some_0, output_of(es[q].value)));
        }
        assert forall|a: int, b: int| 0 <= a < eh.len() && 0 <= b < eh.len() implies (#[trigger] precedes(
            eh,
            a,
            b,
        ) <==> #[trigger] precedes(vh, a, b)) by {
            assert(eh[a].ret == vh[a].ret);
            assert(eh[b].call == vh[b].call);
        }
    }
}

/// The first `k` events are consistent with a well-formed history: payloads
/// are present, an id occurs at most once as a call and once as a return, its
/// call comes first, and each return has its call before it.
pub open spec fn prefix_ok<I, O>(evs: Seq<Event<I, O>>, k: int) -> bool {
    &&& forall|p: int|
        0 <= p < k ==> (#[trigger] evs[p].kind == EventKind::Call ==> evs[p].input is Some) && (evs[p].kind
            == EventKind::Return ==> evs[p].output is Some)
    &&& forall|p: int, q: int|
        0 <= p < k && 0 <= q < k && p != q && #[trigger] evs[p].id == #[trigger] evs[q].id ==> evs[p].kind
            != evs[q].kind
    &&& forall|p: int, q: int|
        #![trigger evs[p].id, evs[q].id]
        0 <= p < k && 0 <= q < k && evs[p].id == evs[q].id && evs[p].kind == EventKind::Call && evs[q].kind
            == EventKind::Return ==> p < q
    &&& forall|q: int| 0 <= q < k && evs[q].kind == EventKind::Return ==> #[trigger] has_partner(evs, q)
}

/// Some event before position `k` has id `x`.
pub open spec fn seen_before<I, O>(evs: Seq<Event<I, O>>, x: u64, k: int) -> bool {
    exists|p: int| 0 <= p < k && #[trigger] evs[p].id == x
}

/// Some return event before position `k` has id `x`.
pub open spec fn returned_before<I, O>(evs: Seq<Event<I, O>>, x: u64, k: int) -> bool {
    exists|p: int| 0 <= p < k && #[trigger] evs[p].id == x && evs[p].kind == EventKind::Return
}

/// Whether `evs` is a well-formed event history: every id occurs as exactly
/// one call, carrying an input, followed later by exactly one return, carrying
/// an output.
pub fn well_formed_events<I, O>(evs: &[Event<I, O>]) -> (r: bool)
    ensures
        r == events_well_formed(evs@),
{
    broadcast use vstd::std_specs::hash::group_hash_axioms;
    let ghost es = evs@;
    // For each id seen so far: whether its return has been seen.
    let mut returned: HashMap<u64, bool> = HashMap::new();
    for pos in 0..evs.len()
        invariant
            es == evs@,
            prefix_ok(es, pos as int),
            forall|x: u64| #[trigger] returned@.contains_key(x) <==> seen_before(es, x, pos as int),
            forall|x: u64| returned@.contains_key(x) ==> (#[trigger] returned@[x] <==> returned_before(es, x, pos as int)),
    {
        let ev = &evs[pos];
        let ghost x = ev.id;
        let ghost k = pos as int;
        match ev.kind {
            EventKind::Call => {
                if ev.input.is_none() {
                    return false;
                }
                if returned.contains_key(&ev.id) {
                    proof {
                        assert(seen_before(es, x, k));
                        let p = choose|p: int| 0 <= p < k && #[trigger] es[p].id == x;
                        if events_well_formed(es) {
                            assert(es[p].kind != es[k].kind);
                        }
                    }
                    return false;
                }
                returned.insert(ev.id, false);
                proof {
                    assert forall|y: u64| #[trigger] returned@.contains_key(y) <==> seen_before(es, y, k + 1) by {
                        if seen_before(es, y, k + 1) && y != x {
                            let p = choose|p: int| 0 <= p < k + 1 && #[trigger] es[p].id == y;
                            assert(seen_before(es, y, k));
                        }
                        if seen_before(es, y, k) {
                            let p = choose|p: int| 0 <= p < k && #[trigger] es[p].id == y;
                            assert(seen_before(es, y, k + 1));
                        }
                        if y == x {
                            assert(es[k].id == y);
                        }
                    }
                    assert forall|y: u64| returned@.contains_key(y) implies (#[trigger] returned@[y] <==> returned_before(es, y, k + 1)) by {
                        if returned_before(es, y, k + 1) {
                            let p = choose|p: int| 0 <= p < k + 1 && #[trigger] es[p].id == y && es[p].kind == EventKind::Return;
                            if p < k {
                                assert(returned_before(es, y, k));
                            }
                        }
                        if returned_before(es, y, k) {
                            let p = choose|p: int| 0 <= p < k && #[trigger] es[p].id == y && es[p].kind == EventKind::Return;
                            assert(returned_before(es, y, k + 1));
                            if y == x {
                                assert(seen_before(es, x, k));
                            }
                        }
                    }
                    assert forall|p: int, q: int|
                        0 <= p < k + 1 && 0 <= q < k + 1 && p != q && #[trigger] es[p].id == #[trigger] es[q].id implies es[p].kind
                            != es[q].kind by {
                        if p == k {
                            assert(seen_before(es, x, k));
                        }
                        if q == k {
                            assert(seen_before(es, x, k));
                        }
                    }
                    assert forall|p: int, q: int|
                        #![trigger es[p].id, es[q].id]
                        0 <= p < k + 1 && 0 <= q < k + 1 && es[p].id == es[q].id && es[p].kind == EventKind::Call
                            && es[q].kind == EventKind::Return implies p < q by {
                        if p == k {
                            assert(seen_before(es, x, k));
                        }
                    }
                }
            },
            EventKind::Return => {
                if ev.output.is_none() {
                    return false;
                }
                let open = match returned.get(&ev.id) {
                    Some(done) => !*done,
                    None => false,
                };
                if !open {
                    proof {
                        if events_well_formed(es) {
                            assert(has_partner(es, k));
                            let c = choose|c: int| #[trigger] is_partner(es, k, c);
                            assert(c < k);
                            assert(seen_before(es, x, k));
                            let q = choose|q: int| 0 <= q < k && #[trigger] es[q].id == x && es[q].kind == EventKind::Return;
                            assert(es[q].kind == es[k].kind);
                        }
                    }
                    return false;
                }
                returned.insert(ev.id, true);
                proof {
                    let c = choose|c: int| 0 <= c < k && #[trigger] es[c].id == x;
                    assert(es[c].kind == EventKind::Call) by {
                        if es[c].kind == EventKind::Return {
                            assert(returned_before(es, x, k));
                        }
                    }
                    assert(is_partner(es, k, c));
                    assert forall|y: u64| #[trigger] returned@.contains_key(y) <==> seen_before(es, y, k + 1) by {
                        if seen_before(es, y, k + 1) && y != x {
                            let p = choose|p: int| 0 <= p < k + 1 && #[trigger] es[p].id == y;
                            assert(seen_before(es, y, k));
                        }
                        if seen_before(es, y, k) {
                            let p = choose|p: int| 0 <= p < k && #[trigger] es[p].id == y;
                            assert(seen_before(es, y, k + 1));
                        }
                        if y == x {
                            assert(es[k].id == y);
                        }
                    }
                    assert forall|y: u64| returned@.contains_key(y) implies (#[trigger] returned@[y] <==> returned_before(es, y, k + 1)) by {
                        if returned_before(es, y, k + 1) && y != x {
                            let p = choose|p: int| 0 <= p < k + 1 && #[trigger] es[p].id == y && es[p].kind == EventKind::Return;
                            assert(returned_before(es, y, k));
                        }
                        if returned_before(es, y, k) {
                            let p = choose|p: int| 0 <= p < k && #[trigger] es[p].id == y && es[p].kind == EventKind::Return;
                            assert(returned_before(es, y, k + 1));
                        }
                        if y == x {
                            assert(es[k].id == y && es[k].kind == EventKind::Return);
                        }
                    }
                    assert forall|p: int, q: int|
                        0 <= p < k + 1 && 0 <= q < k + 1 && p != q && #[trigger] es[p].id == #[trigger] es[q].id implies es[p].kind
                            != es[q].kind by {
                        if p == k && es[q].kind == EventKind::Return {
                            assert(returned_before(es, x, k));
                        }
                        if q == k && es[p].kind == EventKind::Return {
                            assert(returned_before(es, x, k));
                        }
                    }
                    assert forall|q: int| 0 <= q < k + 1 && es[q].kind == EventKind::Return implies #[trigger] has_partner(es, q) by {
                        if q == k {
                            assert(is_partner(es, k, c));
                        }
                    }
                }
            },
        }
    }
    let ghost n = es.len() as int;
    for pos in 0..evs.len()
        invariant
            es == evs@,
            n == es.len(),
            prefix_ok(es, n),
            forall|x: u64| #[trigger] returned@.contains_key(x) <==> seen_before(es, x, n),
            forall|x: u64| returned@.contains_key(x) ==> (#[trigger] returned@[x] <==> returned_before(es, x, n)),
            forall|p: int| 0 <= p < pos && es[p].kind == EventKind::Call ==> #[trigger] has_partner(es, p),
    {
        let ev = &evs[pos];
        let ghost k = pos as int;
        if ev.kind == EventKind::Call {
            proof {
                assert(seen_before(es, ev.id, n));
            }
            let closed = match returned.get(&ev.id) {
                Some(done) => *done,
                None => false,
            };
            if !closed {
                proof {
                    if events_well_formed(es) {
                        assert(has_partner(es, k));
                        let q = choose|q: int| #[trigger] is_partner(es, k, q);
                        assert(returned_before(es, ev.id, n));
                    }
                }
                return false;
            }
            proof {
                let q = choose|q: int| 0 <= q < n && #[trigger] es[q].id == ev.id && es[q].kind == EventKind::Return;
                assert(is_partner(es, k, q));
            }
        }
    }
    proof {
        assert forall|p: int| 0 <= p < n implies #[trigger] has_partner(es, p) by {
            if es[p].kind == EventKind::Call {
            } else {
            }
        }
    }
    true
}

/// `f` takes different ids of `evs` to different ids.
pub open spec fn injective_on_ids<I, O>(evs: Seq<Event<I, O>>, f: spec_fn(u64) -> u64) -> bool {
    forall|p: int, q: int|
        0 <= p < evs.len() && 0 <= q < evs.len() && #[trigger] f(evs[p].id) == #[trigger] f(evs[q].id) ==> evs[p].id
            == evs[q].id
}

/// `b` is `a` with every id `x` replaced by `f(x)`.
pub open spec fn relabeled<I, O>(a: Seq<Event<I, O>>, b: Seq<Event<I, O>>, f: spec_fn(u64) -> u64) -> bool {
    &&& a.len() == b.len()
    &&& forall|p: int|
        0 <= p < a.len() ==> {
            &&& (#[trigger] b[p]).id == f(a[p].id)
            &&& b[p].kind == a[p].kind
            &&& b[p].input == a[p].input
            &&& b[p].output == a[p].output
        }
}

/// Relabeling the elements of a sequence injectively relabels its first
/// occurrences.
proof fn lemma_first_occurrences_map(s: Seq<u64>, f: spec_fn(u64) -> u64)
    requires
        forall|i: int, j: int| 0 <= i < s.len() && 0 <= j < s.len() && #[trigger] f(s[i]) == #[trigger] f(s[j]) ==> s[i] == s[j],
    ensures
        first_occurrences(s.map_values(f)) == first_occurrences(s).map_values(f),
    decreases s.len(),
{
    if s.len() > 0 {
        let d = s.drop_last();
        assert forall|i: int, j: int| 0 <= i < d.len() && 0 <= j < d.len() && #[trigger] f(d[i]) == #[trigger] f(d[j]) implies d[i] == d[j] by {
            assert(s[i] == d[i] && s[j] == d[j]);
        }
        lemma_first_occurrences_map(d, f);
        lemma_first_occurrences(d);
        let sm = s.map_values(f);
        assert(sm.drop_last() =~= d.map_values(f));
        let o = first_occurrences(d);
        let x = s.last();
        assert(o.map_values(f).contains(f(x)) <==> o.contains(x)) by {
            if o.map_values(f).contains(f(x)) {
                let k = choose|k: int| 0 <= k < o.len() && o.map_values(f)[k] == f(x);
                assert(d.contains(o[k]));
                let i = choose|i: int| 0 <= i < d.len() && d[i] == o[k];
                assert(f(s[i]) == f(s[s.len() - 1]));
                assert(o.contains(x));
            }
            if o.contains(x) {
                let k = choose|k: int| 0 <= k < o.len() && o[k] == x;
                assert(o.map_values(f)[k] == f(x));
            }
        }
        assert(o.push(x).map_values(f) =~= o.map_values(f).push(f(x)));
    }
}

/// Operation ids are labels only: renaming them injectively leaves a
/// well-formed event history well formed and describing the same history.
pub proof fn lemma_events_history_relabel<I, O>(a: Seq<Event<I, O>>, b: Seq<Event<I, O>>, f: spec_fn(u64) -> u64)
    requires
        events_well_formed(a),
        relabeled(a, b, f),
        injective_on_ids(a, f),
    ensures
        events_well_formed(b),
        events_history(b) == events_history(a),
{
    // Two events of `b` share an id exactly when they do in `a`.
    assert forall|p: int, q: int| 0 <= p < a.len() && 0 <= q < a.len() implies (b[p].id == b[q].id <==> a[p].id
        == a[q].id) by {
        assert(b[p].id == f(a[p].id) && b[q].id == f(a[q].id));
    }
    assert forall|p: int| 0 <= p < b.len() implies #[trigger] has_partner(b, p) by {
        assert(has_partner(a, p));
        let q = choose|q: int| #[trigger] is_partner(a, p, q);
        assert(is_partner(b, p, q));
    }
    assert(events_well_formed(b));
    let ia = event_ids(a);
    let ib = event_ids(b);
    assert(ib =~= ia.map_values(f));
    lemma_first_occurrences_map(ia, f);
    lemma_first_occurrences(ia);
    let oa = first_occurrences(ia);
    let ob = first_occurrences(ib);
    assert(ob == oa.map_values(f));
    let ha = events_history(a);
    let hb = events_history(b);
    assert forall|k: int| 0 <= k < ha.len() implies hb[k] == ha[k] by {
        let x = oa[k];
        assert(ia.contains(x));
        let p0 = choose|p: int| 0 <= p < ia.len() && ia[p] == x;
        assert(has_partner(a, p0));
        let q0 = choose|q: int| #[trigger] is_partner(a, p0, q);
        let (pc, pr) = if a[p0].kind == EventKind::Call { (p0, q0) } else { (q0, p0) };
        lemma_event_pos(a, pc);
        lemma_event_pos(a, pr);
        lemma_event_pos(b, pc);
        lemma_event_pos(b, pr);
        assert(ob[k] == f(x));
    }
    assert(hb =~= ha);
}


/// Renaming ids injectively keeps a sequence of events well formed or not.
pub proof fn lemma_relabel_well_formed<I, O>(a: Seq<Event<I, O>>, b: Seq<Event<I, O>>, f: spec_fn(u64) -> u64)
    requires
        relabeled(a, b, f),
        injective_on_ids(a, f),
    ensures
        events_well_formed(a) == events_well_formed(b),
{
    assert forall|p: int, q: int| 0 <= p < a.len() && 0 <= q < a.len() implies (b[p].id == b[q].id <==> a[p].id
        == a[q].id) && b[p].kind == a[p].kind by {
        assert(b[p].id == f(a[p].id) && b[q].id == f(a[q].id));
    }
    assert forall|p: int, q: int| 0 <= p < a.len() implies #[trigger] is_partner(a, p, q) == is_partner(b, p, q) by {
        if 0 <= q < a.len() {
            assert(b[p].id == f(a[p].id) && b[q].id == f(a[q].id));
        }
    }
    assert forall|p: int| 0 <= p < a.len() implies #[trigger] has_partner(a, p) == has_partner(b, p) by {
        if has_partner(a, p) {
            let q = choose|q: int| #[trigger] is_partner(a, p, q);
            assert(is_partner(b, p, q));
        }
        if has_partner(b, p) {
            let q = choose|q: int| #[trigger] is_partner(b, p, q);
            assert(is_partner(a, p, q));
        }
    }
    assert(payloads_present(a) == payloads_present(b)) by {
        assert forall|p: int| 0 <= p < a.len() implies b[p].kind == a[p].kind && b[p].input == a[p].input && b[p].output
            == a[p].output by {}
    }
    if events_well_formed(a) {
        assert forall|p: int, q: int|
            0 <= p < b.len() && 0 <= q < b.len() && p != q && #[trigger] b[p].id == #[trigger] b[q].id implies b[p].kind
                != b[q].kind by {
            assert(a[p].id == a[q].id);
        }
        assert forall|p: int, q: int|
            #![trigger b[p].id, b[q].id]
            0 <= p < b.len() && 0 <= q < b.len() && b[p].id == b[q].id && b[p].kind == EventKind::Call && b[q].kind
                == EventKind::Return implies p < q by {
            assert(a[p].id == a[q].id);
        }
        assert forall|p: int| 0 <= p < b.len() implies #[trigger] has_partner(b, p) by {
            assert(has_partner(a, p));
        }
    }
    if events_well_formed(b) {
        assert forall|p: int, q: int|
            0 <= p < a.len() && 0 <= q < a.len() && p != q && #[trigger] a[p].id == #[trigger] a[q].id implies a[p].kind
                != a[q].kind by {
            assert(b[p].id == b[q].id);
        }
        assert forall|p: int, q: int|
            #![trigger a[p].id, a[q].id]
            0 <= p < a.len() && 0 <= q < a.len() && a[p].id == a[q].id && a[p].kind == EventKind::Call && a[q].kind
                == EventKind::Return implies p < q by {
            assert(b[p].id == b[q].id);
        }
        assert forall|p: int| 0 <= p < a.len() implies #[trigger] has_partner(a, p) by {
            assert(has_partner(b, p));
        }
    }
}

/// Renaming ids injectively keeps the position of the latest call of an
/// operation before a given position.
pub proof fn lemma_relabel_last_call<I, O>(
    a: Seq<Event<I, O>>,
    b: Seq<Event<I, O>>,
    f: spec_fn(u64) -> u64,
    x: int,
    q: int,
)
    requires
        relabeled(a, b, f),
        injective_on_ids(a, f),
        0 <= x < a.len(),
        q <= a.len(),
    ensures
        crate::invariants::last_call_before(b, b[x].id, q) == crate::invariants::last_call_before(a, a[x].id, q),
    decreases q,
{
    if q > 0 {
        assert(b[q - 1].id == f(a[q - 1].id) && b[x].id == f(a[x].id));
        assert(b[q - 1].id == b[x].id <==> a[q - 1].id == a[x].id);
        lemma_relabel_last_call(a, b, f, x, q - 1);
    }
}


/// The instant of event `e` of the operations `ops`: the call or the return
/// time of the operation with its id.
pub open spec fn op_event_time<I, O>(ops: Seq<Operation<I, O>>, e: Event<I, O>) -> int {
    if e.kind == EventKind::Call {
        ops[e.id as int].call as int
    } else {
        ops[e.id as int].return_time as int
    }
}

/// Event `e1` may be listed before `e2` in time order: it is earlier, or at the
/// same instant and not a return listed before a call.
pub open spec fn time_order_le<I, O>(ops: Seq<Operation<I, O>>, e1: Event<I, O>, e2: Event<I, O>) -> bool {
    let t1 = op_event_time(ops, e1);
    let t2 = op_event_time(ops, e2);
    t1 < t2 || (t1 == t2 && (e1.kind == EventKind::Call || e2.kind == EventKind::Return))
}

/// `evs` holds an event of kind `kind` with id `x`.
pub open spec fn has_event<I, O>(evs: Seq<Event<I, O>>, x: u64, kind: EventKind) -> bool {
    exists|p: int| 0 <= p < evs.len() && #[trigger] evs[p].id == x && evs[p].kind == kind
}

/// `evs` lists the call and the return of every operation of `ops`, and
/// nothing else, in time order, with calls before returns at the same instant:
/// the events of operation `k` have id `k` and carry its input and output.
pub open spec fn events_of_ops<I, O>(ops: Seq<Operation<I, O>>, evs: Seq<Event<I, O>>) -> bool {
    &&& forall|p: int|
        0 <= p < evs.len() ==> {
            &&& (#[trigger] evs[p]).id < ops.len()
            &&& evs[p].kind == EventKind::Call ==> evs[p].input == Some(ops[evs[p].id as int].input)
            &&& evs[p].kind == EventKind::Return ==> evs[p].output == Some(ops[evs[p].id as int].output)
        }
    &&& forall|p: int, q: int|
        0 <= p < evs.len() && 0 <= q < evs.len() && p != q && #[trigger] evs[p].id == #[trigger] evs[q].id
            ==> evs[p].kind != evs[q].kind
    &&& forall|k: u64| k < ops.len() ==> #[trigger] has_event(evs, k, EventKind::Call) && has_event(evs, k, EventKind::Return)
    &&& forall|p: int, q: int| 0 <= p < q < evs.len() ==> time_order_le(ops, #[trigger] evs[p], #[trigger] evs[q])
}

/// The event of kind `kind` of operation `x` of `ops`, where `evs` lists them.
proof fn lemma_event_of_op<I, O>(ops: Seq<Operation<I, O>>, evs: Seq<Event<I, O>>, x: u64, kind: EventKind)
    requires
        events_of_ops(ops, evs),
        x < ops.len(),
    ensures
        0 <= event_pos(evs, x, kind) < evs.len(),
        evs[event_pos(evs, x, kind)].id == x,
        evs[event_pos(evs, x, kind)].kind == kind,
{
    assert(has_event(evs, x, EventKind::Call) && has_event(evs, x, EventKind::Return));
}

/// Events listed in time order from operations describe the operations
/// themselves: the event history is well formed, and it holds the operations,
/// renumbered in the order of their first events, with the same inputs,
/// outputs and real-time precedence.
pub proof fn lemma_events_of_ops<I, O>(ops: Seq<Operation<I, O>>, evs: Seq<Event<I, O>>)
    requires
        ops.len() <= usize::MAX,
        ops_well_formed(ops),
        events_of_ops(ops, evs),
    ensures
        events_well_formed(evs),
        crate::history::renumbered(
            events_history(evs),
            ops_history(ops),
            first_occurrences(event_ids(evs)).map_values(|x: u64| x as int),
        ),
{
    let n = ops.len();
    // Each call is listed before the return of its operation.
    assert forall|p: int, q: int|
        #![trigger evs[p].id, evs[q].id]
        0 <= p < evs.len() && 0 <= q < evs.len() && evs[p].id == evs[q].id && evs[p].kind == EventKind::Call
            && evs[q].kind == EventKind::Return implies p < q by {
        let k = evs[p].id as int;
        assert(ops[k].call <= ops[k].return_time);
        if q < p {
            assert(time_order_le(ops, evs[q], evs[p]));
        }
    }
    assert forall|p: int| 0 <= p < evs.len() implies #[trigger] has_partner(evs, p) by {
        let x = evs[p].id;
        let other = if evs[p].kind == EventKind::Call { EventKind::Return } else { EventKind::Call };
        lemma_event_of_op(ops, evs, x, other);
        assert(is_partner(evs, p, event_pos(evs, x, other)));
    }
    assert(payloads_present(evs));
    assert(events_well_formed(evs));
    let ids = event_ids(evs);
    let o = first_occurrences(ids);
    lemma_first_occurrences(ids);
    let pi = o.map_values(|x: u64| x as int);
    // The ids are exactly the operations' indices.
    assert forall|x: u64| o.contains(x) <==> x < n by {
        if x < n {
            lemma_event_of_op(ops, evs, x, EventKind::Call);
            assert(ids[event_pos(evs, x, EventKind::Call)] == x);
        }
        if ids.contains(x) {
            let p = choose|p: int| 0 <= p < ids.len() && ids[p] == x;
            assert(evs[p].id == x);
        }
    }
    let range = vstd::set_lib::set_int_range(0, n as int);
    assert(pi.no_duplicates()) by {
        assert forall|i: int, j: int| 0 <= i < j < pi.len() implies pi[i] != pi[j] by {
            assert(o[i] != o[j]);
        }
    }
    assert forall|k: int| 0 <= k < pi.len() implies 0 <= #[trigger] pi[k] < n by {
        assert(o.contains(o[k]));
    }
    assert forall|x: int| 0 <= x < n implies #[trigger] pi.contains(x) by {
        assert(o.contains(x as u64));
        let k = choose|k: int| 0 <= k < o.len() && o[k] == x as u64;
        assert(pi[k] == x);
    }
    assert(pi.to_set() =~= range) by {
        assert forall|x: int| pi.to_set().contains(x) <==> range.contains(x) by {
            if pi.to_set().contains(x) {
                let k = choose|k: int| 0 <= k < pi.len() && pi[k] == x;
            }
        }
    }
    pi.unique_seq_to_set();
    vstd::set_lib::lemma_int_range(0, n as int);
    assert(pi.len() == n);
    let he = events_history(evs);
    let ho = ops_history(ops);
    assert(crate::history::is_permutation(pi, he.len()));
    assert forall|k: int| 0 <= k < he.len() implies ho[#[trigger] pi[k]].input == he[k].input && ho[pi[k]].output
        == he[k].output by {
        assert(o.contains(o[k]));
        lemma_event_of_op(ops, evs, o[k], EventKind::Call);
        lemma_event_of_op(ops, evs, o[k], EventKind::Return);
    }
    assert forall|a: int, b: int| 0 <= a < he.len() && 0 <= b < he.len() implies (precedes(he, a, b) <==> precedes(
        ho,
        #[trigger] pi[a],
        #[trigger] pi[b],
    )) by {
        assert(o.contains(o[a]) && o.contains(o[b]));
        lemma_event_of_op(ops, evs, o[a], EventKind::Return);
        lemma_event_of_op(ops, evs, o[b], EventKind::Call);
        let r = event_pos(evs, o[a], EventKind::Return);
        let c = event_pos(evs, o[b], EventKind::Call);
        assert(r != c);
        if r < c {
            assert(time_order_le(ops, evs[r], evs[c]));
        } else {
            assert(time_order_le(ops, evs[c], evs[r]));
        }
    }
}


/// `b` is `a` with each id replaced by the position at which that id first
/// occurs among the ids of `a`.
pub open spec fn renumbered_ids<I, O>(a: Seq<Event<I, O>>, b: Seq<Event<I, O>>) -> bool {
    &&& b.len() == a.len()
    &&& forall|p: int|
        0 <= p < b.len() ==> {
            &&& (#[trigger] b[p]).id < first_occurrences(event_ids(a)).len()
            &&& first_occurrences(event_ids(a))[b[p].id as int] == a[p].id
        }
}

/// Renumbering twice renumbers as once: a second renumbering keeps every id.
pub proof fn lemma_renumber_twice<I, O>(evs: Seq<Event<I, O>>, r1: Seq<Event<I, O>>, r2: Seq<Event<I, O>>)
    requires
        renumbered_ids(evs, r1),
        renumbered_ids(r1, r2),
    ensures
        forall|p: int| 0 <= p < r2.len() ==> (#[trigger] r2[p]).id == r1[p].id,
{
    let ia = event_ids(evs);
    let o = first_occurrences(ia);
    lemma_first_occurrences(ia);
    let i1 = event_ids(r1);
    let f = |x: u64| (choose|k: int| 0 <= k < o.len() && o[k] == x) as u64;
    // The new id of an event is the position of its old id.
    assert forall|p: int| 0 <= p < ia.len() implies #[trigger] f(ia[p]) == r1[p].id by {
        assert(r1[p].id < o.len() && o[r1[p].id as int] == ia[p]);
        let k = choose|k: int| 0 <= k < o.len() && o[k] == ia[p];
        if k != r1[p].id as int {
            assert(o[k] == o[r1[p].id as int]);
        }
    }
    assert(i1 =~= ia.map_values(f));
    assert forall|i: int, j: int| 0 <= i < ia.len() && 0 <= j < ia.len() && #[trigger] f(ia[i]) == #[trigger] f(ia[j])
        implies ia[i] == ia[j] by {
        assert(o[r1[i].id as int] == ia[i] && o[r1[j].id as int] == ia[j]);
    }
    lemma_first_occurrences_map(ia, f);
    // The renumbered ids first occur in the order 0, 1, 2, ...
    assert forall|k: int| 0 <= k < o.len() implies #[trigger] o.map_values(f)[k] == k as u64 by {
        assert(o.contains(o[k]));
        assert(ia.contains(o[k]));
        let p = choose|p: int| 0 <= p < ia.len() && ia[p] == o[k];
        assert(f(ia[p]) == r1[p].id);
        assert(o[r1[p].id as int] == ia[p]);
        if r1[p].id as int != k {
            assert(o[r1[p].id as int] == o[k]);
        }
    }
    let o1 = first_occurrences(i1);
    assert(o1 == o.map_values(f));
    assert forall|p: int| 0 <= p < r2.len() implies (#[trigger] r2[p]).id == r1[p].id by {
        assert(r2[p].id < o1.len() && o1[r2[p].id as int] == r1[p].id);
        assert(o1[r2[p].id as int] == r2[p].id);
    }
}

} // verus!
