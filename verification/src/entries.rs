//! The flat, time-ordered representation of a history that the search runs on:
//! one call entry and one return entry per operation.
use crate::history::{precedes, same_shape, AbsOp};
use crate::model::clone_copies;
use crate::types::Operation;
use vstd::prelude::*;

verus! {

/// The payload of an entry: the operation's input at its call, its output at
/// its return.
#[derive(Clone)]
pub enum EntryValue<I, O> {
    Call(I),
    Return(O),
}

impl<I, O> EntryValue<I, O> {
    /// Whether this is a call entry.
    pub fn is_call(&self) -> (r: bool)
        ensures
            r == self is Call,
    {
        match self {
            EntryValue::Call(_) => true,
            EntryValue::Return(_) => false,
        }
    }

    /// Whether this is a return entry.
    pub fn is_return(&self) -> (r: bool)
        ensures
            r == self is Return,
    {
        match self {
            EntryValue::Call(_) => false,
            EntryValue::Return(_) => true,
        }
    }
}

/// One call or return of an operation.
#[derive(Clone)]
pub struct Entry<I, O> {
    /// Operation id (0-based); a call and its return share it.
    pub id: usize,
    /// Instant of the entry, used for ordering.
    pub time: u64,
    /// Input at a call, output at a return.
    pub value: EntryValue<I, O>,
}

/// The input carried by a call entry.
pub open spec fn input_of<I, O>(v: EntryValue<I, O>) -> I {
    match v {
        EntryValue::Call(i) => i,
        EntryValue::Return(_) => arbitrary(),
    }
}

/// The output carried by a return entry.
pub open spec fn output_of<I, O>(v: EntryValue<I, O>) -> O {
    match v {
        EntryValue::Call(_) => arbitrary(),
        EntryValue::Return(o) => o,
    }
}

/// Number of operations in an entry list.
pub open spec fn n_ops<I, O>(es: Seq<Entry<I, O>>) -> int {
    (es.len() / 2) as int
}

/// Entry `p` is the call of operation `k`.
pub open spec fn is_call_of<I, O>(es: Seq<Entry<I, O>>, p: int, k: int) -> bool {
    0 <= p < es.len() && es[p].id == k && es[p].value is Call
}

/// Entry `p` is the return of operation `k`.
pub open spec fn is_return_of<I, O>(es: Seq<Entry<I, O>>, p: int, k: int) -> bool {
    0 <= p < es.len() && es[p].id == k && es[p].value is Return
}

/// Every operation id in `0..n` has exactly one call entry and exactly one
/// return entry, and the call comes first.
pub open spec fn entries_well_formed<I, O>(es: Seq<Entry<I, O>>) -> bool {
    &&& es.len() % 2 == 0
    &&& forall|p: int| 0 <= p < es.len() ==> (#[trigger] es[p].id as int) < n_ops(es)
    &&& forall|p: int, q: int|
        0 <= p < es.len() && 0 <= q < es.len() && p != q && #[trigger] es[p].id == #[trigger] es[q].id
            ==> (es[p].value is Call) != (es[q].value is Call)
    &&& forall|p: int, q: int|
        #![trigger es[p].id, es[q].id]
        0 <= p < es.len() && 0 <= q < es.len() && es[p].id == es[q].id && es[p].value is Call
            && es[q].value is Return ==> p < q
    &&& forall|k: int| 0 <= k < n_ops(es) ==> #[trigger] has_endpoints(es, k)
}

/// Operation `k` has a call entry and a return entry.
pub open spec fn has_endpoints<I, O>(es: Seq<Entry<I, O>>, k: int) -> bool {
    exists|p: int, q: int|
        #![trigger is_call_of(es, p, k), is_return_of(es, q, k)]
        is_call_of(es, p, k) && is_return_of(es, q, k)
}

/// Position of the call entry of operation `k`.
pub open spec fn call_pos<I, O>(es: Seq<Entry<I, O>>, k: int) -> int {
    choose|p: int| is_call_of(es, p, k)
}

/// Position of the return entry of operation `k`.
pub open spec fn ret_pos<I, O>(es: Seq<Entry<I, O>>, k: int) -> int {
    choose|p: int| is_return_of(es, p, k)
}

/// The abstract history that an entry list describes: operation `k` is called
/// at the position of its call entry and returns at the position of its return
/// entry.
pub open spec fn entries_history<I, O>(es: Seq<Entry<I, O>>) -> Seq<AbsOp<I, O>> {
    Seq::new(
        n_ops(es) as nat,
        |k: int|
            AbsOp {
                call: call_pos(es, k),
                ret: ret_pos(es, k),
                input: input_of(es[call_pos(es, k)].value),
                output: output_of(es[ret_pos(es, k)].value),
            },
    )
}

/// The call and return positions of a well-formed entry list are the unique
/// entries of each operation.
pub proof fn lemma_entry_positions<I, O>(es: Seq<Entry<I, O>>, k: int)
    requires
        entries_well_formed(es),
        0 <= k < n_ops(es),
    ensures
        is_call_of(es, call_pos(es, k), k),
        is_return_of(es, ret_pos(es, k), k),
        call_pos(es, k) < ret_pos(es, k),
        forall|p: int| #[trigger] is_call_of(es, p, k) ==> p == call_pos(es, k),
        forall|p: int| #[trigger] is_return_of(es, p, k) ==> p == ret_pos(es, k),
{
    assert(has_endpoints(es, k));
    let (p0, q0) = choose|p: int, q: int| is_call_of(es, p, k) && is_return_of(es, q, k);
    assert(is_call_of(es, p0, k));
    assert(is_return_of(es, q0, k));
    let c = call_pos(es, k);
    let r = ret_pos(es, k);
    assert(es[c].id == es[r].id);
}

/// The entry at position `p` is the call or the return of its operation.
pub proof fn lemma_entry_is_endpoint<I, O>(es: Seq<Entry<I, O>>, p: int)
    requires
        entries_well_formed(es),
        0 <= p < es.len(),
    ensures
        0 <= es[p].id < n_ops(es),
        es[p].value is Call ==> p == call_pos(es, es[p].id as int),
        es[p].value is Return ==> p == ret_pos(es, es[p].id as int),
{
    let k = es[p].id as int;
    lemma_entry_positions(es, k);
    if es[p].value is Call {
        assert(is_call_of(es, p, k));
    } else {
        assert(is_return_of(es, p, k));
    }
}

/// The sort key of an entry: its time, then calls before returns, then its id.
pub type EntryKey = (u64, bool, usize);

/// Strict lexicographic order on sort keys (`false < true`), the order of
/// tuples in `std`.
pub open spec fn key_lt(a: EntryKey, b: EntryKey) -> bool {
    ||| a.0 < b.0
    ||| a.0 == b.0 && !a.1 && b.1
    ||| a.0 == b.0 && a.1 == b.1 && a.2 < b.2
}

/// The sort key of entry `e`.
pub open spec fn entry_key<I, O>(e: Entry<I, O>) -> EntryKey {
    (e.time, e.value is Return, e.id)
}

/// The sort key of the call (`is_ret` false) or the return of operation `k`.
pub open spec fn op_key<I, O>(ops: Seq<Operation<I, O>>, k: int, is_ret: bool) -> EntryKey {
    (if is_ret { ops[k].return_time } else { ops[k].call }, is_ret, k as usize)
}

/// `e` is the call or the return of one of `ops`, at that operation's call or
/// return time, carrying a clone of its input or output.
pub open spec fn entry_of_op<I: Clone, O: Clone>(ops: Seq<Operation<I, O>>, e: Entry<I, O>) -> bool {
    &&& e.id < ops.len()
    &&& match e.value {
        EntryValue::Call(i) => e.time == ops[e.id as int].call && vstd::pervasive::strictly_cloned(
            ops[e.id as int].input,
            i,
        ),
        EntryValue::Return(o) => e.time == ops[e.id as int].return_time
            && vstd::pervasive::strictly_cloned(ops[e.id as int].output, o),
    }
}

/// Every operation is called no later than it returns.
pub open spec fn ops_well_formed<I, O>(ops: Seq<Operation<I, O>>) -> bool {
    forall|k: int| 0 <= k < ops.len() ==> (#[trigger] ops[k]).call <= ops[k].return_time
}

/// `slice::sort_unstable` on entry sort keys: afterwards the keys are a
/// permutation of what they were, in ascending order.
#[verifier::external_body]
fn sort_keys(keys: &mut Vec<EntryKey>)
    ensures
        final(keys)@.to_multiset() == old(keys)@.to_multiset(),
        forall|i: int, j: int|
            0 <= i < j < final(keys)@.len() ==> !key_lt(final(keys)@[j], final(keys)@[i]),
{
    keys.sort_unstable();
}

/// The keys of `ops`, two per operation: call then return.
spec fn unsorted_keys<I, O>(ops: Seq<Operation<I, O>>) -> Seq<EntryKey> {
    Seq::new(2 * ops.len(), |p: int| op_key(ops, p / 2, p % 2 == 1))
}

/// Flatten `ops` into a list of entries, one call and one return per
/// operation, sorted by time; at equal times calls come before returns, and
/// entries of the same kind by operation id.
pub fn make_entries<I: Clone, O: Clone>(ops: &[Operation<I, O>]) -> (r: Vec<Entry<I, O>>)
    requires
        2 * ops@.len() < usize::MAX,
    ensures
        r@.len() == 2 * ops@.len(),
        forall|p: int| 0 <= p < r@.len() ==> #[trigger] entry_of_op(ops@, r@[p]),
        forall|k: int| 0 <= k < ops@.len() ==> #[trigger] has_endpoints(r@, k),
        forall|p: int, q: int|
            0 <= p < q < r@.len() ==> key_lt(entry_key(#[trigger] r@[p]), entry_key(#[trigger] r@[q])),
        ops_well_formed(ops@) ==> entries_well_formed(r@),
{
    let n = ops.len();
    let ghost ks = unsorted_keys(ops@);
    let mut keys: Vec<EntryKey> = Vec::with_capacity(2 * n);
    for id in 0..n
        invariant
            n == ops@.len(),
            2 * n < usize::MAX,
            ks == unsorted_keys(ops@),
            keys@.len() == 2 * id,
            forall|p: int| 0 <= p < keys@.len() ==> keys@[p] == #[trigger] ks[p],
    {
        keys.push((ops[id].call, false, id));
        keys.push((ops[id].return_time, true, id));
        proof {
            assert(ks[2 * id as int] == op_key(ops@, id as int, false));
            assert(ks[2 * id + 1] == op_key(ops@, id as int, true));
        }
    }
    proof {
        assert(keys@ =~= ks);
        assert(ks.no_duplicates()) by {
            assert forall|p: int, q: int| 0 <= p < ks.len() && 0 <= q < ks.len() && p != q implies ks[p]
                != ks[q] by {
                assert(ks[p] == op_key(ops@, p / 2, p % 2 == 1));
                assert(ks[q] == op_key(ops@, q / 2, q % 2 == 1));
            }
        }
        ks.lemma_multiset_has_no_duplicates();
    }
    sort_keys(&mut keys);
    let ghost sk = keys@;
    proof {
        broadcast use vstd::seq_lib::group_to_multiset_ensures;
        assert(sk.to_multiset() == ks.to_multiset());
        vstd::seq_lib::to_multiset_len(sk);
        vstd::seq_lib::to_multiset_len(ks);
        assert(sk.len() == ks.len());
        assert forall|x: EntryKey| sk.to_multiset().contains(x) implies sk.to_multiset().count(x) == 1 by {
            assert(ks.to_multiset().contains(x));
        }
        sk.lemma_multiset_has_no_duplicates_conv();
        assert forall|x: EntryKey| sk.contains(x) <==> ks.contains(x) by {
            assert(sk.to_multiset().count(x) == ks.to_multiset().count(x));
        }
    }
    let mut r: Vec<Entry<I, O>> = Vec::with_capacity(2 * n);
    for p in 0..keys.len()
        invariant
            n == ops@.len(),
            sk == keys@,
            sk.len() == 2 * n,
            r@.len() == p,
            forall|q: int| 0 <= q < sk.len() ==> #[trigger] ks.contains(sk[q]),
            ks == unsorted_keys(ops@),
            forall|q: int|
                0 <= q < p ==> entry_key(#[trigger] r@[q]) == sk[q] && entry_of_op(ops@, r@[q]),
    {
        let (time, is_ret, id) = keys[p];
        proof {
            assert(ks.contains(sk[p as int]));
            let j = choose|j: int| 0 <= j < ks.len() && ks[j] == sk[p as int];
            assert(ks[j] == op_key(ops@, j / 2, j % 2 == 1));
        }
        let value = if is_ret {
            EntryValue::Return(ops[id].output.clone())
        } else {
            EntryValue::Call(ops[id].input.clone())
        };
        r.push(Entry { id, time, value });
    }
    proof {
        lemma_sorted_entries(ops@, ks, sk, r@);
    }
    r
}

/// What `make_entries` derives from its keys: the entries are strictly sorted,
/// every operation has both entries, and well-formed operations give a
/// well-formed entry list.
proof fn lemma_sorted_entries<I: Clone, O: Clone>(
    ops: Seq<Operation<I, O>>,
    ks: Seq<EntryKey>,
    sk: Seq<EntryKey>,
    es: Seq<Entry<I, O>>,
)
    requires
        ops.len() < usize::MAX,
        ks == unsorted_keys(ops),
        sk.len() == ks.len(),
        es.len() == sk.len(),
        sk.no_duplicates(),
        forall|x: EntryKey| sk.contains(x) <==> ks.contains(x),
        forall|i: int, j: int| 0 <= i < j < sk.len() ==> !key_lt(sk[j], sk[i]),
        forall|q: int| 0 <= q < es.len() ==> entry_key(#[trigger] es[q]) == sk[q] && entry_of_op(ops, es[q]),
    ensures
        forall|k: int| 0 <= k < ops.len() ==> #[trigger] has_endpoints(es, k),
        forall|p: int, q: int|
            0 <= p < q < es.len() ==> key_lt(entry_key(#[trigger] es[p]), entry_key(#[trigger] es[q])),
        ops_well_formed(ops) ==> entries_well_formed(es),
{
    assert forall|p: int, q: int| 0 <= p < q < es.len() implies key_lt(
        entry_key(#[trigger] es[p]),
        entry_key(#[trigger] es[q]),
    ) by {
        assert(sk[p] != sk[q]);
        assert(!key_lt(sk[q], sk[p]));
    }
    assert forall|k: int| 0 <= k < ops.len() implies #[trigger] has_endpoints(es, k) by {
        assert(ks[2 * k] == op_key(ops, k, false));
        assert(ks[2 * k + 1] == op_key(ops, k, true));
        assert(ks.contains(op_key(ops, k, false)));
        assert(ks.contains(op_key(ops, k, true)));
        assert(sk.contains(op_key(ops, k, false)));
        assert(sk.contains(op_key(ops, k, true)));
        let p = choose|p: int| 0 <= p < sk.len() && sk[p] == op_key(ops, k, false);
        let q = choose|q: int| 0 <= q < sk.len() && sk[q] == op_key(ops, k, true);
        assert(entry_key(es[p]) == sk[p]);
        assert(entry_key(es[q]) == sk[q]);
        assert(is_call_of(es, p, k));
        assert(is_return_of(es, q, k));
    }
    if ops_well_formed(ops) {
        assert(ks.len() == 2 * ops.len());
        assert(n_ops(es) == ops.len());
        assert forall|p: int| 0 <= p < es.len() implies (#[trigger] es[p].id as int) < n_ops(es) by {
            assert(entry_of_op(ops, es[p]));
        }
        assert forall|p: int, q: int|
            0 <= p < es.len() && 0 <= q < es.len() && p != q && #[trigger] es[p].id == #[trigger] es[q].id
            implies (es[p].value is Call) != (es[q].value is Call) by {
            assert(entry_key(es[p]) == sk[p]);
            assert(entry_key(es[q]) == sk[q]);
            assert(entry_of_op(ops, es[p]));
            assert(entry_of_op(ops, es[q]));
            assert(sk[p] != sk[q]);
        }
        assert forall|p: int, q: int|
            #![trigger es[p].id, es[q].id]
            0 <= p < es.len() && 0 <= q < es.len() && es[p].id == es[q].id && es[p].value is Call
                && es[q].value is Return implies p < q by {
            assert(entry_key(es[p]) == sk[p]);
            assert(entry_key(es[q]) == sk[q]);
            assert(entry_of_op(ops, es[p]));
            assert(entry_of_op(ops, es[q]));
            let k = es[p].id as int;
            assert(ops[k].call <= ops[k].return_time);
            if q < p {
                assert(!key_lt(sk[p], sk[q]));
            }
        }
    }
}

/// The abstract history of a list of operations: each operation is called and
/// returns at its timestamps.
pub open spec fn ops_history<I, O>(ops: Seq<Operation<I, O>>) -> Seq<AbsOp<I, O>> {
    Seq::new(
        ops.len(),
        |k: int|
            AbsOp {
                call: ops[k].call as int,
                ret: ops[k].return_time as int,
                input: ops[k].input,
                output: ops[k].output,
            },
    )
}

/// The entries that `make_entries` builds from well-formed operations describe
/// the same history as the operations themselves, where clones are copies:
/// position order among entries is timestamp order, with a call placed before
/// a return at the same instant.
pub proof fn lemma_entries_of_ops<I: Clone, O: Clone>(ops: Seq<Operation<I, O>>, es: Seq<Entry<I, O>>)
    requires
        ops.len() < usize::MAX,
        ops_well_formed(ops),
        clone_copies::<I>(),
        clone_copies::<O>(),
        es.len() == 2 * ops.len(),
        forall|p: int| 0 <= p < es.len() ==> #[trigger] entry_of_op(ops, es[p]),
        forall|p: int, q: int|
            0 <= p < q < es.len() ==> key_lt(entry_key(#[trigger] es[p]), entry_key(#[trigger] es[q])),
        entries_well_formed(es),
    ensures
        same_shape(entries_history(es), ops_history(ops)),
{
    let eh = entries_history(es);
    let oh = ops_history(ops);
    assert forall|k: int| 0 <= k < eh.len() implies (#[trigger] eh[k]).input == oh[k].input && eh[k].output
        == oh[k].output by {
        lemma_entry_positions(es, k);
        let p = call_pos(es, k);
        let q = ret_pos(es, k);
        assert(entry_of_op(ops, es[p]));
        assert(entry_of_op(ops, es[q]));
        assert(es[p].id == k);
        assert(vstd::pervasive::strictly_cloned(ops[k].input, input_of(es[p].value)));
        assert(vstd::pervasive::strictly_cloned(ops[k].output, output_of(es[q].value)));
    }
    assert forall|a: int, b: int| 0 <= a < eh.len() && 0 <= b < eh.len() implies (#[trigger] precedes(
        eh,
        a,
        b,
    ) <==> #[trigger] precedes(oh, a, b)) by {
        lemma_entry_positions(es, a);
        lemma_entry_positions(es, b);
        let ra = ret_pos(es, a);
        let cb = call_pos(es, b);
        assert(eh[a].ret == ra);
        assert(eh[b].call == cb);
        assert(entry_of_op(ops, es[ra]));
        assert(entry_of_op(ops, es[cb]));
        assert(es[ra].id == a);
        assert(es[cb].id == b);
        assert(ra != cb);
        if ra < cb {
            assert(key_lt(entry_key(es[ra]), entry_key(es[cb])));
        } else {
            assert(key_lt(entry_key(es[cb]), entry_key(es[ra])));
        }
    }
}

} // verus!
