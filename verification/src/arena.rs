//! An index-based doubly-linked list over the entries of a history, with O(1)
//! removal and re-insertion of an operation's call/return pair.
use crate::entries::{
    call_pos, entries_well_formed, is_return_of, lemma_entry_is_endpoint, lemma_entry_positions, n_ops,
    ret_pos, Entry,
    EntryValue,
};
use crate::fxmap::{fx_get, fx_insert, fx_new};
use rustc_hash::FxHashMap;
use vstd::prelude::*;

verus! {

/// Typed index into a [`NodeArena`]. The sentinel head is always `NodeRef(0)`.
#[derive(Clone, Copy, Debug, PartialEq, Eq, Structural)]
pub struct NodeRef(pub usize);

impl NodeRef {
    /// The index this reference designates.
    pub fn get(self) -> (r: usize)
        ensures
            r == self.0,
    {
        self.0
    }
}

/// A list node: the sentinel (index 0, no value) or one entry.
pub struct Node<I, O> {
    /// `None` only for the sentinel.
    pub value: Option<EntryValue<I, O>>,
    /// For a call node, the node of its return; `None` otherwise.
    pub match_idx: Option<NodeRef>,
    /// Operation id of the entry.
    pub id: usize,
    /// Previous node in the live list.
    pub prev: NodeRef,
    /// Next node in the live list, `None` at the end.
    pub next: Option<NodeRef>,
}

/// The nodes of a history's entries, linked in time order behind a sentinel.
///
/// `entries` records the entry list the arena was built from and `lifted` the
/// call nodes lifted so far, most recent last.
pub struct NodeArena<I, O> {
    pub nodes: Vec<Node<I, O>>,
    pub entries: Ghost<Seq<Entry<I, O>>>,
    pub lifted: Ghost<Seq<int>>,
}

// ---------------------------------------------------------------------------
// Links relative to a set of live nodes
// ---------------------------------------------------------------------------

/// `nx` is the first member of `live` after `x` (below `bound`), or `None` if there is none.
#[verifier::opaque]
pub open spec fn next_link(live: Set<int>, x: int, bound: int, nx: Option<NodeRef>) -> bool {
    match nx {
        None => forall|z: int| x < z < bound ==> !#[trigger] live.contains(z),
        Some(y) => {
            &&& x < y.0 < bound
            &&& live.contains(y.0 as int)
            &&& forall|z: int| x < z < y.0 ==> !#[trigger] live.contains(z)
        },
    }
}

/// `p` is the last member of `live` before `x`.
#[verifier::opaque]
pub open spec fn prev_link(live: Set<int>, x: int, p: NodeRef) -> bool {
    &&& 0 <= p.0 < x
    &&& live.contains(p.0 as int)
    &&& forall|z: int| p.0 < z < x ==> !#[trigger] live.contains(z)
}

/// Node `x` points at its neighbours within `live`.
pub open spec fn linked_within<I, O>(ns: Seq<Node<I, O>>, live: Set<int>, x: int) -> bool {
    &&& next_link(live, x, ns.len() as int, ns[x].next)
    &&& (x != 0 ==> prev_link(live, x, ns[x].prev))
}

/// The members of `live` form a doubly-linked list in index order, starting at 0.
pub open spec fn links_ok<I, O>(ns: Seq<Node<I, O>>, live: Set<int>) -> bool {
    &&& live.contains(0)
    &&& forall|y: int| #[trigger] live.contains(y) ==> 0 <= y < ns.len()
    &&& forall|y: int| #[trigger] live.contains(y) ==> linked_within(ns, live, y)
}

/// Only the link fields of the nodes may differ.
pub open spec fn same_payload<I, O>(a: Node<I, O>, b: Node<I, O>) -> bool {
    a.value == b.value && a.match_idx == b.match_idx && a.id == b.id
}

/// Removes node `x` from the list: its neighbours are linked to each other.
pub open spec fn unlink<I, O>(ns: Seq<Node<I, O>>, x: int) -> Seq<Node<I, O>> {
    let p = ns[x].prev.0 as int;
    let nx = ns[x].next;
    let ns1 = ns.update(p, Node { next: nx, ..ns[p] });
    match nx {
        Some(y) => ns1.update(y.0 as int, Node { prev: ns[x].prev, ..ns1[y.0 as int] }),
        None => ns1,
    }
}

/// Puts node `x` back between the neighbours it still points at.
pub open spec fn relink<I, O>(ns: Seq<Node<I, O>>, x: int) -> Seq<Node<I, O>> {
    let p = ns[x].prev.0 as int;
    let nx = ns[x].next;
    let ns1 = ns.update(p, Node { next: Some(NodeRef(x as usize)), ..ns[p] });
    match nx {
        Some(y) => ns1.update(y.0 as int, Node { prev: NodeRef(x as usize), ..ns1[y.0 as int] }),
        None => ns1,
    }
}

pub proof fn lemma_next_facts(live: Set<int>, x: int, bound: int, nx: Option<NodeRef>)
    requires
        next_link(live, x, bound, nx),
    ensures
        nx matches Some(y) ==> x < y.0 < bound && live.contains(y.0 as int),
        forall|z: int| live.contains(z) && x < z < bound ==> (nx matches Some(y) && y.0 <= z),
{
    reveal(next_link);
}

pub proof fn lemma_prev_facts(live: Set<int>, x: int, p: NodeRef)
    requires
        prev_link(live, x, p),
    ensures
        0 <= p.0 < x,
        live.contains(p.0 as int),
        forall|z: int| live.contains(z) && z < x ==> z <= p.0,
{
    reveal(prev_link);
}

proof fn lemma_next_keep(live: Set<int>, x: int, y: int, bound: int, ny: Option<NodeRef>)
    requires
        next_link(live, y, bound, ny),
        !(ny matches Some(r) && r.0 == x),
    ensures
        next_link(live.remove(x), y, bound, ny),
{
    reveal(next_link);
}

proof fn lemma_prev_keep(live: Set<int>, x: int, y: int, p: NodeRef)
    requires
        prev_link(live, y, p),
        p.0 != x,
    ensures
        prev_link(live.remove(x), y, p),
{
    reveal(prev_link);
}

proof fn lemma_next_bridge(live: Set<int>, x: int, p: NodeRef, bound: int, nx: Option<NodeRef>)
    requires
        prev_link(live, x, p),
        next_link(live, x, bound, nx),
    ensures
        next_link(live.remove(x), p.0 as int, bound, nx),
{
    reveal(next_link);
    reveal(prev_link);
    assert forall|z: int| p.0 < z < x implies !#[trigger] live.remove(x).contains(z) by {
        assert(!live.contains(z));
    }
}

proof fn lemma_prev_bridge(live: Set<int>, x: int, p: NodeRef, bound: int, y: NodeRef)
    requires
        prev_link(live, x, p),
        next_link(live, x, bound, Some(y)),
    ensures
        prev_link(live.remove(x), y.0 as int, p),
{
    reveal(next_link);
    reveal(prev_link);
    assert forall|z: int| p.0 < z < y.0 implies !#[trigger] live.remove(x).contains(z) by {
        if z < x {
            assert(!live.contains(z));
        } else if z > x {
            assert(!live.contains(z));
        }
    }
}

proof fn lemma_insert_next(live: Set<int>, x: int, y: int, bound: int, ny: Option<NodeRef>, p: NodeRef)
    requires
        next_link(live, y, bound, ny),
        prev_link(live, x, p),
        live.contains(y),
        y != p.0,
        y != x,
        x < bound,
    ensures
        next_link(live.insert(x), y, bound, ny),
{
    reveal(next_link);
    reveal(prev_link);
    if y < x {
        assert(y < p.0);
        match ny {
            Some(r) => {
                assert(r.0 <= p.0);
            },
            None => {
                assert(!live.contains(p.0 as int));
            },
        }
    }
}

proof fn lemma_insert_prev(live: Set<int>, x: int, y: int, bound: int, q: Option<NodeRef>, py: NodeRef)
    requires
        prev_link(live, y, py),
        next_link(live, x, bound, q),
        live.contains(y),
        !(q matches Some(r) && r.0 == y),
        y != x,
        y < bound,
    ensures
        prev_link(live.insert(x), y, py),
{
    reveal(next_link);
    reveal(prev_link);
    if y > x {
        match q {
            Some(r) => {
                assert(r.0 < y);
                assert(py.0 >= r.0);
            },
            None => {
                assert(!live.contains(y));
            },
        }
    }
}

proof fn lemma_insert_self(live: Set<int>, x: int, bound: int, nx: Option<NodeRef>, p: NodeRef)
    requires
        next_link(live, x, bound, nx),
        prev_link(live, x, p),
        x < bound <= usize::MAX,
    ensures
        next_link(live.insert(x), x, bound, nx),
        prev_link(live.insert(x), x, p),
        next_link(live.insert(x), p.0 as int, bound, Some(NodeRef(x as usize))),
        nx matches Some(q) ==> prev_link(live.insert(x), q.0 as int, NodeRef(x as usize)),
{
    reveal(next_link);
    reveal(prev_link);
}

proof fn lemma_prev_keep_insert(live: Set<int>, x: int, y: int, p: NodeRef)
    requires
        prev_link(live, y, p),
        x > y,
    ensures
        prev_link(live.insert(x), y, p),
{
    reveal(prev_link);
}

proof fn lemma_next_keep_insert(live: Set<int>, x: int, y: int, bound: int, ny: Option<NodeRef>)
    requires
        next_link(live, y, bound, ny),
        x < y,
    ensures
        next_link(live.insert(x), y, bound, ny),
{
    reveal(next_link);
}

/// Unlinking a live node keeps the rest linked and leaves the node pointing at
/// its former neighbours; only those neighbours change.
#[verifier::rlimit(30)]
pub proof fn lemma_unlink<I, O>(ns: Seq<Node<I, O>>, live: Set<int>, x: int)
    requires
        links_ok(ns, live),
        live.contains(x),
        x != 0,
    ensures
        unlink(ns, x).len() == ns.len(),
        links_ok(unlink(ns, x), live.remove(x)),
        linked_within(unlink(ns, x), live.remove(x), x),
        unlink(ns, x)[x] == ns[x],
        forall|z: int| 0 <= z < ns.len() ==> same_payload(#[trigger] unlink(ns, x)[z], ns[z]),
        forall|z: int| 0 <= z < ns.len() && !live.contains(z) ==> #[trigger] unlink(ns, x)[z] == ns[z],
{
    let ns2 = unlink(ns, x);
    let live2 = live.remove(x);
    let bound = ns.len() as int;
    let pr = ns[x].prev;
    let p = pr.0 as int;
    let nx = ns[x].next;
    assert(linked_within(ns, live, x));
    lemma_prev_facts(live, x, pr);
    lemma_next_facts(live, x, bound, nx);
    assert(linked_within(ns, live, p));
    assert(ns2[p].next == nx);
    assert(ns2[p].prev == ns[p].prev);
    assert forall|y: int| #[trigger] live2.contains(y) implies linked_within(ns2, live2, y) by {
        assert(linked_within(ns, live, y));
        if y == p {
            lemma_next_bridge(live, x, pr, bound, nx);
            if y != 0 {
                lemma_prev_facts(live, y, ns[y].prev);
                lemma_prev_keep(live, x, y, ns[y].prev);
            }
        } else if nx is Some && nx.unwrap().0 == y {
            lemma_prev_bridge(live, x, pr, bound, nx.unwrap());
            lemma_next_facts(live, y, bound, ns[y].next);
            lemma_next_keep(live, x, y, bound, ns[y].next);
        } else {
            assert(ns2[y] == ns[y]);
            lemma_next_facts(live, y, bound, ns[y].next);
            if y < x {
                lemma_prev_facts(live, x, pr);
            }
            lemma_next_keep(live, x, y, bound, ns[y].next);
            if y != 0 {
                lemma_prev_facts(live, y, ns[y].prev);
                if y > x {
                    lemma_next_facts(live, x, bound, nx);
                }
                lemma_prev_keep(live, x, y, ns[y].prev);
            }
        }
    }
    reveal(next_link);
    reveal(prev_link);
}

/// Relinking a detached node that points at its neighbours within `live`
/// restores the list over `live` plus that node; only the neighbours change.
#[verifier::rlimit(30)]
pub proof fn lemma_relink<I, O>(ns: Seq<Node<I, O>>, live: Set<int>, x: int)
    requires
        links_ok(ns, live),
        !live.contains(x),
        0 < x < ns.len(),
        ns.len() <= usize::MAX,
        linked_within(ns, live, x),
    ensures
        relink(ns, x).len() == ns.len(),
        links_ok(relink(ns, x), live.insert(x)),
        relink(ns, x)[x] == ns[x],
        forall|z: int| 0 <= z < ns.len() ==> same_payload(#[trigger] relink(ns, x)[z], ns[z]),
        forall|z: int| 0 <= z < ns.len() && !live.contains(z) ==> #[trigger] relink(ns, x)[z] == ns[z],
{
    let ns2 = relink(ns, x);
    let live2 = live.insert(x);
    let bound = ns.len() as int;
    let pr = ns[x].prev;
    let p = pr.0 as int;
    let nx = ns[x].next;
    lemma_prev_facts(live, x, pr);
    lemma_next_facts(live, x, bound, nx);
    lemma_insert_self(live, x, bound, nx, pr);
    assert(linked_within(ns, live, p));
    assert forall|y: int| #[trigger] live2.contains(y) implies linked_within(ns2, live2, y) by {
        if y == x {
        } else {
            assert(linked_within(ns, live, y));
            if y == p {
                if y != 0 {
                    lemma_prev_facts(live, y, ns[y].prev);
                    lemma_prev_keep_insert(live, x, y, ns[y].prev);
                }
            } else if nx is Some && nx.unwrap().0 == y {
                lemma_next_keep_insert(live, x, y, bound, ns[y].next);
            } else {
                assert(ns2[y] == ns[y]);
                lemma_insert_next(live, x, y, bound, ns[y].next, pr);
                if y != 0 {
                    lemma_insert_prev(live, x, y, bound, nx, ns[y].prev);
                }
            }
        }
    }
}

// ---------------------------------------------------------------------------
// The arena's invariant
// ---------------------------------------------------------------------------

impl<I, O> NodeArena<I, O> {
    /// Operation id of node `y`.
    pub open spec fn node_op(self, y: int) -> int {
        self.entries@[y - 1].id as int
    }

    /// Node of the call of operation `k`.
    pub open spec fn call_node(self, k: int) -> int {
        call_pos(self.entries@, k) + 1
    }

    /// Node of the return of operation `k`.
    pub open spec fn ret_node(self, k: int) -> int {
        ret_pos(self.entries@, k) + 1
    }

    /// Operations whose call node is among the first `k` lifted.
    pub open spec fn lifted_ops(self, k: int) -> Set<int> {
        Set::new(|b: int| exists|i: int| 0 <= i < k && #[trigger] self.node_op(self.lifted@[i]) == b)
    }

    /// Operations lifted so far.
    pub open spec fn linearized(self) -> Set<int> {
        self.lifted_ops(self.lifted@.len() as int)
    }

    /// The live nodes when the operations `done` are lifted: the sentinel and
    /// the nodes of every other operation.
    pub open spec fn live_set(self, done: Set<int>) -> Set<int> {
        Set::new(
            |y: int| y == 0 || (1 <= y < self.nodes@.len() && !done.contains(self.node_op(y))),
        )
    }

    /// The live nodes now.
    pub open spec fn live(self) -> Set<int> {
        self.live_set(self.linearized())
    }

    /// The payload of every node matches the entry list it was built from.
    pub open spec fn layout_ok(self) -> bool {
        let ns = self.nodes@;
        let es = self.entries@;
        &&& entries_well_formed(es)
        &&& ns.len() == es.len() + 1
        &&& ns[0].value is None
        &&& ns[0].match_idx is None
        &&& ns[0].prev == NodeRef(0)
        &&& ns[0].id == usize::MAX
        &&& forall|y: int|
            1 <= y < ns.len() ==> {
                &&& (#[trigger] ns[y]).value == Some(es[y - 1].value)
                &&& ns[y].id == es[y - 1].id
                &&& ns[y].match_idx == (if es[y - 1].value is Call {
                    Some(NodeRef((ret_pos(es, es[y - 1].id as int) + 1) as usize))
                } else {
                    None
                })
            }
    }

    /// Lifted frame `i` (call node `c` of operation `b`) is detached: the call
    /// node points at its neighbours among the nodes live before the frame,
    /// the return node at its neighbours once the call node is gone.
    pub open spec fn frame_ok(self, i: int) -> bool {
        let c = self.lifted@[i];
        let b = self.node_op(c);
        let before = self.live_set(self.lifted_ops(i));
        &&& 1 <= c < self.nodes@.len()
        &&& c == self.call_node(b)
        &&& !self.lifted_ops(i).contains(b)
        &&& linked_within(self.nodes@, before.remove(c), c)
        &&& linked_within(self.nodes@, before.remove(c), self.ret_node(b))
    }

    /// The arena's invariant.
    pub open spec fn wf(self) -> bool {
        &&& self.layout_ok()
        &&& forall|i: int| 0 <= i < self.lifted@.len() ==> #[trigger] self.frame_ok(i)
        &&& links_ok(self.nodes@, self.live())
    }
}


/// Whether `x` itself is in the set does not matter to its own links.
proof fn lemma_links_self<I, O>(ns: Seq<Node<I, O>>, live: Set<int>, x: int)
    ensures
        linked_within(ns, live.remove(x), x) <==> linked_within(ns, live, x),
        linked_within(ns, live.insert(x), x) <==> linked_within(ns, live, x),
{
    lemma_links_self_sets(ns, live.remove(x), live, x);
    lemma_links_self_sets(ns, live.insert(x), live, x);
}

/// Two sets that agree everywhere but at `x` give `x` the same links.
proof fn lemma_links_self_sets<I, O>(ns: Seq<Node<I, O>>, a: Set<int>, b: Set<int>, x: int)
    requires
        forall|z: int| z != x ==> (a.contains(z) <==> b.contains(z)),
    ensures
        linked_within(ns, a, x) <==> linked_within(ns, b, x),
{
    reveal(next_link);
    reveal(prev_link);
    let bound = ns.len() as int;
    match ns[x].next {
        Some(y) => {
            if next_link(a, x, bound, ns[x].next) {
                assert forall|z: int| x < z < y.0 implies !#[trigger] b.contains(z) by {
                    assert(!a.contains(z));
                }
            }
            if next_link(b, x, bound, ns[x].next) {
                assert forall|z: int| x < z < y.0 implies !#[trigger] a.contains(z) by {
                    assert(!b.contains(z));
                }
            }
        },
        None => {
            if next_link(a, x, bound, ns[x].next) {
                assert forall|z: int| x < z < bound implies !#[trigger] b.contains(z) by {
                    assert(!a.contains(z));
                }
            }
            if next_link(b, x, bound, ns[x].next) {
                assert forall|z: int| x < z < bound implies !#[trigger] a.contains(z) by {
                    assert(!b.contains(z));
                }
            }
        },
    }
    let p = ns[x].prev;
    if prev_link(a, x, p) {
        assert forall|z: int| p.0 < z < x implies !#[trigger] b.contains(z) by {
            assert(!a.contains(z));
        }
    }
    if prev_link(b, x, p) {
        assert forall|z: int| p.0 < z < x implies !#[trigger] a.contains(z) by {
            assert(!b.contains(z));
        }
    }
}

impl<I, O> NodeArena<I, O> {
    /// Lifting operation `b` removes exactly its call node and its return node
    /// from the live set.
    pub proof fn lemma_live_step(self, done: Set<int>, b: int)
        requires
            self.layout_ok(),
            0 <= b < n_ops(self.entries@),
        ensures
            1 <= self.call_node(b) < self.ret_node(b) < self.nodes@.len(),
            self.node_op(self.call_node(b)) == b,
            self.node_op(self.ret_node(b)) == b,
            self.live_set(done.insert(b)) == self.live_set(done).remove(self.call_node(b)).remove(
                self.ret_node(b),
            ),
    {
        let es = self.entries@;
        lemma_entry_positions(es, b);
        let lhs = self.live_set(done.insert(b));
        let rhs = self.live_set(done).remove(self.call_node(b)).remove(self.ret_node(b));
        assert forall|y: int| lhs.contains(y) <==> rhs.contains(y) by {
            if 1 <= y < self.nodes@.len() {
                lemma_entry_is_endpoint(es, y - 1);
            }
        }
        assert(lhs =~= rhs);
    }

    /// Arenas over the same entries that agree on the first `k` lifted nodes
    /// agree on the operations lifted among them.
    pub proof fn lemma_lifted_ops_prefix(self, other: Self, k: int)
        requires
            other.entries@ == self.entries@,
            0 <= k <= self.lifted@.len(),
            k <= other.lifted@.len(),
            forall|i: int| 0 <= i < k ==> other.lifted@[i] == self.lifted@[i],
        ensures
            forall|j: int| 0 <= j <= k ==> #[trigger] other.lifted_ops(j) == self.lifted_ops(j),
    {
        assert forall|j: int| 0 <= j <= k implies #[trigger] other.lifted_ops(j) == self.lifted_ops(j) by {
            assert forall|b: int| other.lifted_ops(j).contains(b) <==> self.lifted_ops(j).contains(b) by {
                if other.lifted_ops(j).contains(b) {
                    let i = choose|i: int| 0 <= i < j && #[trigger] other.node_op(other.lifted@[i]) == b;
                    assert(self.node_op(self.lifted@[i]) == b);
                }
                if self.lifted_ops(j).contains(b) {
                    let i = choose|i: int| 0 <= i < j && #[trigger] self.node_op(self.lifted@[i]) == b;
                    assert(other.node_op(other.lifted@[i]) == b);
                }
            }
            assert(other.lifted_ops(j) =~= self.lifted_ops(j));
        }
    }

    /// The lifted operations after one more lift.
    pub proof fn lemma_lifted_ops_push(self, other: Self, c: int)
        requires
            other.lifted@ == self.lifted@.push(c),
            other.entries@ == self.entries@,
        ensures
            forall|k: int| 0 <= k <= self.lifted@.len() ==> #[trigger] other.lifted_ops(k) == self.lifted_ops(k),
            other.lifted_ops(self.lifted@.len() + 1int) == self.lifted_ops(self.lifted@.len() as int).insert(
                self.node_op(c),
            ),
    {
        let m = self.lifted@.len() as int;
        self.lemma_lifted_ops_prefix(other, m);
        let lhs = other.lifted_ops(m + 1);
        let rhs = self.lifted_ops(m).insert(self.node_op(c));
        assert forall|b: int| lhs.contains(b) <==> rhs.contains(b) by {
            if lhs.contains(b) {
                let i = choose|i: int| 0 <= i < m + 1 && #[trigger] other.node_op(other.lifted@[i]) == b;
                if i < m {
                    assert(self.node_op(self.lifted@[i]) == b);
                }
            }
            if self.lifted_ops(m).contains(b) {
                let i = choose|i: int| 0 <= i < m && #[trigger] self.node_op(self.lifted@[i]) == b;
                assert(other.node_op(other.lifted@[i]) == b);
            }
            if b == self.node_op(c) {
                assert(other.node_op(other.lifted@[m]) == b);
            }
        }
        assert(lhs =~= rhs);
    }

    /// The first `k` frames stay detached when only nodes that were live after
    /// them (members of `keep`) change.
    pub proof fn lemma_frames_preserved(self, other: Self, k: int, keep: Set<int>)
        requires
            self.layout_ok(),
            forall|i: int| 0 <= i < k ==> #[trigger] self.frame_ok(i),
            other.entries@ == self.entries@,
            other.nodes@.len() == self.nodes@.len(),
            0 <= k <= self.lifted@.len(),
            k <= other.lifted@.len(),
            forall|i: int| 0 <= i < k ==> other.lifted@[i] == self.lifted@[i],
            forall|z: int| #[trigger] keep.contains(z) ==> self.live_set(self.lifted_ops(k)).contains(z),
            forall|z: int|
                0 <= z < self.nodes@.len() && !keep.contains(z) ==> #[trigger] other.nodes@[z]
                    == self.nodes@[z],
        ensures
            forall|i: int| 0 <= i < k ==> #[trigger] other.frame_ok(i),
    {
        self.lemma_lifted_ops_prefix(other, k);
        assert forall|i: int| 0 <= i < k implies #[trigger] other.frame_ok(i) by {
            assert(self.frame_ok(i));
            let ci = self.lifted@[i];
            let bi = self.node_op(ci);
            assert(self.lifted_ops(k).contains(bi)) by {
                assert(self.node_op(self.lifted@[i]) == bi);
            }
            lemma_entry_positions(self.entries@, bi);
            self.lemma_live_step(self.lifted_ops(k), bi);
            assert(!self.live_set(self.lifted_ops(k)).contains(ci));
            assert(!self.live_set(self.lifted_ops(k)).contains(self.ret_node(bi)));
            assert(other.nodes@[ci] == self.nodes@[ci]);
            assert(other.nodes@[self.ret_node(bi)] == self.nodes@[self.ret_node(bi)]);
            assert(other.live_set(other.lifted_ops(i)) =~= self.live_set(self.lifted_ops(i)));
        }
    }

    /// Index of the first live node after the sentinel.
    pub fn head_next(&self) -> (r: Option<NodeRef>)
        requires
            self.nodes@.len() > 0,
        ensures
            r == self.nodes@[0].next,
    {
        self.nodes[0].next
    }

    /// Remove `call_ref` and its matched return node from the live list.
    pub fn lift(&mut self, call_ref: NodeRef)
        requires
            old(self).wf(),
            old(self).live().contains(call_ref.0 as int),
            call_ref.0 != 0,
            old(self).nodes@[call_ref.0 as int].value matches Some(v) && v is Call,
        ensures
            final(self).wf(),
            final(self).entries == old(self).entries,
            final(self).nodes@.len() == old(self).nodes@.len(),
            final(self).lifted@ == old(self).lifted@.push(call_ref.0 as int),
            final(self).linearized() == old(self).linearized().insert(
                old(self).node_op(call_ref.0 as int),
            ),
    {
        let ghost ns0 = self.nodes@;
        let ghost c = call_ref.0 as int;
        let ghost live0 = self.live();
        let ghost m = self.lifted@.len() as int;
        assert(self.nodes.len() == ns0.len());
        let ghost b = self.node_op(c);
        let ghost es = self.entries@;
        proof {
            lemma_entry_is_endpoint(es, c - 1);
            self.lemma_live_step(self.linearized(), b);
            assert(linked_within(ns0, live0, c));
            lemma_prev_facts(live0, c, ns0[c].prev);
            lemma_next_facts(live0, c, ns0.len() as int, ns0[c].next);
            lemma_unlink(ns0, live0, c);
        }
        let match_ref = self.nodes[call_ref.get()].match_idx.unwrap();
        let ghost r = match_ref.0 as int;
        proof {
            assert(ns0[c].value == Some(es[c - 1].value));
            assert(r == self.ret_node(b));
            assert(live0.contains(r));
        }
        // Unlink call node.
        let call_prev = self.nodes[call_ref.get()].prev;
        let call_next = self.nodes[call_ref.get()].next;
        self.nodes[call_prev.get()].next = call_next;
        if let Some(cn) = call_next {
            self.nodes[cn.get()].prev = call_prev;
        }
        let ghost ns1 = self.nodes@;
        let ghost live1 = live0.remove(c);
        assert(ns1 =~= unlink(ns0, c));
        proof {
            assert(live1.contains(r));
            assert(linked_within(ns1, live1, r));
            lemma_prev_facts(live1, r, ns1[r].prev);
            lemma_next_facts(live1, r, ns1.len() as int, ns1[r].next);
            lemma_unlink(ns1, live1, r);
        }
        // Unlink return node.
        let ret_prev = self.nodes[match_ref.get()].prev;
        let ret_next = self.nodes[match_ref.get()].next;
        self.nodes[ret_prev.get()].next = ret_next;
        if let Some(rn) = ret_next {
            self.nodes[rn.get()].prev = ret_prev;
        }
        let ghost ns2 = self.nodes@;
        assert(ns2 =~= unlink(ns1, r));
        let ghost old_arena = *old(self);
        self.lifted = Ghost(self.lifted@.push(c));
        proof {
            let live2 = live1.remove(r);
            old_arena.lemma_lifted_ops_push(*self, c);
            assert(self.linearized() == old_arena.linearized().insert(b));
            assert(self.live() == live2);
            lemma_links_self(ns2, live1, c);
            lemma_links_self(ns2, live1, r);
            assert(ns2[c] == ns1[c]);
            assert(self.layout_ok()) by {
                assert forall|y: int| 1 <= y < ns2.len() implies same_payload(#[trigger] ns2[y], ns0[y]) by {
                    assert(same_payload(ns1[y], ns0[y]));
                }
            }
            old_arena.lemma_frames_preserved(*self, m, live0);
            assert(self.frame_ok(m)) by {
                assert(self.lifted_ops(m) == old_arena.linearized());
                assert(self.live_set(self.lifted_ops(m)) =~= live0);
                assert(ns2[c] == ns1[c]);
                assert(es[c - 1].value is Call);
            }
        }
    }

    /// Re-insert the most recently lifted call node and its matched return node.
    pub fn unlift(&mut self, call_ref: NodeRef)
        requires
            old(self).wf(),
            old(self).lifted@.len() > 0,
            call_ref.0 as int == old(self).lifted@.last(),
        ensures
            final(self).wf(),
            final(self).entries == old(self).entries,
            final(self).nodes@.len() == old(self).nodes@.len(),
            final(self).lifted@ == old(self).lifted@.drop_last(),
    {
        let ghost ns0 = self.nodes@;
        let ghost c = call_ref.0 as int;
        let ghost m = self.lifted@.len() - 1;
        let ghost b = self.node_op(c);
        let ghost es = self.entries@;
        let ghost old_arena = *old(self);
        let ghost shorter = NodeArena::<I, O> {
            nodes: self.nodes,
            entries: self.entries,
            lifted: Ghost(self.lifted@.drop_last()),
        };
        assert(self.lifted@ =~= shorter.lifted@.push(c));
        proof {
            assert(self.frame_ok(m));
            shorter.lemma_lifted_ops_push(*self, c);
            self.lemma_live_step(self.lifted_ops(m), b);
            lemma_entry_is_endpoint(es, c - 1);
        }
        let ghost before = self.live_set(self.lifted_ops(m));
        let ghost r = self.ret_node(b);
        let ghost live0 = self.live();
        assert(live0 == before.remove(c).remove(r));
        let match_ref = self.nodes[call_ref.get()].match_idx.unwrap();
        proof {
            assert(self.nodes.len() == ns0.len());
            assert(ns0[c].value == Some(es[c - 1].value));
            lemma_links_self(ns0, before.remove(c), r);
            assert(before.remove(c) == live0.insert(r));
            lemma_links_self(ns0, live0, r);
            lemma_relink(ns0, live0, r);
            lemma_prev_facts(live0, r, ns0[r].prev);
            lemma_next_facts(live0, r, ns0.len() as int, ns0[r].next);
        }
        // Re-link return node.
        let ret_prev = self.nodes[match_ref.get()].prev;
        let ret_next = self.nodes[match_ref.get()].next;
        self.nodes[ret_prev.get()].next = Some(match_ref);
        if let Some(rn) = ret_next {
            self.nodes[rn.get()].prev = match_ref;
        }
        let ghost ns1 = self.nodes@;
        let ghost live1 = live0.insert(r);
        assert(ns1 =~= relink(ns0, r));
        proof {
            assert(ns1[c] == ns0[c]);
            lemma_links_self(ns1, before, c);
            assert(before.remove(c) == live1);
            lemma_relink(ns1, live1, c);
            lemma_prev_facts(live1, c, ns1[c].prev);
            lemma_next_facts(live1, c, ns1.len() as int, ns1[c].next);
        }
        // Re-link call node.
        let call_prev = self.nodes[call_ref.get()].prev;
        let call_next = self.nodes[call_ref.get()].next;
        self.nodes[call_prev.get()].next = Some(call_ref);
        if let Some(cn) = call_next {
            self.nodes[cn.get()].prev = call_ref;
        }
        let ghost ns2 = self.nodes@;
        assert(ns2 =~= relink(ns1, c));
        self.lifted = Ghost(self.lifted@.drop_last());
        proof {
            assert(live1.insert(c) == before);
            old_arena.lemma_lifted_ops_prefix(*self, m);
            assert(self.live() =~= before);
            assert(self.layout_ok()) by {
                assert forall|y: int| 1 <= y < ns2.len() implies same_payload(#[trigger] ns2[y], ns0[y]) by {
                    assert(same_payload(ns1[y], ns0[y]));
                }
            }
            old_arena.lemma_frames_preserved(*self, m, before);
        }
    }

    /// The nodes of a fresh arena: every entry linked in order behind the sentinel.
    pub open spec fn fresh_layout(ns: Seq<Node<I, O>>, es: Seq<Entry<I, O>>) -> bool {
        let n = es.len() as int;
        &&& ns.len() == n + 1
        &&& ns[0].value is None
        &&& ns[0].match_idx is None
        &&& ns[0].prev == NodeRef(0)
        &&& ns[0].id == usize::MAX
        &&& ns[0].next == (if n > 0 {
            Some(NodeRef(1))
        } else {
            None
        })
        &&& forall|y: int|
            1 <= y <= n ==> {
                &&& (#[trigger] ns[y]).value == Some(es[y - 1].value)
                &&& ns[y].id == es[y - 1].id
                &&& ns[y].match_idx == (if es[y - 1].value is Call {
                    Some(NodeRef((ret_pos(es, es[y - 1].id as int) + 1) as usize))
                } else {
                    None
                })
                &&& ns[y].prev == NodeRef((y - 1) as usize)
                &&& ns[y].next == (if y < n {
                    Some(NodeRef((y + 1) as usize))
                } else {
                    None
                })
            }
    }

    /// Build the arena from a sorted entry list.
    pub fn from_entries(entries: Vec<Entry<I, O>>) -> (r: Self)
        requires
            entries_well_formed(entries@),
            entries@.len() < usize::MAX,
        ensures
            r.wf(),
            r.entries@ == entries@,
            r.lifted@ == Seq::<int>::empty(),
            Self::fresh_layout(r.nodes@, entries@),
    {
        let ghost es = entries@;
        let n = entries.len();
        let mut entries = entries;
        let mut arena_nodes: Vec<Node<I, O>> = Vec::with_capacity(n + 1);
        // Sentinel at index 0 — value is None (never accessed in the search).
        arena_nodes.push(
            Node { value: None, match_idx: None, id: usize::MAX, prev: NodeRef(0), next: None },
        );
        let mut k: usize = 0;
        while k < n
            invariant
                arena_nodes@.len() == k + 1,
                k <= n,
                arena_nodes@[0].value is None,
                arena_nodes@[0].match_idx is None,
                arena_nodes@[0].id == usize::MAX,
                forall|y: int|
                    1 <= y <= k ==> (#[trigger] arena_nodes@[y]).value is None
                        && arena_nodes@[y].match_idx is None,
            decreases n - k,
        {
            arena_nodes.push(Node { value: None, match_idx: None, id: 0, prev: NodeRef(0), next: None });
            k = k + 1;
        }
        // Track which node holds the return for each operation id.
        let mut return_idx: FxHashMap<usize, NodeRef> = fx_new();
        // Give each entry its slot, last entry first.
        let mut i: usize = n;
        while i > 0
            invariant
                i <= n,
                n == es.len(),
                entries@ == es.take(i as int),
                arena_nodes@.len() == n + 1,
                arena_nodes@[0].value is None,
                arena_nodes@[0].match_idx is None,
                arena_nodes@[0].id == usize::MAX,
                forall|y: int|
                    1 <= y <= i ==> (#[trigger] arena_nodes@[y]).value is None
                        && arena_nodes@[y].match_idx is None,
                forall|y: int|
                    i < y <= n ==> (#[trigger] arena_nodes@[y]).value == Some(es[y - 1].value)
                        && arena_nodes@[y].id == es[y - 1].id && arena_nodes@[y].match_idx is None,
                forall|key: usize| #[trigger]
                    return_idx@.contains_key(key) ==> i <= return_idx@[key].0 - 1 < n
                        && es[return_idx@[key].0 - 1].id == key && es[return_idx@[key].0
                        - 1].value is Return,
                forall|p: int|
                    i <= p < n && #[trigger] es[p].value is Return ==> return_idx@.contains_key(
                        es[p].id,
                    ),
            decreases i,
        {
            let entry = entries.pop().unwrap();
            proof {
                assert(entry == es[i - 1]);
            }
            if entry.value.is_return() {
                fx_insert(&mut return_idx, entry.id, NodeRef(i));
            }
            arena_nodes[i].id = entry.id;
            arena_nodes[i].value = Some(entry.value);
            i = i - 1;
        }
        // Fill match_idx for call nodes.
        let mut j: usize = 1;
        while j <= n
            invariant
                1 <= j <= n + 1,
                n == es.len(),
                entries_well_formed(es),
                arena_nodes@.len() == n + 1,
                arena_nodes@[0].value is None,
                arena_nodes@[0].match_idx is None,
                arena_nodes@[0].id == usize::MAX,
                forall|y: int|
                    1 <= y <= n ==> (#[trigger] arena_nodes@[y]).value == Some(es[y - 1].value)
                        && arena_nodes@[y].id == es[y - 1].id,
                forall|y: int|
                    1 <= y < j ==> (#[trigger] arena_nodes@[y]).match_idx == (if es[y - 1].value is Call {
                        Some(NodeRef((ret_pos(es, es[y - 1].id as int) + 1) as usize))
                    } else {
                        None
                    }),
                forall|y: int| j <= y <= n ==> (#[trigger] arena_nodes@[y]).match_idx is None,
                forall|key: usize| #[trigger]
                    return_idx@.contains_key(key) ==> 0 <= return_idx@[key].0 - 1 < n
                        && es[return_idx@[key].0 - 1].id == key && es[return_idx@[key].0
                        - 1].value is Return,
                forall|p: int|
                    0 <= p < n && #[trigger] es[p].value is Return ==> return_idx@.contains_key(
                        es[p].id,
                    ),
            decreases n + 1 - j,
        {
            let is_call = match &arena_nodes[j].value {
                Some(v) => v.is_call(),
                None => false,
            };
            if is_call {
                let op_id = arena_nodes[j].id;
                proof {
                    let k = op_id as int;
                    lemma_entry_positions(es, k);
                    assert(es[ret_pos(es, k)].value is Return);
                }
                match fx_get(&return_idx, &op_id) {
                    Some(ret_ref) => {
                        proof {
                            let k = op_id as int;
                            let q = ret_ref.0 - 1;
                            assert(is_return_of(es, q, k));
                        }
                        arena_nodes[j].match_idx = Some(*ret_ref);
                    },
                    None => {},
                }
            }
            j = j + 1;
        }
        // Link nodes in order: sentinel → 1 → 2 → … → n
        let mut t: usize = 1;
        while t <= n
            invariant
                1 <= t <= n + 1,
                n == es.len(),
                n < usize::MAX,
                arena_nodes@.len() == n + 1,
                arena_nodes@[0].value is None,
                arena_nodes@[0].match_idx is None,
                arena_nodes@[0].id == usize::MAX,
                forall|y: int|
                    1 <= y <= n ==> (#[trigger] arena_nodes@[y]).value == Some(es[y - 1].value)
                        && arena_nodes@[y].id == es[y - 1].id
                        && arena_nodes@[y].match_idx == (if es[y - 1].value is Call {
                        Some(NodeRef((ret_pos(es, es[y - 1].id as int) + 1) as usize))
                    } else {
                        None
                    }),
                forall|y: int|
                    1 <= y < t ==> (#[trigger] arena_nodes@[y]).prev == NodeRef((y - 1) as usize)
                        && arena_nodes@[y].next == (if y < n {
                        Some(NodeRef((y + 1) as usize))
                    } else {
                        None
                    }),
            decreases n + 1 - t,
        {
            arena_nodes[t].prev = NodeRef(t - 1);
            if t < n {
                arena_nodes[t].next = Some(NodeRef(t + 1));
            } else {
                arena_nodes[t].next = None;
            }
            t = t + 1;
        }
        arena_nodes[0].next = if n > 0 {
            Some(NodeRef(1))
        } else {
            None
        };
        arena_nodes[0].prev = NodeRef(0);
        let r = NodeArena { nodes: arena_nodes, entries: Ghost(es), lifted: Ghost(Seq::empty()) };
        proof {
            let ns = r.nodes@;
            let live = r.live();
            assert(r.linearized() =~= Set::<int>::empty());
            assert forall|y: int| #[trigger] live.contains(y) <==> 0 <= y <= n by {}
            reveal(next_link);
            reveal(prev_link);
            assert forall|y: int| #[trigger] live.contains(y) implies linked_within(ns, live, y) by {
                if y >= 1 {
                    assert(ns[y].prev == NodeRef((y - 1) as usize));
                }
            }
        }
        r
    }
}

/// There is one first member of `live` after `x`.
proof fn lemma_next_unique(live: Set<int>, x: int, bound: int, n1: Option<NodeRef>, n2: Option<NodeRef>)
    requires
        next_link(live, x, bound, n1),
        next_link(live, x, bound, n2),
    ensures
        n1 == n2,
{
    reveal(next_link);
    match (n1, n2) {
        (Some(a), Some(b)) => {
            if a.0 < b.0 {
                assert(!live.contains(a.0 as int));
            }
            if b.0 < a.0 {
                assert(!live.contains(b.0 as int));
            }
        },
        (Some(a), None) => {
            assert(!live.contains(a.0 as int));
        },
        (None, Some(b)) => {
            assert(!live.contains(b.0 as int));
        },
        (None, None) => {},
    }
}

/// There is one last member of `live` before `x`.
proof fn lemma_prev_unique(live: Set<int>, x: int, p1: NodeRef, p2: NodeRef)
    requires
        prev_link(live, x, p1),
        prev_link(live, x, p2),
    ensures
        p1 == p2,
{
    reveal(prev_link);
    if p1.0 < p2.0 {
        assert(!live.contains(p2.0 as int));
    }
    if p2.0 < p1.0 {
        assert(!live.contains(p1.0 as int));
    }
}

/// Two nodes are linked within the same set of nodes: they have the same links.
proof fn lemma_same_links<I, O>(a: Seq<Node<I, O>>, b: Seq<Node<I, O>>, live: Set<int>, y: int)
    requires
        a.len() == b.len(),
        linked_within(a, live, y),
        linked_within(b, live, y),
        y == 0 ==> a[0].prev == b[0].prev,
    ensures
        a[y].next == b[y].next,
        a[y].prev == b[y].prev,
{
    lemma_next_unique(live, y, a.len() as int, a[y].next, b[y].next);
    if y != 0 {
        lemma_prev_unique(live, y, a[y].prev, b[y].prev);
    }
}

/// An arena is determined by the entries it was built from and the calls
/// lifted so far: two well-formed arenas that agree on both have the same
/// nodes. So lifting a call and then unlifting it restores every node.
pub proof fn lemma_wf_determines_nodes<I, O>(a: NodeArena<I, O>, b: NodeArena<I, O>)
    requires
        a.wf(),
        b.wf(),
        a.entries@ == b.entries@,
        a.lifted@ == b.lifted@,
    ensures
        a.nodes@ == b.nodes@,
{
    let es = a.entries@;
    let na = a.nodes@;
    let nb = b.nodes@;
    assert(na.len() == nb.len());
    assert forall|k: int| 0 <= k <= a.lifted@.len() implies a.lifted_ops(k) == b.lifted_ops(k) by {
        assert forall|x: int| a.lifted_ops(k).contains(x) <==> b.lifted_ops(k).contains(x) by {
            if a.lifted_ops(k).contains(x) {
                let i = choose|i: int| 0 <= i < k && #[trigger] a.node_op(a.lifted@[i]) == x;
                assert(b.node_op(b.lifted@[i]) == x);
            }
            if b.lifted_ops(k).contains(x) {
                let i = choose|i: int| 0 <= i < k && #[trigger] b.node_op(b.lifted@[i]) == x;
                assert(a.node_op(a.lifted@[i]) == x);
            }
        }
        assert(a.lifted_ops(k) =~= b.lifted_ops(k));
    }
    assert forall|d: Set<int>| a.live_set(d) == b.live_set(d) by {
        assert(a.live_set(d) =~= b.live_set(d));
    }
    let live = a.live();
    assert(live == b.live());
    assert forall|y: int| 0 <= y < na.len() implies na[y] == nb[y] by {
        if y == 0 {
            assert(live.contains(0));
            lemma_same_links(na, nb, live, 0);
        } else {
            assert(na[y].value == nb[y].value);
            assert(na[y].id == nb[y].id);
            assert(na[y].match_idx == nb[y].match_idx);
            if live.contains(y) {
                lemma_same_links(na, nb, live, y);
            } else {
                let k = a.node_op(y);
                assert(a.linearized().contains(k));
                let i = choose|i: int| 0 <= i < a.lifted@.len() && #[trigger] a.node_op(a.lifted@[i]) == k;
                assert(a.frame_ok(i));
                assert(b.frame_ok(i));
                let c = a.lifted@[i];
                let before = a.live_set(a.lifted_ops(i));
                assert(before == b.live_set(b.lifted_ops(i)));
                lemma_entry_is_endpoint(es, y - 1);
                if es[y - 1].value is Call {
                    assert(y == a.call_node(k));
                    assert(y == c);
                    lemma_same_links(na, nb, before.remove(c), y);
                } else {
                    assert(y == a.ret_node(k));
                    lemma_same_links(na, nb, before.remove(c), y);
                }
            }
        }
    }
    assert(na =~= nb);
}


/// Lifting a call and then unlifting it restores the arena: the same calls
/// lifted and the same nodes.
pub proof fn lemma_lift_unlift<I, O>(a0: NodeArena<I, O>, a1: NodeArena<I, O>, a2: NodeArena<I, O>, c: int)
    requires
        a0.wf(),
        a1.wf(),
        a2.wf(),
        a1.entries == a0.entries,
        a1.lifted@ == a0.lifted@.push(c),
        a2.entries == a1.entries,
        a2.lifted@ == a1.lifted@.drop_last(),
    ensures
        a2.lifted@ == a0.lifted@,
        a2.nodes@ == a0.nodes@,
{
    assert(a0.lifted@.push(c).drop_last() =~= a0.lifted@);
    lemma_wf_determines_nodes(a2, a0);
}

} // verus!
