//! How an edit travels through the link graph, as a state machine.
//!
//! The edit is first written to its origin. Then the documents that the
//! edit was mirrored into are taken in the order in which they were
//! reached, the origin first, and the edges that leave each are applied in
//! the order in which they were made. An edge whose target has been seen
//! before does nothing. Every target is seen at most once, so the edit comes
//! to rest whatever the graph looks like.

use crate::error::Error;
use crate::links::{EdgeView, PropagationMode};
use crate::model::{blocked, next_version, written, StoreMap};
use vstd::prelude::*;

verus! {

/// The state of an edit on its way through the graph.
pub struct Propagation {
    /// The documents.
    pub store: StoreMap,
    /// The counts of pending edits.
    pub pending: Map<Seq<char>, nat>,
    /// The documents that the edit has reached, in the order in which it
    /// reached them: the origin first.
    pub seen: Seq<Seq<char>>,
    /// The documents that the edit was written into, in the same order: the
    /// origin first. The edges that leave them are the ones applied.
    pub queue: Seq<Seq<char>>,
    /// The mirrored targets that were written, each with its new version.
    pub propagated: Seq<(Seq<char>, nat)>,
    /// The mirrored targets that could not be written, each with the reason.
    pub failed: Seq<(Seq<char>, Error)>,
}

/// The state after the origin has been written.
pub open spec fn start(
    store: StoreMap,
    pending: Map<Seq<char>, nat>,
    origin: Seq<char>,
    content: Seq<u8>,
    n: nat,
) -> Propagation {
    Propagation {
        store: written(store, origin, content, n),
        pending,
        seen: seq![origin],
        queue: seq![origin],
        propagated: Seq::empty(),
        failed: Seq::empty(),
    }
}

/// The state after one edge has been applied. A target seen before is left
/// alone. A mirror edge writes the content into its target and queues it,
/// or records the failure where a writer holds the target. A notify edge
/// counts the edit at its target and goes no further.
pub open spec fn apply_edge(st: Propagation, edge: EdgeView, content: Seq<u8>, n: nat) -> Propagation {
    if st.seen.contains(edge.target) {
        st
    } else {
        match edge.mode {
            PropagationMode::Mirror => if blocked(st.store, edge.target) {
                Propagation {
                    seen: st.seen.push(edge.target),
                    failed: st.failed.push((edge.target, Error::LockTimeout)),
                    ..st
                }
            } else {
                Propagation {
                    store: written(st.store, edge.target, content, n),
                    seen: st.seen.push(edge.target),
                    queue: st.queue.push(edge.target),
                    propagated: st.propagated.push(
                        (edge.target, next_version(st.store, edge.target)),
                    ),
                    ..st
                }
            },
            PropagationMode::Notify => Propagation {
                pending: st.pending.insert(edge.target, st.pending[edge.target] + 1),
                seen: st.seen.push(edge.target),
                ..st
            },
        }
    }
}

/// The state after those of the first `m` edges that leave `node` have been
/// applied, in order.
pub open spec fn visit(
    edges: Seq<EdgeView>,
    st: Propagation,
    node: Seq<char>,
    content: Seq<u8>,
    n: nat,
    m: nat,
) -> Propagation
    decreases m,
{
    if m == 0 {
        st
    } else {
        let before = visit(edges, st, node, content, n, (m - 1) as nat);
        if edges[m - 1].source == node {
            apply_edge(before, edges[m - 1], content, n)
        } else {
            before
        }
    }
}

/// The state after the queue has been worked off from position `i` on.
/// There are never more documents in the queue than there are edges, the
/// origin apart, so the bound on `i` cuts nothing off.
pub open spec fn drain(
    edges: Seq<EdgeView>,
    st: Propagation,
    content: Seq<u8>,
    n: nat,
    i: nat,
) -> Propagation
    decreases edges.len() + 1 - i,
{
    if i < st.queue.len() && i <= edges.len() {
        drain(edges, visit(edges, st, st.queue[i as int], content, n, edges.len()), content, n, i + 1)
    } else {
        st
    }
}

/// The state in which an edit of `origin` comes to rest.
pub open spec fn propagation(
    edges: Seq<EdgeView>,
    store: StoreMap,
    pending: Map<Seq<char>, nat>,
    origin: Seq<char>,
    content: Seq<u8>,
    n: nat,
) -> Propagation {
    drain(edges, start(store, pending, origin, content, n), content, n, 0)
}

/// The targets of the edges.
pub open spec fn targets(edges: Seq<EdgeView>) -> Seq<Seq<char>> {
    Seq::new(edges.len(), |i: int| edges[i].target)
}

/// Every document is seen once at most, every one but the first is the
/// target of an edge, and only documents seen are queued.
pub open spec fn bounded(edges: Seq<EdgeView>, st: Propagation) -> bool {
    &&& st.seen.len() >= 1
    &&& st.seen.no_duplicates()
    &&& forall|m: int| 1 <= m < st.seen.len() ==> targets(edges).contains(#[trigger] st.seen[m])
    &&& st.queue.len() <= st.seen.len()
    &&& forall|m: int| 0 <= m < st.queue.len() ==> st.seen.contains(#[trigger] st.queue[m])
}

/// What the edit has not reached is as it was: the documents other than the
/// ones seen, and their counts of pending edits.
pub open spec fn untouched(st: Propagation, store: StoreMap, pending: Map<Seq<char>, nat>) -> bool {
    forall|id: Seq<char>|
        !(#[trigger] st.seen.contains(id)) ==> st.store.contains_key(id) == store.contains_key(id)
            && st.store[id] == store[id] && st.pending[id] == pending[id]
}

/// Distinct items taken from a pool are no more than the pool holds.
pub proof fn lemma_distinct_within<A>(s: Seq<A>, pool: Seq<A>)
    requires
        s.no_duplicates(),
        forall|i: int| 0 <= i < s.len() ==> pool.contains(#[trigger] s[i]),
    ensures
        s.len() <= pool.len(),
    decreases pool.len(),
{
    if pool.len() == 0 {
        if s.len() > 0 {
            assert(pool.contains(s[0]));
        }
    } else {
        let p = pool.last();
        let rest = pool.drop_last();
        if s.contains(p) {
            let j = choose|j: int| 0 <= j < s.len() && s[j] == p;
            let t = s.remove(j);
            assert forall|a: int, b: int| 0 <= a < t.len() && 0 <= b < t.len() && a != b implies t[a]
                != t[b] by {
                let a1 = if a < j { a } else { a + 1 };
                let b1 = if b < j { b } else { b + 1 };
                assert(t[a] == s[a1] && t[b] == s[b1]);
            }
            assert forall|i: int| 0 <= i < t.len() implies rest.contains(#[trigger] t[i]) by {
                let i1 = if i < j { i } else { i + 1 };
                let q = choose|q: int| 0 <= q < pool.len() && pool[q] == s[i1];
                assert(rest[q] == s[i1]);
            }
            lemma_distinct_within(t, rest);
        } else {
            assert forall|i: int| 0 <= i < s.len() implies rest.contains(#[trigger] s[i]) by {
                let q = choose|q: int| 0 <= q < pool.len() && pool[q] == s[i];
                assert(rest[q] == s[i]);
            }
            lemma_distinct_within(s, rest);
        }
    }
}

/// No more documents are seen, the origin apart, than there are edges.
pub proof fn lemma_bounded_len(edges: Seq<EdgeView>, st: Propagation)
    requires
        bounded(edges, st),
    ensures
        st.queue.len() <= st.seen.len() <= edges.len() + 1,
{
    let s = st.seen.skip(1);
    assert forall|a: int, b: int| 0 <= a < s.len() && 0 <= b < s.len() && a != b implies s[a]
        != s[b] by {
        assert(s[a] == st.seen[a + 1] && s[b] == st.seen[b + 1]);
    }
    assert forall|i: int| 0 <= i < s.len() implies targets(edges).contains(#[trigger] s[i]) by {
        assert(s[i] == st.seen[i + 1]);
    }
    lemma_distinct_within(s, targets(edges));
}

/// Applying an edge of the graph keeps the state bounded and leaves what is
/// not seen untouched; what was seen stays seen, and what was queued stays
/// queued in its place.
pub proof fn lemma_apply_edge(
    edges: Seq<EdgeView>,
    st: Propagation,
    e: int,
    content: Seq<u8>,
    n: nat,
    store: StoreMap,
    pending: Map<Seq<char>, nat>,
)
    requires
        0 <= e < edges.len(),
        bounded(edges, st),
        untouched(st, store, pending),
    ensures
        bounded(edges, apply_edge(st, edges[e], content, n)),
        untouched(apply_edge(st, edges[e], content, n), store, pending),
        st.queue.is_prefix_of(apply_edge(st, edges[e], content, n).queue),
        st.seen.is_prefix_of(apply_edge(st, edges[e], content, n).seen),
{
    let edge = edges[e];
    let after = apply_edge(st, edge, content, n);
    if !st.seen.contains(edge.target) {
        assert(targets(edges)[e] == edge.target);
        assert forall|m: int| 1 <= m < after.seen.len() implies targets(edges).contains(
            #[trigger] after.seen[m],
        ) by {
            if m < st.seen.len() {
                assert(after.seen[m] == st.seen[m]);
            }
        }
        assert forall|m: int| 0 <= m < after.queue.len() implies after.seen.contains(
            #[trigger] after.queue[m],
        ) by {
            if m < st.queue.len() {
                let q = choose|q: int| 0 <= q < st.seen.len() && st.seen[q] == st.queue[m];
                assert(after.seen[q] == st.queue[m]);
            } else {
                assert(after.seen[st.seen.len() as int] == edge.target);
            }
        }
        assert forall|id: Seq<char>| !(#[trigger] after.seen.contains(id)) implies after.store.contains_key(
            id,
        ) == store.contains_key(id) && after.store[id] == store[id] && after.pending[id]
            == pending[id] by {
            assert(after.seen[st.seen.len() as int] == edge.target);
            if st.seen.contains(id) {
                let q = choose|q: int| 0 <= q < st.seen.len() && st.seen[q] == id;
                assert(after.seen[q] == id);
            }
        }
    }
}

/// Visiting a node keeps the state bounded and leaves what is not seen
/// untouched.
pub proof fn lemma_visit(
    edges: Seq<EdgeView>,
    st: Propagation,
    node: Seq<char>,
    content: Seq<u8>,
    n: nat,
    m: nat,
    store: StoreMap,
    pending: Map<Seq<char>, nat>,
)
    requires
        m <= edges.len(),
        bounded(edges, st),
        untouched(st, store, pending),
    ensures
        bounded(edges, visit(edges, st, node, content, n, m)),
        untouched(visit(edges, st, node, content, n, m), store, pending),
        st.queue.is_prefix_of(visit(edges, st, node, content, n, m).queue),
        st.seen.is_prefix_of(visit(edges, st, node, content, n, m).seen),
    decreases m,
{
    if m > 0 {
        lemma_visit(edges, st, node, content, n, (m - 1) as nat, store, pending);
        let before = visit(edges, st, node, content, n, (m - 1) as nat);
        if edges[m - 1].source == node {
            lemma_apply_edge(edges, before, m - 1, content, n, store, pending);
        }
    }
}

/// The state after the origin has been written is bounded, and nothing but
/// the origin has been touched.
pub proof fn lemma_start(
    edges: Seq<EdgeView>,
    store: StoreMap,
    pending: Map<Seq<char>, nat>,
    origin: Seq<char>,
    content: Seq<u8>,
    n: nat,
)
    ensures
        bounded(edges, start(store, pending, origin, content, n)),
        untouched(start(store, pending, origin, content, n), store, pending),
{
    let st = start(store, pending, origin, content, n);
    assert(st.queue[0] == origin);
}

} // verus!
