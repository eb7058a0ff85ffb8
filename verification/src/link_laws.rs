//! What holds of an edit's way through the link graph.

use crate::links::{edges_wf, has_link, EdgeView, PropagationMode};
use crate::model::{written, StoreMap};
use crate::propagation::{
    apply_edge, bounded, drain, lemma_apply_edge, lemma_bounded_len, lemma_start, lemma_visit,
    propagation, start, untouched, visit, Propagation,
};
use vstd::prelude::*;

verus! {

/// `path` leads along edges, from each document to the next.
pub open spec fn is_path(edges: Seq<EdgeView>, path: Seq<Seq<char>>) -> bool {
    &&& path.len() >= 1
    &&& forall|p: int| 0 <= p < path.len() - 1 ==> has_link(edges, #[trigger] path[p], path[p + 1])
}

/// Every edge mirrors.
pub open spec fn all_mirror(edges: Seq<EdgeView>) -> bool {
    forall|e: int| 0 <= e < edges.len() ==> (#[trigger] edges[e]).mode == PropagationMode::Mirror
}

/// No writer holds a document.
pub open spec fn nothing_held(store: StoreMap) -> bool {
    forall|id: Seq<char>| #[trigger] store.contains_key(id) ==> !store[id].held
}

/// Every edge that leaves `origin` notifies.
pub open spec fn only_notifies(edges: Seq<EdgeView>, origin: Seq<char>) -> bool {
    forall|e: int|
        0 <= e < edges.len() && (#[trigger] edges[e]).source == origin ==> edges[e].mode
            == PropagationMode::Notify
}

/// Termination: an edit comes to rest with its queue worked off. No more
/// documents are ever queued than there are edges, the origin apart, and
/// what the edit did not reach is as it was.
pub proof fn propagation_terminates(
    edges: Seq<EdgeView>,
    store: StoreMap,
    pending: Map<Seq<char>, nat>,
    origin: Seq<char>,
    content: Seq<u8>,
    n: nat,
)
    ensures
        ({
            let end = propagation(edges, store, pending, origin, content, n);
            &&& bounded(edges, end)
            &&& end.queue.len() <= end.seen.len() <= edges.len() + 1
            &&& end.seen[0] == origin
            &&& untouched(end, store, pending)
            &&& worked_off(edges, end, end.queue.len())
        }),
{
    let st = start(store, pending, origin, content, n);
    lemma_start(edges, store, pending, origin, content, n);
    lemma_drain(edges, st, content, n, 0, store, pending);
    let end = propagation(edges, store, pending, origin, content, n);
    lemma_bounded_len(edges, end);
}

/// The edges that leave the first `i` documents of the queue have been
/// applied: their targets have all been seen.
pub open spec fn worked_off(edges: Seq<EdgeView>, st: Propagation, i: nat) -> bool {
    forall|q: int, e: int|
        0 <= q < i && q < st.queue.len() && 0 <= e < edges.len() && (#[trigger] edges[e]).source
            == (#[trigger] st.queue[q]) ==> st.seen.contains(edges[e].target)
}

/// After a visit, the targets of the edges that leave the node have been
/// seen.
proof fn lemma_visit_sees(
    edges: Seq<EdgeView>,
    st: Propagation,
    node: Seq<char>,
    content: Seq<u8>,
    n: nat,
    m: nat,
    store: StoreMap,
    pending: Map<Seq<char>, nat>,
)
    requires
        m <= edges.len(),
        bounded(edges, st),
        untouched(st, store, pending),
    ensures
        forall|e: int|
            0 <= e < m && (#[trigger] edges[e]).source == node ==> visit(
                edges,
                st,
                node,
                content,
                n,
                m,
            ).seen.contains(edges[e].target),
    decreases m,
{
    if m > 0 {
        let before = visit(edges, st, node, content, n, (m - 1) as nat);
        let after = visit(edges, st, node, content, n, m);
        lemma_visit_sees(edges, st, node, content, n, (m - 1) as nat, store, pending);
        lemma_visit(edges, st, node, content, n, (m - 1) as nat, store, pending);
        if edges[m - 1].source == node {
            lemma_apply_edge(edges, before, m - 1, content, n, store, pending);
            let t = edges[m - 1].target;
            if !before.seen.contains(t) {
                assert(after.seen[before.seen.len() as int] == t);
            }
        }
        assert forall|e: int| 0 <= e < m && (#[trigger] edges[e]).source == node implies after.seen.contains(
            edges[e].target,
        ) by {
            if e < m - 1 {
                lemma_prefix_contains(before.seen, after.seen, edges[e].target);
            }
        }
    }
}

/// What a sequence contains, every sequence that it is a prefix of
/// contains.
proof fn lemma_prefix_contains<A>(a: Seq<A>, b: Seq<A>, x: A)
    requires
        a.is_prefix_of(b),
        a.contains(x),
    ensures
        b.contains(x),
{
    let q = choose|q: int| 0 <= q < a.len() && a[q] == x;
    assert(b[q] == x);
}

/// Working the queue off from position `i` keeps the state bounded, leaves
/// what is not seen untouched, and ends with the whole queue worked off.
proof fn lemma_drain(
    edges: Seq<EdgeView>,
    st: Propagation,
    content: Seq<u8>,
    n: nat,
    i: nat,
    store: StoreMap,
    pending: Map<Seq<char>, nat>,
)
    requires
        bounded(edges, st),
        untouched(st, store, pending),
        worked_off(edges, st, i),
        i <= st.queue.len(),
    ensures
        ({
            let end = drain(edges, st, content, n, i);
            &&& bounded(edges, end)
            &&& untouched(end, store, pending)
            &&& worked_off(edges, end, end.queue.len())
            &&& st.seen.is_prefix_of(end.seen)
            &&& st.queue.is_prefix_of(end.queue)
        }),
    decreases edges.len() + 1 - i,
{
    lemma_bounded_len(edges, st);
    if i < st.queue.len() {
        let node = st.queue[i as int];
        let next = visit(edges, st, node, content, n, edges.len());
        lemma_visit(edges, st, node, content, n, edges.len(), store, pending);
        lemma_visit_sees(edges, st, node, content, n, edges.len(), store, pending);
        assert(worked_off(edges, next, i + 1)) by {
            assert forall|q: int, e: int|
                0 <= q < i + 1 && q < next.queue.len() && 0 <= e < edges.len() && (
                #[trigger] edges[e]).source == (#[trigger] next.queue[q]) implies next.seen.contains(
                edges[e].target,
            ) by {
                assert(next.queue[q] == st.queue[q]);
                if q < i {
                    lemma_prefix_contains(st.seen, next.seen, edges[e].target);
                }
            }
        }
        lemma_drain(edges, next, content, n, i + 1, store, pending);
    }
}

/// The edit has been written into every document queued, no target has
/// failed, every document seen is queued, and no writer holds a document.
spec fn mirrored(st: Propagation, content: Seq<u8>) -> bool {
    &&& st.queue == st.seen
    &&& st.failed.len() == 0
    &&& nothing_held(st.store)
    &&& forall|q: int|
        0 <= q < st.queue.len() ==> st.store.contains_key(#[trigger] st.queue[q])
            && st.store[st.queue[q]].content == content
}

/// A visit over mirror edges keeps the state mirrored.
proof fn lemma_visit_mirrored(
    edges: Seq<EdgeView>,
    st: Propagation,
    node: Seq<char>,
    content: Seq<u8>,
    n: nat,
    m: nat,
)
    requires
        m <= edges.len(),
        all_mirror(edges),
        mirrored(st, content),
    ensures
        mirrored(visit(edges, st, node, content, n, m), content),
    decreases m,
{
    if m > 0 {
        let before = visit(edges, st, node, content, n, (m - 1) as nat);
        lemma_visit_mirrored(edges, st, node, content, n, (m - 1) as nat);
        if edges[m - 1].source == node {
            let edge = edges[m - 1];
            let after = apply_edge(before, edge, content, n);
            if !before.seen.contains(edge.target) {
                assert forall|q: int| 0 <= q < after.queue.len() implies after.store.contains_key(
                    #[trigger] after.queue[q],
                ) && after.store[after.queue[q]].content == content by {
                    if q < before.queue.len() {
                        assert(after.queue[q] == before.queue[q]);
                        assert(before.store.contains_key(before.queue[q]));
                    }
                }
            }
        }
    }
}

/// Working the queue off over mirror edges keeps the state mirrored.
proof fn lemma_drain_mirrored(
    edges: Seq<EdgeView>,
    st: Propagation,
    content: Seq<u8>,
    n: nat,
    i: nat,
)
    requires
        all_mirror(edges),
        mirrored(st, content),
    ensures
        mirrored(drain(edges, st, content, n, i), content),
    decreases edges.len() + 1 - i,
{
    if i < st.queue.len() && i <= edges.len() {
        let next = visit(edges, st, st.queue[i as int], content, n, edges.len());
        lemma_visit_mirrored(edges, st, st.queue[i as int], content, n, edges.len());
        lemma_drain_mirrored(edges, next, content, n, i + 1);
    }
}

/// Every document on a path from the origin has been seen once the queue is
/// worked off, provided that every document seen was queued.
proof fn lemma_path_seen(edges: Seq<EdgeView>, end: Propagation, path: Seq<Seq<char>>, p: int)
    requires
        is_path(edges, path),
        end.seen.len() >= 1,
        path[0] == end.seen[0],
        end.queue == end.seen,
        worked_off(edges, end, end.queue.len()),
        0 <= p < path.len(),
    ensures
        end.seen.contains(path[p]),
    decreases p,
{
    if p == 0 {
        assert(end.seen[0] == path[0]);
    } else {
        lemma_path_seen(edges, end, path, p - 1);
        let q = choose|q: int| 0 <= q < end.seen.len() && end.seen[q] == path[p - 1];
        assert(has_link(edges, path[p - 1], path[p]));
        let e = choose|e: int|
            0 <= e < edges.len() && (#[trigger] edges[e]).source == path[p - 1] && edges[e].target
                == path[p];
        assert(edges[e].source == end.queue[q]);
    }
}

/// Propagation over mirror edges: where every edge mirrors and no writer
/// holds a document, an edit reaches every document to which a path leads
/// from its origin, cycles or not: each of them ends with the new content,
/// and no target fails.
pub proof fn mirror_reaches_all(
    edges: Seq<EdgeView>,
    store: StoreMap,
    pending: Map<Seq<char>, nat>,
    origin: Seq<char>,
    content: Seq<u8>,
    n: nat,
    path: Seq<Seq<char>>,
)
    requires
        all_mirror(edges),
        nothing_held(store),
        is_path(edges, path),
        path[0] == origin,
    ensures
        ({
            let end = propagation(edges, store, pending, origin, content, n);
            &&& end.store.contains_key(path.last())
            &&& end.store[path.last()].content == content
            &&& end.failed.len() == 0
            &&& end.pending == pending
        }),
{
    let st = start(store, pending, origin, content, n);
    let end = propagation(edges, store, pending, origin, content, n);
    assert(mirrored(st, content)) by {
        assert(st.queue[0] == origin);
    }
    lemma_drain_mirrored(edges, st, content, n, 0);
    propagation_terminates(edges, store, pending, origin, content, n);
    lemma_path_seen(edges, end, path, path.len() - 1);
    let q = choose|q: int| 0 <= q < end.seen.len() && end.seen[q] == path.last();
    assert(end.queue[q] == path.last());
    lemma_drain_pending(edges, st, content, n, 0);
}

/// Mirror edges leave the counts of pending edits alone.
proof fn lemma_visit_pending(
    edges: Seq<EdgeView>,
    st: Propagation,
    node: Seq<char>,
    content: Seq<u8>,
    n: nat,
    m: nat,
)
    requires
        m <= edges.len(),
        all_mirror(edges),
    ensures
        visit(edges, st, node, content, n, m).pending == st.pending,
    decreases m,
{
    if m > 0 {
        lemma_visit_pending(edges, st, node, content, n, (m - 1) as nat);
    }
}

/// Working the queue off over mirror edges leaves the counts of pending
/// edits alone.
proof fn lemma_drain_pending(
    edges: Seq<EdgeView>,
    st: Propagation,
    content: Seq<u8>,
    n: nat,
    i: nat,
)
    requires
        all_mirror(edges),
    ensures
        drain(edges, st, content, n, i).pending == st.pending,
    decreases edges.len() + 1 - i,
{
    if i < st.queue.len() && i <= edges.len() {
        let next = visit(edges, st, st.queue[i as int], content, n, edges.len());
        lemma_visit_pending(edges, st, st.queue[i as int], content, n, edges.len());
        lemma_drain_pending(edges, next, content, n, i + 1);
    }
}

/// Some edge among the first `m` leads from `source` to `target`.
spec fn linked_before(edges: Seq<EdgeView>, source: Seq<char>, target: Seq<char>, m: nat) -> bool {
    exists|e: int|
        0 <= e < m && e < edges.len() && (#[trigger] edges[e]).source == source && edges[e].target
            == target
}

/// A visit of an origin that only notifies: the documents stay as they
/// are, nothing is queued, and every target gains one pending edit.
proof fn lemma_visit_notifies(
    edges: Seq<EdgeView>,
    st: Propagation,
    origin: Seq<char>,
    content: Seq<u8>,
    n: nat,
    m: nat,
)
    requires
        m <= edges.len(),
        edges_wf(edges),
        only_notifies(edges, origin),
        st.seen == seq![origin],
        forall|id: Seq<char>| st.pending.contains_key(id),
    ensures
        ({
            let after = visit(edges, st, origin, content, n, m);
            &&& after.store == st.store
            &&& after.queue == st.queue
            &&& after.propagated == st.propagated
            &&& after.failed == st.failed
            &&& forall|id: Seq<char>|
                after.seen.contains(id) <==> id == origin || linked_before(edges, origin, id, m)
            &&& forall|id: Seq<char>|
                after.pending[id] == st.pending[id] + (if linked_before(edges, origin, id, m) {
                    1nat
                } else {
                    0nat
                })
            &&& forall|id: Seq<char>| after.pending.contains_key(id)
        }),
    decreases m,
{
    let after = visit(edges, st, origin, content, n, m);
    if m == 0 {
        assert forall|id: Seq<char>| after.seen.contains(id) <==> id == origin || linked_before(
            edges,
            origin,
            id,
            m,
        ) by {
            if id == origin {
                assert(st.seen[0] == origin);
            }
        }
    } else {
        let before = visit(edges, st, origin, content, n, (m - 1) as nat);
        lemma_visit_notifies(edges, st, origin, content, n, (m - 1) as nat);
        let edge = edges[m - 1];
        assert forall|id: Seq<char>|
            linked_before(edges, origin, id, m) <==> linked_before(
                edges,
                origin,
                id,
                (m - 1) as nat,
            ) || (edge.source == origin && edge.target == id) by {
            lemma_linked_before_step(edges, origin, id, m);
        }
        if edge.source == origin {
            let t = edge.target;
            // No earlier edge leads from the origin to `t`, and `t` is not the
            // origin: `t` has not been seen.
            assert(!linked_before(edges, origin, t, (m - 1) as nat)) by {
                if linked_before(edges, origin, t, (m - 1) as nat) {
                    let e = choose|e: int|
                        0 <= e < m - 1 && e < edges.len() && (#[trigger] edges[e]).source == origin
                            && edges[e].target == t;
                    assert(!(edges[e].source == edges[m - 1].source && edges[e].target
                        == edges[m - 1].target));
                }
            }
            assert(after.seen == before.seen.push(t));
            assert forall|id: Seq<char>| after.seen.contains(id) <==> id == origin
                || linked_before(edges, origin, id, m) by {
                if after.seen.contains(id) {
                    let q = choose|q: int| 0 <= q < after.seen.len() && after.seen[q] == id;
                    if q < before.seen.len() {
                        assert(before.seen[q] == id);
                    }
                }
                if id == t {
                    assert(after.seen[before.seen.len() as int] == t);
                } else if before.seen.contains(id) {
                    lemma_prefix_contains(before.seen, after.seen, id);
                }
            }
        }
    }
}

/// An edge among the first `m` is among the first `m - 1` or is the last
/// of them.
proof fn lemma_linked_before_step(
    edges: Seq<EdgeView>,
    source: Seq<char>,
    target: Seq<char>,
    m: nat,
)
    requires
        0 < m <= edges.len(),
    ensures
        linked_before(edges, source, target, m) <==> linked_before(
            edges,
            source,
            target,
            (m - 1) as nat,
        ) || (edges[m - 1].source == source && edges[m - 1].target == target),
{
    if linked_before(edges, source, target, m) {
        let e = choose|e: int|
            0 <= e < m && e < edges.len() && (#[trigger] edges[e]).source == source
                && edges[e].target == target;
        if e < m - 1 {
            assert(linked_before(edges, source, target, (m - 1) as nat));
        }
    }
    if linked_before(edges, source, target, (m - 1) as nat) {
        let e = choose|e: int|
            0 <= e < m - 1 && e < edges.len() && (#[trigger] edges[e]).source == source
                && edges[e].target == target;
        assert(linked_before(edges, source, target, m));
    }
    if edges[m - 1].source == source && edges[m - 1].target == target {
        assert(linked_before(edges, source, target, m));
    }
}

/// Notify does not cascade: where every edge that leaves the origin
/// notifies, an edit writes the origin and no other document, whatever
/// edges leave the documents notified, and each document that an edge leads
/// to from the origin gains exactly one pending edit.
pub proof fn notify_does_not_cascade(
    edges: Seq<EdgeView>,
    store: StoreMap,
    pending: Map<Seq<char>, nat>,
    origin: Seq<char>,
    content: Seq<u8>,
    n: nat,
)
    requires
        edges_wf(edges),
        only_notifies(edges, origin),
        forall|id: Seq<char>| pending.contains_key(id),
    ensures
        ({
            let end = propagation(edges, store, pending, origin, content, n);
            &&& end.store == written(store, origin, content, n)
            &&& end.propagated.len() == 0
            &&& end.failed.len() == 0
            &&& forall|id: Seq<char>|
                end.pending[id] == pending[id] + (if has_link(edges, origin, id) {
                    1nat
                } else {
                    0nat
                })
        }),
{
    let st = start(store, pending, origin, content, n);
    let next = visit(edges, st, origin, content, n, edges.len());
    lemma_visit_notifies(edges, st, origin, content, n, edges.len());
    // The origin is visited; nothing else is queued.
    assert(st.queue[0] == origin);
    assert(drain(edges, st, content, n, 0) == drain(edges, next, content, n, 1));
    assert(drain(edges, next, content, n, 1) == next);
    assert forall|id: Seq<char>|
        has_link(edges, origin, id) == linked_before(edges, origin, id, edges.len()) by {
        if has_link(edges, origin, id) {
            let e = choose|e: int|
                0 <= e < edges.len() && (#[trigger] edges[e]).source == origin && edges[e].target
                    == id;
            assert(linked_before(edges, origin, id, edges.len()));
        }
    }
}

} // verus!
