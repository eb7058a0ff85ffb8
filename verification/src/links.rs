//! The link propagation graph.
//!
//! Documents are linked by directed edges. An edit of a document is carried
//! along the edges that leave it: a mirror edge writes the new content into
//! its target and carries the edit on from there, a notify edge only counts
//! the edit at its target.

use crate::error::Error;
use crate::ident::same_id;
use crate::model::{blocked, next_version, StoreMap};
use crate::propagation::{
    apply_edge, bounded, drain, lemma_apply_edge, lemma_bounded_len, lemma_start, lemma_visit,
    propagation, start, untouched, visit, Propagation,
};
use crate::store::RedundantFragmentStore;
use vstd::prelude::*;

verus! {

/// What an edge does with an edit of its source.
#[derive(Clone, Copy, Debug, PartialEq, Eq, Structural, Hash)]
pub enum PropagationMode {
    /// The new content is written into the target as well.
    Mirror,
    /// The target's count of pending edits goes up by one.
    Notify,
}

/// A directed link between two documents.
#[derive(Debug, PartialEq, Eq)]
pub struct LinkEdge {
    /// The document whose edits the edge carries.
    pub source: String,
    /// The document that the edits are carried to.
    pub target: String,
    /// What the edge does with an edit.
    pub mode: PropagationMode,
}

/// An edge as the contracts see it.
pub struct EdgeView {
    pub source: Seq<char>,
    pub target: Seq<char>,
    pub mode: PropagationMode,
}

impl View for LinkEdge {
    type V = EdgeView;

    open spec fn view(&self) -> EdgeView {
        EdgeView { source: self.source@, target: self.target@, mode: self.mode }
    }
}

/// A document's count of edits that it has been notified of.
struct PendingCount {
    id: String,
    count: u64,
}

/// The graph as the contracts see it: its edges in the order in which they
/// were first made, and for every identifier the count of pending edits.
pub struct LinkGraphView {
    pub edges: Seq<EdgeView>,
    pub pending: Map<Seq<char>, nat>,
}

/// The views of the edges.
pub open spec fn edge_views(edges: Seq<LinkEdge>) -> Seq<EdgeView> {
    Seq::new(edges.len(), |i: int| edges[i]@)
}

/// Some edge leads from `source` to `target`.
pub open spec fn has_link(edges: Seq<EdgeView>, source: Seq<char>, target: Seq<char>) -> bool {
    exists|i: int|
        0 <= i < edges.len() && (#[trigger] edges[i]).source == source && edges[i].target == target
}

/// The position of the edge from `source` to `target`.
pub open spec fn link_position(edges: Seq<EdgeView>, source: Seq<char>, target: Seq<char>) -> int {
    choose|i: int|
        0 <= i < edges.len() && (#[trigger] edges[i]).source == source && edges[i].target == target
}

/// No edge leads from a document to itself, and no two edges share both
/// ends.
pub open spec fn edges_wf(edges: Seq<EdgeView>) -> bool {
    &&& forall|i: int| 0 <= i < edges.len() ==> (#[trigger] edges[i]).source != edges[i].target
    &&& forall|i: int, j: int|
        0 <= i < edges.len() && 0 <= j < edges.len() && i != j ==> !((#[trigger] edges[i]).source
            == (#[trigger] edges[j]).source && edges[i].target == edges[j].target)
}

/// The edges after a link from `source` to `target` has been made or given
/// a new mode.
pub open spec fn linked(
    edges: Seq<EdgeView>,
    source: Seq<char>,
    target: Seq<char>,
    mode: PropagationMode,
) -> Seq<EdgeView> {
    let edge = EdgeView { source, target, mode };
    if has_link(edges, source, target) {
        edges.update(link_position(edges, source, target), edge)
    } else {
        edges.push(edge)
    }
}

/// The edges without the one from `source` to `target`.
pub open spec fn unlinked(edges: Seq<EdgeView>, source: Seq<char>, target: Seq<char>) -> Seq<
    EdgeView,
> {
    if has_link(edges, source, target) {
        edges.remove(link_position(edges, source, target))
    } else {
        edges
    }
}

/// The count that the first entry for `id` holds, or 0.
spec fn count_in(entries: Seq<PendingCount>, id: Seq<char>) -> nat
    decreases entries.len(),
{
    if entries.len() == 0 {
        0
    } else if entries[0].id@ == id {
        entries[0].count as nat
    } else {
        count_in(entries.skip(1), id)
    }
}

/// The counts of pending edits, for every identifier.
spec fn pending_view(entries: Seq<PendingCount>) -> Map<Seq<char>, nat> {
    Map::new(|id: Seq<char>| true, |id: Seq<char>| count_in(entries, id))
}

/// An identifier without an entry has the count 0.
proof fn lemma_count_absent(entries: Seq<PendingCount>, id: Seq<char>)
    requires
        forall|j: int| 0 <= j < entries.len() ==> (#[trigger] entries[j]).id@ != id,
    ensures
        count_in(entries, id) == 0,
    decreases entries.len(),
{
    if entries.len() > 0 {
        assert forall|j: int| 0 <= j < entries.skip(1).len() implies (#[trigger] entries.skip(
            1,
        )[j]).id@ != id by {
            assert(entries.skip(1)[j] == entries[j + 1]);
        }
        lemma_count_absent(entries.skip(1), id);
    }
}

/// A bound on every entry bounds every count.
proof fn lemma_count_below(entries: Seq<PendingCount>, id: Seq<char>, bound: nat)
    requires
        bound > 0,
        forall|j: int| 0 <= j < entries.len() ==> (#[trigger] entries[j]).count < bound,
    ensures
        count_in(entries, id) < bound,
    decreases entries.len(),
{
    if entries.len() > 0 {
        assert forall|j: int| 0 <= j < entries.skip(1).len() implies (#[trigger] entries.skip(
            1,
        )[j]).count < bound by {
            assert(entries.skip(1)[j] == entries[j + 1]);
        }
        lemma_count_below(entries.skip(1), id, bound);
    }
}

/// The first entry for an identifier holds its count.
proof fn lemma_count_at(entries: Seq<PendingCount>, i: int)
    requires
        0 <= i < entries.len(),
        forall|j: int| 0 <= j < i ==> (#[trigger] entries[j]).id@ != entries[i].id@,
    ensures
        count_in(entries, entries[i].id@) == entries[i].count,
    decreases i,
{
    if i > 0 {
        assert forall|j: int| 0 <= j < i - 1 implies (#[trigger] entries.skip(1)[j]).id@
            != entries.skip(1)[i - 1].id@ by {
            assert(entries.skip(1)[j] == entries[j + 1]);
            assert(entries.skip(1)[i - 1] == entries[i]);
        }
        lemma_count_at(entries.skip(1), i - 1);
    }
}

/// Replacing the first entry for an identifier sets its count and no
/// other.
proof fn lemma_count_update(entries: Seq<PendingCount>, i: int, entry: PendingCount, id: Seq<char>)
    requires
        0 <= i < entries.len(),
        entry.id@ == entries[i].id@,
        forall|j: int| 0 <= j < i ==> (#[trigger] entries[j]).id@ != entries[i].id@,
    ensures
        count_in(entries.update(i, entry), id) == (if id == entry.id@ {
            entry.count as nat
        } else {
            count_in(entries, id)
        }),
    decreases i,
{
    let after = entries.update(i, entry);
    if i == 0 {
        assert(after.skip(1) =~= entries.skip(1));
    } else {
        assert(after.skip(1) =~= entries.skip(1).update(i - 1, entry));
        assert forall|j: int| 0 <= j < i - 1 implies (#[trigger] entries.skip(1)[j]).id@
            != entries.skip(1)[i - 1].id@ by {
            assert(entries.skip(1)[j] == entries[j + 1]);
            assert(entries.skip(1)[i - 1] == entries[i]);
        }
        lemma_count_update(entries.skip(1), i - 1, entry, id);
    }
}

/// Adding an entry for an identifier that had none sets its count and no
/// other.
proof fn lemma_count_push(entries: Seq<PendingCount>, entry: PendingCount, id: Seq<char>)
    requires
        forall|j: int| 0 <= j < entries.len() ==> (#[trigger] entries[j]).id@ != entry.id@,
    ensures
        count_in(entries.push(entry), id) == (if id == entry.id@ {
            entry.count as nat
        } else {
            count_in(entries, id)
        }),
    decreases entries.len(),
{
    let after = entries.push(entry);
    if entries.len() == 0 {
        assert(after.skip(1) =~= entries);
    } else {
        assert(after.skip(1) =~= entries.skip(1).push(entry));
        assert forall|j: int| 0 <= j < entries.skip(1).len() implies (#[trigger] entries.skip(
            1,
        )[j]).id@ != entry.id@ by {
            assert(entries.skip(1)[j] == entries[j + 1]);
        }
        lemma_count_push(entries.skip(1), entry, id);
    }
}

/// What an edit did: the version that it gave its origin, and what became
/// of each mirrored target that it reached.
#[derive(Debug, PartialEq, Eq)]
pub struct EditReport {
    /// The new version of the origin.
    pub version: u64,
    /// The mirrored targets that were written, each with its new version, in
    /// the order in which the edit reached them.
    pub propagated: Vec<(String, u64)>,
    /// The mirrored targets that could not be written, each with the
    /// reason, in the order in which the edit reached them.
    pub failed: Vec<(String, Error)>,
}

/// The identifiers in `list`.
pub open spec fn names(list: Seq<String>) -> Seq<Seq<char>> {
    Seq::new(list.len(), |i: int| list[i]@)
}

/// The targets written, as the contracts see them.
pub open spec fn written_views(list: Seq<(String, u64)>) -> Seq<(Seq<char>, nat)> {
    Seq::new(list.len(), |i: int| (list[i].0@, list[i].1 as nat))
}

/// The targets not written, as the contracts see them.
pub open spec fn failed_views(list: Seq<(String, Error)>) -> Seq<(Seq<char>, Error)> {
    Seq::new(list.len(), |i: int| (list[i].0@, list[i].1))
}

/// Every version and every count of pending edits can still go up by one.
pub open spec fn has_headroom(store: StoreMap, pending: Map<Seq<char>, nat>) -> bool {
    &&& forall|id: Seq<char>| #[trigger] store.contains_key(id) ==> store[id].version < u64::MAX
    &&& forall|id: Seq<char>| #[trigger] pending[id] < u64::MAX
}

impl EditReport {
    /// The verdict on the edit as a whole: the origin's new version where
    /// every mirrored target that was reached was written, else
    /// `PartialPropagation`.
    pub fn outcome(&self) -> (r: Result<u64, Error>)
        ensures
            r == (if self.failed@.len() == 0 {
                Ok::<u64, Error>(self.version)
            } else {
                Err::<u64, Error>(Error::PartialPropagation)
            }),
    {
        if self.failed.len() == 0 {
            Ok(self.version)
        } else {
            Err(Error::PartialPropagation)
        }
    }
}

/// Whether `id` is in `list`.
fn contains_id(list: &Vec<String>, id: &str) -> (r: bool)
    ensures
        r == names(list@).contains(id@),
{
    let mut i: usize = 0;
    while i < list.len()
        invariant
            i <= list@.len(),
            forall|j: int| 0 <= j < i ==> (#[trigger] names(list@)[j]) != id@,
        decreases list@.len() - i,
    {
        if same_id(list[i].as_str(), id) {
            assert(names(list@)[i as int] == id@);
            return true;
        }
        i += 1;
    }
    false
}

/// The link propagation graph.
pub struct LinkPropagationGraph {
    edges: Vec<LinkEdge>,
    pending: Vec<PendingCount>,
}

impl View for LinkPropagationGraph {
    type V = LinkGraphView;

    closed spec fn view(&self) -> LinkGraphView {
        LinkGraphView { edges: edge_views(self.edges@), pending: pending_view(self.pending@) }
    }
}

impl LinkPropagationGraph {
    /// The graph keeps what it promises: no edge leads from a document to
    /// itself, and no two edges share both ends.
    pub closed spec fn wf(&self) -> bool {
        &&& edges_wf(edge_views(self.edges@))
        &&& forall|i: int, j: int|
            0 <= i < self.pending@.len() && 0 <= j < self.pending@.len() && i != j ==> (
            #[trigger] self.pending@[i]).id@ != (#[trigger] self.pending@[j]).id@
    }

    /// In a well-formed graph the edges are well formed, and every
    /// identifier has a count of pending edits.
    pub proof fn lemma_view_wf(&self)
        requires
            self.wf(),
        ensures
            edges_wf(self@.edges),
            forall|id: Seq<char>| self@.pending.contains_key(id),
    {
    }

    /// A graph without edges, in which no edits are pending.
    pub fn new() -> (g: LinkPropagationGraph)
        ensures
            g.wf(),
            g@.edges == Seq::<EdgeView>::empty(),
            forall|id: Seq<char>| g@.pending[id] == 0,
    {
        let g = LinkPropagationGraph { edges: Vec::new(), pending: Vec::new() };
        g
    }

    /// The position of the edge from `source` to `target`.
    fn find_edge(&self, source: &str, target: &str) -> (r: Option<usize>)
        requires
            self.wf(),
        ensures
            match r {
                Some(i) => i < self.edges@.len() && has_link(self@.edges, source@, target@)
                    && link_position(self@.edges, source@, target@) == i,
                None => !has_link(self@.edges, source@, target@),
            },
    {
        let mut i: usize = 0;
        while i < self.edges.len()
            invariant
                self.wf(),
                i <= self.edges@.len(),
                forall|j: int|
                    0 <= j < i ==> !((#[trigger] self@.edges[j]).source == source@
                        && self@.edges[j].target == target@),
            decreases self.edges@.len() - i,
        {
            if same_id(self.edges[i].source.as_str(), source) && same_id(
                self.edges[i].target.as_str(),
                target,
            ) {
                assert(self@.edges[i as int].source == source@ && self@.edges[i as int].target
                    == target@);
                return Some(i);
            }
            i += 1;
        }
        None
    }

    /// Links `source` to `target`, or gives the link between them a new
    /// mode. Fails with `SelfLink`, changing nothing, where the two are the
    /// same document.
    pub fn link(&mut self, source: &str, target: &str, mode: PropagationMode) -> (r: Result<
        (),
        Error,
    >)
        requires
            old(self).wf(),
        ensures
            final(self).wf(),
            final(self)@.pending == old(self)@.pending,
            match r {
                Ok(_) => source@ != target@ && final(self)@.edges == linked(
                    old(self)@.edges,
                    source@,
                    target@,
                    mode,
                ),
                Err(e) => e == Error::SelfLink && source@ == target@ && final(self)@.edges == old(
                    self,
                )@.edges,
            },
    {
        if same_id(source, target) {
            return Err(Error::SelfLink);
        }
        let edge = LinkEdge { source: source.to_owned(), target: target.to_owned(), mode };
        match self.find_edge(source, target) {
            Some(i) => {
                self.edges[i] = edge;
                assert(edge_views(self.edges@) =~= linked(
                    old(self)@.edges,
                    source@,
                    target@,
                    mode,
                ));
            },
            None => {
                self.edges.push(edge);
                assert(edge_views(self.edges@) =~= linked(
                    old(self)@.edges,
                    source@,
                    target@,
                    mode,
                ));
            },
        }
        Ok(())
    }

    /// Removes the link from `source` to `target`, if there is one.
    pub fn unlink(&mut self, source: &str, target: &str)
        requires
            old(self).wf(),
        ensures
            final(self).wf(),
            final(self)@.pending == old(self)@.pending,
            final(self)@.edges == unlinked(old(self)@.edges, source@, target@),
            !has_link(final(self)@.edges, source@, target@),
    {
        match self.find_edge(source, target) {
            Some(i) => {
                self.edges.remove(i);
                let ghost before = old(self)@.edges;
                let ghost after = edge_views(self.edges@);
                assert(after =~= before.remove(i as int));
                assert(!has_link(after, source@, target@)) by {
                    if has_link(after, source@, target@) {
                        let j = link_position(after, source@, target@);
                        if j < i {
                            assert(before[j] == after[j]);
                        } else {
                            assert(before[j + 1] == after[j]);
                        }
                    }
                }
            },
            None => {},
        }
    }

    /// The mode of the link from `source` to `target`, if there is one.
    pub fn link_mode(&self, source: &str, target: &str) -> (r: Option<PropagationMode>)
        requires
            self.wf(),
        ensures
            r is Some <==> has_link(self@.edges, source@, target@),
            r is Some ==> r->0 == self@.edges[link_position(self@.edges, source@, target@)].mode,
    {
        match self.find_edge(source, target) {
            Some(i) => Some(self.edges[i].mode),
            None => None,
        }
    }

    /// The edges, in the order in which they were first made.
    pub fn edges(&self) -> (edges: &Vec<LinkEdge>)
        ensures
            edge_views(edges@) == self@.edges,
    {
        &self.edges
    }

    /// The position of the first count for `id`.
    fn find_pending(&self, id: &str) -> (r: Option<usize>)
        ensures
            match r {
                Some(i) => i < self.pending@.len() && self.pending@[i as int].id@ == id@
                    && self.pending@[i as int].count == self@.pending[id@] && forall|j: int|
                    0 <= j < i ==> (#[trigger] self.pending@[j]).id@ != id@,
                None => self@.pending[id@] == 0 && forall|j: int|
                    0 <= j < self.pending@.len() ==> (#[trigger] self.pending@[j]).id@ != id@,
            },
    {
        let mut i: usize = 0;
        while i < self.pending.len()
            invariant
                i <= self.pending@.len(),
                forall|j: int| 0 <= j < i ==> (#[trigger] self.pending@[j]).id@ != id@,
            decreases self.pending@.len() - i,
        {
            if same_id(self.pending[i].id.as_str(), id) {
                proof {
                    lemma_count_at(self.pending@, i as int);
                }
                return Some(i);
            }
            i += 1;
        }
        proof {
            lemma_count_absent(self.pending@, id@);
        }
        None
    }

    /// Sets the count of pending edits of `id`.
    fn set_pending(&mut self, id: &str, count: u64)
        requires
            old(self).wf(),
        ensures
            final(self).wf(),
            final(self).edges == old(self).edges,
            final(self)@.edges == old(self)@.edges,
            final(self)@.pending == old(self)@.pending.insert(id@, count as nat),
    {
        let entry = PendingCount { id: id.to_owned(), count };
        match self.find_pending(id) {
            Some(i) => {
                proof {
                    assert forall|x: Seq<char>|
                        pending_view(self.pending@.update(i as int, entry))[x] == old(
                            self,
                        )@.pending.insert(id@, count as nat)[x] by {
                        lemma_count_update(self.pending@, i as int, entry, x);
                    }
                }
                self.pending[i] = entry;
            },
            None => {
                proof {
                    assert forall|x: Seq<char>|
                        pending_view(self.pending@.push(entry))[x] == old(self)@.pending.insert(
                            id@,
                            count as nat,
                        )[x] by {
                        lemma_count_push(self.pending@, entry, x);
                    }
                }
                self.pending.push(entry);
            },
        }
    }

    /// How many edits the document `id` has been notified of since its count
    /// was last cleared.
    pub fn pending_sync(&self, id: &str) -> (count: u64)
        ensures
            count == self@.pending[id@],
    {
        match self.find_pending(id) {
            Some(i) => self.pending[i].count,
            None => 0,
        }
    }

    /// Sets the count of pending edits of `id` back to 0.
    pub fn clear_pending(&mut self, id: &str)
        requires
            old(self).wf(),
        ensures
            final(self).wf(),
            final(self)@.edges == old(self)@.edges,
            final(self)@.pending == old(self)@.pending.insert(id@, 0),
    {
        self.set_pending(id, 0);
    }

    /// Whether every count of pending edits can still go up by one.
    pub fn pending_has_headroom(&self) -> (r: bool)
        requires
            self.wf(),
        ensures
            r == forall|id: Seq<char>| #[trigger] self@.pending[id] < u64::MAX,
    {
        let mut i: usize = 0;
        while i < self.pending.len()
            invariant
                self.wf(),
                i <= self.pending@.len(),
                forall|j: int| 0 <= j < i ==> (#[trigger] self.pending@[j]).count < u64::MAX,
            decreases self.pending@.len() - i,
        {
            if self.pending[i].count == u64::MAX {
                proof {
                    let id = self.pending@[i as int].id@;
                    lemma_count_at(self.pending@, i as int);
                    assert(self@.pending[id] == u64::MAX);
                }
                return false;
            }
            i += 1;
        }
        proof {
            assert forall|id: Seq<char>| #[trigger] self@.pending[id] < u64::MAX by {
                lemma_count_below(self.pending@, id, u64::MAX as nat);
            }
        }
        true
    }

    /// Applies the edge at position `e` to an edit of `content` on its way.
    fn apply(
        &mut self,
        store: &mut RedundantFragmentStore,
        e: usize,
        content: &[u8],
        seen: &mut Vec<String>,
        queue: &mut Vec<String>,
        report: &mut EditReport,
        Ghost(st): Ghost<Propagation>,
        Ghost(store0): Ghost<StoreMap>,
        Ghost(pending0): Ghost<Map<Seq<char>, nat>>,
    )
        requires
            old(self).wf(),
            old(store).wf(),
            e < old(self)@.edges.len(),
            has_headroom(store0, pending0),
            bounded(old(self)@.edges, st),
            untouched(st, store0, pending0),
            old(store)@ == st.store,
            old(self)@.pending == st.pending,
            names(old(seen)@) == st.seen,
            names(old(queue)@) == st.queue,
            written_views(old(report).propagated@) == st.propagated,
            failed_views(old(report).failed@) == st.failed,
        ensures
            final(self).wf(),
            final(store).wf(),
            final(store).parameters() == old(store).parameters(),
            final(self)@.edges == old(self)@.edges,
            final(report).version == old(report).version,
            ({
                let after = apply_edge(
                    st,
                    old(self)@.edges[e as int],
                    content@,
                    old(store).parameters().n as nat,
                );
                &&& final(store)@ == after.store
                &&& final(self)@.pending == after.pending
                &&& names(final(seen)@) == after.seen
                &&& names(final(queue)@) == after.queue
                &&& written_views(final(report).propagated@) == after.propagated
                &&& failed_views(final(report).failed@) == after.failed
            }),
    {
        let target = self.edges[e].target.clone();
        let mode = self.edges[e].mode;
        if contains_id(seen, target.as_str()) {
            return ;
        }
        proof {
            assert(store@.contains_key(target@) ==> store@[target@] == store0[target@]
                && store0.contains_key(target@));
        }
        match mode {
            PropagationMode::Mirror => {
                match store.put(target.as_str(), content) {
                    Ok(v) => {
                        report.propagated.push((target.clone(), v));
                        queue.push(target.clone());
                        assert(written_views(report.propagated@) =~= st.propagated.push(
                            (target@, v as nat),
                        ));
                    },
                    Err(err) => {
                        report.failed.push((target.clone(), err));
                        assert(failed_views(report.failed@) =~= st.failed.push(
                            (target@, Error::LockTimeout),
                        ));
                    },
                }
            },
            PropagationMode::Notify => {
                let count = self.pending_sync(target.as_str());
                self.set_pending(target.as_str(), count + 1);
            },
        }
        seen.push(target);
    }

    /// Writes `content` to the document `id` and carries the edit along the
    /// links.
    ///
    /// The origin is written first; where a writer holds it, the edit fails
    /// with `LockTimeout` and nothing changes. Then the documents written
    /// are taken in the order in which the edit reached them, the origin
    /// first, and the edges that leave each are applied in the order in which
    /// they were made. An edge whose target the edit has reached before does
    /// nothing. A mirror edge writes the content into its target and the
    /// edit goes on from there; where a writer holds the target it is
    /// reported as failed and the edit does not go on from it. A notify edge
    /// adds one to the target's count of pending edits, and the edit does
    /// not go on from it. The report holds the origin's new version and the
    /// mirrored targets, written and failed.
    pub fn edit(&mut self, store: &mut RedundantFragmentStore, id: &str, content: &[u8]) -> (r:
        Result<EditReport, Error>)
        requires
            old(self).wf(),
            old(store).wf(),
            has_headroom(old(store)@, old(self)@.pending),
        ensures
            final(self).wf(),
            final(store).wf(),
            final(store).parameters() == old(store).parameters(),
            final(self)@.edges == old(self)@.edges,
            match r {
                Ok(report) => {
                    let end = propagation(
                        old(self)@.edges,
                        old(store)@,
                        old(self)@.pending,
                        id@,
                        content@,
                        old(store).parameters().n as nat,
                    );
                    &&& !blocked(old(store)@, id@)
                    &&& report.version == next_version(old(store)@, id@)
                    &&& final(store)@ == end.store
                    &&& final(self)@.pending == end.pending
                    &&& written_views(report.propagated@) == end.propagated
                    &&& failed_views(report.failed@) == end.failed
                },
                Err(e) => e == Error::LockTimeout && blocked(old(store)@, id@) && final(store)@
                    == old(store)@ && final(self)@.pending == old(self)@.pending,
            },
    {
        let ghost store0 = store@;
        let ghost pending0 = self@.pending;
        let ghost edges = self@.edges;
        let ghost n = store.parameters().n as nat;
        let version = match store.put(id, content) {
            Ok(v) => v,
            Err(e) => {
                return Err(e);
            },
        };
        let mut report = EditReport { version, propagated: Vec::new(), failed: Vec::new() };
        let mut seen: Vec<String> = Vec::new();
        seen.push(id.to_owned());
        let mut queue: Vec<String> = Vec::new();
        queue.push(id.to_owned());
        let ghost mut st = start(store0, pending0, id@, content@, n);
        proof {
            lemma_start(edges, store0, pending0, id@, content@, n);
        }
        let mut i: usize = 0;
        while i < queue.len()
            invariant
                self.wf(),
                store.wf(),
                store.parameters() == old(store).parameters(),
                n == old(store).parameters().n,
                self@.edges == edges,
                edges.len() == self.edges@.len(),
                has_headroom(store0, pending0),
                bounded(edges, st),
                untouched(st, store0, pending0),
                store@ == st.store,
                self@.pending == st.pending,
                names(seen@) == st.seen,
                names(queue@) == st.queue,
                written_views(report.propagated@) == st.propagated,
                failed_views(report.failed@) == st.failed,
                report.version == version,
                i <= queue@.len(),
                drain(edges, st, content@, n, i as nat) == propagation(
                    edges,
                    store0,
                    pending0,
                    id@,
                    content@,
                    n,
                ),
            decreases edges.len() + 1 - i,
        {
            proof {
                lemma_bounded_len(edges, st);
            }
            let node = queue[i].clone();
            let ghost before = st;
            assert(node@ == st.queue[i as int]) by {
                assert(names(queue@)[i as int] == queue@[i as int]@);
            }
            let mut e: usize = 0;
            while e < self.edges.len()
                invariant
                    self.wf(),
                    store.wf(),
                    store.parameters() == old(store).parameters(),
                    n == old(store).parameters().n,
                    self@.edges == edges,
                    edges.len() == self.edges@.len(),
                    has_headroom(store0, pending0),
                    bounded(edges, st),
                    untouched(st, store0, pending0),
                    store@ == st.store,
                    self@.pending == st.pending,
                    names(seen@) == st.seen,
                    names(queue@) == st.queue,
                    written_views(report.propagated@) == st.propagated,
                    failed_views(report.failed@) == st.failed,
                    report.version == version,
                    e <= edges.len(),
                    st == visit(edges, before, node@, content@, n, e as nat),
                decreases edges.len() - e,
            {
                if same_id(self.edges[e].source.as_str(), node.as_str()) {
                    proof {
                        lemma_apply_edge(edges, st, e as int, content@, n, store0, pending0);
                    }
                    self.apply(
                        store,
                        e,
                        content,
                        &mut seen,
                        &mut queue,
                        &mut report,
                        Ghost(st),
                        Ghost(store0),
                        Ghost(pending0),
                    );
                    proof {
                        st = apply_edge(st, edges[e as int], content@, n);
                    }
                }
                e += 1;
            }
            proof {
                lemma_visit(edges, before, node@, content@, n, edges.len(), store0, pending0);
            }
            i += 1;
        }
        Ok(report)
    }
}

} // verus!
