//! The redundant fragment store.
//!
//! The store keeps documents under their identifiers. Every write encodes
//! the content into `n` blocks per document, any `k` of which suffice to
//! rebuild it. A document can be rebuilt from a fragment of its content and
//! the blocks that are present, and the store can find the document that a
//! fragment most likely comes from.

use crate::config::Config;
use crate::document::Document;
use crate::error::Error;
use crate::ident::{id_before, id_less, lemma_id_order, lemma_id_order_transitive, same_id};
use crate::model::{
    blocked, candidate, is_ambiguous, is_best, lemma_best_unique, next_version,
    nothing_matches, reconstructed, same_outcome, similarity, written, DocumentView, StoreMap,
};
use vstd::prelude::*;
use vstd::slice::slice_to_vec;

verus! {

/// The documents hold distinct identifiers, are well formed and share the
/// layout `cfg`.
spec fn documents_wf(docs: Seq<Document>, cfg: Config) -> bool {
    &&& forall|i: int| 0 <= i < docs.len() ==> (#[trigger] docs[i]).wf() && docs[i].layout() == cfg
    &&& forall|i: int, j: int|
        0 <= i < docs.len() && 0 <= j < docs.len() && i != j ==> (#[trigger] docs[i]).name() != (
        #[trigger] docs[j]).name()
}

/// Some document of `docs` has the identifier `id`.
spec fn has_document(docs: Seq<Document>, id: Seq<char>) -> bool {
    exists|i: int| 0 <= i < docs.len() && (#[trigger] docs[i]).name() == id
}

/// The index in `docs` of the document with the identifier `id`.
spec fn index_of(docs: Seq<Document>, id: Seq<char>) -> int {
    choose|i: int| 0 <= i < docs.len() && (#[trigger] docs[i]).name() == id
}

/// The documents as a map from their identifiers.
spec fn documents_view(docs: Seq<Document>) -> StoreMap {
    Map::new(|id: Seq<char>| has_document(docs, id), |id: Seq<char>| docs[index_of(docs, id)]@)
}

/// Every document is found in the map under its identifier.
proof fn lemma_lookup(docs: Seq<Document>, cfg: Config, i: int)
    requires
        documents_wf(docs, cfg),
        0 <= i < docs.len(),
    ensures
        documents_view(docs).contains_key(docs[i].name()),
        documents_view(docs)[docs[i].name()] == docs[i]@,
        index_of(docs, docs[i].name()) == i,
{
}

/// Every key of the map is the identifier of the document at its index.
proof fn lemma_key(docs: Seq<Document>, cfg: Config, id: Seq<char>)
    requires
        documents_wf(docs, cfg),
        documents_view(docs).contains_key(id),
    ensures
        0 <= index_of(docs, id) < docs.len(),
        docs[index_of(docs, id)].name() == id,
        documents_view(docs)[id] == docs[index_of(docs, id)]@,
{
}

/// An identifier that no document has is no key of the map.
proof fn lemma_absent(docs: Seq<Document>, id: Seq<char>)
    requires
        forall|i: int| 0 <= i < docs.len() ==> (#[trigger] docs[i]).name() != id,
    ensures
        !documents_view(docs).contains_key(id),
{
}

/// Replacing a document by one of the same identifier replaces its entry in
/// the map.
proof fn lemma_update(docs: Seq<Document>, cfg: Config, i: int, d: Document)
    requires
        documents_wf(docs, cfg),
        0 <= i < docs.len(),
        d.wf(),
        d.layout() == cfg,
        d.name() == docs[i].name(),
    ensures
        documents_wf(docs.update(i, d), cfg),
        documents_view(docs.update(i, d)) == documents_view(docs).insert(d.name(), d@),
{
    let after = docs.update(i, d);
    assert forall|id: Seq<char>| has_document(after, id) == has_document(docs, id) by {
        if has_document(docs, id) {
            let j = index_of(docs, id);
            assert(after[j].name() == id);
        }
        if has_document(after, id) {
            let j = index_of(after, id);
            assert(docs[j].name() == id);
        }
    }
    assert forall|id: Seq<char>| has_document(after, id) implies #[trigger] documents_view(
        after,
    )[id] == documents_view(docs).insert(d.name(), d@)[id] by {
        let j = index_of(after, id);
        lemma_lookup(after, cfg, j);
        lemma_lookup(docs, cfg, j);
    }
    assert(documents_view(after) =~= documents_view(docs).insert(d.name(), d@)) by {
        lemma_lookup(docs, cfg, i);
    }
}

/// Adding a document with a new identifier adds its entry to the map.
proof fn lemma_push(docs: Seq<Document>, cfg: Config, d: Document)
    requires
        documents_wf(docs, cfg),
        d.wf(),
        d.layout() == cfg,
        forall|i: int| 0 <= i < docs.len() ==> (#[trigger] docs[i]).name() != d.name(),
    ensures
        documents_wf(docs.push(d), cfg),
        documents_view(docs.push(d)) == documents_view(docs).insert(d.name(), d@),
{
    let after = docs.push(d);
    assert(after[docs.len() as int].name() == d.name());
    assert forall|id: Seq<char>| has_document(after, id) == (has_document(docs, id) || id
        == d.name()) by {
        if has_document(docs, id) {
            let j = index_of(docs, id);
            assert(after[j].name() == id);
        }
        if has_document(after, id) {
            let j = index_of(after, id);
            if j < docs.len() {
                assert(docs[j].name() == id);
            }
        }
    }
    assert forall|id: Seq<char>| has_document(after, id) implies #[trigger] documents_view(
        after,
    )[id] == documents_view(docs).insert(d.name(), d@)[id] by {
        let j = index_of(after, id);
        lemma_lookup(after, cfg, j);
        if j < docs.len() {
            lemma_lookup(docs, cfg, j);
        }
    }
}

/// Taking a document out takes its entry out of the map.
proof fn lemma_remove(docs: Seq<Document>, cfg: Config, i: int)
    requires
        documents_wf(docs, cfg),
        0 <= i < docs.len(),
    ensures
        documents_wf(docs.remove(i), cfg),
        documents_view(docs.remove(i)) == documents_view(docs).remove(docs[i].name()),
{
    let after = docs.remove(i);
    let gone = docs[i].name();
    assert forall|j: int| 0 <= j < after.len() implies after[j] == docs[if j < i {
        j
    } else {
        j + 1
    }] by {}
    assert forall|id: Seq<char>| has_document(after, id) == (has_document(docs, id) && id
        != gone) by {
        if has_document(docs, id) && id != gone {
            let j = index_of(docs, id);
            let j1 = if j < i { j } else { j - 1 };
            assert(after[j1].name() == id);
        }
        if has_document(after, id) {
            let j = index_of(after, id);
            let j1 = if j < i { j } else { j + 1 };
            assert(docs[j1].name() == id);
        }
    }
    assert forall|id: Seq<char>| has_document(after, id) implies #[trigger] documents_view(
        after,
    )[id] == documents_view(docs)[id] by {
        let j = index_of(after, id);
        let j1 = if j < i { j } else { j + 1 };
        lemma_lookup(after, cfg, j);
        lemma_lookup(docs, cfg, j1);
    }
    assert(documents_view(after) =~= documents_view(docs).remove(gone));
}

/// A store of documents with redundancy.
pub struct RedundantFragmentStore {
    config: Config,
    docs: Vec<Document>,
}

impl View for RedundantFragmentStore {
    type V = StoreMap;

    closed spec fn view(&self) -> StoreMap {
        documents_view(self.docs@)
    }
}

impl RedundantFragmentStore {
    /// The store keeps what it promises: its parameters are valid, no two
    /// documents share an identifier, and every document's present blocks
    /// encode its content.
    pub closed spec fn wf(&self) -> bool {
        &&& self.config.valid()
        &&& documents_wf(self.docs@, self.config)
    }

    /// The parameters that the store was built with.
    pub closed spec fn parameters(&self) -> Config {
        self.config
    }

    /// In a well-formed store the parameters are valid, there are finitely
    /// many documents, and every document has one entry for each of its `n`
    /// blocks.
    pub proof fn lemma_view_wf(&self)
        requires
            self.wf(),
        ensures
            self.parameters().valid(),
            self@.dom().finite(),
            forall|id: Seq<char>| #[trigger]
                self@.contains_key(id) ==> self@[id].present.len() == self.parameters().n,
    {
        let docs = self.docs@;
        assert forall|id: Seq<char>| #[trigger] self@.contains_key(id) implies self@[id].present.len()
            == self.config.n by {
            lemma_key(docs, self.config, id);
            docs[index_of(docs, id)].lemma_present_len();
        }
        let names = Set::new(|id: Seq<char>| has_document(docs, id));
        lemma_names_count(docs, self.config, docs.len());
        assert(docs.take(docs.len() as int) =~= docs);
    }

    /// An empty store with the given parameters, if they are valid.
    pub fn new(config: Config) -> (r: Option<RedundantFragmentStore>)
        ensures
            r is Some <==> config.valid(),
            r is Some ==> (r->0).wf() && (r->0).parameters() == config && (r->0)@
                == Map::<Seq<char>, DocumentView>::empty(),
    {
        if config.is_valid() {
            let store = RedundantFragmentStore { config, docs: Vec::new() };
            Some(store)
        } else {
            None
        }
    }

    /// The parameters that the store was built with.
    pub fn config(&self) -> (config: Config)
        ensures
            config == self.parameters(),
    {
        self.config
    }

    /// The position of the document with the given identifier.
    fn find(&self, id: &str) -> (r: Option<usize>)
        requires
            self.wf(),
        ensures
            match r {
                Some(i) => i < self.docs@.len() && self.docs@[i as int].name() == id@
                    && self@.contains_key(id@) && self@[id@] == self.docs@[i as int]@,
                None => !self@.contains_key(id@) && forall|i: int|
                    0 <= i < self.docs@.len() ==> (#[trigger] self.docs@[i]).name() != id@,
            },
    {
        let mut i: usize = 0;
        while i < self.docs.len()
            invariant
                self.wf(),
                i <= self.docs@.len(),
                forall|j: int| 0 <= j < i ==> (#[trigger] self.docs@[j]).name() != id@,
            decreases self.docs@.len() - i,
        {
            if same_id(self.docs[i].id(), id) {
                proof {
                    lemma_lookup(self.docs@, self.config, i as int);
                }
                return Some(i);
            }
            i += 1;
        }
        proof {
            lemma_absent(self.docs@, id@);
        }
        None
    }

    /// Whether every document's version can still go up by one.
    pub fn versions_have_headroom(&self) -> (r: bool)
        requires
            self.wf(),
        ensures
            r == forall|id: Seq<char>| #[trigger]
                self@.contains_key(id) ==> self@[id].version < u64::MAX,
    {
        let mut i: usize = 0;
        while i < self.docs.len()
            invariant
                self.wf(),
                i <= self.docs@.len(),
                forall|j: int| 0 <= j < i ==> (#[trigger] self.docs@[j])@.version < u64::MAX,
            decreases self.docs@.len() - i,
        {
            if self.docs[i].version() == u64::MAX {
                proof {
                    let id = self.docs@[i as int].name();
                    lemma_lookup(self.docs@, self.config, i as int);
                    assert(self@.contains_key(id) && self@[id].version == u64::MAX);
                }
                return false;
            }
            i += 1;
        }
        proof {
            assert forall|id: Seq<char>| #[trigger] self@.contains_key(id) implies self@[id].version
                < u64::MAX by {
                lemma_key(self.docs@, self.config, id);
            }
        }
        true
    }

    /// The number of documents.
    pub fn len(&self) -> (r: usize)
        requires
            self.wf(),
        ensures
            r == self@.dom().len(),
    {
        proof {
            lemma_names_count(self.docs@, self.config, self.docs@.len());
            assert(self.docs@.take(self.docs@.len() as int) =~= self.docs@);
        }
        self.docs.len()
    }

    /// Whether the store has a document with the given identifier.
    pub fn contains(&self, id: &str) -> (r: bool)
        requires
            self.wf(),
        ensures
            r == self@.contains_key(id@),
    {
        self.find(id).is_some()
    }

    /// The document with the given identifier.
    pub fn document(&self, id: &str) -> (r: Option<&Document>)
        requires
            self.wf(),
        ensures
            r is Some <==> self@.contains_key(id@),
            r is Some ==> (r->0).wf() && (r->0).name() == id@ && (r->0).layout()
                == self.parameters() && (r->0)@ == self@[id@],
    {
        match self.find(id) {
            Some(i) => Some(&self.docs[i]),
            None => None,
        }
    }

    /// Stores `content` under `id`, as a new document or in place of the
    /// document's content, and returns the document's new version. All `n`
    /// blocks are computed anew from the content. Fails with `LockTimeout`,
    /// changing nothing, where a writer holds the document.
    pub fn put(&mut self, id: &str, content: &[u8]) -> (r: Result<u64, Error>)
        requires
            old(self).wf(),
            next_version(old(self)@, id@) <= u64::MAX,
        ensures
            final(self).wf(),
            final(self).parameters() == old(self).parameters(),
            match r {
                Ok(v) => !blocked(old(self)@, id@) && v == next_version(old(self)@, id@)
                    && final(self)@ == written(
                    old(self)@,
                    id@,
                    content@,
                    old(self).parameters().n as nat,
                ),
                Err(e) => e == Error::LockTimeout && blocked(old(self)@, id@) && final(self)@
                    == old(self)@,
            },
    {
        match self.find(id) {
            Some(i) => {
                if self.docs[i].is_held() {
                    Err(Error::LockTimeout)
                } else {
                    self.docs[i].rewrite(content);
                    proof {
                        lemma_update(old(self).docs@, self.config, i as int, self.docs@[i as int]);
                    }
                    Ok(self.docs[i].version())
                }
            },
            None => {
                let doc = Document::create(id.to_owned(), content, &self.config);
                proof {
                    lemma_push(self.docs@, self.config, doc);
                }
                self.docs.push(doc);
                Ok(1)
            },
        }
    }

    /// The content and the version of the document `id`; `NotFound` where
    /// there is no such document.
    pub fn get(&self, id: &str) -> (r: Result<(Vec<u8>, u64), Error>)
        requires
            self.wf(),
        ensures
            match r {
                Ok((content, version)) => self@.contains_key(id@) && content@ == self@[id@].content
                    && version == self@[id@].version,
                Err(e) => e == Error::NotFound && !self@.contains_key(id@),
            },
    {
        match self.find(id) {
            Some(i) => Ok((slice_to_vec(self.docs[i].content()), self.docs[i].version())),
            None => Err(Error::NotFound),
        }
    }

    /// Deletes the document `id` with its blocks. `NotFound` where there is
    /// no such document, `LockTimeout`, changing nothing, where a writer
    /// holds it.
    pub fn delete(&mut self, id: &str) -> (r: Result<(), Error>)
        requires
            old(self).wf(),
        ensures
            final(self).wf(),
            final(self).parameters() == old(self).parameters(),
            match r {
                Ok(_) => old(self)@.contains_key(id@) && !old(self)@[id@].held && final(self)@
                    == old(self)@.remove(id@),
                Err(e) => final(self)@ == old(self)@ && (if old(self)@.contains_key(id@) {
                    e == Error::LockTimeout && old(self)@[id@].held
                } else {
                    e == Error::NotFound
                }),
            },
    {
        match self.find(id) {
            Some(i) => {
                if self.docs[i].is_held() {
                    Err(Error::LockTimeout)
                } else {
                    proof {
                        lemma_remove(self.docs@, self.config, i as int);
                    }
                    self.docs.remove(i);
                    Ok(())
                }
            },
            None => Err(Error::NotFound),
        }
    }

    /// Loses block `index` of the document `id`, as a fault of the medium
    /// would. `NotFound` where there is no such document; an index past the
    /// last block changes nothing.
    pub fn discard_block(&mut self, id: &str, index: usize) -> (r: Result<(), Error>)
        requires
            old(self).wf(),
        ensures
            final(self).wf(),
            final(self).parameters() == old(self).parameters(),
            match r {
                Ok(_) => old(self)@.contains_key(id@) && final(self)@ == old(self)@.insert(
                    id@,
                    DocumentView {
                        present: if index < old(self)@[id@].present.len() {
                            old(self)@[id@].present.update(index as int, false)
                        } else {
                            old(self)@[id@].present
                        },
                        ..old(self)@[id@]
                    },
                ),
                Err(e) => e == Error::NotFound && !old(self)@.contains_key(id@) && final(self)@
                    == old(self)@,
            },
    {
        match self.find(id) {
            Some(i) => {
                self.docs[i].discard_block(index);
                proof {
                    lemma_update(old(self).docs@, self.config, i as int, self.docs@[i as int]);
                }
                Ok(())
            },
            None => Err(Error::NotFound),
        }
    }

    /// Takes the lock of the document `id` for a writer outside the store,
    /// so that writes to it fail until it is released. `NotFound` where there
    /// is no such document, `LockTimeout` where the lock is already held.
    pub fn acquire(&mut self, id: &str) -> (r: Result<(), Error>)
        requires
            old(self).wf(),
        ensures
            final(self).wf(),
            final(self).parameters() == old(self).parameters(),
            match r {
                Ok(_) => old(self)@.contains_key(id@) && !old(self)@[id@].held && final(self)@
                    == old(self)@.insert(id@, DocumentView { held: true, ..old(self)@[id@] }),
                Err(e) => final(self)@ == old(self)@ && (if old(self)@.contains_key(id@) {
                    e == Error::LockTimeout && old(self)@[id@].held
                } else {
                    e == Error::NotFound
                }),
            },
    {
        match self.find(id) {
            Some(i) => {
                if self.docs[i].is_held() {
                    Err(Error::LockTimeout)
                } else {
                    self.docs[i].set_held(true);
                    proof {
                        lemma_update(old(self).docs@, self.config, i as int, self.docs@[i as int]);
                        assert(self.docs@ =~= old(self).docs@.update(
                            i as int,
                            self.docs@[i as int],
                        ));
                    }
                    Ok(())
                }
            },
            None => Err(Error::NotFound),
        }
    }

    /// Gives back the lock of the document `id`. `NotFound` where there is no
    /// such document.
    pub fn release(&mut self, id: &str) -> (r: Result<(), Error>)
        requires
            old(self).wf(),
        ensures
            final(self).wf(),
            final(self).parameters() == old(self).parameters(),
            match r {
                Ok(_) => old(self)@.contains_key(id@) && final(self)@ == old(self)@.insert(
                    id@,
                    DocumentView { held: false, ..old(self)@[id@] },
                ),
                Err(e) => e == Error::NotFound && !old(self)@.contains_key(id@) && final(self)@
                    == old(self)@,
            },
    {
        match self.find(id) {
            Some(i) => {
                self.docs[i].set_held(false);
                proof {
                    lemma_update(old(self).docs@, self.config, i as int, self.docs@[i as int]);
                }
                Ok(())
            },
            None => Err(Error::NotFound),
        }
    }

    /// The similarity of every document to the fragment, by position.
    fn scores(&self, fragment: &[u8]) -> (scores: Vec<u32>)
        requires
            self.wf(),
        ensures
            scores@.len() == self.docs@.len(),
            forall|i: int|
                0 <= i < scores@.len() ==> (#[trigger] scores@[i]) as nat == similarity(
                    self.docs@[i]@,
                    self.config,
                    fragment@,
                ),
    {
        let mut scores: Vec<u32> = Vec::new();
        let mut i: usize = 0;
        while i < self.docs.len()
            invariant
                self.wf(),
                i <= self.docs@.len(),
                scores@.len() == i,
                forall|j: int|
                    0 <= j < i ==> (#[trigger] scores@[j]) as nat == similarity(
                        self.docs@[j]@,
                        self.config,
                        fragment@,
                    ),
            decreases self.docs@.len() - i,
        {
            scores.push(self.docs[i].similarity(fragment));
            i += 1;
        }
        scores
    }

    /// The position of the best match among the documents, of which there is
    /// at least one: the highest score, and among equal scores the earliest
    /// identifier.
    fn best_position(&self, scores: &Vec<u32>) -> (best: usize)
        requires
            self.wf(),
            scores@.len() == self.docs@.len(),
            scores@.len() > 0,
        ensures
            best < scores@.len(),
            forall|j: int|
                0 <= j < scores@.len() && j != best ==> (#[trigger] scores@[j]) < scores@[best as int]
                    || (scores@[j] == scores@[best as int] && id_less(
                    self.docs@[best as int].name(),
                    self.docs@[j].name(),
                )),
    {
        let mut best: usize = 0;
        let mut i: usize = 1;
        while i < scores.len()
            invariant
                self.wf(),
                scores@.len() == self.docs@.len(),
                1 <= i <= scores@.len(),
                best < i,
                forall|j: int|
                    0 <= j < i && j != best ==> (#[trigger] scores@[j]) < scores@[best as int] || (
                    scores@[j] == scores@[best as int] && id_less(
                        self.docs@[best as int].name(),
                        self.docs@[j].name(),
                    )),
            decreases scores@.len() - i,
        {
            let earlier = scores[i] == scores[best] && id_before(
                self.docs[i].id(),
                self.docs[best].id(),
            );
            proof {
                let a = self.docs@[i as int].name();
                let b = self.docs@[best as int].name();
                lemma_id_order(a, b);
                if earlier {
                    assert forall|j: int| 0 <= j < i && j != best && scores@[j] == scores@[i as int]
                        implies id_less(a, self.docs@[j].name()) by {
                        lemma_id_order_transitive(a, b, self.docs@[j].name());
                    }
                }
            }
            if scores[i] > scores[best] || earlier {
                best = i;
            }
            i += 1;
        }
        best
    }

    /// Whether a document other than the one at `best` scores within the
    /// margin of it.
    fn within_margin(&self, scores: &Vec<u32>, best: usize) -> (r: bool)
        requires
            best < scores@.len(),
            forall|j: int| 0 <= j < scores@.len() ==> (#[trigger] scores@[j]) <= scores@[best as int],
        ensures
            r == exists|j: int|
                0 <= j < scores@.len() && j != best && scores@[best as int] - (#[trigger] scores@[j])
                    < self.config.similarity_margin,
    {
        let mut j: usize = 0;
        while j < scores.len()
            invariant
                best < scores@.len(),
                j <= scores@.len(),
                forall|m: int|
                    0 <= m < scores@.len() ==> (#[trigger] scores@[m]) <= scores@[best as int],
                forall|m: int|
                    0 <= m < j && m != best ==> scores@[best as int] - (#[trigger] scores@[m])
                        >= self.config.similarity_margin,
            decreases scores@.len() - j,
        {
            if j != best && scores[best] - scores[j] < self.config.similarity_margin {
                return true;
            }
            j += 1;
        }
        false
    }

    /// The position of the document against which the fragment is rebuilt.
    fn choose_candidate(&self, fragment: &[u8], hint_id: Option<&str>) -> (r: Result<usize, Error>)
        requires
            self.wf(),
        ensures
            match r {
                Ok(i) => i < self.docs@.len() && candidate(
                    self@,
                    self.config,
                    fragment@,
                    match hint_id {
                        Some(h) => Some(h@),
                        None => None,
                    },
                ) == Ok::<Seq<char>, Error>(self.docs@[i as int].name()) && self@[self.docs@[i as int].name()]
                    == self.docs@[i as int]@,
                Err(e) => candidate(
                    self@,
                    self.config,
                    fragment@,
                    match hint_id {
                        Some(h) => Some(h@),
                        None => None,
                    },
                ) == Err::<Seq<char>, Error>(e),
            },
    {
        match hint_id {
            Some(h) => match self.find(h) {
                Some(i) => Ok(i),
                None => Err(Error::NoMatch),
            },
            None => {
                let ghost m = self@;
                let ghost docs = self.docs@;
                let ghost cfg = self.config;
                let ghost f = fragment@;
                if self.docs.len() == 0 {
                    proof {
                        assert forall|o: Seq<char>| #[trigger] m.contains_key(o) implies similarity(
                            m[o],
                            cfg,
                            f,
                        ) == 0 by {
                            lemma_key(docs, cfg, o);
                        }
                    }
                    return Err(Error::NoMatch);
                }
                let scores = self.scores(fragment);
                let best = self.best_position(&scores);
                let ghost id = docs[best as int].name();
                proof {
                    lemma_lookup(docs, cfg, best as int);
                    assert forall|o: Seq<char>| #[trigger] m.contains_key(o) implies similarity(
                        m[o],
                        cfg,
                        f,
                    ) == scores@[index_of(docs, o)] by {
                        lemma_key(docs, cfg, o);
                    }
                    assert(is_best(m, cfg, f, id)) by {
                        assert forall|o: Seq<char>| #[trigger]
                            m.contains_key(o) && o != id implies similarity(m[o], cfg, f)
                            < similarity(m[id], cfg, f) || (similarity(m[o], cfg, f) == similarity(
                            m[id],
                            cfg,
                            f,
                        ) && id_less(id, o)) by {
                            lemma_key(docs, cfg, o);
                            let j = index_of(docs, o);
                            assert(scores@[j] < scores@[best as int] || (scores@[j]
                                == scores@[best as int] && id_less(
                                docs[best as int].name(),
                                docs[j].name(),
                            )));
                        }
                    }
                }
                if scores[best] == 0 {
                    proof {
                        assert forall|o: Seq<char>| #[trigger] m.contains_key(o) implies similarity(
                            m[o],
                            cfg,
                            f,
                        ) == 0 by {
                            lemma_key(docs, cfg, o);
                            let j = index_of(docs, o);
                            if j != best {
                                assert(scores@[j] < scores@[best as int] || scores@[j]
                                    == scores@[best as int]);
                            }
                        }
                    }
                    return Err(Error::NoMatch);
                }
                proof {
                    assert(!nothing_matches(m, cfg, f)) by {
                        assert(m.contains_key(id));
                    }
                    let chosen = choose|x: Seq<char>| is_best(m, cfg, f, x);
                    lemma_best_unique(m, cfg, f, chosen, id);
                    assert forall|j: int| 0 <= j < scores@.len() implies (#[trigger] scores@[j])
                        <= scores@[best as int] by {
                        if j != best {
                            assert(scores@[j] < scores@[best as int] || scores@[j]
                                == scores@[best as int]);
                        }
                    }
                }
                let close = self.within_margin(&scores, best);
                proof {
                    if close {
                        let j = choose|j: int|
                            0 <= j < scores@.len() && j != best && scores@[best as int] - (
                            #[trigger] scores@[j]) < cfg.similarity_margin;
                        lemma_lookup(docs, cfg, j);
                        assert(m.contains_key(docs[j].name()));
                        assert(is_ambiguous(m, cfg, f, id));
                    } else {
                        if is_ambiguous(m, cfg, f, id) {
                            let o = choose|o: Seq<char>|
                                #![trigger m.contains_key(o)]
                                m.contains_key(o) && o != id && similarity(m[id], cfg, f)
                                    - similarity(m[o], cfg, f) < cfg.similarity_margin;
                            lemma_key(docs, cfg, o);
                            let j = index_of(docs, o);
                            assert(scores@[best as int] - scores@[j] < cfg.similarity_margin);
                        }
                    }
                }
                if close {
                    Err(Error::AmbiguousMatch)
                } else {
                    Ok(best)
                }
            },
        }
    }

    /// Rebuilds a document from a fragment of it.
    ///
    /// With a hint, the fragment is rebuilt against the hinted document;
    /// `NoMatch` where there is no such document. Without, it is rebuilt
    /// against the stored document that is most similar to it; `NoMatch`
    /// where no document shares a whole chunk with the fragment,
    /// `AmbiguousMatch` where another document's score is within the margin
    /// of the best. Against the document found, rebuilding uses the chunks
    /// that the fragment covers and the blocks that are present, and fails
    /// with `InsufficientRedundancy` where some stripe has fewer than `k`
    /// pieces at hand.
    pub fn reconstruct(&self, fragment: &[u8], hint_id: Option<&str>) -> (r: Result<Vec<u8>, Error>)
        requires
            self.wf(),
        ensures
            same_outcome(
                r,
                reconstructed(
                    self@,
                    self.parameters(),
                    fragment@,
                    match hint_id {
                        Some(h) => Some(h@),
                        None => None,
                    },
                ),
            ),
    {
        match self.choose_candidate(fragment, hint_id) {
            Ok(i) => self.docs[i].reconstruct_from_fragment(fragment),
            Err(e) => Err(e),
        }
    }
}

/// Documents with distinct identifiers have as many identifiers as there
/// are documents.
proof fn lemma_names_count(docs: Seq<Document>, cfg: Config, m: nat)
    requires
        documents_wf(docs, cfg),
        m <= docs.len(),
    ensures
        Set::new(|id: Seq<char>| has_document(docs.take(m as int), id)).finite(),
        Set::new(|id: Seq<char>| has_document(docs.take(m as int), id)).len() == m,
    decreases m,
{
    let here = Set::new(|id: Seq<char>| has_document(docs.take(m as int), id));
    if m == 0 {
        assert(here =~= Set::<Seq<char>>::empty());
    } else {
        lemma_names_count(docs, cfg, (m - 1) as nat);
        let before = Set::new(|id: Seq<char>| has_document(docs.take(m - 1), id));
        let last = docs[m - 1].name();
        assert forall|id: Seq<char>| here.contains(id) == before.insert(last).contains(id) by {
            if has_document(docs.take(m as int), id) {
                let j = index_of(docs.take(m as int), id);
                if j < m - 1 {
                    assert(docs.take(m - 1)[j].name() == id);
                }
            }
            if has_document(docs.take(m - 1), id) {
                let j = index_of(docs.take(m - 1), id);
                assert(docs.take(m as int)[j].name() == id);
            }
            if id == last {
                assert(docs.take(m as int)[m - 1].name() == id);
            }
        }
        assert(here =~= before.insert(last));
        assert(!before.contains(last)) by {
            if has_document(docs.take(m - 1), last) {
                let j = index_of(docs.take(m - 1), last);
                assert(docs[j].name() == docs[m - 1].name());
            }
        }
    }
}

} // verus!
