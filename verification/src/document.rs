//! A stored document: its content, its version and its redundancy blocks.

use crate::config::Config;
use crate::error::Error;
use crate::fragment::{align, supplied_pieces};
use crate::layout::{count_chunks, encode, Block};
use crate::model::{fresh, rebuilt, same_outcome, score, similarity, DocumentView};
use crate::recover::{blocks_encode, present_blocks, recover};
use vstd::prelude::*;
use vstd::slice::slice_to_vec;

verus! {

/// A document of a store.
///
/// The blocks are derived from the content: whenever the content changes
/// they are computed anew, all `n` of them. A block can be lost afterwards;
/// the blocks that remain always encode the current content.
pub struct Document {
    id: String,
    content: Vec<u8>,
    version: u64,
    blocks: Vec<Option<Block>>,
    held: bool,
    layout: Config,
}

impl View for Document {
    type V = DocumentView;

    closed spec fn view(&self) -> DocumentView {
        DocumentView {
            content: self.content@,
            version: self.version as nat,
            present: present_blocks(self.blocks@),
            held: self.held,
        }
    }
}

/// The share of `chunks` that `covered` is, in millionths.
pub fn score_of(covered: usize, chunks: usize) -> (r: u32)
    requires
        covered <= chunks,
    ensures
        r == score(covered as nat, chunks as nat),
        r <= 1_000_000,
{
    if chunks == 0 {
        0
    } else {
        assert(covered * 1_000_000 <= chunks * 1_000_000) by (nonlinear_arith)
            requires
                covered <= chunks,
        ;
        assert(covered * 1_000_000 / (chunks as int) <= 1_000_000) by (nonlinear_arith)
            requires
                0 <= covered * 1_000_000 <= chunks * 1_000_000,
                chunks > 0,
        ;
        assert(covered * 1_000_000 / (chunks as int) >= 0) by (nonlinear_arith)
            requires
                0 <= covered * 1_000_000,
                chunks > 0,
        ;
        let scaled: u128 = covered as u128 * 1_000_000;
        (scaled / chunks as u128) as u32
    }
}

impl Document {
    /// The document keeps what it promises: its present blocks encode its
    /// content under its layout.
    pub closed spec fn wf(&self) -> bool {
        &&& self.layout.valid()
        &&& blocks_encode(self.blocks@, self.content@, self.layout)
    }

    /// The document's identifier.
    pub closed spec fn name(&self) -> Seq<char> {
        self.id@
    }

    /// The parameters under which the document is encoded.
    pub closed spec fn layout(&self) -> Config {
        self.layout
    }

    /// A well-formed document has one entry for each of its `n` blocks.
    pub proof fn lemma_present_len(&self)
        requires
            self.wf(),
        ensures
            self@.present.len() == self.layout().n,
    {
    }

    /// A new document with the given content, at version 1.
    pub(crate) fn create(id: String, content: &[u8], cfg: &Config) -> (d: Document)
        requires
            cfg.valid(),
        ensures
            d.wf(),
            d.name() == id@,
            d.layout() == *cfg,
            d@ == fresh(content@, 1, cfg.n as nat),
    {
        let blocks = encode(content, cfg);
        let d = Document {
            id,
            content: slice_to_vec(content),
            version: 1,
            blocks,
            held: false,
            layout: *cfg,
        };
        assert(d@.present =~= fresh(content@, 1, cfg.n as nat).present);
        d
    }

    /// Replaces the content, computes all blocks anew and moves to the next
    /// version.
    pub(crate) fn rewrite(&mut self, content: &[u8])
        requires
            old(self).wf(),
            old(self)@.version < u64::MAX,
        ensures
            final(self).wf(),
            final(self).name() == old(self).name(),
            final(self).layout() == old(self).layout(),
            final(self)@ == (DocumentView {
                held: old(self)@.held,
                ..fresh(content@, old(self)@.version + 1, old(self).layout().n as nat)
            }),
    {
        let blocks = encode(content, &self.layout);
        self.content = slice_to_vec(content);
        self.blocks = blocks;
        self.version = self.version + 1;
        assert(self@.present =~= fresh(content@, 1, self.layout.n as nat).present);
    }

    /// Loses block `index`, if there is such a block.
    pub(crate) fn discard_block(&mut self, index: usize)
        requires
            old(self).wf(),
        ensures
            final(self).wf(),
            final(self).name() == old(self).name(),
            final(self).layout() == old(self).layout(),
            final(self)@ == (DocumentView {
                present: if index < old(self)@.present.len() {
                    old(self)@.present.update(index as int, false)
                } else {
                    old(self)@.present
                },
                ..old(self)@
            }),
    {
        if index < self.blocks.len() {
            self.blocks[index] = None;
            assert(self@.present =~= old(self)@.present.update(index as int, false));
        }
    }

    /// Marks the document as held by a writer, or as free.
    pub(crate) fn set_held(&mut self, held: bool)
        requires
            old(self).wf(),
        ensures
            final(self).wf(),
            final(self).name() == old(self).name(),
            final(self).layout() == old(self).layout(),
            final(self)@ == (DocumentView { held, ..old(self)@ }),
    {
        self.held = held;
    }

    /// The document's identifier.
    pub fn id(&self) -> (id: &str)
        ensures
            id@ == self.name(),
    {
        self.id.as_str()
    }

    /// The document's content.
    pub fn content(&self) -> (content: &[u8])
        ensures
            content@ == self@.content,
    {
        self.content.as_slice()
    }

    /// The document's version.
    pub fn version(&self) -> (version: u64)
        ensures
            version == self@.version,
    {
        self.version
    }

    /// Whether a writer holds the document.
    pub fn is_held(&self) -> (held: bool)
        ensures
            held == self@.held,
    {
        self.held
    }

    /// Whether block `index` is present.
    pub fn has_block(&self, index: usize) -> (present: bool)
        ensures
            present == (index < self@.present.len() && self@.present[index as int]),
    {
        index < self.blocks.len() && self.blocks[index].is_some()
    }

    /// How similar the document is to the fragment, in millionths: the share
    /// of the document's chunks that the fragment covers at its alignment.
    pub fn similarity(&self, fragment: &[u8]) -> (r: u32)
        requires
            self.wf(),
        ensures
            r == similarity(self@, self.layout(), fragment@),
            r <= 1_000_000,
    {
        let (_, covered) = align(self.content.as_slice(), self.layout.chunk_size, fragment);
        let chunks = count_chunks(self.content.len(), self.layout.chunk_size);
        score_of(covered, chunks)
    }

    /// Rebuilds the document's content from the fragment and the blocks that
    /// are present, without reading the content for anything but to lay the
    /// fragment over it. Succeeds exactly when every stripe has `k` pieces at
    /// hand.
    pub fn reconstruct_from_fragment(&self, fragment: &[u8]) -> (r: Result<Vec<u8>, Error>)
        requires
            self.wf(),
        ensures
            same_outcome(r, rebuilt(self@, self.layout(), fragment@)),
    {
        let content = self.content.as_slice();
        let (offset, _) = align(content, self.layout.chunk_size, fragment);
        let supplied = supplied_pieces(content, &self.layout, fragment, offset);
        match recover(
            &self.blocks,
            &supplied,
            &self.layout,
            content.len(),
            Ghost(content@),
            Ghost(fragment@),
            Ghost(offset as int),
        ) {
            Some(bytes) => Ok(bytes),
            None => Err(Error::InsufficientRedundancy),
        }
    }
}

} // verus!
