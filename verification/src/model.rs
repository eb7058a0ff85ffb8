//! The mathematical model of a store, over which the contracts are stated.
//!
//! A store is a map from identifiers to documents. Of a document the model
//! keeps its content, its version, which of its blocks are present, and
//! whether a writer holds it. What the present blocks contain is determined
//! by the content, so the model does not repeat it.

use crate::config::Config;
use crate::error::Error;
use crate::fragment::{alignment, overlap};
use crate::ident::{id_less, lemma_id_order};
use crate::layout::chunk_count;
use crate::recover::decodable;
use vstd::prelude::*;

verus! {

/// A document as the contracts see it.
pub struct DocumentView {
    /// The bytes of the document.
    pub content: Seq<u8>,
    /// How many times the document has been written.
    pub version: nat,
    /// For each of the `n` blocks, whether it is present.
    pub present: Seq<bool>,
    /// Whether a writer holds the document's lock.
    pub held: bool,
}

/// A store as the contracts see it.
pub type StoreMap = Map<Seq<char>, DocumentView>;

/// A document is held by a writer, so that it cannot be written now.
pub open spec fn blocked(m: StoreMap, id: Seq<char>) -> bool {
    m.contains_key(id) && m[id].held
}

/// The version that the next write gives the document: one more than it
/// has, or 1 for a document that does not exist yet.
pub open spec fn next_version(m: StoreMap, id: Seq<char>) -> nat {
    if m.contains_key(id) {
        m[id].version + 1
    } else {
        1
    }
}

/// A document just written: all `n` blocks present, no writer holding it.
pub open spec fn fresh(content: Seq<u8>, version: nat, n: nat) -> DocumentView {
    DocumentView { content, version, present: Seq::new(n, |j: int| true), held: false }
}

/// The store after `content` has been written to `id`.
pub open spec fn written(m: StoreMap, id: Seq<char>, content: Seq<u8>, n: nat) -> StoreMap {
    m.insert(id, fresh(content, next_version(m, id), n))
}

/// The share of `chunks` that `covered` is, in millionths, rounded down; 0
/// where there are no chunks.
pub open spec fn score(covered: nat, chunks: nat) -> nat {
    if chunks == 0 {
        0
    } else {
        (covered * 1_000_000 / chunks) as nat
    }
}

/// The similarity of a document to a fragment: the number of its chunks
/// that the fragment covers, as a share of all its chunks.
pub open spec fn similarity(d: DocumentView, cfg: Config, fragment: Seq<u8>) -> nat {
    score(
        overlap(d.content, cfg.chunk_size as nat, fragment),
        chunk_count(d.content.len(), cfg.chunk_size as nat),
    )
}

/// What rebuilding a document with the help of a fragment yields: its
/// content where every stripe has `k` pieces at hand, counting the present
/// blocks and the chunks that the fragment covers at its alignment.
pub open spec fn rebuilt(d: DocumentView, cfg: Config, fragment: Seq<u8>) -> Result<
    Seq<u8>,
    Error,
> {
    if decodable(
        d.present,
        d.content,
        cfg,
        fragment,
        alignment(d.content, cfg.chunk_size as nat, fragment) as int,
    ) {
        Ok(d.content)
    } else {
        Err(Error::InsufficientRedundancy)
    }
}

/// `id` is the best match for the fragment: every other document is less
/// similar, or as similar with a later identifier.
pub open spec fn is_best(m: StoreMap, cfg: Config, fragment: Seq<u8>, id: Seq<char>) -> bool {
    &&& m.contains_key(id)
    &&& forall|o: Seq<char>|
        #![trigger m.contains_key(o)]
        m.contains_key(o) && o != id ==> similarity(m[o], cfg, fragment) < similarity(
            m[id],
            cfg,
            fragment,
        ) || (similarity(m[o], cfg, fragment) == similarity(m[id], cfg, fragment) && id_less(
            id,
            o,
        ))
}

/// Some other document is within the similarity margin of `id`.
pub open spec fn is_ambiguous(m: StoreMap, cfg: Config, fragment: Seq<u8>, id: Seq<char>) -> bool {
    exists|o: Seq<char>|
        #![trigger m.contains_key(o)]
        m.contains_key(o) && o != id && similarity(m[id], cfg, fragment) - similarity(
            m[o],
            cfg,
            fragment,
        ) < cfg.similarity_margin
}

/// No document shares a whole chunk with the fragment.
pub open spec fn nothing_matches(m: StoreMap, cfg: Config, fragment: Seq<u8>) -> bool {
    forall|o: Seq<char>|
        #![trigger m.contains_key(o)]
        m.contains_key(o) ==> similarity(m[o], cfg, fragment) == 0
}

/// The document against which a fragment is rebuilt. With a hint it is the
/// hinted document, if there is one. Without, it is the best match, unless
/// nothing matches or another document is within the margin of the best.
pub open spec fn candidate(
    m: StoreMap,
    cfg: Config,
    fragment: Seq<u8>,
    hint: Option<Seq<char>>,
) -> Result<Seq<char>, Error> {
    match hint {
        Some(id) => if m.contains_key(id) {
            Ok(id)
        } else {
            Err(Error::NoMatch)
        },
        None => if nothing_matches(m, cfg, fragment) {
            Err(Error::NoMatch)
        } else {
            let best = choose|id: Seq<char>| is_best(m, cfg, fragment, id);
            if is_ambiguous(m, cfg, fragment, best) {
                Err(Error::AmbiguousMatch)
            } else {
                Ok(best)
            }
        },
    }
}

/// What reconstruction from a fragment yields.
pub open spec fn reconstructed(
    m: StoreMap,
    cfg: Config,
    fragment: Seq<u8>,
    hint: Option<Seq<char>>,
) -> Result<Seq<u8>, Error> {
    match candidate(m, cfg, fragment, hint) {
        Ok(id) => rebuilt(m[id], cfg, fragment),
        Err(e) => Err(e),
    }
}

/// The bytes returned are the ones expected, or the error is.
pub open spec fn same_outcome(r: Result<Vec<u8>, Error>, expected: Result<Seq<u8>, Error>) -> bool {
    match (r, expected) {
        (Ok(v), Ok(c)) => v@ == c,
        (Err(e), Err(x)) => e == x,
        _ => false,
    }
}

/// There is at most one best match.
pub proof fn lemma_best_unique(
    m: StoreMap,
    cfg: Config,
    fragment: Seq<u8>,
    a: Seq<char>,
    b: Seq<char>,
)
    requires
        is_best(m, cfg, fragment, a),
        is_best(m, cfg, fragment, b),
    ensures
        a == b,
{
    if a != b {
        lemma_id_order(a, b);
    }
}

} // verus!
