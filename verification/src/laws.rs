//! What holds of the store and of the link graph whatever they contain.
//!
//! The statements are over the model of `model` and `propagation`, in
//! whose terms the contracts of the operations are written.

use crate::config::Config;
use crate::error::Error;
use crate::fragment::{alignment, cover_count, coverage, covers, lemma_overlap_is_largest, overlap};
use crate::layout::{chunk_count, lemma_chunk_start, stripe_count};
use crate::model::{
    fresh, next_version, rebuilt, reconstructed, written, DocumentView, StoreMap,
};
use crate::recover::{available_count, decodable, piece_available};
use vstd::arithmetic::div_mod::{lemma_basic_div, lemma_div_pos_is_pos};
use vstd::prelude::*;

verus! {

/// The number of blocks below `m` that are present.
pub open spec fn present_count(present: Seq<bool>, m: nat) -> nat
    decreases m,
{
    if m == 0 {
        0
    } else {
        present_count(present, (m - 1) as nat) + (if m - 1 < present.len() && present[m - 1] {
            1nat
        } else {
            0nat
        })
    }
}

/// The number of data pieces below `m` of stripe `s` whose chunks the
/// fragment covers at `offset`.
pub open spec fn stripe_coverage(
    content: Seq<u8>,
    cfg: Config,
    fragment: Seq<u8>,
    offset: int,
    s: int,
    m: nat,
) -> nat
    decreases m,
{
    if m == 0 {
        0
    } else {
        stripe_coverage(content, cfg, fragment, offset, s, (m - 1) as nat) + (if covers(
            content,
            cfg.chunk_size as nat,
            fragment,
            offset,
            s * cfg.k + (m - 1),
        ) {
            1nat
        } else {
            0nat
        })
    }
}

/// The parity blocks, the ones from `k` on, are all present.
pub open spec fn parity_present(present: Seq<bool>, cfg: Config) -> bool {
    &&& present.len() == cfg.n
    &&& forall|j: int| cfg.k <= j < cfg.n ==> #[trigger] present[j]
}

/// With a hint that names a document, reconstruction is rebuilding that
/// document.
pub proof fn hinted_reconstruction(m: StoreMap, cfg: Config, fragment: Seq<u8>, id: Seq<char>)
    requires
        m.contains_key(id),
    ensures
        reconstructed(m, cfg, fragment, Some(id)) == rebuilt(m[id], cfg, fragment),
{
}

/// Round trip: where every stripe of a document has `k` pieces at hand,
/// counting the present blocks and the chunks that the fragment covers,
/// reconstruction with the document's identifier as hint returns exactly
/// its content.
pub proof fn round_trip(m: StoreMap, cfg: Config, fragment: Seq<u8>, id: Seq<char>)
    requires
        m.contains_key(id),
        decodable(
            m[id].present,
            m[id].content,
            cfg,
            fragment,
            alignment(m[id].content, cfg.chunk_size as nat, fragment) as int,
        ),
    ensures
        reconstructed(m, cfg, fragment, Some(id)) == Ok::<Seq<u8>, Error>(m[id].content),
{
}

/// Erasure bound: where some stripe of the document has fewer than `k` of
/// its `n` pieces at hand, reconstruction fails with
/// `InsufficientRedundancy`.
pub proof fn erasure_bound(m: StoreMap, cfg: Config, fragment: Seq<u8>, id: Seq<char>, s: int)
    requires
        m.contains_key(id),
        0 <= s < stripe_count(m[id].content.len(), cfg),
        available_count(
            m[id].present,
            m[id].content,
            cfg,
            fragment,
            alignment(m[id].content, cfg.chunk_size as nat, fragment) as int,
            s,
            cfg.n as nat,
        ) < cfg.k,
    ensures
        reconstructed(m, cfg, fragment, Some(id)) == Err::<Seq<u8>, Error>(
            Error::InsufficientRedundancy,
        ),
{
}

/// No more pieces of a stripe are at hand than blocks are present and data
/// pieces are covered.
proof fn lemma_available_upper(
    present: Seq<bool>,
    content: Seq<u8>,
    cfg: Config,
    fragment: Seq<u8>,
    offset: int,
    s: int,
    m: nat,
)
    ensures
        available_count(present, content, cfg, fragment, offset, s, m) <= present_count(
            present,
            m,
        ) + stripe_coverage(content, cfg, fragment, offset, s, m),
    decreases m,
{
    if m > 0 {
        lemma_available_upper(present, content, cfg, fragment, offset, s, (m - 1) as nat);
    }
}

/// An empty fragment covers no chunk.
proof fn lemma_empty_covers_nothing(content: Seq<u8>, cfg: Config, offset: int, s: int, m: nat)
    requires
        cfg.valid(),
    ensures
        stripe_coverage(content, cfg, Seq::<u8>::empty(), offset, s, m) == 0,
    decreases m,
{
    if m > 0 {
        lemma_empty_covers_nothing(content, cfg, offset, s, (m - 1) as nat);
        let ch = s * cfg.k + (m - 1);
        let size = cfg.chunk_size as nat;
        if covers(content, size, Seq::<u8>::empty(), offset, ch) {
            lemma_chunk_start(content.len(), size, ch as nat);
            assert((ch + 1) * size == ch * size + size) by (nonlinear_arith);
        }
    }
}

/// Erasure bound, by blocks: with fewer than `k` blocks present and no
/// fragment to help, a document that is not empty cannot be rebuilt.
pub proof fn too_few_blocks(d: DocumentView, cfg: Config)
    requires
        cfg.valid(),
        d.content.len() > 0,
        present_count(d.present, cfg.n as nat) < cfg.k,
    ensures
        rebuilt(d, cfg, Seq::<u8>::empty()) == Err::<Seq<u8>, Error>(Error::InsufficientRedundancy),
{
    let f = Seq::<u8>::empty();
    let o = alignment(d.content, cfg.chunk_size as nat, f) as int;
    lemma_available_upper(d.present, d.content, cfg, f, o, 0, cfg.n as nat);
    lemma_empty_covers_nothing(d.content, cfg, o, 0, cfg.n as nat);
    assert(stripe_count(d.content.len(), cfg) > 0) by {
        let chunks = chunk_count(d.content.len(), cfg.chunk_size as nat);
        lemma_div_pos_is_pos(
            d.content.len() - 1,
            cfg.chunk_size as int,
        );
        lemma_div_pos_is_pos(chunks - 1, cfg.k as int);
    }
}

/// At least as many pieces of a stripe are at hand as blocks are present.
proof fn lemma_available_present(
    present: Seq<bool>,
    content: Seq<u8>,
    cfg: Config,
    fragment: Seq<u8>,
    offset: int,
    s: int,
    m: nat,
)
    ensures
        available_count(present, content, cfg, fragment, offset, s, m) >= present_count(
            present,
            m,
        ),
    decreases m,
{
    if m > 0 {
        lemma_available_present(present, content, cfg, fragment, offset, s, (m - 1) as nat);
    }
}

/// A count over all present blocks is their number.
proof fn lemma_all_present(present: Seq<bool>, m: nat)
    requires
        m <= present.len(),
        forall|j: int| 0 <= j < present.len() ==> present[j],
    ensures
        present_count(present, m) == m,
    decreases m,
{
    if m > 0 {
        lemma_all_present(present, (m - 1) as nat);
    }
}

/// A document with at least `k` blocks present is rebuilt whatever the
/// fragment is.
pub proof fn enough_blocks(d: DocumentView, cfg: Config, fragment: Seq<u8>)
    requires
        present_count(d.present, cfg.n as nat) >= cfg.k,
    ensures
        rebuilt(d, cfg, fragment) == Ok::<Seq<u8>, Error>(d.content),
{
    let o = alignment(d.content, cfg.chunk_size as nat, fragment) as int;
    assert forall|s: int| 0 <= s < stripe_count(d.content.len(), cfg) implies #[trigger] available_count(
        d.present,
        d.content,
        cfg,
        fragment,
        o,
        s,
        cfg.n as nat,
    ) >= cfg.k by {
        lemma_available_present(d.present, d.content, cfg, fragment, o, s, cfg.n as nat);
    }
}

/// A document just written is rebuilt whatever the fragment is.
pub proof fn written_document_is_rebuilt(
    m: StoreMap,
    cfg: Config,
    id: Seq<char>,
    content: Seq<u8>,
    fragment: Seq<u8>,
)
    requires
        cfg.valid(),
    ensures
        reconstructed(written(m, id, content, cfg.n as nat), cfg, fragment, Some(id)) == Ok::<
            Seq<u8>,
            Error,
        >(content),
{
    let d = fresh(content, next_version(m, id), cfg.n as nat);
    lemma_all_present(d.present, cfg.n as nat);
    enough_blocks(d, cfg, fragment);
}

/// With the parity blocks present, the pieces at hand are at least the
/// covered data pieces and the parity pieces.
proof fn lemma_available_lower(
    present: Seq<bool>,
    content: Seq<u8>,
    cfg: Config,
    fragment: Seq<u8>,
    offset: int,
    s: int,
    m: nat,
)
    requires
        cfg.valid(),
        parity_present(present, cfg),
        m <= cfg.n,
    ensures
        available_count(present, content, cfg, fragment, offset, s, m) >= (if m <= cfg.k {
            stripe_coverage(content, cfg, fragment, offset, s, m) as int
        } else {
            stripe_coverage(content, cfg, fragment, offset, s, cfg.k as nat) + (m - cfg.k)
        }),
    decreases m,
{
    if m > 0 {
        lemma_available_lower(present, content, cfg, fragment, offset, s, (m - 1) as nat);
        if m > cfg.k {
            assert(present[m - 1]);
        }
    }
}

/// Round trip from a covering fragment: where no parity block is lost and
/// the fragment, laid at its alignment, covers at least the share `k / n`
/// of the `k` chunks of every stripe, the document is rebuilt, though all
/// its data blocks be lost.
pub proof fn covering_fragment_suffices(d: DocumentView, cfg: Config, fragment: Seq<u8>)
    requires
        cfg.valid(),
        parity_present(d.present, cfg),
        forall|s: int|
            0 <= s < stripe_count(d.content.len(), cfg) ==> cfg.n * #[trigger] stripe_coverage(
                d.content,
                cfg,
                fragment,
                alignment(d.content, cfg.chunk_size as nat, fragment) as int,
                s,
                cfg.k as nat,
            ) >= cfg.k * cfg.k,
    ensures
        rebuilt(d, cfg, fragment) == Ok::<Seq<u8>, Error>(d.content),
{
    let o = alignment(d.content, cfg.chunk_size as nat, fragment) as int;
    assert forall|s: int| 0 <= s < stripe_count(d.content.len(), cfg) implies #[trigger] available_count(
        d.present,
        d.content,
        cfg,
        fragment,
        o,
        s,
        cfg.n as nat,
    ) >= cfg.k by {
        let c = stripe_coverage(d.content, cfg, fragment, o, s, cfg.k as nat);
        lemma_available_lower(d.present, d.content, cfg, fragment, o, s, cfg.n as nat);
        let k = cfg.k as int;
        let n = cfg.n as int;
        assert(c + (n - k) >= k) by (nonlinear_arith)
            requires
                n * c >= k * k,
                1 <= k <= n,
                c >= 0,
        ;
    }
}

/// In the first stripe, covered data pieces are covered chunks.
proof fn lemma_first_stripe_coverage(
    content: Seq<u8>,
    cfg: Config,
    fragment: Seq<u8>,
    offset: int,
    m: nat,
)
    ensures
        stripe_coverage(content, cfg, fragment, offset, 0, m) == cover_count(
            content,
            cfg.chunk_size as nat,
            fragment,
            offset,
            m,
        ),
    decreases m,
{
    if m > 0 {
        lemma_first_stripe_coverage(content, cfg, fragment, offset, (m - 1) as nat);
        assert(0 * cfg.k + (m - 1) == m - 1) by (nonlinear_arith);
    }
}

/// Round trip for a document of one stripe: where the document has exactly
/// `k` chunks and no parity block is lost, a fragment that covers, at some
/// offset, at least the share `k / n` of its chunks rebuilds it, though all
/// its data blocks be lost.
pub proof fn round_trip_one_stripe(d: DocumentView, cfg: Config, fragment: Seq<u8>, offset: int)
    requires
        cfg.valid(),
        parity_present(d.present, cfg),
        chunk_count(d.content.len(), cfg.chunk_size as nat) == cfg.k,
        cfg.n * coverage(d.content, cfg.chunk_size as nat, fragment, offset) >= cfg.k * chunk_count(
            d.content.len(),
            cfg.chunk_size as nat,
        ),
    ensures
        rebuilt(d, cfg, fragment) == Ok::<Seq<u8>, Error>(d.content),
{
    let size = cfg.chunk_size as nat;
    let o = alignment(d.content, size, fragment) as int;
    lemma_overlap_is_largest(d.content, size, fragment, offset);
    lemma_first_stripe_coverage(d.content, cfg, fragment, o, cfg.k as nat);
    assert(stripe_count(d.content.len(), cfg) == 1) by {
        lemma_basic_div(cfg.k - 1, cfg.k as int);
    }
    let c0 = coverage(d.content, size, fragment, offset);
    let c1 = overlap(d.content, size, fragment);
    assert(cfg.n * c1 >= cfg.k * cfg.k) by (nonlinear_arith)
        requires
            cfg.n * c0 >= cfg.k * cfg.k,
            c1 >= c0,
            cfg.n >= 0,
    ;
    covering_fragment_suffices(d, cfg, fragment);
}

/// Idempotent put: writing the same content twice moves the version on by
/// one each time and leaves the content as it is.
pub proof fn put_twice(m: StoreMap, id: Seq<char>, content: Seq<u8>, n: nat)
    ensures
        ({
            let once = written(m, id, content, n);
            let twice = written(once, id, content, n);
            &&& once[id].version == next_version(m, id)
            &&& twice[id].version == once[id].version + 1
            &&& twice[id].content == once[id].content
            &&& once[id].content == content
            &&& !once[id].held
            &&& twice.dom() == once.dom()
            &&& forall|other: Seq<char>| other != id ==> twice[other] == m[other]
        }),
{
    let once = written(m, id, content, n);
    let twice = written(once, id, content, n);
    assert(twice.dom() =~= once.dom());
}

} // verus!
