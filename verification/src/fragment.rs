//! How a fragment lies over a document's content.
//!
//! A fragment laid at a byte offset covers a chunk of the content when it
//! reaches over the whole chunk and holds the chunk's bytes there. The
//! overlap of a fragment with a document is the largest number of chunks
//! that it covers at any offset; the alignment is the first offset at which
//! it covers that many.

use crate::config::Config;
use crate::layout::{
    byte_index, chunk_count, count_chunks, data_symbol, is_piece, lemma_chunk_start,
    lemma_systematic, piece_symbol, stripe_count,
};
use vstd::prelude::*;

verus! {

/// The index after the last byte of chunk `ch`.
pub open spec fn chunk_end(len: nat, size: nat, ch: int) -> int {
    if (ch + 1) * size < len {
        (ch + 1) * size
    } else {
        len as int
    }
}

/// The fragment, laid at `offset`, reaches over chunk `ch` of the content
/// and agrees with it there.
pub open spec fn covers(
    content: Seq<u8>,
    size: nat,
    fragment: Seq<u8>,
    offset: int,
    ch: int,
) -> bool {
    &&& 0 <= ch < chunk_count(content.len(), size)
    &&& 0 <= offset <= ch * size
    &&& chunk_end(content.len(), size, ch) <= offset + fragment.len()
    &&& forall|x: int|
        ch * size <= x < chunk_end(content.len(), size, ch) ==> fragment[x - offset]
            == #[trigger] content[x]
}

/// The number of chunks below `m` that the fragment covers at `offset`.
pub open spec fn cover_count(
    content: Seq<u8>,
    size: nat,
    fragment: Seq<u8>,
    offset: int,
    m: nat,
) -> nat
    decreases m,
{
    if m == 0 {
        0
    } else {
        cover_count(content, size, fragment, offset, (m - 1) as nat) + (if covers(
            content,
            size,
            fragment,
            offset,
            m - 1,
        ) {
            1nat
        } else {
            0nat
        })
    }
}

/// The number of chunks of the content that the fragment covers at
/// `offset`.
pub open spec fn coverage(content: Seq<u8>, size: nat, fragment: Seq<u8>, offset: int) -> nat {
    cover_count(content, size, fragment, offset, chunk_count(content.len(), size))
}

/// The first offset among `0..=m` at which the fragment covers the most
/// chunks.
pub open spec fn best_offset(content: Seq<u8>, size: nat, fragment: Seq<u8>, m: nat) -> nat
    decreases m,
{
    if m == 0 {
        0
    } else {
        let p = best_offset(content, size, fragment, (m - 1) as nat);
        if coverage(content, size, fragment, m as int) > coverage(
            content,
            size,
            fragment,
            p as int,
        ) {
            m
        } else {
            p
        }
    }
}

/// The offset at which the fragment is laid over the content.
pub open spec fn alignment(content: Seq<u8>, size: nat, fragment: Seq<u8>) -> nat {
    best_offset(content, size, fragment, content.len())
}

/// The number of chunks of the content that the fragment covers when laid
/// at its alignment.
pub open spec fn overlap(content: Seq<u8>, size: nat, fragment: Seq<u8>) -> nat {
    coverage(content, size, fragment, alignment(content, size, fragment) as int)
}

/// No more chunks are covered among the first `m` than there are.
pub proof fn lemma_cover_count_bound(
    content: Seq<u8>,
    size: nat,
    fragment: Seq<u8>,
    offset: int,
    m: nat,
)
    ensures
        cover_count(content, size, fragment, offset, m) <= m,
    decreases m,
{
    if m > 0 {
        lemma_cover_count_bound(content, size, fragment, offset, (m - 1) as nat);
    }
}

/// The best offset among `0..=m` is one of them, and no offset among them
/// covers more.
pub proof fn lemma_best_offset(content: Seq<u8>, size: nat, fragment: Seq<u8>, m: nat, o: int)
    requires
        0 <= o <= m,
    ensures
        best_offset(content, size, fragment, m) <= m,
        coverage(content, size, fragment, o) <= coverage(
            content,
            size,
            fragment,
            best_offset(content, size, fragment, m) as int,
        ),
    decreases m,
{
    if m > 0 {
        if o < m {
            lemma_best_offset(content, size, fragment, (m - 1) as nat, o);
        } else {
            lemma_best_offset(content, size, fragment, (m - 1) as nat, 0);
        }
    }
}

/// No offset covers more chunks than the overlap.
pub proof fn lemma_overlap_is_largest(content: Seq<u8>, size: nat, fragment: Seq<u8>, o: int)
    requires
        size > 0,
    ensures
        coverage(content, size, fragment, o) <= overlap(content, size, fragment),
        overlap(content, size, fragment) <= chunk_count(content.len(), size),
{
    lemma_cover_count_bound(
        content,
        size,
        fragment,
        alignment(content, size, fragment) as int,
        chunk_count(content.len(), size),
    );
    if 0 <= o <= content.len() {
        lemma_best_offset(content, size, fragment, content.len(), o);
    } else {
        lemma_nothing_covered(content, size, fragment, o, chunk_count(content.len(), size));
    }
}

/// At an offset before the content or past its end nothing is covered.
proof fn lemma_nothing_covered(
    content: Seq<u8>,
    size: nat,
    fragment: Seq<u8>,
    offset: int,
    m: nat,
)
    requires
        size > 0,
        offset < 0 || offset > content.len(),
        m <= chunk_count(content.len(), size),
    ensures
        cover_count(content, size, fragment, offset, m) == 0,
    decreases m,
{
    if m > 0 {
        lemma_nothing_covered(content, size, fragment, offset, (m - 1) as nat);
        lemma_chunk_start(content.len(), size, (m - 1) as nat);
    }
}

/// Whether the fragment, laid at `offset`, covers chunk `ch`.
pub fn covers_chunk(content: &[u8], size: usize, fragment: &[u8], offset: usize, ch: usize) -> (r:
    bool)
    requires
        size > 0,
        ch < chunk_count(content@.len(), size as nat),
    ensures
        r == covers(content@, size as nat, fragment@, offset as int, ch as int),
{
    let len = content.len();
    proof {
        lemma_chunk_start(len as nat, size as nat, ch as nat);
        assert((ch + 1) * size == ch * size + size) by (nonlinear_arith);
    }
    let start: usize = ch * size;
    let end: usize = if len - start <= size {
        len
    } else {
        start + size
    };
    if offset > start || end - offset > fragment.len() {
        return false;
    }
    let mut x: usize = start;
    while x < end
        invariant
            offset <= start <= x <= end <= len,
            len == content@.len(),
            end - offset <= fragment@.len(),
            start == ch * size,
            end == chunk_end(len as nat, size as nat, ch as int),
            ch < chunk_count(content@.len(), size as nat),
            forall|y: int| start <= y < x ==> fragment@[y - offset] == #[trigger] content@[y],
        decreases end - x,
    {
        if fragment[x - offset] != content[x] {
            return false;
        }
        x += 1;
    }
    true
}

/// The number of chunks that the fragment covers at `offset`.
pub fn coverage_at(content: &[u8], size: usize, fragment: &[u8], offset: usize) -> (r: usize)
    requires
        size > 0,
    ensures
        r == coverage(content@, size as nat, fragment@, offset as int),
        r <= chunk_count(content@.len(), size as nat),
{
    let chunks = count_chunks(content.len(), size);
    let mut count: usize = 0;
    let mut ch: usize = 0;
    while ch < chunks
        invariant
            size > 0,
            ch <= chunks,
            chunks == chunk_count(content@.len(), size as nat),
            count <= ch,
            count == cover_count(content@, size as nat, fragment@, offset as int, ch as nat),
        decreases chunks - ch,
    {
        if covers_chunk(content, size, fragment, offset, ch) {
            count += 1;
        }
        ch += 1;
    }
    count
}

/// Lays the fragment over the content: the alignment and the overlap.
pub fn align(content: &[u8], size: usize, fragment: &[u8]) -> (r: (usize, usize))
    requires
        size > 0,
    ensures
        r.0 == alignment(content@, size as nat, fragment@),
        r.1 == overlap(content@, size as nat, fragment@),
        r.0 <= content@.len(),
        r.1 <= chunk_count(content@.len(), size as nat),
{
    let len = content.len();
    let mut best: usize = 0;
    let mut best_count: usize = coverage_at(content, size, fragment, 0);
    let mut o: usize = 0;
    while o < len
        invariant
            size > 0,
            len == content@.len(),
            o <= len,
            best <= o,
            best == best_offset(content@, size as nat, fragment@, o as nat),
            best_count == coverage(content@, size as nat, fragment@, best as int),
            best_count <= chunk_count(content@.len(), size as nat),
        decreases len - o,
    {
        o += 1;
        let c = coverage_at(content, size, fragment, o);
        if c > best_count {
            best = o;
            best_count = c;
        }
    }
    (best, best_count)
}

/// A piece as the fragment supplies it: for each data piece of each stripe,
/// its symbols where the fragment covers the piece's chunk.
pub type Supplied = Vec<Vec<Option<Vec<u16>>>>;

/// `supplied` holds, for the fragment laid at `offset`, the data pieces
/// whose chunks it covers, and no others.
pub open spec fn is_supplied(
    supplied: Supplied,
    content: Seq<u8>,
    cfg: Config,
    fragment: Seq<u8>,
    offset: int,
) -> bool {
    &&& supplied@.len() == stripe_count(content.len(), cfg)
    &&& forall|s: int|
        0 <= s < supplied@.len() ==> (#[trigger] supplied@[s])@.len() == cfg.k
    &&& forall|s: int, i: int|
        0 <= s < supplied@.len() && 0 <= i < cfg.k ==> ((#[trigger] supplied@[s]@[i]) is Some
            <==> covers(content, cfg.chunk_size as nat, fragment, offset, s * cfg.k + i))
    &&& forall|s: int, i: int|
        0 <= s < supplied@.len() && 0 <= i < cfg.k && (#[trigger] supplied@[s]@[i]) is Some
            ==> is_piece((supplied@[s]@[i]->0)@, content, cfg, s, i)
}

/// The symbols of chunk `ch` as the fragment, laid at `offset`, holds them,
/// padded with zeros to a whole chunk.
fn chunk_from_fragment(
    fragment: &[u8],
    cfg: &Config,
    len: usize,
    offset: usize,
    ch: usize,
    Ghost(content): Ghost<Seq<u8>>,
    Ghost(s): Ghost<int>,
    Ghost(i): Ghost<int>,
) -> (piece: Vec<u16>)
    requires
        cfg.valid(),
        len == content.len(),
        covers(content, cfg.chunk_size as nat, fragment@, offset as int, ch as int),
        0 <= s,
        0 <= i < cfg.k,
        ch == s * cfg.k + i,
    ensures
        is_piece(piece@, content, *cfg, s, i),
{
    proof {
        lemma_chunk_start(len as nat, cfg.chunk_size as nat, ch as nat);
        assert((ch + 1) * cfg.chunk_size == ch * cfg.chunk_size + cfg.chunk_size)
            by (nonlinear_arith);
    }
    let start: usize = ch * cfg.chunk_size;
    let mut piece: Vec<u16> = Vec::new();
    let mut b: usize = 0;
    while b < cfg.chunk_size
        invariant
            cfg.valid(),
            len == content.len(),
            covers(content, cfg.chunk_size as nat, fragment@, offset as int, ch as int),
            start == ch * cfg.chunk_size,
            start < len,
            (ch + 1) * cfg.chunk_size == start + cfg.chunk_size,
            ch == s * cfg.k + i,
            b <= cfg.chunk_size,
            piece@.len() == b,
            forall|b1: int|
                0 <= b1 < b ==> (#[trigger] piece@[b1]) as int == data_symbol(
                    content,
                    *cfg,
                    s,
                    i,
                    b1,
                ),
        decreases cfg.chunk_size - b,
    {
        assert(byte_index(*cfg, s, i, b as int) == start + b);
        if b < len - start {
            let x: usize = start + b;
            piece.push(fragment[x - offset] as u16);
        } else {
            piece.push(0);
        }
        b += 1;
    }
    proof {
        assert forall|b1: int| 0 <= b1 < cfg.chunk_size implies (#[trigger] piece@[b1]) as int
            == piece_symbol(content, *cfg, s, i, b1) by {
            lemma_systematic(content, *cfg, s, i, b1);
        }
    }
    piece
}

/// The data pieces that the fragment, laid at `offset`, supplies.
pub fn supplied_pieces(content: &[u8], cfg: &Config, fragment: &[u8], offset: usize) -> (supplied:
    Supplied)
    requires
        cfg.valid(),
    ensures
        is_supplied(supplied, content@, *cfg, fragment@, offset as int),
{
    let len = content.len();
    let chunks = count_chunks(len, cfg.chunk_size);
    let stripes = count_chunks(chunks, cfg.k);
    let mut supplied: Supplied = Vec::new();
    let mut s: usize = 0;
    while s < stripes
        invariant
            cfg.valid(),
            len == content@.len(),
            chunks == chunk_count(len as nat, cfg.chunk_size as nat),
            stripes == stripe_count(len as nat, *cfg),
            s <= stripes,
            supplied@.len() == s,
            forall|s1: int| 0 <= s1 < s ==> (#[trigger] supplied@[s1])@.len() == cfg.k,
            forall|s1: int, i: int|
                0 <= s1 < s && 0 <= i < cfg.k ==> ((#[trigger] supplied@[s1]@[i]) is Some
                    <==> covers(
                    content@,
                    cfg.chunk_size as nat,
                    fragment@,
                    offset as int,
                    s1 * cfg.k + i,
                )),
            forall|s1: int, i: int|
                0 <= s1 < s && 0 <= i < cfg.k && (#[trigger] supplied@[s1]@[i]) is Some
                    ==> is_piece((supplied@[s1]@[i]->0)@, content@, *cfg, s1, i),
        decreases stripes - s,
    {
        proof {
            lemma_chunk_start(chunks as nat, cfg.k as nat, s as nat);
        }
        let first: usize = s * cfg.k;
        let mut row: Vec<Option<Vec<u16>>> = Vec::new();
        let mut i: usize = 0;
        while i < cfg.k
            invariant
                cfg.valid(),
                len == content@.len(),
                chunks == chunk_count(len as nat, cfg.chunk_size as nat),
                first == s * cfg.k,
                first < chunks,
                i <= cfg.k,
                row@.len() == i,
                forall|i1: int|
                    0 <= i1 < i ==> ((#[trigger] row@[i1]) is Some <==> covers(
                        content@,
                        cfg.chunk_size as nat,
                        fragment@,
                        offset as int,
                        s * cfg.k + i1,
                    )),
                forall|i1: int|
                    0 <= i1 < i && (#[trigger] row@[i1]) is Some ==> is_piece(
                        (row@[i1]->0)@,
                        content@,
                        *cfg,
                        s as int,
                        i1,
                    ),
            decreases cfg.k - i,
        {
            let mut entry: Option<Vec<u16>> = None;
            if i < chunks - first {
                let ch: usize = first + i;
                if covers_chunk(content, cfg.chunk_size, fragment, offset, ch) {
                    entry = Some(
                        chunk_from_fragment(
                            fragment,
                            cfg,
                            len,
                            offset,
                            ch,
                            Ghost(content@),
                            Ghost(s as int),
                            Ghost(i as int),
                        ),
                    );
                }
            }
            row.push(entry);
            i += 1;
        }
        supplied.push(row);
        s += 1;
    }
    supplied
}

} // verus!
