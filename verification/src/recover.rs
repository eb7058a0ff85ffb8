//! Rebuilding a document's content from the pieces that are at hand.
//!
//! A piece of a stripe is at hand when its block is present, or when it is
//! a data piece whose chunk the fragment covers. A stripe can be rebuilt
//! when at least `k` of its `n` pieces are at hand, and the content can be
//! rebuilt when every stripe can.

use crate::config::Config;
use crate::fragment::{covers, is_supplied, Supplied};
use crate::field::is_residue;
use crate::lagrange::{
    all_residues, combine, distinct_nodes, first_nodes, interp, ints, lemma_interp_recovers,
    weights, weights_at,
};
use crate::layout::{
    byte_index, chunk_count, count_chunks, data_column, data_symbol, is_block, is_piece,
    lemma_byte_index_next_piece, lemma_byte_index_next_stripe, lemma_byte_index_nonneg,
    lemma_chunk_past_end, lemma_data_column_residues, lemma_piece_symbol_residue, piece_symbol,
    stripe_count, Block,
};
use vstd::prelude::*;

verus! {

/// Piece `j` of stripe `s` is at hand: its block is present, or the
/// fragment covers the chunk that it is.
pub open spec fn piece_available(
    present: Seq<bool>,
    content: Seq<u8>,
    cfg: Config,
    fragment: Seq<u8>,
    offset: int,
    s: int,
    j: int,
) -> bool {
    ||| (0 <= j < present.len() && present[j])
    ||| (0 <= j < cfg.k && covers(
        content,
        cfg.chunk_size as nat,
        fragment,
        offset,
        s * cfg.k + j,
    ))
}

/// The number of pieces below `m` of stripe `s` that are at hand.
pub open spec fn available_count(
    present: Seq<bool>,
    content: Seq<u8>,
    cfg: Config,
    fragment: Seq<u8>,
    offset: int,
    s: int,
    m: nat,
) -> nat
    decreases m,
{
    if m == 0 {
        0
    } else {
        available_count(present, content, cfg, fragment, offset, s, (m - 1) as nat)
            + (if piece_available(present, content, cfg, fragment, offset, s, m - 1) {
            1nat
        } else {
            0nat
        })
    }
}

/// Every stripe of the content has at least `k` of its `n` pieces at hand.
pub open spec fn decodable(
    present: Seq<bool>,
    content: Seq<u8>,
    cfg: Config,
    fragment: Seq<u8>,
    offset: int,
) -> bool {
    forall|s: int|
        0 <= s < stripe_count(content.len(), cfg) ==> #[trigger] available_count(
            present,
            content,
            cfg,
            fragment,
            offset,
            s,
            cfg.n as nat,
        ) >= cfg.k
}

/// Which blocks are present.
pub open spec fn present_blocks(blocks: Seq<Option<Block>>) -> Seq<bool> {
    Seq::new(blocks.len(), |j: int| blocks[j] is Some)
}

/// The present blocks hold the encoding of the content.
pub open spec fn blocks_encode(blocks: Seq<Option<Block>>, content: Seq<u8>, cfg: Config) -> bool {
    &&& blocks.len() == cfg.n
    &&& forall|j: int|
        0 <= j < blocks.len() && (#[trigger] blocks[j]) is Some ==> is_block(
            blocks[j]->0,
            content,
            cfg,
            j,
        )
}

/// The nodes of the pieces of stripe `s` that are at hand, in rising order.
fn available_nodes(
    blocks: &Vec<Option<Block>>,
    row: &Vec<Option<Vec<u16>>>,
    cfg: &Config,
    Ghost(content): Ghost<Seq<u8>>,
    Ghost(fragment): Ghost<Seq<u8>>,
    Ghost(offset): Ghost<int>,
    Ghost(s): Ghost<int>,
) -> (nodes: Vec<u16>)
    requires
        cfg.valid(),
        blocks@.len() == cfg.n,
        row@.len() == cfg.k,
        forall|i: int|
            0 <= i < cfg.k ==> ((#[trigger] row@[i]) is Some <==> covers(
                content,
                cfg.chunk_size as nat,
                fragment,
                offset,
                s * cfg.k + i,
            )),
    ensures
        nodes@.len() == available_count(
            present_blocks(blocks@),
            content,
            *cfg,
            fragment,
            offset,
            s,
            cfg.n as nat,
        ),
        forall|m: int| 0 <= m < nodes@.len() ==> (#[trigger] nodes@[m]) < cfg.n,
        forall|m: int|
            0 <= m < nodes@.len() ==> blocks@[(#[trigger] nodes@[m]) as int] is Some || (nodes@[m]
                < cfg.k && row@[nodes@[m] as int] is Some),
        forall|a: int, b: int| 0 <= a < b < nodes@.len() ==> nodes@[a] < nodes@[b],
{
    let mut nodes: Vec<u16> = Vec::new();
    let mut j: usize = 0;
    while j < cfg.n
        invariant
            cfg.valid(),
            blocks@.len() == cfg.n,
            row@.len() == cfg.k,
            j <= cfg.n,
            forall|i: int|
                0 <= i < cfg.k ==> ((#[trigger] row@[i]) is Some <==> covers(
                    content,
                    cfg.chunk_size as nat,
                    fragment,
                    offset,
                    s * cfg.k + i,
                )),
            nodes@.len() == available_count(
                present_blocks(blocks@),
                content,
                *cfg,
                fragment,
                offset,
                s,
                j as nat,
            ),
            nodes@.len() <= j,
            forall|m: int| 0 <= m < nodes@.len() ==> (#[trigger] nodes@[m]) < j,
            forall|m: int|
                0 <= m < nodes@.len() ==> blocks@[(#[trigger] nodes@[m]) as int] is Some || (
                nodes@[m] < cfg.k && row@[nodes@[m] as int] is Some),
            forall|a: int, b: int| 0 <= a < b < nodes@.len() ==> nodes@[a] < nodes@[b],
        decreases cfg.n - j,
    {
        let stored = blocks[j].is_some();
        let given = j < cfg.k && row[j].is_some();
        assert((stored || given) == piece_available(
            present_blocks(blocks@),
            content,
            *cfg,
            fragment,
            offset,
            s,
            j as int,
        ));
        if stored || given {
            nodes.push(j as u16);
        }
        j += 1;
    }
    nodes
}

/// The symbol at byte `b` of the piece at `node`, from its block where that
/// is present, else from the fragment.
fn symbol_at(
    blocks: &Vec<Option<Block>>,
    row: &Vec<Option<Vec<u16>>>,
    cfg: &Config,
    s: usize,
    node: u16,
    b: usize,
    Ghost(content): Ghost<Seq<u8>>,
) -> (sym: u16)
    requires
        cfg.valid(),
        blocks_encode(blocks@, content, *cfg),
        s < stripe_count(content.len(), *cfg),
        row@.len() == cfg.k,
        forall|i: int|
            0 <= i < cfg.k && (#[trigger] row@[i]) is Some ==> is_piece(
                (row@[i]->0)@,
                content,
                *cfg,
                s as int,
                i,
            ),
        node < cfg.n,
        blocks@[node as int] is Some || (node < cfg.k && row@[node as int] is Some),
        b < cfg.chunk_size,
    ensures
        sym as int == piece_symbol(content, *cfg, s as int, node as int, b as int),
{
    match &blocks[node as usize] {
        Some(block) => {
            block[s][b]
        },
        None => {
            match &row[node as usize] {
                Some(piece) => piece[b],
                None => 0,
            }
        },
    }
}

/// The data of stripe `s`, rebuilt from the pieces at the `k` nodes given:
/// entry `t` holds the symbols of data piece `t`.
fn decode_stripe(
    blocks: &Vec<Option<Block>>,
    row: &Vec<Option<Vec<u16>>>,
    cfg: &Config,
    s: usize,
    nodes: &Vec<u16>,
    Ghost(content): Ghost<Seq<u8>>,
) -> (data: Vec<Vec<u16>>)
    requires
        cfg.valid(),
        blocks_encode(blocks@, content, *cfg),
        s < stripe_count(content.len(), *cfg),
        row@.len() == cfg.k,
        forall|i: int|
            0 <= i < cfg.k && (#[trigger] row@[i]) is Some ==> is_piece(
                (row@[i]->0)@,
                content,
                *cfg,
                s as int,
                i,
            ),
        nodes@.len() == cfg.k,
        forall|m: int| 0 <= m < nodes@.len() ==> (#[trigger] nodes@[m]) < cfg.n,
        forall|m: int|
            0 <= m < nodes@.len() ==> blocks@[(#[trigger] nodes@[m]) as int] is Some || (nodes@[m]
                < cfg.k && row@[nodes@[m] as int] is Some),
        forall|a: int, b: int| 0 <= a < b < nodes@.len() ==> nodes@[a] < nodes@[b],
    ensures
        data@.len() == cfg.k,
        forall|t: int| 0 <= t < cfg.k ==> (#[trigger] data@[t])@.len() == cfg.chunk_size,
        forall|t: int, b: int|
            0 <= t < cfg.k && 0 <= b < cfg.chunk_size ==> (#[trigger] data@[t]@[b]) as int
                == data_symbol(content, *cfg, s as int, t, b),
{
    proof {
        assert(distinct_nodes(ints(nodes@))) by {
            assert forall|m: int| 0 <= m < nodes@.len() implies is_residue(
                #[trigger] ints(nodes@)[m],
            ) by {
                assert(nodes@[m] < cfg.n);
            }
            assert forall|a: int, b: int|
                0 <= a < nodes@.len() && 0 <= b < nodes@.len() && a != b implies ints(nodes@)[a]
                != ints(nodes@)[b] by {
                if a < b {
                    assert(nodes@[a] < nodes@[b]);
                } else {
                    assert(nodes@[b] < nodes@[a]);
                }
            }
        }
    }
    // The symbols at hand, byte position by byte position.
    let mut columns: Vec<Vec<u16>> = Vec::new();
    let mut b: usize = 0;
    while b < cfg.chunk_size
        invariant
            cfg.valid(),
            blocks_encode(blocks@, content, *cfg),
            s < stripe_count(content.len(), *cfg),
            row@.len() == cfg.k,
            forall|i: int|
                0 <= i < cfg.k && (#[trigger] row@[i]) is Some ==> is_piece(
                    (row@[i]->0)@,
                    content,
                    *cfg,
                    s as int,
                    i,
                ),
            nodes@.len() == cfg.k,
            forall|m: int| 0 <= m < nodes@.len() ==> (#[trigger] nodes@[m]) < cfg.n,
            forall|m: int|
                0 <= m < nodes@.len() ==> blocks@[(#[trigger] nodes@[m]) as int] is Some || (
                nodes@[m] < cfg.k && row@[nodes@[m] as int] is Some),
            b <= cfg.chunk_size,
            columns@.len() == b,
            forall|b1: int| 0 <= b1 < b ==> (#[trigger] columns@[b1])@.len() == cfg.k,
            forall|b1: int, m: int|
                0 <= b1 < b && 0 <= m < cfg.k ==> (#[trigger] columns@[b1]@[m]) as int
                    == piece_symbol(content, *cfg, s as int, nodes@[m] as int, b1),
        decreases cfg.chunk_size - b,
    {
        let mut col: Vec<u16> = Vec::new();
        let mut m: usize = 0;
        while m < cfg.k
            invariant
                cfg.valid(),
                blocks_encode(blocks@, content, *cfg),
                s < stripe_count(content.len(), *cfg),
                row@.len() == cfg.k,
                forall|i: int|
                    0 <= i < cfg.k && (#[trigger] row@[i]) is Some ==> is_piece(
                        (row@[i]->0)@,
                        content,
                        *cfg,
                        s as int,
                        i,
                    ),
                nodes@.len() == cfg.k,
                forall|m1: int| 0 <= m1 < nodes@.len() ==> (#[trigger] nodes@[m1]) < cfg.n,
                forall|m1: int|
                    0 <= m1 < nodes@.len() ==> blocks@[(#[trigger] nodes@[m1]) as int] is Some || (
                    nodes@[m1] < cfg.k && row@[nodes@[m1] as int] is Some),
                b < cfg.chunk_size,
                m <= cfg.k,
                col@.len() == m,
                forall|m1: int|
                    0 <= m1 < m ==> (#[trigger] col@[m1]) as int == piece_symbol(
                        content,
                        *cfg,
                        s as int,
                        nodes@[m1] as int,
                        b as int,
                    ),
            decreases cfg.k - m,
        {
            let sym = symbol_at(blocks, row, cfg, s, nodes[m], b, Ghost(content));
            col.push(sym);
            m += 1;
        }
        columns.push(col);
        b += 1;
    }
    let mut data: Vec<Vec<u16>> = Vec::new();
    let mut t: usize = 0;
    while t < cfg.k
        invariant
            cfg.valid(),
            distinct_nodes(ints(nodes@)),
            nodes@.len() == cfg.k,
            t <= cfg.k,
            columns@.len() == cfg.chunk_size,
            forall|b1: int|
                0 <= b1 < cfg.chunk_size ==> (#[trigger] columns@[b1])@.len() == cfg.k,
            forall|b1: int, m: int|
                0 <= b1 < cfg.chunk_size && 0 <= m < cfg.k ==> (#[trigger] columns@[b1]@[m]) as int
                    == piece_symbol(content, *cfg, s as int, nodes@[m] as int, b1),
            data@.len() == t,
            forall|t1: int| 0 <= t1 < t ==> (#[trigger] data@[t1])@.len() == cfg.chunk_size,
            forall|t1: int, b1: int|
                0 <= t1 < t && 0 <= b1 < cfg.chunk_size ==> (#[trigger] data@[t1]@[b1]) as int
                    == data_symbol(content, *cfg, s as int, t1, b1),
        decreases cfg.k - t,
    {
        let w = weights_at(nodes, t as u16);
        let mut chunk: Vec<u16> = Vec::new();
        let mut b: usize = 0;
        while b < cfg.chunk_size
            invariant
                cfg.valid(),
                distinct_nodes(ints(nodes@)),
                nodes@.len() == cfg.k,
                t < cfg.k,
                w@.len() == cfg.k,
                ints(w@) == weights(ints(nodes@), t as int),
                all_residues(ints(w@)),
                columns@.len() == cfg.chunk_size,
                forall|b1: int|
                    0 <= b1 < cfg.chunk_size ==> (#[trigger] columns@[b1])@.len() == cfg.k,
                forall|b1: int, m: int|
                    0 <= b1 < cfg.chunk_size && 0 <= m < cfg.k ==> (
                    #[trigger] columns@[b1]@[m]) as int == piece_symbol(
                        content,
                        *cfg,
                        s as int,
                        nodes@[m] as int,
                        b1,
                    ),
                b <= cfg.chunk_size,
                chunk@.len() == b,
                forall|b1: int|
                    0 <= b1 < b ==> (#[trigger] chunk@[b1]) as int == data_symbol(
                        content,
                        *cfg,
                        s as int,
                        t as int,
                        b1,
                    ),
            decreases cfg.chunk_size - b,
        {
            let col = &columns[b];
            proof {
                let d = data_column(content, *cfg, s as int, b as int);
                let xs = ints(nodes@);
                let ys = ints(col@);
                lemma_data_column_residues(content, *cfg, s as int, b as int);
                assert forall|m: int| 0 <= m < ys.len() implies is_residue(
                    #[trigger] ys[m],
                ) by {
                    assert(col@[m] as int == piece_symbol(
                        content,
                        *cfg,
                        s as int,
                        nodes@[m] as int,
                        b as int,
                    ));
                    lemma_piece_symbol_residue(content, *cfg, s as int, nodes@[m] as int, b as int);
                }
                assert forall|m: int| 0 <= m < xs.len() implies #[trigger] ys[m]
                    == interp(
                    first_nodes(d.len()),
                    d,
                    xs[m],
                ) by {
                    assert(col@[m] as int == piece_symbol(
                        content,
                        *cfg,
                        s as int,
                        nodes@[m] as int,
                        b as int,
                    ));
                }
                lemma_interp_recovers(d, xs, ys, t as int);
            }
            let sym = combine(col, &w);
            chunk.push(sym);
            b += 1;
        }
        data.push(chunk);
        t += 1;
    }
    data
}

/// Rebuilds the content from the present blocks and the pieces that the
/// fragment supplies: the content where every stripe has `k` pieces at
/// hand, else nothing.
pub(crate) fn recover(
    blocks: &Vec<Option<Block>>,
    supplied: &Supplied,
    cfg: &Config,
    len: usize,
    Ghost(content): Ghost<Seq<u8>>,
    Ghost(fragment): Ghost<Seq<u8>>,
    Ghost(offset): Ghost<int>,
) -> (r: Option<Vec<u8>>)
    requires
        cfg.valid(),
        len == content.len(),
        blocks_encode(blocks@, content, *cfg),
        is_supplied(*supplied, content, *cfg, fragment, offset),
    ensures
        r is Some <==> decodable(present_blocks(blocks@), content, *cfg, fragment, offset),
        r is Some ==> (r->0)@ == content,
{
    let chunks = count_chunks(len, cfg.chunk_size);
    let stripes = count_chunks(chunks, cfg.k);
    let mut out: Vec<u8> = Vec::new();
    let mut s: usize = 0;
    assert(byte_index(*cfg, 0, 0, 0) == 0) by (nonlinear_arith);
    while s < stripes
        invariant
            cfg.valid(),
            len == content.len(),
            blocks_encode(blocks@, content, *cfg),
            is_supplied(*supplied, content, *cfg, fragment, offset),
            chunks == chunk_count(len as nat, cfg.chunk_size as nat),
            stripes == stripe_count(len as nat, *cfg),
            s <= stripes,
            out@.len() == (if byte_index(*cfg, s as int, 0, 0) < len {
                byte_index(*cfg, s as int, 0, 0)
            } else {
                len as int
            }),
            out@ == content.subrange(0, out@.len() as int),
            forall|s1: int|
                0 <= s1 < s ==> #[trigger] available_count(
                    present_blocks(blocks@),
                    content,
                    *cfg,
                    fragment,
                    offset,
                    s1,
                    cfg.n as nat,
                ) >= cfg.k,
        decreases stripes - s,
    {
        let row = &supplied[s];
        let mut nodes = available_nodes(
            blocks,
            row,
            cfg,
            Ghost(content),
            Ghost(fragment),
            Ghost(offset),
            Ghost(s as int),
        );
        if nodes.len() < cfg.k {
            return None;
        }
        nodes.truncate(cfg.k);
        let data = decode_stripe(blocks, row, cfg, s, &nodes, Ghost(content));
        let mut t: usize = 0;
        while t < cfg.k
            invariant
                cfg.valid(),
                len == content.len(),
                t <= cfg.k,
                data@.len() == cfg.k,
                forall|t1: int| 0 <= t1 < cfg.k ==> (#[trigger] data@[t1])@.len() == cfg.chunk_size,
                forall|t1: int, b1: int|
                    0 <= t1 < cfg.k && 0 <= b1 < cfg.chunk_size ==> (
                    #[trigger] data@[t1]@[b1]) as int == data_symbol(
                        content,
                        *cfg,
                        s as int,
                        t1,
                        b1,
                    ),
                out@.len() == (if byte_index(*cfg, s as int, t as int, 0) < len {
                    byte_index(*cfg, s as int, t as int, 0)
                } else {
                    len as int
                }),
                out@ == content.subrange(0, out@.len() as int),
            decreases cfg.k - t,
        {
            let mut b: usize = 0;
            while b < cfg.chunk_size
                invariant
                    cfg.valid(),
                    len == content.len(),
                    t < cfg.k,
                    b <= cfg.chunk_size,
                    data@.len() == cfg.k,
                    (data@[t as int])@.len() == cfg.chunk_size,
                    forall|b1: int|
                        0 <= b1 < cfg.chunk_size ==> (#[trigger] data@[t as int]@[b1]) as int
                            == data_symbol(content, *cfg, s as int, t as int, b1),
                    out@.len() == (if byte_index(*cfg, s as int, t as int, b as int) < len {
                        byte_index(*cfg, s as int, t as int, b as int)
                    } else {
                        len as int
                    }),
                    out@ == content.subrange(0, out@.len() as int),
                decreases cfg.chunk_size - b,
            {
                proof {
                    lemma_byte_index_nonneg(*cfg, s as int, t as int, b as int);
                }
                if out.len() < len {
                    let sym = data[t][b];
                    out.push(sym as u8);
                }
                b += 1;
            }
            proof {
                lemma_byte_index_next_piece(*cfg, s as int, t as int);
            }
            t += 1;
        }
        proof {
            lemma_byte_index_next_stripe(*cfg, s as int);
        }
        s += 1;
    }
    proof {
        lemma_chunk_past_end(chunks as nat, cfg.k as nat, stripes as nat);
        lemma_chunk_past_end(len as nat, cfg.chunk_size as nat, chunks as nat);
        assert(byte_index(*cfg, stripes as int, 0, 0) >= len) by (nonlinear_arith)
            requires
                stripes * cfg.k >= chunks,
                chunks * cfg.chunk_size >= len,
                cfg.chunk_size >= 0,
                byte_index(*cfg, stripes as int, 0, 0) == (stripes * cfg.k + 0) * cfg.chunk_size + 0,
        ;
    }
    Some(out)
}

} // verus!
