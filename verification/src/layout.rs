//! How a document's content is laid out in chunks, stripes and pieces.
//!
//! The content is cut into chunks of `chunk_size` bytes, the last one padded
//! with zeros. Every `k` consecutive chunks form a stripe, the last stripe
//! padded with chunks of zeros. A stripe is encoded into `n` pieces of
//! `chunk_size` symbols each: byte position by byte position, the `k` data
//! symbols of the stripe's chunks are the values at the nodes `0..k` of a
//! polynomial, and the symbol of piece `j` is its value at node `j`. The
//! first `k` pieces are therefore the chunks themselves. Block `j` of a
//! document holds piece `j` of every stripe.

use crate::config::Config;
use crate::lagrange::{
    all_residues, combine, first_nodes, interp, ints, lemma_dot_residue, lemma_interp_at_node,
    weights, weights_at,
};
use vstd::arithmetic::div_mod::*;
use vstd::prelude::*;

verus! {

/// One block: for each stripe, the symbols of one piece.
pub type Block = Vec<Vec<u16>>;

/// The number of chunks of `size` items that `len` items fill, the last one
/// perhaps in part.
pub open spec fn chunk_count(len: nat, size: nat) -> nat {
    if len == 0 {
        0
    } else {
        ((len - 1) / (size as int) + 1) as nat
    }
}

/// The number of stripes of a document of `len` bytes.
pub open spec fn stripe_count(len: nat, cfg: Config) -> nat {
    chunk_count(chunk_count(len, cfg.chunk_size as nat), cfg.k as nat)
}

/// The index in the content of byte `b` of data piece `i` of stripe `s`.
pub open spec fn byte_index(cfg: Config, s: int, i: int, b: int) -> int {
    (s * cfg.k + i) * cfg.chunk_size + b
}

/// The data symbol at byte `b` of data piece `i` of stripe `s`: the content
/// byte there, or 0 past the content's end.
pub open spec fn data_symbol(content: Seq<u8>, cfg: Config, s: int, i: int, b: int) -> int {
    let x = byte_index(cfg, s, i, b);
    if 0 <= x < content.len() {
        content[x] as int
    } else {
        0
    }
}

/// The `k` data symbols at byte `b` of stripe `s`.
pub open spec fn data_column(content: Seq<u8>, cfg: Config, s: int, b: int) -> Seq<int> {
    Seq::new(cfg.k as nat, |i: int| data_symbol(content, cfg, s, i, b))
}

/// The symbol at byte `b` of piece `j` of stripe `s`.
pub open spec fn piece_symbol(content: Seq<u8>, cfg: Config, s: int, j: int, b: int) -> int {
    interp(first_nodes(cfg.k as nat), data_column(content, cfg, s, b), j)
}

/// `piece` holds the symbols of piece `j` of stripe `s`.
pub open spec fn is_piece(piece: Seq<u16>, content: Seq<u8>, cfg: Config, s: int, j: int) -> bool {
    &&& piece.len() == cfg.chunk_size
    &&& forall|b: int|
        0 <= b < cfg.chunk_size ==> (#[trigger] piece[b]) as int == piece_symbol(
            content,
            cfg,
            s,
            j,
            b,
        )
}

/// `block` holds piece `j` of every stripe of the content.
pub open spec fn is_block(block: Block, content: Seq<u8>, cfg: Config, j: int) -> bool {
    &&& block@.len() == stripe_count(content.len(), cfg)
    &&& forall|s: int|
        0 <= s < block@.len() ==> is_piece((#[trigger] block@[s])@, content, cfg, s, j)
}

/// A data column holds `k` residues.
pub proof fn lemma_data_column_residues(content: Seq<u8>, cfg: Config, s: int, b: int)
    ensures
        all_residues(data_column(content, cfg, s, b)),
        data_column(content, cfg, s, b).len() == cfg.k,
{
}

/// A piece symbol is a residue.
pub proof fn lemma_piece_symbol_residue(content: Seq<u8>, cfg: Config, s: int, j: int, b: int)
    ensures
        0 <= piece_symbol(content, cfg, s, j, b) < 257,
{
    lemma_dot_residue(
        data_column(content, cfg, s, b),
        weights(first_nodes(cfg.k as nat), j),
        cfg.k as nat,
    );
}

/// The code is systematic: the first `k` pieces of a stripe are its data.
pub proof fn lemma_systematic(content: Seq<u8>, cfg: Config, s: int, i: int, b: int)
    requires
        cfg.valid(),
        0 <= i < cfg.k,
    ensures
        piece_symbol(content, cfg, s, i, b) == data_symbol(content, cfg, s, i, b),
{
    let zs = first_nodes(cfg.k as nat);
    lemma_data_column_residues(content, cfg, s, b);
    lemma_interp_at_node(zs, data_column(content, cfg, s, b), i);
}

/// The chunks before the last are whole, so a chunk's first byte lies in
/// the content.
pub proof fn lemma_chunk_start(len: nat, size: nat, ch: nat)
    requires
        size > 0,
        ch < chunk_count(len, size),
    ensures
        ch * size < len,
{
    let q = (len - 1) / (size as int);
    lemma_fundamental_div_mod(len - 1, size as int);
    lemma_mod_pos_bound(len - 1, size as int);
    assert(ch * size <= q * size) by (nonlinear_arith)
        requires
            ch <= q,
            size > 0,
    ;
    assert(size * q == q * size) by (nonlinear_arith);
}

/// A chunk index at or past the count starts at or past the end.
pub proof fn lemma_chunk_past_end(len: nat, size: nat, ch: nat)
    requires
        size > 0,
        ch >= chunk_count(len, size),
    ensures
        ch * size >= len,
{
    if len > 0 {
        let q = (len - 1) / (size as int);
        lemma_fundamental_div_mod(len - 1, size as int);
        lemma_mod_pos_bound(len - 1, size as int);
        assert(ch * size >= (q + 1) * size) by (nonlinear_arith)
            requires
                ch >= q + 1,
                size > 0,
        ;
        assert((q + 1) * size == size * q + size) by (nonlinear_arith);
    } else {
        assert(ch * size >= 0) by (nonlinear_arith)
            requires
                ch >= 0,
                size >= 0,
        ;
    }
}

/// The number of chunks of `size` items that `len` items fill.
pub fn count_chunks(len: usize, size: usize) -> (r: usize)
    requires
        size > 0,
    ensures
        r == chunk_count(len as nat, size as nat),
        r <= len,
{
    if len == 0 {
        0
    } else {
        proof {
            lemma_div_is_ordered_by_denominator(len - 1, 1, size as int);
            lemma_div_basics_2(len - 1);
            lemma_div_pos_is_pos(len - 1, size as int);
        }
        (len - 1) / size + 1
    }
}

/// The nodes `0..k` as symbols.
fn data_nodes(k: usize) -> (nodes: Vec<u16>)
    requires
        k <= 257,
    ensures
        ints(nodes@) == first_nodes(k as nat),
{
    let mut nodes: Vec<u16> = Vec::new();
    let mut i: usize = 0;
    while i < k
        invariant
            i <= k <= 257,
            nodes@.len() == i,
            forall|m: int| 0 <= m < i ==> (#[trigger] nodes@[m]) as int == m,
        decreases k - i,
    {
        nodes.push(i as u16);
        i += 1;
    }
    nodes
}

/// Cuts the content into stripes of `k` chunks of `chunk_size` symbols,
/// padding with zeros.
pub fn split(content: &[u8], cfg: &Config) -> (data: Vec<Vec<Vec<u16>>>)
    requires
        cfg.valid(),
    ensures
        data@.len() == stripe_count(content@.len(), *cfg),
        forall|s: int|
            0 <= s < data@.len() ==> (#[trigger] data@[s])@.len() == cfg.k && forall|i: int|
                0 <= i < cfg.k ==> (#[trigger] data@[s]@[i])@.len() == cfg.chunk_size
                    && forall|b: int|
                    0 <= b < cfg.chunk_size ==> (#[trigger] data@[s]@[i]@[b]) as int
                        == data_symbol(content@, *cfg, s, i, b),
{
    let len = content.len();
    let stripes = count_chunks(count_chunks(len, cfg.chunk_size), cfg.k);
    let mut data: Vec<Vec<Vec<u16>>> = Vec::new();
    let mut pos: usize = 0;
    let mut s: usize = 0;
    assert(byte_index(*cfg, 0, 0, 0) == 0) by (nonlinear_arith);
    while s < stripes
        invariant
            cfg.valid(),
            len == content@.len(),
            s <= stripes,
            data@.len() == s,
            pos <= len,
            pos == (if byte_index(*cfg, s as int, 0, 0) < len {
                byte_index(*cfg, s as int, 0, 0)
            } else {
                len as int
            }),
            forall|s1: int|
                0 <= s1 < s ==> (#[trigger] data@[s1])@.len() == cfg.k && forall|i: int|
                    0 <= i < cfg.k ==> (#[trigger] data@[s1]@[i])@.len() == cfg.chunk_size
                        && forall|b: int|
                        0 <= b < cfg.chunk_size ==> (#[trigger] data@[s1]@[i]@[b]) as int
                            == data_symbol(content@, *cfg, s1, i, b),
        decreases stripes - s,
    {
        let mut stripe: Vec<Vec<u16>> = Vec::new();
        let mut i: usize = 0;
        while i < cfg.k
            invariant
                cfg.valid(),
                len == content@.len(),
                i <= cfg.k,
                stripe@.len() == i,
                pos <= len,
                pos == (if byte_index(*cfg, s as int, i as int, 0) < len {
                    byte_index(*cfg, s as int, i as int, 0)
                } else {
                    len as int
                }),
                forall|i1: int|
                    0 <= i1 < i ==> (#[trigger] stripe@[i1])@.len() == cfg.chunk_size
                        && forall|b: int|
                        0 <= b < cfg.chunk_size ==> (#[trigger] stripe@[i1]@[b]) as int
                            == data_symbol(content@, *cfg, s as int, i1, b),
            decreases cfg.k - i,
        {
            let mut chunk: Vec<u16> = Vec::new();
            let mut b: usize = 0;
            while b < cfg.chunk_size
                invariant
                    cfg.valid(),
                    len == content@.len(),
                    b <= cfg.chunk_size,
                    chunk@.len() == b,
                    pos <= len,
                    pos == (if byte_index(*cfg, s as int, i as int, b as int) < len {
                        byte_index(*cfg, s as int, i as int, b as int)
                    } else {
                        len as int
                    }),
                    forall|b1: int|
                        0 <= b1 < b ==> (#[trigger] chunk@[b1]) as int == data_symbol(
                            content@,
                            *cfg,
                            s as int,
                            i as int,
                            b1,
                        ),
                decreases cfg.chunk_size - b,
            {
                proof {
                    lemma_byte_index_nonneg(*cfg, s as int, i as int, b as int);
                }
                if pos < len {
                    chunk.push(content[pos] as u16);
                    pos += 1;
                } else {
                    chunk.push(0);
                }
                b += 1;
            }
            proof {
                lemma_byte_index_next_piece(*cfg, s as int, i as int);
            }
            stripe.push(chunk);
            i += 1;
        }
        proof {
            lemma_byte_index_next_stripe(*cfg, s as int);
        }
        data.push(stripe);
        s += 1;
    }
    data
}

/// Byte indices are not negative, and the next byte has the next index.
pub proof fn lemma_byte_index_nonneg(cfg: Config, s: int, i: int, b: int)
    requires
        0 <= s,
        0 <= i,
        0 <= b,
    ensures
        byte_index(cfg, s, i, b) >= 0,
        byte_index(cfg, s, i, b + 1) == byte_index(cfg, s, i, b) + 1,
{
    assert((s * cfg.k + i) * cfg.chunk_size >= 0) by (nonlinear_arith)
        requires
            0 <= s,
            0 <= i,
            0 <= cfg.k,
            0 <= cfg.chunk_size,
    ;
}

/// After the last byte of a piece comes the first byte of the next.
pub proof fn lemma_byte_index_next_piece(cfg: Config, s: int, i: int)
    ensures
        byte_index(cfg, s, i, cfg.chunk_size as int) == byte_index(cfg, s, i + 1, 0),
{
    assert((s * cfg.k + i) * cfg.chunk_size + cfg.chunk_size == (s * cfg.k + (i + 1))
        * cfg.chunk_size) by (nonlinear_arith);
}

/// After the last piece of a stripe comes the first piece of the next.
pub proof fn lemma_byte_index_next_stripe(cfg: Config, s: int)
    ensures
        byte_index(cfg, s, cfg.k as int, 0) == byte_index(cfg, s + 1, 0, 0),
{
    assert(s * cfg.k + cfg.k == (s + 1) * cfg.k) by (nonlinear_arith);
}

/// The `k` data symbols at byte `b` of a stripe.
fn column(stripe: &Vec<Vec<u16>>, b: usize) -> (col: Vec<u16>)
    requires
        forall|i: int| 0 <= i < stripe@.len() ==> b < (#[trigger] stripe@[i])@.len(),
    ensures
        col@.len() == stripe@.len(),
        forall|i: int| 0 <= i < stripe@.len() ==> #[trigger] col@[i] == stripe@[i]@[b as int],
{
    let mut col: Vec<u16> = Vec::new();
    let mut i: usize = 0;
    while i < stripe.len()
        invariant
            i <= stripe@.len(),
            col@.len() == i,
            forall|m: int| 0 <= m < stripe@.len() ==> b < (#[trigger] stripe@[m])@.len(),
            forall|m: int| 0 <= m < i ==> #[trigger] col@[m] == stripe@[m]@[b as int],
        decreases stripe@.len() - i,
    {
        col.push(stripe[i][b]);
        i += 1;
    }
    col
}

/// Encodes the content into its `n` blocks.
pub fn encode(content: &[u8], cfg: &Config) -> (blocks: Vec<Option<Block>>)
    requires
        cfg.valid(),
    ensures
        blocks@.len() == cfg.n,
        forall|j: int|
            0 <= j < cfg.n ==> (#[trigger] blocks@[j]) is Some && is_block(
                blocks@[j]->0,
                content@,
                *cfg,
                j,
            ),
{
    let data = split(content, cfg);
    let nodes = data_nodes(cfg.k);
    let mut blocks: Vec<Option<Block>> = Vec::new();
    let mut j: usize = 0;
    while j < cfg.n
        invariant
            cfg.valid(),
            j <= cfg.n,
            blocks@.len() == j,
            ints(nodes@) == first_nodes(cfg.k as nat),
            data@.len() == stripe_count(content@.len(), *cfg),
            forall|s: int|
                0 <= s < data@.len() ==> (#[trigger] data@[s])@.len() == cfg.k && forall|i: int|
                    0 <= i < cfg.k ==> (#[trigger] data@[s]@[i])@.len() == cfg.chunk_size
                        && forall|b: int|
                        0 <= b < cfg.chunk_size ==> (#[trigger] data@[s]@[i]@[b]) as int
                            == data_symbol(content@, *cfg, s, i, b),
            forall|j1: int|
                0 <= j1 < j ==> (#[trigger] blocks@[j1]) is Some && is_block(
                    blocks@[j1]->0,
                    content@,
                    *cfg,
                    j1,
                ),
        decreases cfg.n - j,
    {
        let w = weights_at(&nodes, j as u16);
        assert(w@.len() == cfg.k);
        let mut block: Block = Vec::new();
        let mut s: usize = 0;
        while s < data.len()
            invariant
                cfg.valid(),
                j < cfg.n,
                s <= data@.len(),
                block@.len() == s,
                w@.len() == cfg.k,
                ints(w@) == weights(first_nodes(cfg.k as nat), j as int),
                all_residues(ints(w@)),
                data@.len() == stripe_count(content@.len(), *cfg),
                forall|s1: int|
                    0 <= s1 < data@.len() ==> (#[trigger] data@[s1])@.len() == cfg.k
                        && forall|i: int|
                        0 <= i < cfg.k ==> (#[trigger] data@[s1]@[i])@.len() == cfg.chunk_size
                            && forall|b: int|
                            0 <= b < cfg.chunk_size ==> (#[trigger] data@[s1]@[i]@[b]) as int
                                == data_symbol(content@, *cfg, s1, i, b),
                forall|s1: int|
                    0 <= s1 < s ==> is_piece((#[trigger] block@[s1])@, content@, *cfg, s1, j as int),
            decreases data@.len() - s,
        {
            let mut piece: Vec<u16> = Vec::new();
            let mut b: usize = 0;
            while b < cfg.chunk_size
                invariant
                    cfg.valid(),
                    j < cfg.n,
                    s < data@.len(),
                    b <= cfg.chunk_size,
                    piece@.len() == b,
                    w@.len() == cfg.k,
                    ints(w@) == weights(first_nodes(cfg.k as nat), j as int),
                    all_residues(ints(w@)),
                    (data@[s as int])@.len() == cfg.k,
                    forall|i: int|
                        0 <= i < cfg.k ==> (#[trigger] data@[s as int]@[i])@.len()
                            == cfg.chunk_size && forall|b1: int|
                            0 <= b1 < cfg.chunk_size ==> (#[trigger] data@[s as int]@[i]@[b1]) as int
                                == data_symbol(content@, *cfg, s as int, i, b1),
                    forall|b1: int|
                        0 <= b1 < b ==> (#[trigger] piece@[b1]) as int == piece_symbol(
                            content@,
                            *cfg,
                            s as int,
                            j as int,
                            b1,
                        ),
                decreases cfg.chunk_size - b,
            {
                let col = column(&data[s], b);
                proof {
                    assert(ints(col@) =~= data_column(content@, *cfg, s as int, b as int)) by {
                        assert forall|i: int| 0 <= i < cfg.k implies ints(col@)[i] == data_column(
                            content@,
                            *cfg,
                            s as int,
                            b as int,
                        )[i] by {
                            assert(col@[i] == data@[s as int]@[i]@[b as int]);
                        }
                    }
                    lemma_data_column_residues(content@, *cfg, s as int, b as int);
                }
                let sym = combine(&col, &w);
                piece.push(sym);
                b += 1;
            }
            block.push(piece);
            s += 1;
        }
        blocks.push(Some(block));
        j += 1;
    }
    blocks
}

} // verus!
