//! Lagrange interpolation over the symbol field.
//!
//! A column of `k` data symbols is read as the values, at the nodes
//! `0..k`, of a polynomial of degree below `k`. The symbol of piece `j` is
//! the polynomial's value at node `j`. Any `k` pieces determine the
//! polynomial, and with it the data.

use crate::field::{
    add_mod, fadd, finv, fmul, fsub, inv_mod, is_residue, lemma_finv, lemma_mul_congruent,
    lemma_no_zero_divisors, modulus, mul_mod, sub_mod,
};
use crate::poly::{
    distinct_mod, eval, lemma_eval_add, lemma_eval_mul_linear, lemma_eval_scale, lemma_eval_zero,
    lemma_roots_force_zero, poly_add, poly_mul_linear, poly_scale,
};
use vstd::prelude::*;

verus! {

/// The symbols of `s` as mathematical integers.
pub open spec fn ints(s: Seq<u16>) -> Seq<int> {
    Seq::new(s.len(), |i: int| s[i] as int)
}

/// Every entry of `s` is a residue.
pub open spec fn all_residues(s: Seq<int>) -> bool {
    forall|i: int| 0 <= i < s.len() ==> is_residue(#[trigger] s[i])
}

/// The entries of `s` are residues, no two of them equal.
pub open spec fn distinct_nodes(s: Seq<int>) -> bool {
    &&& all_residues(s)
    &&& forall|i: int, j: int| 0 <= i < s.len() && 0 <= j < s.len() && i != j ==> s[i] != s[j]
}

/// The nodes `0, 1, .., k - 1`.
pub open spec fn first_nodes(k: nat) -> Seq<int> {
    Seq::new(k, |i: int| i)
}

/// The product of `t - xs[i]` over the `i` below `m` other than `j`.
pub open spec fn numer(xs: Seq<int>, j: int, t: int, m: nat) -> int
    decreases m,
{
    if m == 0 {
        1
    } else if m - 1 == j {
        numer(xs, j, t, (m - 1) as nat)
    } else {
        fmul(numer(xs, j, t, (m - 1) as nat), fsub(t, xs[m - 1]))
    }
}

/// The value at `t` of the Lagrange basis polynomial that is 1 at `xs[j]`
/// and 0 at the other nodes.
pub open spec fn basis(xs: Seq<int>, j: int, t: int) -> int {
    fmul(numer(xs, j, t, xs.len()), finv(numer(xs, j, xs[j], xs.len())))
}

/// The basis values at `t`, one for each node.
pub open spec fn weights(xs: Seq<int>, t: int) -> Seq<int> {
    Seq::new(xs.len(), |j: int| basis(xs, j, t))
}

/// The sum of `ys[i] * w[i]` over the `i` below `m`.
pub open spec fn dot(ys: Seq<int>, w: Seq<int>, m: nat) -> int
    decreases m,
{
    if m == 0 {
        0
    } else {
        fadd(dot(ys, w, (m - 1) as nat), fmul(ys[m - 1], w[m - 1]))
    }
}

/// The value at `t` of the polynomial of degree below `xs.len()` that takes
/// the value `ys[j]` at each node `xs[j]`.
pub open spec fn interp(xs: Seq<int>, ys: Seq<int>, t: int) -> int {
    dot(ys, weights(xs, t), xs.len())
}

/// The polynomial behind `numer`.
pub open spec fn numer_poly(xs: Seq<int>, j: int, m: nat) -> Seq<int>
    decreases m,
{
    if m == 0 {
        seq![1int]
    } else if m - 1 == j {
        numer_poly(xs, j, (m - 1) as nat)
    } else {
        poly_mul_linear(numer_poly(xs, j, (m - 1) as nat), xs[m - 1])
    }
}

/// The polynomial behind `basis`.
pub open spec fn basis_poly(xs: Seq<int>, j: int) -> Seq<int> {
    poly_scale(numer_poly(xs, j, xs.len()), finv(numer(xs, j, xs[j], xs.len())))
}

/// The polynomial behind `dot(ys, weights(xs, ..), m)`.
pub open spec fn interp_poly(xs: Seq<int>, ys: Seq<int>, m: nat) -> Seq<int>
    decreases m,
{
    if m == 0 {
        Seq::new(xs.len(), |i: int| 0int)
    } else {
        poly_add(
            interp_poly(xs, ys, (m - 1) as nat),
            poly_scale(basis_poly(xs, m - 1), ys[m - 1]),
        )
    }
}

/// A numerator is a residue.
pub proof fn lemma_numer_residue(xs: Seq<int>, j: int, t: int, m: nat)
    ensures
        is_residue(numer(xs, j, t, m)),
    decreases m,
{
    if m > 0 {
        lemma_numer_residue(xs, j, t, (m - 1) as nat);
    }
}

/// A weighted sum is a residue.
pub proof fn lemma_dot_residue(ys: Seq<int>, w: Seq<int>, m: nat)
    ensures
        is_residue(dot(ys, w, m)),
    decreases m,
{
    if m > 0 {
        lemma_dot_residue(ys, w, (m - 1) as nat);
    }
}

/// `numer_poly` has the length that its factors give it, and evaluates to
/// `numer` modulo the prime.
proof fn lemma_numer_poly(xs: Seq<int>, j: int, t: int, m: nat)
    requires
        0 <= j < xs.len(),
        m <= xs.len(),
    ensures
        numer_poly(xs, j, m).len() == (if j < m { m } else { m + 1 }),
        eval(numer_poly(xs, j, m), t) % modulus() == numer(xs, j, t, m),
    decreases m,
{
    if m == 0 {
        let one = seq![1int];
        assert(eval(one.skip(1), t) == 0);
    } else if m - 1 != j {
        let prev = numer_poly(xs, j, (m - 1) as nat);
        lemma_numer_poly(xs, j, t, (m - 1) as nat);
        lemma_eval_mul_linear(prev, xs[m - 1], t);
        lemma_mul_congruent(
            t - xs[m - 1],
            eval(prev, t),
            fsub(t, xs[m - 1]),
            numer(xs, j, t, (m - 1) as nat),
        );
        assert(fsub(t, xs[m - 1]) * numer(xs, j, t, (m - 1) as nat) == numer(
            xs,
            j,
            t,
            (m - 1) as nat,
        ) * fsub(t, xs[m - 1])) by (nonlinear_arith);
    } else {
        lemma_numer_poly(xs, j, t, (m - 1) as nat);
    }
}

/// `basis_poly` has one coefficient for each node, and evaluates to `basis`
/// modulo the prime.
proof fn lemma_basis_poly(xs: Seq<int>, j: int, t: int)
    requires
        0 <= j < xs.len(),
    ensures
        basis_poly(xs, j).len() == xs.len(),
        eval(basis_poly(xs, j), t) % modulus() == basis(xs, j, t),
{
    let np = numer_poly(xs, j, xs.len());
    let w = finv(numer(xs, j, xs[j], xs.len()));
    lemma_numer_poly(xs, j, t, xs.len());
    lemma_eval_scale(np, w, t);
    lemma_mul_congruent(w, eval(np, t), w, numer(xs, j, t, xs.len()));
    assert(w * numer(xs, j, t, xs.len()) == numer(xs, j, t, xs.len()) * w) by (nonlinear_arith);
}

/// `interp_poly` has one coefficient for each node, and evaluates to the
/// weighted sum modulo the prime.
proof fn lemma_interp_poly(xs: Seq<int>, ys: Seq<int>, t: int, m: nat)
    requires
        m <= xs.len(),
        ys.len() == xs.len(),
    ensures
        interp_poly(xs, ys, m).len() == xs.len(),
        eval(interp_poly(xs, ys, m), t) % modulus() == dot(ys, weights(xs, t), m),
    decreases m,
{
    if m == 0 {
        lemma_eval_zero(interp_poly(xs, ys, 0), t);
    } else {
        let prev = interp_poly(xs, ys, (m - 1) as nat);
        let bp = basis_poly(xs, m - 1);
        let term = poly_scale(bp, ys[m - 1]);
        lemma_interp_poly(xs, ys, t, (m - 1) as nat);
        lemma_basis_poly(xs, m - 1, t);
        lemma_eval_scale(bp, ys[m - 1], t);
        lemma_eval_add(prev, term, t);
        lemma_mul_congruent(ys[m - 1], eval(bp, t), ys[m - 1], basis(xs, m - 1, t));
    }
}

/// At a node other than `xs[j]`, the numerator of basis `j` is 0 once the
/// product has passed that node's factor.
proof fn lemma_numer_vanishes(xs: Seq<int>, j: int, i: int, m: nat)
    requires
        0 <= i < m <= xs.len(),
        i != j,
    ensures
        numer(xs, j, xs[i], m) == 0,
    decreases m,
{
    if m - 1 == i {
        let prev = numer(xs, j, xs[i], (m - 1) as nat);
        assert(prev * 0 == 0);
    } else {
        lemma_numer_vanishes(xs, j, i, (m - 1) as nat);
        if m - 1 != j {
            assert(0 * fsub(xs[i], xs[m - 1]) == 0);
        }
    }
}

/// At its own node the numerator of basis `j` is not 0.
proof fn lemma_numer_nonzero(xs: Seq<int>, j: int, m: nat)
    requires
        distinct_nodes(xs),
        0 <= j < xs.len(),
        m <= xs.len(),
    ensures
        numer(xs, j, xs[j], m) != 0,
    decreases m,
{
    if m > 0 {
        lemma_numer_nonzero(xs, j, (m - 1) as nat);
        if m - 1 != j {
            let prev = numer(xs, j, xs[j], (m - 1) as nat);
            let f = fsub(xs[j], xs[m - 1]);
            lemma_numer_residue(xs, j, xs[j], (m - 1) as nat);
            if numer(xs, j, xs[j], m) == 0 {
                lemma_no_zero_divisors(prev, f);
            }
        }
    }
}

/// The basis polynomial of node `j` is 1 at its own node and 0 at the
/// others.
pub proof fn lemma_basis_at_node(xs: Seq<int>, j: int, i: int)
    requires
        distinct_nodes(xs),
        0 <= j < xs.len(),
        0 <= i < xs.len(),
    ensures
        basis(xs, j, xs[i]) == (if i == j { 1int } else { 0int }),
{
    if i == j {
        lemma_numer_nonzero(xs, j, xs.len());
        lemma_numer_residue(xs, j, xs[j], xs.len());
        lemma_finv(numer(xs, j, xs[j], xs.len()));
    } else {
        lemma_numer_vanishes(xs, j, i, xs.len());
    }
}

/// At node `i` the weighted sum over the first `m` nodes is `ys[i]` once it
/// has passed that node, and 0 before.
proof fn lemma_dot_at_node(xs: Seq<int>, ys: Seq<int>, i: int, m: nat)
    requires
        distinct_nodes(xs),
        all_residues(ys),
        ys.len() == xs.len(),
        0 <= i < xs.len(),
        m <= xs.len(),
    ensures
        dot(ys, weights(xs, xs[i]), m) == (if i < m { ys[i] } else { 0int }),
    decreases m,
{
    if m > 0 {
        lemma_dot_at_node(xs, ys, i, (m - 1) as nat);
        lemma_basis_at_node(xs, m - 1, i);
        assert(ys[m - 1] * 1 == ys[m - 1]);
    }
}

/// Interpolation passes through its points.
pub proof fn lemma_interp_at_node(xs: Seq<int>, ys: Seq<int>, i: int)
    requires
        distinct_nodes(xs),
        all_residues(ys),
        ys.len() == xs.len(),
        0 <= i < xs.len(),
    ensures
        interp(xs, ys, xs[i]) == ys[i],
{
    lemma_dot_at_node(xs, ys, i, xs.len());
}

/// Two interpolations through points of one polynomial agree everywhere:
/// if `ys` are the values at the nodes `xs` of the interpolation of `d` over
/// `zs`, then the interpolation of `ys` over `xs` is that of `d` over `zs`.
pub proof fn lemma_interp_unique(zs: Seq<int>, d: Seq<int>, xs: Seq<int>, ys: Seq<int>, x: int)
    requires
        distinct_nodes(zs),
        distinct_nodes(xs),
        all_residues(d),
        zs.len() == d.len(),
        xs.len() == zs.len(),
        ys.len() == xs.len(),
        forall|j: int| 0 <= j < xs.len() ==> #[trigger] ys[j] == interp(zs, d, xs[j]),
    ensures
        interp(xs, ys, x) == interp(zs, d, x),
{
    let k = xs.len();
    let a = interp_poly(zs, d, k);
    let b = interp_poly(xs, ys, k);
    let diff = poly_add(b, poly_scale(a, -1));
    lemma_interp_poly(zs, d, x, k);
    lemma_interp_poly(xs, ys, x, k);
    assert(all_residues(ys)) by {
        assert forall|j: int| 0 <= j < ys.len() implies is_residue(#[trigger] ys[j]) by {
            lemma_dot_residue(d, weights(zs, xs[j]), zs.len());
        }
    }
    assert forall|i: int| 0 <= i < xs.len() implies eval(diff, #[trigger] xs[i]) % modulus()
        == 0 by {
        let y = xs[i];
        lemma_interp_poly(zs, d, y, k);
        lemma_interp_poly(xs, ys, y, k);
        lemma_interp_at_node(xs, ys, i);
        lemma_eval_scale(a, -1, y);
        lemma_eval_add(b, poly_scale(a, -1), y);
    }
    assert(distinct_mod(xs)) by {
        assert forall|i: int, j: int|
            0 <= i < xs.len() && 0 <= j < xs.len() && i != j implies (xs[i] - xs[j]) % modulus()
            != 0 by {
            assert(is_residue(xs[i]) && is_residue(xs[j]));
        }
    }
    lemma_roots_force_zero(diff, xs, x);
    lemma_eval_scale(a, -1, x);
    lemma_eval_add(b, poly_scale(a, -1), x);
    lemma_dot_residue(ys, weights(xs, x), k);
    lemma_dot_residue(d, weights(zs, x), k);
}

/// Any `k` symbols of a column give back its data: if `ys` holds the
/// symbols of the pieces `xs` of the column whose data is `d`, then
/// interpolating `ys` over `xs` at node `t` yields `d[t]`.
pub proof fn lemma_interp_recovers(d: Seq<int>, xs: Seq<int>, ys: Seq<int>, t: int)
    requires
        distinct_nodes(xs),
        all_residues(d),
        0 < d.len() <= modulus(),
        xs.len() == d.len(),
        ys.len() == xs.len(),
        forall|j: int|
            0 <= j < xs.len() ==> #[trigger] ys[j] == interp(first_nodes(d.len()), d, xs[j]),
        0 <= t < d.len(),
    ensures
        interp(xs, ys, t) == d[t],
{
    let zs = first_nodes(d.len());
    lemma_interp_unique(zs, d, xs, ys, t);
    lemma_interp_at_node(zs, d, t);
}

/// Computes `numer(xs, j, t, xs.len())`.
fn numerator(xs: &Vec<u16>, j: usize, t: u16) -> (r: u16)
    requires
        all_residues(ints(xs@)),
        is_residue(t as int),
    ensures
        r as int == numer(ints(xs@), j as int, t as int, xs@.len()),
        is_residue(r as int),
{
    let mut acc: u16 = 1;
    let mut m: usize = 0;
    while m < xs.len()
        invariant
            m <= xs.len(),
            all_residues(ints(xs@)),
            is_residue(t as int),
            is_residue(acc as int),
            acc as int == numer(ints(xs@), j as int, t as int, m as nat),
        decreases xs.len() - m,
    {
        if m != j {
            assert(is_residue(ints(xs@)[m as int]));
            let f: u16 = sub_mod(t, xs[m]);
            acc = mul_mod(acc, f);
        }
        m += 1;
    }
    acc
}

/// The Lagrange weights at `t` for the nodes `xs`: entry `j` is the value
/// at `t` of the basis polynomial of node `xs[j]`.
pub fn weights_at(xs: &Vec<u16>, t: u16) -> (w: Vec<u16>)
    requires
        all_residues(ints(xs@)),
        is_residue(t as int),
    ensures
        w@.len() == xs@.len(),
        ints(w@) == weights(ints(xs@), t as int),
        all_residues(ints(w@)),
{
    let mut w: Vec<u16> = Vec::new();
    let mut j: usize = 0;
    while j < xs.len()
        invariant
            j <= xs.len(),
            w@.len() == j,
            all_residues(ints(xs@)),
            is_residue(t as int),
            forall|i: int|
                0 <= i < j ==> (#[trigger] w@[i]) as int == basis(ints(xs@), i, t as int),
            forall|i: int| 0 <= i < j ==> is_residue((#[trigger] w@[i]) as int),
        decreases xs.len() - j,
    {
        assert(is_residue(ints(xs@)[j as int]));
        let top: u16 = numerator(xs, j, t);
        let bottom: u16 = numerator(xs, j, xs[j]);
        let b: u16 = mul_mod(top, inv_mod(bottom));
        w.push(b);
        j += 1;
    }
    assert(ints(w@) =~= weights(ints(xs@), t as int));
    w
}

/// The weighted sum of the symbols `ys` with the weights `w`.
pub fn combine(ys: &Vec<u16>, w: &Vec<u16>) -> (r: u16)
    requires
        ys@.len() == w@.len(),
        all_residues(ints(ys@)),
        all_residues(ints(w@)),
    ensures
        r as int == dot(ints(ys@), ints(w@), ys@.len()),
        is_residue(r as int),
{
    let mut acc: u16 = 0;
    let mut m: usize = 0;
    while m < ys.len()
        invariant
            m <= ys.len(),
            ys@.len() == w@.len(),
            all_residues(ints(ys@)),
            all_residues(ints(w@)),
            is_residue(acc as int),
            acc as int == dot(ints(ys@), ints(w@), m as nat),
        decreases ys.len() - m,
    {
        assert(is_residue(ints(ys@)[m as int]));
        assert(is_residue(ints(w@)[m as int]));
        let term: u16 = mul_mod(ys[m], w[m]);
        acc = add_mod(acc, term);
        m += 1;
    }
    acc
}

} // verus!
