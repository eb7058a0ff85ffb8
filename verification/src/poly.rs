//! Polynomials with integer coefficients, read modulo the field's prime.
//!
//! This module is proof only. Its one result is that a polynomial with at
//! most `m` coefficients that vanishes, modulo the prime, at `m` points that
//! are distinct modulo the prime vanishes everywhere modulo the prime.

use crate::field::{lemma_mul_congruent, lemma_no_zero_divisors, modulus};
use vstd::prelude::*;

verus! {

/// The value at `x` of the polynomial whose coefficients are `c`, lowest
/// degree first.
pub open spec fn eval(c: Seq<int>, x: int) -> int
    decreases c.len(),
{
    if c.len() == 0 {
        0
    } else {
        c[0] + x * eval(c.skip(1), x)
    }
}

/// Coefficientwise sum of two polynomials of one length.
pub open spec fn poly_add(a: Seq<int>, b: Seq<int>) -> Seq<int> {
    Seq::new(a.len(), |i: int| a[i] + b[i])
}

/// The polynomial `a` with every coefficient multiplied by `s`.
pub open spec fn poly_scale(a: Seq<int>, s: int) -> Seq<int> {
    Seq::new(a.len(), |i: int| s * a[i])
}

/// The product of `a` and the linear factor `x - r`.
pub open spec fn poly_mul_linear(a: Seq<int>, r: int) -> Seq<int> {
    Seq::new(
        a.len() + 1,
        |i: int|
            (if i > 0 {
                a[i - 1]
            } else {
                0
            }) - r * (if i < a.len() {
                a[i]
            } else {
                0
            }),
    )
}

/// The quotient of `c` by the linear factor `x - r`.
pub open spec fn poly_div_linear(c: Seq<int>, r: int) -> Seq<int>
    decreases c.len(),
{
    if c.len() <= 1 {
        Seq::empty()
    } else {
        seq![eval(c.skip(1), r)] + poly_div_linear(c.skip(1), r)
    }
}

/// The points `xs` are pairwise distinct modulo the prime.
pub open spec fn distinct_mod(xs: Seq<int>) -> bool {
    forall|i: int, j: int|
        0 <= i < xs.len() && 0 <= j < xs.len() && i != j ==> (xs[i] - xs[j]) % modulus() != 0
}

/// The value of a sum is the sum of the values.
pub proof fn lemma_eval_add(a: Seq<int>, b: Seq<int>, x: int)
    requires
        a.len() == b.len(),
    ensures
        eval(poly_add(a, b), x) == eval(a, x) + eval(b, x),
    decreases a.len(),
{
    if a.len() > 0 {
        lemma_eval_add(a.skip(1), b.skip(1), x);
        assert(poly_add(a, b).skip(1) =~= poly_add(a.skip(1), b.skip(1)));
        let ea = eval(a.skip(1), x);
        let eb = eval(b.skip(1), x);
        assert(x * (ea + eb) == x * ea + x * eb) by (nonlinear_arith);
    }
}

/// The value of a scaled polynomial is the scaled value.
pub proof fn lemma_eval_scale(a: Seq<int>, s: int, x: int)
    ensures
        eval(poly_scale(a, s), x) == s * eval(a, x),
    decreases a.len(),
{
    if a.len() > 0 {
        lemma_eval_scale(a.skip(1), s, x);
        assert(poly_scale(a, s).skip(1) =~= poly_scale(a.skip(1), s));
        let ea = eval(a.skip(1), x);
        assert(s * (a[0] + x * ea) == s * a[0] + x * (s * ea)) by (nonlinear_arith);
    }
}

/// The value of a product with `x - r` is the product of the values.
pub proof fn lemma_eval_mul_linear(a: Seq<int>, r: int, x: int)
    ensures
        eval(poly_mul_linear(a, r), x) == (x - r) * eval(a, x),
    decreases a.len(),
{
    let m = poly_mul_linear(a, r);
    if a.len() == 0 {
        assert(eval(m.skip(1), x) == 0);
    } else {
        let rest = a.skip(1);
        lemma_eval_mul_linear(rest, r, x);
        let mr = poly_mul_linear(rest, r);
        // m = (-r a0) + x * (a0 + mr(x)) coefficientwise.
        let shifted = Seq::new(mr.len(), |i: int| mr[i] + (if i == 0 { a[0] } else { 0int }));
        assert(m.skip(1) =~= shifted);
        let unit = Seq::new(mr.len(), |i: int| if i == 0 { a[0] } else { 0int });
        assert(shifted =~= poly_add(mr, unit));
        lemma_eval_add(mr, unit, x);
        lemma_eval_unit(unit, a[0], x);
        let ea = eval(rest, x);
        assert(-(r * a[0]) + x * ((x - r) * ea + a[0]) == (x - r) * (a[0] + x * ea))
            by (nonlinear_arith);
    }
}

/// A polynomial whose only nonzero coefficient is the constant one.
proof fn lemma_eval_unit(u: Seq<int>, v: int, x: int)
    requires
        u.len() > 0,
        u[0] == v,
        forall|i: int| 0 < i < u.len() ==> u[i] == 0,
    ensures
        eval(u, x) == v,
{
    lemma_eval_zero(u.skip(1), x);
}

/// A polynomial with zero coefficients is zero everywhere.
pub proof fn lemma_eval_zero(u: Seq<int>, x: int)
    requires
        forall|i: int| 0 <= i < u.len() ==> u[i] == 0,
    ensures
        eval(u, x) == 0,
    decreases u.len(),
{
    if u.len() > 0 {
        lemma_eval_zero(u.skip(1), x);
    }
}

/// Division by a linear factor: `c(x) = (x - r) q(x) + c(r)`.
pub proof fn lemma_div_linear(c: Seq<int>, r: int, x: int)
    ensures
        poly_div_linear(c, r).len() == (if c.len() == 0 { 0 } else { c.len() - 1 }),
        eval(c, x) == (x - r) * eval(poly_div_linear(c, r), x) + eval(c, r),
    decreases c.len(),
{
    let q = poly_div_linear(c, r);
    if c.len() == 0 {
        assert(eval(q, x) == 0);
    } else if c.len() == 1 {
        assert(eval(c.skip(1), x) == 0);
    } else {
        let rest = c.skip(1);
        lemma_div_linear(rest, r, x);
        let q1 = poly_div_linear(rest, r);
        assert(q.skip(1) =~= q1);
        let er = eval(rest, r);
        let eq1 = eval(q1, x);
        assert(q[0] == er);
        assert(c[0] + x * ((x - r) * eq1 + er) == (x - r) * (er + x * eq1) + (c[0] + r * er))
            by (nonlinear_arith);
    }
}

/// A polynomial with at most as many coefficients as it has roots that are
/// distinct modulo the prime is zero modulo the prime at every point.
pub proof fn lemma_roots_force_zero(c: Seq<int>, roots: Seq<int>, x: int)
    requires
        c.len() <= roots.len(),
        distinct_mod(roots),
        forall|i: int| 0 <= i < roots.len() ==> eval(c, #[trigger] roots[i]) % modulus() == 0,
    ensures
        eval(c, x) % modulus() == 0,
    decreases c.len(),
{
    if c.len() > 0 {
        let r = roots[0];
        let q = poly_div_linear(c, r);
        let tail = roots.skip(1);
        lemma_div_linear(c, r, x);
        assert forall|i: int| 0 <= i < tail.len() implies eval(q, #[trigger] tail[i]) % modulus()
            == 0 by {
            let y = tail[i];
            lemma_div_linear(c, r, y);
            lemma_no_zero_divisors(y - r, eval(q, y));
        }
        assert(distinct_mod(tail));
        lemma_roots_force_zero(q, tail, x);
        lemma_mul_congruent(x - r, eval(q, x), x - r, 0);
    }
}

} // verus!
