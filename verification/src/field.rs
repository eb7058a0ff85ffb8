//! Arithmetic modulo the prime 257, the symbol field of the erasure code.
//!
//! A symbol is a residue in `0..257`. Every byte is a symbol; a parity
//! symbol may also take the value 256, which is why pieces hold `u16`.

use vstd::arithmetic::div_mod::*;
use vstd::prelude::*;

verus! {

/// The modulus of the symbol field.
pub const MODULUS: u32 = 257;

/// The modulus as a mathematical integer.
pub open spec fn modulus() -> int {
    257
}

/// `a` is a residue of the field.
pub open spec fn is_residue(a: int) -> bool {
    0 <= a < modulus()
}

/// Sum in the field.
pub open spec fn fadd(a: int, b: int) -> int {
    (a + b) % modulus()
}

/// Difference in the field.
pub open spec fn fsub(a: int, b: int) -> int {
    (a - b) % modulus()
}

/// Product in the field.
pub open spec fn fmul(a: int, b: int) -> int {
    (a * b) % modulus()
}

/// Multiplicative inverse in the field, by the recurrence
/// `inv(a) = -(p / a) * inv(p mod a)`; the inverse of 0 is taken to be 0.
pub open spec fn finv(a: int) -> int
    decreases a,
{
    if a <= 0 {
        0
    } else if a == 1 {
        1
    } else {
        (-(modulus() / a) * finv(modulus() % a)) % modulus()
    }
}

/// No integer between 2 and 16 divides the modulus.
proof fn lemma_no_small_factor(m: int, q: int)
    requires
        2 <= m <= 16,
    ensures
        m * q != modulus(),
{
    // Once `m` is fixed the product is linear in `q`, and 257 is no multiple
    // of `m`.
    if m == 2 {
    } else if m == 3 {
    } else if m == 4 {
    } else if m == 5 {
    } else if m == 6 {
    } else if m == 7 {
    } else if m == 8 {
    } else if m == 9 {
    } else if m == 10 {
    } else if m == 11 {
    } else if m == 12 {
    } else if m == 13 {
    } else if m == 14 {
    } else if m == 15 {
    } else {
        assert(m == 16);
    }
}

/// The modulus is prime: nothing strictly between 1 and it divides it.
pub proof fn lemma_modulus_prime(a: int)
    requires
        2 <= a < modulus(),
    ensures
        modulus() % a != 0,
{
    if modulus() % a == 0 {
        let e = modulus() / a;
        lemma_fundamental_div_mod(modulus(), a);
        if a <= 16 {
            lemma_no_small_factor(a, e);
        } else {
            assert(e >= 2) by (nonlinear_arith)
                requires
                    a * e == 257,
                    17 <= a < 257,
            ;
            assert(e <= 16) by (nonlinear_arith)
                requires
                    a * e == 257,
                    17 <= a,
                    e >= 2,
            ;
            lemma_no_small_factor(e, a);
            assert(e * a == a * e) by (nonlinear_arith);
        }
    }
}

/// Congruent factors give congruent products.
pub proof fn lemma_mul_congruent(a: int, b: int, c: int, d: int)
    requires
        a % modulus() == c % modulus(),
        b % modulus() == d % modulus(),
    ensures
        (a * b) % modulus() == (c * d) % modulus(),
{
    lemma_mul_mod_noop_general(a, b, modulus());
    lemma_mul_mod_noop_general(c, d, modulus());
}

/// `finv` yields a residue, and for a nonzero residue its inverse.
pub proof fn lemma_finv(a: int)
    requires
        is_residue(a),
    ensures
        is_residue(finv(a)),
        a != 0 ==> fmul(a, finv(a)) == 1,
        a != 0 ==> finv(a) != 0,
    decreases a,
{
    if a >= 2 {
        let p = modulus();
        let q = p / a;
        let r = p % a;
        lemma_modulus_prime(a);
        lemma_fundamental_div_mod(p, a);
        lemma_mod_pos_bound(p, a);
        lemma_finv(r);
        let ri = finv(r);
        // a * (-q * ri) == (r - p) * ri, which is congruent to r * ri.
        assert(a * (-q * ri) == (r - p) * ri) by (nonlinear_arith)
            requires
                p == a * q + r,
        ;
        assert((r - p) * ri == r * ri - p * ri) by (nonlinear_arith);
        lemma_mod_multiples_vanish(-ri, r * ri, p);
        assert(p * (-ri) == -(p * ri)) by (nonlinear_arith);
        lemma_mul_congruent(a, -q * ri, a, (-q * ri) % p);
        if finv(a) == 0 {
            assert(a * 0 == 0);
        }
    }
}

/// The field has no zero divisors.
pub proof fn lemma_no_zero_divisors(a: int, b: int)
    requires
        (a * b) % modulus() == 0,
        a % modulus() != 0,
    ensures
        b % modulus() == 0,
{
    let p = modulus();
    let ar = a % p;
    let u = finv(ar);
    lemma_finv(ar);
    // b is congruent to (u * a) * b == u * (a * b), which is congruent to 0.
    lemma_mul_congruent(ar, u, a, u);
    lemma_mul_congruent(a * u, b, 1, b);
    assert((a * u) * b == u * (a * b)) by (nonlinear_arith);
    lemma_mul_congruent(u, a * b, u, 0);
}

/// Sum of two residues.
pub fn add_mod(a: u16, b: u16) -> (r: u16)
    requires
        is_residue(a as int),
        is_residue(b as int),
    ensures
        r as int == fadd(a as int, b as int),
        is_residue(r as int),
{
    let s: u32 = a as u32 + b as u32;
    (s % MODULUS) as u16
}

/// Difference of two residues.
pub fn sub_mod(a: u16, b: u16) -> (r: u16)
    requires
        is_residue(a as int),
        is_residue(b as int),
    ensures
        r as int == fsub(a as int, b as int),
        is_residue(r as int),
{
    let s: u32 = a as u32 + MODULUS - b as u32;
    (s % MODULUS) as u16
}

/// Product of two residues.
pub fn mul_mod(a: u16, b: u16) -> (r: u16)
    requires
        is_residue(a as int),
        is_residue(b as int),
    ensures
        r as int == fmul(a as int, b as int),
        is_residue(r as int),
{
    assert((a as int) * (b as int) <= 256 * 256) by (nonlinear_arith)
        requires
            0 <= a as int <= 256,
            0 <= b as int <= 256,
    ;
    assert((a as int) * (b as int) >= 0) by (nonlinear_arith)
        requires
            0 <= a as int,
            0 <= b as int,
    ;
    let s: u32 = a as u32 * b as u32;
    (s % MODULUS) as u16
}

/// Multiplicative inverse of a residue (0 for 0).
pub fn inv_mod(a: u16) -> (r: u16)
    requires
        is_residue(a as int),
    ensures
        r as int == finv(a as int),
        is_residue(r as int),
        a != 0 ==> fmul(a as int, r as int) == 1,
    decreases a,
{
    proof {
        lemma_finv(a as int);
    }
    if a <= 1 {
        a
    } else {
        let q: u16 = (MODULUS / a as u32) as u16;
        let rem: u16 = (MODULUS % a as u32) as u16;
        proof {
            lemma_mod_pos_bound(modulus(), a as int);
            lemma_div_pos_is_pos(modulus(), a as int);
            lemma_div_is_strictly_smaller(modulus(), a as int);
        }
        let ri: u16 = inv_mod(rem);
        let prod: u16 = mul_mod(q, ri);
        let r: u16 = sub_mod(0, prod);
        proof {
            let p = modulus();
            // -(q * ri) is congruent to -((q * ri) mod p).
            assert((-(q as int) * (ri as int)) == -((q as int) * (ri as int))) by (nonlinear_arith);
            lemma_sub_mod_noop_right(0, (q as int) * (ri as int), p);
        }
        r
    }
}

} // verus!
