//! Identities between integer polynomials, on which the algebra of the
//! Gaussian integers rests.

use vstd::prelude::*;

verus! {

/// A product of two products may be regrouped by pairing the factors anew.
pub proof fn lemma_regroup(a: int, b: int, c: int, d: int)
    ensures
        (a * b) * (c * d) == (a * c) * (b * d),
        (a * b) * (c * d) == (a * d) * (b * c),
{
    let ab = a * b;
    let cd = c * d;
    let bd = b * d;
    let bc = b * c;
    assert(ab * cd == a * (b * cd)) by (nonlinear_arith)
        requires
            ab == a * b,
    ;
    assert(b * cd == c * bd) by (nonlinear_arith)
        requires
            cd == c * d,
            bd == b * d,
    ;
    assert(a * (c * bd) == (a * c) * bd) by (nonlinear_arith);
    assert(b * cd == d * bc) by (nonlinear_arith)
        requires
            cd == c * d,
            bc == b * c,
    ;
    assert(a * (d * bc) == (a * d) * bc) by (nonlinear_arith);
}

/// A product of three factors does not depend on their grouping or order.
pub proof fn lemma_triple(a: int, b: int, c: int)
    ensures
        (a * b) * c == a * (b * c),
        (a * b) * c == (a * c) * b,
        (a * b) * c == (b * c) * a,
{
    assert((a * b) * c == a * (b * c)) by (nonlinear_arith);
    assert((a * c) * b == a * (b * c)) by (nonlinear_arith);
    assert((b * c) * a == a * (b * c)) by (nonlinear_arith);
}

/// The identity of Brahmagupta and Fibonacci: a product of two sums of two
/// squares is again a sum of two squares.
pub proof fn lemma_two_squares(a: int, b: int, c: int, d: int)
    ensures
        (a * c - b * d) * (a * c - b * d) + (a * d + b * c) * (a * d + b * c) == (a * a + b * b)
            * (c * c + d * d),
{
    let p = a * c;
    let q = b * d;
    let r = a * d;
    let s = b * c;
    let aa = a * a;
    let bb = b * b;
    let cc = c * c;
    let dd = d * d;
    assert((p - q) * (p - q) + (r + s) * (r + s) == p * p - 2 * (p * q) + q * q + r * r + 2 * (r
        * s) + s * s) by (nonlinear_arith);
    assert((aa + bb) * (cc + dd) == aa * cc + aa * dd + bb * cc + bb * dd) by (nonlinear_arith);
    lemma_regroup(a, c, b, d);
    lemma_regroup(a, a, c, c);
    lemma_regroup(a, a, d, d);
    lemma_regroup(b, b, c, c);
    lemma_regroup(b, b, d, d);
    assert(r * s == (a * d) * (b * c));
    assert(p * q == (a * c) * (b * d));
    assert(p * q == r * s) by (nonlinear_arith)
        requires
            (a * c) * (b * d) == (a * b) * (c * d),
            (a * d) * (b * c) == (a * b) * (c * d),
            p == a * c,
            q == b * d,
            r == a * d,
            s == b * c,
    ;
}

/// Multiplying out `(a - q·d) · conj(d)` for complex `a`, `q` and `d`, part
/// by part: it is `a · conj(d) - q · (d · conj(d))`.
pub proof fn lemma_remainder_numerators(ar: int, ai: int, dr: int, di: int, qr: int, qi: int)
    ensures
        (ar - (qr * dr - qi * di)) * dr + (ai - (qr * di + qi * dr)) * di == (ar * dr + ai * di)
            - qr * (dr * dr + di * di),
        (ai - (qr * di + qi * dr)) * dr - (ar - (qr * dr - qi * di)) * di == (ai * dr - ar * di)
            - qi * (dr * dr + di * di),
{
    let t1 = qr * dr;
    let t2 = qi * di;
    let t3 = qr * di;
    let t4 = qi * dr;
    let rr = dr * dr;
    let ii = di * di;
    assert((ar - (t1 - t2)) * dr + (ai - (t3 + t4)) * di == ar * dr - t1 * dr + t2 * dr + ai * di
        - t3 * di - t4 * di) by (nonlinear_arith);
    assert((ai - (t3 + t4)) * dr - (ar - (t1 - t2)) * di == ai * dr - t3 * dr - t4 * dr - ar * di
        + t1 * di - t2 * di) by (nonlinear_arith);
    assert(qr * (rr + ii) == qr * rr + qr * ii) by (nonlinear_arith);
    assert(qi * (rr + ii) == qi * rr + qi * ii) by (nonlinear_arith);
    lemma_triple(qr, dr, dr);
    lemma_triple(qr, di, di);
    lemma_triple(qi, di, dr);
    lemma_triple(qi, dr, di);
    lemma_triple(qr, di, dr);
    lemma_triple(qr, dr, di);
    lemma_triple(qi, dr, dr);
    lemma_triple(qi, di, di);
}

/// Multiplying out `(k·d) · conj(d)` for complex `k` and `d`, part by part:
/// it is `k · (d · conj(d))`.
pub proof fn lemma_product_numerators(kr: int, ki: int, dr: int, di: int)
    ensures
        (kr * dr - ki * di) * dr + (kr * di + ki * dr) * di == kr * (dr * dr + di * di),
        (kr * di + ki * dr) * dr - (kr * dr - ki * di) * di == ki * (dr * dr + di * di),
{
    let t1 = kr * dr;
    let t2 = ki * di;
    let t3 = kr * di;
    let t4 = ki * dr;
    let rr = dr * dr;
    let ii = di * di;
    assert((t1 - t2) * dr + (t3 + t4) * di == t1 * dr - t2 * dr + t3 * di + t4 * di)
        by (nonlinear_arith);
    assert((t3 + t4) * dr - (t1 - t2) * di == t3 * dr + t4 * dr - t1 * di + t2 * di)
        by (nonlinear_arith);
    assert(kr * (rr + ii) == kr * rr + kr * ii) by (nonlinear_arith);
    assert(ki * (rr + ii) == ki * rr + ki * ii) by (nonlinear_arith);
    lemma_triple(kr, dr, dr);
    lemma_triple(kr, di, di);
    lemma_triple(ki, di, dr);
    lemma_triple(ki, dr, di);
    lemma_triple(kr, di, dr);
    lemma_triple(kr, dr, di);
    lemma_triple(ki, dr, dr);
    lemma_triple(ki, di, di);
}

/// Complex multiplication is associative, part by part.
pub proof fn lemma_complex_associative(ar: int, ai: int, br: int, bi: int, cr: int, ci: int)
    ensures
        (ar * br - ai * bi) * cr - (ar * bi + ai * br) * ci == ar * (br * cr - bi * ci) - ai * (br
            * ci + bi * cr),
        (ar * br - ai * bi) * ci + (ar * bi + ai * br) * cr == ar * (br * ci + bi * cr) + ai * (br
            * cr - bi * ci),
{
    let rr = ar * br;
    let ii = ai * bi;
    let ri = ar * bi;
    let ir = ai * br;
    let s_rr = br * cr;
    let s_ii = bi * ci;
    let s_ri = br * ci;
    let s_ir = bi * cr;
    assert((rr - ii) * cr - (ri + ir) * ci == rr * cr - ii * cr - ri * ci - ir * ci)
        by (nonlinear_arith);
    assert(ar * (s_rr - s_ii) - ai * (s_ri + s_ir) == ar * s_rr - ar * s_ii - ai * s_ri - ai * s_ir)
        by (nonlinear_arith);
    assert((rr - ii) * ci + (ri + ir) * cr == rr * ci - ii * ci + ri * cr + ir * cr)
        by (nonlinear_arith);
    assert(ar * (s_ri + s_ir) + ai * (s_rr - s_ii) == ar * s_ri + ar * s_ir + ai * s_rr - ai * s_ii)
        by (nonlinear_arith);
    lemma_triple(ar, br, cr);
    lemma_triple(ai, bi, cr);
    lemma_triple(ar, bi, ci);
    lemma_triple(ai, br, ci);
    lemma_triple(ar, br, ci);
    lemma_triple(ai, bi, ci);
    lemma_triple(ar, bi, cr);
    lemma_triple(ai, br, cr);
}

} // verus!
