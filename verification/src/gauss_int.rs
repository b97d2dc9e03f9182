//! The Gaussian integers as mathematics knows them: with unbounded parts.
//!
//! [`GaussInt`] says what the operations of the machine type compute, and
//! the laws that hold of them are proved here.

use crate::decimal::decimal;
use crate::rounding::ceil_div;
use crate::rounding::floor_div;
use crate::rounding::round_div;
use vstd::prelude::*;

verus! {

/// The number `re + im·i` with unbounded parts.
pub ghost struct GaussInt {
    pub re: int,
    pub im: int,
}

impl GaussInt {
    /// The number 0.
    pub open spec fn zero() -> GaussInt {
        GaussInt { re: 0, im: 0 }
    }

    /// The number 1.
    pub open spec fn one() -> GaussInt {
        GaussInt { re: 1, im: 0 }
    }

    /// The sum of two numbers.
    pub open spec fn plus(self, rhs: GaussInt) -> GaussInt {
        GaussInt { re: self.re + rhs.re, im: self.im + rhs.im }
    }

    /// The difference of two numbers.
    pub open spec fn minus(self, rhs: GaussInt) -> GaussInt {
        GaussInt { re: self.re - rhs.re, im: self.im - rhs.im }
    }

    /// The product of two numbers: `(ac - bd) + (ad + bc)·i`.
    pub open spec fn times(self, rhs: GaussInt) -> GaussInt {
        GaussInt {
            re: self.re * rhs.re - self.im * rhs.im,
            im: self.re * rhs.im + self.im * rhs.re,
        }
    }

    /// The squared magnitude `re² + im²`.
    pub open spec fn norm(self) -> int {
        self.re * self.re + self.im * self.im
    }

    /// Whether this is one of the four numbers of norm 1: `1`, `-1`, `i`, `-i`.
    pub open spec fn is_unit(self) -> bool {
        ||| self == GaussInt { re: 1, im: 0 }
        ||| self == GaussInt { re: -1, im: 0 }
        ||| self == GaussInt { re: 0, im: 1 }
        ||| self == GaussInt { re: 0, im: -1 }
    }

    /// The real part of `self · conj(d)`: the numerator of the real part of
    /// `self / d` over the denominator `d.norm()`.
    pub open spec fn real_numerator(self, d: GaussInt) -> int {
        self.re * d.re + self.im * d.im
    }

    /// The imaginary part of `self · conj(d)`: the numerator of the
    /// imaginary part of `self / d` over the denominator `d.norm()`.
    pub open spec fn imag_numerator(self, d: GaussInt) -> int {
        self.im * d.re - self.re * d.im
    }

    /// The exact quotient `self / d` with each part rounded to the nearest
    /// integer, a tie away from zero.
    pub open spec fn quotient(self, d: GaussInt) -> GaussInt
        recommends
            d != GaussInt::zero(),
    {
        GaussInt {
            re: round_div(self.real_numerator(d), d.norm()),
            im: round_div(self.imag_numerator(d), d.norm()),
        }
    }

    /// What is left of `self` after the rounded quotient times `d` is taken
    /// away.
    pub open spec fn remainder(self, d: GaussInt) -> GaussInt
        recommends
            d != GaussInt::zero(),
    {
        self.minus(self.quotient(d).times(d))
    }

    /// Whether `self` divides `a` exactly: `a` is `self` times some Gaussian
    /// integer.
    pub open spec fn divides(self, a: GaussInt) -> bool {
        exists|k: GaussInt| a == #[trigger] k.times(self)
    }

    /// The quotient `self / d` with each part rounded in a direction of its
    /// own: upwards where the flag is set, downwards where it is not.
    pub open spec fn directed_quotient(self, d: GaussInt, re_up: bool, im_up: bool) -> GaussInt
        recommends
            d != GaussInt::zero(),
    {
        GaussInt {
            re: if re_up {
                ceil_div(self.real_numerator(d), d.norm())
            } else {
                floor_div(self.real_numerator(d), d.norm())
            },
            im: if im_up {
                ceil_div(self.imag_numerator(d), d.norm())
            } else {
                floor_div(self.imag_numerator(d), d.norm())
            },
        }
    }

    /// What is left of `self` after the directed quotient times `d` is taken
    /// away.
    pub open spec fn directed_remainder(self, d: GaussInt, re_up: bool, im_up: bool) -> GaussInt
        recommends
            d != GaussInt::zero(),
    {
        self.minus(self.directed_quotient(d, re_up, im_up).times(d))
    }

    /// Whether the directed quotient and the norm of its remainder fit the
    /// machine integers of [`crate::gaussian::Gaussian`].
    pub open spec fn directed_fits(self, d: GaussInt, re_up: bool, im_up: bool) -> bool {
        &&& self.directed_quotient(d, re_up, im_up).representable()
        &&& self.directed_remainder(d, re_up, im_up).norm() <= isize::MAX
    }

    /// This number as text: the real part, ` + `, the imaginary part, `i`.
    /// The plus sign stands also before a negative imaginary part.
    pub open spec fn text(self) -> Seq<char> {
        decimal(self.re) + seq![' ', '+', ' '] + decimal(self.im) + seq!['i']
    }

    /// The result of Euclid's algorithm on `higher` and `lower`: the pair is
    /// replaced by `lower` and the remainder of `higher` by `lower` until the
    /// second number is zero; the first is then the result.
    pub open spec fn euclid(higher: GaussInt, lower: GaussInt) -> GaussInt
        decreases lower.norm(),
        via Self::euclid_decreases
    {
        if lower == GaussInt::zero() {
            higher
        } else {
            GaussInt::euclid(lower, higher.remainder(lower))
        }
    }

    #[via_fn]
    proof fn euclid_decreases(higher: GaussInt, lower: GaussInt) {
        if lower != GaussInt::zero() {
            lemma_euclid_terminates(higher, lower);
        }
    }

    /// The greatest common divisor that [`crate::gaussian::Gaussian::gcd`]
    /// computes: Euclid's
    /// algorithm started with the operand of larger norm as the dividend (on
    /// equal norms, with `second`), and a unit as its result replaced by 1.
    pub open spec fn gcd(first: GaussInt, second: GaussInt) -> GaussInt {
        let last = if first.norm() > second.norm() {
            GaussInt::euclid(first, second)
        } else {
            GaussInt::euclid(second, first)
        };
        if last.is_unit() {
            GaussInt::one()
        } else {
            last
        }
    }

    /// The least common multiple that [`crate::gaussian::Gaussian::lcm`]
    /// computes: the product divided by the greatest common divisor.
    pub open spec fn lcm(first: GaussInt, second: GaussInt) -> GaussInt
        recommends
            first != GaussInt::zero() || second != GaussInt::zero(),
    {
        first.times(second).quotient(GaussInt::gcd(first, second))
    }

    /// Whether both parts fit the machine integers of
    /// [`crate::gaussian::Gaussian`].
    pub open spec fn representable(self) -> bool {
        &&& isize::MIN <= self.re <= isize::MAX
        &&& isize::MIN <= self.im <= isize::MAX
    }
}

/// A square is not negative, and no nearer to zero than its root.
pub proof fn lemma_square_bounds(a: int)
    ensures
        0 <= a * a,
        -(a * a) <= a <= a * a,
{
    assert(0 <= a * a && -(a * a) <= a <= a * a) by (nonlinear_arith);
}

/// Only zero has norm 0; every other number has a positive norm.
pub proof fn lemma_norm_positive(a: GaussInt)
    ensures
        a.norm() >= 0,
        a.norm() == 0 <==> a == GaussInt::zero(),
{
    lemma_square_bounds(a.re);
    lemma_square_bounds(a.im);
    let (x, y) = (a.re, a.im);
    assert(x == 0 ==> x * x == 0) by (nonlinear_arith);
    assert(y == 0 ==> y * y == 0) by (nonlinear_arith);
}

/// No part of a number is larger in magnitude than the norm.
pub proof fn lemma_parts_within_norm(a: GaussInt)
    ensures
        -a.norm() <= a.re <= a.norm(),
        -a.norm() <= a.im <= a.norm(),
{
    lemma_square_bounds(a.re);
    lemma_square_bounds(a.im);
}

/// A number whose norm is at most `m²` has parts of magnitude at most `m`.
pub proof fn lemma_parts_within_root(a: GaussInt, m: int)
    requires
        0 <= m,
        a.norm() <= m * m,
    ensures
        -m <= a.re <= m,
        -m <= a.im <= m,
{
    lemma_square_bounds(a.re);
    lemma_square_bounds(a.im);
    let (x, y) = (a.re, a.im);
    assert(-m <= x <= m) by (nonlinear_arith)
        requires
            x * x <= m * m,
            m >= 0,
    ;
    assert(-m <= y <= m) by (nonlinear_arith)
        requires
            y * y <= m * m,
            m >= 0,
    ;
}

/// A number whose norm a machine integer holds has parts of less than 33 bits.
pub proof fn lemma_small_parts(a: GaussInt)
    requires
        a.norm() <= isize::MAX,
    ensures
        -0x1_0000_0000 < a.re < 0x1_0000_0000,
        -0x1_0000_0000 < a.im < 0x1_0000_0000,
        0 <= a.re * a.re <= a.norm(),
        0 <= a.im * a.im <= a.norm(),
{
    lemma_square_bounds(a.re);
    lemma_square_bounds(a.im);
    let (x, y) = (a.re, a.im);
    assert(-0x1_0000_0000 < x < 0x1_0000_0000) by (nonlinear_arith)
        requires
            x * x <= 0x7fff_ffff_ffff_ffff,
    ;
    assert(-0x1_0000_0000 < y < 0x1_0000_0000) by (nonlinear_arith)
        requires
            y * y <= 0x7fff_ffff_ffff_ffff,
    ;
}

/// The units are the numbers of norm 1.
pub proof fn lemma_units_have_norm_one(a: GaussInt)
    ensures
        a.is_unit() <==> a.norm() == 1,
{
    lemma_square_bounds(a.re);
    lemma_square_bounds(a.im);
    let (x, y) = (a.re, a.im);
    assert(x == 0 ==> x * x == 0) by (nonlinear_arith);
    assert(y == 0 ==> y * y == 0) by (nonlinear_arith);
    assert(x == 1 || x == -1 ==> x * x == 1) by (nonlinear_arith);
    assert(y == 1 || y == -1 ==> y * y == 1) by (nonlinear_arith);
}

/// Zero times anything is zero, and one times anything is that thing.
pub proof fn lemma_times_identities(a: GaussInt)
    ensures
        GaussInt::zero().times(a) == GaussInt::zero(),
        GaussInt::one().times(a) == a,
        a.times(GaussInt::one()) == a,
{
    let (x, y) = (a.re, a.im);
    assert(0 * x == 0 && 0 * y == 0 && 1 * x == x && 1 * y == y && x * 1 == x && y * 1 == y
        && x * 0 == 0 && y * 0 == 0) by (nonlinear_arith);
}

/// Multiplication does not depend on the order of its factors.
pub proof fn lemma_times_commutes(a: GaussInt, b: GaussInt)
    ensures
        a.times(b) == b.times(a),
{
    assert(a.re * b.re == b.re * a.re && a.im * b.im == b.im * a.im && a.re * b.im == b.im
        * a.re && a.im * b.re == b.re * a.im) by (nonlinear_arith);
}

/// Multiplication does not depend on how its factors are grouped.
pub proof fn lemma_times_associates(a: GaussInt, b: GaussInt, c: GaussInt)
    ensures
        a.times(b).times(c) == a.times(b.times(c)),
{
    crate::identities::lemma_complex_associative(a.re, a.im, b.re, b.im, c.re, c.im);
}

/// Multiplication distributes over addition and over subtraction.
pub proof fn lemma_times_distributes(a: GaussInt, b: GaussInt, c: GaussInt)
    ensures
        a.plus(b).times(c) == a.times(c).plus(b.times(c)),
        a.minus(b).times(c) == a.times(c).minus(b.times(c)),
{
    let (ar, ai, br, bi, cr, ci) = (a.re, a.im, b.re, b.im, c.re, c.im);
    assert((ar + br) * cr - (ai + bi) * ci == (ar * cr - ai * ci) + (br * cr - bi * ci))
        by (nonlinear_arith);
    assert((ar + br) * ci + (ai + bi) * cr == (ar * ci + ai * cr) + (br * ci + bi * cr))
        by (nonlinear_arith);
    assert((ar - br) * cr - (ai - bi) * ci == (ar * cr - ai * ci) - (br * cr - bi * ci))
        by (nonlinear_arith);
    assert((ar - br) * ci + (ai - bi) * cr == (ar * ci + ai * cr) - (br * ci + bi * cr))
        by (nonlinear_arith);
}

/// The norm of a product is the product of the norms.
pub proof fn lemma_norm_multiplicative(a: GaussInt, b: GaussInt)
    ensures
        a.times(b).norm() == a.norm() * b.norm(),
{
    crate::identities::lemma_two_squares(a.re, a.im, b.re, b.im);
}

/// The two numerators of `a / d` are the parts of `a · conj(d)`, whose norm
/// is the product of the norms of `a` and `d`.
pub proof fn lemma_numerators_norm(a: GaussInt, d: GaussInt)
    ensures
        a.real_numerator(d) * a.real_numerator(d) + a.imag_numerator(d) * a.imag_numerator(d)
            == a.norm() * d.norm(),
{
    let (ar, ai, dr, di) = (a.re, a.im, d.re, d.im);
    crate::identities::lemma_two_squares(ar, ai, dr, -di);
    assert(ai * (-di) == -(ai * di) && ar * (-di) == -(ar * di) && (-di) * (-di) == di * di)
        by (nonlinear_arith);
}

/// The remainder of the rounded division has at most half the norm of the
/// divisor.
pub proof fn lemma_remainder_norm(a: GaussInt, d: GaussInt)
    requires
        d != GaussInt::zero(),
    ensures
        2 * a.remainder(d).norm() <= d.norm(),
{
    lemma_norm_positive(d);
    let n = d.norm();
    let x = a.real_numerator(d);
    let y = a.imag_numerator(d);
    let q = a.quotient(d);
    let r = a.remainder(d);
    let u = x - q.re * n;
    let v = y - q.im * n;
    crate::rounding::lemma_round_div_nearest(x, n);
    crate::rounding::lemma_round_div_nearest(y, n);
    crate::identities::lemma_remainder_numerators(a.re, a.im, d.re, d.im, q.re, q.im);
    assert(r.real_numerator(d) == u);
    assert(r.imag_numerator(d) == v);
    lemma_numerators_norm(r, d);
    lemma_norm_positive(r);
    assert(4 * (u * u) <= n * n) by (nonlinear_arith)
        requires
            -n <= 2 * u <= n,
    ;
    assert(4 * (v * v) <= n * n) by (nonlinear_arith)
        requires
            -n <= 2 * v <= n,
    ;
    let m = r.norm();
    assert(m * n == u * u + v * v);
    assert(2 * m <= n) by (nonlinear_arith)
        requires
            n > 0,
            m >= 0,
            4 * (m * n) <= 2 * (n * n),
    ;
}

/// The remainder of a directed division has less than twice the norm of the
/// divisor.
pub proof fn lemma_directed_remainder_norm(a: GaussInt, d: GaussInt, re_up: bool, im_up: bool)
    requires
        d != GaussInt::zero(),
    ensures
        a.directed_remainder(d, re_up, im_up).norm() < 2 * d.norm(),
{
    lemma_norm_positive(d);
    let n = d.norm();
    let x = a.real_numerator(d);
    let y = a.imag_numerator(d);
    let q = a.directed_quotient(d, re_up, im_up);
    let r = a.directed_remainder(d, re_up, im_up);
    let u = x - q.re * n;
    let v = y - q.im * n;
    crate::rounding::lemma_floor_ceil_enclose(x, n);
    crate::rounding::lemma_floor_ceil_enclose(y, n);
    assert(-n < u < n) by (nonlinear_arith)
        requires
            u == x - q.re * n,
            q.re * n <= x < (q.re + 1) * n || (q.re - 1) * n < x <= q.re * n,
    ;
    assert(-n < v < n) by (nonlinear_arith)
        requires
            v == y - q.im * n,
            q.im * n <= y < (q.im + 1) * n || (q.im - 1) * n < y <= q.im * n,
    ;
    crate::identities::lemma_remainder_numerators(a.re, a.im, d.re, d.im, q.re, q.im);
    assert(r.real_numerator(d) == u);
    assert(r.imag_numerator(d) == v);
    lemma_numerators_norm(r, d);
    lemma_norm_positive(r);
    assert(u * u < n * n) by (nonlinear_arith)
        requires
            -n < u < n,
    ;
    assert(v * v < n * n) by (nonlinear_arith)
        requires
            -n < v < n,
    ;
    let m = r.norm();
    assert(m * n == u * u + v * v);
    assert(m < 2 * n) by (nonlinear_arith)
        requires
            n > 0,
            m >= 0,
            m * n < 2 * (n * n),
    ;
}

/// The rounded quotient is one of the four directed quotients.
pub proof fn lemma_rounded_is_directed(a: GaussInt, d: GaussInt)
    requires
        d != GaussInt::zero(),
    ensures
        exists|re_up: bool, im_up: bool|
            a.quotient(d) == #[trigger] a.directed_quotient(d, re_up, im_up),
{
    lemma_norm_positive(d);
    let n = d.norm();
    let x = a.real_numerator(d);
    let y = a.imag_numerator(d);
    crate::rounding::lemma_round_div_is_directed(x, n);
    crate::rounding::lemma_round_div_is_directed(y, n);
    let re_up = round_div(x, n) != floor_div(x, n);
    let im_up = round_div(y, n) != floor_div(y, n);
    assert(a.quotient(d) == a.directed_quotient(d, re_up, im_up));
}

/// A product divided by one of its factors gives the other factor back, and
/// leaves nothing.
pub proof fn lemma_exact_quotient(k: GaussInt, d: GaussInt)
    requires
        d != GaussInt::zero(),
    ensures
        k.times(d).quotient(d) == k,
        k.times(d).remainder(d) == GaussInt::zero(),
{
    lemma_norm_positive(d);
    let a = k.times(d);
    let n = d.norm();
    crate::identities::lemma_product_numerators(k.re, k.im, d.re, d.im);
    assert(a.real_numerator(d) == k.re * n);
    assert(a.imag_numerator(d) == k.im * n);
    crate::rounding::lemma_round_div_exact(k.re, n);
    crate::rounding::lemma_round_div_exact(k.im, n);
    let q = a.quotient(d);
    assert(q == k);
    assert(a.remainder(d) == GaussInt::zero());
}

/// Where dividend and divisor have norms of at most `m`, so has each part of
/// the rounded quotient a magnitude of at most `m`.
pub proof fn lemma_quotient_bound(a: GaussInt, d: GaussInt, m: int)
    requires
        d != GaussInt::zero(),
        a.norm() <= m,
        d.norm() <= m,
    ensures
        -m <= a.quotient(d).re <= m,
        -m <= a.quotient(d).im <= m,
{
    lemma_norm_positive(d);
    lemma_norm_positive(a);
    let n = d.norm();
    let x = a.real_numerator(d);
    let y = a.imag_numerator(d);
    lemma_numerators_norm(a, d);
    lemma_square_bounds(x);
    lemma_square_bounds(y);
    let na = a.norm();
    assert(na * n <= m * m) by (nonlinear_arith)
        requires
            0 <= na <= m,
            0 <= n <= m,
    ;
    assert(-m <= x <= m) by (nonlinear_arith)
        requires
            x * x <= m * m,
            m >= 0,
    ;
    assert(-m <= y <= m) by (nonlinear_arith)
        requires
            y * y <= m * m,
            m >= 0,
    ;
    crate::rounding::lemma_round_div_bound(x, n);
    crate::rounding::lemma_round_div_bound(y, n);
}

/// Every number divides itself and zero, and one divides every number.
pub proof fn lemma_divides_basics(a: GaussInt)
    ensures
        a.divides(a),
        a.divides(GaussInt::zero()),
        GaussInt::one().divides(a),
{
    lemma_times_identities(a);
    assert(a == GaussInt::one().times(a));
    assert(GaussInt::zero() == GaussInt::zero().times(a));
    assert(a == a.times(GaussInt::one()));
}

/// What divides two numbers divides the second times anything plus the first.
pub proof fn lemma_divides_combination(g: GaussInt, l: GaussInt, r: GaussInt, q: GaussInt)
    requires
        g.divides(l),
        g.divides(r),
    ensures
        g.divides(q.times(l).plus(r)),
        g.divides(r.minus(q.times(l))),
{
    let k1 = choose|k: GaussInt| l == #[trigger] k.times(g);
    let k2 = choose|k: GaussInt| r == #[trigger] k.times(g);
    lemma_times_associates(q, k1, g);
    lemma_times_distributes(q.times(k1), k2, g);
    assert(q.times(l).plus(r) == q.times(k1).plus(k2).times(g));
    lemma_times_distributes(k2, q.times(k1), g);
    assert(r.minus(q.times(l)) == k2.minus(q.times(k1)).times(g));
}

/// A divisor other than zero leaves no remainder in what it divides.
pub proof fn lemma_divisor_leaves_nothing(g: GaussInt, a: GaussInt)
    requires
        g != GaussInt::zero(),
        g.divides(a),
    ensures
        a.remainder(g) == GaussInt::zero(),
        a == a.quotient(g).times(g),
{
    let k = choose|k: GaussInt| a == #[trigger] k.times(g);
    lemma_exact_quotient(k, g);
}

/// A remainder has a smaller norm than the divisor, which is why Euclid's
/// algorithm ends.
pub proof fn lemma_euclid_terminates(higher: GaussInt, lower: GaussInt)
    requires
        lower != GaussInt::zero(),
    ensures
        0 <= higher.remainder(lower).norm() < lower.norm(),
{
    lemma_remainder_norm(higher, lower);
    lemma_norm_positive(higher.remainder(lower));
    lemma_norm_positive(lower);
}

/// The result of Euclid's algorithm divides both numbers it started from.
pub proof fn lemma_euclid_divides(higher: GaussInt, lower: GaussInt)
    ensures
        GaussInt::euclid(higher, lower).divides(higher),
        GaussInt::euclid(higher, lower).divides(lower),
    decreases lower.norm(),
{
    if lower == GaussInt::zero() {
        lemma_divides_basics(higher);
    } else {
        let r = higher.remainder(lower);
        lemma_euclid_terminates(higher, lower);
        lemma_euclid_divides(lower, r);
        let g = GaussInt::euclid(lower, r);
        lemma_divides_combination(g, lower, r, higher.quotient(lower));
        assert(higher == higher.quotient(lower).times(lower).plus(r));
    }
}

/// What divides both numbers that Euclid's algorithm starts from divides its
/// result.
pub proof fn lemma_euclid_greatest(higher: GaussInt, lower: GaussInt, c: GaussInt)
    requires
        c.divides(higher),
        c.divides(lower),
    ensures
        c.divides(GaussInt::euclid(higher, lower)),
    decreases lower.norm(),
{
    if lower != GaussInt::zero() {
        let r = higher.remainder(lower);
        lemma_euclid_terminates(higher, lower);
        lemma_divides_combination(c, lower, higher, higher.quotient(lower));
        lemma_euclid_greatest(lower, r, c);
    }
}

/// Euclid's algorithm gives zero only where it starts from two zeros, and
/// its result has no larger norm than the larger of the two.
pub proof fn lemma_euclid_norm(higher: GaussInt, lower: GaussInt, m: int)
    requires
        higher.norm() <= m,
        lower.norm() <= m,
    ensures
        GaussInt::euclid(higher, lower).norm() <= m,
        GaussInt::euclid(higher, lower) == GaussInt::zero() <==> (higher == GaussInt::zero()
            && lower == GaussInt::zero()),
    decreases lower.norm(),
{
    if lower != GaussInt::zero() {
        let r = higher.remainder(lower);
        lemma_euclid_terminates(higher, lower);
        lemma_euclid_norm(lower, r, m);
    }
}

/// The greatest common divisor has no larger norm than the larger of the
/// two numbers.
pub proof fn lemma_gcd_norm(a: GaussInt, b: GaussInt, m: int)
    requires
        a.norm() <= m,
        b.norm() <= m,
    ensures
        GaussInt::gcd(a, b).norm() <= m,
{
    let last = if a.norm() > b.norm() {
        lemma_euclid_norm(a, b, m);
        GaussInt::euclid(a, b)
    } else {
        lemma_euclid_norm(b, a, m);
        GaussInt::euclid(b, a)
    };
    lemma_units_have_norm_one(last);
    lemma_units_have_norm_one(GaussInt::one());
}

/// The division identity: a dividend is the rounded quotient times the
/// divisor, plus the remainder.
pub proof fn law_division_identity(a: GaussInt, b: GaussInt)
    requires
        b != GaussInt::zero(),
    ensures
        a == a.quotient(b).times(b).plus(a.remainder(b)),
{
}

/// The greatest common divisor of two numbers that are not both zero is not
/// zero and divides both exactly: each is a multiple of it, and dividing
/// each by it leaves the remainder zero, of norm 0.
pub proof fn law_gcd_divides(a: GaussInt, b: GaussInt)
    requires
        a != GaussInt::zero() || b != GaussInt::zero(),
    ensures
        GaussInt::gcd(a, b) != GaussInt::zero(),
        GaussInt::gcd(a, b).divides(a),
        GaussInt::gcd(a, b).divides(b),
        a.remainder(GaussInt::gcd(a, b)).norm() == 0,
        b.remainder(GaussInt::gcd(a, b)).norm() == 0,
{
    let g = GaussInt::gcd(a, b);
    let m = if a.norm() > b.norm() {
        a.norm()
    } else {
        b.norm()
    };
    if a.norm() > b.norm() {
        lemma_euclid_divides(a, b);
        lemma_euclid_norm(a, b, m);
    } else {
        lemma_euclid_divides(b, a);
        lemma_euclid_norm(b, a, m);
    }
    lemma_divides_basics(a);
    lemma_divides_basics(b);
    lemma_divisor_leaves_nothing(g, a);
    lemma_divisor_leaves_nothing(g, b);
}

/// Every common divisor of two numbers divides their greatest common
/// divisor.
pub proof fn law_gcd_greatest(a: GaussInt, b: GaussInt, c: GaussInt)
    requires
        c.divides(a),
        c.divides(b),
    ensures
        c.divides(GaussInt::gcd(a, b)),
{
    let last = if a.norm() > b.norm() {
        lemma_euclid_greatest(a, b, c);
        GaussInt::euclid(a, b)
    } else {
        lemma_euclid_greatest(b, a, c);
        GaussInt::euclid(b, a)
    };
    if last.is_unit() {
        // A unit has an inverse, so what divides a unit divides 1.
        let k = choose|k: GaussInt| last == #[trigger] k.times(c);
        let inverse = GaussInt { re: last.re, im: -last.im };
        lemma_times_associates(inverse, k, c);
        assert(inverse.times(last) == GaussInt::one()) by (nonlinear_arith)
            requires
                last.is_unit(),
                inverse == (GaussInt { re: last.re, im: -last.im }),
        ;
        assert(GaussInt::one() == inverse.times(k).times(c));
    }
}

/// The least common multiple times the greatest common divisor is the
/// product of the two numbers, so the two products have the same norm.
pub proof fn law_lcm_times_gcd(a: GaussInt, b: GaussInt)
    requires
        a != GaussInt::zero() || b != GaussInt::zero(),
    ensures
        GaussInt::lcm(a, b).times(GaussInt::gcd(a, b)) == a.times(b),
        GaussInt::lcm(a, b).times(GaussInt::gcd(a, b)).norm() == a.times(b).norm(),
        GaussInt::lcm(a, b).norm() * GaussInt::gcd(a, b).norm() == a.norm() * b.norm(),
{
    let g = GaussInt::gcd(a, b);
    law_gcd_divides(a, b);
    let k = choose|k: GaussInt| a == #[trigger] k.times(g);
    lemma_times_associates(k, g, b);
    lemma_times_commutes(g, b);
    lemma_times_associates(k, b, g);
    assert(a.times(b) == k.times(b).times(g));
    lemma_exact_quotient(k.times(b), g);
    lemma_norm_multiplicative(GaussInt::lcm(a, b), g);
    lemma_norm_multiplicative(a, b);
}

} // verus!
