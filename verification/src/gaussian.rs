//! Gaussian integers: the numbers `a + b·i` with integer `a` and `b`.
//!
//! [`Gaussian`] holds the two parts in machine integers. What its
//! operations compute is stated over [`GaussInt`], the same number with
//! unbounded parts.

use crate::decimal::push_decimal;
use crate::gauss_int::GaussInt;
use crate::gauss_int::law_gcd_divides;
use crate::gauss_int::law_gcd_greatest;
use crate::gauss_int::law_lcm_times_gcd;
use crate::gauss_int::lemma_directed_remainder_norm;
use crate::gauss_int::lemma_divides_basics;
use crate::gauss_int::lemma_gcd_norm;
use crate::gauss_int::lemma_euclid_terminates;
use crate::gauss_int::lemma_norm_multiplicative;
use crate::gauss_int::lemma_norm_positive;
use crate::gauss_int::lemma_parts_within_norm;
use crate::gauss_int::lemma_parts_within_root;
use crate::gauss_int::lemma_quotient_bound;
use crate::gauss_int::lemma_remainder_norm;
use crate::gauss_int::lemma_rounded_is_directed;
use crate::gauss_int::lemma_small_parts;
use crate::gauss_int::lemma_square_bounds;
use crate::gauss_int::lemma_units_have_norm_one;
use crate::rounding::div_ceil;
use crate::rounding::div_floor;
use crate::rounding::div_round;
use core::cmp::Ordering;
use vstd::prelude::*;
use vstd::string::StringExecFns;

verus! {

/// A Gaussian integer whose parts are machine integers.
#[derive(Clone, Copy, Debug, PartialEq, Eq, Structural)]
pub struct Gaussian {
    real: isize,
    imag: isize,
}

impl View for Gaussian {
    type V = GaussInt;

    closed spec fn view(&self) -> GaussInt {
        GaussInt { re: self.real as int, im: self.imag as int }
    }
}

/// Two values are equal exactly when they stand for the same number, and
/// every value stands for a representable number.
pub proof fn lemma_view_is_faithful(a: Gaussian, b: Gaussian)
    ensures
        a@ == b@ <==> a == b,
        a@.representable(),
{
}

/// The product of a machine integer and a number of less than 33 bits has
/// less than 97 bits.
proof fn lemma_product_bound(a: int, b: int)
    requires
        -0x8000_0000_0000_0000 <= a <= 0x8000_0000_0000_0000,
        -0x1_0000_0000 <= b <= 0x1_0000_0000,
    ensures
        -0x8000_0000_0000_0000_0000_0000 <= a * b <= 0x8000_0000_0000_0000_0000_0000,
{
    assert(-0x8000_0000_0000_0000_0000_0000 <= a * b <= 0x8000_0000_0000_0000_0000_0000)
        by (nonlinear_arith)
        requires
            -0x8000_0000_0000_0000 <= a <= 0x8000_0000_0000_0000,
            -0x1_0000_0000 <= b <= 0x1_0000_0000,
    ;
}

/// The product of two machine integers, which a 128-bit integer always holds.
fn wide_product(a: isize, b: isize) -> (p: i128)
    ensures
        p == a * b,
{
    assert(-0x4000_0000_0000_0000_0000_0000_0000_0000 <= a * b
        <= 0x4000_0000_0000_0000_0000_0000_0000_0000) by (nonlinear_arith)
        requires
            -0x8000_0000_0000_0000 <= a <= 0x8000_0000_0000_0000,
            -0x8000_0000_0000_0000 <= b <= 0x8000_0000_0000_0000,
    ;
    (a as i128) * (b as i128)
}

/// One way to round a quotient, with what it leaves.
#[derive(Clone, Copy, Debug, PartialEq, Eq, Structural)]
pub struct Rounding {
    /// The rounded quotient.
    pub quotient: Gaussian,
    /// The dividend minus the rounded quotient times the divisor.
    pub remainder: Gaussian,
    /// The norm of the remainder.
    pub norm: isize,
}

impl Rounding {
    /// Whether this is the directed rounding of `a / d` with its remainder.
    pub open spec fn is_directed(self, a: GaussInt, d: GaussInt, re_up: bool, im_up: bool) -> bool {
        &&& self.quotient@ == a.directed_quotient(d, re_up, im_up)
        &&& self.remainder@ == a.directed_remainder(d, re_up, im_up)
        &&& self.norm == a.directed_remainder(d, re_up, im_up).norm()
    }
}

/// The four ways to round the two parts of a quotient down or up.
#[derive(Clone, Copy, Debug, PartialEq, Eq, Structural)]
pub struct Roundings {
    /// Both parts rounded down.
    pub floor_floor: Rounding,
    /// The real part rounded down, the imaginary part up.
    pub floor_ceil: Rounding,
    /// Both parts rounded up.
    pub ceil_ceil: Rounding,
    /// The real part rounded up, the imaginary part down.
    pub ceil_floor: Rounding,
}

impl Roundings {
    /// Whether `q` is the quotient of one of the four roundings.
    pub open spec fn holds_quotient(self, q: GaussInt) -> bool {
        ||| self.floor_floor.quotient@ == q
        ||| self.floor_ceil.quotient@ == q
        ||| self.ceil_ceil.quotient@ == q
        ||| self.ceil_floor.quotient@ == q
    }
}

impl PartialOrd for Gaussian {
    /// Orders by norm: two different numbers of one norm compare as equal.
    fn partial_cmp(&self, other: &Self) -> (order: Option<Ordering>) {
        let mine = self.wide_norm();
        let theirs = other.wide_norm();
        if mine < theirs {
            Some(Ordering::Less)
        } else if mine > theirs {
            Some(Ordering::Greater)
        } else {
            Some(Ordering::Equal)
        }
    }
}

impl vstd::std_specs::cmp::PartialOrdSpecImpl for Gaussian {
    open spec fn obeys_partial_cmp_spec() -> bool {
        true
    }

    open spec fn partial_cmp_spec(&self, other: &Self) -> Option<Ordering> {
        if self@.norm() < other@.norm() {
            Some(Ordering::Less)
        } else if self@.norm() > other@.norm() {
            Some(Ordering::Greater)
        } else {
            Some(Ordering::Equal)
        }
    }
}

impl Gaussian {
    /// The number `real + imag·i`.
    pub fn new(re: isize, im: isize) -> (g: Self)
        ensures
            g@ == (GaussInt { re: re as int, im: im as int }),
    {
        Self { real: re, imag: im }
    }

    /// The real part.
    pub fn real_part(&self) -> (re: isize)
        ensures
            re == self@.re,
    {
        self.real
    }

    /// The imaginary part.
    pub fn imag_part(&self) -> (im: isize)
        ensures
            im == self@.im,
    {
        self.imag
    }

    /// The sum `self + second`.
    pub fn add(&self, second: &Self) -> (sum: Self)
        requires
            self@.plus(second@).representable(),
        ensures
            sum@ == self@.plus(second@),
    {
        Self { real: self.real + second.real, imag: self.imag + second.imag }
    }

    /// The difference `self - second`.
    pub fn subtract(&self, second: &Self) -> (difference: Self)
        requires
            self@.minus(second@).representable(),
        ensures
            difference@ == self@.minus(second@),
    {
        Self { real: self.real - second.real, imag: self.imag - second.imag }
    }

    /// The product `self · second`.
    pub fn multiply(&self, second: &Self) -> (product: Self)
        requires
            self@.times(second@).representable(),
        ensures
            product@ == self@.times(second@),
    {
        let re = wide_product(self.real, second.real) - wide_product(self.imag, second.imag);
        let im = wide_product(self.real, second.imag) + wide_product(self.imag, second.real);
        Self { real: re as isize, imag: im as isize }
    }

    /// The squared magnitude `real² + imag²`.
    pub fn norm(&self) -> (n: isize)
        requires
            self@.norm() <= isize::MAX,
        ensures
            n == self@.norm(),
            n >= 0,
    {
        proof {
            lemma_square_bounds(self.real as int);
            lemma_square_bounds(self.imag as int);
        }
        let n = wide_product(self.real, self.real) + wide_product(self.imag, self.imag);
        n as isize
    }

    /// The norm in an integer wide enough for every value.
    fn wide_norm(&self) -> (n: u128)
        ensures
            n == self@.norm(),
    {
        proof {
            lemma_square_bounds(self.real as int);
            lemma_square_bounds(self.imag as int);
        }
        let re = wide_product(self.real, self.real) as u128;
        let im = wide_product(self.imag, self.imag) as u128;
        re + im
    }

    /// This number as text, such as `3 + -4i`.
    pub fn to_string(&self) -> (text: String)
        ensures
            text@ == self@.text(),
    {
        proof {
            reveal_strlit(" + ");
            reveal_strlit("i");
        }
        let mut text = String::new();
        push_decimal(&mut text, self.real as i128);
        text.append(" + ");
        push_decimal(&mut text, self.imag as i128);
        text.append("i");
        assert(text@ =~= self@.text());
        text
    }

    /// The quotient `self / second` with each part rounded in a direction
    /// of its own, and what it leaves.
    fn directed(&self, second: &Self, re_up: bool, im_up: bool) -> (rounding: Rounding)
        requires
            second@ != GaussInt::zero(),
            second@.norm() <= isize::MAX,
            self@.directed_fits(second@, re_up, im_up),
        ensures
            rounding.is_directed(self@, second@, re_up, im_up),
    {
        proof {
            lemma_small_parts(second@);
            lemma_norm_positive(second@);
            lemma_parts_within_norm(self@.directed_remainder(second@, re_up, im_up));
            lemma_product_bound(self.real as int, second.real as int);
            lemma_product_bound(self.imag as int, second.imag as int);
            lemma_product_bound(self.imag as int, second.real as int);
            lemma_product_bound(self.real as int, second.imag as int);
            let q = self@.directed_quotient(second@, re_up, im_up);
            lemma_product_bound(q.re, second.real as int);
            lemma_product_bound(q.im, second.imag as int);
            lemma_product_bound(q.re, second.imag as int);
            lemma_product_bound(q.im, second.real as int);
        }
        let n = wide_product(second.real, second.real) + wide_product(second.imag, second.imag);
        let x = wide_product(self.real, second.real) + wide_product(self.imag, second.imag);
        let y = wide_product(self.imag, second.real) - wide_product(self.real, second.imag);
        let q_re = if re_up {
            div_ceil(x, n)
        } else {
            div_floor(x, n)
        };
        let q_im = if im_up {
            div_ceil(y, n)
        } else {
            div_floor(y, n)
        };
        let q = Self { real: q_re as isize, imag: q_im as isize };
        let product_re = wide_product(q.real, second.real) - wide_product(q.imag, second.imag);
        let product_im = wide_product(q.real, second.imag) + wide_product(q.imag, second.real);
        let r = Self {
            real: (self.real as i128 - product_re) as isize,
            imag: (self.imag as i128 - product_im) as isize,
        };
        Rounding { quotient: q, remainder: r, norm: r.norm() }
    }

    /// The four candidates for the quotient `self / second` that rounding
    /// each part down or up gives, each with its remainder and the
    /// remainder's norm. The quotient of [`Gaussian::div_rem`] is one of
    /// them, and every remainder has less than twice the norm of `second`.
    pub fn check_round(&self, second: &Self) -> (roundings: Roundings)
        requires
            second@ != GaussInt::zero(),
            second@.norm() <= isize::MAX,
            self@.directed_fits(second@, false, false),
            self@.directed_fits(second@, false, true),
            self@.directed_fits(second@, true, true),
            self@.directed_fits(second@, true, false),
        ensures
            roundings.floor_floor.is_directed(self@, second@, false, false),
            roundings.floor_ceil.is_directed(self@, second@, false, true),
            roundings.ceil_ceil.is_directed(self@, second@, true, true),
            roundings.ceil_floor.is_directed(self@, second@, true, false),
            roundings.holds_quotient(self@.quotient(second@)),
            roundings.floor_floor.norm < 2 * second@.norm(),
            roundings.floor_ceil.norm < 2 * second@.norm(),
            roundings.ceil_ceil.norm < 2 * second@.norm(),
            roundings.ceil_floor.norm < 2 * second@.norm(),
    {
        proof {
            lemma_rounded_is_directed(self@, second@);
            lemma_directed_remainder_norm(self@, second@, false, false);
            lemma_directed_remainder_norm(self@, second@, false, true);
            lemma_directed_remainder_norm(self@, second@, true, true);
            lemma_directed_remainder_norm(self@, second@, true, false);
        }
        Roundings {
            floor_floor: self.directed(second, false, false),
            floor_ceil: self.directed(second, false, true),
            ceil_ceil: self.directed(second, true, true),
            ceil_floor: self.directed(second, true, false),
        }
    }

    /// Division with remainder: the quotient is `self / second` with each
    /// part rounded to the nearest integer (a tie away from zero), and the
    /// remainder is `self - quotient · second`.
    ///
    /// The remainder's norm is at most half the norm of `second`.
    pub fn div_rem(&self, second: &Self) -> (qr: (Self, Self))
        requires
            second@ != GaussInt::zero(),
            second@.norm() <= isize::MAX,
            self@.quotient(second@).representable(),
        ensures
            qr.0@ == self@.quotient(second@),
            qr.1@ == self@.remainder(second@),
            self@ == qr.0@.times(second@).plus(qr.1@),
            2 * qr.1@.norm() <= second@.norm(),
    {
        proof {
            lemma_small_parts(second@);
            lemma_remainder_norm(self@, second@);
            lemma_parts_within_norm(self@.remainder(second@));
            lemma_norm_positive(second@);
            lemma_product_bound(self.real as int, second.real as int);
            lemma_product_bound(self.imag as int, second.imag as int);
            lemma_product_bound(self.imag as int, second.real as int);
            lemma_product_bound(self.real as int, second.imag as int);
            let q = self@.quotient(second@);
            lemma_product_bound(q.re, second.real as int);
            lemma_product_bound(q.im, second.imag as int);
            lemma_product_bound(q.re, second.imag as int);
            lemma_product_bound(q.im, second.real as int);
        }
        let n = wide_product(second.real, second.real) + wide_product(second.imag, second.imag);
        let x = wide_product(self.real, second.real) + wide_product(self.imag, second.imag);
        let y = wide_product(self.imag, second.real) - wide_product(self.real, second.imag);
        let q = Self { real: div_round(x, n) as isize, imag: div_round(y, n) as isize };
        let product_re = wide_product(q.real, second.real) - wide_product(q.imag, second.imag);
        let product_im = wide_product(q.real, second.imag) + wide_product(q.imag, second.real);
        let r = Self {
            real: (self.real as i128 - product_re) as isize,
            imag: (self.imag as i128 - product_im) as isize,
        };
        (q, r)
    }

    /// Whether this is the number 0.
    pub fn is_zero(&self) -> (zero: bool)
        ensures
            zero == (self@ == GaussInt::zero()),
    {
        self.real == 0 && self.imag == 0
    }

    /// Whether this is one of the four units `1`, `-1`, `i`, `-i`.
    pub fn is_unit(&self) -> (unit: bool)
        ensures
            unit == self@.is_unit(),
            unit == (self@.norm() == 1),
    {
        proof {
            lemma_units_have_norm_one(self@);
        }
        (self.imag == 0 && (self.real == 1 || self.real == -1)) || (self.real == 0 && (self.imag
            == 1 || self.imag == -1))
    }

    /// The greatest common divisor of two numbers, by Euclid's algorithm on
    /// the rounded division: it divides both, and every common divisor
    /// divides it. A result that is a unit is given as 1.
    ///
    /// The remainder's norm at least halves with every step, so the
    /// algorithm ends.
    pub fn gcd(first: &Self, second: &Self) -> (g: Self)
        requires
            first@.norm() <= isize::MAX,
            second@.norm() <= isize::MAX,
        ensures
            g@ == GaussInt::gcd(first@, second@),
            g@.divides(first@),
            g@.divides(second@),
            forall|c: GaussInt| c.divides(first@) && c.divides(second@) ==> c.divides(g@),
    {
        let (mut higher, mut lower) = if *first > *second {
            (*first, *second)
        } else {
            (*second, *first)
        };
        let ghost start = (higher@, lower@);
        while !lower.is_zero()
            invariant
                higher@.norm() <= isize::MAX,
                lower@.norm() <= isize::MAX,
                GaussInt::euclid(higher@, lower@) == GaussInt::euclid(start.0, start.1),
            decreases lower@.norm(),
        {
            proof {
                lemma_quotient_bound(higher@, lower@, isize::MAX as int);
                lemma_euclid_terminates(higher@, lower@);
            }
            let rem = higher.modulo(&lower);
            higher = lower;
            lower = rem;
        }
        if higher.is_unit() {
            higher = Self { real: 1, imag: 0 };
        }
        proof {
            if first@ != GaussInt::zero() || second@ != GaussInt::zero() {
                law_gcd_divides(first@, second@);
            } else {
                lemma_divides_basics(first@);
            }
            assert forall|c: GaussInt| c.divides(first@) && c.divides(second@) implies c.divides(
                higher@,
            ) by {
                law_gcd_greatest(first@, second@, c);
            }
        }
        higher
    }

    /// The least common multiple of two numbers that are not both zero: their
    /// product divided by their greatest common divisor, which leaves no
    /// remainder.
    pub fn lcm(first: &Self, second: &Self) -> (l: Self)
        requires
            first@.norm() <= isize::MAX,
            second@.norm() <= isize::MAX,
            first@ != GaussInt::zero() || second@ != GaussInt::zero(),
        ensures
            l@ == GaussInt::lcm(first@, second@),
            l@.times(GaussInt::gcd(first@, second@)) == first@.times(second@),
    {
        proof {
            let (a, b) = (first@, second@);
            let m = isize::MAX as int;
            let g = GaussInt::gcd(a, b);
            law_gcd_divides(a, b);
            law_lcm_times_gcd(a, b);
            lemma_norm_multiplicative(a, b);
            lemma_norm_positive(a);
            lemma_norm_positive(b);
            lemma_norm_positive(g);
            lemma_norm_positive(GaussInt::lcm(a, b));
            let (na, nb, ng, nl) = (a.norm(), b.norm(), g.norm(), GaussInt::lcm(a, b).norm());
            assert(na * nb <= m * m) by (nonlinear_arith)
                requires
                    0 <= na <= m,
                    0 <= nb <= m,
            ;
            assert(nl <= nl * ng) by (nonlinear_arith)
                requires
                    0 <= nl,
                    1 <= ng,
            ;
            lemma_parts_within_root(a.times(b), m);
            lemma_parts_within_root(GaussInt::lcm(a, b), m);
            lemma_gcd_norm(a, b, m);
        }
        let product = first.multiply(second);
        let g = Self::gcd(first, second);
        product.divide(&g)
    }

    /// The quotient of [`Gaussian::div_rem`].
    pub fn divide(&self, second: &Self) -> (quotient: Self)
        requires
            second@ != GaussInt::zero(),
            second@.norm() <= isize::MAX,
            self@.quotient(second@).representable(),
        ensures
            quotient@ == self@.quotient(second@),
    {
        self.div_rem(second).0
    }

    /// The remainder of [`Gaussian::div_rem`].
    pub fn modulo(&self, second: &Self) -> (remainder: Self)
        requires
            second@ != GaussInt::zero(),
            second@.norm() <= isize::MAX,
            self@.quotient(second@).representable(),
        ensures
            remainder@ == self@.remainder(second@),
            2 * remainder@.norm() <= second@.norm(),
    {
        self.div_rem(second).1
    }
}

} // verus!
