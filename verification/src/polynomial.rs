//! The text of a polynomial in `x`, from what its coefficients are as text.
//!
//! A coefficient is given by its sign, by whether its magnitude is one, and
//! by the text of its magnitude; the index of a coefficient is the degree
//! of its term.

use vstd::prelude::*;
use vstd::string::StringExecFns;

verus! {

/// The sign of a coefficient.
#[derive(Clone, Copy, Debug, PartialEq, Eq, Structural)]
pub enum Sign {
    /// Less than zero.
    Negative,
    /// Equal to zero.
    Zero,
    /// Anything else.
    Positive,
}

/// What the text of a polynomial shows of one coefficient.
#[derive(Clone, Debug)]
pub struct Coefficient {
    /// The sign of the coefficient.
    pub sign: Sign,
    /// Whether the magnitude of the coefficient is one.
    pub unit: bool,
    /// The magnitude of the coefficient, as text.
    pub magnitude: String,
}

/// A coefficient with the text of its magnitude as a sequence of characters.
pub ghost struct CoefficientView {
    pub sign: Sign,
    pub unit: bool,
    pub magnitude: Seq<char>,
}

impl View for Coefficient {
    type V = CoefficientView;

    open spec fn view(&self) -> CoefficientView {
        CoefficientView { sign: self.sign, unit: self.unit, magnitude: self.magnitude@ }
    }
}

/// The superscript character of one decimal digit.
pub open spec fn superscript_digit(d: int) -> char
    recommends
        0 <= d < 10,
{
    if d == 0 {
        '\u{2070}'
    } else if d == 1 {
        '\u{b9}'
    } else if d == 2 {
        '\u{b2}'
    } else if d == 3 {
        '\u{b3}'
    } else if d == 4 {
        '\u{2074}'
    } else if d == 5 {
        '\u{2075}'
    } else if d == 6 {
        '\u{2076}'
    } else if d == 7 {
        '\u{2077}'
    } else if d == 8 {
        '\u{2078}'
    } else {
        '\u{2079}'
    }
}

/// A natural number in superscript: its decimal digits, the most
/// significant first, each as its superscript character.
pub open spec fn superscript(n: nat) -> Seq<char>
    decreases n,
{
    if n < 10 {
        seq![superscript_digit(n as int)]
    } else {
        superscript(n / 10).push(superscript_digit((n % 10) as int))
    }
}

/// `n` in superscript, as `fmtastic::Superscript` formats it: the decimal
/// digits of an unsigned number, the most significant first and without a
/// sign, each as its superscript character.
#[verifier::external_body]
fn superscript_text(n: usize) -> (text: String)
    ensures
        text@ == superscript(n as nat),
{
    fmtastic::Superscript(n).to_string()
}

/// A term without its sign: the magnitude, left out where the coefficient
/// is one and the term is not the constant one (a coefficient of minus one
/// keeps its `1`); `x` from degree 1 on; the degree in superscript from
/// degree 2 on.
pub open spec fn term_body(c: CoefficientView, degree: nat) -> Seq<char> {
    let magnitude = if c.unit && c.sign != Sign::Negative && degree != 0 {
        Seq::<char>::empty()
    } else {
        c.magnitude
    };
    let variable = if degree == 0 {
        Seq::<char>::empty()
    } else {
        seq!['x']
    };
    let power = if degree < 2 {
        Seq::<char>::empty()
    } else {
        superscript(degree)
    };
    magnitude + variable + power
}

/// What stands before a term: a minus sign for a negative coefficient, a
/// plus sign for another one, with a space on either side. No space stands
/// before the first term that is shown, and no plus sign before the term of
/// the highest degree.
pub open spec fn term_lead(c: CoefficientView, first: bool, highest: bool) -> Seq<char> {
    let sign = if c.sign == Sign::Negative {
        seq!['-']
    } else if highest {
        Seq::<char>::empty()
    } else {
        seq!['+']
    };
    if !first {
        seq![' '] + sign + seq![' ']
    } else if sign.len() == 0 {
        sign
    } else {
        sign + seq![' ']
    }
}

/// Whether a coefficient of a degree above `degree` is not zero.
pub open spec fn shown_above(coefficients: Seq<CoefficientView>, degree: int) -> bool {
    exists|j: int| degree < j < coefficients.len() && (#[trigger] coefficients[j]).sign != Sign::Zero
}

/// The terms of the degrees from `degree` up, the highest degree first; a
/// term whose coefficient is zero is left out.
pub open spec fn terms_from(coefficients: Seq<CoefficientView>, degree: int) -> Seq<char>
    decreases coefficients.len() - degree,
{
    if degree < 0 || degree >= coefficients.len() {
        Seq::empty()
    } else {
        let higher = terms_from(coefficients, degree + 1);
        let c = coefficients[degree];
        if c.sign == Sign::Zero {
            higher
        } else {
            higher + term_lead(
                c,
                !shown_above(coefficients, degree),
                degree == coefficients.len() - 1,
            ) + term_body(c, degree as nat)
        }
    }
}

/// Whether no coefficient is other than zero.
pub open spec fn all_zero(coefficients: Seq<CoefficientView>) -> bool {
    forall|j: int| 0 <= j < coefficients.len() ==> (#[trigger] coefficients[j]).sign == Sign::Zero
}

/// The text of the polynomial with the given coefficients.
///
/// Without a nonzero coefficient it is `0`. A single coefficient stands
/// alone, a minus sign directly before it if it is negative. Otherwise the
/// terms follow each other from the highest degree down, as `terms_from`
/// says.
pub open spec fn rendering(coefficients: Seq<CoefficientView>) -> Seq<char> {
    if all_zero(coefficients) {
        seq!['0']
    } else if coefficients.len() == 1 {
        if coefficients[0].sign == Sign::Negative {
            seq!['-'] + coefficients[0].magnitude
        } else {
            coefficients[0].magnitude
        }
    } else {
        terms_from(coefficients, 0)
    }
}

/// The views of the coefficients of a vector.
pub open spec fn views(coefficients: Seq<Coefficient>) -> Seq<CoefficientView> {
    Seq::new(coefficients.len(), |i: int| coefficients[i]@)
}

/// Appends the term of the given degree to `text`.
fn push_term(text: &mut String, c: &Coefficient, degree: usize, first: bool, highest: bool)
    requires
        c.sign != Sign::Zero,
    ensures
        final(text)@ == old(text)@ + term_lead(c@, first, highest) + term_body(c@, degree as nat),
{
    proof {
        reveal_strlit(" ");
        reveal_strlit("-");
        reveal_strlit("+");
        reveal_strlit("x");
    }
    let negative = match c.sign {
        Sign::Negative => true,
        _ => false,
    };
    if !first {
        text.append(" ");
    }
    if negative {
        text.append("-");
    } else if !highest {
        text.append("+");
    }
    if !first || negative || !highest {
        text.append(" ");
    }
    assert(text@ =~= old(text)@ + term_lead(c@, first, highest));
    if !(c.unit && !negative && degree != 0) {
        text.append(c.magnitude.as_str());
    }
    if degree != 0 {
        text.append("x");
    }
    if degree >= 2 {
        let power = superscript_text(degree);
        text.append(power.as_str());
    }
    assert(text@ =~= old(text)@ + term_lead(c@, first, highest) + term_body(c@, degree as nat));
}

/// The text of the polynomial whose coefficient of degree `i` is
/// `coefficients[i]`, such as `x² + 2x + 1` or `- 3x³ + x - 0.5`.
///
/// Terms with a zero coefficient are left out, and so is a coefficient of
/// one before the variable; a minus sign stands for a negative
/// coefficient; without a term, the text is `0`.
pub fn render(coefficients: &Vec<Coefficient>) -> (text: String)
    ensures
        text@ == rendering(views(coefficients@)),
{
    let ghost all = views(coefficients@);
    let len = coefficients.len();
    let mut text = String::new();
    let mut shown = false;
    let mut i = len;
    while i > 0
        invariant
            i <= len,
            len == coefficients.len(),
            all == views(coefficients@),
            text@ == terms_from(all, i as int),
            shown == shown_above(all, i - 1),
        decreases i,
    {
        i -= 1;
        let c = &coefficients[i];
        assert(all[i as int] == c@);
        let zero = match c.sign {
            Sign::Zero => true,
            _ => false,
        };
        let ghost above = shown;
        if !zero {
            push_term(&mut text, c, i, !shown, i + 1 == len);
            shown = true;
        }
        proof {
            if shown_above(all, i - 1) {
                let j = choose|j: int| i - 1 < j < all.len() && (#[trigger] all[j]).sign != Sign::Zero;
                if j > i {
                    assert(shown_above(all, i as int));
                }
            }
            if above {
                let j = choose|j: int| i < j < all.len() && (#[trigger] all[j]).sign != Sign::Zero;
                assert(shown_above(all, i - 1));
            }
            if !zero {
                assert(all[i as int].sign != Sign::Zero);
                assert(shown_above(all, i - 1));
            }
        }
    }
    proof {
        reveal_strlit("0");
        reveal_strlit("-");
        if shown {
            let j = choose|j: int| -1 < j < all.len() && (#[trigger] all[j]).sign != Sign::Zero;
            assert(!all_zero(all));
        } else {
            assert forall|j: int| 0 <= j < all.len() implies (#[trigger] all[j]).sign
                == Sign::Zero by {
                if all[j].sign != Sign::Zero {
                    assert(shown_above(all, -1));
                }
            }
        }
    }
    if !shown {
        return String::from_str("0");
    }
    if len == 1 {
        let c = &coefficients[0];
        assert(all[0] == c@);
        let mut single = String::new();
        match c.sign {
            Sign::Negative => {
                single.append("-");
            },
            _ => {},
        }
        single.append(c.magnitude.as_str());
        assert(single@ =~= rendering(all));
        return single;
    }
    text
}

} // verus!
