//! Exact arithmetic on Gaussian integers, the text of polynomials, and
//! points of an integer lattice with their minimal elements.
//!
//! Every function states what it computes over a mathematical model, and
//! the laws that hold of the operations are proved beside them.

/// Integers written out in decimal digits.
pub mod decimal;
/// The Gaussian integers with unbounded parts, and their laws.
pub mod gauss_int;
/// Gaussian integers in machine integers: arithmetic, rounded division,
/// greatest common divisor and least common multiple.
pub mod gaussian;
/// Lattice points, their partial order, the points of a box that satisfy a
/// predicate, and the minimal elements of a set.
pub mod grid;
/// Identities between integer polynomials.
pub mod identities;
/// The text of a polynomial.
pub mod polynomial;
/// Division of integers with a rounded quotient.
pub mod rounding;
/// The minimal elements of a sequence in a partial order.
pub mod skyline;
/// The walk through the points of a box.
pub mod walk;
