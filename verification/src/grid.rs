//! Points of an integer lattice, the componentwise partial order on them,
//! the points of a box that satisfy a predicate, and the minimal elements
//! of a set.

use core::cmp::Ordering;
use crate::skyline::absorb;
use crate::skyline::compare;
use crate::skyline::is_minimal_cover;
use crate::skyline::is_partial_order;
use crate::skyline::is_selection;
use crate::skyline::law_skyline_is_minimal;
use crate::skyline::order_is_specified;
use crate::skyline::picks_in_order;
use crate::skyline::relation;
use crate::skyline::skyline;
use crate::skyline::Relation;
use crate::walk::below;
use crate::walk::holds_from;
use crate::walk::kept;
use crate::walk::lemma_kept_add;
use crate::walk::lemma_kept_agrees;
use crate::walk::lemma_kept_is_filter;
use crate::walk::lemma_raised;
use crate::walk::lemma_reach_is_within;
use crate::walk::lemma_reach_last;
use crate::walk::lemma_reach_nested;
use crate::walk::lemma_reach_step;
use crate::walk::lemma_sweep_reach;
use crate::walk::lemma_total_monotone;
use crate::walk::lemma_total_update;
use crate::walk::lemma_walk_reach;
use crate::walk::raised;
use crate::walk::reach;
use crate::walk::span;
use crate::walk::sweep;
use crate::walk::walk;
use crate::walk::within;
use vstd::prelude::*;
use vstd::std_specs::cmp::OrdSpec;
use vstd::std_specs::cmp::PartialEqSpec;
use vstd::std_specs::cmp::PartialOrdSpec;

verus! {

/// A point with `DIMS` coordinates.
#[derive(Clone, Debug)]
pub struct Point<T, const DIMS: usize> {
    pub coords: [T; DIMS],
}

impl<T, const DIMS: usize> Point<T, DIMS> {
    /// The point with the given coordinates.
    pub fn new(point: [T; DIMS]) -> (p: Self)
        ensures
            p.coords == point,
    {
        Self { coords: point }
    }
}

impl<T: Ord, const DIMS: usize> Point<T, DIMS> {
    /// Whether some coordinate of `self` is smaller than that of `other`.
    pub open spec fn smaller_somewhere(self, other: Self) -> bool {
        exists|i: int|
            0 <= i < DIMS && (#[trigger] self.coords[i]).cmp_spec(&other.coords[i])
                == Ordering::Less
    }

    /// Whether some coordinate of `self` is greater than that of `other`.
    pub open spec fn greater_somewhere(self, other: Self) -> bool {
        exists|i: int|
            0 <= i < DIMS && (#[trigger] self.coords[i]).cmp_spec(&other.coords[i])
                == Ordering::Greater
    }
}

impl<T: Eq, const DIMS: usize> PartialEq for Point<T, DIMS> {
    /// Two points are equal where all their coordinates are.
    fn eq(&self, other: &Self) -> (equal: bool) {
        let mut i: usize = 0;
        while i < DIMS
            invariant
                i <= DIMS,
                T::obeys_eq_spec() ==> forall|j: int|
                    0 <= j < i ==> (#[trigger] self.coords[j]).eq_spec(&other.coords[j]),
            decreases DIMS - i,
        {
            if self.coords[i] != other.coords[i] {
                return false;
            }
            i += 1;
        }
        true
    }
}

impl<T: Eq, const DIMS: usize> vstd::std_specs::cmp::PartialEqSpecImpl for Point<T, DIMS> {
    open spec fn obeys_eq_spec() -> bool {
        T::obeys_eq_spec()
    }

    open spec fn eq_spec(&self, other: &Self) -> bool {
        forall|i: int| 0 <= i < DIMS ==> (#[trigger] self.coords[i]).eq_spec(&other.coords[i])
    }
}

impl<T: Ord, const DIMS: usize> PartialOrd for Point<T, DIMS> {
    /// The componentwise order: a point is less than another where no
    /// coordinate is greater and one is smaller, greater the other way
    /// round, equal where all coordinates are, and else not comparable.
    fn partial_cmp(&self, other: &Self) -> (order: Option<Ordering>) {
        let mut smaller = false;
        let mut greater = false;
        let mut i: usize = 0;
        while i < DIMS
            invariant
                i <= DIMS,
                T::obeys_cmp_spec() ==> (smaller <==> exists|j: int|
                    0 <= j < i && (#[trigger] self.coords[j]).cmp_spec(&other.coords[j])
                        == Ordering::Less),
                T::obeys_cmp_spec() ==> (greater <==> exists|j: int|
                    0 <= j < i && (#[trigger] self.coords[j]).cmp_spec(&other.coords[j])
                        == Ordering::Greater),
            decreases DIMS - i,
        {
            match self.coords[i].cmp(&other.coords[i]) {
                Ordering::Less => smaller = true,
                Ordering::Greater => greater = true,
                Ordering::Equal => {},
            }
            i += 1;
        }
        match (smaller, greater) {
            (true, true) => None,
            (false, true) => Some(Ordering::Greater),
            (true, false) => Some(Ordering::Less),
            (false, false) => Some(Ordering::Equal),
        }
    }
}

impl<T: Ord, const DIMS: usize> vstd::std_specs::cmp::PartialOrdSpecImpl for Point<T, DIMS> {
    open spec fn obeys_partial_cmp_spec() -> bool {
        T::obeys_cmp_spec()
    }

    open spec fn partial_cmp_spec(&self, other: &Self) -> Option<Ordering> {
        if self.smaller_somewhere(*other) && self.greater_somewhere(*other) {
            None
        } else if self.greater_somewhere(*other) {
            Some(Ordering::Greater)
        } else if self.smaller_somewhere(*other) {
            Some(Ordering::Less)
        } else {
            Some(Ordering::Equal)
        }
    }
}

/// The number 0, from `num_traits::Zero::zero` for `i64`, which returns the
/// literal `0`.
#[verifier::external_body]
fn zero() -> (z: i64)
    ensures
        z == 0,
{
    num_traits::Zero::zero()
}

/// The number 1, from `num_traits::One::one` for `i64`, which returns the
/// literal `1`.
#[verifier::external_body]
fn one() -> (o: i64)
    ensures
        o == 1,
{
    num_traits::One::one()
}

/// The sum of the squares of the numbers of a sequence.
pub open spec fn sum_of_squares(s: Seq<i64>) -> int
    decreases s.len(),
{
    if s.len() == 0 {
        0
    } else {
        sum_of_squares(s.drop_last()) + s.last() * s.last()
    }
}

/// The sum of the squares of a part of a sequence is not negative and no
/// larger than that of the whole.
pub proof fn lemma_sum_of_squares_grows(s: Seq<i64>, n: int)
    requires
        0 <= n <= s.len(),
    ensures
        0 <= sum_of_squares(s.take(n)) <= sum_of_squares(s),
    decreases s.len() - n,
{
    if n == s.len() {
        assert(s.take(n) =~= s);
        lemma_sum_of_squares_positive(s);
    } else {
        lemma_sum_of_squares_grows(s, n + 1);
        assert(s.take(n + 1).drop_last() =~= s.take(n));
        let c = s[n] as int;
        assert(c * c >= 0) by (nonlinear_arith);
        lemma_sum_of_squares_positive(s.take(n));
    }
}

/// A sum of squares is not negative.
pub proof fn lemma_sum_of_squares_positive(s: Seq<i64>)
    ensures
        0 <= sum_of_squares(s),
    decreases s.len(),
{
    if s.len() > 0 {
        lemma_sum_of_squares_positive(s.drop_last());
        let c = s.last() as int;
        assert(c * c >= 0) by (nonlinear_arith);
    }
}

impl<const DIMS: usize> Point<i64, DIMS> {
    /// The squared distance from the origin: the sum of the squares of the
    /// coordinates.
    pub fn norm(&self) -> (n: i64)
        requires
            sum_of_squares(self.coords@) <= i64::MAX,
        ensures
            n == sum_of_squares(self.coords@),
    {
        let mut sum = zero();
        let mut i: usize = 0;
        while i < DIMS
            invariant
                i <= DIMS,
                self.coords@.len() == DIMS,
                sum == sum_of_squares(self.coords@.take(i as int)),
                sum_of_squares(self.coords@) <= i64::MAX,
            decreases DIMS - i,
        {
            let c = self.coords[i];
            proof {
                lemma_sum_of_squares_grows(self.coords@, i as int);
                lemma_sum_of_squares_grows(self.coords@, i + 1);
                assert(self.coords@.take(i + 1).drop_last() =~= self.coords@.take(i as int));
                assert(self.coords@.take(i + 1).last() == c);
                assert(c * c >= 0) by (nonlinear_arith);
            }
            sum = sum + c * c;
            i += 1;
        }
        assert(self.coords@.take(DIMS as int) =~= self.coords@);
        sum
    }
}

/// The values that a sequence of references refers to.
pub open spec fn referents<T>(refs: Seq<&T>) -> Seq<T> {
    Seq::new(refs.len(), |i: int| *refs[i])
}

/// The minimal elements of `set`, found by taking up its elements one by
/// one in their order. They stand in the result in the order in which they
/// stand in `set`.
///
/// In a partial order they are those that no element of `set` is less
/// than, one for each group of equal ones: no two of them can be compared,
/// and every element of `set` has one of them that is less than or equal
/// to it.
pub fn min<T: PartialOrd>(set: &[T]) -> (mins: Vec<&T>)
    ensures
        is_selection(referents(mins@), set@),
        order_is_specified::<T>() ==> referents(mins@) == skyline(set@),
        order_is_specified::<T>() && is_partial_order::<T>() ==> is_minimal_cover(
            referents(mins@),
            set@,
        ),
{
    let mut mins: Vec<&T> = Vec::new();
    let mut k: usize = 0;
    let ghost mut at: Seq<int> = Seq::empty();
    assert(referents(mins@) =~= skyline(set@.take(0)));
    while k < set.len()
        invariant
            k <= set.len(),
            order_is_specified::<T>() ==> referents(mins@) == skyline(set@.take(k as int)),
            picks_in_order(referents(mins@), set@, at),
            forall|i: int| 0 <= i < at.len() ==> #[trigger] at[i] < k,
        decreases set.len() - k,
    {
        let p = &set[k];
        let ghost before = referents(mins@);
        let mut is_min = true;
        let mut i: usize = 0;
        while i < mins.len()
            invariant_except_break
                is_min,
            invariant
                i <= mins.len(),
                picks_in_order(referents(mins@), set@, at),
                forall|i: int| 0 <= i < at.len() ==> #[trigger] at[i] < k,
                order_is_specified::<T>() ==> (if is_min {
                    absorb(referents(mins@), *p, i as int) == absorb(before, *p, 0)
                } else {
                    referents(mins@) == absorb(before, *p, 0)
                }),
            ensures
                is_min ==> i >= mins.len(),
            decreases mins.len() - i,
        {
            let ghost current = referents(mins@);
            assert(current[i as int] == *mins@[i as int]);
            match compare(p, mins[i]) {
                Relation::Less => {
                    mins.remove(i);
                    assert(referents(mins@) =~= current.remove(i as int));
                    proof {
                        at = at.remove(i as int);
                    }
                    assert(order_is_specified::<T>() ==> absorb(current, *p, i as int) == absorb(
                        current.remove(i as int),
                        *p,
                        i as int,
                    ));
                },
                Relation::Incomparable => {
                    assert(order_is_specified::<T>() ==> absorb(current, *p, i as int) == absorb(
                        current,
                        *p,
                        i + 1,
                    ));
                    i += 1;
                },
                _ => {
                    assert(order_is_specified::<T>() ==> absorb(current, *p, i as int)
                        == current);
                    is_min = false;
                    break ;
                },
            }
        }
        if is_min {
            let ghost current = referents(mins@);
            mins.push(p);
            assert(referents(mins@) =~= current.push(*p));
            proof {
                at = at.push(k as int);
            }
        }
        proof {
            let next = set@.take(k + 1);
            assert(next.drop_last() =~= set@.take(k as int));
            assert(next.last() == *p);
        }
        k += 1;
    }
    assert(set@.take(set.len() as int) =~= set@);
    proof {
        if is_partial_order::<T>() {
            law_skyline_is_minimal(set@);
        }
    }
    mins
}

/// A point is at most another in the order of points exactly where none of
/// its coordinates is greater.
pub proof fn lemma_below_is_order<const DIMS: usize>(p: Point<i64, DIMS>, q: Point<i64, DIMS>)
    ensures
        below(p, q) <==> (relation(p, q) == Relation::Less || relation(p, q) == Relation::Equal),
        below(p, q) <==> !p.greater_somewhere(q),
{
    if p.greater_somewhere(q) {
        let i = choose|i: int|
            0 <= i < DIMS && (#[trigger] p.coords[i]).cmp_spec(&q.coords[i]) == Ordering::Greater;
        assert(p.coords[i] > q.coords[i]);
    } else {
        assert forall|i: int| 0 <= i < DIMS implies (#[trigger] p.coords[i]) <= q.coords[i] by {
            assert(p.coords[i].cmp_spec(&q.coords[i]) != Ordering::Greater);
        }
    }
}

/// How two points stand to each other follows from which of them is
/// nowhere greater than the other.
pub proof fn lemma_relation_of_points<const DIMS: usize>(
    p: Point<i64, DIMS>,
    q: Point<i64, DIMS>,
)
    ensures
        relation(p, q) == if below(p, q) && below(q, p) {
            Relation::Equal
        } else if below(p, q) {
            Relation::Less
        } else if below(q, p) {
            Relation::Greater
        } else {
            Relation::Incomparable
        },
{
    lemma_below_is_order(p, q);
    if p.smaller_somewhere(q) {
        let i = choose|i: int|
            0 <= i < DIMS && (#[trigger] p.coords[i]).cmp_spec(&q.coords[i]) == Ordering::Less;
        assert(q.coords[i] > p.coords[i]);
        assert(!below(q, p));
    } else {
        assert forall|i: int| 0 <= i < DIMS implies (#[trigger] q.coords[i]) <= p.coords[i] by {
            assert(p.coords[i].cmp_spec(&q.coords[i]) != Ordering::Less);
        }
    }
}

/// The order of points is a partial order.
pub proof fn lemma_points_are_partially_ordered<const DIMS: usize>()
    ensures
        order_is_specified::<Point<i64, DIMS>>(),
        is_partial_order::<Point<i64, DIMS>>(),
{
    reveal(is_partial_order);
    assert forall|p: Point<i64, DIMS>| #[trigger] relation(p, p) == Relation::Equal by {
        lemma_relation_of_points(p, p);
    }
    assert forall|p: Point<i64, DIMS>, q: Point<i64, DIMS>|
        #![trigger relation(p, q)]
        (relation(p, q) == Relation::Less <==> relation(q, p) == Relation::Greater) && (relation(
            p,
            q,
        ) == Relation::Equal ==> relation(q, p) == Relation::Equal) by {
        lemma_relation_of_points(p, q);
        lemma_relation_of_points(q, p);
    }
    assert forall|p: Point<i64, DIMS>, q: Point<i64, DIMS>, r: Point<i64, DIMS>|
        #![trigger relation(p, q), relation(q, r)]
        (crate::skyline::at_most(p, q) && relation(q, r) == Relation::Less ==> relation(p, r)
            == Relation::Less) && (relation(p, q) == Relation::Less && crate::skyline::at_most(
            q,
            r,
        ) ==> relation(p, r) == Relation::Less) by {
        lemma_relation_of_points(p, q);
        lemma_relation_of_points(q, r);
        lemma_relation_of_points(p, r);
        lemma_below_chains(p, q, r);
        lemma_below_chains(r, p, q);
        lemma_below_chains(q, r, p);
    }
}

/// What is nowhere greater than a second point that is nowhere greater
/// than a third is nowhere greater than the third.
pub proof fn lemma_below_chains<const DIMS: usize>(
    p: Point<i64, DIMS>,
    q: Point<i64, DIMS>,
    r: Point<i64, DIMS>,
)
    ensures
        below(p, q) && below(q, r) ==> below(p, r),
{
    if below(p, q) && below(q, r) {
        assert forall|i: int| 0 <= i < DIMS implies (#[trigger] p.coords[i]) <= r.coords[i] by {
            assert(p.coords[i] <= q.coords[i]);
            assert(q.coords[i] <= r.coords[i]);
        }
    }
}

/// The minimal points of a set: no point of the set is less than one of
/// them, that is nowhere greater and somewhere smaller; no two of them can
/// be compared; and every point of the set has one of them that is less
/// than or equal to it.
pub proof fn law_minimal_points<const DIMS: usize>(set: Seq<Point<i64, DIMS>>)
    ensures
        is_minimal_cover(skyline(set), set),
{
    lemma_points_are_partially_ordered::<DIMS>();
    law_skyline_is_minimal(set);
}

/// Whether no coordinate of `p` is greater than that of `q`.
fn at_most<const DIMS: usize>(p: &Point<i64, DIMS>, q: &Point<i64, DIMS>) -> (b: bool)
    ensures
        b == below(*p, *q),
{
    proof {
        lemma_below_is_order(*p, *q);
    }
    *p <= *q
}

/// Takes up `start_point` if it lies in the box, and then every point that
/// is reached from it by raising coordinates from `dim_start` on.
fn propagate_set<F: Fn(&Point<i64, DIMS>) -> bool, const DIMS: usize>(
    set: &mut Vec<Point<i64, DIMS>>,
    function: &F,
    start_point: &Point<i64, DIMS>,
    upper_bound: &Point<i64, DIMS>,
    dim_start: usize,
)
    requires
        dim_start <= DIMS,
        forall|p: Point<i64, DIMS>|
            reach(*start_point, *upper_bound, dim_start as int, p) ==> call_requires(
                *function,
                (&p,),
            ),
    ensures
        final(set)@.len() >= old(set)@.len(),
        final(set)@.take(old(set)@.len() as int) == old(set)@,
        forall|i: int|
            old(set)@.len() <= i < final(set)@.len() ==> reach(
                *start_point,
                *upper_bound,
                dim_start as int,
                #[trigger] final(set)@[i],
            ) && call_ensures(*function, (&final(set)@[i],), true),
        forall|p: Point<i64, DIMS>|
            reach(*start_point, *upper_bound, dim_start as int, p) && !holds_from(
                final(set)@,
                old(set)@.len() as int,
                p,
            ) ==> call_ensures(*function, (&p,), false),
        forall|i: int, j: int|
            old(set)@.len() <= i < j < final(set)@.len() ==> final(set)@[i] != final(set)@[j],
        final(set)@.skip(old(set)@.len() as int) == kept(
            walk(*start_point, *upper_bound, dim_start as int),
            final(set)@,
            old(set)@.len() as int,
        ),
    decreases span(*start_point, *upper_bound),
{
    let ghost start = *start_point;
    let ghost upper = *upper_bound;
    let ghost d = dim_start as int;
    let ghost old_len = set@.len() as int;
    if at_most(start_point, upper_bound) {
        assert(reach(start, upper, d, start));
        if function(start_point) {
            set.push(Point { coords: start_point.coords });
            assert(set@[old_len] == start);
        }
        let mut dim = dim_start;
        proof {
            let first = seq![start];
            assert(first + sweep(start, upper, d, d) =~= first);
            assert(first.drop_last() =~= Seq::<Point<i64, DIMS>>::empty());
            assert(kept(first.drop_last(), set@, old_len) =~= Seq::<Point<i64, DIMS>>::empty());
            if set@.len() > old_len {
                assert(set@[old_len] == start);
                assert(holds_from(set@, old_len, start));
            }
            assert(set@.skip(old_len) =~= kept(first, set@, old_len));
        }
        assert forall|p: Point<i64, DIMS>|
            reach(start, upper, d, p) && (p == start || !reach(start, upper, dim as int, p))
                && !holds_from(set@, old_len, p) implies call_ensures(*function, (&p,), false) by {
            if p != start {
                lemma_reach_nested(start, upper, d, dim as int, p);
            }
            if set@.len() > old_len {
                assert(set@[old_len] == start);
            }
        }
        while dim < DIMS
            invariant
                dim_start <= dim <= DIMS,
                start == *start_point,
                upper == *upper_bound,
                d == dim_start,
                below(start, upper),
                old_len == old(set)@.len(),
                set@.len() >= old_len,
                set@.take(old_len) == old(set)@,
                forall|p: Point<i64, DIMS>|
                    reach(start, upper, d, p) ==> call_requires(*function, (&p,)),
                forall|i: int|
                    old_len <= i < set@.len() ==> reach(start, upper, d, #[trigger] set@[i]) && (
                    set@[i] == start || !reach(start, upper, dim as int, set@[i])) && call_ensures(
                        *function,
                        (&set@[i],),
                        true,
                    ),
                forall|p: Point<i64, DIMS>|
                    reach(start, upper, d, p) && (p == start || !reach(start, upper, dim as int, p))
                        && !holds_from(set@, old_len, p) ==> call_ensures(
                        *function,
                        (&p,),
                        false,
                    ),
                forall|i: int, j: int| old_len <= i < j < set@.len() ==> set@[i] != set@[j],
                set@.skip(old_len) == kept(
                    seq![start] + sweep(start, upper, d, dim as int),
                    set@,
                    old_len,
                ),
            decreases DIMS - dim,
        {
            let ghost e = dim as int;
            let ghost before = set@;
            if start_point.coords[dim] < upper_bound.coords[dim] {
                let mut coords = start_point.coords;
                coords[dim] = coords[dim] + one();
                let new_point = Point { coords };
                proof {
                    lemma_total_update(start.coords@, e, new_point.coords[e]);
                    assert forall|p: Point<i64, DIMS>|
                        reach(new_point, upper, e, p) implies call_requires(*function, (&p,)) by {
                        lemma_reach_step(start, upper, e, new_point, p);
                        lemma_reach_nested(start, upper, d, e, p);
                    }
                    assert(below(new_point, upper)) by {
                        assert forall|i: int| 0 <= i < DIMS implies (#[trigger] new_point.coords[i])
                            <= upper.coords[i] by {
                            assert(start.coords[i] <= upper.coords[i]);
                        }
                    }
                    lemma_total_monotone(new_point.coords@, upper.coords@);
                }
                propagate_set(set, function, &new_point, upper_bound, dim);
                proof {
                    let mid = before.len() as int;
                    assert forall|i: int| old_len <= i < set@.len() implies reach(
                        start,
                        upper,
                        d,
                        #[trigger] set@[i],
                    ) && (set@[i] == start || !reach(start, upper, e + 1, set@[i])) && call_ensures(
                        *function,
                        (&set@[i],),
                        true,
                    ) by {
                        if i < mid {
                            assert(set@[i] == set@.take(mid)[i]);
                            assert(set@[i] == before[i]);
                            if before[i] != start {
                                if reach(start, upper, e + 1, before[i]) {
                                    lemma_reach_nested(start, upper, e, e + 1, before[i]);
                                }
                            }
                        } else {
                            lemma_reach_step(start, upper, e, new_point, set@[i]);
                            lemma_reach_nested(start, upper, d, e, set@[i]);
                        }
                    }
                    assert forall|p: Point<i64, DIMS>|
                        reach(start, upper, d, p) && (p == start || !reach(start, upper, e + 1, p))
                            && !holds_from(set@, old_len, p) implies call_ensures(
                        *function,
                        (&p,),
                        false,
                    ) by {
                        lemma_reach_step(start, upper, e, new_point, p);
                        if p == start || !reach(start, upper, e, p) {
                            if holds_from(before, old_len, p) {
                                let i = choose|i: int|
                                    old_len <= i < before.len() && #[trigger] before[i] == p;
                                assert(set@[i] == set@.take(mid)[i]);
                                assert(holds_from(set@, old_len, p));
                            }
                        } else {
                            if holds_from(set@, mid, p) {
                                let i = choose|i: int| mid <= i < set@.len() && #[trigger] set@[i] == p;
                                assert(holds_from(set@, old_len, p));
                            }
                        }
                    }
                    assert forall|i: int, j: int| old_len <= i < j < set@.len() implies set@[i]
                        != set@[j] by {
                        if i < mid {
                            assert(set@[i] == set@.take(mid)[i]);
                        }
                        if j < mid {
                            assert(set@[j] == set@.take(mid)[j]);
                        }
                        if i < mid && j >= mid {
                            lemma_reach_step(start, upper, e, new_point, set@[j]);
                            lemma_reach_step(start, upper, e, new_point, start);
                        }
                    }
                    assert(set@.take(old_len) =~= set@.take(mid).take(old_len));
                    // The order of what was taken up.
                    lemma_raised(start, upper, e);
                    assert(new_point.coords =~= raised(start, e).coords);
                    assert(new_point == raised(start, e));
                    let earlier = seq![start] + sweep(start, upper, d, e);
                    let later = walk(new_point, upper, e);
                    assert(seq![start] + sweep(start, upper, d, e + 1) =~= earlier + later);
                    lemma_kept_add(earlier, later, set@, old_len);
                    assert(reach(start, upper, e + 1, start));
                    assert forall|i: int| 0 <= i < earlier.len() implies (holds_from(
                        set@,
                        old_len,
                        #[trigger] earlier[i],
                    ) <==> holds_from(before, old_len, earlier[i])) by {
                        let p = earlier[i];
                        if i > 0 {
                            lemma_sweep_reach(start, upper, d, e, i - 1);
                            assert(p == sweep(start, upper, d, e)[i - 1]);
                        }
                        if holds_from(set@, old_len, p) {
                            let k = choose|k: int| old_len <= k < set@.len() && #[trigger] set@[k] == p;
                            if k < mid {
                                assert(set@[k] == set@.take(mid)[k]);
                                assert(before[k] == p);
                            } else {
                                lemma_reach_step(start, upper, e, new_point, set@[k]);
                            }
                        }
                        if holds_from(before, old_len, p) {
                            let k = choose|k: int|
                                old_len <= k < before.len() && #[trigger] before[k] == p;
                            assert(set@[k] == set@.take(mid)[k]);
                        }
                    }
                    lemma_kept_agrees(earlier, set@, old_len, before, old_len);
                    assert forall|i: int| 0 <= i < later.len() implies (holds_from(
                        set@,
                        old_len,
                        #[trigger] later[i],
                    ) <==> holds_from(set@, mid, later[i])) by {
                        let p = later[i];
                        lemma_walk_reach(new_point, upper, e, i);
                        lemma_reach_step(start, upper, e, new_point, p);
                        if holds_from(set@, old_len, p) {
                            let k = choose|k: int| old_len <= k < set@.len() && #[trigger] set@[k] == p;
                            if k < mid {
                                assert(set@[k] == set@.take(mid)[k]);
                                assert(before[k] == p);
                            }
                        }
                        if holds_from(set@, mid, p) {
                            let k = choose|k: int| mid <= k < set@.len() && #[trigger] set@[k] == p;
                            assert(holds_from(set@, old_len, p));
                        }
                    }
                    lemma_kept_agrees(later, set@, old_len, set@, mid);
                    assert(set@.skip(old_len) =~= before.skip(old_len) + set@.skip(mid)) by {
                        assert forall|k: int| 0 <= k < mid - old_len implies set@.skip(old_len)[k]
                            == before.skip(old_len)[k] by {
                            assert(set@[k + old_len] == set@.take(mid)[k + old_len]);
                        }
                    }
                }
            } else {
                proof {
                    assert forall|p: Point<i64, DIMS>|
                        reach(start, upper, e, p) && !reach(start, upper, e + 1, p) implies false by {
                        let j = choose|j: int|
                            0 <= j < DIMS && !(if j < e + 1 {
                                (#[trigger] p.coords[j]) == start.coords[j]
                            } else {
                                p.coords[j] >= start.coords[j]
                            });
                        assert(if j < e {
                            p.coords[j] == start.coords[j]
                        } else {
                            p.coords[j] >= start.coords[j]
                        });
                        assert(p.coords[e] <= upper.coords[e]);
                    }
                    assert(sweep(start, upper, d, e + 1) == sweep(start, upper, d, e));
                }
            }
            dim += 1;
        }
        proof {
            assert forall|p: Point<i64, DIMS>|
                reach(start, upper, d, p) && !holds_from(set@, old_len, p) implies call_ensures(
                *function,
                (&p,),
                false,
            ) by {
                if reach(start, upper, DIMS as int, p) {
                    lemma_reach_last(start, upper, p);
                }
            }
        }
    } else {
        proof {
            assert forall|p: Point<i64, DIMS>| reach(start, upper, d, p) implies false by {
                let i = choose|i: int| 0 <= i < DIMS && !((#[trigger] start.coords[i]) <= upper.coords[i]);
                assert(if i < d {
                    p.coords[i] == start.coords[i]
                } else {
                    p.coords[i] >= start.coords[i]
                });
                assert(p.coords[i] <= upper.coords[i]);
            }
            assert(set@.take(old_len) =~= set@);
            assert(set@.skip(old_len) =~= Seq::<Point<i64, DIMS>>::empty());
        }
    }
}

/// The points of the closed box between `lower_bound` and `upper_bound` on
/// which `function` returns `true`, each of them once, in the order of the
/// walk from `lower_bound`.
pub fn gen_set<F: Fn(&Point<i64, DIMS>) -> bool, const DIMS: usize>(
    lower_bound: &Point<i64, DIMS>,
    upper_bound: &Point<i64, DIMS>,
    function: F,
) -> (set: Vec<Point<i64, DIMS>>)
    requires
        forall|p: Point<i64, DIMS>|
            within(*lower_bound, p, *upper_bound) ==> call_requires(function, (&p,)),
    ensures
        forall|i: int|
            0 <= i < set@.len() ==> within(*lower_bound, #[trigger] set@[i], *upper_bound)
                && call_ensures(function, (&set@[i],), true),
        forall|p: Point<i64, DIMS>|
            within(*lower_bound, p, *upper_bound) && !set@.contains(p) ==> call_ensures(
                function,
                (&p,),
                false,
            ),
        set@.no_duplicates(),
        set@ == walk(*lower_bound, *upper_bound, 0).filter(
            |p: Point<i64, DIMS>| set@.contains(p),
        ),
{
    let mut set = Vec::new();
    proof {
        assert forall|p: Point<i64, DIMS>|
            reach(*lower_bound, *upper_bound, 0, p) implies call_requires(function, (&p,)) by {
            lemma_reach_is_within(*lower_bound, *upper_bound, p);
        }
    }
    propagate_set(&mut set, &function, lower_bound, upper_bound, 0);
    proof {
        assert(set@.skip(0) =~= set@);
        lemma_kept_is_filter(walk(*lower_bound, *upper_bound, 0), set@);
        assert forall|i: int| 0 <= i < set@.len() implies within(
            *lower_bound,
            #[trigger] set@[i],
            *upper_bound,
        ) by {
            lemma_reach_is_within(*lower_bound, *upper_bound, set@[i]);
        }
        assert forall|p: Point<i64, DIMS>|
            within(*lower_bound, p, *upper_bound) && !set@.contains(p) implies call_ensures(
            function,
            (&p,),
            false,
        ) by {
            lemma_reach_is_within(*lower_bound, *upper_bound, p);
            if holds_from(set@, 0, p) {
                let i = choose|i: int| 0 <= i < set@.len() && #[trigger] set@[i] == p;
                assert(set@.contains(p));
            }
        }
    }
    set
}

} // verus!
