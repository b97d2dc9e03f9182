//! The walk through the points of a box of the integer lattice: which
//! points it takes up and in which order.

use crate::grid::Point;
use vstd::prelude::*;

verus! {

/// Whether no coordinate of `p` is greater than that of `q`.
pub open spec fn below<const DIMS: usize>(p: Point<i64, DIMS>, q: Point<i64, DIMS>) -> bool {
    forall|i: int| 0 <= i < DIMS ==> (#[trigger] p.coords[i]) <= q.coords[i]
}

/// Whether `p` lies in the closed box between `lower` and `upper`.
pub open spec fn within<const DIMS: usize>(
    lower: Point<i64, DIMS>,
    p: Point<i64, DIMS>,
    upper: Point<i64, DIMS>,
) -> bool {
    below(lower, p) && below(p, upper)
}

/// Whether `p` is reached from `start` by raising coordinates from `dim` on
/// and none before it, without leaving the box that `upper` closes.
pub open spec fn reach<const DIMS: usize>(
    start: Point<i64, DIMS>,
    upper: Point<i64, DIMS>,
    dim: int,
    p: Point<i64, DIMS>,
) -> bool {
    &&& below(p, upper)
    &&& forall|j: int|
        0 <= j < DIMS ==> if j < dim {
            (#[trigger] p.coords[j]) == start.coords[j]
        } else {
            p.coords[j] >= start.coords[j]
        }
}

/// Whether `p` stands in `s` at index `from` or later.
pub open spec fn holds_from<const DIMS: usize>(
    s: Seq<Point<i64, DIMS>>,
    from: int,
    p: Point<i64, DIMS>,
) -> bool {
    exists|i: int| from <= i < s.len() && #[trigger] s[i] == p
}

/// What is reached from the lower corner on, all dimensions free, is the
/// box.
pub proof fn lemma_reach_is_within<const DIMS: usize>(
    lower: Point<i64, DIMS>,
    upper: Point<i64, DIMS>,
    p: Point<i64, DIMS>,
)
    ensures
        reach(lower, upper, 0, p) <==> within(lower, p, upper),
{
    if reach(lower, upper, 0, p) {
        assert forall|i: int| 0 <= i < DIMS implies (#[trigger] lower.coords[i]) <= p.coords[i] by {
            assert(if i < 0 {
                p.coords[i] == lower.coords[i]
            } else {
                p.coords[i] >= lower.coords[i]
            });
        }
    }
    if within(lower, p, upper) {
        assert forall|j: int| 0 <= j < DIMS implies if j < 0 {
            (#[trigger] p.coords[j]) == lower.coords[j]
        } else {
            p.coords[j] >= lower.coords[j]
        } by {
            assert(lower.coords[j] <= p.coords[j]);
        }
    }
}

/// The reach from a later dimension lies in the reach from an earlier one.
pub proof fn lemma_reach_nested<const DIMS: usize>(
    start: Point<i64, DIMS>,
    upper: Point<i64, DIMS>,
    d: int,
    e: int,
    p: Point<i64, DIMS>,
)
    requires
        d <= e,
        reach(start, upper, e, p),
    ensures
        reach(start, upper, d, p),
{
    assert forall|j: int| 0 <= j < DIMS implies if j < d {
        (#[trigger] p.coords[j]) == start.coords[j]
    } else {
        p.coords[j] >= start.coords[j]
    } by {
        if j < e {
            assert(p.coords[j] == start.coords[j]);
        }
    }
}

/// The reach from the last dimension on holds the start alone.
pub proof fn lemma_reach_last<const DIMS: usize>(
    start: Point<i64, DIMS>,
    upper: Point<i64, DIMS>,
    p: Point<i64, DIMS>,
)
    requires
        reach(start, upper, DIMS as int, p),
    ensures
        p == start,
{
    assert forall|j: int| 0 <= j < DIMS implies p.coords[j] == start.coords[j] by {
        assert(if j < DIMS {
            (#[trigger] p.coords[j]) == start.coords[j]
        } else {
            p.coords[j] >= start.coords[j]
        });
    }
    assert(p.coords =~= start.coords);
}

/// What is reached from dimension `e` on and not from `e + 1` on has its
/// coordinate `e` above that of the start.
pub proof fn lemma_raise_needed<const DIMS: usize>(
    start: Point<i64, DIMS>,
    upper: Point<i64, DIMS>,
    e: int,
    p: Point<i64, DIMS>,
)
    requires
        0 <= e < DIMS,
        reach(start, upper, e, p),
        !reach(start, upper, e + 1, p),
    ensures
        start.coords[e] < p.coords[e] <= upper.coords[e],
{
    let j = choose|j: int|
        0 <= j < DIMS && !(if j < e + 1 {
            (#[trigger] p.coords[j]) == start.coords[j]
        } else {
            p.coords[j] >= start.coords[j]
        });
    assert(if j < e {
        p.coords[j] == start.coords[j]
    } else {
        p.coords[j] >= start.coords[j]
    });
    assert(j == e);
    assert(p.coords[e] <= upper.coords[e]);
}

/// One step in dimension `e` splits the reach: what is reached from `e` on
/// and not from `e + 1` on is what is reached from the stepped point.
pub proof fn lemma_reach_step<const DIMS: usize>(
    start: Point<i64, DIMS>,
    upper: Point<i64, DIMS>,
    e: int,
    next: Point<i64, DIMS>,
    p: Point<i64, DIMS>,
)
    requires
        0 <= e < DIMS,
        start.coords[e] < i64::MAX,
        next.coords@ == start.coords@.update(e, (start.coords[e] + 1) as i64),
    ensures
        reach(next, upper, e, p) <==> (reach(start, upper, e, p) && !reach(start, upper, e + 1, p)),
{
    if reach(next, upper, e, p) {
        assert forall|j: int| 0 <= j < DIMS implies if j < e {
            (#[trigger] p.coords[j]) == start.coords[j]
        } else {
            p.coords[j] >= start.coords[j]
        } by {
            assert(if j < e {
                p.coords[j] == next.coords[j]
            } else {
                p.coords[j] >= next.coords[j]
            });
        }
        assert(p.coords[e] >= next.coords[e]);
        if reach(start, upper, e + 1, p) {
            assert(p.coords[e] == start.coords[e]);
        }
    }
    if reach(start, upper, e, p) && !reach(start, upper, e + 1, p) {
        lemma_raise_needed(start, upper, e, p);
        assert forall|k: int| 0 <= k < DIMS implies if k < e {
            (#[trigger] p.coords[k]) == next.coords[k]
        } else {
            p.coords[k] >= next.coords[k]
        } by {
            assert(if k < e {
                p.coords[k] == start.coords[k]
            } else {
                p.coords[k] >= start.coords[k]
            });
        }
    }
}

/// A point other than the start that is reached from dimension `dim` on is
/// reached by raising a coordinate of one dimension first: the result.
pub proof fn lemma_first_raise<const DIMS: usize>(
    start: Point<i64, DIMS>,
    upper: Point<i64, DIMS>,
    dim: int,
    p: Point<i64, DIMS>,
) -> (e: int)
    requires
        0 <= dim <= DIMS,
        reach(start, upper, dim, p),
        p != start,
    ensures
        dim <= e < DIMS,
        reach(start, upper, e, p),
        !reach(start, upper, e + 1, p),
    decreases DIMS - dim,
{
    if dim == DIMS {
        lemma_reach_last(start, upper, p);
        0
    } else if reach(start, upper, dim + 1, p) {
        lemma_first_raise(start, upper, dim + 1, p)
    } else {
        dim
    }
}

/// The sum of the numbers of a sequence.
pub open spec fn total(s: Seq<i64>) -> int
    decreases s.len(),
{
    if s.len() == 0 {
        0
    } else {
        total(s.drop_last()) + s.last()
    }
}

/// How many single steps lie between `start` and `upper`.
pub open spec fn span<const DIMS: usize>(start: Point<i64, DIMS>, upper: Point<i64, DIMS>) -> int {
    total(upper.coords@) - total(start.coords@)
}

/// Raising one number of a sequence raises the sum by as much.
pub proof fn lemma_total_update(s: Seq<i64>, i: int, v: i64)
    requires
        0 <= i < s.len(),
    ensures
        total(s.update(i, v)) == total(s) - s[i] + v,
    decreases s.len(),
{
    let t = s.update(i, v);
    if i == s.len() - 1 {
        assert(t.drop_last() =~= s.drop_last());
    } else {
        lemma_total_update(s.drop_last(), i, v);
        assert(t.drop_last() =~= s.drop_last().update(i, v));
    }
}

/// Of two sequences, the one that is nowhere greater has no greater sum.
pub proof fn lemma_total_monotone(a: Seq<i64>, b: Seq<i64>)
    requires
        a.len() == b.len(),
        forall|i: int| 0 <= i < a.len() ==> a[i] <= b[i],
    ensures
        total(a) <= total(b),
    decreases a.len(),
{
    if a.len() > 0 {
        lemma_total_monotone(a.drop_last(), b.drop_last());
    }
}

/// The point `p` with its coordinate `dim` raised by one.
pub open spec fn raised<const DIMS: usize>(p: Point<i64, DIMS>, dim: int) -> Point<i64, DIMS> {
    Point { coords: vstd::array::spec_array_update(p.coords, dim, (p.coords[dim] + 1) as i64) }
}

/// Raising a coordinate that is below that of `upper` keeps the point
/// below `upper` and brings it one step nearer.
pub proof fn lemma_raised<const DIMS: usize>(
    start: Point<i64, DIMS>,
    upper: Point<i64, DIMS>,
    dim: int,
)
    requires
        below(start, upper),
        0 <= dim < DIMS,
        start.coords[dim] < upper.coords[dim],
    ensures
        raised(start, dim).coords@ == start.coords@.update(dim, (start.coords[dim] + 1) as i64),
        below(raised(start, dim), upper),
        0 <= span(raised(start, dim), upper) < span(start, upper),
{
    broadcast use vstd::array::axiom_spec_array_update;

    let next = raised(start, dim);
    assert forall|i: int| 0 <= i < DIMS implies (#[trigger] next.coords[i]) <= upper.coords[i] by {
        assert(start.coords[i] <= upper.coords[i]);
    }
    lemma_total_update(start.coords@, dim, next.coords[dim]);
    lemma_total_monotone(next.coords@, upper.coords@);
}

/// The points that the walk from `start` takes up, in its order: `start`
/// itself if it lies below `upper`, and then, for each dimension from `dim`
/// on in turn, the walk from `start` raised by one in that dimension, with
/// that dimension as its first.
pub open spec fn walk<const DIMS: usize>(
    start: Point<i64, DIMS>,
    upper: Point<i64, DIMS>,
    dim: int,
) -> Seq<Point<i64, DIMS>>
    decreases span(start, upper), DIMS + 1,
{
    if below(start, upper) && 0 <= dim <= DIMS {
        seq![start] + sweep(start, upper, dim, DIMS as int)
    } else {
        Seq::empty()
    }
}

/// The walks from `start` raised by one in the dimensions from `from` up to
/// `to`, the last left out, one after the other.
pub open spec fn sweep<const DIMS: usize>(
    start: Point<i64, DIMS>,
    upper: Point<i64, DIMS>,
    from: int,
    to: int,
) -> Seq<Point<i64, DIMS>>
    decreases span(start, upper), to,
{
    if below(start, upper) && 0 <= from < to <= DIMS {
        let last = to - 1;
        let before = sweep(start, upper, from, last);
        if start.coords[last] < upper.coords[last] {
            proof {
                lemma_raised(start, upper, last);
            }
            before + walk(raised(start, last), upper, last)
        } else {
            before
        }
    } else {
        Seq::empty()
    }
}

/// Every point of a walk is reached from its start.
pub proof fn lemma_walk_reach<const DIMS: usize>(
    start: Point<i64, DIMS>,
    upper: Point<i64, DIMS>,
    dim: int,
    i: int,
)
    requires
        0 <= i < walk(start, upper, dim).len(),
    ensures
        reach(start, upper, dim, walk(start, upper, dim)[i]),
    decreases span(start, upper), DIMS + 1,
{
    if i == 0 {
        assert(reach(start, upper, dim, start));
    } else {
        lemma_sweep_reach(start, upper, dim, DIMS as int, i - 1);
    }
}

/// Every point of a sweep is reached from its start by raising a
/// coordinate of one of the dimensions of the sweep first.
pub proof fn lemma_sweep_reach<const DIMS: usize>(
    start: Point<i64, DIMS>,
    upper: Point<i64, DIMS>,
    from: int,
    to: int,
    i: int,
)
    requires
        0 <= i < sweep(start, upper, from, to).len(),
    ensures
        reach(start, upper, from, sweep(start, upper, from, to)[i]),
        !reach(start, upper, to, sweep(start, upper, from, to)[i]),
    decreases span(start, upper), to,
{
    let last = to - 1;
    let before = sweep(start, upper, from, last);
    let p = sweep(start, upper, from, to)[i];
    if i < before.len() {
        lemma_sweep_reach(start, upper, from, last, i);
        assert(p == before[i]);
        if reach(start, upper, to, p) {
            lemma_reach_nested(start, upper, last, to, p);
        }
    } else {
        lemma_raised(start, upper, last);
        let next = raised(start, last);
        lemma_walk_reach(next, upper, last, i - before.len());
        assert(p == walk(next, upper, last)[i - before.len()]);
        lemma_reach_step(start, upper, last, next, p);
        lemma_reach_nested(start, upper, from, last, p);
    }
}

/// A sweep holds the walks that it is made of.
pub proof fn lemma_sweep_holds_walk<const DIMS: usize>(
    start: Point<i64, DIMS>,
    upper: Point<i64, DIMS>,
    from: int,
    to: int,
    e: int,
    p: Point<i64, DIMS>,
)
    requires
        below(start, upper),
        0 <= from <= e < to <= DIMS,
        start.coords[e] < upper.coords[e],
        walk(raised(start, e), upper, e).contains(p),
    ensures
        sweep(start, upper, from, to).contains(p),
    decreases to,
{
    let last = to - 1;
    let before = sweep(start, upper, from, last);
    let whole = sweep(start, upper, from, to);
    if e == last {
        let part = walk(raised(start, last), upper, last);
        let i = choose|i: int| 0 <= i < part.len() && part[i] == p;
        assert(whole[before.len() + i] == p);
    } else {
        lemma_sweep_holds_walk(start, upper, from, last, e, p);
        let i = choose|i: int| 0 <= i < before.len() && before[i] == p;
        assert(whole[i] == p);
    }
}

/// Every point that is reached from the start of a walk stands in the walk.
pub proof fn lemma_walk_complete<const DIMS: usize>(
    start: Point<i64, DIMS>,
    upper: Point<i64, DIMS>,
    dim: int,
    p: Point<i64, DIMS>,
)
    requires
        0 <= dim <= DIMS,
        reach(start, upper, dim, p),
    ensures
        walk(start, upper, dim).contains(p),
    decreases span(start, upper),
{
    assert forall|i: int| 0 <= i < DIMS implies (#[trigger] start.coords[i]) <= upper.coords[i] by {
        assert(if i < dim {
            p.coords[i] == start.coords[i]
        } else {
            p.coords[i] >= start.coords[i]
        });
        assert(p.coords[i] <= upper.coords[i]);
    }
    let whole = walk(start, upper, dim);
    if p == start {
        assert(whole[0] == p);
    } else {
        let e = lemma_first_raise(start, upper, dim, p);
        lemma_raise_needed(start, upper, e, p);
        lemma_raised(start, upper, e);
        let next = raised(start, e);
        lemma_reach_step(start, upper, e, next, p);
        lemma_walk_complete(next, upper, e, p);
        lemma_sweep_holds_walk(start, upper, dim, DIMS as int, e, p);
        let rest = sweep(start, upper, dim, DIMS as int);
        let i = choose|i: int| 0 <= i < rest.len() && rest[i] == p;
        assert(whole[i + 1] == p);
    }
}

/// No point stands twice in a walk.
pub proof fn lemma_walk_distinct<const DIMS: usize>(
    start: Point<i64, DIMS>,
    upper: Point<i64, DIMS>,
    dim: int,
)
    ensures
        walk(start, upper, dim).no_duplicates(),
    decreases span(start, upper), DIMS + 1,
{
    let whole = walk(start, upper, dim);
    if below(start, upper) && 0 <= dim <= DIMS {
        let rest = sweep(start, upper, dim, DIMS as int);
        lemma_sweep_distinct(start, upper, dim, DIMS as int);
        assert(reach(start, upper, DIMS as int, start));
        assert forall|i: int, j: int| 0 <= i < whole.len() && 0 <= j < whole.len() && i
            != j implies whole[i] != whole[j] by {
            if i > 0 {
                lemma_sweep_reach(start, upper, dim, DIMS as int, i - 1);
                assert(whole[i] == rest[i - 1]);
            }
            if j > 0 {
                lemma_sweep_reach(start, upper, dim, DIMS as int, j - 1);
                assert(whole[j] == rest[j - 1]);
            }
        }
    }
}

/// No point stands twice in a sweep.
pub proof fn lemma_sweep_distinct<const DIMS: usize>(
    start: Point<i64, DIMS>,
    upper: Point<i64, DIMS>,
    from: int,
    to: int,
)
    ensures
        sweep(start, upper, from, to).no_duplicates(),
    decreases span(start, upper), to,
{
    let whole = sweep(start, upper, from, to);
    if below(start, upper) && 0 <= from < to <= DIMS {
        let last = to - 1;
        let before = sweep(start, upper, from, last);
        lemma_sweep_distinct(start, upper, from, last);
        if start.coords[last] < upper.coords[last] {
            lemma_raised(start, upper, last);
            let next = raised(start, last);
            let part = walk(next, upper, last);
            lemma_walk_distinct(next, upper, last);
            assert forall|i: int, j: int| 0 <= i < whole.len() && 0 <= j < whole.len() && i
                != j implies whole[i] != whole[j] by {
                if i < before.len() {
                    lemma_sweep_reach(start, upper, from, last, i);
                    assert(whole[i] == before[i]);
                } else {
                    lemma_walk_reach(next, upper, last, i - before.len());
                    assert(whole[i] == part[i - before.len()]);
                    lemma_reach_step(start, upper, last, next, whole[i]);
                }
                if j < before.len() {
                    lemma_sweep_reach(start, upper, from, last, j);
                    assert(whole[j] == before[j]);
                } else {
                    lemma_walk_reach(next, upper, last, j - before.len());
                    assert(whole[j] == part[j - before.len()]);
                    lemma_reach_step(start, upper, last, next, whole[j]);
                }
            }
        }
    }
}

/// The walk from the lower corner of a box takes up the points of the box,
/// and each of them once.
pub proof fn law_walk_is_box<const DIMS: usize>(lower: Point<i64, DIMS>, upper: Point<i64, DIMS>)
    ensures
        forall|p: Point<i64, DIMS>| walk(lower, upper, 0).contains(p) <==> within(lower, p, upper),
        walk(lower, upper, 0).no_duplicates(),
{
    let whole = walk(lower, upper, 0);
    lemma_walk_distinct(lower, upper, 0);
    assert forall|p: Point<i64, DIMS>| whole.contains(p) <==> within(lower, p, upper) by {
        lemma_reach_is_within(lower, upper, p);
        if whole.contains(p) {
            let i = choose|i: int| 0 <= i < whole.len() && whole[i] == p;
            lemma_walk_reach(lower, upper, 0, i);
        }
        if within(lower, p, upper) {
            lemma_walk_complete(lower, upper, 0, p);
        }
    }
}

/// Those points of `walked`, in their order, that stand in `set` at index
/// `from` or later.
pub open spec fn kept<const DIMS: usize>(
    walked: Seq<Point<i64, DIMS>>,
    set: Seq<Point<i64, DIMS>>,
    from: int,
) -> Seq<Point<i64, DIMS>>
    decreases walked.len(),
{
    if walked.len() == 0 {
        Seq::empty()
    } else {
        let rest = kept(walked.drop_last(), set, from);
        if holds_from(set, from, walked.last()) {
            rest.push(walked.last())
        } else {
            rest
        }
    }
}

/// What is kept of two sequences in a row is what is kept of the first and
/// then what is kept of the second.
pub proof fn lemma_kept_add<const DIMS: usize>(
    a: Seq<Point<i64, DIMS>>,
    b: Seq<Point<i64, DIMS>>,
    set: Seq<Point<i64, DIMS>>,
    from: int,
)
    ensures
        kept(a + b, set, from) == kept(a, set, from) + kept(b, set, from),
    decreases b.len(),
{
    if b.len() == 0 {
        assert(a + b =~= a);
        assert(kept(a, set, from) + kept(b, set, from) =~= kept(a, set, from));
    } else {
        lemma_kept_add(a, b.drop_last(), set, from);
        assert((a + b).drop_last() =~= a + b.drop_last());
        assert((a + b).last() == b.last());
        assert(kept(a + b, set, from) =~= kept(a, set, from) + kept(b, set, from));
    }
}

/// Two sets that hold the same points of `walked` keep the same of it.
pub proof fn lemma_kept_agrees<const DIMS: usize>(
    walked: Seq<Point<i64, DIMS>>,
    set: Seq<Point<i64, DIMS>>,
    from: int,
    other: Seq<Point<i64, DIMS>>,
    other_from: int,
)
    requires
        forall|i: int|
            0 <= i < walked.len() ==> (holds_from(set, from, #[trigger] walked[i]) <==> holds_from(
                other,
                other_from,
                walked[i],
            )),
    ensures
        kept(walked, set, from) == kept(walked, other, other_from),
    decreases walked.len(),
{
    if walked.len() > 0 {
        let rest = walked.drop_last();
        assert forall|i: int| 0 <= i < rest.len() implies (holds_from(
            set,
            from,
            #[trigger] rest[i],
        ) <==> holds_from(other, other_from, rest[i])) by {
            assert(rest[i] == walked[i]);
        }
        lemma_kept_agrees(rest, set, from, other, other_from);
        assert(walked.last() == walked[walked.len() - 1]);
    }
}

/// What is kept of a sequence are its points that the set contains.
pub proof fn lemma_kept_is_filter<const DIMS: usize>(
    walked: Seq<Point<i64, DIMS>>,
    set: Seq<Point<i64, DIMS>>,
)
    ensures
        kept(walked, set, 0) == walked.filter(|p: Point<i64, DIMS>| set.contains(p)),
    decreases walked.len(),
{
    reveal(Seq::filter);
    let contained = |p: Point<i64, DIMS>| set.contains(p);
    if walked.len() > 0 {
        lemma_kept_is_filter(walked.drop_last(), set);
        let p = walked.last();
        if holds_from(set, 0, p) {
            let i = choose|i: int| 0 <= i < set.len() && #[trigger] set[i] == p;
            assert(set.contains(p));
        }
        if set.contains(p) {
            let i = choose|i: int| 0 <= i < set.len() && set[i] == p;
            assert(set[i] == p);
            assert(holds_from(set, 0, p));
        }
        assert(contained(p) == holds_from(set, 0, p));
    }
}

} // verus!
