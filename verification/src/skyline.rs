//! The minimal elements of a sequence in a partial order: what taking up
//! the elements one by one gives, and why that is the set of minimal
//! elements.

use core::cmp::Ordering;
use vstd::prelude::*;
use vstd::std_specs::cmp::PartialOrdSpec;

verus! {

/// How one value stands to another in a partial order.
#[derive(Clone, Copy, Debug, PartialEq, Eq, Structural)]
pub enum Relation {
    /// The first value is less than the second.
    Less,
    /// The two values are equal.
    Equal,
    /// The first value is greater than the second.
    Greater,
    /// The two values cannot be compared.
    Incomparable,
}

/// Whether the order of `T` is one that contracts can speak of.
pub open spec fn order_is_specified<T: PartialOrd>() -> bool {
    T::obeys_partial_cmp_spec()
}

/// How `p` stands to `q` in the order of `T`.
pub open spec fn relation<T: PartialOrd>(p: T, q: T) -> Relation {
    match p.partial_cmp_spec(&q) {
        Some(Ordering::Less) => Relation::Less,
        Some(Ordering::Equal) => Relation::Equal,
        Some(Ordering::Greater) => Relation::Greater,
        None => Relation::Incomparable,
    }
}

/// Compares `p` with `q` in the order of `T`.
pub fn compare<T: PartialOrd>(p: &T, q: &T) -> (r: Relation)
    ensures
        order_is_specified::<T>() ==> r == relation(*p, *q),
{
    match p.partial_cmp(q) {
        Some(Ordering::Less) => Relation::Less,
        Some(Ordering::Equal) => Relation::Equal,
        Some(Ordering::Greater) => Relation::Greater,
        None => Relation::Incomparable,
    }
}

/// The minimal elements so far, `mins`, after the candidate `p` has been
/// held against them from index `i` on: an element that `p` is less than
/// leaves; at the first element that `p` is greater than or equal to, `p`
/// is dropped; where `p` meets only elements it cannot be compared with,
/// it joins at the end.
pub open spec fn absorb<T: PartialOrd>(mins: Seq<T>, p: T, i: int) -> Seq<T>
    decreases mins.len() - i,
{
    if i < 0 || i >= mins.len() {
        mins.push(p)
    } else {
        match relation(p, mins[i]) {
            Relation::Less => absorb(mins.remove(i), p, i),
            Relation::Incomparable => absorb(mins, p, i + 1),
            _ => mins,
        }
    }
}

/// The minimal elements of a sequence, found by taking up its elements one
/// by one in their order.
pub open spec fn skyline<T: PartialOrd>(set: Seq<T>) -> Seq<T>
    decreases set.len(),
{
    if set.len() == 0 {
        Seq::empty()
    } else {
        absorb(skyline(set.drop_last()), set.last(), 0)
    }
}

/// Whether `picked` takes elements of `set` at rising indices, those of
/// `at`: it holds elements of `set` in their order there.
pub open spec fn picks_in_order<T>(picked: Seq<T>, set: Seq<T>, at: Seq<int>) -> bool {
    &&& at.len() == picked.len()
    &&& forall|i: int| 0 <= i < at.len() ==> 0 <= #[trigger] at[i] < set.len() && picked[i] == set[at[i]]
    &&& forall|i: int, j: int| 0 <= i < j < at.len() ==> at[i] < at[j]
}

/// Whether `picked` holds elements of `set` in the order in which they
/// stand there.
pub open spec fn is_selection<T>(picked: Seq<T>, set: Seq<T>) -> bool {
    exists|at: Seq<int>| picks_in_order(picked, set, at)
}

/// Whether `p` is less than or equal to `q`.
pub open spec fn at_most<T: PartialOrd>(p: T, q: T) -> bool {
    relation(p, q) == Relation::Less || relation(p, q) == Relation::Equal
}

/// Whether the order of `T` is a partial order: every value is equal to
/// itself; `p` is less than `q` exactly where `q` is greater than `p`;
/// being equal does not depend on the side; and what is less than or equal
/// to something that is less than a third thing, or less than something
/// that is less than or equal to a third thing, is less than the third.
#[verifier::opaque]
pub open spec fn is_partial_order<T: PartialOrd>() -> bool {
    &&& forall|p: T| #[trigger] relation(p, p) == Relation::Equal
    &&& forall|p: T, q: T|
        #![trigger relation(p, q)]
        relation(p, q) == Relation::Less <==> relation(q, p) == Relation::Greater
    &&& forall|p: T, q: T|
        #![trigger relation(p, q)]
        relation(p, q) == Relation::Equal ==> relation(q, p) == Relation::Equal
    &&& forall|p: T, q: T, r: T|
        #![trigger relation(p, q), relation(q, r)]
        at_most(p, q) && relation(q, r) == Relation::Less ==> relation(p, r) == Relation::Less
    &&& forall|p: T, q: T, r: T|
        #![trigger relation(p, q), relation(q, r)]
        relation(p, q) == Relation::Less && at_most(q, r) ==> relation(p, r) == Relation::Less
}

/// Whether `mins` holds the minimal elements of `set`: each of `mins`
/// stands in `set`; no element of `set` is less than one of `mins`; two
/// different elements of `mins` cannot be compared; and every element of
/// `set` has one of `mins` that is less than or equal to it.
pub open spec fn is_minimal_cover<T: PartialOrd>(mins: Seq<T>, set: Seq<T>) -> bool {
    &&& forall|x: T| mins.contains(x) ==> set.contains(x)
    &&& forall|x: T, s: T|
        mins.contains(x) && set.contains(s) ==> #[trigger] relation(s, x) != Relation::Less
    &&& forall|x: T, y: T|
        mins.contains(x) && mins.contains(y) && x != y ==> #[trigger] relation(x, y)
            == Relation::Incomparable
    &&& forall|s: T| #[trigger] set.contains(s) ==> covered(mins, s)
}

/// Whether an element of `mins` is less than or equal to `s`.
pub open spec fn covered<T: PartialOrd>(mins: Seq<T>, s: T) -> bool {
    exists|x: T| mins.contains(x) && #[trigger] at_most(x, s)
}

/// Where the candidate meets an element that it is greater than or equal
/// to, and before that none that it is less than, nothing changes.
pub proof fn lemma_absorb_stops<T: PartialOrd>(mins: Seq<T>, p: T, i: int, s: int)
    requires
        0 <= i <= s < mins.len(),
        relation(p, mins[s]) == Relation::Greater || relation(p, mins[s]) == Relation::Equal,
        forall|j: int| i <= j < s ==> relation(p, #[trigger] mins[j]) != Relation::Less,
    ensures
        absorb(mins, p, i) == mins,
    decreases s - i,
{
    if i < s {
        assert(relation(p, mins[i]) != Relation::Less);
        if relation(p, mins[i]) == Relation::Incomparable {
            lemma_absorb_stops(mins, p, i + 1, s);
        }
    }
}

/// Where the candidate meets no element that it is greater than or equal
/// to, the result holds the candidate and those elements that the
/// candidate is not less than.
pub proof fn lemma_absorb_joins<T: PartialOrd>(mins: Seq<T>, p: T, i: int)
    requires
        0 <= i <= mins.len(),
        forall|j: int| 0 <= j < i ==> relation(p, #[trigger] mins[j]) == Relation::Incomparable,
        forall|j: int|
            i <= j < mins.len() ==> relation(p, #[trigger] mins[j]) == Relation::Less || relation(
                p,
                mins[j],
            ) == Relation::Incomparable,
    ensures
        forall|x: T|
            absorb(mins, p, i).contains(x) <==> (x == p || (mins.contains(x) && relation(p, x)
                != Relation::Less)),
    decreases mins.len() - i,
{
    let result = absorb(mins, p, i);
    if i >= mins.len() {
        assert forall|x: T| result.contains(x) <==> (x == p || (mins.contains(x) && relation(p, x)
            != Relation::Less)) by {
            if result.contains(x) {
                let k = choose|k: int| 0 <= k < result.len() && result[k] == x;
                if k < mins.len() {
                    assert(mins[k] == x);
                    assert(mins.contains(x));
                }
            }
            if x == p {
                assert(result[mins.len() as int] == p);
            }
            if mins.contains(x) {
                let k = choose|k: int| 0 <= k < mins.len() && mins[k] == x;
                assert(result[k] == x);
                assert(relation(p, mins[k]) == Relation::Incomparable);
            }
        }
    } else if relation(p, mins[i]) == Relation::Less {
        let rest = mins.remove(i);
        assert forall|j: int| 0 <= j < i implies relation(p, #[trigger] rest[j])
            == Relation::Incomparable by {
            assert(rest[j] == mins[j]);
        }
        assert forall|j: int| i <= j < rest.len() implies relation(p, #[trigger] rest[j])
            == Relation::Less || relation(p, rest[j]) == Relation::Incomparable by {
            assert(rest[j] == mins[j + 1]);
        }
        lemma_absorb_joins(rest, p, i);
        assert forall|x: T| result.contains(x) <==> (x == p || (mins.contains(x) && relation(p, x)
            != Relation::Less)) by {
            if rest.contains(x) {
                let k = choose|k: int| 0 <= k < rest.len() && rest[k] == x;
                if k < i {
                    assert(mins[k] == x);
                } else {
                    assert(mins[k + 1] == x);
                }
                assert(mins.contains(x));
            }
            if mins.contains(x) && relation(p, x) != Relation::Less {
                let k = choose|k: int| 0 <= k < mins.len() && mins[k] == x;
                if k < i {
                    assert(rest[k] == x);
                } else {
                    assert(k != i);
                    assert(rest[k - 1] == x);
                }
                assert(rest.contains(x));
            }
        }
    } else {
        assert forall|j: int| 0 <= j < i + 1 implies relation(p, #[trigger] mins[j])
            == Relation::Incomparable by {
            if j == i {
                assert(relation(p, mins[i]) == Relation::Less || relation(p, mins[i])
                    == Relation::Incomparable);
            }
        }
        lemma_absorb_joins(mins, p, i + 1);
    }
}

/// What a partial order says of two values.
pub proof fn lemma_order_of_two<T: PartialOrd>(p: T, q: T)
    requires
        is_partial_order::<T>(),
    ensures
        relation(p, p) == Relation::Equal,
        relation(p, q) == Relation::Less <==> relation(q, p) == Relation::Greater,
        relation(p, q) == Relation::Greater <==> relation(q, p) == Relation::Less,
        relation(p, q) == Relation::Equal <==> relation(q, p) == Relation::Equal,
        relation(p, q) == Relation::Incomparable <==> relation(q, p) == Relation::Incomparable,
{
    reveal(is_partial_order);
    assert(relation(q, p) == relation(q, p));
}

/// What a partial order says of three values.
pub proof fn lemma_order_of_three<T: PartialOrd>(p: T, q: T, r: T)
    requires
        is_partial_order::<T>(),
    ensures
        at_most(p, q) && relation(q, r) == Relation::Less ==> relation(p, r) == Relation::Less,
        relation(p, q) == Relation::Less && at_most(q, r) ==> relation(p, r) == Relation::Less,
{
    reveal(is_partial_order);
    assert(relation(p, q) == relation(p, q) && relation(q, r) == relation(q, r));
}

/// The elements of a sequence with one more element are that element and
/// the elements of the sequence.
pub proof fn lemma_push_contains<T>(set: Seq<T>, p: T)
    ensures
        forall|s: T| set.push(p).contains(s) <==> (s == p || set.contains(s)),
{
    let more = set.push(p);
    assert forall|s: T| more.contains(s) <==> (s == p || set.contains(s)) by {
        if more.contains(s) {
            let k = choose|k: int| 0 <= k < more.len() && more[k] == s;
            if k < set.len() {
                assert(set[k] == s);
            }
        }
        if set.contains(s) {
            let k = choose|k: int| 0 <= k < set.len() && set[k] == s;
            assert(more[k] == s);
        }
        if s == p {
            assert(more[set.len() as int] == p);
        }
    }
}

/// A candidate that a minimal element is less than or equal to is less than
/// no minimal element, and changes nothing.
pub proof fn lemma_absorb_covered<T: PartialOrd>(mins: Seq<T>, set: Seq<T>, p: T, s: int)
    requires
        is_partial_order::<T>(),
        is_minimal_cover(mins, set),
        0 <= s < mins.len(),
        relation(p, mins[s]) == Relation::Greater || relation(p, mins[s]) == Relation::Equal,
    ensures
        absorb(mins, p, 0) == mins,
        is_minimal_cover(mins, set.push(p)),
{
    let more = set.push(p);
    lemma_push_contains(set, p);
    let m = mins[s];
    assert(mins.contains(m));
    lemma_order_of_two(p, m);
    assert(at_most(m, p));
    assert forall|x: T| mins.contains(x) implies relation(p, x) != Relation::Less by {
        if relation(p, x) == Relation::Less {
            lemma_order_of_three(m, p, x);
            lemma_order_of_two(m, m);
            if x != m {
                assert(relation(m, x) == Relation::Incomparable);
            }
        }
    }
    assert forall|j: int| 0 <= j < s implies relation(p, #[trigger] mins[j])
        != Relation::Less by {
        assert(mins.contains(mins[j]));
    }
    lemma_absorb_stops(mins, p, 0, s);
    assert forall|x: T, t: T| mins.contains(x) && more.contains(t) implies #[trigger] relation(
        t,
        x,
    ) != Relation::Less by {
        if t != p {
            assert(set.contains(t));
        }
    }
    assert forall|t: T| #[trigger] more.contains(t) implies covered(mins, t) by {
        if t == p {
            assert(mins.contains(m) && at_most(m, p));
        } else {
            assert(set.contains(t));
        }
    }
}

/// A candidate that no minimal element is less than or equal to joins the
/// minimal elements, and those that it is less than leave.
pub proof fn lemma_absorb_uncovered<T: PartialOrd>(mins: Seq<T>, set: Seq<T>, p: T)
    requires
        is_partial_order::<T>(),
        is_minimal_cover(mins, set),
        forall|j: int|
            0 <= j < mins.len() ==> relation(p, #[trigger] mins[j]) == Relation::Less || relation(
                p,
                mins[j],
            ) == Relation::Incomparable,
    ensures
        is_minimal_cover(absorb(mins, p, 0), set.push(p)),
{
    let result = absorb(mins, p, 0);
    let more = set.push(p);
    lemma_push_contains(set, p);
    lemma_absorb_joins(mins, p, 0);
    lemma_order_of_two(p, p);
    assert forall|x: T| mins.contains(x) implies relation(p, x) == Relation::Less || relation(p, x)
        == Relation::Incomparable by {
        let k = choose|k: int| 0 <= k < mins.len() && mins[k] == x;
        assert(relation(p, mins[k]) == Relation::Less || relation(p, mins[k])
            == Relation::Incomparable);
    }
    assert forall|x: T| result.contains(x) implies more.contains(x) by {
        if x != p {
            assert(mins.contains(x));
            assert(set.contains(x));
        }
    }
    assert forall|x: T, t: T| result.contains(x) && more.contains(t) implies #[trigger] relation(
        t,
        x,
    ) != Relation::Less by {
        if relation(t, x) == Relation::Less {
            if t == p {
                assert(x != p);
                assert(mins.contains(x));
            } else {
                assert(set.contains(t));
                if x == p {
                    assert(covered(mins, t));
                    let m = choose|m: T| mins.contains(m) && #[trigger] at_most(m, t);
                    lemma_order_of_three(m, t, p);
                    lemma_order_of_two(p, m);
                } else {
                    assert(mins.contains(x));
                }
            }
        }
    }
    assert forall|x: T, y: T|
        result.contains(x) && result.contains(y) && x != y implies #[trigger] relation(x, y)
        == Relation::Incomparable by {
        lemma_order_of_two(x, y);
        if x != p && y != p {
            assert(mins.contains(x) && mins.contains(y));
        } else if x == p {
            assert(mins.contains(y));
        } else {
            assert(mins.contains(x));
        }
    }
    assert forall|t: T| #[trigger] more.contains(t) implies covered(result, t) by {
        if t == p {
            assert(result.contains(p) && at_most(p, p));
        } else {
            assert(set.contains(t));
            assert(covered(mins, t));
            let m = choose|m: T| mins.contains(m) && #[trigger] at_most(m, t);
            if relation(p, m) == Relation::Less {
                lemma_order_of_three(p, m, t);
                assert(result.contains(p) && at_most(p, t));
            } else {
                assert(result.contains(m) && at_most(m, t));
            }
        }
    }
}

/// Taking up one more element keeps the minimal elements what they are.
pub proof fn lemma_absorb_keeps_minimal<T: PartialOrd>(mins: Seq<T>, set: Seq<T>, p: T)
    requires
        is_partial_order::<T>(),
        is_minimal_cover(mins, set),
    ensures
        is_minimal_cover(absorb(mins, p, 0), set.push(p)),
{
    if exists|s: int|
        0 <= s < mins.len() && (relation(p, #[trigger] mins[s]) == Relation::Greater || relation(
            p,
            mins[s],
        ) == Relation::Equal) {
        let s = choose|s: int|
            0 <= s < mins.len() && (relation(p, #[trigger] mins[s]) == Relation::Greater
                || relation(p, mins[s]) == Relation::Equal);
        lemma_absorb_covered(mins, set, p, s);
    } else {
        assert forall|j: int| 0 <= j < mins.len() implies relation(p, #[trigger] mins[j])
            == Relation::Less || relation(p, mins[j]) == Relation::Incomparable by {
            let r = relation(p, mins[j]);
            assert(r != Relation::Greater && r != Relation::Equal);
        }
        lemma_absorb_uncovered(mins, set, p);
    }
}

/// In a partial order, what taking up the elements of `set` one by one
/// gives are the minimal elements of `set`: no element of `set` is less
/// than one of them, no two of them can be compared, and every element of
/// `set` has one of them that is less than or equal to it.
pub proof fn law_skyline_is_minimal<T: PartialOrd>(set: Seq<T>)
    requires
        is_partial_order::<T>(),
    ensures
        is_minimal_cover(skyline(set), set),
    decreases set.len(),
{
    if set.len() > 0 {
        law_skyline_is_minimal(set.drop_last());
        lemma_absorb_keeps_minimal(skyline(set.drop_last()), set.drop_last(), set.last());
        assert(set.drop_last().push(set.last()) =~= set);
    } else {
        assert(skyline(set) =~= Seq::<T>::empty());
    }
}

} // verus!
