use std::cmp::Ordering;

use exact_algebra::grid::gen_set;
use exact_algebra::grid::min;
use exact_algebra::grid::Point;
use exact_algebra::skyline::compare;
use exact_algebra::skyline::Relation;

fn coordinates<const DIMS: usize>(points: &[&Point<i64, DIMS>]) -> Vec<[i64; DIMS]> {
    let mut all = Vec::new();
    for p in points {
        all.push(p.coords);
    }
    all
}

fn dominates(p: &Point<i64, 2>, q: &Point<i64, 2>) -> bool {
    p.coords[0] <= q.coords[0] && p.coords[1] <= q.coords[1] && p.coords != q.coords
}

#[test]
fn a_point_keeps_its_coordinates() {
    let p = Point::new([3, -4, 5]);
    assert_eq!(p.coords, [3, -4, 5]);
}

#[test]
fn norm_is_the_sum_of_the_squared_coordinates() {
    assert_eq!(Point::new([3i64, 4]).norm(), 25);
    assert_eq!(Point::new([-1i64, 2, -3]).norm(), 14);
    assert_eq!(Point::<i64, 0>::new([]).norm(), 0);
    assert_eq!(Point::new([0i64, 0]).norm(), 0);
    assert_eq!(Point::new([3_037_000_499i64]).norm(), 9_223_372_030_926_249_001);
}

#[test]
fn points_are_equal_where_all_coordinates_are() {
    assert!(Point::new([1, 2]) == Point::new([1, 2]));
    assert!(Point::new([1, 2]) != Point::new([1, 3]));
    assert!(Point::new([1, 2]) != Point::new([0, 2]));
}

#[test]
fn points_are_ordered_coordinate_by_coordinate() {
    let origin = Point::new([0, 0]);
    let a = Point::new([1, 5]);
    let b = Point::new([5, 1]);
    assert_eq!(origin.partial_cmp(&a), Some(Ordering::Less));
    assert_eq!(a.partial_cmp(&origin), Some(Ordering::Greater));
    assert_eq!(a.partial_cmp(&a), Some(Ordering::Equal));
    assert_eq!(a.partial_cmp(&b), None);
    assert_eq!(b.partial_cmp(&a), None);
    assert_eq!(Point::new([1, 5]).partial_cmp(&Point::new([1, 6])), Some(Ordering::Less));
    assert!(origin <= a);
    assert!(!(a <= b));
}

#[test]
fn relation_of_two_values() {
    assert_eq!(compare(&1, &2), Relation::Less);
    assert_eq!(compare(&2, &2), Relation::Equal);
    assert_eq!(compare(&3, &2), Relation::Greater);
    assert_eq!(compare(&Point::new([1, 5]), &Point::new([5, 1])), Relation::Incomparable);
    assert_eq!(compare(&f64::NAN, &1.0), Relation::Incomparable);
}

#[test]
fn the_origin_is_the_one_minimal_point() {
    let points = [Point::new([0, 0]), Point::new([1, 5]), Point::new([5, 1]), Point::new([3, 3])];
    let mins = min(&points);
    assert_eq!(coordinates(&mins), vec![[0, 0]]);
}

#[test]
fn the_origin_is_the_one_minimal_point_where_it_comes_last() {
    let points = [Point::new([1, 5]), Point::new([5, 1]), Point::new([3, 3]), Point::new([0, 0])];
    let mins = min(&points);
    assert_eq!(coordinates(&mins), vec![[0, 0]]);
}

#[test]
fn points_that_cannot_be_compared_are_all_minimal() {
    let points = [Point::new([1, 5]), Point::new([5, 1]), Point::new([3, 3])];
    let mins = min(&points);
    assert_eq!(coordinates(&mins), vec![[1, 5], [5, 1], [3, 3]]);
}

#[test]
fn of_equal_points_the_first_is_kept() {
    let points = [Point::new([2, 2]), Point::new([2, 2]), Point::new([1, 3]), Point::new([2, 2])];
    let mins = min(&points);
    assert_eq!(mins.len(), 2);
    assert!(std::ptr::eq(mins[0], &points[0]));
    assert!(std::ptr::eq(mins[1], &points[2]));
}

#[test]
fn a_smaller_point_takes_the_place_of_those_it_is_less_than() {
    let points = [Point::new([4, 4]), Point::new([1, 9]), Point::new([5, 5]), Point::new([3, 3])];
    let mins = min(&points);
    assert_eq!(coordinates(&mins), vec![[1, 9], [3, 3]]);
}

#[test]
fn no_set_has_no_minimal_points() {
    let points: [Point<i64, 2>; 0] = [];
    assert!(min(&points).is_empty());
}

#[test]
fn minimal_numbers() {
    assert_eq!(min(&[5, 3, 8, 3, 9]), vec![&3]);
}

#[test]
fn no_point_is_less_than_a_minimal_one_and_no_two_minimal_ones_compare() {
    let mut points = Vec::new();
    let mut seed: i64 = 12345;
    for _ in 0..200 {
        seed = (seed * 1_103_515_245 + 12_345) % 2_147_483_648;
        let x = seed % 23;
        seed = (seed * 1_103_515_245 + 12_345) % 2_147_483_648;
        let y = seed % 23;
        points.push(Point::new([x, y]));
    }
    let mins = min(&points);
    assert!(!mins.is_empty());
    for m in &mins {
        for p in &points {
            assert!(!dominates(p, m));
        }
    }
    for (i, a) in mins.iter().enumerate() {
        for (j, b) in mins.iter().enumerate() {
            if i != j {
                assert_eq!(a.partial_cmp(b), None);
            }
        }
    }
    for p in &points {
        assert!(mins.iter().any(|m| **m <= *p));
    }
}

#[test]
fn points_of_a_box_that_satisfy_a_predicate() {
    let lower = Point::new([0, 0]);
    let upper = Point::new([15, 15]);
    let set = gen_set(&lower, &upper, |p: &Point<i64, 2>| p.coords[0] * p.coords[1] >= 11);
    assert!(set.contains(&Point::new([2, 6])));
    assert!(!set.contains(&Point::new([1, 1])));
    let mut expected = 0;
    for x in 0..=15i64 {
        for y in 0..=15i64 {
            if x * y >= 11 {
                expected += 1;
                assert!(set.contains(&Point::new([x, y])));
            }
        }
    }
    assert_eq!(set.len(), expected);
}

#[test]
fn every_point_of_a_box_comes_once() {
    let lower = Point::new([-1, 2, 0]);
    let upper = Point::new([1, 3, 2]);
    let set = gen_set(&lower, &upper, |_: &Point<i64, 3>| true);
    assert_eq!(set.len(), 3 * 2 * 3);
    for (i, p) in set.iter().enumerate() {
        for (j, q) in set.iter().enumerate() {
            if i != j {
                assert!(p != q);
            }
        }
        for d in 0..3 {
            assert!(lower.coords[d] <= p.coords[d] && p.coords[d] <= upper.coords[d]);
        }
    }
}

#[test]
fn points_of_a_box_come_in_the_order_of_the_walk() {
    let lower = Point::new([0, 0]);
    let upper = Point::new([2, 1]);
    let set = gen_set(&lower, &upper, |_: &Point<i64, 2>| true);
    let all: Vec<[i64; 2]> = set.iter().map(|p| p.coords).collect();
    assert_eq!(all, vec![[0, 0], [1, 0], [2, 0], [2, 1], [1, 1], [0, 1]]);
}

#[test]
fn a_box_of_one_point() {
    let corner = Point::new([7, -7]);
    let set = gen_set(&corner, &corner, |_: &Point<i64, 2>| true);
    assert_eq!(set.len(), 1);
    assert!(set[0] == corner);
}

#[test]
fn an_empty_box_has_no_points() {
    let lower = Point::new([0, 5]);
    let upper = Point::new([3, 4]);
    let set = gen_set(&lower, &upper, |_: &Point<i64, 2>| true);
    assert!(set.is_empty());
}

#[test]
fn a_predicate_that_is_never_met_gives_no_points() {
    let lower = Point::new([0, 0]);
    let upper = Point::new([3, 3]);
    let set = gen_set(&lower, &upper, |_: &Point<i64, 2>| false);
    assert!(set.is_empty());
}

#[test]
fn a_box_at_the_end_of_the_numbers() {
    let lower = Point::new([i64::MAX - 1, i64::MAX]);
    let upper = Point::new([i64::MAX, i64::MAX]);
    let set = gen_set(&lower, &upper, |_: &Point<i64, 2>| true);
    let all: Vec<[i64; 2]> = set.iter().map(|p| p.coords).collect();
    assert_eq!(all, vec![[i64::MAX - 1, i64::MAX], [i64::MAX, i64::MAX]]);
}

#[test]
fn minimal_points_of_a_region() {
    let lower = Point::new([0, 0]);
    let upper = Point::new([15, 15]);
    let set = gen_set(&lower, &upper, |p: &Point<i64, 2>| p.coords[0] * p.coords[1] >= 11);
    let mins = min(&set);
    let mut all = coordinates(&mins);
    all.sort();
    assert_eq!(all, vec![[1, 11], [2, 6], [3, 4], [4, 3], [6, 2], [11, 1]]);
}

#[test]
fn minimal_elements_where_some_cannot_be_compared_with_any() {
    let values = [f64::NAN, 1.0, 0.5, 2.0];
    let mins = min(&values);
    assert_eq!(mins.len(), 2);
    assert!(mins[0].is_nan());
    assert_eq!(*mins[1], 0.5);
    assert!(std::ptr::eq(mins[0], &values[0]));
    assert!(std::ptr::eq(mins[1], &values[2]));
}
