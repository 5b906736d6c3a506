use mtree::descent::choose_subtree;
use mtree::insert::{contains_doc, find_point};
use mtree::node::{LeafEntry, RoutingEntry};
use mtree::search::{min_index, Visit};
use mtree::split::{assign, distance_of, leaf_points, measure_of, promote, routing_points};
use mtree::vector::{Distance, Vector};

fn point(x: i32, y: i32) -> Vector {
    Vector::I32(vec![x, y])
}

fn routing(x: i32, y: i32, radius: u128, child: u64) -> RoutingEntry {
    RoutingEntry { pivot: point(x, y), radius, child, parent_dist: None }
}

#[test]
fn descent_prefers_the_nearest_covering_child() {
    let entries = vec![routing(0, 0, 10, 1), routing(4, 0, 10, 2), routing(3, 0, 0, 3)];
    assert_eq!(choose_subtree(Distance::Manhattan, &entries, &point(3, 0)), (2, 0));
    assert_eq!(choose_subtree(Distance::Manhattan, &entries, &point(3, 1)), (1, 2));
    assert_eq!(choose_subtree(Distance::Manhattan, &entries, &point(2, 0)), (0, 2));
}

#[test]
fn descent_takes_the_least_growth_otherwise() {
    let entries = vec![routing(0, 0, 1, 1), routing(10, 0, 3, 2), routing(20, 0, 2, 3)];
    assert_eq!(choose_subtree(Distance::Manhattan, &entries, &point(5, 0)), (1, 5));
    assert_eq!(choose_subtree(Distance::Manhattan, &entries, &point(16, 0)), (2, 4));
    let ties = vec![routing(0, 0, 2, 1), routing(8, 0, 2, 2)];
    assert_eq!(choose_subtree(Distance::Manhattan, &ties, &point(4, 0)), (0, 4));
    let by_radius = vec![routing(0, 0, 3, 1), routing(7, 0, 2, 2)];
    assert_eq!(choose_subtree(Distance::Manhattan, &by_radius, &point(4, 0)), (1, 3));
}

#[test]
fn promotion_takes_the_first_farthest_pair() {
    let points = vec![point(0, 0), point(3, 0), point(0, 3), point(3, 3)];
    assert_eq!(promote(Distance::Manhattan, &points), (0, 3));
    assert_eq!(promote(Distance::Chebyshev, &points), (0, 1));
    let line = vec![point(5, 0), point(0, 0), point(9, 0)];
    assert_eq!(promote(Distance::Euclidean, &line), (1, 2));
}

#[test]
fn partition_gives_each_point_to_the_nearer_pivot() {
    let points = vec![point(0, 0), point(1, 0), point(5, 0), point(9, 0), point(10, 0)];
    let plan = assign(Distance::Manhattan, &points, 0, 4);
    let sides: Vec<(bool, u128)> = plan.iter().map(|s| (s.first, s.dist)).collect();
    assert_eq!(sides, vec![(true, 0), (true, 1), (true, 5), (false, 1), (false, 0)]);
    let same = vec![point(1, 1), point(1, 1), point(1, 1)];
    let plan = assign(Distance::Euclidean, &same, 0, 2);
    let sides: Vec<(bool, u128)> = plan.iter().map(|s| (s.first, s.dist)).collect();
    assert_eq!(sides, vec![(true, 0), (true, 0), (false, 0)]);
}

#[test]
fn points_of_entries_are_copied() {
    let leaves = vec![
        LeafEntry { vector: point(1, 2), docs: vec![1], parent_dist: None },
        LeafEntry { vector: Vector::I16(vec![3, 4]), docs: vec![2, 3], parent_dist: Some(4) },
    ];
    let got = leaf_points(&leaves);
    assert_eq!(got.len(), 2);
    assert!(got[0].same_point(&point(1, 2)));
    assert!(got[1].same_point(&point(3, 4)));
    let routes = vec![routing(7, 8, 1, 0)];
    assert!(routing_points(&routes)[0].same_point(&point(7, 8)));
    assert_eq!(distance_of(Distance::Manhattan, &got[0], &got[1]), 4);
    assert_eq!(distance_of(Distance::Euclidean, &got[0], &got[1]), 3);
    assert_eq!(measure_of(Distance::Euclidean, &got[0], &got[1]), 8);
    assert_eq!(find_point(&leaves, &point(3, 4)), Some(1));
    assert_eq!(find_point(&leaves, &point(3, 5)), None);
    assert!(contains_doc(&leaves[1].docs, 3));
    assert!(!contains_doc(&leaves[1].docs, 1));
}

#[test]
fn vectors_compare_by_their_coordinates() {
    let a = Vector::I32(vec![1, -2, 3]);
    let b = Vector::I16(vec![1, -2, 3]);
    assert_eq!(a.len(), 3);
    assert_eq!(a.coord(1), -2);
    assert_eq!(b.coord(2), 3);
    assert!(a.same_point(&b));
    assert!(!a.same_point(&Vector::I32(vec![1, -2])));
    assert!(!a.same_point(&Vector::I32(vec![1, -2, 4])));
    assert!(a.clone().same_point(&a));
    assert!(b.clone().same_point(&a));
}

#[test]
fn least_bound_is_visited_first() {
    let pending = vec![
        Visit { bound: 5, node: 1, level: 0 },
        Visit { bound: 2, node: 2, level: 0 },
        Visit { bound: 9, node: 3, level: 1 },
        Visit { bound: 2, node: 4, level: 0 },
    ];
    assert_eq!(min_index(&pending), 1);
}

#[test]
fn exact_measures_decide_where_rounded_distances_agree() {
    let points = vec![point(0, 0), point(1, 2), point(2, 2)];
    assert_eq!(promote(Distance::Euclidean, &points), (0, 2));
    let halves = vec![point(2, 2), point(1, 2), point(0, 0)];
    let plan = assign(Distance::Euclidean, &halves, 0, 1);
    let sides: Vec<(bool, u128)> = plan.iter().map(|s| (s.first, s.dist)).collect();
    assert_eq!(sides, vec![(true, 0), (false, 0), (false, 3)]);
    let entries = vec![routing(2, 2, 10, 1), routing(1, 2, 10, 2)];
    assert_eq!(choose_subtree(Distance::Euclidean, &entries, &point(0, 0)), (1, 3));
}
