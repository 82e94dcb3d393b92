use sbmp::metric::{EuclideanMetric, Metric, WeightedEuclideanMetric};
use sbmp::vp_tree::VpAvl;

fn nearest_distances(tree: &VpAvl<Vec<i32>, EuclideanMetric>, q: &Vec<i32>) -> Vec<u64> {
    let mut out = Vec::new();
    let mut it = tree.nn_dist_iter(q);
    while let Some((_p, d)) = it.next() {
        out.push(d);
    }
    out
}

fn brute_force(points: &[Vec<i32>], q: &Vec<i32>) -> Vec<u64> {
    let m = EuclideanMetric::new();
    let mut ds: Vec<u64> = points.iter().map(|p| m.distance(q, p)).collect();
    ds.sort();
    ds
}

fn grid_points() -> Vec<Vec<i32>> {
    let mut pts = Vec::new();
    let mut seed: i64 = 17;
    for _ in 0..60 {
        seed = (seed * 1103515245 + 12345) % 2147483648;
        let x = (seed % 201) as i32 - 100;
        seed = (seed * 1103515245 + 12345) % 2147483648;
        let y = (seed % 201) as i32 - 100;
        pts.push(vec![x, y]);
    }
    pts
}

#[test]
fn test_distance() {
    // coordinates in hundredths: [0, 1] is [0, 100], the queries are [0, 0.49] and [0, 0.51]
    let mut tree = VpAvl::new(EuclideanMetric::default());

    tree.insert(vec![0, 0]);
    tree.insert(vec![0, 100]);

    assert_eq!(tree.nn_iter(&vec![0, 49]).next().unwrap(), &vec![0, 0]);
    assert_eq!(tree.nn_iter(&vec![0, 51]).next().unwrap(), &vec![0, 100]);
}

#[test]
fn weighted_distance_ranks_by_weights() {
    // unweighted, a is 5 away (sqrt 18 rounded up) and b 6; with the third
    // dimension weighted 100, a is 31 away and b still 6
    let a = vec![0, 0, 3];
    let b = vec![9, 0, 0];
    let q = vec![3, 0, 0];

    let mut plain = VpAvl::new(EuclideanMetric::new());
    plain.insert(a.clone());
    plain.insert(b.clone());
    assert_eq!(plain.nn_iter(&q).next().unwrap(), &a);

    let mut weighted = VpAvl::new(WeightedEuclideanMetric::new(vec![1, 1, 100]));
    weighted.insert(a.clone());
    weighted.insert(b.clone());
    assert_eq!(weighted.nn_iter(&q).next().unwrap(), &b);
}

#[test]
fn euclidean_distance_values() {
    let m = EuclideanMetric::new();
    assert_eq!(m.distance(&vec![0, 0], &vec![3, 4]), 5);
    assert_eq!(m.distance(&vec![0, 0], &vec![1, 1]), 2);
    assert_eq!(m.distance(&vec![5, 5], &vec![5, 5]), 0);
    assert_eq!(m.distance(&vec![1, 2, 3], &vec![1, 2]), 0);
    assert_eq!(m.distance(&vec![i32::MIN], &vec![i32::MAX]), 4294967295);
}

#[test]
fn weighted_distance_values() {
    let m = WeightedEuclideanMetric::new(vec![4, 9]);
    assert_eq!(m.distance(&vec![0, 0], &vec![1, 0]), 2);
    assert_eq!(m.distance(&vec![0, 0], &vec![0, 1]), 3);
    assert_eq!(m.distance(&vec![0, 0], &vec![1, 1]), 4);
    let short = WeightedEuclideanMetric::new(vec![1]);
    assert_eq!(short.distance(&vec![0, 0], &vec![3, 4]), 3);
}

#[test]
fn empty_tree_has_no_neighbours() {
    let mut tree: VpAvl<Vec<i32>, EuclideanMetric> = VpAvl::new(EuclideanMetric::new());
    assert_eq!(tree.size(), 0);
    assert!(tree.nn_iter(&vec![1, 2]).next().is_none());
    assert!(tree.remove(&vec![1, 2]).is_none());
    assert!(tree.check_validity());
}

#[test]
fn bulk_built_tree_is_valid() {
    let pts = grid_points();
    let tree = VpAvl::bulk_insert(EuclideanMetric::new(), pts.clone());
    assert_eq!(tree.size(), pts.len());
    assert!(tree.check_validity());
    assert_eq!(tree.iter(), &pts[..]);
}

#[test]
fn inserted_tree_is_valid_after_each_insert() {
    let pts = grid_points();
    let mut tree = VpAvl::new(EuclideanMetric::new());
    for p in pts.iter() {
        tree.insert(p.clone());
        assert!(tree.check_validity());
    }
    assert_eq!(tree.size(), pts.len());
}

#[test]
fn nearest_order_matches_brute_force() {
    let pts = grid_points();
    let mut tree = VpAvl::new(EuclideanMetric::new());
    for p in pts.iter() {
        tree.insert(p.clone());
    }
    for q in [vec![0, 0], vec![50, -20], vec![-100, 100], vec![7, 7]] {
        let got = nearest_distances(&tree, &q);
        assert_eq!(got, brute_force(&pts, &q));
    }
}

#[test]
fn nearest_iterator_yields_each_element_once() {
    let pts = grid_points();
    let tree = VpAvl::bulk_insert(EuclideanMetric::new(), pts.clone());
    let q = vec![3, -4];
    let mut it = tree.nn_index_iter(&q);
    let mut seen = vec![false; pts.len()];
    let mut count = 0;
    let mut last = 0u64;
    while let Some((i, d)) = it.next() {
        assert!(!seen[i]);
        seen[i] = true;
        assert!(d >= last);
        last = d;
        count += 1;
    }
    assert_eq!(count, pts.len());
}

#[test]
fn bulk_and_sequential_builds_answer_alike() {
    let pts = grid_points();
    let bulk = VpAvl::bulk_insert(EuclideanMetric::new(), pts.clone());
    let mut seq = VpAvl::new(EuclideanMetric::new());
    for p in pts.iter().rev() {
        seq.insert(p.clone());
    }
    for q in [vec![1, 1], vec![-30, 40], vec![99, -99]] {
        assert_eq!(nearest_distances(&bulk, &q), nearest_distances(&seq, &q));
    }
}

#[test]
fn insert_then_remove_round_trip() {
    let pts = grid_points();
    let mut tree = VpAvl::bulk_insert(EuclideanMetric::new(), pts.clone());
    tree.insert(vec![1000, 1000]);
    assert_eq!(tree.size(), pts.len() + 1);
    let removed = tree.remove(&vec![1000, 1000]);
    assert_eq!(removed, Some(vec![1000, 1000]));
    assert_eq!(tree.size(), pts.len());
    assert!(tree.check_validity());
    let fresh = VpAvl::bulk_insert(EuclideanMetric::new(), pts.clone());
    for q in [vec![0, 0], vec![20, 30]] {
        assert_eq!(nearest_distances(&tree, &q), nearest_distances(&fresh, &q));
        assert_eq!(nearest_distances(&tree, &q), brute_force(&pts, &q));
    }
}

#[test]
fn remove_missing_location_removes_nothing() {
    let pts = grid_points();
    let mut tree = VpAvl::bulk_insert(EuclideanMetric::new(), pts.clone());
    assert!(tree.remove(&vec![5000, 5000]).is_none());
    assert_eq!(tree.size(), pts.len());
    assert_eq!(tree.iter(), &pts[..]);
}

#[test]
fn remove_moves_last_element_into_slot() {
    let mut tree = VpAvl::new(EuclideanMetric::new());
    tree.insert(vec![0, 0]);
    tree.insert(vec![10, 0]);
    tree.insert(vec![20, 0]);
    assert_eq!(tree.remove(&vec![0, 0]), Some(vec![0, 0]));
    assert_eq!(tree.iter(), &[vec![20, 0], vec![10, 0]][..]);
    assert!(tree.check_validity());
    assert_eq!(tree.remove(&vec![10, 0]), Some(vec![10, 0]));
    assert_eq!(tree.remove(&vec![20, 0]), Some(vec![20, 0]));
    assert_eq!(tree.size(), 0);
    assert!(tree.check_validity());
}

#[test]
fn equal_locations_are_kept_and_removed_one_at_a_time() {
    let mut tree = VpAvl::new(EuclideanMetric::new());
    for _ in 0..5 {
        tree.insert(vec![3, 3]);
        assert!(tree.check_validity());
    }
    tree.insert(vec![4, 4]);
    assert!(tree.check_validity());
    assert_eq!(nearest_distances(&tree, &vec![3, 3]), vec![0, 0, 0, 0, 0, 2]);
    for left in (1..6).rev() {
        assert_eq!(tree.remove(&vec![3, 3]), Some(vec![3, 3]));
        assert_eq!(tree.size(), left);
        assert!(tree.check_validity());
    }
    assert!(tree.remove(&vec![3, 3]).is_none());
}

#[test]
fn update_metric_rebuilds_for_the_new_metric() {
    let pts = vec![vec![0, 0, 3], vec![8, 0, 0], vec![1, 1, 1]];
    let tree = VpAvl::bulk_insert(EuclideanMetric::new(), pts.clone());
    let weighted = tree.update_metric(WeightedEuclideanMetric::new(vec![1, 1, 100]));
    assert!(weighted.check_validity());
    assert_eq!(weighted.size(), 3);
    assert_eq!(weighted.iter(), &pts[..]);
    assert_eq!(weighted.nn_iter(&vec![3, 0, 0]).next().unwrap(), &vec![8, 0, 0]);
}

#[test]
fn nearest_with_distances_reports_exact_distances() {
    let tree = VpAvl::bulk_insert(
        EuclideanMetric::new(),
        vec![vec![0, 0], vec![3, 4], vec![6, 8], vec![-3, -4]],
    );
    let q = vec![0, 0];
    let mut it = tree.nn_dist_iter(&q);
    assert_eq!(it.next(), Some((&vec![0, 0], 0)));
    let (_, d1) = it.next().unwrap();
    let (_, d2) = it.next().unwrap();
    assert_eq!((d1, d2), (5, 5));
    assert_eq!(it.next(), Some((&vec![6, 8], 10)));
    assert_eq!(it.next(), None);
}

#[test]
fn mutable_nearest_elements_come_in_order() {
    let pts = grid_points();
    let mut tree = VpAvl::bulk_insert(EuclideanMetric::new(), pts.clone());
    let q = vec![10, 10];
    let mut it = tree.nn_dist_iter_mut(&q);
    let mut ds = Vec::new();
    while let Some((_p, d)) = it.next(&mut tree) {
        ds.push(d);
    }
    assert_eq!(ds, brute_force(&pts, &q));
    assert!(it.next(&mut tree).is_none());
}

#[test]
fn mutable_nearest_element_is_changed_in_place() {
    let mut tree = VpAvl::bulk_insert(EuclideanMetric::new(), vec![vec![0, 0], vec![5, 5], vec![9, 9]]);
    let q = vec![6, 6];
    let mut it = tree.nn_iter_mut(&q);
    {
        let (p, d) = it.next(&mut tree).unwrap();
        assert_eq!((p.clone(), d), (vec![5, 5], 2));
        p[0] = 5;
    }
    assert_eq!(tree.iter(), &[vec![0, 0], vec![5, 5], vec![9, 9]][..]);
    assert!(tree.check_validity());
    let (p, _) = it.next(&mut tree).unwrap();
    assert_eq!(p, &mut vec![9, 9]);
}

#[test]
fn elements_can_be_visited_mutably_in_storage_order() {
    let mut tree = VpAvl::bulk_insert(EuclideanMetric::new(), vec![vec![1, 2], vec![3, 4]]);
    let slots = tree.iter_mut();
    assert_eq!(slots.len(), 2);
    assert_eq!(slots[1], vec![3, 4]);
}

#[test]
fn remove_needs_an_equal_location_not_just_distance_zero() {
    // the shorter point is at distance 0 from the longer one, but is not its location
    let mut tree = VpAvl::new(EuclideanMetric::new());
    tree.insert(vec![1, 2, 3]);
    tree.insert(vec![7, 7, 7]);
    assert_eq!(EuclideanMetric::new().distance(&vec![1, 2], &vec![1, 2, 3]), 0);
    assert!(tree.remove(&vec![1, 2]).is_none());
    assert_eq!(tree.iter(), &[vec![1, 2, 3], vec![7, 7, 7]][..]);
    assert_eq!(tree.remove(&vec![7, 7, 7]), Some(vec![7, 7, 7]));
    assert_eq!(tree.iter(), &[vec![1, 2, 3]][..]);
}

#[test]
fn a_chain_of_inserts_stays_sound() {
    // points on a line inserted in order would grow a chain without rebuilding
    let mut tree = VpAvl::new(EuclideanMetric::new());
    for x in 0..40 {
        tree.insert(vec![x * 10, 0]);
        assert!(tree.check_validity());
    }
    assert_eq!(nearest_distances(&tree, &vec![0, 0])[..3], [0, 10, 20]);
}
