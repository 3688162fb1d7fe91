use std::collections::HashSet;

use kmeans::entities::{Cluster, Point};
use kmeans::kmeans::parallel::KmeansParallelBuilder;
use kmeans::kmeans::parallel_2::KmeansParallelBuilder2;
use kmeans::kmeans::parallel_3::KmeansParallelStdBuilder;
use kmeans::kmeans::parallel_mutex::KmeansParallelMutex;
use kmeans::kmeans::serial::KmeansSerialBuilder;
use kmeans::kmeans::tokio::KmeansTokioBuilder;
use kmeans::kmeans::Kmeans;

#[test]
fn test_kmeans_two_points() {
    let data = vec![Point::from([1, 2]), Point::from([5, 8])];

    let k = 2;
    let initial_centers = data.iter().take(k as usize).cloned().collect();

    let clusters_output = KmeansSerialBuilder::default().execute(&data, k, initial_centers);

    let clusters_output_set: HashSet<Cluster> = HashSet::from_iter(clusters_output.clone());

    assert_eq!(clusters_output.len(), k as usize);

    // Expected Cluster 1
    let center = Point::from([1, 2]);
    let points = vec![Point::from([1, 2])];
    let cluster1 = Cluster { center, points };

    // Expected Cluster 2
    let center = Point::from([5, 8]);
    let points = vec![Point::from([5, 8])];
    let cluster2 = Cluster { center, points };

    let expected_set = HashSet::from_iter([cluster1, cluster2]);

    assert_eq!(expected_set, clusters_output_set);
}

#[test]
fn test_kmeans_few_points() {
    let data = [[1, 2], [2, 3], [8, 10], [9, 11], [10, 12]]
        .map(Point::from)
        .to_vec();
    let k = 2;
    let initial_centers = data.iter().take(k as usize).cloned().collect();

    let clusters_output = KmeansSerialBuilder::default().execute(&data, k, initial_centers);

    let clusters_output_set: HashSet<Cluster> = HashSet::from_iter(clusters_output.clone());

    // Expected Cluster 1, centered on (1.5, 2.5)
    let center = Point::from_ratio([3, 5], 2);
    let points = vec![Point::from([1, 2]), Point::from([2, 3])];
    let cluster1 = Cluster { center, points };

    // Expected Cluster 2
    let center = Point::from([9, 11]);
    let points = vec![
        Point::from([8, 10]),
        Point::from([9, 11]),
        Point::from([10, 12]),
    ];
    let cluster2 = Cluster { center, points };

    let expected_set = HashSet::from_iter([cluster1, cluster2]);

    assert_eq!(expected_set, clusters_output_set);
}

#[test]
fn test_kmeans_three_clusters() {
    let data = [[1, 1], [2, 2], [8, 8], [9, 9], [20, 20], [21, 21]]
        .map(Point::from)
        .to_vec();
    let k = 3;
    let initial_centers = data.iter().take(k as usize).cloned().collect();

    let clusters_output = KmeansSerialBuilder::default().execute(&data, k, initial_centers);

    let clusters_output_set: HashSet<Cluster> = HashSet::from_iter(clusters_output.clone());

    // Expected Cluster 1, centered on (1.5, 1.5)
    let center = Point::from_ratio([3, 3], 2);
    let points = vec![Point::from([1, 1]), Point::from([2, 2])];
    let cluster1 = Cluster { center, points };

    // Expected Cluster 2, centered on (8.5, 8.5)
    let center = Point::from_ratio([17, 17], 2);
    let points = vec![Point::from([8, 8]), Point::from([9, 9])];
    let cluster2 = Cluster { center, points };

    // Expected Cluster 3, centered on (20.5, 20.5)
    let center = Point::from_ratio([41, 41], 2);
    let points = vec![Point::from([20, 20]), Point::from([21, 21])];
    let cluster3 = Cluster { center, points };

    let expected_set = HashSet::from_iter([cluster1, cluster2, cluster3]);

    assert_eq!(expected_set, clusters_output_set);
}

fn run_all_strategies(data: &Vec<Point>, k: u8, initial_centers: &Vec<Point>) -> Vec<Vec<Cluster>> {
    let strategies: Vec<Box<dyn Kmeans>> = vec![
        Box::new(KmeansSerialBuilder::default()),
        Box::new(KmeansParallelBuilder::default()),
        Box::new(KmeansParallelBuilder2::default()),
        Box::new(KmeansParallelStdBuilder { max_threads: 3 }),
        Box::new(KmeansParallelMutex { max_threads: 3 }),
        Box::new(KmeansTokioBuilder { max_threads: 3 }),
    ];
    strategies
        .iter()
        .map(|s| s.execute(data, k, initial_centers.clone()))
        .collect()
}

#[test]
fn all_strategies_agree_up_to_member_order() {
    let data = [[1, 2], [2, 3], [8, 10], [9, 11], [10, 12]]
        .map(Point::from)
        .to_vec();
    let k = 2;
    let initial_centers: Vec<Point> = data.iter().take(k as usize).cloned().collect();

    let outputs = run_all_strategies(&data, k, &initial_centers);
    let reference = &outputs[0];
    for out in &outputs {
        assert_eq!(out.len(), reference.len());
        for (a, b) in out.iter().zip(reference.iter()) {
            assert_eq!(a.center, b.center);
            let mut pa = a.points.clone();
            let mut pb = b.points.clone();
            pa.sort();
            pb.sort();
            assert_eq!(pa, pb);
        }
    }
}

#[test]
fn all_strategies_reach_scenario_a() {
    let data = vec![Point::from([1, 2]), Point::from([5, 8])];
    let k = 2;
    let initial_centers: Vec<Point> = data.clone();

    for out in run_all_strategies(&data, k, &initial_centers) {
        assert_eq!(out.len(), 2);
        assert_eq!(out[0].center, Point::from([1, 2]));
        assert_eq!(out[0].points, vec![Point::from([1, 2])]);
        assert_eq!(out[1].center, Point::from([5, 8]));
        assert_eq!(out[1].points, vec![Point::from([5, 8])]);
    }
}

#[test]
fn empty_cluster_defaults_to_origin() {
    // Two identical points with k = 2: every point goes to the first
    // cluster (lowest-index tie-break), the second cluster ends up with no
    // members, and its recomputed centroid is the documented default, the
    // origin.
    let data = vec![Point::from([1, 1]), Point::from([1, 1])];
    let k = 2;
    let initial_centers: Vec<Point> = data.iter().take(k as usize).cloned().collect();

    let out = KmeansSerialBuilder::default().execute(&data, k, initial_centers);
    assert_eq!(out.len(), 2);
    assert_eq!(out[0].center, Point::from([1, 1]));
    assert_eq!(out[0].points.len(), 2);
    assert_eq!(out[1].center, Point::from([0, 0, 0]));
    assert!(out[1].points.is_empty());
}

#[test]
fn labels_travel_with_members() {
    let data = vec![
        Point::from([0, 0]).with_label("a"),
        Point::from([10, 10]).with_label("b"),
    ];
    let k = 2;
    let initial_centers: Vec<Point> = data.clone();

    let out = KmeansSerialBuilder::default().execute(&data, k, initial_centers);
    assert_eq!(out[0].points[0].get_label(), Some("a"));
    assert_eq!(out[1].points[0].get_label(), Some("b"));
    // Recomputed centroids carry no label.
    assert_eq!(out[0].center.get_label(), None);
}
