use kmeans::entities::{Cluster, Point};
use kmeans::kmeans::common::{
    assign_points, calculate_new_centers, calculate_new_centers_parallel, converged,
    get_closest_cluster_index, get_n_random_points,
};
use kmeans::kmeans::parallel_mutex::get_closest_cluster_index_based_in_centroids;
use kmeans::kmeans::KmeansSerialBuilder;

#[test]
fn squared_distance_is_exact() {
    let a = Point::from([1, 2]);
    let b = Point::from([5, 8]);
    let d = a.euclidean_distance(&b);
    // (5-1)^2 + (8-2)^2 = 16 + 36
    assert_eq!(d.num, 52);
    assert_eq!(d.den, 1);

    // Distance to a fractional centroid: (1,2) to (3/2, 5/2) is
    // (1/2)^2 + (1/2)^2 = 2/4.
    let c = Point::from_ratio([3, 5], 2);
    let d = a.euclidean_distance(&c);
    assert_eq!(d.num, 2);
    assert_eq!(d.den, 4);
}

#[test]
fn tie_breaks_to_lowest_index() {
    // (5,0) is equidistant from (0,0) and (10,0).
    let p = Point::from([5, 0]);
    let clusters = vec![
        Cluster::from_center(Point::from([0, 0])),
        Cluster::from_center(Point::from([10, 0])),
    ];
    assert_eq!(get_closest_cluster_index(&p, &clusters), 0);

    // Swapping the centroids still picks the lowest index of the tied pair.
    let centroids = vec![Point::from([10, 0]), Point::from([0, 0])];
    assert_eq!(get_closest_cluster_index_based_in_centroids(&p, &centroids), 0);
}

#[test]
fn centroid_recomputation_is_idempotent() {
    let cluster = Cluster {
        center: Point::from([0, 0]),
        points: vec![Point::from([1, 2]), Point::from([2, 3]), Point::from([3, 7])],
    };
    let first = cluster.calculate_center_point();
    let second = cluster.calculate_center_point();
    assert_eq!(first, second);
    // Mean of (1,2), (2,3), (3,7) is (2, 4).
    assert_eq!(first, Point::from([2, 4]));
}

#[test]
fn recentering_never_worsens_a_cluster() {
    // Total member distance to the freshly computed mean, versus to the old
    // center, compared as exact fractions by cross multiplication.
    let members = vec![Point::from([1, 2]), Point::from([2, 3])];
    let old_center = Point::from([1, 2]);
    let cluster = Cluster {
        center: old_center.clone(),
        points: members.clone(),
    };
    let mean = cluster.calculate_center_point();

    let (mut num_mean, mut den_mean) = (0u128, 1u128);
    let (mut num_old, mut den_old) = (0u128, 1u128);
    for p in &members {
        let dm = p.euclidean_distance(&mean);
        num_mean = num_mean * dm.den + dm.num * den_mean;
        den_mean *= dm.den;
        let doldc = p.euclidean_distance(&old_center);
        num_old = num_old * doldc.den + doldc.num * den_old;
        den_old *= doldc.den;
    }
    // Strictly better here, since the old center is not the mean.
    assert!(num_mean * den_old < num_old * den_mean);
}

#[test]
fn centroid_of_empty_cluster_is_origin() {
    let cluster = Cluster::from_center(Point::from([7, 9]));
    assert_eq!(cluster.calculate_center_point(), Point::from([0, 0, 0]));
}

#[test]
fn centroids_come_out_in_lowest_terms() {
    // 6/4 and 10/4 reduce to 3/2 and 5/2.
    assert_eq!(Point::from_ratio([6, 10], 4), Point::from_ratio([3, 5], 2));

    // A whole-valued mean reduces all the way to denominator one.
    let cluster = Cluster {
        center: Point::from([0, 0]),
        points: vec![Point::from([8, 10]), Point::from([9, 11]), Point::from([10, 12])],
    };
    let center = cluster.calculate_center_point();
    assert_eq!(center, Point::from([9, 11]));
    assert_eq!(center.get_den(), 1);
}

#[test]
fn point_getters_expose_coordinates() {
    let p = Point::from([3, 4, 5]);
    assert_eq!(p.get_data(), [3, 4, 5]);
    assert_eq!(p.get_values(), [3, 4, 5]);
    assert_eq!(p.get_den(), 1);
    assert_eq!(p.get_label(), None);

    let q = p.with_label("pixel");
    assert_eq!(q.get_label(), Some("pixel"));
    assert_eq!(q.get_data(), [3, 4, 5]);

    // Missing trailing coordinates default to zero.
    let r = Point::from([7]);
    assert_eq!(r.get_data(), [7, 0, 0]);
}

#[test]
fn labels_make_points_distinct() {
    let bare = Point::from([1, 2]);
    let labelled = Point::from([1, 2]).with_label("x");
    assert_ne!(bare, labelled);
    assert_eq!(labelled, Point::from([1, 2]).with_label("x"));
}

#[test]
fn converged_compares_element_by_element() {
    let a = vec![Point::from([1, 2]), Point::from([3, 4])];
    let b = vec![Point::from([1, 2]), Point::from([3, 4])];
    let c = vec![Point::from([1, 2]), Point::from([3, 5])];
    assert!(converged(&a, &b));
    assert!(!converged(&a, &c));
    // Fractional centers compare by exact value.
    let d = vec![Point::from_ratio([3, 5], 2)];
    let e = vec![Point::from_ratio([6, 10], 4)];
    assert!(converged(&d, &e));
}

#[test]
fn assign_points_appends_in_dataset_order() {
    let data = vec![
        Point::from([0, 0]),
        Point::from([9, 9]),
        Point::from([1, 0]),
    ];
    let clusters = vec![
        Cluster::from_center(Point::from([0, 0])),
        Cluster::from_center(Point::from([10, 10])),
    ];
    let out = assign_points(&data, clusters);
    assert_eq!(out[0].points, vec![Point::from([0, 0]), Point::from([1, 0])]);
    assert_eq!(out[1].points, vec![Point::from([9, 9])]);
}

#[test]
fn new_centers_match_sequential_and_parallel() {
    let data = vec![
        Point::from([0, 0]),
        Point::from([2, 2]),
        Point::from([9, 9]),
    ];
    let clusters = vec![
        Cluster::from_center(Point::from([0, 0])),
        Cluster::from_center(Point::from([10, 10])),
    ];
    let assigned = assign_points(&data, clusters);
    let serial_centers = calculate_new_centers(&assigned);
    let parallel_centers = calculate_new_centers_parallel(&assigned);
    assert_eq!(serial_centers, parallel_centers);
    assert_eq!(serial_centers[0], Point::from([1, 1]));
    assert_eq!(serial_centers[1], Point::from([9, 9]));
}

#[test]
fn random_points_come_from_the_dataset() {
    let data = vec![
        Point::from([1, 1]),
        Point::from([2, 2]),
        Point::from([3, 3]),
        Point::from([4, 4]),
    ];
    let picked = get_n_random_points(&data, 2);
    assert_eq!(picked.len(), 2);
    for p in &picked {
        assert!(data.contains(p));
    }
    // Asking for more than the dataset holds returns the whole dataset.
    let all = get_n_random_points(&data, 10);
    assert_eq!(all.len(), 4);
}

#[test]
fn builder_runs_with_explicit_centers() {
    let data = vec![Point::from([1, 2]), Point::from([5, 8])];
    let out = KmeansSerialBuilder::default()
        .with_data(data.clone())
        .with_k(2)
        .with_initial_centers(data.clone())
        .execute();
    assert_eq!(out.len(), 2);
    assert_eq!(out[0].center, Point::from([1, 2]));
    assert_eq!(out[1].center, Point::from([5, 8]));
}

#[test]
fn builder_runs_with_random_centers() {
    let data = vec![
        Point::from([1, 1]),
        Point::from([2, 2]),
        Point::from([50, 50]),
    ];
    let out = KmeansSerialBuilder::default()
        .with_data(data.clone())
        .with_k(2)
        .execute();
    assert_eq!(out.len(), 2);
    let total: usize = out.iter().map(|c| c.points.len()).sum();
    assert_eq!(total, data.len());
}
