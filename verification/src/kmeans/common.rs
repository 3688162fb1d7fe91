//! Shared executable primitives of every strategy: nearest-centroid search,
//! point assignment, convergence testing, centroid recomputation (also in a
//! parallel form), and random selection of initial centroids.

use rand::seq::SliceRandom;
use rayon::iter::{IndexedParallelIterator, IntoParallelRefIterator, ParallelIterator};
use vstd::prelude::*;
use crate::entities::{
    center_of, dist_den, dist_num, lemma_dist_bounds_integral, lemma_views_push, sq, views,
    Cluster, Point, PointV, COORD_MAX, DEN_MAX,
};
use crate::kmeans::model::{
    assigned, assigned_upto, centers_of_clusters, closest_index, closest_upto,
    lemma_assigned_push, lemma_stripe_gap, lemma_stripe_short, stripe, stripes_concat,
    stripes_concat_upto, wf_dataset,
};
use crate::kmeans::parallel_mutex::get_closest_cluster_index_based_in_centroids;

verus! {

/// Relies on rayon's `par_iter().map(..).collect()` over a `Vec`: the
/// parallel iterator of a vector is indexed, and collecting an indexed
/// parallel iterator into a `Vec` keeps input order, so slot `j` holds the
/// closure's result for `data[j]`. The closure only calls the verified
/// nearest-centroid search against the read-only cluster snapshot.
#[verifier::external_body]
pub(crate) fn par_closest_indices(data: &Vec<Point>, clusters: &Vec<Cluster>) -> (r: Vec<usize>)
    requires
        wf_dataset(views(data@)),
        clusters@.len() >= 1,
        forall|i: int| 0 <= i < clusters@.len() ==> (#[trigger] clusters@[i])@.center.wf(),
    ensures
        r@.len() == data@.len(),
        forall|j: int|
            0 <= j < data@.len() ==> #[trigger] r@[j] == closest_index(
                centers_of_clusters(clusters@),
                data@[j]@,
            ) && r@[j] < clusters@.len(),
{
    data.par_iter().map(|p| get_closest_cluster_index(p, clusters)).collect()
}

/// Relies on rayon's `par_iter().map(..).collect()` over a `Vec` keeping
/// input order, as in `par_closest_indices`; the closure only calls the
/// verified centroid recomputation of each cluster.
#[verifier::external_body]
pub fn calculate_new_centers_parallel(clusters: &Vec<Cluster>) -> (r: Vec<Point>)
    requires
        forall|i: int| 0 <= i < clusters@.len() ==> (#[trigger] clusters@[i])@.members_wf(),
    ensures
        r@.len() == clusters@.len(),
        forall|i: int|
            0 <= i < clusters@.len() ==> (#[trigger] r@[i])@ == center_of(
                clusters@[i]@.points,
            ) && r@[i]@.wf(),
{
    clusters.par_iter().map(|c| c.calculate_center_point()).collect()
}

/// Index of the centroid nearest to `point` among the clusters, scanning in
/// order with a strict comparison, so ties go to the lowest index.
pub fn get_closest_cluster_index(point: &Point, clusters: &Vec<Cluster>) -> (r: usize)
    requires
        point@.wf(),
        point@.integral(),
        clusters@.len() >= 1,
        forall|i: int| 0 <= i < clusters@.len() ==> (#[trigger] clusters@[i])@.center.wf(),
    ensures
        r == closest_index(centers_of_clusters(clusters@), point@),
        r < clusters@.len(),
{
    let ghost cs = centers_of_clusters(clusters@);
    let mut best: usize = 0;
    let mut best_d = point.euclidean_distance(&clusters[0].center);
    let mut i: usize = 1;
    while i < clusters.len()
        invariant
            1 <= i <= clusters@.len(),
            point@.wf(),
            point@.integral(),
            forall|j: int| 0 <= j < clusters@.len() ==> (#[trigger] clusters@[j])@.center.wf(),
            cs == centers_of_clusters(clusters@),
            0 <= best < i,
            best == closest_upto(cs, point@, i as int),
            best_d.num == dist_num(point@, cs[best as int]),
            best_d.den == dist_den(point@, cs[best as int]),
        decreases clusters@.len() - i,
    {
        let d = point.euclidean_distance(&clusters[i].center);
        proof {
            lemma_dist_bounds_integral(point@, cs[i as int]);
            lemma_dist_bounds_integral(point@, cs[best as int]);
            assert(d.num * best_d.den <= u128::MAX && best_d.num * d.den <= u128::MAX)
                by (nonlinear_arith)
                requires
                    0 <= d.num <= 3 * sq(COORD_MAX as int * DEN_MAX as int),
                    0 <= best_d.num <= 3 * sq(COORD_MAX as int * DEN_MAX as int),
                    1 <= d.den <= sq(DEN_MAX as int),
                    1 <= best_d.den <= sq(DEN_MAX as int),
            ;
        }
        if d.lt(&best_d) {
            best = i;
            best_d = d;
        }
        i = i + 1;
    }
    best
}

/// Element-by-element convergence test: true when every pair of centroids
/// at matching indices (over the shorter of the two lists) is equal.
pub fn converged(points1: &Vec<Point>, points2: &Vec<Point>) -> (r: bool)
    ensures
        r == forall|i: int|
            0 <= i < points1@.len() && i < points2@.len() ==> views(points1@)[i] == views(
                points2@,
            )[i],
{
    let n = if points1.len() <= points2.len() {
        points1.len()
    } else {
        points2.len()
    };
    let mut i: usize = 0;
    while i < n
        invariant
            0 <= i <= n,
            n == if points1@.len() <= points2@.len() {
                points1@.len() as int
            } else {
                points2@.len() as int
            },
            forall|j: int|
                0 <= j < i ==> views(points1@)[j] == views(points2@)[j],
        decreases n - i,
    {
        let same = points1[i] == points2[i];
        proof {
            assert(views(points1@)[i as int] == points1@[i as int]@);
            assert(views(points2@)[i as int] == points2@[i as int]@);
        }
        if !same {
            return false;
        }
        i = i + 1;
    }
    true
}

/// Recomputes every cluster's centroid, in cluster order.
pub fn calculate_new_centers(clusters: &Vec<Cluster>) -> (r: Vec<Point>)
    requires
        forall|i: int| 0 <= i < clusters@.len() ==> (#[trigger] clusters@[i])@.members_wf(),
    ensures
        r@.len() == clusters@.len(),
        forall|i: int|
            0 <= i < clusters@.len() ==> (#[trigger] r@[i])@ == center_of(
                clusters@[i]@.points,
            ) && r@[i]@.wf(),
{
    let mut r: Vec<Point> = Vec::new();
    let mut i: usize = 0;
    while i < clusters.len()
        invariant
            0 <= i <= clusters@.len(),
            forall|j: int| 0 <= j < clusters@.len() ==> (#[trigger] clusters@[j])@.members_wf(),
            r@.len() == i,
            forall|j: int|
                0 <= j < i ==> (#[trigger] r@[j])@ == center_of(clusters@[j]@.points)
                    && r@[j]@.wf(),
        decreases clusters@.len() - i,
    {
        let c = clusters[i].calculate_center_point();
        r.push(c);
        i = i + 1;
    }
    r
}

/// Fresh clusters, one around each centroid, with empty member lists.
pub fn clusters_from_centers(centers: &Vec<Point>) -> (r: Vec<Cluster>)
    ensures
        r@.len() == centers@.len(),
        forall|i: int|
            0 <= i < centers@.len() ==> (#[trigger] r@[i])@.center == centers@[i]@ && r@[i]@.points
                == Seq::<PointV>::empty(),
{
    let mut r: Vec<Cluster> = Vec::new();
    let mut i: usize = 0;
    while i < centers.len()
        invariant
            0 <= i <= centers@.len(),
            r@.len() == i,
            forall|j: int|
                0 <= j < i ==> (#[trigger] r@[j])@.center == centers@[j]@ && r@[j]@.points
                    == Seq::<PointV>::empty(),
        decreases centers@.len() - i,
    {
        r.push(Cluster::from_center(centers[i].clone()));
        i = i + 1;
    }
    r
}

/// The current centroid of every cluster, in cluster order.
pub fn centers_vec(clusters: &Vec<Cluster>) -> (r: Vec<Point>)
    ensures
        r@.len() == clusters@.len(),
        views(r@) == centers_of_clusters(clusters@),
{
    let mut r: Vec<Point> = Vec::new();
    let mut i: usize = 0;
    while i < clusters.len()
        invariant
            0 <= i <= clusters@.len(),
            r@.len() == i,
            forall|j: int| 0 <= j < i ==> views(r@)[j] == centers_of_clusters(clusters@)[j],
        decreases clusters@.len() - i,
    {
        r.push(clusters[i].center.clone());
        proof {
            assert(views(r@)[i as int] == r@[i as int]@);
        }
        i = i + 1;
    }
    proof {
        assert(views(r@) =~= centers_of_clusters(clusters@));
    }
    r
}

/// Relies on rand's `SliceRandom::shuffle` (a Fisher-Yates pass over the
/// slice): it only swaps elements in place, so whatever permutation chance
/// picks, the multiset of points is unchanged.
#[verifier::external_body]
fn shuffle_points(points: &mut Vec<Point>)
    ensures
        final(points)@.to_multiset() == old(points)@.to_multiset(),
{
    points.shuffle(&mut rand::thread_rng());
}

/// Draws `n` points from the dataset uniformly at random, without
/// replacement (fewer when the dataset is smaller than `n`).
pub fn get_n_random_points(points: &Vec<Point>, n: usize) -> (r: Vec<Point>)
    ensures
        r@.len() == if n <= points@.len() {
            n as int
        } else {
            points@.len() as int
        },
        forall|l: int| 0 <= l < r@.len() ==> points@.contains(#[trigger] r@[l]),
{
    broadcast use vstd::seq_lib::group_to_multiset_ensures;

    let mut v = points.clone();
    proof {
        assert(v@ =~= points@);
    }
    shuffle_points(&mut v);
    let ghost shuffled = v@;
    v.truncate(n);
    proof {
        assert(shuffled.len() == points@.len()) by {
            assert(shuffled.to_multiset().len() == shuffled.len());
            assert(points@.to_multiset().len() == points@.len());
        }
        assert forall|l: int| 0 <= l < v@.len() implies points@.contains(#[trigger] v@[l]) by {
            assert(v@[l] == shuffled[l]);
            assert(shuffled.contains(shuffled[l]));
            assert(shuffled.to_multiset().count(shuffled[l]) > 0);
            assert(points@.to_multiset().count(shuffled[l]) > 0);
            assert(points@.contains(shuffled[l]));
        }
    }
    v
}

/// Assigns every dataset point to its nearest cluster, appending it to that
/// cluster's member list in dataset order.
pub fn assign_points(data: &Vec<Point>, clusters: Vec<Cluster>) -> (res: Vec<Cluster>)
    requires
        wf_dataset(views(data@)),
        clusters@.len() >= 1,
        forall|i: int| 0 <= i < clusters@.len() ==> (#[trigger] clusters@[i])@.center.wf(),
    ensures
        res@.len() == clusters@.len(),
        forall|i: int|
            0 <= i < clusters@.len() ==> (#[trigger] res@[i])@.center == clusters@[i]@.center,
        forall|i: int|
            0 <= i < clusters@.len() ==> (#[trigger] res@[i])@.points == clusters@[i]@.points
                + assigned_upto(
                views(data@),
                centers_of_clusters(clusters@),
                i,
                data@.len() as int,
            ),
{
    let ghost orig = clusters@;
    let ghost cs = centers_of_clusters(clusters@);
    let ghost dv = views(data@);
    let mut clusters = clusters;
    let mut j: usize = 0;
    while j < data.len()
        invariant
            0 <= j <= data@.len(),
            wf_dataset(dv),
            dv == views(data@),
            cs == centers_of_clusters(clusters@),
            clusters@.len() == orig.len() >= 1,
            forall|i: int|
                0 <= i < orig.len() ==> (#[trigger] clusters@[i])@.center == orig[i]@.center,
            forall|i: int|
                0 <= i < clusters@.len() ==> (#[trigger] clusters@[i])@.center.wf(),
            forall|i: int|
                0 <= i < orig.len() ==> (#[trigger] clusters@[i])@.points == orig[i]@.points
                    + assigned_upto(dv, cs, i, j as int),
        decreases data@.len() - j,
    {
        proof {
            assert(dv[j as int] == data@[j as int]@);
            assert(dv[j as int].wf() && dv[j as int].integral());
        }
        let idx = get_closest_cluster_index(&data[j], &clusters);
        let ghost before = clusters@;
        clusters[idx].points.push(data[j].clone());
        proof {
            assert(dv[j as int] == data@[j as int]@);
            assert(centers_of_clusters(clusters@) =~= centers_of_clusters(before));
            lemma_views_push(before[idx as int].points@, data@[j as int]);
            assert forall|i: int| 0 <= i < orig.len() implies (#[trigger] clusters@[i])@.points
                == orig[i]@.points + assigned_upto(dv, cs, i, j + 1) by {
                if i == idx {
                    assert(clusters@[i]@.points == before[i]@.points.push(dv[j as int]));
                    assert(assigned_upto(dv, cs, i, j + 1) == assigned_upto(dv, cs, i, j as int)
                        .push(dv[j as int]));
                    assert(orig[i]@.points + assigned_upto(dv, cs, i, j as int).push(
                        dv[j as int],
                    ) =~= (orig[i]@.points + assigned_upto(dv, cs, i, j as int)).push(
                        dv[j as int],
                    ));
                } else {
                    assert(clusters@[i] == before[i]);
                    assert(assigned_upto(dv, cs, i, j + 1) == assigned_upto(dv, cs, i, j as int));
                }
            }
        }
        j = j + 1;
    }
    clusters
}

/// Striped assignment: worker `w` of `wn` owns the dataset indices
/// `w, w + wn, w + 2wn, ...` — a balanced, non-overlapping cover of the
/// dataset. Each worker first takes a point-in-time copy of every centroid,
/// then appends each of its points to the cluster nearest that snapshot.
/// Per cluster the members come out in worker order, a permutation of the
/// sequential order; `model::lemma_stripes_partition` turns that into the
/// model's member multiset.
pub(crate) fn assign_points_striped(
    data: &Vec<Point>,
    clusters: Vec<Cluster>,
    num_workers: usize,
) -> (res: Vec<Cluster>)
    requires
        wf_dataset(views(data@)),
        clusters@.len() >= 1,
        1 <= num_workers <= data@.len(),
        forall|i: int| 0 <= i < clusters@.len() ==> (#[trigger] clusters@[i])@.center.wf(),
    ensures
        res@.len() == clusters@.len(),
        forall|i: int|
            0 <= i < clusters@.len() ==> (#[trigger] res@[i])@.center == clusters@[i]@.center,
        forall|i: int|
            0 <= i < clusters@.len() ==> (#[trigger] res@[i])@.points == clusters@[i]@.points
                + assigned(
                stripes_concat(views(data@), num_workers as int),
                centers_of_clusters(clusters@),
                i,
            ),
{
    let ghost orig = clusters@;
    let ghost cs = centers_of_clusters(clusters@);
    let ghost dv = views(data@);
    let ghost wni = num_workers as int;
    let ghost n = dv.len() as int;
    let mut clusters = clusters;
    let mut w: usize = 0;
    while w < num_workers
        invariant
            dv == views(data@),
            wf_dataset(dv),
            n == dv.len() as int,
            wni == num_workers as int,
            1 <= num_workers <= dv.len(),
            0 <= w <= num_workers,
            cs == centers_of_clusters(clusters@),
            clusters@.len() == orig.len() >= 1,
            forall|i: int|
                0 <= i < orig.len() ==> (#[trigger] clusters@[i])@.center == orig[i]@.center,
            forall|i: int|
                0 <= i < clusters@.len() ==> (#[trigger] clusters@[i])@.center.wf(),
            forall|i: int|
                0 <= i < orig.len() ==> (#[trigger] clusters@[i])@.points == orig[i]@.points
                    + assigned(stripes_concat_upto(dv, w as int, wni, n), cs, i),
        decreases num_workers - w,
    {
        // The worker's point-in-time copy of every centroid.
        let centroids = centers_vec(&clusters);
        let ghost scw = stripes_concat_upto(dv, w as int, wni, n);
        let mut index: usize = w;
        proof {
            assert(w as int % wni == w as int) by {
                vstd::arithmetic::div_mod::lemma_small_mod(w as nat, wni as nat);
            }
            lemma_stripe_short(dv, w as int, wni, w as int);
            assert forall|i: int| 0 <= i < orig.len() implies (#[trigger] clusters@[i])@.points
                == orig[i]@.points + assigned(
                scw + stripe(
                    dv,
                    w as int,
                    wni,
                    if index as int <= n {
                        index as int
                    } else {
                        n
                    },
                ),
                cs,
                i,
            ) by {
                assert(scw + Seq::<PointV>::empty() =~= scw);
            }
        }
        while index < data.len()
            invariant
                dv == views(data@),
                wf_dataset(dv),
                n == dv.len() as int,
                wni == num_workers as int,
                1 <= num_workers <= dv.len(),
                0 <= w < num_workers,
                w <= index,
                index as int % wni == w as int,
                cs == centers_of_clusters(clusters@),
                scw == stripes_concat_upto(dv, w as int, wni, n),
                views(centroids@) == cs,
                centroids@.len() == orig.len(),
                clusters@.len() == orig.len() >= 1,
                forall|i: int|
                    0 <= i < orig.len() ==> (#[trigger] clusters@[i])@.center == orig[i]@.center,
                forall|i: int|
                    0 <= i < clusters@.len() ==> (#[trigger] clusters@[i])@.center.wf(),
                forall|i: int|
                    0 <= i < orig.len() ==> (#[trigger] clusters@[i])@.points == orig[i]@.points
                        + assigned(
                        scw + stripe(
                            dv,
                            w as int,
                            wni,
                            if index as int <= n {
                                index as int
                            } else {
                                n
                            },
                        ),
                        cs,
                        i,
                    ),
            decreases data@.len() + num_workers - index,
        {
            let ghost j = index as int;
            let ghost processed = scw + stripe(dv, w as int, wni, j);
            proof {
                assert(dv[j] == data@[j]@);
                assert(dv[j].wf() && dv[j].integral());
                assert forall|l: int| 0 <= l < centroids@.len() implies (#[trigger]
                centroids@[l])@.wf() by {
                    assert(views(centroids@)[l] == centroids@[l]@);
                    assert(cs[l].wf());
                }
            }
            let idx = get_closest_cluster_index_based_in_centroids(&data[index], &centroids);
            let ghost before = clusters@;
            clusters[idx].points.push(data[index].clone());
            proof {
                assert(centers_of_clusters(clusters@) =~= centers_of_clusters(before));
                crate::entities::lemma_views_push(before[idx as int].points@, data@[j]);
                let nextstripe = stripe(dv, w as int, wni, j + 1);
                assert(nextstripe == stripe(dv, w as int, wni, j).push(dv[j]));
                assert(scw + nextstripe =~= processed.push(dv[j]));
                assert forall|i: int| 0 <= i < orig.len() implies (#[trigger]
                clusters@[i])@.points == orig[i]@.points + assigned(
                    scw + nextstripe,
                    cs,
                    i,
                ) by {
                    lemma_assigned_push(processed, dv[j], cs, i);
                    if i == idx {
                        assert(clusters@[i]@.points == before[i]@.points.push(dv[j]));
                        assert(orig[i]@.points + assigned(processed, cs, i).push(dv[j]) =~= (
                        orig[i]@.points + assigned(processed, cs, i)).push(dv[j]));
                    } else {
                        assert(clusters@[i] == before[i]);
                    }
                }
            }
            index = index + num_workers;
            proof {
                vstd::arithmetic::div_mod::lemma_mod_add_multiples_vanish(j, wni);
                let cap = if index as int <= n {
                    index as int
                } else {
                    n
                };
                assert(1 <= cap - j <= wni);
                lemma_stripe_gap(dv, w as int, wni, j, cap - j);
            }
        }
        proof {
            assert(index >= n);
            assert(stripes_concat_upto(dv, w as int + 1, wni, n) == scw + stripe(
                dv,
                w as int,
                wni,
                n,
            ));
        }
        w = w + 1;
    }
    clusters
}

} // verus!
