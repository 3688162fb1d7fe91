//! The clustering strategies: the contract every strategy satisfies, the
//! mathematical model they are all proved against, and a builder-style
//! front end around the sequential baseline.

pub mod common;
pub mod cost;
pub mod model;
pub mod parallel;
pub mod parallel_2;
pub mod parallel_3;
pub mod parallel_mutex;
pub mod serial;
pub mod tokio;

use vstd::prelude::*;
use crate::entities::{center_of, views, Cluster, Point, PointV};
use crate::kmeans::model::{
    assigned, assigned_upto, centers_of_clusters, cluster_views, is_fixed, iterate, kmeans_post,
    lemma_assigned_members_wf, lemma_centers_of_clusters, lemma_post_converged, lemma_step_view,
    step_centers, wf_centers, wf_dataset, ITER_LIMIT,
};

verus! {

/// The strategy contract: every concurrency variant runs the same exact
/// iteration from the same initial centroids, so each one returns clusters
/// satisfying the one shared postcondition — and therefore, by
/// `model::lemma_cross_strategy_equivalence`, the same clustering.
pub trait Kmeans {
    /// Clusters the dataset around `k` initial centroids, iterating until
    /// the centroid sequence repeats exactly (or the iteration cap is hit),
    /// and returns the final clusters: centroids plus assigned members.
    fn execute(&self, data: &Vec<Point>, k: u8, initial_centers: Vec<Point>) -> (r: Vec<Cluster>)
        requires
            wf_dataset(views(data@)),
            k >= 1,
            initial_centers@.len() == k as int,
            wf_centers(views(initial_centers@)),
        ensures
            kmeans_post(views(data@), views(initial_centers@), cluster_views(r@)),
    ;
}

/// Draws `n` dataset points uniformly at random, without replacement, as
/// initial centroids.
pub fn get_n_random_points(points: &Vec<Point>, n: usize) -> (r: Vec<Point>)
    ensures
        r@.len() == if n <= points@.len() {
            n as int
        } else {
            points@.len() as int
        },
        forall|l: int| 0 <= l < r@.len() ==> points@.contains(#[trigger] r@[l]),
{
    common::get_n_random_points(points, n)
}

/// Assigns every dataset point to its nearest cluster, in dataset order.
pub fn assign_points(data: &Vec<Point>, clusters: Vec<Cluster>) -> (res: Vec<Cluster>)
    requires
        wf_dataset(views(data@)),
        clusters@.len() >= 1,
        forall|i: int| 0 <= i < clusters@.len() ==> (#[trigger] clusters@[i])@.center.wf(),
    ensures
        res@.len() == clusters@.len(),
        forall|i: int|
            0 <= i < clusters@.len() ==> (#[trigger] res@[i])@.center == clusters@[i]@.center,
        forall|i: int|
            0 <= i < clusters@.len() ==> (#[trigger] res@[i])@.points == clusters@[i]@.points
                + assigned_upto(
                views(data@),
                centers_of_clusters(clusters@),
                i,
                data@.len() as int,
            ),
{
    common::assign_points(data, clusters)
}

/// Element-by-element centroid comparison over matching indices.
pub fn converged(points1: &Vec<Point>, points2: &Vec<Point>) -> (r: bool)
    ensures
        r == forall|i: int|
            0 <= i < points1@.len() && i < points2@.len() ==> views(points1@)[i] == views(
                points2@,
            )[i],
{
    common::converged(points1, points2)
}

/// Recomputes every cluster's centroid as the exact mean of its members.
pub fn calculate_new_centers(clusters: &Vec<Cluster>) -> (r: Vec<Point>)
    requires
        forall|i: int| 0 <= i < clusters@.len() ==> (#[trigger] clusters@[i])@.members_wf(),
    ensures
        r@.len() == clusters@.len(),
        forall|i: int|
            0 <= i < clusters@.len() ==> (#[trigger] r@[i])@ == center_of(
                clusters@[i]@.points,
            ) && r@[i]@.wf(),
{
    common::calculate_new_centers(clusters)
}

/// Builder-style front end around the sequential baseline: collect the
/// dataset, the cluster count and (optionally) explicit initial centroids,
/// then run the clustering. When no initial centroids are given, `k` points
/// are drawn from the dataset at random.
#[derive(Default)]
pub struct KmeansSerialBuilder {
    pub data: Vec<Point>,
    pub k: u8,
    pub initial_centers: Option<Vec<Point>>,
}

impl KmeansSerialBuilder {
    /// Sets the dataset.
    pub fn with_data(self, data: Vec<Point>) -> (r: Self)
        ensures
            r.data == data,
            r.k == self.k,
            r.initial_centers == self.initial_centers,
    {
        Self { data, ..self }
    }

    /// Sets the number of clusters.
    pub fn with_k(self, k: u8) -> (r: Self)
        ensures
            r.data == self.data,
            r.k == k,
            r.initial_centers == self.initial_centers,
    {
        Self { k, ..self }
    }

    /// Sets explicit initial centroids.
    pub fn with_initial_centers(self, initial_centers: Vec<Point>) -> (r: Self)
        ensures
            r.data == self.data,
            r.k == self.k,
            r.initial_centers == Some(initial_centers),
    {
        Self { initial_centers: Some(initial_centers), ..self }
    }

    /// Runs the sequential clustering with the collected configuration.
    /// With explicit initial centroids the result meets the strategy
    /// contract for them; otherwise it meets the contract for some random
    /// selection of `k` dataset points.
    pub fn execute(self) -> (r: Vec<Cluster>)
        requires
            wf_dataset(views(self.data@)),
            self.k >= 1,
            self.initial_centers is Some ==> (self.initial_centers->Some_0)@.len()
                == self.k as int && wf_centers(views((self.initial_centers->Some_0)@)),
            self.initial_centers is None ==> self.k as int <= self.data@.len(),
        ensures
            self.initial_centers is Some ==> kmeans_post(
                views(self.data@),
                views((self.initial_centers->Some_0)@),
                cluster_views(r@),
            ),
            self.initial_centers is None ==> exists|init: Seq<PointV>|
                init.len() == self.k as int && (forall|l: int|
                    0 <= l < init.len() ==> views(self.data@).contains(#[trigger] init[l]))
                    && #[trigger] kmeans_post(views(self.data@), init, cluster_views(r@)),
    {
        let KmeansSerialBuilder { data, k, initial_centers } = self;
        let ghost had_centers = initial_centers is Some;
        let initial = match initial_centers {
            Some(ic) => ic,
            None => get_n_random_points(&data, k as usize),
        };
        proof {
            if !had_centers {
                assert forall|l: int| 0 <= l < views(initial@).len() implies views(
                    self.data@,
                ).contains(#[trigger] views(initial@)[l]) && views(initial@)[l].wf() by {
                    assert(data@.contains(initial@[l]));
                    let j = choose|j: int| 0 <= j < data@.len() && data@[j] == initial@[l];
                    assert(views(data@)[j] == data@[j]@);
                    assert(views(initial@)[l] == initial@[l]@);
                }
            }
        }
        let r = run_serial(&data, &initial);
        proof {
            if !had_centers {
                let init = views(initial@);
                assert(init.len() == k as int && (forall|l: int|
                    0 <= l < init.len() ==> views(self.data@).contains(#[trigger] init[l]))
                    && kmeans_post(views(self.data@), init, cluster_views(r@)));
            }
        }
        r
    }
}

/// The sequential convergence loop shared by the builder front end.
fn run_serial(data: &Vec<Point>, initial_centers: &Vec<Point>) -> (r: Vec<Cluster>)
    requires
        wf_dataset(views(data@)),
        initial_centers@.len() >= 1,
        wf_centers(views(initial_centers@)),
    ensures
        kmeans_post(views(data@), views(initial_centers@), cluster_views(r@)),
{
    let ghost dv = views(data@);
    let ghost iv = views(initial_centers@);
    let mut clusters = common::clusters_from_centers(initial_centers);
    let mut iters: u64 = 0;
    proof {
        assert(centers_of_clusters(clusters@) =~= iv);
        assert forall|i: int| 0 <= i < clusters@.len() implies (#[trigger]
        clusters@[i])@.center.wf() by {
            assert(clusters@[i]@.center == iv[i]);
            assert(iv[i] == initial_centers@[i]@);
        }
    }
    loop
        invariant
            dv == views(data@),
            iv == views(initial_centers@),
            wf_dataset(dv),
            clusters@.len() == iv.len(),
            iv.len() >= 1,
            centers_of_clusters(clusters@) == iterate(dv, iv, iters as nat),
            forall|i: int|
                0 <= i < clusters@.len() ==> (#[trigger] clusters@[i])@.points
                    == Seq::<PointV>::empty(),
            forall|i: int| 0 <= i < clusters@.len() ==> (#[trigger] clusters@[i])@.center.wf(),
            iters <= ITER_LIMIT,
        decreases ITER_LIMIT - iters,
    {
        let ghost cs = centers_of_clusters(clusters@);
        clusters = assign_points(data, clusters);
        proof {
            assert(centers_of_clusters(clusters@) =~= cs);
            assert forall|i: int| 0 <= i < clusters@.len() implies (#[trigger]
            clusters@[i])@.points == assigned(dv, cs, i) by {
                assert(Seq::<PointV>::empty() + assigned_upto(dv, cs, i, dv.len() as int)
                    =~= assigned(dv, cs, i));
            }
            assert forall|i: int| 0 <= i < clusters@.len() implies (#[trigger]
            clusters@[i])@.members_wf() by {
                lemma_assigned_members_wf(dv, cs, i);
            }
        }
        let new_centers = calculate_new_centers(&clusters);
        let old_centers = common::centers_vec(&clusters);
        proof {
            assert forall|i: int| 0 <= i < cs.len() implies #[trigger] views(new_centers@)[i]
                == center_of(assigned(dv, cs, i)) by {
                assert(views(new_centers@)[i] == new_centers@[i]@);
            }
            lemma_step_view(dv, cs, views(new_centers@));
            lemma_centers_of_clusters(clusters@);
        }
        if converged(&new_centers, &old_centers) {
            proof {
                assert(views(new_centers@) =~= cs);
                assert(is_fixed(dv, cs));
                assert forall|i: int| 0 <= i < clusters@.len() implies (#[trigger] cluster_views(
                    clusters@,
                )[i]).points.to_multiset() == assigned(dv, cs, i).to_multiset() by {
                    assert(cluster_views(clusters@)[i] == clusters@[i]@);
                }
                lemma_post_converged(dv, iv, iters as nat, cluster_views(clusters@));
            }
            return clusters;
        }
        if iters == ITER_LIMIT {
            proof {
                assert forall|i: int| 0 <= i < clusters@.len() implies (#[trigger] cluster_views(
                    clusters@,
                )[i]).points.to_multiset() == assigned(dv, cs, i).to_multiset() by {
                    assert(cluster_views(clusters@)[i] == clusters@[i]@);
                }
                lemma_post_converged(dv, iv, iters as nat, cluster_views(clusters@));
            }
            return clusters;
        }
        clusters = common::clusters_from_centers(&new_centers);
        iters = iters + 1;
        proof {
            assert(centers_of_clusters(clusters@) =~= views(new_centers@));
            assert(iterate(dv, iv, iters as nat) == step_centers(
                dv,
                iterate(dv, iv, (iters - 1) as nat),
            ));
        }
    }
}

} // verus!
