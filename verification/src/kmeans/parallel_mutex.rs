//! The persistent worker-pool strategy: long-lived workers are spawned once
//! for the whole run, each owning the striped slice of dataset indices
//! congruent to its own index. Every iteration, each worker snapshots the
//! centroids (briefly holding each cluster's read lock in turn), picks the
//! nearest centroid for each of its points, and appends the point under a
//! narrowly scoped per-cluster write lock; a shared completion channel forms
//! a count-based barrier before the orchestrator recenters and decides. The
//! lock, signal and barrier plumbing lives with the runner around this
//! library; the decisions verified here are the striped assignment, the
//! recentering and the convergence control, and they pin the same result as
//! every other strategy.

use vstd::prelude::*;
use crate::entities::{center_of, views, Cluster, Point, PointV};
use crate::kmeans::common;
use crate::kmeans::model::{
    assigned, centers_of_clusters, closest_index, closest_upto, cluster_views, is_fixed, iterate,
    lemma_assigned_multiset, lemma_center_of_multiset, lemma_centers_of_clusters,
    lemma_members_wf_from_multiset, lemma_post_converged, lemma_step_view,
    lemma_stripes_partition, step_centers, stripes_concat, wf_dataset, ITER_LIMIT,
};
use crate::kmeans::Kmeans;

verus! {

/// The worker-pool strategy; `max_threads` is the number of persistent
/// workers asked for (clamped to at least one and at most one per point).
#[derive(Default)]
pub struct KmeansParallelMutex {
    pub max_threads: usize,
}

/// Index of the centroid nearest to `point` in a list of bare centroids —
/// the form each pool worker uses on its snapshot of the cluster centers.
/// Ties go to the lowest index, as everywhere.
pub fn get_closest_cluster_index_based_in_centroids(point: &Point, centroids: &Vec<Point>) -> (r:
    usize)
    requires
        point@.wf(),
        point@.integral(),
        centroids@.len() >= 1,
        forall|i: int| 0 <= i < centroids@.len() ==> (#[trigger] centroids@[i])@.wf(),
    ensures
        r == closest_index(views(centroids@), point@),
        r < centroids@.len(),
{
    let ghost cs = views(centroids@);
    proof {
        assert forall|l: int| 0 <= l < cs.len() implies (#[trigger] cs[l]).wf() by {
            assert(cs[l] == centroids@[l]@);
        }
    }
    let mut best: usize = 0;
    let mut best_d = point.euclidean_distance(&centroids[0]);
    let mut i: usize = 1;
    while i < centroids.len()
        invariant
            1 <= i <= centroids@.len(),
            point@.wf(),
            point@.integral(),
            forall|l: int| 0 <= l < cs.len() ==> (#[trigger] cs[l]).wf(),
            cs == views(centroids@),
            0 <= best < i,
            best == closest_upto(cs, point@, i as int),
            best_d.num == crate::entities::dist_num(point@, cs[best as int]),
            best_d.den == crate::entities::dist_den(point@, cs[best as int]),
        decreases centroids@.len() - i,
    {
        proof {
            assert(cs[i as int] == centroids@[i as int]@);
        }
        let d = point.euclidean_distance(&centroids[i]);
        proof {
            crate::entities::lemma_dist_bounds_integral(point@, cs[i as int]);
            crate::entities::lemma_dist_bounds_integral(point@, cs[best as int]);
            assert(d.num * best_d.den <= u128::MAX && best_d.num * d.den <= u128::MAX)
                by (nonlinear_arith)
                requires
                    0 <= d.num <= 3 * crate::entities::sq(
                        crate::entities::COORD_MAX as int * crate::entities::DEN_MAX as int,
                    ),
                    0 <= best_d.num <= 3 * crate::entities::sq(
                        crate::entities::COORD_MAX as int * crate::entities::DEN_MAX as int,
                    ),
                    1 <= d.den <= crate::entities::sq(crate::entities::DEN_MAX as int),
                    1 <= best_d.den <= crate::entities::sq(crate::entities::DEN_MAX as int),
            ;
        }
        if d.lt(&best_d) {
            best = i;
            best_d = d;
        }
        i = i + 1;
    }
    best
}

impl Kmeans for KmeansParallelMutex {
    fn execute(&self, data: &Vec<Point>, _k: u8, initial_centers: Vec<Point>) -> (r: Vec<Cluster>) {
        let ghost dv = views(data@);
        let ghost iv = views(initial_centers@);
        let num_workers = if self.max_threads < 1 {
            1
        } else if self.max_threads > data.len() {
            data.len()
        } else {
            self.max_threads
        };
        let mut clusters = common::clusters_from_centers(&initial_centers);
        let mut iters: u64 = 0;
        proof {
            assert(centers_of_clusters(clusters@) =~= iv);
            assert forall|i: int| 0 <= i < clusters@.len() implies (#[trigger]
            clusters@[i])@.center.wf() by {
                assert(clusters@[i]@.center == iv[i]);
                assert(iv[i] == initial_centers@[i]@);
            }
        }
        loop
            invariant
                dv == views(data@),
                iv == views(initial_centers@),
                wf_dataset(dv),
                1 <= num_workers <= dv.len(),
                clusters@.len() == iv.len(),
                iv.len() >= 1,
                centers_of_clusters(clusters@) == iterate(dv, iv, iters as nat),
                forall|i: int|
                    0 <= i < clusters@.len() ==> (#[trigger] clusters@[i])@.points
                        == Seq::<PointV>::empty(),
                forall|i: int| 0 <= i < clusters@.len() ==> (#[trigger] clusters@[i])@.center.wf(),
                iters <= ITER_LIMIT,
            decreases ITER_LIMIT - iters,
        {
            let ghost cs = centers_of_clusters(clusters@);
            // One barrier round: every worker walks its stripe and appends
            // under the per-cluster write lock; the count-based barrier in
            // the runner hands control back here once all have reported.
            clusters = common::assign_points_striped(data, clusters, num_workers);
            let ghost sp = stripes_concat(dv, num_workers as int);
            proof {
                assert(centers_of_clusters(clusters@) =~= cs);
                lemma_stripes_partition(dv, num_workers as int);
                assert forall|i: int| 0 <= i < clusters@.len() implies (#[trigger]
                clusters@[i])@.points == assigned(sp, cs, i) by {
                    assert(Seq::<PointV>::empty() + assigned(sp, cs, i) =~= assigned(sp, cs, i));
                }
                assert forall|i: int| 0 <= i < clusters@.len() implies (#[trigger]
                clusters@[i])@.points.to_multiset() == assigned(dv, cs, i).to_multiset() by {
                    lemma_assigned_multiset(sp, dv, cs, i);
                }
                assert forall|i: int| 0 <= i < clusters@.len() implies (#[trigger]
                clusters@[i])@.members_wf() by {
                    lemma_members_wf_from_multiset(dv, cs, i, clusters@[i]@.points);
                }
            }
            let new_centers = common::calculate_new_centers(&clusters);
            let old_centers = common::centers_vec(&clusters);
            proof {
                assert forall|i: int| 0 <= i < cs.len() implies #[trigger] views(new_centers@)[i]
                    == center_of(assigned(dv, cs, i)) by {
                    assert(views(new_centers@)[i] == new_centers@[i]@);
                    lemma_center_of_multiset(clusters@[i]@.points, assigned(dv, cs, i));
                }
                lemma_step_view(dv, cs, views(new_centers@));
                lemma_centers_of_clusters(clusters@);
            }
            if common::converged(&new_centers, &old_centers) {
                proof {
                    assert(views(new_centers@) =~= cs);
                    assert(is_fixed(dv, cs));
                    assert forall|i: int| 0 <= i < clusters@.len() implies (#[trigger]
                    cluster_views(clusters@)[i]).points.to_multiset() == assigned(
                        dv,
                        cs,
                        i,
                    ).to_multiset() by {
                        assert(cluster_views(clusters@)[i] == clusters@[i]@);
                    }
                    lemma_post_converged(dv, iv, iters as nat, cluster_views(clusters@));
                }
                return clusters;
            }
            if iters == ITER_LIMIT {
                proof {
                    assert forall|i: int| 0 <= i < clusters@.len() implies (#[trigger]
                    cluster_views(clusters@)[i]).points.to_multiset() == assigned(
                        dv,
                        cs,
                        i,
                    ).to_multiset() by {
                        assert(cluster_views(clusters@)[i] == clusters@[i]@);
                    }
                    lemma_post_converged(dv, iv, iters as nat, cluster_views(clusters@));
                }
                return clusters;
            }
            // Orchestrator: reset each cluster's centroid and clear its
            // membership, then release the workers for the next round.
            clusters = common::clusters_from_centers(&new_centers);
            iters = iters + 1;
            proof {
                assert(centers_of_clusters(clusters@) =~= views(new_centers@));
                assert(iterate(dv, iv, iters as nat) == step_centers(
                    dv,
                    iterate(dv, iv, (iters - 1) as nat),
                ));
            }
        }
    }
}

} // verus!
