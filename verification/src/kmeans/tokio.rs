//! The cooperative task-based strategy: the same shape as the fork-join
//! pipeline, but scheduled as lightweight cooperative tasks over a shared
//! async scheduler instead of parallel OS-level workers. Per iteration, the
//! sender tasks walk striped slices of the dataset and route every point to
//! the buffered queue of its nearest cluster's collector task; tasks
//! suspend only at queue send and receive boundaries, yielding the
//! scheduling thread instead of blocking it. The runtime, the tasks and the
//! queues live with the runner around this library; the striped assignment,
//! the recentering and the convergence control are verified here and pin
//! the same result as every other strategy.

use vstd::prelude::*;
use crate::entities::{center_of, views, Cluster, Point, PointV};
use crate::kmeans::common;
use crate::kmeans::model::{
    assigned, centers_of_clusters, cluster_views, is_fixed, iterate, lemma_assigned_multiset,
    lemma_center_of_multiset, lemma_centers_of_clusters, lemma_members_wf_from_multiset,
    lemma_post_converged, lemma_step_view, lemma_stripes_partition, step_centers, stripes_concat,
    wf_dataset, ITER_LIMIT,
};
use crate::kmeans::Kmeans;

verus! {

/// The cooperative task strategy; `max_threads` is the number of sender
/// tasks asked for (clamped to at least one and at most one per point).
#[derive(Default)]
pub struct KmeansTokioBuilder {
    pub max_threads: usize,
}

impl Kmeans for KmeansTokioBuilder {
    fn execute(&self, data: &Vec<Point>, _k: u8, initial_centers: Vec<Point>) -> (r: Vec<Cluster>) {
        let ghost dv = views(data@);
        let ghost iv = views(initial_centers@);
        let num_workers = if self.max_threads < 1 {
            1
        } else if self.max_threads > data.len() {
            data.len()
        } else {
            self.max_threads
        };
        let mut clusters = common::clusters_from_centers(&initial_centers);
        let mut iters: u64 = 0;
        proof {
            assert(centers_of_clusters(clusters@) =~= iv);
            assert forall|i: int| 0 <= i < clusters@.len() implies (#[trigger]
            clusters@[i])@.center.wf() by {
                assert(clusters@[i]@.center == iv[i]);
                assert(iv[i] == initial_centers@[i]@);
            }
        }
        loop
            invariant
                dv == views(data@),
                iv == views(initial_centers@),
                wf_dataset(dv),
                1 <= num_workers <= dv.len(),
                clusters@.len() == iv.len(),
                iv.len() >= 1,
                centers_of_clusters(clusters@) == iterate(dv, iv, iters as nat),
                forall|i: int|
                    0 <= i < clusters@.len() ==> (#[trigger] clusters@[i])@.points
                        == Seq::<PointV>::empty(),
                forall|i: int| 0 <= i < clusters@.len() ==> (#[trigger] clusters@[i])@.center.wf(),
                iters <= ITER_LIMIT,
            decreases ITER_LIMIT - iters,
        {
            let ghost cs = centers_of_clusters(clusters@);
            // Sender tasks walk their stripes and route each point into
            // its cluster's buffered queue; each collector task drains its
            // own queue, and the iteration completes when all deliver.
            clusters = common::assign_points_striped(data, clusters, num_workers);
            let ghost sp = stripes_concat(dv, num_workers as int);
            proof {
                assert(centers_of_clusters(clusters@) =~= cs);
                lemma_stripes_partition(dv, num_workers as int);
                assert forall|i: int| 0 <= i < clusters@.len() implies (#[trigger]
                clusters@[i])@.points == assigned(sp, cs, i) by {
                    assert(Seq::<PointV>::empty() + assigned(sp, cs, i) =~= assigned(sp, cs, i));
                }
                assert forall|i: int| 0 <= i < clusters@.len() implies (#[trigger]
                clusters@[i])@.points.to_multiset() == assigned(dv, cs, i).to_multiset() by {
                    lemma_assigned_multiset(sp, dv, cs, i);
                }
                assert forall|i: int| 0 <= i < clusters@.len() implies (#[trigger]
                clusters@[i])@.members_wf() by {
                    lemma_members_wf_from_multiset(dv, cs, i, clusters@[i]@.points);
                }
            }
            let new_centers = common::calculate_new_centers(&clusters);
            let old_centers = common::centers_vec(&clusters);
            proof {
                assert forall|i: int| 0 <= i < cs.len() implies #[trigger] views(new_centers@)[i]
                    == center_of(assigned(dv, cs, i)) by {
                    assert(views(new_centers@)[i] == new_centers@[i]@);
                    lemma_center_of_multiset(clusters@[i]@.points, assigned(dv, cs, i));
                }
                lemma_step_view(dv, cs, views(new_centers@));
                lemma_centers_of_clusters(clusters@);
            }
            if common::converged(&new_centers, &old_centers) {
                proof {
                    assert(views(new_centers@) =~= cs);
                    assert(is_fixed(dv, cs));
                    assert forall|i: int| 0 <= i < clusters@.len() implies (#[trigger]
                    cluster_views(clusters@)[i]).points.to_multiset() == assigned(
                        dv,
                        cs,
                        i,
                    ).to_multiset() by {
                        assert(cluster_views(clusters@)[i] == clusters@[i]@);
                    }
                    lemma_post_converged(dv, iv, iters as nat, cluster_views(clusters@));
                }
                return clusters;
            }
            if iters == ITER_LIMIT {
                proof {
                    assert forall|i: int| 0 <= i < clusters@.len() implies (#[trigger]
                    cluster_views(clusters@)[i]).points.to_multiset() == assigned(
                        dv,
                        cs,
                        i,
                    ).to_multiset() by {
                        assert(cluster_views(clusters@)[i] == clusters@[i]@);
                    }
                    lemma_post_converged(dv, iv, iters as nat, cluster_views(clusters@));
                }
                return clusters;
            }
            clusters = common::clusters_from_centers(&new_centers);
            iters = iters + 1;
            proof {
                assert(centers_of_clusters(clusters@) =~= views(new_centers@));
                assert(iterate(dv, iv, iters as nat) == step_centers(
                    dv,
                    iterate(dv, iv, (iters - 1) as nat),
                ));
            }
        }
    }
}

} // verus!
