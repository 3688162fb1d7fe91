//! The sequential baseline strategy: one thread does assignment,
//! recentering and the convergence test, in dataset order. It is the
//! reference the concurrent strategies are measured against.

use vstd::prelude::*;
use crate::entities::{views, Cluster, Point, PointV};
use crate::kmeans::common;
use crate::kmeans::model::{
    assigned, assigned_upto, centers_of_clusters, cluster_views, is_fixed, iterate,
    lemma_assigned_members_wf, lemma_centers_of_clusters, lemma_post_converged, lemma_step_view,
    step_centers, wf_dataset, ITER_LIMIT,
};
use crate::kmeans::Kmeans;

verus! {

/// The single-threaded reference implementation of the strategy contract.
#[derive(Default)]
pub struct KmeansSerialBuilder;

impl Kmeans for KmeansSerialBuilder {
    fn execute(&self, data: &Vec<Point>, _k: u8, initial_centers: Vec<Point>) -> (r: Vec<Cluster>) {
        let ghost dv = views(data@);
        let ghost iv = views(initial_centers@);
        let mut clusters = common::clusters_from_centers(&initial_centers);
        let mut iters: u64 = 0;
        proof {
            assert(centers_of_clusters(clusters@) =~= iv);
            assert forall|i: int| 0 <= i < clusters@.len() implies (#[trigger]
            clusters@[i])@.center.wf() by {
                assert(clusters@[i]@.center == iv[i]);
                assert(iv[i] == initial_centers@[i]@);
            }
        }
        loop
            invariant
                dv == views(data@),
                iv == views(initial_centers@),
                wf_dataset(dv),
                clusters@.len() == iv.len(),
                iv.len() >= 1,
                centers_of_clusters(clusters@) == iterate(dv, iv, iters as nat),
                forall|i: int|
                    0 <= i < clusters@.len() ==> (#[trigger] clusters@[i])@.points
                        == Seq::<PointV>::empty(),
                forall|i: int| 0 <= i < clusters@.len() ==> (#[trigger] clusters@[i])@.center.wf(),
                iters <= ITER_LIMIT,
            decreases ITER_LIMIT - iters,
        {
            let ghost cs = centers_of_clusters(clusters@);
            clusters = common::assign_points(data, clusters);
            proof {
                assert(centers_of_clusters(clusters@) =~= cs);
                assert forall|i: int| 0 <= i < clusters@.len() implies (#[trigger] clusters@[i])@.points == assigned(dv, cs, i) by {
                    assert(Seq::<PointV>::empty() + assigned_upto(dv, cs, i, dv.len() as int) =~= assigned(dv, cs, i));
                }
                assert forall|i: int| 0 <= i < clusters@.len() implies (#[trigger] clusters@[i])@.members_wf() by {
                    lemma_assigned_members_wf(dv, cs, i);
                }
            }
            let new_centers = common::calculate_new_centers(&clusters);
            let old_centers = common::centers_vec(&clusters);
            proof {
                assert forall|i: int| 0 <= i < cs.len() implies #[trigger] views(new_centers@)[i]
                    == crate::entities::center_of(assigned(dv, cs, i)) by {
                    assert(views(new_centers@)[i] == new_centers@[i]@);
                }
                lemma_step_view(dv, cs, views(new_centers@));
                lemma_centers_of_clusters(clusters@);
            }
            if common::converged(&new_centers, &old_centers) {
                proof {
                    assert(views(new_centers@) =~= cs);
                    assert(is_fixed(dv, cs));
                    assert forall|i: int| 0 <= i < clusters@.len() implies (#[trigger]
                    cluster_views(clusters@)[i]).points.to_multiset() == assigned(
                        dv,
                        cs,
                        i,
                    ).to_multiset() by {
                        assert(cluster_views(clusters@)[i] == clusters@[i]@);
                    }
                    lemma_post_converged(dv, iv, iters as nat, cluster_views(clusters@));
                }
                return clusters;
            }
            if iters == ITER_LIMIT {
                proof {
                    assert forall|i: int| 0 <= i < clusters@.len() implies (#[trigger]
                    cluster_views(clusters@)[i]).points.to_multiset() == assigned(
                        dv,
                        cs,
                        i,
                    ).to_multiset() by {
                        assert(cluster_views(clusters@)[i] == clusters@[i]@);
                    }
                    lemma_post_converged(dv, iv, iters as nat, cluster_views(clusters@));
                }
                return clusters;
            }
            clusters = common::clusters_from_centers(&new_centers);
            iters = iters + 1;
            proof {
                assert(centers_of_clusters(clusters@) =~= views(new_centers@));
                assert(iterate(dv, iv, iters as nat) == step_centers(
                    dv,
                    iterate(dv, iv, (iters - 1) as nat),
                ));
            }
        }
    }
}

} // verus!
