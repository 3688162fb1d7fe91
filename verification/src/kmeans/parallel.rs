//! The transient fork-join strategy with a collector pipeline: each
//! iteration, parallel workers compute every point's nearest-centroid index
//! against a read-only snapshot of the centroids and hand the
//! `(point, index)` pairs to a single collector, which alone mutates the
//! clusters — no lock guards the member lists. The parallel map runs
//! through rayon; the pipeline fixes no cross-point order, so the contract
//! promises member sets, not member order.

use vstd::prelude::*;
use crate::entities::{center_of, views, Cluster, Point, PointV};
use crate::kmeans::common;
use crate::kmeans::model::{
    assigned, assigned_upto, centers_of_clusters, closest_index, cluster_views, is_fixed, iterate,
    lemma_assigned_members_wf, lemma_centers_of_clusters, lemma_post_converged, lemma_step_view,
    step_centers, wf_dataset, ITER_LIMIT,
};
use crate::kmeans::Kmeans;

verus! {

/// The fork-join strategy with one collector task per iteration.
#[derive(Default)]
pub struct KmeansParallelBuilder;

/// The collector's work: drain the `(point, index)` pairs and append each
/// point to the cluster the workers chose for it, serializing all mutation
/// of cluster state in one place.
fn collect_pairs(data: &Vec<Point>, indices: &Vec<usize>, clusters: Vec<Cluster>) -> (res: Vec<
    Cluster,
>)
    requires
        wf_dataset(views(data@)),
        clusters@.len() >= 1,
        forall|i: int| 0 <= i < clusters@.len() ==> (#[trigger] clusters@[i])@.center.wf(),
        indices@.len() == data@.len(),
        forall|j: int|
            0 <= j < indices@.len() ==> #[trigger] indices@[j] == closest_index(
                centers_of_clusters(clusters@),
                data@[j]@,
            ) && indices@[j] < clusters@.len(),
    ensures
        res@.len() == clusters@.len(),
        forall|i: int|
            0 <= i < clusters@.len() ==> (#[trigger] res@[i])@.center == clusters@[i]@.center,
        forall|i: int|
            0 <= i < clusters@.len() ==> (#[trigger] res@[i])@.points == clusters@[i]@.points
                + assigned(views(data@), centers_of_clusters(clusters@), i),
{
    let ghost orig = clusters@;
    let ghost cs = centers_of_clusters(clusters@);
    let ghost dv = views(data@);
    let mut clusters = clusters;
    let mut j: usize = 0;
    while j < data.len()
        invariant
            0 <= j <= data@.len(),
            dv == views(data@),
            indices@.len() == data@.len(),
            forall|l: int|
                0 <= l < indices@.len() ==> #[trigger] indices@[l] == closest_index(
                    cs,
                    data@[l]@,
                ) && indices@[l] < orig.len(),
            cs == centers_of_clusters(clusters@),
            clusters@.len() == orig.len() >= 1,
            forall|i: int|
                0 <= i < orig.len() ==> (#[trigger] clusters@[i])@.center == orig[i]@.center,
            forall|i: int|
                0 <= i < orig.len() ==> (#[trigger] clusters@[i])@.points == orig[i]@.points
                    + assigned_upto(dv, cs, i, j as int),
        decreases data@.len() - j,
    {
        let idx = indices[j];
        let ghost before = clusters@;
        clusters[idx].points.push(data[j].clone());
        proof {
            assert(dv[j as int] == data@[j as int]@);
            assert(centers_of_clusters(clusters@) =~= centers_of_clusters(before));
            crate::entities::lemma_views_push(before[idx as int].points@, data@[j as int]);
            assert forall|i: int| 0 <= i < orig.len() implies (#[trigger] clusters@[i])@.points
                == orig[i]@.points + assigned_upto(dv, cs, i, j + 1) by {
                if i == idx {
                    assert(clusters@[i]@.points == before[i]@.points.push(dv[j as int]));
                    assert(assigned_upto(dv, cs, i, j + 1) == assigned_upto(dv, cs, i, j as int)
                        .push(dv[j as int]));
                    assert(orig[i]@.points + assigned_upto(dv, cs, i, j as int).push(
                        dv[j as int],
                    ) =~= (orig[i]@.points + assigned_upto(dv, cs, i, j as int)).push(
                        dv[j as int],
                    ));
                } else {
                    assert(clusters@[i] == before[i]);
                    assert(assigned_upto(dv, cs, i, j + 1) == assigned_upto(dv, cs, i, j as int));
                }
            }
        }
        j = j + 1;
    }
    clusters
}

impl Kmeans for KmeansParallelBuilder {
    fn execute(&self, data: &Vec<Point>, _k: u8, initial_centers: Vec<Point>) -> (r: Vec<Cluster>) {
        let ghost dv = views(data@);
        let ghost iv = views(initial_centers@);
        let mut clusters = common::clusters_from_centers(&initial_centers);
        let mut iters: u64 = 0;
        proof {
            assert(centers_of_clusters(clusters@) =~= iv);
            assert forall|i: int| 0 <= i < clusters@.len() implies (#[trigger]
            clusters@[i])@.center.wf() by {
                assert(clusters@[i]@.center == iv[i]);
                assert(iv[i] == initial_centers@[i]@);
            }
        }
        loop
            invariant
                dv == views(data@),
                iv == views(initial_centers@),
                wf_dataset(dv),
                clusters@.len() == iv.len(),
                iv.len() >= 1,
                centers_of_clusters(clusters@) == iterate(dv, iv, iters as nat),
                forall|i: int|
                    0 <= i < clusters@.len() ==> (#[trigger] clusters@[i])@.points
                        == Seq::<PointV>::empty(),
                forall|i: int| 0 <= i < clusters@.len() ==> (#[trigger] clusters@[i])@.center.wf(),
                iters <= ITER_LIMIT,
            decreases ITER_LIMIT - iters,
        {
            let ghost cs = centers_of_clusters(clusters@);
            // Fork: parallel workers compute every pair; join: one collector
            // drains them into the clusters.
            let indices = common::par_closest_indices(data, &clusters);
            clusters = collect_pairs(data, &indices, clusters);
            proof {
                assert(centers_of_clusters(clusters@) =~= cs);
                assert forall|i: int| 0 <= i < clusters@.len() implies (#[trigger]
                clusters@[i])@.points == assigned(dv, cs, i) by {
                    assert(Seq::<PointV>::empty() + assigned(dv, cs, i) =~= assigned(dv, cs, i));
                }
                assert forall|i: int| 0 <= i < clusters@.len() implies (#[trigger]
                clusters@[i])@.members_wf() by {
                    lemma_assigned_members_wf(dv, cs, i);
                }
            }
            let new_centers = common::calculate_new_centers_parallel(&clusters);
            let old_centers = common::centers_vec(&clusters);
            proof {
                assert forall|i: int| 0 <= i < cs.len() implies #[trigger] views(new_centers@)[i]
                    == center_of(assigned(dv, cs, i)) by {
                    assert(views(new_centers@)[i] == new_centers@[i]@);
                }
                lemma_step_view(dv, cs, views(new_centers@));
                lemma_centers_of_clusters(clusters@);
            }
            if common::converged(&new_centers, &old_centers) {
                proof {
                    assert(views(new_centers@) =~= cs);
                    assert(is_fixed(dv, cs));
                    assert forall|i: int| 0 <= i < clusters@.len() implies (#[trigger]
                    cluster_views(clusters@)[i]).points.to_multiset() == assigned(
                        dv,
                        cs,
                        i,
                    ).to_multiset() by {
                        assert(cluster_views(clusters@)[i] == clusters@[i]@);
                    }
                    lemma_post_converged(dv, iv, iters as nat, cluster_views(clusters@));
                }
                return clusters;
            }
            if iters == ITER_LIMIT {
                proof {
                    assert forall|i: int| 0 <= i < clusters@.len() implies (#[trigger]
                    cluster_views(clusters@)[i]).points.to_multiset() == assigned(
                        dv,
                        cs,
                        i,
                    ).to_multiset() by {
                        assert(cluster_views(clusters@)[i] == clusters@[i]@);
                    }
                    lemma_post_converged(dv, iv, iters as nat, cluster_views(clusters@));
                }
                return clusters;
            }
            clusters = common::clusters_from_centers(&new_centers);
            iters = iters + 1;
            proof {
                assert(centers_of_clusters(clusters@) =~= views(new_centers@));
                assert(iterate(dv, iv, iters as nat) == step_centers(
                    dv,
                    iterate(dv, iv, (iters - 1) as nat),
                ));
            }
        }
    }
}

} // verus!
