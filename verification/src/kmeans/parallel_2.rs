//! The associative map-reduce strategy: a parallel map computes every
//! point's nearest-centroid index against an immutable centroid snapshot;
//! each partition independently folds its pairs into a local grouping keyed
//! by cluster; partial groupings are then merged by concatenating same-key
//! lists. `model::lemma_assigned_concat` is the associativity of that
//! combine: the final grouping does not depend on partition boundaries,
//! only within-cluster member order may — so no lock is needed.

use vstd::prelude::*;
use crate::entities::{
    center_of, lemma_views_concat, lemma_views_push, views, Cluster, Point, PointV,
};
use crate::kmeans::common;
use crate::kmeans::model::{
    assigned, assigned_upto, centers_of_clusters, closest_index, cluster_views, is_fixed, iterate,
    lemma_assigned_concat, lemma_assigned_members_wf, lemma_assigned_upto_prefix,
    lemma_centers_of_clusters, lemma_post_converged, lemma_step_view, step_centers, wf_dataset,
    ITER_LIMIT,
};
use crate::kmeans::Kmeans;

verus! {

/// The fold-and-merge strategy.
#[derive(Default)]
pub struct KmeansParallelBuilder2;

/// One partition's fold: group the pairs of the index range `lo..hi` into a
/// local per-cluster member list.
fn group_partition(
    data: &Vec<Point>,
    indices: &Vec<usize>,
    k: usize,
    lo: usize,
    hi: usize,
    Ghost(cs): Ghost<Seq<PointV>>,
) -> (g: Vec<Vec<Point>>)
    requires
        lo <= hi <= data@.len(),
        indices@.len() == data@.len(),
        k >= 1,
        forall|j: int|
            0 <= j < indices@.len() ==> #[trigger] indices@[j] == closest_index(cs, data@[j]@)
                && indices@[j] < k,
    ensures
        g@.len() == k as int,
        forall|i: int|
            0 <= i < k as int ==> views((#[trigger] g@[i])@) == assigned(
                views(data@).subrange(lo as int, hi as int),
                cs,
                i,
            ),
{
    let ghost dv = views(data@);
    let ghost sub = dv.subrange(lo as int, hi as int);
    let mut g: Vec<Vec<Point>> = Vec::new();
    while g.len() < k
        invariant
            g@.len() <= k as int,
            forall|i: int| 0 <= i < g@.len() ==> (#[trigger] g@[i])@ == Seq::<Point>::empty(),
        decreases k - g@.len(),
    {
        g.push(Vec::new());
    }
    let mut j: usize = lo;
    proof {
        assert forall|i: int| 0 <= i < k as int implies views((#[trigger] g@[i])@)
            == assigned_upto(sub, cs, i, 0) by {
            assert(views(Seq::<Point>::empty()) =~= Seq::<PointV>::empty());
        }
    }
    while j < hi
        invariant
            lo <= j <= hi <= data@.len(),
            dv == views(data@),
            sub == dv.subrange(lo as int, hi as int),
            indices@.len() == data@.len(),
            forall|l: int|
                0 <= l < indices@.len() ==> #[trigger] indices@[l] == closest_index(
                    cs,
                    data@[l]@,
                ) && indices@[l] < k,
            g@.len() == k as int,
            forall|i: int|
                0 <= i < k as int ==> views((#[trigger] g@[i])@) == assigned_upto(
                    sub,
                    cs,
                    i,
                    j - lo,
                ),
        decreases hi - j,
    {
        let idx = indices[j];
        let ghost before = g@;
        g[idx].push(data[j].clone());
        proof {
            assert(sub[j - lo] == dv[j as int]);
            assert(dv[j as int] == data@[j as int]@);
            lemma_views_push(before[idx as int]@, data@[j as int]);
            assert forall|i: int| 0 <= i < k as int implies views((#[trigger] g@[i])@)
                == assigned_upto(sub, cs, i, j + 1 - lo) by {
                if i == idx {
                    assert(g@[i]@ == before[i]@.push(data@[j as int]));
                } else {
                    assert(g@[i] == before[i]);
                }
            }
        }
        j = j + 1;
    }
    g
}

/// The pure merge of two partial groupings: concatenate same-key lists.
fn merge_groups(g1: Vec<Vec<Point>>, g2: Vec<Vec<Point>>) -> (g: Vec<Vec<Point>>)
    requires
        g1@.len() == g2@.len(),
    ensures
        g@.len() == g1@.len(),
        forall|i: int| 0 <= i < g@.len() ==> (#[trigger] g@[i])@ == g1@[i]@ + g2@[i]@,
{
    let ghost orig1 = g1@;
    let ghost orig2 = g2@;
    let mut g1 = g1;
    let mut g2 = g2;
    let mut out: Vec<Vec<Point>> = Vec::new();
    let mut i: usize = 0;
    while i < g1.len()
        invariant
            0 <= i <= orig1.len(),
            g1@ == orig1,
            g2@.len() == orig2.len(),
            orig1.len() == orig2.len(),
            forall|l: int| i <= l < orig2.len() ==> #[trigger] g2@[l] == orig2[l],
            out@.len() == i,
            forall|l: int| 0 <= l < i ==> (#[trigger] out@[l])@ == orig1[l]@ + orig2[l]@,
        decreases orig1.len() - i,
    {
        let mut a = g1[i].clone();
        let ghost a0 = a@;
        let b = &mut g2[i];
        proof {
            assert(a0 =~= orig1[i as int]@);
        }
        a.append(b);
        out.push(a);
        i = i + 1;
    }
    out
}

/// Attaches freshly grouped member lists to the clusters, keeping centroids.
fn attach_groups(clusters: Vec<Cluster>, groups: Vec<Vec<Point>>) -> (res: Vec<Cluster>)
    requires
        clusters@.len() == groups@.len(),
    ensures
        res@.len() == clusters@.len(),
        forall|i: int|
            0 <= i < clusters@.len() ==> (#[trigger] res@[i])@.center == clusters@[i]@.center
                && res@[i].points@ == groups@[i]@,
{
    let ghost origc = clusters@;
    let ghost origg = groups@;
    let mut res: Vec<Cluster> = Vec::new();
    let mut i: usize = 0;
    while i < clusters.len()
        invariant
            0 <= i <= origc.len(),
            clusters@ == origc,
            groups@ == origg,
            origc.len() == origg.len(),
            res@.len() == i,
            forall|l: int|
                0 <= l < i ==> (#[trigger] res@[l])@.center == origc[l]@.center && res@[l].points@
                    == origg[l]@,
        decreases origc.len() - i,
    {
        let center = clusters[i].center.clone();
        let pts = groups[i].clone();
        proof {
            assert(pts@ =~= origg[i as int]@);
        }
        res.push(Cluster { center, points: pts });
        i = i + 1;
    }
    res
}

impl Kmeans for KmeansParallelBuilder2 {
    fn execute(&self, data: &Vec<Point>, _k: u8, initial_centers: Vec<Point>) -> (r: Vec<Cluster>) {
        let ghost dv = views(data@);
        let ghost iv = views(initial_centers@);
        let mut clusters = common::clusters_from_centers(&initial_centers);
        let mut iters: u64 = 0;
        proof {
            assert(centers_of_clusters(clusters@) =~= iv);
            assert forall|i: int| 0 <= i < clusters@.len() implies (#[trigger]
            clusters@[i])@.center.wf() by {
                assert(clusters@[i]@.center == iv[i]);
                assert(iv[i] == initial_centers@[i]@);
            }
        }
        loop
            invariant
                dv == views(data@),
                iv == views(initial_centers@),
                wf_dataset(dv),
                clusters@.len() == iv.len(),
                iv.len() >= 1,
                centers_of_clusters(clusters@) == iterate(dv, iv, iters as nat),
                forall|i: int|
                    0 <= i < clusters@.len() ==> (#[trigger] clusters@[i])@.points
                        == Seq::<PointV>::empty(),
                forall|i: int| 0 <= i < clusters@.len() ==> (#[trigger] clusters@[i])@.center.wf(),
                iters <= ITER_LIMIT,
            decreases ITER_LIMIT - iters,
        {
            let ghost cs = centers_of_clusters(clusters@);
            // Map: parallel nearest-centroid pairs. Fold: each of the two
            // partitions groups its own pairs. Reduce: merge the partial
            // groupings by concatenating same-key lists.
            let indices = common::par_closest_indices(data, &clusters);
            let mid = data.len() / 2;
            let g1 = group_partition(data, &indices, clusters.len(), 0, mid, Ghost(cs));
            let g2 = group_partition(data, &indices, clusters.len(), mid, data.len(), Ghost(cs));
            let ghost g1v = g1@;
            let ghost g2v = g2@;
            let merged = merge_groups(g1, g2);
            let ghost mergedv = merged@;
            clusters = attach_groups(clusters, merged);
            proof {
                assert(centers_of_clusters(clusters@) =~= cs);
                let sub1 = dv.subrange(0, mid as int);
                let sub2 = dv.subrange(mid as int, dv.len() as int);
                assert(sub1 + sub2 =~= dv);
                assert forall|i: int| 0 <= i < clusters@.len() implies (#[trigger]
                clusters@[i])@.points == assigned(dv, cs, i) by {
                    lemma_assigned_concat(sub1, sub2, cs, i);
                    lemma_views_concat(g1v[i]@, g2v[i]@);
                    assert(clusters@[i]@.points == views(mergedv[i]@));
                    lemma_assigned_upto_prefix(sub1 + sub2, dv, cs, i, dv.len() as int);
                }
                assert forall|i: int| 0 <= i < clusters@.len() implies (#[trigger]
                clusters@[i])@.members_wf() by {
                    lemma_assigned_members_wf(dv, cs, i);
                }
            }
            let new_centers = common::calculate_new_centers_parallel(&clusters);
            let old_centers = common::centers_vec(&clusters);
            proof {
                assert forall|i: int| 0 <= i < cs.len() implies #[trigger] views(new_centers@)[i]
                    == center_of(assigned(dv, cs, i)) by {
                    assert(views(new_centers@)[i] == new_centers@[i]@);
                }
                lemma_step_view(dv, cs, views(new_centers@));
                lemma_centers_of_clusters(clusters@);
            }
            if common::converged(&new_centers, &old_centers) {
                proof {
                    assert(views(new_centers@) =~= cs);
                    assert(is_fixed(dv, cs));
                    assert forall|i: int| 0 <= i < clusters@.len() implies (#[trigger]
                    cluster_views(clusters@)[i]).points.to_multiset() == assigned(
                        dv,
                        cs,
                        i,
                    ).to_multiset() by {
                        assert(cluster_views(clusters@)[i] == clusters@[i]@);
                    }
                    lemma_post_converged(dv, iv, iters as nat, cluster_views(clusters@));
                }
                return clusters;
            }
            if iters == ITER_LIMIT {
                proof {
                    assert forall|i: int| 0 <= i < clusters@.len() implies (#[trigger]
                    cluster_views(clusters@)[i]).points.to_multiset() == assigned(
                        dv,
                        cs,
                        i,
                    ).to_multiset() by {
                        assert(cluster_views(clusters@)[i] == clusters@[i]@);
                    }
                    lemma_post_converged(dv, iv, iters as nat, cluster_views(clusters@));
                }
                return clusters;
            }
            clusters = common::clusters_from_centers(&new_centers);
            iters = iters + 1;
            proof {
                assert(centers_of_clusters(clusters@) =~= views(new_centers@));
                assert(iterate(dv, iv, iters as nat) == step_centers(
                    dv,
                    iterate(dv, iv, (iters - 1) as nat),
                ));
            }
        }
    }
}

} // verus!
