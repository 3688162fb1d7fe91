//! The mathematical model of one k-means run: nearest-centroid choice with
//! deterministic tie-breaking, the per-iteration assignment and recentering
//! step, the iteration sequence it induces, and the laws every execution
//! strategy is proved against.

use vstd::multiset::Multiset;
use vstd::prelude::*;
use crate::entities::{
    center_of, dist_den, dist_lt, dist_num, sq, sum_x, sum_y, sum_z, Cluster, ClusterV, PointV,
    DEN_MAX,
};

verus! {

/// Nearest centroid among the first `n` of `cs`, ties to the lowest index:
/// exactly the fold the assignment loops compute.
pub open spec fn closest_upto(cs: Seq<PointV>, p: PointV, n: int) -> int
    decreases n,
{
    if n <= 1 {
        0
    } else {
        let prev = closest_upto(cs, p, n - 1);
        if dist_lt(p, cs[n - 1], cs[prev]) {
            n - 1
        } else {
            prev
        }
    }
}

/// The index of the centroid a point is assigned to.
pub open spec fn closest_index(cs: Seq<PointV>, p: PointV) -> int {
    closest_upto(cs, p, cs.len() as int)
}

/// Strict closer-than and its negation chain as the exact fraction order
/// does, provided the denominators are positive.
proof fn lemma_dist_lt_le_trans(p: PointV, a: PointV, b: PointV, c: PointV)
    requires
        dist_den(p, a) > 0,
        dist_den(p, b) > 0,
        dist_den(p, c) > 0,
        dist_lt(p, a, b),
        !dist_lt(p, c, b),
    ensures
        dist_lt(p, a, c),
{
    let na = dist_num(p, a);
    let nb = dist_num(p, b);
    let nc = dist_num(p, c);
    let da = dist_den(p, a);
    let db = dist_den(p, b);
    let dc = dist_den(p, c);
    assert(na * db * dc < nb * da * dc) by (nonlinear_arith)
        requires
            na * db < nb * da,
            dc > 0,
    ;
    assert(nb * dc * da <= nc * db * da) by (nonlinear_arith)
        requires
            nb * dc <= nc * db,
            da > 0,
    ;
    assert(na * db * dc == na * dc * db && nb * da * dc == nb * dc * da && nc * db * da == nc * da
        * db) by (nonlinear_arith);
    assert(na * dc * db < nc * da * db);
    assert(na * dc < nc * da) by (nonlinear_arith)
        requires
            na * dc * db < nc * da * db,
            db > 0,
    ;
}

/// The denominator of a squared distance is positive for well-formed points.
pub proof fn lemma_dist_den_pos(p: PointV, q: PointV)
    requires
        p.den >= 1,
        q.den >= 1,
    ensures
        dist_den(p, q) >= 1,
{
    assert(sq(p.den * q.den) >= 1) by (nonlinear_arith)
        requires
            p.den >= 1,
            q.den >= 1,
    ;
}

/// What `closest_upto` returns: an index below `n`, no farther from `p`
/// than any candidate, and strictly closer than every earlier candidate —
/// the deterministic lowest-index tie-break.
pub proof fn lemma_closest_characterization(cs: Seq<PointV>, p: PointV, n: int)
    requires
        1 <= n <= cs.len(),
        p.den >= 1,
        forall|j: int| 0 <= j < n ==> (#[trigger] cs[j]).den >= 1,
    ensures
        0 <= closest_upto(cs, p, n) < n,
        forall|j: int|
            0 <= j < n ==> !dist_lt(p, #[trigger] cs[j], cs[closest_upto(cs, p, n)]),
        forall|j: int| 0 <= j < closest_upto(cs, p, n) ==> dist_lt(p, cs[closest_upto(cs, p, n)], #[trigger] cs[j]),
    decreases n,
{
    if n == 1 {
    } else {
        lemma_closest_characterization(cs, p, n - 1);
        let prev = closest_upto(cs, p, n - 1);
        let r = closest_upto(cs, p, n);
        if dist_lt(p, cs[n - 1], cs[prev]) {
            assert(r == n - 1);
            assert forall|j: int| 0 <= j < n - 1 implies dist_lt(p, cs[r], #[trigger] cs[j]) by {
                lemma_dist_den_pos(p, cs[prev]);
                lemma_dist_den_pos(p, cs[n - 1]);
                lemma_dist_den_pos(p, cs[j]);
                lemma_dist_lt_le_trans(p, cs[n - 1], cs[prev], cs[j]);
            }
            assert forall|j: int| 0 <= j < n implies !dist_lt(p, #[trigger] cs[j], cs[r]) by {
                if j < n - 1 {
                    // cs[r] is strictly closer than cs[j], so cs[j] cannot be
                    // strictly closer than cs[r].
                    lemma_strict_asymmetric(p, cs[r], cs[j]);
                }
            }
        } else {
            assert(r == prev);
        }
    }
}

/// A fraction cannot be both strictly smaller and strictly larger.
proof fn lemma_strict_asymmetric(p: PointV, a: PointV, b: PointV)
    requires
        dist_lt(p, a, b),
    ensures
        !dist_lt(p, b, a),
{
    assert(!(dist_num(p, b) * dist_den(p, a) < dist_num(p, a) * dist_den(p, b))) by (nonlinear_arith)
        requires
            dist_num(p, a) * dist_den(p, b) < dist_num(p, b) * dist_den(p, a),
    ;
}

/// Tie-break determinism: a point equidistant from two centroids is never
/// assigned to the higher-indexed one.
pub proof fn lemma_tie_break_low_index(cs: Seq<PointV>, p: PointV, i: int, j: int)
    requires
        cs.len() >= 1,
        p.den >= 1,
        forall|l: int| 0 <= l < cs.len() ==> (#[trigger] cs[l]).den >= 1,
        0 <= i < j < cs.len(),
        dist_num(p, cs[i]) * dist_den(p, cs[j]) == dist_num(p, cs[j]) * dist_den(p, cs[i]),
    ensures
        closest_index(cs, p) != j,
{
    lemma_closest_characterization(cs, p, cs.len() as int);
    if closest_index(cs, p) == j {
        assert(dist_lt(p, cs[j], cs[i]));
    }
}

/// The members assigned to cluster `i` among the first `n` dataset points,
/// in dataset order.
pub open spec fn assigned_upto(data: Seq<PointV>, cs: Seq<PointV>, i: int, n: int) -> Seq<PointV>
    decreases n,
{
    if n <= 0 {
        Seq::empty()
    } else {
        let rest = assigned_upto(data, cs, i, n - 1);
        if closest_index(cs, data[n - 1]) == i {
            rest.push(data[n - 1])
        } else {
            rest
        }
    }
}

/// The members assigned to cluster `i` over the whole dataset.
pub open spec fn assigned(data: Seq<PointV>, cs: Seq<PointV>, i: int) -> Seq<PointV> {
    assigned_upto(data, cs, i, data.len() as int)
}

/// One full iteration: assign every point to its nearest centroid, then
/// recompute each centroid as the exact mean of its members.
pub open spec fn step_centers(data: Seq<PointV>, cs: Seq<PointV>) -> Seq<PointV> {
    Seq::new(cs.len(), |i: int| center_of(assigned(data, cs, i)))
}

/// The centroid sequence after `n` iterations from `init`.
pub open spec fn iterate(data: Seq<PointV>, init: Seq<PointV>, n: nat) -> Seq<PointV>
    decreases n,
{
    if n == 0 {
        init
    } else {
        step_centers(data, iterate(data, init, (n - 1) as nat))
    }
}

/// A centroid sequence on which one more iteration changes nothing: the
/// convergence criterion, exact equality of consecutive centroid sequences.
pub open spec fn is_fixed(data: Seq<PointV>, cs: Seq<PointV>) -> bool {
    step_centers(data, cs) == cs
}

/// Iteration cap: every strategy gives up unconverged after this many
/// rebuilds, so that each run provably ends.
pub const ITER_LIMIT: u64 = 0xFFFF_FFFF_FFFF_FFFF;

/// Well-formed input dataset: non-empty, small enough for exact arithmetic,
/// all points well-formed and integral.
pub open spec fn wf_dataset(data: Seq<PointV>) -> bool {
    &&& 1 <= data.len() <= DEN_MAX as int
    &&& forall|i: int|
        0 <= i < data.len() ==> (#[trigger] data[i]).wf() && data[i].integral()
}

/// Well-formed centroid sequence.
pub open spec fn wf_centers(cs: Seq<PointV>) -> bool {
    forall|i: int| 0 <= i < cs.len() ==> (#[trigger] cs[i]).wf()
}

/// The centroid sequence of a cluster sequence.
pub open spec fn centers_seq(out: Seq<ClusterV>) -> Seq<PointV> {
    out.map_values(|c: ClusterV| c.center)
}

/// The values of a sequence of executable clusters.
pub open spec fn cluster_views(s: Seq<Cluster>) -> Seq<ClusterV> {
    s.map_values(|c: Cluster| c@)
}

/// The centroid values of a sequence of executable clusters.
pub open spec fn centers_of_clusters(s: Seq<Cluster>) -> Seq<PointV> {
    s.map_values(|c: Cluster| c@.center)
}

/// The two ways of reading the centroids of a cluster sequence agree.
pub proof fn lemma_centers_of_clusters(s: Seq<Cluster>)
    ensures
        centers_of_clusters(s) == centers_seq(cluster_views(s)),
{
    assert(centers_of_clusters(s) =~= centers_seq(cluster_views(s)));
}

/// Each cluster holds exactly the dataset points nearest to its centroid,
/// as a multiset: member order is the one thing strategies may differ in.
pub open spec fn members_match(data: Seq<PointV>, out: Seq<ClusterV>) -> bool {
    forall|i: int|
        0 <= i < out.len() ==> (#[trigger] out[i]).points.to_multiset() == assigned(
            data,
            centers_seq(out),
            i,
        ).to_multiset()
}

/// The returned centroids are what iterating from `init` produces, and the
/// run stopped either converged or at the iteration cap.
pub open spec fn reached(data: Seq<PointV>, init: Seq<PointV>, cs: Seq<PointV>) -> bool {
    exists|n: nat|
        #[trigger] iterate(data, init, n) == cs && n <= ITER_LIMIT as nat && (is_fixed(data, cs)
            || n == ITER_LIMIT as nat)
}

/// The full contract of one k-means run, shared by every strategy.
pub open spec fn kmeans_post(data: Seq<PointV>, init: Seq<PointV>, out: Seq<ClusterV>) -> bool {
    &&& out.len() == init.len()
    &&& reached(data, init, centers_seq(out))
    &&& members_match(data, out)
    &&& forall|i: int| 0 <= i < out.len() ==> (#[trigger] out[i]).wf()
}

/// The member multisets of clusters `0..k`, combined.
pub open spec fn members_multiset_upto(out: Seq<ClusterV>, k: int) -> Multiset<PointV>
    decreases k,
{
    if k <= 0 {
        Multiset::empty()
    } else {
        members_multiset_upto(out, k - 1).add(out[k - 1].points.to_multiset())
    }
}

/// Counting form of the cluster invariant: over the first `k` clusters, a
/// point appears as often as the dataset holds it when its nearest centroid
/// is among them, and not at all otherwise.
proof fn lemma_members_sum_count(
    data: Seq<PointV>,
    cs: Seq<PointV>,
    out: Seq<ClusterV>,
    k: int,
    p: PointV,
)
    requires
        0 <= k <= out.len(),
        forall|i: int|
            0 <= i < out.len() ==> (#[trigger] out[i]).points.to_multiset()
                == data.to_multiset().filter(assigned_pred(cs, i)),
    ensures
        members_multiset_upto(out, k).count(p) == if 0 <= closest_index(cs, p) < k {
            data.to_multiset().count(p)
        } else {
            0
        },
    decreases k,
{
    broadcast use vstd::multiset::axiom_filter_count;

    if k > 0 {
        lemma_members_sum_count(data, cs, out, k - 1, p);
    }
}

/// The cluster invariant of a completed run: the union of all clusters'
/// member lists equals the full input dataset exactly once per point — no
/// duplication, no omission.
pub proof fn lemma_members_partition_dataset(
    data: Seq<PointV>,
    init: Seq<PointV>,
    out: Seq<ClusterV>,
)
    requires
        wf_dataset(data),
        init.len() >= 1,
        kmeans_post(data, init, out),
    ensures
        members_multiset_upto(out, out.len() as int) == data.to_multiset(),
{
    broadcast use vstd::seq_lib::group_to_multiset_ensures;

    let cs = centers_seq(out);
    assert forall|i: int| 0 <= i < out.len() implies (#[trigger] out[i]).points.to_multiset()
        == data.to_multiset().filter(assigned_pred(cs, i)) by {
        lemma_assigned_to_multiset_filter(data, cs, i);
    }
    let total = members_multiset_upto(out, out.len() as int);
    assert forall|p: PointV| total.count(p) == #[trigger] data.to_multiset().count(p) by {
        lemma_members_sum_count(data, cs, out, out.len() as int, p);
        if data.to_multiset().count(p) > 0 {
            // The point is in the dataset, so it is well-formed and its
            // nearest-centroid index is in range.
            assert(data.contains(p));
            let j = choose|j: int| 0 <= j < data.len() && data[j] == p;
            assert(data[j].wf());
            assert forall|l: int| 0 <= l < cs.len() implies (#[trigger] cs[l]).den >= 1 by {
                assert(out[l].wf());
                assert(cs[l] == out[l].center);
            }
            lemma_closest_characterization(cs, p, cs.len() as int);
        }
    }
    assert(total =~= data.to_multiset());
}

/// Once the iteration reaches a fixed point it stays there.
pub proof fn lemma_fixed_persists(data: Seq<PointV>, init: Seq<PointV>, n: nat, m: nat)
    requires
        n <= m,
        is_fixed(data, iterate(data, init, n)),
    ensures
        iterate(data, init, m) == iterate(data, init, n),
    decreases m - n,
{
    if m > n {
        lemma_fixed_persists(data, init, n, (m - 1) as nat);
    }
}

/// Cross-strategy equivalence: two runs over the same dataset from the same
/// initial centroids return the same centroids and, cluster by cluster, the
/// same member multiset — any two strategies agree up to member order.
pub proof fn lemma_cross_strategy_equivalence(
    data: Seq<PointV>,
    init: Seq<PointV>,
    out1: Seq<ClusterV>,
    out2: Seq<ClusterV>,
)
    requires
        kmeans_post(data, init, out1),
        kmeans_post(data, init, out2),
    ensures
        out1.len() == out2.len(),
        centers_seq(out1) == centers_seq(out2),
        forall|i: int|
            0 <= i < out1.len() ==> (#[trigger] out1[i]).center == out2[i].center
                && out1[i].points.to_multiset() == out2[i].points.to_multiset(),
{
    let cs1 = centers_seq(out1);
    let cs2 = centers_seq(out2);
    let n1 = choose|n: nat|
        #[trigger] iterate(data, init, n) == cs1 && n <= ITER_LIMIT as nat && (is_fixed(data, cs1)
            || n == ITER_LIMIT as nat);
    let n2 = choose|n: nat|
        #[trigger] iterate(data, init, n) == cs2 && n <= ITER_LIMIT as nat && (is_fixed(data, cs2)
            || n == ITER_LIMIT as nat);
    if is_fixed(data, cs1) && n1 <= n2 {
        lemma_fixed_persists(data, init, n1, n2);
    } else if is_fixed(data, cs2) && n2 <= n1 {
        lemma_fixed_persists(data, init, n2, n1);
    } else {
        // Neither run converged before the cap that covers the other, so
        // both stand exactly at the cap.
        assert(n1 == ITER_LIMIT as nat && n2 == ITER_LIMIT as nat);
    }
    assert(cs1 == cs2);
    assert forall|i: int| 0 <= i < out1.len() implies (#[trigger] out1[i]).center == out2[i].center
        && out1[i].points.to_multiset() == out2[i].points.to_multiset() by {
        assert(centers_seq(out1)[i] == out1[i].center);
        assert(centers_seq(out2)[i] == out2[i].center);
    }
}

/// Centroid recomputation is idempotent: the centroid is a function of the
/// member list alone, so recomputing it from an unchanged member list gives
/// the same centroid every time.
pub proof fn lemma_centroid_idempotent(members: Seq<PointV>, c1: PointV, c2: PointV)
    requires
        c1 == center_of(members),
        c2 == center_of(members),
    ensures
        c1 == c2,
{
}

/// A cluster never gathers more members than points were assigned.
pub proof fn lemma_assigned_upto_len(data: Seq<PointV>, cs: Seq<PointV>, i: int, n: int)
    requires
        0 <= n <= data.len(),
    ensures
        assigned_upto(data, cs, i, n).len() <= n,
    decreases n,
{
    if n > 0 {
        lemma_assigned_upto_len(data, cs, i, n - 1);
    }
}

/// Every assigned member is one of the dataset points.
pub proof fn lemma_assigned_upto_membership(data: Seq<PointV>, cs: Seq<PointV>, i: int, n: int)
    requires
        n <= data.len(),
    ensures
        forall|l: int|
            0 <= l < assigned_upto(data, cs, i, n).len() ==> exists|j: int|
                0 <= j < n && #[trigger] assigned_upto(data, cs, i, n)[l] == data[j],
    decreases n,
{
    if n > 0 {
        lemma_assigned_upto_membership(data, cs, i, n - 1);
        let prev = assigned_upto(data, cs, i, n - 1);
        let cur = assigned_upto(data, cs, i, n);
        assert forall|l: int| 0 <= l < cur.len() implies exists|j: int|
            0 <= j < n && #[trigger] cur[l] == data[j] by {
            if l < prev.len() {
                let j = choose|j: int| 0 <= j < n - 1 && #[trigger] prev[l] == data[j];
                assert(cur[l] == data[j]);
            } else {
                assert(cur[l] == data[n - 1]);
            }
        }
    }
}

/// Removing one element takes exactly its coordinates out of the sums.
proof fn lemma_sums_remove(s: Seq<PointV>, j: int)
    requires
        0 <= j < s.len(),
    ensures
        sum_x(s.remove(j)) == sum_x(s) - s[j].x,
        sum_y(s.remove(j)) == sum_y(s) - s[j].y,
        sum_z(s.remove(j)) == sum_z(s) - s[j].z,
    decreases s.len(),
{
    if j == s.len() - 1 {
        assert(s.remove(j) =~= s.drop_last());
    } else {
        assert(s.remove(j).drop_last() =~= s.drop_last().remove(j));
        assert(s.remove(j).last() == s.last());
        lemma_sums_remove(s.drop_last(), j);
    }
}

/// Coordinate sums depend only on the multiset of members, not their order.
pub proof fn lemma_sums_from_multiset(s1: Seq<PointV>, s2: Seq<PointV>)
    requires
        s1.to_multiset() == s2.to_multiset(),
    ensures
        s1.len() == s2.len(),
        sum_x(s1) == sum_x(s2),
        sum_y(s1) == sum_y(s2),
        sum_z(s1) == sum_z(s2),
    decreases s1.len(),
{
    broadcast use vstd::seq_lib::group_to_multiset_ensures;

    if s1.len() == 0 {
        assert(s2.to_multiset().len() == 0);
    } else {
        let x = s1.last();
        assert(s1.drop_last().push(x) =~= s1);
        assert(s1.to_multiset().count(x) > 0);
        assert(s2.to_multiset().count(x) > 0);
        assert(s2.contains(x));
        let j = choose|j: int| 0 <= j < s2.len() && s2[j] == x;
        assert(s2.remove(j).to_multiset() =~= s2.to_multiset().remove(x));
        assert(s1.drop_last().to_multiset() =~= s1.to_multiset().remove(x)) by {
            assert(s1.drop_last().push(x).to_multiset() =~= s1.drop_last().to_multiset().insert(
                x,
            ));
        }
        lemma_sums_from_multiset(s1.drop_last(), s2.remove(j));
        lemma_sums_remove(s2, j);
    }
}

/// The centroid depends only on the multiset of members: member order never
/// changes the mean.
pub proof fn lemma_center_of_multiset(s1: Seq<PointV>, s2: Seq<PointV>)
    requires
        s1.to_multiset() == s2.to_multiset(),
    ensures
        center_of(s1) == center_of(s2),
{
    lemma_sums_from_multiset(s1, s2);
}

/// The membership test behind cluster `i`: a point belongs to it when `i`
/// is its nearest-centroid index.
pub open spec fn assigned_pred(cs: Seq<PointV>, i: int) -> spec_fn(PointV) -> bool {
    |p: PointV| closest_index(cs, p) == i
}

/// What one assignment pass collects for cluster `i` is exactly the
/// dataset multiset filtered by nearest-centroid membership.
pub proof fn lemma_assigned_to_multiset_filter(s: Seq<PointV>, cs: Seq<PointV>, i: int)
    ensures
        assigned(s, cs, i).to_multiset() == s.to_multiset().filter(assigned_pred(cs, i)),
    decreases s.len(),
{
    broadcast use vstd::seq_lib::group_to_multiset_ensures;
    broadcast use vstd::multiset::axiom_filter_count;

    let f = assigned_pred(cs, i);
    if s.len() == 0 {
        assert(assigned(s, cs, i) == Seq::<PointV>::empty());
        assert(s.to_multiset().filter(f) =~= Seq::<PointV>::empty().to_multiset());
    } else {
        let d = s.drop_last();
        let v = s.last();
        lemma_assigned_to_multiset_filter(d, cs, i);
        lemma_assigned_upto_prefix(s, d, cs, i, s.len() - 1);
        assert(d.push(v) =~= s);
        assert(s.to_multiset() == d.to_multiset().insert(v));
        if f(v) {
            assert(assigned(s, cs, i) == assigned(d, cs, i).push(v));
            assert(d.to_multiset().insert(v).filter(f) =~= d.to_multiset().filter(f).insert(v));
        } else {
            assert(assigned(s, cs, i) == assigned(d, cs, i));
            assert(d.to_multiset().insert(v).filter(f) =~= d.to_multiset().filter(f));
        }
    }
}

/// Assignment depends on the dataset only as a multiset: two passes over
/// permutations of the same points collect the same member multisets.
pub proof fn lemma_assigned_multiset(s1: Seq<PointV>, s2: Seq<PointV>, cs: Seq<PointV>, i: int)
    requires
        s1.to_multiset() == s2.to_multiset(),
    ensures
        assigned(s1, cs, i).to_multiset() == assigned(s2, cs, i).to_multiset(),
{
    lemma_assigned_to_multiset_filter(s1, cs, i);
    lemma_assigned_to_multiset_filter(s2, cs, i);
}

/// The stripe of worker `w` among `wn` workers over the first `n` points:
/// the points whose index is congruent to `w` modulo `wn`, in index order.
pub open spec fn stripe(data: Seq<PointV>, w: int, wn: int, n: int) -> Seq<PointV>
    decreases n,
{
    if n <= 0 || wn <= 0 {
        Seq::empty()
    } else if (n - 1) % wn == w {
        stripe(data, w, wn, n - 1).push(data[n - 1])
    } else {
        stripe(data, w, wn, n - 1)
    }
}

/// The stripes of workers `0..w` over the first `n` points, concatenated in
/// worker order: the order the striped strategies gather members in.
pub open spec fn stripes_concat_upto(data: Seq<PointV>, w: int, wn: int, n: int) -> Seq<PointV>
    decreases w,
{
    if w <= 0 {
        Seq::empty()
    } else {
        stripes_concat_upto(data, w - 1, wn, n) + stripe(data, w - 1, wn, n)
    }
}

/// All stripes of `wn` workers over the whole dataset, in worker order.
pub open spec fn stripes_concat(data: Seq<PointV>, wn: int) -> Seq<PointV> {
    stripes_concat_upto(data, wn, wn, data.len() as int)
}

/// Extending the prefix by one point adds that point to exactly one
/// worker's stripe, hence to the concatenation when that worker is counted.
proof fn lemma_stripes_step(data: Seq<PointV>, w: int, wn: int, n: int, wstar: int)
    requires
        wn >= 1,
        1 <= n <= data.len(),
        wstar == (n - 1) % wn,
    ensures
        stripes_concat_upto(data, w, wn, n).to_multiset() == if wstar < w {
            stripes_concat_upto(data, w, wn, n - 1).to_multiset().insert(data[n - 1])
        } else {
            stripes_concat_upto(data, w, wn, n - 1).to_multiset()
        },
    decreases w,
{
    broadcast use vstd::seq_lib::group_to_multiset_ensures;

    if w <= 0 {
    } else {
        lemma_stripes_step(data, w - 1, wn, n, wstar);
        let pre_new = stripes_concat_upto(data, w - 1, wn, n);
        let pre_old = stripes_concat_upto(data, w - 1, wn, n - 1);
        let st_new = stripe(data, w - 1, wn, n);
        let st_old = stripe(data, w - 1, wn, n - 1);
        vstd::seq_lib::lemma_multiset_commutative(pre_new, st_new);
        vstd::seq_lib::lemma_multiset_commutative(pre_old, st_old);
        let v = data[n - 1];
        if wstar == w - 1 {
            assert(st_new == st_old.push(v));
            assert(pre_new.to_multiset() == pre_old.to_multiset());
            assert(pre_old.to_multiset().add(st_old.to_multiset().insert(v))
                =~= pre_old.to_multiset().add(st_old.to_multiset()).insert(v));
        } else if wstar < w - 1 {
            assert(st_new == st_old);
            assert(pre_new.to_multiset().insert(v).add(st_old.to_multiset())
                =~= pre_new.to_multiset().add(st_old.to_multiset()).insert(v)) by {
                assert(pre_new.to_multiset() == pre_old.to_multiset().insert(v));
            }
            assert(pre_old.to_multiset().insert(v).add(st_old.to_multiset())
                =~= pre_old.to_multiset().add(st_old.to_multiset()).insert(v));
        } else {
            assert(st_new == st_old);
            assert(pre_new.to_multiset() == pre_old.to_multiset());
        }
    }
}

/// With no points, every stripe is empty.
proof fn lemma_stripes_empty(data: Seq<PointV>, w: int, wn: int)
    ensures
        stripes_concat_upto(data, w, wn, 0) == Seq::<PointV>::empty(),
    decreases w,
{
    if w > 0 {
        lemma_stripes_empty(data, w - 1, wn);
        assert(Seq::<PointV>::empty() + Seq::<PointV>::empty() =~= Seq::<PointV>::empty());
    }
}

/// The striped partition covers every prefix exactly once, as a multiset.
proof fn lemma_stripes_multiset(data: Seq<PointV>, wn: int, n: int)
    requires
        wn >= 1,
        0 <= n <= data.len(),
    ensures
        stripes_concat_upto(data, wn, wn, n).to_multiset() == data.take(n).to_multiset(),
    decreases n,
{
    broadcast use vstd::seq_lib::group_to_multiset_ensures;

    if n == 0 {
        lemma_stripes_empty(data, wn, wn);
        assert(data.take(0) =~= Seq::<PointV>::empty());
    } else {
        lemma_stripes_multiset(data, wn, n - 1);
        let wstar = (n - 1) % wn;
        assert(0 <= wstar < wn) by {
            vstd::arithmetic::div_mod::lemma_mod_division_less_than_divisor(n - 1, wn);
        }
        lemma_stripes_step(data, wn, wn, n, wstar);
        assert(data.take(n) =~= data.take(n - 1).push(data[n - 1]));
        assert(data.take(n).to_multiset() == data.take(n - 1).to_multiset().insert(data[n - 1]));
    }
}

/// The striped partition is balanced and complete: the concatenation of all
/// worker stripes is a permutation of the dataset — no point duplicated, no
/// point left out.
pub proof fn lemma_stripes_partition(data: Seq<PointV>, wn: int)
    requires
        wn >= 1,
    ensures
        stripes_concat(data, wn).to_multiset() == data.to_multiset(),
{
    lemma_stripes_multiset(data, wn, data.len() as int);
    assert(data.take(data.len() as int) =~= data);
}

/// Appending one point to a pass extends exactly its nearest cluster's
/// member list.
pub proof fn lemma_assigned_push(s: Seq<PointV>, v: PointV, cs: Seq<PointV>, i: int)
    ensures
        assigned(s.push(v), cs, i) == if closest_index(cs, v) == i {
            assigned(s, cs, i).push(v)
        } else {
            assigned(s, cs, i)
        },
{
    lemma_assigned_upto_prefix(s.push(v), s, cs, i, s.len() as int);
}

/// A worker's stripe is empty while the prefix ends before its first index.
pub proof fn lemma_stripe_short(data: Seq<PointV>, w: int, wn: int, m: int)
    requires
        0 <= m <= w < wn,
    ensures
        stripe(data, w, wn, m) == Seq::<PointV>::empty(),
    decreases m,
{
    if m > 0 {
        assert((m - 1) % wn == m - 1) by {
            vstd::arithmetic::div_mod::lemma_small_mod((m - 1) as nat, wn as nat);
        }
        lemma_stripe_short(data, w, wn, m - 1);
    }
}

/// Between two consecutive indices of one worker, its stripe is unchanged:
/// no index strictly between `base` and `base + wn` is congruent to `w`.
pub proof fn lemma_stripe_gap(data: Seq<PointV>, w: int, wn: int, base: int, t: int)
    requires
        0 <= w < wn,
        base >= 0,
        base % wn == w,
        1 <= t <= wn,
    ensures
        stripe(data, w, wn, base + t) == stripe(data, w, wn, base + 1),
    decreases t,
{
    if t > 1 {
        let q = base / wn;
        vstd::arithmetic::div_mod::lemma_fundamental_div_mod(base, wn);
        assert(base == q * wn + w) by {
            vstd::arithmetic::mul::lemma_mul_is_commutative(wn, q);
        }
        if w + t - 1 < wn {
            assert(base + t - 1 == q * wn + (w + t - 1));
            vstd::arithmetic::div_mod::lemma_fundamental_div_mod_converse_mod(
                base + t - 1,
                wn,
                q,
                w + t - 1,
            );
        } else {
            assert(base + t - 1 == (q + 1) * wn + (w + t - 1 - wn)) by (nonlinear_arith)
                requires
                    base == q * wn + w,
            ;
            vstd::arithmetic::div_mod::lemma_fundamental_div_mod_converse_mod(
                base + t - 1,
                wn,
                q + 1,
                w + t - 1 - wn,
            );
        }
        assert((base + t - 1) % wn != w);
        lemma_stripe_gap(data, w, wn, base, t - 1);
    }
}

/// Assignment reads only the points it is given: equal prefixes assign
/// equal member lists.
pub proof fn lemma_assigned_upto_prefix(
    sa: Seq<PointV>,
    sb: Seq<PointV>,
    cs: Seq<PointV>,
    i: int,
    n: int,
)
    requires
        forall|j: int| 0 <= j < n ==> sa[j] == sb[j],
    ensures
        assigned_upto(sa, cs, i, n) == assigned_upto(sb, cs, i, n),
    decreases n,
{
    if n > 0 {
        lemma_assigned_upto_prefix(sa, sb, cs, i, n - 1);
    }
}

/// The associative-combine law behind the fold-and-merge strategy: grouping
/// a concatenation equals grouping the parts and concatenating per key, so
/// the final grouping does not depend on partition boundaries.
pub proof fn lemma_assigned_concat(s1: Seq<PointV>, s2: Seq<PointV>, cs: Seq<PointV>, i: int)
    ensures
        assigned(s1 + s2, cs, i) == assigned(s1, cs, i) + assigned(s2, cs, i),
{
    lemma_assigned_upto_concat(s1, s2, cs, i, s2.len() as int);
}

/// Range form of `lemma_assigned_concat`.
proof fn lemma_assigned_upto_concat(s1: Seq<PointV>, s2: Seq<PointV>, cs: Seq<PointV>, i: int, m: int)
    requires
        0 <= m <= s2.len(),
    ensures
        assigned_upto(s1 + s2, cs, i, s1.len() + m) == assigned_upto(s1, cs, i, s1.len() as int)
            + assigned_upto(s2, cs, i, m),
    decreases m,
{
    if m == 0 {
        lemma_assigned_upto_prefix(s1 + s2, s1, cs, i, s1.len() as int);
        assert(assigned_upto(s1, cs, i, s1.len() as int) + Seq::<PointV>::empty()
            =~= assigned_upto(s1, cs, i, s1.len() as int));
    } else {
        lemma_assigned_upto_concat(s1, s2, cs, i, m - 1);
        assert((s1 + s2)[s1.len() + m - 1] == s2[m - 1]);
        if closest_index(cs, s2[m - 1]) == i {
            assert(assigned_upto(s1, cs, i, s1.len() as int) + assigned_upto(s2, cs, i, m - 1).push(
                s2[m - 1],
            ) =~= (assigned_upto(s1, cs, i, s1.len() as int) + assigned_upto(s2, cs, i, m - 1)).push(
                s2[m - 1],
            ));
        }
    }
}

/// Sum of a sequence of integers.
pub open spec fn isum(s: Seq<int>) -> int
    decreases s.len(),
{
    if s.len() == 0 {
        0
    } else {
        isum(s.drop_last()) + s.last()
    }
}

/// Sum of the squares of a sequence of integers.
pub open spec fn isum_sq(s: Seq<int>) -> int
    decreases s.len(),
{
    if s.len() == 0 {
        0
    } else {
        isum_sq(s.drop_last()) + sq(s.last())
    }
}

/// Summed squared deviation of whole values from the fraction `a / b`,
/// scaled by `b^2`: the sum of `(x * b - a)^2` over the sequence.
pub open spec fn isum_dev(s: Seq<int>, a: int, b: int) -> int
    decreases s.len(),
{
    if s.len() == 0 {
        0
    } else {
        isum_dev(s.drop_last(), a, b) + sq(s.last() * b - a)
    }
}

/// Closed form of the summed squared deviation.
proof fn lemma_isum_dev_expand(s: Seq<int>, a: int, b: int)
    ensures
        isum_dev(s, a, b) == b * b * isum_sq(s) - 2 * a * b * isum(s) + s.len() * a * a,
    decreases s.len(),
{
    if s.len() > 0 {
        let d = s.drop_last();
        lemma_isum_dev_expand(d, a, b);
        let x = s.last();
        let t = x * b - a;
        assert(sq(t) == t * t && sq(x) == x * x);
        assert(t * t == b * b * (x * x) - 2 * a * b * x + a * a) by (nonlinear_arith)
            requires
                t == x * b - a,
        ;
        assert(b * b * isum_sq(s) == b * b * isum_sq(d) + b * b * (x * x)) by (nonlinear_arith)
            requires
                isum_sq(s) == isum_sq(d) + x * x,
        ;
        assert(2 * a * b * isum(s) == 2 * a * b * isum(d) + 2 * a * b * x) by (nonlinear_arith)
            requires
                isum(s) == isum(d) + x,
        ;
        assert(s.len() * a * a == d.len() * a * a + a * a) by (nonlinear_arith)
            requires
                s.len() == d.len() + 1,
        ;
        assert(isum_dev(s, a, b) == b * b * isum_sq(s) - 2 * a * b * isum(s) + s.len() * a * a);
    }
}

/// The one-dimensional variance identity: measured against any fraction
/// `a / b`, the summed squared deviation exceeds the one measured against
/// the mean `isum(s) / len` by exactly `len * (len * a - isum(s) * b)^2`
/// (suitably scaled) — non-negative, and zero exactly at the mean.
proof fn lemma_variance_identity(s: Seq<int>, a: int, b: int)
    ensures
        s.len() * s.len() * isum_dev(s, a, b) - b * b * isum_dev(s, isum(s), s.len() as int) == s.len() * sq(s.len() * a - isum(s) * b),
{
    lemma_isum_dev_expand(s, a, b);
    lemma_isum_dev_expand(s, isum(s), s.len() as int);
    let m = s.len() as int;
    let s1 = isum(s);
    let s2 = isum_sq(s);
    assert(m * m * (b * b * s2) == b * b * m * m * s2) by (nonlinear_arith);
    assert(m * m * (2 * a * b * s1) == 2 * (a * b * m * m * s1)) by (nonlinear_arith);
    assert(m * m * (m * a * a) == a * a * m * m * m) by (nonlinear_arith);
    assert(m * m * (b * b * s2 - 2 * a * b * s1 + m * a * a) == m * m * (b * b * s2) - m * m * (2
        * a * b * s1) + m * m * (m * a * a)) by (nonlinear_arith);
    assert(b * b * (m * m * s2 - 2 * s1 * m * s1 + m * s1 * s1) == b * b * m * m * s2 - b * b * m
        * s1 * s1) by (nonlinear_arith);
    let p = m * a;
    let q = s1 * b;
    let u = p - q;
    assert(m * (u * u) == m * (p * p) - 2 * (m * (p * q)) + m * (q * q)) by (nonlinear_arith)
        requires
            u == p - q,
    ;
    assert(m * (p * p) == a * a * m * m * m && m * (p * q) == a * b * m * m * s1 && m * (q * q)
        == b * b * m * s1 * s1) by (nonlinear_arith)
        requires
            p == m * a,
            q == s1 * b,
    ;
    assert(sq(m * a - s1 * b) == u * u);
}

/// Dividing the fraction's components by a common divisor rescales the
/// summed squared deviation by its square.
proof fn lemma_isum_dev_reduce(s: Seq<int>, a: int, b: int, g: int)
    requires
        g >= 1,
        a >= 0,
        b >= 0,
        a % g == 0,
        b % g == 0,
    ensures
        isum_dev(s, a / g, b / g) * (g * g) == isum_dev(s, a, b),
    decreases s.len(),
{
    if s.len() > 0 {
        let d = s.drop_last();
        lemma_isum_dev_reduce(d, a, b, g);
        let x = s.last();
        vstd::arithmetic::div_mod::lemma_fundamental_div_mod(a, g);
        vstd::arithmetic::div_mod::lemma_fundamental_div_mod(b, g);
        let aq = a / g;
        let bq = b / g;
        let tq = x * bq - aq;
        let t = x * b - a;
        assert(sq(tq) == tq * tq && sq(t) == t * t);
        assert(tq * tq * (g * g) == t * t) by (nonlinear_arith)
            requires
                a == g * aq,
                b == g * bq,
                tq == x * bq - aq,
                t == x * b - a,
        ;
        assert(isum_dev(s, aq, bq) * (g * g) == isum_dev(d, aq, bq) * (g * g) + sq(tq) * (g * g))
            by (nonlinear_arith)
            requires
                isum_dev(s, aq, bq) == isum_dev(d, aq, bq) + sq(tq),
        ;
    }
}

/// The x numerators of a sequence of points.
pub open spec fn xs_of(s: Seq<PointV>) -> Seq<int> {
    s.map_values(|p: PointV| p.x)
}

/// The y numerators.
pub open spec fn ys_of(s: Seq<PointV>) -> Seq<int> {
    s.map_values(|p: PointV| p.y)
}

/// The z numerators.
pub open spec fn zs_of(s: Seq<PointV>) -> Seq<int> {
    s.map_values(|p: PointV| p.z)
}

/// Numerator of a cluster's total squared distance to a candidate center:
/// for integral members the distances share the denominator `sq(c.den)`,
/// so the total cost is this sum over that square.
pub open spec fn cluster_cost_num(members: Seq<PointV>, c: PointV) -> int
    decreases members.len(),
{
    if members.len() == 0 {
        0
    } else {
        cluster_cost_num(members.drop_last(), c) + dist_num(members.last(), c)
    }
}

/// For integral members, the cost numerator splits into the three
/// per-dimension deviation sums, and the coordinate sums match.
proof fn lemma_cluster_cost_dims(members: Seq<PointV>, c: PointV)
    requires
        forall|j: int|
            0 <= j < members.len() ==> (#[trigger] members[j]).integral(),
    ensures
        cluster_cost_num(members, c) == isum_dev(xs_of(members), c.x, c.den) + isum_dev(
            ys_of(members),
            c.y,
            c.den,
        ) + isum_dev(zs_of(members), c.z, c.den),
        isum(xs_of(members)) == sum_x(members),
        isum(ys_of(members)) == sum_y(members),
        isum(zs_of(members)) == sum_z(members),
    decreases members.len(),
{
    if members.len() == 0 {
        assert(xs_of(members) =~= Seq::<int>::empty());
        assert(ys_of(members) =~= Seq::<int>::empty());
        assert(zs_of(members) =~= Seq::<int>::empty());
    } else {
        let d = members.drop_last();
        lemma_cluster_cost_dims(d, c);
        let p = members.last();
        assert(xs_of(d) =~= xs_of(members).drop_last());
        assert(ys_of(d) =~= ys_of(members).drop_last());
        assert(zs_of(d) =~= zs_of(members).drop_last());
        assert(xs_of(members).last() == p.x);
        assert(ys_of(members).last() == p.y);
        assert(zs_of(members).last() == p.z);
        assert(dist_num(p, c) == sq(p.x * c.den - c.x) + sq(p.y * c.den - c.y) + sq(
            p.z * c.den - c.z,
        )) by {
            assert(p.den == 1);
            assert(c.x * p.den == c.x && c.y * p.den == c.y && c.z * p.den == c.z);
        }
    }
}

/// The recentering law, the heart of why one k-means iteration never makes
/// a clustering worse: measured as exact fractions, a non-empty cluster's
/// total squared distance from its members to the freshly computed mean is
/// at most the total to any other candidate center, and strictly below it
/// unless the candidate already sits at the mean's location.
pub proof fn lemma_mean_minimizes_cost(members: Seq<PointV>, c: PointV)
    requires
        1 <= members.len(),
        forall|j: int|
            0 <= j < members.len() ==> (#[trigger] members[j]).wf() && members[j].integral(),
        c.den >= 1,
    ensures
        cluster_cost_num(members, center_of(members)) * sq(c.den) <= cluster_cost_num(members, c)
            * sq(center_of(members).den),
        cluster_cost_num(members, center_of(members)) * sq(c.den) == cluster_cost_num(members, c)
            * sq(center_of(members).den) <==> center_of(members).same_pos(c),
{
    let m = members.len() as int;
    let sx = sum_x(members);
    let sy = sum_y(members);
    let sz = sum_z(members);
    let mu = center_of(members);
    let g = crate::rational::gcd4(sx as nat, sy as nat, sz as nat, m as nat) as int;
    lemma_sums_nonneg(members);
    crate::rational::lemma_gcd4_divides(sx as nat, sy as nat, sz as nat, m as nat);
    assert(mu.x == sx / g && mu.y == sy / g && mu.z == sz / g && mu.den == m / g);
    crate::rational::lemma_divisor_le(g as nat, m as nat);
    lemma_cluster_cost_dims(members, c);
    lemma_cluster_cost_dims(members, mu);
    let xs = xs_of(members);
    let ys = ys_of(members);
    let zs = zs_of(members);
    // The mean in lowest terms measures the same deviations, rescaled.
    lemma_isum_dev_reduce(xs, sx, m, g);
    lemma_isum_dev_reduce(ys, sy, m, g);
    lemma_isum_dev_reduce(zs, sz, m, g);
    assert(sx / g == mu.x && m / g == mu.den);
    assert(isum_dev(xs, mu.x, mu.den) * (g * g) == isum_dev(xs, sx, m));
    assert(isum_dev(ys, mu.y, mu.den) * (g * g) == isum_dev(ys, sy, m));
    assert(isum_dev(zs, mu.z, mu.den) * (g * g) == isum_dev(zs, sz, m));
    // Variance identity per dimension, against the candidate center.
    lemma_variance_identity(xs, c.x, c.den);
    lemma_variance_identity(ys, c.y, c.den);
    lemma_variance_identity(zs, c.z, c.den);
    let tx = m * c.x - sx * c.den;
    let ty = m * c.y - sy * c.den;
    let tz = m * c.z - sz * c.den;
    let gapx = sq(tx);
    let gapy = sq(ty);
    let gapz = sq(tz);
    assert(gapx == tx * tx && gapy == ty * ty && gapz == tz * tz);
    assert(gapx >= 0 && gapy >= 0 && gapz >= 0) by (nonlinear_arith)
        requires
            gapx == tx * tx,
            gapy == ty * ty,
            gapz == tz * tz,
    ;
    let costc = cluster_cost_num(members, c);
    let costmu = cluster_cost_num(members, mu);
    let devsum = isum_dev(xs, sx, m) + isum_dev(ys, sy, m) + isum_dev(zs, sz, m);
    assert(m * m * costc - c.den * c.den * devsum == m * (gapx + gapy + gapz)) by (nonlinear_arith)
        requires
            m * m * isum_dev(xs, c.x, c.den) - c.den * c.den * isum_dev(xs, sx, m) == m * gapx,
            m * m * isum_dev(ys, c.y, c.den) - c.den * c.den * isum_dev(ys, sy, m) == m * gapy,
            m * m * isum_dev(zs, c.z, c.den) - c.den * c.den * isum_dev(zs, sz, m) == m * gapz,
            costc == isum_dev(xs, c.x, c.den) + isum_dev(ys, c.y, c.den) + isum_dev(
                zs,
                c.z,
                c.den,
            ),
            devsum == isum_dev(xs, sx, m) + isum_dev(ys, sy, m) + isum_dev(zs, sz, m),
    ;
    assert(costmu * (g * g) == devsum) by (nonlinear_arith)
        requires
            costmu == isum_dev(xs, mu.x, mu.den) + isum_dev(ys, mu.y, mu.den) + isum_dev(
                zs,
                mu.z,
                mu.den,
            ),
            isum_dev(xs, mu.x, mu.den) * (g * g) == isum_dev(xs, sx, m),
            isum_dev(ys, mu.y, mu.den) * (g * g) == isum_dev(ys, sy, m),
            isum_dev(zs, mu.z, mu.den) * (g * g) == isum_dev(zs, sz, m),
            devsum == isum_dev(xs, sx, m) + isum_dev(ys, sy, m) + isum_dev(zs, sz, m),
    ;
    // Scale the goal by the positive factor (g * g): m == mu.den * g turns
    // the scaled comparison into the per-dimension identity above.
    assert(m == g * mu.den) by {
        vstd::arithmetic::div_mod::lemma_fundamental_div_mod(m, g);
    }
    let cd2 = c.den * c.den;
    let md2 = mu.den * mu.den;
    assert(sq(c.den) == cd2 && sq(mu.den) == md2);
    assert(costmu * cd2 * (g * g) == devsum * cd2) by (nonlinear_arith)
        requires
            costmu * (g * g) == devsum,
    ;
    assert(costc * md2 * (g * g) == costc * (m * m)) by (nonlinear_arith)
        requires
            m == g * mu.den,
            md2 == mu.den * mu.den,
    ;
    // The inequality, scaled and then cancelled.
    assert(devsum * cd2 <= costc * (m * m)) by (nonlinear_arith)
        requires
            m * m * costc - cd2 * devsum == m * (gapx + gapy + gapz),
            m >= 1,
            gapx >= 0,
            gapy >= 0,
            gapz >= 0,
    ;
    assert(costmu * cd2 <= costc * md2) by (nonlinear_arith)
        requires
            costmu * cd2 * (g * g) <= costc * md2 * (g * g),
            g >= 1,
    ;
    // Equality holds exactly when every per-dimension gap is zero, which is
    // exactly the candidate sitting at the mean's location.
    assert(sx == g * mu.x && sy == g * mu.y && sz == g * mu.z) by {
        vstd::arithmetic::div_mod::lemma_fundamental_div_mod(sx, g);
        vstd::arithmetic::div_mod::lemma_fundamental_div_mod(sy, g);
        vstd::arithmetic::div_mod::lemma_fundamental_div_mod(sz, g);
    }
    assert(costmu * cd2 == costc * md2 <==> mu.same_pos(c)) by {
        if costmu * cd2 == costc * md2 {
            assert(m * (gapx + gapy + gapz) == 0) by (nonlinear_arith)
                requires
                    costmu * cd2 == costc * md2,
                    costmu * cd2 * (g * g) == devsum * cd2,
                    costc * md2 * (g * g) == costc * (m * m),
                    m * m * costc - cd2 * devsum == m * (gapx + gapy + gapz),
            ;
            assert(gapx == 0 && gapy == 0 && gapz == 0) by (nonlinear_arith)
                requires
                    m * (gapx + gapy + gapz) == 0,
                    m >= 1,
                    gapx >= 0,
                    gapy >= 0,
                    gapz >= 0,
            ;
            assert(tx == 0 && ty == 0 && tz == 0) by (nonlinear_arith)
                requires
                    tx * tx == 0,
                    ty * ty == 0,
                    tz * tz == 0,
                    gapx == tx * tx && gapx == 0,
                    gapy == ty * ty && gapy == 0,
                    gapz == tz * tz && gapz == 0,
            ;
            // m * c.x == sx * c.den, with m == g * mu.den and sx == g * mu.x,
            // cancels g into the definition of same location.
            assert(mu.x * c.den == c.x * mu.den && mu.y * c.den == c.y * mu.den && mu.z * c.den
                == c.z * mu.den) by (nonlinear_arith)
                requires
                    m * c.x == sx * c.den,
                    m * c.y == sy * c.den,
                    m * c.z == sz * c.den,
                    m == g * mu.den,
                    sx == g * mu.x,
                    sy == g * mu.y,
                    sz == g * mu.z,
                    g >= 1,
            ;
        }
        if mu.same_pos(c) {
            assert(tx == 0 && ty == 0 && tz == 0) by (nonlinear_arith)
                requires
                    mu.x * c.den == c.x * mu.den,
                    mu.y * c.den == c.y * mu.den,
                    mu.z * c.den == c.z * mu.den,
                    m == g * mu.den,
                    sx == g * mu.x,
                    sy == g * mu.y,
                    sz == g * mu.z,
                    tx == m * c.x - sx * c.den,
                    ty == m * c.y - sy * c.den,
                    tz == m * c.z - sz * c.den,
            ;
            assert(gapx == 0 && gapy == 0 && gapz == 0) by (nonlinear_arith)
                requires
                    tx == 0 && ty == 0 && tz == 0,
                    gapx == tx * tx,
                    gapy == ty * ty,
                    gapz == tz * tz,
            ;
            assert(m * m * costc - cd2 * devsum == 0) by (nonlinear_arith)
                requires
                    m * m * costc - cd2 * devsum == m * (gapx + gapy + gapz),
                    gapx == 0 && gapy == 0 && gapz == 0,
            ;
            assert(costmu * cd2 * (g * g) == costc * md2 * (g * g)) by (nonlinear_arith)
                requires
                    costmu * cd2 * (g * g) == devsum * cd2,
                    costc * md2 * (g * g) == costc * (m * m),
                    m * m * costc - cd2 * devsum == 0,
            ;
            assert(costmu * cd2 == costc * md2) by (nonlinear_arith)
                requires
                    costmu * cd2 * (g * g) == costc * md2 * (g * g),
                    g >= 1,
            ;
        }
    }
}

/// Coordinate sums of well-formed points are non-negative.
proof fn lemma_sums_nonneg(s: Seq<PointV>)
    requires
        forall|j: int| 0 <= j < s.len() ==> (#[trigger] s[j]).wf(),
    ensures
        sum_x(s) >= 0,
        sum_y(s) >= 0,
        sum_z(s) >= 0,
    decreases s.len(),
{
    if s.len() > 0 {
        lemma_sums_nonneg(s.drop_last());
    }
}

/// Assigned member lists of a well-formed dataset are valid centroid inputs:
/// bounded in number, well-formed and integral throughout.
pub proof fn lemma_assigned_members_wf(data: Seq<PointV>, cs: Seq<PointV>, i: int)
    requires
        wf_dataset(data),
    ensures
        assigned(data, cs, i).len() <= DEN_MAX as int,
        forall|l: int|
            0 <= l < assigned(data, cs, i).len() ==> (#[trigger] assigned(data, cs, i)[l]).wf()
                && assigned(data, cs, i)[l].integral(),
{
    let s = assigned(data, cs, i);
    lemma_assigned_upto_len(data, cs, i, data.len() as int);
    lemma_assigned_upto_membership(data, cs, i, data.len() as int);
    assert forall|l: int| 0 <= l < s.len() implies (#[trigger] s[l]).wf()
        && s[l].integral() by {
        let j = choose|j: int| 0 <= j < data.len() && #[trigger] s[l] == data[j];
        assert(data[j].wf() && data[j].integral());
    }
}

/// A sequence of freshly computed centroids, one mean per cluster, is
/// exactly one iteration step.
pub proof fn lemma_step_view(data: Seq<PointV>, cs: Seq<PointV>, news: Seq<PointV>)
    requires
        news.len() == cs.len(),
        forall|i: int| 0 <= i < cs.len() ==> #[trigger] news[i] == center_of(assigned(data, cs, i)),
    ensures
        news == step_centers(data, cs),
{
    assert(news =~= step_centers(data, cs));
}

/// Member lists that agree, as multisets, with an assignment pass over a
/// well-formed dataset are valid centroid inputs themselves.
pub proof fn lemma_members_wf_from_multiset(
    data: Seq<PointV>,
    cs: Seq<PointV>,
    i: int,
    pts: Seq<PointV>,
)
    requires
        wf_dataset(data),
        pts.to_multiset() == assigned(data, cs, i).to_multiset(),
    ensures
        pts.len() <= DEN_MAX as int,
        forall|l: int| 0 <= l < pts.len() ==> (#[trigger] pts[l]).wf() && pts[l].integral(),
{
    broadcast use vstd::seq_lib::group_to_multiset_ensures;

    lemma_assigned_members_wf(data, cs, i);
    let asg = assigned(data, cs, i);
    assert(pts.to_multiset().len() == asg.to_multiset().len());
    assert forall|l: int| 0 <= l < pts.len() implies (#[trigger] pts[l]).wf()
        && pts[l].integral() by {
        assert(pts.to_multiset().count(pts[l]) > 0);
        assert(asg.to_multiset().count(pts[l]) > 0);
        assert(asg.contains(pts[l]));
        let m = choose|m: int| 0 <= m < asg.len() && asg[m] == pts[l];
        assert(asg[m].wf() && asg[m].integral());
    }
}

/// Packaging lemma for the end of a run: clusters whose centroids are the
/// `n`-th iterate, whose members match that centroid sequence as multisets,
/// and which stand converged or at the cap, satisfy the full contract.
pub proof fn lemma_post_converged(
    data: Seq<PointV>,
    init: Seq<PointV>,
    n: nat,
    out: Seq<ClusterV>,
)
    requires
        wf_dataset(data),
        n <= ITER_LIMIT as nat,
        out.len() == init.len(),
        centers_seq(out) == iterate(data, init, n),
        forall|i: int|
            0 <= i < out.len() ==> (#[trigger] out[i]).points.to_multiset() == assigned(
                data,
                centers_seq(out),
                i,
            ).to_multiset(),
        forall|i: int| 0 <= i < out.len() ==> (#[trigger] out[i]).center.wf(),
        is_fixed(data, centers_seq(out)) || n == ITER_LIMIT as nat,
    ensures
        kmeans_post(data, init, out),
{
    broadcast use vstd::seq_lib::group_to_multiset_ensures;

    let cs = centers_seq(out);
    assert(reached(data, init, cs)) by {
        assert(iterate(data, init, n) == cs && n <= ITER_LIMIT as nat && (is_fixed(data, cs) || n
            == ITER_LIMIT as nat));
    }
    assert forall|i: int| 0 <= i < out.len() implies (#[trigger] out[i]).wf() by {
        lemma_assigned_members_wf(data, cs, i);
        let pts = out[i].points;
        let asg = assigned(data, cs, i);
        assert(pts.to_multiset().len() == asg.to_multiset().len());
        assert(pts.len() <= DEN_MAX as int);
        assert forall|l: int| 0 <= l < pts.len() implies (#[trigger] pts[l]).wf()
            && pts[l].integral() by {
            assert(pts.to_multiset().count(pts[l]) > 0);
            assert(asg.to_multiset().count(pts[l]) > 0);
            assert(asg.contains(pts[l]));
            let m = choose|m: int| 0 <= m < asg.len() && asg[m] == pts[l];
            assert(asg[m].wf() && asg[m].integral());
        }
    }
}

} // verus!
