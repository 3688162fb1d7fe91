//! The exact cost model of a clustering: the total squared distance from
//! every member to its cluster's centroid, kept as an exact fraction, and
//! the recentering law — one recentering pass never increases this cost,
//! and strictly lowers it whenever it moves the centroid of any non-empty
//! cluster. This is the reason the convergence loop makes progress: while
//! no cluster runs empty, centroids only stop moving at an exact fixed
//! point.

use vstd::prelude::*;
use crate::entities::{center_of, dist_num, sq, ClusterV, PointV};
use crate::kmeans::model::{cluster_cost_num, lemma_mean_minimizes_cost};

verus! {

/// An exact non-negative fraction, at the specification level.
pub ghost struct CostRat {
    pub num: int,
    pub den: int,
}

impl CostRat {
    /// Positive denominator, non-negative numerator.
    pub open spec fn wf(self) -> bool {
        self.den >= 1 && self.num >= 0
    }

    /// Exact order by cross multiplication.
    pub open spec fn le(self, other: CostRat) -> bool {
        self.num * other.den <= other.num * self.den
    }

    /// Strict exact order.
    pub open spec fn lt(self, other: CostRat) -> bool {
        self.num * other.den < other.num * self.den
    }

    /// Exact sum.
    pub open spec fn plus(self, other: CostRat) -> CostRat {
        CostRat { num: self.num * other.den + other.num * self.den, den: self.den * other.den }
    }
}

/// Reassociation of a product of four factors, swapping the inner pair.
proof fn lemma_mul4_swap(x: int, y: int, z: int, w: int)
    ensures
        x * y * (z * w) == x * z * (y * w),
{
    vstd::arithmetic::mul::lemma_mul_is_associative(x, y, z * w);
    vstd::arithmetic::mul::lemma_mul_is_associative(y, z, w);
    vstd::arithmetic::mul::lemma_mul_is_commutative(y, z);
    vstd::arithmetic::mul::lemma_mul_is_associative(z, y, w);
    vstd::arithmetic::mul::lemma_mul_is_associative(x, z, y * w);
}

/// Sums of well-formed fractions are well-formed.
proof fn lemma_plus_wf(a: CostRat, b: CostRat)
    requires
        a.wf(),
        b.wf(),
    ensures
        a.plus(b).wf(),
{
    assert(a.den * b.den >= 1 && a.num * b.den >= 0 && b.num * a.den >= 0) by (nonlinear_arith)
        requires
            a.den >= 1,
            b.den >= 1,
            a.num >= 0,
            b.num >= 0,
    ;
}

/// Exact addition is monotone in both summands.
proof fn lemma_plus_le(a: CostRat, b: CostRat, a2: CostRat, b2: CostRat)
    requires
        a.wf(),
        b.wf(),
        a2.wf(),
        b2.wf(),
        a.le(a2),
        b.le(b2),
    ensures
        a.plus(b).le(a2.plus(b2)),
{
    assert(a.num * a2.den * (b.den * b2.den) <= a2.num * a.den * (b.den * b2.den))
        by (nonlinear_arith)
        requires
            a.num * a2.den <= a2.num * a.den,
            b.den >= 1,
            b2.den >= 1,
    ;
    assert(b.num * b2.den * (a.den * a2.den) <= b2.num * b.den * (a.den * a2.den))
        by (nonlinear_arith)
        requires
            b.num * b2.den <= b2.num * b.den,
            a.den >= 1,
            a2.den >= 1,
    ;
    let n1 = a.num;
    let d1 = a.den;
    let n2 = b.num;
    let d2 = b.den;
    let m1 = a2.num;
    let e1 = a2.den;
    let m2 = b2.num;
    let e2 = b2.den;
    vstd::arithmetic::mul::lemma_mul_is_distributive_add_other_way(e1 * e2, n1 * d2, n2 * d1);
    lemma_mul4_swap(n1, d2, e1, e2);
    lemma_mul4_swap(n2, d1, e2, e1);
    vstd::arithmetic::mul::lemma_mul_is_distributive_add_other_way(d1 * d2, m1 * e2, m2 * e1);
    lemma_mul4_swap(m1, e2, d1, d2);
    lemma_mul4_swap(m2, e1, d2, d1);
    vstd::arithmetic::mul::lemma_mul_is_commutative(e1, e2);
    vstd::arithmetic::mul::lemma_mul_is_commutative(d2, e2);
    vstd::arithmetic::mul::lemma_mul_is_commutative(e1, d1);
    vstd::arithmetic::mul::lemma_mul_is_commutative(d1, d2);
}

/// Exact addition is strictly monotone when one summand strictly drops.
proof fn lemma_plus_lt(a: CostRat, b: CostRat, a2: CostRat, b2: CostRat)
    requires
        a.wf(),
        b.wf(),
        a2.wf(),
        b2.wf(),
        a.lt(a2),
        b.le(b2),
    ensures
        a.plus(b).lt(a2.plus(b2)),
{
    assert(a.num * a2.den * (b.den * b2.den) < a2.num * a.den * (b.den * b2.den))
        by (nonlinear_arith)
        requires
            a.num * a2.den < a2.num * a.den,
            b.den >= 1,
            b2.den >= 1,
    ;
    assert(b.num * b2.den * (a.den * a2.den) <= b2.num * b.den * (a.den * a2.den))
        by (nonlinear_arith)
        requires
            b.num * b2.den <= b2.num * b.den,
            a.den >= 1,
            a2.den >= 1,
    ;
    let n1 = a.num;
    let d1 = a.den;
    let n2 = b.num;
    let d2 = b.den;
    let m1 = a2.num;
    let e1 = a2.den;
    let m2 = b2.num;
    let e2 = b2.den;
    vstd::arithmetic::mul::lemma_mul_is_distributive_add_other_way(e1 * e2, n1 * d2, n2 * d1);
    lemma_mul4_swap(n1, d2, e1, e2);
    lemma_mul4_swap(n2, d1, e2, e1);
    vstd::arithmetic::mul::lemma_mul_is_distributive_add_other_way(d1 * d2, m1 * e2, m2 * e1);
    lemma_mul4_swap(m1, e2, d1, d2);
    lemma_mul4_swap(m2, e1, d2, d1);
    vstd::arithmetic::mul::lemma_mul_is_commutative(e1, e2);
    vstd::arithmetic::mul::lemma_mul_is_commutative(d2, e2);
    vstd::arithmetic::mul::lemma_mul_is_commutative(e1, d1);
    vstd::arithmetic::mul::lemma_mul_is_commutative(d1, d2);
}

/// The cost of one cluster: its members' total squared distance to its
/// centroid, as the exact fraction over the centroid denominator squared.
pub open spec fn cluster_cost(c: ClusterV) -> CostRat {
    CostRat { num: cluster_cost_num(c.points, c.center), den: sq(c.center.den) }
}

/// The total cost of the first `k` clusters.
pub open spec fn total_cost(out: Seq<ClusterV>, k: int) -> CostRat
    decreases k,
{
    if k <= 0 {
        CostRat { num: 0, den: 1 }
    } else {
        total_cost(out, k - 1).plus(cluster_cost(out[k - 1]))
    }
}

/// Cost numerators are sums of squares, hence non-negative.
proof fn lemma_cluster_cost_num_nonneg(members: Seq<PointV>, c: PointV)
    ensures
        cluster_cost_num(members, c) >= 0,
    decreases members.len(),
{
    if members.len() > 0 {
        lemma_cluster_cost_num_nonneg(members.drop_last(), c);
        let p = members.last();
        let tx = p.x * c.den - c.x * p.den;
        let ty = p.y * c.den - c.y * p.den;
        let tz = p.z * c.den - c.z * p.den;
        assert(sq(tx) == tx * tx && sq(ty) == ty * ty && sq(tz) == tz * tz);
        assert(tx * tx >= 0 && ty * ty >= 0 && tz * tz >= 0) by (nonlinear_arith);
        assert(dist_num(p, c) >= 0);
    }
}

/// A cluster with a well-formed centroid has a well-formed cost.
proof fn lemma_cluster_cost_wf(c: ClusterV)
    requires
        c.center.den >= 1,
    ensures
        cluster_cost(c).wf(),
{
    lemma_cluster_cost_num_nonneg(c.points, c.center);
    assert(sq(c.center.den) >= 1) by (nonlinear_arith)
        requires
            c.center.den >= 1,
    ;
}

/// The recentering law: replacing every centroid by the exact mean of its
/// members never increases the total cost, and strictly lowers it whenever
/// the mean of some non-empty cluster sits elsewhere than the old centroid.
pub proof fn lemma_recentering_improves(old: Seq<ClusterV>, new: Seq<ClusterV>, k: int)
    requires
        0 <= k <= old.len(),
        old.len() == new.len(),
        forall|i: int|
            0 <= i < k ==> (#[trigger] new[i]).points == old[i].points && new[i].center
                == center_of(old[i].points),
        forall|i: int| 0 <= i < k ==> (#[trigger] old[i]).center.den >= 1,
        forall|i: int| 0 <= i < k ==> 1 <= (#[trigger] old[i]).points.len(),
        forall|i: int, j: int|
            0 <= i < k && 0 <= j < old[i].points.len() ==> (#[trigger] old[i].points[j]).wf()
                && old[i].points[j].integral(),
    ensures
        total_cost(new, k).le(total_cost(old, k)),
        (exists|i: int| 0 <= i < k && !(#[trigger] new[i]).center.same_pos(old[i].center))
            ==> total_cost(new, k).lt(total_cost(old, k)),
    decreases k,
{
    if k == 0 {
    } else {
        lemma_recentering_improves(old, new, k - 1);
        lemma_total_cost_wf(old, k - 1);
        assert forall|i: int| 0 <= i < k implies (#[trigger] new[i]).center.den >= 1 by {
            lemma_center_of_den_pos(old[i].points);
        }
        lemma_total_cost_wf(new, k - 1);
        lemma_cluster_cost_wf(old[k - 1]);
        let members = old[k - 1].points;
        let c = old[k - 1].center;
        let mu = center_of(members);
        lemma_mean_minimizes_cost(members, c);
        lemma_center_of_den_pos(members);
        lemma_cluster_cost_wf(new[k - 1]);
        assert(cluster_cost(new[k - 1]).le(cluster_cost(old[k - 1])));
        if exists|i: int| 0 <= i < k && !(#[trigger] new[i]).center.same_pos(old[i].center) {
            let w = choose|i: int|
                0 <= i < k && !(#[trigger] new[i]).center.same_pos(old[i].center);
            if w < k - 1 {
                assert(exists|i: int|
                    0 <= i < k - 1 && !(#[trigger] new[i]).center.same_pos(old[i].center));
                lemma_plus_lt(
                    total_cost(new, k - 1),
                    cluster_cost(new[k - 1]),
                    total_cost(old, k - 1),
                    cluster_cost(old[k - 1]),
                );
            } else {
                // The moved centroid is this very cluster: its own cost
                // strictly drops, since equality would mean same location.
                assert(cluster_cost(new[k - 1]).lt(cluster_cost(old[k - 1])));
                lemma_plus_lt_right(
                    total_cost(new, k - 1),
                    cluster_cost(new[k - 1]),
                    total_cost(old, k - 1),
                    cluster_cost(old[k - 1]),
                );
            }
        } else {
            lemma_plus_le(
                total_cost(new, k - 1),
                cluster_cost(new[k - 1]),
                total_cost(old, k - 1),
                cluster_cost(old[k - 1]),
            );
        }
    }
}

/// Strict monotonicity in the right summand.
proof fn lemma_plus_lt_right(a: CostRat, b: CostRat, a2: CostRat, b2: CostRat)
    requires
        a.wf(),
        b.wf(),
        a2.wf(),
        b2.wf(),
        a.le(a2),
        b.lt(b2),
    ensures
        a.plus(b).lt(a2.plus(b2)),
{
    assert(a.num * a2.den * (b.den * b2.den) <= a2.num * a.den * (b.den * b2.den))
        by (nonlinear_arith)
        requires
            a.num * a2.den <= a2.num * a.den,
            b.den >= 1,
            b2.den >= 1,
    ;
    assert(b.num * b2.den * (a.den * a2.den) < b2.num * b.den * (a.den * a2.den))
        by (nonlinear_arith)
        requires
            b.num * b2.den < b2.num * b.den,
            a.den >= 1,
            a2.den >= 1,
    ;
    let n1 = a.num;
    let d1 = a.den;
    let n2 = b.num;
    let d2 = b.den;
    let m1 = a2.num;
    let e1 = a2.den;
    let m2 = b2.num;
    let e2 = b2.den;
    vstd::arithmetic::mul::lemma_mul_is_distributive_add_other_way(e1 * e2, n1 * d2, n2 * d1);
    lemma_mul4_swap(n1, d2, e1, e2);
    lemma_mul4_swap(n2, d1, e2, e1);
    vstd::arithmetic::mul::lemma_mul_is_distributive_add_other_way(d1 * d2, m1 * e2, m2 * e1);
    lemma_mul4_swap(m1, e2, d1, d2);
    lemma_mul4_swap(m2, e1, d2, d1);
    vstd::arithmetic::mul::lemma_mul_is_commutative(e1, e2);
    vstd::arithmetic::mul::lemma_mul_is_commutative(d2, e2);
    vstd::arithmetic::mul::lemma_mul_is_commutative(e1, d1);
    vstd::arithmetic::mul::lemma_mul_is_commutative(d1, d2);
}

/// Total costs over well-formed clusters are well-formed.
proof fn lemma_total_cost_wf(out: Seq<ClusterV>, k: int)
    requires
        k <= out.len(),
        forall|i: int| 0 <= i < k ==> (#[trigger] out[i]).center.den >= 1,
    ensures
        total_cost(out, k).wf(),
    decreases k,
{
    if k > 0 {
        lemma_total_cost_wf(out, k - 1);
        lemma_cluster_cost_wf(out[k - 1]);
        lemma_plus_wf(total_cost(out, k - 1), cluster_cost(out[k - 1]));
    }
}

/// The exact mean of a non-empty member list has a positive denominator.
proof fn lemma_center_of_den_pos(members: Seq<PointV>)
    requires
        members.len() >= 1,
    ensures
        center_of(members).den >= 1,
{
    let m = members.len() as int;
    crate::rational::lemma_gcd4_divides(
        sum_x_nat(members),
        sum_y_nat(members),
        sum_z_nat(members),
        m as nat,
    );
    crate::rational::lemma_divisor_le(
        crate::rational::gcd4(
            sum_x_nat(members),
            sum_y_nat(members),
            sum_z_nat(members),
            m as nat,
        ),
        m as nat,
    );
}

/// Coordinate sums read as naturals (the centroid reduction works on them).
spec fn sum_x_nat(s: Seq<PointV>) -> nat {
    crate::entities::sum_x(s) as nat
}

spec fn sum_y_nat(s: Seq<PointV>) -> nat {
    crate::entities::sum_y(s) as nat
}

spec fn sum_z_nat(s: Seq<PointV>) -> nat {
    crate::entities::sum_z(s) as nat
}

} // verus!
