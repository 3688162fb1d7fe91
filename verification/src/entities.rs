//! The geometric data model: points with exact rational coordinates and an
//! optional label, clusters made of a centroid and its member points, the
//! squared-distance measure, and exact centroid recomputation.
//!
//! Coordinates are kept as three non-negative numerators over one shared
//! denominator, always in lowest terms, so that structural equality of two
//! points coincides with equality of the locations they denote. Dataset
//! points are integral (denominator one); centroids produced by averaging
//! carry the member count as denominator, reduced by the gcd.

use vstd::prelude::*;
use crate::rational::{
    gcd, gcd4, gcd4_u64, lemma_divisor_le, lemma_gcd4_divides, lemma_gcd4_reduced, lemma_gcd_one,
    lemma_quotient_bound,
};

verus! {

/// Largest coordinate value a point may denote.
pub const COORD_MAX: u64 = 0xFFFF_FFFF;

/// Largest denominator a point may carry; it bounds the dataset size, so
/// that exact squared-distance comparisons fit in 128-bit arithmetic.
pub const DEN_MAX: u64 = 0x8000;

/// The mathematical value of a point: three coordinates `x/den`, `y/den`,
/// `z/den`, and an optional label.
pub ghost struct PointV {
    pub x: int,
    pub y: int,
    pub z: int,
    pub den: int,
    pub label: Option<Seq<char>>,
}

impl PointV {
    /// Well-formed point values: bounded, positive denominator, in lowest
    /// terms. Lowest terms make structural equality mean value equality.
    pub open spec fn wf(self) -> bool {
        &&& 1 <= self.den <= DEN_MAX as int
        &&& 0 <= self.x <= COORD_MAX as int * self.den
        &&& 0 <= self.y <= COORD_MAX as int * self.den
        &&& 0 <= self.z <= COORD_MAX as int * self.den
        &&& gcd4(self.x as nat, self.y as nat, self.z as nat, self.den as nat) == 1
    }

    /// A point with whole coordinates, as every dataset point is.
    pub open spec fn integral(self) -> bool {
        self.den == 1
    }

    /// Both points denote the same location (labels aside).
    pub open spec fn same_pos(self, other: PointV) -> bool {
        &&& self.x * other.den == other.x * self.den
        &&& self.y * other.den == other.y * self.den
        &&& self.z * other.den == other.z * self.den
    }
}

/// The origin, the default centroid of an empty cluster.
pub open spec fn zero_point() -> PointV {
    PointV { x: 0, y: 0, z: 0, den: 1, label: None }
}

/// The square of an integer.
pub open spec fn sq(t: int) -> int {
    t * t
}

/// Numerator of the exact squared Euclidean distance between two points,
/// over the common denominator `sq(p.den * q.den)`.
pub open spec fn dist_num(p: PointV, q: PointV) -> int {
    sq(p.x * q.den - q.x * p.den) + sq(p.y * q.den - q.y * p.den) + sq(p.z * q.den - q.z * p.den)
}

/// Denominator of the exact squared Euclidean distance.
pub open spec fn dist_den(p: PointV, q: PointV) -> int {
    sq(p.den * q.den)
}

/// The squared distance from `p` to `a` is strictly below the one from `p`
/// to `b`, compared exactly by cross multiplication; its negation is the
/// at-most-as-far order.
pub open spec fn dist_lt(p: PointV, a: PointV, b: PointV) -> bool {
    dist_num(p, a) * dist_den(p, b) < dist_num(p, b) * dist_den(p, a)
}

/// A point of the dataset or a centroid: exact rational coordinates plus an
/// optional label. Immutable once created.
#[derive(Debug, Eq, PartialOrd, Ord, Hash)]
pub struct Point {
    x: u64,
    y: u64,
    z: u64,
    den: u64,
    label: Option<String>,
}

impl View for Point {
    type V = PointV;

    closed spec fn view(&self) -> PointV {
        PointV {
            x: self.x as int,
            y: self.y as int,
            z: self.z as int,
            den: self.den as int,
            label: match self.label {
                Some(s) => Some(s@),
                None => None,
            },
        }
    }
}

impl Clone for Point {
    fn clone(&self) -> (r: Self)
        ensures
            r == self,
    {
        Point {
            x: self.x,
            y: self.y,
            z: self.z,
            den: self.den,
            label: match &self.label {
                Some(s) => Some(s.clone()),
                None => None,
            },
        }
    }
}

impl PartialEq for Point {
    fn eq(&self, other: &Self) -> (r: bool) {
        let labels_eq = match (&self.label, &other.label) {
            (Some(a), Some(b)) => *a == *b,
            (None, None) => true,
            _ => false,
        };
        self.x == other.x && self.y == other.y && self.z == other.z && self.den == other.den
            && labels_eq
    }
}

impl vstd::std_specs::cmp::PartialEqSpecImpl for Point {
    open spec fn obeys_eq_spec() -> bool {
        true
    }

    open spec fn eq_spec(&self, other: &Self) -> bool {
        self@ == other@
    }
}

impl Point {
    /// Builds an integral point from up to three whole coordinates; missing
    /// trailing coordinates default to zero.
    pub fn from<const N: usize>(arr: [u32; N]) -> (p: Point)
        ensures
            p@.x == if N > 0 { arr@[0] as int } else { 0 },
            p@.y == if N > 1 { arr@[1] as int } else { 0 },
            p@.z == if N > 2 { arr@[2] as int } else { 0 },
            p@.den == 1,
            p@.label is None,
            p@.wf(),
            p@.integral(),
    {
        let x: u64 = if N > 0 { arr[0] as u64 } else { 0 };
        let y: u64 = if N > 1 { arr[1] as u64 } else { 0 };
        let z: u64 = if N > 2 { arr[2] as u64 } else { 0 };
        proof {
            lemma_integral_reduced(x as nat, y as nat, z as nat);
        }
        Point { x, y, z, den: 1, label: None }
    }

    /// Builds a point with fractional coordinates `arr[i] / den`, reduced to
    /// lowest terms; missing trailing numerators default to zero.
    pub fn from_ratio<const N: usize>(arr: [u64; N], den: u64) -> (p: Point)
        requires
            1 <= den <= DEN_MAX,
            N > 0 ==> arr@[0] <= COORD_MAX as int * den as int,
            N > 1 ==> arr@[1] <= COORD_MAX as int * den as int,
            N > 2 ==> arr@[2] <= COORD_MAX as int * den as int,
        ensures
            p@.wf(),
            p@.label is None,
            p@.same_pos(
                (PointV {
                    x: if N > 0 { arr@[0] as int } else { 0 },
                    y: if N > 1 { arr@[1] as int } else { 0 },
                    z: if N > 2 { arr@[2] as int } else { 0 },
                    den: den as int,
                    label: None,
                }),
            ),
    {
        let x: u64 = if N > 0 { arr[0] } else { 0 };
        let y: u64 = if N > 1 { arr[1] } else { 0 };
        let z: u64 = if N > 2 { arr[2] } else { 0 };
        reduce_components(x, y, z, den)
    }

    /// The three coordinate numerators, in order.
    pub fn get_data(&self) -> (r: [u64; 3])
        ensures
            r@[0] == self@.x,
            r@[1] == self@.y,
            r@[2] == self@.z,
    {
        [self.x, self.y, self.z]
    }

    /// Same as `get_data`; kept for callers that read a point as raw values.
    pub fn get_values(&self) -> (r: [u64; 3])
        ensures
            r@[0] == self@.x,
            r@[1] == self@.y,
            r@[2] == self@.z,
    {
        [self.x, self.y, self.z]
    }

    /// The shared denominator under the three numerators.
    pub fn get_den(&self) -> (r: u64)
        ensures
            r == self@.den,
    {
        self.den
    }

    /// Attaches a label to the point.
    pub fn with_label(self, label: &str) -> (p: Point)
        ensures
            p@ == (PointV { label: Some(label@), ..self@ }),
    {
        Point { label: Some(label.to_owned()), ..self }
    }

    /// The label, if one was attached.
    pub fn get_label(&self) -> (r: Option<&str>)
        ensures
            match r {
                Some(s) => self@.label == Some(s@),
                None => self@.label is None,
            },
    {
        match &self.label {
            Some(s) => Some(s.as_str()),
            None => None,
        }
    }

    /// Exact squared Euclidean distance between two points, as a fraction.
    /// No square root is taken; the square suffices for nearest-centroid
    /// comparisons.
    pub fn euclidean_distance(&self, other: &Point) -> (r: Ratio)
        requires
            self@.wf(),
            other@.wf(),
        ensures
            r.num == dist_num(self@, other@),
            r.den == dist_den(self@, other@),
            r.num <= 3 * sq(COORD_MAX as int * DEN_MAX as int * DEN_MAX as int),
            1 <= r.den <= sq(DEN_MAX as int * DEN_MAX as int),
    {
        let sx = sq_cross_diff(self.x, self.den, other.x, other.den);
        let sy = sq_cross_diff(self.y, self.den, other.y, other.den);
        let sz = sq_cross_diff(self.z, self.den, other.z, other.den);
        proof {
            assert(1 <= self@.den * other@.den <= DEN_MAX as int * DEN_MAX as int && 1 <= sq(
                self@.den * other@.den,
            ) <= sq(DEN_MAX as int * DEN_MAX as int)) by (nonlinear_arith)
                requires
                    1 <= self@.den <= DEN_MAX as int,
                    1 <= other@.den <= DEN_MAX as int,
            ;
        }
        proof {
            assert(3 * sq(COORD_MAX as int * DEN_MAX as int * DEN_MAX as int) <= u128::MAX)
                by (nonlinear_arith);
        }
        let dd = self.den as u128 * other.den as u128;
        Ratio { num: sx + sy + sz, den: dd * dd }
    }
}

/// An exact non-negative fraction, used for squared distances.
pub struct Ratio {
    pub num: u128,
    pub den: u128,
}

impl Ratio {
    /// Exact comparison of two fractions by cross multiplication. The bounds
    /// in the precondition keep the products inside 128 bits; the squared
    /// distances produced by `euclidean_distance` respect them whenever the
    /// query point is integral.
    pub fn lt(&self, other: &Ratio) -> (r: bool)
        requires
            self.den >= 1,
            other.den >= 1,
            self.num * other.den <= u128::MAX,
            other.num * self.den <= u128::MAX,
        ensures
            r == (self.num * other.den < other.num * self.den),
    {
        self.num * other.den < other.num * self.den
    }
}

/// Square of the cross difference `|a/ad - b/bd|` scaled by `(ad*bd)^2`,
/// that is `sq(a*bd - b*ad)`, computed exactly in 128 bits.
fn sq_cross_diff(a: u64, ad: u64, b: u64, bd: u64) -> (r: u128)
    requires
        1 <= ad <= DEN_MAX,
        1 <= bd <= DEN_MAX,
        a <= COORD_MAX as int * ad as int,
        b <= COORD_MAX as int * bd as int,
    ensures
        r == sq(a as int * bd as int - b as int * ad as int),
        r <= sq(COORD_MAX as int * DEN_MAX as int * DEN_MAX as int),
{
    proof {
        assert(a as int * bd as int <= COORD_MAX as int * DEN_MAX as int * DEN_MAX as int
            && b as int * ad as int <= COORD_MAX as int * DEN_MAX as int * DEN_MAX as int)
            by (nonlinear_arith)
            requires
                1 <= ad <= DEN_MAX,
                1 <= bd <= DEN_MAX,
                a <= COORD_MAX as int * ad as int,
                b <= COORD_MAX as int * bd as int,
        ;
    }
    let p1 = a as u128 * bd as u128;
    let p2 = b as u128 * ad as u128;
    let d = if p1 >= p2 {
        p1 - p2
    } else {
        p2 - p1
    };
    proof {
        let diff = a as int * bd as int - b as int * ad as int;
        assert(d * d == sq(diff) && d * d <= sq(
            COORD_MAX as int * DEN_MAX as int * DEN_MAX as int,
        ) && d * d <= u128::MAX) by (nonlinear_arith)
            requires
                d == if diff >= 0 {
                    diff
                } else {
                    -diff
                },
                0 <= d <= COORD_MAX as int * DEN_MAX as int * DEN_MAX as int,
    ;
    }
    d * d
}

/// Integral components are already in lowest terms.
proof fn lemma_integral_reduced(x: nat, y: nat, z: nat)
    ensures
        gcd4(x, y, z, 1) == 1,
{
    lemma_gcd_one(z);
    lemma_gcd_one(gcd(x, y));
}

/// Reduces the fraction triple `(x/den, y/den, z/den)` to lowest terms and
/// builds the point carrying it.
fn reduce_components(x: u64, y: u64, z: u64, den: u64) -> (p: Point)
    requires
        1 <= den <= DEN_MAX,
        x <= COORD_MAX as int * den as int,
        y <= COORD_MAX as int * den as int,
        z <= COORD_MAX as int * den as int,
    ensures
        p@.wf(),
        p@.label is None,
        p@.same_pos(
            (PointV { x: x as int, y: y as int, z: z as int, den: den as int, label: None }),
        ),
        p@ == reduced_point(x as int, y as int, z as int, den as int),
{
    let g = gcd4_u64(x, y, z, den);
    proof {
        lemma_gcd4_divides(x as nat, y as nat, z as nat, den as nat);
        lemma_gcd4_reduced(x as nat, y as nat, z as nat, den as nat);
        lemma_divisor_le(g as nat, den as nat);
        lemma_quotient_bound(x as nat, COORD_MAX as nat, den as nat, g as nat);
        lemma_quotient_bound(y as nat, COORD_MAX as nat, den as nat, g as nat);
        lemma_quotient_bound(z as nat, COORD_MAX as nat, den as nat, g as nat);
        lemma_reduced_same_pos(x as nat, den as nat, g as nat);
        lemma_reduced_same_pos(y as nat, den as nat, g as nat);
        lemma_reduced_same_pos(z as nat, den as nat, g as nat);
    }
    Point { x: x / g, y: y / g, z: z / g, den: den / g, label: None }
}

/// The value a reduction produces: all four components divided by their gcd.
pub open spec fn reduced_point(x: int, y: int, z: int, den: int) -> PointV {
    let g = gcd4(x as nat, y as nat, z as nat, den as nat) as int;
    PointV { x: x / g, y: y / g, z: z / g, den: den / g, label: None }
}

/// Dividing numerator and denominator by a common divisor keeps the value:
/// (x/g) * den == x * (den/g).
proof fn lemma_reduced_same_pos(x: nat, den: nat, g: nat)
    requires
        g > 0,
        x % g == 0,
        den % g == 0,
    ensures
        (x / g) * den == x * (den / g),
{
    vstd::arithmetic::div_mod::lemma_fundamental_div_mod(x as int, g as int);
    vstd::arithmetic::div_mod::lemma_fundamental_div_mod(den as int, g as int);
    assert((x / g) * den == x * (den / g)) by (nonlinear_arith)
        requires
            x as int == g * (x as int / g as int),
            den as int == g * (den as int / g as int),
            g > 0,
            x / g == x as int / g as int,
            den / g == den as int / g as int,
    ;
}

/// Sum of the x numerators of a sequence of point values.
pub open spec fn sum_x(s: Seq<PointV>) -> int
    decreases s.len(),
{
    if s.len() == 0 {
        0
    } else {
        sum_x(s.drop_last()) + s.last().x
    }
}

/// Sum of the y numerators.
pub open spec fn sum_y(s: Seq<PointV>) -> int
    decreases s.len(),
{
    if s.len() == 0 {
        0
    } else {
        sum_y(s.drop_last()) + s.last().y
    }
}

/// Sum of the z numerators.
pub open spec fn sum_z(s: Seq<PointV>) -> int
    decreases s.len(),
{
    if s.len() == 0 {
        0
    } else {
        sum_z(s.drop_last()) + s.last().z
    }
}

/// The exact centroid of a sequence of integral points: the arithmetic mean
/// of the coordinates, in lowest terms. The explicit policy for an empty
/// member list is the origin (guarded division, never a division by zero).
pub open spec fn center_of(s: Seq<PointV>) -> PointV {
    if s.len() == 0 {
        zero_point()
    } else {
        reduced_point(sum_x(s), sum_y(s), sum_z(s), s.len() as int)
    }
}

/// The views of a sequence of points.
pub open spec fn views(s: Seq<Point>) -> Seq<PointV> {
    s.map_values(|p: Point| p@)
}

/// Bounds on the exact squared distance from an integral point to any
/// well-formed point: these keep the cross products of two such distances
/// inside 128 bits.
pub proof fn lemma_dist_bounds_integral(p: PointV, c: PointV)
    requires
        p.wf(),
        p.integral(),
        c.wf(),
    ensures
        0 <= dist_num(p, c) <= 3 * sq(COORD_MAX as int * DEN_MAX as int),
        1 <= dist_den(p, c) <= sq(DEN_MAX as int),
{
    let bound = COORD_MAX as int * DEN_MAX as int;
    assert(-bound <= p.x * c.den - c.x * p.den <= bound) by (nonlinear_arith)
        requires
            bound == COORD_MAX as int * DEN_MAX as int,
            p.den == 1,
            0 <= p.x <= COORD_MAX as int,
            1 <= c.den <= DEN_MAX as int,
            0 <= c.x <= COORD_MAX as int * c.den,
    ;
    assert(-bound <= p.y * c.den - c.y * p.den <= bound) by (nonlinear_arith)
        requires
            bound == COORD_MAX as int * DEN_MAX as int,
            p.den == 1,
            0 <= p.y <= COORD_MAX as int,
            1 <= c.den <= DEN_MAX as int,
            0 <= c.y <= COORD_MAX as int * c.den,
    ;
    assert(-bound <= p.z * c.den - c.z * p.den <= bound) by (nonlinear_arith)
        requires
            bound == COORD_MAX as int * DEN_MAX as int,
            p.den == 1,
            0 <= p.z <= COORD_MAX as int,
            1 <= c.den <= DEN_MAX as int,
            0 <= c.z <= COORD_MAX as int * c.den,
    ;
    lemma_sq_bound(p.x * c.den - c.x * p.den, bound);
    lemma_sq_bound(p.y * c.den - c.y * p.den, bound);
    lemma_sq_bound(p.z * c.den - c.z * p.den, bound);
    assert(1 <= sq(p.den * c.den) <= sq(DEN_MAX as int)) by (nonlinear_arith)
        requires
            p.den == 1,
            1 <= c.den <= DEN_MAX as int,
    ;
}

/// A square is monotone in the magnitude of its argument.
pub proof fn lemma_sq_bound(t: int, b: int)
    requires
        -b <= t <= b,
        0 <= b,
    ensures
        0 <= sq(t) <= sq(b),
{
    assert(0 <= t * t <= b * b) by (nonlinear_arith)
        requires
            -b <= t <= b,
            0 <= b,
    ;
}

/// Mapping to views commutes with appending a point.
pub proof fn lemma_views_push(s: Seq<Point>, p: Point)
    ensures
        views(s.push(p)) == views(s).push(p@),
{
    assert(views(s.push(p)) =~= views(s).push(p@));
}

/// Mapping to views commutes with concatenation.
pub proof fn lemma_views_concat(a: Seq<Point>, b: Seq<Point>)
    ensures
        views(a + b) == views(a) + views(b),
{
    assert(views(a + b) =~= views(a) + views(b));
}

/// The mathematical value of a cluster: its centroid and its member values.
pub ghost struct ClusterV {
    pub center: PointV,
    pub points: Seq<PointV>,
}

impl ClusterV {
    /// Member lists a centroid can be computed from: integral well-formed
    /// points, few enough that their coordinate sums stay in bounds.
    pub open spec fn members_wf(self) -> bool {
        &&& self.points.len() <= DEN_MAX as int
        &&& forall|i: int|
            0 <= i < self.points.len() ==> (#[trigger] self.points[i]).wf()
                && self.points[i].integral()
    }

    /// A fully well-formed cluster.
    pub open spec fn wf(self) -> bool {
        &&& self.center.wf()
        &&& self.members_wf()
    }
}

/// A cluster: a centroid and the points currently assigned to it.
#[derive(Debug, PartialEq, Eq, Hash, Clone)]
pub struct Cluster {
    pub center: Point,
    pub points: Vec<Point>,
}

impl View for Cluster {
    type V = ClusterV;

    open spec fn view(&self) -> ClusterV {
        ClusterV { center: self.center@, points: views(self.points@) }
    }
}

impl Cluster {
    /// A fresh cluster around a centroid, with no members yet.
    pub fn from_center(center: Point) -> (c: Cluster)
        ensures
            c@.center == center@,
            c@.points == Seq::<PointV>::empty(),
    {
        proof {
            assert(views(Seq::<Point>::empty()) =~= Seq::<PointV>::empty());
        }
        Cluster { center, points: Vec::new() }
    }

    /// Recomputes the centroid as the exact mean of the member points.
    /// An empty member list yields the origin; this guarded-division policy
    /// is the one explicit choice made for the empty-cluster edge case.
    pub fn calculate_center_point(&self) -> (r: Point)
        requires
            self@.members_wf(),
        ensures
            r@ == center_of(self@.points),
            r@.wf(),
            self@.points.len() == 0 ==> r@ == zero_point(),
    {
        let n = self.points.len();
        if n == 0 {
            proof {
                lemma_integral_reduced(0, 0, 0);
            }
            return Point { x: 0, y: 0, z: 0, den: 1, label: None };
        }
        let ghost pvs = self@.points;
        let mut sx: u64 = 0;
        let mut sy: u64 = 0;
        let mut sz: u64 = 0;
        let mut i: usize = 0;
        while i < n
            invariant
                0 <= i <= n,
                n == self.points@.len(),
                pvs == views(self.points@),
                self@.members_wf(),
                sx == sum_x(pvs.take(i as int)),
                sy == sum_y(pvs.take(i as int)),
                sz == sum_z(pvs.take(i as int)),
                sx <= COORD_MAX as int * i,
                sy <= COORD_MAX as int * i,
                sz <= COORD_MAX as int * i,
                n <= DEN_MAX,
            decreases n - i,
        {
            let p = &self.points[i];
            proof {
                assert(pvs.take(i + 1).drop_last() =~= pvs.take(i as int));
                assert(pvs.take(i + 1).last() == pvs[i as int]);
                assert(pvs[i as int] == self.points@[i as int]@);
                assert(pvs[i as int].wf() && pvs[i as int].integral());
            }
            sx = sx + p.x;
            sy = sy + p.y;
            sz = sz + p.z;
            i = i + 1;
        }
        proof {
            assert(pvs.take(n as int) =~= pvs);
        }
        reduce_components(sx, sy, sz, n as u64)
    }
}

} // verus!
