//! Distances over locations, and the projection from a stored element to its location.
//!
//! Distances are unsigned integers. The tree only ever compares, subtracts and halves
//! them, so any metric whose values can be stated as integers fits here.
use vstd::prelude::*;

verus! {

/// A distance function over locations of type `PointType`.
///
/// The tree's pruning is correct only where the distance is symmetric and obeys the
/// triangle inequality among the locations compared (see [`is_metric_on`]); that is a
/// precondition on the caller's side, not something the trait can enforce.
pub trait Metric {
    type PointType;

    /// The distance between two locations, as a mathematical function.
    spec fn dist(&self, a: Self::PointType, b: Self::PointType) -> u64;

    fn distance(&self, p1: &Self::PointType, p2: &Self::PointType) -> (r: u64)
        ensures
            r == self.dist(*p1, *p2),
    ;
}

/// An element that can be stored in the tree: it exposes the location that all
/// distance computations use.
pub trait VpTreeObject: Sized {
    type PointType;

    /// The location of this element.
    spec fn loc(&self) -> Self::PointType;

    fn location(&self) -> (r: &Self::PointType)
        ensures
            *r == self.loc(),
    ;
}

/// The metric axioms: identity of indiscernibles, symmetry and the triangle inequality.
pub open spec fn is_metric<M: Metric>(m: &M) -> bool {
    &&& forall|a: M::PointType, b: M::PointType| #[trigger] m.dist(a, b) == 0 <==> a == b
    &&& forall|a: M::PointType, b: M::PointType| #[trigger]
        m.dist(a, b) == m.dist(b, a)
    &&& forall|a: M::PointType, b: M::PointType, c: M::PointType|
        #![trigger m.dist(a, b), m.dist(b, c)]
        m.dist(a, c) <= m.dist(a, b) + m.dist(b, c)
}

/// Symmetry and the triangle inequality among the locations in `dom`.
pub open spec fn is_metric_on<M: Metric>(m: &M, dom: Set<M::PointType>) -> bool {
    &&& forall|a: M::PointType, b: M::PointType|
        dom.contains(a) && dom.contains(b) ==> #[trigger] m.dist(a, b) == m.dist(b, a)
    &&& forall|a: M::PointType, b: M::PointType, c: M::PointType|
        #![trigger m.dist(a, b), m.dist(b, c)]
        dom.contains(a) && dom.contains(b) && dom.contains(c) ==> m.dist(a, c) <= m.dist(a, b)
            + m.dist(b, c)
}

/// A metric satisfies the axioms on any set of locations.
pub proof fn lemma_metric_on<M: Metric>(m: &M, dom: Set<M::PointType>)
    requires
        is_metric(m),
    ensures
        is_metric_on(m, dom),
{
}

/// One instance of the triangle inequality within `dom`, with symmetry applied as needed.
pub proof fn lemma_triangle_on<M: Metric>(
    m: &M,
    dom: Set<M::PointType>,
    a: M::PointType,
    b: M::PointType,
    c: M::PointType,
)
    requires
        is_metric_on(m, dom),
        dom.contains(a),
        dom.contains(b),
        dom.contains(c),
    ensures
        m.dist(a, c) <= m.dist(a, b) + m.dist(b, c),
        m.dist(a, c) == m.dist(c, a),
        m.dist(a, b) == m.dist(b, a),
        m.dist(b, c) == m.dist(c, b),
{
    assert(m.dist(a, b) == m.dist(b, a));
    assert(m.dist(b, c) == m.dist(c, b));
    assert(m.dist(a, c) == m.dist(c, a));
}

/// Weighted sum of squared differences over the first `k` dimensions, with the
/// weight of dimension `i` given by `w(i)`.
pub open spec fn wsum(a: Seq<i32>, b: Seq<i32>, w: spec_fn(int) -> int, k: nat) -> int
    decreases k,
{
    if k == 0 {
        0
    } else {
        wsum(a, b, w, (k - 1) as nat) + w(k - 1) * ((a[k - 1] - b[k - 1]) * (a[k - 1] - b[k - 1]))
    }
}

/// Weighted sum of the products of the differences `a - b` and `b - c`.
pub open spec fn wdot(a: Seq<i32>, b: Seq<i32>, c: Seq<i32>, w: spec_fn(int) -> int, k: nat) -> int
    decreases k,
{
    if k == 0 {
        0
    } else {
        wdot(a, b, c, w, (k - 1) as nat) + w(k - 1) * ((a[k - 1] - b[k - 1]) * (b[k - 1]
            - c[k - 1]))
    }
}

proof fn lemma_wsum_facts(a: Seq<i32>, b: Seq<i32>, c: Seq<i32>, w: spec_fn(int) -> int, k: nat)
    requires
        forall|i: int| 0 <= i < k ==> #[trigger] w(i) >= 0,
        k <= a.len(),
        k <= b.len(),
        k <= c.len(),
    ensures
        wsum(a, b, w, k) >= 0,
        wsum(b, c, w, k) >= 0,
        wsum(a, b, w, k) == wsum(b, a, w, k),
        wsum(a, c, w, k) == wsum(a, b, w, k) + wsum(b, c, w, k) + 2 * wdot(a, b, c, w, k),
        wdot(a, b, c, w, k) * wdot(a, b, c, w, k) <= wsum(a, b, w, k) * wsum(b, c, w, k),
    decreases k,
{
    if k > 0 {
        let j = (k - 1) as nat;
        lemma_wsum_facts(a, b, c, w, j);
        let u = a[j as int] - b[j as int];
        let v = b[j as int] - c[j as int];
        let wt = w(j as int);
        let su = wsum(a, b, w, j);
        let sv = wsum(b, c, w, j);
        let d = wdot(a, b, c, w, j);
        assert(wt * (u * u) >= 0) by (nonlinear_arith)
            requires
                wt >= 0,
        ;
        assert(wt * (v * v) >= 0) by (nonlinear_arith)
            requires
                wt >= 0,
        ;
        assert((b[j as int] - a[j as int]) * (b[j as int] - a[j as int]) == u * u) by (nonlinear_arith)
            requires
                u == a[j as int] - b[j as int],
        ;
        assert(wt * ((a[j as int] - c[j as int]) * (a[j as int] - c[j as int])) == wt * (u * u) + wt
            * (v * v) + 2 * (wt * (u * v))) by (nonlinear_arith)
            requires
                u == a[j as int] - b[j as int],
                v == b[j as int] - c[j as int],
        ;
        lemma_cauchy_step(d, su, sv, wt, u, v);
    }
}

/// One step of the Cauchy-Schwarz inequality: adding a weighted term keeps the square
/// of the cross sum within the product of the two sums.
proof fn lemma_cauchy_step(d: int, su: int, sv: int, wt: int, u: int, v: int)
    requires
        d * d <= su * sv,
        su >= 0,
        sv >= 0,
        wt >= 0,
    ensures
        (d + wt * (u * v)) * (d + wt * (u * v)) <= (su + wt * (u * u)) * (sv + wt * (v * v)),
{
    // 2 d u v <= su v^2 + sv u^2
    let uu = u * u;
    let vv = v * v;
    let uv = u * v;
    assert(uu >= 0 && vv >= 0) by (nonlinear_arith)
        requires
            uu == u * u,
            vv == v * v,
    ;
    assert(uu * vv == uv * uv) by (nonlinear_arith)
        requires
            uu == u * u,
            vv == v * v,
            uv == u * v,
    ;
    let ua = su * vv;
    let ub = sv * uu;
    let p = 2 * (d * uv);
    let q = ua + ub;
    assert(ua >= 0 && ub >= 0) by (nonlinear_arith)
        requires
            su >= 0,
            sv >= 0,
            uu >= 0,
            vv >= 0,
            ua == su * vv,
            ub == sv * uu,
    ;
    assert(ua * ub == (su * sv) * (uv * uv)) by (nonlinear_arith)
        requires
            ua == su * vv,
            ub == sv * uu,
            uu * vv == uv * uv,
    ;
    assert(q * q - p * p == (ua - ub) * (ua - ub) + 4 * (ua * ub) - 4 * ((d * d) * (uv * uv)))
        by (nonlinear_arith)
        requires
            p == 2 * (d * uv),
            q == ua + ub,
    ;
    assert((ua - ub) * (ua - ub) >= 0) by (nonlinear_arith);
    assert((su * sv) * (uv * uv) >= (d * d) * (uv * uv)) by (nonlinear_arith)
        requires
            d * d <= su * sv,
    ;
    lemma_le_of_squares(p, q);
    let ww = wt * wt;
    assert((d + wt * uv) * (d + wt * uv) == d * d + wt * p + ww * (uv * uv)) by (nonlinear_arith)
        requires
            p == 2 * (d * uv),
            ww == wt * wt,
    ;
    let xu = wt * uu;
    let yv = wt * vv;
    assert((su + xu) * (sv + yv) == su * sv + su * yv + xu * sv + xu * yv) by (nonlinear_arith);
    assert(su * yv == wt * ua) by (nonlinear_arith)
        requires
            yv == wt * vv,
            ua == su * vv,
    ;
    assert(xu * sv == wt * ub) by (nonlinear_arith)
        requires
            xu == wt * uu,
            ub == sv * uu,
    ;
    assert(xu * yv == ww * (uu * vv)) by (nonlinear_arith)
        requires
            xu == wt * uu,
            yv == wt * vv,
            ww == wt * wt,
    ;
    assert(wt * q == wt * ua + wt * ub) by (nonlinear_arith)
        requires
            q == ua + ub,
    ;
    assert(wt * p <= wt * q) by (nonlinear_arith)
        requires
            wt >= 0,
            p <= q,
    ;
}

/// A number whose square is at most the square of a non-negative one is at most it.
proof fn lemma_le_of_squares(p: int, q: int)
    requires
        q >= 0,
        p * p <= q * q,
    ensures
        p <= q,
{
    if p > q {
        assert(p * p > q * q) by (nonlinear_arith)
            requires
                p > q,
                q >= 0,
        ;
    }
}

/// Every natural number has a rounded-up square root.
proof fn lemma_ceil_sqrt_exists(s: nat)
    ensures
        is_ceil_sqrt(ceil_sqrt(s), s),
    decreases s,
{
    if s == 0 {
        assert(is_ceil_sqrt(0, 0));
    } else {
        lemma_ceil_sqrt_exists((s - 1) as nat);
        let r = ceil_sqrt((s - 1) as nat);
        if r * r >= s {
            assert(is_ceil_sqrt(r, s));
        } else {
            assert(r * r == s - 1);
            assert((r + 1) * (r + 1) >= s) by (nonlinear_arith)
                requires
                    r * r == s - 1,
            ;
            assert(is_ceil_sqrt(r + 1, s));
        }
    }
}

/// The rounded-up square root of `s` is at most any `r` whose square reaches `s`.
proof fn lemma_ceil_sqrt_le(s: nat, r: nat)
    requires
        r * r >= s,
    ensures
        ceil_sqrt(s) <= r,
        ceil_sqrt(s) * ceil_sqrt(s) >= s,
{
    lemma_ceil_sqrt_exists(s);
    let c = ceil_sqrt(s);
    if c > r {
        assert((c - 1) * (c - 1) >= r * r) by (nonlinear_arith)
            requires
                c > r,
                r >= 0,
        ;
    }
}

/// The rounded-up, capped root of a capped sum obeys the triangle inequality whenever
/// the sums underneath do, in squared form.
proof fn lemma_root_triangle(sab: nat, sbc: nat, sac: int, d: int)
    requires
        sac >= 0,
        sac == sab + sbc + 2 * d,
        d * d <= sab * sbc,
    ensures
        root_u64(cap_u128(sac as nat)) <= root_u64(cap_u128(sab)) + root_u64(cap_u128(sbc)),
{
    let x = ceil_sqrt(cap_u128(sab));
    let y = ceil_sqrt(cap_u128(sbc));
    let z = ceil_sqrt(cap_u128(sac as nat));
    lemma_ceil_sqrt_exists(cap_u128(sab));
    lemma_ceil_sqrt_exists(cap_u128(sbc));
    lemma_ceil_sqrt_exists(cap_u128(sac as nat));
    if sab > u128::MAX {
        lemma_ceil_sqrt_le(cap_u128(sac as nat), x);
    } else if sbc > u128::MAX {
        lemma_ceil_sqrt_le(cap_u128(sac as nat), y);
    } else {
        let xy: int = (x * y) as int;
        assert(xy >= 0) by (nonlinear_arith)
            requires
                xy == x * y,
        ;
        assert(sab * sbc <= xy * xy) by (nonlinear_arith)
            requires
                x * x >= sab,
                y * y >= sbc,
                sab >= 0,
                sbc >= 0,
                xy == x * y,
        ;
        lemma_le_of_squares(d, xy);
        assert((x + y) * (x + y) == x * x + y * y + 2 * xy) by (nonlinear_arith)
            requires
                xy == x * y,
        ;
        assert(cap_u128(sab) == sab && cap_u128(sbc) == sbc);
        assert(cap_u128(sac as nat) <= sac);
        assert((x + y) * (x + y) >= cap_u128(sac as nat));
        lemma_ceil_sqrt_le(cap_u128(sac as nat), (x + y) as nat);
    }
}

proof fn lemma_sq_sum_as_wsum(a: Seq<i32>, b: Seq<i32>, k: nat)
    ensures
        sq_sum(a, b, k) == wsum(a, b, |i: int| 1int, k),
    decreases k,
{
    if k > 0 {
        lemma_sq_sum_as_wsum(a, b, (k - 1) as nat);
        let j = k - 1;
        let one = |i: int| 1int;
        assert(one(j) == 1);
        assert((a[j] - b[j]) * (a[j] - b[j]) >= 0) by (nonlinear_arith);
        assert(one(j) * ((a[j] - b[j]) * (a[j] - b[j])) == (a[j] - b[j]) * (a[j] - b[j]));
    }
}

proof fn lemma_weighted_as_wsum(a: Seq<i32>, b: Seq<i32>, w: Seq<u32>, k: nat)
    ensures
        weighted_sq_sum(a, b, w, k) == wsum(a, b, |i: int| w[i] as int, k),
    decreases k,
{
    if k > 0 {
        lemma_weighted_as_wsum(a, b, w, (k - 1) as nat);
        let j = k - 1;
        assert((a[j] - b[j]) * (a[j] - b[j]) >= 0) by (nonlinear_arith);
    }
}

impl VpTreeObject for Vec<i32> {
    type PointType = Vec<i32>;

    open spec fn loc(&self) -> Vec<i32> {
        *self
    }

    fn location(&self) -> (r: &Vec<i32>) {
        self
    }
}

/// `r` is the smallest natural number whose square reaches `s`.
pub open spec fn is_ceil_sqrt(r: nat, s: nat) -> bool {
    r * r >= s && (r == 0 || (r - 1) * (r - 1) < s)
}

/// The square root of `s`, rounded up.
pub open spec fn ceil_sqrt(s: nat) -> nat {
    choose|r: nat| is_ceil_sqrt(r, s)
}

/// The rounded-up square root of `s`, capped at `u64::MAX`.
pub open spec fn root_u64(s: nat) -> u64 {
    if ceil_sqrt(s) > u64::MAX {
        u64::MAX
    } else {
        ceil_sqrt(s) as u64
    }
}

/// `s` capped at `u128::MAX`: sums of squares saturate there.
pub open spec fn cap_u128(s: nat) -> nat {
    if s > u128::MAX {
        u128::MAX as nat
    } else {
        s
    }
}

/// The squared difference of two coordinates.
pub open spec fn sq_diff(a: i32, b: i32) -> nat {
    ((a - b) * (a - b)) as nat
}

/// Sum of squared coordinate differences over the first `n` dimensions.
pub open spec fn sq_sum(a: Seq<i32>, b: Seq<i32>, n: nat) -> nat
    decreases n,
{
    if n == 0 {
        0
    } else {
        sq_sum(a, b, (n - 1) as nat) + sq_diff(a[n - 1], b[n - 1])
    }
}

/// Weighted sum of squared coordinate differences over the first `n` dimensions.
pub open spec fn weighted_sq_sum(a: Seq<i32>, b: Seq<i32>, w: Seq<u32>, n: nat) -> nat
    decreases n,
{
    if n == 0 {
        0
    } else {
        weighted_sq_sum(a, b, w, (n - 1) as nat) + (w[n - 1] as nat) * sq_diff(a[n - 1], b[n - 1])
    }
}

pub open spec fn min_nat(a: nat, b: nat) -> nat {
    if a <= b {
        a
    } else {
        b
    }
}

proof fn lemma_ceil_sqrt_unique(r1: nat, r2: nat, s: nat)
    requires
        is_ceil_sqrt(r1, s),
        is_ceil_sqrt(r2, s),
    ensures
        r1 == r2,
{
    if r1 < r2 {
        assert((r1 as int) * (r1 as int) <= (r2 - 1) * (r2 - 1)) by (nonlinear_arith)
            requires
                r1 < r2,
        ;
    } else if r2 < r1 {
        assert((r2 as int) * (r2 as int) <= (r1 - 1) * (r1 - 1)) by (nonlinear_arith)
            requires
                r2 < r1,
        ;
    }
}

/// The rounded-up square root is the unique number with its defining property.
pub proof fn lemma_ceil_sqrt_is(r: nat, s: nat)
    requires
        is_ceil_sqrt(r, s),
    ensures
        ceil_sqrt(s) == r,
{
    let c = ceil_sqrt(s);
    assert(is_ceil_sqrt(c, s));
    lemma_ceil_sqrt_unique(c, r, s);
}

/// The rounded-up square root of `s`, capped at `u64::MAX`.
fn ceil_sqrt_capped(s: u128) -> (r: u64)
    ensures
        r == root_u64(s as nat),
{
    let top: u128 = 0xffff_ffff_ffff_ffff;
    assert(top * top == 0xffff_ffff_ffff_fffe_0000_0000_0000_0001u128) by (nonlinear_arith)
        requires
            top == 0xffff_ffff_ffff_ffffu128,
    ;
    if s > top * top {
        proof {
            let big: nat = 0x1_0000_0000_0000_0000;
            assert(big * big == 0x1_0000_0000_0000_0000_0000_0000_0000_0000nat) by (nonlinear_arith)
                requires
                    big == 0x1_0000_0000_0000_0000nat,
            ;
            assert(is_ceil_sqrt(big, s as nat));
            lemma_ceil_sqrt_is(big, s as nat);
        }
        return u64::MAX;
    }
    let mut lo: u128 = 0;
    let mut hi: u128 = top;
    while lo < hi
        invariant
            lo <= hi <= top,
            top * top == 0xffff_ffff_ffff_fffe_0000_0000_0000_0001u128,
            s <= top * top,
            hi * hi >= s,
            lo == 0 || (lo - 1) * (lo - 1) < s,
        decreases hi - lo,
    {
        let mid = lo + (hi - lo) / 2;
        assert(mid * mid <= top * top) by (nonlinear_arith)
            requires
                mid <= top,
        ;
        if mid * mid >= s {
            hi = mid;
        } else {
            lo = mid + 1;
        }
    }
    proof {
        assert(is_ceil_sqrt(lo as nat, s as nat));
        lemma_ceil_sqrt_is(lo as nat, s as nat);
    }
    lo as u64
}

/// Absolute difference of two coordinates.
fn abs_diff(a: i32, b: i32) -> (r: u64)
    ensures
        r as int * r as int == sq_diff(a, b),
        r <= 0xffff_ffff,
{
    let d: i64 = a as i64 - b as i64;
    let r: u64 = if d >= 0 {
        d as u64
    } else {
        (-d) as u64
    };
    assert(r as int * r as int == (a - b) * (a - b)) by (nonlinear_arith)
        requires
            r == a - b || r == b - a,
    ;
    r
}

/// The Euclidean distance over integer coordinates, rounded up to an integer.
///
/// Only the dimensions that both points have are compared, so over points of mixed
/// lengths this is not a metric (an empty point is at distance 0 from every point). On
/// points of one length it is symmetric and obeys the triangle inequality
/// (`lemma_euclidean_metric_on`).
pub struct EuclideanMetric {}

impl EuclideanMetric {
    pub fn new() -> (r: EuclideanMetric) {
        EuclideanMetric {  }
    }
}

impl Default for EuclideanMetric {
    fn default() -> (r: EuclideanMetric) {
        EuclideanMetric {  }
    }
}

impl Clone for EuclideanMetric {
    fn clone(&self) -> (r: EuclideanMetric) {
        EuclideanMetric {  }
    }
}

impl Metric for EuclideanMetric {
    type PointType = Vec<i32>;

    open spec fn dist(&self, a: Vec<i32>, b: Vec<i32>) -> u64 {
        root_u64(cap_u128(sq_sum(a@, b@, min_nat(a@.len(), b@.len()))))
    }

    fn distance(&self, p1: &Vec<i32>, p2: &Vec<i32>) -> (r: u64) {
        let n: usize = if p1.len() <= p2.len() {
            p1.len()
        } else {
            p2.len()
        };
        let mut acc: u128 = 0;
        let mut i: usize = 0;
        while i < n
            invariant
                i <= n,
                n == min_nat(p1@.len(), p2@.len()),
                acc == cap_u128(sq_sum(p1@, p2@, i as nat)),
            decreases n - i,
        {
            let d = abs_diff(p1[i], p2[i]);
            assert((d as int) * (d as int) <= 0xffff_ffff * 0xffff_ffff) by (nonlinear_arith)
                requires
                    d <= 0xffff_ffff,
            ;
            let t: u128 = (d as u128) * (d as u128);
            acc = acc.saturating_add(t);
            i = i + 1;
        }
        ceil_sqrt_capped(acc)
    }
}

/// The Euclidean distance with a weight on each squared coordinate difference,
/// rounded up to an integer.
///
/// Only the dimensions that both points and the weights have are compared, so, as for
/// `EuclideanMetric`, mixed lengths break the metric axioms; on points of one length it
/// is symmetric and obeys the triangle inequality (`lemma_weighted_metric_on`).
pub struct WeightedEuclideanMetric {
    weights: Vec<u32>,
}

impl WeightedEuclideanMetric {
    pub fn new(weights: Vec<u32>) -> (r: WeightedEuclideanMetric)
        ensures
            r.weights() == weights@,
    {
        WeightedEuclideanMetric { weights }
    }

    /// The weight of each dimension.
    pub closed spec fn weights(&self) -> Seq<u32> {
        self.weights@
    }
}

impl Clone for WeightedEuclideanMetric {
    fn clone(&self) -> (r: WeightedEuclideanMetric)
        ensures
            r.weights() == self.weights(),
    {
        WeightedEuclideanMetric { weights: self.weights.clone() }
    }
}

impl Metric for WeightedEuclideanMetric {
    type PointType = Vec<i32>;

    open spec fn dist(&self, a: Vec<i32>, b: Vec<i32>) -> u64 {
        root_u64(
            cap_u128(
                weighted_sq_sum(
                    a@,
                    b@,
                    self.weights(),
                    min_nat(min_nat(a@.len(), b@.len()), self.weights().len()),
                ),
            ),
        )
    }

    fn distance(&self, p1: &Vec<i32>, p2: &Vec<i32>) -> (r: u64) {
        let mut n: usize = if p1.len() <= p2.len() {
            p1.len()
        } else {
            p2.len()
        };
        if self.weights.len() < n {
            n = self.weights.len();
        }
        let mut acc: u128 = 0;
        let mut i: usize = 0;
        while i < n
            invariant
                i <= n,
                n == min_nat(min_nat(p1@.len(), p2@.len()), self.weights@.len()),
                acc == cap_u128(weighted_sq_sum(p1@, p2@, self.weights@, i as nat)),
            decreases n - i,
        {
            let d = abs_diff(p1[i], p2[i]);
            let w = self.weights[i];
            assert((d as int) * (d as int) <= 0xffff_ffff * 0xffff_ffff) by (nonlinear_arith)
                requires
                    d <= 0xffff_ffff,
            ;
            assert((w as int) * ((d as int) * (d as int)) <= 0xffff_ffff * (0xffff_ffff
                * 0xffff_ffff)) by (nonlinear_arith)
                requires
                    d <= 0xffff_ffff,
                    w <= 0xffff_ffff,
            ;
            let t: u128 = (w as u128) * ((d as u128) * (d as u128));
            acc = acc.saturating_add(t);
            i = i + 1;
        }
        ceil_sqrt_capped(acc)
    }
}


/// On points of one length, the rounded-up Euclidean distance is symmetric and obeys the
/// triangle inequality.
pub proof fn lemma_euclidean_metric_on(m: &EuclideanMetric, dom: Set<Vec<i32>>, n: nat)
    requires
        forall|p: Vec<i32>| #[trigger] dom.contains(p) ==> p@.len() == n,
    ensures
        is_metric_on(m, dom),
{
    let one = |i: int| 1int;
    assert forall|a: Vec<i32>, b: Vec<i32>|
        dom.contains(a) && dom.contains(b) implies #[trigger] m.dist(a, b) == m.dist(b, a) by {
        lemma_sq_sum_as_wsum(a@, b@, n);
        lemma_sq_sum_as_wsum(b@, a@, n);
        lemma_wsum_facts(a@, b@, b@, one, n);
    }
    assert forall|a: Vec<i32>, b: Vec<i32>, c: Vec<i32>|
        dom.contains(a) && dom.contains(b) && dom.contains(c) implies #[trigger] m.dist(a, c)
        <= #[trigger] m.dist(a, b) + m.dist(b, c) by {
        lemma_sq_sum_as_wsum(a@, b@, n);
        lemma_sq_sum_as_wsum(b@, c@, n);
        lemma_sq_sum_as_wsum(a@, c@, n);
        lemma_wsum_facts(a@, b@, c@, one, n);
        lemma_root_triangle(
            sq_sum(a@, b@, n),
            sq_sum(b@, c@, n),
            sq_sum(a@, c@, n) as int,
            wdot(a@, b@, c@, one, n),
        );
    }
}

/// On points of one length, the rounded-up weighted Euclidean distance is symmetric and
/// obeys the triangle inequality.
pub proof fn lemma_weighted_metric_on(m: &WeightedEuclideanMetric, dom: Set<Vec<i32>>, n: nat)
    requires
        forall|p: Vec<i32>| #[trigger] dom.contains(p) ==> p@.len() == n,
    ensures
        is_metric_on(m, dom),
{
    let w = m.weights();
    let wf = |i: int| w[i] as int;
    let k = min_nat(n, w.len());
    assert forall|i: int| 0 <= i < k implies #[trigger] wf(i) >= 0 by {}
    assert forall|a: Vec<i32>, b: Vec<i32>|
        dom.contains(a) && dom.contains(b) implies #[trigger] m.dist(a, b) == m.dist(b, a) by {
        assert(min_nat(min_nat(a@.len(), b@.len()), w.len()) == k);
        assert(min_nat(min_nat(b@.len(), a@.len()), w.len()) == k);
        lemma_weighted_as_wsum(a@, b@, w, k);
        lemma_weighted_as_wsum(b@, a@, w, k);
        lemma_wsum_facts(a@, b@, b@, wf, k);
    }
    assert forall|a: Vec<i32>, b: Vec<i32>, c: Vec<i32>|
        dom.contains(a) && dom.contains(b) && dom.contains(c) implies #[trigger] m.dist(a, c)
        <= #[trigger] m.dist(a, b) + m.dist(b, c) by {
        assert(min_nat(min_nat(a@.len(), b@.len()), w.len()) == k);
        assert(min_nat(min_nat(b@.len(), c@.len()), w.len()) == k);
        assert(min_nat(min_nat(a@.len(), c@.len()), w.len()) == k);
        lemma_weighted_as_wsum(a@, b@, w, k);
        lemma_weighted_as_wsum(b@, c@, w, k);
        lemma_weighted_as_wsum(a@, c@, w, k);
        lemma_wsum_facts(a@, b@, c@, wf, k);
        lemma_root_triangle(
            weighted_sq_sum(a@, b@, w, k),
            weighted_sq_sum(b@, c@, w, k),
            weighted_sq_sum(a@, c@, w, k) as int,
            wdot(a@, b@, c@, wf, k),
        );
    }
}

} // verus!
