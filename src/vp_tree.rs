//! The vantage-point tree: elements and nodes in two flat vectors addressed by index.
use vstd::prelude::*;
use vstd::seq_lib::*;
use vstd::set_lib::*;
use vstd::std_specs::cmp::PartialEqSpec;

use crate::metric::{is_metric_on, lemma_triangle_on, Metric, VpTreeObject};

verus! {

/// One vantage point: the element it stands for, the radius that splits its
/// descendants, and links to its parent and its two children.
#[derive(Clone, Copy, Debug)]
struct Node {
    height: usize,
    center: usize,
    radius: u64,
    parent: Option<usize>,
    interior: Option<usize>,
    exterior: Option<usize>,
}

impl Node {
    fn new_leaf(center: usize, parent: Option<usize>) -> (r: Node)
        ensures
            r.height == 0,
            r.center == center,
            r.radius == 0,
            r.parent == parent,
            r.interior.is_none(),
            r.exterior.is_none(),
    {
        Node { height: 0, center, radius: 0, interior: None, exterior: None, parent }
    }
}

/// Relies on `slice::sort_unstable_by_key`: it reorders the pairs so that their
/// second components ascend.
#[verifier::external_body]
fn sort_by_distance(v: &mut Vec<(usize, u64)>)
    ensures
        final(v)@.to_multiset() == old(v)@.to_multiset(),
        forall|i: int, j: int| 0 <= i <= j < final(v)@.len() ==> final(v)@[i].1 <= final(v)@[j].1,
{
    v.sort_unstable_by_key(|p| p.1);
}

/// The set of indices that a sequence holds.
pub open spec fn index_set(s: Seq<usize>) -> Set<int> {
    Set::new(|j: int| exists|k: int| 0 <= k < s.len() && s[k] as int == j)
}

/// The first components of a sequence of pairs.
pub open spec fn firsts(s: Seq<(usize, u64)>) -> Seq<usize> {
    Seq::new(s.len(), |k: int| s[k].0)
}

proof fn lemma_index_set_push(s: Seq<usize>, x: usize)
    ensures
        index_set(s.push(x)) == index_set(s).insert(x as int),
{
    let t = s.push(x);
    assert forall|j: int| #[trigger] index_set(t).contains(j) implies index_set(s).insert(
        x as int,
    ).contains(j) by {
        let k = choose|k: int| 0 <= k < t.len() && t[k] as int == j;
        if k < s.len() {
            assert(t[k] == s[k]);
        }
    }
    assert forall|j: int| #[trigger] index_set(s).insert(x as int).contains(j) implies index_set(
        t,
    ).contains(j) by {
        if j != x as int {
            let k = choose|k: int| 0 <= k < s.len() && s[k] as int == j;
            assert(t[k] == s[k]);
        } else {
            assert(t[s.len() as int] == x);
        }
    }
    assert(index_set(t) =~= index_set(s).insert(x as int));
}

/// The indices that a recursive build covers: the popped center and what remains.
spec fn built_set(center: Option<usize>, rest: Seq<usize>) -> Set<int> {
    match center {
        Some(c) => index_set(rest).insert(c as int),
        None => Set::empty(),
    }
}

proof fn lemma_index_set_concat(a: Seq<usize>, b: Seq<usize>)
    ensures
        index_set(a + b) == index_set(a) + index_set(b),
{
    let t = a + b;
    assert forall|j: int| #[trigger] index_set(t).contains(j) implies (index_set(a) + index_set(
        b,
    )).contains(j) by {
        let k = choose|k: int| 0 <= k < t.len() && t[k] as int == j;
        if k < a.len() {
            assert(t[k] == a[k]);
        } else {
            assert(t[k] == b[k - a.len()]);
        }
    }
    assert forall|j: int| #[trigger] (index_set(a) + index_set(b)).contains(j) implies index_set(
        t,
    ).contains(j) by {
        if index_set(a).contains(j) {
            let k = choose|k: int| 0 <= k < a.len() && a[k] as int == j;
            assert(t[k] == a[k]);
        } else {
            let k = choose|k: int| 0 <= k < b.len() && b[k] as int == j;
            assert(t[a.len() + k] == b[k]);
        }
    }
    assert(index_set(t) =~= index_set(a) + index_set(b));
}

proof fn lemma_index_set_len(s: Seq<usize>)
    ensures
        index_set(s).finite(),
        index_set(s).len() <= s.len(),
        s.no_duplicates() ==> index_set(s).len() == s.len(),
    decreases s.len(),
{
    if s.len() == 0 {
        assert(index_set(s) =~= Set::empty());
    } else {
        let t = s.drop_last();
        lemma_index_set_len(t);
        assert forall|j: int| #[trigger] index_set(s).contains(j) implies index_set(t).insert(
            s.last() as int,
        ).contains(j) by {
            let k = choose|k: int| 0 <= k < s.len() && s[k] as int == j;
            if k < s.len() - 1 {
                assert(t[k] == s[k]);
            }
        }
        assert forall|j: int| #[trigger] index_set(t).insert(s.last() as int).contains(
            j,
        ) implies index_set(s).contains(j) by {
            if j != s.last() as int {
                let k = choose|k: int| 0 <= k < t.len() && t[k] as int == j;
                assert(s[k] == t[k]);
            } else {
                assert(s[s.len() - 1] == s.last());
            }
        }
        assert(index_set(s) =~= index_set(t).insert(s.last() as int));
        if s.no_duplicates() {
            if index_set(t).contains(s.last() as int) {
                let k = choose|k: int| 0 <= k < t.len() && t[k] as int == s.last() as int;
                assert(s[k] == s[s.len() - 1]);
            }
        }
    }
}

/// Some slot below `n` is sent to `k`.
pub open spec fn hits(perm: spec_fn(int) -> int, n: int, k: int) -> bool {
    exists|j: int| 0 <= j < n && #[trigger] perm(j) == k
}

/// `perm` permutes the slots `0..n`.
pub open spec fn is_permutation(perm: spec_fn(int) -> int, n: int) -> bool {
    &&& forall|j: int| 0 <= j < n ==> 0 <= #[trigger] perm(j) < n
    &&& forall|j: int, k: int|
        0 <= j < n && 0 <= k < n && j != k ==> #[trigger] perm(j) != #[trigger] perm(k)
    &&& forall|k: int| 0 <= k < n ==> #[trigger] hits(perm, n, k)
}

/// A self-balancing vantage-point tree over elements of type `Point`, compared by
/// `PointMetric` through their locations.
///
/// Every interior descendant of a node lies strictly closer to it than its radius, every
/// exterior descendant at least that far; a node's height is one more than its taller
/// child's.
pub struct VpAvl<Point, PointMetric> {
    root: usize,
    nodes: Vec<Node>,
    data: Vec<Point>,
    metric: PointMetric,
    /// For each node, the indices of the subtree rooted there.
    sub: Ghost<Seq<Set<int>>>,
}

// The abstract model and the invariant.
impl<Point, PointMetric> VpAvl<Point, PointMetric> where
    Point: VpTreeObject,
    PointMetric: Metric<PointType = Point::PointType>,
 {
    /// The stored elements, in storage order.
    pub closed spec fn view(&self) -> Seq<Point> {
        self.data@
    }

    /// The metric the tree was built with.
    pub closed spec fn spec_metric(&self) -> PointMetric {
        self.metric
    }

    /// The distance between the locations of the elements stored at `i` and `j`.
    pub open spec fn dist_ij(&self, i: int, j: int) -> u64 {
        self.spec_metric().dist(self@[i].loc(), self@[j].loc())
    }

    /// The indices of the subtree rooted at node `i`.
    pub closed spec fn subtree(&self, i: int) -> Set<int> {
        self.sub@[i]
    }

    /// The root node; meaningful when the tree is not empty.
    pub closed spec fn root_index(&self) -> int {
        self.root as int
    }

    /// The radius of node `i`.
    pub closed spec fn radius_of(&self, i: int) -> u64 {
        self.nodes@[i].radius
    }

    /// The interior child of node `i`.
    pub closed spec fn interior_of(&self, i: int) -> Option<usize> {
        self.nodes@[i].interior
    }

    /// The exterior child of node `i`.
    pub closed spec fn exterior_of(&self, i: int) -> Option<usize> {
        self.nodes@[i].exterior
    }

    /// The cached height of node `i`.
    pub closed spec fn height_of(&self, i: int) -> int {
        self.nodes@[i].height as int
    }

    /// The subtree below an optional child; empty when there is no child.
    pub open spec fn child_set(&self, c: Option<usize>) -> Set<int> {
        match c {
            Some(c) => self.subtree(c as int),
            None => Set::empty(),
        }
    }

    /// The height that a child contributes to its parent: a missing child counts as -1.
    pub open spec fn child_height(&self, c: Option<usize>) -> int {
        match c {
            Some(c) => self.height_of(c as int) + 1,
            None => 0,
        }
    }

    /// One child of node `i` is more than one level taller than the other (a missing
    /// child counting as height -1).
    pub open spec fn unbalanced(&self, i: int) -> bool {
        let hi = self.child_height(self.interior_of(i));
        let he = self.child_height(self.exterior_of(i));
        hi > he + 1 || he > hi + 1
    }

    /// A link from node `i` to child `c` is sound.
    closed spec fn child_ok(&self, i: int, c: Option<usize>) -> bool {
        match c {
            Some(c) => {
                &&& c < self.nodes@.len()
                &&& self.nodes@[c as int].parent == Some(i as usize)
                &&& self.sub@[c as int].contains(c as int)
                &&& !self.sub@[c as int].contains(i)
            },
            None => true,
        }
    }

    closed spec fn lens_ok(&self) -> bool {
        &&& self.nodes@.len() == self.data@.len()
        &&& self.sub@.len() == self.data@.len()
        &&& forall|i: int| 0 <= i < self.nodes@.len() ==> (#[trigger] self.nodes@[i]).center == i
    }

    /// Node `i` is well linked, its subtree is itself plus its children's subtrees, and
    /// its radius separates the interior subtree from the exterior one.
    pub closed spec fn node_ok(&self, i: int) -> bool {
        let nd = self.nodes@[i];
        &&& nd.center == i
        &&& self.sub@[i].subset_of(set_int_range(0, self.nodes@.len() as int))
        &&& self.sub@[i] == set![i] + self.child_set(nd.interior) + self.child_set(nd.exterior)
        &&& self.child_ok(i, nd.interior)
        &&& self.child_ok(i, nd.exterior)
        &&& self.child_set(nd.interior).disjoint(self.child_set(nd.exterior))
        &&& forall|j: int| #[trigger]
            self.child_set(nd.interior).contains(j) ==> self.dist_ij(i, j) < nd.radius
        &&& forall|j: int| #[trigger]
            self.child_set(nd.exterior).contains(j) ==> self.dist_ij(i, j) >= nd.radius
    }

    /// The cached height of node `i` is one more than its taller child's, and less than
    /// the size of its subtree.
    pub closed spec fn height_ok(&self, i: int) -> bool {
        let nd = self.nodes@[i];
        &&& nd.height as int == if self.child_height(nd.interior) >= self.child_height(
            nd.exterior,
        ) {
            self.child_height(nd.interior)
        } else {
            self.child_height(nd.exterior)
        }
        &&& nd.height < self.sub@[i].len()
    }

    /// The tree's invariant: every node is sound and its height is up to date, and the
    /// root's subtree holds every index.
    pub closed spec fn wf(&self) -> bool {
        &&& self.lens_ok()
        &&& self.data@.len() > 0 ==> {
            &&& self.root < self.data@.len()
            &&& self.sub@[self.root as int] == set_int_range(0, self.data@.len() as int)
            &&& self.nodes@[self.root as int].parent.is_none()
        }
        &&& forall|i: int| 0 <= i < self.data@.len() ==> #[trigger] self.node_ok(i)
        &&& forall|i: int| 0 <= i < self.data@.len() ==> #[trigger] self.height_ok(i)
    }

    /// Every node is sound; heights may be stale at the nodes in `pend`.
    closed spec fn wf_pending(&self, pend: Set<int>) -> bool {
        &&& self.lens_ok()
        &&& self.data@.len() > 0 ==> {
            &&& self.root < self.data@.len()
            &&& self.sub@[self.root as int] == set_int_range(0, self.data@.len() as int)
            &&& self.nodes@[self.root as int].parent.is_none()
        }
        &&& forall|i: int| 0 <= i < self.data@.len() ==> #[trigger] self.node_ok(i)
        &&& forall|i: int|
            0 <= i < self.data@.len() && !pend.contains(i) ==> #[trigger] self.height_ok(i)
    }

    /// `b` has the same nodes, subtrees, root and metric as `a`.
    pub closed spec fn same_shape(a: &Self, b: &Self) -> bool {
        &&& a.nodes == b.nodes
        &&& a.sub == b.sub
        &&& a.root == b.root
        &&& a.metric == b.metric
    }

    /// The distance from the query location `q` to the element stored at `j`.
    pub open spec fn dist_q(&self, q: Point::PointType, j: int) -> u64 {
        self.spec_metric().dist(q, self@[j].loc())
    }

    /// The locations a search from `q` compares: `q` itself and every stored location.
    pub open spec fn locations_with(&self, q: Point::PointType) -> Set<Point::PointType> {
        Set::new(
            |x: Point::PointType|
                x == q || exists|j: int| 0 <= j < self@.len() && #[trigger] self@[j].loc() == x,
        )
    }

    /// The metric is symmetric and obeys the triangle inequality among the stored
    /// locations and `q`: what a nearest-first search from `q` needs.
    pub open spec fn metric_holds_for(&self, q: Point::PointType) -> bool {
        is_metric_on(&self.spec_metric(), self.locations_with(q))
    }

    /// `s` lists distinct stored indices, each no farther from `q` than every index not
    /// listed before it: a nearest-first prefix of the elements.
    pub open spec fn is_nearest_prefix(&self, q: Point::PointType, s: Seq<usize>) -> bool {
        &&& s.no_duplicates()
        &&& forall|i: int| 0 <= i < s.len() ==> s[i] < self@.len()
        &&& forall|i: int, j: int|
            0 <= i < s.len() && 0 <= j < self@.len() && !index_set(s.subrange(0, i)).contains(
                j,
            ) ==> #[trigger] self.dist_q(q, s[i] as int) <= #[trigger] self.dist_q(q, j)
    }

    /// The indices of `rest` strictly closer than `x` to the element at `i`.
    pub open spec fn closer_in(&self, i: int, rest: Set<int>, x: u64) -> Set<int> {
        Set::new(|j: int| rest.contains(j) && self.dist_ij(i, j) < x)
    }

    /// The indices of `rest` no farther than `x` from the element at `i`.
    pub open spec fn within_in(&self, i: int, rest: Set<int>, x: u64) -> Set<int> {
        Set::new(|j: int| rest.contains(j) && self.dist_ij(i, j) <= x)
    }

    /// How a median partition lays out node `i` over the other indices `rest` of its
    /// subtree: no child when `rest` is empty; a lone exterior child, with the radius its
    /// distance, when `rest` has one index; otherwise the radius is the distance of the
    /// median (the index at position ceil(m/2) in ascending distance order, counting from
    /// 0), so that at most ceil(m/2) indices lie inside it, exactly ceil(m/2) when the
    /// distances around the median differ, and the radius is the smallest exterior
    /// distance.
    pub open spec fn split_ok(&self, i: int, rest: Set<int>) -> bool {
        let m = rest.len();
        let r = self.radius_of(i);
        &&& m == 0 ==> self.interior_of(i) is None && self.exterior_of(i) is None
        &&& m == 1 ==> self.interior_of(i) is None && (self.exterior_of(i) matches Some(e) && rest
            == set![e as int] && r == self.dist_ij(i, e as int))
        &&& m >= 2 ==> {
            &&& self.exterior_of(i) is Some
            &&& self.closer_in(i, rest, r).len() <= (m + 1) / 2
            &&& self.within_in(i, rest, r).len() >= (m + 1) / 2 + 1
            &&& exists|j: int| #[trigger]
                self.child_set(self.exterior_of(i)).contains(j) && self.dist_ij(i, j) == r
        }
    }

    /// The stored indices strictly closer to `q` than `x`.
    pub open spec fn closer_than(&self, q: Point::PointType, x: u64) -> Set<int> {
        Set::new(|j: int| 0 <= j < self@.len() && self.dist_q(q, j) < x)
    }

    /// The stored indices no farther from `q` than `x`.
    pub open spec fn within(&self, q: Point::PointType, x: u64) -> Set<int> {
        Set::new(|j: int| 0 <= j < self@.len() && self.dist_q(q, j) <= x)
    }
}

// How states relate across a change, and what follows from the invariant.
impl<Point, PointMetric> VpAvl<Point, PointMetric> where
    Point: VpTreeObject,
    PointMetric: Metric<PointType = Point::PointType>,
 {
    /// An optional child reads the same in `a` and `b`: its node and its subtree.
    closed spec fn child_same(a: &Self, b: &Self, c: Option<usize>) -> bool {
        match c {
            Some(c) => {
                &&& a.nodes@[c as int] == b.nodes@[c as int]
                &&& a.sub@[c as int] == b.sub@[c as int]
            },
            None => true,
        }
    }

    /// Node `x` reads the same in `a` and `b`, as do its children.
    closed spec fn same_around(a: &Self, b: &Self, x: int) -> bool {
        &&& a.nodes@[x] == b.nodes@[x]
        &&& a.sub@[x] == b.sub@[x]
        &&& Self::child_same(a, b, a.nodes@[x].interior)
        &&& Self::child_same(a, b, a.nodes@[x].exterior)
    }

    /// An optional child has the same parent link and subtree in `a` and `b`.
    closed spec fn links_same(a: &Self, b: &Self, c: Option<usize>) -> bool {
        match c {
            Some(c) => {
                &&& a.nodes@[c as int].parent == b.nodes@[c as int].parent
                &&& a.sub@[c as int] == b.sub@[c as int]
            },
            None => true,
        }
    }

    /// An optional child has the same height in `a` and `b`.
    closed spec fn heights_same(a: &Self, b: &Self, c: Option<usize>) -> bool {
        match c {
            Some(c) => a.nodes@[c as int].height == b.nodes@[c as int].height,
            None => true,
        }
    }

    /// `b` differs from `a` at most in the nodes and subtrees of the indices in `s`.
    closed spec fn unchanged_outside(a: &Self, b: &Self, s: Set<int>) -> bool {
        &&& a.data == b.data
        &&& a.metric == b.metric
        &&& a.root == b.root
        &&& a.nodes@.len() == b.nodes@.len()
        &&& a.sub@.len() == b.sub@.len()
        &&& forall|x: int|
            0 <= x < b.nodes@.len() && !s.contains(x) ==> {
                &&& #[trigger] b.nodes@[x] == a.nodes@[x]
                &&& b.sub@[x] == a.sub@[x]
            }
    }

    proof fn lemma_frame(a: &Self, b: &Self, x: int)
        requires
            a.lens_ok(),
            b.lens_ok(),
            a.metric == b.metric,
            a.data@.len() <= b.data@.len(),
            forall|p: int| 0 <= p < a.data@.len() ==> #[trigger] b.data@[p] == a.data@[p],
            0 <= x < a.data@.len(),
            Self::same_around(a, b, x),
        ensures
            a.node_ok(x) ==> b.node_ok(x),
            a.height_ok(x) ==> b.height_ok(x),
    {
        let nd = a.nodes@[x];
        lemma_int_range(0, a.data@.len() as int);
        lemma_int_range(0, b.data@.len() as int);
        assert(forall|p: int, q: int|
            0 <= p < a.data@.len() && 0 <= q < a.data@.len() ==> #[trigger] b.dist_ij(p, q)
                == a.dist_ij(p, q));
        assert(a.child_set(nd.interior) == b.child_set(nd.interior));
        assert(a.child_set(nd.exterior) == b.child_set(nd.exterior));
        assert(a.child_height(nd.interior) == b.child_height(nd.interior));
        assert(a.child_height(nd.exterior) == b.child_height(nd.exterior));
        if a.node_ok(x) {
            assert forall|j: int| #[trigger] b.child_set(nd.interior).contains(j) implies b.dist_ij(
                x,
                j,
            ) < nd.radius by {
                assert(a.child_set(nd.interior).contains(j));
                assert(a.sub@[x].contains(j));
                assert(set_int_range(0, a.data@.len() as int).contains(j));
            }
            assert forall|j: int| #[trigger] b.child_set(nd.exterior).contains(j) implies b.dist_ij(
                x,
                j,
            ) >= nd.radius by {
                assert(a.child_set(nd.exterior).contains(j));
                assert(a.sub@[x].contains(j));
                assert(set_int_range(0, a.data@.len() as int).contains(j));
            }
        }
    }

    /// Node `x` stays sound when only things it does not read change.
    proof fn lemma_frame_links(a: &Self, b: &Self, x: int)
        requires
            a.lens_ok(),
            b.lens_ok(),
            a.metric == b.metric,
            a.data@.len() <= b.data@.len(),
            forall|p: int| 0 <= p < a.data@.len() ==> #[trigger] b.data@[p] == a.data@[p],
            0 <= x < a.data@.len(),
            a.nodes@[x].center == b.nodes@[x].center,
            a.nodes@[x].radius == b.nodes@[x].radius,
            a.nodes@[x].interior == b.nodes@[x].interior,
            a.nodes@[x].exterior == b.nodes@[x].exterior,
            a.sub@[x] == b.sub@[x],
            Self::links_same(a, b, a.nodes@[x].interior),
            Self::links_same(a, b, a.nodes@[x].exterior),
        ensures
            a.node_ok(x) ==> b.node_ok(x),
            a.height_ok(x) && a.nodes@[x].height == b.nodes@[x].height && Self::heights_same(
                a,
                b,
                a.nodes@[x].interior,
            ) && Self::heights_same(a, b, a.nodes@[x].exterior) ==> b.height_ok(x),
    {
        let nd = a.nodes@[x];
        lemma_int_range(0, a.data@.len() as int);
        lemma_int_range(0, b.data@.len() as int);
        assert(forall|p: int, q: int|
            0 <= p < a.data@.len() && 0 <= q < a.data@.len() ==> #[trigger] b.dist_ij(p, q)
                == a.dist_ij(p, q));
        assert(a.child_set(nd.interior) == b.child_set(nd.interior));
        assert(a.child_set(nd.exterior) == b.child_set(nd.exterior));
        if a.node_ok(x) {
            assert forall|j: int| #[trigger] b.child_set(nd.interior).contains(j) implies b.dist_ij(
                x,
                j,
            ) < nd.radius by {
                assert(a.child_set(nd.interior).contains(j));
                assert(a.sub@[x].contains(j));
                assert(set_int_range(0, a.data@.len() as int).contains(j));
            }
            assert forall|j: int| #[trigger] b.child_set(nd.exterior).contains(j) implies b.dist_ij(
                x,
                j,
            ) >= nd.radius by {
                assert(a.child_set(nd.exterior).contains(j));
                assert(a.sub@[x].contains(j));
                assert(set_int_range(0, a.data@.len() as int).contains(j));
            }
        }
        if Self::heights_same(a, b, nd.interior) && Self::heights_same(a, b, nd.exterior) {
            assert(a.child_height(nd.interior) == b.child_height(nd.interior));
            assert(a.child_height(nd.exterior) == b.child_height(nd.exterior));
        }
    }

    /// The partition recorded at node `x` reads the same in `a` and `b` when nothing it
    /// reads has changed.
    proof fn lemma_split_frame(a: &Self, b: &Self, x: int)
        requires
            a.data == b.data,
            a.metric == b.metric,
            Self::same_around(a, b, x),
            a.split_ok(x, a.sub@[x].remove(x)),
        ensures
            b.split_ok(x, b.sub@[x].remove(x)),
    {
        let rest = a.sub@[x].remove(x);
        let r = a.radius_of(x);
        assert(b.closer_in(x, rest, r) =~= a.closer_in(x, rest, r));
        assert(b.within_in(x, rest, r) =~= a.within_in(x, rest, r));
        assert(b.child_set(b.exterior_of(x)) == a.child_set(a.exterior_of(x)));
        if rest.len() >= 2 {
            let j = choose|j: int| #[trigger]
                a.child_set(a.exterior_of(x)).contains(j) && a.dist_ij(x, j) == r;
            assert(b.child_set(b.exterior_of(x)).contains(j) && b.dist_ij(x, j) == r);
        }
    }

    proof fn lemma_unchanged_trans(a: &Self, b: &Self, c: &Self, s1: Set<int>, s2: Set<int>, s: Set<int>)
        requires
            Self::unchanged_outside(a, b, s1),
            Self::unchanged_outside(b, c, s2),
            s1.subset_of(s),
            s2.subset_of(s),
        ensures
            Self::unchanged_outside(a, c, s),
    {
        assert forall|x: int| 0 <= x < c.nodes@.len() && !s.contains(x) implies {
            &&& #[trigger] c.nodes@[x] == a.nodes@[x]
            &&& c.sub@[x] == a.sub@[x]
        } by {
            assert(c.nodes@[x] == b.nodes@[x]);
            assert(b.nodes@[x] == a.nodes@[x]);
            assert(c.sub@[x] == b.sub@[x]);
            assert(b.sub@[x] == a.sub@[x]);
        }
    }

    /// A child's subtree is strictly smaller than its parent's.
    proof fn lemma_child_smaller(&self, i: int, c: usize)
        requires
            self.lens_ok(),
            0 <= i < self.data@.len(),
            self.node_ok(i),
            self.nodes@[i].interior == Some(c) || self.nodes@[i].exterior == Some(c),
        ensures
            self.sub@[c as int].subset_of(self.sub@[i]),
            self.sub@[c as int].len() < self.sub@[i].len(),
            self.sub@[i].finite(),
            self.sub@[i].len() <= self.data@.len(),
            self.sub@[c as int].finite(),
            !self.sub@[c as int].contains(i),
            self.sub@[c as int].contains(c as int),
            self.nodes@[c as int].parent == Some(i as usize),
            0 <= c < self.data@.len(),
    {
        let nd = self.nodes@[i];
        assert(self.child_ok(i, nd.interior));
        assert(self.child_ok(i, nd.exterior));
        lemma_int_range(0, self.data@.len() as int);
        lemma_len_subset(self.sub@[i], set_int_range(0, self.data@.len() as int));
        assert(self.sub@[c as int].subset_of(self.sub@[i].remove(i)));
        lemma_len_subset(self.sub@[c as int], self.sub@[i].remove(i));
    }

    /// A node's subtree is finite, holds the node, and is no larger than the tree.
    proof fn lemma_sub_size(&self, i: int)
        requires
            self.lens_ok(),
            0 <= i < self.data@.len(),
            self.node_ok(i),
        ensures
            self.sub@[i].finite(),
            self.sub@[i].contains(i),
            1 <= self.sub@[i].len() <= self.data@.len(),
    {
        lemma_int_range(0, self.data@.len() as int);
        lemma_len_subset(self.sub@[i], set_int_range(0, self.data@.len() as int));
        assert(self.sub@[i].contains(i));
        assert(self.sub@[i].remove(i).len() + 1 == self.sub@[i].len());
    }

    /// Within a subtree, every node but its top has its parent in the subtree too.
    proof fn lemma_parent_in_subtree(&self, r: int, x: int)
        requires
            self.lens_ok(),
            forall|i: int| 0 <= i < self.data@.len() ==> #[trigger] self.node_ok(i),
            0 <= r < self.data@.len(),
            self.sub@[r].contains(x),
            x != r,
        ensures
            self.nodes@[x].parent matches Some(q) && self.sub@[r].contains(q as int),
        decreases self.sub@[r].len(),
    {
        assert(self.node_ok(r));
        let nd = self.nodes@[r];
        lemma_int_range(0, self.data@.len() as int);
        lemma_len_subset(self.sub@[r], set_int_range(0, self.data@.len() as int));
        if nd.interior is Some && self.sub@[nd.interior.unwrap() as int].contains(x) {
            let c = nd.interior.unwrap();
            self.lemma_child_smaller(r, c);
            if x != c as int {
                self.lemma_parent_in_subtree(c as int, x);
            }
        } else {
            assert(nd.exterior is Some);
            let c = nd.exterior.unwrap();
            self.lemma_child_smaller(r, c);
            if x != c as int {
                self.lemma_parent_in_subtree(c as int, x);
            }
        }
    }
}

// Construction and bulk building.
impl<Point, PointMetric> VpAvl<Point, PointMetric> where
    Point: VpTreeObject,
    PointMetric: Metric<PointType = Point::PointType>,
 {
    /// An empty tree over `metric`.
    pub fn new(metric: PointMetric) -> (r: Self)
        ensures
            r.wf(),
            r@ == Seq::<Point>::empty(),
            r.spec_metric() == metric,
    {
        VpAvl { root: 0, nodes: Vec::new(), data: Vec::new(), metric, sub: Ghost(Seq::empty()) }
    }

    /// Builds a balanced tree over `data` in one pass, with the first element as root.
    pub fn bulk_insert(metric: PointMetric, data: Vec<Point>) -> (r: Self)
        ensures
            r.wf(),
            r@ == data@,
            r.spec_metric() == metric,
            data@.len() > 0 ==> r.root_index() == 0 && r.split_ok(0, set_int_range(1, data@.len() as int)),
            forall|i: int| 0 <= i < data@.len() ==> #[trigger] r.split_ok(i, r.subtree(i).remove(i)),
    {
        let n = data.len();
        let mut nodes: Vec<Node> = Vec::with_capacity(n);
        let mut indices: Vec<usize> = Vec::new();
        let mut i: usize = 0;
        while i < n
            invariant
                i <= n,
                nodes@.len() == i,
                forall|k: int| 0 <= k < i ==> (#[trigger] nodes@[k]).center == k,
                forall|k: int| 0 <= k < i ==> (#[trigger] nodes@[k]).parent.is_none(),
                i > 0 ==> indices@.len() == i - 1,
                i == 0 ==> indices@.len() == 0,
                forall|k: int| 0 <= k < indices@.len() ==> #[trigger] indices@[k] == k + 1,
            decreases n - i,
        {
            nodes.push(Node::new_leaf(i, None));
            if i > 0 {
                indices.push(i);
            }
            i = i + 1;
        }
        let mut rv = VpAvl {
            root: 0,
            nodes,
            data,
            metric,
            sub: Ghost(Seq::new(n as nat, |k: int| set![k])),
        };
        rv.rebuild_all();
        rv
    }

    /// A tree over the same elements, rebuilt for `metric`: the radii depend on it.
    pub fn update_metric<NewMetric: Metric<PointType = Point::PointType>>(
        self,
        metric: NewMetric,
    ) -> (r: VpAvl<Point, NewMetric>)
        ensures
            r.wf(),
            r@ == self@,
            r.spec_metric() == metric,
            forall|i: int| 0 <= i < r@.len() ==> #[trigger] r.split_ok(i, r.subtree(i).remove(i)),
    {
        VpAvl::bulk_insert(metric, self.data)
    }

    /// The number of stored elements.
    pub fn size(&self) -> (r: usize)
        ensures
            r == self@.len(),
    {
        self.data.len()
    }

    /// The stored elements, in storage order (not distance order).
    pub fn iter(&self) -> (r: &[Point])
        ensures
            r@ == self@,
    {
        self.data.as_slice()
    }

    /// The stored elements for changing in place, in storage order. Changing an
    /// element's location breaks the tree's invariant.
    pub fn iter_mut(&mut self) -> (r: &mut [Point])
        ensures
            r@ == old(self)@,
            final(self)@ == final(r)@,
            Self::same_shape(old(self), final(self)),
    {
        self.data.as_mut_slice()
    }

    /// Builds the whole tree again from scratch around index 0.
    fn rebuild_all(&mut self)
        requires
            old(self).lens_ok(),
        ensures
            final(self).wf(),
            final(self).data == old(self).data,
            final(self).metric == old(self).metric,
            final(self).data@.len() > 0 ==> final(self).root == 0 && final(self).split_ok(
                0,
                set_int_range(1, final(self).data@.len() as int),
            ),
            forall|i: int|
                0 <= i < final(self).data@.len() ==> #[trigger] final(self).split_ok(
                    i,
                    final(self).subtree(i).remove(i),
                ),
    {
        let n = self.data.len();
        self.root = 0;
        if n == 0 {
            return ;
        }
        let mut top = self.nodes[0];
        top.parent = None;
        self.nodes.set(0, top);
        let mut indices: Vec<usize> = Vec::new();
        let mut i: usize = 1;
        while i < n
            invariant
                1 <= i <= n,
                indices@.len() == i - 1,
                forall|k: int| 0 <= k < indices@.len() ==> #[trigger] indices@[k] == k + 1,
            decreases n - i,
        {
            indices.push(i);
            i = i + 1;
        }
        let ghost s_all = index_set(indices@).insert(0);
        proof {
            assert(self.lens_ok());
            assert(!indices@.contains(0));
            assert forall|j: int| #[trigger]
                set_int_range(0, n as int).contains(j) implies s_all.contains(j) by {
                if j > 0 {
                    assert(indices@[j - 1] == j);
                }
            }
            assert forall|j: int| #[trigger] s_all.contains(j) implies set_int_range(
                0,
                n as int,
            ).contains(j) by {}
            assert(s_all =~= set_int_range(0, n as int));
        }
        self.bulk_build_indices(0, indices);
        proof {
            assert(index_set(indices@) =~= set_int_range(1, n as int)) by {
                assert forall|j: int| #[trigger] set_int_range(1, n as int).contains(j) implies index_set(indices@).contains(j) by {
                    assert(indices@[j - 1] == j);
                }
            }
            assert forall|i: int| 0 <= i < self.data@.len() implies #[trigger] self.node_ok(i) by {
                assert(s_all.contains(i));
            }
            assert forall|i: int| 0 <= i < self.data@.len() implies #[trigger] self.height_ok(i) by {
                assert(s_all.contains(i));
            }
            assert forall|i: int| 0 <= i < self.data@.len() implies #[trigger] self.split_ok(
                i,
                self.subtree(i).remove(i),
            ) by {
                assert(s_all.contains(i));
            }
        }
    }

    /// The distance between the locations of the elements at `i` and `j`.
    fn node_distance(&self, i: usize, j: usize) -> (r: u64)
        requires
            i < self.data@.len(),
            j < self.data@.len(),
        ensures
            r == self.dist_ij(i as int, j as int),
    {
        self.metric.distance(self.data[i].location(), self.data[j].location())
    }

    /// What sorting the root's distance pairs gives: each pair still holds an index and
    /// its distance to the root, and the indices are those given, each once.
    proof fn lemma_sorted_pairs(
        &self,
        root: usize,
        indices: Seq<usize>,
        unsorted: Seq<(usize, u64)>,
        sorted: Seq<(usize, u64)>,
    )
        requires
            indices.no_duplicates(),
            unsorted.len() == indices.len(),
            forall|t: int|
                0 <= t < indices.len() ==> #[trigger] unsorted[t] == (indices[t], self.dist_ij(
                    root as int,
                    indices[t] as int,
                )),
            sorted.to_multiset() == unsorted.to_multiset(),
        ensures
            sorted.len() == indices.len(),
            forall|t: int|
                0 <= t < sorted.len() ==> #[trigger] sorted[t].1 == self.dist_ij(
                    root as int,
                    sorted[t].0 as int,
                ),
            firsts(sorted).no_duplicates(),
            index_set(firsts(sorted)) == index_set(indices),
    {
        broadcast use vstd::seq_lib::group_to_multiset_ensures;

        assert(sorted.len() == indices.len()) by {
            assert(sorted.len() == sorted.to_multiset().len());
            assert(unsorted.len() == unsorted.to_multiset().len());
        }
        assert forall|t: int| 0 <= t < sorted.len() implies exists|u: int|
            0 <= u < unsorted.len() && unsorted[u] == #[trigger] sorted[t] by {
            assert(sorted.contains(sorted[t]));
            assert(sorted.to_multiset().count(sorted[t]) > 0);
            assert(unsorted.contains(sorted[t]));
        }
        assert forall|t: int|
            0 <= t < sorted.len() implies #[trigger] sorted[t].1 == self.dist_ij(
            root as int,
            sorted[t].0 as int,
        ) by {
            let u = choose|u: int| 0 <= u < unsorted.len() && unsorted[u] == sorted[t];
            assert(unsorted[u] == (indices[u], self.dist_ij(root as int, indices[u] as int)));
        }
        assert(unsorted.no_duplicates()) by {
            assert forall|i: int, j: int|
                0 <= i < unsorted.len() && 0 <= j < unsorted.len() && i != j implies unsorted[i]
                != unsorted[j] by {
                assert(unsorted[i].0 == indices[i]);
                assert(unsorted[j].0 == indices[j]);
            }
        }
        unsorted.lemma_multiset_has_no_duplicates();
        sorted.lemma_multiset_has_no_duplicates_conv();
        assert forall|i: int, j: int|
            0 <= i < firsts(sorted).len() && 0 <= j < firsts(sorted).len() && i
                != j implies firsts(sorted)[i] != firsts(sorted)[j] by {
            if firsts(sorted)[i] == firsts(sorted)[j] {
                assert(sorted[i].1 == self.dist_ij(root as int, sorted[i].0 as int));
                assert(sorted[j].1 == self.dist_ij(root as int, sorted[j].0 as int));
                assert(sorted[i] == sorted[j]);
            }
        }
        assert forall|x: int| #[trigger] index_set(firsts(sorted)).contains(x) implies index_set(
            indices,
        ).contains(x) by {
            let t = choose|t: int| 0 <= t < firsts(sorted).len() && firsts(sorted)[t] as int == x;
            let u = choose|u: int| 0 <= u < unsorted.len() && unsorted[u] == sorted[t];
            assert(indices[u] as int == x);
        }
        assert forall|x: int| #[trigger] index_set(indices).contains(x) implies index_set(
            firsts(sorted),
        ).contains(x) by {
            let u = choose|u: int| 0 <= u < indices.len() && indices[u] as int == x;
            assert(unsorted.contains(unsorted[u]));
            assert(unsorted.to_multiset().count(unsorted[u]) > 0);
            assert(sorted.contains(unsorted[u]));
            let t = choose|t: int| 0 <= t < sorted.len() && sorted[t] == unsorted[u];
            assert(firsts(sorted)[t] as int == x);
        }
        assert(index_set(firsts(sorted)) =~= index_set(indices));
    }

    /// The two halves of a sorted partition: what each recursive build covers, and how
    /// those sets sit against the radius.
    proof fn lemma_split_parts(
        &self,
        root: usize,
        indices: Seq<usize>,
        sorted: Seq<(usize, u64)>,
        split: int,
        ia: Seq<usize>,
        ea: Seq<usize>,
        rest_a: Seq<usize>,
        rest_b: Seq<usize>,
        ic: Option<usize>,
        ec: Option<usize>,
        radius: u64,
    )
        requires
            self.lens_ok(),
            root < self.data@.len(),
            forall|k: int| 0 <= k < indices.len() ==> indices[k] < self.data@.len(),
            indices.no_duplicates(),
            !indices.contains(root),
            sorted.len() == indices.len(),
            indices.len() >= 2,
            forall|t: int|
                0 <= t < sorted.len() ==> #[trigger] sorted[t].1 == self.dist_ij(
                    root as int,
                    sorted[t].0 as int,
                ),
            firsts(sorted).no_duplicates(),
            index_set(firsts(sorted)) == index_set(indices),
            forall|i: int, j: int| 0 <= i <= j < sorted.len() ==> sorted[i].1 <= sorted[j].1,
            0 <= split < sorted.len(),
            split == 0 || sorted[split - 1].1 != sorted[split].1,
            radius == sorted[split].1,
            split <= (sorted.len() + 1) / 2 < sorted.len(),
            sorted[split].1 == sorted[((sorted.len() + 1) / 2) as int].1,
            ia == firsts(sorted.subrange(0, split)),
            ea == firsts(sorted.subrange(split, sorted.len() as int)),
            ia.len() > 0 ==> ic == Some(ia.last()) && rest_a == ia.drop_last(),
            ia.len() == 0 ==> ic.is_none() && rest_a == ia,
            ec == Some(ea.last()),
            rest_b == ea.drop_last(),
        ensures
            rest_a.no_duplicates(),
            rest_b.no_duplicates(),
            forall|k: int| 0 <= k < rest_a.len() ==> rest_a[k] < self.data@.len(),
            forall|k: int| 0 <= k < rest_b.len() ==> rest_b[k] < self.data@.len(),
            ic matches Some(a) ==> a < self.data@.len() && !rest_a.contains(a),
            ec matches Some(b) && b < self.data@.len() && !rest_b.contains(b),
            built_set(ic, rest_a).disjoint(built_set(ec, rest_b)),
            !built_set(ic, rest_a).contains(root as int),
            !built_set(ec, rest_b).contains(root as int),
            index_set(indices).insert(root as int) == built_set(ic, rest_a) + built_set(
                ec,
                rest_b,
            ) + set![root as int],
            forall|j: int| #[trigger]
                built_set(ic, rest_a).contains(j) ==> self.dist_ij(root as int, j) < radius,
            forall|j: int| #[trigger]
                built_set(ec, rest_b).contains(j) ==> self.dist_ij(root as int, j) >= radius,
            built_set(ic, rest_a).finite(),
            built_set(ec, rest_b).finite(),
            built_set(ic, rest_a).len() <= indices.len(),
            built_set(ec, rest_b).len() <= indices.len(),
            index_set(indices).insert(root as int).len() == indices.len() + 1,
            self.closer_in(root as int, index_set(indices), radius).finite(),
            self.closer_in(root as int, index_set(indices), radius).len() <= (indices.len() + 1) / 2,
            self.within_in(root as int, index_set(indices), radius).len() >= (indices.len() + 1) / 2 + 1,
            exists|j: int| #[trigger] built_set(ec, rest_b).contains(j) && self.dist_ij(root as int, j) == radius,
    {
        let m = sorted.len() as int;
        let fs = firsts(sorted);
        let c = (m + 1) / 2;
        // the split sizes
        lemma_index_set_len(indices);
        lemma_index_set_len(ia);
        assert(ia =~= fs.subrange(0, split));
        assert(ia.no_duplicates());
        assert forall|j: int| #[trigger] self.closer_in(root as int, index_set(indices), radius).contains(j)
            implies index_set(ia).contains(j) by {
            assert(index_set(fs).contains(j));
            let t = choose|t: int| 0 <= t < fs.len() && fs[t] as int == j;
            if t >= split {
                assert(sorted[split].1 <= sorted[t].1);
            }
            assert(ia[t] == fs[t]);
        }
        lemma_len_subset(self.closer_in(root as int, index_set(indices), radius), index_set(ia));
        let low = fs.subrange(0, c + 1);
        assert(low.no_duplicates());
        lemma_index_set_len(low);
        assert forall|j: int| #[trigger] index_set(low).contains(j) implies self.within_in(
            root as int,
            index_set(indices),
            radius,
        ).contains(j) by {
            let t = choose|t: int| 0 <= t < low.len() && low[t] as int == j;
            assert(low[t] == fs[t]);
            assert(index_set(fs).contains(j));
            assert(sorted[t].1 <= sorted[c].1);
        }
        assert(self.within_in(root as int, index_set(indices), radius).subset_of(index_set(indices)));
        lemma_len_subset(self.within_in(root as int, index_set(indices), radius), index_set(indices));
        lemma_len_subset(index_set(low), self.within_in(root as int, index_set(indices), radius));
        let w = sorted[split].0 as int;
        assert(ea[0] == fs[split]);
        assert(index_set(ea).contains(w));
        assert(ia =~= fs.subrange(0, split));
        assert(ea =~= fs.subrange(split, m));
        assert(ia.no_duplicates());
        assert(ea.no_duplicates());
        assert(ea.len() > 0);
        let b = ea.last();
        assert(ea =~= rest_b.push(b));
        lemma_index_set_push(rest_b, b);
        assert(built_set(ec, rest_b) == index_set(ea));
        if ia.len() > 0 {
            assert(ia =~= rest_a.push(ia.last()));
            lemma_index_set_push(rest_a, ia.last());
            assert(built_set(ic, rest_a) == index_set(ia));
        } else {
            assert(index_set(ia) =~= Set::empty());
            assert(built_set(ic, rest_a) == index_set(ia));
        }
        lemma_index_set_len(ia);
        lemma_index_set_len(ea);
        lemma_index_set_len(indices);
        assert(forall|k: int| 0 <= k < ia.len() ==> ia[k] == fs[k]);
        assert(forall|k: int| 0 <= k < ea.len() ==> ea[k] == fs[split + k]);
        assert forall|k: int| 0 <= k < m implies fs[k] < self.data@.len() by {
            assert(index_set(fs).contains(fs[k] as int));
            assert(index_set(indices).contains(fs[k] as int));
        }
        assert forall|j: int| #[trigger] index_set(ia).contains(j) implies self.dist_ij(
            root as int,
            j,
        ) < radius by {
            let k = choose|k: int| 0 <= k < ia.len() && ia[k] as int == j;
            assert(sorted[k].1 <= sorted[split - 1].1);
            assert(sorted[split - 1].1 <= sorted[split].1);
        }
        assert forall|j: int| #[trigger] index_set(ea).contains(j) implies self.dist_ij(
            root as int,
            j,
        ) >= radius by {
            let k = choose|k: int| 0 <= k < ea.len() && ea[k] as int == j;
            assert(sorted[split].1 <= sorted[split + k].1);
        }
        assert forall|j: int| #[trigger] index_set(ia).contains(j) implies !index_set(
            ea,
        ).contains(j) by {
            let k = choose|k: int| 0 <= k < ia.len() && ia[k] as int == j;
            if index_set(ea).contains(j) {
                let k2 = choose|k2: int| 0 <= k2 < ea.len() && ea[k2] as int == j;
                assert(fs[k] == fs[split + k2]);
            }
        }
        assert(!index_set(ia).contains(root as int)) by {
            if index_set(ia).contains(root as int) {
                let k = choose|k: int| 0 <= k < ia.len() && ia[k] as int == root as int;
                assert(index_set(fs).contains(root as int));
                assert(index_set(indices).contains(root as int));
                let u = choose|u: int| 0 <= u < indices.len() && indices[u] as int == root as int;
                assert(indices.contains(root));
            }
        }
        assert(!index_set(ea).contains(root as int)) by {
            if index_set(ea).contains(root as int) {
                let k = choose|k: int| 0 <= k < ea.len() && ea[k] as int == root as int;
                assert(index_set(fs).contains(fs[split + k] as int));
                assert(index_set(indices).contains(root as int));
                let u = choose|u: int| 0 <= u < indices.len() && indices[u] as int == root as int;
                assert(indices.contains(root));
            }
        }
        assert forall|j: int| #[trigger] index_set(indices).contains(j) implies (index_set(
            ia,
        ) + index_set(ea)).contains(j) by {
            assert(index_set(fs).contains(j));
            let k = choose|k: int| 0 <= k < fs.len() && fs[k] as int == j;
            if k < split {
                assert(ia[k] == fs[k]);
            } else {
                assert(ea[k - split] == fs[k]);
            }
        }
        assert forall|j: int| #[trigger] (index_set(ia) + index_set(ea)).contains(j) implies index_set(
            indices,
        ).contains(j) by {
            if index_set(ia).contains(j) {
                let k = choose|k: int| 0 <= k < ia.len() && ia[k] as int == j;
                assert(index_set(fs).contains(fs[k] as int));
            } else {
                let k = choose|k: int| 0 <= k < ea.len() && ea[k] as int == j;
                assert(index_set(fs).contains(fs[split + k] as int));
            }
        }
        assert(index_set(indices).insert(root as int) =~= index_set(ia) + index_set(ea) + set![
            root as int,
        ]);
        assert(!index_set(indices).contains(root as int)) by {
            if index_set(indices).contains(root as int) {
                let u = choose|u: int| 0 <= u < indices.len() && indices[u] as int == root as int;
                assert(indices.contains(root));
            }
        }
        assert(rest_b.no_duplicates()) by {
            assert(forall|k: int| 0 <= k < rest_b.len() ==> rest_b[k] == ea[k]);
        }
        assert(!rest_b.contains(b)) by {
            if rest_b.contains(b) {
                let k = choose|k: int| 0 <= k < rest_b.len() && rest_b[k] == b;
                assert(ea[k] == ea[ea.len() - 1]);
            }
        }
        assert(forall|k: int| 0 <= k < rest_b.len() ==> rest_b[k] == ea[k]);
        if ia.len() > 0 {
            assert(forall|k: int| 0 <= k < rest_a.len() ==> rest_a[k] == ia[k]);
            assert(!rest_a.contains(ia.last())) by {
                if rest_a.contains(ia.last()) {
                    let k = choose|k: int| 0 <= k < rest_a.len() && rest_a[k] == ia.last();
                    assert(ia[k] == ia[ia.len() - 1]);
                }
            }
        }
    }

    /// Joining two built halves under `root` gives a sound subtree over all of them.
    proof fn lemma_build_join(
        before: &Self,
        after_a: &Self,
        after_b: &Self,
        fin: &Self,
        root: usize,
        ic: Option<usize>,
        b: usize,
        sa: Set<int>,
        sb: Set<int>,
        s_all: Set<int>,
        m: int,
    )
        requires
            before.lens_ok(),
            root < before.data@.len(),
            Self::unchanged_outside(before, after_a, sa),
            Self::unchanged_outside(after_a, after_b, sb),
            Self::unchanged_outside(after_b, fin, set![root as int]),
            fin.lens_ok(),
            forall|x: int| #[trigger]
                sa.contains(x) ==> {
                    &&& after_a.node_ok(x)
                    &&& after_a.height_ok(x)
                    &&& after_a.sub@[x].subset_of(sa)
                    &&& after_a.split_ok(x, after_a.sub@[x].remove(x))
                },
            forall|x: int| #[trigger]
                sb.contains(x) ==> {
                    &&& after_b.node_ok(x)
                    &&& after_b.height_ok(x)
                    &&& after_b.sub@[x].subset_of(sb)
                    &&& after_b.split_ok(x, after_b.sub@[x].remove(x))
                },
            ic matches Some(a) ==> {
                &&& after_a.sub@[a as int] == sa
                &&& after_a.nodes@[a as int].parent == Some(root)
                &&& sa.contains(a as int)
            },
            ic.is_none() ==> sa == Set::<int>::empty(),
            after_b.sub@[b as int] == sb,
            after_b.nodes@[b as int].parent == Some(root),
            sb.contains(b as int),
            sa.disjoint(sb),
            !sa.contains(root as int),
            !sb.contains(root as int),
            s_all == sa + sb + set![root as int],
            forall|j: int| #[trigger]
                sa.contains(j) ==> before.dist_ij(root as int, j) < fin.nodes@[root as int].radius,
            forall|j: int| #[trigger]
                sb.contains(j) ==> before.dist_ij(root as int, j) >= fin.nodes@[root as int].radius,
            s_all.len() == m + 1,
            sa.len() <= m,
            sb.len() <= m,
            sa.finite(),
            sb.finite(),
            forall|j: int| #[trigger] s_all.contains(j) ==> 0 <= j < before.data@.len(),
            fin.nodes@[root as int].interior == ic,
            fin.nodes@[root as int].exterior == Some(b),
            fin.nodes@[root as int].height as int == if fin.child_height(ic) >= fin.child_height(
                Some(b),
            ) {
                fin.child_height(ic)
            } else {
                fin.child_height(Some(b))
            },
            fin.sub@[root as int] == s_all,
        ensures
            Self::unchanged_outside(before, fin, s_all),
            forall|x: int| #[trigger]
                s_all.contains(x) ==> {
                    &&& fin.node_ok(x)
                    &&& fin.height_ok(x)
                    &&& fin.sub@[x].subset_of(s_all)
                },
            forall|x: int| #[trigger]
                s_all.contains(x) && x != root ==> fin.split_ok(x, fin.sub@[x].remove(x)),
    {
        Self::lemma_unchanged_trans(before, after_a, after_b, sa, sb, s_all);
        Self::lemma_unchanged_trans(before, after_b, fin, s_all, set![root as int], s_all);
        assert forall|x: int| #[trigger] sa.contains(x) implies {
            &&& fin.node_ok(x)
            &&& fin.height_ok(x)
            &&& fin.sub@[x].subset_of(s_all)
            &&& fin.split_ok(x, fin.sub@[x].remove(x))
        } by {
            assert(after_a.node_ok(x));
            assert(after_a.height_ok(x));
            let nd_x = after_a.nodes@[x];
            if let Some(c) = nd_x.interior {
                assert(after_a.sub@[c as int].contains(c as int));
                assert(sa.contains(c as int));
                assert(after_b.nodes@[c as int] == after_a.nodes@[c as int]);
                assert(fin.nodes@[c as int] == after_b.nodes@[c as int]);
            }
            if let Some(c) = nd_x.exterior {
                assert(after_a.sub@[c as int].contains(c as int));
                assert(sa.contains(c as int));
                assert(after_b.nodes@[c as int] == after_a.nodes@[c as int]);
                assert(fin.nodes@[c as int] == after_b.nodes@[c as int]);
            }
            assert(after_b.nodes@[x] == after_a.nodes@[x]);
            assert(Self::same_around(after_a, after_b, x));
            Self::lemma_frame(after_a, after_b, x);
            Self::lemma_split_frame(after_a, after_b, x);
            assert(fin.nodes@[x] == after_b.nodes@[x]);
            assert(Self::same_around(after_b, fin, x));
            Self::lemma_frame(after_b, fin, x);
            Self::lemma_split_frame(after_b, fin, x);
        }
        assert forall|x: int| #[trigger] sb.contains(x) implies {
            &&& fin.node_ok(x)
            &&& fin.height_ok(x)
            &&& fin.sub@[x].subset_of(s_all)
            &&& fin.split_ok(x, fin.sub@[x].remove(x))
        } by {
            let nd_x = after_b.nodes@[x];
            if let Some(c) = nd_x.interior {
                assert(after_b.sub@[c as int].contains(c as int));
                assert(sb.contains(c as int));
                assert(fin.nodes@[c as int] == after_b.nodes@[c as int]);
            }
            if let Some(c) = nd_x.exterior {
                assert(after_b.sub@[c as int].contains(c as int));
                assert(sb.contains(c as int));
                assert(fin.nodes@[c as int] == after_b.nodes@[c as int]);
            }
            assert(fin.nodes@[x] == after_b.nodes@[x]);
            assert(Self::same_around(after_b, fin, x));
            Self::lemma_frame(after_b, fin, x);
            Self::lemma_split_frame(after_b, fin, x);
        }
        assert forall|x: int| #[trigger] s_all.contains(x) && x != root implies fin.split_ok(
            x,
            fin.sub@[x].remove(x),
        ) by {
            assert(sa.contains(x) || sb.contains(x));
        }
        if let Some(a) = ic {
            assert(after_b.nodes@[a as int] == after_a.nodes@[a as int]);
            assert(fin.nodes@[a as int] == after_b.nodes@[a as int]);
            assert(fin.sub@[a as int] == sa);
            assert(fin.height_ok(a as int));
        } else {
            assert(fin.child_set(ic) =~= sa);
        }
        assert(fin.nodes@[b as int] == after_b.nodes@[b as int]);
        assert(fin.sub@[b as int] == sb);
        assert(fin.height_ok(b as int));
        assert(fin.child_set(ic) == sa);
        assert(fin.child_set(Some(b)) == sb);
        assert(s_all =~= set![root as int] + sa + sb);
        assert(fin.data == before.data);
        assert forall|j: int| #[trigger] fin.child_set(ic).contains(j) implies fin.dist_ij(
            root as int,
            j,
        ) < fin.nodes@[root as int].radius by {
            assert(sa.contains(j));
        }
        assert forall|j: int| #[trigger] fin.child_set(Some(b)).contains(j) implies fin.dist_ij(
            root as int,
            j,
        ) >= fin.nodes@[root as int].radius by {
            assert(sb.contains(j));
        }
        assert(fin.node_ok(root as int));
        assert(fin.height_ok(root as int));
        assert forall|x: int| #[trigger] s_all.contains(x) implies {
            &&& fin.node_ok(x)
            &&& fin.height_ok(x)
            &&& fin.sub@[x].subset_of(s_all)
        } by {
            if x != root as int {
                assert(sa.contains(x) || sb.contains(x));
            }
        }
    }

    /// Rebuilds the subtree rooted at `root` over `root` and `indices` by repeated
    /// median partition. Nodes outside that set are left untouched.
    fn bulk_build_indices(&mut self, root: usize, indices: Vec<usize>)
        requires
            old(self).lens_ok(),
            root < old(self).data@.len(),
            forall|k: int| 0 <= k < indices@.len() ==> indices@[k] < old(self).data@.len(),
            indices@.no_duplicates(),
            !indices@.contains(root),
        ensures
            final(self).lens_ok(),
            Self::unchanged_outside(old(self), final(self), index_set(indices@).insert(root as int)),
            final(self).sub@[root as int] == index_set(indices@).insert(root as int),
            final(self).nodes@[root as int].parent == old(self).nodes@[root as int].parent,
            final(self).split_ok(root as int, index_set(indices@)),
            forall|x: int| #[trigger]
                index_set(indices@).insert(root as int).contains(x) ==> {
                    &&& final(self).node_ok(x)
                    &&& final(self).height_ok(x)
                    &&& final(self).sub@[x].subset_of(index_set(indices@).insert(root as int))
                    &&& final(self).split_ok(x, final(self).sub@[x].remove(x))
                },
        decreases indices@.len(),
    {
        let ghost s_all = index_set(indices@).insert(root as int);
        let ghost n = self.data@.len();
        let m = indices.len();
        proof {
            lemma_int_range(0, n as int);
        }
        if m == 0 {
            let mut nd = self.nodes[root];
            nd.height = 0;
            nd.interior = None;
            nd.exterior = None;
            self.nodes.set(root, nd);
            self.sub = Ghost(self.sub@.update(root as int, set![root as int]));
            proof {
                assert(s_all =~= set![root as int]);
                assert(set![root as int] =~= set![root as int] + self.child_set(None) + self.child_set(None));
                assert(self.node_ok(root as int));
                assert(set![root as int].len() == 1);
                assert(self.height_ok(root as int));
                lemma_index_set_len(indices@);
            }
            return ;
        }
        if m == 1 {
            let ext = indices[0];
            let d = self.node_distance(root, ext);
            let ghost start = *self;
            let mut ext_nd = self.nodes[ext];
            ext_nd.parent = Some(root);
            self.nodes.set(ext, ext_nd);
            let ghost parented = *self;
            proof {
                assert(Self::unchanged_outside(&start, &parented, set![ext as int]));
            }
            self.bulk_build_indices(ext, Vec::new());
            let ghost mid = *self;
            proof {
                assert(index_set(Seq::<usize>::empty()).insert(ext as int) =~= set![ext as int]);
                Self::lemma_unchanged_trans(&start, &parented, &mid, set![ext as int], set![ext as int], s_all);
            }
            let mut nd = self.nodes[root];
            nd.height = 1;
            nd.radius = d;
            nd.interior = None;
            nd.exterior = Some(ext);
            self.nodes.set(root, nd);
            self.sub = Ghost(self.sub@.update(root as int, set![root as int, ext as int]));
            proof {
                let e = index_set(Seq::<usize>::empty());
                assert(e.insert(ext as int) =~= set![ext as int]);
                assert(index_set(indices@) =~= set![ext as int]) by {
                    assert(indices@[0] == ext);
                }
                assert(s_all =~= set![root as int, ext as int]);
                assert(Self::unchanged_outside(&mid, self, set![root as int]));
                Self::lemma_unchanged_trans(&start, &mid, self, s_all, set![root as int], s_all);
                assert(mid.node_ok(ext as int));
                assert(mid.height_ok(ext as int));
                Self::lemma_frame(&mid, self, ext as int);
                assert(self.sub@[ext as int] =~= set![ext as int]);
                assert(set![root as int, ext as int] =~= set![root as int] + self.child_set(None)
                    + self.child_set(Some(ext)));
                assert(self.node_ok(root as int));
                assert(set![root as int, ext as int].len() == 2);
                assert(self.height_ok(root as int));
                assert(set![ext as int].len() == 1);
                assert(self.split_ok(root as int, index_set(indices@)));
                assert(self.sub@[root as int].remove(root as int) =~= index_set(indices@));
                assert(mid.split_ok(ext as int, mid.sub@[ext as int].remove(ext as int)));
                Self::lemma_split_frame(&mid, self, ext as int);
            }
            return ;
        }
        // Distances from the root to every candidate, in ascending order.

        let mut pairs: Vec<(usize, u64)> = Vec::with_capacity(m);
        let mut k: usize = 0;
        while k < m
            invariant
                k <= m,
                m == indices@.len(),
                self.lens_ok(),
                root < self.data@.len(),
                forall|t: int| 0 <= t < indices@.len() ==> indices@[t] < self.data@.len(),
                pairs@.len() == k,
                forall|t: int|
                    0 <= t < k ==> #[trigger] pairs@[t] == (indices@[t], self.dist_ij(
                        root as int,
                        indices@[t] as int,
                    )),
            decreases m - k,
        {
            let idx = indices[k];
            let d = self.node_distance(root, idx);
            pairs.push((idx, d));
            k = k + 1;
        }
        let ghost unsorted = pairs@;
        sort_by_distance(&mut pairs);
        let ghost sorted = pairs@;
        proof {
            Self::lemma_sorted_pairs(self, root, indices@, unsorted, sorted);
        }
        let half: usize = m / 2 + m % 2;
        let mut split: usize = half;
        while split > 0 && pairs[split - 1].1 == pairs[split].1
            invariant
                0 <= split <= half < m,
                half == m / 2 + m % 2,
                pairs@ == sorted,
                sorted.len() == m,
                sorted[split as int].1 == sorted[half as int].1,
            decreases split,
        {
            split = split - 1;
        }
        let radius = pairs[split].1;
        let mut interior_indices: Vec<usize> = Vec::new();
        let mut exterior_indices: Vec<usize> = Vec::new();
        let mut t: usize = 0;
        while t < m
            invariant
                t <= m,
                split < m,
                pairs@ == sorted,
                sorted.len() == m,
                t <= split ==> interior_indices@ == firsts(sorted.subrange(0, t as int)),
                t <= split ==> exterior_indices@.len() == 0,
                t > split ==> interior_indices@ == firsts(sorted.subrange(0, split as int)),
                t > split ==> exterior_indices@ == firsts(
                    sorted.subrange(split as int, t as int),
                ),
            decreases m - t,
        {
            if t < split {
                interior_indices.push(pairs[t].0);
                proof {
                    assert(firsts(sorted.subrange(0, t + 1)) =~= firsts(
                        sorted.subrange(0, t as int),
                    ).push(sorted[t as int].0));
                }
            } else {
                exterior_indices.push(pairs[t].0);
                proof {
                    assert(firsts(sorted.subrange(split as int, t + 1)) =~= firsts(
                        sorted.subrange(split as int, t as int),
                    ).push(sorted[t as int].0));
                }
            }
            t = t + 1;
        }
        proof {
            assert(exterior_indices@ == firsts(sorted.subrange(split as int, m as int)));
        }
        let ghost before = *self;
        let ghost ia = interior_indices@;
        let ghost ea = exterior_indices@;
        let interior_center = interior_indices.pop();
        let exterior_center = exterior_indices.pop();
        let ghost rest_a = interior_indices@;
        let ghost rest_b = exterior_indices@;
        let ghost sa = built_set(interior_center, rest_a);
        let ghost sb = built_set(exterior_center, rest_b);
        proof {
            if split > 0 {
                assert(sorted[split - 1].1 != sorted[split as int].1);
            }
            assert((m + 1) / 2 == half);
            self.lemma_split_parts(
                root,
                indices@,
                sorted,
                split as int,
                ia,
                ea,
                rest_a,
                rest_b,
                interior_center,
                exterior_center,
                radius,
            );
        }
        if let Some(a) = interior_center {
            let mut a_nd = self.nodes[a];
            a_nd.parent = Some(root);
            self.nodes.set(a, a_nd);
            let ghost mid_a = *self;
            proof {
                assert(Self::unchanged_outside(&before, &mid_a, sa));
            }
            self.bulk_build_indices(a, interior_indices);
            proof {
                Self::lemma_unchanged_trans(&before, &mid_a, self, sa, sa, sa);
            }
        } else {
            proof {
                assert(Self::unchanged_outside(&before, self, sa));
            }
        }
        let ghost after_a = *self;
        let b = exterior_center.unwrap();
        let mut b_nd = self.nodes[b];
        b_nd.parent = Some(root);
        self.nodes.set(b, b_nd);
        let ghost mid_b = *self;
        proof {
            assert(Self::unchanged_outside(&after_a, &mid_b, sb));
        }
        self.bulk_build_indices(b, exterior_indices);
        proof {
            Self::lemma_unchanged_trans(&after_a, &mid_b, self, sb, sb, sb);
        }
        let ghost after_b = *self;
        assert(self.height_ok(b as int));
        let mut height: usize = self.nodes[b].height + 1;
        if let Some(a) = interior_center {
            assert(self.nodes@[a as int] == after_a.nodes@[a as int]);
            assert(after_a.height_ok(a as int));
            if self.nodes[a].height + 1 > height {
                height = self.nodes[a].height + 1;
            }
        }
        let mut nd = self.nodes[root];
        nd.radius = radius;
        nd.interior = interior_center;
        nd.exterior = exterior_center;
        nd.height = height;
        self.nodes.set(root, nd);
        self.sub = Ghost(self.sub@.update(root as int, s_all));
        proof {
            assert(Self::unchanged_outside(&after_b, self, set![root as int]));
            Self::lemma_build_join(
                &before,
                &after_a,
                &after_b,
                self,
                root,
                interior_center,
                b,
                sa,
                sb,
                s_all,
                m as int,
            );
            let fin = *self;
            let rest = index_set(indices@);
            lemma_index_set_len(indices@);
            assert(fin.data == before.data && fin.metric == before.metric);
            assert(fin.radius_of(root as int) == radius);
            assert(fin.closer_in(root as int, rest, radius) =~= before.closer_in(root as int, rest, radius));
            assert(fin.within_in(root as int, rest, radius) =~= before.within_in(root as int, rest, radius));
            assert(fin.nodes@[b as int] == after_b.nodes@[b as int]);
            assert(fin.sub@[b as int] == sb);
            let w = choose|j: int| #[trigger] built_set(exterior_center, rest_b).contains(j) && before.dist_ij(root as int, j) == radius;
            assert(fin.child_set(fin.exterior_of(root as int)).contains(w));
            assert(fin.split_ok(root as int, rest));
            assert(fin.sub@[root as int].remove(root as int) =~= rest);
        }
    }
}

// Insertion and rebalancing.
impl<Point, PointMetric> VpAvl<Point, PointMetric> where
    Point: VpTreeObject,
    PointMetric: Metric<PointType = Point::PointType>,
 {
    /// Collects the indices of the subtree at `root` after `progress`, children first.
    fn child_indices_impl(&self, root: usize, progress: &mut Vec<usize>)
        requires
            self.lens_ok(),
            forall|i: int| 0 <= i < self.data@.len() ==> #[trigger] self.node_ok(i),
            root < self.data@.len(),
        ensures
            final(progress)@.len() > old(progress)@.len(),
            final(progress)@.subrange(0, old(progress)@.len() as int) == old(progress)@,
            final(progress)@.subrange(
                old(progress)@.len() as int,
                final(progress)@.len() as int,
            ).no_duplicates(),
            index_set(
                final(progress)@.subrange(old(progress)@.len() as int, final(progress)@.len() as int),
            ) == self.sub@[root as int],
            final(progress)@.last() == root,
        decreases self.sub@[root as int].len(),
    {
        let ghost start = progress@;
        let ghost nd = self.nodes@[root as int];
        proof {
            assert(self.node_ok(root as int));
        }
        if let Some(inner) = self.nodes[root].interior {
            proof {
                self.lemma_child_smaller(root as int, inner);
            }
            self.child_indices_impl(inner, progress);
        }
        let ghost mid = progress@;
        if let Some(ext) = self.nodes[root].exterior {
            proof {
                self.lemma_child_smaller(root as int, ext);
            }
            self.child_indices_impl(ext, progress);
        }
        let ghost before_root = progress@;
        progress.push(root);
        proof {
            let ta = mid.subrange(start.len() as int, mid.len() as int);
            let tb = before_root.subrange(mid.len() as int, before_root.len() as int);
            let t = progress@.subrange(start.len() as int, progress@.len() as int);
            assert(t =~= ta + tb + seq![root]);
            assert(progress@.subrange(0, start.len() as int) =~= start) by {
                assert(mid.subrange(0, start.len() as int) == start);
                assert(before_root.subrange(0, mid.len() as int) == mid);
            }
            assert(index_set(ta) == self.child_set(nd.interior)) by {
                if nd.interior is None {
                    assert(ta.len() == 0);
                    assert(index_set(ta) =~= Set::empty());
                }
            }
            assert(index_set(tb) == self.child_set(nd.exterior)) by {
                if nd.exterior is None {
                    assert(tb.len() == 0);
                    assert(index_set(tb) =~= Set::empty());
                }
            }
            assert(ta.no_duplicates()) by {
                if nd.interior is None {
                    assert(ta.len() == 0);
                }
            }
            assert(tb.no_duplicates()) by {
                if nd.exterior is None {
                    assert(tb.len() == 0);
                }
            }
            lemma_index_set_concat(ta, tb);
            lemma_index_set_concat(ta + tb, seq![root]);
            assert(index_set(seq![root]) =~= set![root as int]) by {
                assert(seq![root][0] == root);
            }
            assert(self.sub@[root as int] =~= index_set(t));
            assert forall|i: int, j: int| 0 <= i < ta.len() && 0 <= j < tb.len() implies ta[i]
                != tb[j] by {
                assert(index_set(ta).contains(ta[i] as int));
                assert(index_set(tb).contains(tb[j] as int));
            }
            lemma_no_dup_in_concat(ta, tb);
            assert forall|i: int, j: int|
                0 <= i < (ta + tb).len() && 0 <= j < 1 implies (ta + tb)[i] != seq![root][j] by {
                assert(index_set(ta + tb).contains((ta + tb)[i] as int));
                let nd2 = self.nodes@[root as int];
                assert(self.child_ok(root as int, nd2.interior));
                assert(self.child_ok(root as int, nd2.exterior));
            }
            lemma_no_dup_in_concat(ta + tb, seq![root]);
        }
    }

    /// The indices of the subtree at `root`, each once, with `root` last.
    fn child_indices(&self, root: usize) -> (r: Vec<usize>)
        requires
            self.lens_ok(),
            forall|i: int| 0 <= i < self.data@.len() ==> #[trigger] self.node_ok(i),
            root < self.data@.len(),
        ensures
            r@.len() > 0,
            r@.no_duplicates(),
            index_set(r@) == self.sub@[root as int],
            r@.last() == root,
    {
        let mut chillum: Vec<usize> = Vec::new();
        self.child_indices_impl(root, &mut chillum);
        proof {
            assert(chillum@.subrange(0, chillum@.len() as int) =~= chillum@);
        }
        chillum
    }

    /// Recomputes the cached height of `root` from its children's.
    fn set_height(&mut self, root: usize, pend: Ghost<Set<int>>)
        requires
            old(self).wf_pending(pend@),
            root < old(self).data@.len(),
            pend@.contains(root as int),
            old(self).nodes@[root as int].interior matches Some(c) ==> !pend@.contains(c as int),
            old(self).nodes@[root as int].exterior matches Some(c) ==> !pend@.contains(c as int),
            old(self).nodes@[root as int].parent matches Some(q) ==> pend@.contains(q as int),
        ensures
            final(self).wf_pending(pend@.remove(root as int)),
            Self::unchanged_outside(old(self), final(self), set![root as int]),
            final(self).sub == old(self).sub,
            final(self).nodes@[root as int].parent == old(self).nodes@[root as int].parent,
            final(self).nodes@[root as int].interior == old(self).nodes@[root as int].interior,
            final(self).nodes@[root as int].exterior == old(self).nodes@[root as int].exterior,
    {
        let ghost before = *self;
        let n = self.data.len();
        proof {
            assert(self.node_ok(root as int));
            self.lemma_sub_size(root as int);
        }
        let interior_height: usize = match self.nodes[root].interior {
            Some(i) => {
                proof {
                    self.lemma_child_smaller(root as int, i);
                    assert(self.height_ok(i as int));
                }
                self.nodes[i].height + 1
            },
            None => 0,
        };
        let exterior_height: usize = match self.nodes[root].exterior {
            Some(i) => {
                proof {
                    self.lemma_child_smaller(root as int, i);
                    assert(self.height_ok(i as int));
                }
                self.nodes[i].height + 1
            },
            None => 0,
        };
        let mut nd = self.nodes[root];
        nd.height = if interior_height >= exterior_height {
            interior_height
        } else {
            exterior_height
        };
        self.nodes.set(root, nd);
        proof {
            let fin = *self;
            assert(Self::unchanged_outside(&before, &fin, set![root as int]));
            assert forall|x: int| 0 <= x < fin.data@.len() implies #[trigger] fin.node_ok(x) by {
                let ndx = before.nodes@[x];
                assert(before.node_ok(x));
                assert(before.child_ok(x, ndx.interior));
                assert(before.child_ok(x, ndx.exterior));
                Self::lemma_frame_links(&before, &fin, x);
            }
            assert forall|x: int|
                0 <= x < fin.data@.len() && !pend@.remove(root as int).contains(
                    x,
                ) implies #[trigger] fin.height_ok(x) by {
                let ndx = before.nodes@[x];
                assert(before.node_ok(x));
                assert(before.child_ok(x, ndx.interior));
                assert(before.child_ok(x, ndx.exterior));
                if x == root as int {
                    assert(fin.child_height(ndx.interior) == interior_height);
                    assert(fin.child_height(ndx.exterior) == exterior_height);
                    let ndf = fin.nodes@[x];
                    assert(ndf.interior == ndx.interior);
                    if let Some(c) = ndx.interior {
                        before.lemma_child_smaller(x, c);
                        assert(before.height_ok(c as int));
                    }
                    if let Some(c) = ndx.exterior {
                        before.lemma_child_smaller(x, c);
                        assert(before.height_ok(c as int));
                    }
                    before.lemma_sub_size(x);
                    assert(fin.sub@[x] == before.sub@[x]);
                    assert(fin.height_ok(x));
                } else {
                    assert(before.height_ok(x));
                    Self::lemma_frame_links(&before, &fin, x);
                }
            }
        }
    }

    /// Flattens the subtree at `root` and builds it again from scratch around `root`.
    fn rebuild_subtree(&mut self, root: usize, pend: Ghost<Set<int>>)
        requires
            old(self).wf_pending(pend@),
            root < old(self).data@.len(),
            forall|x: int| #[trigger] old(self).sub@[root as int].contains(x) ==> !pend@.contains(x),
            old(self).nodes@[root as int].parent matches Some(q) ==> pend@.contains(q as int),
        ensures
            final(self).wf_pending(pend@),
            Self::unchanged_outside(old(self), final(self), old(self).sub@[root as int]),
            final(self).sub@[root as int] == old(self).sub@[root as int],
            final(self).nodes@[root as int].parent == old(self).nodes@[root as int].parent,
            final(self).split_ok(root as int, old(self).sub@[root as int].remove(root as int)),
            forall|x: int| #[trigger]
                old(self).sub@[root as int].contains(x) ==> final(self).split_ok(
                    x,
                    final(self).subtree(x).remove(x),
                ),
    {
        let ghost before = *self;
        let ghost s = self.sub@[root as int];
        let mut children = self.child_indices(root);
        let ghost all = children@;
        let top = children.pop().unwrap();
        proof {
            assert(all =~= children@.push(top));
            lemma_index_set_push(children@, top);
            assert(!children@.contains(top)) by {
                if children@.contains(top) {
                    let k = choose|k: int| 0 <= k < children@.len() && children@[k] == top;
                    assert(all[k] == all[all.len() - 1]);
                }
            }
            assert(children@.no_duplicates()) by {
                assert(forall|k: int| 0 <= k < children@.len() ==> children@[k] == all[k]);
            }
            assert(self.node_ok(root as int));
            assert forall|k: int| 0 <= k < children@.len() implies children@[k]
                < self.data@.len() by {
                assert(index_set(all).contains(children@[k] as int)) by {
                    assert(all[k] == children@[k]);
                }
            }
        }
        self.bulk_build_indices(top, children);
        proof {
            let fin = *self;
            assert(index_set(children@).insert(top as int) == s);
            assert(index_set(children@) =~= s.remove(root as int));
            assert forall|x: int| #[trigger] s.contains(x) implies fin.split_ok(
                x,
                fin.subtree(x).remove(x),
            ) by {
                assert(index_set(children@).insert(top as int).contains(x));
            }
            assert forall|x: int| 0 <= x < fin.data@.len() && !s.contains(x) implies {
                &&& #[trigger] fin.node_ok(x)
                &&& (!pend@.contains(x) ==> fin.height_ok(x))
            } by {
                assert(fin.nodes@[x] == before.nodes@[x]);
                let ndx = before.nodes@[x];
                assert(before.node_ok(x));
                assert(before.child_ok(x, ndx.interior));
                assert(before.child_ok(x, ndx.exterior));
                if let Some(c) = ndx.interior {
                    if s.contains(c as int) && c != root {
                        before.lemma_parent_in_subtree(root as int, c as int);
                    }
                    if c != root {
                        assert(fin.nodes@[c as int] == before.nodes@[c as int]);
                    }
                }
                if let Some(c) = ndx.exterior {
                    if s.contains(c as int) && c != root {
                        before.lemma_parent_in_subtree(root as int, c as int);
                    }
                    if c != root {
                        assert(fin.nodes@[c as int] == before.nodes@[c as int]);
                    }
                }
                Self::lemma_frame_links(&before, &fin, x);
                if !pend@.contains(x) {
                    assert(before.height_ok(x));
                }
            }
            assert forall|i: int| 0 <= i < fin.data@.len() implies #[trigger] fin.node_ok(i) by {
                if !s.contains(i) {
                    assert(fin.node_ok(i));
                } else {
                    assert(index_set(children@).insert(top as int).contains(i));
                }
            }
            assert forall|i: int|
                0 <= i < fin.data@.len() && !pend@.contains(i) implies #[trigger] fin.height_ok(
                i,
            ) by {
                if !s.contains(i) {
                    assert(fin.node_ok(i));
                    assert(fin.height_ok(i));
                } else {
                    assert(index_set(children@).insert(top as int).contains(i));
                }
            }
            if fin.data@.len() > 0 {
                let t = before.root as int;
                if s.contains(t) && t != root as int {
                    before.lemma_parent_in_subtree(root as int, t);
                }
                if !s.contains(t) {
                    assert(fin.nodes@[t] == before.nodes@[t]);
                }
            }
        }
    }

    /// Rebuilds the subtree at `root` when one child is more than one level taller than
    /// the other.
    fn rebalance(&mut self, root: usize, pend: Ghost<Set<int>>)
        requires
            old(self).wf_pending(pend@),
            root < old(self).data@.len(),
            forall|x: int| #[trigger] old(self).sub@[root as int].contains(x) ==> !pend@.contains(x),
            old(self).nodes@[root as int].parent matches Some(q) ==> pend@.contains(q as int),
        ensures
            final(self).wf_pending(pend@),
            Self::unchanged_outside(old(self), final(self), old(self).sub@[root as int]),
            final(self).sub@[root as int] == old(self).sub@[root as int],
            final(self).nodes@[root as int].parent == old(self).nodes@[root as int].parent,
            !old(self).unbalanced(root as int) ==> *final(self) == *old(self),
            old(self).unbalanced(root as int) ==> final(self).split_ok(
                root as int,
                old(self).sub@[root as int].remove(root as int),
            ),
            old(self).unbalanced(root as int) ==> forall|x: int| #[trigger]
                old(self).sub@[root as int].contains(x) ==> final(self).split_ok(
                    x,
                    final(self).subtree(x).remove(x),
                ),
    {
        let ghost nd = self.nodes@[root as int];
        let n = self.data.len();
        proof {
            assert(self.node_ok(root as int));
            self.lemma_sub_size(root as int);
            assert(self.child_ok(root as int, nd.interior));
            assert(self.child_ok(root as int, nd.exterior));
            if let Some(c) = nd.interior {
                self.lemma_child_smaller(root as int, c);
                assert(self.height_ok(c as int));
            }
            if let Some(c) = nd.exterior {
                self.lemma_child_smaller(root as int, c);
                assert(self.height_ok(c as int));
            }
        }
        // a missing child counts as -1, so every height here is one more than cached
        let interior_height: usize = match self.nodes[root].interior {
            Some(i) => self.nodes[i].height + 1,
            None => 0,
        };
        let exterior_height: usize = match self.nodes[root].exterior {
            Some(i) => self.nodes[i].height + 1,
            None => 0,
        };
        if interior_height > exterior_height && interior_height - exterior_height > 1 {
            // the interior is too tall
            self.rebuild_subtree(root, pend);
        } else if exterior_height > interior_height && exterior_height - interior_height > 1 {
            // the exterior is too tall
            self.rebuild_subtree(root, pend);
        } else {
            proof {
                assert(Self::unchanged_outside(old(self), self, self.sub@[root as int]));
            }
        }
    }

    /// The distance from the element at node `i` to the location of `v`.
    closed spec fn dist_to(&self, i: int, v: Point) -> u64 {
        self.metric.dist(self.data@[i].loc(), v.loc())
    }

    closed spec fn is_child_of(&self, p: int, c: usize) -> bool {
        self.nodes@[p].interior == Some(c) || self.nodes@[p].exterior == Some(c)
    }

    /// Each of the first `k` entries of `path` after the first is a child of the one before.
    closed spec fn path_links(&self, path: Seq<usize>, k: int) -> bool {
        forall|j: int| 0 <= j && j + 1 < k ==> #[trigger] self.is_child_of(path[j] as int, path[j + 1])
    }

    /// No entry among the first `k` of `path` lies in the subtree of a later one.
    closed spec fn path_above(&self, path: Seq<usize>, k: int) -> bool {
        forall|j: int, i: int|
            0 <= j < i < k ==> !#[trigger] self.sub@[path[i] as int].contains(path[j] as int)
    }

    /// The descent of `v` from the root: each step takes the side its distance selects.
    closed spec fn path_sides(&self, path: Seq<usize>, v: Point) -> bool {
        forall|j: int|
            0 <= j && j + 1 < path.len() ==> {
                ||| (#[trigger] self.nodes@[path[j] as int]).interior == Some(path[j + 1])
                    && self.dist_to(path[j] as int, v) < self.nodes@[path[j] as int].radius
                ||| self.nodes@[path[j] as int].exterior == Some(path[j + 1]) && self.dist_to(
                    path[j] as int,
                    v,
                ) >= self.nodes@[path[j] as int].radius
            }
    }

    proof fn lemma_path_facts(&self, path: Seq<usize>, k: int)
        requires
            self.lens_ok(),
            forall|i: int| 0 <= i < self.data@.len() ==> #[trigger] self.node_ok(i),
            0 <= k <= path.len(),
            forall|j: int| 0 <= j < path.len() ==> path[j] < self.data@.len(),
            self.path_links(path, k),
            self.path_above(path, k),
        ensures
            forall|i: int, j: int| 0 <= i < k && 0 <= j < k && i != j ==> path[i] != path[j],
            forall|m: int|
                1 <= m < k ==> self.nodes@[path[m] as int].parent == Some(path[m - 1]),
    {
        assert forall|i: int, j: int| 0 <= i < k && 0 <= j < k && i != j implies path[i]
            != path[j] by {
            assert(self.node_ok(path[i] as int));
            assert(self.node_ok(path[j] as int));
            if i < j {
                assert(!self.sub@[path[j] as int].contains(path[i] as int));
            } else {
                assert(!self.sub@[path[i] as int].contains(path[j] as int));
            }
        }
        assert forall|m: int| 1 <= m < k implies self.nodes@[path[m] as int].parent == Some(
            path[m - 1],
        ) by {
            let j = m - 1;
            assert(path[j + 1] == path[m]);
            assert(self.is_child_of(path[j] as int, path[j + 1]));
            let p = path[m - 1] as int;
            assert(self.node_ok(p));
            assert(self.child_ok(p, self.nodes@[p].interior));
            assert(self.child_ok(p, self.nodes@[p].exterior));
        }
    }

    /// The state right after the new element `v` is attached below the last node of
    /// `path`, with every subtree along `path` grown by the new index.
    closed spec fn attached(before: &Self, after: &Self, path: Seq<usize>, v: Point) -> bool {
        let n = before.data@.len() as int;
        let cur = path.last() as int;
        let goes_in = before.dist_to(cur, v) < before.nodes@[cur].radius;
        let bc = before.nodes@[cur];
        let ac = after.nodes@[cur];
        &&& after.data@ == before.data@.push(v)
        &&& after.metric == before.metric
        &&& after.root == before.root
        &&& after.nodes@.len() == n + 1
        &&& after.nodes@[n].center == n
        &&& after.nodes@[n].parent == Some(cur as usize)
        &&& after.nodes@[n].interior.is_none()
        &&& after.nodes@[n].exterior.is_none()
        &&& after.nodes@[n].height == 0
        &&& forall|i: int| 0 <= i < n && i != cur ==> #[trigger] after.nodes@[i] == before.nodes@[i]
        &&& ac.center == bc.center
        &&& ac.radius == bc.radius
        &&& ac.height == bc.height
        &&& ac.parent == bc.parent
        &&& goes_in ==> ac.interior == Some(n as usize) && ac.exterior == bc.exterior
        &&& !goes_in ==> ac.exterior == Some(n as usize) && ac.interior == bc.interior
        &&& goes_in ==> bc.interior.is_none()
        &&& !goes_in ==> bc.exterior.is_none()
        &&& after.sub@.len() == n + 1
        &&& after.sub@[n] == set![n]
        &&& forall|i: int|
            0 <= i < n ==> #[trigger] after.sub@[i] == if index_set(path).contains(i) {
                before.sub@[i].insert(n)
            } else {
                before.sub@[i]
            }
    }

    /// A child of a node off the path is off the path; the child of a path node that the
    /// path does not take is off the path.
    proof fn lemma_off_path(before: &Self, path: Seq<usize>, i: int, c: usize)
        requires
            before.wf(),
            before.data@.len() > 0,
            1 <= path.len(),
            path[0] == before.root,
            forall|j: int| 0 <= j < path.len() ==> path[j] < before.data@.len(),
            before.path_links(path, path.len() as int),
            before.path_above(path, path.len() as int),
            0 <= i < before.data@.len(),
            before.is_child_of(i, c),
            !index_set(path).contains(i) || forall|j: int|
                0 <= j && j + 1 < path.len() && path[j] as int == i ==> #[trigger] path[j + 1] != c,
        ensures
            !index_set(path).contains(c as int),
    {
        let len = path.len() as int;
        before.lemma_path_facts(path, len);
        assert(before.node_ok(i));
        assert(before.child_ok(i, before.nodes@[i].interior));
        assert(before.child_ok(i, before.nodes@[i].exterior));
        if index_set(path).contains(c as int) {
            let m = choose|m: int| 0 <= m < len && path[m] as int == c as int;
            if m == 0 {
                assert(before.nodes@[before.root as int].parent.is_none());
            } else {
                assert(before.nodes@[path[m] as int].parent == Some(path[m - 1]));
                assert(path[m - 1] as int == i);
                assert(index_set(path).contains(i));
                let j = m - 1;
                assert(path[j + 1] == c);
            }
        }
    }

    proof fn lemma_attach(before: &Self, after: &Self, path: Seq<usize>, v: Point)
        requires
            before.wf(),
            before.data@.len() > 0,
            1 <= path.len(),
            path[0] == before.root,
            forall|j: int| 0 <= j < path.len() ==> path[j] < before.data@.len(),
            before.path_links(path, path.len() as int),
            before.path_above(path, path.len() as int),
            before.path_sides(path, v),
            Self::attached(before, after, path, v),
        ensures
            after.wf_pending(index_set(path)),
            after.path_links(path, path.len() as int),
            after.path_above(path, path.len() as int),
    {
        let n = before.data@.len() as int;
        let len = path.len() as int;
        let cur = path.last() as int;
        let ps = index_set(path);
        let goes_in = before.dist_to(cur, v) < before.nodes@[cur].radius;
        before.lemma_path_facts(path, len);
        lemma_int_range(0, n);
        lemma_int_range(0, n + 1);
        assert(path[len - 1] as int == cur);
        assert(ps.contains(cur));
        assert(forall|p: int, q: int|
            0 <= p < n && 0 <= q < n ==> #[trigger] after.dist_ij(p, q) == before.dist_ij(p, q));
        assert(forall|p: int| 0 <= p < n ==> #[trigger] after.dist_ij(p, n) == before.dist_to(p, v));
        assert(after.lens_ok()) by {
            assert forall|i: int| 0 <= i < after.nodes@.len() implies (
            #[trigger] after.nodes@[i]).center == i by {
                if i < n && i != cur {
                    assert(after.nodes@[i] == before.nodes@[i]);
                }
            }
        }
        // nodes off the path keep everything they read
        assert forall|i: int| 0 <= i < n && !ps.contains(i) implies {
            &&& #[trigger] after.node_ok(i)
            &&& after.height_ok(i)
        } by {
            let nd = before.nodes@[i];
            assert(after.nodes@[i] == nd);
            assert(before.node_ok(i));
            assert(before.height_ok(i));
            assert(before.child_ok(i, nd.interior));
            assert(before.child_ok(i, nd.exterior));
            if let Some(c) = nd.interior {
                Self::lemma_off_path(before, path, i, c);
                assert(after.nodes@[c as int] == before.nodes@[c as int]);
            }
            if let Some(c) = nd.exterior {
                Self::lemma_off_path(before, path, i, c);
                assert(after.nodes@[c as int] == before.nodes@[c as int]);
            }
            assert(Self::same_around(before, after, i));
            Self::lemma_frame(before, after, i);
        }
        // nodes on the path gain the new index
        assert forall|i: int| 0 <= i < n && ps.contains(i) implies #[trigger] after.node_ok(i) by {
            Self::lemma_attach_on_path(before, after, path, v, i);
        }
        assert(after.node_ok(n)) by {
            assert(set![n] =~= set![n] + after.child_set(None) + after.child_set(None));
            assert(set![n].subset_of(set_int_range(0, n + 1)));
        }
        assert(after.height_ok(n)) by {
            assert(set![n].len() == 1);
        }
        assert forall|i: int| 0 <= i < after.data@.len() implies #[trigger] after.node_ok(i) by {
            if i < n && !ps.contains(i) {
                assert(after.node_ok(i));
            }
        }
        assert forall|i: int|
            0 <= i < after.data@.len() && !ps.contains(i) implies #[trigger] after.height_ok(i) by {
            if i < n {
                assert(after.node_ok(i));
            }
        }
        let r = before.root as int;
        assert(path[0] as int == r);
        assert(ps.contains(r));
        assert(after.sub@[r] =~= set_int_range(0, n + 1));
        if r != cur {
            assert(after.nodes@[r] == before.nodes@[r]);
        }
        assert forall|j: int| 0 <= j && j + 1 < len implies #[trigger] after.is_child_of(
            path[j] as int,
            path[j + 1],
        ) by {
            assert(before.is_child_of(path[j] as int, path[j + 1]));
            assert(path[j] != path[len - 1]);
            assert(after.nodes@[path[j] as int] == before.nodes@[path[j] as int]);
        }
        assert forall|j: int, i: int| 0 <= j < i < len implies !#[trigger] after.sub@[
            path[i] as int
        ].contains(path[j] as int) by {
            assert(!before.sub@[path[i] as int].contains(path[j] as int));
        }
    }

    proof fn lemma_attach_on_path(before: &Self, after: &Self, path: Seq<usize>, v: Point, i: int)
        requires
            before.wf(),
            before.data@.len() > 0,
            1 <= path.len(),
            path[0] == before.root,
            forall|j: int| 0 <= j < path.len() ==> path[j] < before.data@.len(),
            before.path_links(path, path.len() as int),
            before.path_above(path, path.len() as int),
            before.path_sides(path, v),
            Self::attached(before, after, path, v),
            0 <= i < before.data@.len(),
            index_set(path).contains(i),
        ensures
            after.node_ok(i),
    {
        let n = before.data@.len() as int;
        let len = path.len() as int;
        let cur = path.last() as int;
        let ps = index_set(path);
        let goes_in = before.dist_to(cur, v) < before.nodes@[cur].radius;
        before.lemma_path_facts(path, len);
        lemma_int_range(0, n);
        lemma_int_range(0, n + 1);
        assert(path[len - 1] as int == cur);
        assert(forall|p: int, q: int|
            0 <= p < n && 0 <= q < n ==> #[trigger] after.dist_ij(p, q) == before.dist_ij(p, q));
        assert(forall|p: int| 0 <= p < n ==> #[trigger] after.dist_ij(p, n) == before.dist_to(p, v));
        let j = choose|j: int| 0 <= j < len && path[j] as int == i;
        let nd = before.nodes@[i];
        let an = after.nodes@[i];
        assert(before.node_ok(i));
        assert(before.child_ok(i, nd.interior));
        assert(before.child_ok(i, nd.exterior));
        assert(after.sub@[i] == before.sub@[i].insert(n));
        assert(forall|q: int| #[trigger] before.sub@[i].contains(q) ==> 0 <= q < n);
        assert(forall|q: int| #[trigger] before.child_set(nd.interior).contains(q) ==> before.sub@[i].contains(q));
        assert(forall|q: int| #[trigger] before.child_set(nd.exterior).contains(q) ==> before.sub@[i].contains(q));
        if i == cur {
            // the new element hangs directly below
            if let Some(c) = nd.interior {
                Self::lemma_off_path(before, path, i, c);
                assert(after.nodes@[c as int] == before.nodes@[c as int]);
                assert(after.sub@[c as int] == before.sub@[c as int]);
            }
            if let Some(c) = nd.exterior {
                Self::lemma_off_path(before, path, i, c);
                assert(after.nodes@[c as int] == before.nodes@[c as int]);
                assert(after.sub@[c as int] == before.sub@[c as int]);
            }
            assert(after.child_set(Some(n as usize)) == set![n]);
            if goes_in {
                assert(after.child_set(an.interior) == set![n]);
                assert(after.child_set(an.exterior) == before.child_set(nd.exterior));
                assert(before.child_set(nd.interior) =~= Set::empty());
                assert(after.sub@[i] =~= set![i] + after.child_set(an.interior) + after.child_set(
                    an.exterior,
                ));
                assert forall|q: int| #[trigger]
                    after.child_set(an.interior).contains(q) implies after.dist_ij(i, q)
                    < an.radius by {
                    assert(q == n);
                }
                assert forall|q: int| #[trigger]
                    after.child_set(an.exterior).contains(q) implies after.dist_ij(i, q)
                    >= an.radius by {
                    assert(before.child_set(nd.exterior).contains(q));
                }
            } else {
                assert(after.child_set(an.exterior) == set![n]);
                assert(after.child_set(an.interior) == before.child_set(nd.interior));
                assert(before.child_set(nd.exterior) =~= Set::empty());
                assert(after.sub@[i] =~= set![i] + after.child_set(an.interior) + after.child_set(
                    an.exterior,
                ));
                assert forall|q: int| #[trigger]
                    after.child_set(an.exterior).contains(q) implies after.dist_ij(i, q)
                    >= an.radius by {
                    assert(q == n);
                }
                assert forall|q: int| #[trigger]
                    after.child_set(an.interior).contains(q) implies after.dist_ij(i, q)
                    < an.radius by {
                    assert(before.child_set(nd.interior).contains(q));
                }
            }
            assert(after.node_ok(i));
        } else {
            // the path goes on through one child; the other is untouched
            assert(j + 1 < len);
            let c1 = path[j + 1];
            assert((#[trigger] before.nodes@[path[j] as int]).interior == Some(path[j + 1])
                && before.dist_to(path[j] as int, v) < before.nodes@[path[j] as int].radius
                || before.nodes@[path[j] as int].exterior == Some(path[j + 1]) && before.dist_to(
                path[j] as int,
                v,
            ) >= before.nodes@[path[j] as int].radius);
            assert(an == nd);
            assert(ps.contains(c1 as int));
            assert(c1 < n);
            assert(after.sub@[c1 as int] == before.sub@[c1 as int].insert(n));
            if c1 as int != cur {
                assert(after.nodes@[c1 as int] == before.nodes@[c1 as int]);
            }
            assert(after.nodes@[c1 as int].parent == before.nodes@[c1 as int].parent);
            if nd.interior == Some(c1) {
                if let Some(c2) = nd.exterior {
                    assert forall|jj: int|
                        0 <= jj && jj + 1 < len && path[jj] as int == i implies #[trigger] path[jj
                        + 1] != c2 by {
                        assert(jj == j);
                    }
                    Self::lemma_off_path(before, path, i, c2);
                    assert(after.nodes@[c2 as int] == before.nodes@[c2 as int]);
                    assert(after.sub@[c2 as int] == before.sub@[c2 as int]);
                }
                assert(after.child_set(an.interior) == before.child_set(nd.interior).insert(n));
                assert(after.child_set(an.exterior) == before.child_set(nd.exterior));
                assert forall|q: int| #[trigger]
                    after.child_set(an.interior).contains(q) implies after.dist_ij(i, q)
                    < an.radius by {
                    if q != n {
                        assert(before.child_set(nd.interior).contains(q));
                    }
                }
                assert forall|q: int| #[trigger]
                    after.child_set(an.exterior).contains(q) implies after.dist_ij(i, q)
                    >= an.radius by {
                    assert(before.child_set(nd.exterior).contains(q));
                }
            } else {
                if let Some(c2) = nd.interior {
                    assert forall|jj: int|
                        0 <= jj && jj + 1 < len && path[jj] as int == i implies #[trigger] path[jj
                        + 1] != c2 by {
                        assert(jj == j);
                    }
                    Self::lemma_off_path(before, path, i, c2);
                    assert(after.nodes@[c2 as int] == before.nodes@[c2 as int]);
                    assert(after.sub@[c2 as int] == before.sub@[c2 as int]);
                }
                assert(after.child_set(an.exterior) == before.child_set(nd.exterior).insert(n));
                assert(after.child_set(an.interior) == before.child_set(nd.interior));
                assert forall|q: int| #[trigger]
                    after.child_set(an.exterior).contains(q) implies after.dist_ij(i, q)
                    >= an.radius by {
                    if q != n {
                        assert(before.child_set(nd.exterior).contains(q));
                    }
                }
                assert forall|q: int| #[trigger]
                    after.child_set(an.interior).contains(q) implies after.dist_ij(i, q)
                    < an.radius by {
                    assert(before.child_set(nd.interior).contains(q));
                }
            }
            assert(after.sub@[i] =~= set![i] + after.child_set(an.interior) + after.child_set(
                an.exterior,
            ));
            assert(after.node_ok(i));
        }
    }

    /// Descends from `root` to where `value` belongs, attaches it as a new leaf, then
    /// walks back up recomputing heights and rebalancing each node on the way.
    fn insert_root(&mut self, root: usize, value: Point)
        requires
            old(self).wf(),
            old(self).data@.len() > 0,
            root == old(self).root,
        ensures
            final(self).wf(),
            final(self).data@ == old(self).data@.push(value),
            final(self).metric == old(self).metric,
    {
        let ghost v = value;
        let n = self.data.len();
        let mut path: Vec<usize> = Vec::new();
        path.push(root);
        let mut cur = root;
        let mut d = self.metric.distance(self.data[cur].location(), value.location());
        proof {
            assert(self.path_links(path@, 1));
            assert(self.path_above(path@, 1));
            assert(self.path_sides(path@, v));
        }
        loop
            invariant
                self.wf(),
                n == self.data@.len(),
                n > 0,
                root == self.root,
                value == v,
                1 <= path@.len(),
                path@[0] == root,
                path@.last() == cur,
                forall|j: int| 0 <= j < path@.len() ==> path@[j] < n,
                self.path_links(path@, path@.len() as int),
                self.path_above(path@, path@.len() as int),
                self.path_sides(path@, v),
                d == self.dist_to(cur as int, v),
            ensures
                self.wf(),
                1 <= path@.len(),
                path@[0] == root,
                path@.last() == cur,
                cur < n,
                forall|j: int| 0 <= j < path@.len() ==> path@[j] < n,
                self.path_links(path@, path@.len() as int),
                self.path_above(path@, path@.len() as int),
                self.path_sides(path@, v),
                d == self.dist_to(cur as int, v),
                d < self.nodes@[cur as int].radius ==> self.nodes@[cur as int].interior.is_none(),
                d >= self.nodes@[cur as int].radius ==> self.nodes@[cur as int].exterior.is_none(),
            decreases self.sub@[cur as int].len(),
        {
            proof {
                assert(self.node_ok(cur as int));
            }
            let radius = self.nodes[cur].radius;
            let next = if d < radius {
                self.nodes[cur].interior
            } else {
                self.nodes[cur].exterior
            };
            match next {
                Some(c) => {
                    proof {
                        self.lemma_child_smaller(cur as int, c);
                        let old_path = path@;
                        let len = old_path.len() as int;
                        let new_path = old_path.push(c);
                        assert(new_path[len - 1] == cur);
                        assert forall|j: int| 0 <= j && j + 1 < new_path.len() implies #[trigger] self.is_child_of(
                            new_path[j] as int,
                            new_path[j + 1],
                        ) by {
                            if j + 1 < len {
                                assert(self.is_child_of(old_path[j] as int, old_path[j + 1]));
                            }
                        }
                        assert forall|j: int, i: int| 0 <= j < i < new_path.len() implies !#[trigger] self.sub@[
                            new_path[i] as int
                        ].contains(new_path[j] as int) by {
                            if i < len {
                                assert(!self.sub@[old_path[i] as int].contains(old_path[j] as int));
                            } else if j < len - 1 {
                                assert(!self.sub@[old_path[len - 1] as int].contains(old_path[j] as int));
                                assert(self.sub@[c as int].subset_of(self.sub@[cur as int]));
                            }
                        }
                        assert forall|j: int| 0 <= j && j + 1 < new_path.len() implies {
                            ||| (#[trigger] self.nodes@[new_path[j] as int]).interior == Some(new_path[j + 1])
                                && self.dist_to(new_path[j] as int, v) < self.nodes@[new_path[j] as int].radius
                            ||| self.nodes@[new_path[j] as int].exterior == Some(new_path[j + 1]) && self.dist_to(
                                new_path[j] as int,
                                v,
                            ) >= self.nodes@[new_path[j] as int].radius
                        } by {
                            if j + 1 < len {
                                assert(self.nodes@[old_path[j] as int] == self.nodes@[new_path[j] as int]);
                            }
                        }
                    }
                    path.push(c);
                    cur = c;
                    d = self.metric.distance(self.data[cur].location(), value.location());
                },
                None => {
                    break ;
                },
            }
        }
        // attach the new leaf
        let ghost before = *self;
        let ghost pth = path@;
        let radius = self.nodes[cur].radius;
        let goes_in = d < radius;
        let half = radius / 2;
        let seed = if d < half {
            half
        } else if d > radius {
            radius
        } else {
            d
        };
        self.data.push(value);
        let mut leaf = Node::new_leaf(n, Some(cur));
        leaf.radius = seed;
        self.nodes.push(leaf);
        let mut cur_nd = self.nodes[cur];
        if goes_in {
            cur_nd.interior = Some(n);
        } else {
            cur_nd.exterior = Some(n);
        }
        self.nodes.set(cur, cur_nd);
        let ghost ps = index_set(pth);
        self.sub = Ghost(
            Seq::new(
                (n + 1) as nat,
                |i: int|
                    if i == n {
                        set![n as int]
                    } else if ps.contains(i) {
                        before.sub@[i].insert(n as int)
                    } else {
                        before.sub@[i]
                    },
            ),
        );
        proof {
            assert(pth[pth.len() - 1] == cur);
            assert(self.data@[n as int] == v);
            assert(Self::attached(&before, self, pth, v));
            Self::lemma_attach(&before, self, pth, v);
            assert(pth.subrange(0, pth.len() as int) =~= pth);
        }
        // walk back up
        let mut k: usize = path.len();
        while k > 0
            invariant
                0 <= k <= pth.len(),
                path@ == pth,
                pth[0] == root,
                root == self.root,
                self.wf_pending(index_set(pth.subrange(0, k as int))),
                self.data@ == before.data@.push(v),
                self.metric == before.metric,
                forall|j: int| 0 <= j < pth.len() ==> pth[j] < self.data@.len(),
                self.path_links(pth, k as int),
                self.path_above(pth, k as int),
            decreases k,
        {
            let ghost top = *self;
            k = k - 1;
            let p = path[k];
            let ghost pend = index_set(pth.subrange(0, k as int + 1));
            let ghost rest = index_set(pth.subrange(0, k as int));
            proof {
                self.lemma_path_facts(pth, k as int + 1);
                assert(pth.subrange(0, k as int + 1) =~= pth.subrange(0, k as int).push(p));
                lemma_index_set_push(pth.subrange(0, k as int), p);
                assert(!rest.contains(p as int)) by {
                    if rest.contains(p as int) {
                        let j = choose|j: int| 0 <= j < k && pth.subrange(0, k as int)[j] as int == p as int;
                        assert(pth[j] == pth[k as int]);
                    }
                }
                assert(rest == pend.remove(p as int));
                assert(self.node_ok(p as int));
                let nd = self.nodes@[p as int];
                assert forall|x: int| #[trigger] self.sub@[p as int].contains(x) implies !rest.contains(x) by {
                    if rest.contains(x) {
                        let j = choose|j: int| 0 <= j < k && pth.subrange(0, k as int)[j] as int == x;
                        assert(!self.sub@[pth[k as int] as int].contains(pth[j] as int));
                    }
                }
                if let Some(c) = nd.interior {
                    self.lemma_child_smaller(p as int, c);
                    assert(!pend.contains(c as int)) by {
                        if pend.contains(c as int) {
                            assert(rest.contains(c as int) || c == p);
                        }
                    }
                }
                if let Some(c) = nd.exterior {
                    self.lemma_child_smaller(p as int, c);
                    assert(!pend.contains(c as int)) by {
                        if pend.contains(c as int) {
                            assert(rest.contains(c as int) || c == p);
                        }
                    }
                }
                if k > 0 {
                    assert(self.nodes@[p as int].parent == Some(pth[k - 1]));
                    assert(rest.contains(pth[k - 1] as int)) by {
                        assert(pth.subrange(0, k as int)[k - 1] == pth[k - 1]);
                    }
                } else {
                    assert(p == self.root);
                }
            }
            self.set_height(p, Ghost(pend));
            let ghost mid = *self;
            proof {
                assert(forall|x: int| #[trigger] self.sub@[p as int].contains(x) ==> !rest.contains(x));
                if k > 0 {
                    assert(rest.contains(pth[k - 1] as int)) by {
                        assert(pth.subrange(0, k as int)[k - 1] == pth[k - 1]);
                    }
                }
            }
            self.rebalance(p, Ghost(rest));
            proof {
                let fin = *self;
                top.lemma_path_facts(pth, k as int + 1);
                assert forall|j: int| 0 <= j && j + 1 < k implies #[trigger] fin.is_child_of(
                    pth[j] as int,
                    pth[j + 1],
                ) by {
                    assert(top.is_child_of(pth[j] as int, pth[j + 1]));
                    assert(pth[j] != p);
                    assert(mid.nodes@[pth[j] as int] == top.nodes@[pth[j] as int]);
                    assert(!top.sub@[pth[k as int] as int].contains(pth[j] as int));
                    assert(!mid.sub@[p as int].contains(pth[j] as int));
                    assert(fin.nodes@[pth[j] as int] == mid.nodes@[pth[j] as int]);
                }
                assert forall|j: int, i: int| 0 <= j < i < k implies !#[trigger] fin.sub@[
                    pth[i] as int
                ].contains(pth[j] as int) by {
                    assert(!top.sub@[pth[i] as int].contains(pth[j] as int));
                    assert(!top.sub@[pth[k as int] as int].contains(pth[i] as int));
                    assert(!mid.sub@[p as int].contains(pth[i] as int));
                    assert(fin.nodes@[pth[i] as int] == mid.nodes@[pth[i] as int]);
                    assert(fin.sub@[pth[i] as int] == mid.sub@[pth[i] as int]);
                }
            }
        }
        proof {
            assert(index_set(pth.subrange(0, 0)) =~= Set::empty());
        }
    }

    /// Adds `value` to the tree. The new element becomes a leaf; each node on its path
    /// then gets its height recomputed and is rebuilt if it became unbalanced.
    pub fn insert(&mut self, value: Point)
        requires
            old(self).wf(),
        ensures
            final(self).wf(),
            final(self)@ == old(self)@.push(value),
            final(self).spec_metric() == old(self).spec_metric(),
    {
        if self.data.len() > 1 {
            self.insert_root(self.root, value);
        } else if self.data.len() == 0 {
            self.data.push(value);
            self.nodes.push(Node::new_leaf(0, None));
            self.root = 0;
            self.sub = Ghost(Seq::empty().push(Set::empty().insert(0int)));
            proof {
                lemma_int_range(0, 1);
                assert(self.sub@[0] =~= set_int_range(0, 1));
                assert(self.sub@[0] =~= set![0int] + self.child_set(None) + self.child_set(None));
                assert(self.node_ok(0));
                assert(self.sub@[0].len() == 1);
                assert(self.height_ok(0));
            }
        } else {
            let root = self.root;
            let root_dist = self.metric.distance(self.data[root].location(), value.location());
            let ghost before = *self;
            proof {
                assert(self.node_ok(root as int));
            }
            let mut nd = self.nodes[root];
            nd.radius = root_dist / 2;
            self.nodes.set(root, nd);
            proof {
                assert(self.node_ok(root as int)) by {
                    assert(before.sub@[root as int] =~= set![root as int]) by {
                        lemma_int_range(0, 1);
                        assert(set_int_range(0, 1) =~= set![0int]);
                    }
                    assert(before.child_set(nd.interior) =~= Set::empty()) by {
                        if let Some(c) = nd.interior {
                            assert(before.child_ok(root as int, nd.interior));
                        }
                    }
                    assert(before.child_set(nd.exterior) =~= Set::empty()) by {
                        if let Some(c) = nd.exterior {
                            assert(before.child_ok(root as int, nd.exterior));
                        }
                    }
                }
                assert(self.height_ok(root as int)) by {
                    assert(before.height_ok(root as int));
                }
            }
            self.insert_root(root, value);
        }
    }
}

// Removal.
impl<Point, PointMetric> VpAvl<Point, PointMetric> where
    Point: VpTreeObject,
    PointMetric: Metric<PointType = Point::PointType>,
 {
    /// Removes the element at storage index `index` by moving the last element into its
    /// slot, then rebuilds the whole tree.
    fn remove_index(&mut self, index: usize) -> (r: Point)
        requires
            old(self).wf(),
            index < old(self).data@.len(),
        ensures
            final(self).wf(),
            r == old(self)@[index as int],
            final(self)@ == old(self)@.update(index as int, old(self)@.last()).drop_last(),
            final(self).metric == old(self).metric,
    {
        let removed = self.data.swap_remove(index);
        self.nodes.pop();
        let n = self.data.len();
        self.sub = Ghost(Seq::new(n as nat, |k: int| set![k]));
        proof {
            assert forall|i: int| 0 <= i < self.nodes@.len() implies (#[trigger] self.nodes@[i]).center
                == i by {
                assert(old(self).nodes@[i].center == i);
            }
        }
        self.rebuild_all();
        removed
    }
}

impl<Point, PointMetric> VpAvl<Point, PointMetric> where
    Point: VpTreeObject,
    Point::PointType: PartialEq,
    PointMetric: Metric<PointType = Point::PointType>,
 {
    /// What `remove(value)` guarantees: either an element whose location equals `value`
    /// was taken out (the last element moving into its slot), or no location equals
    /// `value` and nothing changed.
    pub open spec fn remove_post(
        before: &Self,
        after: &Self,
        value: Point::PointType,
        r: Option<Point>,
    ) -> bool {
        &&& after.wf()
        &&& after.spec_metric() == before.spec_metric()
        &&& match r {
            Some(e) => exists|i: int|
                0 <= i < before@.len() && e == before@[i] && before@[i].loc().eq_spec(&value)
                    && after@ == before@.update(i, before@.last()).drop_last(),
            None => {
                &&& after@ == before@
                &&& forall|i: int| 0 <= i < before@.len() ==> !(#[trigger] before@[i].loc()).eq_spec(&value)
            },
        }
    }

    /// The first stored index whose location equals `value`, if any. The nearest-first
    /// search among the elements at distance 0 finds it at once for a true metric; a
    /// pass over the storage backs the search up, so a metric that breaks the axioms
    /// cannot hide a match.
    fn find_location(&self, value: &Point::PointType) -> (r: Option<usize>)
        requires
            self.wf(),
            Point::PointType::obeys_eq_spec(),
        ensures
            r matches Some(i) ==> i < self@.len() && self@[i as int].loc().eq_spec(value),
            r is None ==> forall|i: int| 0 <= i < self@.len() ==> !(#[trigger] self@[i].loc()).eq_spec(value),
    {
        let n = self.data.len();
        let mut it = KnnIndexIterator::new(value, self);
        let mut steps: usize = 0;
        while steps < n
            invariant
                it.inv(),
                it.tree() == *self,
                n == self@.len(),
                Point::PointType::obeys_eq_spec(),
            decreases n - steps,
        {
            match it.next() {
                Some((i, d)) => {
                    if d != 0 {
                        break;
                    }
                    let loc = self.data[i].location();
                    if loc.eq(value) {
                        return Some(i);
                    }
                },
                None => {
                    break;
                },
            }
            steps = steps + 1;
        }
        let mut k: usize = 0;
        while k < n
            invariant
                k <= n,
                n == self@.len(),
                Point::PointType::obeys_eq_spec(),
                forall|j: int| 0 <= j < k ==> !(#[trigger] self@[j].loc()).eq_spec(value),
            decreases n - k,
        {
            let loc = self.data[k].location();
            if loc.eq(value) {
                return Some(k);
            }
            k = k + 1;
        }
        None
    }

    /// Removes an element whose location equals `value` and returns it, or returns
    /// `None` when there is none. Among several, the first one the nearest-first search
    /// reaches is taken. The last element takes the removed one's storage slot, and the
    /// tree is rebuilt.
    pub fn remove(&mut self, value: &Point::PointType) -> (r: Option<Point>)
        requires
            old(self).wf(),
            Point::PointType::obeys_eq_spec(),
        ensures
            Self::remove_post(old(self), final(self), *value, r),
    {
        match self.find_location(value) {
            Some(i) => {
                let e = self.remove_index(i);
                Some(e)
            },
            None => None,
        }
    }

    /// Insert then remove: inserting `v` and then removing its location gives back an
    /// element at that location and a tree of the same size; when equal locations are
    /// identical, slot for slot the locations are those of the original tree, so every
    /// brute-force query answers the same.
    pub proof fn lemma_insert_remove_round_trip(
        t: &Self,
        v: Point,
        t2: &Self,
        r: Option<Point>,
        t3: &Self,
    )
        requires
            t.wf(),
            v.loc().eq_spec(&v.loc()),
            t2.wf(),
            t2@ == t@.push(v),
            t2.spec_metric() == t.spec_metric(),
            Self::remove_post(t2, t3, v.loc(), r),
        ensures
            r matches Some(e) && e.loc().eq_spec(&v.loc()),
            t3@.len() == t@.len(),
            (forall|x: Point::PointType, y: Point::PointType| #[trigger] x.eq_spec(&y) ==> x == y) ==> {
                &&& forall|j: int| 0 <= j < t@.len() ==> #[trigger] t3@[j].loc() == t@[j].loc()
                &&& forall|q: Point::PointType, j: int|
                    0 <= j < t@.len() ==> #[trigger] t3.dist_q(q, j) == t.dist_q(q, j)
            },
    {
        let n = t@.len() as int;
        assert(t2@[n] == v);
        if r is None {
            assert(!t2@[n].loc().eq_spec(&v.loc()));
        }
        let e = r.unwrap();
        let i = choose|i: int|
            0 <= i < t2@.len() && e == t2@[i] && t2@[i].loc().eq_spec(&v.loc()) && t3@ == t2@.update(
                i,
                t2@.last(),
            ).drop_last();
        if forall|x: Point::PointType, y: Point::PointType| #[trigger] x.eq_spec(&y) ==> x == y {
            assert(t2@[i].loc() == v.loc());
            assert forall|j: int| 0 <= j < n implies #[trigger] t3@[j].loc() == t@[j].loc() by {
                if j != i {
                    assert(t3@[j] == t@[j]);
                }
            }
            assert forall|q: Point::PointType, j: int|
                0 <= j < n implies #[trigger] t3.dist_q(q, j) == t.dist_q(q, j) by {
                assert(t3@[j].loc() == t@[j].loc());
            }
        }
    }
}

// Best-first nearest-neighbour search.
impl<Point, PointMetric> VpAvl<Point, PointMetric> where
    Point: VpTreeObject,
    PointMetric: Metric<PointType = Point::PointType>,
 {
    /// The indices covered by the pending prospects.
    closed spec fn pset(&self, ps: Seq<(usize, u64)>) -> Set<int> {
        Set::new(
            |j: int| exists|k: int| 0 <= k < ps.len() && #[trigger] self.sub@[ps[k].0 as int].contains(j),
        )
    }

    /// The state of a best-first search from `q`: prospects `ps` (subtrees with a lower
    /// bound on their distance), `ys` (indices with their exact distance, not yet
    /// handed out) and `es` (handed out) between them cover every index exactly once.
    closed spec fn search_ok(
        &self,
        q: Point::PointType,
        ps: Seq<(usize, u64)>,
        ys: Seq<(usize, u64)>,
        es: Seq<usize>,
    ) -> bool {
        let n = self.data@.len();
        &&& forall|k: int| 0 <= k < ps.len() ==> (#[trigger] ps[k]).0 < n
        &&& forall|m: int|
            0 <= m < ys.len() ==> (#[trigger] ys[m]).0 < n && ys[m].1 == self.dist_q(
                q,
                ys[m].0 as int,
            )
        &&& forall|k1: int, k2: int|
            0 <= k1 < ps.len() && 0 <= k2 < ps.len() && k1 != k2 ==> (#[trigger] self.sub@[
                ps[k1].0 as int
            ]).disjoint(#[trigger] self.sub@[ps[k2].0 as int])
        &&& forall|k: int, m: int|
            0 <= k < ps.len() && 0 <= m < ys.len() ==> !(#[trigger] self.sub@[
                ps[k].0 as int
            ]).contains((#[trigger] ys[m]).0 as int)
        &&& forall|m1: int, m2: int|
            0 <= m1 < ys.len() && 0 <= m2 < ys.len() && m1 != m2 ==> (#[trigger] ys[m1]).0 != (
            #[trigger] ys[m2]).0
        &&& es.no_duplicates()
        &&& forall|i: int| 0 <= i < es.len() ==> es[i] < n
        &&& forall|j: int|
            0 <= j < n ==> (#[trigger] index_set(es).contains(j) <==> !(self.pset(ps).contains(j)
                || index_set(firsts(ys)).contains(j)))
        &&& self.metric_holds_for(q) ==> {
            &&& forall|k: int, j: int|
                0 <= k < ps.len() && #[trigger] self.sub@[ps[k].0 as int].contains(j) ==> ps[k].1
                    <= self.dist_q(q, j)
            &&& self.is_nearest_prefix(q, es)
        }
    }

    /// The indices below `n` that `es` does not hold.
    closed spec fn remaining(n: nat, es: Seq<usize>) -> Set<int> {
        Set::new(|j: int| 0 <= j < n && !index_set(es).contains(j))
    }

    /// The lower bound a child's prospect gets from the distance `dc` of its parent's
    /// element to the query and the parent's radius `r`.
    closed spec fn interior_bound(dc: u64, r: u64) -> u64 {
        if dc > r {
            (dc - r) as u64
        } else {
            0
        }
    }

    closed spec fn exterior_bound(dc: u64, r: u64) -> u64 {
        if r > dc {
            (r - dc) as u64
        } else {
            0
        }
    }

    /// The prospects for the children of node `c`, interior first.
    closed spec fn child_prospects(&self, c: int, dc: u64) -> Seq<(usize, u64)> {
        let nd = self.nodes@[c];
        let a: Seq<(usize, u64)> = match nd.interior {
            Some(i) => seq![(i, Self::interior_bound(dc, nd.radius))],
            None => Seq::empty(),
        };
        let b: Seq<(usize, u64)> = match nd.exterior {
            Some(e) => seq![(e, Self::exterior_bound(dc, nd.radius))],
            None => Seq::empty(),
        };
        a + b
    }

    /// `e` is a prospect for a child of node `c`, with the bound its side calls for.
    closed spec fn kid_ok(&self, c: int, dc: u64, e: (usize, u64)) -> bool {
        let nd = self.nodes@[c];
        &&& e.0 < self.data@.len()
        &&& self.sub@[e.0 as int].subset_of(self.sub@[c])
        &&& !self.sub@[e.0 as int].contains(c)
        &&& {
            ||| nd.interior == Some(e.0) && e.1 == Self::interior_bound(dc, nd.radius)
            ||| nd.exterior == Some(e.0) && e.1 == Self::exterior_bound(dc, nd.radius)
        }
    }

    /// The search starts with the root as its only prospect.
    proof fn lemma_search_start(&self, q: Point::PointType)
        requires
            self.wf(),
        ensures
            self.data@.len() > 0 ==> self.search_ok(q, seq![(self.root, 0u64)], Seq::empty(), Seq::empty()),
            self.data@.len() == 0 ==> self.search_ok(q, Seq::empty(), Seq::empty(), Seq::empty()),
    {
        let n = self.data@.len() as int;
        let e = Seq::<usize>::empty();
        assert(index_set(e) =~= Set::empty());
        assert(firsts(Seq::<(usize, u64)>::empty()) =~= Seq::<usize>::empty());
        assert(index_set(firsts(Seq::<(usize, u64)>::empty())) =~= Set::empty());
        if n > 0 {
            let ps = seq![(self.root, 0u64)];
            assert forall|j: int| 0 <= j < n implies self.pset(ps).contains(j) by {
                assert(set_int_range(0, n).contains(j));
                assert(self.sub@[ps[0].0 as int].contains(j));
            }
        } else {
            assert(forall|j: int| !self.pset(Seq::<(usize, u64)>::empty()).contains(j));
        }
    }

    /// Expanding the prospect at position `k`: its element moves to the waiting queue
    /// with its exact distance, its children become prospects.
    proof fn lemma_expand(
        &self,
        q: Point::PointType,
        ps: Seq<(usize, u64)>,
        ys: Seq<(usize, u64)>,
        es: Seq<usize>,
        k: int,
    )
        requires
            self.wf(),
            self.search_ok(q, ps, ys, es),
            0 <= k < ps.len(),
        ensures
            self.search_ok(
                q,
                ps.remove(k) + self.child_prospects(ps[k].0 as int, self.dist_q(q, ps[k].0 as int)),
                ys.push((ps[k].0, self.dist_q(q, ps[k].0 as int))),
                es,
            ),
    {
        let n = self.data@.len() as int;
        let c = ps[k].0 as int;
        let lb = ps[k].1;
        let dc = self.dist_q(q, c);
        let nd = self.nodes@[c];
        let kids = self.child_prospects(c, dc);
        let rest = ps.remove(k);
        let ps2 = rest + kids;
        let ys2 = ys.push((c as usize, dc));
        assert(self.node_ok(c));
        assert(self.child_ok(c, nd.interior));
        assert(self.child_ok(c, nd.exterior));
        // the children's subtrees split the expanded one
        assert forall|w: int| 0 <= w < kids.len() implies #[trigger] self.kid_ok(c, dc, kids[w]) by {}
        assert forall|t1: int, t2: int|
            0 <= t1 < kids.len() && 0 <= t2 < kids.len() && t1 != t2 implies self.sub@[kids[t1].0 as int].disjoint(
            self.sub@[kids[t2].0 as int],
        ) by {}
        assert forall|i: int| 0 <= i < rest.len() implies #[trigger] rest[i] == ps[if i < k {
            i
        } else {
            i + 1
        }] by {}
        assert forall|i: int| 0 <= i < ps2.len() implies #[trigger] ps2[i] == if i < rest.len() {
            rest[i]
        } else {
            kids[i - rest.len()]
        } by {}
        // entries of the rest are disjoint from the expanded subtree
        assert forall|i: int| 0 <= i < rest.len() implies (#[trigger] self.sub@[rest[i].0 as int]).disjoint(
            self.sub@[c],
        ) by {
            let i0 = if i < k {
                i
            } else {
                i + 1
            };
            assert(self.sub@[ps[i0].0 as int].disjoint(self.sub@[ps[k].0 as int]));
        }
        assert forall|k1: int, k2: int|
            0 <= k1 < ps2.len() && 0 <= k2 < ps2.len() && k1 != k2 implies (#[trigger] self.sub@[
            ps2[k1].0 as int
        ]).disjoint(#[trigger] self.sub@[ps2[k2].0 as int]) by {
            if k1 < rest.len() && k2 < rest.len() {
                let a = if k1 < k {
                    k1
                } else {
                    k1 + 1
                };
                let b = if k2 < k {
                    k2
                } else {
                    k2 + 1
                };
                assert(self.sub@[ps[a].0 as int].disjoint(self.sub@[ps[b].0 as int]));
            } else if k1 < rest.len() {
                assert(self.sub@[rest[k1].0 as int].disjoint(self.sub@[c]));
                assert(self.sub@[kids[k2 - rest.len()].0 as int].subset_of(self.sub@[c]));
            } else if k2 < rest.len() {
                assert(self.sub@[rest[k2].0 as int].disjoint(self.sub@[c]));
                assert(self.sub@[kids[k1 - rest.len()].0 as int].subset_of(self.sub@[c]));
            } else {
                assert(self.sub@[kids[k1 - rest.len()].0 as int].disjoint(
                    self.sub@[kids[k2 - rest.len()].0 as int],
                ));
            }
        }
        assert forall|kk: int, m: int|
            0 <= kk < ps2.len() && 0 <= m < ys2.len() implies !(#[trigger] self.sub@[
            ps2[kk].0 as int
        ]).contains((#[trigger] ys2[m]).0 as int) by {
            if m < ys.len() {
                assert(ys2[m] == ys[m]);
                assert(!self.sub@[c].contains(ys[m].0 as int));
                if kk < rest.len() {
                    let a = if kk < k {
                        kk
                    } else {
                        kk + 1
                    };
                    assert(!self.sub@[ps[a].0 as int].contains(ys[m].0 as int));
                } else {
                    assert(self.sub@[kids[kk - rest.len()].0 as int].subset_of(self.sub@[c]));
                }
            } else {
                assert(ys2[m].0 as int == c);
                assert(self.sub@[c].contains(c));
                if kk < rest.len() {
                    assert(self.sub@[rest[kk].0 as int].disjoint(self.sub@[c]));
                }
            }
        }
        assert forall|m1: int, m2: int|
            0 <= m1 < ys2.len() && 0 <= m2 < ys2.len() && m1 != m2 implies (#[trigger] ys2[m1]).0
            != (#[trigger] ys2[m2]).0 by {
            if m1 < ys.len() && m2 < ys.len() {
                assert(ys2[m1] == ys[m1] && ys2[m2] == ys[m2]);
            } else if m1 < ys.len() {
                assert(!self.sub@[ps[k].0 as int].contains(ys[m1].0 as int));
                assert(self.sub@[c].contains(c));
            } else {
                assert(!self.sub@[ps[k].0 as int].contains(ys[m2].0 as int));
                assert(self.sub@[c].contains(c));
            }
        }
        // coverage is unchanged
        assert(firsts(ys2) =~= firsts(ys).push(c as usize));
        lemma_index_set_push(firsts(ys), c as usize);
        assert forall|j: int|
            0 <= j < n implies (self.pset(ps2).contains(j) || index_set(firsts(ys2)).contains(j)) == (
            self.pset(ps).contains(j) || index_set(firsts(ys)).contains(j)) by {
            assert(index_set(firsts(ys2)) == index_set(firsts(ys)).insert(c));
            if j == c {
                assert(index_set(firsts(ys2)).contains(j));
                assert(self.sub@[ps[k].0 as int].contains(j));
                assert(self.pset(ps).contains(j));
            }
            if self.pset(ps).contains(j) {
                let kk = choose|kk: int| 0 <= kk < ps.len() && #[trigger] self.sub@[ps[kk].0 as int].contains(j);
                if kk == k {
                    if j != c {
                        assert(self.sub@[c] == set![c] + self.child_set(nd.interior) + self.child_set(nd.exterior));
                        if self.child_set(nd.interior).contains(j) {
                            let a = nd.interior.unwrap();
                            assert(ps2[rest.len() as int].0 == a);
                            assert(self.sub@[ps2[rest.len() as int].0 as int].contains(j));
                        } else {
                            let b = nd.exterior.unwrap();
                            let t = kids.len() - 1;
                            assert(kids[t].0 == b);
                            assert(ps2[rest.len() + t].0 == b);
                            assert(self.sub@[ps2[rest.len() + t].0 as int].contains(j));
                        }
                    }
                } else {
                    let i = if kk < k {
                        kk
                    } else {
                        kk - 1
                    };
                    assert(ps2[i] == ps[kk]);
                    assert(self.sub@[ps2[i].0 as int].contains(j));
                }
            }
            if self.pset(ps2).contains(j) {
                let kk = choose|kk: int| 0 <= kk < ps2.len() && #[trigger] self.sub@[ps2[kk].0 as int].contains(j);
                if kk < rest.len() {
                    let a = if kk < k {
                        kk
                    } else {
                        kk + 1
                    };
                    assert(self.sub@[ps[a].0 as int].contains(j));
                } else {
                    assert(self.sub@[kids[kk - rest.len()].0 as int].subset_of(self.sub@[c]));
                    assert(self.sub@[ps[k].0 as int].contains(j));
                }
            }
        }
        if self.metric_holds_for(q) {
            assert forall|kk: int, j: int|
                0 <= kk < ps2.len() && #[trigger] self.sub@[ps2[kk].0 as int].contains(j) implies ps2[kk].1
                <= self.dist_q(q, j) by {
                if kk < rest.len() {
                    let a = if kk < k {
                        kk
                    } else {
                        kk + 1
                    };
                    assert(self.sub@[ps[a].0 as int].contains(j));
                } else {
                    let t = kk - rest.len();
                    assert(self.kid_ok(c, dc, kids[t]));
                    assert(self.sub@[kids[t].0 as int].subset_of(self.sub@[c]));
                    assert(self.sub@[c].contains(j));
                    assert(set_int_range(0, n).contains(j));
                    let dom = self.locations_with(q);
                    assert(self@[j].loc() == self.data@[j].loc());
                    assert(self@[c].loc() == self.data@[c].loc());
                    assert(dom.contains(q));
                    assert(dom.contains(self.data@[j].loc()));
                    assert(dom.contains(self.data@[c].loc()));
                    lemma_triangle_on(&self.metric, dom, q, self.data@[j].loc(), self.data@[c].loc());
                    lemma_triangle_on(&self.metric, dom, self.data@[c].loc(), q, self.data@[j].loc());
                    if nd.interior == Some(kids[t].0) && kids[t].1 == Self::interior_bound(dc, nd.radius) {
                        assert(self.child_set(nd.interior).contains(j));
                        assert(self.dist_ij(c, j) < nd.radius);
                    } else {
                        assert(self.child_set(nd.exterior).contains(j));
                        assert(self.dist_ij(c, j) >= nd.radius);
                    }
                }
            }
        }
    }

    /// Handing out the waiting entry at position `m`, whose distance is no larger than
    /// any other waiting distance or any prospect's lower bound.
    proof fn lemma_emit(
        &self,
        q: Point::PointType,
        ps: Seq<(usize, u64)>,
        ys: Seq<(usize, u64)>,
        es: Seq<usize>,
        m: int,
    )
        requires
            self.wf(),
            self.search_ok(q, ps, ys, es),
            0 <= m < ys.len(),
            forall|t: int| 0 <= t < ys.len() ==> ys[m].1 <= #[trigger] ys[t].1,
            forall|t: int| 0 <= t < ps.len() ==> ys[m].1 <= #[trigger] ps[t].1,
        ensures
            self.search_ok(q, ps, ys.remove(m), es.push(ys[m].0)),
            !es.contains(ys[m].0),
    {
        let n = self.data@.len() as int;
        let x = ys[m].0;
        let ys2 = ys.remove(m);
        let es2 = es.push(x);
        assert(firsts(ys) =~= firsts(ys2).insert(m, x));
        assert(index_set(firsts(ys)).contains(x as int)) by {
            assert(firsts(ys)[m] == x);
        }
        assert(!index_set(es).contains(x as int));
        assert(!es.contains(x)) by {
            if es.contains(x) {
                let i = choose|i: int| 0 <= i < es.len() && es[i] == x;
                assert(index_set(es).contains(x as int));
            }
        }
        lemma_index_set_push(es, x);
        assert forall|i: int| 0 <= i < ys2.len() implies #[trigger] ys2[i] == ys[if i < m {
            i
        } else {
            i + 1
        }] by {}
        assert forall|j: int|
            0 <= j < n implies (#[trigger] index_set(es2).contains(j) <==> !(self.pset(ps).contains(j)
                || index_set(firsts(ys2)).contains(j))) by {
            if index_set(firsts(ys2)).contains(j) {
                let t = choose|t: int| 0 <= t < firsts(ys2).len() && firsts(ys2)[t] as int == j;
                let t0 = if t < m {
                    t
                } else {
                    t + 1
                };
                assert(firsts(ys)[t0] as int == j);
                assert(index_set(firsts(ys)).contains(j));
                if j == x as int {
                    assert(ys[t0].0 == ys[m].0);
                }
            }
            if index_set(firsts(ys)).contains(j) && j != x as int {
                let t = choose|t: int| 0 <= t < firsts(ys).len() && firsts(ys)[t] as int == j;
                let t2 = if t < m {
                    t
                } else {
                    t - 1
                };
                assert(firsts(ys2)[t2] as int == j);
            }
            if j == x as int && self.pset(ps).contains(j) {
                let kk = choose|kk: int| 0 <= kk < ps.len() && #[trigger] self.sub@[ps[kk].0 as int].contains(j);
                assert(!self.sub@[ps[kk].0 as int].contains(ys[m].0 as int));
            }
        }
        assert(es2.no_duplicates());
        assert forall|m1: int, m2: int|
            0 <= m1 < ys2.len() && 0 <= m2 < ys2.len() && m1 != m2 implies (#[trigger] ys2[m1]).0
            != (#[trigger] ys2[m2]).0 by {}
        assert forall|kk: int, mm: int|
            0 <= kk < ps.len() && 0 <= mm < ys2.len() implies !(#[trigger] self.sub@[
            ps[kk].0 as int
        ]).contains((#[trigger] ys2[mm]).0 as int) by {}
        if self.metric_holds_for(q) {
            assert forall|i: int, j: int|
                0 <= i < es2.len() && 0 <= j < n && !index_set(es2.subrange(0, i)).contains(
                    j,
                ) implies #[trigger] self.dist_q(q, es2[i] as int) <= #[trigger] self.dist_q(q, j) by {
                if i < es.len() {
                    assert(es2.subrange(0, i) =~= es.subrange(0, i));
                    assert(es2[i] == es[i]);
                } else {
                    assert(es2.subrange(0, i) =~= es);
                    assert(!index_set(es).contains(j));
                    if self.pset(ps).contains(j) {
                        let kk = choose|kk: int| 0 <= kk < ps.len() && #[trigger] self.sub@[ps[kk].0 as int].contains(j);
                        assert(ps[kk].1 <= self.dist_q(q, j));
                    } else {
                        let t = choose|t: int| 0 <= t < firsts(ys).len() && firsts(ys)[t] as int == j;
                        assert(ys[t].1 == self.dist_q(q, j));
                    }
                }
            }
        }
    }

    /// The waiting queue is no longer than the set of indices not yet handed out.
    proof fn lemma_search_measure(
        &self,
        q: Point::PointType,
        ps: Seq<(usize, u64)>,
        ys: Seq<(usize, u64)>,
        es: Seq<usize>,
    )
        requires
            self.search_ok(q, ps, ys, es),
        ensures
            ys.len() <= Self::remaining(self.data@.len(), es).len(),
            Self::remaining(self.data@.len(), es).finite(),
    {
        let n = self.data@.len() as int;
        let rem = Self::remaining(self.data@.len(), es);
        lemma_int_range(0, n);
        assert(rem.subset_of(set_int_range(0, n)));
        lemma_len_subset(rem, set_int_range(0, n));
        assert(firsts(ys).no_duplicates()) by {
            assert forall|i: int, j: int|
                0 <= i < firsts(ys).len() && 0 <= j < firsts(ys).len() && i != j implies firsts(ys)[i]
                != firsts(ys)[j] by {
                assert(ys[i].0 != ys[j].0);
            }
        }
        lemma_index_set_len(firsts(ys));
        assert forall|j: int| #[trigger] index_set(firsts(ys)).contains(j) implies rem.contains(j) by {
            let t = choose|t: int| 0 <= t < firsts(ys).len() && firsts(ys)[t] as int == j;
            assert(ys[t].0 < n);
        }
        lemma_len_subset(index_set(firsts(ys)), rem);
    }

    /// A search from `query_point` that hands out storage indices, nearest first, with
    /// their distances.
    pub fn nn_index_iter<'a>(&'a self, query_point: &'a Point::PointType) -> (r: KnnIndexIterator<
        'a,
        Point,
        PointMetric,
    >)
        requires
            self.wf(),
        ensures
            r.inv(),
            r.tree() == *self,
            r.query() == *query_point,
            r.emitted() == Seq::<usize>::empty(),
    {
        KnnIndexIterator::new(query_point, self)
    }

    /// A search from `query_point` that hands out elements, nearest first, with their
    /// distances.
    pub fn nn_dist_iter<'a>(&'a self, query_point: &'a Point::PointType) -> (r: KnnIterator<
        'a,
        Point,
        PointMetric,
    >)
        requires
            self.wf(),
        ensures
            r.inv(),
            r.tree() == *self,
            r.query() == *query_point,
            r.emitted() == Seq::<usize>::empty(),
    {
        KnnIterator { inner: KnnIndexIterator::new(query_point, self) }
    }

    /// A search from `query_point` that hands out elements, nearest first.
    pub fn nn_iter<'a>(&'a self, query_point: &'a Point::PointType) -> (r: NearestIter<
        'a,
        Point,
        PointMetric,
    >)
        requires
            self.wf(),
        ensures
            r.inv(),
            r.tree() == *self,
            r.query() == *query_point,
            r.emitted() == Seq::<usize>::empty(),
    {
        NearestIter { inner: KnnIndexIterator::new(query_point, self) }
    }

    /// The whole nearest-first order from `query_point`, computed up front, for handing
    /// out mutable elements one at a time.
    pub fn nn_dist_iter_mut(&self, query_point: &Point::PointType) -> (r: KnnMutIterator)
        requires
            self.wf(),
        ensures
            r.position() == 0,
            r.order().len() == self@.len(),
            firsts(r.order()).no_duplicates(),
            forall|k: int|
                0 <= k < r.order().len() ==> (#[trigger] r.order()[k]).0 < self@.len() && r.order()[k].1
                    == self.dist_q(*query_point, r.order()[k].0 as int),
            self.metric_holds_for(*query_point) ==> self.is_nearest_prefix(*query_point, firsts(r.order())),
    {
        let mut order: Vec<(usize, u64)> = Vec::new();
        let mut it = KnnIndexIterator::new(query_point, self);
        let ghost n = self@.len();
        proof {
            lemma_int_range(0, n as int);
        }
        loop
            invariant
                it.inv(),
                it.tree() == *self,
                it.query() == *query_point,
                firsts(order@) == it.emitted(),
                forall|k: int|
                    0 <= k < order@.len() ==> (#[trigger] order@[k]).0 < n && order@[k].1
                        == self.dist_q(*query_point, order@[k].0 as int),
                self.metric_holds_for(*query_point) ==> self.is_nearest_prefix(*query_point, it.emitted()),
                it.emitted().no_duplicates(),
                forall|k: int| 0 <= k < it.emitted().len() ==> it.emitted()[k] < n,
                it.emitted().len() <= n,
                n == self@.len(),
                set_int_range(0, n as int).finite(),
                set_int_range(0, n as int).len() == n,
            ensures
                firsts(order@) == it.emitted(),
                order@.len() == n,
                forall|k: int|
                    0 <= k < order@.len() ==> (#[trigger] order@[k]).0 < n && order@[k].1
                        == self.dist_q(*query_point, order@[k].0 as int),
                self.metric_holds_for(*query_point) ==> self.is_nearest_prefix(*query_point, it.emitted()),
                it.emitted().no_duplicates(),
            decreases n - it.emitted().len(),
        {
            let ghost before = it.emitted();
            match it.next() {
                Some((i, d)) => {
                    order.push((i, d));
                    proof {
                        assert(firsts(order@) =~= before.push(i));
                        let e = it.emitted();
                        lemma_index_set_len(e);
                        assert forall|j: int| #[trigger] index_set(e).contains(j) implies set_int_range(0, n as int).contains(j) by {
                            let k = choose|k: int| 0 <= k < e.len() && e[k] as int == j;
                        }
                        lemma_len_subset(index_set(e), set_int_range(0, n as int));
                    }
                },
                None => {
                    proof {
                        lemma_index_set_len(before);
                        assert(set_int_range(0, n as int).subset_of(index_set(before)));
                        lemma_len_subset(set_int_range(0, n as int), index_set(before));
                        assert(order@.len() == firsts(order@).len());
                    }
                    break ;
                },
            }
        }
        KnnMutIterator { order, pos: 0 }
    }

    /// Like `nn_dist_iter_mut`: the distances come along and may be ignored.
    pub fn nn_iter_mut(&self, query_point: &Point::PointType) -> (r: KnnMutIterator)
        requires
            self.wf(),
        ensures
            r.position() == 0,
            r.order().len() == self@.len(),
            firsts(r.order()).no_duplicates(),
            forall|k: int|
                0 <= k < r.order().len() ==> (#[trigger] r.order()[k]).0 < self@.len() && r.order()[k].1
                    == self.dist_q(*query_point, r.order()[k].0 as int),
            self.metric_holds_for(*query_point) ==> self.is_nearest_prefix(*query_point, firsts(r.order())),
    {
        self.nn_dist_iter_mut(query_point)
    }
}

// A run-time re-check of the invariant.
impl<Point, PointMetric> VpAvl<Point, PointMetric> where
    Point: VpTreeObject,
    PointMetric: Metric<PointType = Point::PointType>,
 {
    /// The storage is laid out consistently: one node per element, every child link in
    /// range.
    pub closed spec fn links_in_range(&self) -> bool {
        &&& self.nodes@.len() == self.data@.len()
        &&& forall|i: int|
            0 <= i < self.nodes@.len() ==> {
                &&& (#[trigger] self.nodes@[i]).interior matches Some(c) ==> c < self.nodes@.len()
                &&& self.nodes@[i].exterior matches Some(c) ==> c < self.nodes@.len()
            }
    }

    /// Node `i`'s radius separates its direct children, and its cached height is one
    /// more than its taller child's (a missing child counting as -1).
    pub open spec fn node_locally_sound(&self, i: int) -> bool {
        &&& self.interior_of(i) matches Some(c) ==> self.dist_ij(i, c as int) < self.radius_of(i)
        &&& self.exterior_of(i) matches Some(c) ==> self.dist_ij(i, c as int) >= self.radius_of(i)
        &&& self.height_of(i) == if self.child_height(self.interior_of(i)) >= self.child_height(
            self.exterior_of(i),
        ) {
            self.child_height(self.interior_of(i))
        } else {
            self.child_height(self.exterior_of(i))
        }
    }

    /// A sound tree has its storage laid out consistently and every node locally sound.
    pub proof fn lemma_wf_locally_sound(&self)
        requires
            self.wf(),
        ensures
            self.links_in_range(),
            forall|i: int| 0 <= i < self@.len() ==> #[trigger] self.node_locally_sound(i),
    {
        assert forall|i: int| 0 <= i < self.nodes@.len() implies {
            &&& (#[trigger] self.nodes@[i]).interior matches Some(c) ==> c < self.nodes@.len()
            &&& self.nodes@[i].exterior matches Some(c) ==> c < self.nodes@.len()
        } by {
            assert(self.node_ok(i));
            assert(self.child_ok(i, self.nodes@[i].interior));
            assert(self.child_ok(i, self.nodes@[i].exterior));
        }
        assert forall|i: int| 0 <= i < self@.len() implies #[trigger] self.node_locally_sound(i) by {
            assert(self.node_ok(i));
            assert(self.height_ok(i));
            let nd = self.nodes@[i];
            assert(self.child_ok(i, nd.interior));
            assert(self.child_ok(i, nd.exterior));
            if let Some(c) = nd.interior {
                assert(self.child_set(nd.interior).contains(c as int));
            }
            if let Some(c) = nd.exterior {
                assert(self.child_set(nd.exterior).contains(c as int));
            }
        }
    }

    /// Re-checks, by computing distances, every node's radius against its direct
    /// children and every cached height against its children's.
    pub fn check_validity(&self) -> (r: bool)
        requires
            self.links_in_range(),
        ensures
            r == forall|i: int| 0 <= i < self@.len() ==> #[trigger] self.node_locally_sound(i),
            self.wf() ==> r,
    {
        proof {
            if self.wf() {
                self.lemma_wf_locally_sound();
            }
        }
        let n = self.data.len();
        let mut i: usize = 0;
        while i < n
            invariant
                i <= n,
                n == self@.len(),
                self.links_in_range(),
                forall|k: int| 0 <= k < i ==> #[trigger] self.node_locally_sound(k),
                self.wf() ==> forall|k: int| 0 <= k < n ==> #[trigger] self.node_locally_sound(k),
            decreases n - i,
        {
            proof {
                assert(self.nodes@[i as int].interior matches Some(c) ==> c < n);
                assert(self.nodes@[i as int].exterior matches Some(c) ==> c < n);
            }
            let nd = self.nodes[i];
            let mut height: usize = 0;
            if let Some(c) = nd.interior {
                let distance = self.node_distance(i, c);
                if !(distance < nd.radius) {
                    proof {
                        assert(!self.node_locally_sound(i as int));
                    }
                    return false;
                }
                if self.nodes[c].height == usize::MAX {
                    proof {
                        assert(!self.node_locally_sound(i as int));
                    }
                    return false;
                }
                height = self.nodes[c].height + 1;
            }
            assert(height as int == self.child_height(nd.interior));
            if let Some(c) = nd.exterior {
                let distance = self.node_distance(i, c);
                if !(distance >= nd.radius) {
                    proof {
                        assert(!self.node_locally_sound(i as int));
                    }
                    return false;
                }
                if self.nodes[c].height == usize::MAX {
                    proof {
                        assert(!self.node_locally_sound(i as int));
                    }
                    return false;
                }
                if self.nodes[c].height + 1 > height {
                    height = self.nodes[c].height + 1;
                }
            }
            if height != nd.height {
                proof {
                    assert(!self.node_locally_sound(i as int));
                }
                return false;
            }
            proof {
                assert(self.node_locally_sound(i as int));
            }
            i = i + 1;
        }
        true
    }
}

// Properties of the tree and its search.
impl<Point, PointMetric> VpAvl<Point, PointMetric> where
    Point: VpTreeObject,
    PointMetric: Metric<PointType = Point::PointType>,
 {
    /// Partition: every element of a node's interior subtree lies strictly within the
    /// node's radius of it, every element of its exterior subtree at or beyond that
    /// radius; a node's subtree is itself and its two children's subtrees, and the
    /// root's subtree holds every element.
    pub proof fn lemma_partition(&self, i: int, j: int)
        requires
            self.wf(),
            0 <= i < self@.len(),
        ensures
            self.child_set(self.interior_of(i)).contains(j) ==> self.dist_ij(i, j) < self.radius_of(
                i,
            ),
            self.child_set(self.exterior_of(i)).contains(j) ==> self.dist_ij(i, j)
                >= self.radius_of(i),
            self.subtree(i) == set![i] + self.child_set(self.interior_of(i)) + self.child_set(
                self.exterior_of(i),
            ),
            self.subtree(self.root_index()) == set_int_range(0, self@.len() as int),
    {
        assert(self.node_ok(i));
    }

    /// Height bookkeeping: a node's cached height is one more than the taller of its
    /// children's, a missing child counting as -1.
    pub proof fn lemma_height_bookkeeping(&self, i: int)
        requires
            self.wf(),
            0 <= i < self@.len(),
        ensures
            self.height_of(i) == if self.child_height(self.interior_of(i)) >= self.child_height(
                self.exterior_of(i),
            ) {
                self.child_height(self.interior_of(i))
            } else {
                self.child_height(self.exterior_of(i))
            },
            self.interior_of(i) matches Some(c) ==> self.child_height(Some(c)) == self.height_of(
                c as int,
            ) + 1,
            self.exterior_of(i) matches Some(c) ==> self.child_height(Some(c)) == self.height_of(
                c as int,
            ) + 1,
    {
        assert(self.height_ok(i));
    }

    /// Nearest-first order agrees with brute force: along a nearest-first sequence the
    /// distances never decrease, and the `i`-th one is the `i`-th smallest distance over
    /// all stored elements (at most `i` elements are strictly closer, at least `i + 1`
    /// are no farther).
    pub proof fn lemma_nearest_order(&self, q: Point::PointType, s: Seq<usize>, i: int)
        requires
            self.wf(),
            self.is_nearest_prefix(q, s),
            0 <= i < s.len(),
        ensures
            forall|k: int| 0 <= k <= i ==> self.dist_q(q, s[k] as int) <= self.dist_q(q, s[i] as int),
            self.closer_than(q, self.dist_q(q, s[i] as int)).finite(),
            self.within(q, self.dist_q(q, s[i] as int)).finite(),
            self.closer_than(q, self.dist_q(q, s[i] as int)).len() <= i,
            self.within(q, self.dist_q(q, s[i] as int)).len() >= i + 1,
    {
        let n = self@.len() as int;
        let d = self.dist_q(q, s[i] as int);
        lemma_int_range(0, n);
        assert(self.closer_than(q, d).subset_of(set_int_range(0, n)));
        assert(self.within(q, d).subset_of(set_int_range(0, n)));
        lemma_len_subset(self.closer_than(q, d), set_int_range(0, n));
        lemma_len_subset(self.within(q, d), set_int_range(0, n));
        assert forall|k: int| 0 <= k <= i implies self.dist_q(q, s[k] as int) <= self.dist_q(
            q,
            s[i] as int,
        ) by {
            if k < i {
                if index_set(s.subrange(0, k)).contains(s[i] as int) {
                    let t = choose|t: int| 0 <= t < k && s.subrange(0, k)[t] as int == s[i] as int;
                    assert(s[t] == s[i]);
                }
            }
        }
        let before = s.subrange(0, i);
        let upto = s.subrange(0, i + 1);
        assert(before.no_duplicates());
        assert(upto.no_duplicates());
        lemma_index_set_len(before);
        lemma_index_set_len(upto);
        assert forall|j: int| #[trigger] self.closer_than(q, d).contains(j) implies index_set(
            before,
        ).contains(j) by {}
        lemma_len_subset(self.closer_than(q, d), index_set(before));
        assert forall|j: int| #[trigger] index_set(upto).contains(j) implies self.within(
            q,
            d,
        ).contains(j) by {
            let t = choose|t: int| 0 <= t < upto.len() && upto[t] as int == j;
            assert(upto[t] == s[t]);
        }
        lemma_len_subset(index_set(upto), self.within(q, d));
    }

    /// Counting by distance gives the same numbers in two trees whose elements are the
    /// same up to the permutation `perm` of their storage slots.
    proof fn lemma_count_perm(
        a: &Self,
        b: &Self,
        perm: spec_fn(int) -> int,
        q: Point::PointType,
        x: u64,
    )
        requires
            a.spec_metric() == b.spec_metric(),
            a@.len() == b@.len(),
            is_permutation(perm, a@.len() as int),
            forall|j: int| 0 <= j < a@.len() ==> b@[#[trigger] perm(j)].loc() == a@[j].loc(),
        ensures
            a.within(q, x).finite(),
            a.within(q, x).len() == b.within(q, x).len(),
            a.closer_than(q, x).finite(),
            a.closer_than(q, x).len() == b.closer_than(q, x).len(),
    {
        let n = a@.len() as int;
        lemma_int_range(0, n);
        lemma_len_subset(a.within(q, x), set_int_range(0, n));
        lemma_len_subset(a.closer_than(q, x), set_int_range(0, n));
        assert(forall|j: int| 0 <= j < n ==> #[trigger] b.dist_q(q, perm(j)) == a.dist_q(q, j));
        assert forall|k: int| #[trigger] b.within(q, x).contains(k) implies a.within(q, x).map(perm).contains(k) by {
            assert(hits(perm, n, k));
            let j = choose|j: int| 0 <= j < n && #[trigger] perm(j) == k;
            assert(a.within(q, x).contains(j));
        }
        assert forall|k: int| #[trigger] a.within(q, x).map(perm).contains(k) implies b.within(q, x).contains(k) by {
            let j = choose|j: int| a.within(q, x).contains(j) && perm(j) == k;
        }
        assert(a.within(q, x).map(perm) =~= b.within(q, x));
        lemma_map_size(a.within(q, x), b.within(q, x), perm);
        assert forall|k: int| #[trigger] b.closer_than(q, x).contains(k) implies a.closer_than(q, x).map(perm).contains(k) by {
            assert(hits(perm, n, k));
            let j = choose|j: int| 0 <= j < n && #[trigger] perm(j) == k;
            assert(a.closer_than(q, x).contains(j));
        }
        assert forall|k: int| #[trigger] a.closer_than(q, x).map(perm).contains(k) implies b.closer_than(q, x).contains(k) by {
            let j = choose|j: int| a.closer_than(q, x).contains(j) && perm(j) == k;
        }
        assert(a.closer_than(q, x).map(perm) =~= b.closer_than(q, x));
        lemma_map_size(a.closer_than(q, x), b.closer_than(q, x), perm);
    }

    /// Bulk-build equivalence: two trees holding the same elements in any storage order
    /// (one bulk-built, one grown by inserts in another order, say) give the same
    /// distances at every position of any nearest-first search from the same query.
    pub proof fn lemma_same_elements_same_answers(
        a: &Self,
        b: &Self,
        perm: spec_fn(int) -> int,
        q: Point::PointType,
        sa: Seq<usize>,
        sb: Seq<usize>,
        i: int,
    )
        requires
            a.wf(),
            b.wf(),
            a.spec_metric() == b.spec_metric(),
            a@.len() == b@.len(),
            is_permutation(perm, a@.len() as int),
            forall|j: int| 0 <= j < a@.len() ==> b@[#[trigger] perm(j)].loc() == a@[j].loc(),
            a.is_nearest_prefix(q, sa),
            b.is_nearest_prefix(q, sb),
            0 <= i < sa.len(),
            i < sb.len(),
        ensures
            a.dist_q(q, sa[i] as int) == b.dist_q(q, sb[i] as int),
    {
        let da = a.dist_q(q, sa[i] as int);
        let db = b.dist_q(q, sb[i] as int);
        a.lemma_nearest_order(q, sa, i);
        b.lemma_nearest_order(q, sb, i);
        if da < db {
            Self::lemma_count_perm(a, b, perm, q, da);
            assert(b.within(q, da).subset_of(b.closer_than(q, db)));
            lemma_len_subset(b.within(q, da), b.closer_than(q, db));
        } else if db < da {
            Self::lemma_count_perm(a, b, perm, q, db);
            assert(a.within(q, db).subset_of(a.closer_than(q, da)));
            lemma_len_subset(a.within(q, db), a.closer_than(q, da));
        }
    }

    /// Changing elements without moving their locations keeps the tree sound.
    pub proof fn lemma_same_locations_wf(a: &Self, b: &Self)
        requires
            a.wf(),
            Self::same_shape(a, b),
            b@.len() == a@.len(),
            forall|j: int| 0 <= j < a@.len() ==> #[trigger] b@[j].loc() == a@[j].loc(),
        ensures
            b.wf(),
    {
        assert forall|p: int, q: int|
            0 <= p < a@.len() && 0 <= q < a@.len() implies #[trigger] b.dist_ij(p, q) == a.dist_ij(p, q) by {
            assert(b@[p].loc() == a@[p].loc());
            assert(b@[q].loc() == a@[q].loc());
        }
        assert forall|i: int| 0 <= i < b.data@.len() implies #[trigger] b.node_ok(i) by {
            assert(a.node_ok(i));
            let nd = a.nodes@[i];
            assert(a.child_set(nd.interior) == b.child_set(nd.interior));
            assert(a.child_set(nd.exterior) == b.child_set(nd.exterior));
            assert forall|j: int| #[trigger] b.child_set(nd.interior).contains(j) implies b.dist_ij(
                i,
                j,
            ) < nd.radius by {
                assert(a.sub@[i].contains(j));
                assert(set_int_range(0, a.data@.len() as int).contains(j));
            }
            assert forall|j: int| #[trigger] b.child_set(nd.exterior).contains(j) implies b.dist_ij(
                i,
                j,
            ) >= nd.radius by {
                assert(a.sub@[i].contains(j));
                assert(set_int_range(0, a.data@.len() as int).contains(j));
            }
        }
        assert forall|i: int| 0 <= i < b.data@.len() implies #[trigger] b.height_ok(i) by {
            assert(a.height_ok(i));
        }
    }
}

/// The position of a pair with the smallest second component.
fn min_position(v: &Vec<(usize, u64)>) -> (r: usize)
    requires
        v@.len() > 0,
    ensures
        r < v@.len(),
        forall|t: int| 0 <= t < v@.len() ==> v@[r as int].1 <= #[trigger] v@[t].1,
{
    let mut best: usize = 0;
    let mut i: usize = 1;
    while i < v.len()
        invariant
            1 <= i <= v@.len(),
            best < v@.len(),
            forall|t: int| 0 <= t < i ==> v@[best as int].1 <= #[trigger] v@[t].1,
        decreases v@.len() - i,
    {
        if v[i].1 < v[best].1 {
            best = i;
        }
        i = i + 1;
    }
    best
}

/// A lazy nearest-first search over a tree, handing out storage indices with their
/// distance to the query. Each call to `next` does only the work that ordering the
/// next answer needs.
pub struct KnnIndexIterator<'a, Point: VpTreeObject, PointMetric> {
    query_point: &'a Point::PointType,
    tree: &'a VpAvl<Point, PointMetric>,
    prospects: Vec<(usize, u64)>,
    yield_queue: Vec<(usize, u64)>,
    emitted: Ghost<Seq<usize>>,
}

impl<'a, Point, PointMetric> KnnIndexIterator<'a, Point, PointMetric> where
    Point: VpTreeObject,
    PointMetric: Metric<PointType = Point::PointType>,
 {
    /// A consistent search is over a sound tree.
    pub proof fn lemma_inv_wf(&self)
        requires
            self.inv(),
        ensures
            self.tree().wf(),
    {
    }

    /// The tree being searched.
    pub closed spec fn tree(&self) -> VpAvl<Point, PointMetric> {
        *self.tree
    }

    /// The query location.
    pub closed spec fn query(&self) -> Point::PointType {
        *self.query_point
    }

    /// The indices handed out so far, in order.
    pub closed spec fn emitted(&self) -> Seq<usize> {
        self.emitted@
    }

    /// The search state is consistent with the tree.
    pub closed spec fn inv(&self) -> bool {
        &&& self.tree.wf()
        &&& self.tree.search_ok(*self.query_point, self.prospects@, self.yield_queue@, self.emitted@)
    }

    fn new(query_point: &'a Point::PointType, tree: &'a VpAvl<Point, PointMetric>) -> (r: Self)
        requires
            tree.wf(),
        ensures
            r.inv(),
            r.tree() == *tree,
            r.query() == *query_point,
            r.emitted() == Seq::<usize>::empty(),
    {
        let mut prospects: Vec<(usize, u64)> = Vec::new();
        if tree.nodes.len() > 0 {
            prospects.push((tree.root, 0));
        }
        proof {
            tree.lemma_search_start(*query_point);
            if tree.data@.len() > 0 {
                assert(prospects@ =~= seq![(tree.root, 0u64)]);
            } else {
                assert(prospects@ =~= Seq::<(usize, u64)>::empty());
            }
        }
        KnnIndexIterator {
            query_point,
            tree,
            prospects,
            yield_queue: Vec::new(),
            emitted: Ghost(Seq::empty()),
        }
    }

    /// The next index in nearest-first order, with its distance to the query; `None`
    /// once every index has been handed out.
    pub fn next(&mut self) -> (r: Option<(usize, u64)>)
        requires
            old(self).inv(),
        ensures
            final(self).inv(),
            final(self).tree() == old(self).tree(),
            final(self).query() == old(self).query(),
            match r {
                None => {
                    &&& final(self).emitted() == old(self).emitted()
                    &&& forall|j: int|
                        0 <= j < old(self).tree()@.len() ==> #[trigger] index_set(
                            old(self).emitted(),
                        ).contains(j)
                },
                Some((i, d)) => {
                    &&& final(self).emitted() == old(self).emitted().push(i)
                    &&& !old(self).emitted().contains(i)
                    &&& i < old(self).tree()@.len()
                    &&& d == old(self).tree().dist_q(old(self).query(), i as int)
                },
            },
            old(self).tree().metric_holds_for(old(self).query()) ==> old(self).tree().is_nearest_prefix(
                old(self).query(),
                final(self).emitted(),
            ),
    {
        let ghost es = self.emitted@;
        let ghost q = *self.query_point;
        let ghost n = self.tree.data@.len();
        loop
            invariant
                self.inv(),
                self.emitted@ == es,
                es == old(self).emitted@,
                *self.query_point == q,
                q == *old(self).query_point,
                self.query_point == old(self).query_point,
                self.tree == old(self).tree,
                n == self.tree.data@.len(),
            decreases VpAvl::<Point, PointMetric>::remaining(n, es).len() - self.yield_queue@.len(),
        {
            proof {
                self.tree.lemma_search_measure(q, self.prospects@, self.yield_queue@, es);
            }
            if self.prospects.len() == 0 {
                if self.yield_queue.len() == 0 {
                    proof {
                        assert forall|j: int| 0 <= j < n implies #[trigger] index_set(es).contains(j) by {
                            assert(!self.tree.pset(self.prospects@).contains(j));
                            assert(index_set(firsts(self.yield_queue@)) =~= Set::empty());
                        }
                    }
                    return None;
                }
                let m = min_position(&self.yield_queue);
                proof {
                    self.tree.lemma_emit(q, self.prospects@, self.yield_queue@, es, m as int);
                }
                let top = self.yield_queue.remove(m);
                self.emitted = Ghost(es.push(top.0));
                return Some(top);
            }
            let k = min_position(&self.prospects);
            let ghost ps = self.prospects@;
            let ghost ys = self.yield_queue@;
            let top = self.prospects.remove(k);
            let c = top.0;
            let tree = self.tree;
            proof {
                assert(tree.node_ok(c as int));
                assert(tree.child_ok(c as int, tree.nodes@[c as int].interior));
                assert(tree.child_ok(c as int, tree.nodes@[c as int].exterior));
            }
            let center_dist = tree.metric.distance(self.query_point, tree.data[c].location());
            self.yield_queue.push((c, center_dist));
            let radius = tree.nodes[c].radius;
            let min_interior_distance: u64 = if center_dist > radius {
                center_dist - radius
            } else {
                0
            };
            let min_exterior_distance: u64 = if radius > center_dist {
                radius - center_dist
            } else {
                0
            };
            if let Some(interior) = tree.nodes[c].interior {
                self.prospects.push((interior, min_interior_distance));
            }
            if let Some(exterior) = tree.nodes[c].exterior {
                self.prospects.push((exterior, min_exterior_distance));
            }
            proof {
                tree.lemma_expand(q, ps, ys, es, k as int);
                let kids = tree.child_prospects(c as int, center_dist);
                assert(self.prospects@ =~= ps.remove(k as int) + kids);
                tree.lemma_search_measure(q, self.prospects@, self.yield_queue@, es);
            }
            if self.prospects.len() > 0 {
                let m = min_position(&self.yield_queue);
                let p = min_position(&self.prospects);
                if self.yield_queue[m].1 <= self.prospects[p].1 {
                    // nothing left to explore can come closer than this one
                    proof {
                        tree.lemma_emit(q, self.prospects@, self.yield_queue@, es, m as int);
                    }
                    let out = self.yield_queue.remove(m);
                    self.emitted = Ghost(es.push(out.0));
                    return Some(out);
                }
            }
        }
    }
}

/// A lazy nearest-first search handing out elements with their distance to the query.
pub struct KnnIterator<'a, Point: VpTreeObject, PointMetric> {
    inner: KnnIndexIterator<'a, Point, PointMetric>,
}

impl<'a, Point, PointMetric> KnnIterator<'a, Point, PointMetric> where
    Point: VpTreeObject,
    PointMetric: Metric<PointType = Point::PointType>,
 {
    /// A consistent search is over a sound tree.
    pub proof fn lemma_inv_wf(&self)
        requires
            self.inv(),
        ensures
            self.tree().wf(),
    {
    }

    pub closed spec fn tree(&self) -> VpAvl<Point, PointMetric> {
        self.inner.tree()
    }

    pub closed spec fn query(&self) -> Point::PointType {
        self.inner.query()
    }

    /// The storage indices of the elements handed out so far, in order.
    pub closed spec fn emitted(&self) -> Seq<usize> {
        self.inner.emitted()
    }

    pub closed spec fn inv(&self) -> bool {
        self.inner.inv()
    }

    /// The next element in nearest-first order, with its distance to the query.
    pub fn next(&mut self) -> (r: Option<(&'a Point, u64)>)
        requires
            old(self).inv(),
        ensures
            final(self).inv(),
            final(self).tree() == old(self).tree(),
            final(self).query() == old(self).query(),
            match r {
                None => {
                    &&& final(self).emitted() == old(self).emitted()
                    &&& forall|j: int|
                        0 <= j < old(self).tree()@.len() ==> #[trigger] index_set(
                            old(self).emitted(),
                        ).contains(j)
                },
                Some((p, d)) => {
                    let i = final(self).emitted().last();
                    &&& final(self).emitted() == old(self).emitted().push(i)
                    &&& !old(self).emitted().contains(i)
                    &&& i < old(self).tree()@.len()
                    &&& *p == old(self).tree()@[i as int]
                    &&& d == old(self).tree().dist_q(old(self).query(), i as int)
                },
            },
            old(self).tree().metric_holds_for(old(self).query()) ==> old(self).tree().is_nearest_prefix(
                old(self).query(),
                final(self).emitted(),
            ),
    {
        let ghost before = self.inner;
        match self.inner.next() {
            Some((i, d)) => Some((&self.inner.tree.data[i], d)),
            None => {
                proof {
                    assert(before == old(self).inner);
                    assert(forall|j: int|
                        0 <= j < before.tree()@.len() ==> #[trigger] index_set(
                            before.emitted(),
                        ).contains(j));
                }
                None
            },
        }
    }
}

/// A lazy nearest-first search handing out elements.
pub struct NearestIter<'a, Point: VpTreeObject, PointMetric> {
    inner: KnnIndexIterator<'a, Point, PointMetric>,
}

impl<'a, Point, PointMetric> NearestIter<'a, Point, PointMetric> where
    Point: VpTreeObject,
    PointMetric: Metric<PointType = Point::PointType>,
 {
    /// A consistent search is over a sound tree.
    pub proof fn lemma_inv_wf(&self)
        requires
            self.inv(),
        ensures
            self.tree().wf(),
    {
    }

    pub closed spec fn tree(&self) -> VpAvl<Point, PointMetric> {
        self.inner.tree()
    }

    pub closed spec fn query(&self) -> Point::PointType {
        self.inner.query()
    }

    /// The storage indices of the elements handed out so far, in order.
    pub closed spec fn emitted(&self) -> Seq<usize> {
        self.inner.emitted()
    }

    pub closed spec fn inv(&self) -> bool {
        self.inner.inv()
    }

    /// The next element in nearest-first order.
    pub fn next(&mut self) -> (r: Option<&'a Point>)
        requires
            old(self).inv(),
        ensures
            final(self).inv(),
            final(self).tree() == old(self).tree(),
            final(self).query() == old(self).query(),
            match r {
                None => {
                    &&& final(self).emitted() == old(self).emitted()
                    &&& forall|j: int|
                        0 <= j < old(self).tree()@.len() ==> #[trigger] index_set(
                            old(self).emitted(),
                        ).contains(j)
                },
                Some(p) => {
                    let i = final(self).emitted().last();
                    &&& final(self).emitted() == old(self).emitted().push(i)
                    &&& !old(self).emitted().contains(i)
                    &&& i < old(self).tree()@.len()
                    &&& *p == old(self).tree()@[i as int]
                },
            },
            old(self).tree().metric_holds_for(old(self).query()) ==> old(self).tree().is_nearest_prefix(
                old(self).query(),
                final(self).emitted(),
            ),
    {
        let ghost before = self.inner;
        match self.inner.next() {
            Some((i, _d)) => Some(&self.inner.tree.data[i]),
            None => {
                proof {
                    assert(before == old(self).inner);
                    assert(forall|j: int|
                        0 <= j < before.tree()@.len() ==> #[trigger] index_set(
                            before.emitted(),
                        ).contains(j));
                }
                None
            },
        }
    }
}

/// Nearest-first storage indices with their distances, computed up front; `next`
/// lends out one element of the tree at a time for changing in place. Changing an
/// element's location breaks the tree's invariant.
pub struct KnnMutIterator {
    order: Vec<(usize, u64)>,
    pos: usize,
}

impl KnnMutIterator {
    /// The storage indices and distances, nearest first.
    pub closed spec fn order(&self) -> Seq<(usize, u64)> {
        self.order@
    }

    /// How many have been handed out.
    pub closed spec fn position(&self) -> int {
        self.pos as int
    }

    /// The next element in nearest-first order, lent out from `tree`, with its distance.
    pub fn next<'t, Point, PointMetric>(&mut self, tree: &'t mut VpAvl<Point, PointMetric>) -> (r:
        Option<(&'t mut Point, u64)>) where
        Point: VpTreeObject,
        PointMetric: Metric<PointType = Point::PointType>,

        requires
            forall|k: int| 0 <= k < old(self).order().len() ==> (#[trigger] old(self).order()[k]).0 < old(tree)@.len(),
            0 <= old(self).position() <= old(self).order().len(),
        ensures
            final(self).order() == old(self).order(),
            0 <= final(self).position() <= final(self).order().len(),
            old(self).position() == old(self).order().len() ==> r is None && final(self).position()
                == old(self).position() && *final(tree) == *old(tree),
            old(self).position() < old(self).order().len() ==> {
                let i = old(self).order()[old(self).position()].0;
                &&& final(self).position() == old(self).position() + 1
                &&& r matches Some((p, d)) && d == old(self).order()[old(self).position()].1 && *p
                    == old(tree)@[i as int] && final(tree)@ == old(tree)@.update(i as int, *final(p))
                    && VpAvl::same_shape(old(tree), final(tree))
            },
    {
        if self.pos < self.order.len() {
            let (i, d) = self.order[self.pos];
            self.pos = self.pos + 1;
            Some((&mut tree.data[i], d))
        } else {
            None
        }
    }
}

} // verus!
