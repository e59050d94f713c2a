//! Nearest-neighbour search over an RTree: items in order of distance from a point.
use std::marker::PhantomData;
use vstd::prelude::*;

use crate::indices::Indices;
use crate::num::IndexableNum;
use crate::bytes::{lemma_pow_mono, pow256};
use crate::rtree::index::{rtree_layout, RTreeMetadata};
use crate::rtree::search::{group_end, lemma_fold_bounds};
use crate::rtree::join::lemma_leaves_added;
use crate::rtree::sort::util::{box_item, ints, items_in};
use crate::rtree::structure::{
    ancestor, covers, end_child, first_child, lemma_ancestor, lemma_ancestor_covers, lemma_ancestor_leaf,
    lemma_ancestor_root, lemma_child_covers, lemma_covers_level, lemma_level_of, lemma_top_single,
    lemma_walk_children, level_of, level_start, min_int, parent_ok, tree_shape,
};
use crate::rtree::util::{lemma_level_ends, level_ends, num_nodes_spec};

verus! {

/// A simple distance metric: distances between points and from a point to a box.
///
/// The search visits the boxes of the tree in order of this distance, so the distance to a box
/// should be at most the distance to anything inside it.
///
/// A metric verified against these specifications says so with `obeys_distance_spec`; nothing is
/// claimed of the distances of one that does not.
pub trait SimpleDistanceMetric<N: IndexableNum> {
    /// The metric computes `spec_distance` and `spec_distance_to_bbox`.
    open spec fn obeys_distance_spec(&self) -> bool {
        false
    }

    /// The distance between the points `(x1, y1)` and `(x2, y2)`.
    open spec fn spec_distance(&self, x1: int, y1: int, x2: int, y2: int) -> int {
        0
    }

    /// The distance from the point `(x, y)` to the box `(min_x, min_y, max_x, max_y)`.
    open spec fn spec_distance_to_bbox(&self, x: int, y: int, min_x: int, min_y: int, max_x: int, max_y: int) -> int {
        0
    }

    /// Calculate the distance between two points (x1, y1) and (x2, y2).
    fn distance(&self, x1: N, y1: N, x2: N, y2: N) -> (r: N)
        ensures
            self.obeys_distance_spec() ==> r.value() == self.spec_distance(
                x1.value(),
                y1.value(),
                x2.value(),
                y2.value(),
            ),
    ;

    /// Calculate the distance from a point to a bounding box.
    fn distance_to_bbox(&self, x: N, y: N, min_x: N, min_y: N, max_x: N, max_y: N) -> (r: N)
        ensures
            self.obeys_distance_spec() ==> r.value() == self.spec_distance_to_bbox(
                x.value(),
                y.value(),
                min_x.value(),
                min_y.value(),
                max_x.value(),
                max_y.value(),
            ),
    ;

    /// Return the maximum distance value for this metric: by default the largest value of `N`.
    fn max_distance(&self) -> (r: N)
        default_ensures
            r.value() == N::spec_max(),
    {
        N::max_value()
    }
}

/// The box `(a0, a1, a2, a3)` is well-formed and lies inside the box `(b0, b1, b2, b3)`.
pub open spec fn box_inside(a0: int, a1: int, a2: int, a3: int, b0: int, b1: int, b2: int, b3: int) -> bool {
    a0 <= a2 && a1 <= a3 && b0 <= a0 && b1 <= a1 && a2 <= b2 && a3 <= b3
}

/// The metric says what it computes, and its distance from `(x, y)` to a box never exceeds its
/// distance to a well-formed box inside it.
pub open spec fn metric_admissible<N: IndexableNum, M: SimpleDistanceMetric<N>>(metric: M, x: int, y: int) -> bool {
    &&& metric.obeys_distance_spec()
    &&& forall|a0: int, a1: int, a2: int, a3: int, b0: int, b1: int, b2: int, b3: int|
        #![trigger metric.spec_distance_to_bbox(x, y, a0, a1, a2, a3), metric.spec_distance_to_bbox(x, y, b0, b1, b2, b3)]
        box_inside(a0, a1, a2, a3, b0, b1, b2, b3) ==> metric.spec_distance_to_bbox(x, y, b0, b1, b2, b3)
            <= metric.spec_distance_to_bbox(x, y, a0, a1, a2, a3)
}

/// The distance from a value to a range along one axis: zero inside the range.
pub open spec fn axis_dist(k: int, min: int, max: int) -> int {
    if k < min {
        min - k
    } else if k <= max {
        0
    } else {
        k - max
    }
}

/// The squared distance from the point `(x, y)` to the box `(min_x, min_y, max_x, max_y)`.
pub open spec fn box_sq_dist(x: int, y: int, min_x: int, min_y: int, max_x: int, max_y: int) -> int {
    let dx = axis_dist(x, min_x, max_x);
    let dy = axis_dist(y, min_y, max_y);
    dx * dx + dy * dy
}

/// 1D distance from a value to a range.
pub fn axis_distance(k: i64, min: i64, max: i64) -> (r: i64)
    requires
        -0x1_0000_0000 <= k <= 0x1_0000_0000,
        -0x1_0000_0000 <= min <= 0x1_0000_0000,
        -0x1_0000_0000 <= max <= 0x1_0000_0000,
    ensures
        r == axis_dist(k as int, min as int, max as int),
{
    if k < min {
        min - k
    } else if k <= max {
        0
    } else {
        k - max
    }
}

/// How the search measures the distance to a node of the tree (from its point, or its query).
pub trait BoxDistance<N: IndexableNum> {
    /// The distances are those of `spec_box_dist`.
    spec fn exact(&self) -> bool;

    /// The measure can be taken.
    spec fn valid(&self) -> bool;

    /// The measure is for a tree of `n` leaves with these stored indices.
    spec fn fits(&self, n: nat, indices: Seq<nat>) -> bool;

    /// The distance to node `k`, whose box is given, when `exact`.
    spec fn spec_box_dist(&self, k: int, min_x: int, min_y: int, max_x: int, max_y: int) -> int;

    /// The distance to a node above the leaves never exceeds the distance to a node (or leaf)
    /// whose well-formed box is inside its box.
    proof fn lemma_monotone(
        &self,
        n: nat,
        indices: Seq<nat>,
        inner_k: int,
        inner: (int, int, int, int),
        outer_k: int,
        outer: (int, int, int, int),
    )
        requires
            self.fits(n, indices),
            0 <= inner_k,
            outer_k == inner_k ==> outer == inner,
            outer_k == inner_k || n <= outer_k,
            inner.0 <= inner.2,
            inner.1 <= inner.3,
            outer.0 <= inner.0,
            outer.1 <= inner.1,
            inner.2 <= outer.2,
            inner.3 <= outer.3,
        ensures
            self.exact() ==> self.spec_box_dist(outer_k, outer.0, outer.1, outer.2, outer.3)
                <= self.spec_box_dist(inner_k, inner.0, inner.1, inner.2, inner.3),
    ;

    /// The distance to node `k` of a tree of `n` leaves, whose box is given: the leaf holding
    /// the item of the given index when `leaf`, else a node above the leaves.
    fn box_dist(
        &self,
        leaf: bool,
        index: usize,
        min_x: i64,
        min_y: i64,
        max_x: i64,
        max_y: i64,
        Ghost(n): Ghost<nat>,
        Ghost(indices): Ghost<Seq<nat>>,
        Ghost(k): Ghost<int>,
    ) -> (r: i128)
        requires
            self.valid(),
            self.fits(n, indices),
            0 <= k < indices.len(),
            leaf == (k < n),
            index == indices[k],
            N::spec_min() <= min_x <= N::spec_max(),
            N::spec_min() <= min_y <= N::spec_max(),
            N::spec_min() <= max_x <= N::spec_max(),
            N::spec_min() <= max_y <= N::spec_max(),
        ensures
            self.exact() ==> r == self.spec_box_dist(
                k,
                min_x as int,
                min_y as int,
                max_x as int,
                max_y as int,
            ),
    ;
}

/// The squared Euclidean distance from a point, computed exactly.
pub struct SquaredDistance<N: IndexableNum> {
    /// The `x` of the point.
    pub x: i64,
    /// The `y` of the point.
    pub y: i64,
    /// The coordinate type.
    pub phantom: PhantomData<N>,
}

/// Squaring keeps the order of non-negative values.
proof fn lemma_square_mono(a: int, b: int)
    requires
        0 <= a <= b,
    ensures
        a * a <= b * b,
{
    assert(a * a <= b * b) by (nonlinear_arith)
        requires
            0 <= a <= b,
    ;
}

/// The distance along an axis to a range never exceeds the distance to a well-formed range
/// inside it.
proof fn lemma_axis_dist_mono(k: int, lo: int, hi: int, lo2: int, hi2: int)
    requires
        lo <= hi,
        lo2 <= lo,
        hi <= hi2,
    ensures
        0 <= axis_dist(k, lo2, hi2) <= axis_dist(k, lo, hi),
{
}

impl<N: IndexableNum> BoxDistance<N> for SquaredDistance<N> {
    open spec fn exact(&self) -> bool {
        true
    }

    open spec fn valid(&self) -> bool {
        -0x1_0000_0000 <= self.x <= 0x1_0000_0000 && -0x1_0000_0000 <= self.y <= 0x1_0000_0000
    }

    open spec fn fits(&self, n: nat, indices: Seq<nat>) -> bool {
        true
    }

    open spec fn spec_box_dist(&self, k: int, min_x: int, min_y: int, max_x: int, max_y: int) -> int {
        box_sq_dist(self.x as int, self.y as int, min_x, min_y, max_x, max_y)
    }

    proof fn lemma_monotone(
        &self,
        n: nat,
        indices: Seq<nat>,
        inner_k: int,
        inner: (int, int, int, int),
        outer_k: int,
        outer: (int, int, int, int),
    ) {
        lemma_axis_dist_mono(self.x as int, inner.0, inner.2, outer.0, outer.2);
        lemma_axis_dist_mono(self.y as int, inner.1, inner.3, outer.1, outer.3);
        lemma_square_mono(axis_dist(self.x as int, outer.0, outer.2), axis_dist(self.x as int, inner.0, inner.2));
        lemma_square_mono(axis_dist(self.y as int, outer.1, outer.3), axis_dist(self.y as int, inner.1, inner.3));
    }

    fn box_dist(
        &self,
        leaf: bool,
        index: usize,
        min_x: i64,
        min_y: i64,
        max_x: i64,
        max_y: i64,
        Ghost(n): Ghost<nat>,
        Ghost(indices): Ghost<Seq<nat>>,
        Ghost(k): Ghost<int>,
    ) -> (r: i128) {
        proof {
            N::lemma_layout();
            crate::bytes::lemma_pow256_facts();
            crate::bytes::lemma_pow_mono(N::spec_bytes_per_element() as nat, 4);
        }
        let dx = axis_distance(self.x, min_x, max_x) as i128;
        let dy = axis_distance(self.y, min_y, max_y) as i128;
        proof {
            assert(0 <= dx * dx <= 0x4_0000_0000_0000_0000) by (nonlinear_arith)
                requires
                    -0x2_0000_0000 <= dx <= 0x2_0000_0000,
            ;
            assert(0 <= dy * dy <= 0x4_0000_0000_0000_0000) by (nonlinear_arith)
                requires
                    -0x2_0000_0000 <= dy <= 0x2_0000_0000,
            ;
        }
        dx * dx + dy * dy
    }
}

/// A user's distance metric, measured from a point.
pub struct MetricDistance<'a, N: IndexableNum, M: SimpleDistanceMetric<N>> {
    /// The metric.
    pub metric: &'a M,
    /// The `x` of the point.
    pub x: N,
    /// The `y` of the point.
    pub y: N,
}

impl<'a, N: IndexableNum, M: SimpleDistanceMetric<N>> BoxDistance<N> for MetricDistance<'a, N, M> {
    open spec fn exact(&self) -> bool {
        metric_admissible(*self.metric, self.x.value(), self.y.value())
    }

    open spec fn valid(&self) -> bool {
        true
    }

    open spec fn fits(&self, n: nat, indices: Seq<nat>) -> bool {
        true
    }

    open spec fn spec_box_dist(&self, k: int, min_x: int, min_y: int, max_x: int, max_y: int) -> int {
        self.metric.spec_distance_to_bbox(self.x.value(), self.y.value(), min_x, min_y, max_x, max_y)
    }

    proof fn lemma_monotone(
        &self,
        n: nat,
        indices: Seq<nat>,
        inner_k: int,
        inner: (int, int, int, int),
        outer_k: int,
        outer: (int, int, int, int),
    ) {
        let (x, y) = (self.x.value(), self.y.value());
        assert(box_inside(inner.0, inner.1, inner.2, inner.3, outer.0, outer.1, outer.2, outer.3));
        if self.exact() {
            assert(self.metric.spec_distance_to_bbox(x, y, outer.0, outer.1, outer.2, outer.3)
                <= self.metric.spec_distance_to_bbox(x, y, inner.0, inner.1, inner.2, inner.3));
        }
    }

    /// The metric's distance from the point to the box, whose corners it is handed as `N`.
    fn box_dist(
        &self,
        leaf: bool,
        index: usize,
        min_x: i64,
        min_y: i64,
        max_x: i64,
        max_y: i64,
        Ghost(n): Ghost<nat>,
        Ghost(indices): Ghost<Seq<nat>>,
        Ghost(k): Ghost<int>,
    ) -> (r: i128) {
        let dist = self.metric.distance_to_bbox(
            self.x,
            self.y,
            N::from_i64(min_x),
            N::from_i64(min_y),
            N::from_i64(max_x),
            N::from_i64(max_y),
        );
        dist.to_i64() as i128
    }
}

/// Distances measured from a query of the caller's: to the box of a node above the leaves, and
/// to the item stored at a leaf.
///
/// The search visits nodes in order of these distances, so the distance to a node should be at
/// most the distance to anything below it. A measure verified against these specifications says
/// so with `obeys_item_spec`; nothing is claimed of the distances of one that does not.
pub trait ItemDistanceMetric<N: IndexableNum> {
    /// The measure computes `spec_distance_to_node` and `spec_distance_to_item`.
    open spec fn obeys_item_spec(&self) -> bool {
        false
    }

    /// The distance to a node above the leaves whose box is `(min_x, min_y, max_x, max_y)`.
    open spec fn spec_distance_to_node(&self, min_x: int, min_y: int, max_x: int, max_y: int) -> int {
        0
    }

    /// The distance to the item of insertion index `index`, whose box is given.
    open spec fn spec_distance_to_item(&self, index: int, min_x: int, min_y: int, max_x: int, max_y: int) -> int {
        0
    }

    /// The distance to the box of a node above the leaves.
    fn distance_to_node(&self, min_x: N, min_y: N, max_x: N, max_y: N) -> (r: N)
        ensures
            self.obeys_item_spec() ==> r.value() == self.spec_distance_to_node(
                min_x.value(),
                min_y.value(),
                max_x.value(),
                max_y.value(),
            ),
    ;

    /// The distance to the item of the given insertion index, whose box is given.
    fn distance_to_item(&self, index: usize, min_x: N, min_y: N, max_x: N, max_y: N) -> (r: N)
        ensures
            self.obeys_item_spec() ==> r.value() == self.spec_distance_to_item(
                index as int,
                min_x.value(),
                min_y.value(),
                max_x.value(),
                max_y.value(),
            ),
    ;

    /// The largest distance value of this metric.
    fn max_distance(&self) -> N;
}

/// The measure says what it computes, and its distance to a node never exceeds its distance to
/// a node, or to an item of any index, whose well-formed box lies inside the node's box.
pub open spec fn item_measure_admissible<N: IndexableNum, M: ItemDistanceMetric<N>>(metric: M) -> bool {
    &&& metric.obeys_item_spec()
    &&& forall|a0: int, a1: int, a2: int, a3: int, b0: int, b1: int, b2: int, b3: int|
        #![trigger metric.spec_distance_to_node(a0, a1, a2, a3), metric.spec_distance_to_node(b0, b1, b2, b3)]
        box_inside(a0, a1, a2, a3, b0, b1, b2, b3) ==> metric.spec_distance_to_node(b0, b1, b2, b3)
            <= metric.spec_distance_to_node(a0, a1, a2, a3)
    &&& forall|i: int, a0: int, a1: int, a2: int, a3: int, b0: int, b1: int, b2: int, b3: int|
        #![trigger metric.spec_distance_to_item(i, a0, a1, a2, a3), metric.spec_distance_to_node(b0, b1, b2, b3)]
        box_inside(a0, a1, a2, a3, b0, b1, b2, b3) ==> metric.spec_distance_to_node(b0, b1, b2, b3)
            <= metric.spec_distance_to_item(i, a0, a1, a2, a3)
}

/// A caller's measure of nodes and items, for a tree of `n` leaves with the given stored
/// indices.
pub struct ItemDistance<'a, N: IndexableNum, M: ItemDistanceMetric<N>> {
    /// The measure.
    pub metric: &'a M,
    /// The number of leaves.
    pub n: Ghost<nat>,
    /// The stored indices of the tree.
    pub indices: Ghost<Seq<nat>>,
    /// The coordinate type.
    pub phantom: PhantomData<N>,
}

impl<'a, N: IndexableNum, M: ItemDistanceMetric<N>> BoxDistance<N> for ItemDistance<'a, N, M> {
    open spec fn exact(&self) -> bool {
        item_measure_admissible(*self.metric)
    }

    open spec fn valid(&self) -> bool {
        true
    }

    open spec fn fits(&self, n: nat, indices: Seq<nat>) -> bool {
        self.n@ == n && self.indices@ == indices
    }

    open spec fn spec_box_dist(&self, k: int, min_x: int, min_y: int, max_x: int, max_y: int) -> int {
        if 0 <= k < self.n@ {
            self.metric.spec_distance_to_item(self.indices@[k] as int, min_x, min_y, max_x, max_y)
        } else {
            self.metric.spec_distance_to_node(min_x, min_y, max_x, max_y)
        }
    }

    proof fn lemma_monotone(
        &self,
        n: nat,
        indices: Seq<nat>,
        inner_k: int,
        inner: (int, int, int, int),
        outer_k: int,
        outer: (int, int, int, int),
    ) {
        assert(box_inside(inner.0, inner.1, inner.2, inner.3, outer.0, outer.1, outer.2, outer.3));
        if self.exact() && outer_k != inner_k {
            let m = *self.metric;
            assert(m.spec_distance_to_node(outer.0, outer.1, outer.2, outer.3) <= m.spec_distance_to_node(
                inner.0,
                inner.1,
                inner.2,
                inner.3,
            ));
            assert(m.spec_distance_to_node(outer.0, outer.1, outer.2, outer.3) <= m.spec_distance_to_item(
                indices[inner_k] as int,
                inner.0,
                inner.1,
                inner.2,
                inner.3,
            ));
        }
    }

    /// The measure's distance to the item of `index` when `leaf`, else to the node, whose box
    /// corners it is handed as `N`.
    fn box_dist(
        &self,
        leaf: bool,
        index: usize,
        min_x: i64,
        min_y: i64,
        max_x: i64,
        max_y: i64,
        Ghost(n): Ghost<nat>,
        Ghost(indices): Ghost<Seq<nat>>,
        Ghost(k): Ghost<int>,
    ) -> (r: i128) {
        let (a, b, c, d) = (N::from_i64(min_x), N::from_i64(min_y), N::from_i64(max_x), N::from_i64(max_y));
        let dist = if leaf {
            self.metric.distance_to_item(index, a, b, c, d)
        } else {
            self.metric.distance_to_node(a, b, c, d)
        };
        dist.to_i64() as i128
    }
}

/// The distance measure of node `k`'s box.
pub open spec fn node_dist<N: IndexableNum, D: BoxDistance<N>>(d: D, boxes: Seq<int>, k: int) -> int {
    d.spec_box_dist(k, boxes[4 * k], boxes[4 * k + 1], boxes[4 * k + 2], boxes[4 * k + 3])
}

/// Every box of the tree has its minima at most its maxima.
pub open spec fn boxes_ordered(boxes: Seq<int>) -> bool {
    forall|k: int|
        0 <= k && 4 * k + 3 < boxes.len() ==> #[trigger] boxes[4 * k] <= boxes[4 * k + 2] && boxes[4
            * k + 1] <= boxes[4 * k + 3]
}

/// A queue entry `e` (a distance and an id: twice the stored index, plus one for a leaf) for
/// node `k`.
pub open spec fn entry_ok<N: IndexableNum, D: BoxDistance<N>>(
    d: D,
    boxes: Seq<int>,
    indices: Seq<nat>,
    n: nat,
    nodes: nat,
    maxd: int,
    e: (i128, u64),
    k: int,
) -> bool {
    &&& 0 <= k < nodes
    &&& (e.1 % 2 == 1) == (k < n)
    &&& e.1 / 2 == indices[k]
    &&& e.0 <= maxd
    &&& d.exact() ==> e.0 == node_dist(d, boxes, k)
}

/// Every entry of the queue is well-formed for its node.
pub open spec fn queue_ok<N: IndexableNum, D: BoxDistance<N>>(
    d: D,
    boxes: Seq<int>,
    indices: Seq<nat>,
    n: nat,
    nodes: nat,
    maxd: int,
    queue: Seq<(i128, u64)>,
    qk: Seq<int>,
) -> bool {
    &&& queue.len() == qk.len()
    &&& forall|e: int|
        0 <= e < queue.len() ==> #[trigger] entry_ok(d, boxes, indices, n, nodes, maxd, queue[e], qk[e])
}

/// Every result is the stored index of a leaf within the largest distance.
pub open spec fn results_ok<N: IndexableNum, D: BoxDistance<N>>(
    d: D,
    boxes: Seq<int>,
    indices: Seq<nat>,
    n: nat,
    maxd: int,
    results: Seq<u32>,
    ks: Seq<int>,
) -> bool {
    &&& ks.len() == results.len()
    &&& forall|i: int|
        0 <= i < results.len() ==> 0 <= #[trigger] ks[i] < n && results[i] as nat == indices[ks[i]]
            && (d.exact() ==> node_dist(d, boxes, ks[i]) <= maxd)
}

/// The results are in order of distance and nothing queued is nearer than the last result.
pub open spec fn order_ok<N: IndexableNum, D: BoxDistance<N>>(
    d: D,
    boxes: Seq<int>,
    queue: Seq<(i128, u64)>,
    ks: Seq<int>,
) -> bool {
    &&& forall|i: int, j: int|
        0 <= i < j < ks.len() ==> node_dist(d, boxes, #[trigger] ks[i]) <= node_dist(
            d,
            boxes,
            #[trigger] ks[j],
        )
    &&& ks.len() > 0 ==> forall|e: int|
        0 <= e < queue.len() ==> #[trigger] queue[e].0 >= node_dist(d, boxes, ks.last())
}

/// The results are at most the largest number asked for (when one is, other than 0).
pub open spec fn within_max(max_results: Option<usize>, len: nat) -> bool {
    match max_results {
        Some(m) => m == 0 || len <= m,
        None => true,
    }
}

/// The results have reached the largest number asked for (other than 0).
pub open spec fn reached(max_results: Option<usize>, len: nat) -> bool {
    match max_results {
        Some(m) => m > 0 && len == m,
        None => false,
    }
}

/// The weight of a queue entry: nothing for a leaf, `2^32` to the power of the position of its
/// children for a node. A node is only queued from a group that comes after its children, and a
/// group has fewer than `2^32` nodes, so walking a group makes the queue lighter.
pub open spec fn entry_weight(e: (i128, u64)) -> nat {
    if e.1 % 2 == 1 {
        0
    } else {
        pow256((4 * (e.1 / 2)) as nat)
    }
}

/// The total weight of the queue.
pub open spec fn queue_weight(q: Seq<(i128, u64)>) -> nat
    decreases q.len(),
{
    if q.len() == 0 {
        0
    } else {
        queue_weight(q.drop_last()) + entry_weight(q.last())
    }
}

/// The weight of two queues one after the other is the sum of their weights.
proof fn lemma_queue_weight_append(t: Seq<(i128, u64)>, p: Seq<(i128, u64)>)
    ensures
        queue_weight(t + p) == queue_weight(t) + queue_weight(p),
    decreases p.len(),
{
    if p.len() == 0 {
        assert(t + p =~= t);
    } else {
        lemma_queue_weight_append(t, p.drop_last());
        assert((t + p).drop_last() =~= t + p.drop_last());
        assert((t + p).last() == p.last());
    }
}

/// Removing an entry takes its weight off the queue.
proof fn lemma_queue_weight_remove(q: Seq<(i128, u64)>, i: int)
    requires
        0 <= i < q.len(),
    ensures
        queue_weight(q.remove(i)) + entry_weight(q[i]) == queue_weight(q),
{
    let a = q.subrange(0, i);
    let c = q.subrange(i + 1, q.len() as int);
    let one = seq![q[i]];
    assert(q =~= (a + one) + c);
    assert(q.remove(i) =~= a + c);
    lemma_queue_weight_append(a + one, c);
    lemma_queue_weight_append(a, one);
    lemma_queue_weight_append(a, c);
    assert(one.drop_last() =~= Seq::<(i128, u64)>::empty());
    assert(one.last() == q[i]);
    assert(queue_weight(Seq::<(i128, u64)>::empty()) == 0);
    assert(queue_weight(one) == entry_weight(q[i]));
}

/// Entries that are leaves, or nodes whose children come before `limit`, weigh at most their
/// number times the weight of a node whose children are at `limit - 1` (nothing at all when
/// `limit` is 0).
proof fn lemma_queue_weight_bound(p: Seq<(i128, u64)>, limit: nat)
    requires
        forall|e: int| 0 <= e < p.len() ==> (#[trigger] p[e]).1 % 2 == 1 || p[e].1 / 2 < limit,
    ensures
        limit == 0 ==> queue_weight(p) == 0,
        limit >= 1 ==> queue_weight(p) <= p.len() * pow256((4 * (limit - 1)) as nat),
    decreases p.len(),
{
    if p.len() > 0 {
        let q = p.drop_last();
        assert forall|e: int| 0 <= e < q.len() implies (#[trigger] q[e]).1 % 2 == 1 || q[e].1 / 2 < limit by {
            assert(q[e] == p[e]);
        }
        lemma_queue_weight_bound(q, limit);
        let l = p.last();
        assert(l == p[p.len() - 1]);
        if limit >= 1 {
            let w = pow256((4 * (limit - 1)) as nat);
            if l.1 % 2 == 0 {
                lemma_pow_mono((4 * (l.1 / 2)) as nat, (4 * (limit - 1)) as nat);
            }
            assert(entry_weight(l) <= w);
            assert(queue_weight(p) <= p.len() * w) by (nonlinear_arith)
                requires
                    queue_weight(p) == queue_weight(q) + entry_weight(l),
                    queue_weight(q) <= q.len() * w,
                    entry_weight(l) <= w,
                    q.len() + 1 == p.len(),
            ;
        }
    }
}

/// Walking a group at position `g` (pushing fewer than `2^32` entries that are leaves or nodes
/// whose children come before `g`) weighs less than the group's own weight.
proof fn lemma_queue_weight_walk(t: Seq<(i128, u64)>, p: Seq<(i128, u64)>, g: nat)
    requires
        p.len() < 4294967296,
        forall|e: int| 0 <= e < p.len() ==> (#[trigger] p[e]).1 % 2 == 1 || p[e].1 / 2 < g,
    ensures
        queue_weight(t + p) < queue_weight(t) + pow256(4 * g),
{
    lemma_queue_weight_append(t, p);
    lemma_queue_weight_bound(p, g);
    crate::bytes::lemma_pow256_pos(4 * g);
    if g >= 1 {
        let w = pow256((4 * (g - 1)) as nat);
        crate::bytes::lemma_pow256_pos((4 * (g - 1)) as nat);
        assert(pow256(4 * g) == 4294967296 * w) by {
            assert((4 * (g - 1)) as nat + 4 == 4 * g);
            reveal_with_fuel(pow256, 5);
        }
        assert(p.len() * w < 4294967296 * w) by (nonlinear_arith)
            requires
                p.len() < 4294967296,
                w >= 1,
        ;
    }
}

/// Leaf `k` is among the results, or it or one of its ancestors is queued.
pub open spec fn leaf_pending(e: Seq<nat>, ns: nat, qk: Seq<int>, ks: Seq<int>, k: int) -> bool {
    ||| exists|i: int| 0 <= i < ks.len() && #[trigger] ks[i] == k
    ||| exists|x: int, l: int|
        #![trigger qk[x], ancestor(e, ns, k, l)]
        0 <= x < qk.len() && 0 <= l < e.len() && qk[x] == ancestor(e, ns, k, l)
}

/// Every leaf within the largest distance is among the results, or it or one of its ancestors
/// is queued.
pub open spec fn all_pending<N: IndexableNum, D: BoxDistance<N>>(
    d: D,
    boxes: Seq<int>,
    n: nat,
    ns: nat,
    maxd: int,
    qk: Seq<int>,
    ks: Seq<int>,
) -> bool {
    forall|k: int|
        #![trigger node_dist(d, boxes, k)]
        0 <= k < n && node_dist(d, boxes, k) <= maxd ==> leaf_pending(level_ends(n, ns), ns, qk, ks, k)
}

/// In a tree of the builder's shape with well-formed boxes, the ancestors of a leaf are no
/// farther than the leaf.
proof fn lemma_ancestor_nearer<N: IndexableNum, D: BoxDistance<N>>(
    d: D,
    boxes: Seq<int>,
    indices: Seq<nat>,
    n: nat,
    ns: nat,
    k: int,
    l: int,
)
    requires
        d.exact(),
        d.fits(n, indices),
        tree_shape(boxes, indices, n, ns),
        boxes_ordered(boxes),
        n >= 1,
        0 <= k < n,
        0 <= l < level_ends(n, ns).len(),
        4 * level_ends(n, ns).last() <= boxes.len(),
    ensures
        node_dist(d, boxes, ancestor(level_ends(n, ns), ns, k, l)) <= node_dist(d, boxes, k),
{
    let e = level_ends(n, ns);
    lemma_level_ends(n, ns);
    lemma_ancestor_covers(boxes, indices, n, ns, k, l);
    let a = ancestor(e, ns, k, l);
    assert(4 * k + 3 < boxes.len());
    assert(boxes[4 * k] <= boxes[4 * k + 2] && boxes[4 * k + 1] <= boxes[4 * k + 3]);
    lemma_ancestor_leaf(n, ns, k, l);
    d.lemma_monotone(
        n,
        indices,
        k,
        (boxes[4 * k], boxes[4 * k + 1], boxes[4 * k + 2], boxes[4 * k + 3]),
        a,
        (boxes[4 * a], boxes[4 * a + 1], boxes[4 * a + 2], boxes[4 * a + 3]),
    );
}

/// Pending leaves stay pending when more is queued and reported.
proof fn lemma_pending_grow(e: Seq<nat>, ns: nat, qk: Seq<int>, ks: Seq<int>, qk2: Seq<int>, ks2: Seq<int>, k: int)
    requires
        leaf_pending(e, ns, qk, ks, k),
        qk.len() <= qk2.len(),
        qk2.subrange(0, qk.len() as int) == qk,
        ks.len() <= ks2.len(),
        ks2.subrange(0, ks.len() as int) == ks,
    ensures
        leaf_pending(e, ns, qk2, ks2, k),
{
    if exists|i: int| 0 <= i < ks.len() && #[trigger] ks[i] == k {
        let i = choose|i: int| 0 <= i < ks.len() && #[trigger] ks[i] == k;
        assert(ks2.subrange(0, ks.len() as int)[i] == ks[i]);
        assert(ks2[i] == k);
    } else {
        let (x, l) = choose|x: int, l: int|
            #![trigger qk[x], ancestor(e, ns, k, l)]
            0 <= x < qk.len() && 0 <= l < e.len() && qk[x] == ancestor(e, ns, k, l);
        assert(qk2.subrange(0, qk.len() as int)[x] == qk[x]);
        assert(qk2[x] == ancestor(e, ns, k, l));
    }
}

/// Reporting a queued leaf keeps every leaf pending.
proof fn lemma_pending_pop_leaf(n: nat, ns: nat, qk: Seq<int>, ks: Seq<int>, mi: int, k: int)
    requires
        n >= 1,
        0 <= k < n,
        leaf_pending(level_ends(n, ns), ns, qk, ks, k),
        0 <= mi < qk.len(),
        0 <= qk[mi] < n,
    ensures
        leaf_pending(level_ends(n, ns), ns, qk.remove(mi), ks.push(qk[mi]), k),
{
    let e = level_ends(n, ns);
    let qk2 = qk.remove(mi);
    let ks2 = ks.push(qk[mi]);
    if exists|i: int| 0 <= i < ks.len() && #[trigger] ks[i] == k {
        let i = choose|i: int| 0 <= i < ks.len() && #[trigger] ks[i] == k;
        assert(ks2[i] == k);
    } else {
        let (x, l) = choose|x: int, l: int|
            #![trigger qk[x], ancestor(e, ns, k, l)]
            0 <= x < qk.len() && 0 <= l < e.len() && qk[x] == ancestor(e, ns, k, l);
        if x == mi {
            lemma_ancestor_leaf(n, ns, k, l);
            assert(ks2[ks.len() as int] == k);
        } else if x < mi {
            assert(qk2[x] == qk[x]);
        } else {
            assert(qk2[x - 1] == qk[x]);
        }
    }
}

/// Taking a queued node out of the queue keeps every leaf pending, or makes the node the one
/// whose children hold an ancestor of the leaf.
proof fn lemma_pending_pop_node(n: nat, ns: nat, qk: Seq<int>, ks: Seq<int>, mi: int, k: int)
    requires
        n >= 1,
        0 <= k < n,
        leaf_pending(level_ends(n, ns), ns, qk, ks, k),
        0 <= mi < qk.len(),
        qk[mi] >= n,
    ensures
        leaf_pending(level_ends(n, ns), ns, qk.remove(mi), ks, k) || exists|l: int|
            1 <= l < level_ends(n, ns).len() && #[trigger] ancestor(level_ends(n, ns), ns, k, l)
                == qk[mi],
{
    let e = level_ends(n, ns);
    let qk2 = qk.remove(mi);
    if exists|i: int| 0 <= i < ks.len() && #[trigger] ks[i] == k {
    } else {
        let (x, l) = choose|x: int, l: int|
            #![trigger qk[x], ancestor(e, ns, k, l)]
            0 <= x < qk.len() && 0 <= l < e.len() && qk[x] == ancestor(e, ns, k, l);
        if x == mi {
            lemma_ancestor_leaf(n, ns, k, l);
            assert(1 <= l < e.len() && ancestor(e, ns, k, l) == qk[mi]);
        } else if x < mi {
            assert(qk2[x] == qk[x]);
        } else {
            assert(qk2[x - 1] == qk[x]);
        }
    }
}

/// Walking the group at `node_index` (the root, or the children of `cur`, an ancestor of leaf
/// `k`) queues an ancestor of `k`, or `k` itself, when `k` is within the largest distance.
proof fn lemma_walk_group<N: IndexableNum, D: BoxDistance<N>>(
    d: D,
    b: Seq<int>,
    idx: Seq<nat>,
    n: nat,
    ns: nat,
    maxd: int,
    cur: int,
    node_index: int,
    hi: int,
    qk: Seq<int>,
    nq: Seq<int>,
    ks: Seq<int>,
    k: int,
)
    requires
        d.exact(),
        d.fits(n, idx),
        tree_shape(b, idx, n, ns),
        boxes_ordered(b),
        n >= 1,
        !(n == 1 && ns == 0),
        n == 1 || ns >= 2,
        4 * level_ends(n, ns).last() <= b.len(),
        level_ends(n, ns).last() <= idx.len(),
        0 <= k < n,
        node_dist(d, b, k) <= maxd,
        cur == -1 || exists|l: int|
            1 <= l < level_ends(n, ns).len() && #[trigger] ancestor(level_ends(n, ns), ns, k, l) == cur,
        cur == -1 ==> node_index == 4 * (level_ends(n, ns).last() - 1),
        cur != -1 ==> node_index == idx[cur],
        ({
            let e = level_ends(n, ns);
            let lv = if cur == -1 {
                e.len() - 1
            } else {
                level_of(e, cur) - 1
            };
            0 <= lv < e.len() && level_start(e, lv) <= node_index / 4 < e[lv] ==> hi == min_int(
                node_index / 4 + ns,
                e[lv] as int,
            )
        }),
        forall|c: int|
            #![trigger node_dist(d, b, c)]
            node_index / 4 <= c < hi && d.exact() && node_dist(d, b, c) <= maxd && (node_index < 4 * n
                || idx[c] < node_index) ==> exists|x: int| qk.len() <= x < nq.len() && #[trigger] nq[x] == c,
    ensures
        leaf_pending(level_ends(n, ns), ns, nq, ks, k),
{
    let e = level_ends(n, ns);
    let top = e.len() - 1;
    lemma_level_ends(n, ns);
    let l: int = if cur == -1 {
        top + 1
    } else {
        choose|l: int| 1 <= l < e.len() && #[trigger] ancestor(e, ns, k, l) == cur
    };
    let lw = l - 1;
    let w = ancestor(e, ns, k, lw);
    lemma_ancestor(n, ns, k, lw);
    lemma_ancestor_nearer(d, b, idx, n, ns, k, lw);
    if cur == -1 {
        lemma_ancestor_root(n, ns, k);
        lemma_top_single(n, ns);
        if top >= 1 {
            lemma_walk_children(b, idx, n, ns, k, top);
            assert(e[top - 1] == level_start(e, top));
            assert(idx[w] < node_index);
        } else {
            assert(e[0] == n);
        }
    } else {
        lemma_walk_children(b, idx, n, ns, k, l);
        lemma_ancestor(n, ns, k, l);
        assert(level_start(e, l) == e[l - 1]);
        if lw >= 1 {
            lemma_walk_children(b, idx, n, ns, k, lw);
            assert(level_start(e, lw) == e[lw - 1]);
            assert(e[0] <= e[lw - 1]);
            assert(idx[w] < node_index);
        } else {
            assert(level_start(e, 0) == 0);
        }
    }
    assert(node_index / 4 <= w < hi);
    let x = choose|x: int| qk.len() <= x < nq.len() && #[trigger] nq[x] == w;
    assert(nq[x] == ancestor(e, ns, k, lw));
}

/// The entries of `s` from position `from` on are strictly increasing.
#[verifier::opaque]
spec fn rising(s: Seq<int>, from: int) -> bool {
    forall|e1: int, e2: int| from <= e1 < e2 < s.len() ==> #[trigger] s[e1] < #[trigger] s[e2]
}

/// No leaf is reported twice, nor reported and still under a queued node; no leaf is under two
/// queued nodes; and, when `cur` is not -1, no reported or queued leaf is under node `cur`.
#[verifier::opaque]
spec fn apart(e: Seq<nat>, ns: nat, n: nat, qk: Seq<int>, cur: int, ks: Seq<int>) -> bool {
    &&& forall|i: int, j: int| 0 <= i < j < ks.len() ==> #[trigger] ks[i] != #[trigger] ks[j]
    &&& forall|x1: int, x2: int, k: int|
        0 <= x1 < x2 < qk.len() && 0 <= k < n ==> !(#[trigger] covers(e, ns, qk[x1], k)
            && #[trigger] covers(e, ns, qk[x2], k))
    &&& forall|x: int, i: int|
        0 <= x < qk.len() && 0 <= i < ks.len() ==> !#[trigger] covers(e, ns, qk[x], #[trigger] ks[i])
    &&& cur >= 0 ==> forall|x: int, k: int|
        0 <= x < qk.len() && 0 <= k < n ==> !(#[trigger] covers(e, ns, qk[x], k) && #[trigger] covers(
            e,
            ns,
            cur,
            k,
        ))
    &&& cur >= 0 ==> forall|i: int| 0 <= i < ks.len() ==> !#[trigger] covers(e, ns, cur, ks[i])
}

/// Reporting the queued leaf at `mi` keeps the queue and the results apart.
proof fn lemma_apart_pop_leaf(n: nat, ns: nat, qk: Seq<int>, ks: Seq<int>, mi: int)
    requires
        n >= 1,
        apart(level_ends(n, ns), ns, n, qk, -1, ks),
        0 <= mi < qk.len(),
        0 <= qk[mi] < n,
    ensures
        apart(level_ends(n, ns), ns, n, qk.remove(mi), -1, ks.push(qk[mi])),
{
    reveal(apart);
    let e = level_ends(n, ns);
    lemma_level_ends(n, ns);
    let k = qk[mi];
    let qk2 = qk.remove(mi);
    let ks2 = ks.push(k);
    assert(ancestor(e, ns, k, 0) == k);
    assert(covers(e, ns, k, k));
    assert forall|i: int, j: int| 0 <= i < j < ks2.len() implies #[trigger] ks2[i] != #[trigger] ks2[j] by {
        if j == ks.len() {
            assert(!covers(e, ns, qk[mi], ks[i]));
        } else {
            assert(ks[i] != ks[j]);
        }
    }
    assert forall|x1: int, x2: int, j: int|
        0 <= x1 < x2 < qk2.len() && 0 <= j < n implies !(#[trigger] covers(e, ns, qk2[x1], j)
        && #[trigger] covers(e, ns, qk2[x2], j)) by {
        let y1 = if x1 < mi { x1 } else { x1 + 1 };
        let y2 = if x2 < mi { x2 } else { x2 + 1 };
        assert(qk2[x1] == qk[y1]);
        assert(qk2[x2] == qk[y2]);
        assert(!(covers(e, ns, qk[y1], j) && covers(e, ns, qk[y2], j)));
    }
    assert forall|x: int, i: int|
        0 <= x < qk2.len() && 0 <= i < ks2.len() implies !#[trigger] covers(e, ns, qk2[x], #[trigger] ks2[i]) by {
        let y = if x < mi { x } else { x + 1 };
        assert(qk2[x] == qk[y]);
        if i == ks.len() {
            if y < mi {
                assert(!(covers(e, ns, qk[y], k) && covers(e, ns, qk[mi], k)));
            } else {
                assert(!(covers(e, ns, qk[mi], k) && covers(e, ns, qk[y], k)));
            }
        } else {
            assert(ks2[i] == ks[i]);
            assert(!covers(e, ns, qk[y], ks[i]));
        }
    }
}

/// Taking the queued node at `mi` out of the queue to open it keeps everything apart.
proof fn lemma_apart_pop_node(n: nat, ns: nat, qk: Seq<int>, ks: Seq<int>, mi: int)
    requires
        apart(level_ends(n, ns), ns, n, qk, -1, ks),
        0 <= mi < qk.len(),
        qk[mi] >= 0,
    ensures
        apart(level_ends(n, ns), ns, n, qk.remove(mi), qk[mi], ks),
{
    reveal(apart);
    let e = level_ends(n, ns);
    let c = qk[mi];
    let qk2 = qk.remove(mi);
    assert forall|x1: int, x2: int, j: int|
        0 <= x1 < x2 < qk2.len() && 0 <= j < n implies !(#[trigger] covers(e, ns, qk2[x1], j)
        && #[trigger] covers(e, ns, qk2[x2], j)) by {
        let y1 = if x1 < mi { x1 } else { x1 + 1 };
        let y2 = if x2 < mi { x2 } else { x2 + 1 };
        assert(qk2[x1] == qk[y1]);
        assert(qk2[x2] == qk[y2]);
        assert(!(covers(e, ns, qk[y1], j) && covers(e, ns, qk[y2], j)));
    }
    assert forall|x: int, i: int|
        0 <= x < qk2.len() && 0 <= i < ks.len() implies !#[trigger] covers(e, ns, qk2[x], #[trigger] ks[i]) by {
        let y = if x < mi { x } else { x + 1 };
        assert(qk2[x] == qk[y]);
        assert(!covers(e, ns, qk[y], ks[i]));
    }
    assert forall|x: int, j: int|
        0 <= x < qk2.len() && 0 <= j < n implies !(#[trigger] covers(e, ns, qk2[x], j) && #[trigger] covers(
        e,
        ns,
        c,
        j,
    )) by {
        let y = if x < mi { x } else { x + 1 };
        assert(qk2[x] == qk[y]);
        if y < mi {
            assert(!(covers(e, ns, qk[y], j) && covers(e, ns, qk[mi], j)));
        } else {
            assert(!(covers(e, ns, qk[mi], j) && covers(e, ns, qk[y], j)));
        }
    }
    assert forall|i: int| 0 <= i < ks.len() implies !#[trigger] covers(e, ns, c, ks[i]) by {
        assert(!covers(e, ns, qk[mi], ks[i]));
    }
}

/// Queueing distinct nodes of one level, each a child of the node being opened (or, with
/// nothing queued or reported, any such nodes), keeps everything apart.
proof fn lemma_apart_push(n: nat, ns: nat, qk: Seq<int>, cur: int, ks: Seq<int>, r: Seq<int>, m: int)
    requires
        n >= 1,
        apart(level_ends(n, ns), ns, n, qk, cur, ks),
        forall|i: int| 0 <= i < ks.len() ==> 0 <= #[trigger] ks[i] < n,
        qk.len() <= r.len(),
        r.subrange(0, qk.len() as int) == qk,
        rising(r, qk.len() as int),
        0 <= m < level_ends(n, ns).len(),
        forall|x: int|
            qk.len() <= x < r.len() ==> level_start(level_ends(n, ns), m) <= #[trigger] r[x] < level_ends(
                n,
                ns,
            )[m],
        cur < 0 ==> qk.len() == 0 && ks.len() == 0,
        cur >= 0 ==> m + 1 < level_ends(n, ns).len() && level_start(level_ends(n, ns), m + 1) <= cur
            < level_ends(n, ns)[m + 1],
        cur >= 0 ==> forall|x: int|
            qk.len() <= x < r.len() ==> first_child(level_ends(n, ns), ns, m + 1, cur) <= #[trigger] r[x]
                < end_child(level_ends(n, ns), ns, m + 1, cur),
    ensures
        apart(level_ends(n, ns), ns, n, r, -1, ks),
{
    reveal(apart);
    reveal(rising);
    let e = level_ends(n, ns);
    let t = qk.len() as int;
    assert forall|x: int| 0 <= x < t implies #[trigger] r[x] == qk[x] by {
        assert(r.subrange(0, t)[x] == qk[x]);
    }
    assert forall|x1: int, x2: int, j: int|
        0 <= x1 < x2 < r.len() && 0 <= j < n implies !(#[trigger] covers(e, ns, r[x1], j)
        && #[trigger] covers(e, ns, r[x2], j)) by {
        if covers(e, ns, r[x1], j) && covers(e, ns, r[x2], j) {
            if x2 < t {
                assert(r[x1] == qk[x1]);
                assert(r[x2] == qk[x2]);
            } else if x1 < t {
                assert(cur >= 0);
                lemma_child_covers(n, ns, cur, m + 1, r[x2], j);
                assert(r[x1] == qk[x1]);
            } else {
                lemma_covers_level(n, ns, r[x1], j, m);
                lemma_covers_level(n, ns, r[x2], j, m);
                assert(r[x1] < r[x2]);
            }
        }
    }
    assert forall|x: int, i: int|
        0 <= x < r.len() && 0 <= i < ks.len() implies !#[trigger] covers(e, ns, r[x], #[trigger] ks[i]) by {
        if x < t {
            assert(r[x] == qk[x]);
        } else if covers(e, ns, r[x], ks[i]) {
            assert(cur >= 0);
            lemma_child_covers(n, ns, cur, m + 1, r[x], ks[i]);
        }
    }
}

/// The index of an entry of least distance (the first such).
fn min_index(queue: &Vec<(i128, u64)>) -> (i: usize)
    requires
        queue@.len() > 0,
    ensures
        i < queue@.len(),
        forall|e: int| 0 <= e < queue@.len() ==> queue@[i as int].0 <= #[trigger] queue@[e].0,
{
    let mut best: usize = 0;
    let mut k: usize = 1;
    while k < queue.len()
        invariant
            1 <= k <= queue@.len(),
            best < k,
            forall|e: int| 0 <= e < k ==> queue@[best as int].0 <= #[trigger] queue@[e].0,
        decreases queue@.len() - k,
    {
        if queue[k].0 < queue[best].0 {
            best = k;
        }
        k = k + 1;
    }
    best
}

/// Pushes an entry for each node of `lo..hi` within the largest distance: leaves when `leaf`,
/// else nodes whose index (the position of their children) comes before `limit`.
fn push_group<N: IndexableNum, D: BoxDistance<N>>(
    boxes: &Vec<i64>,
    indices: &Indices,
    d: &D,
    lo: usize,
    hi: usize,
    leaf: bool,
    limit: usize,
    n: usize,
    maxd: i128,
    queue: &mut Vec<(i128, u64)>,
    Ghost(qk): Ghost<Seq<int>>,
) -> (r: Ghost<Seq<int>>)
    requires
        d.valid(),
        d.fits(n as nat, indices@),
        lo <= hi,
        4 * hi <= boxes@.len(),
        boxes@.len() == 4 * indices@.len(),
        leaf ==> hi <= n,
        !leaf ==> lo >= n,
        forall|p: int| 0 <= p < boxes@.len() ==> N::spec_min() <= #[trigger] ints(boxes@)[p] <= N::spec_max(),
        forall|k: int| 0 <= k < indices@.len() ==> #[trigger] indices@[k] <= u32::MAX,
        queue_ok(*d, ints(boxes@), indices@, n as nat, indices@.len(), maxd as int, old(queue)@, qk),
    ensures
        queue_ok(*d, ints(boxes@), indices@, n as nat, indices@.len(), maxd as int, final(queue)@, r@),
        final(queue)@.subrange(0, old(queue)@.len() as int) == old(queue)@,
        old(queue)@.len() <= final(queue)@.len() <= old(queue)@.len() + (hi - lo),
        r@.subrange(0, qk.len() as int) == qk,
        forall|e: int| qk.len() <= e < r@.len() ==> lo <= #[trigger] r@[e] < hi,
        rising(r@, qk.len() as int),
        forall|e: int|
            old(queue)@.len() <= e < final(queue)@.len() ==> (#[trigger] final(queue)@[e]).1 % 2 == 1
                || final(queue)@[e].1 / 2 < limit,
        forall|c: int|
            #![trigger node_dist(*d, ints(boxes@), c)]
            lo <= c < hi && d.exact() && node_dist(*d, ints(boxes@), c) <= maxd && (leaf
                || indices@[c] < limit) ==> exists|x: int|
                qk.len() <= x < r@.len() && #[trigger] r@[x] == c,
{
    let ghost b = ints(boxes@);
    let ghost q0 = queue@;
    let ghost mut ks = qk;
    let bl = boxes.len();
    let mut k = lo;
    while k < hi
        invariant
            bl == boxes@.len(),
            lo <= k <= hi,
            4 * hi <= boxes@.len(),
            boxes@.len() == 4 * indices@.len(),
            b == ints(boxes@),
            d.valid(),
            d.fits(n as nat, indices@),
            leaf ==> hi <= n,
            !leaf ==> lo >= n,
            forall|p: int| 0 <= p < boxes@.len() ==> N::spec_min() <= #[trigger] ints(boxes@)[p] <= N::spec_max(),
            forall|i: int| 0 <= i < indices@.len() ==> #[trigger] indices@[i] <= u32::MAX,
            queue_ok(*d, b, indices@, n as nat, indices@.len(), maxd as int, queue@, ks),
            queue@.subrange(0, q0.len() as int) == q0,
            q0.len() <= queue@.len() <= q0.len() + (k - lo),
            qk.len() <= ks.len(),
            q0.len() == qk.len(),
            ks.subrange(0, qk.len() as int) == qk,
            forall|e: int| qk.len() <= e < ks.len() ==> lo <= #[trigger] ks[e] < k,
            forall|e1: int, e2: int| qk.len() <= e1 < e2 < ks.len() ==> #[trigger] ks[e1] < #[trigger] ks[e2],
            forall|e: int|
                q0.len() <= e < queue@.len() ==> (#[trigger] queue@[e]).1 % 2 == 1 || queue@[e].1 / 2
                    < limit,
            forall|c: int|
                #![trigger node_dist(*d, b, c)]
                lo <= c < k && d.exact() && node_dist(*d, b, c) <= maxd && (leaf || indices@[c]
                    < limit) ==> exists|x: int| qk.len() <= x < ks.len() && #[trigger] ks[x] == c,
        decreases hi - k,
    {
        let pos = 4 * k;
        proof {
            assert(N::spec_min() <= b[pos as int] <= N::spec_max());
            assert(N::spec_min() <= b[pos + 1] <= N::spec_max());
            assert(N::spec_min() <= b[pos + 2] <= N::spec_max());
            assert(N::spec_min() <= b[pos + 3] <= N::spec_max());
        }
        let index = indices.get(k);
        let dist = d.box_dist(
            leaf,
            index,
            boxes[pos],
            boxes[pos + 1],
            boxes[pos + 2],
            boxes[pos + 3],
            Ghost(n as nat),
            Ghost(indices@),
            Ghost(k as int),
        );
        proof {
            assert(b[4 * k + 0] == b[pos as int]);
            assert(d.exact() ==> dist == node_dist(*d, b, k as int));
        }
        // (an index that cannot be doubled in a `usize` is not queued, nor a node whose children
        // do not come before the group being walked)
        if dist <= maxd && (leaf || index < limit) {
            let id: u64 = if leaf {
                index as u64 * 2 + 1
            } else {
                index as u64 * 2
            };
            let ghost qb = queue@;
            queue.push((dist, id));
            proof {
                let ks2 = ks.push(k as int);
                assert(entry_ok(*d, b, indices@, n as nat, indices@.len(), maxd as int, (dist, id), k as int));
                assert forall|e: int| 0 <= e < queue@.len() implies #[trigger] entry_ok(
                    *d,
                    b,
                    indices@,
                    n as nat,
                    indices@.len(),
                    maxd as int,
                    queue@[e],
                    ks2[e],
                ) by {
                    if e < qb.len() {
                        assert(queue@[e] == qb[e]);
                        assert(ks2[e] == ks[e]);
                    }
                }
                assert(queue@.subrange(0, q0.len() as int) =~= q0) by {
                    assert forall|e: int| 0 <= e < q0.len() implies queue@[e] == q0[e] by {
                        assert(queue@[e] == qb[e]);
                        assert(qb.subrange(0, q0.len() as int)[e] == q0[e]);
                    }
                }
                assert(ks2.subrange(0, qk.len() as int) =~= qk) by {
                    assert forall|e: int| 0 <= e < qk.len() implies ks2[e] == qk[e] by {
                        assert(ks.subrange(0, qk.len() as int)[e] == qk[e]);
                    }
                }
                assert forall|e: int| q0.len() <= e < queue@.len() implies (#[trigger] queue@[e]).1 % 2
                    == 1 || queue@[e].1 / 2 < limit by {
                    if e < qb.len() {
                        assert(queue@[e] == qb[e]);
                    }
                }
                assert forall|x: int| 0 <= x < ks.len() implies #[trigger] ks2[x] == ks[x] by {}
                assert(ks2[ks.len() as int] == k);
                assert forall|c: int|
                    #![trigger node_dist(*d, b, c)]
                    lo <= c < k + 1 && d.exact() && node_dist(*d, b, c) <= maxd && (leaf
                        || indices@[c] < limit) implies exists|x: int|
                    qk.len() <= x < ks2.len() && #[trigger] ks2[x] == c by {
                    if c < k {
                        let x0 = choose|x: int| qk.len() <= x < ks.len() && #[trigger] ks[x] == c;
                        assert(ks2[x0] == c);
                    }
                }
                ks = ks2;
            }
        } else {
            proof {
                assert forall|c: int|
                    #![trigger node_dist(*d, b, c)]
                    lo <= c < k + 1 && d.exact() && node_dist(*d, b, c) <= maxd && (leaf
                        || indices@[c] < limit) implies exists|x: int|
                    qk.len() <= x < ks.len() && #[trigger] ks[x] == c by {
                    if c == k {
                        assert(indices@[c] == index);
                    }
                }
            }
        }
        k = k + 1;
    }
    proof {
        reveal(rising);
    }
    Ghost(ks)
}

/// Reports queued leaves while the nearest entry is a leaf: stops at a nearest node (whose
/// position in the queue is returned), at an empty queue, or when the results are complete
/// (`true`).
fn pop_leaves<N: IndexableNum, D: BoxDistance<N>>(
    d: &D,
    Ghost(boxes): Ghost<Seq<int>>,
    Ghost(indices): Ghost<Seq<nat>>,
    Ghost(n): Ghost<nat>,
    Ghost(nodes): Ghost<nat>,
    queue: &mut Vec<(i128, u64)>,
    results: &mut Vec<u32>,
    max_results: Option<usize>,
    maxd: i128,
    Ghost(qk): Ghost<Seq<int>>,
    Ghost(ks): Ghost<Seq<int>>,
    Ghost(track): Ghost<bool>,
    Ghost(ns): Ghost<nat>,
    Ghost(keep): Ghost<bool>,
    Ghost(sep): Ghost<bool>,
) -> (r: (bool, Option<usize>, Ghost<Seq<int>>, Ghost<Seq<int>>))
    requires
        n >= 1,
        sep ==> apart(level_ends(n, ns), ns, n, qk, -1, ks),
        keep ==> all_pending(*d, boxes, n, ns, maxd as int, qk, ks),
        forall|k: int| 0 <= k < indices.len() ==> #[trigger] indices[k] <= u32::MAX,
        queue_ok(*d, boxes, indices, n, nodes, maxd as int, old(queue)@, qk),
        results_ok(*d, boxes, indices, n, maxd as int, old(results)@, ks),
        nodes <= indices.len(),
        track ==> d.exact() && order_ok(*d, boxes, old(queue)@, ks),
        !reached(max_results, old(results)@.len()),
        within_max(max_results, old(results)@.len()),
    ensures
        queue_ok(*d, boxes, indices, n, nodes, maxd as int, final(queue)@, r.2@),
        results_ok(*d, boxes, indices, n, maxd as int, final(results)@, r.3@),
        track ==> order_ok(*d, boxes, final(queue)@, r.3@),
        within_max(max_results, final(results)@.len()),
        reached(max_results, final(results)@.len()) ==> r.0,
        r.1 matches Some(mi) ==> !r.0 && mi < final(queue)@.len() && final(queue)@[mi as int].1 % 2
            == 0 && forall|e: int|
            0 <= e < final(queue)@.len() ==> final(queue)@[mi as int].0 <= #[trigger] final(queue)@[e].0,
        !r.0 && r.1 is None ==> final(queue)@.len() == 0,
        r.0 ==> reached(max_results, final(results)@.len()),
        queue_weight(final(queue)@) == queue_weight(old(queue)@),
        ks.len() <= r.3@.len(),
        r.3@.subrange(0, ks.len() as int) == ks,
        keep ==> all_pending(*d, boxes, n, ns, maxd as int, r.2@, r.3@),
        sep ==> apart(level_ends(n, ns), ns, n, r.2@, -1, r.3@),
{
    let ghost mut qk2 = qk;
    let ghost mut ks2 = ks;
    let mut stop = false;
    let mut top: Option<usize> = None;
    while queue.len() > 0 && !stop && top.is_none()
        invariant
            forall|k: int| 0 <= k < indices.len() ==> #[trigger] indices[k] <= u32::MAX,
            nodes <= indices.len(),
            queue_ok(*d, boxes, indices, n, nodes, maxd as int, queue@, qk2),
            results_ok(*d, boxes, indices, n, maxd as int, results@, ks2),
            track ==> d.exact() && order_ok(*d, boxes, queue@, ks2),
            within_max(max_results, results@.len()),
            reached(max_results, results@.len()) ==> stop,
            stop ==> reached(max_results, results@.len()),
            queue_weight(queue@) == queue_weight(old(queue)@),
            ks.len() <= ks2.len(),
            ks2.subrange(0, ks.len() as int) == ks,
            n >= 1,
            keep ==> all_pending(*d, boxes, n, ns, maxd as int, qk2, ks2),
            sep ==> apart(level_ends(n, ns), ns, n, qk2, -1, ks2),
            top matches Some(mi) ==> !stop && mi < queue@.len() && queue@[mi as int].1 % 2 == 0
                && forall|e: int| 0 <= e < queue@.len() ==> queue@[mi as int].0 <= #[trigger] queue@[e].0,
        decreases 2 * queue@.len() + (if stop || top is Some {
            0int
        } else {
            1int
        }),
    {
        let mi = min_index(queue);
        proof {
            assert(entry_ok(*d, boxes, indices, n, nodes, maxd as int, queue@[mi as int], qk2[mi as int]));
        }
        if queue[mi].1 % 2 == 0 {
            // the nearest entry is a node
            top = Some(mi);
        } else if queue[mi].0 > maxd {
            stop = true;
        } else {
            let ghost q0 = queue@;
            let ghost k = qk2[mi as int];
            let item = queue.remove(mi);
            results.push((item.1 / 2) as u32);
            proof {
                let qk3 = qk2.remove(mi as int);
                let ks3 = ks2.push(k);
                assert(queue@ == q0.remove(mi as int));
                lemma_queue_weight_remove(q0, mi as int);
                if sep {
                    lemma_apart_pop_leaf(n, ns, qk2, ks2, mi as int);
                }
                if keep {
                    assert forall|j: int|
                        #![trigger node_dist(*d, boxes, j)]
                        0 <= j < n && node_dist(*d, boxes, j) <= maxd implies leaf_pending(
                        level_ends(n, ns),
                        ns,
                        qk3,
                        ks3,
                        j,
                    ) by {
                        lemma_pending_pop_leaf(n, ns, qk2, ks2, mi as int, j);
                    }
                }
                assert(ks3.subrange(0, ks.len() as int) =~= ks) by {
                    assert forall|i: int| 0 <= i < ks.len() implies ks3[i] == ks[i] by {
                        assert(ks3[i] == ks2[i]);
                        assert(ks2.subrange(0, ks.len() as int)[i] == ks[i]);
                    }
                }
                assert forall|e: int| 0 <= e < queue@.len() implies #[trigger] entry_ok(
                    *d,
                    boxes,
                    indices,
                    n,
                    nodes,
                    maxd as int,
                    queue@[e],
                    qk3[e],
                ) by {
                    if e < mi {
                        assert(queue@[e] == q0[e]);
                    } else {
                        assert(queue@[e] == q0[e + 1]);
                    }
                }
                assert forall|i: int| 0 <= i < results@.len() implies 0 <= #[trigger] ks3[i] < n
                    && results@[i] as nat == indices[ks3[i]] && (d.exact() ==> node_dist(
                    *d,
                    boxes,
                    ks3[i],
                ) <= maxd) by {
                    if i < ks2.len() {
                        assert(ks3[i] == ks2[i]);
                    }
                }
                if track {
                    assert forall|i: int, j: int| 0 <= i < j < ks3.len() implies node_dist(
                        *d,
                        boxes,
                        #[trigger] ks3[i],
                    ) <= node_dist(*d, boxes, #[trigger] ks3[j]) by {
                        if j == ks2.len() {
                            assert(ks3[i] == ks2[i]);
                            if ks2.len() > 0 {
                                assert(q0[mi as int].0 >= node_dist(*d, boxes, ks2.last()));
                                assert(node_dist(*d, boxes, ks2[i]) <= node_dist(*d, boxes, ks2.last()));
                            }
                        } else {
                            assert(ks3[i] == ks2[i]);
                            assert(ks3[j] == ks2[j]);
                        }
                    }
                    assert forall|e: int| 0 <= e < queue@.len() implies #[trigger] queue@[e].0
                        >= node_dist(*d, boxes, ks3.last()) by {
                        if e < mi {
                            assert(queue@[e] == q0[e]);
                        } else {
                            assert(queue@[e] == q0[e + 1]);
                        }
                    }
                }
                qk2 = qk3;
                ks2 = ks3;
            }
            match max_results {
                Some(m) => {
                    if results.len() == m {
                        stop = true;
                    }
                },
                None => {},
            }
        }
    }
    (stop, top, Ghost(qk2), Ghost(ks2))
}

/// The children of a node are at least as far as the node: its box covers theirs.
proof fn lemma_children_farther<N: IndexableNum, D: BoxDistance<N>>(
    d: D,
    boxes: Seq<int>,
    indices: Seq<nat>,
    n: nat,
    ends: Seq<nat>,
    ns: nat,
    l: int,
    s: int,
)
    requires
        d.exact(),
        d.fits(n, indices),
        n <= s,
        parent_ok(boxes, indices, ends, ns, l, s),
        0 <= first_child(ends, ns, l, s),
        4 * end_child(ends, ns, l, s) <= boxes.len(),
        boxes_ordered(boxes),
    ensures
        forall|k: int|
            first_child(ends, ns, l, s) <= k < end_child(ends, ns, l, s) ==> node_dist(d, boxes, s)
                <= #[trigger] node_dist(d, boxes, k),
{
    let c0 = first_child(ends, ns, l, s);
    let c1 = end_child(ends, ns, l, s);
    lemma_fold_bounds(boxes, c0 + 1, c1, 0, boxes[4 * c0]);
    lemma_fold_bounds(boxes, c0 + 1, c1, 1, boxes[4 * c0 + 1]);
    lemma_fold_bounds(boxes, c0 + 1, c1, 2, boxes[4 * c0 + 2]);
    lemma_fold_bounds(boxes, c0 + 1, c1, 3, boxes[4 * c0 + 3]);
    assert forall|k: int| c0 <= k < c1 implies node_dist(d, boxes, s) <= #[trigger] node_dist(
        d,
        boxes,
        k,
    ) by {
        assert(boxes[4 * k] <= boxes[4 * k + 2] && boxes[4 * k + 1] <= boxes[4 * k + 3]);
        if k > c0 {
            assert(boxes[4 * k + 0] == boxes[4 * k]);
        }
        d.lemma_monotone(
            n,
            indices,
            k,
            (boxes[4 * k], boxes[4 * k + 1], boxes[4 * k + 2], boxes[4 * k + 3]),
            s,
            (boxes[4 * s], boxes[4 * s + 1], boxes[4 * s + 2], boxes[4 * s + 3]),
        );
    }
}

/// Searches the tree for the items nearest to a point, best first: the queue holds the boxes
/// met so far by distance; the nearest queued leaves are reported, and the nearest queued node
/// is opened next. Boxes farther than `maxd` are left out, and the search stops after
/// `max_results` items (when given and not 0). Returns the results and the leaves they came
/// from.
///
/// Every result is the stored index of a leaf; with an exact distance it is within `maxd`. In a
/// tree of the shape that the builder makes, no leaf is reported twice, and with well-formed
/// boxes the results come in order of distance. The search opens at most as many nodes as the tree has.
#[verifier::spinoff_prover]
#[verifier::rlimit(100)]
pub(crate) fn nearest<N: IndexableNum, D: BoxDistance<N>>(
    boxes: &Vec<i64>,
    indices: &Indices,
    metadata: &RTreeMetadata<N>,
    d: &D,
    max_results: Option<usize>,
    maxd: i128,
) -> (r: (Vec<u32>, Ghost<Seq<int>>))
    requires
        rtree_layout(*metadata, ints(boxes@), indices@, indices.is_u16()),
        d.valid(),
        d.fits(metadata.spec_num_items(), indices@),
    ensures
        results_ok(*d, ints(boxes@), indices@, metadata.spec_num_items(), maxd as int, r.0@, r.1@),
        within_max(max_results, r.0@.len()),
        d.exact() && tree_shape(
            ints(boxes@),
            indices@,
            metadata.spec_num_items(),
            metadata.spec_node_size(),
        ) && boxes_ordered(ints(boxes@)) ==> forall|i: int, j: int|
            0 <= i < j < r.1@.len() ==> node_dist(*d, ints(boxes@), #[trigger] r.1@[i]) <= node_dist(
                *d,
                ints(boxes@),
                #[trigger] r.1@[j],
            ),
        d.exact() && tree_shape(
            ints(boxes@),
            indices@,
            metadata.spec_num_items(),
            metadata.spec_node_size(),
        ) && boxes_ordered(ints(boxes@)) && !(metadata.spec_num_items() == 1
            && metadata.spec_node_size() == 0) ==> forall|k: int|
            #![trigger node_dist(*d, ints(boxes@), k)]
            0 <= k < metadata.spec_num_items() && node_dist(*d, ints(boxes@), k) <= maxd ==> (exists|i: int|
                0 <= i < r.1@.len() && #[trigger] r.1@[i] == k) || (reached(max_results, r.0@.len())
                && r.1@.len() > 0 && node_dist(*d, ints(boxes@), k) >= node_dist(*d, ints(boxes@), r.1@.last())),
        tree_shape(ints(boxes@), indices@, metadata.spec_num_items(), metadata.spec_node_size()) && !(
        metadata.spec_num_items() == 1 && metadata.spec_node_size() == 0) ==> r.1@.no_duplicates(),
{
    let ghost b = ints(boxes@);
    let ghost idx = indices@;
    let ghost n = metadata.spec_num_items();
    let ghost ns = metadata.spec_node_size();
    let ghost e = level_ends(n, ns);
    let ghost top = e.len() - 1;
    let ghost nodes = metadata.spec_num_nodes();
    let ghost ordered = d.exact() && tree_shape(b, idx, n, ns) && boxes_ordered(b);
    let ghost complete = ordered && !(n == 1 && ns == 0);
    let ghost shaped = tree_shape(b, idx, n, ns);
    let ghost sep = shaped && !(n == 1 && ns == 0);
    proof {
        lemma_level_ends(n, ns);
        metadata.lemma_sizes();
        crate::bytes::lemma_pow256_facts();
        assert forall|k: int| 0 <= k < idx.len() implies #[trigger] idx[k] <= u32::MAX by {
            assert(idx[k] < crate::bytes::pow256(crate::rtree::index::index_width(nodes)));
        }
    }
    let n_items = metadata.num_items();
    let num_nodes = metadata.num_nodes();
    let mut queue: Vec<(i128, u64)> = Vec::new();
    let mut results: Vec<u32> = Vec::new();
    let ghost mut qk: Seq<int> = Seq::empty();
    let ghost mut ks: Seq<int> = Seq::empty();
    let mut node_index: usize = boxes.len() - 4;
    let mut have_node = true;
    let mut stop = false;
    let ghost mut cur: int = -1;
    proof {
        assert(apart(e, ns, n, qk, -1, ks)) by {
            reveal(apart);
        }
    }
    while have_node && !stop
        invariant
            rtree_layout(*metadata, b, idx, indices.is_u16()),
            b == ints(boxes@),
            idx == indices@,
            n == metadata.spec_num_items(),
            ns == metadata.spec_node_size(),
            e == level_ends(n, ns),
            top == e.len() - 1,
            nodes == metadata.spec_num_nodes(),
            nodes == e[top as int],
            n_items == n,
            num_nodes == nodes,
            n >= 1,
            d.valid(),
            d.fits(n as nat, indices@),
            ordered == (d.exact() && tree_shape(b, idx, n, ns) && boxes_ordered(b)),
            forall|k: int| 0 <= k < idx.len() ==> #[trigger] idx[k] <= u32::MAX,
            queue_ok(*d, b, idx, n, nodes, maxd as int, queue@, qk),
            results_ok(*d, b, idx, n, maxd as int, results@, ks),
            within_max(max_results, results@.len()),
            reached(max_results, results@.len()) ==> stop,
            ordered ==> order_ok(*d, b, queue@, ks),
            cur >= -1,
            complete == (ordered && !(n == 1 && ns == 0)),
            n == 1 || ns >= 2,
            4 * nodes <= b.len(),
            nodes <= idx.len(),
            !have_node ==> stop || queue@.len() == 0,
            stop ==> reached(max_results, results@.len()),
            complete ==> forall|k: int|
                #![trigger node_dist(*d, b, k)]
                0 <= k < n && node_dist(*d, b, k) <= maxd ==> leaf_pending(e, ns, qk, ks, k) || (have_node
                    && !stop && (cur == -1 || exists|l: int|
                    1 <= l < e.len() && #[trigger] ancestor(e, ns, k, l) == cur)),
            shaped == tree_shape(b, idx, n, ns),
            sep == (shaped && !(n == 1 && ns == 0)),
            shaped && have_node && !stop ==> {
                &&& cur == -1 ==> node_index == 4 * (nodes - 1) && ks.len() == 0 && qk.len() == 0
                &&& cur >= 0 ==> n <= cur < nodes && node_index == idx[cur]
            },
            ordered && have_node && !stop && cur >= 0 && ks.len() > 0 ==> node_dist(*d, b, cur)
                >= node_dist(*d, b, ks.last()),
            sep ==> apart(e, ns, n, qk, if have_node && !stop {
                cur
            } else {
                -1
            }, ks),
        decreases queue_weight(queue@) + (if have_node {
            pow256((4 * node_index) as nat)
        } else {
            0
        }),
    {
        let ghost measure0 = queue_weight(queue@) + pow256((4 * node_index) as nat);
        proof {
            crate::bytes::lemma_pow256_pos((4 * node_index) as nat);
        }
        let ghost lv: int = if cur == -1 {
            top as int
        } else {
            level_of(e, cur) - 1
        };
        proof {
            lemma_level_ends(n, ns);
            if shaped && cur >= 0 {
                lemma_level_of(n, ns, cur);
                let l = level_of(e, cur);
                assert(parent_ok(b, idx, e, ns, l, cur));
                let fc = first_child(e, ns, l, cur);
                assert(fc >= level_start(e, l - 1)) by (nonlinear_arith)
                    requires
                        fc == level_start(e, l - 1) + (cur - level_start(e, l)) * ns,
                        cur >= level_start(e, l),
                ;
                assert(level_start(e, l) == e[l - 1]);
                crate::rtree::structure::lemma_level_step(n, ns, l);
                if l - 2 >= 1 {
                    assert(e[0] < e[l - 2]);
                }
                if l < top {
                    assert(e[l] < e[top as int]);
                }
                assert(idx[cur] == 4 * fc);
                assert(fc < e[l - 1]);
            }
            if shaped && cur == -1 {
                assert(level_start(e, top as int) <= nodes - 1) by {
                    if top >= 1 {
                        assert(e[top - 1] < e[top as int]);
                    }
                }
            }
        }
        proof {
            if sep {
                assert(node_index % 4 == 0 && node_index < boxes.len());
            }
        }
        if node_index % 4 == 0 && node_index < boxes.len() {
            let end = group_end(metadata, node_index, Ghost(lv));
            let leaf = node_index < 4 * n_items;
            let ghost q0 = queue@;
            let ghost qk0 = qk;
            proof {
                if !leaf {
                    assert(node_index / 4 >= n);
                }
                if leaf {
                    assert(end <= 4 * n);
                }
            }
            let Ghost(nq) = push_group(
                boxes,
                indices,
                d,
                node_index / 4,
                end / 4,
                leaf,
                node_index,
                n_items,
                maxd,
                &mut queue,
                Ghost(qk),
            );
            proof {
                let p = queue@.subrange(q0.len() as int, queue@.len() as int);
                assert(queue@ =~= q0 + p);
                assert forall|x: int| 0 <= x < p.len() implies (#[trigger] p[x]).1 % 2 == 1 || p[x].1 / 2
                    < node_index by {
                    assert(p[x] == queue@[q0.len() + x]);
                }
                assert(p.len() < 4294967296);
                lemma_queue_weight_walk(q0, p, node_index as nat);
            }
            proof {
                if sep {
                    if cur >= 0 {
                        let l = level_of(e, cur);
                        lemma_level_of(n, ns, cur);
                        assert(parent_ok(b, idx, e, ns, l, cur));
                        assert(level_start(e, l - 1) <= node_index / 4 < e[l - 1]);
                        assert(end / 4 == end_child(e, ns, l, cur));
                        lemma_apart_push(n, ns, qk, cur, ks, nq, l - 1);
                    } else {
                        lemma_apart_push(n, ns, qk, cur, ks, nq, top as int);
                    }
                }
            }
            proof {
                if complete {
                    assert forall|k: int|
                        #![trigger node_dist(*d, b, k)]
                        0 <= k < n && node_dist(*d, b, k) <= maxd implies leaf_pending(e, ns, nq, ks, k) by {
                        if leaf_pending(e, ns, qk, ks, k) {
                            assert(ks.subrange(0, ks.len() as int) =~= ks);
                            lemma_pending_grow(e, ns, qk, ks, nq, ks, k);
                        } else {
                            lemma_walk_group(
                                *d,
                                b,
                                idx,
                                n,
                                ns,
                                maxd as int,
                                cur,
                                node_index as int,
                                (end / 4) as int,
                                qk,
                                nq,
                                ks,
                                k,
                            );
                        }
                    }
                }
            }
            proof {
                if ordered && ks.len() > 0 {
                    // the new entries are no nearer than the last result
                    if cur >= 0 {
                        let l = level_of(e, cur);
                        lemma_children_farther(*d, b, idx, n, e, ns, l, cur);
                    }
                    assert forall|x: int| 0 <= x < queue@.len() implies #[trigger] queue@[x].0
                        >= node_dist(*d, b, ks.last()) by {
                        if x < q0.len() {
                            assert(queue@.subrange(0, q0.len() as int)[x] == q0[x]);
                        } else {
                            assert(entry_ok(*d, b, idx, n, nodes, maxd as int, queue@[x], nq[x]));
                            assert(cur >= 0);
                            let l = level_of(e, cur);
                            assert(first_child(e, ns, l, cur) <= nq[x] < end_child(e, ns, l, cur));
                        }
                    }
                }
                qk = nq;
            }
        }
        proof {
            assert(queue_weight(queue@) < measure0);
            if complete {
                assert(all_pending(*d, b, n, ns, maxd as int, qk, ks));
            }
        }
        let (s, top_node, Ghost(nq), Ghost(nks)) = pop_leaves(
            d,
            Ghost(b),
            Ghost(idx),
            Ghost(n),
            Ghost(nodes),
            &mut queue,
            &mut results,
            max_results,
            maxd,
            Ghost(qk),
            Ghost(ks),
            Ghost(ordered),
            Ghost(ns),
            Ghost(complete),
            Ghost(sep),
        );
        proof {
            qk = nq;
            ks = nks;
        }
        stop = s;
        if stop {
            have_node = false;
        } else {
            match top_node {
                Some(mi) => {
                    let ghost q0 = queue@;
                    let item = queue.remove(mi);
                    proof {
                        if complete {
                            assert(entry_ok(*d, b, idx, n, nodes, maxd as int, q0[mi as int], qk[mi as int]));
                            assert forall|k: int|
                                #![trigger node_dist(*d, b, k)]
                                0 <= k < n && node_dist(*d, b, k) <= maxd implies leaf_pending(
                                e,
                                ns,
                                qk.remove(mi as int),
                                ks,
                                k,
                            ) || exists|l: int| 1 <= l < e.len() && #[trigger] ancestor(e, ns, k, l) == qk[mi as int] by {
                                lemma_pending_pop_node(n, ns, qk, ks, mi as int, k);
                            }
                        }
                        lemma_queue_weight_remove(q0, mi as int);
                        if sep {
                            assert(entry_ok(*d, b, idx, n, nodes, maxd as int, q0[mi as int], qk[mi as int]));
                            lemma_apart_pop_node(n, ns, qk, ks, mi as int);
                        }
                        assert(item == q0[mi as int]);
                        assert(queue_weight(queue@) + pow256((4 * (item.1 / 2)) as nat) == queue_weight(q0));
                        assert(entry_ok(*d, b, idx, n, nodes, maxd as int, q0[mi as int], qk[mi as int]));
                        cur = qk[mi as int];
                        let qk3 = qk.remove(mi as int);
                        assert forall|x: int| 0 <= x < queue@.len() implies #[trigger] entry_ok(
                            *d,
                            b,
                            idx,
                            n,
                            nodes,
                            maxd as int,
                            queue@[x],
                            qk3[x],
                        ) by {
                            if x < mi {
                                assert(queue@[x] == q0[x]);
                            } else {
                                assert(queue@[x] == q0[x + 1]);
                            }
                        }
                        if ordered && ks.len() > 0 {
                            assert forall|x: int| 0 <= x < queue@.len() implies #[trigger] queue@[x].0
                                >= node_dist(*d, b, ks.last()) by {
                                if x < mi {
                                    assert(queue@[x] == q0[x]);
                                } else {
                                    assert(queue@[x] == q0[x + 1]);
                                }
                            }
                        }
                        qk = qk3;
                    }
                    node_index = (item.1 / 2) as usize;
                },
                None => {
                    have_node = false;
                },
            }
        }
    }
    proof {
        if complete {
            assert forall|k: int|
                #![trigger node_dist(*d, ints(boxes@), k)]
                0 <= k < metadata.spec_num_items() && node_dist(*d, ints(boxes@), k) <= maxd implies (exists|i: int|
                0 <= i < ks.len() && #[trigger] ks[i] == k) || (reached(max_results, results@.len())
                && ks.len() > 0 && node_dist(*d, ints(boxes@), k) >= node_dist(*d, ints(boxes@), ks.last())) by {
                assert(node_dist(*d, b, k) <= maxd);
                assert(leaf_pending(e, ns, qk, ks, k));
                if !(exists|i: int| 0 <= i < ks.len() && #[trigger] ks[i] == k) {
                    let (x, l) = choose|x: int, l: int|
                        #![trigger qk[x], ancestor(e, ns, k, l)]
                        0 <= x < qk.len() && 0 <= l < e.len() && qk[x] == ancestor(e, ns, k, l);
                    assert(entry_ok(*d, b, idx, n, nodes, maxd as int, queue@[x], qk[x]));
                    lemma_ancestor_nearer(*d, b, idx, n, ns, k, l);
                    assert(stop);
                }
            }
        }
        if sep {
            assert(ks.no_duplicates()) by {
                reveal(apart);
            }
        }
    }
    (results, Ghost(ks))
}


/// The squared distance from `(x, y)` to the box of node `k`.
pub open spec fn sq_dist_to_node(boxes: Seq<int>, x: int, y: int, k: int) -> int {
    box_sq_dist(x, y, boxes[4 * k], boxes[4 * k + 1], boxes[4 * k + 2], boxes[4 * k + 3])
}

/// `r` are the stored indices of the leaves `ks`, each within squared distance `maxd` of
/// `(x, y)`.
pub open spec fn near_leaves(
    boxes: Seq<int>,
    indices: Seq<nat>,
    n: nat,
    x: int,
    y: int,
    maxd: int,
    r: Seq<u32>,
    ks: Seq<int>,
) -> bool {
    &&& ks.len() == r.len()
    &&& forall|i: int|
        0 <= i < r.len() ==> 0 <= #[trigger] ks[i] < n && r[i] as nat == indices[ks[i]]
            && sq_dist_to_node(boxes, x, y, ks[i]) <= maxd
}

/// The nodes `ks` come in order of squared distance from `(x, y)`.
pub open spec fn by_distance(boxes: Seq<int>, x: int, y: int, ks: Seq<int>) -> bool {
    forall|i: int, j: int|
        0 <= i < j < ks.len() ==> sq_dist_to_node(boxes, x, y, #[trigger] ks[i]) <= sq_dist_to_node(
            boxes,
            x,
            y,
            #[trigger] ks[j],
        )
}

/// The largest squared distance of a search whose largest Euclidean distance is the one given
/// (its square; below zero when it is negative, so that nothing is kept), else no limit.
pub open spec fn distance_limit<N: IndexableNum>(max_distance: Option<N>) -> int {
    match max_distance {
        Some(m) => if m.value() < 0 {
            -1
        } else {
            m.value() * m.value()
        },
        None => i128::MAX as int,
    }
}

/// `v` is the stored index of one of the leaves `0..n`.
pub open spec fn is_leaf_index(indices: Seq<nat>, n: nat, v: nat) -> bool {
    exists|k: int| 0 <= k < n && #[trigger] indices[k] == v
}

/// Coordinates of `N` lie within 2^32 of zero.
proof fn lemma_coord_range<N: IndexableNum>()
    ensures
        -0x1_0000_0000 <= N::spec_min(),
        N::spec_max() <= 0x1_0000_0000,
{
    N::lemma_layout();
    crate::bytes::lemma_pow256_facts();
    crate::bytes::lemma_pow_mono(N::spec_bytes_per_element() as nat, 4);
}

/// Every leaf within squared distance `maxd` of `(x, y)` is one of the leaves `ks`, unless the
/// search stopped at `max_results` results, all of them no farther than the leaf.
pub open spec fn nearest_complete(
    boxes: Seq<int>,
    n: nat,
    x: int,
    y: int,
    maxd: int,
    max_results: Option<usize>,
    r: Seq<u32>,
    ks: Seq<int>,
) -> bool {
    forall|k: int|
        #![trigger sq_dist_to_node(boxes, x, y, k)]
        0 <= k < n && sq_dist_to_node(boxes, x, y, k) <= maxd ==> (exists|i: int|
            0 <= i < ks.len() && #[trigger] ks[i] == k) || (reached(max_results, r.len()) && ks.len() > 0
            && sq_dist_to_node(boxes, x, y, ks.last()) <= sq_dist_to_node(boxes, x, y, k))
}

/// The items nearest to `(x, y)` by squared Euclidean distance, nearest first, computed exactly.
pub(crate) fn nearest_squared<N: IndexableNum>(
    boxes: &Vec<i64>,
    indices: &Indices,
    metadata: &RTreeMetadata<N>,
    x: N,
    y: N,
    max_results: Option<usize>,
    max_distance: Option<N>,
) -> (r: Vec<u32>)
    requires
        rtree_layout(*metadata, ints(boxes@), indices@, indices.is_u16()),
    ensures
        exists|ks: Seq<int>|
            #[trigger] near_leaves(
                ints(boxes@),
                indices@,
                metadata.spec_num_items(),
                x.value(),
                y.value(),
                distance_limit(max_distance),
                r@,
                ks,
            ) && (tree_shape(
                ints(boxes@),
                indices@,
                metadata.spec_num_items(),
                metadata.spec_node_size(),
            ) && boxes_ordered(ints(boxes@)) ==> by_distance(ints(boxes@), x.value(), y.value(), ks))
                && (tree_shape(
                ints(boxes@),
                indices@,
                metadata.spec_num_items(),
                metadata.spec_node_size(),
            ) && boxes_ordered(ints(boxes@)) && !(metadata.spec_num_items() == 1
                && metadata.spec_node_size() == 0) ==> nearest_complete(
                ints(boxes@),
                metadata.spec_num_items(),
                x.value(),
                y.value(),
                distance_limit(max_distance),
                max_results,
                r@,
                ks,
            )) && (tree_shape(
                ints(boxes@),
                indices@,
                metadata.spec_num_items(),
                metadata.spec_node_size(),
            ) && !(metadata.spec_num_items() == 1 && metadata.spec_node_size() == 0)
                ==> ks.no_duplicates()),
        within_max(max_results, r@.len()),
{
    proof {
        lemma_coord_range::<N>();
    }
    let d = SquaredDistance::<N> { x: x.to_i64(), y: y.to_i64(), phantom: PhantomData };
    let maxd: i128 = match max_distance {
        Some(m) => {
            let v = m.to_i64() as i128;
            if v < 0 {
                -1
            } else {
                proof {
                    assert(v * v <= 0x1_0000_0000 * 0x1_0000_0000) by (nonlinear_arith)
                        requires
                            0 <= v <= 0x1_0000_0000,
                    ;
                }
                v * v
            }
        },
        None => i128::MAX,
    };
    let (r, Ghost(ks)) = nearest(boxes, indices, metadata, &d, max_results, maxd);
    proof {
        let b = ints(boxes@);
        assert forall|k: int| #[trigger] node_dist(d, b, k) == sq_dist_to_node(b, x.value(), y.value(), k) by {}
        if tree_shape(b, indices@, metadata.spec_num_items(), metadata.spec_node_size()) && boxes_ordered(b)
            && !(metadata.spec_num_items() == 1 && metadata.spec_node_size() == 0) {
            assert forall|k: int|
                #![trigger sq_dist_to_node(b, x.value(), y.value(), k)]
                0 <= k < metadata.spec_num_items() && sq_dist_to_node(b, x.value(), y.value(), k)
                    <= distance_limit(max_distance) implies (exists|i: int|
                0 <= i < ks.len() && #[trigger] ks[i] == k) || (reached(max_results, r@.len()) && ks.len()
                > 0 && sq_dist_to_node(b, x.value(), y.value(), ks.last()) <= sq_dist_to_node(
                b,
                x.value(),
                y.value(),
                k,
            )) by {
                assert(node_dist(d, b, k) == sq_dist_to_node(b, x.value(), y.value(), k));
                if ks.len() > 0 {
                    assert(node_dist(d, b, ks.last()) == sq_dist_to_node(b, x.value(), y.value(), ks.last()));
                }
            }
        }
        assert(near_leaves(
            b,
            indices@,
            metadata.spec_num_items(),
            x.value(),
            y.value(),
            distance_limit(max_distance),
            r@,
            ks,
        ));
    }
    r
}

/// `r` are the stored indices of the leaves `ks`. In a tree of the builder's shape the leaves
/// are distinct. When the measure `d` is exact, each is within `lim` by it, and in a tree of the
/// builder's shape with well-formed boxes they come nearest first, and a leaf within `lim` is
/// left out only when the search stopped at `max_results` results, all of them no farther than
/// it.
pub open spec fn nearest_found<N: IndexableNum, D: BoxDistance<N>>(
    d: D,
    boxes: Seq<int>,
    indices: Seq<nat>,
    n: nat,
    ns: nat,
    lim: int,
    max_results: Option<usize>,
    r: Seq<u32>,
    ks: Seq<int>,
) -> bool {
    &&& ks.len() == r.len()
    &&& forall|i: int|
        0 <= i < r.len() ==> 0 <= #[trigger] ks[i] < n && r[i] as nat == indices[ks[i]] && (d.exact()
            ==> node_dist(d, boxes, ks[i]) <= lim)
    &&& d.exact() && tree_shape(boxes, indices, n, ns) && boxes_ordered(boxes) ==> forall|i: int, j: int|
        0 <= i < j < ks.len() ==> node_dist(d, boxes, #[trigger] ks[i]) <= node_dist(d, boxes, #[trigger] ks[j])
    &&& d.exact() && tree_shape(boxes, indices, n, ns) && boxes_ordered(boxes) && !(n == 1 && ns == 0)
        ==> forall|k: int|
        #![trigger node_dist(d, boxes, k)]
        0 <= k < n && node_dist(d, boxes, k) <= lim ==> (exists|i: int| 0 <= i < ks.len() && #[trigger] ks[i] == k)
            || (reached(max_results, r.len()) && ks.len() > 0 && node_dist(d, boxes, ks.last()) <= node_dist(
            d,
            boxes,
            k,
        ))
    &&& tree_shape(boxes, indices, n, ns) && !(n == 1 && ns == 0) ==> ks.no_duplicates()
}

/// The items nearest to `(x, y)` by a metric of the caller's: the measure of node `k` is the
/// metric's distance from the point to its box (`MetricDistance`), and the largest distance is
/// `max_distance`, else a value that the metric's `max_distance` returns.
pub(crate) fn nearest_by_metric<N: IndexableNum, M: SimpleDistanceMetric<N>>(
    boxes: &Vec<i64>,
    indices: &Indices,
    metadata: &RTreeMetadata<N>,
    x: N,
    y: N,
    max_results: Option<usize>,
    max_distance: Option<N>,
    metric: &M,
) -> (r: Vec<u32>)
    requires
        rtree_layout(*metadata, ints(boxes@), indices@, indices.is_u16()),
    ensures
        exists|lim: N, ks: Seq<int>|
            #[trigger] nearest_found(
                (MetricDistance { metric, x, y }),
                ints(boxes@),
                indices@,
                metadata.spec_num_items(),
                metadata.spec_node_size(),
                lim.value(),
                max_results,
                r@,
                ks,
            ) && match max_distance {
                Some(m) => lim == m,
                None => call_ensures(M::max_distance, (metric,), lim),
            },
        within_max(max_results, r@.len()),
{
    let limit = match max_distance {
        Some(m) => m,
        None => {
            let f = M::max_distance;
            f(metric)
        },
    };
    let d = MetricDistance { metric, x, y };
    let (r, Ghost(ks)) = nearest(boxes, indices, metadata, &d, max_results, limit.to_i64() as i128);
    proof {
        assert(nearest_found(
            d,
            ints(boxes@),
            indices@,
            metadata.spec_num_items(),
            metadata.spec_node_size(),
            limit.value(),
            max_results,
            r@,
            ks,
        ));
    }
    r
}

/// The items nearest by a caller's measure of nodes and items: the measure of a leaf is the
/// distance to the item stored at it, of a node above the leaves the distance to its box
/// (`ItemDistance`), and the largest distance is `max_distance`, else a value that the measure's
/// `max_distance` returns.
pub(crate) fn nearest_by_items<N: IndexableNum, M: ItemDistanceMetric<N>>(
    boxes: &Vec<i64>,
    indices: &Indices,
    metadata: &RTreeMetadata<N>,
    max_results: Option<usize>,
    max_distance: Option<N>,
    metric: &M,
) -> (r: Vec<u32>)
    requires
        rtree_layout(*metadata, ints(boxes@), indices@, indices.is_u16()),
    ensures
        exists|lim: N, ks: Seq<int>|
            #[trigger] nearest_found(
                (ItemDistance {
                    metric,
                    n: Ghost(metadata.spec_num_items()),
                    indices: Ghost(indices@),
                    phantom: PhantomData,
                }),
                ints(boxes@),
                indices@,
                metadata.spec_num_items(),
                metadata.spec_node_size(),
                lim.value(),
                max_results,
                r@,
                ks,
            ) && match max_distance {
                Some(m) => lim == m,
                None => call_ensures(M::max_distance, (metric,), lim),
            },
        within_max(max_results, r@.len()),
{
    let limit = match max_distance {
        Some(m) => m,
        None => {
            let f = M::max_distance;
            f(metric)
        },
    };
    let d = ItemDistance {
        metric,
        n: Ghost(metadata.spec_num_items()),
        indices: Ghost(indices@),
        phantom: PhantomData,
    };
    let (r, Ghost(ks)) = nearest(boxes, indices, metadata, &d, max_results, limit.to_i64() as i128);
    proof {
        assert(nearest_found(
            d,
            ints(boxes@),
            indices@,
            metadata.spec_num_items(),
            metadata.spec_node_size(),
            limit.value(),
            max_results,
            r@,
            ks,
        ));
    }
    r
}

/// In a tree of the builder's shape, the box of a node of level `l` has its minima at most its
/// maxima when the boxes of the leaves do.
proof fn lemma_node_ordered(boxes: Seq<int>, indices: Seq<nat>, n: nat, ns: nat, l: int, s: int)
    requires
        n >= 1,
        tree_shape(boxes, indices, n, ns),
        4 * level_ends(n, ns).last() <= boxes.len(),
        forall|k: int| 0 <= k < n ==> #[trigger] boxes[4 * k] <= boxes[4 * k + 2] && boxes[4 * k + 1]
            <= boxes[4 * k + 3],
        0 <= l < level_ends(n, ns).len(),
        level_start(level_ends(n, ns), l) <= s < level_ends(n, ns)[l],
    ensures
        boxes[4 * s] <= boxes[4 * s + 2] && boxes[4 * s + 1] <= boxes[4 * s + 3],
    decreases l,
{
    let e = level_ends(n, ns);
    lemma_level_ends(n, ns);
    if l >= 1 {
        assert(parent_ok(boxes, indices, e, ns, l, s));
        let c0 = first_child(e, ns, l, s);
        let c1 = end_child(e, ns, l, s);
        assert(c0 >= level_start(e, l - 1)) by (nonlinear_arith)
            requires
                c0 == level_start(e, l - 1) + (s - level_start(e, l)) * ns,
                s >= level_start(e, l),
        ;
        lemma_node_ordered(boxes, indices, n, ns, l - 1, c0);
        lemma_fold_bounds(boxes, c0 + 1, c1, 0, boxes[4 * c0]);
        lemma_fold_bounds(boxes, c0 + 1, c1, 1, boxes[4 * c0 + 1]);
        lemma_fold_bounds(boxes, c0 + 1, c1, 2, boxes[4 * c0 + 2]);
        lemma_fold_bounds(boxes, c0 + 1, c1, 3, boxes[4 * c0 + 3]);
    }
}

/// In a tree of the builder's shape whose leaf boxes each have their minima at most their
/// maxima, every box does.
pub proof fn lemma_shape_boxes_ordered(boxes: Seq<int>, indices: Seq<nat>, n: nat, ns: nat)
    requires
        n >= 1,
        tree_shape(boxes, indices, n, ns),
        boxes.len() == 4 * level_ends(n, ns).last(),
        forall|k: int| 0 <= k < n ==> #[trigger] boxes[4 * k] <= boxes[4 * k + 2] && boxes[4 * k + 1]
            <= boxes[4 * k + 3],
    ensures
        boxes_ordered(boxes),
{
    let e = level_ends(n, ns);
    lemma_level_ends(n, ns);
    assert forall|k: int| 0 <= k && 4 * k + 3 < boxes.len() implies #[trigger] boxes[4 * k] <= boxes[4 * k
        + 2] && boxes[4 * k + 1] <= boxes[4 * k + 3] by {
        if k >= n {
            lemma_level_of(n, ns, k);
            lemma_node_ordered(boxes, indices, n, ns, level_of(e, k), k);
        }
    }
}

/// The squared distance from `(x, y)` to the box of an added item.
pub open spec fn item_sq_dist(item: (int, int, int, int, nat), x: int, y: int) -> int {
    box_sq_dist(x, y, item.0, item.1, item.2, item.3)
}

/// Searching a tree whose leaves are the added boxes, each with its insertion index, for the
/// items nearest to `(x, y)` gives insertion indices of added boxes within the largest squared
/// distance, each once, nearest first, and leaves out an added box within it only when the
/// search stopped at `max_results` results, all of them no farther.
pub proof fn lemma_neighbors_finds_added(
    boxes: Seq<int>,
    indices: Seq<nat>,
    n: nat,
    added: Seq<(int, int, int, int, nat)>,
    x: int,
    y: int,
    maxd: int,
    max_results: Option<usize>,
    r: Seq<u32>,
    ks: Seq<int>,
)
    requires
        added.len() == n,
        forall|i: int| 0 <= i < n ==> #[trigger] added[i].4 == i,
        4 * n <= boxes.len(),
        n <= indices.len(),
        items_in(boxes, indices, 0, n as int).to_multiset() == added.to_multiset(),
        near_leaves(boxes, indices, n, x, y, maxd, r, ks),
        by_distance(boxes, x, y, ks),
        nearest_complete(boxes, n, x, y, maxd, max_results, r, ks),
        ks.no_duplicates(),
    ensures
        forall|i: int|
            0 <= i < r.len() ==> #[trigger] r[i] < n && item_sq_dist(added[r[i] as int], x, y) <= maxd,
        forall|i: int, j: int|
            0 <= i < j < r.len() ==> item_sq_dist(added[#[trigger] r[i] as int], x, y) <= item_sq_dist(
                added[#[trigger] r[j] as int],
                x,
                y,
            ),
        forall|v: int|
            0 <= v < n && #[trigger] item_sq_dist(added[v], x, y) <= maxd ==> r.contains(v as u32) || (
            reached(max_results, r.len()) && r.len() > 0 && item_sq_dist(added[r.last() as int], x, y)
                <= item_sq_dist(added[v], x, y)),
        r.no_duplicates(),
{
    lemma_leaves_added(boxes, indices, n, added);
    assert forall|i: int, j: int| 0 <= i < r.len() && 0 <= j < r.len() && i != j implies r[i] != r[j] by {
        assert(ks[i] != ks[j]);
        if ks[i] < ks[j] {
            assert(indices[ks[i]] != indices[ks[j]]);
        } else {
            assert(indices[ks[j]] != indices[ks[i]]);
        }
    }
    assert forall|i: int| 0 <= i < r.len() implies #[trigger] r[i] < n && item_sq_dist(
        added[r[i] as int],
        x,
        y,
    ) <= maxd by {
        let k = ks[i];
        assert(added[indices[k] as int] == box_item(boxes, indices, k));
    }
    assert forall|i: int, j: int| 0 <= i < j < r.len() implies item_sq_dist(
        added[#[trigger] r[i] as int],
        x,
        y,
    ) <= item_sq_dist(added[#[trigger] r[j] as int], x, y) by {
        assert(added[indices[ks[i]] as int] == box_item(boxes, indices, ks[i]));
        assert(added[indices[ks[j]] as int] == box_item(boxes, indices, ks[j]));
        assert(sq_dist_to_node(boxes, x, y, ks[i]) <= sq_dist_to_node(boxes, x, y, ks[j]));
    }
    assert forall|v: int| 0 <= v < n && #[trigger] item_sq_dist(added[v], x, y) <= maxd implies r.contains(
        v as u32,
    ) || (reached(max_results, r.len()) && r.len() > 0 && item_sq_dist(added[r.last() as int], x, y)
        <= item_sq_dist(added[v], x, y)) by {
        assert(is_leaf_index(indices, n, v as nat));
        let k = choose|k: int| 0 <= k < n && #[trigger] indices[k] == v as nat;
        assert(added[indices[k] as int] == box_item(boxes, indices, k));
        assert(sq_dist_to_node(boxes, x, y, k) == item_sq_dist(added[v], x, y));
        if exists|i: int| 0 <= i < ks.len() && #[trigger] ks[i] == k {
            let i = choose|i: int| 0 <= i < ks.len() && #[trigger] ks[i] == k;
            assert(r[i] as nat == indices[k]);
            assert(r[i] == v as u32);
        } else {
            let last = ks.len() - 1;
            assert(r.last() == r[last]);
            assert(added[indices[ks[last]] as int] == box_item(boxes, indices, ks[last]));
        }
    }
}


/// The distance by a metric from `(x, y)` to the box of an added item.
pub open spec fn item_metric_dist<N: IndexableNum, M: SimpleDistanceMetric<N>>(
    metric: M,
    x: int,
    y: int,
    item: (int, int, int, int, nat),
) -> int {
    metric.spec_distance_to_bbox(x, y, item.0, item.1, item.2, item.3)
}

/// Searching a tree whose leaves are the added boxes, each with its insertion index, for the
/// items nearest to `(x, y)` by an admissible metric gives insertion indices of added boxes
/// within the largest distance by that metric, each once, nearest first, and leaves out an added
/// box within it only when the search stopped at `max_results` results, all of them no farther.
pub proof fn lemma_metric_neighbors_finds_added<N: IndexableNum, M: SimpleDistanceMetric<N>>(
    metric: &M,
    x: N,
    y: N,
    boxes: Seq<int>,
    indices: Seq<nat>,
    n: nat,
    ns: nat,
    added: Seq<(int, int, int, int, nat)>,
    lim: int,
    max_results: Option<usize>,
    r: Seq<u32>,
    ks: Seq<int>,
)
    requires
        added.len() == n,
        forall|i: int| 0 <= i < n ==> #[trigger] added[i].4 == i,
        4 * n <= boxes.len(),
        n <= indices.len(),
        items_in(boxes, indices, 0, n as int).to_multiset() == added.to_multiset(),
        tree_shape(boxes, indices, n, ns),
        boxes_ordered(boxes),
        !(n == 1 && ns == 0),
        metric_admissible(*metric, x.value(), y.value()),
        nearest_found((MetricDistance { metric, x, y }), boxes, indices, n, ns, lim, max_results, r, ks),
    ensures
        forall|i: int|
            0 <= i < r.len() ==> #[trigger] r[i] < n && item_metric_dist(
                *metric,
                x.value(),
                y.value(),
                added[r[i] as int],
            ) <= lim,
        forall|i: int, j: int|
            0 <= i < j < r.len() ==> item_metric_dist(*metric, x.value(), y.value(), added[#[trigger] r[i] as int])
                <= item_metric_dist(*metric, x.value(), y.value(), added[#[trigger] r[j] as int]),
        forall|v: int|
            0 <= v < n && #[trigger] item_metric_dist(*metric, x.value(), y.value(), added[v]) <= lim
                ==> r.contains(v as u32) || (reached(max_results, r.len()) && r.len() > 0
                && item_metric_dist(*metric, x.value(), y.value(), added[r.last() as int])
                <= item_metric_dist(*metric, x.value(), y.value(), added[v])),
        r.no_duplicates(),
{
    let d = MetricDistance { metric, x, y };
    let xv = x.value();
    let yv = y.value();
    lemma_leaves_added(boxes, indices, n, added);
    assert forall|k: int| 0 <= k < n implies #[trigger] node_dist(d, boxes, k) == item_metric_dist(
        *metric,
        xv,
        yv,
        added[indices[k] as int],
    ) by {
        assert(added[indices[k] as int] == box_item(boxes, indices, k));
    }
    assert forall|i: int, j: int| 0 <= i < r.len() && 0 <= j < r.len() && i != j implies r[i] != r[j] by {
        assert(ks[i] != ks[j]);
        if ks[i] < ks[j] {
            assert(indices[ks[i]] != indices[ks[j]]);
        } else {
            assert(indices[ks[j]] != indices[ks[i]]);
        }
    }
    assert forall|i: int| 0 <= i < r.len() implies #[trigger] r[i] < n && item_metric_dist(
        *metric,
        xv,
        yv,
        added[r[i] as int],
    ) <= lim by {
        assert(node_dist(d, boxes, ks[i]) == item_metric_dist(*metric, xv, yv, added[indices[ks[i]] as int]));
    }
    assert forall|i: int, j: int| 0 <= i < j < r.len() implies item_metric_dist(
        *metric,
        xv,
        yv,
        added[#[trigger] r[i] as int],
    ) <= item_metric_dist(*metric, xv, yv, added[#[trigger] r[j] as int]) by {
        assert(node_dist(d, boxes, ks[i]) == item_metric_dist(*metric, xv, yv, added[indices[ks[i]] as int]));
        assert(node_dist(d, boxes, ks[j]) == item_metric_dist(*metric, xv, yv, added[indices[ks[j]] as int]));
        assert(node_dist(d, boxes, ks[i]) <= node_dist(d, boxes, ks[j]));
    }
    assert forall|v: int|
        0 <= v < n && #[trigger] item_metric_dist(*metric, xv, yv, added[v]) <= lim implies r.contains(
        v as u32,
    ) || (reached(max_results, r.len()) && r.len() > 0 && item_metric_dist(
        *metric,
        xv,
        yv,
        added[r.last() as int],
    ) <= item_metric_dist(*metric, xv, yv, added[v])) by {
        assert(is_leaf_index(indices, n, v as nat));
        let k = choose|k: int| 0 <= k < n && #[trigger] indices[k] == v as nat;
        assert(node_dist(d, boxes, k) == item_metric_dist(*metric, xv, yv, added[v]));
        if exists|i: int| 0 <= i < ks.len() && #[trigger] ks[i] == k {
            let i = choose|i: int| 0 <= i < ks.len() && #[trigger] ks[i] == k;
            assert(r[i] as nat == indices[k]);
            assert(r[i] == v as u32);
        } else {
            let last = ks.len() - 1;
            assert(r.last() == r[last]);
            assert(node_dist(d, boxes, ks[last]) == item_metric_dist(
                *metric,
                xv,
                yv,
                added[indices[ks[last]] as int],
            ));
        }
    }
}

/// The distance by a measure of the caller's to an added item: to its box, with its index.
pub open spec fn item_measure_dist<N: IndexableNum, M: ItemDistanceMetric<N>>(
    metric: M,
    item: (int, int, int, int, nat),
) -> int {
    metric.spec_distance_to_item(item.4 as int, item.0, item.1, item.2, item.3)
}

/// Searching a tree whose leaves are the added boxes, each with its insertion index, for the
/// items nearest by an admissible measure of the caller's gives insertion indices of added items
/// within the largest distance by that measure, each once, nearest first, and leaves out an added
/// item within it only when the search stopped at `max_results` results, all of them no farther.
pub proof fn lemma_item_neighbors_finds_added<N: IndexableNum, M: ItemDistanceMetric<N>>(
    metric: &M,
    boxes: Seq<int>,
    indices: Seq<nat>,
    n: nat,
    ns: nat,
    added: Seq<(int, int, int, int, nat)>,
    lim: int,
    max_results: Option<usize>,
    r: Seq<u32>,
    ks: Seq<int>,
)
    requires
        added.len() == n,
        forall|i: int| 0 <= i < n ==> #[trigger] added[i].4 == i,
        4 * n <= boxes.len(),
        n <= indices.len(),
        items_in(boxes, indices, 0, n as int).to_multiset() == added.to_multiset(),
        tree_shape(boxes, indices, n, ns),
        boxes_ordered(boxes),
        !(n == 1 && ns == 0),
        item_measure_admissible(*metric),
        nearest_found(
            (ItemDistance { metric, n: Ghost(n), indices: Ghost(indices), phantom: PhantomData }),
            boxes,
            indices,
            n,
            ns,
            lim,
            max_results,
            r,
            ks,
        ),
    ensures
        forall|i: int|
            0 <= i < r.len() ==> #[trigger] r[i] < n && item_measure_dist(*metric, added[r[i] as int]) <= lim,
        forall|i: int, j: int|
            0 <= i < j < r.len() ==> item_measure_dist(*metric, added[#[trigger] r[i] as int])
                <= item_measure_dist(*metric, added[#[trigger] r[j] as int]),
        forall|v: int|
            0 <= v < n && #[trigger] item_measure_dist(*metric, added[v]) <= lim
                ==> r.contains(v as u32) || (reached(max_results, r.len()) && r.len() > 0
                && item_measure_dist(*metric, added[r.last() as int])
                <= item_measure_dist(*metric, added[v])),
        r.no_duplicates(),
{
    let d = ItemDistance { metric, n: Ghost(n), indices: Ghost(indices), phantom: PhantomData::<N> };
    lemma_leaves_added(boxes, indices, n, added);
    assert forall|k: int| 0 <= k < n implies #[trigger] node_dist(d, boxes, k) == item_measure_dist(*metric, added[indices[k] as int]) by {
        assert(added[indices[k] as int] == box_item(boxes, indices, k));
    }
    assert forall|i: int, j: int| 0 <= i < r.len() && 0 <= j < r.len() && i != j implies r[i] != r[j] by {
        assert(ks[i] != ks[j]);
        if ks[i] < ks[j] {
            assert(indices[ks[i]] != indices[ks[j]]);
        } else {
            assert(indices[ks[j]] != indices[ks[i]]);
        }
    }
    assert forall|i: int| 0 <= i < r.len() implies #[trigger] r[i] < n && item_measure_dist(*metric, added[r[i] as int]) <= lim by {
        assert(node_dist(d, boxes, ks[i]) == item_measure_dist(*metric, added[indices[ks[i]] as int]));
    }
    assert forall|i: int, j: int| 0 <= i < j < r.len() implies item_measure_dist(*metric, added[#[trigger] r[i] as int]) <= item_measure_dist(*metric, added[#[trigger] r[j] as int]) by {
        assert(node_dist(d, boxes, ks[i]) == item_measure_dist(*metric, added[indices[ks[i]] as int]));
        assert(node_dist(d, boxes, ks[j]) == item_measure_dist(*metric, added[indices[ks[j]] as int]));
        assert(node_dist(d, boxes, ks[i]) <= node_dist(d, boxes, ks[j]));
    }
    assert forall|v: int|
        0 <= v < n && #[trigger] item_measure_dist(*metric, added[v]) <= lim implies r.contains(
        v as u32,
    ) || (reached(max_results, r.len()) && r.len() > 0 && item_measure_dist(*metric, added[r.last() as int]) <= item_measure_dist(*metric, added[v])) by {
        assert(is_leaf_index(indices, n, v as nat));
        let k = choose|k: int| 0 <= k < n && #[trigger] indices[k] == v as nat;
        assert(node_dist(d, boxes, k) == item_measure_dist(*metric, added[v]));
        if exists|i: int| 0 <= i < ks.len() && #[trigger] ks[i] == k {
            let i = choose|i: int| 0 <= i < ks.len() && #[trigger] ks[i] == k;
            assert(r[i] as nat == indices[k]);
            assert(r[i] == v as u32);
        } else {
            let last = ks.len() - 1;
            assert(r.last() == r[last]);
            assert(node_dist(d, boxes, ks[last]) == item_measure_dist(*metric, added[indices[ks[last]] as int]));
        }
    }
}

} // verus!
