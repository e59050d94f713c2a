//! Building an RTree.
use vstd::prelude::*;

use crate::indices::MutableIndices;
use crate::num::IndexableNum;
use crate::rtree::index::{index_width, OwnedRTree, RTreeMetadata};
use crate::rtree::sort::util::{box_item, ints, items_in, lemma_rearranged_member, rearranged};
use crate::rtree::sort::{Sort, SortParams};
use crate::rtree::structure::{
    end_child, first_child, fold_max, fold_min, lemma_fold_first, lemma_fold_frame,
    lemma_fold_range, lemma_group_count, lemma_level_step, lemma_parent_frame, lemma_top_single,
    level_start, max_int, min_int, node_box, parent_ok, tree_shape, union_box,
};
use crate::rtree::util::{ceil_div, lemma_level_ends, level_ends, num_nodes_spec};

verus! {

/// The default node size used by [`RTreeBuilder::new`]
pub const DEFAULT_RTREE_NODE_SIZE: u16 = 16;

/// The first node of the level just below the root: the largest child position a parent
/// stores.
pub open spec fn root_children_start(num_items: nat, node_size: nat) -> int {
    let ends = level_ends(num_items, node_size);
    if ends.len() >= 2 {
        level_start(ends, ends.len() - 2)
    } else {
        0
    }
}

/// The children of the root start no later than the end of the nodes, which are at most three
/// per item.
proof fn lemma_root_children_start(num_items: nat, node_size: nat)
    requires
        num_items >= 1,
    ensures
        0 <= root_children_start(num_items, node_size) <= num_nodes_spec(num_items, node_size) <= 3
            * num_items,
{
    let e = level_ends(num_items, node_size);
    lemma_level_ends(num_items, node_size);
    if e.len() >= 3 {
        assert(e[e.len() - 3] < e[e.len() - 1]);
    }
}

/// A builder to create an [`OwnedRTree`].
pub struct RTreeBuilder<N: IndexableNum> {
    boxes: Vec<i64>,
    indices: MutableIndices,
    metadata: RTreeMetadata<N>,
    pos: usize,
    min_x: i64,
    min_y: i64,
    max_x: i64,
    max_y: i64,
}

impl<N: IndexableNum> RTreeBuilder<N> {
    /// The coordinates of all node boxes so far, four per node.
    pub closed spec fn spec_boxes(&self) -> Seq<int> {
        ints(self.boxes@)
    }

    /// The index of each node so far.
    pub closed spec fn spec_indices(&self) -> Seq<nat> {
        self.indices@
    }

    /// The metadata of the tree being built.
    pub closed spec fn spec_metadata(&self) -> RTreeMetadata<N> {
        self.metadata
    }

    /// The number of items added so far.
    pub closed spec fn spec_num_added(&self) -> nat {
        (self.pos / 4) as nat
    }

    /// The boxes added so far, each with its insertion index.
    pub open spec fn spec_items(&self) -> Seq<(int, int, int, int, nat)> {
        items_in(self.spec_boxes(), self.spec_indices(), 0, self.spec_num_added() as int)
    }

    /// The builder's arrays fit the metadata, each added item holds its own insertion index,
    /// and the extents are those of the added boxes.
    pub closed spec fn wf(&self) -> bool {
        let nodes = self.metadata.spec_num_nodes();
        let b = ints(self.boxes@);
        let added = (self.pos / 4) as int;
        &&& self.metadata.wf()
        &&& self.boxes@.len() == 4 * nodes
        &&& self.indices@.len() == nodes
        &&& self.indices.is_u16() == (nodes < 16384)
        &&& self.pos % 4 == 0
        &&& self.pos <= 4 * nodes
        &&& forall|p: int| 0 <= p < b.len() ==> N::spec_min() <= #[trigger] b[p] <= N::spec_max()
        &&& forall|k: int| 0 <= k < added ==> #[trigger] self.indices@[k] == k
        &&& forall|k: int| added <= k < nodes ==> #[trigger] self.indices@[k] == 0
        &&& self.min_x == fold_min(b, 0, added, 0, N::spec_max())
        &&& self.min_y == fold_min(b, 0, added, 1, N::spec_max())
        &&& self.max_x == fold_max(b, 0, added, 2, N::spec_min())
        &&& self.max_y == fold_max(b, 0, added, 3, N::spec_min())
    }

    /// Each added box carries its insertion index: the `i`-th added item has index `i`.
    pub proof fn lemma_items_numbered(&self)
        requires
            self.wf(),
        ensures
            self.spec_items().len() == self.spec_num_added(),
            forall|i: int| 0 <= i < self.spec_items().len() ==> #[trigger] self.spec_items()[i].4 == i,
    {
    }

    /// Create a new builder with the provided number of items and the default node size.
    pub fn new(num_items: u32) -> (r: Self)
        requires
            1 <= num_items,
            64 * num_items <= usize::MAX,
        ensures
            r.wf(),
            r.spec_metadata().spec_num_items() == num_items,
            r.spec_metadata().spec_node_size() == DEFAULT_RTREE_NODE_SIZE,
            r.spec_metadata().wf(),
            r.spec_metadata().spec_num_items() <= r.spec_metadata().spec_num_nodes() <= 3 * num_items,
            root_children_start(num_items as nat, r.spec_metadata().spec_node_size())
                <= r.spec_metadata().spec_num_nodes(),
            r.spec_num_added() == 0,
    {
        Self::new_with_node_size(num_items, DEFAULT_RTREE_NODE_SIZE)
    }

    /// Create a new builder with the provided number of items and node size.
    pub fn new_with_node_size(num_items: u32, node_size: u16) -> (r: Self)
        requires
            2 <= node_size,
            1 <= num_items,
            64 * num_items <= usize::MAX,
        ensures
            r.wf(),
            r.spec_metadata().spec_num_items() == num_items,
            r.spec_metadata().spec_node_size() == node_size,
            r.spec_metadata().wf(),
            r.spec_metadata().spec_num_items() <= r.spec_metadata().spec_num_nodes() <= 3 * num_items,
            root_children_start(num_items as nat, r.spec_metadata().spec_node_size())
                <= r.spec_metadata().spec_num_nodes(),
            r.spec_num_added() == 0,
    {
        let metadata = RTreeMetadata::new(num_items, node_size);
        Self::from_metadata(metadata)
    }

    /// Create a new builder with the provided metadata
    pub fn from_metadata(metadata: RTreeMetadata<N>) -> (r: Self)
        requires
            metadata.wf(),
        ensures
            r.wf(),
            r.spec_metadata() == metadata,
            metadata.spec_num_items() <= metadata.spec_num_nodes() <= 3 * metadata.spec_num_items(),
            root_children_start(metadata.spec_num_items(), metadata.spec_node_size())
                <= metadata.spec_num_nodes(),
            r.spec_num_added() == 0,
    {
        proof {
            metadata.lemma_sizes();
            lemma_root_children_start(metadata.spec_num_items(), metadata.spec_node_size());
            N::lemma_layout();
            crate::bytes::lemma_pow256_facts();
            crate::rtree::util::lemma_level_ends(
                metadata.spec_num_items(),
                metadata.spec_node_size(),
            );
        }
        let num_nodes = metadata.num_nodes();
        let mut boxes: Vec<i64> = Vec::new();
        let mut i: usize = 0;
        while i < 4 * num_nodes
            invariant
                num_nodes == metadata.spec_num_nodes(),
                num_nodes <= 3 * metadata.spec_num_items(),
                64 * metadata.spec_num_items() <= usize::MAX,
                i <= 4 * num_nodes,
                boxes@.len() == i,
                forall|p: int| 0 <= p < i ==> #[trigger] boxes@[p] == 0,
            decreases 4 * num_nodes - i,
        {
            boxes.push(0);
            i = i + 1;
        }
        let indices = MutableIndices::zeroed(num_nodes, num_nodes < 16384);
        let r = Self {
            boxes,
            indices,
            metadata,
            pos: 0,
            min_x: N::max_value().to_i64(),
            min_y: N::max_value().to_i64(),
            max_x: N::min_value().to_i64(),
            max_y: N::min_value().to_i64(),
        };
        proof {
            assert forall|p: int| 0 <= p < ints(r.boxes@).len() implies N::spec_min() <= #[trigger] ints(
                r.boxes@,
            )[p] <= N::spec_max() by {
                assert(ints(r.boxes@)[p] == 0);
            }
        }
        r
    }

    /// The number of boxes added so far.
    pub fn num_added(&self) -> (r: usize)
        ensures
            r == self.spec_num_added(),
    {
        self.pos / 4
    }

    /// Access the underlying [RTreeMetadata] of this instance.
    pub fn metadata(&self) -> (r: &RTreeMetadata<N>)
        ensures
            *r == self.spec_metadata(),
    {
        &self.metadata
    }

    /// Add a given rectangle to the RTree.
    ///
    /// This returns the insertion index, which provides a lookup back into the caller's data.
    ///
    /// `search` will return this same insertion index, which allows you to reference
    /// your own collection.
    pub fn add(&mut self, min_x: N, min_y: N, max_x: N, max_y: N) -> (r: u32)
        requires
            old(self).wf(),
            old(self).spec_num_added() < old(self).spec_metadata().spec_num_nodes(),
            old(self).spec_num_added() <= u32::MAX,
        ensures
            final(self).wf(),
            final(self).spec_metadata() == old(self).spec_metadata(),
            r == old(self).spec_num_added(),
            final(self).spec_num_added() == old(self).spec_num_added() + 1,
            final(self).spec_items() == old(self).spec_items().push(
                (min_x.value(), min_y.value(), max_x.value(), max_y.value(), r as nat),
            ),
    {
        let index = self.pos / 4;
        let _bl = self.boxes.len();
        let ghost b0 = ints(self.boxes@);
        let ghost i0 = self.indices@;
        proof {
            crate::bytes::lemma_pow256_facts();
        }
        self.indices.set(index, index);
        let pos = self.pos;
        let ax = min_x.to_i64();
        let ay = min_y.to_i64();
        let bx = max_x.to_i64();
        let by = max_y.to_i64();
        self.boxes.set(pos, ax);
        self.boxes.set(pos + 1, ay);
        self.boxes.set(pos + 2, bx);
        self.boxes.set(pos + 3, by);
        self.pos = pos + 4;
        if ax < self.min_x {
            self.min_x = ax;
        }
        if ay < self.min_y {
            self.min_y = ay;
        }
        if bx > self.max_x {
            self.max_x = bx;
        }
        if by > self.max_y {
            self.max_y = by;
        }
        proof {
            let b = ints(self.boxes@);
            let k = index as int;
            assert(self.pos / 4 == k + 1);
            assert forall|p: int| 0 <= p < 4 * k implies #[trigger] b[p] == b0[p] by {}
            assert forall|t: int| 0 <= t < k implies #[trigger] b[4 * t + 0] == b0[4 * t + 0] by {
                assert(b[4 * t] == b0[4 * t]);
            }
            assert forall|t: int| 0 <= t < k implies #[trigger] b[4 * t + 1] == b0[4 * t + 1] by {}
            assert forall|t: int| 0 <= t < k implies #[trigger] b[4 * t + 2] == b0[4 * t + 2] by {}
            assert forall|t: int| 0 <= t < k implies #[trigger] b[4 * t + 3] == b0[4 * t + 3] by {}
            lemma_fold_frame(b, b0, 0, k, 0, N::spec_max());
            lemma_fold_frame(b, b0, 0, k, 1, N::spec_max());
            lemma_fold_frame(b, b0, 0, k, 2, N::spec_min());
            lemma_fold_frame(b, b0, 0, k, 3, N::spec_min());
            assert forall|p: int| 0 <= p < b.len() implies N::spec_min() <= #[trigger] b[p]
                <= N::spec_max() by {
                if p < pos || p >= pos + 4 {
                    assert(b[p] == b0[p]);
                }
            }
            assert(self.spec_items() =~= old(self).spec_items().push(
                (min_x.value(), min_y.value(), max_x.value(), max_y.value(), index as nat),
            )) by {
                assert forall|t: int| 0 <= t < k implies #[trigger] box_item(
                    b,
                    self.indices@,
                    t,
                ) == box_item(b0, i0, t) by {}
            }
        }
        index as u32
    }

    /// Add the rectangles given by four coordinate slices to the RTree.
    ///
    /// This returns the insertion index of each, which provides a lookup back into the caller's
    /// data.
    pub fn add_slice(&mut self, min_x: &[N], min_y: &[N], max_x: &[N], max_y: &[N]) -> (r: Vec<u32>)
        requires
            old(self).wf(),
            min_x@.len() == min_y@.len(),
            min_x@.len() == max_x@.len(),
            min_x@.len() == max_y@.len(),
            old(self).spec_num_added() + min_x@.len() <= old(self).spec_metadata().spec_num_nodes(),
            old(self).spec_num_added() + min_x@.len() <= u32::MAX + 1,
        ensures
            final(self).wf(),
            final(self).spec_metadata() == old(self).spec_metadata(),
            final(self).spec_num_added() == old(self).spec_num_added() + min_x@.len(),
            r@.len() == min_x@.len(),
            forall|i: int| 0 <= i < r@.len() ==> #[trigger] r@[i] == old(self).spec_num_added() + i,
            final(self).spec_items() == old(self).spec_items() + Seq::new(
                min_x@.len(),
                |i: int|
                    (
                        min_x@[i].value(),
                        min_y@[i].value(),
                        max_x@[i].value(),
                        max_y@[i].value(),
                        (old(self).spec_num_added() + i) as nat,
                    ),
            ),
    {
        let mut out: Vec<u32> = Vec::new();
        let mut i: usize = 0;
        let ghost start = old(self).spec_num_added();
        proof {
            assert(old(self).spec_items() + Seq::new(
                0,
                |t: int|
                    (
                        min_x@[t].value(),
                        min_y@[t].value(),
                        max_x@[t].value(),
                        max_y@[t].value(),
                        (start + t) as nat,
                    ),
            ) =~= old(self).spec_items());
        }
        while i < min_x.len()
            invariant
                self.wf(),
                self.spec_metadata() == old(self).spec_metadata(),
                i <= min_x@.len(),
                min_x@.len() == min_y@.len(),
                min_x@.len() == max_x@.len(),
                min_x@.len() == max_y@.len(),
                start == old(self).spec_num_added(),
                start + min_x@.len() <= old(self).spec_metadata().spec_num_nodes(),
                start + min_x@.len() <= u32::MAX + 1,
                self.spec_num_added() == start + i,
                out@.len() == i,
                forall|t: int| 0 <= t < i ==> #[trigger] out@[t] == start + t,
                self.spec_items() == old(self).spec_items() + Seq::new(
                    i as nat,
                    |t: int|
                        (
                            min_x@[t].value(),
                            min_y@[t].value(),
                            max_x@[t].value(),
                            max_y@[t].value(),
                            (start + t) as nat,
                        ),
                ),
            decreases min_x@.len() - i,
        {
            let ghost prev = self.spec_items();
            let index = self.add(min_x[i], min_y[i], max_x[i], max_y[i]);
            out.push(index);
            proof {
                assert(self.spec_items() =~= old(self).spec_items() + Seq::new(
                    (i + 1) as nat,
                    |t: int|
                        (
                            min_x@[t].value(),
                            min_y@[t].value(),
                            max_x@[t].value(),
                            max_y@[t].value(),
                            (start + t) as nat,
                        ),
                ));
            }
            i = i + 1;
        }
        out
    }

    /// Consume this builder, performing the sort and generating an RTree ready for queries.
    ///
    /// [`HilbertSort`] and [`STRSort`] both implement [`Sort`], allowing you to choose the method
    /// used.
    ///
    /// The leaves of the tree are the added boxes with their insertion indices, in the order that
    /// the sort leaves them (`Sort::arrangement`; in insertion order when one node holds them
    /// all); above them, each node holds
    /// the bounding box of its group of children and the position of its first child's box.
    ///
    /// When the boxes are sorted, the sort computes in `N` (`Sort::fits`): the sum of each box's
    /// two coordinates on an axis, and for the Hilbert sort the width and height of all boxes,
    /// must be values of `N`.
    ///
    /// [`HilbertSort`]: crate::rtree::sort::HilbertSort
    /// [`STRSort`]: crate::rtree::sort::STRSort
    pub fn finish<S: Sort<N>>(self) -> (r: OwnedRTree<N>)
        requires
            self.wf(),
            self.spec_num_added() == self.spec_metadata().spec_num_items(),
            4 * root_children_start(
                self.spec_metadata().spec_num_items(),
                self.spec_metadata().spec_node_size(),
            ) <= u32::MAX,
            self.spec_metadata().spec_num_items() > 1 && self.spec_metadata().spec_num_items()
                > self.spec_metadata().spec_node_size() ==> S::fits(
                fold_min(self.spec_boxes(), 0, self.spec_metadata().spec_num_items() as int, 0, N::spec_max()),
                fold_min(self.spec_boxes(), 0, self.spec_metadata().spec_num_items() as int, 1, N::spec_max()),
                fold_max(self.spec_boxes(), 0, self.spec_metadata().spec_num_items() as int, 2, N::spec_min()),
                fold_max(self.spec_boxes(), 0, self.spec_metadata().spec_num_items() as int, 3, N::spec_min()),
                self.spec_boxes().subrange(0, 4 * self.spec_metadata().spec_num_items() as int),
            ),
        ensures
            r.wf(),
            r.spec_metadata() == self.spec_metadata(),
            tree_shape(
                r.spec_boxes(),
                r.spec_indices(),
                self.spec_metadata().spec_num_items(),
                self.spec_metadata().spec_node_size(),
            ),
            items_in(
                r.spec_boxes(),
                r.spec_indices(),
                0,
                self.spec_metadata().spec_num_items() as int,
            ).to_multiset() == self.spec_items().to_multiset(),
            self.spec_metadata().spec_num_items() == 1 || self.spec_metadata().spec_num_items()
                <= self.spec_metadata().spec_node_size() ==> items_in(
                r.spec_boxes(),
                r.spec_indices(),
                0,
                self.spec_metadata().spec_num_items() as int,
            ) == self.spec_items(),
            self.spec_metadata().spec_num_items() > 1 && self.spec_metadata().spec_num_items()
                > self.spec_metadata().spec_node_size() ==> exists|p: SortParams<N>|
                {
                    &&& p.num_items == self.spec_metadata().spec_num_items()
                    &&& p.node_size == self.spec_metadata().spec_node_size()
                    &&& p.min_x.value() == fold_min(
                        self.spec_boxes(),
                        0,
                        p.num_items as int,
                        0,
                        N::spec_max(),
                    )
                    &&& p.min_y.value() == fold_min(
                        self.spec_boxes(),
                        0,
                        p.num_items as int,
                        1,
                        N::spec_max(),
                    )
                    &&& p.max_x.value() == fold_max(
                        self.spec_boxes(),
                        0,
                        p.num_items as int,
                        2,
                        N::spec_min(),
                    )
                    &&& p.max_y.value() == fold_max(
                        self.spec_boxes(),
                        0,
                        p.num_items as int,
                        3,
                        N::spec_min(),
                    )
                    &&& #[trigger] S::sorted(p, r.spec_boxes().subrange(0, 4 * p.num_items))
                    &&& r.spec_boxes().subrange(0, 4 * p.num_items) == S::arrangement(
                        p,
                        self.spec_boxes(),
                        self.spec_indices(),
                    ).0.subrange(0, 4 * p.num_items)
                    &&& r.spec_indices().subrange(0, p.num_items as int) == S::arrangement(
                        p,
                        self.spec_boxes(),
                        self.spec_indices(),
                    ).1.subrange(0, p.num_items as int)
                },
    {
        let ghost b0 = ints(self.boxes@);
        let ghost i0 = self.indices@;
        proof {
            assert(items_in(b0, i0, 0, self.spec_num_added() as int) == self.spec_items());
        }
        let n = self.metadata.num_items();
        let node_size = self.metadata.node_size();
        let ghost nodes = self.metadata.spec_num_nodes();
        let ghost e = level_ends(n as nat, node_size as nat);
        let ext_min_x = self.min_x;
        let ext_min_y = self.min_y;
        let ext_max_x = self.max_x;
        let ext_max_y = self.max_y;
        let mut boxes = self.boxes;
        let mut indices = self.indices;
        let metadata = self.metadata;
        proof {
            lemma_level_ends(n as nat, node_size as nat);
            crate::bytes::lemma_pow256_facts();
            indices.lemma_bounded();
            N::lemma_layout();
        }
        if n == 1 {
            // Only one item, we don't even have a root node to fill
            return OwnedRTree::from_parts(boxes, indices.into_indices(), metadata);
        }
        if n <= node_size {
            // only one node, skip sorting and just fill the root box
            proof {
                lemma_single_node_levels(n as nat, node_size as nat);
                lemma_fold_range(b0, 0, n as int, 0, N::spec_max(), N::spec_min(), N::spec_max());
                lemma_fold_range(b0, 0, n as int, 1, N::spec_max(), N::spec_min(), N::spec_max());
                lemma_fold_range(b0, 0, n as int, 2, N::spec_min(), N::spec_min(), N::spec_max());
                lemma_fold_range(b0, 0, n as int, 3, N::spec_min(), N::spec_min(), N::spec_max());
            }
            let pos = 4 * n;
            boxes.set(pos, ext_min_x);
            boxes.set(pos + 1, ext_min_y);
            boxes.set(pos + 2, ext_max_x);
            boxes.set(pos + 3, ext_max_y);
            proof {
                let b = ints(boxes@);
                assert forall|p: int| 0 <= p < 4 * n implies #[trigger] b[p] == b0[p] by {}
                lemma_root_parent::<N>(b0, b, indices@, n as nat, node_size as nat);
                assert forall|p: int| 0 <= p < b.len() implies N::spec_min() <= #[trigger] b[p]
                    <= N::spec_max() by {
                    if p < 4 * n {
                        assert(b[p] == b0[p]);
                    }
                }
                assert(items_in(b, indices@, 0, n as int) =~= items_in(b0, i0, 0, n as int));
            }
            return OwnedRTree::from_parts(boxes, indices.into_indices(), metadata);
        }
        proof {
            lemma_fold_range(b0, 0, n as int, 0, N::spec_max(), N::spec_min(), N::spec_max());
            lemma_fold_range(b0, 0, n as int, 1, N::spec_max(), N::spec_min(), N::spec_max());
            lemma_fold_range(b0, 0, n as int, 2, N::spec_min(), N::spec_min(), N::spec_max());
            lemma_fold_range(b0, 0, n as int, 3, N::spec_min(), N::spec_min(), N::spec_max());
        }
        let params = SortParams {
            num_items: n,
            node_size,
            min_x: N::from_i64(ext_min_x),
            min_y: N::from_i64(ext_min_y),
            max_x: N::from_i64(ext_max_x),
            max_y: N::from_i64(ext_max_y),
        };
        S::sort(&params, &mut boxes, &mut indices);
        let ghost b1 = ints(boxes@);
        let ghost i1 = indices@;
        proof {
            lemma_rearranged_range::<N>(b0, i0, b1, i1, n as int);
        }
        build_parents(&mut boxes, &mut indices, &metadata);
        proof {
            let b = ints(boxes@);
            indices.lemma_bounded();
            assert(items_in(b, indices@, 0, n as int) =~= items_in(b1, i1, 0, n as int));
            assert(b.subrange(0, 4 * n) =~= b1.subrange(0, 4 * n));
            assert(indices@.subrange(0, n as int) =~= i1.subrange(0, n as int)) by {
                assert forall|k: int| 0 <= k < n implies indices@[k] == i1[k] by {
                    assert(items_in(b, indices@, 0, n as int)[k] == items_in(b1, i1, 0, n as int)[k]);
                }
            }
        }
        let r = OwnedRTree::from_parts(boxes, indices.into_indices(), metadata);
        proof {
            assert(S::sorted(params, r.spec_boxes().subrange(0, 4 * params.num_items)));
        }
        r
    }
}

/// The bounding box of the boxes of nodes `c0..c1` where `c1` is `c0 + node_size` or the end of
/// the level, whichever comes first; returns the box and the position after the group.
fn group_bbox<N: IndexableNum>(boxes: &Vec<i64>, pos: usize, end: usize, node_size: usize) -> (r: (
    i64,
    i64,
    i64,
    i64,
    usize,
))
    requires
        pos % 4 == 0,
        end % 4 == 0,
        pos < end <= boxes@.len(),
        node_size >= 1,
        forall|p: int|
            0 <= p < boxes@.len() ==> N::spec_min() <= #[trigger] ints(boxes@)[p] <= N::spec_max(),
    ensures
        r.4 == 4 * min_int((pos / 4 + node_size) as int, (end / 4) as int),
        (r.0 as int, r.1 as int, r.2 as int, r.3 as int) == union_box(
            ints(boxes@),
            (pos / 4) as int,
            (r.4 / 4) as int,
        ),
        N::spec_min() <= r.0 <= N::spec_max(),
        N::spec_min() <= r.1 <= N::spec_max(),
        N::spec_min() <= r.2 <= N::spec_max(),
        N::spec_min() <= r.3 <= N::spec_max(),
{
    let ghost b = ints(boxes@);
    let ghost c0 = pos / 4;
    let mut pos = pos;
    let mut node_min_x = boxes[pos];
    let mut node_min_y = boxes[pos + 1];
    let mut node_max_x = boxes[pos + 2];
    let mut node_max_y = boxes[pos + 3];
    proof {
        assert(N::spec_min() <= b[4 * c0] <= N::spec_max());
        assert(N::spec_min() <= b[4 * c0 + 1] <= N::spec_max());
        assert(N::spec_min() <= b[4 * c0 + 2] <= N::spec_max());
        assert(N::spec_min() <= b[4 * c0 + 3] <= N::spec_max());
    }
    pos = pos + 4;
    let mut t: usize = 1;
    while t < node_size && pos < end
        invariant
            b == ints(boxes@),
            end % 4 == 0,
            end <= boxes@.len(),
            1 <= t <= node_size,
            pos == 4 * (c0 + t),
            pos <= end,
            0 <= c0,
            forall|p: int|
                0 <= p < boxes@.len() ==> N::spec_min() <= #[trigger] ints(boxes@)[p] <= N::spec_max(),
            node_min_x == fold_min(b, c0 + 1, c0 + t, 0, b[4 * c0]),
            node_min_y == fold_min(b, c0 + 1, c0 + t, 1, b[4 * c0 + 1]),
            node_max_x == fold_max(b, c0 + 1, c0 + t, 2, b[4 * c0 + 2]),
            node_max_y == fold_max(b, c0 + 1, c0 + t, 3, b[4 * c0 + 3]),
            N::spec_min() <= node_min_x <= N::spec_max(),
            N::spec_min() <= node_min_y <= N::spec_max(),
            N::spec_min() <= node_max_x <= N::spec_max(),
            N::spec_min() <= node_max_y <= N::spec_max(),
        decreases node_size - t,
    {
        proof {
            assert(N::spec_min() <= b[pos as int] <= N::spec_max());
            assert(N::spec_min() <= b[pos + 1] <= N::spec_max());
            assert(N::spec_min() <= b[pos + 2] <= N::spec_max());
            assert(N::spec_min() <= b[pos + 3] <= N::spec_max());
        }
        if boxes[pos] < node_min_x {
            node_min_x = boxes[pos];
        }
        if boxes[pos + 1] < node_min_y {
            node_min_y = boxes[pos + 1];
        }
        if boxes[pos + 2] > node_max_x {
            node_max_x = boxes[pos + 2];
        }
        if boxes[pos + 3] > node_max_y {
            node_max_y = boxes[pos + 3];
        }
        pos = pos + 4;
        t = t + 1;
    }
    (node_min_x, node_min_y, node_max_x, node_max_y, pos)
}

/// Writing a new parent `w` of level `l` (whose box is the bounding box of its children and
/// whose index is the position of its first child) keeps every parent of the levels up to `l`
/// before `w` well-formed and adds `w`.
proof fn lemma_write_parent(
    b: Seq<int>,
    ib: Seq<nat>,
    b2: Seq<int>,
    i2: Seq<nat>,
    e: Seq<nat>,
    ns: nat,
    l: int,
    w: int,
)
    requires
        1 <= l < e.len(),
        forall|i: int, j: int| 0 <= i < j < e.len() ==> e[i] < e[j],
        level_start(e, l) <= w < e[l],
        level_start(e, l) == e[l - 1],
        first_child(e, ns, l, w) < end_child(e, ns, l, w),
        0 <= level_start(e, l - 1),
        b.len() == b2.len(),
        ib.len() == i2.len(),
        w < ib.len(),
        forall|p: int| 0 <= p < 4 * w ==> #[trigger] b2[p] == b[p],
        forall|k: int| 0 <= k < w ==> #[trigger] i2[k] == ib[k],
        i2[w] == 4 * first_child(e, ns, l, w),
        node_box(b2, w) == union_box(b, first_child(e, ns, l, w), end_child(e, ns, l, w)),
        forall|l2: int, s: int|
            1 <= l2 < l && level_start(e, l2) <= s < e[l2] ==> #[trigger] parent_ok(b, ib, e, ns, l2, s),
        forall|s: int| level_start(e, l) <= s < w ==> #[trigger] parent_ok(b, ib, e, ns, l, s),
    ensures
        forall|l2: int, s: int|
            1 <= l2 < l && level_start(e, l2) <= s < e[l2] ==> #[trigger] parent_ok(b2, i2, e, ns, l2, s),
        forall|s: int| level_start(e, l) <= s <= w ==> #[trigger] parent_ok(b2, i2, e, ns, l, s),
{
    let c0 = first_child(e, ns, l, w);
    let c1 = end_child(e, ns, l, w);
    assert(c1 <= e[l - 1]);
    crate::rtree::structure::lemma_union_frame(b, b2, c0, c1);
    assert forall|l2: int, s: int|
        1 <= l2 < l && level_start(e, l2) <= s < e[l2] implies #[trigger] parent_ok(
        b2,
        i2,
        e,
        ns,
        l2,
        s,
    ) by {
        assert(parent_ok(b, ib, e, ns, l2, s));
        assert(e[l2] <= e[l - 1]);
        assert(end_child(e, ns, l2, s) <= e[l2 - 1]);
        if l2 >= 2 {
            assert(level_start(e, l2 - 1) >= 0);
        }
        lemma_parent_frame(b, ib, b2, i2, e, ns, l2, s);
    }
    assert forall|s: int| level_start(e, l) <= s <= w implies #[trigger] parent_ok(b2, i2, e, ns, l, s) by {
        if s < w {
            assert(parent_ok(b, ib, e, ns, l, s));
            assert(end_child(e, ns, l, s) <= e[l - 1]);
            lemma_parent_frame(b, ib, b2, i2, e, ns, l, s);
        }
    }
}

/// Computes the parents of every level, bottom-up: for each group of up to `node_size`
/// consecutive nodes of a level, one node of the level above, whose index is the position of the
/// group's first box and whose box is the bounding box of the group.
fn build_parents<N: IndexableNum>(
    boxes: &mut Vec<i64>,
    indices: &mut MutableIndices,
    metadata: &RTreeMetadata<N>,
)
    requires
        metadata.wf(),
        metadata.spec_num_items() > metadata.spec_node_size(),
        metadata.spec_node_size() >= 2,
        old(boxes)@.len() == 4 * metadata.spec_num_nodes(),
        old(indices)@.len() == metadata.spec_num_nodes(),
        old(indices).is_u16() == (metadata.spec_num_nodes() < 16384),
        4 * root_children_start(metadata.spec_num_items(), metadata.spec_node_size()) <= u32::MAX,
        forall|p: int|
            0 <= p < old(boxes)@.len() ==> N::spec_min() <= #[trigger] ints(old(boxes)@)[p]
                <= N::spec_max(),
    ensures
        final(boxes)@.len() == old(boxes)@.len(),
        final(indices)@.len() == old(indices)@.len(),
        final(indices).is_u16() == old(indices).is_u16(),
        forall|p: int|
            0 <= p < final(boxes)@.len() ==> N::spec_min() <= #[trigger] ints(final(boxes)@)[p]
                <= N::spec_max(),
        forall|p: int|
            0 <= p < 4 * metadata.spec_num_items() ==> #[trigger] final(boxes)@[p] == old(boxes)@[p],
        forall|k: int|
            0 <= k < metadata.spec_num_items() ==> #[trigger] final(indices)@[k] == old(indices)@[k],
        tree_shape(
            ints(final(boxes)@),
            final(indices)@,
            metadata.spec_num_items(),
            metadata.spec_node_size(),
        ),
{
    let n = metadata.num_items();
    let node_size = metadata.node_size();
    let ghost ns = node_size as nat;
    let ghost e = level_ends(n as nat, ns);
    let ghost nodes = metadata.spec_num_nodes();
    let ghost b_in = old(boxes)@;
    let ghost i_in = old(indices)@;
    proof {
        lemma_level_ends(n as nat, ns);
        lemma_top_single(n as nat, ns);
        crate::bytes::lemma_pow256_facts();
        indices.lemma_bounded();
    }
    let lb = metadata.level_bounds();
    proof {
        let lbs = metadata.spec_level_bounds();
        assert(lbs == crate::rtree::index::level_bounds_of(n as nat, ns));
        assert(lbs.len() == e.len());
        assert(lb@.map_values(|b: usize| b as nat) == lbs);
        assert(lb@.len() == lbs.len());
        assert forall|k: int| 0 <= k < lb@.len() implies #[trigger] lb@[k] == 4 * e[k] by {
            assert(lb@.map_values(|b: usize| b as nat)[k] == lbs[k]);
            assert(lbs[k] == 4 * e[k]);
        }
        if e.len() == 1 {
            assert(e.last() - level_start(e, 0) == n);
        }
    }
    let num_levels = lb.len();
    let mut pos: usize = 0;
    let mut wpos: usize = 4 * n;
    let mut li: usize = 0;
    while li < num_levels - 1
        invariant
            e == level_ends(n as nat, ns),
            ns == node_size,
            2 <= ns,
            ns < n,
            nodes == e.last(),
            nodes <= 3 * n,
            64 * n <= usize::MAX,
            num_levels == e.len(),
            lb@.len() == e.len(),
            num_levels >= 2,
            forall|k: int| 0 <= k < lb@.len() ==> #[trigger] lb@[k] == 4 * e[k],
            forall|i: int, j: int| 0 <= i < j < e.len() ==> e[i] < e[j],
            e[0] == n,
            e.last() - level_start(e, e.len() - 1) == 1,
            4 * root_children_start(n as nat, ns) <= u32::MAX,
            li <= num_levels - 1,
            pos == 4 * level_start(e, li as int),
            wpos == 4 * e[li as int],
            boxes@.len() == 4 * nodes,
            indices@.len() == nodes,
            indices.is_u16() == (nodes < 16384),
            b_in.len() == 4 * nodes,
            i_in.len() == nodes,
            forall|p: int|
                0 <= p < boxes@.len() ==> N::spec_min() <= #[trigger] ints(boxes@)[p] <= N::spec_max(),
            forall|p: int| 0 <= p < 4 * n ==> #[trigger] boxes@[p] == b_in[p],
            forall|k: int| 0 <= k < n ==> #[trigger] indices@[k] == i_in[k],
            forall|l: int, s: int|
                1 <= l <= li && level_start(e, l) <= s < e[l] ==> #[trigger] parent_ok(
                    ints(boxes@),
                    indices@,
                    e,
                    ns,
                    l,
                    s,
                ),
        decreases num_levels - 1 - li,
    {
        let end = lb[li];
        let ghost start = level_start(e, li as int);
        proof {
            lemma_level_step(n as nat, ns, li + 1);
            assert(level_start(e, li + 1) == e[li as int]);
            assert(start <= e[li as int]);
            assert(wpos / 4 == e[li as int]);
            assert((wpos / 4 - e[li as int]) * ns == 0) by (nonlinear_arith)
                requires
                    wpos / 4 == e[li as int],
            ;
        }
        while pos < end
            invariant
                e == level_ends(n as nat, ns),
                ns == node_size,
                2 <= ns,
                nodes == e.last(),
                nodes <= 3 * n,
                64 * n <= usize::MAX,
                num_levels == e.len(),
                li < num_levels - 1,
                forall|i: int, j: int| 0 <= i < j < e.len() ==> e[i] < e[j],
                e.last() - level_start(e, e.len() - 1) == 1,
                4 * root_children_start(n as nat, ns) <= u32::MAX,
                end == 4 * e[li as int],
                start == level_start(e, li as int),
                0 <= start,
                e[li as int] - start >= 2,
                e[li + 1] == e[li as int] + ceil_div((e[li as int] - start) as nat, ns),
                level_start(e, li + 1) == e[li as int],
                wpos % 4 == 0,
                e[li as int] <= wpos / 4 <= e[li + 1],
                pos == 4 * min_int(start + (wpos / 4 - e[li as int]) * ns, e[li as int] as int),
                boxes@.len() == 4 * nodes,
                indices@.len() == nodes,
                indices.is_u16() == (nodes < 16384),
                e[0] == n,
                forall|p: int|
                    0 <= p < boxes@.len() ==> N::spec_min() <= #[trigger] ints(boxes@)[p]
                        <= N::spec_max(),
                forall|p: int| 0 <= p < 4 * n ==> #[trigger] boxes@[p] == b_in[p],
                forall|k: int| 0 <= k < n ==> #[trigger] indices@[k] == i_in[k],
                forall|l: int, s: int|
                    1 <= l <= li && level_start(e, l) <= s < e[l] ==> #[trigger] parent_ok(
                        ints(boxes@),
                        indices@,
                        e,
                        ns,
                        l,
                        s,
                    ),
                forall|s: int|
                    e[li as int] <= s < wpos / 4 ==> #[trigger] parent_ok(
                        ints(boxes@),
                        indices@,
                        e,
                        ns,
                        li + 1,
                        s,
                    ),
            decreases end - pos,
        {
            let ghost g = wpos / 4 - e[li as int];
            let ghost c0 = start + g * ns;
            let ghost b = ints(boxes@);
            proof {
                lemma_group_count(g, ns as int, e[li as int] - start);
                assert(c0 < e[li as int]);
                assert(pos == 4 * c0);
                assert(c0 + ns == start + (g + 1) * ns) by (nonlinear_arith)
                    requires
                        c0 == start + g * ns,
                ;
            }
            let node_index = pos;
            let (node_min_x, node_min_y, node_max_x, node_max_y, next) = group_bbox::<N>(
                boxes,
                pos,
                end,
                node_size,
            );
            let ghost c1: int = (next / 4) as int;
            proof {
                assert(first_child(e, ns, li + 1, (wpos / 4) as int) == c0);
                assert(end_child(e, ns, li + 1, (wpos / 4) as int) == c1);
                assert(wpos / 4 < e[li + 1]);
                // the stored position fits the index type
                if nodes >= 16384 {
                    let top = e.len() - 1;
                    assert(root_children_start(n as nat, ns) == level_start(e, top - 1));
                    if li + 1 < top {
                        assert(e[li as int] <= e[top - 2]);
                        assert(level_start(e, top - 1) == e[top - 2]);
                    } else {
                        assert(g == 0);
                        assert(c0 == start) by (nonlinear_arith)
                            requires
                                g == 0,
                                c0 == start + g * ns,
                        ;
                    }
                    assert(c0 <= root_children_start(n as nat, ns));
                }
            }
            let w = wpos / 4;
            let ghost ib = indices@;
            indices.set(w, node_index);
            boxes.set(wpos, node_min_x);
            boxes.set(wpos + 1, node_min_y);
            boxes.set(wpos + 2, node_max_x);
            boxes.set(wpos + 3, node_max_y);
            proof {
                let b2 = ints(boxes@);
                let i2 = indices@;
                assert forall|p: int| 0 <= p < 4 * w implies #[trigger] b2[p] == b[p] by {}
                assert forall|k: int| 0 <= k < w implies #[trigger] i2[k] == ib[k] by {}
                assert forall|p: int| 0 <= p < 4 * n implies #[trigger] boxes@[p] == b_in[p] by {}
                assert forall|k: int| 0 <= k < n implies #[trigger] indices@[k] == i_in[k] by {}
                assert(node_box(b2, w as int) == union_box(b, c0, c1));
                lemma_write_parent(b, ib, b2, i2, e, ns, li + 1, w as int);
                assert forall|p: int|
                    0 <= p < boxes@.len() implies N::spec_min() <= #[trigger] ints(boxes@)[p]
                    <= N::spec_max() by {
                    if p < 4 * w || p >= 4 * w + 4 {
                        assert(ints(boxes@)[p] == b[p]);
                    }
                }
            }
            pos = next;
            wpos = wpos + 4;
        }
        proof {
            let g = wpos / 4 - e[li as int];
            lemma_group_count(g, ns as int, e[li as int] - start);
            assert(wpos / 4 == e[li + 1]);
            assert(pos == 4 * level_start(e, li + 1));
        }
        li = li + 1;
    }
}

/// With at most one node's worth of items (`2 <= n <= ns`), the tree has the leaves and a root.
proof fn lemma_single_node_levels(n: nat, ns: nat)
    requires
        2 <= n <= ns,
    ensures
        level_ends(n, ns) == seq![n, n + 1],
{
    assert((n + ns - 1) as int / ns as int == 1) by (nonlinear_arith)
        requires
            2 <= n <= ns,
    ;
    assert(ceil_div(n, ns) == 1);
    assert(crate::rtree::util::upper_level_ends(1, ns, n + 1) =~= Seq::<nat>::empty());
    assert(level_ends(n, ns) =~= seq![n, n + 1]);
}

/// A root over all `n <= ns` items, whose box is the extent of the items and whose index is 0,
/// makes a well-formed tree.
proof fn lemma_root_parent<N: IndexableNum>(b0: Seq<int>, b: Seq<int>, idx: Seq<nat>, n: nat, ns: nat)
    requires
        2 <= n <= ns,
        level_ends(n, ns) == seq![n, n + 1],
        4 * n <= b0.len(),
        b.len() == 4 * (n + 1),
        idx.len() == n + 1,
        idx[n as int] == 0,
        forall|p: int| 0 <= p < 4 * n ==> #[trigger] b[p] == b0[p],
        forall|p: int| 0 <= p < b0.len() ==> N::spec_min() <= #[trigger] b0[p] <= N::spec_max(),
        b[4 * n as int] == fold_min(b0, 0, n as int, 0, N::spec_max()),
        b[4 * n as int + 1] == fold_min(b0, 0, n as int, 1, N::spec_max()),
        b[4 * n as int + 2] == fold_max(b0, 0, n as int, 2, N::spec_min()),
        b[4 * n as int + 3] == fold_max(b0, 0, n as int, 3, N::spec_min()),
    ensures
        tree_shape(b, idx, n, ns),
{
    let e = level_ends(n, ns);
    let ni = n as int;
    assert(level_start(e, 1) == n);
    assert(first_child(e, ns, 1, ni) == 0) by (nonlinear_arith)
        requires
            first_child(e, ns, 1, ni) == level_start(e, 0) + (ni - level_start(e, 1)) * ns,
            level_start(e, 0) == 0,
            level_start(e, 1) == ni,
    ;
    assert(end_child(e, ns, 1, ni) == ni);
    assert forall|k: int| 1 <= k < ni implies #[trigger] b0[4 * k + 0] == b[4 * k + 0] by {
        assert(b[4 * k] == b0[4 * k]);
    }
    assert forall|k: int| 1 <= k < ni implies #[trigger] b0[4 * k + 1] == b[4 * k + 1] by {}
    assert forall|k: int| 1 <= k < ni implies #[trigger] b0[4 * k + 2] == b[4 * k + 2] by {}
    assert forall|k: int| 1 <= k < ni implies #[trigger] b0[4 * k + 3] == b[4 * k + 3] by {}
    assert(N::spec_min() <= b0[0] <= N::spec_max());
    assert(N::spec_min() <= b0[1] <= N::spec_max());
    assert(N::spec_min() <= b0[2] <= N::spec_max());
    assert(N::spec_min() <= b0[3] <= N::spec_max());
    lemma_fold_first(b0, 0, ni, 0, N::spec_max());
    lemma_fold_first(b0, 0, ni, 1, N::spec_max());
    lemma_fold_first(b0, 0, ni, 2, N::spec_min());
    lemma_fold_first(b0, 0, ni, 3, N::spec_min());
    lemma_fold_frame(b0, b, 1, ni, 0, b0[0]);
    lemma_fold_frame(b0, b, 1, ni, 1, b0[1]);
    lemma_fold_frame(b0, b, 1, ni, 2, b0[2]);
    lemma_fold_frame(b0, b, 1, ni, 3, b0[3]);
    assert(b[0] == b0[0]);
    assert(b[1] == b0[1]);
    assert(b[2] == b0[2]);
    assert(b[3] == b0[3]);
    assert(parent_ok(b, idx, e, ns, 1, ni));
    assert forall|l: int, s: int|
        1 <= l < e.len() && level_start(e, l) <= s < e[l] implies #[trigger] parent_ok(
        b,
        idx,
        e,
        ns,
        l,
        s,
    ) by {
        assert(l == 1);
        assert(s == ni);
    }
}

/// Rearranging the first `n` items keeps every coordinate within the range of `N`.
proof fn lemma_rearranged_range<N: IndexableNum>(
    b0: Seq<int>,
    i0: Seq<nat>,
    b1: Seq<int>,
    i1: Seq<nat>,
    n: int,
)
    requires
        1 <= n,
        4 * n <= b0.len(),
        n <= i0.len(),
        rearranged(b0, i0, b1, i1, 0, n - 1),
        forall|p: int| 0 <= p < b0.len() ==> N::spec_min() <= #[trigger] b0[p] <= N::spec_max(),
    ensures
        forall|p: int| 0 <= p < b1.len() ==> N::spec_min() <= #[trigger] b1[p] <= N::spec_max(),
{
    assert forall|p: int| 0 <= p < b1.len() implies N::spec_min() <= #[trigger] b1[p]
        <= N::spec_max() by {
        if p < 4 * n {
            let k2 = lemma_rearranged_member(b0, i0, b1, i1, 0, n - 1, p / 4);
            assert(N::spec_min() <= b0[4 * k2 + p % 4] <= N::spec_max());
        } else {
            assert(b1[p] == b0[p]);
        }
    }
}

} // verus!
