//! Walking a KDTree by hand: its nodes, the halves they split into, and their items.
use vstd::prelude::*;

use crate::kdtree::index::{kd_index_wf, KDTreeIndex};
use crate::num::IndexableNum;
use crate::rtree::sort::util::ints;
use crate::rtree::traversal::Coord;

verus! {

/// A node of a KDTree: a run of the k-d sorted points, split over an axis, with the box that
/// the splits above it bound it by.
pub struct Node<'a, N: IndexableNum, T: KDTreeIndex<N>> {
    /// The tree that this node is a reference onto.
    tree: &'a T,
    /// The axis that the children of this node are split over: 0 for x, 1 for y.
    axis: usize,
    /// The position of the last point of the node.
    right_child: usize,
    /// The position of the first point of the node.
    left_child: usize,
    /// The min_x of this node.
    min_x: N,
    /// The min_y of this node.
    min_y: N,
    /// The max_x of this node.
    max_x: N,
    /// The max_y of this node.
    max_y: N,
}

impl<'a, N: IndexableNum, T: KDTreeIndex<N>> Node<'a, N, T> {
    /// The tree of this node.
    pub closed spec fn spec_tree(&self) -> &'a T {
        self.tree
    }

    /// The axis that the children of this node are split over.
    pub closed spec fn spec_axis(&self) -> nat {
        self.axis as nat
    }

    /// The position of the first point of the node.
    pub closed spec fn spec_left(&self) -> int {
        self.left_child as int
    }

    /// The position of the last point of the node.
    pub closed spec fn spec_right(&self) -> int {
        self.right_child as int
    }

    /// The node's box: `min_x, min_y, max_x, max_y`.
    pub closed spec fn spec_box(&self) -> (int, int, int, int) {
        (self.min_x.value(), self.min_y.value(), self.max_x.value(), self.max_y.value())
    }

    /// The number of points of the tree.
    pub open spec fn spec_n(&self) -> nat {
        self.spec_tree().tree_metadata().spec_num_items()
    }

    /// The node's points lie in a well-formed tree.
    pub open spec fn wf(&self) -> bool {
        &&& kd_index_wf(self.spec_tree())
        &&& 0 <= self.spec_left() <= self.spec_right() < self.spec_n()
        &&& self.spec_axis() < 2
    }

    /// The node splits into two halves: it holds more points than the node size.
    pub open spec fn spec_is_parent(&self) -> bool {
        self.spec_right() - self.spec_left() > self.spec_tree().tree_metadata().spec_node_size()
    }

    /// The position of the middle point, where the node splits.
    pub open spec fn spec_middle(&self) -> int {
        (self.spec_left() + self.spec_right()) / 2
    }

    /// The root of a tree: all its points, split over `x`, with a box that bounds nothing yet
    /// (the largest minima and the smallest maxima).
    pub(crate) fn from_root(tree: &'a T) -> (r: Self)
        requires
            kd_index_wf(tree),
            tree.tree_metadata().spec_num_items() >= 1,
        ensures
            r.wf(),
            r.spec_tree() == tree,
            r.spec_left() == 0,
            r.spec_right() == tree.tree_metadata().spec_num_items() - 1,
            r.spec_axis() == 0,
            r.spec_box() == (N::spec_max(), N::spec_max(), N::spec_min(), N::spec_min()),
    {
        let n = tree.indices().len();
        Node {
            tree,
            axis: 0,
            right_child: n - 1,
            left_child: 0,
            min_x: N::max_value(),
            min_y: N::max_value(),
            max_x: N::min_value(),
            max_y: N::min_value(),
        }
    }

    /// The point at position `m`.
    fn middle_xy(&self, m: usize) -> (r: (N, N))
        requires
            self.wf(),
            m < self.spec_n(),
        ensures
            r.0.value() == self.spec_tree().tree_coords()[2 * m],
            r.1.value() == self.spec_tree().tree_coords()[2 * m + 1],
    {
        let coords = self.tree.coords();
        let x = coords[2 * m];
        let y = coords[2 * m + 1];
        proof {
            assert(ints(coords@)[2 * m] == x);
            assert(ints(coords@)[2 * m + 1] == y);
        }
        (N::from_i64(x), N::from_i64(y))
    }

    /// Returns `true` if this is a leaf node without children.
    pub fn is_leaf(&self) -> (r: bool)
        requires
            self.wf(),
        ensures
            r == !self.spec_is_parent(),
    {
        self.right_child - self.left_child <= self.tree.metadata().node_size() as usize
    }

    /// Returns `true` if this is an intermediate node with children.
    pub fn is_parent(&self) -> (r: bool)
        requires
            self.wf(),
        ensures
            r == self.spec_is_parent(),
    {
        !self.is_leaf()
    }

    /// The child node representing the "left" half: the points before the middle one, with the
    /// box cut at the middle point on the node's axis.
    ///
    /// Note that this **does not include** the middle index of the current node.
    pub fn left_child_unchecked(&self) -> (r: Node<'a, N, T>)
        requires
            self.wf(),
            self.spec_is_parent(),
        ensures
            r.wf(),
            r.spec_tree() == self.spec_tree(),
            r.spec_axis() == 1 - self.spec_axis(),
            r.spec_left() == self.spec_left(),
            r.spec_right() == self.spec_middle() - 1,
            r.spec_box() == (if self.spec_axis() == 0 {
                (self.spec_box().0, self.spec_box().1, self.spec_tree().tree_coords()[2 * self.spec_middle()], self.spec_box().3)
            } else {
                (self.spec_box().0, self.spec_box().1, self.spec_box().2, self.spec_tree().tree_coords()[2 * self.spec_middle() + 1])
            }),
    {
        let m = (self.left_child + self.right_child) / 2;
        let (x, y) = self.middle_xy(m);
        let mut max_x = self.max_x;
        let mut max_y = self.max_y;
        if self.axis == 0 {
            max_x = x;
        } else {
            max_y = y;
        }
        Node {
            tree: self.tree,
            axis: 1 - self.axis,
            right_child: m - 1,
            left_child: self.left_child,
            min_x: self.min_x,
            min_y: self.min_y,
            max_x,
            max_y,
        }
    }

    /// The child node representing the "left" half, if this is a parent node.
    pub fn left_child(&self) -> (r: Option<Node<'a, N, T>>)
        requires
            self.wf(),
        ensures
            r is Some == self.spec_is_parent(),
            r matches Some(c) ==> c.wf() && c.spec_tree() == self.spec_tree() && c.spec_left()
                == self.spec_left() && c.spec_right() == self.spec_middle() - 1 && c.spec_axis() == 1
                - self.spec_axis() && c.spec_box() == (if self.spec_axis() == 0 {
                (self.spec_box().0, self.spec_box().1, self.spec_tree().tree_coords()[2 * self.spec_middle()], self.spec_box().3)
            } else {
                (self.spec_box().0, self.spec_box().1, self.spec_box().2, self.spec_tree().tree_coords()[2 * self.spec_middle() + 1])
            }),
    {
        if self.is_parent() {
            Some(self.left_child_unchecked())
        } else {
            None
        }
    }

    /// The child node representing the "right" half: the points after the middle one, with the
    /// box cut at the middle point on the node's axis.
    ///
    /// Note that this **does not include** the middle index of the current node.
    pub fn right_child_unchecked(&self) -> (r: Node<'a, N, T>)
        requires
            self.wf(),
            self.spec_is_parent(),
        ensures
            r.wf(),
            r.spec_tree() == self.spec_tree(),
            r.spec_axis() == 1 - self.spec_axis(),
            r.spec_left() == self.spec_middle() + 1,
            r.spec_right() == self.spec_right(),
            r.spec_box() == (if self.spec_axis() == 0 {
                (self.spec_tree().tree_coords()[2 * self.spec_middle()], self.spec_box().1, self.spec_box().2, self.spec_box().3)
            } else {
                (self.spec_box().0, self.spec_tree().tree_coords()[2 * self.spec_middle() + 1], self.spec_box().2, self.spec_box().3)
            }),
    {
        let m = (self.left_child + self.right_child) / 2;
        let (x, y) = self.middle_xy(m);
        let mut min_x = self.min_x;
        let mut min_y = self.min_y;
        if self.axis == 0 {
            min_x = x;
        } else {
            min_y = y;
        }
        Node {
            tree: self.tree,
            axis: 1 - self.axis,
            right_child: self.right_child,
            left_child: m + 1,
            min_x,
            min_y,
            max_x: self.max_x,
            max_y: self.max_y,
        }
    }

    /// The child node representing the "right" half, if this is a parent node.
    pub fn right_child(&self) -> (r: Option<Node<'a, N, T>>)
        requires
            self.wf(),
        ensures
            r is Some == self.spec_is_parent(),
            r matches Some(c) ==> c.wf() && c.spec_tree() == self.spec_tree() && c.spec_left()
                == self.spec_middle() + 1 && c.spec_right() == self.spec_right() && c.spec_axis() == 1
                - self.spec_axis() && c.spec_box() == (if self.spec_axis() == 0 {
                (self.spec_tree().tree_coords()[2 * self.spec_middle()], self.spec_box().1, self.spec_box().2, self.spec_box().3)
            } else {
                (self.spec_box().0, self.spec_tree().tree_coords()[2 * self.spec_middle() + 1], self.spec_box().2, self.spec_box().3)
            }),
    {
        if self.is_parent() {
            Some(self.right_child_unchecked())
        } else {
            None
        }
    }

    /// The insertion index of the middle point of this node.
    pub fn middle_insertion_index_unchecked(&self) -> (r: u32)
        requires
            self.wf(),
        ensures
            r == self.spec_tree().tree_ids()[self.spec_middle()],
    {
        let m = (self.left_child + self.right_child) / 2;
        let ids = self.tree.indices();
        let v = ids.get(m);
        proof {
            crate::bytes::lemma_pow256_facts();
        }
        v as u32
    }

    /// The insertion index of the middle point of this node, if this is a parent node.
    pub fn middle_insertion_index(&self) -> (r: Option<u32>)
        requires
            self.wf(),
        ensures
            r is Some == self.spec_is_parent(),
            r matches Some(v) ==> v == self.spec_tree().tree_ids()[self.spec_middle()],
    {
        if self.is_parent() {
            Some(self.middle_insertion_index_unchecked())
        } else {
            None
        }
    }

    /// The insertion indices of the points of this node, in k-d order.
    pub fn leaf_insertion_indices_unchecked(&self) -> (r: Vec<u32>)
        requires
            self.wf(),
        ensures
            r@.len() == self.spec_right() - self.spec_left() + 1,
            forall|i: int|
                0 <= i < r@.len() ==> #[trigger] r@[i] == self.spec_tree().tree_ids()[self.spec_left()
                    + i],
    {
        let ids = self.tree.indices();
        let mut result: Vec<u32> = Vec::new();
        let mut i = self.left_child;
        proof {
            crate::bytes::lemma_pow256_facts();
        }
        while i <= self.right_child
            invariant
                self.wf(),
                ids@ == self.spec_tree().tree_ids(),
                self.left_child <= i <= self.right_child + 1,
                result@.len() == i - self.left_child,
                forall|k: int|
                    0 <= k < result@.len() ==> #[trigger] result@[k] == ids@[self.left_child + k],
            decreases self.right_child + 1 - i,
        {
            let v = ids.get(i);
            result.push(v as u32);
            i = i + 1;
        }
        result
    }

    /// The insertion indices of the points of this node, if this is a leaf node.
    pub fn leaf_insertion_indices(&self) -> (r: Option<Vec<u32>>)
        requires
            self.wf(),
        ensures
            r is Some == !self.spec_is_parent(),
            r matches Some(v) ==> v@.len() == self.spec_right() - self.spec_left() + 1 && forall|i: int|
                0 <= i < v@.len() ==> #[trigger] v@[i] == self.spec_tree().tree_ids()[self.spec_left()
                    + i],
    {
        if self.is_leaf() {
            Some(self.leaf_insertion_indices_unchecked())
        } else {
            None
        }
    }

    /// The corner of the node's box with the minimum coordinates.
    pub fn min(&self) -> (r: Coord<N>)
        ensures
            r.spec_x().value() == self.spec_box().0,
            r.spec_y().value() == self.spec_box().1,
    {
        Coord::new(self.min_x, self.min_y)
    }

    /// The corner of the node's box with the maximum coordinates.
    pub fn max(&self) -> (r: Coord<N>)
        ensures
            r.spec_x().value() == self.spec_box().2,
            r.spec_y().value() == self.spec_box().3,
    {
        Coord::new(self.max_x, self.max_y)
    }
}

} // verus!
