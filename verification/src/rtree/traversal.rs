//! Walking an RTree by hand: its nodes, their boxes and their children.
use std::marker::PhantomData;
use vstd::prelude::*;

use crate::num::IndexableNum;
use crate::rtree::index::{index_wf, RTreeIndex};
use crate::rtree::search::group_end;
use crate::rtree::structure::{
    end_child, first_child, lemma_level_of, level_of, level_start, parent_ok, tree_shape,
};
use crate::rtree::sort::util::ints;
use crate::rtree::util::{lemma_level_ends, level_ends};

verus! {

/// A node of an RTree.
pub struct Node<'a, N: IndexableNum, T: RTreeIndex<N>> {
    /// The tree that this node is a reference onto.
    tree: &'a T,
    /// The position in the tree's boxes of the first coordinate of this node's box.
    pos: usize,
    phantom: PhantomData<N>,
}

impl<'a, N: IndexableNum, T: RTreeIndex<N>> Node<'a, N, T> {
    /// The tree of this node.
    pub closed spec fn spec_tree(&self) -> &'a T {
        self.tree
    }

    /// The position of this node's box in the tree's boxes: four times the node's number.
    pub closed spec fn spec_pos(&self) -> nat {
        self.pos as nat
    }

    /// The number of this node in the tree.
    pub open spec fn spec_node(&self) -> int {
        (self.spec_pos() / 4) as int
    }

    /// The node lies in a well-formed tree.
    pub open spec fn wf(&self) -> bool {
        &&& index_wf(self.spec_tree())
        &&& self.spec_pos() % 4 == 0
        &&& self.spec_pos() < self.spec_tree().tree_boxes().len()
    }

    /// Coordinate `c` of this node's box.
    pub open spec fn coord(&self, c: int) -> int {
        self.spec_tree().tree_boxes()[self.spec_pos() + c]
    }

    /// The node at the given position of the tree.
    pub(crate) fn new(tree: &'a T, pos: usize) -> (r: Self)
        ensures
            r.spec_tree() == tree,
            r.spec_pos() == pos,
    {
        Node { tree, pos, phantom: PhantomData }
    }

    /// The root of a tree: its last node.
    pub(crate) fn from_root(tree: &'a T) -> (r: Self)
        requires
            index_wf(tree),
        ensures
            r.wf(),
            r.spec_tree() == tree,
            r.spec_node() == tree.tree_metadata().spec_num_nodes() - 1,
    {
        proof {
            tree.tree_metadata().lemma_sizes();
        }
        let boxes = tree.boxes();
        Node { tree, pos: boxes.len() - 4, phantom: PhantomData }
    }

    /// One coordinate of this node's box.
    fn coord_at(&self, c: usize) -> (r: N)
        requires
            self.wf(),
            c < 4,
        ensures
            r.value() == self.coord(c as int),
    {
        let boxes = self.tree.boxes();
        let v = boxes[self.pos + c];
        proof {
            assert(ints(boxes@)[self.pos + c] == v);
        }
        N::from_i64(v)
    }

    /// Get the minimum `x` value of this node.
    pub fn min_x(&self) -> (r: N)
        requires
            self.wf(),
        ensures
            r.value() == self.coord(0),
    {
        self.coord_at(0)
    }

    /// Get the minimum `y` value of this node.
    pub fn min_y(&self) -> (r: N)
        requires
            self.wf(),
        ensures
            r.value() == self.coord(1),
    {
        self.coord_at(1)
    }

    /// Get the maximum `x` value of this node.
    pub fn max_x(&self) -> (r: N)
        requires
            self.wf(),
        ensures
            r.value() == self.coord(2),
    {
        self.coord_at(2)
    }

    /// Get the maximum `y` value of this node.
    pub fn max_y(&self) -> (r: N)
        requires
            self.wf(),
        ensures
            r.value() == self.coord(3),
    {
        self.coord_at(3)
    }

    /// The corner of the box with the minimum coordinates.
    pub fn min(&self) -> (r: Coord<N>)
        requires
            self.wf(),
        ensures
            r.spec_x().value() == self.coord(0),
            r.spec_y().value() == self.coord(1),
    {
        Coord { x: self.min_x(), y: self.min_y() }
    }

    /// The corner of the box with the maximum coordinates.
    pub fn max(&self) -> (r: Coord<N>)
        requires
            self.wf(),
        ensures
            r.spec_x().value() == self.coord(2),
            r.spec_y().value() == self.coord(3),
    {
        Coord { x: self.max_x(), y: self.max_y() }
    }

    /// Returns `true` if this is a leaf node without children.
    pub fn is_leaf(&self) -> (r: bool)
        requires
            self.wf(),
        ensures
            r == (self.spec_node() < self.spec_tree().tree_metadata().spec_num_items()),
    {
        proof {
            self.tree.tree_metadata().lemma_sizes();
        }
        self.pos < self.tree.metadata().num_items() * 4
    }

    /// Returns `true` if this is an intermediate node with children.
    pub fn is_parent(&self) -> (r: bool)
        requires
            self.wf(),
        ensures
            r == (self.spec_node() >= self.spec_tree().tree_metadata().spec_num_items()),
    {
        !self.is_leaf()
    }

    /// Returns `true` if this node's box and another node's box share a point.
    pub fn intersects<T2: RTreeIndex<N>>(&self, other: &Node<'_, N, T2>) -> (r: bool)
        requires
            self.wf(),
            other.wf(),
        ensures
            r == !(self.coord(2) < other.coord(0) || self.coord(3) < other.coord(1) || self.coord(0)
                > other.coord(2) || self.coord(1) > other.coord(3)),
    {
        let (a0, a1, a2, a3) = (self.coord_at(0), self.coord_at(1), self.coord_at(2), self.coord_at(3));
        let (b0, b1, b2, b3) = (other.coord_at(0), other.coord_at(1), other.coord_at(2), other.coord_at(3));
        !(a2.to_i64() < b0.to_i64() || a3.to_i64() < b1.to_i64() || a0.to_i64() > b2.to_i64()
            || a1.to_i64() > b3.to_i64())
    }

    /// The child nodes of this node: the group that its index points at, of at most `node_size`
    /// nodes and not past the end of their level. None where the index points at no node.
    ///
    /// In a tree of the shape that the builder makes, these are exactly the children of a
    /// parent, in order.
    pub fn children(&self) -> (r: Vec<Node<'a, N, T>>)
        requires
            self.wf(),
        ensures
            forall|i: int| 0 <= i < r@.len() ==> (#[trigger] r@[i]).wf() && r@[i].spec_tree() == self.spec_tree(),
            ({
                let t = self.spec_tree();
                let n = t.tree_metadata().spec_num_items();
                let ns = t.tree_metadata().spec_node_size();
                let e = level_ends(n, ns);
                let s = self.spec_node();
                let l = level_of(e, s);
                tree_shape(t.tree_boxes(), t.tree_indices(), n, ns) && s >= n ==> {
                    &&& r@.len() == end_child(e, ns, l, s) - first_child(e, ns, l, s)
                    &&& forall|i: int|
                        0 <= i < r@.len() ==> #[trigger] r@[i].spec_node() == first_child(e, ns, l, s) + i
                }
            }),
    {
        let ghost t = self.tree;
        let ghost n = t.tree_metadata().spec_num_items();
        let ghost ns = t.tree_metadata().spec_node_size();
        let ghost e = level_ends(n, ns);
        let ghost s = self.spec_node();
        let ghost shaped = tree_shape(t.tree_boxes(), t.tree_indices(), n, ns) && s >= n;
        let ghost l = level_of(e, s);
        proof {
            t.tree_metadata().lemma_sizes();
            lemma_level_ends(n, ns);
            if shaped {
                lemma_level_of(n, ns, s);
                assert(parent_ok(t.tree_boxes(), t.tree_indices(), e, ns, l, s));
                let fc = first_child(e, ns, l, s);
                assert(fc >= level_start(e, l - 1)) by (nonlinear_arith)
                    requires
                        fc == level_start(e, l - 1) + (s - level_start(e, l)) * ns,
                        s >= level_start(e, l),
                ;
                crate::rtree::structure::lemma_level_step(n, ns, l);
                if l - 1 >= 1 {
                    assert(e[0] < e[l - 1]);
                }
                if l < e.len() - 1 {
                    assert(e[l] < e[e.len() - 1]);
                }
            }
        }
        let boxes = self.tree.boxes();
        let indices = self.tree.indices();
        let start = indices.get(self.pos / 4);
        let mut out: Vec<Node<'a, N, T>> = Vec::new();
        if start % 4 == 0 && start < boxes.len() {
            let end = group_end(self.tree.metadata(), start, Ghost(l - 1));
            let mut p = start;
            while p < end
                invariant
                    index_wf(t),
                    t == self.tree,
                    boxes@.len() == t.tree_boxes().len(),
                    start <= p <= end <= boxes@.len(),
                    p % 4 == 0,
                    end % 4 == 0,
                    start % 4 == 0,
                    out@.len() == (p - start) / 4,
                    forall|i: int|
                        0 <= i < out@.len() ==> (#[trigger] out@[i]).wf() && out@[i].spec_tree() == t
                            && out@[i].spec_pos() == start + 4 * i,
                decreases end - p,
            {
                out.push(Node::new(self.tree, p));
                p = p + 4;
            }
        }
        out
    }

    /// The insertion index. This is only valid when this is a leaf node, which you can
    /// check with `Self::is_leaf`.
    pub fn index(&self) -> (r: usize)
        requires
            self.wf(),
        ensures
            r == self.spec_tree().tree_indices()[self.spec_node()],
    {
        proof {
            self.tree.tree_metadata().lemma_sizes();
        }
        self.tree.indices().get(self.pos / 4)
    }
}

/// A single coordinate: the corner of a box.
#[derive(Debug)]
pub struct Coord<N> {
    pub(crate) x: N,
    pub(crate) y: N,
}

impl<N: Copy> Coord<N> {
    /// The coordinate `(x, y)`.
    pub(crate) fn new(x: N, y: N) -> (r: Self)
        ensures
            r.spec_x() == x,
            r.spec_y() == y,
    {
        Coord { x, y }
    }

    /// The `x` value.
    pub closed spec fn spec_x(&self) -> N {
        self.x
    }

    /// The `y` value.
    pub closed spec fn spec_y(&self) -> N {
        self.y
    }

    /// The `x` value.
    pub fn x(&self) -> (r: N)
        ensures
            r == self.spec_x(),
    {
        self.x
    }

    /// The `y` value.
    pub fn y(&self) -> (r: N)
        ensures
            r == self.spec_y(),
    {
        self.y
    }

    /// The `n`-th value: `x` for 0, `y` for 1.
    pub fn nth_or_panic(&self, n: usize) -> (r: N)
        requires
            n < 2,
        ensures
            r == (if n == 0 {
                self.spec_x()
            } else {
                self.spec_y()
            }),
    {
        if n == 0 {
            self.x
        } else {
            self.y
        }
    }
}

} // verus!
