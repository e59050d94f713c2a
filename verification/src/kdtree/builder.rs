//! Building a KDTree.
use vstd::prelude::*;

use crate::indices::MutableIndices;
use crate::kdtree::index::{kd_index_width, KDTree, KDTreeMetadata};
use crate::kdtree::sort::{kd_item, kd_items_in, kd_sort, kd_sort_spec, kd_sorted};
use crate::num::IndexableNum;
use crate::rtree::sort::util::ints;

verus! {

/// Default node size in [`KDTreeBuilder::new`].
pub const DEFAULT_KDTREE_NODE_SIZE: u16 = 64;

/// A builder to create a [`KDTree`].
pub struct KDTreeBuilder<N: IndexableNum> {
    coords: Vec<i64>,
    ids: MutableIndices,
    metadata: KDTreeMetadata<N>,
    pos: usize,
}

impl<N: IndexableNum> KDTreeBuilder<N> {
    /// The coordinates of all points so far, two per point.
    pub closed spec fn spec_coords(&self) -> Seq<int> {
        ints(self.coords@)
    }

    /// The index of each point so far.
    pub closed spec fn spec_ids(&self) -> Seq<nat> {
        self.ids@
    }

    /// The metadata of the tree being built.
    pub closed spec fn spec_metadata(&self) -> KDTreeMetadata<N> {
        self.metadata
    }

    /// The number of points added so far.
    pub closed spec fn spec_num_added(&self) -> nat {
        (self.pos / 2) as nat
    }

    /// The points added so far, each with its insertion index.
    pub open spec fn spec_points(&self) -> Seq<(int, int, nat)> {
        kd_items_in(self.spec_coords(), self.spec_ids(), 0, self.spec_num_added() as int)
    }

    /// The builder's arrays fit the metadata and each added point holds its own insertion index.
    pub closed spec fn wf(&self) -> bool {
        let n = self.metadata.spec_num_items();
        let c = ints(self.coords@);
        let added = (self.pos / 2) as int;
        &&& self.metadata.wf()
        &&& self.coords@.len() == 2 * n
        &&& self.ids@.len() == n
        &&& self.ids.is_u16() == (n < 65536)
        &&& self.pos % 2 == 0
        &&& self.pos <= 2 * n
        &&& forall|p: int| 0 <= p < c.len() ==> N::spec_min() <= #[trigger] c[p] <= N::spec_max()
        &&& forall|k: int| 0 <= k < added ==> #[trigger] self.ids@[k] == k
        &&& forall|k: int| added <= k < n ==> #[trigger] self.ids@[k] == 0
    }

    /// Each added point carries its insertion index: the `i`-th added point has index `i`.
    pub proof fn lemma_points_numbered(&self)
        requires
            self.wf(),
        ensures
            self.spec_points().len() == self.spec_num_added(),
            forall|i: int| 0 <= i < self.spec_points().len() ==> #[trigger] self.spec_points()[i].2 == i,
    {
    }

    /// Create a new builder with the provided number of items and the default node size.
    pub fn new(num_items: u32) -> (r: Self)
        requires
            64 * num_items <= usize::MAX,
        ensures
            r.wf(),
            r.spec_metadata().spec_num_items() == num_items,
            r.spec_metadata().spec_node_size() == DEFAULT_KDTREE_NODE_SIZE,
            r.spec_metadata().wf(),
            r.spec_num_added() == 0,
    {
        Self::new_with_node_size(num_items, DEFAULT_KDTREE_NODE_SIZE)
    }

    /// Create a new builder with the provided number of items and node size.
    pub fn new_with_node_size(num_items: u32, node_size: u16) -> (r: Self)
        requires
            2 <= node_size,
            64 * num_items <= usize::MAX,
        ensures
            r.wf(),
            r.spec_metadata().spec_num_items() == num_items,
            r.spec_metadata().spec_node_size() == node_size,
            r.spec_metadata().wf(),
            r.spec_num_added() == 0,
    {
        let metadata = KDTreeMetadata::new(num_items, node_size);
        Self::from_metadata(metadata)
    }

    /// Create a new builder with the provided metadata
    pub fn from_metadata(metadata: KDTreeMetadata<N>) -> (r: Self)
        requires
            metadata.wf(),
        ensures
            r.wf(),
            r.spec_metadata() == metadata,
            r.spec_num_added() == 0,
    {
        proof {
            N::lemma_layout();
            crate::bytes::lemma_pow256_facts();
        }
        let n = metadata.num_items() as usize;
        let mut coords: Vec<i64> = Vec::new();
        let mut i: usize = 0;
        while i < 2 * n
            invariant
                64 * n <= usize::MAX,
                i <= 2 * n,
                coords@.len() == i,
                forall|p: int| 0 <= p < i ==> #[trigger] coords@[p] == 0,
            decreases 2 * n - i,
        {
            coords.push(0);
            i = i + 1;
        }
        let ids = MutableIndices::zeroed(n, n < 65536);
        let r = KDTreeBuilder { coords, ids, metadata, pos: 0 };
        proof {
            assert forall|p: int| 0 <= p < ints(r.coords@).len() implies N::spec_min() <= #[trigger] ints(
                r.coords@,
            )[p] <= N::spec_max() by {
                assert(ints(r.coords@)[p] == 0);
            }
        }
        r
    }

    /// The number of points added so far.
    pub fn num_added(&self) -> (r: usize)
        ensures
            r == self.spec_num_added(),
    {
        self.pos / 2
    }

    /// Access the underlying [KDTreeMetadata] of this instance.
    pub fn metadata(&self) -> (r: &KDTreeMetadata<N>)
        ensures
            *r == self.spec_metadata(),
    {
        &self.metadata
    }

    /// Add a point to the KDTree.
    ///
    /// This returns a positional index that provides a lookup back into the caller's data.
    pub fn add(&mut self, x: N, y: N) -> (r: u32)
        requires
            old(self).wf(),
            old(self).spec_num_added() < old(self).spec_metadata().spec_num_items(),
        ensures
            final(self).wf(),
            final(self).spec_metadata() == old(self).spec_metadata(),
            r == old(self).spec_num_added(),
            final(self).spec_num_added() == old(self).spec_num_added() + 1,
            final(self).spec_points() == old(self).spec_points().push((x.value(), y.value(), r as nat)),
    {
        let index = self.pos / 2;
        let ghost c0 = ints(self.coords@);
        let ghost i0 = self.ids@;
        proof {
            crate::bytes::lemma_pow256_facts();
        }
        self.ids.set(index, index);
        let pos = self.pos;
        let ax = x.to_i64();
        let ay = y.to_i64();
        self.coords.set(pos, ax);
        self.coords.set(pos + 1, ay);
        self.pos = pos + 2;
        proof {
            let c = ints(self.coords@);
            let k = index as int;
            assert(self.pos / 2 == k + 1);
            assert forall|p: int| 0 <= p < c.len() implies N::spec_min() <= #[trigger] c[p]
                <= N::spec_max() by {
                if p < pos || p >= pos + 2 {
                    assert(c[p] == c0[p]);
                }
            }
            assert(self.spec_points() =~= old(self).spec_points().push(
                (x.value(), y.value(), index as nat),
            )) by {
                assert forall|t: int| 0 <= t < k implies #[trigger] kd_item(c, self.ids@, t) == kd_item(
                    c0,
                    i0,
                    t,
                ) by {}
            }
        }
        index as u32
    }

    /// Consume this builder, performing the k-d sort and generating a KDTree ready for queries.
    ///
    /// The tree holds the added points with their insertion indices, k-d sorted: exactly the
    /// arrangement of `kd_sort_spec`, which selects the middle point of each range along its
    /// axis (by the partition steps of `select_spec`) and sorts the two halves on the other axis.
    pub fn finish(self) -> (r: KDTree<N>)
        requires
            self.wf(),
            self.spec_num_added() == self.spec_metadata().spec_num_items(),
            self.spec_num_added() >= 1,
        ensures
            r.wf(),
            r.spec_metadata() == self.spec_metadata(),
            kd_sorted(
                r.spec_coords(),
                self.spec_metadata().spec_node_size() as int,
                0,
                self.spec_num_added() - 1,
                0,
            ),
            kd_items_in(r.spec_coords(), r.spec_ids(), 0, self.spec_num_added() as int).to_multiset()
                == self.spec_points().to_multiset(),
            (r.spec_coords(), r.spec_ids()) == kd_sort_spec(
                self.spec_coords(),
                self.spec_ids(),
                self.spec_metadata().spec_node_size() as int,
                0,
                self.spec_num_added() - 1,
                0,
            ),
    {
        let ghost c0 = ints(self.coords@);
        let ghost i0 = self.ids@;
        proof {
            assert(kd_items_in(c0, i0, 0, self.spec_num_added() as int) == self.spec_points());
        }
        let n = self.metadata.num_items() as usize;
        let node_size = self.metadata.node_size() as usize;
        let mut coords = self.coords;
        let mut ids = self.ids;
        let metadata = self.metadata;
        // kd-sort both arrays for efficient search
        kd_sort(&mut ids, &mut coords, node_size, 0, n - 1, 0);
        proof {
            crate::bytes::lemma_pow256_facts();
            ids.lemma_bounded();
            let c = ints(coords@);
            assert forall|p: int| 0 <= p < c.len() implies N::spec_min() <= #[trigger] c[p]
                <= N::spec_max() by {
                let k2 = crate::kdtree::sort::lemma_kd_rearranged_member(
                    c0,
                    i0,
                    c,
                    ids@,
                    0,
                    n - 1,
                    p / 2,
                );
                assert(c[p] == c0[2 * k2 + p % 2]);
            }
            assert forall|k: int| 0 <= k < ids@.len() implies #[trigger] ids@[k] < crate::bytes::pow256(
                kd_index_width(n as nat),
            ) by {}
        }
        KDTree::from_parts(coords, ids.into_indices(), metadata)
    }
}

} // verus!
