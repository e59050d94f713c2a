//! The interface of the sorting step of an RTree build.
use vstd::prelude::*;

use crate::indices::MutableIndices;
use crate::num::IndexableNum;
use crate::rtree::sort::util::{ints, rearranged};

verus! {

/// Parameters that are passed in to the `sort` function of the `Sort` trait.
pub struct SortParams<N: IndexableNum> {
    /// The number of items to sort.
    pub num_items: usize,
    /// The maximum number of children of a node.
    pub node_size: usize,
    /// The smallest `min_x` of all items.
    pub min_x: N,
    /// The smallest `min_y` of all items.
    pub min_y: N,
    /// The largest `max_x` of all items.
    pub max_x: N,
    /// The largest `max_y` of all items.
    pub max_y: N,
}

/// What a sort may assume: at least two items (as many as a tree holds) and a node size of at
/// least two, a box of four coordinates of type `N` and an index for each item.
pub open spec fn sort_inputs<N: IndexableNum>(
    params: SortParams<N>,
    boxes: Seq<int>,
    indices: Seq<nat>,
) -> bool {
    &&& 2 <= params.node_size <= 65535
    &&& 2 <= params.num_items <= u32::MAX
    &&& 64 * params.num_items <= usize::MAX
    &&& 4 * params.num_items <= boxes.len()
    &&& params.num_items <= indices.len()
    &&& forall|p: int| 0 <= p < boxes.len() ==> N::spec_min() <= #[trigger] boxes[p] <= N::spec_max()
}

/// The sum of each box's two coordinates on each axis (twice its center) is a value of `N`, as
/// the sorts compute it in `N`.
pub open spec fn center_sums_fit<N: IndexableNum>(leaves: Seq<int>) -> bool {
    forall|i: int|
        0 <= i && 4 * i + 3 < leaves.len() ==> N::spec_min() <= #[trigger] leaves[4 * i] + leaves[4 * i + 2]
            <= N::spec_max() && N::spec_min() <= leaves[4 * i + 1] + leaves[4 * i + 3] <= N::spec_max()
}

/// A trait for sorting the elements of an RTree.
pub trait Sort<N: IndexableNum> {
    /// The sort's arithmetic in `N` does not overflow on these boxes (`leaves`, four coordinates
    /// each), whose extents are given.
    spec fn fits(min_x: int, min_y: int, max_x: int, max_y: int, leaves: Seq<int>) -> bool;

    /// The order that the sort leaves the boxes of the items in (`leaves` holds the four
    /// coordinates of each of the `params.num_items` items).
    spec fn sorted(params: SortParams<N>, leaves: Seq<int>) -> bool;

    /// The boxes and indices that the sort leaves, from the boxes and indices that it is given.
    spec fn arrangement(params: SortParams<N>, boxes: Seq<int>, indices: Seq<nat>) -> (Seq<int>, Seq<nat>);

    /// Sort the `boxes` and `indices` of the first `num_items` items.
    ///
    /// ## Invariants:
    ///
    /// - Each element in `boxes` consists of four numbers.
    /// - Each element in `boxes` is ordered `[min_x, min_y, max_x, max_y]`.
    /// - The relative order of elements within `boxes` and `indices` must be maintained. If you're
    ///   swapping the first box with the second box, you must also swap the first index with the
    ///   second index.
    fn sort(params: &SortParams<N>, boxes: &mut Vec<i64>, indices: &mut MutableIndices)
        requires
            sort_inputs::<N>(*params, ints(old(boxes)@), old(indices)@),
            Self::fits(
                params.min_x.value(),
                params.min_y.value(),
                params.max_x.value(),
                params.max_y.value(),
                ints(old(boxes)@).subrange(0, 4 * params.num_items),
            ),
        ensures
            rearranged(
                ints(old(boxes)@),
                old(indices)@,
                ints(final(boxes)@),
                final(indices)@,
                0,
                params.num_items - 1,
            ),
            final(indices).is_u16() == old(indices).is_u16(),
            Self::sorted(*params, ints(final(boxes)@).subrange(0, 4 * params.num_items)),
            (ints(final(boxes)@), final(indices)@) == Self::arrangement(
                *params,
                ints(old(boxes)@),
                old(indices)@,
            ),
    ;
}

} // verus!
