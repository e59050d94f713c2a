//! The layout of an RTree: its metadata, and the owned and the decoded tree.
use std::marker::PhantomData;
use vstd::prelude::*;

use crate::bytes::{
    decode_value, encode_seq, header_bytes, lemma_encode_seq_decode, lemma_encode_seq_len,
    lemma_header_fields, lemma_pow256_facts, le_value, pow256, push_header, push_values, read_le,
    read_values, repr_max, repr_min,
};
use crate::error::{
    error_message, format_two_numbers, general_error, two_number_message, GeoIndexError,
};
use crate::indices::Indices;
use crate::num::IndexableNum;
use crate::rtree::sort::util::ints;
use crate::rtree::join::{all_pairs_found, distinct_leaf_pairs, join, join_ready, leaf_pair, Side};
use crate::rtree::traversal::Node;
use crate::rtree::neighbors::{
    boxes_ordered, by_distance, distance_limit, near_leaves, nearest_by_items, nearest_by_metric,
    nearest_complete, nearest_found, nearest_squared, within_max, ItemDistance, ItemDistanceMetric,
    MetricDistance, SimpleDistanceMetric,
};
use crate::rtree::search::{is_leaf_hit, nats_u32, search_results, search_tree};
use crate::rtree::structure::tree_shape;
use crate::rtree::util::{compute_num_nodes, lemma_level_ends, level_ends, num_nodes_spec};

verus! {

/// The first byte of every RTree buffer.
pub const RTREE_MAGIC: u8 = 0xfb;

/// The layout version written in the high four bits of the second byte.
pub const RTREE_VERSION: u8 = 3;

/// The number of bytes of one stored index: `u16` while the tree has fewer than 16384 nodes
/// (so that every box position fits), else `u32`.
pub open spec fn index_width(num_nodes: nat) -> nat {
    if num_nodes < 16384 {
        2
    } else {
        4
    }
}

/// The offsets of the level ends in the boxes array (four coordinates per node).
pub open spec fn level_bounds_of(num_items: nat, node_size: nat) -> Seq<nat> {
    Seq::new(level_ends(num_items, node_size).len(), |k: int| 4 * level_ends(num_items, node_size)[k])
}

/// A number of items and a node size that describe a tree this library can lay out: at least one
/// item, a node size of at least two when there is more than one item, and sizes that fit the
/// machine's `usize`.
pub open spec fn valid_rtree_params(num_items: nat, node_size: nat) -> bool {
    &&& 1 <= num_items <= u32::MAX
    &&& node_size <= 65535
    &&& (num_items == 1 || node_size >= 2)
    &&& 64 * num_items <= usize::MAX
}

/// Common metadata to describe an RTree
///
/// You can use the metadata to infer the total byte size of a tree given the provided criteria.
pub struct RTreeMetadata<N: IndexableNum> {
    node_size: usize,
    num_items: usize,
    num_nodes: usize,
    level_bounds: Vec<usize>,
    nodes_byte_length: usize,
    indices_byte_length: usize,
    phantom: PhantomData<N>,
}

impl<N: IndexableNum> RTreeMetadata<N> {
    /// The maximum number of children per node.
    pub closed spec fn spec_node_size(&self) -> nat {
        self.node_size as nat
    }

    /// The number of items.
    pub closed spec fn spec_num_items(&self) -> nat {
        self.num_items as nat
    }

    /// The number of nodes at all levels.
    pub closed spec fn spec_num_nodes(&self) -> nat {
        self.num_nodes as nat
    }

    /// The end of each level in the boxes array.
    pub closed spec fn spec_level_bounds(&self) -> Seq<nat> {
        self.level_bounds@.map_values(|b: usize| b as nat)
    }

    /// The number of bytes of the boxes.
    pub closed spec fn spec_nodes_byte_length(&self) -> nat {
        self.nodes_byte_length as nat
    }

    /// The number of bytes of the indices.
    pub closed spec fn spec_indices_byte_length(&self) -> nat {
        self.indices_byte_length as nat
    }

    /// The metadata describes the tree of its number of items and node size.
    pub open spec fn wf(&self) -> bool {
        let n = self.spec_num_items();
        let ns = self.spec_node_size();
        let nodes = num_nodes_spec(n, ns);
        &&& valid_rtree_params(n, ns)
        &&& self.spec_num_nodes() == nodes
        &&& self.spec_level_bounds() == level_bounds_of(n, ns)
        &&& self.spec_nodes_byte_length() == nodes * 4 * N::spec_bytes_per_element()
        &&& self.spec_indices_byte_length() == nodes * index_width(nodes)
    }

    /// The number of bytes of a buffer with this metadata.
    pub open spec fn spec_data_buffer_length(&self) -> nat {
        8 + self.spec_nodes_byte_length() + self.spec_indices_byte_length()
    }

    /// The sizes that well-formed metadata implies: at least as many nodes as items and at most
    /// three times as many, a buffer of at most 64 bytes per item, and level bounds from the end
    /// of the leaves to the end of the nodes.
    pub proof fn lemma_sizes(&self)
        requires
            self.wf(),
        ensures
            self.spec_num_items() <= self.spec_num_nodes() <= 3 * self.spec_num_items(),
            self.spec_data_buffer_length() <= 64 * self.spec_num_items(),
            self.spec_level_bounds().len() >= 1,
            self.spec_level_bounds()[0] == 4 * self.spec_num_items(),
            self.spec_level_bounds().last() == 4 * self.spec_num_nodes(),
    {
        N::lemma_layout();
        lemma_level_ends(self.spec_num_items(), self.spec_node_size());
        let nodes = self.spec_num_nodes();
        assert(nodes * 4 * N::spec_bytes_per_element() <= nodes * 16) by (nonlinear_arith)
            requires
                N::spec_bytes_per_element() <= 4,
        ;
    }

    /// Builds the metadata from validated parameters.
    fn from_params(num_items: u32, node_size: u16) -> (r: Self)
        requires
            valid_rtree_params(num_items as nat, node_size as nat),
        ensures
            r.wf(),
            r.spec_num_items() == num_items,
            r.spec_node_size() == node_size,
    {
        let (num_nodes, level_bounds) = compute_num_nodes(num_items, node_size);
        proof {
            N::lemma_layout();
            lemma_level_ends(num_items as nat, node_size as nat);
        }
        let indices_bytes_per_element: usize = if num_nodes < 16384 {
            2
        } else {
            4
        };
        let nodes_byte_length = num_nodes * 4 * N::bytes_per_element();
        let indices_byte_length = num_nodes * indices_bytes_per_element;
        let r = Self {
            node_size: node_size as usize,
            num_items: num_items as usize,
            num_nodes,
            level_bounds,
            nodes_byte_length,
            indices_byte_length,
            phantom: PhantomData,
        };
        proof {
            assert(r.spec_level_bounds() =~= level_bounds_of(num_items as nat, node_size as nat));
        }
        r
    }

    /// Construct a new [`RTreeMetadata`] from a number of items and node size.
    pub fn new(num_items: u32, node_size: u16) -> (r: Self)
        requires
            2 <= node_size,
            1 <= num_items,
            64 * num_items <= usize::MAX,
        ensures
            r.wf(),
            r.spec_num_items() == num_items,
            r.spec_node_size() == node_size,
    {
        Self::from_params(num_items, node_size)
    }

    /// Reads the metadata from the header of a buffer in the flatbush layout, checking that the
    /// buffer has the size that the header implies.
    fn try_new_from_slice(data: &[u8]) -> (r: Result<Self, GeoIndexError>)
        requires
            data@.len() >= 8,
            rtree_header_counts::<N>(data@),
        ensures
            rtree_header_outcome::<N>(data@, r),
    {
        let magic = data[0];
        if magic != RTREE_MAGIC {
            return Err(general_error("Data not in Flatbush format."));
        }
        let version_and_type = data[1];
        let version = version_and_type / 16;
        if version != RTREE_VERSION {
            return Err(
                GeoIndexError::General(
                    format_two_numbers(
                        "Got v",
                        version as u64,
                        " data when expected v",
                        RTREE_VERSION as u64,
                        ".",
                    ),
                ),
            );
        }
        let type_ = version_and_type % 16;
        if type_ != N::type_index() {
            return Err(
                GeoIndexError::General(
                    format_two_numbers(
                        "Got type ",
                        type_ as u64,
                        " data when expected type ",
                        N::type_index() as u64,
                        ".",
                    ),
                ),
            );
        }
        proof {
            lemma_pow256_facts();
            crate::bytes::lemma_le_value_bound(data@.subrange(2, 4));
            crate::bytes::lemma_le_value_bound(data@.subrange(4, 8));
        }
        let node_size = read_le(data, 2, 2) as u16;
        let num_items = read_le(data, 4, 4) as u32;
        if num_items as usize > usize::MAX / 64 {
            return Err(general_error("Buffer too large for this platform."));
        }
        let metadata = Self::from_params(num_items, node_size);
        proof {
            metadata.lemma_sizes();
        }
        let total_byte_length = 8 + metadata.nodes_byte_length + metadata.indices_byte_length;
        if data.len() != total_byte_length {
            return Err(
                GeoIndexError::General(
                    format_two_numbers(
                        "Incorrect buffer length. Expected ",
                        total_byte_length as u64,
                        " got ",
                        data.len() as u64,
                        ".",
                    ),
                ),
            );
        }
        Ok(metadata)
    }

    /// The maximum number of items per node.
    pub fn node_size(&self) -> (r: usize)
        ensures
            r == self.spec_node_size(),
    {
        self.node_size
    }

    /// The number of items indexed in the tree.
    pub fn num_items(&self) -> (r: usize)
        ensures
            r == self.spec_num_items(),
    {
        self.num_items
    }

    /// The total number of nodes at all levels in the tree.
    pub fn num_nodes(&self) -> (r: usize)
        ensures
            r == self.spec_num_nodes(),
    {
        self.num_nodes
    }

    /// The offsets into the boxes where each level's boxes starts and ends. The tree is laid out
    /// bottom-up, and there's an implicit initial 0. So the boxes of the lowest level of the tree
    /// are located from `boxes[0..self.level_bounds()[0]]`.
    pub fn level_bounds(&self) -> (r: &[usize])
        ensures
            r@.map_values(|b: usize| b as nat) == self.spec_level_bounds(),
    {
        self.level_bounds.as_slice()
    }

    /// The number of bytes that an RTree with this metadata would have.
    pub fn data_buffer_length(&self) -> (r: usize)
        requires
            self.wf(),
        ensures
            r == self.spec_data_buffer_length(),
    {
        proof {
            self.lemma_sizes();
        }
        8 + self.nodes_byte_length + self.indices_byte_length
    }
}


/// The node size written in a header.
pub open spec fn header_node_size(data: Seq<u8>) -> nat {
    le_value(data.subrange(2, 4))
}

/// The number of items written in a header.
pub open spec fn header_num_items(data: Seq<u8>) -> nat {
    le_value(data.subrange(4, 8))
}

/// The buffer length that a header implies for coordinates of `w` bytes.
pub open spec fn rtree_buffer_length(num_items: nat, node_size: nat, w: nat) -> nat {
    let nodes = num_nodes_spec(num_items, node_size);
    8 + nodes * 4 * w + nodes * index_width(nodes)
}

/// Whether an RTree header passes every check for coordinates of type `N` and fits the buffer
/// length.
pub open spec fn rtree_header_valid<N: IndexableNum>(data: Seq<u8>) -> bool {
    let n = header_num_items(data);
    let ns = header_node_size(data);
    &&& data[0] == RTREE_MAGIC
    &&& data[1] / 16 == RTREE_VERSION
    &&& data[1] % 16 == N::spec_type_index()
    &&& valid_rtree_params(n, ns)
    &&& data.len() == rtree_buffer_length(n, ns, N::spec_bytes_per_element() as nat)
}

/// The message of the first failed check of an RTree header, in order: magic byte, version,
/// coordinate type, platform size, buffer length.
pub open spec fn rtree_header_error<N: IndexableNum>(data: Seq<u8>) -> Seq<char> {
    let version = data[1] / 16;
    let type_ = data[1] % 16;
    let n = header_num_items(data);
    let ns = header_node_size(data);
    if data[0] != RTREE_MAGIC {
        "Data not in Flatbush format."@
    } else if version != RTREE_VERSION {
        two_number_message(
            "Got v"@,
            version as nat,
            " data when expected v"@,
            RTREE_VERSION as nat,
            "."@,
        )
    } else if type_ != N::spec_type_index() {
        two_number_message(
            "Got type "@,
            type_ as nat,
            " data when expected type "@,
            N::spec_type_index() as nat,
            "."@,
        )
    } else if 64 * n > usize::MAX {
        "Buffer too large for this platform."@
    } else {
        two_number_message(
            "Incorrect buffer length. Expected "@,
            rtree_buffer_length(n, ns, N::spec_bytes_per_element() as nat),
            " got "@,
            data.len(),
            "."@,
        )
    }
}

/// A header that passes the format checks (magic byte, version, coordinate type) describes a
/// tree whose levels can be counted: at least one item, and a node size of at least two when
/// there is more than one item (counting the levels of any other never ends).
pub open spec fn rtree_header_counts<N: IndexableNum>(data: Seq<u8>) -> bool {
    data[0] == RTREE_MAGIC && data[1] / 16 == RTREE_VERSION && data[1] % 16 == N::spec_type_index()
        ==> header_num_items(data) >= 1 && (header_num_items(data) == 1 || header_node_size(data)
        >= 2)
}

/// What reading the metadata of an RTree buffer gives: the message of the first failed check,
/// else the metadata of the header's number of items and node size.
pub open spec fn rtree_header_outcome<N: IndexableNum>(
    data: Seq<u8>,
    r: Result<RTreeMetadata<N>, GeoIndexError>,
) -> bool {
    if !rtree_header_valid::<N>(data) {
        r is Err && error_message(r) == rtree_header_error::<N>(data)
    } else {
        r matches Ok(m) && m.wf() && m.spec_num_items() == header_num_items(data)
            && m.spec_node_size() == header_node_size(data)
    }
}

/// The boxes and indices of a tree fit its metadata: one box of four coordinates of type `N`
/// and one index per node, indices stored as `u16` exactly when the tree has fewer than 16384
/// nodes.
pub open spec fn rtree_layout<N: IndexableNum>(
    metadata: RTreeMetadata<N>,
    boxes: Seq<int>,
    indices: Seq<nat>,
    indices_u16: bool,
) -> bool {
    let nodes = metadata.spec_num_nodes();
    &&& metadata.wf()
    &&& boxes.len() == 4 * nodes
    &&& indices.len() == nodes
    &&& indices_u16 == (nodes < 16384)
    &&& forall|i: int|
        0 <= i < boxes.len() ==> N::spec_min() <= #[trigger] boxes[i] <= N::spec_max()
    &&& forall|i: int|
        0 <= i < indices.len() ==> #[trigger] indices[i] < pow256(index_width(nodes))
}

/// The bytes of a tree in the flatbush layout: the header, the boxes (coordinates of `N`, little
/// endian) and the indices (little endian, `u16` below 16384 nodes, else `u32`).
pub open spec fn rtree_bytes<N: IndexableNum>(
    metadata: RTreeMetadata<N>,
    boxes: Seq<int>,
    indices: Seq<nat>,
) -> Seq<u8> {
    header_bytes(
        RTREE_MAGIC,
        RTREE_VERSION,
        N::spec_type_index(),
        metadata.spec_node_size(),
        metadata.spec_num_items(),
    ) + encode_seq(boxes, N::spec_bytes_per_element() as nat) + encode_seq(
        indices.map_values(|x: nat| x as int),
        index_width(metadata.spec_num_nodes()),
    )
}

/// The coordinate `i` of the boxes of a flatbush buffer.
pub open spec fn decoded_box<N: IndexableNum>(data: Seq<u8>, i: int) -> int {
    decode_value(
        data,
        8 + i * N::spec_bytes_per_element(),
        N::spec_bytes_per_element() as nat,
        N::spec_signed(),
    )
}

/// The index `i` of a flatbush buffer with `nodes` nodes.
pub open spec fn decoded_index<N: IndexableNum>(data: Seq<u8>, nodes: nat, i: int) -> int {
    decode_value(
        data,
        8 + nodes * 4 * N::spec_bytes_per_element() + i * index_width(nodes),
        index_width(nodes),
        false,
    )
}

/// An owned RTree.
///
/// Usually this will be created from scratch via [`RTreeBuilder`][crate::rtree::RTreeBuilder].
pub struct OwnedRTree<N: IndexableNum> {
    pub(crate) boxes: Vec<i64>,
    pub(crate) indices: Indices,
    pub(crate) metadata: RTreeMetadata<N>,
}

/// An RTree read from an external buffer in the flatbush layout.
pub struct RTreeRef<N: IndexableNum> {
    pub(crate) boxes: Vec<i64>,
    pub(crate) indices: Indices,
    pub(crate) metadata: RTreeMetadata<N>,
}

/// A tree whose boxes, indices and metadata can be read: both [`OwnedRTree`] and [`RTreeRef`].
pub trait RTreeIndex<N: IndexableNum> {
    /// The coordinates of all boxes, four per node.
    spec fn tree_boxes(&self) -> Seq<int>;

    /// The index of each node.
    spec fn tree_indices(&self) -> Seq<nat>;

    /// Whether the indices are stored as `u16`.
    spec fn tree_indices_u16(&self) -> bool;

    /// The metadata.
    spec fn tree_metadata(&self) -> RTreeMetadata<N>;

    /// The coordinates of all boxes (`min_x, min_y, max_x, max_y` of each node, leaves first),
    /// widened to `i64`.
    fn boxes(&self) -> (r: &Vec<i64>)
        ensures
            ints(r@) == self.tree_boxes(),
    ;

    /// The index of each node: the insertion index of a leaf, the position of the first child
    /// of any other node.
    fn indices(&self) -> (r: &Indices)
        ensures
            r@ == self.tree_indices(),
            r.is_u16() == self.tree_indices_u16(),
    ;

    /// The metadata describing the tree.
    fn metadata(&self) -> (r: &RTreeMetadata<N>)
        ensures
            *r == self.tree_metadata(),
    ;
}

/// The tree fits its metadata.
pub open spec fn index_wf<N: IndexableNum, T: RTreeIndex<N>>(t: &T) -> bool {
    rtree_layout(t.tree_metadata(), t.tree_boxes(), t.tree_indices(), t.tree_indices_u16())
}

impl<N: IndexableNum> OwnedRTree<N> {
    /// The coordinates of all boxes, four per node (`min_x, min_y, max_x, max_y`).
    pub closed spec fn spec_boxes(&self) -> Seq<int> {
        self.boxes@.map_values(|x: i64| x as int)
    }

    /// The index of each node.
    pub closed spec fn spec_indices(&self) -> Seq<nat> {
        self.indices@
    }

    /// The metadata.
    pub closed spec fn spec_metadata(&self) -> RTreeMetadata<N> {
        self.metadata
    }

    /// Whether the indices are stored as `u16`.
    pub closed spec fn spec_indices_u16(&self) -> bool {
        self.indices.is_u16()
    }

    /// The tree fits its metadata.
    pub open spec fn wf(&self) -> bool {
        rtree_layout(self.spec_metadata(), self.spec_boxes(), self.spec_indices(), self.spec_indices_u16())
    }

    /// The bytes of this tree in the flatbush layout.
    pub open spec fn spec_bytes(&self) -> Seq<u8> {
        rtree_bytes(self.spec_metadata(), self.spec_boxes(), self.spec_indices())
    }

    /// The tree of the given boxes, indices and metadata.
    pub(crate) fn from_parts(boxes: Vec<i64>, indices: Indices, metadata: RTreeMetadata<N>) -> (r:
        Self)
        requires
            rtree_layout(metadata, boxes@.map_values(|x: i64| x as int), indices@, indices.is_u16()),
        ensures
            r.wf(),
            r.spec_boxes() == boxes@.map_values(|x: i64| x as int),
            r.spec_indices() == indices@,
            r.spec_metadata() == metadata,
    {
        OwnedRTree { boxes, indices, metadata }
    }

    /// Access the underlying buffer of this RTree.
    ///
    /// This buffer can then be persisted and passed to `RTreeRef::try_new`.
    pub fn into_inner(self) -> (r: Vec<u8>)
        requires
            self.wf(),
        ensures
            r@ == self.spec_bytes(),
    {
        serialize(&self.metadata, &self.boxes, &self.indices)
    }

    /// Access the metadata describing this RTree.
    pub fn metadata(&self) -> (r: &RTreeMetadata<N>)
        ensures
            *r == self.spec_metadata(),
    {
        &self.metadata
    }

    /// The total number of items contained in this RTree.
    pub fn num_items(&self) -> (r: u32)
        requires
            self.wf(),
        ensures
            r == self.spec_metadata().spec_num_items(),
    {
        self.metadata.num_items() as u32
    }

    /// The total number of nodes in this RTree, including both leaf and intermediate nodes.
    pub fn num_nodes(&self) -> (r: usize)
        ensures
            r == self.spec_metadata().spec_num_nodes(),
    {
        self.metadata.num_nodes()
    }

    /// The maximum number of elements in each node.
    pub fn node_size(&self) -> (r: u16)
        requires
            self.wf(),
        ensures
            r == self.spec_metadata().spec_node_size(),
    {
        self.metadata.node_size() as u16
    }

    /// The offsets into the boxes where each level's boxes starts and ends. The tree is laid out
    /// bottom-up, and there's an implicit initial 0. So the boxes of the lowest level of the tree
    /// are located from `boxes[0..self.level_bounds()[0]]`.
    pub fn level_bounds(&self) -> (r: &[usize])
        ensures
            r@.map_values(|b: usize| b as nat) == self.spec_metadata().spec_level_bounds(),
    {
        self.metadata.level_bounds()
    }

    /// The number of levels (height) of the tree.
    pub fn num_levels(&self) -> (r: usize)
        ensures
            r == self.spec_metadata().spec_level_bounds().len(),
    {
        self.metadata.level_bounds().len()
    }

    /// The tree is laid out from bottom to top. Level 0 is the _base_ of the tree. Each integer
    /// higher is one level higher of the tree.
    ///
    /// Returns the coordinates of the boxes of the level, four per node.
    pub fn boxes_at_level(&self, level: usize) -> (r: Result<Vec<N>, GeoIndexError>)
        requires
            self.wf(),
        ensures
            level >= self.spec_metadata().spec_level_bounds().len() ==> r is Err && error_message(
                r,
            ) == "Level out of bounds"@,
            level < self.spec_metadata().spec_level_bounds().len() ==> (r matches Ok(v) && {
                let (lo, hi) = level_box_range(
                    self.spec_metadata().spec_level_bounds(),
                    level as int,
                );
                &&& v@.len() == hi - lo
                &&& forall|i: int|
                    0 <= i < v@.len() ==> #[trigger] v@[i].value() == self.spec_boxes()[lo + i]
            }),
    {
        boxes_at_level_of(&self.boxes, &self.metadata, level)
    }

    /// Search the RTree given the provided bounding box.
    ///
    /// Results are the insertion indices of the items whose boxes intersect the query box, in
    /// the order of the leaves of the tree.
    pub fn search(&self, min_x: N, min_y: N, max_x: N, max_y: N) -> (r: Vec<u32>)
        requires
            self.wf(),
        ensures
            forall|i: int|
                0 <= i < r@.len() ==> is_leaf_hit(
                    self.spec_boxes(),
                    self.spec_indices(),
                    self.spec_metadata().spec_num_items(),
                    query_box(min_x, min_y, max_x, max_y),
                    #[trigger] r@[i] as nat,
                ),
            tree_shape(
                self.spec_boxes(),
                self.spec_indices(),
                self.spec_metadata().spec_num_items(),
                self.spec_metadata().spec_node_size(),
            ) ==> nats_u32(r@) == search_results(
                self.spec_boxes(),
                self.spec_indices(),
                self.spec_metadata().spec_num_items(),
                self.spec_metadata().spec_node_size(),
                query_box(min_x, min_y, max_x, max_y),
            ),
    {
        search_tree(
            &self.boxes,
            &self.indices,
            &self.metadata,
            (min_x.to_i64(), min_y.to_i64(), max_x.to_i64(), max_y.to_i64()),
        )
    }

    /// Search items in order of distance from the given point.
    ///
    /// The distance is the Euclidean distance from the point to an item's box, compared exactly
    /// through its square: an item is kept when its squared distance is at most the square of
    /// `max_distance` (none when that is negative), and `max_results` bounds the number of
    /// results unless it is 0.
    pub fn neighbors(&self, x: N, y: N, max_results: Option<usize>, max_distance: Option<N>) -> (r:
        Vec<u32>)
        requires
            self.wf(),
        ensures
            exists|ks: Seq<int>|
                #[trigger] near_leaves(
                    self.spec_boxes(),
                    self.spec_indices(),
                    self.spec_metadata().spec_num_items(),
                    x.value(),
                    y.value(),
                    distance_limit(max_distance),
                    r@,
                    ks,
                ) && (tree_shape(
                    self.spec_boxes(),
                    self.spec_indices(),
                    self.spec_metadata().spec_num_items(),
                    self.spec_metadata().spec_node_size(),
                ) && boxes_ordered(self.spec_boxes()) ==> by_distance(
                    self.spec_boxes(),
                    x.value(),
                    y.value(),
                    ks,
                )) && (tree_shape(
                    self.spec_boxes(),
                    self.spec_indices(),
                    self.spec_metadata().spec_num_items(),
                    self.spec_metadata().spec_node_size(),
                ) && boxes_ordered(self.spec_boxes()) && !(self.spec_metadata().spec_num_items() == 1
                    && self.spec_metadata().spec_node_size() == 0) ==> nearest_complete(
                    self.spec_boxes(),
                    self.spec_metadata().spec_num_items(),
                    x.value(),
                    y.value(),
                    distance_limit(max_distance),
                    max_results,
                    r@,
                    ks,
                )) && (tree_shape(
                    self.spec_boxes(),
                    self.spec_indices(),
                    self.spec_metadata().spec_num_items(),
                    self.spec_metadata().spec_node_size(),
                ) && !(self.spec_metadata().spec_num_items() == 1 && self.spec_metadata().spec_node_size()
                    == 0) ==> ks.no_duplicates()),
            within_max(max_results, r@.len()),
    {
        nearest_squared(&self.boxes, &self.indices, &self.metadata, x, y, max_results, max_distance)
    }

    /// Search items in order of distance from the given point, by a distance metric of the
    /// caller's.
    ///
    /// Items whose distance exceeds `max_distance` (else the metric's `max_distance`) are left
    /// out. For a metric that is admissible (`metric_admissible`: it says what it computes, and
    /// a box is never farther than a box inside it), in a tree that the builder made, the
    /// results come nearest first, each once, and every item within the distance comes unless
    /// the search stopped at `max_results` results, all of them no farther.
    pub fn neighbors_with_simple_distance<M: SimpleDistanceMetric<N>>(
        &self,
        x: N,
        y: N,
        max_results: Option<usize>,
        max_distance: Option<N>,
        distance_metric: &M,
    ) -> (r: Vec<u32>)
        requires
            self.wf(),
        ensures
            exists|lim: N, ks: Seq<int>|
                #[trigger] nearest_found(
                    (MetricDistance { metric: distance_metric, x, y }),
                    self.spec_boxes(),
                    self.spec_indices(),
                    self.spec_metadata().spec_num_items(),
                    self.spec_metadata().spec_node_size(),
                    lim.value(),
                    max_results,
                    r@,
                    ks,
                ) && match max_distance {
                    Some(m) => lim == m,
                    None => call_ensures(M::max_distance, (distance_metric,), lim),
                },
            within_max(max_results, r@.len()),
    {
        nearest_by_metric(
            &self.boxes,
            &self.indices,
            &self.metadata,
            x,
            y,
            max_results,
            max_distance,
            distance_metric,
        )
    }

    /// Search items in order of distance by a measure of the caller's, which tells the distance
    /// to the box of each node above the leaves and to each item.
    ///
    /// For a measure that is admissible (`item_measure_admissible`: it says what it computes,
    /// and a node is never farther than a node or item whose box lies inside its box), in a tree
    /// that the builder made, the results come nearest first, each once, within `max_distance`
    /// (else the measure's `max_distance`), and every item within it comes unless the search
    /// stopped at `max_results` results, all of them no farther.
    pub fn neighbors_with_item_distance<M: ItemDistanceMetric<N>>(
        &self,
        max_results: Option<usize>,
        max_distance: Option<N>,
        distance_metric: &M,
    ) -> (r: Vec<u32>)
        requires
            self.wf(),
        ensures
            exists|lim: N, ks: Seq<int>|
                #[trigger] nearest_found(
                    (ItemDistance {
                        metric: distance_metric,
                        n: Ghost(self.spec_metadata().spec_num_items()),
                        indices: Ghost(self.spec_indices()),
                        phantom: PhantomData,
                    }),
                    self.spec_boxes(),
                    self.spec_indices(),
                    self.spec_metadata().spec_num_items(),
                    self.spec_metadata().spec_node_size(),
                    lim.value(),
                    max_results,
                    r@,
                    ks,
                ) && match max_distance {
                    Some(m) => lim == m,
                    None => call_ensures(M::max_distance, (distance_metric,), lim),
                },
            within_max(max_results, r@.len()),
    {
        nearest_by_items(&self.boxes, &self.indices, &self.metadata, max_results, max_distance, distance_metric)
    }

    /// Access the root node of the RTree for manual traversal.
    pub fn root(&self) -> (r: Node<'_, N, Self>)
        requires
            self.wf(),
        ensures
            r.wf(),
            r.spec_tree() == self,
            r.spec_node() == self.spec_metadata().spec_num_nodes() - 1,
    {
        Node::from_root(self)
    }

    /// The pairs of items of this tree and another whose boxes intersect.
    ///
    /// Each pair holds the insertion index of an item of this tree and that of an item of the
    /// other tree; in trees that the builder made, every intersecting pair comes once.
    pub fn intersection_candidates_with_other_tree<T: RTreeIndex<N>>(&self, other: &T) -> (r: Vec<
        (u32, u32),
    >)
        requires
            self.wf(),
            index_wf(other),
        ensures
            forall|k: int|
                0 <= k < r@.len() ==> leaf_pair(
                    self.spec_boxes(),
                    self.spec_indices(),
                    self.spec_metadata().spec_num_items(),
                    other.tree_boxes(),
                    other.tree_indices(),
                    other.tree_metadata().spec_num_items(),
                    #[trigger] r@[k],
                ),
            tree_shape(
                self.spec_boxes(),
                self.spec_indices(),
                self.spec_metadata().spec_num_items(),
                self.spec_metadata().spec_node_size(),
            ) && join_ready(
                self.spec_indices(),
                self.spec_metadata().spec_num_items(),
                self.spec_metadata().spec_node_size(),
            ) && tree_shape(
                other.tree_boxes(),
                other.tree_indices(),
                other.tree_metadata().spec_num_items(),
                other.tree_metadata().spec_node_size(),
            ) && join_ready(
                other.tree_indices(),
                other.tree_metadata().spec_num_items(),
                other.tree_metadata().spec_node_size(),
            ) ==> all_pairs_found(
                self.spec_boxes(),
                self.spec_indices(),
                self.spec_metadata().spec_num_items(),
                other.tree_boxes(),
                other.tree_indices(),
                other.tree_metadata().spec_num_items(),
                r@,
            ) && distinct_leaf_pairs(
                self.spec_indices(),
                self.spec_metadata().spec_num_items(),
                other.tree_indices(),
                other.tree_metadata().spec_num_items(),
                r@,
            ),
    {
        let s1 = Side { boxes: &self.boxes, indices: &self.indices, metadata: &self.metadata };
        let s2 = Side { boxes: other.boxes(), indices: other.indices(), metadata: other.metadata() };
        join(&s1, &s2)
    }
}

/// The flatbush bytes of a tree.
fn serialize<N: IndexableNum>(metadata: &RTreeMetadata<N>, boxes: &Vec<i64>, indices: &Indices) -> (r:
    Vec<u8>)
    requires
        rtree_layout(*metadata, boxes@.map_values(|x: i64| x as int), indices@, indices.is_u16()),
    ensures
        r@ == rtree_bytes(*metadata, boxes@.map_values(|x: i64| x as int), indices@),
{
    proof {
        N::lemma_layout();
    }
    let mut out: Vec<u8> = Vec::new();
    push_header(
        &mut out,
        RTREE_MAGIC,
        RTREE_VERSION,
        N::type_index(),
        metadata.node_size as u16,
        metadata.num_items as u32,
    );
    proof {
        assert forall|i: int| 0 <= i < boxes@.len() implies repr_min(
            N::spec_bytes_per_element() as nat,
            N::spec_signed(),
        ) <= #[trigger] boxes@[i] <= repr_max(N::spec_bytes_per_element() as nat, N::spec_signed()) by {
            assert(boxes@.map_values(|x: i64| x as int)[i] == boxes@[i]);
        }
    }
    push_values(&mut out, boxes, N::bytes_per_element(), N::signed());
    indices.push_bytes(&mut out);
    proof {
        assert(out@ =~= rtree_bytes(*metadata, boxes@.map_values(|x: i64| x as int), indices@));
    }
    out
}

impl<N: IndexableNum> RTreeRef<N> {
    /// The coordinates of all boxes, four per node (`min_x, min_y, max_x, max_y`).
    pub closed spec fn spec_boxes(&self) -> Seq<int> {
        self.boxes@.map_values(|x: i64| x as int)
    }

    /// The index of each node.
    pub closed spec fn spec_indices(&self) -> Seq<nat> {
        self.indices@
    }

    /// The metadata.
    pub closed spec fn spec_metadata(&self) -> RTreeMetadata<N> {
        self.metadata
    }

    /// Whether the indices are stored as `u16`.
    pub closed spec fn spec_indices_u16(&self) -> bool {
        self.indices.is_u16()
    }

    /// The tree fits its metadata.
    pub open spec fn wf(&self) -> bool {
        rtree_layout(self.spec_metadata(), self.spec_boxes(), self.spec_indices(), self.spec_indices_u16())
    }

    /// Construct a new RTree from an external byte slice.
    ///
    /// This byte slice must conform to the "flatbush ABI", that is, the ABI of
    /// the JavaScript [`flatbush` library](https://github.com/mourner/flatbush). You can
    /// extract such a buffer either via [`OwnedRTree::into_inner`] or from the `.data` attribute
    /// of the JavaScript `Flatbush` object. A header in the format must describe at least one
    /// item, and a node size of at least two for more than one item (`rtree_header_counts`):
    /// the levels of any other tree cannot be counted.
    pub fn try_new(data: &[u8]) -> (r: Result<Self, GeoIndexError>)
        requires
            data@.len() >= 8,
            rtree_header_counts::<N>(data@),
        ensures
            !rtree_header_valid::<N>(data@) ==> r is Err && error_message(r) == rtree_header_error::<
                N,
            >(data@),
            rtree_header_valid::<N>(data@) ==> r is Ok,
            r matches Ok(t) ==> {
                &&& t.wf()
                &&& t.spec_metadata().spec_num_items() == header_num_items(data@)
                &&& t.spec_metadata().spec_node_size() == header_node_size(data@)
                &&& forall|i: int|
                    0 <= i < t.spec_boxes().len() ==> #[trigger] t.spec_boxes()[i]
                        == decoded_box::<N>(data@, i)
                &&& forall|i: int|
                    0 <= i < t.spec_indices().len() ==> #[trigger] t.spec_indices()[i]
                        == decoded_index::<N>(data@, t.spec_metadata().spec_num_nodes(), i)
            },
    {
        let metadata = RTreeMetadata::<N>::try_new_from_slice(data);
        match metadata {
            Err(e) => Err(e),
            Ok(metadata) => {
                proof {
                    metadata.lemma_sizes();
                    N::lemma_layout();
                    lemma_pow256_facts();
                }
                let w = N::bytes_per_element();
                let num_nodes = metadata.num_nodes;
                let boxes = read_values(data, 8, num_nodes * 4, w, N::signed());
                let small = num_nodes < 16384;
                let iw: usize = if small {
                    2
                } else {
                    4
                };
                let raw = read_values(data, 8 + metadata.nodes_byte_length, num_nodes, iw, false);
                proof {
                    assert forall|i: int| 0 <= i < raw@.len() implies 0 <= #[trigger] raw@[i] && (
                    if small {
                        raw@[i] <= 65535
                    } else {
                        raw@[i] <= 4294967295
                    }) by {}
                }
                let indices = Indices::from_values(raw, small);
                let t = RTreeRef { boxes, indices, metadata };
                proof {
                    assert forall|i: int| 0 <= i < t.spec_boxes().len() implies #[trigger] t.spec_boxes()[i]
                        == decoded_box::<N>(data@, i) by {
                        assert(t.spec_boxes()[i] == boxes@[i]);
                    }
                    assert forall|i: int| 0 <= i < t.spec_boxes().len() implies N::spec_min()
                        <= #[trigger] t.spec_boxes()[i] <= N::spec_max() by {
                        assert(t.spec_boxes()[i] == boxes@[i]);
                    }
                    assert forall|i: int| 0 <= i < t.spec_indices().len() implies #[trigger] t.spec_indices()[i]
                        < pow256(index_width(num_nodes as nat)) by {
                        assert(t.spec_indices()[i] == raw@[i]);
                    }
                }
                Ok(t)
            },
        }
    }

    /// Access the metadata describing this RTree.
    pub fn metadata(&self) -> (r: &RTreeMetadata<N>)
        ensures
            *r == self.spec_metadata(),
    {
        &self.metadata
    }

    /// The total number of items contained in this RTree.
    pub fn num_items(&self) -> (r: u32)
        requires
            self.wf(),
        ensures
            r == self.spec_metadata().spec_num_items(),
    {
        self.metadata.num_items() as u32
    }

    /// The total number of nodes in this RTree, including both leaf and intermediate nodes.
    pub fn num_nodes(&self) -> (r: usize)
        ensures
            r == self.spec_metadata().spec_num_nodes(),
    {
        self.metadata.num_nodes()
    }

    /// The maximum number of elements in each node.
    pub fn node_size(&self) -> (r: u16)
        requires
            self.wf(),
        ensures
            r == self.spec_metadata().spec_node_size(),
    {
        self.metadata.node_size() as u16
    }

    /// The offsets into the boxes where each level's boxes starts and ends. The tree is laid out
    /// bottom-up, and there's an implicit initial 0. So the boxes of the lowest level of the tree
    /// are located from `boxes[0..self.level_bounds()[0]]`.
    pub fn level_bounds(&self) -> (r: &[usize])
        ensures
            r@.map_values(|b: usize| b as nat) == self.spec_metadata().spec_level_bounds(),
    {
        self.metadata.level_bounds()
    }

    /// The number of levels (height) of the tree.
    pub fn num_levels(&self) -> (r: usize)
        ensures
            r == self.spec_metadata().spec_level_bounds().len(),
    {
        self.metadata.level_bounds().len()
    }

    /// The tree is laid out from bottom to top. Level 0 is the _base_ of the tree. Each integer
    /// higher is one level higher of the tree.
    ///
    /// Returns the coordinates of the boxes of the level, four per node.
    pub fn boxes_at_level(&self, level: usize) -> (r: Result<Vec<N>, GeoIndexError>)
        requires
            self.wf(),
        ensures
            level >= self.spec_metadata().spec_level_bounds().len() ==> r is Err && error_message(
                r,
            ) == "Level out of bounds"@,
            level < self.spec_metadata().spec_level_bounds().len() ==> (r matches Ok(v) && {
                let (lo, hi) = level_box_range(
                    self.spec_metadata().spec_level_bounds(),
                    level as int,
                );
                &&& v@.len() == hi - lo
                &&& forall|i: int|
                    0 <= i < v@.len() ==> #[trigger] v@[i].value() == self.spec_boxes()[lo + i]
            }),
    {
        boxes_at_level_of(&self.boxes, &self.metadata, level)
    }

    /// Search the RTree given the provided bounding box.
    ///
    /// Results are the insertion indices of the items whose boxes intersect the query box, in
    /// the order of the leaves of the tree.
    pub fn search(&self, min_x: N, min_y: N, max_x: N, max_y: N) -> (r: Vec<u32>)
        requires
            self.wf(),
        ensures
            forall|i: int|
                0 <= i < r@.len() ==> is_leaf_hit(
                    self.spec_boxes(),
                    self.spec_indices(),
                    self.spec_metadata().spec_num_items(),
                    query_box(min_x, min_y, max_x, max_y),
                    #[trigger] r@[i] as nat,
                ),
            tree_shape(
                self.spec_boxes(),
                self.spec_indices(),
                self.spec_metadata().spec_num_items(),
                self.spec_metadata().spec_node_size(),
            ) ==> nats_u32(r@) == search_results(
                self.spec_boxes(),
                self.spec_indices(),
                self.spec_metadata().spec_num_items(),
                self.spec_metadata().spec_node_size(),
                query_box(min_x, min_y, max_x, max_y),
            ),
    {
        search_tree(
            &self.boxes,
            &self.indices,
            &self.metadata,
            (min_x.to_i64(), min_y.to_i64(), max_x.to_i64(), max_y.to_i64()),
        )
    }

    /// Search items in order of distance from the given point.
    ///
    /// The distance is the Euclidean distance from the point to an item's box, compared exactly
    /// through its square: an item is kept when its squared distance is at most the square of
    /// `max_distance` (none when that is negative), and `max_results` bounds the number of
    /// results unless it is 0.
    pub fn neighbors(&self, x: N, y: N, max_results: Option<usize>, max_distance: Option<N>) -> (r:
        Vec<u32>)
        requires
            self.wf(),
        ensures
            exists|ks: Seq<int>|
                #[trigger] near_leaves(
                    self.spec_boxes(),
                    self.spec_indices(),
                    self.spec_metadata().spec_num_items(),
                    x.value(),
                    y.value(),
                    distance_limit(max_distance),
                    r@,
                    ks,
                ) && (tree_shape(
                    self.spec_boxes(),
                    self.spec_indices(),
                    self.spec_metadata().spec_num_items(),
                    self.spec_metadata().spec_node_size(),
                ) && boxes_ordered(self.spec_boxes()) ==> by_distance(
                    self.spec_boxes(),
                    x.value(),
                    y.value(),
                    ks,
                )) && (tree_shape(
                    self.spec_boxes(),
                    self.spec_indices(),
                    self.spec_metadata().spec_num_items(),
                    self.spec_metadata().spec_node_size(),
                ) && boxes_ordered(self.spec_boxes()) && !(self.spec_metadata().spec_num_items() == 1
                    && self.spec_metadata().spec_node_size() == 0) ==> nearest_complete(
                    self.spec_boxes(),
                    self.spec_metadata().spec_num_items(),
                    x.value(),
                    y.value(),
                    distance_limit(max_distance),
                    max_results,
                    r@,
                    ks,
                )) && (tree_shape(
                    self.spec_boxes(),
                    self.spec_indices(),
                    self.spec_metadata().spec_num_items(),
                    self.spec_metadata().spec_node_size(),
                ) && !(self.spec_metadata().spec_num_items() == 1 && self.spec_metadata().spec_node_size()
                    == 0) ==> ks.no_duplicates()),
            within_max(max_results, r@.len()),
    {
        nearest_squared(&self.boxes, &self.indices, &self.metadata, x, y, max_results, max_distance)
    }

    /// Search items in order of distance from the given point, by a distance metric of the
    /// caller's.
    ///
    /// Items whose distance exceeds `max_distance` (else the metric's `max_distance`) are left
    /// out. For a metric that is admissible (`metric_admissible`: it says what it computes, and
    /// a box is never farther than a box inside it), in a tree that the builder made, the
    /// results come nearest first, each once, and every item within the distance comes unless
    /// the search stopped at `max_results` results, all of them no farther.
    pub fn neighbors_with_simple_distance<M: SimpleDistanceMetric<N>>(
        &self,
        x: N,
        y: N,
        max_results: Option<usize>,
        max_distance: Option<N>,
        distance_metric: &M,
    ) -> (r: Vec<u32>)
        requires
            self.wf(),
        ensures
            exists|lim: N, ks: Seq<int>|
                #[trigger] nearest_found(
                    (MetricDistance { metric: distance_metric, x, y }),
                    self.spec_boxes(),
                    self.spec_indices(),
                    self.spec_metadata().spec_num_items(),
                    self.spec_metadata().spec_node_size(),
                    lim.value(),
                    max_results,
                    r@,
                    ks,
                ) && match max_distance {
                    Some(m) => lim == m,
                    None => call_ensures(M::max_distance, (distance_metric,), lim),
                },
            within_max(max_results, r@.len()),
    {
        nearest_by_metric(
            &self.boxes,
            &self.indices,
            &self.metadata,
            x,
            y,
            max_results,
            max_distance,
            distance_metric,
        )
    }

    /// Search items in order of distance by a measure of the caller's, which tells the distance
    /// to the box of each node above the leaves and to each item.
    ///
    /// For a measure that is admissible (`item_measure_admissible`: it says what it computes,
    /// and a node is never farther than a node or item whose box lies inside its box), in a tree
    /// that the builder made, the results come nearest first, each once, within `max_distance`
    /// (else the measure's `max_distance`), and every item within it comes unless the search
    /// stopped at `max_results` results, all of them no farther.
    pub fn neighbors_with_item_distance<M: ItemDistanceMetric<N>>(
        &self,
        max_results: Option<usize>,
        max_distance: Option<N>,
        distance_metric: &M,
    ) -> (r: Vec<u32>)
        requires
            self.wf(),
        ensures
            exists|lim: N, ks: Seq<int>|
                #[trigger] nearest_found(
                    (ItemDistance {
                        metric: distance_metric,
                        n: Ghost(self.spec_metadata().spec_num_items()),
                        indices: Ghost(self.spec_indices()),
                        phantom: PhantomData,
                    }),
                    self.spec_boxes(),
                    self.spec_indices(),
                    self.spec_metadata().spec_num_items(),
                    self.spec_metadata().spec_node_size(),
                    lim.value(),
                    max_results,
                    r@,
                    ks,
                ) && match max_distance {
                    Some(m) => lim == m,
                    None => call_ensures(M::max_distance, (distance_metric,), lim),
                },
            within_max(max_results, r@.len()),
    {
        nearest_by_items(&self.boxes, &self.indices, &self.metadata, max_results, max_distance, distance_metric)
    }

    /// Access the root node of the RTree for manual traversal.
    pub fn root(&self) -> (r: Node<'_, N, Self>)
        requires
            self.wf(),
        ensures
            r.wf(),
            r.spec_tree() == self,
            r.spec_node() == self.spec_metadata().spec_num_nodes() - 1,
    {
        Node::from_root(self)
    }

    /// The pairs of items of this tree and another whose boxes intersect.
    ///
    /// Each pair holds the insertion index of an item of this tree and that of an item of the
    /// other tree; in trees that the builder made, every intersecting pair comes once.
    pub fn intersection_candidates_with_other_tree<T: RTreeIndex<N>>(&self, other: &T) -> (r: Vec<
        (u32, u32),
    >)
        requires
            self.wf(),
            index_wf(other),
        ensures
            forall|k: int|
                0 <= k < r@.len() ==> leaf_pair(
                    self.spec_boxes(),
                    self.spec_indices(),
                    self.spec_metadata().spec_num_items(),
                    other.tree_boxes(),
                    other.tree_indices(),
                    other.tree_metadata().spec_num_items(),
                    #[trigger] r@[k],
                ),
            tree_shape(
                self.spec_boxes(),
                self.spec_indices(),
                self.spec_metadata().spec_num_items(),
                self.spec_metadata().spec_node_size(),
            ) && join_ready(
                self.spec_indices(),
                self.spec_metadata().spec_num_items(),
                self.spec_metadata().spec_node_size(),
            ) && tree_shape(
                other.tree_boxes(),
                other.tree_indices(),
                other.tree_metadata().spec_num_items(),
                other.tree_metadata().spec_node_size(),
            ) && join_ready(
                other.tree_indices(),
                other.tree_metadata().spec_num_items(),
                other.tree_metadata().spec_node_size(),
            ) ==> all_pairs_found(
                self.spec_boxes(),
                self.spec_indices(),
                self.spec_metadata().spec_num_items(),
                other.tree_boxes(),
                other.tree_indices(),
                other.tree_metadata().spec_num_items(),
                r@,
            ) && distinct_leaf_pairs(
                self.spec_indices(),
                self.spec_metadata().spec_num_items(),
                other.tree_indices(),
                other.tree_metadata().spec_num_items(),
                r@,
            ),
    {
        let s1 = Side { boxes: &self.boxes, indices: &self.indices, metadata: &self.metadata };
        let s2 = Side { boxes: other.boxes(), indices: other.indices(), metadata: other.metadata() };
        join(&s1, &s2)
    }
}

impl<N: IndexableNum> RTreeIndex<N> for OwnedRTree<N> {
    open spec fn tree_boxes(&self) -> Seq<int> {
        self.spec_boxes()
    }

    open spec fn tree_indices(&self) -> Seq<nat> {
        self.spec_indices()
    }

    open spec fn tree_indices_u16(&self) -> bool {
        self.spec_indices_u16()
    }

    open spec fn tree_metadata(&self) -> RTreeMetadata<N> {
        self.spec_metadata()
    }

    fn boxes(&self) -> (r: &Vec<i64>) {
        &self.boxes
    }

    fn indices(&self) -> (r: &Indices) {
        &self.indices
    }

    fn metadata(&self) -> (r: &RTreeMetadata<N>) {
        &self.metadata
    }
}

impl<N: IndexableNum> RTreeIndex<N> for RTreeRef<N> {
    open spec fn tree_boxes(&self) -> Seq<int> {
        self.spec_boxes()
    }

    open spec fn tree_indices(&self) -> Seq<nat> {
        self.spec_indices()
    }

    open spec fn tree_indices_u16(&self) -> bool {
        self.spec_indices_u16()
    }

    open spec fn tree_metadata(&self) -> RTreeMetadata<N> {
        self.spec_metadata()
    }

    fn boxes(&self) -> (r: &Vec<i64>) {
        &self.boxes
    }

    fn indices(&self) -> (r: &Indices) {
        &self.indices
    }

    fn metadata(&self) -> (r: &RTreeMetadata<N>) {
        &self.metadata
    }
}

/// Reading back the bytes of a tree gives the same tree: the header passes every check and holds
/// the tree's number of items and node size, and every coordinate and index decodes to the stored
/// one.
pub proof fn lemma_rtree_bytes_roundtrip<N: IndexableNum>(
    metadata: RTreeMetadata<N>,
    boxes: Seq<int>,
    indices: Seq<nat>,
    indices_u16: bool,
)
    requires
        rtree_layout(metadata, boxes, indices, indices_u16),
    ensures
        rtree_bytes(metadata, boxes, indices).len() >= 8,
        rtree_header_valid::<N>(rtree_bytes(metadata, boxes, indices)),
        header_num_items(rtree_bytes(metadata, boxes, indices)) == metadata.spec_num_items(),
        header_node_size(rtree_bytes(metadata, boxes, indices)) == metadata.spec_node_size(),
        forall|i: int|
            0 <= i < boxes.len() ==> #[trigger] decoded_box::<N>(
                rtree_bytes(metadata, boxes, indices),
                i,
            ) == boxes[i],
        forall|i: int|
            0 <= i < indices.len() ==> #[trigger] decoded_index::<N>(
                rtree_bytes(metadata, boxes, indices),
                metadata.spec_num_nodes(),
                i,
            ) == indices[i],
{
    let d = rtree_bytes(metadata, boxes, indices);
    let w = N::spec_bytes_per_element() as nat;
    let nodes = metadata.spec_num_nodes();
    let iw = index_width(nodes);
    let ints = indices.map_values(|x: nat| x as int);
    let h = header_bytes(
        RTREE_MAGIC,
        RTREE_VERSION,
        N::spec_type_index(),
        metadata.spec_node_size(),
        metadata.spec_num_items(),
    );
    let eb = encode_seq(boxes, w);
    let ei = encode_seq(ints, iw);
    N::lemma_layout();
    metadata.lemma_sizes();
    lemma_pow256_facts();
    lemma_header_fields(
        RTREE_MAGIC,
        RTREE_VERSION,
        N::spec_type_index(),
        metadata.spec_node_size(),
        metadata.spec_num_items(),
    );
    lemma_encode_seq_len(boxes, w);
    lemma_encode_seq_len(ints, iw);
    assert(d.subrange(2, 4) =~= h.subrange(2, 4));
    assert(d.subrange(4, 8) =~= h.subrange(4, 8));
    assert(d.len() == rtree_buffer_length(
        metadata.spec_num_items(),
        metadata.spec_node_size(),
        w,
    )) by (nonlinear_arith)
        requires
            d.len() == 8 + boxes.len() * w + ints.len() * iw,
            boxes.len() == 4 * nodes,
            ints.len() == nodes,
            nodes == num_nodes_spec(metadata.spec_num_items(), metadata.spec_node_size()),
            iw == index_width(nodes),
    ;
    assert forall|i: int| 0 <= i < boxes.len() implies #[trigger] decoded_box::<N>(d, i)
        == boxes[i] by {
        lemma_encode_seq_decode(boxes, w, N::spec_signed(), i);
        assert(d.subrange(8 + i * w, 8 + i * w + w) =~= eb.subrange(i * w, i * w + w));
    }
    assert forall|i: int| 0 <= i < indices.len() implies #[trigger] decoded_index::<N>(d, nodes, i)
        == indices[i] by {
        lemma_encode_seq_decode(ints, iw, false, i);
        let off = 8 + nodes * 4 * w;
        assert(off == 8 + eb.len()) by (nonlinear_arith)
            requires
                eb.len() == boxes.len() * w,
                boxes.len() == 4 * nodes,
                off == 8 + nodes * 4 * w,
        ;
        assert(d.subrange(off + i * iw, off + i * iw + iw) =~= ei.subrange(i * iw, i * iw + iw));
    }
}

/// The first and one past the last position in the boxes of the nodes of level `level`.
pub open spec fn level_box_range(level_bounds: Seq<nat>, level: int) -> (int, int) {
    (
        if level == 0 {
            0
        } else {
            level_bounds[level - 1] as int
        },
        level_bounds[level] as int,
    )
}

/// The query box of four coordinates as integers.
pub open spec fn query_box<N: IndexableNum>(min_x: N, min_y: N, max_x: N, max_y: N) -> (
    int,
    int,
    int,
    int,
) {
    (min_x.value(), min_y.value(), max_x.value(), max_y.value())
}

/// The coordinates of the boxes of one level of a tree, bottom-up from level 0 (the leaves).
fn boxes_at_level_of<N: IndexableNum>(
    boxes: &Vec<i64>,
    metadata: &RTreeMetadata<N>,
    level: usize,
) -> (r: Result<Vec<N>, GeoIndexError>)
    requires
        metadata.wf(),
        boxes@.len() == 4 * metadata.spec_num_nodes(),
        forall|i: int| 0 <= i < boxes@.len() ==> N::spec_min() <= #[trigger] ints(boxes@)[i] <= N::spec_max(),
    ensures
        level >= metadata.spec_level_bounds().len() ==> r is Err && error_message(r)
            == "Level out of bounds"@,
        level < metadata.spec_level_bounds().len() ==> (r matches Ok(v) && {
            let (lo, hi) = level_box_range(metadata.spec_level_bounds(), level as int);
            &&& 0 <= lo <= hi <= boxes@.len()
            &&& v@.len() == hi - lo
            &&& forall|i: int|
                0 <= i < v@.len() ==> #[trigger] v@[i].value() == ints(boxes@)[lo + i]
        }),
{
    let lb = metadata.level_bounds();
    let ghost lbs = metadata.spec_level_bounds();
    proof {
        metadata.lemma_sizes();
        lemma_level_ends(metadata.spec_num_items(), metadata.spec_node_size());
        assert(lb@.len() == lbs.len());
        assert forall|k: int| 0 <= k < lb@.len() implies #[trigger] lb@[k] == lbs[k] by {
            assert(lb@.map_values(|b: usize| b as nat)[k] == lbs[k]);
        }
    }
    if level >= lb.len() {
        return Err(general_error("Level out of bounds"));
    }
    let start = if level == 0 {
        0
    } else {
        lb[level - 1]
    };
    let end = lb[level];
    proof {
        let e = level_ends(metadata.spec_num_items(), metadata.spec_node_size());
        assert(lbs[level as int] == 4 * e[level as int]);
        let top = e.len() - 1;
        if level < top {
            assert(e[level as int] < e[top]);
        }
        if level > 0 {
            assert(lbs[level - 1] == 4 * e[level - 1]);
            assert(e[level - 1] < e[level as int]);
        }
    }
    let mut v: Vec<N> = Vec::new();
    let mut p = start;
    while p < end
        invariant
            start <= p <= end,
            end <= boxes@.len(),
            v@.len() == p - start,
            forall|i: int| 0 <= i < boxes@.len() ==> N::spec_min() <= #[trigger] ints(boxes@)[i] <= N::spec_max(),
            forall|i: int| 0 <= i < v@.len() ==> #[trigger] v@[i].value() == ints(boxes@)[start + i],
        decreases end - p,
    {
        proof {
            assert(N::spec_min() <= ints(boxes@)[p as int] <= N::spec_max());
        }
        v.push(N::from_i64(boxes[p]));
        p = p + 1;
    }
    Ok(v)
}

} // verus!
