//! The layout of a KDTree: its metadata, and the owned and the decoded tree.
use std::marker::PhantomData;
use vstd::prelude::*;

use crate::bytes::{
    decode_value, encode_seq, header_bytes, lemma_encode_seq_decode, lemma_encode_seq_len,
    lemma_header_fields, lemma_pow256_facts, le_value, pow256, push_header, push_values, read_le,
    read_values, repr_max, repr_min,
};
use crate::error::{
    error_message, format_two_numbers, general_error, two_number_message, GeoIndexError,
};
use crate::indices::Indices;
use crate::kdtree::traversal::Node;
use crate::num::IndexableNum;
use crate::kdtree::query::{
    box_high, box_low, circle_high, circle_low, in_box, in_circle, kd_query, kd_visit, KdQuery,
};
use crate::rtree::search::{idx_of, nats_u32};
use crate::rtree::sort::util::ints;

verus! {

/// The first byte of every KDTree buffer.
pub const KDBUSH_MAGIC: u8 = 0xdb;

/// The layout version written in the high four bits of the second byte.
pub const KDBUSH_VERSION: u8 = 1;

/// The number of bytes of the header.
pub const KDBUSH_HEADER_SIZE: usize = 8;

/// The number of bytes of one stored index: `u16` while the tree has fewer than 65536 points,
/// else `u32`.
pub open spec fn kd_index_width(num_items: nat) -> nat {
    if num_items < 65536 {
        2
    } else {
        4
    }
}

/// The number of padding bytes after the indices, which align the coordinates to 8 bytes.
pub open spec fn kd_padding(indices_byte_size: nat) -> nat {
    ((8 - indices_byte_size % 8) % 8) as nat
}

/// The number of bytes of a KDTree buffer of `num_items` points with coordinates of `w` bytes.
pub open spec fn kd_buffer_length(num_items: nat, w: nat) -> nat {
    let ib = num_items * kd_index_width(num_items);
    8 + num_items * 2 * w + ib + kd_padding(ib)
}

/// Common metadata to describe a KDTree
///
/// You can use the metadata to infer the total byte size of a tree given the provided criteria.
/// See [`data_buffer_length`][Self::data_buffer_length].
pub struct KDTreeMetadata<N: IndexableNum> {
    node_size: u16,
    num_items: u32,
    phantom: PhantomData<N>,
    indices_byte_size: usize,
    pad_coords_byte_size: usize,
    coords_byte_size: usize,
}

impl<N: IndexableNum> Clone for KDTreeMetadata<N> {
    fn clone(&self) -> (r: Self)
        ensures
            r == *self,
    {
        KDTreeMetadata {
            node_size: self.node_size,
            num_items: self.num_items,
            phantom: PhantomData,
            indices_byte_size: self.indices_byte_size,
            pad_coords_byte_size: self.pad_coords_byte_size,
            coords_byte_size: self.coords_byte_size,
        }
    }
}

impl<N: IndexableNum> KDTreeMetadata<N> {
    /// The maximum number of points per leaf node.
    pub closed spec fn spec_node_size(&self) -> nat {
        self.node_size as nat
    }

    /// The number of points.
    pub closed spec fn spec_num_items(&self) -> nat {
        self.num_items as nat
    }

    /// The number of bytes of the indices.
    pub closed spec fn spec_indices_byte_size(&self) -> nat {
        self.indices_byte_size as nat
    }

    /// The number of padding bytes between the indices and the coordinates.
    pub closed spec fn spec_pad_coords_byte_size(&self) -> nat {
        self.pad_coords_byte_size as nat
    }

    /// The number of bytes of the coordinates.
    pub closed spec fn spec_coords_byte_size(&self) -> nat {
        self.coords_byte_size as nat
    }

    /// The metadata describes a tree of its number of points and node size.
    pub open spec fn wf(&self) -> bool {
        let n = self.spec_num_items();
        &&& self.spec_node_size() >= 2
        &&& n <= u32::MAX
        &&& 64 * n <= usize::MAX
        &&& self.spec_coords_byte_size() == n * 2 * N::spec_bytes_per_element()
        &&& self.spec_indices_byte_size() == n * kd_index_width(n)
        &&& self.spec_pad_coords_byte_size() == kd_padding(self.spec_indices_byte_size())
    }

    /// The number of bytes of a buffer with this metadata.
    pub open spec fn spec_data_buffer_length(&self) -> nat {
        8 + self.spec_coords_byte_size() + self.spec_indices_byte_size()
            + self.spec_pad_coords_byte_size()
    }

    proof fn lemma_sizes(&self)
        requires
            self.wf(),
        ensures
            self.spec_data_buffer_length() == kd_buffer_length(
                self.spec_num_items(),
                N::spec_bytes_per_element() as nat,
            ),
            self.spec_data_buffer_length() <= 16 * self.spec_num_items() + 16,
            self.spec_pad_coords_byte_size() < 8,
    {
        N::lemma_layout();
        let n = self.spec_num_items();
        assert(n * 2 * N::spec_bytes_per_element() <= n * 8) by (nonlinear_arith)
            requires
                N::spec_bytes_per_element() <= 4,
        ;
        assert(n * kd_index_width(n) <= n * 4) by (nonlinear_arith)
            requires
                kd_index_width(n) <= 4,
        ;
        assert(kd_padding(self.spec_indices_byte_size()) < 8);
    }

    /// Construct a new [`KDTreeMetadata`] from a number of items and node size.
    pub fn new(num_items: u32, node_size: u16) -> (r: Self)
        requires
            2 <= node_size,
            64 * num_items <= usize::MAX,
        ensures
            r.wf(),
            r.spec_num_items() == num_items,
            r.spec_node_size() == node_size,
    {
        proof {
            N::lemma_layout();
        }
        let coords_byte_size = (num_items as usize) * 2 * N::bytes_per_element();
        let indices_bytes_per_element: usize = if num_items < 65536 {
            2
        } else {
            4
        };
        let indices_byte_size = (num_items as usize) * indices_bytes_per_element;
        let pad_coords_byte_size = (8 - (indices_byte_size % 8)) % 8;
        KDTreeMetadata {
            node_size,
            num_items,
            phantom: PhantomData,
            indices_byte_size,
            pad_coords_byte_size,
            coords_byte_size,
        }
    }

    /// Construct a new [`KDTreeMetadata`] from an existing byte slice conforming to the "kdbush
    /// ABI", such as what [`KDTreeBuilder`][crate::kdtree::KDTreeBuilder] generates.
    pub fn from_slice(data: &[u8]) -> (r: Result<Self, GeoIndexError>)
        requires
            data@.len() >= 8,
            kdtree_header_known::<N>(data@) ==> header_node_size(data@) >= 2,
        ensures
            kdtree_header_outcome::<N>(data@, r),
    {
        if data[0] != KDBUSH_MAGIC {
            return Err(general_error("Data not in Kdbush format."));
        }
        let version_and_type = data[1];
        let version = version_and_type / 16;
        if version != KDBUSH_VERSION {
            return Err(
                GeoIndexError::General(
                    format_two_numbers(
                        "Got v",
                        version as u64,
                        " data when expected v",
                        KDBUSH_VERSION as u64,
                        ".",
                    ),
                ),
            );
        }
        let type_ = version_and_type % 16;
        if type_ != N::type_index() {
            return Err(
                GeoIndexError::General(
                    format_two_numbers(
                        "Got type ",
                        type_ as u64,
                        " data when expected type ",
                        N::type_index() as u64,
                        ".",
                    ),
                ),
            );
        }
        proof {
            lemma_pow256_facts();
            crate::bytes::lemma_le_value_bound(data@.subrange(2, 4));
            crate::bytes::lemma_le_value_bound(data@.subrange(4, 8));
        }
        let node_size = read_le(data, 2, 2) as u16;
        let num_items = read_le(data, 4, 4) as u32;
        if num_items as usize > usize::MAX / 64 {
            return Err(general_error("Buffer too large for this platform."));
        }
        let slf = Self::new(num_items, node_size);
        proof {
            slf.lemma_sizes();
        }
        let expected = slf.data_buffer_length();
        if expected != data.len() {
            return Err(
                GeoIndexError::General(
                    format_two_numbers(
                        "Expected ",
                        expected as u64,
                        " bytes but received byte slice with ",
                        data.len() as u64,
                        " bytes",
                    ),
                ),
            );
        }
        Ok(slf)
    }

    /// The maximum number of items per node.
    pub fn node_size(&self) -> (r: u16)
        ensures
            r == self.spec_node_size(),
    {
        self.node_size
    }

    /// The number of items indexed in the tree.
    pub fn num_items(&self) -> (r: u32)
        ensures
            r == self.spec_num_items(),
    {
        self.num_items
    }

    /// The number of bytes that a KDTree with this metadata would have.
    pub fn data_buffer_length(&self) -> (r: usize)
        requires
            self.wf(),
        ensures
            r == self.spec_data_buffer_length(),
    {
        proof {
            self.lemma_sizes();
        }
        KDBUSH_HEADER_SIZE + self.coords_byte_size + self.indices_byte_size
            + self.pad_coords_byte_size
    }
}

/// The node size written in a header.
pub open spec fn header_node_size(data: Seq<u8>) -> nat {
    le_value(data.subrange(2, 4))
}

/// The number of points written in a header.
pub open spec fn header_num_items(data: Seq<u8>) -> nat {
    le_value(data.subrange(4, 8))
}

/// The header has the KDTree magic byte, version and coordinate type `N`.
pub open spec fn kdtree_header_known<N: IndexableNum>(data: Seq<u8>) -> bool {
    &&& data[0] == KDBUSH_MAGIC
    &&& data[1] / 16 == KDBUSH_VERSION
    &&& data[1] % 16 == N::spec_type_index()
}

/// Whether a KDTree header passes every check for coordinates of type `N` and fits the buffer
/// length.
pub open spec fn kdtree_header_valid<N: IndexableNum>(data: Seq<u8>) -> bool {
    &&& kdtree_header_known::<N>(data)
    &&& 64 * header_num_items(data) <= usize::MAX
    &&& data.len() == kd_buffer_length(header_num_items(data), N::spec_bytes_per_element() as nat)
}

/// The message of the first failed check of a KDTree header, in order: magic byte, version,
/// coordinate type, platform size, buffer length.
pub open spec fn kdtree_header_error<N: IndexableNum>(data: Seq<u8>) -> Seq<char> {
    let version = data[1] / 16;
    let type_ = data[1] % 16;
    let n = header_num_items(data);
    if data[0] != KDBUSH_MAGIC {
        "Data not in Kdbush format."@
    } else if version != KDBUSH_VERSION {
        two_number_message(
            "Got v"@,
            version as nat,
            " data when expected v"@,
            KDBUSH_VERSION as nat,
            "."@,
        )
    } else if type_ != N::spec_type_index() {
        two_number_message(
            "Got type "@,
            type_ as nat,
            " data when expected type "@,
            N::spec_type_index() as nat,
            "."@,
        )
    } else if 64 * n > usize::MAX {
        "Buffer too large for this platform."@
    } else {
        two_number_message(
            "Expected "@,
            kd_buffer_length(n, N::spec_bytes_per_element() as nat),
            " bytes but received byte slice with "@,
            data.len(),
            " bytes"@,
        )
    }
}

/// What reading the metadata of a KDTree buffer gives: the message of the first failed check,
/// else the metadata of the header's number of points and node size.
pub open spec fn kdtree_header_outcome<N: IndexableNum>(
    data: Seq<u8>,
    r: Result<KDTreeMetadata<N>, GeoIndexError>,
) -> bool {
    if !kdtree_header_valid::<N>(data) {
        r is Err && error_message(r) == kdtree_header_error::<N>(data)
    } else {
        r matches Ok(m) && m.wf() && m.spec_num_items() == header_num_items(data)
            && m.spec_node_size() == header_node_size(data)
    }
}

/// The coordinates and indices of a tree fit its metadata: two coordinates of type `N` and one
/// index per point, indices stored as `u16` exactly when the tree has fewer than 65536 points.
pub open spec fn kd_layout<N: IndexableNum>(
    metadata: KDTreeMetadata<N>,
    coords: Seq<int>,
    ids: Seq<nat>,
    ids_u16: bool,
) -> bool {
    let n = metadata.spec_num_items();
    &&& metadata.wf()
    &&& coords.len() == 2 * n
    &&& ids.len() == n
    &&& ids_u16 == (n < 65536)
    &&& forall|i: int| 0 <= i < coords.len() ==> N::spec_min() <= #[trigger] coords[i] <= N::spec_max()
    &&& forall|i: int| 0 <= i < ids.len() ==> #[trigger] ids[i] < pow256(kd_index_width(n))
}

/// The bytes of a tree in the kdbush layout: the header, the indices (little endian, `u16`
/// below 65536 points, else `u32`), zero padding to a multiple of 8 bytes, and the coordinates
/// (`x, y` of each point, little endian).
pub open spec fn kd_bytes<N: IndexableNum>(
    metadata: KDTreeMetadata<N>,
    coords: Seq<int>,
    ids: Seq<nat>,
) -> Seq<u8> {
    let n = metadata.spec_num_items();
    header_bytes(
        KDBUSH_MAGIC,
        KDBUSH_VERSION,
        N::spec_type_index(),
        metadata.spec_node_size(),
        n,
    ) + encode_seq(ids.map_values(|x: nat| x as int), kd_index_width(n)) + Seq::new(
        kd_padding(n * kd_index_width(n)),
        |i: int| 0u8,
    ) + encode_seq(coords, N::spec_bytes_per_element() as nat)
}

/// The coordinate `i` of a kdbush buffer of `n` points.
pub open spec fn kd_decoded_coord<N: IndexableNum>(data: Seq<u8>, n: nat, i: int) -> int {
    let ib = n * kd_index_width(n);
    decode_value(
        data,
        8 + ib + kd_padding(ib) + i * N::spec_bytes_per_element(),
        N::spec_bytes_per_element() as nat,
        N::spec_signed(),
    )
}

/// The index `i` of a kdbush buffer of `n` points.
pub open spec fn kd_decoded_index(data: Seq<u8>, n: nat, i: int) -> int {
    decode_value(data, 8 + i * kd_index_width(n), kd_index_width(n), false)
}

/// An owned KDTree.
///
/// Usually this will be created from scratch via [`KDTreeBuilder`][crate::kdtree::KDTreeBuilder].
pub struct KDTree<N: IndexableNum> {
    pub(crate) coords: Vec<i64>,
    pub(crate) ids: Indices,
    pub(crate) metadata: KDTreeMetadata<N>,
}

/// A KDTree read from an external buffer in the kdbush layout.
pub struct KDTreeRef<N: IndexableNum> {
    pub(crate) coords: Vec<i64>,
    pub(crate) ids: Indices,
    pub(crate) metadata: KDTreeMetadata<N>,
}

/// The kdbush bytes of a tree.
fn serialize<N: IndexableNum>(metadata: &KDTreeMetadata<N>, coords: &Vec<i64>, ids: &Indices) -> (r:
    Vec<u8>)
    requires
        kd_layout(*metadata, ints(coords@), ids@, ids.is_u16()),
    ensures
        r@ == kd_bytes(*metadata, ints(coords@), ids@),
{
    proof {
        N::lemma_layout();
    }
    let mut out: Vec<u8> = Vec::new();
    push_header(
        &mut out,
        KDBUSH_MAGIC,
        KDBUSH_VERSION,
        N::type_index(),
        metadata.node_size,
        metadata.num_items,
    );
    ids.push_bytes(&mut out);
    let ghost before = out@;
    let mut p: usize = 0;
    while p < metadata.pad_coords_byte_size
        invariant
            p <= metadata.pad_coords_byte_size,
            out@ == before + Seq::new(p as nat, |i: int| 0u8),
        decreases metadata.pad_coords_byte_size - p,
    {
        out.push(0);
        p = p + 1;
        proof {
            assert(out@ =~= before + Seq::new(p as nat, |i: int| 0u8));
        }
    }
    proof {
        assert forall|i: int| 0 <= i < coords@.len() implies repr_min(
            N::spec_bytes_per_element() as nat,
            N::spec_signed(),
        ) <= #[trigger] coords@[i] <= repr_max(N::spec_bytes_per_element() as nat, N::spec_signed()) by {
            assert(ints(coords@)[i] == coords@[i]);
        }
    }
    push_values(&mut out, coords, N::bytes_per_element(), N::signed());
    proof {
        assert(out@ =~= kd_bytes(*metadata, ints(coords@), ids@));
    }
    out
}

/// A tree whose coordinates, indices and metadata can be read: both [`KDTree`] and
/// [`KDTreeRef`].
pub trait KDTreeIndex<N: IndexableNum> {
    /// The coordinates of all points, two per point.
    spec fn tree_coords(&self) -> Seq<int>;

    /// The insertion index of each point.
    spec fn tree_ids(&self) -> Seq<nat>;

    /// Whether the indices are stored as `u16`.
    spec fn tree_ids_u16(&self) -> bool;

    /// The metadata.
    spec fn tree_metadata(&self) -> KDTreeMetadata<N>;

    /// The coordinates of all points (`x, y` of each, in k-d order), widened to `i64`.
    fn coords(&self) -> (r: &Vec<i64>)
        ensures
            ints(r@) == self.tree_coords(),
    ;

    /// The insertion index of each point, in k-d order.
    fn indices(&self) -> (r: &Indices)
        ensures
            r@ == self.tree_ids(),
            r.is_u16() == self.tree_ids_u16(),
    ;

    /// The metadata describing the tree.
    fn metadata(&self) -> (r: &KDTreeMetadata<N>)
        ensures
            *r == self.tree_metadata(),
    ;
}

/// The tree fits its metadata.
pub open spec fn kd_index_wf<N: IndexableNum, T: KDTreeIndex<N>>(t: &T) -> bool {
    kd_layout(t.tree_metadata(), t.tree_coords(), t.tree_ids(), t.tree_ids_u16())
}

impl<N: IndexableNum> KDTree<N> {
    /// The coordinates of all points, two per point (`x, y`).
    pub closed spec fn spec_coords(&self) -> Seq<int> {
        ints(self.coords@)
    }

    /// The index of each point.
    pub closed spec fn spec_ids(&self) -> Seq<nat> {
        self.ids@
    }

    /// The metadata.
    pub closed spec fn spec_metadata(&self) -> KDTreeMetadata<N> {
        self.metadata
    }

    /// Whether the indices are stored as `u16`.
    pub closed spec fn spec_ids_u16(&self) -> bool {
        self.ids.is_u16()
    }

    /// The tree fits its metadata.
    pub open spec fn wf(&self) -> bool {
        kd_layout(self.spec_metadata(), self.spec_coords(), self.spec_ids(), self.spec_ids_u16())
    }

    /// The bytes of this tree in the kdbush layout.
    pub open spec fn spec_bytes(&self) -> Seq<u8> {
        kd_bytes(self.spec_metadata(), self.spec_coords(), self.spec_ids())
    }

    /// The tree of the given coordinates, indices and metadata.
    pub(crate) fn from_parts(coords: Vec<i64>, ids: Indices, metadata: KDTreeMetadata<N>) -> (r: Self)
        requires
            kd_layout(metadata, ints(coords@), ids@, ids.is_u16()),
        ensures
            r.wf(),
            r.spec_coords() == ints(coords@),
            r.spec_ids() == ids@,
            r.spec_metadata() == metadata,
    {
        KDTree { coords, ids, metadata }
    }

    /// Consume this KDTree, returning the underlying buffer.
    pub fn into_inner(self) -> (r: Vec<u8>)
        requires
            self.wf(),
        ensures
            r@ == self.spec_bytes(),
    {
        serialize(&self.metadata, &self.coords, &self.ids)
    }

    /// Access the metadata describing this KDTree.
    pub fn metadata(&self) -> (r: &KDTreeMetadata<N>)
        ensures
            *r == self.spec_metadata(),
    {
        &self.metadata
    }

    /// The number of items in this KDTree.
    pub fn num_items(&self) -> (r: u32)
        ensures
            r == self.spec_metadata().spec_num_items(),
    {
        self.metadata.num_items()
    }

    /// The node size of this KDTree.
    pub fn node_size(&self) -> (r: u16)
        ensures
            r == self.spec_metadata().spec_node_size(),
    {
        self.metadata.node_size()
    }

    /// The index of each point, in the k-d order of the tree.
    pub fn indices(&self) -> (r: &Indices)
        ensures
            r@ == self.spec_ids(),
            r.is_u16() == self.spec_ids_u16(),
    {
        &self.ids
    }

    /// The coordinates of the points, two per point (`x, y`), in the k-d order of the tree.
    pub fn coords(&self) -> (r: Vec<N>)
        requires
            self.wf(),
        ensures
            r@.len() == self.spec_coords().len(),
            forall|i: int| 0 <= i < r@.len() ==> #[trigger] r@[i].value() == self.spec_coords()[i],
    {
        coords_of(&self.coords)
    }

    /// Search the index for items within a given bounding box.
    ///
    /// Returns the indices of the points inside the box (borders included), in the order in
    /// which the k-d search reaches them.
    pub fn range(&self, min_x: N, min_y: N, max_x: N, max_y: N) -> (r: Vec<u32>)
        requires
            self.wf(),
            self.spec_metadata().spec_num_items() >= 1,
        ensures
            nats_u32(r@) == idx_of(
                self.spec_ids(),
                kd_visit(
                    self.spec_coords(),
                    self.spec_metadata().spec_node_size() as int,
                    0,
                    self.spec_metadata().spec_num_items() - 1,
                    0,
                    in_box((min_x.value(), min_y.value(), max_x.value(), max_y.value())),
                    box_low((min_x.value(), min_y.value(), max_x.value(), max_y.value())),
                    box_high((min_x.value(), min_y.value(), max_x.value(), max_y.value())),
                ),
            ),
    {
        proof {
            lemma_query_inputs(self.metadata, ints(self.coords@), self.ids@, self.ids.is_u16());
        }
        let q = KdQuery::Box(min_x.to_i64(), min_y.to_i64(), max_x.to_i64(), max_y.to_i64());
        kd_query(&self.coords, &self.ids, self.metadata.node_size() as usize, q)
    }

    /// Search the index for items within a given radius.
    ///
    /// Returns the indices of the points at most `r` away from `(qx, qy)`, in the order in which
    /// the k-d search reaches them.
    pub fn within(&self, qx: N, qy: N, r: N) -> (res: Vec<u32>)
        requires
            self.wf(),
            self.spec_metadata().spec_num_items() >= 1,
        ensures
            nats_u32(res@) == idx_of(
                self.spec_ids(),
                kd_visit(
                    self.spec_coords(),
                    self.spec_metadata().spec_node_size() as int,
                    0,
                    self.spec_metadata().spec_num_items() - 1,
                    0,
                    in_circle(qx.value(), qy.value(), r.value()),
                    circle_low(qx.value(), qy.value(), r.value()),
                    circle_high(qx.value(), qy.value(), r.value()),
                ),
            ),
    {
        proof {
            lemma_query_inputs(self.metadata, ints(self.coords@), self.ids@, self.ids.is_u16());
        }
        let q = KdQuery::Circle(qx.to_i64(), qy.to_i64(), r.to_i64());
        kd_query(&self.coords, &self.ids, self.metadata.node_size() as usize, q)
    }

    /// Access the root node of the KDTree for manual traversal.
    pub fn root(&self) -> (r: Node<'_, N, Self>)
        requires
            self.wf(),
            self.spec_metadata().spec_num_items() >= 1,
        ensures
            r.wf(),
            r.spec_tree() == self,
            r.spec_left() == 0,
            r.spec_right() == self.spec_metadata().spec_num_items() - 1,
            r.spec_axis() == 0,
    {
        Node::from_root(self)
    }
}

impl<N: IndexableNum> KDTreeRef<N> {
    /// The coordinates of all points, two per point (`x, y`).
    pub closed spec fn spec_coords(&self) -> Seq<int> {
        ints(self.coords@)
    }

    /// The index of each point.
    pub closed spec fn spec_ids(&self) -> Seq<nat> {
        self.ids@
    }

    /// The metadata.
    pub closed spec fn spec_metadata(&self) -> KDTreeMetadata<N> {
        self.metadata
    }

    /// Whether the indices are stored as `u16`.
    pub closed spec fn spec_ids_u16(&self) -> bool {
        self.ids.is_u16()
    }

    /// The tree fits its metadata.
    pub open spec fn wf(&self) -> bool {
        kd_layout(self.spec_metadata(), self.spec_coords(), self.spec_ids(), self.spec_ids_u16())
    }

    /// Construct a new KDTreeRef from an external byte slice.
    ///
    /// This byte slice must conform to the "kdbush ABI", that is, the ABI of
    /// the JavaScript [`kdbush` library](https://github.com/mourner/kdbush). You can extract
    /// such a buffer either via [`KDTree::into_inner`] or from the `.data` attribute of the
    /// JavaScript `KDBush` object.
    pub fn try_new(data: &[u8]) -> (r: Result<Self, GeoIndexError>)
        requires
            data@.len() >= 8,
            kdtree_header_known::<N>(data@) ==> header_node_size(data@) >= 2,
        ensures
            !kdtree_header_valid::<N>(data@) ==> r is Err && error_message(r)
                == kdtree_header_error::<N>(data@),
            kdtree_header_valid::<N>(data@) ==> r is Ok,
            r matches Ok(t) ==> {
                &&& t.wf()
                &&& t.spec_metadata().spec_num_items() == header_num_items(data@)
                &&& t.spec_metadata().spec_node_size() == header_node_size(data@)
                &&& forall|i: int|
                    0 <= i < t.spec_coords().len() ==> #[trigger] t.spec_coords()[i]
                        == kd_decoded_coord::<N>(data@, header_num_items(data@), i)
                &&& forall|i: int|
                    0 <= i < t.spec_ids().len() ==> #[trigger] t.spec_ids()[i] == kd_decoded_index(
                        data@,
                        header_num_items(data@),
                        i,
                    )
            },
    {
        let metadata = KDTreeMetadata::<N>::from_slice(data);
        match metadata {
            Err(e) => Err(e),
            Ok(metadata) => {
                proof {
                    metadata.lemma_sizes();
                }
                Ok(Self::decode(data, metadata))
            },
        }
    }

    /// Construct a new KDTreeRef without validating the header: the coordinates and indices are
    /// read from the data at the places that the given metadata describes.
    pub fn new_unchecked(data: &[u8], metadata: KDTreeMetadata<N>) -> (r: Result<Self, GeoIndexError>)
        requires
            metadata.wf(),
            data@.len() == metadata.spec_data_buffer_length(),
        ensures
            r matches Ok(t) && t.wf() && t.spec_metadata() == metadata && (forall|i: int|
                0 <= i < t.spec_coords().len() ==> #[trigger] t.spec_coords()[i] == kd_decoded_coord::<N>(
                    data@,
                    metadata.spec_num_items(),
                    i,
                )) && (forall|i: int|
                0 <= i < t.spec_ids().len() ==> #[trigger] t.spec_ids()[i] == kd_decoded_index(
                    data@,
                    metadata.spec_num_items(),
                    i,
                )),
    {
        Ok(Self::decode(data, metadata))
    }

    /// The tree stored in the data at the places that the metadata describes.
    fn decode(data: &[u8], metadata: KDTreeMetadata<N>) -> (t: Self)
        requires
            metadata.wf(),
            data@.len() == metadata.spec_data_buffer_length(),
        ensures
            t.wf(),
            t.spec_metadata() == metadata,
            forall|i: int|
                0 <= i < t.spec_coords().len() ==> #[trigger] t.spec_coords()[i] == kd_decoded_coord::<N>(
                    data@,
                    metadata.spec_num_items(),
                    i,
                ),
            forall|i: int|
                0 <= i < t.spec_ids().len() ==> #[trigger] t.spec_ids()[i] == kd_decoded_index(
                    data@,
                    metadata.spec_num_items(),
                    i,
                ),
    {
        proof {
            metadata.lemma_sizes();
            N::lemma_layout();
            lemma_pow256_facts();
        }
        let w = N::bytes_per_element();
        let n = metadata.num_items as usize;
        let small = n < 65536;
        let iw: usize = if small {
            2
        } else {
            4
        };
        let raw = read_values(data, KDBUSH_HEADER_SIZE, n, iw, false);
        let coords = read_values(
            data,
            KDBUSH_HEADER_SIZE + metadata.indices_byte_size + metadata.pad_coords_byte_size,
            n * 2,
            w,
            N::signed(),
        );
        proof {
            assert forall|i: int| 0 <= i < raw@.len() implies 0 <= #[trigger] raw@[i] && (
            if small {
                raw@[i] <= 65535
            } else {
                raw@[i] <= 4294967295
            }) by {}
        }
        let ids = Indices::from_values(raw, small);
        let t = KDTreeRef { coords, ids, metadata };
        proof {
            assert forall|i: int| 0 <= i < t.spec_coords().len() implies #[trigger] t.spec_coords()[i]
                == kd_decoded_coord::<N>(data@, n as nat, i) by {
                assert(t.spec_coords()[i] == coords@[i]);
            }
            assert forall|i: int| 0 <= i < t.spec_coords().len() implies N::spec_min()
                <= #[trigger] t.spec_coords()[i] <= N::spec_max() by {
                assert(t.spec_coords()[i] == coords@[i]);
            }
            assert forall|i: int| 0 <= i < t.spec_ids().len() implies #[trigger] t.spec_ids()[i]
                < pow256(kd_index_width(n as nat)) by {
                assert(t.spec_ids()[i] == raw@[i]);
            }
        }
        t
    }

    /// Access the metadata describing this KDTree.
    pub fn metadata(&self) -> (r: &KDTreeMetadata<N>)
        ensures
            *r == self.spec_metadata(),
    {
        &self.metadata
    }

    /// The number of items in this KDTree.
    pub fn num_items(&self) -> (r: u32)
        ensures
            r == self.spec_metadata().spec_num_items(),
    {
        self.metadata.num_items()
    }

    /// The node size of this KDTree.
    pub fn node_size(&self) -> (r: u16)
        ensures
            r == self.spec_metadata().spec_node_size(),
    {
        self.metadata.node_size()
    }

    /// The index of each point, in the k-d order of the tree.
    pub fn indices(&self) -> (r: &Indices)
        ensures
            r@ == self.spec_ids(),
            r.is_u16() == self.spec_ids_u16(),
    {
        &self.ids
    }

    /// The coordinates of the points, two per point (`x, y`), in the k-d order of the tree.
    pub fn coords(&self) -> (r: Vec<N>)
        requires
            self.wf(),
        ensures
            r@.len() == self.spec_coords().len(),
            forall|i: int| 0 <= i < r@.len() ==> #[trigger] r@[i].value() == self.spec_coords()[i],
    {
        coords_of(&self.coords)
    }

    /// Search the index for items within a given bounding box.
    ///
    /// Returns the indices of the points inside the box (borders included), in the order in
    /// which the k-d search reaches them.
    pub fn range(&self, min_x: N, min_y: N, max_x: N, max_y: N) -> (r: Vec<u32>)
        requires
            self.wf(),
            self.spec_metadata().spec_num_items() >= 1,
        ensures
            nats_u32(r@) == idx_of(
                self.spec_ids(),
                kd_visit(
                    self.spec_coords(),
                    self.spec_metadata().spec_node_size() as int,
                    0,
                    self.spec_metadata().spec_num_items() - 1,
                    0,
                    in_box((min_x.value(), min_y.value(), max_x.value(), max_y.value())),
                    box_low((min_x.value(), min_y.value(), max_x.value(), max_y.value())),
                    box_high((min_x.value(), min_y.value(), max_x.value(), max_y.value())),
                ),
            ),
    {
        proof {
            lemma_query_inputs(self.metadata, ints(self.coords@), self.ids@, self.ids.is_u16());
        }
        let q = KdQuery::Box(min_x.to_i64(), min_y.to_i64(), max_x.to_i64(), max_y.to_i64());
        kd_query(&self.coords, &self.ids, self.metadata.node_size() as usize, q)
    }

    /// Search the index for items within a given radius.
    ///
    /// Returns the indices of the points at most `r` away from `(qx, qy)`, in the order in which
    /// the k-d search reaches them.
    pub fn within(&self, qx: N, qy: N, r: N) -> (res: Vec<u32>)
        requires
            self.wf(),
            self.spec_metadata().spec_num_items() >= 1,
        ensures
            nats_u32(res@) == idx_of(
                self.spec_ids(),
                kd_visit(
                    self.spec_coords(),
                    self.spec_metadata().spec_node_size() as int,
                    0,
                    self.spec_metadata().spec_num_items() - 1,
                    0,
                    in_circle(qx.value(), qy.value(), r.value()),
                    circle_low(qx.value(), qy.value(), r.value()),
                    circle_high(qx.value(), qy.value(), r.value()),
                ),
            ),
    {
        proof {
            lemma_query_inputs(self.metadata, ints(self.coords@), self.ids@, self.ids.is_u16());
        }
        let q = KdQuery::Circle(qx.to_i64(), qy.to_i64(), r.to_i64());
        kd_query(&self.coords, &self.ids, self.metadata.node_size() as usize, q)
    }

    /// Access the root node of the KDTree for manual traversal.
    pub fn root(&self) -> (r: Node<'_, N, Self>)
        requires
            self.wf(),
            self.spec_metadata().spec_num_items() >= 1,
        ensures
            r.wf(),
            r.spec_tree() == self,
            r.spec_left() == 0,
            r.spec_right() == self.spec_metadata().spec_num_items() - 1,
            r.spec_axis() == 0,
    {
        Node::from_root(self)
    }
}

/// Reading back the bytes of a tree gives the same tree: the header passes every check and holds
/// the tree's number of points and node size, and every coordinate and index decodes to the
/// stored one.
pub proof fn lemma_kd_bytes_roundtrip<N: IndexableNum>(
    metadata: KDTreeMetadata<N>,
    coords: Seq<int>,
    ids: Seq<nat>,
    ids_u16: bool,
)
    requires
        kd_layout(metadata, coords, ids, ids_u16),
    ensures
        kd_bytes(metadata, coords, ids).len() >= 8,
        kdtree_header_valid::<N>(kd_bytes(metadata, coords, ids)),
        header_num_items(kd_bytes(metadata, coords, ids)) == metadata.spec_num_items(),
        header_node_size(kd_bytes(metadata, coords, ids)) == metadata.spec_node_size(),
        forall|i: int|
            0 <= i < coords.len() ==> #[trigger] kd_decoded_coord::<N>(
                kd_bytes(metadata, coords, ids),
                metadata.spec_num_items(),
                i,
            ) == coords[i],
        forall|i: int|
            0 <= i < ids.len() ==> #[trigger] kd_decoded_index(
                kd_bytes(metadata, coords, ids),
                metadata.spec_num_items(),
                i,
            ) == ids[i],
{
    let d = kd_bytes(metadata, coords, ids);
    let n = metadata.spec_num_items();
    let w = N::spec_bytes_per_element() as nat;
    let iw = kd_index_width(n);
    let idv = ids.map_values(|x: nat| x as int);
    let h = header_bytes(
        KDBUSH_MAGIC,
        KDBUSH_VERSION,
        N::spec_type_index(),
        metadata.spec_node_size(),
        n,
    );
    let ei = encode_seq(idv, iw);
    let pad = Seq::new(kd_padding(n * iw), |i: int| 0u8);
    let ec = encode_seq(coords, w);
    N::lemma_layout();
    metadata.lemma_sizes();
    lemma_pow256_facts();
    lemma_header_fields(
        KDBUSH_MAGIC,
        KDBUSH_VERSION,
        N::spec_type_index(),
        metadata.spec_node_size(),
        n,
    );
    lemma_encode_seq_len(idv, iw);
    lemma_encode_seq_len(coords, w);
    assert(d.subrange(2, 4) =~= h.subrange(2, 4));
    assert(d.subrange(4, 8) =~= h.subrange(4, 8));
    assert(coords.len() * w == n * 2 * w) by (nonlinear_arith)
        requires
            coords.len() == 2 * n,
    ;
    assert(d.len() == 8 + n * iw + kd_padding(n * iw) + n * 2 * w);
    assert(d.len() == kd_buffer_length(n, w));
    assert forall|i: int| 0 <= i < ids.len() implies #[trigger] kd_decoded_index(d, n, i)
        == ids[i] by {
        lemma_encode_seq_decode(idv, iw, false, i);
        assert(d.subrange(8 + i * iw, 8 + i * iw + iw) =~= ei.subrange(i * iw, i * iw + iw));
    }
    assert forall|i: int| 0 <= i < coords.len() implies #[trigger] kd_decoded_coord::<N>(d, n, i)
        == coords[i] by {
        lemma_encode_seq_decode(coords, w, N::spec_signed(), i);
        let off = 8 + n * iw + kd_padding(n * iw);
        assert(off == 8 + ei.len() + pad.len());
        assert(d.subrange(off + i * w, off + i * w + w) =~= ec.subrange(i * w, i * w + w));
    }
}

/// The coordinates of a tree as values of `N`.
fn coords_of<N: IndexableNum>(coords: &Vec<i64>) -> (r: Vec<N>)
    requires
        forall|i: int| 0 <= i < coords@.len() ==> N::spec_min() <= #[trigger] ints(coords@)[i] <= N::spec_max(),
    ensures
        r@.len() == coords@.len(),
        forall|i: int| 0 <= i < r@.len() ==> #[trigger] r@[i].value() == ints(coords@)[i],
{
    let mut v: Vec<N> = Vec::new();
    let mut i: usize = 0;
    while i < coords.len()
        invariant
            i <= coords@.len(),
            v@.len() == i,
            forall|k: int| 0 <= k < coords@.len() ==> N::spec_min() <= #[trigger] ints(coords@)[k] <= N::spec_max(),
            forall|k: int| 0 <= k < v@.len() ==> #[trigger] v@[k].value() == ints(coords@)[k],
        decreases coords@.len() - i,
    {
        proof {
            assert(N::spec_min() <= ints(coords@)[i as int] <= N::spec_max());
        }
        v.push(N::from_i64(coords[i]));
        i = i + 1;
    }
    v
}

/// The coordinates of a tree that fits its layout lie within the range of every coordinate
/// type, and its indices fit in `u32`.
proof fn lemma_query_inputs<N: IndexableNum>(
    metadata: KDTreeMetadata<N>,
    coords: Seq<int>,
    ids: Seq<nat>,
    ids_u16: bool,
)
    requires
        kd_layout(metadata, coords, ids, ids_u16),
    ensures
        forall|p: int| 0 <= p < coords.len() ==> -0x1_0000_0000 <= #[trigger] coords[p] <= 0x1_0000_0000,
        forall|k: int| 0 <= k < ids.len() ==> #[trigger] ids[k] <= u32::MAX,
        N::spec_min() >= -0x1_0000_0000,
        N::spec_max() <= 0x1_0000_0000,
{
    N::lemma_layout();
    lemma_pow256_facts();
    crate::bytes::lemma_pow_mono(N::spec_bytes_per_element() as nat, 4);
    assert forall|p: int| 0 <= p < coords.len() implies -0x1_0000_0000 <= #[trigger] coords[p]
        <= 0x1_0000_0000 by {
        assert(N::spec_min() <= coords[p] <= N::spec_max());
    }
    assert forall|k: int| 0 <= k < ids.len() implies #[trigger] ids[k] <= u32::MAX by {
        assert(ids[k] < pow256(kd_index_width(metadata.spec_num_items())));
    }
}

impl<N: IndexableNum> KDTreeIndex<N> for KDTree<N> {
    open spec fn tree_coords(&self) -> Seq<int> {
        self.spec_coords()
    }

    open spec fn tree_ids(&self) -> Seq<nat> {
        self.spec_ids()
    }

    open spec fn tree_ids_u16(&self) -> bool {
        self.spec_ids_u16()
    }

    open spec fn tree_metadata(&self) -> KDTreeMetadata<N> {
        self.spec_metadata()
    }

    fn coords(&self) -> (r: &Vec<i64>) {
        &self.coords
    }

    fn indices(&self) -> (r: &Indices) {
        &self.ids
    }

    fn metadata(&self) -> (r: &KDTreeMetadata<N>) {
        &self.metadata
    }
}

impl<N: IndexableNum> KDTreeIndex<N> for KDTreeRef<N> {
    open spec fn tree_coords(&self) -> Seq<int> {
        self.spec_coords()
    }

    open spec fn tree_ids(&self) -> Seq<nat> {
        self.spec_ids()
    }

    open spec fn tree_ids_u16(&self) -> bool {
        self.spec_ids_u16()
    }

    open spec fn tree_metadata(&self) -> KDTreeMetadata<N> {
        self.spec_metadata()
    }

    fn coords(&self) -> (r: &Vec<i64>) {
        &self.coords
    }

    fn indices(&self) -> (r: &Indices) {
        &self.ids
    }

    fn metadata(&self) -> (r: &KDTreeMetadata<N>) {
        &self.metadata
    }
}

} // verus!
