# geo_index

Packed, immutable, zero-copy spatial indexes laid out in flat byte buffers: a static R-tree in
the layout of the JavaScript `flatbush` library and a static k-d tree in the layout of `kdbush`,
over integer coordinates (`i8`, `u8`, `i16`, `u16`, `i32`, `u32`).

The library under `src/` is written in Verus and proved: every public function carries a
`requires`/`ensures` contract over a mathematical model of the trees, and the laws that tie the
functions together are public proof functions.

- `rtree`: `RTreeBuilder` (adding boxes, Hilbert or sort-tile-recursive packing), `OwnedRTree`
  and `RTreeRef` (decoding a buffer), box search, nearest-neighbour search, joins of two trees,
  and hand traversal with `Node`.
- `kdtree`: `KDTreeBuilder`, `KDTree` and `KDTreeRef`, range and radius queries, traversal.
- `indices`: the `u16`/`u32` index arrays of both layouts.

Among the laws: a search finds exactly the added boxes that meet the query, each once; a
nearest-neighbour search reports added boxes nearest first, each once, and leaves none out
within the distance unless it stopped at the number asked for; a join reports exactly the pairs
of added boxes that meet, each once; range and radius queries find exactly the added points
inside; writing a tree to bytes and reading it back gives the same tree.

`app/` holds what is not proved: floating-point distance metrics over `geo` (Euclidean,
Haversine, geodesic), adapters for `geo-traits` geometries, the `f64` to `f32` box rounding and
an error type with `std::error::Error`.
