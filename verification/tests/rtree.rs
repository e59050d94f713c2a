use geo_index::indices::Indices;
use geo_index::rtree::sort::{HilbertSort, STRSort};
use geo_index::rtree::{
    OwnedRTree, RTreeBuilder, RTreeIndex, RTreeMetadata, RTreeRef, SimpleDistanceMetric,
    SpheroidDistance,
    DEFAULT_RTREE_NODE_SIZE,
};
use geo_index::GeoIndexError;

fn message<T>(r: Result<T, GeoIndexError>) -> String {
    match r {
        Ok(_) => panic!("expected an error"),
        Err(GeoIndexError::General(s)) => s,
    }
}

fn three_boxes() -> OwnedRTree<i32> {
    let mut builder = RTreeBuilder::<i32>::new(3);
    builder.add(0, 0, 4, 4);
    builder.add(2, 2, 6, 6);
    builder.add(4, 4, 8, 8);
    builder.finish::<HilbertSort>()
}

/// A grid of `side * side` unit boxes, one per cell, added row by row.
fn grid(side: i32, node_size: u16) -> RTreeBuilder<i32> {
    let mut builder = RTreeBuilder::<i32>::new_with_node_size((side * side) as u32, node_size);
    for y in 0..side {
        for x in 0..side {
            builder.add(2 * x, 2 * y, 2 * x + 1, 2 * y + 1);
        }
    }
    builder
}

/// The cells of the grid whose boxes meet the query, in insertion order.
fn grid_hits(side: i32, min_x: i32, min_y: i32, max_x: i32, max_y: i32) -> Vec<u32> {
    let mut out = vec![];
    for y in 0..side {
        for x in 0..side {
            let (bx0, by0, bx1, by1) = (2 * x, 2 * y, 2 * x + 1, 2 * y + 1);
            if !(max_x < bx0 || max_y < by0 || min_x > bx1 || min_y > by1) {
                out.push((y * side + x) as u32);
            }
        }
    }
    out
}

fn sorted(mut v: Vec<u32>) -> Vec<u32> {
    v.sort();
    v
}

#[test]
fn does_not_panic_length_1_tree() {
    let mut builder = RTreeBuilder::<i32>::new(1);
    builder.add(-20, -20, 1020, 1020);
    let tree = builder.finish::<HilbertSort>();
    let result = tree.search(0, 0, 0, 0);
    assert_eq!(result, vec![0]);
}

#[test]
fn search_finds_overlapping_boxes() {
    let tree = three_boxes();
    assert_eq!(sorted(tree.search(1, 1, 3, 3)), vec![0, 1]);
    assert_eq!(sorted(tree.search(9, 9, 10, 10)), Vec::<u32>::new());
    assert_eq!(sorted(tree.search(4, 4, 4, 4)), vec![0, 1, 2]);
}

#[test]
fn search_reads_back_from_bytes() {
    let tree = three_boxes();
    let buffer = tree.into_inner();
    let tree_ref = RTreeRef::<i32>::try_new(&buffer).unwrap();
    assert_eq!(sorted(tree_ref.search(1, 1, 3, 3)), vec![0, 1]);
    assert_eq!(tree_ref.num_items(), 3);
    assert_eq!(tree_ref.node_size(), DEFAULT_RTREE_NODE_SIZE);
}

#[test]
fn search_on_a_grid_matches_a_scan() {
    for node_size in [2u16, 3, 16] {
        let tree = grid(12, node_size).finish::<HilbertSort>();
        for q in [(0, 0, 0, 0), (3, 3, 9, 5), (-5, -5, 100, 100), (7, 0, 7, 30), (30, 30, 40, 40)] {
            let found = sorted(tree.search(q.0, q.1, q.2, q.3));
            assert_eq!(found, grid_hits(12, q.0, q.1, q.2, q.3));
        }
    }
}

#[test]
fn str_sort_gives_the_same_search_results() {
    let hilbert = grid(9, 4).finish::<HilbertSort>();
    let strt = grid(9, 4).finish::<STRSort>();
    for q in [(1, 1, 5, 5), (0, 10, 17, 11), (16, 16, 16, 16)] {
        assert_eq!(
            sorted(hilbert.search(q.0, q.1, q.2, q.3)),
            sorted(strt.search(q.0, q.1, q.2, q.3))
        );
        assert_eq!(sorted(strt.search(q.0, q.1, q.2, q.3)), grid_hits(9, q.0, q.1, q.2, q.3));
    }
}

#[test]
fn large_tree_uses_u32_indices() {
    let side = 130;
    let tree = grid(side, 2).finish::<HilbertSort>();
    assert!(tree.num_nodes() >= 16384);
    let found = sorted(tree.search(10, 10, 14, 12));
    assert_eq!(found, grid_hits(side, 10, 10, 14, 12));
    let buffer = tree.into_inner();
    let tree_ref = RTreeRef::<i32>::try_new(&buffer).unwrap();
    assert_eq!(sorted(tree_ref.search(10, 10, 14, 12)), grid_hits(side, 10, 10, 14, 12));
}

#[test]
fn add_slice_returns_insertion_indices() {
    let mut builder = RTreeBuilder::<i16>::new(4);
    let first = builder.add(0, 0, 1, 1);
    let rest = builder.add_slice(&[2, 4, 6], &[2, 4, 6], &[3, 5, 7], &[3, 5, 7]);
    assert_eq!(first, 0);
    assert_eq!(rest, vec![1, 2, 3]);
    let tree = builder.finish::<HilbertSort>();
    assert_eq!(sorted(tree.search(3, 3, 4, 4)), vec![1, 2]);
}

#[test]
fn metadata_sizes() {
    let meta = RTreeMetadata::<i32>::new(3, 16);
    assert_eq!(meta.num_items(), 3);
    assert_eq!(meta.node_size(), 16);
    assert_eq!(meta.num_nodes(), 4);
    assert_eq!(meta.level_bounds(), &[12, 16]);
    // header, four boxes of four i32 coordinates, four u16 indices
    assert_eq!(meta.data_buffer_length(), 8 + 4 * 4 * 4 + 4 * 2);

    let meta = RTreeMetadata::<u8>::new(10, 2);
    // levels of 10, 5, 3, 2, 1 nodes
    assert_eq!(meta.num_nodes(), 21);
    assert_eq!(meta.level_bounds(), &[40, 60, 72, 80, 84]);
    assert_eq!(meta.data_buffer_length(), 8 + 21 * 4 + 21 * 2);
}

#[test]
fn data_buffer_length_of_a_large_tree() {
    let meta = RTreeMetadata::<i32>::new(25000, 16);
    assert_eq!(meta.num_nodes(), 26669);
    // header, 26669 boxes of four i32 coordinates, 26669 u32 indices
    assert_eq!(meta.data_buffer_length(), 533_388);
}

#[test]
fn boxes_at_level() {
    let tree = three_boxes();
    assert_eq!(tree.num_levels(), 2);
    let leaves = tree.boxes_at_level(0).unwrap();
    assert_eq!(leaves.len(), 12);
    let root = tree.boxes_at_level(1).unwrap();
    assert_eq!(root, vec![0, 0, 8, 8]);
    assert_eq!(message(tree.boxes_at_level(2)), "Level out of bounds");
}

#[test]
fn header_errors() {
    let tree = three_boxes();
    let good = tree.into_inner();

    let mut bad = good.clone();
    bad[0] = 0xdb;
    assert_eq!(message(RTreeRef::<i32>::try_new(&bad)), "Data not in Flatbush format.");

    let mut bad = good.clone();
    bad[1] = (2 << 4) | (bad[1] & 0x0f);
    assert_eq!(message(RTreeRef::<i32>::try_new(&bad)), "Got v2 data when expected v3.");

    assert_eq!(
        message(RTreeRef::<u32>::try_new(&good)),
        "Got type 5 data when expected type 6."
    );

    let mut bad = good.clone();
    bad.push(0);
    assert_eq!(
        message(RTreeRef::<i32>::try_new(&bad)),
        format!("Incorrect buffer length. Expected {} got {}.", good.len(), good.len() + 1)
    );
}

#[test]
fn neighbors_in_order_of_distance() {
    let mut builder = RTreeBuilder::<i32>::new(3);
    builder.add(0, 0, 2, 2);
    builder.add(1, 1, 3, 3);
    builder.add(2, 2, 4, 4);
    let tree = builder.finish::<HilbertSort>();
    assert_eq!(tree.neighbors(5, 5, None, None), vec![2, 1, 0]);
    assert_eq!(tree.neighbors(5, 5, Some(2), None), vec![2, 1]);
    // 0 results asked for means no limit
    assert_eq!(tree.neighbors(5, 5, Some(0), None), vec![2, 1, 0]);
    let buffer = tree.into_inner();
    let tree_ref = RTreeRef::<i32>::try_new(&buffer).unwrap();
    assert_eq!(tree_ref.neighbors(5, 5, None, None), vec![2, 1, 0]);
}

#[test]
fn neighbors_within_max_distance() {
    let mut builder = RTreeBuilder::<i32>::new(3);
    builder.add(0, 0, 1, 1);
    builder.add(2, 2, 3, 3);
    builder.add(10, 10, 11, 11);
    let tree = builder.finish::<HilbertSort>();
    // distances from the origin: 0, 2.83 and 14.1
    assert_eq!(tree.neighbors(0, 0, None, Some(5)), vec![0, 1]);
    assert_eq!(tree.neighbors(0, 0, None, Some(3)), vec![0, 1]);
    assert_eq!(tree.neighbors(0, 0, None, Some(2)), vec![0]);
    assert_eq!(tree.neighbors(0, 0, None, Some(15)), vec![0, 1, 2]);
    assert_eq!(tree.neighbors(0, 0, None, Some(0)), vec![0]);
    assert_eq!(tree.neighbors(0, 0, None, Some(-1)), Vec::<u32>::new());
    assert_eq!(tree.neighbors(0, 0, None, None), vec![0, 1, 2]);
}

#[test]
fn neighbors_on_a_grid_are_sorted_by_distance() {
    let side = 10;
    let tree = grid(side, 4).finish::<STRSort>();
    let (px, py) = (7i64, 11i64);
    let found = tree.neighbors(7, 11, None, None);
    assert_eq!(found.len(), (side * side) as usize);
    let dist = |id: u32| {
        let (x, y) = ((id as i64 % side as i64) * 2, (id as i64 / side as i64) * 2);
        let dx = if px < x { x - px } else if px <= x + 1 { 0 } else { px - x - 1 };
        let dy = if py < y { y - py } else if py <= y + 1 { 0 } else { py - y - 1 };
        dx * dx + dy * dy
    };
    for w in found.windows(2) {
        assert!(dist(w[0]) <= dist(w[1]));
    }
    assert_eq!(sorted(found), (0..(side * side) as u32).collect::<Vec<u32>>());
}

struct Manhattan;

impl SimpleDistanceMetric<i32> for Manhattan {
    fn distance(&self, x1: i32, y1: i32, x2: i32, y2: i32) -> i32 {
        (x1 - x2).abs() + (y1 - y2).abs()
    }

    fn distance_to_bbox(&self, x: i32, y: i32, min_x: i32, min_y: i32, max_x: i32, max_y: i32) -> i32 {
        let dx = if x < min_x { min_x - x } else if x <= max_x { 0 } else { x - max_x };
        let dy = if y < min_y { min_y - y } else if y <= max_y { 0 } else { y - max_y };
        dx + dy
    }
}

#[test]
fn neighbors_with_a_metric_of_the_callers() {
    let mut builder = RTreeBuilder::<i32>::new(3);
    builder.add(0, 0, 1, 1);
    builder.add(2, 2, 3, 3);
    builder.add(10, 10, 11, 11);
    let tree = builder.finish::<HilbertSort>();
    assert_eq!(tree.neighbors_with_simple_distance(0, 0, None, None, &Manhattan), vec![0, 1, 2]);
    assert_eq!(tree.neighbors_with_simple_distance(0, 0, None, Some(4), &Manhattan), vec![0, 1]);
    assert_eq!(tree.neighbors_with_simple_distance(12, 12, Some(1), None, &Manhattan), vec![2]);
}

#[test]
fn neighbors_by_a_metric_report_each_item_once() {
    let side = 9;
    let tree = grid(side, 3).finish::<HilbertSort>();
    let found = tree.neighbors_with_simple_distance(3, 4, None, None, &Manhattan);
    assert_eq!(sorted(found), (0..(side * side) as u32).collect::<Vec<u32>>());
}

#[test]
fn spheroid_metric_is_grs80() {
    let _metric: SpheroidDistance = SpheroidDistance::grs80();
}

#[test]
fn owned_tree_reports_its_metadata() {
    let tree = grid(5, 3).finish::<HilbertSort>();
    assert_eq!(tree.num_items(), 25);
    assert_eq!(tree.node_size(), 3);
    assert_eq!(tree.metadata().num_items(), 25);
    // levels of 25, 9, 3, 1 nodes
    assert_eq!(tree.num_nodes(), 38);
    assert_eq!(tree.level_bounds(), &[100, 136, 148, 152]);
    assert_eq!(tree.num_levels(), 4);
}

#[test]
fn indices_get() {
    let tree = grid(3, 2).finish::<HilbertSort>();
    let buffer = tree.into_inner();
    let tree_ref = RTreeRef::<i32>::try_new(&buffer).unwrap();
    let _ = tree_ref.num_nodes();
    let indices = Indices::U16(vec![4, 2, 7]);
    assert_eq!(indices.len(), 3);
    assert!(!indices.is_empty());
    assert_eq!(indices.get(1), 2);
    let big = Indices::U32(vec![70000]);
    assert_eq!(big.get(0), 70000);
}

#[test]
fn hilbert_layout_of_three_points() {
    let mut builder = RTreeBuilder::<i32>::new_with_node_size(3, 2);
    builder.add(10, 0, 10, 0);
    builder.add(0, 0, 0, 0);
    builder.add(0, 10, 0, 10);
    let tree = builder.finish::<HilbertSort>();
    assert_eq!(
        tree.boxes(),
        &vec![0i64, 10, 0, 10, 0, 0, 0, 0, 10, 0, 10, 0, 0, 0, 0, 10, 10, 0, 10, 0, 0, 0, 10, 10]
    );
    let indices: Vec<usize> = (0..6).map(|i| tree.indices().get(i)).collect();
    assert_eq!(indices, vec![2, 1, 0, 0, 8, 12]);
    assert_eq!(tree.level_bounds(), &[12, 20, 24]);
    assert_eq!(tree.num_nodes(), 6);
}
