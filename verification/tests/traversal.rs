use geo_index::kdtree::KDTreeBuilder;
use geo_index::rtree::sort::HilbertSort;
use geo_index::rtree::{ItemDistanceMetric, OwnedRTree, RTreeBuilder, RTreeIndex, RTreeRef};

/// A grid of `side * side` boxes of width `w`, one per cell of size 2, row by row.
fn grid_tree(side: i32, w: i32, node_size: u16) -> OwnedRTree<i32> {
    let mut builder = RTreeBuilder::<i32>::new_with_node_size((side * side) as u32, node_size);
    for y in 0..side {
        for x in 0..side {
            builder.add(2 * x, 2 * y, 2 * x + w, 2 * y + w);
        }
    }
    builder.finish::<HilbertSort>()
}

fn cell_box(side: i32, w: i32, id: u32) -> (i32, i32, i32, i32) {
    let (x, y) = ((id as i32) % side, (id as i32) / side);
    (2 * x, 2 * y, 2 * x + w, 2 * y + w)
}

fn meet(a: (i32, i32, i32, i32), b: (i32, i32, i32, i32)) -> bool {
    !(a.2 < b.0 || a.3 < b.1 || a.0 > b.2 || a.1 > b.3)
}

#[test]
fn root_node_matches_the_top_level() {
    let tree = grid_tree(10, 1, 4);
    let top = tree.num_levels() - 1;
    let top_box = tree.boxes_at_level(top).unwrap();
    assert_eq!(top_box.len(), 4);

    let root = tree.root();
    assert_eq!(root.min_x(), top_box[0]);
    assert_eq!(root.min_y(), top_box[1]);
    assert_eq!(root.max_x(), top_box[2]);
    assert_eq!(root.max_y(), top_box[3]);
    assert_eq!(root.min().x(), top_box[0]);
    assert_eq!(root.max().y(), top_box[3]);
    assert!(root.is_parent());

    let level_below = tree.boxes_at_level(top - 1).unwrap();
    let children = root.children();
    assert_eq!(children.len(), level_below.len() / 4);
    for (i, child) in children.iter().enumerate() {
        assert_eq!(child.min_x(), level_below[4 * i]);
        assert!(root.intersects(child));
    }
}

#[test]
fn descending_to_the_leaves_finds_every_item() {
    let tree = grid_tree(7, 1, 3);
    let mut stack = vec![tree.root()];
    let mut found = vec![];
    while let Some(node) = stack.pop() {
        if node.is_leaf() {
            found.push(node.index());
        } else {
            stack.extend(node.children());
        }
    }
    found.sort();
    assert_eq!(found, (0..49).collect::<Vec<usize>>());
}

#[test]
fn join_finds_every_intersecting_pair() {
    let left = grid_tree(6, 1, 3);
    let right = grid_tree(5, 2, 4);
    let mut pairs = left.intersection_candidates_with_other_tree(&right);
    pairs.sort();
    let mut expected = vec![];
    for a in 0..36u32 {
        for b in 0..25u32 {
            if meet(cell_box(6, 1, a), cell_box(5, 2, b)) {
                expected.push((a, b));
            }
        }
    }
    assert_eq!(pairs, expected);
}

#[test]
fn self_join_of_a_tree_read_from_bytes() {
    let tree = grid_tree(4, 2, 2);
    let buffer = tree.into_inner();
    let tree_ref = RTreeRef::<i32>::try_new(&buffer).unwrap();
    let mut pairs = tree_ref.intersection_candidates_with_other_tree(&tree_ref);
    pairs.sort();
    let mut expected = vec![];
    for a in 0..16u32 {
        for b in 0..16u32 {
            if meet(cell_box(4, 2, a), cell_box(4, 2, b)) {
                expected.push((a, b));
            }
        }
    }
    assert_eq!(pairs, expected);
    assert_eq!(tree_ref.boxes().len(), 4 * tree_ref.num_nodes());
    assert_eq!(tree_ref.indices().len(), tree_ref.num_nodes());
}

#[test]
fn join_with_a_single_item_tree() {
    let mut builder = RTreeBuilder::<i32>::new(1);
    builder.add(3, 3, 5, 5);
    let single = builder.finish::<HilbertSort>();
    let grid = grid_tree(4, 1, 4);
    let mut pairs = grid.intersection_candidates_with_other_tree(&single);
    pairs.sort();
    // cells (1, 1), (2, 1), (1, 2), (2, 2) reach into [3, 5] x [3, 5]
    assert_eq!(pairs, vec![(5, 0), (6, 0), (9, 0), (10, 0)]);
}

/// Items measured by the distance of their number from a target number; nodes count as near.
struct ByNumber {
    target: i32,
}

impl ItemDistanceMetric<i32> for ByNumber {
    fn distance_to_node(&self, _min_x: i32, _min_y: i32, _max_x: i32, _max_y: i32) -> i32 {
        0
    }

    fn distance_to_item(&self, index: usize, _min_x: i32, _min_y: i32, _max_x: i32, _max_y: i32) -> i32 {
        (index as i32 - self.target).abs()
    }

    fn max_distance(&self) -> i32 {
        i32::MAX
    }
}

#[test]
fn neighbors_by_item_distance() {
    let tree = grid_tree(5, 1, 4);
    let found = tree.neighbors_with_item_distance(Some(3), None, &ByNumber { target: 12 });
    assert_eq!(found[0], 12);
    let mut rest = found[1..].to_vec();
    rest.sort();
    assert_eq!(rest, vec![11, 13]);
    let within = tree.neighbors_with_item_distance(None, Some(1), &ByNumber { target: 0 });
    assert_eq!(within, vec![0, 1]);
}

#[test]
fn builders_count_what_was_added() {
    let mut builder = RTreeBuilder::<i32>::new(2);
    assert_eq!(builder.num_added(), 0);
    builder.add(0, 0, 1, 1);
    assert_eq!(builder.num_added(), 1);
    let mut kd = KDTreeBuilder::<i32>::new(2);
    kd.add(1, 1);
    assert_eq!(kd.num_added(), 1);
}

#[test]
fn kd_nodes_split_at_the_middle_point() {
    let mut builder = KDTreeBuilder::<i32>::new_with_node_size(20, 2);
    for i in 0..20 {
        builder.add((i * 7) % 20, i);
    }
    let tree = builder.finish();
    let root = tree.root();
    assert!(root.is_parent());
    assert_eq!(root.min().x(), i32::MAX);
    assert_eq!(root.max().x(), i32::MIN);
    let middle = root.middle_insertion_index().unwrap();
    let left = root.left_child().unwrap();
    let right = root.right_child().unwrap();
    // the middle point's x bounds the halves
    let coords = tree.coords();
    let m = 19 / 2;
    assert_eq!(left.max().x(), coords[2 * m]);
    assert_eq!(right.min().x(), coords[2 * m]);
    assert_eq!(middle, match tree.indices() {
        geo_index::indices::Indices::U16(v) => v[m] as u32,
        geo_index::indices::Indices::U32(v) => v[m],
    });

    // every point is in exactly one leaf or is the middle of a parent
    let mut stack = vec![root];
    let mut seen = vec![];
    while let Some(node) = stack.pop() {
        match node.leaf_insertion_indices() {
            Some(ids) => seen.extend(ids),
            None => {
                seen.push(node.middle_insertion_index().unwrap());
                stack.push(node.left_child().unwrap());
                stack.push(node.right_child().unwrap());
            }
        }
    }
    seen.sort();
    assert_eq!(seen, (0..20).collect::<Vec<u32>>());
}

#[test]
fn node_corners_by_position() {
    let tree = grid_tree(3, 1, 4);
    let root = tree.root();
    let min = root.min();
    let max = root.max();
    assert_eq!(min.nth_or_panic(0), min.x());
    assert_eq!(min.nth_or_panic(1), min.y());
    assert_eq!((max.nth_or_panic(0), max.nth_or_panic(1)), (5, 5));
    assert_eq!((min.x(), min.y()), (0, 0));
}
