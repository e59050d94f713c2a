use geo_index::indices::Indices;
use geo_index::kdtree::{KDTree, KDTreeBuilder, KDTreeMetadata, KDTreeRef, DEFAULT_KDTREE_NODE_SIZE};
use geo_index::GeoIndexError;

fn message<T>(r: Result<T, GeoIndexError>) -> String {
    match r {
        Ok(_) => panic!("expected an error"),
        Err(GeoIndexError::General(s)) => s,
    }
}

fn points() -> Vec<(i32, i32)> {
    let coords: Vec<[i32; 2]> = vec![
        [54, 1], [97, 21], [65, 35], [33, 54], [95, 39], [54, 3], [53, 54], [84, 72], [33, 34],
        [43, 15], [52, 83], [81, 23], [1, 61], [38, 74], [11, 91], [24, 56], [90, 31], [25, 57],
        [46, 61], [29, 69], [49, 60], [4, 98], [71, 15], [60, 25], [38, 84], [52, 38], [94, 51],
        [13, 25], [77, 73], [88, 87], [6, 27], [58, 22], [53, 28], [27, 91], [96, 98], [93, 14],
        [22, 93], [45, 94], [18, 28], [35, 15], [19, 81], [20, 81], [67, 53], [43, 3], [47, 66],
        [48, 34], [46, 12], [32, 38], [43, 12], [39, 94], [88, 62], [66, 14], [84, 30], [72, 81],
        [41, 92], [26, 4], [6, 76], [47, 21], [57, 70], [71, 82], [50, 68], [96, 18], [40, 31],
        [78, 53], [71, 90], [32, 14], [55, 6], [32, 88], [62, 32], [21, 67], [73, 81], [44, 64],
        [29, 50], [70, 5], [6, 22], [68, 3], [11, 23], [20, 42], [21, 73], [63, 86], [9, 40],
        [99, 2], [99, 76], [56, 77], [83, 6], [21, 72], [78, 30], [75, 53], [41, 11], [95, 20],
        [30, 38], [96, 82], [65, 48], [33, 18], [87, 28], [10, 10], [40, 34], [10, 20], [47, 29],
        [46, 78],
    ];
    coords.into_iter().map(|[x, y]| (x, y)).collect()
}

fn ids() -> Vec<u16> {
    vec![
        97, 74, 95, 30, 77, 38, 76, 27, 80, 55, 72, 90, 88, 48, 43, 46, 65, 39, 62, 93, 9, 96, 47,
        8, 3, 12, 15, 14, 21, 41, 36, 40, 69, 56, 85, 78, 17, 71, 44, 19, 18, 13, 99, 24, 67, 33,
        37, 49, 54, 57, 98, 45, 23, 31, 66, 68, 0, 32, 5, 51, 75, 73, 84, 35, 81, 22, 61, 89, 1,
        11, 86, 52, 94, 16, 2, 6, 25, 92, 42, 20, 60, 58, 83, 79, 64, 10, 59, 53, 26, 87, 4, 63,
        50, 7, 28, 82, 70, 29, 34, 91,
    ]
}

fn coords() -> Vec<i32> {
    vec![
        10, 20, 6, 22, 10, 10, 6, 27, 20, 42, 18, 28, 11, 23, 13, 25, 9, 40, 26, 4, 29, 50, 30, 38,
        41, 11, 43, 12, 43, 3, 46, 12, 32, 14, 35, 15, 40, 31, 33, 18, 43, 15, 40, 34, 32, 38, 33,
        34, 33, 54, 1, 61, 24, 56, 11, 91, 4, 98, 20, 81, 22, 93, 19, 81, 21, 67, 6, 76, 21, 72,
        21, 73, 25, 57, 44, 64, 47, 66, 29, 69, 46, 61, 38, 74, 46, 78, 38, 84, 32, 88, 27, 91, 45,
        94, 39, 94, 41, 92, 47, 21, 47, 29, 48, 34, 60, 25, 58, 22, 55, 6, 62, 32, 54, 1, 53, 28,
        54, 3, 66, 14, 68, 3, 70, 5, 83, 6, 93, 14, 99, 2, 71, 15, 96, 18, 95, 20, 97, 21, 81, 23,
        78, 30, 84, 30, 87, 28, 90, 31, 65, 35, 53, 54, 52, 38, 65, 48, 67, 53, 49, 60, 50, 68, 57,
        70, 56, 77, 63, 86, 71, 90, 52, 83, 71, 82, 72, 81, 94, 51, 75, 53, 95, 39, 78, 53, 88, 62,
        84, 72, 77, 73, 99, 76, 73, 81, 88, 87, 96, 98, 96, 82,
    ]
}

fn make_index() -> KDTree<i32> {
    let points = points();
    let mut builder = KDTreeBuilder::<i32>::new_with_node_size(points.len() as u32, 10);
    for (x, y) in points {
        builder.add(x, y);
    }
    builder.finish()
}

fn sq_dist(ax: i32, ay: i32, bx: i32, by: i32) -> i64 {
    let dx = (ax - bx) as i64;
    let dy = (ay - by) as i64;
    dx * dx + dy * dy
}

#[test]
fn creates_an_index() {
    let index = make_index();
    let tree_ids = match index.indices() {
        Indices::U16(arr) => arr.clone(),
        Indices::U32(_) => panic!("expected u16 ids"),
    };
    let tree_coords = index.coords();

    assert_eq!(tree_ids, ids(), "ids are kd-sorted");
    assert_eq!(tree_coords, coords(), "coords are kd-sorted");
}

#[test]
fn range_search() {
    let index = make_index();
    let (min_x, min_y, max_x, max_y) = (20, 30, 50, 70);

    let result = index.range(min_x, min_y, max_x, max_y);
    let expected_ids = vec![60, 20, 45, 3, 17, 71, 44, 19, 18, 15, 69, 90, 62, 96, 47, 8, 77, 72];
    assert_eq!(result, expected_ids, "returns ids");

    let points = points();
    for id in result.iter() {
        let (x, y) = points[*id as usize];
        if x < min_x || x > max_x || y < min_y || y > max_y {
            panic!("result point in range");
        }
    }
    for id in ids() {
        let (x, y) = points[id as usize];
        if !result.contains(&(id as u32)) && x >= min_x && x <= max_x && y >= min_y && y <= max_y {
            panic!("outside point not in range");
        }
    }
}

#[test]
fn radius_search() {
    let index = make_index();
    let (qx, qy) = (50, 50);
    let r = 20;
    let r2 = (r as i64) * (r as i64);

    let result = index.within(qx, qy, r);
    let expected_ids = vec![60, 6, 25, 92, 42, 20, 45, 3, 71, 44, 18, 96];
    assert_eq!(result, expected_ids, "returns ids");

    let points = points();
    for id in result.iter() {
        let (x, y) = points[*id as usize];
        if sq_dist(x, y, qx, qy) > r2 {
            panic!("result point in range");
        }
    }
    for id in ids() {
        let (x, y) = points[id as usize];
        if !result.contains(&(id as u32)) && sq_dist(x, y, qx, qy) <= r2 {
            panic!("outside point not in range");
        }
    }
}

#[test]
fn reads_back_from_bytes() {
    let index = make_index();
    let expected_range = index.range(20, 30, 50, 70);
    let expected_within = index.within(50, 50, 20);
    let buffer = index.into_inner();
    let tree = KDTreeRef::<i32>::try_new(&buffer).unwrap();
    assert_eq!(tree.num_items(), 100);
    assert_eq!(tree.node_size(), 10);
    assert_eq!(tree.coords(), coords());
    assert_eq!(tree.range(20, 30, 50, 70), expected_range);
    assert_eq!(tree.within(50, 50, 20), expected_within);
}

#[test]
fn kd_metadata_sizes() {
    let meta = KDTreeMetadata::<i32>::new(100, 10);
    assert_eq!(meta.num_items(), 100);
    assert_eq!(meta.node_size(), 10);
    // header, 100 u16 ids (200 bytes, already a multiple of 8), 200 i32 coordinates
    assert_eq!(meta.data_buffer_length(), 8 + 200 + 800);

    let meta = KDTreeMetadata::<i32>::new(25000, 16);
    assert_eq!(meta.data_buffer_length(), 250_008);

    let meta = KDTreeMetadata::<u8>::new(3, 64);
    // header, 3 u16 ids padded to 8 bytes, 6 u8 coordinates
    assert_eq!(meta.data_buffer_length(), 8 + 8 + 6);
}

#[test]
fn kd_header_errors() {
    let good = make_index().into_inner();

    let mut bad = good.clone();
    bad[0] = 0xfb;
    assert_eq!(message(KDTreeRef::<i32>::try_new(&bad)), "Data not in Kdbush format.");
    assert_eq!(message(KDTreeMetadata::<i32>::from_slice(&bad)), "Data not in Kdbush format.");

    let mut bad = good.clone();
    bad[1] = (3 << 4) | (bad[1] & 0x0f);
    assert_eq!(message(KDTreeRef::<i32>::try_new(&bad)), "Got v3 data when expected v1.");

    assert_eq!(message(KDTreeRef::<u32>::try_new(&good)), "Got type 5 data when expected type 6.");

    let mut bad = good.clone();
    bad.pop();
    assert_eq!(
        message(KDTreeRef::<i32>::try_new(&bad)),
        format!("Expected {} bytes but received byte slice with {} bytes", good.len(), good.len() - 1)
    );
}

#[test]
fn builder_reports_its_metadata() {
    let mut builder = KDTreeBuilder::<u16>::new(2);
    assert_eq!(builder.metadata().node_size(), DEFAULT_KDTREE_NODE_SIZE);
    assert_eq!(builder.add(5, 6), 0);
    assert_eq!(builder.add(1, 2), 1);
    let tree = builder.finish();
    assert_eq!(tree.num_items(), 2);
    assert_eq!(tree.range(0, 0, 3, 3), vec![1]);
    assert_eq!(tree.within(5, 5, 1), vec![0]);
    assert_eq!(tree.metadata().num_items(), 2);
}

#[test]
fn large_tree_uses_u32_ids() {
    let n: u32 = 70000;
    let mut builder = KDTreeBuilder::<i32>::new(n);
    for i in 0..n as i32 {
        builder.add(i % 300, i / 300);
    }
    let tree = builder.finish();
    assert!(matches!(tree.indices(), Indices::U32(_)));
    let mut found = tree.range(10, 10, 12, 11);
    found.sort();
    assert_eq!(found, vec![3010, 3011, 3012, 3310, 3311, 3312]);
}

#[test]
fn kd_tree_read_without_checking_the_header() {
    let index = make_index();
    let metadata = KDTreeMetadata::<i32>::new(100, 10);
    let buffer = index.into_inner();
    let tree = KDTreeRef::<i32>::new_unchecked(&buffer, metadata).unwrap();
    assert_eq!(tree.coords(), coords());
    assert_eq!(tree.within(50, 50, 20), vec![60, 6, 25, 92, 42, 20, 45, 3, 71, 44, 18, 96]);
}

#[test]
fn deep_tree_queries_find_every_point() {
    // node size 2 over a 100 x 100 grid makes the query's stack of ranges deeper than the 33
    // entries that it keeps inline
    let side = 100i32;
    let mut builder = KDTreeBuilder::<i32>::new_with_node_size((side * side) as u32, 2);
    for y in 0..side {
        for x in 0..side {
            builder.add(x, y);
        }
    }
    let tree = builder.finish();
    let mut all = tree.range(0, 0, side - 1, side - 1);
    all.sort();
    assert_eq!(all, (0..(side * side) as u32).collect::<Vec<u32>>());
    let mut corner = tree.range(0, 0, 1, 1);
    corner.sort();
    assert_eq!(corner, vec![0, 1, 100, 101]);
    let mut near = tree.within(50, 50, 1);
    near.sort();
    assert_eq!(near, vec![4950, 5049, 5050, 5051, 5150]);
}
