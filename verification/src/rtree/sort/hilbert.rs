//! Sorting by the Hilbert value of the box centers.
use vstd::prelude::*;
use vstd::arithmetic::div_mod::lemma_div_is_ordered;

use crate::indices::MutableIndices;
use crate::num::IndexableNum;
use crate::rtree::sort::params::{center_sums_fit, sort_inputs, Sort, SortParams};
use crate::rtree::sort::util::{
    block_quicksort, blocks_sorted, ints, keyed, keys_of, lemma_rearranged_bound,
    lemma_rearranged_join, lemma_rearranged_trans, median_of_three, partition, rearranged,
    SortState,
};

verus! {

/// Hilbert sorting: boxes ordered by the Hilbert curve value of their centers, as the
/// [flatbush](https://github.com/mourner/flatbush) JavaScript library orders them. The Hilbert
/// values follow [a C++ implementation](https://github.com/rawrunprotected/hilbert_curves).
pub struct HilbertSort;

/// The position of a box center on one axis of the `65536`-cell Hilbert grid: the exact value of
/// `floor(65535 * ((lo + hi) / 2 - min) / (max - min))`, saturated to `0..=u32::MAX`, where a zero
/// extent gives `0` for a center at `min` (`0 / 0`) and saturates otherwise.
pub open spec fn grid_coord(lo: int, hi: int, min: int, max: int) -> nat {
    let num0 = 65535 * (lo + hi - 2 * min);
    let den0 = 2 * (max - min);
    let num = if den0 < 0 {
        -num0
    } else {
        num0
    };
    let den = if den0 < 0 {
        -den0
    } else {
        den0
    };
    if num <= 0 {
        0
    } else if den == 0 {
        u32::MAX as nat
    } else if num / den > u32::MAX {
        u32::MAX as nat
    } else {
        (num / den) as nat
    }
}

/// For a box center `(lo + hi) / 2` inside an extent `min..=max` of positive width, the grid
/// coordinate `g` is the floor of `65535 * (center - min) / (max - min)`: `g` scaled back by
/// the width is at most the center's offset from `min` (scaled by `65535`), and `g + 1` is past
/// it. So the center at `min` is cell `0` and the center at `max` is cell `65535`.
pub proof fn lemma_grid_coord_scales_offset(lo: int, hi: int, min: int, max: int)
    requires
        min < max,
        2 * min <= lo + hi <= 2 * max,
    ensures
        grid_coord(lo, hi, min, max) <= 65535,
        2 * (max - min) * grid_coord(lo, hi, min, max) <= 65535 * (lo + hi - 2 * min),
        65535 * (lo + hi - 2 * min) < 2 * (max - min) * (grid_coord(lo, hi, min, max) + 1),
        lo + hi == 2 * min ==> grid_coord(lo, hi, min, max) == 0,
        lo + hi == 2 * max ==> grid_coord(lo, hi, min, max) == 65535,
{
    let num = 65535 * (lo + hi - 2 * min);
    let den = 2 * (max - min);
    if num > 0 {
        let q = num / den;
        assert(den * q <= num < den * (q + 1)) by (nonlinear_arith)
            requires
                den > 0,
                q == num / den,
        ;
        assert(q <= 65535) by (nonlinear_arith)
            requires
                den > 0,
                den * q <= num,
                num <= 65535 * den,
        ;
        assert(grid_coord(lo, hi, min, max) == q);
        assert(2 * (max - min) * (q + 1) == den * (q + 1));
        assert(2 * (max - min) * q == den * q);
        if lo + hi == 2 * max {
            assert(q == 65535) by (nonlinear_arith)
                requires
                    den > 0,
                    num == 65535 * den,
                    q == num / den,
            ;
        }
    } else {
        assert(grid_coord(lo, hi, min, max) == 0);
        assert(2 * (max - min) * (0 + 1) == den && 2 * (max - min) * 0 == 0) by (nonlinear_arith)
            requires
                den == 2 * (max - min),
        ;
    }
}

/// The grid coordinate of a box center depends only on where the center lies in the extent:
/// moving the box and the extent together by `t` leaves it unchanged.
pub proof fn lemma_grid_coord_translate(lo: int, hi: int, min: int, max: int, t: int)
    ensures
        grid_coord(lo + t, hi + t, min + t, max + t) == grid_coord(lo, hi, min, max),
{
    assert(lo + t + hi + t - 2 * (min + t) == lo + hi - 2 * min);
    assert(max + t - (min + t) == max - min);
}

/// The Hilbert value of a cell of the `65536 x 65536` grid, by the branch-free algorithm of
/// http://threadlocalmutex.com/ (from https://github.com/rawrunprotected/hilbert_curves).
pub open spec fn hilbert_spec(x: u32, y: u32) -> u32 {
    let a0 = x ^ y;
    let b0 = 0xFFFFu32 ^ a0;
    let c0 = 0xFFFFu32 ^ (x | y);
    let d0 = x & (y ^ 0xFFFFu32);
    let a1 = a0 | (b0 >> 1u32);
    let b1 = (a0 >> 1u32) ^ a0;
    let c1 = ((c0 >> 1u32) ^ (b0 & (d0 >> 1u32))) ^ c0;
    let d1 = ((a0 & (c0 >> 1u32)) ^ (d0 >> 1u32)) ^ d0;
    let a2 = (a1 & (a1 >> 2u32)) ^ (b1 & (b1 >> 2u32));
    let b2 = (a1 & (b1 >> 2u32)) ^ (b1 & ((a1 ^ b1) >> 2u32));
    let c2 = c1 ^ ((a1 & (c1 >> 2u32)) ^ (b1 & (d1 >> 2u32)));
    let d2 = d1 ^ ((b1 & (c1 >> 2u32)) ^ ((a1 ^ b1) & (d1 >> 2u32)));
    let a3 = (a2 & (a2 >> 4u32)) ^ (b2 & (b2 >> 4u32));
    let b3 = (a2 & (b2 >> 4u32)) ^ (b2 & ((a2 ^ b2) >> 4u32));
    let c3 = c2 ^ ((a2 & (c2 >> 4u32)) ^ (b2 & (d2 >> 4u32)));
    let d3 = d2 ^ ((b2 & (c2 >> 4u32)) ^ ((a2 ^ b2) & (d2 >> 4u32)));
    let c4 = c3 ^ ((a3 & (c3 >> 8u32)) ^ (b3 & (d3 >> 8u32)));
    let d4 = d3 ^ ((b3 & (c3 >> 8u32)) ^ ((a3 ^ b3) & (d3 >> 8u32)));
    let a5 = c4 ^ (c4 >> 1u32);
    let b5 = d4 ^ (d4 >> 1u32);
    let i0 = x ^ y;
    let i1 = b5 | (0xFFFFu32 ^ (i0 | a5));
    let i0 = (i0 | (i0 << 8u32)) & 0x00FF_00FFu32;
    let i0 = (i0 | (i0 << 4u32)) & 0x0F0F_0F0Fu32;
    let i0 = (i0 | (i0 << 2u32)) & 0x3333_3333u32;
    let i0 = (i0 | (i0 << 1u32)) & 0x5555_5555u32;
    let i1 = (i1 | (i1 << 8u32)) & 0x00FF_00FFu32;
    let i1 = (i1 | (i1 << 4u32)) & 0x0F0F_0F0Fu32;
    let i1 = (i1 | (i1 << 2u32)) & 0x3333_3333u32;
    let i1 = (i1 | (i1 << 1u32)) & 0x5555_5555u32;
    (i1 << 1u32) | i0
}

/// The Hilbert value of the center of a box, for boxes spanning `min_x..max_x` by
/// `min_y..max_y`.
pub open spec fn box_hilbert_value(
    min_x: int,
    min_y: int,
    max_x: int,
    max_y: int,
    bx0: int,
    by0: int,
    bx1: int,
    by1: int,
) -> int {
    hilbert_spec(
        grid_coord(bx0, bx1, min_x, max_x) as u32,
        grid_coord(by0, by1, min_y, max_y) as u32,
    ) as int
}

/// The key by which a Hilbert sort with the given extent orders boxes.
pub open spec fn hilbert_key(min_x: int, min_y: int, max_x: int, max_y: int) -> spec_fn(
    int,
    int,
    int,
    int,
) -> int {
    |a: int, b: int, c: int, d: int| box_hilbert_value(min_x, min_y, max_x, max_y, a, b, c, d)
}

/// The position of a box center on one axis of the Hilbert grid.
fn grid_coordinate(lo: i64, hi: i64, min: i64, max: i64) -> (r: u32)
    requires
        -0x1_0000_0000 <= lo <= 0x1_0000_0000,
        -0x1_0000_0000 <= hi <= 0x1_0000_0000,
        -0x1_0000_0000 <= min <= 0x1_0000_0000,
        -0x1_0000_0000 <= max <= 0x1_0000_0000,
    ensures
        r == grid_coord(lo as int, hi as int, min as int, max as int),
        min < max && 2 * min <= lo + hi <= 2 * max ==> 2 * (max - min) * r <= 65535 * (lo + hi - 2
            * min) < 2 * (max - min) * (r + 1),
{
    proof {
        if min < max && 2 * min <= lo + hi <= 2 * max {
            lemma_grid_coord_scales_offset(lo as int, hi as int, min as int, max as int);
        }
    }
    let mut num: i64 = 65535 * (lo + hi - 2 * min);
    let mut den: i64 = 2 * (max - min);
    if den < 0 {
        num = -num;
        den = -den;
    }
    if num <= 0 {
        0
    } else if den == 0 {
        u32::MAX
    } else {
        let q = num / den;
        if q > u32::MAX as i64 {
            u32::MAX
        } else {
            q as u32
        }
    }
}

// Taken from static_aabb2d_index under the mit/apache license
// https://github.com/jbuckmccready/static_aabb2d_index/blob/9e6add59d77b74d4de0ac32159db47fbcb3acc28/src/static_aabb2d_index.rs#L486C1-L544C2
fn hilbert(x: u32, y: u32) -> (r: u32)
    ensures
        r == hilbert_spec(x, y),
{
    // Fast Hilbert curve algorithm by http://threadlocalmutex.com/
    // after the public-domain C++ hilbert_curves of https://github.com/rawrunprotected
    let mut a_1 = x ^ y;
    let mut b_1 = 0xFFFF ^ a_1;
    let mut c_1 = 0xFFFF ^ (x | y);
    let mut d_1 = x & (y ^ 0xFFFF);

    let mut a_2 = a_1 | (b_1 >> 1);
    let mut b_2 = (a_1 >> 1) ^ a_1;
    let mut c_2 = ((c_1 >> 1) ^ (b_1 & (d_1 >> 1))) ^ c_1;
    let mut d_2 = ((a_1 & (c_1 >> 1)) ^ (d_1 >> 1)) ^ d_1;

    a_1 = a_2;
    b_1 = b_2;
    c_1 = c_2;
    d_1 = d_2;
    a_2 = (a_1 & (a_1 >> 2)) ^ (b_1 & (b_1 >> 2));
    b_2 = (a_1 & (b_1 >> 2)) ^ (b_1 & ((a_1 ^ b_1) >> 2));
    c_2 ^= (a_1 & (c_1 >> 2)) ^ (b_1 & (d_1 >> 2));
    d_2 ^= (b_1 & (c_1 >> 2)) ^ ((a_1 ^ b_1) & (d_1 >> 2));

    a_1 = a_2;
    b_1 = b_2;
    c_1 = c_2;
    d_1 = d_2;
    a_2 = (a_1 & (a_1 >> 4)) ^ (b_1 & (b_1 >> 4));
    b_2 = (a_1 & (b_1 >> 4)) ^ (b_1 & ((a_1 ^ b_1) >> 4));
    c_2 ^= (a_1 & (c_1 >> 4)) ^ (b_1 & (d_1 >> 4));
    d_2 ^= (b_1 & (c_1 >> 4)) ^ ((a_1 ^ b_1) & (d_1 >> 4));

    a_1 = a_2;
    b_1 = b_2;
    c_1 = c_2;
    d_1 = d_2;
    c_2 ^= (a_1 & (c_1 >> 8)) ^ (b_1 & (d_1 >> 8));
    d_2 ^= (b_1 & (c_1 >> 8)) ^ ((a_1 ^ b_1) & (d_1 >> 8));

    a_1 = c_2 ^ (c_2 >> 1);
    b_1 = d_2 ^ (d_2 >> 1);

    let mut i0 = x ^ y;
    let mut i1 = b_1 | (0xFFFF ^ (i0 | a_1));

    i0 = (i0 | (i0 << 8)) & 0x00FF_00FF;
    i0 = (i0 | (i0 << 4)) & 0x0F0F_0F0F;
    i0 = (i0 | (i0 << 2)) & 0x3333_3333;
    i0 = (i0 | (i0 << 1)) & 0x5555_5555;

    i1 = (i1 | (i1 << 8)) & 0x00FF_00FF;
    i1 = (i1 | (i1 << 4)) & 0x0F0F_0F0F;
    i1 = (i1 | (i1 << 2)) & 0x3333_3333;
    i1 = (i1 | (i1 << 1)) & 0x5555_5555;

    (i1 << 1) | i0
}

/// The first `n` boxes are sorted by their Hilbert value across blocks of `ns` boxes: a box in
/// an earlier block never has a larger Hilbert value than a box in a later block.
pub open spec fn hilbert_blocks_sorted<N: IndexableNum>(params: SortParams<N>, boxes: Seq<int>) -> bool {
    let key = hilbert_key(
        params.min_x.value(),
        params.min_y.value(),
        params.max_x.value(),
        params.max_y.value(),
    );
    forall|a: int, b: int|
        0 <= a <= b < params.num_items && a / (params.node_size as int) < b / (
        params.node_size as int) ==> #[trigger] key(boxes[4 * a], boxes[4 * a + 1], boxes[4 * a + 2], boxes[4 * a + 3])
            <= #[trigger] key(boxes[4 * b], boxes[4 * b + 1], boxes[4 * b + 2], boxes[4 * b + 3])
}

impl<N: IndexableNum> Sort<N> for HilbertSort {
    /// The centers' sums and the extents' widths and heights are values of `N`.
    open spec fn fits(min_x: int, min_y: int, max_x: int, max_y: int, leaves: Seq<int>) -> bool {
        &&& center_sums_fit::<N>(leaves)
        &&& N::spec_min() <= max_x - min_x <= N::spec_max()
        &&& N::spec_min() <= max_y - min_y <= N::spec_max()
    }

    /// Sorted by Hilbert value across nodes.
    open spec fn sorted(params: SortParams<N>, leaves: Seq<int>) -> bool {
        hilbert_blocks_sorted(params, leaves)
    }

    /// The boxes with their indices after the quicksort of their Hilbert values.
    open spec fn arrangement(params: SortParams<N>, boxes: Seq<int>, indices: Seq<nat>) -> (
        Seq<int>,
        Seq<nat>,
    ) {
        let key = hilbert_key(
            params.min_x.value(),
            params.min_y.value(),
            params.max_x.value(),
            params.max_y.value(),
        );
        let s = block_quicksort(
            (keys_of(boxes, params.num_items as int, key), boxes, indices),
            0,
            params.num_items - 1,
            params.node_size as int,
            true,
        );
        (s.1, s.2)
    }

    fn sort(params: &SortParams<N>, boxes: &mut Vec<i64>, indices: &mut MutableIndices) {
        let pmin_x = params.min_x.to_i64();
        let pmin_y = params.min_y.to_i64();
        let pmax_x = params.max_x.to_i64();
        let pmax_y = params.max_y.to_i64();
        let ghost key = hilbert_key(pmin_x as int, pmin_y as int, pmax_x as int, pmax_y as int);
        let mut hilbert_values: Vec<i64> = Vec::new();
        proof {
            N::lemma_layout();
            crate::bytes::lemma_pow256_facts();
        }
        // map item centers into Hilbert coordinate space and calculate Hilbert values
        let mut k: usize = 0;
        let bl = boxes.len();
        while k < params.num_items
            invariant
                bl == boxes@.len(),
                k <= params.num_items,
                sort_inputs::<N>(*params, ints(boxes@), indices@),
                hilbert_values@.len() == k,
                N::spec_min() >= -0x1_0000_0000,
                N::spec_max() <= 0x1_0000_0000,
                pmin_x == params.min_x.value(),
                pmin_y == params.min_y.value(),
                pmax_x == params.max_x.value(),
                pmax_y == params.max_y.value(),
                N::spec_min() <= pmin_x <= N::spec_max(),
                N::spec_min() <= pmin_y <= N::spec_max(),
                N::spec_min() <= pmax_x <= N::spec_max(),
                N::spec_min() <= pmax_y <= N::spec_max(),
                key == hilbert_key(pmin_x as int, pmin_y as int, pmax_x as int, pmax_y as int),
                forall|t: int|
                    0 <= t < k ==> #[trigger] hilbert_values@[t] == key(
                        ints(boxes@)[4 * t],
                        ints(boxes@)[4 * t + 1],
                        ints(boxes@)[4 * t + 2],
                        ints(boxes@)[4 * t + 3],
                    ),
            decreases params.num_items - k,
        {
            let pos = 4 * k;
            proof {
                assert(N::spec_min() <= ints(boxes@)[pos as int] <= N::spec_max());
                assert(N::spec_min() <= ints(boxes@)[pos + 1] <= N::spec_max());
                assert(N::spec_min() <= ints(boxes@)[pos + 2] <= N::spec_max());
                assert(N::spec_min() <= ints(boxes@)[pos + 3] <= N::spec_max());
            }
            let x = grid_coordinate(boxes[pos], boxes[pos + 2], pmin_x, pmax_x);
            let y = grid_coordinate(boxes[pos + 1], boxes[pos + 3], pmin_y, pmax_y);
            hilbert_values.push(hilbert(x, y) as i64);
            k = k + 1;
        }
        proof {
            assert(keyed(ints(hilbert_values@), ints(boxes@), key));
            assert(ints(hilbert_values@) =~= keys_of(ints(boxes@), params.num_items as int, key));
        }
        // sort items by their Hilbert value (for packing later)
        sort(
            &mut hilbert_values,
            boxes,
            indices,
            0,
            params.num_items - 1,
            params.node_size,
            Ghost(key),
        );
        proof {
            let b = ints(boxes@);
            let v = ints(hilbert_values@);
            assert forall|a: int, c: int|
                0 <= a <= c < params.num_items && a / (params.node_size as int) < c / (
                params.node_size as int) implies #[trigger] key(b[4 * a], b[4 * a + 1], b[4 * a + 2], b[4 * a + 3])
                <= #[trigger] key(b[4 * c], b[4 * c + 1], b[4 * c + 2], b[4 * c + 3]) by {
                assert(v[a] <= v[c]);
            }
            let lv = b.subrange(0, 4 * params.num_items);
            assert forall|a: int, c: int|
                0 <= a <= c < params.num_items && a / (params.node_size as int) < c / (
                params.node_size as int) implies #[trigger] key(lv[4 * a], lv[4 * a + 1], lv[4 * a + 2], lv[4 * a + 3])
                <= #[trigger] key(lv[4 * c], lv[4 * c + 1], lv[4 * c + 2], lv[4 * c + 3]) by {
                assert(key(b[4 * a], b[4 * a + 1], b[4 * a + 2], b[4 * a + 3]) <= key(
                    b[4 * c],
                    b[4 * c + 1],
                    b[4 * c + 2],
                    b[4 * c + 3],
                ));
            }
        }
    }
}

/// Custom quicksort that partially sorts bbox data alongside the hilbert values: afterwards the
/// values are sorted across blocks of `node_size` positions.
// Partially taken from static_aabb2d_index under the MIT/Apache license
fn sort(
    values: &mut Vec<i64>,
    boxes: &mut Vec<i64>,
    indices: &mut MutableIndices,
    left: usize,
    right: usize,
    node_size: usize,
    Ghost(key): Ghost<spec_fn(int, int, int, int) -> int>,
)
    requires
        left <= right < old(values)@.len(),
        node_size >= 1,
        4 * old(values)@.len() <= old(boxes)@.len(),
        old(values)@.len() <= old(indices)@.len(),
        keyed(ints(old(values)@), ints(old(boxes)@), key),
    ensures
        final(values)@.len() == old(values)@.len(),
        keyed(ints(final(values)@), ints(final(boxes)@), key),
        blocks_sorted(ints(final(values)@), left as int, right as int, node_size as int),
        rearranged(
            ints(old(boxes)@),
            old(indices)@,
            ints(final(boxes)@),
            final(indices)@,
            left as int,
            right as int,
        ),
        final(indices).is_u16() == old(indices).is_u16(),
        (ints(final(values)@), ints(final(boxes)@), final(indices)@) == block_quicksort(
            (ints(old(values)@), ints(old(boxes)@), old(indices)@),
            left as int,
            right as int,
            node_size as int,
            true,
        ),
    decreases right - left,
{
    let ghost s0: SortState = (ints(values@), ints(boxes@), indices@);
    if left / node_size >= right / node_size {
        proof {
            assert forall|a: int, b: int|
                left <= a <= b <= right && a / (node_size as int) < b / (
                node_size as int) implies #[trigger] ints(values@)[a] <= #[trigger] ints(values@)[b] by {
                lemma_div_is_ordered(left as int, a, node_size as int);
                lemma_div_is_ordered(b, right as int, node_size as int);
            }
        }
        return;
    }
    // apply median of three method
    let start = values[left];
    let mid_index = left + (right - left) / 2;
    let mid = values[mid_index];
    let end = values[right];

    let x = if start >= mid {
        start
    } else {
        mid
    };
    let pivot = if end > x {
        x
    } else if x == start {
        if mid >= end {
            mid
        } else {
            end
        }
    } else if x == mid {
        if start >= end {
            start
        } else {
            end
        }
    } else {
        end
    };
    assert(pivot as int == median_of_three(start as int, mid as int, end as int));
    let ghost q0: int = if start >= mid {
        left as int
    } else {
        mid_index as int
    };
    let ghost p0: int = if start <= pivot {
        left as int
    } else if mid <= pivot {
        mid_index as int
    } else {
        right as int
    };
    let ghost b0 = ints(boxes@);
    let ghost i0 = indices@;
    let j = partition(values, boxes, indices, left, right, pivot, Ghost(key), Ghost(q0), Ghost(p0));
    let ghost b1 = ints(boxes@);
    let ghost i1 = indices@;
    let ghost v1 = ints(values@);
    sort(values, boxes, indices, left, j, node_size, Ghost(key));
    let ghost b2 = ints(boxes@);
    let ghost i2 = indices@;
    let ghost v2 = ints(values@);
    sort(values, boxes, indices, j + 1, right, node_size, Ghost(key));
    proof {
        let b3 = ints(boxes@);
        let v3 = ints(values@);
        assert forall|k: int| left <= k <= j implies #[trigger] key(
            b1[4 * k],
            b1[4 * k + 1],
            b1[4 * k + 2],
            b1[4 * k + 3],
        ) <= pivot by {
            assert(v1[k] <= pivot);
        }
        assert forall|k: int| j + 1 <= k <= right implies #[trigger] key(
            b2[4 * k],
            b2[4 * k + 1],
            b2[4 * k + 2],
            b2[4 * k + 3],
        ) >= pivot by {
            assert(v1[k] >= pivot);
            assert(b2[4 * k] == b1[4 * k]);
            assert(b2[4 * k + 1] == b1[4 * k + 1]);
            assert(b2[4 * k + 2] == b1[4 * k + 2]);
            assert(b2[4 * k + 3] == b1[4 * k + 3]);
        }
        lemma_rearranged_bound(b1, i1, b2, i2, left as int, j as int, key, pivot as int, true);
        lemma_rearranged_bound(b2, i2, b3, indices@, (j + 1) as int, right as int, key, pivot as int, false);
        lemma_rearranged_join(b1, i1, b2, i2, b3, indices@, left as int, j as int, right as int);
        lemma_rearranged_trans(b0, i0, b1, i1, b3, indices@, left as int, right as int);
        assert(block_quicksort(s0, left as int, right as int, node_size as int, true) == block_quicksort(
            block_quicksort((v1, b1, i1), left as int, j as int, node_size as int, true),
            j + 1,
            right as int,
            node_size as int,
            true,
        ));
        assert forall|k: int| left <= k <= j implies #[trigger] v3[k] == v2[k] by {
            assert(b3[4 * k] == b2[4 * k]);
            assert(b3[4 * k + 1] == b2[4 * k + 1]);
            assert(b3[4 * k + 2] == b2[4 * k + 2]);
            assert(b3[4 * k + 3] == b2[4 * k + 3]);
        }
        assert forall|a: int, b: int|
            left <= a <= b <= right && a / (node_size as int) < b / (
            node_size as int) implies #[trigger] v3[a] <= #[trigger] v3[b] by {
            if b <= j {
                assert(v3[a] == v2[a]);
                assert(v3[b] == v2[b]);
            } else if a > j {
            } else {
                assert(v3[a] == v2[a]);
                assert(v2[a] == key(b2[4 * a], b2[4 * a + 1], b2[4 * a + 2], b2[4 * a + 3]));
                assert(v3[b] == key(b3[4 * b], b3[4 * b + 1], b3[4 * b + 2], b3[4 * b + 3]));
            }
        }
    }
}

} // verus!
