//! Sort-tile-recursive (STR) sorting.
use vstd::prelude::*;
use vstd::arithmetic::div_mod::{lemma_div_denominator, lemma_div_is_ordered};

use crate::indices::MutableIndices;
use crate::num::IndexableNum;
use crate::rtree::sort::params::{center_sums_fit, sort_inputs, Sort, SortParams};
use crate::rtree::sort::util::{
    block_quicksort, blocks_sorted, ints, keyed, keys_of, lemma_rearranged_bound,
    lemma_rearranged_join, lemma_rearranged_member, lemma_rearranged_trans,
    lemma_rearranged_widen, partition, rearranged, SortState,
};
use crate::rtree::util::ceil_div;

verus! {

/// An implementation of sort-tile-recursive (STR) sorting.
///
/// The implementation is derived from [this
/// paper](https://ia600900.us.archive.org/27/items/nasa_techdoc_19970016975/19970016975.pdf).
pub struct STRSort;

/// Half of `s`, rounded toward zero (integer division by two).
pub open spec fn half_toward_zero(s: int) -> int {
    if s >= 0 {
        s / 2
    } else {
        -((-s) / 2)
    }
}

/// The key by which the first pass orders boxes: the `x` of the center.
pub open spec fn center_x_key() -> spec_fn(int, int, int, int) -> int {
    |a: int, b: int, c: int, d: int| half_toward_zero(a + c)
}

/// The key by which the second pass orders boxes: the `y` of the center.
pub open spec fn center_y_key() -> spec_fn(int, int, int, int) -> int {
    |a: int, b: int, c: int, d: int| half_toward_zero(b + d)
}

/// The key of the second pass is the `y` of the box center, `(min_y + max_y) / 2` rounded
/// toward zero: it reads only `min_y` and `max_y`, twice it is within one of their sum and no
/// farther from zero than the sum.
pub proof fn lemma_center_y_key_is_y_center(a: int, b: int, c: int, d: int, a2: int, c2: int)
    ensures
        center_y_key()(a, b, c, d) == center_y_key()(a2, b, c2, d),
        b + d - 1 <= 2 * center_y_key()(a, b, c, d) <= b + d + 1,
        b + d >= 0 ==> 0 <= 2 * center_y_key()(a, b, c, d) <= b + d,
        b + d <= 0 ==> b + d <= 2 * center_y_key()(a, b, c, d) <= 0,
{
}

/// The key of the first pass is the `x` of the box center, `(min_x + max_x) / 2` rounded
/// toward zero: it reads only `min_x` and `max_x`, twice it is within one of their sum and no
/// farther from zero than the sum.
pub proof fn lemma_center_x_key_is_x_center(a: int, b: int, c: int, d: int, b2: int, d2: int)
    ensures
        center_x_key()(a, b, c, d) == center_x_key()(a, b2, c, d2),
        a + c - 1 <= 2 * center_x_key()(a, b, c, d) <= a + c + 1,
        a + c >= 0 ==> 0 <= 2 * center_x_key()(a, b, c, d) <= a + c,
        a + c <= 0 ==> a + c <= 2 * center_x_key()(a, b, c, d) <= 0,
{
}

/// The smallest `s` with `s * s >= m`: the square root of `m` rounded up.
pub open spec fn is_ceil_sqrt(s: nat, m: nat) -> bool {
    s * s >= m && (s == 0 || (s - 1) * (s - 1) < m)
}

/// The square root of `m`, rounded up.
pub open spec fn ceil_sqrt_of(m: nat) -> nat {
    choose|s: nat| is_ceil_sqrt(s, m)
}

/// There is one square root rounded up.
proof fn lemma_ceil_sqrt_unique(s1: nat, s2: nat, m: nat)
    requires
        is_ceil_sqrt(s1, m),
        is_ceil_sqrt(s2, m),
    ensures
        s1 == s2,
{
    if s1 < s2 {
        assert(s1 * s1 <= (s2 - 1) * (s2 - 1)) by (nonlinear_arith)
            requires
                s1 + 1 <= s2,
        ;
    } else if s2 < s1 {
        assert(s2 * s2 <= (s1 - 1) * (s1 - 1)) by (nonlinear_arith)
            requires
                s2 + 1 <= s1,
        ;
    }
}

/// What the second pass leaves from slice `i` on: each slice of `per_slice` of the first `n`
/// boxes (the last one cut at `n`) sorted by its values in blocks of `ns`.
pub open spec fn sort_slices(s: SortState, i: int, count: int, per_slice: int, n: int, ns: int) -> SortState
    decreases count - i,
{
    if i < count {
        let start = i * per_slice;
        let end = if (i + 1) * per_slice < n {
            (i + 1) * per_slice
        } else {
            n
        };
        let s1 = if start < end {
            block_quicksort(s, start, end - 1, ns, false)
        } else {
            s
        };
        sort_slices(s1, i + 1, count, per_slice, n, ns)
    } else {
        s
    }
}

/// The number of items in each vertical slice: whole leaf nodes, as many nodes as slices, with
/// as many slices as the square root of the number of leaf nodes, rounded up.
pub open spec fn is_slice_len(per_slice: nat, num_items: nat, node_size: nat) -> bool {
    exists|s: nat| is_ceil_sqrt(s, ceil_div(num_items, node_size)) && per_slice == s * node_size
}

/// The boxes sorted by STR: across slices of `per_slice` boxes by the `x` of their centers, and
/// within each slice by the `y` of their centers across blocks of `ns` boxes.
pub open spec fn str_sorted(boxes: Seq<int>, n: int, ns: int, per_slice: int) -> bool {
    let kx = center_x_key();
    let ky = center_y_key();
    &&& forall|a: int, b: int|
        0 <= a <= b < n && a / per_slice < b / per_slice ==> #[trigger] kx(
            boxes[4 * a],
            boxes[4 * a + 1],
            boxes[4 * a + 2],
            boxes[4 * a + 3],
        ) <= #[trigger] kx(boxes[4 * b], boxes[4 * b + 1], boxes[4 * b + 2], boxes[4 * b + 3])
    &&& forall|a: int, b: int|
        0 <= a <= b < n && a / per_slice == b / per_slice && a / ns < b / ns ==> #[trigger] ky(
            boxes[4 * a],
            boxes[4 * a + 1],
            boxes[4 * a + 2],
            boxes[4 * a + 3],
        ) <= #[trigger] ky(boxes[4 * b], boxes[4 * b + 1], boxes[4 * b + 2], boxes[4 * b + 3])
}

/// The STR order of the first `n` boxes only reads their coordinates.
proof fn lemma_str_sorted_prefix(boxes: Seq<int>, n: int, ns: int, per_slice: int)
    requires
        0 <= n,
        4 * n <= boxes.len(),
        str_sorted(boxes, n, ns, per_slice),
    ensures
        str_sorted(boxes.subrange(0, 4 * n), n, ns, per_slice),
{
    let lv = boxes.subrange(0, 4 * n);
    let kx = center_x_key();
    let ky = center_y_key();
    assert forall|a: int, b: int|
        0 <= a <= b < n && a / per_slice < b / per_slice implies #[trigger] kx(
        lv[4 * a],
        lv[4 * a + 1],
        lv[4 * a + 2],
        lv[4 * a + 3],
    ) <= #[trigger] kx(lv[4 * b], lv[4 * b + 1], lv[4 * b + 2], lv[4 * b + 3]) by {
        assert(kx(boxes[4 * a], boxes[4 * a + 1], boxes[4 * a + 2], boxes[4 * a + 3]) <= kx(
            boxes[4 * b],
            boxes[4 * b + 1],
            boxes[4 * b + 2],
            boxes[4 * b + 3],
        ));
    }
    assert forall|a: int, b: int|
        0 <= a <= b < n && a / per_slice == b / per_slice && a / ns < b / ns implies #[trigger] ky(
        lv[4 * a],
        lv[4 * a + 1],
        lv[4 * a + 2],
        lv[4 * a + 3],
    ) <= #[trigger] ky(lv[4 * b], lv[4 * b + 1], lv[4 * b + 2], lv[4 * b + 3]) by {
        assert(ky(boxes[4 * a], boxes[4 * a + 1], boxes[4 * a + 2], boxes[4 * a + 3]) <= ky(
            boxes[4 * b],
            boxes[4 * b + 1],
            boxes[4 * b + 2],
            boxes[4 * b + 3],
        ));
    }
}

/// Positions in different slices of `s * ns` positions are in different blocks of `ns`.
proof fn lemma_slice_block(a: int, b: int, s: int, ns: int)
    requires
        0 <= a,
        0 <= b,
        1 <= s,
        1 <= ns,
        a / (s * ns) < b / (s * ns),
    ensures
        a / ns < b / ns,
{
    lemma_div_denominator(a, ns, s);
    lemma_div_denominator(b, ns, s);
    assert(ns * s == s * ns) by (nonlinear_arith);
    if a / ns >= b / ns {
        lemma_div_is_ordered(b / ns, a / ns, s);
    }
}

/// The slice of a position.
proof fn lemma_in_slice(k: int, i: int, w: int)
    requires
        i * w <= k < (i + 1) * w,
        w >= 1,
    ensures
        k / w == i,
{
    assert(k / w == i) by (nonlinear_arith)
        requires
            i * w <= k < (i + 1) * w,
            w >= 1,
    ;
}

/// Positions in different slices come in order.
proof fn lemma_slice_order(a: int, b: int, w: int)
    requires
        0 <= a,
        0 <= b,
        1 <= w,
        a / w < b / w,
    ensures
        a < b,
{
    if a >= b {
        lemma_div_is_ordered(b, a, w);
    }
}

/// Half of `s`, rounded toward zero.
fn half(s: i64) -> (r: i64)
    requires
        -0x4_0000_0000 <= s <= 0x4_0000_0000,
    ensures
        r == half_toward_zero(s as int),
{
    if s >= 0 {
        s / 2
    } else {
        -((-s) / 2)
    }
}

/// The centers of the first `n` boxes on one axis (`axis` 0 for `x`, 1 for `y`).
fn centers(boxes: &Vec<i64>, n: usize, axis: usize) -> (r: Vec<i64>)
    requires
        axis < 2,
        4 * n <= boxes@.len(),
        forall|p: int|
            0 <= p < boxes@.len() ==> -0x1_0000_0000 <= #[trigger] boxes@[p] <= 0x1_0000_0000,
    ensures
        r@.len() == n,
        keyed(
            ints(r@),
            ints(boxes@),
            if axis == 0 {
                center_x_key()
            } else {
                center_y_key()
            },
        ),
        forall|k: int|
            0 <= k < n ==> {
                let sum = boxes@[4 * k + axis] + boxes@[4 * k + 2 + axis];
                &&& sum - 1 <= 2 * #[trigger] r@[k] <= sum + 1
                &&& sum >= 0 ==> 0 <= 2 * r@[k] <= sum
                &&& sum <= 0 ==> sum <= 2 * r@[k] <= 0
            },
{
    let mut r: Vec<i64> = Vec::new();
    let mut i: usize = 0;
    let bl = boxes.len();
    while i < n
        invariant
            bl == boxes@.len(),
            i <= n,
            4 * n <= boxes@.len(),
            axis < 2,
            r@.len() == i,
            forall|p: int|
                0 <= p < boxes@.len() ==> -0x1_0000_0000 <= #[trigger] boxes@[p] <= 0x1_0000_0000,
            forall|k: int|
                0 <= k < i ==> #[trigger] ints(r@)[k] == (if axis == 0 {
                    center_x_key()
                } else {
                    center_y_key()
                })(
                    ints(boxes@)[4 * k],
                    ints(boxes@)[4 * k + 1],
                    ints(boxes@)[4 * k + 2],
                    ints(boxes@)[4 * k + 3],
                ),
        decreases n - i,
    {
        let lo = boxes[4 * i + axis];
        let hi = boxes[4 * i + 2 + axis];
        proof {
            assert(-0x1_0000_0000 <= boxes@[4 * i + axis] <= 0x1_0000_0000);
            assert(-0x1_0000_0000 <= boxes@[4 * i + 2 + axis] <= 0x1_0000_0000);
        }
        let c = half(lo + hi);
        let ghost old_r = r@;
        r.push(c);
        proof {
            assert(r@ == old_r.push(c));
            if axis == 0 {
                assert(ints(r@)[i as int] == center_x_key()(
                    ints(boxes@)[4 * i],
                    ints(boxes@)[4 * i + 1],
                    ints(boxes@)[4 * i + 2],
                    ints(boxes@)[4 * i + 3],
                ));
            } else {
                assert(ints(r@)[i as int] == center_y_key()(
                    ints(boxes@)[4 * i],
                    ints(boxes@)[4 * i + 1],
                    ints(boxes@)[4 * i + 2],
                    ints(boxes@)[4 * i + 3],
                ));
            }
            assert forall|k: int| 0 <= k < i implies #[trigger] ints(r@)[k] == ints(old_r)[k] by {}
        }
        i = i + 1;
    }
    proof {
        assert forall|k: int| 0 <= k < n implies {
            let sum = boxes@[4 * k + axis] + boxes@[4 * k + 2 + axis];
            &&& sum - 1 <= 2 * #[trigger] r@[k] <= sum + 1
            &&& sum >= 0 ==> 0 <= 2 * r@[k] <= sum
            &&& sum <= 0 ==> sum <= 2 * r@[k] <= 0
        } by {
            let b = ints(boxes@);
            assert(ints(r@)[k] == r@[k]);
            if axis == 0 {
                lemma_center_x_key_is_x_center(b[4 * k], b[4 * k + 1], b[4 * k + 2], b[4 * k + 3], 0, 0);
                assert(b[4 * k + 0] == b[4 * k] && b[4 * k + 2 + 0] == b[4 * k + 2]);
            } else {
                lemma_center_y_key_is_y_center(b[4 * k], b[4 * k + 1], b[4 * k + 2], b[4 * k + 3], 0, 0);
            }
        }
    }
    r
}

/// The square root of `m`, rounded up.
fn ceil_sqrt(m: usize) -> (s: usize)
    requires
        m <= 0x1_0000_0000,
    ensures
        is_ceil_sqrt(s as nat, m as nat),
        s == ceil_sqrt_of(m as nat),
        m >= 1 ==> 1 <= s <= m && s * s < 3 * m,
{
    let mut s: usize = 0;
    while (s as u64) * (s as u64) < m as u64
        invariant
            s <= 0x1_0000,
            s * s <= 0x1_0000_0000,
            s == 0 || (s - 1) * (s - 1) < m,
            m <= 0x1_0000_0000,
        decreases 0x1_0000 - s,
    {
        proof {
            assert(s < 0x1_0000) by (nonlinear_arith)
                requires
                    s * s < m,
                    m <= 0x1_0000_0000,
            ;
            assert((s + 1) * (s + 1) <= 0x1_0000_0000) by (nonlinear_arith)
                requires
                    s < 0x1_0000,
            ;
        }
        s = s + 1;
    }
    proof {
        assert(is_ceil_sqrt(s as nat, m as nat));
        lemma_ceil_sqrt_unique(s as nat, ceil_sqrt_of(m as nat), m as nat);
        if m >= 1 {
            assert(1 <= s <= m && s * s < 3 * m) by (nonlinear_arith)
                requires
                    s * s >= m,
                    s == 0 || (s - 1) * (s - 1) < m,
                    m >= 1,
            ;
        }
    }
    s
}

impl<N: IndexableNum> Sort<N> for STRSort {
    /// The centers' sums are values of `N`.
    open spec fn fits(min_x: int, min_y: int, max_x: int, max_y: int, leaves: Seq<int>) -> bool {
        center_sums_fit::<N>(leaves)
    }

    /// Sorted by STR into vertical slices of whole nodes.
    open spec fn sorted(params: SortParams<N>, leaves: Seq<int>) -> bool {
        exists|per_slice: nat|
            is_slice_len(per_slice, params.num_items as nat, params.node_size as nat) && str_sorted(
                leaves,
                params.num_items as int,
                params.node_size as int,
                per_slice as int,
            )
    }

    /// The boxes with their indices after the quicksort of the first `n` by the `x` of their
    /// centers, and then of each vertical slice by the `y` of their centers; there are as many
    /// slices as the square root of the number of leaf nodes, rounded up, each of as many nodes.
    open spec fn arrangement(params: SortParams<N>, boxes: Seq<int>, indices: Seq<nat>) -> (
        Seq<int>,
        Seq<nat>,
    ) {
        let n = params.num_items as int;
        let ns = params.node_size as int;
        let sx = block_quicksort((keys_of(boxes, n, center_x_key()), boxes, indices), 0, n - 1, ns, false);
        let slices = ceil_sqrt_of(ceil_div(n as nat, ns as nat)) as int;
        let sy = sort_slices((keys_of(sx.1, n, center_y_key()), sx.1, sx.2), 0, slices, slices * ns, n, ns);
        (sy.1, sy.2)
    }

    fn sort(params: &SortParams<N>, boxes: &mut Vec<i64>, indices: &mut MutableIndices) {
        let n = params.num_items;
        let ns = params.node_size;
        proof {
            N::lemma_layout();
            crate::bytes::lemma_pow256_facts();
            assert forall|p: int| 0 <= p < boxes@.len() implies -0x1_0000_0000 <= #[trigger] boxes@[p]
                <= 0x1_0000_0000 by {
                assert(N::spec_min() <= ints(boxes@)[p] <= N::spec_max());
            }
        }
        let ghost b0 = ints(boxes@);
        let ghost i0 = indices@;
        // Get x value of box centers
        let mut center_x_values = centers(boxes, n, 0);
        proof {
            assert(ints(center_x_values@) =~= keys_of(b0, n as int, center_x_key()));
        }
        // Sort items by their x values
        sort(&mut center_x_values, boxes, indices, 0, n - 1, ns, Ghost(center_x_key()));
        let ghost b1 = ints(boxes@);
        let ghost i1 = indices@;
        proof {
            assert forall|p: int| 0 <= p < boxes@.len() implies -0x1_0000_0000 <= #[trigger] boxes@[p]
                <= 0x1_0000_0000 by {
                if p < 4 * n {
                    let k2 = lemma_rearranged_member(b0, i0, b1, i1, 0, n - 1, p / 4);
                    assert(N::spec_min() <= b0[4 * k2 + p % 4] <= N::spec_max());
                } else {
                    assert(b1[p] == b0[p]);
                }
            }
        }
        // Get y value of box centers
        let mut center_values = centers(boxes, n, 1);
        let ghost sy0: SortState = (ints(center_values@), ints(boxes@), indices@);
        proof {
            assert(ints(center_values@) =~= keys_of(b1, n as int, center_y_key()));
        }

        proof {
            assert(1 <= (n + ns - 1) / (ns as int) <= n) by (nonlinear_arith)
                requires
                    2 <= ns,
                    1 <= n,
            ;
        }
        let num_leaf_nodes = (n + ns - 1) / ns;
        let num_vertical_slices = ceil_sqrt(num_leaf_nodes);
        proof {
            let s = num_vertical_slices as int;
            let l = num_leaf_nodes as int;
            assert(l * ns <= n + ns - 1) by (nonlinear_arith)
                requires
                    l == (n + ns - 1) / (ns as int),
                    2 <= ns,
                    1 <= n,
            ;
            assert(s * ns <= n + ns && s * (s * ns) <= 3 * (n + ns) && s * ns >= 2) by (nonlinear_arith)
                requires
                    1 <= s <= l,
                    s * s < 3 * l,
                    l * ns <= n + ns - 1,
                    2 <= ns,
            ;
        }
        let num_items_per_slice = num_vertical_slices * ns;

        let ghost kx = center_x_key();
        let ghost ky = center_y_key();
        let ghost sl = num_items_per_slice as int;
        proof {
            let b = b1;
            assert forall|a: int, c: int|
                0 <= a <= c < n && a / sl < c / sl implies #[trigger] kx(
                b[4 * a],
                b[4 * a + 1],
                b[4 * a + 2],
                b[4 * a + 3],
            ) <= #[trigger] kx(b[4 * c], b[4 * c + 1], b[4 * c + 2], b[4 * c + 3]) by {
                lemma_slice_block(a, c, num_vertical_slices as int, ns as int);
                assert(ints(center_x_values@)[a] <= ints(center_x_values@)[c]);
            }
        }
        let mut i: usize = 0;
        while i < num_vertical_slices
            invariant
                i <= num_vertical_slices,
                num_items_per_slice == num_vertical_slices * ns,
                num_vertical_slices * num_items_per_slice <= 3 * (n + ns),
                sl == num_items_per_slice,
                sl >= 1,
                64 * n <= usize::MAX,
                2 <= ns <= 65535,
                2 <= n,
                kx == center_x_key(),
                ky == center_y_key(),
                4 * n <= b0.len(),
                n <= i0.len(),
                center_values@.len() == n,
                keyed(ints(center_values@), ints(boxes@), center_y_key()),
                rearranged(b0, i0, ints(boxes@), indices@, 0, n - 1),
                indices.is_u16() == old(indices).is_u16(),
                sort_slices(
                    (ints(center_values@), ints(boxes@), indices@),
                    i as int,
                    num_vertical_slices as int,
                    sl,
                    n as int,
                    ns as int,
                ) == sort_slices(sy0, 0, num_vertical_slices as int, sl, n as int, ns as int),
                forall|a: int, c: int|
                    0 <= a <= c < n && a / sl < c / sl ==> #[trigger] kx(
                        ints(boxes@)[4 * a],
                        ints(boxes@)[4 * a + 1],
                        ints(boxes@)[4 * a + 2],
                        ints(boxes@)[4 * a + 3],
                    ) <= #[trigger] kx(
                        ints(boxes@)[4 * c],
                        ints(boxes@)[4 * c + 1],
                        ints(boxes@)[4 * c + 2],
                        ints(boxes@)[4 * c + 3],
                    ),
                forall|a: int, c: int|
                    0 <= a <= c < n && c < i * sl && a / sl == c / sl && a / (ns as int) < c / (
                    ns as int) ==> #[trigger] ky(
                        ints(boxes@)[4 * a],
                        ints(boxes@)[4 * a + 1],
                        ints(boxes@)[4 * a + 2],
                        ints(boxes@)[4 * a + 3],
                    ) <= #[trigger] ky(
                        ints(boxes@)[4 * c],
                        ints(boxes@)[4 * c + 1],
                        ints(boxes@)[4 * c + 2],
                        ints(boxes@)[4 * c + 3],
                    ),
            decreases num_vertical_slices - i,
        {
            proof {
                assert(i * num_items_per_slice <= (i + 1) * num_items_per_slice
                    <= num_vertical_slices * num_items_per_slice) by (nonlinear_arith)
                    requires
                        i < num_vertical_slices,
                ;
            }
            let partition_start = i * num_items_per_slice;
            let partition_end = (i + 1) * num_items_per_slice;
            let end = if partition_end < n {
                partition_end
            } else {
                n
            };
            let ghost cur: SortState = (ints(center_values@), ints(boxes@), indices@);
            // Within each x partition, sort by y values
            if partition_start < end {
                let ghost bb = ints(boxes@);
                let ghost ib = indices@;
                sort(
                    &mut center_values,
                    boxes,
                    indices,
                    partition_start,
                    end - 1,
                    ns,
                    Ghost(center_y_key()),
                );
                proof {
                    let st = partition_start as int;
                    let en = end as int;
                    let bn = ints(boxes@);
                    let v = ints(center_values@);
                    lemma_rearranged_widen(bb, ib, bn, indices@, st, en - 1, 0, n - 1);
                    lemma_rearranged_trans(b0, i0, bb, ib, bn, indices@, 0, n - 1);
                    // a box of the slice comes from the slice
                    assert forall|a: int, c: int|
                        0 <= a <= c < n && a / sl < c / sl implies #[trigger] kx(
                        bn[4 * a],
                        bn[4 * a + 1],
                        bn[4 * a + 2],
                        bn[4 * a + 3],
                    ) <= #[trigger] kx(bn[4 * c], bn[4 * c + 1], bn[4 * c + 2], bn[4 * c + 3]) by {
                        let a2 = if st <= a < en {
                            lemma_rearranged_member(bb, ib, bn, indices@, st, en - 1, a)
                        } else {
                            a
                        };
                        let c2 = if st <= c < en {
                            lemma_rearranged_member(bb, ib, bn, indices@, st, en - 1, c)
                        } else {
                            c
                        };
                        if !(st <= a < en) {
                            assert(bn[4 * a] == bb[4 * a]);
                            assert(bn[4 * a + 2] == bb[4 * a + 2]);
                        }
                        if !(st <= c < en) {
                            assert(bn[4 * c] == bb[4 * c]);
                            assert(bn[4 * c + 2] == bb[4 * c + 2]);
                        }
                        if st <= a < en {
                            lemma_in_slice(a, i as int, sl);
                            lemma_in_slice(a2, i as int, sl);
                        }
                        if st <= c < en {
                            lemma_in_slice(c, i as int, sl);
                            lemma_in_slice(c2, i as int, sl);
                        }
                        assert(a2 / sl == a / sl);
                        assert(c2 / sl == c / sl);
                        lemma_slice_order(a2, c2, sl);
                        assert(kx(bb[4 * a2], bb[4 * a2 + 1], bb[4 * a2 + 2], bb[4 * a2 + 3]) <= kx(
                            bb[4 * c2],
                            bb[4 * c2 + 1],
                            bb[4 * c2 + 2],
                            bb[4 * c2 + 3],
                        ));
                    }
                    assert forall|a: int, c: int|
                        0 <= a <= c < n && c < (i + 1) * sl && a / sl == c / sl && a / (
                        ns as int) < c / (ns as int) implies #[trigger] ky(
                        bn[4 * a],
                        bn[4 * a + 1],
                        bn[4 * a + 2],
                        bn[4 * a + 3],
                    ) <= #[trigger] ky(bn[4 * c], bn[4 * c + 1], bn[4 * c + 2], bn[4 * c + 3]) by {
                        if c < st {
                            assert(bn[4 * a + 1] == bb[4 * a + 1]);
                            assert(bn[4 * a + 3] == bb[4 * a + 3]);
                            assert(bn[4 * c + 1] == bb[4 * c + 1]);
                            assert(bn[4 * c + 3] == bb[4 * c + 3]);
                            assert(c < i * sl);
                        } else {
                            lemma_in_slice(c, i as int, sl);
                            assert(a >= st) by (nonlinear_arith)
                                requires
                                    a / sl == c / sl,
                                    c / sl == i,
                                    st == i * sl,
                                    sl >= 1,
                                    a >= 0,
                            ;
                            assert(v[a] <= v[c]);
                        }
                    }
                }
            } else {
                proof {
                    let st = partition_start as int;
                    let bn = ints(boxes@);
                    assert forall|a: int, c: int|
                        0 <= a <= c < n && c < (i + 1) * sl && a / sl == c / sl && a / (
                        ns as int) < c / (ns as int) implies #[trigger] ky(
                        bn[4 * a],
                        bn[4 * a + 1],
                        bn[4 * a + 2],
                        bn[4 * a + 3],
                    ) <= #[trigger] ky(bn[4 * c], bn[4 * c + 1], bn[4 * c + 2], bn[4 * c + 3]) by {
                        assert(c < i * sl);
                    }
                }
            }
            proof {
                assert(sort_slices(cur, i as int, num_vertical_slices as int, sl, n as int, ns as int)
                    == sort_slices(
                    (ints(center_values@), ints(boxes@), indices@),
                    i + 1,
                    num_vertical_slices as int,
                    sl,
                    n as int,
                    ns as int,
                ));
            }
            i = i + 1;
        }
        proof {
            assert(ceil_sqrt_of(ceil_div(n as nat, ns as nat)) == num_vertical_slices);
            let l = num_leaf_nodes as int;
            let sv = num_vertical_slices as int;
            assert(l * ns >= n) by (nonlinear_arith)
                requires
                    l == (n + ns - 1) / (ns as int),
                    2 <= ns,
            ;
            assert(sv * sl >= n) by (nonlinear_arith)
                requires
                    sv * sv >= l,
                    sl == sv * ns,
                    l * ns >= n,
                    ns >= 2,
                    sv >= 0,
            ;
            assert(ceil_div(n as nat, ns as nat) == num_leaf_nodes);
            assert(is_slice_len(sl as nat, n as nat, ns as nat));
            assert(str_sorted(ints(boxes@), n as int, ns as int, sl));
            lemma_str_sorted_prefix(ints(boxes@), n as int, ns as int, sl);
        }
    }
}

/// Custom quicksort that partially sorts bbox data alongside their sort values: afterwards the
/// values are sorted across blocks of `node_size` positions.
// Partially taken from static_aabb2d_index under the MIT/Apache license
fn sort(
    values: &mut Vec<i64>,
    boxes: &mut Vec<i64>,
    indices: &mut MutableIndices,
    left: usize,
    right: usize,
    node_size: usize,
    Ghost(key): Ghost<spec_fn(int, int, int, int) -> int>,
)
    requires
        left <= right < old(values)@.len(),
        node_size >= 1,
        4 * old(values)@.len() <= old(boxes)@.len(),
        old(values)@.len() <= old(indices)@.len(),
        keyed(ints(old(values)@), ints(old(boxes)@), key),
    ensures
        final(values)@.len() == old(values)@.len(),
        keyed(ints(final(values)@), ints(final(boxes)@), key),
        blocks_sorted(ints(final(values)@), left as int, right as int, node_size as int),
        rearranged(
            ints(old(boxes)@),
            old(indices)@,
            ints(final(boxes)@),
            final(indices)@,
            left as int,
            right as int,
        ),
        final(indices).is_u16() == old(indices).is_u16(),
        (ints(final(values)@), ints(final(boxes)@), final(indices)@) == block_quicksort(
            (ints(old(values)@), ints(old(boxes)@), old(indices)@),
            left as int,
            right as int,
            node_size as int,
            false,
        ),
    decreases right - left,
{
    let ghost s0: SortState = (ints(values@), ints(boxes@), indices@);
    if left / node_size >= right / node_size {
        proof {
            assert forall|a: int, b: int|
                left <= a <= b <= right && a / (node_size as int) < b / (
                node_size as int) implies #[trigger] ints(values@)[a] <= #[trigger] ints(values@)[b] by {
                lemma_div_is_ordered(left as int, a, node_size as int);
                lemma_div_is_ordered(b, right as int, node_size as int);
            }
        }
        return;
    }
    let midpoint = left + (right - left) / 2;
    let pivot = values[midpoint];
    let ghost b0 = ints(boxes@);
    let ghost i0 = indices@;
    let j = partition(
        values,
        boxes,
        indices,
        left,
        right,
        pivot,
        Ghost(key),
        Ghost(midpoint as int),
        Ghost(midpoint as int),
    );
    let ghost b1 = ints(boxes@);
    let ghost i1 = indices@;
    let ghost v1 = ints(values@);
    sort(values, boxes, indices, left, j, node_size, Ghost(key));
    let ghost b2 = ints(boxes@);
    let ghost i2 = indices@;
    let ghost v2 = ints(values@);
    sort(values, boxes, indices, j + 1, right, node_size, Ghost(key));
    proof {
        let b3 = ints(boxes@);
        let v3 = ints(values@);
        assert forall|k: int| left <= k <= j implies #[trigger] key(
            b1[4 * k],
            b1[4 * k + 1],
            b1[4 * k + 2],
            b1[4 * k + 3],
        ) <= pivot by {
            assert(v1[k] <= pivot);
        }
        assert forall|k: int| j + 1 <= k <= right implies #[trigger] key(
            b2[4 * k],
            b2[4 * k + 1],
            b2[4 * k + 2],
            b2[4 * k + 3],
        ) >= pivot by {
            assert(v1[k] >= pivot);
            assert(b2[4 * k] == b1[4 * k]);
            assert(b2[4 * k + 1] == b1[4 * k + 1]);
            assert(b2[4 * k + 2] == b1[4 * k + 2]);
            assert(b2[4 * k + 3] == b1[4 * k + 3]);
        }
        lemma_rearranged_bound(b1, i1, b2, i2, left as int, j as int, key, pivot as int, true);
        lemma_rearranged_bound(b2, i2, b3, indices@, (j + 1) as int, right as int, key, pivot as int, false);
        lemma_rearranged_join(b1, i1, b2, i2, b3, indices@, left as int, j as int, right as int);
        lemma_rearranged_trans(b0, i0, b1, i1, b3, indices@, left as int, right as int);
        assert(block_quicksort(s0, left as int, right as int, node_size as int, false) == block_quicksort(
            block_quicksort((v1, b1, i1), left as int, j as int, node_size as int, false),
            j + 1,
            right as int,
            node_size as int,
            false,
        ));
        assert forall|k: int| left <= k <= j implies #[trigger] v3[k] == v2[k] by {
            assert(b3[4 * k] == b2[4 * k]);
            assert(b3[4 * k + 1] == b2[4 * k + 1]);
            assert(b3[4 * k + 2] == b2[4 * k + 2]);
            assert(b3[4 * k + 3] == b2[4 * k + 3]);
        }
        assert forall|a: int, b: int|
            left <= a <= b <= right && a / (node_size as int) < b / (
            node_size as int) implies #[trigger] v3[a] <= #[trigger] v3[b] by {
            if b <= j {
                assert(v3[a] == v2[a]);
                assert(v3[b] == v2[b]);
            } else if a > j {
            } else {
                assert(v3[a] == v2[a]);
                assert(v2[a] == key(b2[4 * a], b2[4 * a + 1], b2[4 * a + 2], b2[4 * a + 3]));
                assert(v3[b] == key(b3[4 * b], b3[4 * b + 1], b3[4 * b + 2], b3[4 * b + 3]));
            }
        }
    }
}

} // verus!
