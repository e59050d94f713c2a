//! The k-d sort of a KDTree: the points (with their indices) of each range are split at the
//! middle point, along `x` and `y` in turn.
use vstd::prelude::*;
use vstd::seq_lib::{lemma_multiset_commutative, to_multiset_contains, to_multiset_update};

use crate::indices::MutableIndices;
use crate::rtree::sort::util::{ints, swap_pos};

verus! {

/// Coordinate `axis` (0 for `x`, 1 for `y`) of point `k`.
pub open spec fn kd_coord(coords: Seq<int>, k: int, axis: int) -> int {
    coords[2 * k + axis]
}

/// Point `k` with its index.
pub open spec fn kd_item(coords: Seq<int>, ids: Seq<nat>, k: int) -> (int, int, nat) {
    (coords[2 * k], coords[2 * k + 1], ids[k])
}

/// The points with their indices of `lo..hi`.
pub open spec fn kd_items_in(coords: Seq<int>, ids: Seq<nat>, lo: int, hi: int) -> Seq<
    (int, int, nat),
> {
    Seq::new((hi - lo) as nat, |t: int| kd_item(coords, ids, lo + t))
}

/// The points `lo..=hi` hold the same points with their indices as before, in some order, and
/// all other points are unchanged.
pub open spec fn kd_rearranged(
    old_coords: Seq<int>,
    old_ids: Seq<nat>,
    coords: Seq<int>,
    ids: Seq<nat>,
    lo: int,
    hi: int,
) -> bool {
    &&& coords.len() == old_coords.len()
    &&& ids.len() == old_ids.len()
    &&& kd_items_in(coords, ids, lo, hi + 1).to_multiset() == kd_items_in(
        old_coords,
        old_ids,
        lo,
        hi + 1,
    ).to_multiset()
    &&& forall|p: int|
        0 <= p < coords.len() && !(2 * lo <= p < 2 * hi + 2) ==> #[trigger] coords[p]
            == old_coords[p]
    &&& forall|k: int| 0 <= k < ids.len() && !(lo <= k <= hi) ==> #[trigger] ids[k] == old_ids[k]
}

/// The points `left..=right` are k-d sorted with nodes of `node_size`: a range of more than
/// `node_size + 1` points is split at its middle point `m`, the points before `m` being at most
/// and those after at least its coordinate `axis`, and both halves are k-d sorted on the other
/// axis.
pub open spec fn kd_sorted(coords: Seq<int>, node_size: int, left: int, right: int, axis: int) -> bool
    decreases right - left,
{
    if right - left <= node_size || node_size < 1 {
        true
    } else {
        let m = (left + right) / 2;
        &&& forall|p: int| left <= p < m ==> #[trigger] kd_coord(coords, p, axis) <= kd_coord(coords, m, axis)
        &&& forall|p: int| m < p <= right ==> #[trigger] kd_coord(coords, p, axis) >= kd_coord(coords, m, axis)
        &&& kd_sorted(coords, node_size, left, m - 1, 1 - axis)
        &&& kd_sorted(coords, node_size, m + 1, right, 1 - axis)
    }
}

/// Swapping two points inside `lo..hi` keeps the multiset of their points with indices.
proof fn lemma_kd_swap_items(
    old_coords: Seq<int>,
    old_ids: Seq<nat>,
    coords: Seq<int>,
    ids: Seq<nat>,
    lo: int,
    hi: int,
    i: int,
    j: int,
)
    requires
        0 <= lo,
        lo <= i < hi,
        lo <= j < hi,
        2 * hi <= old_coords.len(),
        hi <= old_ids.len(),
        coords.len() == old_coords.len(),
        ids.len() == old_ids.len(),
        forall|k: int|
            0 <= k < ids.len() && 2 * k + 1 < coords.len() ==> #[trigger] kd_item(coords, ids, k)
                == kd_item(old_coords, old_ids, swap_pos(i, j, k)),
    ensures
        kd_items_in(coords, ids, lo, hi).to_multiset() == kd_items_in(
            old_coords,
            old_ids,
            lo,
            hi,
        ).to_multiset(),
{
    let s = kd_items_in(old_coords, old_ids, lo, hi);
    let t = kd_items_in(coords, ids, lo, hi);
    let a = i - lo;
    let b = j - lo;
    assert forall|u: int| 0 <= u < t.len() implies #[trigger] t[u] == s.update(a, s[b]).update(
        b,
        s[a],
    )[u] by {
        assert(kd_item(coords, ids, lo + u) == kd_item(old_coords, old_ids, swap_pos(i, j, lo + u)));
    }
    assert(t =~= s.update(a, s[b]).update(b, s[a]));
    to_multiset_update(s, a, s[b]);
    to_multiset_update(s.update(a, s[b]), b, s[a]);
    to_multiset_contains(s, s[a]);
    to_multiset_contains(s, s[b]);
    assert(s.contains(s[a]));
    assert(s.contains(s[b]));
    broadcast use vstd::multiset::group_multiset_axioms;

    assert(t.to_multiset() =~= s.to_multiset());
}

/// Rearranging a range rearranges any range around it.
proof fn lemma_kd_rearranged_widen(
    c0: Seq<int>,
    i0: Seq<nat>,
    c1: Seq<int>,
    i1: Seq<nat>,
    lo: int,
    hi: int,
    lo2: int,
    hi2: int,
)
    requires
        0 <= lo2 <= lo <= hi <= hi2,
        2 * hi2 + 2 <= c0.len(),
        hi2 < i0.len(),
        kd_rearranged(c0, i0, c1, i1, lo, hi),
    ensures
        kd_rearranged(c0, i0, c1, i1, lo2, hi2),
{
    broadcast use vstd::multiset::group_multiset_axioms;

    let a0 = kd_items_in(c0, i0, lo2, lo);
    let m0 = kd_items_in(c0, i0, lo, hi + 1);
    let e0 = kd_items_in(c0, i0, hi + 1, hi2 + 1);
    let a1 = kd_items_in(c1, i1, lo2, lo);
    let m1 = kd_items_in(c1, i1, lo, hi + 1);
    let e1 = kd_items_in(c1, i1, hi + 1, hi2 + 1);
    assert(kd_items_in(c0, i0, lo2, hi2 + 1) =~= a0 + m0 + e0);
    assert(kd_items_in(c1, i1, lo2, hi2 + 1) =~= a1 + m1 + e1);
    assert(a1 =~= a0) by {
        assert forall|u: int| 0 <= u < a1.len() implies a1[u] == a0[u] by {
            let k = lo2 + u;
            assert(c1[2 * k] == c0[2 * k]);
            assert(c1[2 * k + 1] == c0[2 * k + 1]);
            assert(i1[k] == i0[k]);
        }
    }
    assert(e1 =~= e0) by {
        assert forall|u: int| 0 <= u < e1.len() implies e1[u] == e0[u] by {
            let k = hi + 1 + u;
            assert(c1[2 * k] == c0[2 * k]);
            assert(c1[2 * k + 1] == c0[2 * k + 1]);
            assert(i1[k] == i0[k]);
        }
    }
    lemma_multiset_commutative(a0, m0);
    lemma_multiset_commutative(a0 + m0, e0);
    lemma_multiset_commutative(a1, m1);
    lemma_multiset_commutative(a1 + m1, e1);
}

/// Each point of a rearranged range was a point of the range before.
pub proof fn lemma_kd_rearranged_member(
    c0: Seq<int>,
    i0: Seq<nat>,
    c1: Seq<int>,
    i1: Seq<nat>,
    lo: int,
    hi: int,
    k: int,
) -> (k2: int)
    requires
        0 <= lo <= k <= hi,
        2 * hi + 2 <= c0.len(),
        hi < i0.len(),
        kd_rearranged(c0, i0, c1, i1, lo, hi),
    ensures
        lo <= k2 <= hi,
        c1[2 * k] == c0[2 * k2],
        c1[2 * k + 1] == c0[2 * k2 + 1],
        i1[k] == i0[k2],
        forall|axis: int| 0 <= axis <= 1 ==> #[trigger] kd_coord(c1, k, axis) == kd_coord(c0, k2, axis),
{
    let s = kd_items_in(c0, i0, lo, hi + 1);
    let t = kd_items_in(c1, i1, lo, hi + 1);
    let x = t[k - lo];
    assert(t.contains(x));
    to_multiset_contains(t, x);
    to_multiset_contains(s, x);
    let u = choose|u: int| 0 <= u < s.len() && s[u] == x;
    let k2 = lo + u;
    assert forall|axis: int| 0 <= axis <= 1 implies #[trigger] kd_coord(c1, k, axis) == kd_coord(
        c0,
        k2,
        axis,
    ) by {
        if axis == 0 {
            assert(c1[2 * k + 0] == c1[2 * k]);
            assert(c0[2 * k2 + 0] == c0[2 * k2]);
        }
    }
    k2
}

/// The k-d order of a range only reads the coordinates of the range.
proof fn lemma_kd_sorted_frame(
    c1: Seq<int>,
    c2: Seq<int>,
    node_size: int,
    left: int,
    right: int,
    axis: int,
)
    requires
        0 <= axis <= 1,
        kd_sorted(c1, node_size, left, right, axis),
        forall|p: int| 2 * left <= p < 2 * right + 2 ==> #[trigger] c1[p] == c2[p],
    ensures
        kd_sorted(c2, node_size, left, right, axis),
    decreases right - left,
{
    if !(right - left <= node_size || node_size < 1) {
        let m = (left + right) / 2;
        assert(c1[2 * m + axis] == c2[2 * m + axis]);
        assert forall|p: int| left <= p < m implies #[trigger] kd_coord(c2, p, axis) <= kd_coord(
            c2,
            m,
            axis,
        ) by {
            assert(kd_coord(c1, p, axis) <= kd_coord(c1, m, axis));
            assert(c1[2 * p + axis] == c2[2 * p + axis]);
        }
        assert forall|p: int| m < p <= right implies #[trigger] kd_coord(c2, p, axis) >= kd_coord(
            c2,
            m,
            axis,
        ) by {
            assert(kd_coord(c1, p, axis) >= kd_coord(c1, m, axis));
            assert(c1[2 * p + axis] == c2[2 * p + axis]);
        }
        lemma_kd_sorted_frame(c1, c2, node_size, left, m - 1, 1 - axis);
        lemma_kd_sorted_frame(c1, c2, node_size, m + 1, right, 1 - axis);
    }
}

/// The coordinates with points `i` and `j` swapped.
pub open spec fn swap_points(c: Seq<int>, i: int, j: int) -> Seq<int> {
    Seq::new(
        c.len(),
        |p: int|
            if p / 2 == i {
                c[2 * j + p % 2]
            } else if p / 2 == j {
                c[2 * i + p % 2]
            } else {
                c[p]
            },
    )
}

/// The indices with those of points `i` and `j` swapped.
pub open spec fn swap_ids(ids: Seq<nat>, i: int, j: int) -> Seq<nat> {
    ids.update(i, ids[j]).update(j, ids[i])
}

/// The first point from `i` on, before `bound`, whose coordinate on `axis` is not below `t`
/// (`bound` when there is none).
pub open spec fn scan_up(c: Seq<int>, t: int, i: int, axis: int, bound: int) -> int
    decreases bound - i,
{
    if i < bound && kd_coord(c, i, axis) < t {
        scan_up(c, t, i + 1, axis, bound)
    } else {
        i
    }
}

/// The last point from `j` down, after `lower`, whose coordinate on `axis` is not above `t`
/// (`lower` when there is none).
pub open spec fn scan_down(c: Seq<int>, t: int, j: int, axis: int, lower: int) -> int
    decreases j - lower,
{
    if j > lower && kd_coord(c, j, axis) > t {
        scan_down(c, t, j - 1, axis, lower)
    } else {
        j
    }
}

/// A scan up stays between its start and its bound.
pub proof fn lemma_scan_up_bounds(c: Seq<int>, t: int, i: int, axis: int, bound: int)
    requires
        i <= bound,
    ensures
        i <= scan_up(c, t, i, axis, bound) <= bound,
    decreases bound - i,
{
    if i < bound && kd_coord(c, i, axis) < t {
        lemma_scan_up_bounds(c, t, i + 1, axis, bound);
    }
}

/// A scan down stays between its lower end and its start.
pub proof fn lemma_scan_down_bounds(c: Seq<int>, t: int, j: int, axis: int, lower: int)
    requires
        lower <= j,
    ensures
        lower <= scan_down(c, t, j, axis, lower) <= j,
    decreases j - lower,
{
    if j > lower && kd_coord(c, j, axis) > t {
        lemma_scan_down_bounds(c, t, j - 1, axis, lower);
    }
}

/// The exchange loop of a partition around the value `t`, from `i` up and `j` down: the points
/// and indices it leaves, and where `j` stops.
pub open spec fn partition_loop(c: Seq<int>, ids: Seq<nat>, t: int, i: int, j: int, axis: int) -> (
    Seq<int>,
    Seq<nat>,
    int,
)
    decreases j + 1 - i,
{
    if i < j {
        let c1 = swap_points(c, i, j);
        let ids1 = swap_ids(ids, i, j);
        let i2 = scan_up(c1, t, i + 1, axis, j);
        let j2 = scan_down(c1, t, j - 1, axis, i2 - 1);
        proof {
            lemma_scan_up_bounds(c1, t, i + 1, axis, j);
            lemma_scan_down_bounds(c1, t, j - 1, axis, i2 - 1);
        }
        partition_loop(c1, ids1, t, i2, j2, axis)
    } else {
        (c, ids, j)
    }
}

/// One partition step of the selection of rank `k` in `left..=right` along `axis`: the points
/// and indices it leaves, and where the value of point `k` ends.
pub open spec fn partition_spec(c: Seq<int>, ids: Seq<nat>, k: int, left: int, right: int, axis: int) -> (
    Seq<int>,
    Seq<nat>,
    int,
) {
    let t = kd_coord(c, k, axis);
    let c1 = swap_points(c, left, k);
    let ids1 = swap_ids(ids, left, k);
    let swap_right = kd_coord(c1, right, axis) > t;
    let c2 = if swap_right {
        swap_points(c1, left, right)
    } else {
        c1
    };
    let ids2 = if swap_right {
        swap_ids(ids1, left, right)
    } else {
        ids1
    };
    let (c3, ids3, j) = partition_loop(c2, ids2, t, left, right, axis);
    if kd_coord(c3, left, axis) == t {
        (swap_points(c3, left, j), swap_ids(ids3, left, j), j)
    } else {
        (swap_points(c3, j + 1, right), swap_ids(ids3, j + 1, right), j + 1)
    }
}

/// The points and indices that the selection of rank `k` in `lo..=hi` along `axis` leaves.
pub open spec fn select_spec(c: Seq<int>, ids: Seq<nat>, k: int, lo: int, hi: int, axis: int) -> (
    Seq<int>,
    Seq<nat>,
)
    decreases hi + 2 - lo,
{
    if hi > lo {
        let (c1, ids1, j) = partition_spec(c, ids, k, lo, hi, axis);
        let lo2 = if j <= k {
            j + 1
        } else {
            lo
        };
        let hi2 = if k <= j {
            j - 1
        } else {
            hi
        };
        if lo <= j <= hi && lo <= k <= hi {
            select_spec(c1, ids1, k, lo2, hi2, axis)
        } else {
            (c1, ids1)
        }
    } else {
        (c, ids)
    }
}

/// The points and indices that the k-d sort of `left..=right`, starting with `axis`, leaves:
/// select the middle point, then sort the two halves on the other axis.
pub open spec fn kd_sort_spec(c: Seq<int>, ids: Seq<nat>, ns: int, left: int, right: int, axis: int) -> (
    Seq<int>,
    Seq<nat>,
)
    decreases right - left,
{
    if right - left <= ns || ns < 1 {
        (c, ids)
    } else {
        let m = (left + right) / 2;
        let (c1, ids1) = select_spec(c, ids, m, left, right, axis);
        let (c2, ids2) = kd_sort_spec(c1, ids1, ns, left, m - 1, 1 - axis);
        kd_sort_spec(c2, ids2, ns, m + 1, right, 1 - axis)
    }
}

/// Swaps points `i` and `j` with their indices.
fn swap_item(ids: &mut MutableIndices, coords: &mut Vec<i64>, i: usize, j: usize)
    requires
        i < old(ids)@.len(),
        j < old(ids)@.len(),
        2 * i + 1 < old(coords)@.len(),
        2 * j + 1 < old(coords)@.len(),
    ensures
        final(coords)@.len() == old(coords)@.len(),
        final(ids)@.len() == old(ids)@.len(),
        final(ids).is_u16() == old(ids).is_u16(),
        forall|k: int|
            0 <= k < final(ids)@.len() && 2 * k + 1 < final(coords)@.len() ==> #[trigger] kd_item(
                ints(final(coords)@),
                final(ids)@,
                k,
            ) == kd_item(ints(old(coords)@), old(ids)@, swap_pos(i as int, j as int, k)),
        forall|k: int, axis: int|
            0 <= k && 2 * k + 1 < final(coords)@.len() && 0 <= axis <= 1 ==> #[trigger] kd_coord(
                ints(final(coords)@),
                k,
                axis,
            ) == kd_coord(ints(old(coords)@), swap_pos(i as int, j as int, k), axis),
        ints(final(coords)@) == swap_points(ints(old(coords)@), i as int, j as int),
        final(ids)@ == swap_ids(old(ids)@, i as int, j as int),
{
    let cl = coords.len();
    ids.swap(i, j);
    let xi = coords[2 * i];
    let yi = coords[2 * i + 1];
    let xj = coords[2 * j];
    let yj = coords[2 * j + 1];
    coords.set(2 * i, xj);
    coords.set(2 * i + 1, yj);
    coords.set(2 * j, xi);
    coords.set(2 * j + 1, yi);
    proof {
        let c0 = ints(old(coords)@);
        let c1 = ints(coords@);
        assert forall|k: int, axis: int| 0 <= k && 2 * k + 1 < c1.len() && 0 <= axis <= 1 implies #[trigger] kd_coord(
            c1,
            k,
            axis,
        ) == kd_coord(c0, swap_pos(i as int, j as int, k), axis) by {
            if axis == 0 {
                assert(c1[2 * k + 0] == c1[2 * k]);
            }
        }
        assert forall|k: int| 0 <= k < ids@.len() && 2 * k + 1 < c1.len() implies #[trigger] kd_item(c1, ids@, k) == kd_item(
            c0,
            old(ids)@,
            swap_pos(i as int, j as int, k),
        ) by {
            assert(kd_coord(c1, k, 0) == kd_coord(c0, swap_pos(i as int, j as int, k), 0));
            assert(kd_coord(c1, k, 1) == kd_coord(c0, swap_pos(i as int, j as int, k), 1));
        }
        assert(c1 =~= swap_points(c0, i as int, j as int)) by {
            assert forall|p: int| 0 <= p < c1.len() implies c1[p] == swap_points(c0, i as int, j as int)[p] by {
                let q = p / 2;
                let a = p % 2;
                assert(p == 2 * q + a && 0 <= a <= 1);
                assert(kd_coord(c1, q, a) == kd_coord(c0, swap_pos(i as int, j as int, q), a));
            }
        }
    }
}

/// A swap of two points of `lo..=hi` rearranges that range.
proof fn lemma_swap_rearranges(
    c0: Seq<int>,
    i0: Seq<nat>,
    c1: Seq<int>,
    i1: Seq<nat>,
    lo: int,
    hi: int,
    i: int,
    j: int,
)
    requires
        0 <= lo <= i <= hi,
        lo <= j <= hi,
        hi < i0.len(),
        2 * hi + 1 < c0.len(),
        c1 == swap_points(c0, i, j),
        i1 == swap_ids(i0, i, j),
    ensures
        kd_rearranged(c0, i0, c1, i1, lo, hi),
{
    assert forall|k: int|
        0 <= k < i1.len() && 2 * k + 1 < c1.len() implies #[trigger] kd_item(c1, i1, k) == kd_item(
        c0,
        i0,
        swap_pos(i, j, k),
    ) by {
        assert((2 * k) / 2 == k && (2 * k) % 2 == 0);
        assert((2 * k + 1) / 2 == k && (2 * k + 1) % 2 == 1);
    }
    lemma_kd_swap_items(c0, i0, c1, i1, lo, hi + 1, i, j);
    assert forall|p: int| 0 <= p < c1.len() && !(2 * lo <= p < 2 * hi + 2) implies #[trigger] c1[p]
        == c0[p] by {
        assert(p / 2 != i && p / 2 != j);
    }
}

/// Moves the value of point `k` along `axis` to its place in `left..=right` (one partition
/// step of Floyd–Rivest selection): returns `j` where that value now is, with at most it before
/// `j` and at least it after.
fn partition_around(
    ids: &mut MutableIndices,
    coords: &mut Vec<i64>,
    k: usize,
    left: usize,
    right: usize,
    axis: usize,
) -> (j: usize)
    requires
        left < right < old(ids)@.len(),
        left <= k <= right,
        2 * right + 1 < old(coords)@.len(),
        axis <= 1,
    ensures
        left <= j <= right,
        kd_coord(ints(final(coords)@), j as int, axis as int) == kd_coord(
            ints(old(coords)@),
            k as int,
            axis as int,
        ),
        forall|p: int|
            left <= p < j ==> #[trigger] kd_coord(ints(final(coords)@), p, axis as int) <= kd_coord(
                ints(old(coords)@),
                k as int,
                axis as int,
            ),
        forall|p: int|
            j < p <= right ==> #[trigger] kd_coord(ints(final(coords)@), p, axis as int) >= kd_coord(
                ints(old(coords)@),
                k as int,
                axis as int,
            ),
        kd_rearranged(
            ints(old(coords)@),
            old(ids)@,
            ints(final(coords)@),
            final(ids)@,
            left as int,
            right as int,
        ),
        final(ids).is_u16() == old(ids).is_u16(),
        (ints(final(coords)@), final(ids)@, j as int) == partition_spec(
            ints(old(coords)@),
            old(ids)@,
            k as int,
            left as int,
            right as int,
            axis as int,
        ),
{
    let ghost c0 = ints(old(coords)@);
    let ghost i0 = old(ids)@;
    let ghost ax = axis as int;
    let cl = coords.len();
    let t = coords[2 * k + axis];
    let mut i = left;
    let mut j = right;
    swap_item(ids, coords, left, k);
    proof {
        lemma_swap_rearranges(c0, i0, ints(coords@), ids@, left as int, right as int, left as int, k as int);
    }
    if coords[2 * right + axis] > t {
        let ghost cb = ints(coords@);
        let ghost ib = ids@;
        swap_item(ids, coords, left, right);
        proof {
            lemma_swap_rearranges(cb, ib, ints(coords@), ids@, left as int, right as int, left as int, right as int);
        }
    }
    let ghost c2 = ints(coords@);
    let ghost ids2 = ids@;
    let ghost mut started = false;
    while i < j
        invariant
            partition_loop(ints(coords@), ids@, t as int, i as int, j as int, ax) == partition_loop(
                c2,
                ids2,
                t as int,
                left as int,
                right as int,
                ax,
            ),
            left <= i <= j + 1,
            left <= j <= right,
            right < ids@.len(),
            2 * right + 1 < coords@.len(),
            cl == coords@.len(),
            ids@.len() == i0.len(),
            axis <= 1,
            ax == axis,
            t as int == kd_coord(c0, k as int, ax),
            forall|p: int| left <= p < i ==> #[trigger] kd_coord(ints(coords@), p, ax) <= t,
            forall|p: int| j < p <= right ==> #[trigger] kd_coord(ints(coords@), p, ax) >= t,
            kd_coord(ints(coords@), j as int, ax) <= t,
            i <= j ==> kd_coord(ints(coords@), i as int, ax) >= t,
            kd_coord(ints(coords@), left as int, ax) == t || kd_coord(ints(coords@), right as int, ax)
                == t,
            !started ==> i == left && j == right,
            started ==> left < i && j < right,
            kd_rearranged(c0, i0, ints(coords@), ids@, left as int, right as int),
            ids.is_u16() == old(ids).is_u16(),
        decreases j + 1 - i,
    {
        let ghost cb = ints(coords@);
        let ghost ib = ids@;
        let ghost i_old = i as int;
        let ghost j_old = j as int;
        swap_item(ids, coords, i, j);
        let ghost c1 = ints(coords@);
        proof {
            lemma_swap_rearranges(cb, ib, ints(coords@), ids@, left as int, right as int, i as int, j as int);
            assert(kd_coord(ints(coords@), i as int, ax) == kd_coord(cb, j as int, ax));
            assert(kd_coord(ints(coords@), j as int, ax) == kd_coord(cb, i as int, ax));
            assert forall|p: int| left <= p <= i implies #[trigger] kd_coord(ints(coords@), p, ax) <= t by {
                if p < i {
                    assert(kd_coord(ints(coords@), p, ax) == kd_coord(cb, swap_pos(i as int, j as int, p), ax));
                }
            }
            assert forall|p: int| j <= p <= right implies #[trigger] kd_coord(ints(coords@), p, ax) >= t by {
                if p > j {
                    assert(kd_coord(ints(coords@), p, ax) == kd_coord(cb, swap_pos(i as int, j as int, p), ax));
                }
            }
            if !started {
                assert(kd_coord(ints(coords@), left as int, ax) == t || kd_coord(ints(coords@), right as int, ax) == t);
            } else {
                assert(kd_coord(ints(coords@), left as int, ax) == kd_coord(cb, left as int, ax));
                assert(kd_coord(ints(coords@), right as int, ax) == kd_coord(cb, right as int, ax));
            }
        }
        i = i + 1;
        j = j - 1;
        let ghost i_start = i;
        let ghost j_start = j;
        while coords[2 * i + axis] < t
            invariant
                ints(coords@) == c1,
                scan_up(c1, t as int, i as int, ax, j + 1) == scan_up(c1, t as int, i_start as int, ax, j + 1),
                i_start <= i,
                j == j_start,
                left < i <= j + 1,
                j + 1 <= right,
                right < ids@.len(),
                2 * right + 1 < coords@.len(),
                cl == coords@.len(),
                axis <= 1,
                ax == axis,
                kd_coord(ints(coords@), j + 1, ax) >= t,
                forall|p: int| left <= p < i ==> #[trigger] kd_coord(ints(coords@), p, ax) <= t,
            decreases j + 1 - i,
        {
            i = i + 1;
        }
        let ghost j_scan = j;
        proof {
            assert(scan_up(c1, t as int, i as int, ax, j + 1) == i);
        }
        while coords[2 * j + axis] > t
            invariant
                ints(coords@) == c1,
                scan_down(c1, t as int, j as int, ax, i - 1) == scan_down(c1, t as int, j_scan as int, ax, i - 1),
                i_start <= i,
                j <= j_start,
                left < i,
                i - 1 <= j,
                j < right,
                right < ids@.len(),
                2 * right + 1 < coords@.len(),
                cl == coords@.len(),
                axis <= 1,
                ax == axis,
                kd_coord(ints(coords@), i - 1, ax) <= t,
                forall|p: int| j < p <= right ==> #[trigger] kd_coord(ints(coords@), p, ax) >= t,
            decreases j,
        {
            j = j - 1;
        }
        proof {
            assert(scan_down(c1, t as int, j as int, ax, i - 1) == j);
            assert(i_start == i_old + 1 && j_scan == j_old - 1);
            assert(partition_loop(cb, ib, t as int, i_old, j_old, ax) == partition_loop(
                c1,
                ids@,
                t as int,
                i as int,
                j as int,
                ax,
            ));
            started = true;
        }
    }
    let ghost cb = ints(coords@);
    let ghost ib = ids@;
    proof {
        assert(partition_loop(cb, ib, t as int, i as int, j as int, ax) == (cb, ib, j as int));
    }
    if coords[2 * left + axis] == t {
        swap_item(ids, coords, left, j);
        proof {
            lemma_swap_rearranges(cb, ib, ints(coords@), ids@, left as int, right as int, left as int, j as int);
            assert(kd_coord(ints(coords@), j as int, ax) == kd_coord(cb, left as int, ax));
            assert forall|p: int| left <= p < j implies #[trigger] kd_coord(ints(coords@), p, ax) <= t by {
                assert(kd_coord(ints(coords@), p, ax) == kd_coord(cb, swap_pos(left as int, j as int, p), ax));
            }
            assert forall|p: int| j < p <= right implies #[trigger] kd_coord(ints(coords@), p, ax) >= t by {
                assert(kd_coord(ints(coords@), p, ax) == kd_coord(cb, swap_pos(left as int, j as int, p), ax));
            }
        }
    } else {
        j = j + 1;
        swap_item(ids, coords, j, right);
        proof {
            lemma_swap_rearranges(cb, ib, ints(coords@), ids@, left as int, right as int, j as int, right as int);
            assert(kd_coord(ints(coords@), j as int, ax) == kd_coord(cb, right as int, ax));
            assert forall|p: int| left <= p < j implies #[trigger] kd_coord(ints(coords@), p, ax) <= t by {
                assert(kd_coord(ints(coords@), p, ax) == kd_coord(cb, swap_pos(j as int, right as int, p), ax));
            }
            assert forall|p: int| j < p <= right implies #[trigger] kd_coord(ints(coords@), p, ax) >= t by {
                assert(kd_coord(ints(coords@), p, ax) == kd_coord(cb, swap_pos(j as int, right as int, p), ax));
            }
        }
    }
    j
}

/// The selection of rank `k` in `left..=right` along `axis` has fixed the points before `lo`
/// (each at most every point from `lo` on) and the points after `hi` (each at least every point
/// up to `hi`).
pub open spec fn select_bounds(
    coords: Seq<int>,
    left: int,
    right: int,
    lo: int,
    hi: int,
    axis: int,
) -> bool {
    &&& forall|p: int, q: int|
        left <= p < lo && lo <= q <= right ==> #[trigger] kd_coord(coords, p, axis)
            <= #[trigger] kd_coord(coords, q, axis)
    &&& forall|p: int, q: int|
        left <= p <= hi && hi < q <= right ==> #[trigger] kd_coord(coords, p, axis)
            <= #[trigger] kd_coord(coords, q, axis)
}

/// A partition step of `lo..=hi` around `k` keeps the fixed ends and fixes the side of its
/// result `j` that does not hold `k`.
proof fn lemma_select_step(
    cb: Seq<int>,
    ib: Seq<nat>,
    ca: Seq<int>,
    ia: Seq<nat>,
    left: int,
    right: int,
    lo: int,
    hi: int,
    k: int,
    j: int,
    axis: int,
)
    requires
        0 <= left <= lo <= k <= hi <= right,
        lo <= j <= hi,
        right < ib.len(),
        2 * right + 1 < cb.len(),
        0 <= axis <= 1,
        select_bounds(cb, left, right, lo, hi, axis),
        kd_rearranged(cb, ib, ca, ia, lo, hi),
        kd_coord(ca, j, axis) == kd_coord(cb, k, axis),
        forall|p: int| lo <= p < j ==> #[trigger] kd_coord(ca, p, axis) <= kd_coord(cb, k, axis),
        forall|p: int| j < p <= hi ==> #[trigger] kd_coord(ca, p, axis) >= kd_coord(cb, k, axis),
    ensures
        select_bounds(
            ca,
            left,
            right,
            if j <= k {
                j + 1
            } else {
                lo
            },
            if k <= j {
                j - 1
            } else {
                hi
            },
            axis,
        ),
{
    let t = kd_coord(cb, k, axis);
    // the values of lo..=hi are the values that were there
    assert forall|p: int, q: int|
        left <= p < lo && lo <= q <= right implies #[trigger] kd_coord(ca, p, axis)
        <= #[trigger] kd_coord(ca, q, axis) by {
        assert(0 <= 2 * p + axis < 2 * lo);
        assert(ca[2 * p + axis] == cb[2 * p + axis]);
        assert(kd_coord(ca, p, axis) == kd_coord(cb, p, axis));
        if q <= hi {
            let q2 = lemma_kd_rearranged_member(cb, ib, ca, ia, lo, hi, q);
            assert(kd_coord(ca, q, axis) == kd_coord(cb, q2, axis));
            assert(kd_coord(cb, p, axis) <= kd_coord(cb, q2, axis));
        } else {
            assert(ca[2 * q + axis] == cb[2 * q + axis]);
            assert(kd_coord(cb, p, axis) <= kd_coord(cb, q, axis));
        }
    }
    assert forall|p: int, q: int|
        left <= p <= hi && hi < q <= right implies #[trigger] kd_coord(ca, p, axis)
        <= #[trigger] kd_coord(ca, q, axis) by {
        assert(kd_coord(ca, q, axis) == kd_coord(cb, q, axis)) by {
            assert(ca[2 * q + axis] == cb[2 * q + axis]);
        }
        if p >= lo {
            let p2 = lemma_kd_rearranged_member(cb, ib, ca, ia, lo, hi, p);
            assert(kd_coord(cb, p2, axis) <= kd_coord(cb, q, axis));
        } else {
            assert(ca[2 * p + axis] == cb[2 * p + axis]);
        }
    }
    let lo2 = if j <= k {
        j + 1
    } else {
        lo
    };
    let hi2 = if k <= j {
        j - 1
    } else {
        hi
    };
    // t lies between the fixed ends
    assert forall|p: int, q: int|
        left <= p < lo2 && lo2 <= q <= right implies #[trigger] kd_coord(ca, p, axis)
        <= #[trigger] kd_coord(ca, q, axis) by {
        if p >= lo && j <= k {
            assert(kd_coord(ca, p, axis) <= t);
            if q <= hi {
                assert(kd_coord(ca, q, axis) >= t);
            } else {
                assert(kd_coord(ca, j, axis) <= kd_coord(ca, q, axis));
            }
        }
    }
    assert forall|p: int, q: int|
        left <= p <= hi2 && hi2 < q <= right implies #[trigger] kd_coord(ca, p, axis)
        <= #[trigger] kd_coord(ca, q, axis) by {
        if q <= hi && k <= j {
            assert(kd_coord(ca, q, axis) >= t);
            if p >= lo {
                assert(kd_coord(ca, p, axis) <= t);
            } else {
                assert(kd_coord(ca, p, axis) <= kd_coord(ca, j, axis));
            }
        }
    }
}

/// Selection by repeated partition (the exchange steps of Floyd–Rivest selection, without its
/// sampling of large ranges): rearranges `left..=right` so that point `k` holds the value of
/// rank `k` along `axis`, with the points before it at most it and the points after at least it.
fn select(
    ids: &mut MutableIndices,
    coords: &mut Vec<i64>,
    k: usize,
    left: usize,
    right: usize,
    axis: usize,
)
    requires
        left <= k <= right < old(ids)@.len(),
        1 <= k,
        2 * right + 1 < old(coords)@.len(),
        axis <= 1,
    ensures
        kd_rearranged(
            ints(old(coords)@),
            old(ids)@,
            ints(final(coords)@),
            final(ids)@,
            left as int,
            right as int,
        ),
        forall|p: int|
            left <= p < k ==> #[trigger] kd_coord(ints(final(coords)@), p, axis as int) <= kd_coord(
                ints(final(coords)@),
                k as int,
                axis as int,
            ),
        forall|p: int|
            k < p <= right ==> #[trigger] kd_coord(ints(final(coords)@), p, axis as int) >= kd_coord(
                ints(final(coords)@),
                k as int,
                axis as int,
            ),
        final(ids).is_u16() == old(ids).is_u16(),
        (ints(final(coords)@), final(ids)@) == select_spec(
            ints(old(coords)@),
            old(ids)@,
            k as int,
            left as int,
            right as int,
            axis as int,
        ),
{
    let ghost c0 = ints(old(coords)@);
    let ghost i0 = old(ids)@;
    let ghost ax = axis as int;
    let cl = coords.len();
    let mut lo = left;
    let mut hi = right;
    while hi > lo
        invariant
            cl == coords@.len(),
            left <= lo,
            hi <= right,
            right < ids@.len(),
            2 * right + 1 < coords@.len(),
            ids@.len() == i0.len(),
            axis <= 1,
            ax == axis,
            left <= k <= right,
            1 <= k,
            (lo <= k <= hi) || (lo == k + 1 && hi == k - 1),
            kd_rearranged(c0, i0, ints(coords@), ids@, left as int, right as int),
            select_bounds(ints(coords@), left as int, right as int, lo as int, hi as int, ax),
            ids.is_u16() == old(ids).is_u16(),
            select_spec(ints(coords@), ids@, k as int, lo as int, hi as int, ax) == select_spec(
                c0,
                i0,
                k as int,
                left as int,
                right as int,
                ax,
            ),
        decreases hi + 2 - lo,
    {
        let ghost cb = ints(coords@);
        let ghost ib = ids@;
        let ghost lo0 = lo as int;
        let ghost hi0 = hi as int;
        let j = partition_around(ids, coords, k, lo, hi, axis);
        proof {
            lemma_select_step(
                cb,
                ib,
                ints(coords@),
                ids@,
                left as int,
                right as int,
                lo as int,
                hi as int,
                k as int,
                j as int,
                ax,
            );
            lemma_kd_rearranged_widen(
                cb,
                ib,
                ints(coords@),
                ids@,
                lo as int,
                hi as int,
                left as int,
                right as int,
            );
        }
        if j <= k {
            lo = j + 1;
        }
        if k <= j {
            hi = j - 1;
        }
        proof {
            assert(select_spec(cb, ib, k as int, lo0, hi0, ax) == select_spec(
                ints(coords@),
                ids@,
                k as int,
                lo as int,
                hi as int,
                ax,
            ));
        }
    }
    proof {
        let c = ints(coords@);
        assert forall|p: int| left <= p < k implies #[trigger] kd_coord(c, p, ax) <= kd_coord(
            c,
            k as int,
            ax,
        ) by {
            if lo == k + 1 {
                assert(kd_coord(c, p, ax) <= kd_coord(c, k as int, ax));
            } else {
                assert(kd_coord(c, p, ax) <= kd_coord(c, k as int, ax));
            }
        }
        assert forall|p: int| k < p <= right implies #[trigger] kd_coord(c, p, ax) >= kd_coord(
            c,
            k as int,
            ax,
        ) by {
            assert(kd_coord(c, k as int, ax) <= kd_coord(c, p, ax));
        }
    }
}

/// Sorts the points of `left..=right` (with their indices) into k-d order, starting with
/// `axis`.
#[verifier::spinoff_prover]
#[verifier::rlimit(60)]
pub fn kd_sort(
    ids: &mut MutableIndices,
    coords: &mut Vec<i64>,
    node_size: usize,
    left: usize,
    right: usize,
    axis: usize,
)
    requires
        left <= right < old(ids)@.len(),
        old(coords)@.len() == 2 * old(ids)@.len(),
        node_size >= 1,
        axis <= 1,
    ensures
        kd_rearranged(
            ints(old(coords)@),
            old(ids)@,
            ints(final(coords)@),
            final(ids)@,
            left as int,
            right as int,
        ),
        kd_sorted(ints(final(coords)@), node_size as int, left as int, right as int, axis as int),
        final(ids).is_u16() == old(ids).is_u16(),
        (ints(final(coords)@), final(ids)@) == kd_sort_spec(
            ints(old(coords)@),
            old(ids)@,
            node_size as int,
            left as int,
            right as int,
            axis as int,
        ),
    decreases right - left,
{
    if right - left <= node_size {
        return;
    }
    let cl = coords.len();
    // middle index
    let m = (left + right) / 2;
    let ghost c0 = ints(coords@);
    let ghost i0 = ids@;
    let ghost ax = axis as int;
    // sort ids and coords around the middle index so that the halves lie either left/right or
    // top/bottom correspondingly (taking turns)
    select(ids, coords, m, left, right, axis);
    let ghost c1 = ints(coords@);
    let ghost i1 = ids@;
    // recursively kd-sort first half and second half on the opposite axis
    kd_sort(ids, coords, node_size, left, m - 1, 1 - axis);
    let ghost c2 = ints(coords@);
    let ghost i2 = ids@;
    kd_sort(ids, coords, node_size, m + 1, right, 1 - axis);
    let ghost c3 = ints(coords@);
    let ghost i3 = ids@;
    proof {
        assert((c3, i3) == kd_sort_spec(c0, i0, node_size as int, left as int, right as int, ax));
        assert forall|p: int| left <= p < m implies #[trigger] kd_coord(c3, p, ax) <= kd_coord(
            c3,
            m as int,
            ax,
        ) by {
            let p2 = lemma_kd_rearranged_member(c1, i1, c2, i2, left as int, m - 1, p);
            assert(c3[2 * p + ax] == c2[2 * p + ax]);
            assert(c3[2 * m + ax] == c2[2 * m + ax]);
            assert(c2[2 * m + ax] == c1[2 * m + ax]);
            assert(kd_coord(c1, p2, ax) <= kd_coord(c1, m as int, ax));
        }
        assert forall|p: int| m < p <= right implies #[trigger] kd_coord(c3, p, ax) >= kd_coord(
            c3,
            m as int,
            ax,
        ) by {
            let p2 = lemma_kd_rearranged_member(c2, i2, c3, i3, m + 1, right as int, p);
            assert(c2[2 * p2 + ax] == c1[2 * p2 + ax]);
            assert(c3[2 * m + ax] == c2[2 * m + ax]);
            assert(c2[2 * m + ax] == c1[2 * m + ax]);
            assert(kd_coord(c1, p2, ax) >= kd_coord(c1, m as int, ax));
        }
        assert forall|p: int| 2 * left <= p < 2 * (m - 1) + 2 implies #[trigger] c2[p] == c3[p] by {}
        lemma_kd_sorted_frame(c2, c3, node_size as int, left as int, m - 1, 1 - ax);
        lemma_kd_rearranged_widen(c1, i1, c2, i2, left as int, m - 1, left as int, right as int);
        lemma_kd_rearranged_widen(c2, i2, c3, i3, m + 1, right as int, left as int, right as int);
    }
}

} // verus!
