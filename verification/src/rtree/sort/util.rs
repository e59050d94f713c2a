//! Moving boxes together with their sort values and indices.
use vstd::prelude::*;
use vstd::seq_lib::{lemma_multiset_commutative, to_multiset_contains, to_multiset_update};

use crate::indices::MutableIndices;

verus! {

/// The integer values of a sequence of `i64`.
pub open spec fn ints(v: Seq<i64>) -> Seq<int> {
    v.map_values(|x: i64| x as int)
}

/// The box of node `k` (four coordinates) together with its index.
pub open spec fn box_item(boxes: Seq<int>, indices: Seq<nat>, k: int) -> (int, int, int, int, nat) {
    (boxes[4 * k], boxes[4 * k + 1], boxes[4 * k + 2], boxes[4 * k + 3], indices[k])
}

/// The boxes with their indices of the nodes `lo..hi`.
pub open spec fn items_in(boxes: Seq<int>, indices: Seq<nat>, lo: int, hi: int) -> Seq<
    (int, int, int, int, nat),
> {
    Seq::new((hi - lo) as nat, |t: int| box_item(boxes, indices, lo + t))
}

/// The node that comes to `k` when nodes `i` and `j` are swapped.
pub open spec fn swap_pos(i: int, j: int, k: int) -> int {
    if k == i {
        j
    } else if k == j {
        i
    } else {
        k
    }
}

/// The values of `lo..=hi` are sorted across blocks of `ns` positions: a value in an earlier
/// block is never larger than a value in a later block (within a block the order is free).
pub open spec fn blocks_sorted(values: Seq<int>, lo: int, hi: int, ns: int) -> bool {
    forall|a: int, b: int|
        lo <= a <= b <= hi && a / ns < b / ns ==> #[trigger] values[a] <= #[trigger] values[b]
}

/// Each value is the key of the box at the same position.
pub open spec fn keyed(values: Seq<int>, boxes: Seq<int>, key: spec_fn(int, int, int, int) -> int) -> bool {
    &&& boxes.len() >= 4 * values.len()
    &&& forall|k: int|
        0 <= k < values.len() ==> #[trigger] values[k] == key(
            boxes[4 * k],
            boxes[4 * k + 1],
            boxes[4 * k + 2],
            boxes[4 * k + 3],
        )
}

/// The nodes `lo..=hi` hold the same boxes with their indices as before, in some order, and all
/// other nodes are unchanged.
pub open spec fn rearranged(
    old_boxes: Seq<int>,
    old_indices: Seq<nat>,
    boxes: Seq<int>,
    indices: Seq<nat>,
    lo: int,
    hi: int,
) -> bool {
    &&& boxes.len() == old_boxes.len()
    &&& indices.len() == old_indices.len()
    &&& items_in(boxes, indices, lo, hi + 1).to_multiset() == items_in(
        old_boxes,
        old_indices,
        lo,
        hi + 1,
    ).to_multiset()
    &&& forall|p: int|
        0 <= p < boxes.len() && !(4 * lo <= p < 4 * hi + 4) ==> #[trigger] boxes[p] == old_boxes[p]
    &&& forall|k: int|
        0 <= k < indices.len() && !(lo <= k <= hi) ==> #[trigger] indices[k] == old_indices[k]
}

/// Swapping two nodes inside `lo..hi` keeps the multiset of their boxes with indices.
pub proof fn lemma_swap_items(
    old_boxes: Seq<int>,
    old_indices: Seq<nat>,
    boxes: Seq<int>,
    indices: Seq<nat>,
    lo: int,
    hi: int,
    i: int,
    j: int,
)
    requires
        0 <= lo,
        lo <= i < hi,
        lo <= j < hi,
        4 * hi <= old_boxes.len(),
        hi <= old_indices.len(),
        boxes.len() == old_boxes.len(),
        indices.len() == old_indices.len(),
        forall|k: int|
            0 <= k < indices.len() && 4 * k + 3 < boxes.len() ==> #[trigger] box_item(
                boxes,
                indices,
                k,
            ) == box_item(old_boxes, old_indices, swap_pos(i, j, k)),
    ensures
        items_in(boxes, indices, lo, hi).to_multiset() == items_in(
            old_boxes,
            old_indices,
            lo,
            hi,
        ).to_multiset(),
{
    let s = items_in(old_boxes, old_indices, lo, hi);
    let t = items_in(boxes, indices, lo, hi);
    let a = i - lo;
    let b = j - lo;
    assert forall|u: int| 0 <= u < t.len() implies #[trigger] t[u] == s.update(a, s[b]).update(
        b,
        s[a],
    )[u] by {
        assert(box_item(boxes, indices, lo + u) == box_item(
            old_boxes,
            old_indices,
            swap_pos(i, j, lo + u),
        ));
    }
    assert(t =~= s.update(a, s[b]).update(b, s[a]));
    to_multiset_update(s, a, s[b]);
    to_multiset_update(s.update(a, s[b]), b, s[a]);
    to_multiset_contains(s, s[a]);
    to_multiset_contains(s, s[b]);
    assert(s.contains(s[a]));
    assert(s.contains(s[b]));
    broadcast use vstd::multiset::group_multiset_axioms;

    assert(t.to_multiset() =~= s.to_multiset());
}

/// Rearranging two adjacent ranges rearranges their union.
pub proof fn lemma_rearranged_join(
    b0: Seq<int>,
    i0: Seq<nat>,
    b1: Seq<int>,
    i1: Seq<nat>,
    b2: Seq<int>,
    i2: Seq<nat>,
    lo: int,
    mid: int,
    hi: int,
)
    requires
        0 <= lo <= mid < hi,
        4 * hi + 4 <= b0.len(),
        hi < i0.len(),
        rearranged(b0, i0, b1, i1, lo, mid),
        rearranged(b1, i1, b2, i2, mid + 1, hi),
    ensures
        rearranged(b0, i0, b2, i2, lo, hi),
{
    broadcast use vstd::multiset::group_multiset_axioms;

    let l0 = items_in(b0, i0, lo, mid + 1);
    let r0 = items_in(b0, i0, mid + 1, hi + 1);
    let l1 = items_in(b1, i1, lo, mid + 1);
    let r1 = items_in(b1, i1, mid + 1, hi + 1);
    let l2 = items_in(b2, i2, lo, mid + 1);
    let r2 = items_in(b2, i2, mid + 1, hi + 1);
    assert(items_in(b0, i0, lo, hi + 1) =~= l0 + r0);
    assert(items_in(b2, i2, lo, hi + 1) =~= l2 + r2);
    assert(l2 =~= l1) by {
        assert forall|u: int| 0 <= u < l2.len() implies l2[u] == l1[u] by {
            let k = lo + u;
            assert(b2[4 * k] == b1[4 * k]);
            assert(b2[4 * k + 1] == b1[4 * k + 1]);
            assert(b2[4 * k + 2] == b1[4 * k + 2]);
            assert(b2[4 * k + 3] == b1[4 * k + 3]);
            assert(i2[k] == i1[k]);
        }
    }
    assert(r1 =~= r0) by {
        assert forall|u: int| 0 <= u < r1.len() implies r1[u] == r0[u] by {
            let k = mid + 1 + u;
            assert(b1[4 * k] == b0[4 * k]);
            assert(b1[4 * k + 1] == b0[4 * k + 1]);
            assert(b1[4 * k + 2] == b0[4 * k + 2]);
            assert(b1[4 * k + 3] == b0[4 * k + 3]);
            assert(i1[k] == i0[k]);
        }
    }
    lemma_multiset_commutative(l0, r0);
    lemma_multiset_commutative(l2, r2);
}

/// Rearranging a range twice rearranges it.
pub proof fn lemma_rearranged_trans(
    b0: Seq<int>,
    i0: Seq<nat>,
    b1: Seq<int>,
    i1: Seq<nat>,
    b2: Seq<int>,
    i2: Seq<nat>,
    lo: int,
    hi: int,
)
    requires
        rearranged(b0, i0, b1, i1, lo, hi),
        rearranged(b1, i1, b2, i2, lo, hi),
    ensures
        rearranged(b0, i0, b2, i2, lo, hi),
{
}

/// Rearranging a range rearranges any range around it.
pub proof fn lemma_rearranged_widen(
    b0: Seq<int>,
    i0: Seq<nat>,
    b1: Seq<int>,
    i1: Seq<nat>,
    lo: int,
    hi: int,
    lo2: int,
    hi2: int,
)
    requires
        0 <= lo2 <= lo <= hi <= hi2,
        4 * hi2 + 4 <= b0.len(),
        hi2 < i0.len(),
        rearranged(b0, i0, b1, i1, lo, hi),
    ensures
        rearranged(b0, i0, b1, i1, lo2, hi2),
{
    broadcast use vstd::multiset::group_multiset_axioms;

    let a0 = items_in(b0, i0, lo2, lo);
    let m0 = items_in(b0, i0, lo, hi + 1);
    let c0 = items_in(b0, i0, hi + 1, hi2 + 1);
    let a1 = items_in(b1, i1, lo2, lo);
    let m1 = items_in(b1, i1, lo, hi + 1);
    let c1 = items_in(b1, i1, hi + 1, hi2 + 1);
    assert(items_in(b0, i0, lo2, hi2 + 1) =~= a0 + m0 + c0);
    assert(items_in(b1, i1, lo2, hi2 + 1) =~= a1 + m1 + c1);
    assert(a1 =~= a0) by {
        assert forall|u: int| 0 <= u < a1.len() implies a1[u] == a0[u] by {
            let k = lo2 + u;
            assert(b1[4 * k] == b0[4 * k]);
            assert(b1[4 * k + 1] == b0[4 * k + 1]);
            assert(b1[4 * k + 2] == b0[4 * k + 2]);
            assert(b1[4 * k + 3] == b0[4 * k + 3]);
            assert(i1[k] == i0[k]);
        }
    }
    assert(c1 =~= c0) by {
        assert forall|u: int| 0 <= u < c1.len() implies c1[u] == c0[u] by {
            let k = hi + 1 + u;
            assert(b1[4 * k] == b0[4 * k]);
            assert(b1[4 * k + 1] == b0[4 * k + 1]);
            assert(b1[4 * k + 2] == b0[4 * k + 2]);
            assert(b1[4 * k + 3] == b0[4 * k + 3]);
            assert(i1[k] == i0[k]);
        }
    }
    lemma_multiset_commutative(a0, m0);
    lemma_multiset_commutative(a0 + m0, c0);
    lemma_multiset_commutative(a1, m1);
    lemma_multiset_commutative(a1 + m1, c1);
}

/// Each box of a rearranged range was a box of the range before.
pub proof fn lemma_rearranged_member(
    old_boxes: Seq<int>,
    old_indices: Seq<nat>,
    boxes: Seq<int>,
    indices: Seq<nat>,
    lo: int,
    hi: int,
    k: int,
) -> (k2: int)
    requires
        0 <= lo <= k <= hi,
        4 * hi + 4 <= old_boxes.len(),
        hi < old_indices.len(),
        rearranged(old_boxes, old_indices, boxes, indices, lo, hi),
    ensures
        lo <= k2 <= hi,
        boxes[4 * k] == old_boxes[4 * k2],
        boxes[4 * k + 1] == old_boxes[4 * k2 + 1],
        boxes[4 * k + 2] == old_boxes[4 * k2 + 2],
        boxes[4 * k + 3] == old_boxes[4 * k2 + 3],
        indices[k] == old_indices[k2],
{
    let s = items_in(old_boxes, old_indices, lo, hi + 1);
    let t = items_in(boxes, indices, lo, hi + 1);
    let x = t[k - lo];
    assert(t.contains(x));
    to_multiset_contains(t, x);
    to_multiset_contains(s, x);
    let u = choose|u: int| 0 <= u < s.len() && s[u] == x;
    lo + u
}

/// A value bound on all items of a range carries over to any rearrangement of the range.
pub proof fn lemma_rearranged_bound(
    old_boxes: Seq<int>,
    old_indices: Seq<nat>,
    boxes: Seq<int>,
    indices: Seq<nat>,
    lo: int,
    hi: int,
    key: spec_fn(int, int, int, int) -> int,
    bound: int,
    upper: bool,
)
    requires
        0 <= lo <= hi,
        4 * hi + 4 <= old_boxes.len(),
        hi < old_indices.len(),
        rearranged(old_boxes, old_indices, boxes, indices, lo, hi),
        forall|k: int|
            lo <= k <= hi ==> (if upper {
                #[trigger] key(
                    old_boxes[4 * k],
                    old_boxes[4 * k + 1],
                    old_boxes[4 * k + 2],
                    old_boxes[4 * k + 3],
                ) <= bound
            } else {
                key(old_boxes[4 * k], old_boxes[4 * k + 1], old_boxes[4 * k + 2], old_boxes[4 * k + 3])
                    >= bound
            }),
    ensures
        forall|k: int|
            lo <= k <= hi ==> (if upper {
                #[trigger] key(boxes[4 * k], boxes[4 * k + 1], boxes[4 * k + 2], boxes[4 * k + 3])
                    <= bound
            } else {
                key(boxes[4 * k], boxes[4 * k + 1], boxes[4 * k + 2], boxes[4 * k + 3]) >= bound
            }),
{
    let s = items_in(old_boxes, old_indices, lo, hi + 1);
    let t = items_in(boxes, indices, lo, hi + 1);
    assert forall|k: int| lo <= k <= hi implies (if upper {
        #[trigger] key(boxes[4 * k], boxes[4 * k + 1], boxes[4 * k + 2], boxes[4 * k + 3]) <= bound
    } else {
        key(boxes[4 * k], boxes[4 * k + 1], boxes[4 * k + 2], boxes[4 * k + 3]) >= bound
    }) by {
        let x = t[k - lo];
        assert(t.contains(x));
        to_multiset_contains(t, x);
        to_multiset_contains(s, x);
        let u = choose|u: int| 0 <= u < s.len() && s[u] == x;
        let k2 = lo + u;
        assert(s[u] == box_item(old_boxes, old_indices, k2));
    }
}

/// The key of each of the first `n` boxes.
pub open spec fn keys_of(boxes: Seq<int>, n: int, key: spec_fn(int, int, int, int) -> int) -> Seq<int> {
    Seq::new(n as nat, |k: int| key(boxes[4 * k], boxes[4 * k + 1], boxes[4 * k + 2], boxes[4 * k + 3]))
}

/// The sort values, the boxes (four coordinates each) and the indices of the nodes.
pub type SortState = (Seq<int>, Seq<int>, Seq<nat>);

/// The state with nodes `i` and `j` swapped: their sort values, boxes and indices.
pub open spec fn swap_state(s: SortState, i: int, j: int) -> SortState {
    (
        s.0.update(i, s.0[j]).update(j, s.0[i]),
        Seq::new(
            s.1.len(),
            |p: int|
                if p / 4 == i {
                    s.1[4 * j + p % 4]
                } else if p / 4 == j {
                    s.1[4 * i + p % 4]
                } else {
                    s.1[p]
                },
        ),
        s.2.update(i, s.2[j]).update(j, s.2[i]),
    )
}

/// The first position from `i` on, before `bound`, whose value is not below `pivot` (`bound`
/// when there is none).
pub open spec fn first_not_below(v: Seq<int>, pivot: int, i: int, bound: int) -> int
    decreases bound - i,
{
    if i < bound && v[i] < pivot {
        first_not_below(v, pivot, i + 1, bound)
    } else {
        i
    }
}

/// The last position from `j` down, after `lower`, whose value is not above `pivot` (`lower`
/// when there is none).
pub open spec fn last_not_above(v: Seq<int>, pivot: int, j: int, lower: int) -> int
    decreases j - lower,
{
    if j > lower && v[j] > pivot {
        last_not_above(v, pivot, j - 1, lower)
    } else {
        j
    }
}

/// A scan up never goes below its start.
pub proof fn lemma_first_not_below_start(v: Seq<int>, pivot: int, i: int, bound: int)
    ensures
        i <= first_not_below(v, pivot, i, bound),
    decreases bound - i,
{
    if i < bound && v[i] < pivot {
        lemma_first_not_below_start(v, pivot, i + 1, bound);
    }
}

/// A scan down never goes above its start.
pub proof fn lemma_last_not_above_start(v: Seq<int>, pivot: int, j: int, lower: int)
    ensures
        last_not_above(v, pivot, j, lower) <= j,
    decreases j - lower,
{
    if j > lower && v[j] > pivot {
        lemma_last_not_above_start(v, pivot, j - 1, lower);
    }
}

/// Hoare's exchange loop around `pivot` on the nodes `left..=right`, from `i` up and `j`
/// down: scan `i` up to a value not below the pivot and `j` down to a value not above it; stop
/// at `j` once they meet, else swap the two nodes and go on past them.
pub open spec fn hoare_loop(s: SortState, pivot: int, i: int, j: int, left: int, right: int) -> (
    SortState,
    int,
)
    decreases j + 1 - i,
{
    let i2 = first_not_below(s.0, pivot, i, right);
    let j2 = last_not_above(s.0, pivot, j, left);
    if i2 >= j2 {
        (s, j2)
    } else {
        proof {
            lemma_first_not_below_start(s.0, pivot, i, right);
            lemma_last_not_above_start(s.0, pivot, j, left);
        }
        hoare_loop(swap_state(s, i2, j2), pivot, i2 + 1, j2 - 1, left, right)
    }
}

/// The middle of three values.
pub open spec fn median_of_three(a: int, b: int, c: int) -> int {
    let lo = if a <= b {
        a
    } else {
        b
    };
    let hi = if a <= b {
        b
    } else {
        a
    };
    if c <= lo {
        lo
    } else if c >= hi {
        hi
    } else {
        c
    }
}

/// What the quicksort of the nodes `left..=right` leaves, which stops at ranges within one
/// block of `ns` nodes: partition around the pivot (the median of the first, middle and last
/// values, or else the middle value), then sort the two parts.
pub open spec fn block_quicksort(s: SortState, left: int, right: int, ns: int, median_pivot: bool) -> SortState
    decreases right - left,
{
    if ns < 1 || left / ns >= right / ns {
        s
    } else {
        let mid = left + (right - left) / 2;
        let pivot = if median_pivot {
            median_of_three(s.0[left], s.0[mid], s.0[right])
        } else {
            s.0[mid]
        };
        let (s1, j) = hoare_loop(s, pivot, left, right, left, right);
        if left <= j < right {
            block_quicksort(block_quicksort(s1, left, j, ns, median_pivot), j + 1, right, ns, median_pivot)
        } else {
            s1
        }
    }
}

/// Swaps nodes `i` and `j`: their sort values, their boxes and their indices.
pub fn swap(values: &mut Vec<i64>, boxes: &mut Vec<i64>, indices: &mut MutableIndices, i: usize, j: usize)
    requires
        i < old(values)@.len(),
        j < old(values)@.len(),
        4 * old(values)@.len() <= old(boxes)@.len(),
        old(values)@.len() <= old(indices)@.len(),
    ensures
        final(values)@ == old(values)@.update(i as int, old(values)@[j as int]).update(
            j as int,
            old(values)@[i as int],
        ),
        final(boxes)@.len() == old(boxes)@.len(),
        final(indices)@.len() == old(indices)@.len(),
        final(indices).is_u16() == old(indices).is_u16(),
        forall|p: int|
            0 <= p < final(boxes)@.len() ==> #[trigger] final(boxes)@[p] == old(boxes)@[
                if p / 4 == i {
                    4 * j + p % 4
                } else if p / 4 == j {
                    4 * i + p % 4
                } else {
                    p
                }
            ],
        forall|k: int|
            0 <= k < final(indices)@.len() ==> #[trigger] final(indices)@[k] == old(indices)@[swap_pos(
                i as int,
                j as int,
                k,
            )],
        forall|k: int|
            0 <= k < final(indices)@.len() && 4 * k + 3 < final(boxes)@.len() ==> #[trigger] box_item(
                ints(final(boxes)@),
                final(indices)@,
                k,
            ) == box_item(ints(old(boxes)@), old(indices)@, swap_pos(i as int, j as int, k)),
        (ints(final(values)@), ints(final(boxes)@), final(indices)@) == swap_state(
            (ints(old(values)@), ints(old(boxes)@), old(indices)@),
            i as int,
            j as int,
        ),
{
    let bl = boxes.len();
    let vi = values[i];
    let vj = values[j];
    values.set(i, vj);
    values.set(j, vi);
    let k = 4 * i;
    let m = 4 * j;
    let mut t: usize = 0;
    while t < 4
        invariant
            0 <= t <= 4,
            k == 4 * i,
            m == 4 * j,
            i < old(values)@.len(),
            j < old(values)@.len(),
            4 * old(values)@.len() <= old(boxes)@.len(),
            boxes@.len() == old(boxes)@.len(),
            forall|p: int|
                0 <= p < boxes@.len() ==> #[trigger] boxes@[p] == old(boxes)@[
                    if p / 4 == i && p % 4 < t {
                        4 * j + p % 4
                    } else if p / 4 == j && p % 4 < t {
                        4 * i + p % 4
                    } else {
                        p
                    }
                ],
        decreases 4 - t,
    {
        let a = boxes[k + t];
        let b = boxes[m + t];
        boxes.set(k + t, b);
        boxes.set(m + t, a);
        t = t + 1;
    }
    indices.swap(i, j);
    proof {
        assert forall|k2: int|
            0 <= k2 < indices@.len() && 4 * k2 + 3 < boxes@.len() implies #[trigger] box_item(
            ints(boxes@),
            indices@,
            k2,
        ) == box_item(ints(old(boxes)@), old(indices)@, swap_pos(i as int, j as int, k2)) by {
            let s = swap_pos(i as int, j as int, k2);
            assert(boxes@[4 * k2] == old(boxes)@[4 * s]);
            assert(boxes@[4 * k2 + 1] == old(boxes)@[4 * s + 1]);
            assert(boxes@[4 * k2 + 2] == old(boxes)@[4 * s + 2]);
            assert(boxes@[4 * k2 + 3] == old(boxes)@[4 * s + 3]);
        }
        let st = swap_state((ints(old(values)@), ints(old(boxes)@), old(indices)@), i as int, j as int);
        assert(ints(values@) =~= st.0);
        assert(ints(boxes@) =~= st.1);
        assert(indices@ =~= st.2) by {
            assert forall|k2: int| 0 <= k2 < indices@.len() implies indices@[k2] == st.2[k2] by {
                assert(indices@[k2] == old(indices)@[swap_pos(i as int, j as int, k2)]);
            }
        }
    }
}

/// Reorders the nodes `left..=right` around `pivot` (Hoare's scheme): returns `j` with
/// `left <= j < right`, the values of `left..=j` at most `pivot` and those of `j+1..=right` at
/// least `pivot`. The pivot must be at most a value before `right` and at least some value of the
/// range, which keeps both scans inside the range and both parts non-empty.
#[verifier::loop_isolation(false)]
pub fn partition(
    values: &mut Vec<i64>,
    boxes: &mut Vec<i64>,
    indices: &mut MutableIndices,
    left: usize,
    right: usize,
    pivot: i64,
    Ghost(key): Ghost<spec_fn(int, int, int, int) -> int>,
    Ghost(q0): Ghost<int>,
    Ghost(p0): Ghost<int>,
) -> (j: usize)
    requires
        left < right < old(values)@.len(),
        4 * old(values)@.len() <= old(boxes)@.len(),
        old(values)@.len() <= old(indices)@.len(),
        left <= q0 < right,
        old(values)@[q0] >= pivot,
        left <= p0 <= right,
        old(values)@[p0] <= pivot,
        keyed(ints(old(values)@), ints(old(boxes)@), key),
    ensures
        left <= j < right,
        forall|k: int| left <= k <= j ==> #[trigger] final(values)@[k] <= pivot,
        forall|k: int| j < k <= right ==> #[trigger] final(values)@[k] >= pivot,
        final(values)@.len() == old(values)@.len(),
        keyed(ints(final(values)@), ints(final(boxes)@), key),
        rearranged(
            ints(old(boxes)@),
            old(indices)@,
            ints(final(boxes)@),
            final(indices)@,
            left as int,
            right as int,
        ),
        final(indices).is_u16() == old(indices).is_u16(),
        ((ints(final(values)@), ints(final(boxes)@), final(indices)@), j as int) == hoare_loop(
            (ints(old(values)@), ints(old(boxes)@), old(indices)@),
            pivot as int,
            left as int,
            right as int,
            left as int,
            right as int,
        ),
{
    let ghost s0: SortState = (ints(old(values)@), ints(old(boxes)@), old(indices)@);
    let mut i = left;
    let mut j = right;
    let ghost mut qi: int = q0;
    let ghost mut pj: int = p0;
    let ghost mut swapped = false;
    loop
        invariant
            left <= i <= j + 1,
            left <= j <= right,
            right < values@.len(),
            values@.len() == old(values)@.len(),
            4 * values@.len() <= boxes@.len(),
            values@.len() <= indices@.len(),
            i <= qi <= right,
            values@[qi] >= pivot,
            !swapped ==> qi < right && j == right,
            swapped ==> j < right,
            left <= pj <= j,
            values@[pj] <= pivot,
            forall|k: int| left <= k < i ==> #[trigger] values@[k] <= pivot,
            forall|k: int| j < k <= right ==> #[trigger] values@[k] >= pivot,
            keyed(ints(values@), ints(boxes@), key),
            rearranged(ints(old(boxes)@), old(indices)@, ints(boxes@), indices@, left as int, right as int),
            indices.is_u16() == old(indices).is_u16(),
            hoare_loop(
                (ints(values@), ints(boxes@), indices@),
                pivot as int,
                i as int,
                j as int,
                left as int,
                right as int,
            ) == hoare_loop(s0, pivot as int, left as int, right as int, left as int, right as int),
        decreases j + 1 - i,
    {
        let ghost i_start = i;
        let ghost j_start = j;
        let ghost cur: SortState = (ints(values@), ints(boxes@), indices@);
        while values[i] < pivot
            invariant
                first_not_below(ints(values@), pivot as int, i as int, right as int) == first_not_below(
                    ints(values@),
                    pivot as int,
                    i_start as int,
                    right as int,
                ),
                i_start <= i,
                left <= i <= qi <= right,
                right < values@.len(),
                values@[qi] >= pivot,
                forall|k: int| left <= k < i ==> #[trigger] values@[k] <= pivot,
            decreases qi - i,
        {
            i = i + 1;
        }
        while values[j] > pivot
            invariant
                last_not_above(ints(values@), pivot as int, j as int, left as int) == last_not_above(
                    ints(values@),
                    pivot as int,
                    j_start as int,
                    left as int,
                ),
                j <= j_start,
                swapped ==> j < right,
                left <= pj <= j <= right,
                right < values@.len(),
                values@[pj] <= pivot,
                forall|k: int| j < k <= right ==> #[trigger] values@[k] >= pivot,
            decreases j - pj,
        {
            j = j - 1;
        }
        proof {
            assert(first_not_below(ints(values@), pivot as int, i as int, right as int) == i);
            assert(last_not_above(ints(values@), pivot as int, j as int, left as int) == j);
        }
        if i >= j {
            proof {
                assert(hoare_loop(cur, pivot as int, i_start as int, j_start as int, left as int, right as int)
                    == (cur, j as int));
            }
            return j;
        }
        proof {
            assert(hoare_loop(cur, pivot as int, i_start as int, j_start as int, left as int, right as int)
                == hoare_loop(swap_state(cur, i as int, j as int), pivot as int, i + 1, j - 1, left as int, right as int));
        }
        let ghost vb = values@;
        let ghost bb = ints(boxes@);
        let ghost ib = indices@;
        swap(values, boxes, indices, i, j);
        proof {
            lemma_swap_items(
                bb,
                ib,
                ints(boxes@),
                indices@,
                left as int,
                right + 1,
                i as int,
                j as int,
            );
            assert forall|k: int| 0 <= k < values@.len() implies #[trigger] ints(values@)[k] == key(
                ints(boxes@)[4 * k],
                ints(boxes@)[4 * k + 1],
                ints(boxes@)[4 * k + 2],
                ints(boxes@)[4 * k + 3],
            ) by {
                assert(box_item(ints(boxes@), indices@, k) == box_item(
                    bb,
                    ib,
                    swap_pos(i as int, j as int, k),
                ));
                assert(ints(vb)[swap_pos(i as int, j as int, k)] == key(
                    bb[4 * swap_pos(i as int, j as int, k)],
                    bb[4 * swap_pos(i as int, j as int, k) + 1],
                    bb[4 * swap_pos(i as int, j as int, k) + 2],
                    bb[4 * swap_pos(i as int, j as int, k) + 3],
                ));
            }
            assert forall|p: int|
                0 <= p < ints(boxes@).len() && !(4 * left <= p < 4 * right + 4) implies #[trigger] ints(
                boxes@,
            )[p] == ints(old(boxes)@)[p] by {
                assert(ints(boxes@)[p] == bb[p]);
            }
            assert forall|k: int|
                0 <= k < indices@.len() && !(left <= k <= right) implies #[trigger] indices@[k]
                == old(indices)@[k] by {
                assert(indices@[k] == ib[k]);
            }
            qi = j as int;
            pj = i as int;
            swapped = true;
        }
        i = i + 1;
        j = j - 1;
    }
}

} // verus!
