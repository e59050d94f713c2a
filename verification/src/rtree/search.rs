//! Searching an RTree for the items whose boxes intersect a query box.
use vstd::prelude::*;

use crate::indices::Indices;
use crate::num::IndexableNum;
use crate::rtree::index::{level_bounds_of, rtree_layout, RTreeMetadata};
use crate::rtree::sort::util::{box_item, ints, items_in};
use crate::rtree::structure::{
    end_child, first_child, fold_max, fold_min, level_start, min_int, parent_ok, tree_shape,
    union_box,
};
use crate::rtree::util::{
    ceil_div, lemma_level_ends, level_ends, num_nodes_spec, upper_bound,
};

verus! {

/// The box of node `k` and the query box `q = (min_x, min_y, max_x, max_y)` share a point.
pub open spec fn box_intersects(boxes: Seq<int>, k: int, q: (int, int, int, int)) -> bool {
    !(q.2 < boxes[4 * k] || q.3 < boxes[4 * k + 1] || q.0 > boxes[4 * k + 2] || q.1 > boxes[4 * k
        + 3])
}

/// The nodes of `lo..hi` whose boxes intersect the query, in increasing order.
pub open spec fn hits(boxes: Seq<int>, q: (int, int, int, int), lo: int, hi: int) -> Seq<int>
    decreases hi - lo,
{
    if hi <= lo {
        Seq::empty()
    } else {
        let h = hits(boxes, q, lo, hi - 1);
        if box_intersects(boxes, hi - 1, q) {
            h.push(hi - 1)
        } else {
            h
        }
    }
}

/// The stored index of each of the given nodes.
pub open spec fn idx_of(indices: Seq<nat>, nodes: Seq<int>) -> Seq<nat> {
    nodes.map_values(|k: int| indices[k])
}

/// `x` is the stored index of a leaf (one of the first `n` nodes) whose box intersects the query.
pub open spec fn is_leaf_hit(boxes: Seq<int>, indices: Seq<nat>, n: nat, q: (int, int, int, int), x: nat) -> bool {
    exists|k: int| 0 <= k < n && box_intersects(boxes, k, q) && #[trigger] indices[k] == x
}

/// What a search of a well-formed tree finds: the stored index of every leaf whose box
/// intersects the query, in leaf order. (A one-item tree whose header gives node size 0 has an
/// empty root and finds nothing.)
pub open spec fn search_results(
    boxes: Seq<int>,
    indices: Seq<nat>,
    num_items: nat,
    node_size: nat,
    q: (int, int, int, int),
) -> Seq<nat> {
    let leaf_end = if num_items == 1 && node_size == 0 {
        0
    } else {
        num_items as int
    };
    idx_of(indices, hits(boxes, q, 0, leaf_end))
}

/// The values of a vector of `u32` as natural numbers.
pub open spec fn nats_u32(v: Seq<u32>) -> Seq<nat> {
    v.map_values(|x: u32| x as nat)
}

/// The values of a vector of `usize` as natural numbers.
pub open spec fn nats_usize(v: Seq<usize>) -> Seq<nat> {
    v.map_values(|x: usize| x as nat)
}

/// The children of node `s` of level `l` whose boxes intersect the query.
pub open spec fn children_hits(
    boxes: Seq<int>,
    q: (int, int, int, int),
    ends: Seq<nat>,
    ns: nat,
    l: int,
    s: int,
) -> Seq<int> {
    hits(boxes, q, first_child(ends, ns, l, s), end_child(ends, ns, l, s))
}

/// The intersecting children of each of the given parents of level `l`, one parent after the
/// other.
pub open spec fn gather(
    boxes: Seq<int>,
    q: (int, int, int, int),
    ends: Seq<nat>,
    ns: nat,
    l: int,
    parents: Seq<int>,
) -> Seq<int>
    decreases parents.len(),
{
    if parents.len() == 0 {
        Seq::empty()
    } else {
        gather(boxes, q, ends, ns, l, parents.drop_last()) + children_hits(
            boxes,
            q,
            ends,
            ns,
            l,
            parents.last(),
        )
    }
}

/// The intersecting nodes of level `l`.
pub open spec fn level_hits(boxes: Seq<int>, q: (int, int, int, int), ends: Seq<nat>, l: int) -> Seq<
    int,
> {
    hits(boxes, q, level_start(ends, l), ends[l] as int)
}

/// Every hit of `lo..hi` is a node of `lo..hi` whose box intersects the query, and there are at
/// most as many as nodes.
pub proof fn lemma_hits_bounds(boxes: Seq<int>, q: (int, int, int, int), lo: int, hi: int)
    ensures
        forall|i: int|
            0 <= i < hits(boxes, q, lo, hi).len() ==> lo <= #[trigger] hits(boxes, q, lo, hi)[i]
                < hi && box_intersects(boxes, hits(boxes, q, lo, hi)[i], q),
        hits(boxes, q, lo, hi).len() <= if hi <= lo {
            0
        } else {
            hi - lo
        },
    decreases hi - lo,
{
    if hi > lo {
        lemma_hits_bounds(boxes, q, lo, hi - 1);
    }
}

/// The hits of a range are the hits of its two halves, one after the other.
pub proof fn lemma_hits_concat(boxes: Seq<int>, q: (int, int, int, int), lo: int, mid: int, hi: int)
    requires
        lo <= mid <= hi,
    ensures
        hits(boxes, q, lo, hi) == hits(boxes, q, lo, mid) + hits(boxes, q, mid, hi),
    decreases hi - mid,
{
    if hi == mid {
        assert(hits(boxes, q, lo, mid) + hits(boxes, q, mid, hi) =~= hits(boxes, q, lo, mid));
    } else {
        lemma_hits_concat(boxes, q, lo, mid, hi - 1);
        if box_intersects(boxes, hi - 1, q) {
            assert(hits(boxes, q, lo, hi) =~= hits(boxes, q, lo, mid) + hits(boxes, q, mid, hi));
        }
    }
}

/// A range without an intersecting box has no hits.
pub proof fn lemma_hits_none(boxes: Seq<int>, q: (int, int, int, int), lo: int, hi: int)
    requires
        forall|k: int| lo <= k < hi ==> !#[trigger] box_intersects(boxes, k, q),
    ensures
        hits(boxes, q, lo, hi) == Seq::<int>::empty(),
    decreases hi - lo,
{
    if hi > lo {
        lemma_hits_none(boxes, q, lo, hi - 1);
    }
}

/// A fold of the minima is at most the starting value and each folded coordinate; a fold of
/// the maxima at least.
pub proof fn lemma_fold_bounds(boxes: Seq<int>, lo: int, hi: int, c: int, init: int)
    ensures
        fold_min(boxes, lo, hi, c, init) <= init,
        fold_max(boxes, lo, hi, c, init) >= init,
        forall|k: int|
            lo <= k < hi ==> fold_min(boxes, lo, hi, c, init) <= #[trigger] boxes[4 * k + c]
                <= fold_max(boxes, lo, hi, c, init),
    decreases hi - lo,
{
    if hi > lo {
        lemma_fold_bounds(boxes, lo, hi - 1, c, init);
    }
}

/// A parent whose box misses the query has no intersecting child: its box covers its children.
pub proof fn lemma_no_child_hits(
    boxes: Seq<int>,
    indices: Seq<nat>,
    q: (int, int, int, int),
    ends: Seq<nat>,
    ns: nat,
    l: int,
    s: int,
)
    requires
        parent_ok(boxes, indices, ends, ns, l, s),
        !box_intersects(boxes, s, q),
    ensures
        children_hits(boxes, q, ends, ns, l, s) == Seq::<int>::empty(),
{
    let c0 = first_child(ends, ns, l, s);
    let c1 = end_child(ends, ns, l, s);
    lemma_fold_bounds(boxes, c0 + 1, c1, 0, boxes[4 * c0]);
    lemma_fold_bounds(boxes, c0 + 1, c1, 1, boxes[4 * c0 + 1]);
    lemma_fold_bounds(boxes, c0 + 1, c1, 2, boxes[4 * c0 + 2]);
    lemma_fold_bounds(boxes, c0 + 1, c1, 3, boxes[4 * c0 + 3]);
    assert forall|k: int| c0 <= k < c1 implies !#[trigger] box_intersects(boxes, k, q) by {
        if k > c0 {
            assert(boxes[4 * k + 0] == boxes[4 * k]);
            assert(boxes[4 * s] <= boxes[4 * k + 0]);
            assert(boxes[4 * s + 1] <= boxes[4 * k + 1]);
            assert(boxes[4 * s + 2] >= boxes[4 * k + 2]);
            assert(boxes[4 * s + 3] >= boxes[4 * k + 3]);
        }
    }
    lemma_hits_none(boxes, q, c0, c1);
}

/// Gathering the intersecting children of the first parents of a level (up to `t`) gives the
/// intersecting nodes of the level below up to the end of those parents' children.
proof fn lemma_gather_prefix(
    boxes: Seq<int>,
    indices: Seq<nat>,
    n: nat,
    ns: nat,
    q: (int, int, int, int),
    l: int,
    t: int,
)
    requires
        n >= 1,
        tree_shape(boxes, indices, n, ns),
        1 <= l < level_ends(n, ns).len(),
        level_start(level_ends(n, ns), l) <= t <= level_ends(n, ns)[l],
    ensures
        ({
            let e = level_ends(n, ns);
            let lo = level_start(e, l - 1);
            gather(boxes, q, e, ns, l, hits(boxes, q, level_start(e, l), t)) == hits(
                boxes,
                q,
                lo,
                if t == level_start(e, l) {
                    lo
                } else {
                    end_child(e, ns, l, t - 1)
                },
            )
        }),
    decreases t - level_start(level_ends(n, ns), l),
{
    let e = level_ends(n, ns);
    let st = level_start(e, l);
    let lo = level_start(e, l - 1);
    lemma_level_ends(n, ns);
    crate::rtree::structure::lemma_level_step(n, ns, l);
    if t == st {
        assert(hits(boxes, q, st, t) =~= Seq::<int>::empty());
        assert(hits(boxes, q, lo, lo) =~= Seq::<int>::empty());
    } else {
        let s = t - 1;
        lemma_gather_prefix(boxes, indices, n, ns, q, l, s);
        assert(parent_ok(boxes, indices, e, ns, l, s));
        let fc = first_child(e, ns, l, s);
        let ec = end_child(e, ns, l, s);
        // the children of `s` start where the children of the parents before it end
        if s == st {
            assert(fc == lo) by (nonlinear_arith)
                requires
                    fc == lo + (s - st) * ns,
                    s == st,
            ;
        } else {
            assert(parent_ok(boxes, indices, e, ns, l, s - 1));
            let fp = first_child(e, ns, l, s - 1);
            assert(fc == fp + ns) by (nonlinear_arith)
                requires
                    fc == lo + (s - st) * ns,
                    fp == lo + (s - 1 - st) * ns,
            ;
            assert(ec <= e[l - 1]);
            assert(end_child(e, ns, l, s - 1) == fc);
        }
        assert(lo <= fc) by (nonlinear_arith)
            requires
                fc == lo + (s - st) * ns,
                s >= st,
        ;
        lemma_hits_concat(boxes, q, lo, fc, ec);
        if box_intersects(boxes, s, q) {
            let h = hits(boxes, q, st, s);
            assert(hits(boxes, q, st, t) == h.push(s));
            assert(h.push(s).drop_last() =~= h);
        } else {
            lemma_no_child_hits(boxes, indices, q, e, ns, l, s);
            assert(hits(boxes, q, lo, ec) =~= hits(boxes, q, lo, fc));
        }
    }
}

/// The intersecting nodes of a level below the top are exactly the intersecting children of the
/// intersecting nodes of the level above, in order.
pub proof fn lemma_gather_level(
    boxes: Seq<int>,
    indices: Seq<nat>,
    n: nat,
    ns: nat,
    q: (int, int, int, int),
    l: int,
)
    requires
        n >= 1,
        tree_shape(boxes, indices, n, ns),
        1 <= l < level_ends(n, ns).len(),
    ensures
        gather(
            boxes,
            q,
            level_ends(n, ns),
            ns,
            l,
            level_hits(boxes, q, level_ends(n, ns), l),
        ) == level_hits(boxes, q, level_ends(n, ns), l - 1),
{
    let e = level_ends(n, ns);
    let st = level_start(e, l);
    let lo = level_start(e, l - 1);
    lemma_level_ends(n, ns);
    crate::rtree::structure::lemma_level_step(n, ns, l);
    let en = e[l] as int;
    assert(st == e[l - 1]);
    assert(st < en);
    lemma_gather_prefix(boxes, indices, n, ns, q, l, en);
    // the children of the last parent reach the end of the level below
    let size = e[l - 1] - lo;
    let cnt = ceil_div(size as nat, ns);
    assert(cnt * ns >= size) by (nonlinear_arith)
        requires
            cnt == (size + ns - 1) / (ns as int),
            ns >= 2,
            size >= 0,
    ;
    let fc = first_child(e, ns, l, en - 1);
    assert(fc + ns >= e[l - 1]) by (nonlinear_arith)
        requires
            fc == lo + (en - 1 - st) * ns,
            en - st == cnt,
            cnt * ns >= size,
            size == e[l - 1] - lo,
    ;
}

/// The first node of a level is at least the number of items for every level above the leaves.
proof fn lemma_level_start_bounds(n: nat, ns: nat, l: int)
    requires
        n >= 1,
        0 <= l < level_ends(n, ns).len(),
    ensures
        l == 0 ==> level_start(level_ends(n, ns), l) == 0,
        l >= 1 ==> level_start(level_ends(n, ns), l) >= n,
        level_start(level_ends(n, ns), l) < level_ends(n, ns)[l],
        level_ends(n, ns)[l] <= num_nodes_spec(n, ns),
{
    lemma_level_ends(n, ns);
    let e = level_ends(n, ns);
    if l >= 1 {
        assert(e[0] <= e[l - 1]);
    }
    if l < e.len() - 1 {
        assert(e[l] < e[e.len() - 1]);
    }
}

/// The query box as integers.
pub open spec fn query_ints(q: (i64, i64, i64, i64)) -> (int, int, int, int) {
    (q.0 as int, q.1 as int, q.2 as int, q.3 as int)
}

/// What is still queued while the search walks the groups of level `l` (the children of the
/// intersecting nodes of level `l + 1`), `j` of them done: the group starts of the remaining
/// parents, then (above the leaves) the indices of the intersecting nodes found so far.
pub open spec fn pending(
    boxes: Seq<int>,
    indices: Seq<nat>,
    q: (int, int, int, int),
    ends: Seq<nat>,
    ns: nat,
    l: int,
    j: int,
) -> Seq<nat> {
    let parents = level_hits(boxes, q, ends, l + 1);
    idx_of(indices, parents.skip(j)) + if l >= 1 {
        idx_of(indices, gather(boxes, q, ends, ns, l + 1, parents.take(j)))
    } else {
        Seq::empty()
    }
}

/// The results found while the search walks the groups of level `l`, `j` of them done: the
/// indices of the intersecting leaves found so far.
pub open spec fn found(
    boxes: Seq<int>,
    indices: Seq<nat>,
    q: (int, int, int, int),
    ends: Seq<nat>,
    ns: nat,
    l: int,
    j: int,
) -> Seq<nat> {
    if l == 0 {
        idx_of(indices, gather(boxes, q, ends, ns, 1, level_hits(boxes, q, ends, 1).take(j)))
    } else {
        Seq::empty()
    }
}

/// When all groups of level `l >= 1` are done, what is queued is the group starts of the
/// intersecting nodes of level `l`: the walk of level `l - 1` begins. Whatever is queued, the
/// walk is at a group that is not done yet, after fewer steps than there are nodes.
proof fn lemma_next_group(
    boxes: Seq<int>,
    indices: Seq<nat>,
    n: nat,
    ns: nat,
    q: (int, int, int, int),
    l: int,
    j: int,
) -> (r: (int, int))
    requires
        n >= 1,
        tree_shape(boxes, indices, n, ns),
        0 <= l < level_ends(n, ns).len() - 1,
        0 <= j <= level_hits(boxes, q, level_ends(n, ns), l + 1).len(),
        pending(boxes, indices, q, level_ends(n, ns), ns, l, j).len() > 0,
    ensures
        0 <= r.0 <= l,
        0 <= r.1 < level_hits(boxes, q, level_ends(n, ns), r.0 + 1).len(),
        pending(boxes, indices, q, level_ends(n, ns), ns, r.0, r.1) == pending(
            boxes,
            indices,
            q,
            level_ends(n, ns),
            ns,
            l,
            j,
        ),
        found(boxes, indices, q, level_ends(n, ns), ns, r.0, r.1) == found(
            boxes,
            indices,
            q,
            level_ends(n, ns),
            ns,
            l,
            j,
        ),
        ({
            let e = level_ends(n, ns);
            &&& e[e.len() - 1] - e[l + 1] + j <= e[e.len() - 1] - e[r.0 + 1] + r.1
            &&& e[e.len() - 1] - e[r.0 + 1] + r.1 < num_nodes_spec(n, ns)
        }),
{
    let e = level_ends(n, ns);
    let top = e.len() - 1;
    let parents = level_hits(boxes, q, e, l + 1);
    lemma_level_ends(n, ns);
    lemma_level_start_bounds(n, ns, l + 1);
    lemma_level_start_bounds(n, ns, l);
    lemma_hits_bounds(boxes, q, level_start(e, l + 1), e[l + 1] as int);
    assert(level_start(e, l + 1) == e[l]);
    if j < parents.len() {
        let res = (l, j);
        assert(e[top] >= e[l + 1]);
        res
    } else {
        assert(parents.skip(j) =~= Seq::<int>::empty());
        assert(idx_of(indices, parents.skip(j)) =~= Seq::<nat>::empty());
        assert(l >= 1);
        assert(parents.take(j) =~= parents);
        lemma_gather_level(boxes, indices, n, ns, q, l + 1);
        let below = level_hits(boxes, q, e, l);
        assert(pending(boxes, indices, q, e, ns, l, j) =~= idx_of(indices, below));
        assert(below.len() > 0);
        assert(below.skip(0) =~= below);
        assert(below.take(0) =~= Seq::<int>::empty());
        assert(gather(boxes, q, e, ns, l, Seq::<int>::empty()) =~= Seq::<int>::empty());
        assert(pending(boxes, indices, q, e, ns, l - 1, 0) =~= idx_of(indices, below));
        assert(found(boxes, indices, q, e, ns, l - 1, 0) =~= found(boxes, indices, q, e, ns, l, j));
        lemma_level_start_bounds(n, ns, l - 1);
        lemma_hits_bounds(boxes, q, level_start(e, l), e[l] as int);
        assert(level_start(e, l) == e[l - 1]);
        assert(e[top] >= e[l]);
        (l - 1, 0)
    }
}

/// When no node of level `l` intersects the query, no leaf does.
proof fn lemma_empty_below(
    boxes: Seq<int>,
    indices: Seq<nat>,
    n: nat,
    ns: nat,
    q: (int, int, int, int),
    l: int,
)
    requires
        n >= 1,
        tree_shape(boxes, indices, n, ns),
        0 <= l < level_ends(n, ns).len(),
        level_hits(boxes, q, level_ends(n, ns), l).len() == 0,
    ensures
        level_hits(boxes, q, level_ends(n, ns), 0).len() == 0,
    decreases l,
{
    if l > 0 {
        let e = level_ends(n, ns);
        lemma_gather_level(boxes, indices, n, ns, q, l);
        assert(level_hits(boxes, q, e, l) =~= Seq::<int>::empty());
        lemma_empty_below(boxes, indices, n, ns, q, l - 1);
    }
}

/// Scans the boxes of nodes `lo..hi`: the stored index of each node whose box intersects the
/// query is appended to `results` when `leaf`, else to `queue`.
fn scan_group(
    boxes: &Vec<i64>,
    indices: &Indices,
    lo: usize,
    hi: usize,
    q: (i64, i64, i64, i64),
    leaf: bool,
    queue: &mut Vec<usize>,
    results: &mut Vec<u32>,
)
    requires
        lo <= hi,
        4 * hi <= boxes@.len(),
        hi <= indices@.len(),
        forall|k: int| 0 <= k < indices@.len() ==> #[trigger] indices@[k] <= u32::MAX,
    ensures
        leaf ==> nats_u32(final(results)@) == nats_u32(old(results)@) + idx_of(
            indices@,
            hits(ints(boxes@), query_ints(q), lo as int, hi as int),
        ),
        leaf ==> final(queue)@ == old(queue)@,
        !leaf ==> nats_usize(final(queue)@) == nats_usize(old(queue)@) + idx_of(
            indices@,
            hits(ints(boxes@), query_ints(q), lo as int, hi as int),
        ),
        !leaf ==> final(results)@ == old(results)@,
{
    let ghost b = ints(boxes@);
    let ghost qq = query_ints(q);
    let mut k = lo;
    while k < hi
        invariant
            lo <= k <= hi,
            4 * hi <= boxes.len(),
            hi <= indices@.len(),
            b == ints(boxes@),
            qq == query_ints(q),
            forall|i: int| 0 <= i < indices@.len() ==> #[trigger] indices@[i] <= u32::MAX,
            leaf ==> nats_u32(results@) == nats_u32(old(results)@) + idx_of(
                indices@,
                hits(b, qq, lo as int, k as int),
            ),
            leaf ==> queue@ == old(queue)@,
            !leaf ==> nats_usize(queue@) == nats_usize(old(queue)@) + idx_of(
                indices@,
                hits(b, qq, lo as int, k as int),
            ),
            !leaf ==> results@ == old(results)@,
        decreases hi - k,
    {
        let pos = 4 * k;
        let node_min_x = boxes[pos];
        let node_min_y = boxes[pos + 1];
        let node_max_x = boxes[pos + 2];
        let node_max_y = boxes[pos + 3];
        let ghost h = hits(b, qq, lo as int, k as int);
        // check if the query box is disjoint from the node box
        if !(q.2 < node_min_x || q.3 < node_min_y || q.0 > node_max_x || q.1 > node_max_y) {
            let index = indices.get(k);
            if leaf {
                let ghost r0 = results@;
                results.push(index as u32);
                proof {
                    assert(nats_u32(results@) =~= nats_u32(r0).push(index as nat));
                    assert(idx_of(indices@, h.push(k as int)) =~= idx_of(indices@, h).push(
                        index as nat,
                    ));
                    assert(nats_u32(results@) =~= nats_u32(old(results)@) + idx_of(
                        indices@,
                        h.push(k as int),
                    ));
                }
            } else {
                let ghost q0 = queue@;
                queue.push(index);
                proof {
                    assert(nats_usize(queue@) =~= nats_usize(q0).push(index as nat));
                    assert(idx_of(indices@, h.push(k as int)) =~= idx_of(indices@, h).push(
                        index as nat,
                    ));
                    assert(nats_usize(queue@) =~= nats_usize(old(queue)@) + idx_of(
                        indices@,
                        h.push(k as int),
                    ));
                }
            }
            proof {
                assert(box_intersects(b, k as int, qq));
                assert(hits(b, qq, lo as int, k + 1) == h.push(k as int));
            }
        } else {
            proof {
                assert(!box_intersects(b, k as int, qq));
                assert(hits(b, qq, lo as int, k + 1) == h);
            }
        }
        k = k + 1;
    }
}

/// The end (a position in the boxes) of the group that starts at position `g`: at most
/// `node_size` nodes, not past the end of the level of its first node.
pub(crate) fn group_end<N: IndexableNum>(metadata: &RTreeMetadata<N>, g: usize, Ghost(lv): Ghost<int>) -> (r:
    usize)
    requires
        metadata.wf(),
        g % 4 == 0,
        g < 4 * metadata.spec_num_nodes(),
    ensures
        r % 4 == 0,
        g <= r <= 4 * metadata.spec_num_nodes(),
        r <= g + 4 * metadata.spec_node_size(),
        g < 4 * metadata.spec_num_items() ==> r <= 4 * metadata.spec_num_items(),
        ({
            let e = level_ends(metadata.spec_num_items(), metadata.spec_node_size());
            0 <= lv < e.len() && level_start(e, lv) <= g / 4 < e[lv] ==> r == 4 * min_int(
                g / 4 + metadata.spec_node_size(),
                e[lv] as int,
            )
        }),
{
    let ghost n = metadata.spec_num_items();
    let ghost ns = metadata.spec_node_size();
    let ghost e = level_ends(n, ns);
    let lb = metadata.level_bounds();
    proof {
        lemma_level_ends(n, ns);
        let lbs = metadata.spec_level_bounds();
        assert(lbs == level_bounds_of(n, ns));
        assert(lb@.len() == lbs.len());
        assert forall|k: int| 0 <= k < lb@.len() implies #[trigger] lb@[k] == 4 * e[k] by {
            assert(lb@.map_values(|b: usize| b as nat)[k] == lbs[k]);
        }
        assert forall|i: int, k: int| 0 <= i < k < lb@.len() implies lb@[i] < lb@[k] by {
            assert(lb@[i] == 4 * e[i]);
            assert(lb@[k] == 4 * e[k]);
        }
    }
    let ub = upper_bound(g, lb);
    proof {
        let k = choose|k: int|
            0 <= k < lb@.len() && ub == lb@[k] && (forall|i: int| 0 <= i < k ==> #[trigger] lb@[i] <= g)
                && (k < lb@.len() - 1 ==> g < lb@[k]);
        let top = e.len() - 1;
        assert(lb@[top] == 4 * e[top]);
        assert(e[top] == metadata.spec_num_nodes());
        if k < top {
            assert(e[k] < e[top]);
        }
        if k == top && top > 0 {
            assert(lb@[top - 1] <= g);
        }
        assert(g < ub);
        assert(ub % 4 == 0);
        if g < 4 * n && k > 0 {
            assert(lb@[0] <= g);
        }
        if 0 <= lv < e.len() && level_start(e, lv) <= g / 4 < e[lv] {
            if k > lv {
                assert(lb@[lv] <= g);
            }
            if k < lv {
                assert(e[k] <= e[lv - 1]);
            }
            assert(k == lv);
        }
    }
    let a = g + 4 * metadata.node_size();
    if a < ub {
        a
    } else {
        ub
    }
}

/// Searches the tree for the query box `q = (min_x, min_y, max_x, max_y)`: walks the tree
/// breadth-first from the root, descending only into nodes whose boxes intersect the query, and
/// returns the stored index of each intersecting leaf.
///
/// Every result is the index of a leaf whose box intersects the query. In a tree of the shape
/// that the builder makes, the results are the indices of all intersecting leaves, in leaf
/// order. The walk visits at most as many groups of children as the tree has nodes.
pub(crate) fn search_tree<N: IndexableNum>(
    boxes: &Vec<i64>,
    indices: &Indices,
    metadata: &RTreeMetadata<N>,
    q: (i64, i64, i64, i64),
) -> (r: Vec<u32>)
    requires
        rtree_layout(*metadata, ints(boxes@), indices@, indices.is_u16()),
    ensures
        forall|i: int|
            0 <= i < r@.len() ==> is_leaf_hit(
                ints(boxes@),
                indices@,
                metadata.spec_num_items(),
                query_ints(q),
                #[trigger] r@[i] as nat,
            ),
        tree_shape(ints(boxes@), indices@, metadata.spec_num_items(), metadata.spec_node_size())
            ==> nats_u32(r@) == search_results(
            ints(boxes@),
            indices@,
            metadata.spec_num_items(),
            metadata.spec_node_size(),
            query_ints(q),
        ),
{
    let ghost b = ints(boxes@);
    let ghost idx = indices@;
    let ghost qq = query_ints(q);
    let ghost n = metadata.spec_num_items();
    let ghost ns = metadata.spec_node_size();
    let ghost e = level_ends(n, ns);
    let ghost top = e.len() - 1;
    let ghost nodes = metadata.spec_num_nodes();
    let ghost shape = tree_shape(b, idx, n, ns);
    proof {
        lemma_level_ends(n, ns);
        crate::bytes::lemma_pow256_facts();
        lemma_level_start_bounds(n, ns, top);
        assert forall|k: int| 0 <= k < idx.len() implies #[trigger] idx[k] <= u32::MAX by {
            assert(idx[k] < crate::bytes::pow256(crate::rtree::index::index_width(nodes)));
        }
    }
    let mut results: Vec<u32> = Vec::new();
    if boxes.len() == 0 {
        return results;
    }
    let n_items = metadata.num_items();
    let num_nodes = metadata.num_nodes();
    let mut queue: Vec<usize> = Vec::new();
    let root = boxes.len() - 4;
    let end = group_end(metadata, root, Ghost(top as int));
    scan_group(boxes, indices, root / 4, end / 4, q, root < 4 * n_items, &mut queue, &mut results);
    proof {
        let h = hits(b, qq, (root / 4) as int, (end / 4) as int);
        lemma_hits_bounds(b, qq, (root / 4) as int, (end / 4) as int);
        if root < 4 * n_items {
            lemma_results_sound(b, idx, n, qq, Seq::empty(), results@, (root / 4) as int, (end / 4) as int);
        }
        if shape {
            if top == 0 {
                assert(e =~= seq![n]);
                assert(root == 0);
                assert(root < 4 * n_items);
                assert(queue@.len() == 0);
                assert(nats_u32(results@) =~= idx_of(idx, h));
            } else {
                crate::rtree::structure::lemma_top_single(n, ns);
                crate::rtree::structure::lemma_level_step(n, ns, top as int);
                assert(root / 4 == level_start(e, top as int));
                assert(end / 4 == e[top as int]);
                assert(!(root < 4 * n_items));
                let parents = level_hits(b, qq, e, top as int);
                assert(parents.skip(0) =~= parents);
                assert(parents.take(0) =~= Seq::<int>::empty());
                assert(gather(b, qq, e, ns, top as int, Seq::<int>::empty()) =~= Seq::<int>::empty());
                assert(nats_usize(queue@).subrange(0, queue@.len() as int) =~= pending(
                    b,
                    idx,
                    qq,
                    e,
                    ns,
                    top - 1,
                    0,
                ));
                assert(nats_u32(results@) =~= found(b, idx, qq, e, ns, top - 1, 0));
            }
        }
    }
    let mut head: usize = 0;
    let mut steps: usize = 0;
    let ghost mut l: int = top - 1;
    let ghost mut j: int = 0;
    while head < queue.len() && steps < num_nodes
        invariant
            rtree_layout(*metadata, b, idx, indices.is_u16()),
            b == ints(boxes@),
            idx == indices@,
            qq == query_ints(q),
            n == metadata.spec_num_items(),
            ns == metadata.spec_node_size(),
            e == level_ends(n, ns),
            top == e.len() - 1,
            nodes == metadata.spec_num_nodes(),
            nodes == e[top as int],
            n_items == n,
            num_nodes == nodes,
            shape == tree_shape(b, idx, n, ns),
            n >= 1,
            forall|k: int| 0 <= k < idx.len() ==> #[trigger] idx[k] <= u32::MAX,
            head <= queue@.len(),
            steps <= num_nodes,
            forall|i: int| 0 <= i < results@.len() ==> is_leaf_hit(b, idx, n, qq, #[trigger] results@[i] as nat),
            shape && top == 0 ==> head == queue@.len() && nats_u32(results@) == search_results(
                b,
                idx,
                n,
                ns,
                qq,
            ),
            shape && top >= 1 ==> {
                &&& 0 <= l < top
                &&& 0 <= j <= level_hits(b, qq, e, l + 1).len()
                &&& nats_usize(queue@).subrange(head as int, queue@.len() as int) == pending(
                    b,
                    idx,
                    qq,
                    e,
                    ns,
                    l,
                    j,
                )
                &&& nats_u32(results@) == found(b, idx, qq, e, ns, l, j)
                &&& steps <= e[top as int] - e[l + 1] + j
            },
        decreases num_nodes - steps,
    {
        let ghost tail0 = nats_usize(queue@).subrange(head as int, queue@.len() as int);
        let ghost results0 = results@;
        let ghost queue0 = queue@;
        proof {
            if shape && top >= 1 {
                let r = lemma_next_group(b, idx, n, ns, qq, l, j);
                l = r.0;
                j = r.1;
            }
        }
        let g = queue[head];
        head = head + 1;
        steps = steps + 1;
        if g % 4 == 0 && g < boxes.len() {
            proof {
                if shape && top >= 1 {
                    lemma_group_position(b, idx, n, ns, qq, l, j, tail0);
                    assert(tail0[0] == g as nat);
                }
            }
            let end = group_end(metadata, g, Ghost(l));
            let leaf = g < 4 * n_items;
            scan_group(boxes, indices, g / 4, end / 4, q, leaf, &mut queue, &mut results);
            proof {
                lemma_search_step(
                    b,
                    idx,
                    n,
                    ns,
                    qq,
                    l,
                    j,
                    shape && top >= 1,
                    g as int,
                    end as int,
                    leaf,
                    tail0,
                    queue0,
                    head as int,
                    queue@,
                    results0,
                    results@,
                );
                if shape && top >= 1 {
                    j = j + 1;
                }
            }
        } else {
            proof {
                if shape && top >= 1 {
                    lemma_group_position(b, idx, n, ns, qq, l, j, tail0);
                    assert(tail0[0] == g as nat);
                    assert(false);
                }
            }
        }
    }
    proof {
        if shape && top >= 1 {
            if head < queue@.len() {
                let r = lemma_next_group(b, idx, n, ns, qq, l, j);
                assert(false);
            }
            let parents = level_hits(b, qq, e, l + 1);
            assert(pending(b, idx, qq, e, ns, l, j).len() == 0);
            assert(idx_of(idx, parents.skip(j)).len() == 0);
            assert(j == parents.len());
            assert(parents.take(j) =~= parents);
            lemma_gather_level(b, idx, n, ns, qq, l + 1);
            if l == 0 {
                assert(level_start(e, 0) == 0);
            } else {
                assert(idx_of(idx, gather(b, qq, e, ns, l + 1, parents)).len() == 0);
                lemma_empty_below(b, idx, n, ns, qq, l);
                assert(level_start(e, 0) == 0);
                assert(hits(b, qq, 0, n as int) =~= Seq::<int>::empty());
                assert(search_results(b, idx, n, ns, qq) =~= Seq::<nat>::empty());
                assert(nats_u32(results@) =~= Seq::<nat>::empty());
            }
        }
    }
    results
}

/// The next queued group of a search of a well-formed tree starts at the first child of the
/// next intersecting parent: a position of the level below, whose group ends where that parent's
/// children end.
proof fn lemma_group_position(
    boxes: Seq<int>,
    indices: Seq<nat>,
    n: nat,
    ns: nat,
    q: (int, int, int, int),
    l: int,
    j: int,
    tail: Seq<nat>,
)
    requires
        n >= 1,
        tree_shape(boxes, indices, n, ns),
        0 <= l < level_ends(n, ns).len() - 1,
        0 <= j < level_hits(boxes, q, level_ends(n, ns), l + 1).len(),
        tail == pending(boxes, indices, q, level_ends(n, ns), ns, l, j),
    ensures
        ({
            let e = level_ends(n, ns);
            let s = level_hits(boxes, q, e, l + 1)[j];
            let fc = first_child(e, ns, l + 1, s);
            &&& tail.len() > 0
            &&& tail[0] == 4 * fc
            &&& level_start(e, l) <= fc < e[l]
            &&& fc < end_child(e, ns, l + 1, s)
            &&& end_child(e, ns, l + 1, s) == min_int(fc + ns, e[l] as int)
            &&& e[l] <= num_nodes_spec(n, ns)
            &&& (fc < n <==> l == 0)
        }),
{
    let e = level_ends(n, ns);
    let parents = level_hits(boxes, q, e, l + 1);
    let s = parents[j];
    lemma_level_ends(n, ns);
    lemma_level_start_bounds(n, ns, l + 1);
    lemma_level_start_bounds(n, ns, l);
    lemma_hits_bounds(boxes, q, level_start(e, l + 1), e[l + 1] as int);
    assert(level_start(e, l + 1) <= s < e[l + 1]);
    assert(parent_ok(boxes, indices, e, ns, l + 1, s));
    let fc = first_child(e, ns, l + 1, s);
    assert(fc >= level_start(e, l)) by (nonlinear_arith)
        requires
            fc == level_start(e, l) + (s - level_start(e, l + 1)) * ns,
            s >= level_start(e, l + 1),
    ;
    assert(idx_of(indices, parents.skip(j))[0] == indices[s]);
}

/// One step of the search: the group at the head of the queue is scanned, which (in a
/// well-formed tree) moves the walk to the next group of the level; and every result is the
/// index of an intersecting leaf.
proof fn lemma_search_step(
    boxes: Seq<int>,
    indices: Seq<nat>,
    n: nat,
    ns: nat,
    q: (int, int, int, int),
    l: int,
    j: int,
    shaped: bool,
    g: int,
    end: int,
    leaf: bool,
    tail0: Seq<nat>,
    queue0: Seq<usize>,
    head: int,
    queue1: Seq<usize>,
    results0: Seq<u32>,
    results1: Seq<u32>,
)
    requires
        n >= 1,
        1 <= head <= queue0.len(),
        tail0 == nats_usize(queue0).subrange(head - 1, queue0.len() as int),
        g == queue0[head - 1],
        g % 4 == 0,
        end % 4 == 0,
        g <= end,
        leaf == (g < 4 * n),
        leaf ==> end <= 4 * n,
        leaf ==> nats_u32(results1) == nats_u32(results0) + idx_of(
            indices,
            hits(boxes, q, g / 4, end / 4),
        ),
        leaf ==> queue1 == queue0,
        !leaf ==> nats_usize(queue1) == nats_usize(queue0) + idx_of(
            indices,
            hits(boxes, q, g / 4, end / 4),
        ),
        !leaf ==> results1 == results0,
        forall|i: int| 0 <= i < results0.len() ==> is_leaf_hit(boxes, indices, n, q, #[trigger] results0[i] as nat),
        shaped ==> tree_shape(boxes, indices, n, ns),
        shaped ==> 0 <= l < level_ends(n, ns).len() - 1,
        shaped ==> 0 <= j < level_hits(boxes, q, level_ends(n, ns), l + 1).len(),
        shaped ==> tail0 == pending(boxes, indices, q, level_ends(n, ns), ns, l, j),
        shaped ==> nats_u32(results0) == found(boxes, indices, q, level_ends(n, ns), ns, l, j),
        shaped ==> end == 4 * min_int(g / 4 + ns, level_ends(n, ns)[l] as int),
    ensures
        forall|i: int| 0 <= i < results1.len() ==> is_leaf_hit(boxes, indices, n, q, #[trigger] results1[i] as nat),
        queue1.len() >= queue0.len(),
        shaped ==> nats_usize(queue1).subrange(head, queue1.len() as int) == pending(
            boxes,
            indices,
            q,
            level_ends(n, ns),
            ns,
            l,
            j + 1,
        ),
        shaped ==> nats_u32(results1) == found(boxes, indices, q, level_ends(n, ns), ns, l, j + 1),
{
    let h = hits(boxes, q, g / 4, end / 4);
    lemma_hits_bounds(boxes, q, g / 4, end / 4);
    if leaf {
        lemma_results_sound(boxes, indices, n, q, results0, results1, g / 4, end / 4);
    } else {
        assert(nats_usize(queue1).len() == nats_usize(queue0).len() + idx_of(indices, h).len());
    }
    if shaped {
        let e = level_ends(n, ns);
        let parents = level_hits(boxes, q, e, l + 1);
        let s = parents[j];
        lemma_group_position(boxes, indices, n, ns, q, l, j, tail0);
        let fc = first_child(e, ns, l + 1, s);
        assert(tail0[0] == queue0[head - 1] as nat);
        assert(g / 4 == fc);
        assert(end / 4 == end_child(e, ns, l + 1, s));
        assert(h == children_hits(boxes, q, e, ns, l + 1, s));
        let t = parents.take(j + 1);
        assert(t.drop_last() =~= parents.take(j));
        assert(gather(boxes, q, e, ns, l + 1, t) == gather(boxes, q, e, ns, l + 1, parents.take(j))
            + h);
        assert(idx_of(indices, parents.skip(j)).skip(1) =~= idx_of(indices, parents.skip(j + 1)));
        if l >= 1 {
            assert(!leaf);
            let a = nats_usize(queue0);
            let bh = idx_of(indices, h);
            assert(nats_usize(queue1).len() == a.len() + bh.len());
            assert(tail0.skip(1) =~= a.subrange(head, a.len() as int));
            assert(nats_usize(queue1).subrange(head, queue1.len() as int) =~= a.subrange(
                head,
                a.len() as int,
            ) + bh);
            assert(nats_usize(queue1).subrange(head, queue1.len() as int) =~= tail0.skip(1)
                + idx_of(indices, h));
            assert(pending(boxes, indices, q, e, ns, l, j + 1) =~= tail0.skip(1) + idx_of(
                indices,
                h,
            ));
            assert(nats_u32(results1) =~= found(boxes, indices, q, e, ns, l, j + 1));
        } else {
            assert(leaf);
            assert(nats_usize(queue1).subrange(head, queue1.len() as int) =~= tail0.skip(1));
            assert(pending(boxes, indices, q, e, ns, l, j + 1) =~= tail0.skip(1));
            assert(nats_u32(results1) =~= found(boxes, indices, q, e, ns, l, j + 1));
        }
    }
}

/// Appending the indices of the hits of a range of leaves keeps every result the index of an
/// intersecting leaf.
proof fn lemma_results_sound(
    boxes: Seq<int>,
    indices: Seq<nat>,
    n: nat,
    q: (int, int, int, int),
    r0: Seq<u32>,
    r1: Seq<u32>,
    lo: int,
    hi: int,
)
    requires
        0 <= lo,
        hi <= n,
        forall|i: int| 0 <= i < r0.len() ==> is_leaf_hit(boxes, indices, n, q, #[trigger] r0[i] as nat),
        nats_u32(r1) == nats_u32(r0) + idx_of(indices, hits(boxes, q, lo, hi)),
    ensures
        forall|i: int| 0 <= i < r1.len() ==> is_leaf_hit(boxes, indices, n, q, #[trigger] r1[i] as nat),
{
    let h = hits(boxes, q, lo, hi);
    lemma_hits_bounds(boxes, q, lo, hi);
    assert(nats_u32(r1).len() == r1.len());
    assert forall|i: int| 0 <= i < r1.len() implies is_leaf_hit(
        boxes,
        indices,
        n,
        q,
        #[trigger] r1[i] as nat,
    ) by {
        if i >= r0.len() {
            let k = h[i - r0.len()];
            assert(nats_u32(r1)[i] == idx_of(indices, h)[i - r0.len()]);
            assert(r1[i] as nat == indices[k]);
        } else {
            assert(nats_u32(r1)[i] == nats_u32(r0)[i]);
            assert(r1[i] == r0[i]);
        }
    }
}

/// The nodes of `lo..hi` whose boxes intersect the query are all hits, and the hits are in
/// strictly increasing order.
pub proof fn lemma_hits_complete(boxes: Seq<int>, q: (int, int, int, int), lo: int, hi: int)
    ensures
        forall|k: int|
            lo <= k < hi && #[trigger] box_intersects(boxes, k, q) ==> hits(
                boxes,
                q,
                lo,
                hi,
            ).contains(k),
        forall|i: int, j: int|
            0 <= i < j < hits(boxes, q, lo, hi).len() ==> #[trigger] hits(boxes, q, lo, hi)[i]
                < #[trigger] hits(boxes, q, lo, hi)[j],
    decreases hi - lo,
{
    if hi > lo {
        lemma_hits_complete(boxes, q, lo, hi - 1);
        lemma_hits_bounds(boxes, q, lo, hi - 1);
        let h = hits(boxes, q, lo, hi - 1);
        assert forall|k: int|
            lo <= k < hi && #[trigger] box_intersects(boxes, k, q) implies hits(
            boxes,
            q,
            lo,
            hi,
        ).contains(k) by {
            if k < hi - 1 {
                let m = choose|m: int| 0 <= m < h.len() && h[m] == k;
                assert(hits(boxes, q, lo, hi)[m] == k);
            } else {
                assert(hits(boxes, q, lo, hi)[h.len() as int] == k);
            }
        }
    }
}

/// The box of an item (four coordinates and an index) and the query box share a point.
pub open spec fn item_intersects(item: (int, int, int, int, nat), q: (int, int, int, int)) -> bool {
    !(q.2 < item.0 || q.3 < item.1 || q.0 > item.2 || q.1 > item.3)
}

/// Searching a tree whose leaves are the added boxes, each with its insertion index, in any
/// order, finds the insertion index of every added box that intersects the query and nothing
/// else, each once.
pub proof fn lemma_search_finds_added(
    boxes: Seq<int>,
    indices: Seq<nat>,
    n: nat,
    ns: nat,
    added: Seq<(int, int, int, int, nat)>,
    q: (int, int, int, int),
)
    requires
        n >= 1,
        !(n == 1 && ns == 0),
        added.len() == n,
        forall|i: int| 0 <= i < n ==> #[trigger] added[i].4 == i,
        4 * n <= boxes.len(),
        n <= indices.len(),
        items_in(boxes, indices, 0, n as int).to_multiset() == added.to_multiset(),
    ensures
        forall|x: nat|
            #[trigger] search_results(boxes, indices, n, ns, q).contains(x) <==> (x < n
                && item_intersects(added[x as int], q)),
        search_results(boxes, indices, n, ns, q).no_duplicates(),
{
    let leaves = items_in(boxes, indices, 0, n as int);
    let h = hits(boxes, q, 0, n as int);
    let r = search_results(boxes, indices, n, ns, q);
    assert(r == idx_of(indices, h));
    lemma_hits_bounds(boxes, q, 0, n as int);
    lemma_hits_complete(boxes, q, 0, n as int);
    // the added items are distinct, so the leaves are too
    assert forall|i: int, j: int|
        0 <= i < added.len() && 0 <= j < added.len() && i != j implies added[i] != added[j] by {
        assert(added[i].4 == i);
        assert(added[j].4 == j);
    }
    assert(added.no_duplicates());
    added.lemma_multiset_has_no_duplicates();
    assert forall|x| leaves.to_multiset().contains(x) implies leaves.to_multiset().count(x) == 1 by {}
    leaves.lemma_multiset_has_no_duplicates_conv();
    // each leaf is the added item of its index
    assert forall|k: int| 0 <= k < n implies #[trigger] indices[k] < n && added[indices[k] as int]
        == leaves[k] by {
        assert(leaves[k] == box_item(boxes, indices, k));
        assert(leaves.contains(leaves[k]));
        vstd::seq_lib::to_multiset_contains(leaves, leaves[k]);
        vstd::seq_lib::to_multiset_contains(added, leaves[k]);
        let i = choose|i: int| 0 <= i < added.len() && added[i] == leaves[k];
        assert(added[i].4 == i);
    }
    assert forall|x: nat| #[trigger] r.contains(x) <==> (x < n && item_intersects(
        added[x as int],
        q,
    )) by {
        if r.contains(x) {
            let m = choose|m: int| 0 <= m < r.len() && r[m] == x;
            let k = h[m];
            assert(indices[k] == x);
            assert(leaves[k] == box_item(boxes, indices, k));
        }
        if x < n && item_intersects(added[x as int], q) {
            assert(added.contains(added[x as int]));
            vstd::seq_lib::to_multiset_contains(added, added[x as int]);
            vstd::seq_lib::to_multiset_contains(leaves, added[x as int]);
            let k = choose|k: int| 0 <= k < leaves.len() && leaves[k] == added[x as int];
            assert(leaves[k] == box_item(boxes, indices, k));
            assert(indices[k] == x);
            assert(box_intersects(boxes, k, q));
            assert(h.contains(k));
            let m = choose|m: int| 0 <= m < h.len() && h[m] == k;
            assert(r[m] == x);
        }
    }
    assert forall|m1: int, m2: int| 0 <= m1 < r.len() && 0 <= m2 < r.len() && m1 != m2 implies r[m1]
        != r[m2] by {
        let k1 = h[m1];
        let k2 = h[m2];
        if m1 < m2 {
            assert(k1 < k2);
        } else {
            assert(k2 < k1);
        }
        if r[m1] == r[m2] {
            assert(leaves[k1] == added[indices[k1] as int]);
            assert(leaves[k2] == added[indices[k2] as int]);
        }
    }
}

} // verus!
