//! The shape of a packed RTree: which nodes are the children of which.
use vstd::prelude::*;

use crate::rtree::util::{
    ceil_div, lemma_ceil_div_shrinks, lemma_level_ends, level_ends, num_nodes_spec, upper_level_ends,
};

verus! {

/// The smaller of two values.
pub open spec fn min_int(a: int, b: int) -> int {
    if a <= b {
        a
    } else {
        b
    }
}

/// The larger of two values.
pub open spec fn max_int(a: int, b: int) -> int {
    if a >= b {
        a
    } else {
        b
    }
}

/// The smallest of `init` and coordinate `c` of the boxes of nodes `lo..hi`.
pub open spec fn fold_min(boxes: Seq<int>, lo: int, hi: int, c: int, init: int) -> int
    decreases hi - lo,
{
    if hi <= lo {
        init
    } else {
        min_int(fold_min(boxes, lo, hi - 1, c, init), boxes[4 * (hi - 1) + c])
    }
}

/// The largest of `init` and coordinate `c` of the boxes of nodes `lo..hi`.
pub open spec fn fold_max(boxes: Seq<int>, lo: int, hi: int, c: int, init: int) -> int
    decreases hi - lo,
{
    if hi <= lo {
        init
    } else {
        max_int(fold_max(boxes, lo, hi - 1, c, init), boxes[4 * (hi - 1) + c])
    }
}

/// The bounding box of the boxes of nodes `lo..hi` (non-empty), as four coordinates.
pub open spec fn union_box(boxes: Seq<int>, lo: int, hi: int) -> (int, int, int, int) {
    (
        fold_min(boxes, lo + 1, hi, 0, boxes[4 * lo]),
        fold_min(boxes, lo + 1, hi, 1, boxes[4 * lo + 1]),
        fold_max(boxes, lo + 1, hi, 2, boxes[4 * lo + 2]),
        fold_max(boxes, lo + 1, hi, 3, boxes[4 * lo + 3]),
    )
}

/// The box of node `k`.
pub open spec fn node_box(boxes: Seq<int>, k: int) -> (int, int, int, int) {
    (boxes[4 * k], boxes[4 * k + 1], boxes[4 * k + 2], boxes[4 * k + 3])
}

/// The first node of level `l` of a tree with the given level ends.
pub open spec fn level_start(ends: Seq<nat>, l: int) -> int {
    if l <= 0 {
        0
    } else {
        ends[l - 1] as int
    }
}

/// The first child of node `s` of level `l >= 1`.
pub open spec fn first_child(ends: Seq<nat>, ns: nat, l: int, s: int) -> int {
    level_start(ends, l - 1) + (s - level_start(ends, l)) * ns
}

/// One past the last child of node `s` of level `l >= 1`.
pub open spec fn end_child(ends: Seq<nat>, ns: nat, l: int, s: int) -> int {
    min_int(first_child(ends, ns, l, s) + ns, ends[l - 1] as int)
}

/// Node `s` of level `l >= 1` is a well-formed parent: its index is the position of its first
/// child's box, it has at least one child, and its box is the bounding box of its children.
pub open spec fn parent_ok(
    boxes: Seq<int>,
    indices: Seq<nat>,
    ends: Seq<nat>,
    ns: nat,
    l: int,
    s: int,
) -> bool {
    let c0 = first_child(ends, ns, l, s);
    let c1 = end_child(ends, ns, l, s);
    &&& indices[s] == 4 * c0
    &&& c0 < c1
    &&& node_box(boxes, s) == union_box(boxes, c0, c1)
}

/// Every node above the leaves of a tree over `n` items with nodes of `ns` children is a
/// well-formed parent of its group of children: the nodes of each level are the parents, in order,
/// of consecutive groups of `ns` nodes of the level below.
pub open spec fn tree_shape(boxes: Seq<int>, indices: Seq<nat>, n: nat, ns: nat) -> bool {
    let ends = level_ends(n, ns);
    forall|l: int, s: int|
        1 <= l < ends.len() && level_start(ends, l) <= s < ends[l] ==> #[trigger] parent_ok(
            boxes,
            indices,
            ends,
            ns,
            l,
            s,
        )
}

/// Each level above the leaves has one node per group of `ns` nodes of the level below, and the
/// level below it has at least two nodes.
pub proof fn lemma_upper_steps(m: nat, ns: nat, end: nat, t: int)
    requires
        0 <= t < upper_level_ends(m, ns, end).len(),
        m <= end,
    ensures
        ({
            let u = upper_level_ends(m, ns, end);
            let prev = if t == 0 {
                end as int
            } else {
                u[t - 1] as int
            };
            let prev_start = if t == 0 {
                end - m
            } else if t == 1 {
                end as int
            } else {
                u[t - 2] as int
            };
            &&& prev - prev_start >= 2
            &&& ns >= 2
            &&& u[t] == prev + ceil_div((prev - prev_start) as nat, ns)
        }),
    decreases m,
{
    let c = ceil_div(m, ns);
    lemma_ceil_div_shrinks(m, ns);
    let rest = upper_level_ends(c, ns, end + c);
    assert(upper_level_ends(m, ns, end) == seq![end + c] + rest);
    if t > 0 {
        lemma_upper_steps(c, ns, end + c, t - 1);
    }
}

/// Level `l >= 1` has one node per group of `ns` nodes of the level below, which has at least
/// two nodes.
pub proof fn lemma_level_step(n: nat, ns: nat, l: int)
    requires
        n >= 1,
        1 <= l < level_ends(n, ns).len(),
    ensures
        level_ends(n, ns)[l - 1] - level_start(level_ends(n, ns), l - 1) >= 2,
        ns >= 2,
        level_ends(n, ns)[l] == level_ends(n, ns)[l - 1] + ceil_div(
            (level_ends(n, ns)[l - 1] - level_start(level_ends(n, ns), l - 1)) as nat,
            ns,
        ),
{
    let e = level_ends(n, ns);
    let u = upper_level_ends(n, ns, n);
    assert(e == seq![n] + u);
    lemma_upper_steps(n, ns, n, l - 1);
    assert(e[l] == u[l - 1]);
    if l >= 2 {
        assert(e[l - 1] == u[l - 2]);
    }
    if l >= 3 {
        assert(e[l - 2] == u[l - 3]);
    }
}

/// The top level has a single node.
pub proof fn lemma_top_single(n: nat, ns: nat)
    requires
        n >= 1,
    ensures
        level_ends(n, ns).last() - level_start(level_ends(n, ns), level_ends(n, ns).len() - 1)
            == 1 || (level_ends(n, ns).len() == 1 && (n == 1 || ns < 2)),
{
    let e = level_ends(n, ns);
    let u = upper_level_ends(n, ns, n);
    assert(e == seq![n] + u);
    lemma_top_level(n, ns, n);
    if u.len() > 0 {
        assert(e.last() == u.last());
        if u.len() >= 2 {
            assert(e[e.len() - 2] == u[u.len() - 2]);
        }
    }
}

/// The last level above a level of `m >= 1` nodes ending at `end` has a single node.
proof fn lemma_top_level(m: nat, ns: nat, end: nat)
    requires
        m >= 1,
        m <= end,
    ensures
        ({
            let u = upper_level_ends(m, ns, end);
            &&& u.len() == 0 ==> (m == 1 || ns < 2)
            &&& u.len() == 1 ==> u[0] == end + 1
            &&& u.len() >= 2 ==> u.last() == u[u.len() - 2] + 1
        }),
    decreases m,
{
    if m <= 1 || ns < 2 {
    } else {
        let c = ceil_div(m, ns);
        lemma_ceil_div_shrinks(m, ns);
        lemma_top_level(c, ns, end + c);
        let rest = upper_level_ends(c, ns, end + c);
        assert(upper_level_ends(m, ns, end) == seq![end + c] + rest);
        if rest.len() == 0 {
            assert(c == 1);
        }
    }
}

/// Folding from `lo` is folding from `lo + 1` with the first box already taken in.
pub proof fn lemma_fold_first(boxes: Seq<int>, lo: int, hi: int, c: int, init: int)
    requires
        lo < hi,
    ensures
        fold_min(boxes, lo, hi, c, init) == fold_min(
            boxes,
            lo + 1,
            hi,
            c,
            min_int(init, boxes[4 * lo + c]),
        ),
        fold_max(boxes, lo, hi, c, init) == fold_max(
            boxes,
            lo + 1,
            hi,
            c,
            max_int(init, boxes[4 * lo + c]),
        ),
    decreases hi - lo,
{
    if hi > lo + 1 {
        lemma_fold_first(boxes, lo, hi - 1, c, init);
    } else {
        assert(fold_min(boxes, lo, lo, c, init) == init);
        assert(fold_max(boxes, lo, lo, c, init) == init);
    }
}

/// A fold only reads the boxes of its nodes.
pub proof fn lemma_fold_frame(b1: Seq<int>, b2: Seq<int>, lo: int, hi: int, c: int, init: int)
    requires
        forall|k: int| lo <= k < hi ==> #[trigger] b1[4 * k + c] == b2[4 * k + c],
    ensures
        fold_min(b1, lo, hi, c, init) == fold_min(b2, lo, hi, c, init),
        fold_max(b1, lo, hi, c, init) == fold_max(b2, lo, hi, c, init),
    decreases hi - lo,
{
    if hi > lo {
        lemma_fold_frame(b1, b2, lo, hi - 1, c, init);
        assert(b1[4 * (hi - 1) + c] == b2[4 * (hi - 1) + c]);
    }
}

/// The bounding box of a group only reads the boxes of the group.
pub proof fn lemma_union_frame(b1: Seq<int>, b2: Seq<int>, lo: int, hi: int)
    requires
        lo < hi,
        forall|p: int| 4 * lo <= p < 4 * hi ==> #[trigger] b1[p] == b2[p],
    ensures
        union_box(b1, lo, hi) == union_box(b2, lo, hi),
{
    assert forall|k: int| lo + 1 <= k < hi implies #[trigger] b1[4 * k + 0] == b2[4 * k + 0] by {
        assert(b1[4 * k] == b2[4 * k]);
    }
    assert forall|k: int| lo + 1 <= k < hi implies #[trigger] b1[4 * k + 1] == b2[4 * k + 1] by {}
    assert forall|k: int| lo + 1 <= k < hi implies #[trigger] b1[4 * k + 2] == b2[4 * k + 2] by {}
    assert forall|k: int| lo + 1 <= k < hi implies #[trigger] b1[4 * k + 3] == b2[4 * k + 3] by {}
    lemma_fold_frame(b1, b2, lo + 1, hi, 0, b1[4 * lo]);
    lemma_fold_frame(b1, b2, lo + 1, hi, 1, b1[4 * lo + 1]);
    lemma_fold_frame(b1, b2, lo + 1, hi, 2, b1[4 * lo + 2]);
    lemma_fold_frame(b1, b2, lo + 1, hi, 3, b1[4 * lo + 3]);
    assert(b1[4 * lo] == b2[4 * lo]);
    assert(b1[4 * lo + 1] == b2[4 * lo + 1]);
    assert(b1[4 * lo + 2] == b2[4 * lo + 2]);
    assert(b1[4 * lo + 3] == b2[4 * lo + 3]);
}

/// A well-formed parent stays well-formed when no box of it or of its children and not its
/// index changes.
pub proof fn lemma_parent_frame(
    b1: Seq<int>,
    i1: Seq<nat>,
    b2: Seq<int>,
    i2: Seq<nat>,
    ends: Seq<nat>,
    ns: nat,
    l: int,
    s: int,
)
    requires
        parent_ok(b1, i1, ends, ns, l, s),
        first_child(ends, ns, l, s) >= 0,
        forall|p: int| 4 * first_child(ends, ns, l, s) <= p < 4 * end_child(ends, ns, l, s) ==> #[trigger] b1[p] == b2[p],
        b1[4 * s] == b2[4 * s],
        b1[4 * s + 1] == b2[4 * s + 1],
        b1[4 * s + 2] == b2[4 * s + 2],
        b1[4 * s + 3] == b2[4 * s + 3],
        i1[s] == i2[s],
    ensures
        parent_ok(b2, i2, ends, ns, l, s),
{
    lemma_union_frame(b1, b2, first_child(ends, ns, l, s), end_child(ends, ns, l, s));
}

/// A fold of values within a range, started inside the range, stays inside it.
pub proof fn lemma_fold_range(boxes: Seq<int>, lo: int, hi: int, c: int, init: int, a: int, b: int)
    requires
        a <= init <= b,
        forall|k: int| lo <= k < hi ==> a <= #[trigger] boxes[4 * k + c] <= b,
    ensures
        a <= fold_min(boxes, lo, hi, c, init) <= b,
        a <= fold_max(boxes, lo, hi, c, init) <= b,
    decreases hi - lo,
{
    if hi > lo {
        lemma_fold_range(boxes, lo, hi - 1, c, init, a, b);
        assert(a <= boxes[4 * (hi - 1) + c] <= b);
    }
}

/// A group of `ns` that starts inside a level of `size` nodes is one of the level's
/// `ceil(size / ns)` groups, and once the groups cover the level there are exactly that many.
pub proof fn lemma_group_count(g: int, ns: int, size: int)
    requires
        ns >= 1,
        size >= 0,
        g >= 0,
    ensures
        g * ns < size ==> g < ceil_div(size as nat, ns as nat),
        g * ns >= size && g <= ceil_div(size as nat, ns as nat) ==> g == ceil_div(
            size as nat,
            ns as nat,
        ),
{
    let q = ceil_div(size as nat, ns as nat) as int;
    assert(q * ns <= size + ns - 1 && size + ns - 1 < (q + 1) * ns) by (nonlinear_arith)
        requires
            q == (size + ns - 1) / ns,
            ns >= 1,
            size >= 0,
    ;
    if g * ns < size {
        assert(g < q) by (nonlinear_arith)
            requires
                g * ns < size,
                size + ns - 1 < (q + 1) * ns,
                ns >= 1,
        ;
    }
    if g * ns >= size && g <= q {
        assert(g >= q) by (nonlinear_arith)
            requires
                g * ns >= size,
                q * ns <= size + ns - 1,
                ns >= 1,
        ;
    }
}

/// The level of node `s`, a node above the leaves.
pub open spec fn level_of(ends: Seq<nat>, s: int) -> int {
    choose|l: int| 1 <= l < ends.len() && #[trigger] level_start(ends, l) <= s < ends[l]
}

/// Every node above the leaves belongs to a level above the leaves.
pub proof fn lemma_level_of(n: nat, ns: nat, s: int)
    requires
        n >= 1,
        n <= s < num_nodes_spec(n, ns),
    ensures
        1 <= level_of(level_ends(n, ns), s) < level_ends(n, ns).len(),
        level_start(level_ends(n, ns), level_of(level_ends(n, ns), s)) <= s < level_ends(
            n,
            ns,
        )[level_of(level_ends(n, ns), s)],
{
    let e = level_ends(n, ns);
    lemma_level_ends(n, ns);
    lemma_find_level(e, s, e.len() - 1);
}

/// A node before the end of level `t` (and not a leaf) lies in one of the levels `1..=t`.
pub proof fn lemma_find_level(e: Seq<nat>, s: int, t: int)
    requires
        1 <= t < e.len(),
        e[0] <= s < e[t],
    ensures
        exists|l: int| 1 <= l < e.len() && #[trigger] level_start(e, l) <= s < e[l],
    decreases t,
{
    if s >= e[t - 1] {
        assert(level_start(e, t) <= s < e[t]);
    } else {
        lemma_find_level(e, s, t - 1);
    }
}

/// The node of level `l` whose subtree holds leaf `p`: its ancestor at that level.
pub open spec fn ancestor(ends: Seq<nat>, ns: nat, p: int, l: int) -> int
    decreases l,
{
    if l <= 0 {
        p
    } else {
        level_start(ends, l) + (ancestor(ends, ns, p, l - 1) - level_start(ends, l - 1)) / (ns as int)
    }
}

/// The ancestor of a leaf at level `l` lies in level `l`, and (above the leaves) its ancestor at
/// the level below is one of its children.
pub proof fn lemma_ancestor(n: nat, ns: nat, p: int, l: int)
    requires
        n >= 1,
        0 <= p < n,
        0 <= l < level_ends(n, ns).len(),
    ensures
        level_start(level_ends(n, ns), l) <= ancestor(level_ends(n, ns), ns, p, l) < level_ends(
            n,
            ns,
        )[l],
        l >= 1 ==> first_child(level_ends(n, ns), ns, l, ancestor(level_ends(n, ns), ns, p, l))
            <= ancestor(level_ends(n, ns), ns, p, l - 1) < end_child(
            level_ends(n, ns),
            ns,
            l,
            ancestor(level_ends(n, ns), ns, p, l),
        ),
    decreases l,
{
    let e = level_ends(n, ns);
    lemma_level_ends(n, ns);
    if l >= 1 {
        lemma_ancestor(n, ns, p, l - 1);
        lemma_level_step(n, ns, l);
        let below = ancestor(e, ns, p, l - 1);
        let ls = level_start(e, l - 1);
        let d = below - ls;
        let size = e[l - 1] - ls;
        let q = d / (ns as int);
        assert(q * ns <= d < q * ns + ns && q >= 0) by (nonlinear_arith)
            requires
                q == d / (ns as int),
                ns >= 2,
                d >= 0,
        ;
        lemma_group_count(q, ns as int, size);
        assert(level_start(e, l) == e[l - 1]);
        assert(first_child(e, ns, l, ancestor(e, ns, p, l)) == ls + q * ns);
    }
}

/// The top level of a tree over at least one item holds its last node alone, so the ancestor
/// of every leaf there is the root.
pub proof fn lemma_ancestor_root(n: nat, ns: nat, p: int)
    requires
        n >= 1,
        0 <= p < n,
        n == 1 || ns >= 2,
    ensures
        ancestor(level_ends(n, ns), ns, p, level_ends(n, ns).len() - 1) == level_ends(n, ns).last() - 1,
        level_ends(n, ns).len() == 1 ==> n == 1,
{
    let e = level_ends(n, ns);
    lemma_level_ends(n, ns);
    lemma_top_single(n, ns);
    lemma_ancestor(n, ns, p, e.len() - 1);
}

/// Node `s` lies in at most one level.
pub proof fn lemma_one_level(n: nat, ns: nat, s: int, l: int, m: int)
    requires
        n >= 1,
        0 <= l < level_ends(n, ns).len(),
        0 <= m < level_ends(n, ns).len(),
        level_start(level_ends(n, ns), l) <= s < level_ends(n, ns)[l],
        level_start(level_ends(n, ns), m) <= s < level_ends(n, ns)[m],
    ensures
        l == m,
{
    let e = level_ends(n, ns);
    lemma_level_ends(n, ns);
    if l < m {
        assert(e[l] <= e[m - 1]);
    }
    if m < l {
        assert(e[m] <= e[l - 1]);
    }
}

/// In a tree of the builder's shape, the box of each ancestor of a leaf covers the leaf's box.
pub proof fn lemma_ancestor_covers(boxes: Seq<int>, indices: Seq<nat>, n: nat, ns: nat, p: int, l: int)
    requires
        n >= 1,
        0 <= p < n,
        0 <= l < level_ends(n, ns).len(),
        tree_shape(boxes, indices, n, ns),
        4 * level_ends(n, ns).last() <= boxes.len(),
    ensures
        ({
            let a = ancestor(level_ends(n, ns), ns, p, l);
            &&& boxes[4 * a] <= boxes[4 * p]
            &&& boxes[4 * a + 1] <= boxes[4 * p + 1]
            &&& boxes[4 * a + 2] >= boxes[4 * p + 2]
            &&& boxes[4 * a + 3] >= boxes[4 * p + 3]
        }),
    decreases l,
{
    let e = level_ends(n, ns);
    if l >= 1 {
        lemma_ancestor_covers(boxes, indices, n, ns, p, l - 1);
        lemma_ancestor(n, ns, p, l);
        let a = ancestor(e, ns, p, l);
        let k = ancestor(e, ns, p, l - 1);
        assert(parent_ok(boxes, indices, e, ns, l, a));
        let c0 = first_child(e, ns, l, a);
        let c1 = end_child(e, ns, l, a);
        crate::rtree::search::lemma_fold_bounds(boxes, c0 + 1, c1, 0, boxes[4 * c0]);
        crate::rtree::search::lemma_fold_bounds(boxes, c0 + 1, c1, 1, boxes[4 * c0 + 1]);
        crate::rtree::search::lemma_fold_bounds(boxes, c0 + 1, c1, 2, boxes[4 * c0 + 2]);
        crate::rtree::search::lemma_fold_bounds(boxes, c0 + 1, c1, 3, boxes[4 * c0 + 3]);
        if k > c0 {
            assert(boxes[4 * k + 0] == boxes[4 * k]);
        }
    }
}

/// A leaf's ancestor above the leaves is not a leaf; at the leaves it is the leaf itself.
pub proof fn lemma_ancestor_leaf(n: nat, ns: nat, p: int, l: int)
    requires
        n >= 1,
        0 <= p < n,
        0 <= l < level_ends(n, ns).len(),
    ensures
        (ancestor(level_ends(n, ns), ns, p, l) < n) == (l == 0),
        l == 0 ==> ancestor(level_ends(n, ns), ns, p, l) == p,
{
    let e = level_ends(n, ns);
    lemma_level_ends(n, ns);
    lemma_ancestor(n, ns, p, l);
    if l >= 1 {
        if l - 1 >= 1 {
            assert(e[0] < e[l - 1]);
        }
    }
}

/// In a tree of the builder's shape, the ancestor of a leaf at a level above the leaves is a
/// node of that level past the leaves, and its index points at its children, which come
/// before it.
pub proof fn lemma_walk_children(boxes: Seq<int>, indices: Seq<nat>, n: nat, ns: nat, p: int, l: int)
    requires
        n >= 1,
        0 <= p < n,
        1 <= l < level_ends(n, ns).len(),
        tree_shape(boxes, indices, n, ns),
    ensures
        ({
            let e = level_ends(n, ns);
            let a = ancestor(e, ns, p, l);
            let g = indices[a];
            &&& n <= a < e.last()
            &&& level_of(e, a) == l
            &&& g % 4 == 0
            &&& g < 4 * e.last()
            &&& level_start(e, l - 1) <= g / 4 < e[l - 1]
            &&& g / 4 == first_child(e, ns, l, a)
            &&& min_int((g / 4 + ns) as int, e[l - 1] as int) == end_child(e, ns, l, a)
            &&& end_child(e, ns, l, a) <= a
        }),
{
    let e = level_ends(n, ns);
    lemma_level_ends(n, ns);
    lemma_ancestor(n, ns, p, l);
    let a = ancestor(e, ns, p, l);
    assert(parent_ok(boxes, indices, e, ns, l, a));
    lemma_level_of(n, ns, a);
    lemma_one_level(n, ns, a, l, level_of(e, a));
    let fc = first_child(e, ns, l, a);
    assert(fc >= level_start(e, l - 1)) by (nonlinear_arith)
        requires
            fc == level_start(e, l - 1) + (a - level_start(e, l)) * ns,
            a >= level_start(e, l),
    ;
    assert(level_start(e, l) == e[l - 1]);
    if l - 1 >= 1 {
        assert(e[0] < e[l - 1]);
    }
    if l < e.len() - 1 {
        assert(e[l] < e[e.len() - 1]);
    }
}

/// Node `x` is leaf `k` or one of its ancestors.
pub open spec fn covers(e: Seq<nat>, ns: nat, x: int, k: int) -> bool {
    exists|l: int| 0 <= l < e.len() && #[trigger] ancestor(e, ns, k, l) == x
}

/// A node that covers a leaf and lies in level `m` is the leaf's ancestor at level `m`.
pub proof fn lemma_covers_level(n: nat, ns: nat, x: int, k: int, m: int)
    requires
        n >= 1,
        0 <= k < n,
        0 <= m < level_ends(n, ns).len(),
        level_start(level_ends(n, ns), m) <= x < level_ends(n, ns)[m],
        covers(level_ends(n, ns), ns, x, k),
    ensures
        ancestor(level_ends(n, ns), ns, k, m) == x,
{
    let e = level_ends(n, ns);
    let l = choose|l: int| 0 <= l < e.len() && #[trigger] ancestor(e, ns, k, l) == x;
    lemma_ancestor(n, ns, k, l);
    lemma_one_level(n, ns, x, l, m);
}

/// A leaf under a child of node `s` of level `l` is under `s`.
pub proof fn lemma_child_covers(n: nat, ns: nat, s: int, l: int, c: int, k: int)
    requires
        n >= 1,
        0 <= k < n,
        1 <= l < level_ends(n, ns).len(),
        level_start(level_ends(n, ns), l) <= s < level_ends(n, ns)[l],
        first_child(level_ends(n, ns), ns, l, s) <= c < end_child(level_ends(n, ns), ns, l, s),
        covers(level_ends(n, ns), ns, c, k),
    ensures
        covers(level_ends(n, ns), ns, s, k),
{
    let e = level_ends(n, ns);
    lemma_level_ends(n, ns);
    lemma_level_step(n, ns, l);
    let ls = level_start(e, l - 1);
    let q = s - level_start(e, l);
    assert(c >= ls) by (nonlinear_arith)
        requires
            c >= ls + q * ns,
            q >= 0,
    ;
    assert(level_start(e, l) == e[l - 1]);
    lemma_covers_level(n, ns, c, k, l - 1);
    let d = c - ls;
    assert(d / (ns as int) == q) by (nonlinear_arith)
        requires
            q * ns <= d < q * ns + ns,
            ns >= 2,
    ;
    assert(ancestor(e, ns, k, l) == s);
}

} // verus!
