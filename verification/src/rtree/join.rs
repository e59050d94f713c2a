//! Joining two RTrees: the pairs of items, one from each tree, whose boxes intersect.
use vstd::prelude::*;

use crate::bytes::{lemma_pow256_pos, lemma_pow_mono, pow256};
use crate::indices::Indices;
use crate::num::IndexableNum;
use crate::rtree::index::{index_width, rtree_layout, RTreeMetadata};
use crate::rtree::search::{box_intersects, group_end};
use crate::rtree::neighbors::is_leaf_index;
use crate::rtree::sort::util::{box_item, ints, items_in};
use crate::rtree::structure::{
    ancestor, covers, end_child, first_child, lemma_ancestor, lemma_ancestor_covers, lemma_ancestor_leaf,
    lemma_ancestor_root, lemma_child_covers, lemma_covers_level, lemma_level_of, lemma_walk_children,
    level_of, level_start, min_int, parent_ok, tree_shape,
};
use crate::rtree::util::{lemma_level_ends, level_ends};

verus! {

/// The boxes of node `a` of the first tree and node `b` of the second share a point.
pub open spec fn nodes_meet(b1: Seq<int>, a: int, b2: Seq<int>, b: int) -> bool {
    box_intersects(b1, a, (b2[4 * b], b2[4 * b + 1], b2[4 * b + 2], b2[4 * b + 3]))
}

/// `p` holds the stored indices of a leaf of the first tree and a leaf of the second whose
/// boxes share a point.
pub open spec fn leaf_pair(
    b1: Seq<int>,
    i1: Seq<nat>,
    n1: nat,
    b2: Seq<int>,
    i2: Seq<nat>,
    n2: nat,
    p: (u32, u32),
) -> bool {
    exists|a: int, b: int|
        #![trigger i1[a], i2[b]]
        0 <= a < n1 && 0 <= b < n2 && nodes_meet(b1, a, b2, b) && i1[a] == p.0 as nat && i2[b]
            == p.1 as nat
}

/// One tree of a join: its boxes, indices and metadata.
pub(crate) struct Side<'a, N: IndexableNum> {
    pub(crate) boxes: &'a Vec<i64>,
    pub(crate) indices: &'a Indices,
    pub(crate) metadata: &'a RTreeMetadata<N>,
}

impl<'a, N: IndexableNum> Side<'a, N> {
    /// The side is a well-formed tree.
    pub(crate) open spec fn wf(&self) -> bool {
        rtree_layout(*self.metadata, ints(self.boxes@), self.indices@, self.indices.is_u16())
    }

    /// The number of nodes.
    pub(crate) open spec fn nodes(&self) -> nat {
        self.metadata.spec_num_nodes()
    }

    /// The number of items.
    pub(crate) open spec fn n(&self) -> nat {
        self.metadata.spec_num_items()
    }

    /// The node size.
    pub(crate) open spec fn ns(&self) -> nat {
        self.metadata.spec_node_size()
    }

    /// The coordinates of the boxes.
    pub(crate) open spec fn bx(&self) -> Seq<int> {
        ints(self.boxes@)
    }

    /// The children of node `k`: the group that its stored index points at, of at most
    /// `node_size` nodes and not past the end of the level `lv` of its first node when that is
    /// its level (none when the index points at no node).
    fn children(&self, k: usize, Ghost(lv): Ghost<int>) -> (r: (usize, usize))
        requires
            self.wf(),
            k < self.nodes(),
        ensures
            r.0 <= r.1 <= self.nodes(),
            r.1 - r.0 <= self.ns(),
            ({
                let g = self.indices@[k as int];
                let e = level_ends(self.n(), self.ns());
                g % 4 == 0 && g < 4 * self.nodes() && 0 <= lv < e.len() && level_start(e, lv) <= g / 4
                    < e[lv] ==> r.0 == g / 4 && r.1 == min_int((g / 4 + self.ns()) as int, e[lv] as int)
            }),
    {
        let g = self.indices.get(k);
        if g % 4 == 0 && g < self.boxes.len() {
            let end = group_end(self.metadata, g, Ghost(lv));
            (g / 4, end / 4)
        } else {
            (0, 0)
        }
    }

    /// The children of node `k`, as `children`, where they all come before `k` (as children do
    /// in a tree laid out level by level from the leaves); else none.
    fn children_below(&self, k: usize, Ghost(lv): Ghost<int>) -> (r: (usize, usize))
        requires
            self.wf(),
            k < self.nodes(),
        ensures
            r.0 <= r.1 <= k,
            r.1 - r.0 <= self.ns(),
            ({
                let g = self.indices@[k as int];
                let e = level_ends(self.n(), self.ns());
                g % 4 == 0 && g < 4 * self.nodes() && 0 <= lv < e.len() && level_start(e, lv) <= g / 4
                    < e[lv] && min_int((g / 4 + self.ns()) as int, e[lv] as int) <= k ==> r.0 == g / 4 && r.1
                    == min_int((g / 4 + self.ns()) as int, e[lv] as int)
            }),
    {
        let (lo, hi) = self.children(k, Ghost(lv));
        if hi <= k {
            (lo, hi)
        } else {
            (k, k)
        }
    }
}

/// Whether node `a` of the first tree and node `b` of the second meet.
fn meet<N: IndexableNum>(s1: &Side<N>, a: usize, s2: &Side<N>, b: usize) -> (r: bool)
    requires
        s1.wf(),
        s2.wf(),
        a < s1.nodes(),
        b < s2.nodes(),
    ensures
        r == nodes_meet(s1.bx(), a as int, s2.bx(), b as int),
{
    let _len1 = s1.boxes.len();
    let _len2 = s2.boxes.len();
    let p = 4 * a;
    let q = 4 * b;
    !(s2.boxes[q + 2] < s1.boxes[p] || s2.boxes[q + 3] < s1.boxes[p + 1] || s2.boxes[q]
        > s1.boxes[p + 2] || s2.boxes[q + 1] > s1.boxes[p + 3])
}

/// The pairs of `t` from position `from` on are distinct.
#[verifier::opaque]
pub open spec fn pairs_distinct(t: Seq<(usize, usize)>, from: int) -> bool {
    forall|e1: int, e2: int| from <= e1 < e2 < t.len() ==> #[trigger] t[e1] != #[trigger] t[e2]
}

/// Every queued pair is a pair of nodes of the two trees that meet.
pub open spec fn todo_ok(b1: Seq<int>, nodes1: nat, b2: Seq<int>, nodes2: nat, todo: Seq<(usize, usize)>) -> bool {
    forall|e: int|
        0 <= e < todo.len() ==> (#[trigger] todo[e]).0 < nodes1 && todo[e].1 < nodes2 && nodes_meet(
            b1,
            todo[e].0 as int,
            b2,
            todo[e].1 as int,
        )
}

/// The weight of a queued pair: the walk only ever replaces a pair by fewer than `2^32` pairs
/// of smaller total position.
pub open spec fn pair_weight(p: (usize, usize)) -> nat {
    pow256((4 * (p.0 + p.1)) as nat)
}

/// The total weight of the queue.
pub open spec fn todo_weight(t: Seq<(usize, usize)>) -> nat
    decreases t.len(),
{
    if t.len() == 0 {
        0
    } else {
        todo_weight(t.drop_last()) + pair_weight(t.last())
    }
}

/// The weight of two queues one after the other is the sum of their weights.
proof fn lemma_weight_append(t: Seq<(usize, usize)>, p: Seq<(usize, usize)>)
    ensures
        todo_weight(t + p) == todo_weight(t) + todo_weight(p),
    decreases p.len(),
{
    if p.len() == 0 {
        assert(t + p =~= t);
    } else {
        lemma_weight_append(t, p.drop_last());
        assert((t + p).drop_last() =~= t + p.drop_last());
        assert((t + p).last() == p.last());
    }
}

/// A queue of pairs whose positions add up to less than `s` weighs at most its length times the
/// weight of a pair of total `s - 1`.
proof fn lemma_weight_bound(p: Seq<(usize, usize)>, s: nat)
    requires
        s >= 1,
        forall|e: int| 0 <= e < p.len() ==> (#[trigger] p[e]).0 + p[e].1 < s,
    ensures
        todo_weight(p) <= p.len() * pow256((4 * (s - 1)) as nat),
    decreases p.len(),
{
    if p.len() > 0 {
        let q = p.drop_last();
        assert forall|e: int| 0 <= e < q.len() implies (#[trigger] q[e]).0 + q[e].1 < s by {
            assert(q[e] == p[e]);
        }
        lemma_weight_bound(q, s);
        let l = p.last();
        assert(l == p[p.len() - 1]);
        lemma_pow_mono((4 * (l.0 + l.1)) as nat, (4 * (s - 1)) as nat);
        assert(todo_weight(p) <= p.len() * pow256((4 * (s - 1)) as nat)) by (nonlinear_arith)
            requires
                todo_weight(p) == todo_weight(q) + pair_weight(l),
                todo_weight(q) <= q.len() * pow256((4 * (s - 1)) as nat),
                pair_weight(l) <= pow256((4 * (s - 1)) as nat),
                q.len() + 1 == p.len(),
        ;
    }
}

/// Four more bytes multiply by `2^32`.
proof fn lemma_pow256_step4(w: nat)
    ensures
        pow256(w + 4) == 4294967296 * pow256(w),
{
    reveal_with_fuel(pow256, 5);
}

/// Queuing fewer than `2^32` pairs of smaller total position in place of a popped pair makes the
/// queue lighter.
proof fn lemma_weight_drops(t: Seq<(usize, usize)>, top: (usize, usize), p: Seq<(usize, usize)>)
    requires
        p.len() < 4294967296,
        forall|e: int| 0 <= e < p.len() ==> (#[trigger] p[e]).0 + p[e].1 < top.0 + top.1,
    ensures
        todo_weight(t + p) < todo_weight(t.push(top)),
{
    lemma_weight_append(t, p);
    assert(t.push(top).drop_last() =~= t);
    let s = (top.0 + top.1) as nat;
    if p.len() == 0 {
        lemma_pow256_pos((4 * s) as nat);
        assert(todo_weight(p) == 0);
    } else {
        assert(p[0].0 + p[0].1 < s);
        lemma_weight_bound(p, s);
        lemma_pow256_step4((4 * (s - 1)) as nat);
        assert((4 * (s - 1)) as nat + 4 == 4 * s);
        let w = pow256((4 * (s - 1)) as nat);
        lemma_pow256_pos((4 * (s - 1)) as nat);
        assert(p.len() * w < 4294967296 * w) by (nonlinear_arith)
            requires
                p.len() < 4294967296,
                w >= 1,
        ;
    }
}

/// A tree that the walk covers completely: over at least two items, or a single item whose
/// index points at itself, with a node size of at least one.
pub open spec fn join_ready(indices: Seq<nat>, n: nat, ns: nat) -> bool {
    n >= 2 || (indices[0] == 0 && ns >= 1)
}

/// The level of the nodes of a tree of height `top` in the pairs that the walk takes `j` steps
/// after the children of the roots.
pub open spec fn walk_level(top: int, j: int) -> int {
    if top - 1 - j > 0 {
        top - 1 - j
    } else {
        0
    }
}

/// The pair of nodes through which the walk reaches leaf `p` of the first tree and leaf `q` of
/// the second, `j` steps after the children of the roots.
pub open spec fn walk_pair(e1: Seq<nat>, ns1: nat, e2: Seq<nat>, ns2: nat, p: int, q: int, j: int) -> (
    int,
    int,
) {
    (
        ancestor(e1, ns1, p, walk_level(e1.len() - 1, j)),
        ancestor(e2, ns2, q, walk_level(e2.len() - 1, j)),
    )
}

/// The queued pair `t` is the walk pair `j` of leaves `p` and `q`.
pub open spec fn is_walk_pair(
    e1: Seq<nat>,
    ns1: nat,
    e2: Seq<nat>,
    ns2: nat,
    p: int,
    q: int,
    j: int,
    t: (usize, usize),
) -> bool {
    j >= 0 && t.0 as int == walk_pair(e1, ns1, e2, ns2, p, q, j).0 && t.1 as int == walk_pair(
        e1,
        ns1,
        e2,
        ns2,
        p,
        q,
        j,
    ).1
}

/// Leaves `p` and `q` are reported, or a pair of the walk toward them is queued.
pub open spec fn reached(
    i1: Seq<nat>,
    e1: Seq<nat>,
    ns1: nat,
    i2: Seq<nat>,
    e2: Seq<nat>,
    ns2: nat,
    todo: Seq<(usize, usize)>,
    results: Seq<(u32, u32)>,
    p: int,
    q: int,
) -> bool {
    ||| exists|k: int| 0 <= k < results.len() && #[trigger] results[k] == (i1[p] as u32, i2[q] as u32)
    ||| exists|e: int, j: int|
        #![trigger todo[e], walk_pair(e1, ns1, e2, ns2, p, q, j)]
        0 <= e < todo.len() && is_walk_pair(e1, ns1, e2, ns2, p, q, j, todo[e])
}

/// Every pair of leaves whose boxes meet is reached.
pub open spec fn covered(
    b1: Seq<int>,
    i1: Seq<nat>,
    n1: nat,
    ns1: nat,
    b2: Seq<int>,
    i2: Seq<nat>,
    n2: nat,
    ns2: nat,
    todo: Seq<(usize, usize)>,
    results: Seq<(u32, u32)>,
) -> bool {
    forall|p: int, q: int|
        0 <= p < n1 && 0 <= q < n2 && #[trigger] nodes_meet(b1, p, b2, q) ==> reached(
            i1,
            level_ends(n1, ns1),
            ns1,
            i2,
            level_ends(n2, ns2),
            ns2,
            todo,
            results,
            p,
            q,
        )
}

/// In trees of the builder's shape, the ancestors of two leaves whose boxes meet meet too.
proof fn lemma_ancestors_meet(
    b1: Seq<int>,
    i1: Seq<nat>,
    n1: nat,
    ns1: nat,
    b2: Seq<int>,
    i2: Seq<nat>,
    n2: nat,
    ns2: nat,
    p: int,
    q: int,
    l1: int,
    l2: int,
)
    requires
        n1 >= 1,
        n2 >= 1,
        0 <= p < n1,
        0 <= q < n2,
        0 <= l1 < level_ends(n1, ns1).len(),
        0 <= l2 < level_ends(n2, ns2).len(),
        tree_shape(b1, i1, n1, ns1),
        tree_shape(b2, i2, n2, ns2),
        4 * level_ends(n1, ns1).last() <= b1.len(),
        4 * level_ends(n2, ns2).last() <= b2.len(),
        nodes_meet(b1, p, b2, q),
    ensures
        nodes_meet(
            b1,
            ancestor(level_ends(n1, ns1), ns1, p, l1),
            b2,
            ancestor(level_ends(n2, ns2), ns2, q, l2),
        ),
{
    lemma_ancestor_covers(b1, i1, n1, ns1, p, l1);
    lemma_ancestor_covers(b2, i2, n2, ns2, q, l2);
}

/// Popping the last pair of the queue and queuing pairs after the rest keeps every pair of
/// meeting leaves reached, when each pair of leaves reached through the popped pair is reported
/// or reached through a newly queued pair one step further.
proof fn lemma_covered_step(
    b1: Seq<int>,
    i1: Seq<nat>,
    n1: nat,
    ns1: nat,
    b2: Seq<int>,
    i2: Seq<nat>,
    n2: nat,
    ns2: nat,
    tp: Seq<(usize, usize)>,
    top: (usize, usize),
    r0: Seq<(u32, u32)>,
    todo: Seq<(usize, usize)>,
    results: Seq<(u32, u32)>,
)
    requires
        covered(b1, i1, n1, ns1, b2, i2, n2, ns2, tp.push(top), r0),
        tp.len() <= todo.len(),
        todo.subrange(0, tp.len() as int) == tp,
        r0.len() <= results.len(),
        results.subrange(0, r0.len() as int) == r0,
        forall|p: int, q: int, j: int|
            0 <= p < n1 && 0 <= q < n2 && nodes_meet(b1, p, b2, q) && #[trigger] is_walk_pair(
                level_ends(n1, ns1),
                ns1,
                level_ends(n2, ns2),
                ns2,
                p,
                q,
                j,
                top,
            ) ==> reached(
                i1,
                level_ends(n1, ns1),
                ns1,
                i2,
                level_ends(n2, ns2),
                ns2,
                todo.subrange(tp.len() as int, todo.len() as int),
                results,
                p,
                q,
            ),
    ensures
        covered(b1, i1, n1, ns1, b2, i2, n2, ns2, todo, results),
{
    let e1 = level_ends(n1, ns1);
    let e2 = level_ends(n2, ns2);
    let t0 = tp.push(top);
    let fresh = todo.subrange(tp.len() as int, todo.len() as int);
    assert forall|p: int, q: int| 0 <= p < n1 && 0 <= q < n2 && #[trigger] nodes_meet(b1, p, b2, q) implies reached(
        i1,
        e1,
        ns1,
        i2,
        e2,
        ns2,
        todo,
        results,
        p,
        q,
    ) by {
        assert(reached(i1, e1, ns1, i2, e2, ns2, t0, r0, p, q));
        if exists|k: int| 0 <= k < r0.len() && #[trigger] r0[k] == (i1[p] as u32, i2[q] as u32) {
            let k = choose|k: int| 0 <= k < r0.len() && #[trigger] r0[k] == (i1[p] as u32, i2[q] as u32);
            assert(results.subrange(0, r0.len() as int)[k] == r0[k]);
            assert(results[k] == r0[k]);
        } else {
            let (e, j) = choose|e: int, j: int|
                #![trigger t0[e], walk_pair(e1, ns1, e2, ns2, p, q, j)]
                0 <= e < t0.len() && is_walk_pair(e1, ns1, e2, ns2, p, q, j, t0[e]);
            if e < tp.len() {
                assert(t0[e] == tp[e]);
                assert(todo.subrange(0, tp.len() as int)[e] == tp[e]);
                assert(todo[e] == tp[e]);
                assert(is_walk_pair(e1, ns1, e2, ns2, p, q, j, todo[e]));
                assert(walk_pair(e1, ns1, e2, ns2, p, q, j) == walk_pair(e1, ns1, e2, ns2, p, q, j));
            } else {
                assert(t0[e] == top);
                assert(reached(i1, e1, ns1, i2, e2, ns2, fresh, results, p, q));
                if exists|k: int| 0 <= k < results.len() && #[trigger] results[k] == (i1[p] as u32, i2[q] as u32) {
                } else {
                    let (f, j2) = choose|f: int, j2: int|
                        #![trigger fresh[f], walk_pair(e1, ns1, e2, ns2, p, q, j2)]
                        0 <= f < fresh.len() && is_walk_pair(e1, ns1, e2, ns2, p, q, j2, fresh[f]);
                    assert(fresh[f] == todo[tp.len() + f]);
                    assert(is_walk_pair(e1, ns1, e2, ns2, p, q, j2, todo[tp.len() + f]));
                    assert(walk_pair(e1, ns1, e2, ns2, p, q, j2) == walk_pair(e1, ns1, e2, ns2, p, q, j2));
                }
            }
        }
    }
}

/// The group that `children_below` gives for node `k` (with the level below `k`'s as the level
/// of its children) is exact where the index of `k` points at a group of that level that comes
/// before `k`.
pub open spec fn group_exact(indices: Seq<nat>, n: nat, ns: nat, nodes: nat, k: int, lo: int, hi: int) -> bool {
    let g = indices[k];
    let e = level_ends(n, ns);
    let lv = level_of(e, k) - 1;
    g % 4 == 0 && g < 4 * nodes && 0 <= lv < e.len() && level_start(e, lv) <= g / 4 < e[lv]
        && min_int((g / 4 + ns) as int, e[lv] as int) <= k ==> lo == g / 4 && hi == min_int(
        (g / 4 + ns) as int,
        e[lv] as int,
    )
}

/// The facts about two trees of the builder's shape that the walk needs.
pub open spec fn shaped_pair(
    b1: Seq<int>,
    i1: Seq<nat>,
    n1: nat,
    ns1: nat,
    b2: Seq<int>,
    i2: Seq<nat>,
    n2: nat,
    ns2: nat,
) -> bool {
    &&& n1 >= 1
    &&& n2 >= 1
    &&& tree_shape(b1, i1, n1, ns1)
    &&& tree_shape(b2, i2, n2, ns2)
    &&& 4 * level_ends(n1, ns1).last() <= b1.len()
    &&& 4 * level_ends(n2, ns2).last() <= b2.len()
}

/// A walk level is a level of the tree.
proof fn lemma_walk_level(n: nat, ns: nat, j: int)
    requires
        n >= 1,
        j >= 0,
    ensures
        0 <= walk_level(level_ends(n, ns).len() - 1, j) < level_ends(n, ns).len(),
        walk_level(level_ends(n, ns).len() - 1, j) >= 1 ==> walk_level(level_ends(n, ns).len() - 1, j + 1)
            == walk_level(level_ends(n, ns).len() - 1, j) - 1,
        walk_level(level_ends(n, ns).len() - 1, j) == 0 ==> walk_level(level_ends(n, ns).len() - 1, j + 1)
            == 0,
{
    lemma_level_ends(n, ns);
}

/// A popped pair of two leaves is the end of the walk toward exactly those leaves, which are
/// then reported.
proof fn lemma_progress_leaves(
    b1: Seq<int>,
    i1: Seq<nat>,
    n1: nat,
    ns1: nat,
    b2: Seq<int>,
    i2: Seq<nat>,
    n2: nat,
    ns2: nat,
    a: usize,
    b: usize,
    fresh: Seq<(usize, usize)>,
    r0: Seq<(u32, u32)>,
    results: Seq<(u32, u32)>,
)
    requires
        n1 >= 1,
        n2 >= 1,
        a < n1,
        b < n2,
        results == r0.push((i1[a as int] as u32, i2[b as int] as u32)),
    ensures
        forall|p: int, q: int, j: int|
            0 <= p < n1 && 0 <= q < n2 && nodes_meet(b1, p, b2, q) && #[trigger] is_walk_pair(
                level_ends(n1, ns1),
                ns1,
                level_ends(n2, ns2),
                ns2,
                p,
                q,
                j,
                (a, b),
            ) ==> reached(i1, level_ends(n1, ns1), ns1, i2, level_ends(n2, ns2), ns2, fresh, results, p, q),
{
    let e1 = level_ends(n1, ns1);
    let e2 = level_ends(n2, ns2);
    assert forall|p: int, q: int, j: int|
        0 <= p < n1 && 0 <= q < n2 && nodes_meet(b1, p, b2, q) && #[trigger] is_walk_pair(
            e1,
            ns1,
            e2,
            ns2,
            p,
            q,
            j,
            (a, b),
        ) implies reached(i1, e1, ns1, i2, e2, ns2, fresh, results, p, q) by {
        lemma_walk_level(n1, ns1, j);
        lemma_walk_level(n2, ns2, j);
        lemma_ancestor_leaf(n1, ns1, p, walk_level(e1.len() - 1, j));
        lemma_ancestor_leaf(n2, ns2, q, walk_level(e2.len() - 1, j));
        assert(results[r0.len() as int] == (i1[p] as u32, i2[q] as u32));
    }
}

/// A popped pair of a leaf `a` of the first tree and a node `b` above the leaves of the second:
/// the walk toward leaves through it goes on through `a` and the child of `b` toward the
/// second leaf, which is queued.
proof fn lemma_progress_right(
    b1: Seq<int>,
    i1: Seq<nat>,
    n1: nat,
    ns1: nat,
    b2: Seq<int>,
    i2: Seq<nat>,
    n2: nat,
    ns2: nat,
    a: usize,
    b: usize,
    lo: usize,
    hi: usize,
    fresh: Seq<(usize, usize)>,
    results: Seq<(u32, u32)>,
)
    requires
        shaped_pair(b1, i1, n1, ns1, b2, i2, n2, ns2),
        a < n1,
        n2 <= b,
        group_exact(i2, n2, ns2, level_ends(n2, ns2).last(), b as int, lo as int, hi as int),
        forall|c: int|
            lo <= c < hi && nodes_meet(b1, a as int, b2, c) ==> exists|f: int|
                0 <= f < fresh.len() && #[trigger] fresh[f] == (a, c as usize),
    ensures
        forall|p: int, q: int, j: int|
            0 <= p < n1 && 0 <= q < n2 && nodes_meet(b1, p, b2, q) && #[trigger] is_walk_pair(
                level_ends(n1, ns1),
                ns1,
                level_ends(n2, ns2),
                ns2,
                p,
                q,
                j,
                (a, b),
            ) ==> reached(i1, level_ends(n1, ns1), ns1, i2, level_ends(n2, ns2), ns2, fresh, results, p, q),
{
    let e1 = level_ends(n1, ns1);
    let e2 = level_ends(n2, ns2);
    assert forall|p: int, q: int, j: int|
        0 <= p < n1 && 0 <= q < n2 && nodes_meet(b1, p, b2, q) && #[trigger] is_walk_pair(
            e1,
            ns1,
            e2,
            ns2,
            p,
            q,
            j,
            (a, b),
        ) implies reached(i1, e1, ns1, i2, e2, ns2, fresh, results, p, q) by {
        lemma_walk_level(n1, ns1, j);
        lemma_walk_level(n2, ns2, j);
        let l1 = walk_level(e1.len() - 1, j);
        let l2 = walk_level(e2.len() - 1, j);
        lemma_ancestor_leaf(n1, ns1, p, l1);
        lemma_ancestor_leaf(n2, ns2, q, l2);
        assert(l1 == 0 && l2 >= 1);
        lemma_walk_children(b2, i2, n2, ns2, q, l2);
        lemma_ancestor(n2, ns2, q, l2);
        let c = ancestor(e2, ns2, q, l2 - 1);
        lemma_ancestors_meet(b1, i1, n1, ns1, b2, i2, n2, ns2, p, q, 0, l2 - 1);
        assert(lo <= c < hi);
        let f = choose|f: int| 0 <= f < fresh.len() && #[trigger] fresh[f] == (a, c as usize);
        assert(is_walk_pair(e1, ns1, e2, ns2, p, q, j + 1, fresh[f]));
        assert(walk_pair(e1, ns1, e2, ns2, p, q, j + 1) == walk_pair(e1, ns1, e2, ns2, p, q, j + 1));
    }
}

/// A popped pair of a node `a` above the leaves of the first tree and a leaf `b` of the second:
/// the mirror of `lemma_progress_right`.
proof fn lemma_progress_left(
    b1: Seq<int>,
    i1: Seq<nat>,
    n1: nat,
    ns1: nat,
    b2: Seq<int>,
    i2: Seq<nat>,
    n2: nat,
    ns2: nat,
    a: usize,
    b: usize,
    lo: usize,
    hi: usize,
    fresh: Seq<(usize, usize)>,
    results: Seq<(u32, u32)>,
)
    requires
        shaped_pair(b1, i1, n1, ns1, b2, i2, n2, ns2),
        n1 <= a,
        b < n2,
        group_exact(i1, n1, ns1, level_ends(n1, ns1).last(), a as int, lo as int, hi as int),
        forall|c: int|
            lo <= c < hi && nodes_meet(b1, c, b2, b as int) ==> exists|f: int|
                0 <= f < fresh.len() && #[trigger] fresh[f] == (c as usize, b),
    ensures
        forall|p: int, q: int, j: int|
            0 <= p < n1 && 0 <= q < n2 && nodes_meet(b1, p, b2, q) && #[trigger] is_walk_pair(
                level_ends(n1, ns1),
                ns1,
                level_ends(n2, ns2),
                ns2,
                p,
                q,
                j,
                (a, b),
            ) ==> reached(i1, level_ends(n1, ns1), ns1, i2, level_ends(n2, ns2), ns2, fresh, results, p, q),
{
    let e1 = level_ends(n1, ns1);
    let e2 = level_ends(n2, ns2);
    assert forall|p: int, q: int, j: int|
        0 <= p < n1 && 0 <= q < n2 && nodes_meet(b1, p, b2, q) && #[trigger] is_walk_pair(
            e1,
            ns1,
            e2,
            ns2,
            p,
            q,
            j,
            (a, b),
        ) implies reached(i1, e1, ns1, i2, e2, ns2, fresh, results, p, q) by {
        lemma_walk_level(n1, ns1, j);
        lemma_walk_level(n2, ns2, j);
        let l1 = walk_level(e1.len() - 1, j);
        let l2 = walk_level(e2.len() - 1, j);
        lemma_ancestor_leaf(n1, ns1, p, l1);
        lemma_ancestor_leaf(n2, ns2, q, l2);
        assert(l1 >= 1 && l2 == 0);
        lemma_walk_children(b1, i1, n1, ns1, p, l1);
        lemma_ancestor(n1, ns1, p, l1);
        let c = ancestor(e1, ns1, p, l1 - 1);
        lemma_ancestors_meet(b1, i1, n1, ns1, b2, i2, n2, ns2, p, q, l1 - 1, 0);
        assert(lo <= c < hi);
        let f = choose|f: int| 0 <= f < fresh.len() && #[trigger] fresh[f] == (c as usize, b);
        assert(is_walk_pair(e1, ns1, e2, ns2, p, q, j + 1, fresh[f]));
        assert(walk_pair(e1, ns1, e2, ns2, p, q, j + 1) == walk_pair(e1, ns1, e2, ns2, p, q, j + 1));
    }
}

/// A popped pair of two nodes above the leaves: the walk toward leaves through it goes on
/// through their children toward those leaves, which are queued.
proof fn lemma_progress_both(
    b1: Seq<int>,
    i1: Seq<nat>,
    n1: nat,
    ns1: nat,
    b2: Seq<int>,
    i2: Seq<nat>,
    n2: nat,
    ns2: nat,
    a: usize,
    b: usize,
    lo1: usize,
    hi1: usize,
    lo2: usize,
    hi2: usize,
    fresh: Seq<(usize, usize)>,
    results: Seq<(u32, u32)>,
)
    requires
        shaped_pair(b1, i1, n1, ns1, b2, i2, n2, ns2),
        n1 <= a,
        n2 <= b,
        group_exact(i1, n1, ns1, level_ends(n1, ns1).last(), a as int, lo1 as int, hi1 as int),
        group_exact(i2, n2, ns2, level_ends(n2, ns2).last(), b as int, lo2 as int, hi2 as int),
        nodes_meet(b1, a as int, b2, b as int) ==> forall|c1: int, c2: int|
            lo1 <= c1 < hi1 && lo2 <= c2 < hi2 && nodes_meet(b1, c1, b2, b as int) && nodes_meet(
                b1,
                a as int,
                b2,
                c2,
            ) && nodes_meet(b1, c1, b2, c2) ==> exists|f: int|
                0 <= f < fresh.len() && #[trigger] fresh[f] == (c1 as usize, c2 as usize),
    ensures
        forall|p: int, q: int, j: int|
            0 <= p < n1 && 0 <= q < n2 && nodes_meet(b1, p, b2, q) && #[trigger] is_walk_pair(
                level_ends(n1, ns1),
                ns1,
                level_ends(n2, ns2),
                ns2,
                p,
                q,
                j,
                (a, b),
            ) ==> reached(i1, level_ends(n1, ns1), ns1, i2, level_ends(n2, ns2), ns2, fresh, results, p, q),
{
    let e1 = level_ends(n1, ns1);
    let e2 = level_ends(n2, ns2);
    assert forall|p: int, q: int, j: int|
        0 <= p < n1 && 0 <= q < n2 && nodes_meet(b1, p, b2, q) && #[trigger] is_walk_pair(
            e1,
            ns1,
            e2,
            ns2,
            p,
            q,
            j,
            (a, b),
        ) implies reached(i1, e1, ns1, i2, e2, ns2, fresh, results, p, q) by {
        lemma_walk_level(n1, ns1, j);
        lemma_walk_level(n2, ns2, j);
        let l1 = walk_level(e1.len() - 1, j);
        let l2 = walk_level(e2.len() - 1, j);
        lemma_ancestor_leaf(n1, ns1, p, l1);
        lemma_ancestor_leaf(n2, ns2, q, l2);
        assert(l1 >= 1 && l2 >= 1);
        lemma_walk_children(b1, i1, n1, ns1, p, l1);
        lemma_walk_children(b2, i2, n2, ns2, q, l2);
        lemma_ancestor(n1, ns1, p, l1);
        lemma_ancestor(n2, ns2, q, l2);
        let c1 = ancestor(e1, ns1, p, l1 - 1);
        let c2 = ancestor(e2, ns2, q, l2 - 1);
        lemma_ancestors_meet(b1, i1, n1, ns1, b2, i2, n2, ns2, p, q, l1, l2);
        lemma_ancestors_meet(b1, i1, n1, ns1, b2, i2, n2, ns2, p, q, l1 - 1, l2);
        lemma_ancestors_meet(b1, i1, n1, ns1, b2, i2, n2, ns2, p, q, l1, l2 - 1);
        lemma_ancestors_meet(b1, i1, n1, ns1, b2, i2, n2, ns2, p, q, l1 - 1, l2 - 1);
        assert(lo1 <= c1 < hi1);
        assert(lo2 <= c2 < hi2);
        let f = choose|f: int| 0 <= f < fresh.len() && #[trigger] fresh[f] == (c1 as usize, c2 as usize);
        assert(is_walk_pair(e1, ns1, e2, ns2, p, q, j + 1, fresh[f]));
        assert(walk_pair(e1, ns1, e2, ns2, p, q, j + 1) == walk_pair(e1, ns1, e2, ns2, p, q, j + 1));
    }
}

/// Every pair of leaves whose boxes meet has its pair of stored indices among the results.
pub open spec fn all_pairs_found(
    b1: Seq<int>,
    i1: Seq<nat>,
    n1: nat,
    b2: Seq<int>,
    i2: Seq<nat>,
    n2: nat,
    r: Seq<(u32, u32)>,
) -> bool {
    forall|p: int, q: int|
        0 <= p < n1 && 0 <= q < n2 && #[trigger] nodes_meet(b1, p, b2, q) ==> exists|k: int|
            0 <= k < r.len() && #[trigger] r[k] == (i1[p] as u32, i2[q] as u32)
}

/// The children of the root (given for the level below the root's, or the leaves when the root
/// is the only node) are exact where the root's index points at a group of that level.
pub open spec fn root_exact(indices: Seq<nat>, n: nat, ns: nat, nodes: nat, lo: int, hi: int) -> bool {
    let g = indices[nodes - 1];
    let e = level_ends(n, ns);
    let lv = walk_level(e.len() - 1, 0);
    g % 4 == 0 && g < 4 * nodes && 0 <= lv < e.len() && level_start(e, lv) <= g / 4 < e[lv] ==> lo
        == g / 4 && hi == min_int((g / 4 + ns) as int, e[lv] as int)
}

/// The children of the two roots that meet are the first pairs of the walk toward every pair of
/// leaves that meet.
proof fn lemma_walk_start(
    b1: Seq<int>,
    i1: Seq<nat>,
    n1: nat,
    ns1: nat,
    b2: Seq<int>,
    i2: Seq<nat>,
    n2: nat,
    ns2: nat,
    lo1: usize,
    hi1: usize,
    lo2: usize,
    hi2: usize,
    todo: Seq<(usize, usize)>,
    results: Seq<(u32, u32)>,
)
    requires
        shaped_pair(b1, i1, n1, ns1, b2, i2, n2, ns2),
        join_ready(i1, n1, ns1),
        join_ready(i2, n2, ns2),
        n1 == 1 || ns1 >= 2,
        n2 == 1 || ns2 >= 2,
        root_exact(i1, n1, ns1, level_ends(n1, ns1).last(), lo1 as int, hi1 as int),
        root_exact(i2, n2, ns2, level_ends(n2, ns2).last(), lo2 as int, hi2 as int),
        nodes_meet(b1, level_ends(n1, ns1).last() - 1, b2, level_ends(n2, ns2).last() - 1) ==> forall|
            c1: int,
            c2: int,
        |
            lo1 <= c1 < hi1 && lo2 <= c2 < hi2 && nodes_meet(
                b1,
                c1,
                b2,
                level_ends(n2, ns2).last() - 1,
            ) && nodes_meet(b1, level_ends(n1, ns1).last() - 1, b2, c2) && #[trigger] nodes_meet(
                b1,
                c1,
                b2,
                c2,
            ) ==> exists|f: int| 0 <= f < todo.len() && #[trigger] todo[f] == (c1 as usize, c2 as usize),
    ensures
        covered(b1, i1, n1, ns1, b2, i2, n2, ns2, todo, results),
{
    let e1 = level_ends(n1, ns1);
    let e2 = level_ends(n2, ns2);
    lemma_level_ends(n1, ns1);
    lemma_level_ends(n2, ns2);
    assert forall|p: int, q: int| 0 <= p < n1 && 0 <= q < n2 && #[trigger] nodes_meet(b1, p, b2, q) implies reached(
        i1,
        e1,
        ns1,
        i2,
        e2,
        ns2,
        todo,
        results,
        p,
        q,
    ) by {
        let top1 = e1.len() - 1;
        let top2 = e2.len() - 1;
        lemma_ancestor_root(n1, ns1, p);
        lemma_ancestor_root(n2, ns2, q);
        lemma_walk_level(n1, ns1, 0);
        lemma_walk_level(n2, ns2, 0);
        let l1 = walk_level(top1, 0);
        let l2 = walk_level(top2, 0);
        if top1 >= 1 {
            lemma_walk_children(b1, i1, n1, ns1, p, top1);
            lemma_ancestor(n1, ns1, p, top1);
        } else {
            assert(e1[0] == n1);
        }
        if top2 >= 1 {
            lemma_walk_children(b2, i2, n2, ns2, q, top2);
            lemma_ancestor(n2, ns2, q, top2);
        } else {
            assert(e2[0] == n2);
        }
        let c1 = ancestor(e1, ns1, p, l1);
        let c2 = ancestor(e2, ns2, q, l2);
        assert(lo1 <= c1 < hi1);
        assert(lo2 <= c2 < hi2);
        lemma_ancestors_meet(b1, i1, n1, ns1, b2, i2, n2, ns2, p, q, top1, top2);
        lemma_ancestors_meet(b1, i1, n1, ns1, b2, i2, n2, ns2, p, q, l1, top2);
        lemma_ancestors_meet(b1, i1, n1, ns1, b2, i2, n2, ns2, p, q, top1, l2);
        lemma_ancestors_meet(b1, i1, n1, ns1, b2, i2, n2, ns2, p, q, l1, l2);
        let f = choose|f: int| 0 <= f < todo.len() && #[trigger] todo[f] == (c1 as usize, c2 as usize);
        assert(is_walk_pair(e1, ns1, e2, ns2, p, q, 0, todo[f]));
        assert(walk_pair(e1, ns1, e2, ns2, p, q, 0) == walk_pair(e1, ns1, e2, ns2, p, q, 0));
    }
}

/// The pairs of `r` are the pairs of stored indices of distinct pairs of leaves.
pub open spec fn distinct_leaf_pairs(i1: Seq<nat>, n1: nat, i2: Seq<nat>, n2: nat, r: Seq<(u32, u32)>) -> bool {
    exists|rk: Seq<(int, int)>|
        #![trigger rk.no_duplicates()]
        rk.len() == r.len() && rk.no_duplicates() && forall|k: int|
            0 <= k < r.len() ==> 0 <= #[trigger] rk[k].0 < n1 && 0 <= rk[k].1 < n2 && r[k] == (
                i1[rk[k].0] as u32,
                i2[rk[k].1] as u32,
            )
}

/// Pair `t` of nodes covers leaf `p` of the first tree and leaf `q` of the second.
pub open spec fn pair_covers(e1: Seq<nat>, ns1: nat, e2: Seq<nat>, ns2: nat, t: (usize, usize), p: int, q: int) -> bool {
    covers(e1, ns1, t.0 as int, p) && covers(e2, ns2, t.1 as int, q)
}

/// No pair of leaves is reported twice, nor reported and still under a queued pair, nor under
/// two queued pairs.
#[verifier::opaque]
spec fn pairs_apart(
    e1: Seq<nat>,
    ns1: nat,
    n1: nat,
    e2: Seq<nat>,
    ns2: nat,
    n2: nat,
    todo: Seq<(usize, usize)>,
    rk: Seq<(int, int)>,
) -> bool {
    &&& forall|i: int, j: int| 0 <= i < j < rk.len() ==> #[trigger] rk[i] != #[trigger] rk[j]
    &&& forall|t1: int, t2: int, p: int, q: int|
        0 <= t1 < t2 < todo.len() && 0 <= p < n1 && 0 <= q < n2 ==> !(#[trigger] pair_covers(
            e1,
            ns1,
            e2,
            ns2,
            todo[t1],
            p,
            q,
        ) && #[trigger] pair_covers(e1, ns1, e2, ns2, todo[t2], p, q))
    &&& forall|t: int, i: int|
        0 <= t < todo.len() && 0 <= i < rk.len() ==> !#[trigger] pair_covers(
            e1,
            ns1,
            e2,
            ns2,
            todo[t],
            rk[i].0,
            rk[i].1,
        )
}

/// Reporting a popped pair of leaves keeps the queue and the reported pairs apart.
proof fn lemma_pairs_report(
    n1: nat,
    ns1: nat,
    n2: nat,
    ns2: nat,
    tp: Seq<(usize, usize)>,
    a: usize,
    b: usize,
    rk: Seq<(int, int)>,
)
    requires
        n1 >= 1,
        n2 >= 1,
        a < n1,
        b < n2,
        pairs_apart(level_ends(n1, ns1), ns1, n1, level_ends(n2, ns2), ns2, n2, tp.push((a, b)), rk),
    ensures
        pairs_apart(level_ends(n1, ns1), ns1, n1, level_ends(n2, ns2), ns2, n2, tp, rk.push((a as int, b as int))),
{
    reveal(pairs_apart);
    let e1 = level_ends(n1, ns1);
    let e2 = level_ends(n2, ns2);
    lemma_level_ends(n1, ns1);
    lemma_level_ends(n2, ns2);
    let t0 = tp.push((a, b));
    let rk2 = rk.push((a as int, b as int));
    let top = tp.len() as int;
    assert(t0[top] == (a, b));
    assert(ancestor(e1, ns1, a as int, 0) == a);
    assert(ancestor(e2, ns2, b as int, 0) == b);
    assert(pair_covers(e1, ns1, e2, ns2, (a, b), a as int, b as int));
    assert forall|i: int, j: int| 0 <= i < j < rk2.len() implies #[trigger] rk2[i] != #[trigger] rk2[j] by {
        if j == rk.len() {
            assert(!pair_covers(e1, ns1, e2, ns2, t0[top], rk[i].0, rk[i].1));
        } else {
            assert(rk[i] != rk[j]);
        }
    }
    assert forall|t1: int, t2: int, p: int, q: int|
        0 <= t1 < t2 < tp.len() && 0 <= p < n1 && 0 <= q < n2 implies !(#[trigger] pair_covers(
        e1,
        ns1,
        e2,
        ns2,
        tp[t1],
        p,
        q,
    ) && #[trigger] pair_covers(e1, ns1, e2, ns2, tp[t2], p, q)) by {
        assert(t0[t1] == tp[t1]);
        assert(t0[t2] == tp[t2]);
        assert(!(pair_covers(e1, ns1, e2, ns2, t0[t1], p, q) && pair_covers(e1, ns1, e2, ns2, t0[t2], p, q)));
    }
    assert forall|t: int, i: int| 0 <= t < tp.len() && 0 <= i < rk2.len() implies !#[trigger] pair_covers(
        e1,
        ns1,
        e2,
        ns2,
        tp[t],
        rk2[i].0,
        rk2[i].1,
    ) by {
        assert(t0[t] == tp[t]);
        if i == rk.len() {
            assert(!(pair_covers(e1, ns1, e2, ns2, t0[t], a as int, b as int) && pair_covers(
                e1,
                ns1,
                e2,
                ns2,
                t0[top],
                a as int,
                b as int,
            )));
        } else {
            assert(rk2[i] == rk[i]);
            assert(!pair_covers(e1, ns1, e2, ns2, t0[t], rk[i].0, rk[i].1));
        }
    }
}

/// Queueing distinct pairs of nodes of two levels in place of the popped pair `ab`, each
/// covering only pairs of leaves that `ab` covers (or, with nothing queued or reported, any such
/// pairs), keeps everything apart.
proof fn lemma_pairs_push(
    n1: nat,
    ns1: nat,
    n2: nat,
    ns2: nat,
    tp: Seq<(usize, usize)>,
    ab: (usize, usize),
    rk: Seq<(int, int)>,
    tn: Seq<(usize, usize)>,
    m1: int,
    m2: int,
    contained: bool,
)
    requires
        n1 >= 1,
        n2 >= 1,
        contained ==> pairs_apart(level_ends(n1, ns1), ns1, n1, level_ends(n2, ns2), ns2, n2, tp.push(ab), rk),
        !contained ==> tp.len() == 0 && rk.len() == 0,
        forall|i: int| 0 <= i < rk.len() ==> 0 <= #[trigger] rk[i].0 < n1 && 0 <= rk[i].1 < n2,
        tp.len() <= tn.len(),
        tn.subrange(0, tp.len() as int) == tp,
        pairs_distinct(tn, tp.len() as int),
        0 <= m1 < level_ends(n1, ns1).len(),
        0 <= m2 < level_ends(n2, ns2).len(),
        forall|x: int|
            tp.len() <= x < tn.len() ==> level_start(level_ends(n1, ns1), m1) <= (#[trigger] tn[x]).0
                < level_ends(n1, ns1)[m1] && level_start(level_ends(n2, ns2), m2) <= tn[x].1 < level_ends(
                n2,
                ns2,
            )[m2],
        contained ==> forall|x: int, p: int, q: int|
            tp.len() <= x < tn.len() && 0 <= p < n1 && 0 <= q < n2 && #[trigger] pair_covers(
                level_ends(n1, ns1),
                ns1,
                level_ends(n2, ns2),
                ns2,
                tn[x],
                p,
                q,
            ) ==> pair_covers(level_ends(n1, ns1), ns1, level_ends(n2, ns2), ns2, ab, p, q),
    ensures
        pairs_apart(level_ends(n1, ns1), ns1, n1, level_ends(n2, ns2), ns2, n2, tn, rk),
{
    reveal(pairs_apart);
    reveal(pairs_distinct);
    let e1 = level_ends(n1, ns1);
    let e2 = level_ends(n2, ns2);
    let t0 = tp.push(ab);
    let top = tp.len() as int;
    assert(t0[top] == ab);
    assert forall|x: int| 0 <= x < top implies #[trigger] tn[x] == tp[x] && t0[x] == tp[x] by {
        assert(tn.subrange(0, top)[x] == tp[x]);
    }
    assert forall|t1: int, t2: int, p: int, q: int|
        0 <= t1 < t2 < tn.len() && 0 <= p < n1 && 0 <= q < n2 implies !(#[trigger] pair_covers(
        e1,
        ns1,
        e2,
        ns2,
        tn[t1],
        p,
        q,
    ) && #[trigger] pair_covers(e1, ns1, e2, ns2, tn[t2], p, q)) by {
        if pair_covers(e1, ns1, e2, ns2, tn[t1], p, q) && pair_covers(e1, ns1, e2, ns2, tn[t2], p, q) {
            if t2 < top {
                assert(!(pair_covers(e1, ns1, e2, ns2, t0[t1], p, q) && pair_covers(e1, ns1, e2, ns2, t0[t2], p, q)));
            } else if t1 < top {
                assert(contained);
                assert(pair_covers(e1, ns1, e2, ns2, ab, p, q));
                assert(!(pair_covers(e1, ns1, e2, ns2, t0[t1], p, q) && pair_covers(e1, ns1, e2, ns2, t0[top], p, q)));
            } else {
                assert(tn[t1] != tn[t2]);
                if tn[t1].0 != tn[t2].0 {
                    lemma_covers_level(n1, ns1, tn[t1].0 as int, p, m1);
                    lemma_covers_level(n1, ns1, tn[t2].0 as int, p, m1);
                } else {
                    lemma_covers_level(n2, ns2, tn[t1].1 as int, q, m2);
                    lemma_covers_level(n2, ns2, tn[t2].1 as int, q, m2);
                }
            }
        }
    }
    assert forall|t: int, i: int| 0 <= t < tn.len() && 0 <= i < rk.len() implies !#[trigger] pair_covers(
        e1,
        ns1,
        e2,
        ns2,
        tn[t],
        rk[i].0,
        rk[i].1,
    ) by {
        if t < top {
            assert(!pair_covers(e1, ns1, e2, ns2, t0[t], rk[i].0, rk[i].1));
        } else if pair_covers(e1, ns1, e2, ns2, tn[t], rk[i].0, rk[i].1) {
            assert(contained);
            assert(pair_covers(e1, ns1, e2, ns2, ab, rk[i].0, rk[i].1));
            assert(!pair_covers(e1, ns1, e2, ns2, t0[top], rk[i].0, rk[i].1));
        }
    }
}

/// In a tree of the builder's shape, the group that `children_below` gives for a node above the
/// leaves is exactly its children, in the level below its own.
proof fn lemma_group_children(bx: Seq<int>, idx: Seq<nat>, n: nat, ns: nat, k: int, lo: int, hi: int)
    requires
        n >= 1,
        tree_shape(bx, idx, n, ns),
        n <= k < level_ends(n, ns).last(),
        group_exact(idx, n, ns, level_ends(n, ns).last(), k, lo, hi),
    ensures
        ({
            let e = level_ends(n, ns);
            let l = level_of(e, k);
            &&& 1 <= l < e.len()
            &&& level_start(e, l) <= k < e[l]
            &&& lo == first_child(e, ns, l, k)
            &&& hi == end_child(e, ns, l, k)
            &&& level_start(e, l - 1) <= lo
            &&& hi <= e[l - 1]
        }),
{
    let e = level_ends(n, ns);
    lemma_level_ends(n, ns);
    lemma_level_of(n, ns, k);
    let l = level_of(e, k);
    assert(parent_ok(bx, idx, e, ns, l, k));
    let fc = first_child(e, ns, l, k);
    assert(fc >= level_start(e, l - 1)) by (nonlinear_arith)
        requires
            fc == level_start(e, l - 1) + (k - level_start(e, l)) * ns,
            k >= level_start(e, l),
    ;
    assert(level_start(e, l) == e[l - 1]);
    if l - 1 < e.len() - 1 {
        assert(e[l - 1] < e[e.len() - 1]);
    }
}

/// In a tree of the builder's shape, the children of the root lie in the level that the walk
/// starts from.
proof fn lemma_root_children(bx: Seq<int>, idx: Seq<nat>, n: nat, ns: nat, lo: int, hi: int)
    requires
        n >= 1,
        tree_shape(bx, idx, n, ns),
        join_ready(idx, n, ns),
        n == 1 || ns >= 2,
        root_exact(idx, n, ns, level_ends(n, ns).last(), lo, hi),
    ensures
        0 <= walk_level(level_ends(n, ns).len() - 1, 0) < level_ends(n, ns).len(),
        level_start(level_ends(n, ns), walk_level(level_ends(n, ns).len() - 1, 0)) <= lo,
        hi <= level_ends(n, ns)[walk_level(level_ends(n, ns).len() - 1, 0)],
{
    let e = level_ends(n, ns);
    let top = e.len() - 1;
    lemma_level_ends(n, ns);
    crate::rtree::structure::lemma_top_single(n, ns);
    let root = e.last() - 1;
    if top >= 1 {
        assert(e[top - 1] < e[top]);
        assert(level_start(e, top) == root);
        assert(parent_ok(bx, idx, e, ns, top, root));
        assert(first_child(e, ns, top, root) == level_start(e, top - 1));
    } else {
        assert(e[0] == n);
        assert(n == 1);
    }
}

/// Queues `(a, c)` for each node `c` of `lo..hi` of the second tree that meets `a`, or `(c, b)`
/// for each node `c` of `lo..hi` of the first tree that meets `b` when `left`.
fn push_children<N: IndexableNum>(
    s1: &Side<N>,
    s2: &Side<N>,
    a: usize,
    b: usize,
    lo: usize,
    hi: usize,
    left: bool,
    todo: &mut Vec<(usize, usize)>,
)
    requires
        s1.wf(),
        s2.wf(),
        a < s1.nodes(),
        b < s2.nodes(),
        lo <= hi,
        left ==> hi <= a,
        !left ==> hi <= b,
        todo_ok(s1.bx(), s1.nodes(), s2.bx(), s2.nodes(), old(todo)@),
    ensures
        todo_ok(s1.bx(), s1.nodes(), s2.bx(), s2.nodes(), final(todo)@),
        old(todo)@.len() <= final(todo)@.len() <= old(todo)@.len() + (hi - lo),
        final(todo)@.subrange(0, old(todo)@.len() as int) == old(todo)@,
        forall|e: int|
            old(todo)@.len() <= e < final(todo)@.len() ==> (#[trigger] final(todo)@[e]).0
                + final(todo)@[e].1 < a + b,
        forall|e: int|
            old(todo)@.len() <= e < final(todo)@.len() ==> if left {
                (#[trigger] final(todo)@[e]).1 == b && lo <= final(todo)@[e].0 < hi
            } else {
                final(todo)@[e].0 == a && lo <= final(todo)@[e].1 < hi
            },
        pairs_distinct(final(todo)@, old(todo)@.len() as int),
        forall|c: int|
            lo <= c < hi && (if left {
                nodes_meet(s1.bx(), c, s2.bx(), b as int)
            } else {
                nodes_meet(s1.bx(), a as int, s2.bx(), c)
            }) ==> exists|e: int|
                old(todo)@.len() <= e < final(todo)@.len() && #[trigger] final(todo)@[e] == (if left {
                    (c as usize, b)
                } else {
                    (a, c as usize)
                }),
{
    let ghost t0 = todo@;
    let mut c = lo;
    while c < hi
        invariant
            s1.wf(),
            s2.wf(),
            a < s1.nodes(),
            b < s2.nodes(),
            lo <= c <= hi,
            left ==> hi <= a,
            !left ==> hi <= b,
            todo_ok(s1.bx(), s1.nodes(), s2.bx(), s2.nodes(), todo@),
            t0.len() <= todo@.len() <= t0.len() + (c - lo),
            todo@.subrange(0, t0.len() as int) == t0,
            forall|e: int| t0.len() <= e < todo@.len() ==> (#[trigger] todo@[e]).0 + todo@[e].1 < a + b,
            forall|e: int|
                t0.len() <= e < todo@.len() ==> if left {
                    (#[trigger] todo@[e]).1 == b && lo <= todo@[e].0 < c
                } else {
                    todo@[e].0 == a && lo <= todo@[e].1 < c
                },
            forall|e1: int, e2: int| t0.len() <= e1 < e2 < todo@.len() ==> #[trigger] todo@[e1] != #[trigger] todo@[e2],
            forall|x: int|
                lo <= x < c && (if left {
                    nodes_meet(s1.bx(), x, s2.bx(), b as int)
                } else {
                    nodes_meet(s1.bx(), a as int, s2.bx(), x)
                }) ==> exists|e: int|
                    t0.len() <= e < todo@.len() && #[trigger] todo@[e] == (if left {
                        (x as usize, b)
                    } else {
                        (a, x as usize)
                    }),
        decreases hi - c,
    {
        let (x, y) = if left {
            (c, b)
        } else {
            (a, c)
        };
        if meet(s1, x, s2, y) {
            let ghost tb = todo@;
            todo.push((x, y));
            proof {
                assert forall|e: int| 0 <= e < todo@.len() implies (#[trigger] todo@[e]).0 < s1.nodes()
                    && todo@[e].1 < s2.nodes() && nodes_meet(
                    s1.bx(),
                    todo@[e].0 as int,
                    s2.bx(),
                    todo@[e].1 as int,
                ) by {
                    if e < tb.len() {
                        assert(todo@[e] == tb[e]);
                    }
                }
                assert(todo@.subrange(0, t0.len() as int) =~= t0) by {
                    assert forall|e: int| 0 <= e < t0.len() implies todo@[e] == t0[e] by {
                        assert(todo@[e] == tb[e]);
                        assert(tb.subrange(0, t0.len() as int)[e] == t0[e]);
                    }
                }
                assert forall|e: int| t0.len() <= e < todo@.len() implies (#[trigger] todo@[e]).0
                    + todo@[e].1 < a + b by {
                    if e < tb.len() {
                        assert(todo@[e] == tb[e]);
                    }
                }
                assert forall|e: int| t0.len() <= e < todo@.len() implies if left {
                    (#[trigger] todo@[e]).1 == b && lo <= todo@[e].0 < c + 1
                } else {
                    todo@[e].0 == a && lo <= todo@[e].1 < c + 1
                } by {
                    if e < tb.len() {
                        assert(todo@[e] == tb[e]);
                    }
                }
                assert forall|e1: int, e2: int| t0.len() <= e1 < e2 < todo@.len() implies #[trigger] todo@[e1]
                    != #[trigger] todo@[e2] by {
                    assert(todo@[e1] == tb[e1]);
                    if e2 < tb.len() {
                        assert(todo@[e2] == tb[e2]);
                    }
                }
                assert forall|z: int|
                    lo <= z < c + 1 && (if left {
                        nodes_meet(s1.bx(), z, s2.bx(), b as int)
                    } else {
                        nodes_meet(s1.bx(), a as int, s2.bx(), z)
                    }) implies exists|e: int|
                    t0.len() <= e < todo@.len() && #[trigger] todo@[e] == (if left {
                        (z as usize, b)
                    } else {
                        (a, z as usize)
                    }) by {
                    if z < c {
                        let e0 = choose|e: int|
                            t0.len() <= e < tb.len() && #[trigger] tb[e] == (if left {
                                (z as usize, b)
                            } else {
                                (a, z as usize)
                            });
                        assert(todo@[e0] == tb[e0]);
                    } else {
                        assert(todo@[tb.len() as int] == (x, y));
                    }
                }
            }
        }
        c = c + 1;
    }
    proof {
        reveal(pairs_distinct);
    }
}

/// Queues every pair of a node of `lo1..hi1` (first tree) and a node of `lo2..hi2` (second
/// tree) that meet, taking only the nodes of each range that meet the other parent, `b` or
/// `a`. Queues nothing when `a` and `b` do not meet.
fn push_child_pairs<N: IndexableNum>(
    s1: &Side<N>,
    s2: &Side<N>,
    a: usize,
    b: usize,
    lo1: usize,
    hi1: usize,
    lo2: usize,
    hi2: usize,
    todo: &mut Vec<(usize, usize)>,
)
    requires
        s1.wf(),
        s2.wf(),
        a < s1.nodes(),
        b < s2.nodes(),
        lo1 <= hi1 <= s1.nodes(),
        lo2 <= hi2 <= s2.nodes(),
        todo_ok(s1.bx(), s1.nodes(), s2.bx(), s2.nodes(), old(todo)@),
    ensures
        todo_ok(s1.bx(), s1.nodes(), s2.bx(), s2.nodes(), final(todo)@),
        old(todo)@.len() <= final(todo)@.len(),
        final(todo)@.len() - old(todo)@.len() <= (hi1 - lo1) * (hi2 - lo2),
        final(todo)@.subrange(0, old(todo)@.len() as int) == old(todo)@,
        forall|e: int|
            old(todo)@.len() <= e < final(todo)@.len() ==> lo1 <= (#[trigger] final(todo)@[e]).0 < hi1
                && lo2 <= final(todo)@[e].1 < hi2,
        nodes_meet(s1.bx(), a as int, s2.bx(), b as int) ==> forall|c1: int, c2: int|
            lo1 <= c1 < hi1 && lo2 <= c2 < hi2 && nodes_meet(s1.bx(), c1, s2.bx(), b as int)
                && nodes_meet(s1.bx(), a as int, s2.bx(), c2) && nodes_meet(s1.bx(), c1, s2.bx(), c2)
                ==> exists|e: int|
                old(todo)@.len() <= e < final(todo)@.len() && #[trigger] final(todo)@[e] == (
                    c1 as usize,
                    c2 as usize,
                ),
        pairs_distinct(final(todo)@, old(todo)@.len() as int),
{
    let ghost t0 = todo@;
    if !meet(s1, a, s2, b) {
        proof {
            assert(todo@.subrange(0, t0.len() as int) =~= t0);
            reveal(pairs_distinct);
        }
        return;
    }
    let mut children2: Vec<usize> = Vec::new();
    let mut c2 = lo2;
    while c2 < hi2
        invariant
            s1.wf(),
            s2.wf(),
            a < s1.nodes(),
            lo2 <= c2 <= hi2,
            hi2 <= s2.nodes(),
            children2@.len() <= c2 - lo2,
            forall|e: int| 0 <= e < children2@.len() ==> lo2 <= #[trigger] children2@[e] < c2,
            forall|e1: int, e2: int|
                0 <= e1 < e2 < children2@.len() ==> #[trigger] children2@[e1] < #[trigger] children2@[e2],
            forall|x: int|
                lo2 <= x < c2 && nodes_meet(s1.bx(), a as int, s2.bx(), x) ==> exists|e: int|
                    0 <= e < children2@.len() && #[trigger] children2@[e] == x,
        decreases hi2 - c2,
    {
        if meet(s1, a, s2, c2) {
            let ghost cb = children2@;
            children2.push(c2);
            proof {
                assert forall|x: int|
                    lo2 <= x < c2 + 1 && nodes_meet(s1.bx(), a as int, s2.bx(), x) implies exists|e: int|
                    0 <= e < children2@.len() && #[trigger] children2@[e] == x by {
                    if x < c2 {
                        let e0 = choose|e: int| 0 <= e < cb.len() && #[trigger] cb[e] == x;
                        assert(children2@[e0] == cb[e0]);
                    } else {
                        assert(children2@[cb.len() as int] == c2);
                    }
                }
                assert forall|e1: int, e2: int| 0 <= e1 < e2 < children2@.len() implies #[trigger] children2@[e1]
                    < #[trigger] children2@[e2] by {
                    assert(children2@[e1] == cb[e1]);
                    if e2 < cb.len() {
                        assert(children2@[e2] == cb[e2]);
                    }
                }
            }
        }
        c2 = c2 + 1;
    }
    let k2 = children2.len();
    let mut c1 = lo1;
    while c1 < hi1
        invariant
            s1.wf(),
            s2.wf(),
            b < s2.nodes(),
            a < s1.nodes(),
            nodes_meet(s1.bx(), a as int, s2.bx(), b as int),
            lo1 <= c1 <= hi1,
            hi1 <= s1.nodes(),
            lo2 <= hi2 <= s2.nodes(),
            k2 == children2@.len(),
            k2 <= hi2 - lo2,
            forall|e: int| 0 <= e < children2@.len() ==> lo2 <= #[trigger] children2@[e] < hi2,
            forall|e1: int, e2: int|
                0 <= e1 < e2 < children2@.len() ==> #[trigger] children2@[e1] < #[trigger] children2@[e2],
            forall|e: int| t0.len() <= e < todo@.len() ==> (#[trigger] todo@[e]).0 < c1,
            forall|e1: int, e2: int| t0.len() <= e1 < e2 < todo@.len() ==> #[trigger] todo@[e1] != #[trigger] todo@[e2],
            forall|x: int|
                lo2 <= x < hi2 && nodes_meet(s1.bx(), a as int, s2.bx(), x) ==> exists|e: int|
                    0 <= e < children2@.len() && #[trigger] children2@[e] == x,
            todo_ok(s1.bx(), s1.nodes(), s2.bx(), s2.nodes(), todo@),
            t0.len() <= todo@.len(),
            todo@.len() - t0.len() <= (c1 - lo1) * k2,
            todo@.subrange(0, t0.len() as int) == t0,
            forall|e: int|
                t0.len() <= e < todo@.len() ==> lo1 <= (#[trigger] todo@[e]).0 < hi1 && lo2
                    <= todo@[e].1 < hi2,
            forall|x1: int, x2: int|
                lo1 <= x1 < c1 && lo2 <= x2 < hi2 && nodes_meet(s1.bx(), x1, s2.bx(), b as int)
                    && nodes_meet(s1.bx(), a as int, s2.bx(), x2) && nodes_meet(s1.bx(), x1, s2.bx(), x2)
                    ==> exists|e: int|
                    t0.len() <= e < todo@.len() && #[trigger] todo@[e] == (x1 as usize, x2 as usize),
        decreases hi1 - c1,
    {
        let ghost before = todo@;
        if meet(s1, c1, s2, b) {
            let mut j: usize = 0;
            while j < children2.len()
                invariant
                    s1.wf(),
                    s2.wf(),
                    c1 < s1.nodes(),
                    lo1 <= c1 < hi1,
                    j <= children2@.len(),
                    k2 == children2@.len(),
                    forall|e: int| 0 <= e < children2@.len() ==> lo2 <= #[trigger] children2@[e] < hi2,
                    forall|e1: int, e2: int|
                        0 <= e1 < e2 < children2@.len() ==> #[trigger] children2@[e1] < #[trigger] children2@[e2],
                    forall|e: int|
                        before.len() <= e < todo@.len() ==> (#[trigger] todo@[e]).0 == c1 && (j
                            < children2@.len() ==> todo@[e].1 < children2@[j as int]),
                    forall|e1: int, e2: int|
                        before.len() <= e1 < e2 < todo@.len() ==> #[trigger] todo@[e1] != #[trigger] todo@[e2],
                    hi2 <= s2.nodes(),
                    todo_ok(s1.bx(), s1.nodes(), s2.bx(), s2.nodes(), todo@),
                    before.len() <= todo@.len() <= before.len() + j,
                    todo@.subrange(0, before.len() as int) == before,
                    forall|e: int|
                        before.len() <= e < todo@.len() ==> lo1 <= (#[trigger] todo@[e]).0 < hi1 && lo2
                            <= todo@[e].1 < hi2,
                    forall|i: int|
                        0 <= i < j && nodes_meet(s1.bx(), c1 as int, s2.bx(), children2@[i] as int)
                            ==> exists|e: int|
                            before.len() <= e < todo@.len() && #[trigger] todo@[e] == (c1, children2@[i]),
                decreases children2@.len() - j,
            {
                let c2 = children2[j];
                if meet(s1, c1, s2, c2) {
                    let ghost tb = todo@;
                    todo.push((c1, c2));
                    proof {
                        assert forall|e: int| 0 <= e < todo@.len() implies (#[trigger] todo@[e]).0
                            < s1.nodes() && todo@[e].1 < s2.nodes() && nodes_meet(
                            s1.bx(),
                            todo@[e].0 as int,
                            s2.bx(),
                            todo@[e].1 as int,
                        ) by {
                            if e < tb.len() {
                                assert(todo@[e] == tb[e]);
                            }
                        }
                        assert(todo@.subrange(0, before.len() as int) =~= before) by {
                            assert forall|e: int| 0 <= e < before.len() implies todo@[e] == before[e] by {
                                assert(todo@[e] == tb[e]);
                                assert(tb.subrange(0, before.len() as int)[e] == before[e]);
                            }
                        }
                        assert forall|e: int| before.len() <= e < todo@.len() implies lo1 <= (
                        #[trigger] todo@[e]).0 < hi1 && lo2 <= todo@[e].1 < hi2 by {
                            if e < tb.len() {
                                assert(todo@[e] == tb[e]);
                            }
                        }
                        assert forall|i: int|
                            0 <= i < j + 1 && nodes_meet(s1.bx(), c1 as int, s2.bx(), children2@[i] as int)
                                implies exists|e: int|
                            before.len() <= e < todo@.len() && #[trigger] todo@[e] == (c1, children2@[i]) by {
                            if i < j {
                                let e0 = choose|e: int|
                                    before.len() <= e < tb.len() && #[trigger] tb[e] == (c1, children2@[i]);
                                assert(todo@[e0] == tb[e0]);
                            } else {
                                assert(todo@[tb.len() as int] == (c1, c2));
                            }
                        }
                        assert forall|e: int| before.len() <= e < todo@.len() implies (#[trigger] todo@[e]).0
                            == c1 && (j + 1 < children2@.len() ==> todo@[e].1 < children2@[j + 1]) by {
                            if e < tb.len() {
                                assert(todo@[e] == tb[e]);
                            }
                            if j + 1 < children2@.len() {
                                assert(children2@[j as int] < children2@[j + 1]);
                            }
                        }
                        assert forall|e1: int, e2: int| before.len() <= e1 < e2 < todo@.len() implies #[trigger] todo@[e1]
                            != #[trigger] todo@[e2] by {
                            assert(todo@[e1] == tb[e1]);
                            if e2 < tb.len() {
                                assert(todo@[e2] == tb[e2]);
                            }
                        }
                    }
                }
                j = j + 1;
            }
            proof {
                assert(todo@.len() - t0.len() <= (c1 + 1 - lo1) * k2) by (nonlinear_arith)
                    requires
                        before.len() - t0.len() <= (c1 - lo1) * k2,
                        todo@.len() <= before.len() + k2,
                ;
            }
        } else {
            proof {
                assert(todo@.len() - t0.len() <= (c1 + 1 - lo1) * k2) by (nonlinear_arith)
                    requires
                        todo@.len() - t0.len() <= (c1 - lo1) * k2,
                        k2 >= 0,
                ;
            }
        }
        proof {
            assert(todo@.subrange(0, t0.len() as int) =~= t0) by {
                assert forall|e: int| 0 <= e < t0.len() implies todo@[e] == t0[e] by {
                    assert(todo@.subrange(0, before.len() as int)[e] == before[e]);
                    assert(before.subrange(0, t0.len() as int)[e] == t0[e]);
                }
            }
            assert forall|e: int| t0.len() <= e < todo@.len() implies lo1 <= (#[trigger] todo@[e]).0
                < hi1 && lo2 <= todo@[e].1 < hi2 by {
                if e < before.len() {
                    assert(todo@.subrange(0, before.len() as int)[e] == before[e]);
                }
            }
            assert forall|x1: int, x2: int|
                lo1 <= x1 < c1 + 1 && lo2 <= x2 < hi2 && nodes_meet(s1.bx(), x1, s2.bx(), b as int)
                    && nodes_meet(s1.bx(), a as int, s2.bx(), x2) && nodes_meet(s1.bx(), x1, s2.bx(), x2)
                    implies exists|e: int|
                t0.len() <= e < todo@.len() && #[trigger] todo@[e] == (x1 as usize, x2 as usize) by {
                if x1 < c1 {
                    let e0 = choose|e: int|
                        t0.len() <= e < before.len() && #[trigger] before[e] == (x1 as usize, x2 as usize);
                    assert(todo@.subrange(0, before.len() as int)[e0] == before[e0]);
                } else {
                    let i = choose|i: int| 0 <= i < children2@.len() && #[trigger] children2@[i] == x2;
                    let e0 = choose|e: int|
                        before.len() <= e < todo@.len() && #[trigger] todo@[e] == (c1, children2@[i]);
                }
            }
            assert forall|e: int| t0.len() <= e < todo@.len() implies (#[trigger] todo@[e]).0 < c1 + 1 by {
                if e < before.len() {
                    assert(todo@.subrange(0, before.len() as int)[e] == before[e]);
                }
            }
            assert forall|e1: int, e2: int| t0.len() <= e1 < e2 < todo@.len() implies #[trigger] todo@[e1]
                != #[trigger] todo@[e2] by {
                if e1 < before.len() {
                    assert(todo@.subrange(0, before.len() as int)[e1] == before[e1]);
                    if e2 < before.len() {
                        assert(todo@.subrange(0, before.len() as int)[e2] == before[e2]);
                    }
                }
            }
        }
        c1 = c1 + 1;
    }
    proof {
        assert(todo@.len() - t0.len() <= (hi1 - lo1) * (hi2 - lo2)) by (nonlinear_arith)
            requires
                todo@.len() - t0.len() <= (hi1 - lo1) * k2,
                k2 <= hi2 - lo2,
                hi1 >= lo1,
        ;
        reveal(pairs_distinct);
    }
}

/// The pairs of items of two trees whose boxes intersect: walks both trees from their roots,
/// descending into the pairs of nodes that meet (both trees together while neither reaches its
/// leaves), and reports each pair of leaves reached, the last queued pair first.
///
/// Every result pairs the stored indices of two leaves that meet. In trees of the builder's
/// shape (see `join_ready` for a tree of one item), every pair of leaves that meet is reported,
/// and each once.
pub(crate) fn join<N: IndexableNum>(s1: &Side<N>, s2: &Side<N>) -> (r: Vec<(u32, u32)>)
    requires
        s1.wf(),
        s2.wf(),
    ensures
        forall|k: int|
            0 <= k < r@.len() ==> leaf_pair(
                s1.bx(),
                s1.indices@,
                s1.n(),
                s2.bx(),
                s2.indices@,
                s2.n(),
                #[trigger] r@[k],
            ),
        tree_shape(s1.bx(), s1.indices@, s1.n(), s1.ns()) && join_ready(s1.indices@, s1.n(), s1.ns())
            && tree_shape(s2.bx(), s2.indices@, s2.n(), s2.ns()) && join_ready(
            s2.indices@,
            s2.n(),
            s2.ns(),
        ) ==> all_pairs_found(s1.bx(), s1.indices@, s1.n(), s2.bx(), s2.indices@, s2.n(), r@)
            && distinct_leaf_pairs(s1.indices@, s1.n(), s2.indices@, s2.n(), r@),
{
    proof {
        s1.metadata.lemma_sizes();
        s2.metadata.lemma_sizes();
        crate::bytes::lemma_pow256_facts();
    }
    let ghost b1 = s1.bx();
    let ghost b2 = s2.bx();
    let ghost i1 = s1.indices@;
    let ghost i2 = s2.indices@;
    let ghost ns1 = s1.ns();
    let ghost ns2 = s2.ns();
    let n1 = s1.metadata.num_items();
    let n2 = s2.metadata.num_items();
    let nodes1 = s1.metadata.num_nodes();
    let nodes2 = s2.metadata.num_nodes();
    let ghost e1 = level_ends(n1 as nat, ns1);
    let ghost e2 = level_ends(n2 as nat, ns2);
    let ghost complete = shaped_pair(b1, i1, n1 as nat, ns1, b2, i2, n2 as nat, ns2) && join_ready(
        i1,
        n1 as nat,
        ns1,
    ) && join_ready(i2, n2 as nat, ns2);
    proof {
        assert(nodes1 == e1.last());
        assert(nodes2 == e2.last());
    }
    let mut todo: Vec<(usize, usize)> = Vec::new();
    let mut results: Vec<(u32, u32)> = Vec::new();
    let ghost mut rk: Seq<(int, int)> = Seq::empty();
    let (lo1, hi1) = s1.children(nodes1 - 1, Ghost(walk_level(e1.len() - 1, 0)));
    let (lo2, hi2) = s2.children(nodes2 - 1, Ghost(walk_level(e2.len() - 1, 0)));
    push_child_pairs(s1, s2, nodes1 - 1, nodes2 - 1, lo1, hi1, lo2, hi2, &mut todo);
    proof {
        if complete {
            lemma_walk_start(b1, i1, n1 as nat, ns1, b2, i2, n2 as nat, ns2, lo1, hi1, lo2, hi2, todo@, results@);
            lemma_root_children(b1, i1, n1 as nat, ns1, lo1 as int, hi1 as int);
            lemma_root_children(b2, i2, n2 as nat, ns2, lo2 as int, hi2 as int);
            assert(todo@.subrange(0, 0) =~= Seq::<(usize, usize)>::empty());
            lemma_pairs_push(
                n1 as nat,
                ns1,
                n2 as nat,
                ns2,
                Seq::empty(),
                (0, 0),
                rk,
                todo@,
                walk_level(e1.len() - 1, 0),
                walk_level(e2.len() - 1, 0),
                false,
            );
        }
    }
    while todo.len() > 0
        invariant
            s1.wf(),
            s2.wf(),
            b1 == s1.bx(),
            b2 == s2.bx(),
            i1 == s1.indices@,
            i2 == s2.indices@,
            n1 == s1.n(),
            n2 == s2.n(),
            ns1 == s1.ns(),
            ns2 == s2.ns(),
            e1 == level_ends(n1 as nat, ns1),
            e2 == level_ends(n2 as nat, ns2),
            n1 <= nodes1 == s1.nodes(),
            n2 <= nodes2 == s2.nodes(),
            nodes1 == e1.last(),
            nodes2 == e2.last(),
            s1.ns() <= 65535,
            s2.ns() <= 65535,
            complete == (shaped_pair(b1, i1, n1 as nat, ns1, b2, i2, n2 as nat, ns2) && join_ready(
                i1,
                n1 as nat,
                ns1,
            ) && join_ready(i2, n2 as nat, ns2)),
            todo_ok(b1, nodes1 as nat, b2, nodes2 as nat, todo@),
            forall|k: int|
                0 <= k < results@.len() ==> leaf_pair(b1, i1, n1 as nat, b2, i2, n2 as nat, #[trigger] results@[k]),
            complete ==> covered(b1, i1, n1 as nat, ns1, b2, i2, n2 as nat, ns2, todo@, results@),
            rk.len() == results@.len(),
            forall|k: int|
                0 <= k < rk.len() ==> 0 <= #[trigger] rk[k].0 < n1 && 0 <= rk[k].1 < n2 && results@[k] == (
                    i1[rk[k].0] as u32,
                    i2[rk[k].1] as u32,
                ),
            complete ==> pairs_apart(e1, ns1, n1 as nat, e2, ns2, n2 as nat, todo@, rk),
        decreases todo_weight(todo@),
    {
        let ghost t0 = todo@;
        let ghost r0 = results@;
        let (a, b) = todo.pop().unwrap();
        let ghost tp = todo@;
        proof {
            assert(t0 =~= tp.push((a, b)));
            assert forall|e: int| 0 <= e < todo@.len() implies (#[trigger] todo@[e]).0 < nodes1
                && todo@[e].1 < nodes2 && nodes_meet(b1, todo@[e].0 as int, b2, todo@[e].1 as int) by {
                assert(todo@[e] == t0[e]);
            }
            assert(t0[t0.len() - 1] == (a, b));
        }
        let leaf1 = a < n1;
        let leaf2 = b < n2;
        if leaf1 && leaf2 {
            let x = s1.indices.get(a);
            let y = s2.indices.get(b);
            proof {
                assert(x < pow256(index_width(nodes1 as nat)));
                assert(y < pow256(index_width(nodes2 as nat)));
            }
            results.push((x as u32, y as u32));
            proof {
                assert(leaf_pair(b1, i1, n1 as nat, b2, i2, n2 as nat, (x as u32, y as u32))) by {
                    assert(i1[a as int] == x && i2[b as int] == y);
                }
                assert forall|k: int| 0 <= k < results@.len() implies leaf_pair(
                    b1,
                    i1,
                    n1 as nat,
                    b2,
                    i2,
                    n2 as nat,
                    #[trigger] results@[k],
                ) by {
                    if k < r0.len() {
                        assert(results@[k] == r0[k]);
                    }
                }
                lemma_weight_drops(tp, (a, b), Seq::empty());
                assert(tp + Seq::<(usize, usize)>::empty() =~= tp);
                let rk2 = rk.push((a as int, b as int));
                if complete {
                    lemma_pairs_report(n1 as nat, ns1, n2 as nat, ns2, tp, a, b, rk);
                }
                assert forall|k: int| 0 <= k < rk2.len() implies 0 <= #[trigger] rk2[k].0 < n1 && 0 <= rk2[k].1
                    < n2 && results@[k] == (i1[rk2[k].0] as u32, i2[rk2[k].1] as u32) by {
                    if k < rk.len() {
                        assert(rk2[k] == rk[k]);
                        assert(results@[k] == r0[k]);
                    }
                }
                rk = rk2;
                if complete {
                    let fresh = todo@.subrange(tp.len() as int, todo@.len() as int);
                    lemma_progress_leaves(b1, i1, n1 as nat, ns1, b2, i2, n2 as nat, ns2, a, b, fresh, r0, results@);
                    assert(todo@.subrange(0, tp.len() as int) =~= tp);
                    assert(results@.subrange(0, r0.len() as int) =~= r0);
                    lemma_covered_step(b1, i1, n1 as nat, ns1, b2, i2, n2 as nat, ns2, tp, (a, b), r0, todo@, results@);
                }
            }
        } else if leaf1 {
            let (lo, hi) = s2.children_below(b, Ghost(level_of(e2, b as int) - 1));
            push_children(s1, s2, a, b, lo, hi, false, &mut todo);
            proof {
                let p = todo@.subrange(tp.len() as int, todo@.len() as int);
                assert(todo@ =~= tp + p);
                assert forall|e: int| 0 <= e < p.len() implies (#[trigger] p[e]).0 + p[e].1 < a + b by {
                    assert(p[e] == todo@[tp.len() + e]);
                }
                lemma_weight_drops(tp, (a, b), p);
                if complete {
                    assert forall|c: int| lo <= c < hi && nodes_meet(b1, a as int, b2, c) implies exists|f: int|
                        0 <= f < p.len() && #[trigger] p[f] == (a, c as usize) by {
                        let e = choose|e: int|
                            tp.len() <= e < todo@.len() && #[trigger] todo@[e] == (a, c as usize);
                        assert(p[e - tp.len()] == todo@[e]);
                    }
                    lemma_progress_right(b1, i1, n1 as nat, ns1, b2, i2, n2 as nat, ns2, a, b, lo, hi, p, results@);
                    lemma_group_children(b2, i2, n2 as nat, ns2, b as int, lo as int, hi as int);
                    lemma_level_ends(n1 as nat, ns1);
                    let lb = level_of(e2, b as int);
                    assert forall|x: int, pp: int, qq: int|
                        tp.len() <= x < todo@.len() && 0 <= pp < n1 && 0 <= qq < n2 && #[trigger] pair_covers(
                            e1,
                            ns1,
                            e2,
                            ns2,
                            todo@[x],
                            pp,
                            qq,
                        ) implies pair_covers(e1, ns1, e2, ns2, (a, b), pp, qq) by {
                        lemma_child_covers(n2 as nat, ns2, b as int, lb, todo@[x].1 as int, qq);
                    }
                    lemma_pairs_push(n1 as nat, ns1, n2 as nat, ns2, tp, (a, b), rk, todo@, 0, lb - 1, true);
                    assert(todo@.subrange(0, tp.len() as int) =~= tp);
                    assert(results@.subrange(0, r0.len() as int) =~= r0);
                    lemma_covered_step(b1, i1, n1 as nat, ns1, b2, i2, n2 as nat, ns2, tp, (a, b), r0, todo@, results@);
                }
            }
        } else if leaf2 {
            let (lo, hi) = s1.children_below(a, Ghost(level_of(e1, a as int) - 1));
            push_children(s1, s2, a, b, lo, hi, true, &mut todo);
            proof {
                let p = todo@.subrange(tp.len() as int, todo@.len() as int);
                assert(todo@ =~= tp + p);
                assert forall|e: int| 0 <= e < p.len() implies (#[trigger] p[e]).0 + p[e].1 < a + b by {
                    assert(p[e] == todo@[tp.len() + e]);
                }
                lemma_weight_drops(tp, (a, b), p);
                if complete {
                    assert forall|c: int| lo <= c < hi && nodes_meet(b1, c, b2, b as int) implies exists|f: int|
                        0 <= f < p.len() && #[trigger] p[f] == (c as usize, b) by {
                        let e = choose|e: int|
                            tp.len() <= e < todo@.len() && #[trigger] todo@[e] == (c as usize, b);
                        assert(p[e - tp.len()] == todo@[e]);
                    }
                    lemma_progress_left(b1, i1, n1 as nat, ns1, b2, i2, n2 as nat, ns2, a, b, lo, hi, p, results@);
                    lemma_group_children(b1, i1, n1 as nat, ns1, a as int, lo as int, hi as int);
                    lemma_level_ends(n2 as nat, ns2);
                    let la = level_of(e1, a as int);
                    assert forall|x: int, pp: int, qq: int|
                        tp.len() <= x < todo@.len() && 0 <= pp < n1 && 0 <= qq < n2 && #[trigger] pair_covers(
                            e1,
                            ns1,
                            e2,
                            ns2,
                            todo@[x],
                            pp,
                            qq,
                        ) implies pair_covers(e1, ns1, e2, ns2, (a, b), pp, qq) by {
                        lemma_child_covers(n1 as nat, ns1, a as int, la, todo@[x].0 as int, pp);
                    }
                    lemma_pairs_push(n1 as nat, ns1, n2 as nat, ns2, tp, (a, b), rk, todo@, la - 1, 0, true);
                    assert(todo@.subrange(0, tp.len() as int) =~= tp);
                    assert(results@.subrange(0, r0.len() as int) =~= r0);
                    lemma_covered_step(b1, i1, n1 as nat, ns1, b2, i2, n2 as nat, ns2, tp, (a, b), r0, todo@, results@);
                }
            }
        } else {
            let (lo1, hi1) = s1.children_below(a, Ghost(level_of(e1, a as int) - 1));
            let (lo2, hi2) = s2.children_below(b, Ghost(level_of(e2, b as int) - 1));
            push_child_pairs(s1, s2, a, b, lo1, hi1, lo2, hi2, &mut todo);
            proof {
                let p = todo@.subrange(tp.len() as int, todo@.len() as int);
                assert(todo@ =~= tp + p);
                assert forall|e: int| 0 <= e < p.len() implies (#[trigger] p[e]).0 + p[e].1 < a + b by {
                    assert(p[e] == todo@[tp.len() + e]);
                }
                assert(p.len() < 4294967296) by (nonlinear_arith)
                    requires
                        p.len() <= (hi1 - lo1) * (hi2 - lo2),
                        hi1 - lo1 <= 65535,
                        hi2 - lo2 <= 65535,
                        hi1 >= lo1,
                        hi2 >= lo2,
                ;
                lemma_weight_drops(tp, (a, b), p);
                if complete {
                    assert forall|c1: int, c2: int|
                        lo1 <= c1 < hi1 && lo2 <= c2 < hi2 && nodes_meet(b1, c1, b2, b as int) && nodes_meet(
                            b1,
                            a as int,
                            b2,
                            c2,
                        ) && nodes_meet(b1, c1, b2, c2) implies exists|f: int|
                        0 <= f < p.len() && #[trigger] p[f] == (c1 as usize, c2 as usize) by {
                        let e = choose|e: int|
                            tp.len() <= e < todo@.len() && #[trigger] todo@[e] == (c1 as usize, c2 as usize);
                        assert(p[e - tp.len()] == todo@[e]);
                    }
                    lemma_progress_both(
                        b1,
                        i1,
                        n1 as nat,
                        ns1,
                        b2,
                        i2,
                        n2 as nat,
                        ns2,
                        a,
                        b,
                        lo1,
                        hi1,
                        lo2,
                        hi2,
                        p,
                        results@,
                    );
                    lemma_group_children(b1, i1, n1 as nat, ns1, a as int, lo1 as int, hi1 as int);
                    lemma_group_children(b2, i2, n2 as nat, ns2, b as int, lo2 as int, hi2 as int);
                    let la = level_of(e1, a as int);
                    let lb = level_of(e2, b as int);
                    assert forall|x: int, pp: int, qq: int|
                        tp.len() <= x < todo@.len() && 0 <= pp < n1 && 0 <= qq < n2 && #[trigger] pair_covers(
                            e1,
                            ns1,
                            e2,
                            ns2,
                            todo@[x],
                            pp,
                            qq,
                        ) implies pair_covers(e1, ns1, e2, ns2, (a, b), pp, qq) by {
                        lemma_child_covers(n1 as nat, ns1, a as int, la, todo@[x].0 as int, pp);
                        lemma_child_covers(n2 as nat, ns2, b as int, lb, todo@[x].1 as int, qq);
                    }
                    lemma_pairs_push(n1 as nat, ns1, n2 as nat, ns2, tp, (a, b), rk, todo@, la - 1, lb - 1, true);
                    assert(todo@.subrange(0, tp.len() as int) =~= tp);
                    assert(results@.subrange(0, r0.len() as int) =~= r0);
                    lemma_covered_step(b1, i1, n1 as nat, ns1, b2, i2, n2 as nat, ns2, tp, (a, b), r0, todo@, results@);
                }
            }
        }
    }
    proof {
        if complete {
            assert forall|p: int, q: int|
                0 <= p < n1 && 0 <= q < n2 && #[trigger] nodes_meet(b1, p, b2, q) implies exists|k: int|
                0 <= k < results@.len() && #[trigger] results@[k] == (i1[p] as u32, i2[q] as u32) by {
                assert(reached(i1, e1, ns1, i2, e2, ns2, todo@, results@, p, q));
            }
            assert(rk.no_duplicates()) by {
                reveal(pairs_apart);
            }
        }
    }
    results
}

/// The boxes of two added items (four coordinates and an insertion index each) share a point.
pub open spec fn items_meet(a: (int, int, int, int, nat), b: (int, int, int, int, nat)) -> bool {
    !(b.2 < a.0 || b.3 < a.1 || b.0 > a.2 || b.1 > a.3)
}

/// In a tree whose leaves are the added items in some order, each leaf is the added item of its
/// index, and each added item is a leaf.
pub(crate) proof fn lemma_leaves_added(boxes: Seq<int>, indices: Seq<nat>, n: nat, added: Seq<(int, int, int, int, nat)>)
    requires
        added.len() == n,
        forall|i: int| 0 <= i < n ==> #[trigger] added[i].4 == i,
        4 * n <= boxes.len(),
        n <= indices.len(),
        items_in(boxes, indices, 0, n as int).to_multiset() == added.to_multiset(),
    ensures
        forall|k: int| 0 <= k < n ==> #[trigger] indices[k] < n && added[indices[k] as int] == box_item(boxes, indices, k),
        forall|x: nat| x < n ==> #[trigger] is_leaf_index(indices, n, x),
        forall|k1: int, k2: int| 0 <= k1 < k2 < n ==> #[trigger] indices[k1] != #[trigger] indices[k2],
{
    let leaves = items_in(boxes, indices, 0, n as int);
    assert forall|k: int| 0 <= k < n implies #[trigger] indices[k] < n && added[indices[k] as int]
        == box_item(boxes, indices, k) by {
        assert(leaves[k] == box_item(boxes, indices, k));
        assert(leaves.contains(leaves[k]));
        vstd::seq_lib::to_multiset_contains(leaves, leaves[k]);
        vstd::seq_lib::to_multiset_contains(added, leaves[k]);
        let i = choose|i: int| 0 <= i < added.len() && added[i] == leaves[k];
        assert(added[i].4 == i);
    }
    assert forall|x: nat| x < n implies #[trigger] is_leaf_index(indices, n, x) by {
        assert(added.contains(added[x as int]));
        vstd::seq_lib::to_multiset_contains(added, added[x as int]);
        vstd::seq_lib::to_multiset_contains(leaves, added[x as int]);
        let k = choose|k: int| 0 <= k < leaves.len() && leaves[k] == added[x as int];
        assert(leaves[k] == box_item(boxes, indices, k));
        assert(added[x as int].4 == x);
        assert(indices[k] == x);
    }
    // the added items are distinct, so the leaves are too
    assert forall|i: int, j: int|
        0 <= i < added.len() && 0 <= j < added.len() && i != j implies added[i] != added[j] by {
        assert(added[i].4 == i);
        assert(added[j].4 == j);
    }
    assert(added.no_duplicates());
    added.lemma_multiset_has_no_duplicates();
    assert forall|x| leaves.to_multiset().contains(x) implies leaves.to_multiset().count(x) == 1 by {}
    leaves.lemma_multiset_has_no_duplicates_conv();
    assert forall|k1: int, k2: int| 0 <= k1 < k2 < n implies #[trigger] indices[k1] != #[trigger] indices[k2] by {
        assert(leaves[k1] == box_item(boxes, indices, k1));
        assert(leaves[k2] == box_item(boxes, indices, k2));
        assert(added[indices[k1] as int] == box_item(boxes, indices, k1));
        assert(added[indices[k2] as int] == box_item(boxes, indices, k2));
    }
}

/// Joining two trees whose leaves are their added boxes, each with its insertion index, gives
/// the pairs of insertion indices of the added boxes that intersect, each once, and no other
/// pair: a result is such a pair when the join reports only pairs of leaves that meet, every
/// pair of leaves that meet, and each pair of leaves once.
pub proof fn lemma_join_finds_added(
    b1: Seq<int>,
    i1: Seq<nat>,
    n1: nat,
    added1: Seq<(int, int, int, int, nat)>,
    b2: Seq<int>,
    i2: Seq<nat>,
    n2: nat,
    added2: Seq<(int, int, int, int, nat)>,
    r: Seq<(u32, u32)>,
)
    requires
        n1 <= u32::MAX,
        n2 <= u32::MAX,
        added1.len() == n1,
        forall|i: int| 0 <= i < n1 ==> #[trigger] added1[i].4 == i,
        4 * n1 <= b1.len(),
        n1 <= i1.len(),
        items_in(b1, i1, 0, n1 as int).to_multiset() == added1.to_multiset(),
        added2.len() == n2,
        forall|i: int| 0 <= i < n2 ==> #[trigger] added2[i].4 == i,
        4 * n2 <= b2.len(),
        n2 <= i2.len(),
        items_in(b2, i2, 0, n2 as int).to_multiset() == added2.to_multiset(),
        forall|k: int| 0 <= k < r.len() ==> leaf_pair(b1, i1, n1, b2, i2, n2, #[trigger] r[k]),
        all_pairs_found(b1, i1, n1, b2, i2, n2, r),
        distinct_leaf_pairs(i1, n1, i2, n2, r),
    ensures
        forall|x: u32, y: u32|
            #[trigger] r.contains((x, y)) <==> (x < n1 && y < n2 && items_meet(
                added1[x as int],
                added2[y as int],
            )),
        r.no_duplicates(),
{
    lemma_leaves_added(b1, i1, n1, added1);
    lemma_leaves_added(b2, i2, n2, added2);
    let rk = choose|rk: Seq<(int, int)>|
        #![trigger rk.no_duplicates()]
        rk.len() == r.len() && rk.no_duplicates() && forall|k: int|
            0 <= k < r.len() ==> 0 <= #[trigger] rk[k].0 < n1 && 0 <= rk[k].1 < n2 && r[k] == (
                i1[rk[k].0] as u32,
                i2[rk[k].1] as u32,
            );
    assert forall|k: int, j: int| 0 <= k < r.len() && 0 <= j < r.len() && k != j implies r[k] != r[j] by {
        assert(rk[k] != rk[j]);
        if rk[k].0 != rk[j].0 {
            if rk[k].0 < rk[j].0 {
                assert(i1[rk[k].0] != i1[rk[j].0]);
            } else {
                assert(i1[rk[j].0] != i1[rk[k].0]);
            }
            assert(i1[rk[k].0] < n1 && i1[rk[j].0] < n1);
        } else {
            if rk[k].1 < rk[j].1 {
                assert(i2[rk[k].1] != i2[rk[j].1]);
            } else {
                assert(i2[rk[j].1] != i2[rk[k].1]);
            }
            assert(i2[rk[k].1] < n2 && i2[rk[j].1] < n2);
        }
    }
    assert forall|x: u32, y: u32| #[trigger] r.contains((x, y)) <==> (x < n1 && y < n2 && items_meet(
        added1[x as int],
        added2[y as int],
    )) by {
        if r.contains((x, y)) {
            let k = choose|k: int| 0 <= k < r.len() && r[k] == (x, y);
            assert(leaf_pair(b1, i1, n1, b2, i2, n2, r[k]));
            let (a, b) = choose|a: int, b: int|
                #![trigger i1[a], i2[b]]
                0 <= a < n1 && 0 <= b < n2 && nodes_meet(b1, a, b2, b) && i1[a] == r[k].0 as nat && i2[b]
                    == r[k].1 as nat;
            assert(added1[i1[a] as int] == box_item(b1, i1, a));
            assert(added2[i2[b] as int] == box_item(b2, i2, b));
        }
        if x < n1 && y < n2 && items_meet(added1[x as int], added2[y as int]) {
            assert(is_leaf_index(i1, n1, x as nat));
            assert(is_leaf_index(i2, n2, y as nat));
            let a = choose|a: int| 0 <= a < n1 && #[trigger] i1[a] == x as nat;
            let b = choose|b: int| 0 <= b < n2 && #[trigger] i2[b] == y as nat;
            assert(added1[i1[a] as int] == box_item(b1, i1, a));
            assert(added2[i2[b] as int] == box_item(b2, i2, b));
            assert(nodes_meet(b1, a, b2, b));
            let k = choose|k: int| 0 <= k < r.len() && #[trigger] r[k] == (i1[a] as u32, i2[b] as u32);
            assert(r[k] == (x, y));
        }
    }
}

} // verus!
