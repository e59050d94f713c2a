//! Utilities for generating RTrees.
use vstd::prelude::*;

verus! {

/// `a / b` rounded up.
pub open spec fn ceil_div(a: nat, b: nat) -> nat {
    if b == 0 {
        0
    } else {
        ((a + b - 1) as int / b as int) as nat
    }
}

/// For `n >= 2` items grouped `ns >= 2` per node, the next level is strictly smaller.
pub proof fn lemma_ceil_div_shrinks(n: nat, ns: nat)
    requires
        n >= 2,
        ns >= 2,
    ensures
        1 <= ceil_div(n, ns),
        ceil_div(n, ns) < n,
        3 * ceil_div(n, ns) <= 2 * n,
{
    let m = ceil_div(n, ns);
    assert(m * ns <= n + ns - 1 && n + ns - 1 < (m + 1) * ns) by (nonlinear_arith)
        requires
            m == (n + ns - 1) as int / ns as int,
            ns >= 2,
    ;
    assert(m >= 1) by (nonlinear_arith)
        requires
            n + ns - 1 < (m + 1) * ns,
            n >= 2,
            ns >= 2,
    ;
    assert(2 * m <= n + 1) by (nonlinear_arith)
        requires
            m * ns <= n + ns - 1,
            ns >= 2,
            m >= 1,
    ;
}

/// The ends of the levels above a level of `n` nodes that ends at slot `end`, bottom-up: each
/// level groups the nodes of the level below `ns` per node, until one node is left.
pub open spec fn upper_level_ends(n: nat, ns: nat, end: nat) -> Seq<nat>
    decreases n,
{
    if n <= 1 || ns < 2 {
        Seq::empty()
    } else {
        let m = ceil_div(n, ns);
        proof {
            lemma_ceil_div_shrinks(n, ns);
        }
        seq![end + m] + upper_level_ends(m, ns, end + m)
    }
}

/// The end (exclusive, counted in nodes) of each level of a tree over `n` items with nodes of
/// `ns` children, bottom-up; the last one is the total number of nodes.
pub open spec fn level_ends(n: nat, ns: nat) -> Seq<nat> {
    seq![n] + upper_level_ends(n, ns, n)
}

/// The total number of nodes of a tree over `n` items with nodes of `ns` children.
pub open spec fn num_nodes_spec(n: nat, ns: nat) -> nat {
    level_ends(n, ns).last()
}

/// The level ends above a level are strictly increasing, start past `end`, and the nodes they
/// add are at most twice the nodes of the level.
pub proof fn lemma_upper_level_ends(n: nat, ns: nat, end: nat)
    ensures
        forall|i: int|
            0 <= i < upper_level_ends(n, ns, end).len() ==> end < #[trigger] upper_level_ends(
                n,
                ns,
                end,
            )[i],
        forall|i: int, j: int|
            0 <= i < j < upper_level_ends(n, ns, end).len() ==> upper_level_ends(n, ns, end)[i]
                < upper_level_ends(n, ns, end)[j],
        n >= 1 && upper_level_ends(n, ns, end).len() > 0 ==> upper_level_ends(n, ns, end).last()
            + 2 * n <= end + 2 * n + 2 * n,
        n >= 1 && upper_level_ends(n, ns, end).len() > 0 ==> upper_level_ends(n, ns, end).last()
            <= end + 2 * n,
    decreases n,
{
    if n <= 1 || ns < 2 {
    } else {
        let m = ceil_div(n, ns);
        lemma_ceil_div_shrinks(n, ns);
        lemma_upper_level_ends(m, ns, end + m);
        let rest = upper_level_ends(m, ns, end + m);
        let all = upper_level_ends(n, ns, end);
        assert(all == seq![end + m] + rest);
        assert forall|i: int, j: int| 0 <= i < j < all.len() implies all[i] < all[j] by {
            if i == 0 {
                assert(all[j] == rest[j - 1]);
            } else {
                assert(all[i] == rest[i - 1]);
                assert(all[j] == rest[j - 1]);
            }
        }
        assert forall|i: int| 0 <= i < all.len() implies end < #[trigger] all[i] by {
            if i > 0 {
                assert(all[i] == rest[i - 1]);
            }
        }
        if rest.len() > 0 {
            assert(all.last() == rest.last());
        }
    }
}

/// The level ends are strictly increasing, start with the number of items, and the total
/// number of nodes is at most three times the number of items.
pub proof fn lemma_level_ends(n: nat, ns: nat)
    requires
        n >= 1,
    ensures
        level_ends(n, ns).len() >= 1,
        level_ends(n, ns)[0] == n,
        forall|i: int, j: int|
            0 <= i < j < level_ends(n, ns).len() ==> level_ends(n, ns)[i] < level_ends(n, ns)[j],
        n <= num_nodes_spec(n, ns) <= 3 * n,
        (n == 1 || ns < 2) ==> level_ends(n, ns) == seq![n],
{
    lemma_upper_level_ends(n, ns, n);
    let up = upper_level_ends(n, ns, n);
    let all = level_ends(n, ns);
    assert forall|i: int, j: int| 0 <= i < j < all.len() implies all[i] < all[j] by {
        if i == 0 {
            assert(all[j] == up[j - 1]);
        } else {
            assert(all[i] == up[i - 1]);
            assert(all[j] == up[j - 1]);
        }
    }
    if up.len() > 0 {
        assert(all.last() == up.last());
    }
    if n == 1 || ns < 2 {
        assert(all =~= seq![n]);
    }
}

/// Calculate the total number of nodes in the R-tree to allocate space for
/// and the index of each tree level (used in search later)
pub fn compute_num_nodes(num_items: u32, node_size: u16) -> (r: (usize, Vec<usize>))
    requires
        num_items >= 1,
        num_items == 1 || node_size >= 2,
        64 * num_items <= usize::MAX,
    ensures
        r.0 == num_nodes_spec(num_items as nat, node_size as nat),
        r.1@.len() == level_ends(num_items as nat, node_size as nat).len(),
        forall|k: int|
            0 <= k < r.1@.len() ==> #[trigger] r.1@[k] == 4 * level_ends(
                num_items as nat,
                node_size as nat,
            )[k],
{
    let ghost total = num_items as nat;
    let ghost ns = node_size as nat;
    let num_items = num_items as usize;
    let node_size = node_size as usize;

    let mut n = num_items;
    let mut num_nodes = n;
    let mut level_bounds: Vec<usize> = Vec::new();
    level_bounds.push(n * 4);
    let ghost mut ends: Seq<nat> = seq![total];
    while n != 1
        invariant
            1 <= n <= num_items,
            num_items == total,
            num_items <= u32::MAX,
            64 * num_items <= usize::MAX,
            node_size == ns,
            node_size <= 65535,
            num_items == 1 || ns >= 2,
            n > 1 ==> ns >= 2,
            num_nodes <= 3 * total - 2 * n,
            ends.len() >= 1,
            ends.last() == num_nodes,
            level_ends(total, ns) == ends + upper_level_ends(n as nat, ns, num_nodes as nat),
            level_bounds@.len() == ends.len(),
            forall|k: int| 0 <= k < ends.len() ==> #[trigger] level_bounds@[k] == 4 * ends[k],
        decreases n,
    {
        proof {
            lemma_ceil_div_shrinks(n as nat, ns);
        }
        let next = (n + node_size - 1) / node_size;
        proof {
            assert(next == ceil_div(n as nat, ns));
            assert(upper_level_ends(n as nat, ns, num_nodes as nat) == seq![(num_nodes + next) as nat]
                + upper_level_ends(next as nat, ns, (num_nodes + next) as nat));
        }
        n = next;
        num_nodes = num_nodes + n;
        level_bounds.push(num_nodes * 4);
        proof {
            ends = ends.push(num_nodes as nat);
            assert(level_ends(total, ns) =~= ends + upper_level_ends(n as nat, ns, num_nodes as nat));
        }
    }
    proof {
        assert(upper_level_ends(1, ns, num_nodes as nat) =~= Seq::<nat>::empty());
        assert(level_ends(total, ns) =~= ends);
    }
    (num_nodes, level_bounds)
}

/// Binary search for the first value in the array bigger than the given one; the last value
/// when there is none.
pub fn upper_bound(value: usize, arr: &[usize]) -> (r: usize)
    requires
        arr@.len() >= 1,
        forall|i: int, j: int| 0 <= i < j < arr@.len() ==> arr@[i] < arr@[j],
    ensures
        exists|k: int|
            0 <= k < arr@.len() && r == arr@[k] && (forall|i: int|
                0 <= i < k ==> #[trigger] arr@[i] <= value) && (k < arr@.len() - 1 ==> value
                < arr@[k]),
{
    let mut i: usize = 0;
    let mut j: usize = arr.len() - 1;
    while i < j
        invariant
            i <= j < arr@.len(),
            forall|k: int| 0 <= k < i ==> #[trigger] arr@[k] <= value,
            j < arr@.len() - 1 ==> value < arr@[j as int],
            forall|a: int, b: int| 0 <= a < b < arr@.len() ==> arr@[a] < arr@[b],
        decreases j - i,
    {
        let m = i + (j - i) / 2;
        if arr[m] > value {
            j = m;
        } else {
            i = m + 1;
        }
    }
    arr[i]
}

} // verus!
