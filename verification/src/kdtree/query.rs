//! Range and radius queries over a k-d sorted KDTree.
use vstd::prelude::*;

use crate::indices::Indices;
use crate::kdtree::sort::{kd_coord, kd_item, kd_items_in, kd_sorted};
use crate::kdtree::stack::{stack_items, stack_len, stack_new, stack_pop, stack_push, RangeStack};
use crate::rtree::search::{idx_of, nats_u32};
use crate::rtree::sort::util::ints;

verus! {

/// The points of `lo..hi` that `inside` selects, in order.
pub open spec fn kd_scan(coords: Seq<int>, lo: int, hi: int, inside: spec_fn(int, int) -> bool) -> Seq<
    int,
>
    decreases hi - lo,
{
    if hi <= lo {
        Seq::empty()
    } else {
        let s = kd_scan(coords, lo, hi - 1, inside);
        if inside(coords[2 * (hi - 1)], coords[2 * (hi - 1) + 1]) {
            s.push(hi - 1)
        } else {
            s
        }
    }
}

/// The points that a query of the k-d sorted points `left..=right` (split first on `axis`)
/// reports, in the order it reports them. A range of at most `ns + 1` points is scanned in
/// order; otherwise the middle point comes first (when `inside` selects it), then the points of
/// the upper half (when `go_high(axis, v)` says it may hold any, `v` being the middle point's
/// coordinate), then those of the lower half (when `go_low(axis, v)` does).
pub open spec fn kd_visit(
    coords: Seq<int>,
    ns: int,
    left: int,
    right: int,
    axis: int,
    inside: spec_fn(int, int) -> bool,
    go_low: spec_fn(int, int) -> bool,
    go_high: spec_fn(int, int) -> bool,
) -> Seq<int>
    decreases right - left,
{
    if right - left <= ns || ns < 2 {
        kd_scan(coords, left, right + 1, inside)
    } else {
        let m = (left + right) / 2;
        let v = coords[2 * m + axis];
        (if inside(coords[2 * m], coords[2 * m + 1]) {
            seq![m]
        } else {
            Seq::empty()
        }) + (if go_high(axis, v) {
            kd_visit(coords, ns, m + 1, right, 1 - axis, inside, go_low, go_high)
        } else {
            Seq::empty()
        }) + (if go_low(axis, v) {
            kd_visit(coords, ns, left, m - 1, 1 - axis, inside, go_low, go_high)
        } else {
            Seq::empty()
        })
    }
}

/// A query box `(min_x, min_y, max_x, max_y)` selects the points inside it, borders included.
pub open spec fn in_box(q: (int, int, int, int)) -> spec_fn(int, int) -> bool {
    |x: int, y: int| q.0 <= x <= q.2 && q.1 <= y <= q.3
}

/// The lower half below a middle value may hold points of the box.
pub open spec fn box_low(q: (int, int, int, int)) -> spec_fn(int, int) -> bool {
    |a: int, v: int|
        if a == 0 {
            q.0 <= v
        } else {
            q.1 <= v
        }
}

/// The upper half above a middle value may hold points of the box.
pub open spec fn box_high(q: (int, int, int, int)) -> spec_fn(int, int) -> bool {
    |a: int, v: int|
        if a == 0 {
            q.2 >= v
        } else {
            q.3 >= v
        }
}

/// The squared distance between two points.
pub open spec fn sq_dist(ax: int, ay: int, bx: int, by: int) -> int {
    (ax - bx) * (ax - bx) + (ay - by) * (ay - by)
}

/// A circle of center `(qx, qy)` and radius `r` selects the points at most `r` away.
pub open spec fn in_circle(qx: int, qy: int, r: int) -> spec_fn(int, int) -> bool {
    |x: int, y: int| sq_dist(x, y, qx, qy) <= r * r
}

/// The lower half below a middle value may hold points of the circle.
pub open spec fn circle_low(qx: int, qy: int, r: int) -> spec_fn(int, int) -> bool {
    |a: int, v: int|
        if a == 0 {
            qx - r <= v
        } else {
            qy - r <= v
        }
}

/// The upper half above a middle value may hold points of the circle.
pub open spec fn circle_high(qx: int, qy: int, r: int) -> spec_fn(int, int) -> bool {
    |a: int, v: int|
        if a == 0 {
            qx + r >= v
        } else {
            qy + r >= v
        }
}

/// A query: a box or a circle.
pub enum KdQuery {
    /// The box `(min_x, min_y, max_x, max_y)`.
    Box(i64, i64, i64, i64),
    /// The circle of center `(qx, qy)` and radius `r`.
    Circle(i64, i64, i64),
}

impl KdQuery {
    /// Which points the query selects.
    pub open spec fn inside(self) -> spec_fn(int, int) -> bool {
        match self {
            KdQuery::Box(a, b, c, d) => in_box((a as int, b as int, c as int, d as int)),
            KdQuery::Circle(x, y, r) => in_circle(x as int, y as int, r as int),
        }
    }

    /// Whether a lower half may hold selected points.
    pub open spec fn go_low(self) -> spec_fn(int, int) -> bool {
        match self {
            KdQuery::Box(a, b, c, d) => box_low((a as int, b as int, c as int, d as int)),
            KdQuery::Circle(x, y, r) => circle_low(x as int, y as int, r as int),
        }
    }

    /// Whether an upper half may hold selected points.
    pub open spec fn go_high(self) -> spec_fn(int, int) -> bool {
        match self {
            KdQuery::Box(a, b, c, d) => box_high((a as int, b as int, c as int, d as int)),
            KdQuery::Circle(x, y, r) => circle_high(x as int, y as int, r as int),
        }
    }

    /// The values of the query lie within the range of the coordinate types.
    pub open spec fn bounded(self) -> bool {
        match self {
            KdQuery::Box(a, b, c, d) => -0x1_0000_0000 <= a <= 0x1_0000_0000 && -0x1_0000_0000 <= b
                <= 0x1_0000_0000 && -0x1_0000_0000 <= c <= 0x1_0000_0000 && -0x1_0000_0000 <= d
                <= 0x1_0000_0000,
            KdQuery::Circle(x, y, r) => -0x1_0000_0000 <= x <= 0x1_0000_0000 && -0x1_0000_0000 <= y
                <= 0x1_0000_0000 && -0x1_0000_0000 <= r <= 0x1_0000_0000,
        }
    }

    /// Whether the query selects the point `(x, y)`.
    fn contains(&self, x: i64, y: i64) -> (r: bool)
        requires
            self.bounded(),
            -0x1_0000_0000 <= x <= 0x1_0000_0000,
            -0x1_0000_0000 <= y <= 0x1_0000_0000,
        ensures
            r == (self.inside())(x as int, y as int),
    {
        match self {
            KdQuery::Box(min_x, min_y, max_x, max_y) => x >= *min_x && x <= *max_x && y >= *min_y
                && y <= *max_y,
            KdQuery::Circle(qx, qy, r) => {
                let dx = (x - *qx) as i128;
                let dy = (y - *qy) as i128;
                let rr = *r as i128;
                proof {
                    assert(dx * dx <= 0x4_0000_0000_0000_0000) by (nonlinear_arith)
                        requires
                            -0x2_0000_0000 <= dx <= 0x2_0000_0000,
                    ;
                    assert(dy * dy <= 0x4_0000_0000_0000_0000) by (nonlinear_arith)
                        requires
                            -0x2_0000_0000 <= dy <= 0x2_0000_0000,
                    ;
                    assert(rr * rr <= 0x1_0000_0000_0000_0000) by (nonlinear_arith)
                        requires
                            -0x1_0000_0000 <= rr <= 0x1_0000_0000,
                    ;
                    assert(0 <= dx * dx) by (nonlinear_arith);
                    assert(0 <= dy * dy) by (nonlinear_arith);
                    assert(0 <= rr * rr) by (nonlinear_arith);
                }
                dx * dx + dy * dy <= rr * rr
            },
        }
    }

    /// Whether the half below a middle value `v` on `axis` may hold selected points.
    fn low(&self, axis: usize, v: i64) -> (r: bool)
        requires
            self.bounded(),
            axis <= 1,
        ensures
            r == (self.go_low())(axis as int, v as int),
    {
        match self {
            KdQuery::Box(min_x, min_y, _, _) => if axis == 0 {
                *min_x <= v
            } else {
                *min_y <= v
            },
            KdQuery::Circle(qx, qy, r) => if axis == 0 {
                *qx - *r <= v
            } else {
                *qy - *r <= v
            },
        }
    }

    /// Whether the half above a middle value `v` on `axis` may hold selected points.
    fn high(&self, axis: usize, v: i64) -> (r: bool)
        requires
            self.bounded(),
            axis <= 1,
        ensures
            r == (self.go_high())(axis as int, v as int),
    {
        match self {
            KdQuery::Box(_, _, max_x, max_y) => if axis == 0 {
                *max_x >= v
            } else {
                *max_y >= v
            },
            KdQuery::Circle(qx, qy, r) => if axis == 0 {
                *qx + *r >= v
            } else {
                *qy + *r >= v
            },
        }
    }
}

/// The points still to report for the ranges of a stack, top (last) first.
pub open spec fn pending_visits(
    coords: Seq<int>,
    ns: int,
    frames: Seq<(int, int, int)>,
    inside: spec_fn(int, int) -> bool,
    go_low: spec_fn(int, int) -> bool,
    go_high: spec_fn(int, int) -> bool,
) -> Seq<int>
    decreases frames.len(),
{
    if frames.len() == 0 {
        Seq::empty()
    } else {
        let f = frames.last();
        kd_visit(coords, ns, f.0, f.1, f.2, inside, go_low, go_high) + pending_visits(
            coords,
            ns,
            frames.drop_last(),
            inside,
            go_low,
            go_high,
        )
    }
}

/// The number of points of the ranges of a stack.
pub open spec fn frames_weight(frames: Seq<(int, int, int)>) -> int
    decreases frames.len(),
{
    if frames.len() == 0 {
        0
    } else {
        frames_weight(frames.drop_last()) + (frames.last().1 - frames.last().0 + 1)
    }
}

/// Appends the index of each point of `left..=right` that the query selects.
fn scan_points(
    coords: &Vec<i64>,
    ids: &Indices,
    left: usize,
    right: usize,
    q: &KdQuery,
    result: &mut Vec<u32>,
)
    requires
        left <= right < ids@.len(),
        coords@.len() == 2 * ids@.len(),
        q.bounded(),
        forall|p: int|
            0 <= p < coords@.len() ==> -0x1_0000_0000 <= #[trigger] ints(coords@)[p] <= 0x1_0000_0000,
        forall|k: int| 0 <= k < ids@.len() ==> #[trigger] ids@[k] <= u32::MAX,
    ensures
        nats_u32(final(result)@) == nats_u32(old(result)@) + idx_of(
            ids@,
            kd_scan(ints(coords@), left as int, right + 1, q.inside()),
        ),
{
    let cl = coords.len();
    let mut i = left;
    while i <= right
        invariant
            left <= i <= right + 1,
            right < ids@.len(),
            cl == coords@.len(),
            coords@.len() == 2 * ids@.len(),
            q.bounded(),
            forall|p: int|
                0 <= p < coords@.len() ==> -0x1_0000_0000 <= #[trigger] ints(coords@)[p] <= 0x1_0000_0000,
            forall|k: int| 0 <= k < ids@.len() ==> #[trigger] ids@[k] <= u32::MAX,
            nats_u32(result@) == nats_u32(old(result)@) + idx_of(
                ids@,
                kd_scan(ints(coords@), left as int, i as int, q.inside()),
            ),
        decreases right + 1 - i,
    {
        let x = coords[2 * i];
        let y = coords[2 * i + 1];
        let ghost s = kd_scan(ints(coords@), left as int, i as int, q.inside());
        let ghost r0 = result@;
        proof {
            assert(-0x1_0000_0000 <= ints(coords@)[2 * i as int] <= 0x1_0000_0000);
            assert(-0x1_0000_0000 <= ints(coords@)[2 * i + 1] <= 0x1_0000_0000);
        }
        if q.contains(x, y) {
            let index = ids.get(i);
            result.push(index as u32);
            proof {
                assert(ints(coords@)[2 * i] == x);
                assert(ints(coords@)[2 * i + 1] == y);
                assert(kd_scan(ints(coords@), left as int, i + 1, q.inside()) == s.push(i as int));
                assert(nats_u32(result@) =~= nats_u32(r0).push(index as nat));
                assert(idx_of(ids@, s.push(i as int)) =~= idx_of(ids@, s).push(index as nat));
            }
        } else {
            proof {
                assert(ints(coords@)[2 * i] == x);
                assert(ints(coords@)[2 * i + 1] == y);
                assert(kd_scan(ints(coords@), left as int, i + 1, q.inside()) == s);
            }
        }
        i = i + 1;
    }
}

/// The stack holds the ranges `frames`, three values each, every range a non-empty range of
/// points of `0..n` with an axis of 0 or 1.
pub open spec fn stack_holds(stack: Seq<usize>, frames: Seq<(int, int, int)>, n: int) -> bool {
    &&& stack.len() == 3 * frames.len()
    &&& forall|t: int|
        0 <= t < frames.len() ==> stack[3 * t] == frames[t].0 && stack[3 * t + 1] == frames[t].1
            && stack[3 * t + 2] == frames[t].2
    &&& forall|t: int|
        0 <= t < frames.len() ==> 0 <= #[trigger] frames[t].0 <= frames[t].1 < n && 0 <= frames[t].2
            <= 1
}

/// Handles the range `left..=right` taken off the stack: a range of at most `node_size + 1`
/// points is scanned; otherwise its middle point is tested and the halves that may hold
/// selected points are pushed (the lower half first). Returns the new ranges of the stack and
/// the points reported.
#[verifier::rlimit(100)]
fn process_range(
    coords: &Vec<i64>,
    ids: &Indices,
    node_size: usize,
    q: &KdQuery,
    left: usize,
    right: usize,
    axis: usize,
    stack: &mut RangeStack,
    result: &mut Vec<u32>,
    Ghost(frames): Ghost<Seq<(int, int, int)>>,
) -> (r: Ghost<(Seq<(int, int, int)>, Seq<int>)>)
    requires
        left <= right < ids@.len(),
        axis <= 1,
        coords@.len() == 2 * ids@.len(),
        node_size >= 2,
        q.bounded(),
        forall|p: int|
            0 <= p < coords@.len() ==> -0x1_0000_0000 <= #[trigger] ints(coords@)[p] <= 0x1_0000_0000,
        forall|k: int| 0 <= k < ids@.len() ==> #[trigger] ids@[k] <= u32::MAX,
        stack_holds(stack_items(*old(stack)), frames, ids@.len() as int),
    ensures
        stack_holds(stack_items(*final(stack)), r@.0, ids@.len() as int),
        nats_u32(final(result)@) == nats_u32(old(result)@) + idx_of(ids@, r@.1),
        r@.1 + pending_visits(ints(coords@), node_size as int, r@.0, q.inside(), q.go_low(), q.go_high())
            == kd_visit(
            ints(coords@),
            node_size as int,
            left as int,
            right as int,
            axis as int,
            q.inside(),
            q.go_low(),
            q.go_high(),
        ) + pending_visits(ints(coords@), node_size as int, frames, q.inside(), q.go_low(), q.go_high()),
        frames_weight(r@.0) <= frames_weight(frames) + (right - left),
        forall|t: int| 0 <= t < r@.0.len() ==> #[trigger] r@.0[t].0 <= r@.0[t].1,
{
    let ghost c = ints(coords@);
    let ghost ns = node_size as int;
    let ghost inside = q.inside();
    let ghost go_low = q.go_low();
    let ghost go_high = q.go_high();
    let ghost n = ids@.len() as int;
    let cl = coords.len();
    if right - left <= node_size {
        // a leaf range: scan its points
        scan_points(coords, ids, left, right, q, result);
        proof {
            let sc = kd_scan(c, left as int, right + 1, inside);
            assert(idx_of(ids@, sc) == idx_of(ids@, sc));
            lemma_weight_nonneg(frames);
        }
        return Ghost((frames, kd_scan(c, left as int, right + 1, inside)));
    }
    // otherwise test the middle point
    let m = (left + right) / 2;
    let x = coords[2 * m];
    let y = coords[2 * m + 1];
    let ghost r0 = result@;
    let ghost mid: Seq<int> = if inside(x as int, y as int) {
        seq![m as int]
    } else {
        Seq::empty()
    };
    proof {
        assert(-0x1_0000_0000 <= ints(coords@)[2 * m as int] <= 0x1_0000_0000);
        assert(-0x1_0000_0000 <= ints(coords@)[2 * m + 1] <= 0x1_0000_0000);
    }
    if q.contains(x, y) {
        let index = ids.get(m);
        result.push(index as u32);
        proof {
            assert(nats_u32(result@) =~= nats_u32(r0).push(index as nat));
        }
    }
    proof {
        assert(nats_u32(result@) =~= nats_u32(r0) + idx_of(ids@, mid));
        assert(c[2 * m] == x);
        assert(c[2 * m + 1] == y);
    }
    let v = if axis == 0 {
        x
    } else {
        y
    };
    let ghost hv: Seq<int> = if go_high(axis as int, v as int) {
        kd_visit(c, ns, m + 1, right as int, 1 - axis, inside, go_low, go_high)
    } else {
        Seq::empty()
    };
    let ghost lv: Seq<int> = if go_low(axis as int, v as int) {
        kd_visit(c, ns, left as int, m - 1, 1 - axis, inside, go_low, go_high)
    } else {
        Seq::empty()
    };
    proof {
        assert(c[2 * m + axis] == v);
        assert(kd_visit(c, ns, left as int, right as int, axis as int, inside, go_low, go_high) == mid
            + hv + lv);
    }
    // queue search in halves that may hold selected points
    let ghost st = stack_items(*stack);
    let low = q.low(axis, v);
    if low {
        stack_push(stack, left);
        stack_push(stack, m - 1);
        stack_push(stack, 1 - axis);
    }
    let high = q.high(axis, v);
    if high {
        stack_push(stack, m + 1);
        stack_push(stack, right);
        stack_push(stack, 1 - axis);
    }
    let ghost lf: Seq<(int, int, int)> = if low {
        seq![(left as int, m - 1, 1 - axis)]
    } else {
        Seq::empty()
    };
    let ghost hf: Seq<(int, int, int)> = if high {
        seq![(m + 1, right as int, 1 - axis)]
    } else {
        Seq::empty()
    };
    let ghost nf = frames + lf + hf;
    proof {
        lemma_push_frames(c, ns, frames, lf, hf, inside, go_low, go_high);
        assert(pending_visits(c, ns, hf, inside, go_low, go_high) == hv);
        assert(pending_visits(c, ns, lf, inside, go_low, go_high) == lv);
        assert(stack_items(*stack) =~= st + (if low {
            seq![left, (m - 1) as usize, (1 - axis) as usize]
        } else {
            Seq::empty()
        }) + (if high {
            seq![(m + 1) as usize, right, (1 - axis) as usize]
        } else {
            Seq::empty()
        }));
        assert forall|t: int| 0 <= t < nf.len() implies stack_items(*stack)[3 * t] == nf[t].0 && stack_items(*stack)[3 * t
            + 1] == nf[t].1 && stack_items(*stack)[3 * t + 2] == nf[t].2 by {
            if t < frames.len() {
                assert(nf[t] == frames[t]);
            }
        }
        assert forall|t: int| 0 <= t < nf.len() implies 0 <= #[trigger] nf[t].0 <= nf[t].1 < n && 0
            <= nf[t].2 <= 1 by {
            if t < frames.len() {
                assert(nf[t] == frames[t]);
            }
        }
        assert(mid + pending_visits(c, ns, nf, inside, go_low, go_high) =~= kd_visit(
            c,
            ns,
            left as int,
            right as int,
            axis as int,
            inside,
            go_low,
            go_high,
        ) + pending_visits(c, ns, frames, inside, go_low, go_high));
    }
    Ghost((nf, mid))
}

/// Walks the k-d sorted points with a stack of ranges and reports the index of each point that
/// the query selects, in the order of [`kd_visit`].
pub(crate) fn kd_query(coords: &Vec<i64>, ids: &Indices, node_size: usize, q: KdQuery) -> (r: Vec<
    u32,
>)
    requires
        ids@.len() >= 1,
        coords@.len() == 2 * ids@.len(),
        node_size >= 2,
        q.bounded(),
        forall|p: int|
            0 <= p < coords@.len() ==> -0x1_0000_0000 <= #[trigger] ints(coords@)[p] <= 0x1_0000_0000,
        forall|k: int| 0 <= k < ids@.len() ==> #[trigger] ids@[k] <= u32::MAX,
    ensures
        nats_u32(r@) == idx_of(
            ids@,
            kd_visit(
                ints(coords@),
                node_size as int,
                0,
                ids@.len() - 1,
                0,
                q.inside(),
                q.go_low(),
                q.go_high(),
            ),
        ),
{
    let ghost c = ints(coords@);
    let ghost ns = node_size as int;
    let ghost inside = q.inside();
    let ghost go_low = q.go_low();
    let ghost go_high = q.go_high();
    let n = ids.len();
    let mut stack = stack_new();
    stack_push(&mut stack, 0);
    stack_push(&mut stack, n - 1);
    stack_push(&mut stack, 0);
    let mut result: Vec<u32> = Vec::new();
    let ghost target = kd_visit(c, ns, 0, n - 1, 0, inside, go_low, go_high);
    let ghost mut frames: Seq<(int, int, int)> = seq![(0, n - 1, 0)];
    let ghost mut done: Seq<int> = Seq::empty();
    proof {
        assert(frames.drop_last() =~= Seq::<(int, int, int)>::empty());
        assert(pending_visits(c, ns, Seq::<(int, int, int)>::empty(), inside, go_low, go_high)
            =~= Seq::<int>::empty());
        assert(pending_visits(c, ns, frames, inside, go_low, go_high) =~= target);
        assert(done + pending_visits(c, ns, frames, inside, go_low, go_high) =~= target);
        assert(nats_u32(result@) =~= idx_of(ids@, done));
    }
    while stack_len(&stack) > 0
        invariant
            n == ids@.len(),
            n >= 1,
            coords@.len() == 2 * ids@.len(),
            node_size >= 2,
            ns == node_size,
            c == ints(coords@),
            inside == q.inside(),
            go_low == q.go_low(),
            go_high == q.go_high(),
            q.bounded(),
            forall|p: int|
                0 <= p < coords@.len() ==> -0x1_0000_0000 <= #[trigger] ints(coords@)[p]
                    <= 0x1_0000_0000,
            forall|k: int| 0 <= k < ids@.len() ==> #[trigger] ids@[k] <= u32::MAX,
            target == kd_visit(c, ns, 0, n - 1, 0, inside, go_low, go_high),
            stack_holds(stack_items(stack), frames, n as int),
            nats_u32(result@) == idx_of(ids@, done),
            done + pending_visits(c, ns, frames, inside, go_low, go_high) == target,
        decreases frames_weight(frames),
    {
        let ghost f = frames.last();
        let ghost rest = frames.drop_last();
        let ghost st = stack_items(stack);
        let ghost old_weight = frames_weight(frames);
        proof {
            let t = frames.len() - 1;
            assert(st[3 * t] == f.0 && st[3 * t + 1] == f.1 && st[3 * t + 2] == f.2);
            assert(0 <= frames[t].0 <= frames[t].1 < n && 0 <= frames[t].2 <= 1);
        }
        let axis = match stack_pop(&mut stack) {
            Some(v) => v,
            None => 0,
        };
        let right = match stack_pop(&mut stack) {
            Some(v) => v,
            None => 0,
        };
        let left = match stack_pop(&mut stack) {
            Some(v) => v,
            None => 0,
        };
        proof {
            assert(stack_items(stack) =~= st.subrange(0, 3 * rest.len() as int));
            assert forall|t: int| 0 <= t < rest.len() implies stack_items(stack)[3 * t] == rest[t].0
                && stack_items(stack)[3 * t + 1] == rest[t].1 && stack_items(stack)[3 * t + 2] == rest[t].2 by {
                assert(rest[t] == frames[t]);
            }
            assert forall|t: int| 0 <= t < rest.len() implies 0 <= #[trigger] rest[t].0 <= rest[t].1
                < n && 0 <= rest[t].2 <= 1 by {
                assert(rest[t] == frames[t]);
            }
            assert(frames_weight(frames) == frames_weight(rest) + (right - left + 1));
            assert(pending_visits(c, ns, frames, inside, go_low, go_high) == kd_visit(
                c,
                ns,
                left as int,
                right as int,
                axis as int,
                inside,
                go_low,
                go_high,
            ) + pending_visits(c, ns, rest, inside, go_low, go_high));
        }
        let Ghost(out) = process_range(
            coords,
            ids,
            node_size,
            &q,
            left,
            right,
            axis,
            &mut stack,
            &mut result,
            Ghost(rest),
        );
        proof {
            assert(idx_of(ids@, done + out.1) =~= idx_of(ids@, done) + idx_of(ids@, out.1));
            assert(done + out.1 + pending_visits(c, ns, out.0, inside, go_low, go_high) =~= target);
            frames = out.0;
            done = done + out.1;
            lemma_weight_nonneg(frames);
        }
    }
    proof {
        assert(frames.len() == 0);
        assert(done =~= target);
    }
    result
}

/// Pushing one range on a stack puts its points first and adds its weight.
proof fn lemma_push_frame(
    coords: Seq<int>,
    ns: int,
    before: Seq<(int, int, int)>,
    f: (int, int, int),
    inside: spec_fn(int, int) -> bool,
    go_low: spec_fn(int, int) -> bool,
    go_high: spec_fn(int, int) -> bool,
)
    ensures
        pending_visits(coords, ns, before.push(f), inside, go_low, go_high) == kd_visit(
            coords,
            ns,
            f.0,
            f.1,
            f.2,
            inside,
            go_low,
            go_high,
        ) + pending_visits(coords, ns, before, inside, go_low, go_high),
        frames_weight(before.push(f)) == frames_weight(before) + (f.1 - f.0 + 1),
{
    assert(before.push(f).drop_last() =~= before);
    assert(before.push(f).last() == f);
}

/// Pushing the ranges `low` then `high` (each empty or one range) on a stack puts their points
/// first, `high` before `low`, and adds their weights.
proof fn lemma_push_frames(
    coords: Seq<int>,
    ns: int,
    before: Seq<(int, int, int)>,
    low: Seq<(int, int, int)>,
    high: Seq<(int, int, int)>,
    inside: spec_fn(int, int) -> bool,
    go_low: spec_fn(int, int) -> bool,
    go_high: spec_fn(int, int) -> bool,
)
    requires
        low.len() <= 1,
        high.len() <= 1,
    ensures
        pending_visits(coords, ns, before + low + high, inside, go_low, go_high) == pending_visits(
            coords,
            ns,
            high,
            inside,
            go_low,
            go_high,
        ) + pending_visits(coords, ns, low, inside, go_low, go_high) + pending_visits(
            coords,
            ns,
            before,
            inside,
            go_low,
            go_high,
        ),
        frames_weight(before + low + high) == frames_weight(before) + frames_weight(low)
            + frames_weight(high),
        low.len() == 0 ==> pending_visits(coords, ns, low, inside, go_low, go_high) == Seq::<
            int,
        >::empty() && frames_weight(low) == 0,
        low.len() == 1 ==> pending_visits(coords, ns, low, inside, go_low, go_high) == kd_visit(
            coords,
            ns,
            low[0].0,
            low[0].1,
            low[0].2,
            inside,
            go_low,
            go_high,
        ) && frames_weight(low) == low[0].1 - low[0].0 + 1,
        high.len() == 0 ==> pending_visits(coords, ns, high, inside, go_low, go_high) == Seq::<
            int,
        >::empty() && frames_weight(high) == 0,
        high.len() == 1 ==> pending_visits(coords, ns, high, inside, go_low, go_high) == kd_visit(
            coords,
            ns,
            high[0].0,
            high[0].1,
            high[0].2,
            inside,
            go_low,
            go_high,
        ) && frames_weight(high) == high[0].1 - high[0].0 + 1,
{
    let e = Seq::<(int, int, int)>::empty();
    let none = Seq::<int>::empty();
    assert(pending_visits(coords, ns, e, inside, go_low, go_high) == none);
    assert(frames_weight(e) == 0);
    let bl = before + low;
    if low.len() == 1 {
        assert(bl =~= before.push(low[0]));
        assert(low =~= e.push(low[0]));
        lemma_push_frame(coords, ns, before, low[0], inside, go_low, go_high);
        lemma_push_frame(coords, ns, e, low[0], inside, go_low, go_high);
    } else {
        assert(bl =~= before);
        assert(low =~= e);
    }
    assert(pending_visits(coords, ns, bl, inside, go_low, go_high) == pending_visits(
        coords,
        ns,
        low,
        inside,
        go_low,
        go_high,
    ) + pending_visits(coords, ns, before, inside, go_low, go_high)) by {
        if low.len() == 0 {
            assert(none + pending_visits(coords, ns, before, inside, go_low, go_high) =~= pending_visits(
                coords,
                ns,
                before,
                inside,
                go_low,
                go_high,
            ));
        } else {
            assert(pending_visits(coords, ns, low, inside, go_low, go_high) =~= kd_visit(
                coords,
                ns,
                low[0].0,
                low[0].1,
                low[0].2,
                inside,
                go_low,
                go_high,
            ));
        }
    }
    if high.len() == 1 {
        assert(bl + high =~= bl.push(high[0]));
        assert(high =~= e.push(high[0]));
        lemma_push_frame(coords, ns, bl, high[0], inside, go_low, go_high);
        lemma_push_frame(coords, ns, e, high[0], inside, go_low, go_high);
        assert(pending_visits(coords, ns, high, inside, go_low, go_high) =~= kd_visit(
            coords,
            ns,
            high[0].0,
            high[0].1,
            high[0].2,
            inside,
            go_low,
            go_high,
        ));
    } else {
        assert(bl + high =~= bl);
        assert(high =~= e);
    }
    assert(pending_visits(coords, ns, before + low + high, inside, go_low, go_high) =~= pending_visits(
        coords,
        ns,
        high,
        inside,
        go_low,
        go_high,
    ) + pending_visits(coords, ns, low, inside, go_low, go_high) + pending_visits(
        coords,
        ns,
        before,
        inside,
        go_low,
        go_high,
    ));
}

/// A stack of non-empty ranges has a non-negative weight.
proof fn lemma_weight_nonneg(frames: Seq<(int, int, int)>)
    requires
        forall|t: int| 0 <= t < frames.len() ==> #[trigger] frames[t].0 <= frames[t].1,
    ensures
        frames_weight(frames) >= 0,
    decreases frames.len(),
{
    if frames.len() > 0 {
        let rest = frames.drop_last();
        assert forall|t: int| 0 <= t < rest.len() implies #[trigger] rest[t].0 <= rest[t].1 by {
            assert(rest[t] == frames[t]);
        }
        lemma_weight_nonneg(rest);
        assert(frames[frames.len() - 1].0 <= frames[frames.len() - 1].1);
    }
}

/// The points of `lo..hi` that a scan reports are those that `inside` selects, each once and in
/// increasing order.
proof fn lemma_kd_scan(coords: Seq<int>, lo: int, hi: int, inside: spec_fn(int, int) -> bool)
    ensures
        forall|k: int|
            #[trigger] kd_scan(coords, lo, hi, inside).contains(k) <==> lo <= k < hi && inside(
                coords[2 * k],
                coords[2 * k + 1],
            ),
        forall|i: int, j: int|
            0 <= i < j < kd_scan(coords, lo, hi, inside).len() ==> #[trigger] kd_scan(
                coords,
                lo,
                hi,
                inside,
            )[i] < #[trigger] kd_scan(coords, lo, hi, inside)[j],
    decreases hi - lo,
{
    if hi > lo {
        lemma_kd_scan(coords, lo, hi - 1, inside);
        let s = kd_scan(coords, lo, hi - 1, inside);
        assert forall|k: int| #[trigger] kd_scan(coords, lo, hi, inside).contains(k) <==> lo <= k < hi
            && inside(coords[2 * k], coords[2 * k + 1]) by {
            if inside(coords[2 * (hi - 1)], coords[2 * (hi - 1) + 1]) {
                if k == hi - 1 {
                    assert(s.push(hi - 1)[s.len() as int] == k);
                }
                let sp = s.push(hi - 1);
                if sp.contains(k) && k != hi - 1 {
                    let i = choose|i: int| 0 <= i < sp.len() && sp[i] == k;
                    assert(s[i] == k);
                }
                if s.contains(k) {
                    let i = choose|i: int| 0 <= i < s.len() && s[i] == k;
                    assert(s.push(hi - 1)[i] == k);
                }
            }
        }
        assert forall|i: int, j: int|
            0 <= i < j < kd_scan(coords, lo, hi, inside).len() implies #[trigger] kd_scan(
            coords,
            lo,
            hi,
            inside,
        )[i] < #[trigger] kd_scan(coords, lo, hi, inside)[j] by {
            if j == s.len() {
                assert(s.contains(s[i]));
            }
        }
    }
}

/// A query's pruning is consistent with its selection: a half is skipped only when no point on
/// its side of the middle value is selected.
pub open spec fn prunes_soundly(
    inside: spec_fn(int, int) -> bool,
    go_low: spec_fn(int, int) -> bool,
    go_high: spec_fn(int, int) -> bool,
) -> bool {
    &&& forall|a: int, v: int, x: int, y: int|
        #![trigger go_low(a, v), inside(x, y)]
        0 <= a <= 1 && !go_low(a, v) && (if a == 0 {
            x
        } else {
            y
        }) <= v ==> !inside(x, y)
    &&& forall|a: int, v: int, x: int, y: int|
        #![trigger go_high(a, v), inside(x, y)]
        0 <= a <= 1 && !go_high(a, v) && (if a == 0 {
            x
        } else {
            y
        }) >= v ==> !inside(x, y)
}

/// A query of a k-d sorted range whose pruning is consistent with its selection reports each
/// point of the range that it selects, once, and nothing else.
pub proof fn lemma_kd_visit_exact(
    coords: Seq<int>,
    ns: int,
    left: int,
    right: int,
    axis: int,
    inside: spec_fn(int, int) -> bool,
    go_low: spec_fn(int, int) -> bool,
    go_high: spec_fn(int, int) -> bool,
)
    requires
        0 <= left,
        2 * right + 1 < coords.len(),
        0 <= axis <= 1,
        ns >= 2,
        kd_sorted(coords, ns, left, right, axis),
        prunes_soundly(inside, go_low, go_high),
    ensures
        forall|k: int|
            #[trigger] kd_visit(coords, ns, left, right, axis, inside, go_low, go_high).contains(k)
                <==> left <= k <= right && inside(coords[2 * k], coords[2 * k + 1]),
        kd_visit(coords, ns, left, right, axis, inside, go_low, go_high).no_duplicates(),
    decreases right - left,
{
    let r = kd_visit(coords, ns, left, right, axis, inside, go_low, go_high);
    if right - left <= ns {
        lemma_kd_scan(coords, left, right + 1, inside);
        assert forall|i: int, j: int| 0 <= i < r.len() && 0 <= j < r.len() && i != j implies r[i]
            != r[j] by {
            if i < j {
                assert(r[i] < r[j]);
            } else {
                assert(r[j] < r[i]);
            }
        }
    } else {
        let m = (left + right) / 2;
        let v = coords[2 * m + axis];
        let mid: Seq<int> = if inside(coords[2 * m], coords[2 * m + 1]) {
            seq![m]
        } else {
            Seq::empty()
        };
        let hi_part: Seq<int> = if go_high(axis, v) {
            kd_visit(coords, ns, m + 1, right, 1 - axis, inside, go_low, go_high)
        } else {
            Seq::empty()
        };
        let lo_part: Seq<int> = if go_low(axis, v) {
            kd_visit(coords, ns, left, m - 1, 1 - axis, inside, go_low, go_high)
        } else {
            Seq::empty()
        };
        assert(r == mid + hi_part + lo_part);
        lemma_kd_visit_exact(coords, ns, m + 1, right, 1 - axis, inside, go_low, go_high);
        lemma_kd_visit_exact(coords, ns, left, m - 1, 1 - axis, inside, go_low, go_high);
        assert forall|k: int| #[trigger] r.contains(k) <==> left <= k <= right && inside(
            coords[2 * k],
            coords[2 * k + 1],
        ) by {
            if r.contains(k) {
                let i = choose|i: int| 0 <= i < r.len() && r[i] == k;
                if i < mid.len() {
                } else if i < mid.len() + hi_part.len() {
                    assert(hi_part[i - mid.len()] == k);
                    assert(hi_part.contains(k));
                    assert(kd_visit(coords, ns, m + 1, right, 1 - axis, inside, go_low, go_high).contains(k));
                } else {
                    assert(lo_part[i - mid.len() - hi_part.len()] == k);
                    assert(lo_part.contains(k));
                    assert(kd_visit(coords, ns, left, m - 1, 1 - axis, inside, go_low, go_high).contains(k));
                }
            }
            if left <= k <= right && inside(coords[2 * k], coords[2 * k + 1]) {
                let x = coords[2 * k];
                let y = coords[2 * k + 1];
                if k == m {
                    assert(r[0] == k);
                } else if k > m {
                    assert(kd_coord(coords, k, axis) >= kd_coord(coords, m, axis));
                    assert(kd_coord_ge(coords, k, m, axis));
                    assert(go_high(axis, v));
                    assert(kd_visit(coords, ns, m + 1, right, 1 - axis, inside, go_low, go_high).contains(k));
                    assert(hi_part.contains(k));
                    let i = choose|i: int| 0 <= i < hi_part.len() && hi_part[i] == k;
                    assert(r[mid.len() + i] == k);
                } else {
                    assert(kd_coord(coords, k, axis) <= kd_coord(coords, m, axis));
                    assert(kd_coord_le(coords, k, m, axis));
                    assert(go_low(axis, v));
                    assert(kd_visit(coords, ns, left, m - 1, 1 - axis, inside, go_low, go_high).contains(k));
                    assert(lo_part.contains(k));
                    let i = choose|i: int| 0 <= i < lo_part.len() && lo_part[i] == k;
                    assert(r[mid.len() + hi_part.len() + i] == k);
                }
            }
        }
        assert forall|i: int, j: int| 0 <= i < r.len() && 0 <= j < r.len() && i != j implies r[i]
            != r[j] by {
            let ri = r[i];
            let rj = r[j];
            assert(r.contains(ri));
            assert(r.contains(rj));
            let a = mid.len();
            let b = mid.len() + hi_part.len();
            if i < a && j < a {
            } else if a <= i < b && a <= j < b {
                assert(hi_part[i - a] == ri);
                assert(hi_part[j - a] == rj);
            } else if b <= i && b <= j {
                assert(lo_part[i - b] == ri);
                assert(lo_part[j - b] == rj);
            } else {
                // parts hold different positions
                if a <= i < b {
                    assert(hi_part.contains(ri));
                }
                if a <= j < b {
                    assert(hi_part.contains(rj));
                }
                if b <= i {
                    assert(lo_part.contains(ri));
                }
                if b <= j {
                    assert(lo_part.contains(rj));
                }
            }
        }
    }
}

/// Coordinate `axis` of point `k` is at least that of point `m` (an unfolding of the k-d order
/// used by the proofs above).
spec fn kd_coord_ge(coords: Seq<int>, k: int, m: int, axis: int) -> bool {
    coords[2 * k + axis] >= coords[2 * m + axis]
}

/// Coordinate `axis` of point `k` is at most that of point `m`.
spec fn kd_coord_le(coords: Seq<int>, k: int, m: int, axis: int) -> bool {
    coords[2 * k + axis] <= coords[2 * m + axis]
}

/// A box query prunes soundly.
pub proof fn lemma_box_prunes_soundly(q: (int, int, int, int))
    ensures
        prunes_soundly(in_box(q), box_low(q), box_high(q)),
{
}

/// A circle query of non-negative radius prunes soundly.
pub proof fn lemma_circle_prunes_soundly(qx: int, qy: int, r: int)
    requires
        r >= 0,
    ensures
        prunes_soundly(in_circle(qx, qy, r), circle_low(qx, qy, r), circle_high(qx, qy, r)),
{
    assert forall|a: int, v: int, x: int, y: int|
        #![trigger circle_low(qx, qy, r)(a, v), in_circle(qx, qy, r)(x, y)]
        0 <= a <= 1 && !circle_low(qx, qy, r)(a, v) && (if a == 0 {
            x
        } else {
            y
        }) <= v implies !in_circle(qx, qy, r)(x, y) by {
        lemma_far_outside(x, y, qx, qy, r, a);
    }
    assert forall|a: int, v: int, x: int, y: int|
        #![trigger circle_high(qx, qy, r)(a, v), in_circle(qx, qy, r)(x, y)]
        0 <= a <= 1 && !circle_high(qx, qy, r)(a, v) && (if a == 0 {
            x
        } else {
            y
        }) >= v implies !in_circle(qx, qy, r)(x, y) by {
        lemma_far_outside(x, y, qx, qy, r, a);
    }
}

/// A point farther than `r` from the center along one axis is outside the circle.
proof fn lemma_far_outside(x: int, y: int, qx: int, qy: int, r: int, a: int)
    requires
        r >= 0,
        (a == 0 && (x < qx - r || x > qx + r)) || (a == 1 && (y < qy - r || y > qy + r)) || !(
        0 <= a <= 1),
        0 <= a <= 1,
    ensures
        sq_dist(x, y, qx, qy) > r * r,
{
    let dx = x - qx;
    let dy = y - qy;
    assert(dx * dx >= 0 && dy * dy >= 0) by (nonlinear_arith);
    if a == 0 {
        assert(dx * dx > r * r) by (nonlinear_arith)
            requires
                dx < -r || dx > r,
                r >= 0,
        ;
    } else {
        assert(dy * dy > r * r) by (nonlinear_arith)
            requires
                dy < -r || dy > r,
                r >= 0,
        ;
    }
}

/// A query of a tree whose points are the added points, each with its insertion index, in any
/// order and k-d sorted, finds the insertion index of every added point that it selects and
/// nothing else, each once, when its pruning is consistent with its selection.
pub proof fn lemma_kd_query_finds_added(
    coords: Seq<int>,
    ids: Seq<nat>,
    n: nat,
    ns: int,
    added: Seq<(int, int, nat)>,
    inside: spec_fn(int, int) -> bool,
    go_low: spec_fn(int, int) -> bool,
    go_high: spec_fn(int, int) -> bool,
)
    requires
        n >= 1,
        ns >= 2,
        coords.len() == 2 * n,
        ids.len() == n,
        added.len() == n,
        forall|i: int| 0 <= i < n ==> #[trigger] added[i].2 == i,
        kd_items_in(coords, ids, 0, n as int).to_multiset() == added.to_multiset(),
        kd_sorted(coords, ns, 0, n - 1, 0),
        prunes_soundly(inside, go_low, go_high),
    ensures
        forall|x: nat|
            #[trigger] idx_of(ids, kd_visit(coords, ns, 0, n - 1, 0, inside, go_low, go_high)).contains(
                x,
            ) <==> (x < n && inside(added[x as int].0, added[x as int].1)),
        idx_of(ids, kd_visit(coords, ns, 0, n - 1, 0, inside, go_low, go_high)).no_duplicates(),
{
    let pts = kd_items_in(coords, ids, 0, n as int);
    let v = kd_visit(coords, ns, 0, n - 1, 0, inside, go_low, go_high);
    let r = idx_of(ids, v);
    lemma_kd_visit_exact(coords, ns, 0, n - 1, 0, inside, go_low, go_high);
    // the added points are distinct, so the stored points are too
    assert forall|i: int, j: int|
        0 <= i < added.len() && 0 <= j < added.len() && i != j implies added[i] != added[j] by {
        assert(added[i].2 == i);
        assert(added[j].2 == j);
    }
    assert(added.no_duplicates());
    added.lemma_multiset_has_no_duplicates();
    assert forall|x| pts.to_multiset().contains(x) implies pts.to_multiset().count(x) == 1 by {}
    pts.lemma_multiset_has_no_duplicates_conv();
    // each stored point is the added point of its index
    assert forall|k: int| 0 <= k < n implies #[trigger] ids[k] < n && added[ids[k] as int] == pts[k] by {
        assert(pts[k] == kd_item(coords, ids, k));
        assert(pts.contains(pts[k]));
        vstd::seq_lib::to_multiset_contains(pts, pts[k]);
        vstd::seq_lib::to_multiset_contains(added, pts[k]);
        let i = choose|i: int| 0 <= i < added.len() && added[i] == pts[k];
        assert(added[i].2 == i);
    }
    assert forall|x: nat| #[trigger] r.contains(x) <==> (x < n && inside(
        added[x as int].0,
        added[x as int].1,
    )) by {
        if r.contains(x) {
            let m = choose|m: int| 0 <= m < r.len() && r[m] == x;
            let k = v[m];
            assert(v.contains(k));
            assert(ids[k] == x);
            assert(pts[k] == kd_item(coords, ids, k));
        }
        if x < n && inside(added[x as int].0, added[x as int].1) {
            assert(added.contains(added[x as int]));
            vstd::seq_lib::to_multiset_contains(added, added[x as int]);
            vstd::seq_lib::to_multiset_contains(pts, added[x as int]);
            let k = choose|k: int| 0 <= k < pts.len() && pts[k] == added[x as int];
            assert(pts[k] == kd_item(coords, ids, k));
            assert(ids[k] == x);
            assert(v.contains(k));
            let m = choose|m: int| 0 <= m < v.len() && v[m] == k;
            assert(r[m] == x);
        }
    }
    assert forall|m1: int, m2: int| 0 <= m1 < r.len() && 0 <= m2 < r.len() && m1 != m2 implies r[m1]
        != r[m2] by {
        let k1 = v[m1];
        let k2 = v[m2];
        assert(v.contains(k1));
        assert(v.contains(k2));
        if r[m1] == r[m2] {
            assert(pts[k1] == added[ids[k1] as int]);
            assert(pts[k2] == added[ids[k2] as int]);
        }
    }
}

} // verus!
