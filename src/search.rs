use crate::bits::{bit_at, bits_of, bits_repeat, count_unset, lemma_count_unset_set, set_bit, MAX_BITS};
use crate::context::ContextInto;
use crate::direction::{dx, dy, orthogonal_order, Direction};
use crate::grid::{lemma_keep_in_bounds, lemma_keep_in_bounds_has, lemma_point_index_round_trip, orthogonal_candidates, Grid, GridView};
use crate::point::abs;
use vstd::set_lib::{lemma_int_range, set_int_range};
use crate::point::Point;
use crate::traversable::Traversable;
use std::collections::VecDeque;
use vstd::prelude::*;

verus! {

/// How the tile at `p` is classified under `context`.
pub open spec fn class_at<Tile: ContextInto<Traversable>>(
    g: GridView<Tile>,
    context: &<Tile as ContextInto<Traversable>>::Context,
    p: Point,
) -> Traversable {
    g.tile(p.x as int, p.y as int).ctx_into_spec(p, context)
}

/// The in-bounds orthogonal neighbours of `p`.
pub open spec fn neighbours<Tile>(g: GridView<Tile>, p: Point) -> Seq<Point> {
    g.keep_in_bounds(orthogonal_candidates(p))
}


/// The walk `out` from `start` visits in-bounds, unobstructed points, each at most once,
/// starting with `start`, and every other point it visits is a neighbour of an earlier
/// visited Free point.
#[verifier::opaque]
pub open spec fn walk_sound<Tile: ContextInto<Traversable>>(
    g: GridView<Tile>,
    context: &<Tile as ContextInto<Traversable>>::Context,
    start: Point,
    out: Seq<Point>,
) -> bool {
    &&& forall|k: int|
        0 <= k < out.len() ==> g.in_bounds(#[trigger] out[k]) && class_at(g, context, out[k]) != Traversable::Obstructed
    &&& out.no_duplicates()
    &&& out.len() > 0 ==> out[0] == start
    &&& forall|k: int| 0 <= k < out.len() ==> #[trigger] out[k] == start || has_free_pred(g, context, out, k, out[k])
}

/// Every unobstructed neighbour of a Free point of `out` is in `out`.
#[verifier::opaque]
pub open spec fn walk_closed<Tile: ContextInto<Traversable>>(
    g: GridView<Tile>,
    context: &<Tile as ContextInto<Traversable>>::Context,
    out: Seq<Point>,
) -> bool {
    forall|j: int, m: Point|
        0 <= j < out.len() && class_at(g, context, out[j]) == Traversable::Free && #[trigger] neighbours(g, out[j]).contains(m)
            && class_at(g, context, m) != Traversable::Obstructed ==> out.contains(m)
}

/// Some point before position `k` of `out` is Free and has `q` as a neighbour.
pub open spec fn has_free_pred<Tile: ContextInto<Traversable>>(
    g: GridView<Tile>,
    context: &<Tile as ContextInto<Traversable>>::Context,
    out: Seq<Point>,
    k: int,
    q: Point,
) -> bool {
    exists|j: int| 0 <= j < k && class_at(g, context, out[j]) == Traversable::Free && #[trigger] neighbours(g, out[j]).contains(q)
}

/// Every point of `out` is in bounds, not obstructed, marked, and listed once.
#[verifier::opaque]
pub open spec fn visited_ok<Tile: ContextInto<Traversable>>(
    g: GridView<Tile>,
    context: &<Tile as ContextInto<Traversable>>::Context,
    out: Seq<Point>,
    bits: Seq<bool>,
) -> bool {
    &&& forall|k: int|
        0 <= k < out.len() ==> g.in_bounds(#[trigger] out[k]) && class_at(g, context, out[k]) != Traversable::Obstructed
            && bits[g.index_of(out[k].x as int, out[k].y as int)]
    &&& out.no_duplicates()
}

/// Every marked cell was visited or is obstructed.
#[verifier::opaque]
pub open spec fn marks_ok<Tile: ContextInto<Traversable>>(
    g: GridView<Tile>,
    context: &<Tile as ContextInto<Traversable>>::Context,
    out: Seq<Point>,
    bits: Seq<bool>,
) -> bool {
    forall|i: int|
        0 <= i < g.tiles.len() && #[trigger] bits[i] ==> out.contains(g.point_at(i)) || class_at(g, context, g.point_at(i))
            == Traversable::Obstructed
}

/// Every queued point is in bounds and is the start or a neighbour of a visited Free point.
#[verifier::opaque]
pub open spec fn queue_ok<Tile: ContextInto<Traversable>>(
    g: GridView<Tile>,
    context: &<Tile as ContextInto<Traversable>>::Context,
    start: Point,
    out: Seq<Point>,
    queue: Seq<Point>,
) -> bool {
    forall|i: int|
        0 <= i < queue.len() ==> g.in_bounds(#[trigger] queue[i]) && (queue[i] == start || has_free_pred(
            g,
            context,
            out,
            out.len() as int,
            queue[i],
        ))
}

/// Every visited point is the start or a neighbour of an earlier visited Free point.
#[verifier::opaque]
pub open spec fn order_ok<Tile: ContextInto<Traversable>>(
    g: GridView<Tile>,
    context: &<Tile as ContextInto<Traversable>>::Context,
    start: Point,
    out: Seq<Point>,
) -> bool {
    forall|k: int| 0 <= k < out.len() ==> #[trigger] out[k] == start || has_free_pred(g, context, out, k, out[k])
}

/// Every non-obstructed neighbour of a visited Free point is visited or still queued.
#[verifier::opaque]
pub open spec fn pending_ok<Tile: ContextInto<Traversable>>(
    g: GridView<Tile>,
    context: &<Tile as ContextInto<Traversable>>::Context,
    out: Seq<Point>,
    queue: Seq<Point>,
) -> bool {
    forall|j: int, m: Point|
        0 <= j < out.len() && class_at(g, context, out[j]) == Traversable::Free && #[trigger] neighbours(g, out[j]).contains(m)
            ==> out.contains(m) || class_at(g, context, m) == Traversable::Obstructed || queue.contains(m)
}

/// Taking the head `p` off the queue keeps the queue facts, and a pending neighbour is
/// either still queued or is `p`.
proof fn lemma_pop<Tile: ContextInto<Traversable>>(
    g: GridView<Tile>,
    context: &<Tile as ContextInto<Traversable>>::Context,
    start: Point,
    out: Seq<Point>,
    q0: Seq<Point>,
    p: Point,
    queue: Seq<Point>,
)
    requires
        q0 == seq![p] + queue,
        queue_ok(g, context, start, out, q0),
        pending_ok(g, context, out, q0),
    ensures
        queue_ok(g, context, start, out, queue),
        g.in_bounds(p),
        p == start || has_free_pred(g, context, out, out.len() as int, p),
        forall|j: int, m: Point|
            0 <= j < out.len() && class_at(g, context, out[j]) == Traversable::Free && #[trigger] neighbours(g, out[j]).contains(m)
                ==> out.contains(m) || class_at(g, context, m) == Traversable::Obstructed || queue.contains(m) || m == p,
{
    reveal(queue_ok);
    reveal(pending_ok);
    assert(q0[0] == p);
    assert forall|i: int| 0 <= i < queue.len() implies #[trigger] queue[i] == q0[i + 1] by {}
    assert forall|j: int, m: Point|
        0 <= j < out.len() && class_at(g, context, out[j]) == Traversable::Free && #[trigger] neighbours(g, out[j]).contains(m)
        implies out.contains(m) || class_at(g, context, m) == Traversable::Obstructed || queue.contains(m) || m == p by {
        if q0.contains(m) && m != p {
            let i = choose|i: int| 0 <= i < q0.len() && q0[i] == m;
            assert(queue[i - 1] == m);
        }
    }
}

/// Visiting `p`, which was unmarked and is not obstructed, keeps the visited points
/// distinct, in bounds, unobstructed and marked.
proof fn lemma_visit_visited<Tile: ContextInto<Traversable>>(
    g: GridView<Tile>,
    context: &<Tile as ContextInto<Traversable>>::Context,
    out: Seq<Point>,
    bits: Seq<bool>,
    p: Point,
)
    requires
        g.wf(),
        g.in_bounds(p),
        bits.len() == g.tiles.len(),
        !bits[g.index_of(p.x as int, p.y as int)],
        class_at(g, context, p) != Traversable::Obstructed,
        visited_ok(g, context, out, bits),
    ensures
        visited_ok(g, context, out.push(p), bits.update(g.index_of(p.x as int, p.y as int), true)),
        !out.contains(p),
{
    reveal(visited_ok);
    let idx = g.index_of(p.x as int, p.y as int);
    let out2 = out.push(p);
    let bits2 = bits.update(idx, true);
    lemma_point_index_round_trip(g, p, 0);
    if out.contains(p) {
        let k = choose|k: int| 0 <= k < out.len() && out[k] == p;
        assert(bits[g.index_of(out[k].x as int, out[k].y as int)]);
    }
    assert forall|k: int| 0 <= k < out2.len() implies g.in_bounds(#[trigger] out2[k]) && class_at(g, context, out2[k])
        != Traversable::Obstructed && bits2[g.index_of(out2[k].x as int, out2[k].y as int)] by {
        if k < out.len() {
            assert(out2[k] == out[k]);
            lemma_point_index_round_trip(g, out[k], 0);
        }
    }
    assert forall|a: int, b: int| 0 <= a < out2.len() && 0 <= b < out2.len() && a != b implies out2[a] != out2[b] by {
        if a < out.len() && b < out.len() {
        } else if a < out.len() {
            assert(out.contains(out2[a]));
        } else {
            assert(out.contains(out2[b]));
        }
    }
}

/// Visiting `p` and marking its cell keeps every marked cell visited or obstructed.
proof fn lemma_visit_marks<Tile: ContextInto<Traversable>>(
    g: GridView<Tile>,
    context: &<Tile as ContextInto<Traversable>>::Context,
    out: Seq<Point>,
    bits: Seq<bool>,
    p: Point,
)
    requires
        g.wf(),
        g.in_bounds(p),
        bits.len() == g.tiles.len(),
        marks_ok(g, context, out, bits),
    ensures
        marks_ok(g, context, out.push(p), bits.update(g.index_of(p.x as int, p.y as int), true)),
{
    reveal(marks_ok);
    let idx = g.index_of(p.x as int, p.y as int);
    let out2 = out.push(p);
    let bits2 = bits.update(idx, true);
    lemma_point_index_round_trip(g, p, 0);
    assert forall|i: int| 0 <= i < g.tiles.len() && #[trigger] bits2[i] implies out2.contains(g.point_at(i)) || class_at(
        g,
        context,
        g.point_at(i),
    ) == Traversable::Obstructed by {
        if i == idx {
            assert(out2[out.len() as int] == p);
        } else {
            assert(bits[i]);
            if out.contains(g.point_at(i)) {
                let k = choose|k: int| 0 <= k < out.len() && out[k] == g.point_at(i);
                assert(out2[k] == g.point_at(i));
            }
        }
    }
}

/// Marking the cell of an obstructed point keeps every marked cell visited or obstructed.
proof fn lemma_mark_obstructed<Tile: ContextInto<Traversable>>(
    g: GridView<Tile>,
    context: &<Tile as ContextInto<Traversable>>::Context,
    out: Seq<Point>,
    bits: Seq<bool>,
    p: Point,
)
    requires
        g.wf(),
        g.in_bounds(p),
        bits.len() == g.tiles.len(),
        class_at(g, context, p) == Traversable::Obstructed,
        marks_ok(g, context, out, bits),
    ensures
        marks_ok(g, context, out, bits.update(g.index_of(p.x as int, p.y as int), true)),
{
    reveal(marks_ok);
    let idx = g.index_of(p.x as int, p.y as int);
    let bits2 = bits.update(idx, true);
    lemma_point_index_round_trip(g, p, 0);
    assert forall|i: int| 0 <= i < g.tiles.len() && #[trigger] bits2[i] implies out.contains(g.point_at(i)) || class_at(
        g,
        context,
        g.point_at(i),
    ) == Traversable::Obstructed by {
        if i != idx {
            assert(bits[i]);
        }
    }
}

/// Visiting `p`, the start or a neighbour of a visited Free point, keeps the order facts
/// and the queue facts.
proof fn lemma_visit_order<Tile: ContextInto<Traversable>>(
    g: GridView<Tile>,
    context: &<Tile as ContextInto<Traversable>>::Context,
    start: Point,
    out: Seq<Point>,
    p: Point,
    queue: Seq<Point>,
)
    requires
        p == start || has_free_pred(g, context, out, out.len() as int, p),
        order_ok(g, context, start, out),
        queue_ok(g, context, start, out, queue),
    ensures
        order_ok(g, context, start, out.push(p)),
        queue_ok(g, context, start, out.push(p), queue),
{
    reveal(order_ok);
    reveal(queue_ok);
    let out2 = out.push(p);
    assert forall|k: int| 0 <= k < out2.len() implies #[trigger] out2[k] == start || has_free_pred(g, context, out2, k, out2[k]) by {
        if k < out.len() {
            assert(out2[k] == out[k]);
            if out[k] != start {
                let j = choose|j: int| 0 <= j < k && class_at(g, context, out[j]) == Traversable::Free && #[trigger] neighbours(g, out[j]).contains(out[k]);
                assert(out2[j] == out[j]);
            }
        } else if p != start {
            let j = choose|j: int| 0 <= j < out.len() && class_at(g, context, out[j]) == Traversable::Free && #[trigger] neighbours(g, out[j]).contains(p);
            assert(out2[j] == out[j]);
        }
    }
    assert forall|i: int| 0 <= i < queue.len() implies g.in_bounds(#[trigger] queue[i]) && (queue[i] == start || has_free_pred(
        g,
        context,
        out2,
        out2.len() as int,
        queue[i],
    )) by {
        if queue[i] != start {
            let j = choose|j: int| 0 <= j < out.len() && class_at(g, context, out[j]) == Traversable::Free && #[trigger] neighbours(g, out[j]).contains(queue[i]);
            assert(out2[j] == out[j]);
        }
    }
}

/// After the head `p` of the queue is dealt with (visited, or known to be visited or
/// obstructed), the pending neighbours of the earlier visited points are accounted for.
proof fn lemma_pending_step<Tile: ContextInto<Traversable>>(
    g: GridView<Tile>,
    context: &<Tile as ContextInto<Traversable>>::Context,
    out0: Seq<Point>,
    out: Seq<Point>,
    queue: Seq<Point>,
    p: Point,
)
    requires
        forall|j: int, m: Point|
            0 <= j < out0.len() && class_at(g, context, out0[j]) == Traversable::Free && #[trigger] neighbours(g, out0[j]).contains(m)
                ==> out0.contains(m) || class_at(g, context, m) == Traversable::Obstructed || queue.contains(m) || m == p,
        out == out0 || out == out0.push(p),
        out.contains(p) || class_at(g, context, p) == Traversable::Obstructed,
    ensures
        forall|j: int, m: Point|
            0 <= j < out0.len() && class_at(g, context, out[j]) == Traversable::Free && #[trigger] neighbours(g, out[j]).contains(m)
                ==> out.contains(m) || class_at(g, context, m) == Traversable::Obstructed || queue.contains(m),
{
    assert forall|j: int, m: Point|
        0 <= j < out0.len() && class_at(g, context, out[j]) == Traversable::Free && #[trigger] neighbours(g, out[j]).contains(m)
        implies out.contains(m) || class_at(g, context, m) == Traversable::Obstructed || queue.contains(m) by {
        assert(out[j] == out0[j]);
        assert(neighbours(g, out0[j]).contains(m));
        if out0.contains(m) {
            let i = choose|i: int| 0 <= i < out0.len() && out0[i] == m;
            assert(out[i] == m);
        }
    }
}

/// The points of `s` whose cells are not marked in `bits`, in order.
pub open spec fn unmarked<Tile>(g: GridView<Tile>, bits: Seq<bool>, s: Seq<Point>) -> Seq<Point>
    decreases s.len(),
{
    if s.len() == 0 {
        Seq::empty()
    } else {
        let rest = unmarked(g, bits, s.drop_last());
        let m = s.last();
        if bits[g.index_of(m.x as int, m.y as int)] {
            rest
        } else {
            rest.push(m)
        }
    }
}

/// The points that the breadth-first walk visits, appended to `out`, when it continues with
/// the pending points `queue` and the marked cells `bits`.
///
/// The head of the queue is taken; a marked cell is skipped; otherwise its cell is marked,
/// an obstructed point is dropped, and any other point is visited. A visited Free point
/// appends its unmarked orthogonal neighbours, in direction order, to the queue.
pub open spec fn walk_from<Tile: ContextInto<Traversable>>(
    g: GridView<Tile>,
    context: &<Tile as ContextInto<Traversable>>::Context,
    queue: Seq<Point>,
    bits: Seq<bool>,
    out: Seq<Point>,
) -> Seq<Point>
    decreases count_unset(bits), queue.len(),
    via walk_from_decreases::<Tile>
{
    if queue.len() == 0 || !g.wf() || bits.len() != g.tiles.len() || !g.in_bounds(queue[0]) {
        out
    } else {
        let p = queue[0];
        let rest = queue.drop_first();
        let i = g.index_of(p.x as int, p.y as int);
        if bits[i] {
            walk_from(g, context, rest, bits, out)
        } else {
            let marked = bits.update(i, true);
            if class_at(g, context, p) == Traversable::Obstructed {
                walk_from(g, context, rest, marked, out)
            } else if class_at(g, context, p) == Traversable::Free {
                walk_from(g, context, rest + unmarked(g, marked, neighbours(g, p)), marked, out.push(p))
            } else {
                walk_from(g, context, rest, marked, out.push(p))
            }
        }
    }
}

#[via_fn]
proof fn walk_from_decreases<Tile: ContextInto<Traversable>>(
    g: GridView<Tile>,
    context: &<Tile as ContextInto<Traversable>>::Context,
    queue: Seq<Point>,
    bits: Seq<bool>,
    out: Seq<Point>,
) {
    if queue.len() == 0 || !g.wf() || bits.len() != g.tiles.len() || !g.in_bounds(queue[0]) {
    } else {
        let p = queue[0];
        let i = g.index_of(p.x as int, p.y as int);
        lemma_point_index_round_trip(g, p, 0);
        if !bits[i] {
            lemma_count_unset_set(bits, i);
        }
    }
}

/// The points that the breadth-first walk from `start` visits, in order, when nothing
/// stops it.
pub open spec fn bfs_order<Tile: ContextInto<Traversable>>(
    g: GridView<Tile>,
    context: &<Tile as ContextInto<Traversable>>::Context,
    start: Point,
) -> Seq<Point> {
    walk_from(g, context, seq![start], Seq::new(g.tiles.len(), |_i: int| false), Seq::empty())
}

/// The walk only appends to what was visited before.
proof fn lemma_walk_extends<Tile: ContextInto<Traversable>>(
    g: GridView<Tile>,
    context: &<Tile as ContextInto<Traversable>>::Context,
    queue: Seq<Point>,
    bits: Seq<bool>,
    out: Seq<Point>,
)
    ensures
        out.len() <= walk_from(g, context, queue, bits, out).len(),
        walk_from(g, context, queue, bits, out).subrange(0, out.len() as int) == out,
    decreases count_unset(bits), queue.len(),
{
    if queue.len() == 0 || !g.wf() || bits.len() != g.tiles.len() || !g.in_bounds(queue[0]) {
        assert(out.subrange(0, out.len() as int) =~= out);
    } else {
        let p = queue[0];
        let rest = queue.drop_first();
        let i = g.index_of(p.x as int, p.y as int);
        lemma_point_index_round_trip(g, p, 0);
        if bits[i] {
            lemma_walk_extends(g, context, rest, bits, out);
        } else {
            lemma_count_unset_set(bits, i);
            let marked = bits.update(i, true);
            if class_at(g, context, p) == Traversable::Obstructed {
                lemma_walk_extends(g, context, rest, marked, out);
            } else {
                let q2 = if class_at(g, context, p) == Traversable::Free {
                    rest + unmarked(g, marked, neighbours(g, p))
                } else {
                    rest
                };
                lemma_walk_extends(g, context, q2, marked, out.push(p));
                let w = walk_from(g, context, q2, marked, out.push(p));
                assert(w.subrange(0, out.len() as int) =~= w.subrange(0, out.len() + 1int).subrange(0, out.len() as int));
                assert(out.push(p).subrange(0, out.len() as int) =~= out);
            }
        }
    }
}

/// One step of the walk, with the queue split into its head and the rest.
proof fn lemma_walk_unfold<Tile: ContextInto<Traversable>>(
    g: GridView<Tile>,
    context: &<Tile as ContextInto<Traversable>>::Context,
    p: Point,
    rest: Seq<Point>,
    bits: Seq<bool>,
    out: Seq<Point>,
)
    requires
        g.wf(),
        g.in_bounds(p),
        bits.len() == g.tiles.len(),
    ensures
        walk_from(g, context, seq![p] + rest, bits, out) == (if bits[g.index_of(p.x as int, p.y as int)] {
            walk_from(g, context, rest, bits, out)
        } else if class_at(g, context, p) == Traversable::Obstructed {
            walk_from(g, context, rest, bits.update(g.index_of(p.x as int, p.y as int), true), out)
        } else if class_at(g, context, p) == Traversable::Free {
            walk_from(
                g,
                context,
                rest + unmarked(g, bits.update(g.index_of(p.x as int, p.y as int), true), neighbours(g, p)),
                bits.update(g.index_of(p.x as int, p.y as int), true),
                out.push(p),
            )
        } else {
            walk_from(g, context, rest, bits.update(g.index_of(p.x as int, p.y as int), true), out.push(p))
        }),
{
    let q = seq![p] + rest;
    assert(q[0] == p);
    assert(q.drop_first() =~= rest);
}

impl<Tile: Copy + ContextInto<Traversable>> Grid<Tile> {
    /// Classify the tile at an in-bounds point.
    fn classify(&self, context: &<Tile as ContextInto<Traversable>>::Context, point: Point) -> (r: Traversable)
        requires
            self.wf(),
            self@.in_bounds(point),
        ensures
            r == class_at(self@, context, point),
    {
        let tile = *self.at(point);
        tile.ctx_into(point, context)
    }

    /// Visit every non-obstructed tile reachable from the initial point, breadth first.
    ///
    /// Free tiles are expanded to their orthogonal neighbours; Halt tiles are visited but
    /// not expanded. If the visitor ever returns true, processing halts and no further
    /// points are visited.
    ///
    /// Returns the visited points in visiting order, and whether the visitor stopped the walk.
    /// The order is [`bfs_order`], fixed by the grid, the context and the start; a walk that
    /// the visitor stops has visited a prefix of it.
    pub fn reachable_from_ctx<F: FnMut(Point, &Tile) -> bool>(
        &self,
        context: &<Tile as ContextInto<Traversable>>::Context,
        point: Point,
        visit: F,
    ) -> (r: (Vec<Point>, bool))
        requires
            self.wf(),
            self@.tiles.len() <= MAX_BITS,
            forall|p: Point, t: &Tile| call_requires(visit, (p, t)),
        ensures
            walk_sound(self@, context, point, r.0@),
            r.0@.len() > 0 <==> self@.in_bounds(point) && class_at(self@, context, point) != Traversable::Obstructed,
            forall|k: int|
                0 <= k < r.0@.len() && !(r.1 && k == r.0@.len() - 1) ==> call_ensures(
                    visit,
                    (#[trigger] r.0@[k], &self@.tile(r.0@[k].x as int, r.0@[k].y as int)),
                    false,
                ),
            r.1 ==> r.0@.len() > 0 && call_ensures(
                visit,
                (r.0@.last(), &self@.tile(r.0@.last().x as int, r.0@.last().y as int)),
                true,
            ),
            !r.1 ==> walk_closed(self@, context, r.0@),
            r.0@.len() <= bfs_order(self@, context, point).len(),
            r.0@ == bfs_order(self@, context, point).subrange(0, r.0@.len() as int),
            !r.1 ==> r.0@ == bfs_order(self@, context, point),
    {
        let mut f = visit;
        let mut out: Vec<Point> = Vec::new();
        if !self.in_bounds(point) {
            proof {
                reveal(walk_sound);
                reveal(walk_closed);
                assert(seq![point][0] == point);
                assert(bfs_order(self@, context, point) == Seq::<Point>::empty());
            }
            return (out, false);
        }
        let n = self.tiles().len();
        let mut visited = bits_repeat(false, n);
        let mut queue: VecDeque<Point> = VecDeque::new();
        queue.push_back(point);
        let ghost g = self@;
        proof {
            reveal(visited_ok);
            reveal(marks_ok);
            reveal(queue_ok);
            reveal(order_ok);
            reveal(pending_ok);
            assert(queue@ =~= seq![point]);
            assert(bits_of(visited) =~= Seq::new(g.tiles.len(), |_i: int| false));
            assert(out@ =~= Seq::<Point>::empty());
        }
        let ghost order = bfs_order(g, context, point);
        while queue.len() > 0
            invariant
                order == bfs_order(g, context, point),
                walk_from(g, context, queue@, bits_of(visited), out@) == order,
                self.wf(),
                g == self@,
                n == g.tiles.len(),
                bits_of(visited).len() == n,
                g.in_bounds(point),
                f == visit,
                forall|p: Point, t: &Tile| call_requires(visit, (p, t)),
                visited_ok(g, context, out@, bits_of(visited)),
                marks_ok(g, context, out@, bits_of(visited)),
                queue_ok(g, context, point, out@, queue@),
                order_ok(g, context, point, out@),
                pending_ok(g, context, out@, queue@),
                out@.len() == 0 ==> forall|i: int| 0 <= i < queue@.len() ==> #[trigger] queue@[i] == point,
                out@.len() == 0 ==> queue@.len() > 0 || class_at(g, context, point) == Traversable::Obstructed,
                out@.len() > 0 ==> out@[0] == point,
                forall|k: int|
                    0 <= k < out@.len() ==> call_ensures(visit, (#[trigger] out@[k], &g.tile(out@[k].x as int, out@[k].y as int)), false),
            decreases count_unset(bits_of(visited)), queue@.len(),
        {
            let ghost q0 = queue@;
            let ghost out0 = out@;
            let p = queue.pop_front().unwrap();
            proof {
                assert(q0 =~= seq![p] + queue@);
                lemma_pop(g, context, point, out@, q0, p, queue@);
                lemma_walk_unfold(g, context, p, queue@, bits_of(visited), out@);
            }
            let ghost qrest = queue@;
            let idx = self.index_of_wide(p.x as i64, p.y as i64);
            if bit_at(&visited, idx) {
                proof {
                    reveal(marks_ok);
                    reveal(pending_ok);
                    lemma_point_index_round_trip(g, p, idx as int);
                    assert(out@.contains(p) || class_at(g, context, p) == Traversable::Obstructed);
                    lemma_pending_step(g, context, out@, out@, queue@, p);
                    if out@.len() == 0 {
                        assert(q0[0] == p);
                        assert forall|i: int| 0 <= i < queue@.len() implies #[trigger] queue@[i] == point by {
                            assert(q0[i + 1] == queue@[i]);
                        }
                    }
                }
                continue;
            }
            proof {
                lemma_count_unset_set(bits_of(visited), idx as int);
            }
            let ghost bits0 = bits_of(visited);
            set_bit(&mut visited, idx, true);
            let class = self.classify(context, p);
            if class == Traversable::Obstructed {
                proof {
                    lemma_mark_obstructed(g, context, out@, bits0, p);
                    reveal(visited_ok);
                    reveal(pending_ok);
                    assert forall|k: int| 0 <= k < out@.len() implies g.in_bounds(#[trigger] out@[k]) && class_at(g, context, out@[k])
                        != Traversable::Obstructed && bits_of(visited)[g.index_of(out@[k].x as int, out@[k].y as int)] by {
                        lemma_point_index_round_trip(g, out@[k], 0);
                    }
                    lemma_pending_step(g, context, out@, out@, queue@, p);
                    if out@.len() == 0 {
                        assert(q0[0] == p);
                        assert forall|i: int| 0 <= i < queue@.len() implies #[trigger] queue@[i] == point by {
                            assert(q0[i + 1] == queue@[i]);
                        }
                    }
                }
                continue;
            }
            proof {
                lemma_visit_visited(g, context, out@, bits0, p);
                lemma_visit_marks(g, context, out@, bits0, p);
                lemma_visit_order(g, context, point, out@, p, queue@);
                if out@.len() == 0 {
                    assert(q0[0] == p);
                }
            }
            out.push(p);
            let tile = self.at(p);
            let stop = f(p, tile);
            assert(f == visit);
            if stop {
                proof {
                    assert(out@.last() == p);
                    assert forall|k: int| 0 <= k < out@.len() - 1 implies call_ensures(visit, (#[trigger] out@[k], &g.tile(out@[k].x as int, out@[k].y as int)), false) by {
                        assert(out@[k] == out0[k]);
                    }
                    reveal(walk_sound);
                    reveal(visited_ok);
                    reveal(order_ok);
                    let q2 = if class == Traversable::Free {
                        qrest + unmarked(g, bits_of(visited), neighbours(g, p))
                    } else {
                        qrest
                    };
                    lemma_walk_extends(g, context, q2, bits_of(visited), out@);
                }
                return (out, true);
            }
            proof {
                assert(out@[out@.len() - 1] == p);
                assert(out@.contains(p));
                lemma_pending_step(g, context, out0, out@, queue@, p);
                assert forall|k: int| 0 <= k < out@.len() implies call_ensures(visit, (#[trigger] out@[k], &g.tile(out@[k].x as int, out@[k].y as int)), false) by {
                    if k < out0.len() {
                        assert(out@[k] == out0[k]);
                    }
                }
            }
            if class == Traversable::Free {
                let adj = self.orthogonal_adjacencies(p);
                let mut a: usize = 0;
                proof {
                    assert(queue@ =~= qrest + unmarked(g, bits_of(visited), adj@.subrange(0, 0)));
                }
                while a < adj.len()
                    invariant
                        self.wf(),
                        g == self@,
                        n == g.tiles.len(),
                        bits_of(visited).len() == n,
                        0 <= a <= adj@.len(),
                        adj@ == neighbours(g, p),
                        g.in_bounds(p),
                        out@.len() > 0,
                        out@.last() == p,
                        class_at(g, context, p) == Traversable::Free,
                        marks_ok(g, context, out@, bits_of(visited)),
                        queue_ok(g, context, point, out@, queue@),
                        forall|j: int, m: Point|
                            0 <= j < out@.len() - 1 && class_at(g, context, out@[j]) == Traversable::Free && #[trigger] neighbours(g, out@[j]).contains(m)
                                ==> out@.contains(m) || class_at(g, context, m) == Traversable::Obstructed || queue@.contains(m),
                        forall|i: int|
                            0 <= i < a ==> out@.contains(#[trigger] adj@[i]) || class_at(g, context, adj@[i]) == Traversable::Obstructed
                                || queue@.contains(adj@[i]),
                        queue@ == qrest + unmarked(g, bits_of(visited), adj@.subrange(0, a as int)),
                    decreases adj@.len() - a,
                {
                    let m = adj[a];
                    proof {
                        lemma_keep_in_bounds(g, orthogonal_candidates(p));
                        assert(adj@.contains(m));
                    }
                    let mi = self.index_of_wide(m.x as i64, m.y as i64);
                    proof {
                        assert(adj@.subrange(0, a + 1).drop_last() =~= adj@.subrange(0, a as int));
                        assert(adj@.subrange(0, a + 1).last() == m);
                    }
                    if !bit_at(&visited, mi) {
                        let ghost qa = queue@;
                        queue.push_back(m);
                        proof {
                            assert(queue@ =~= qrest + unmarked(g, bits_of(visited), adj@.subrange(0, a + 1)));
                        }
                        proof {
                            reveal(queue_ok);
                            assert(out@[out@.len() - 1] == p);
                            assert(has_free_pred(g, context, out@, out@.len() as int, m));
                            assert forall|i: int| 0 <= i < queue@.len() implies g.in_bounds(#[trigger] queue@[i]) && (queue@[i] == point
                                || has_free_pred(g, context, out@, out@.len() as int, queue@[i])) by {
                                if i < qa.len() {
                                    assert(queue@[i] == qa[i]);
                                }
                            }
                            assert forall|x: Point| qa.contains(x) implies queue@.contains(x) by {
                                let i = choose|i: int| 0 <= i < qa.len() && qa[i] == x;
                                assert(queue@[i] == x);
                            }
                            assert(queue@[qa.len() as int] == m);
                        }
                    } else {
                        proof {
                            reveal(marks_ok);
                            lemma_point_index_round_trip(g, m, mi as int);
                        }
                    }
                    a += 1;
                }
                proof {
                    assert(adj@.subrange(0, adj@.len() as int) =~= adj@);
                    reveal(pending_ok);
                    assert forall|j: int, m: Point|
                        0 <= j < out@.len() && class_at(g, context, out@[j]) == Traversable::Free && #[trigger] neighbours(g, out@[j]).contains(m)
                        implies out@.contains(m) || class_at(g, context, m) == Traversable::Obstructed || queue@.contains(m) by {
                        if j == out@.len() - 1 {
                            let i = choose|i: int| 0 <= i < adj@.len() && adj@[i] == m;
                            assert(out@.contains(adj@[i]) || class_at(g, context, adj@[i]) == Traversable::Obstructed || queue@.contains(adj@[i]));
                        }
                    }
                }
            } else {
                proof {
                    reveal(pending_ok);
                    assert(out@[out@.len() - 1] == p);
                }
            }
            assert(pending_ok(g, context, out@, queue@));
        }
        proof {
            reveal(walk_sound);
            reveal(walk_closed);
            reveal(visited_ok);
            reveal(order_ok);
            reveal(pending_ok);
            assert(queue@.len() == 0);
        }
        (out, false)
    }
}

impl<Tile: Copy + ContextInto<Traversable, Context = ()>> Grid<Tile> {
    /// [`Grid::reachable_from_ctx`] for tiles whose classification needs no context.
    pub fn reachable_from<F: FnMut(Point, &Tile) -> bool>(&self, point: Point, visit: F) -> (r: (Vec<Point>, bool))
        requires
            self.wf(),
            self@.tiles.len() <= MAX_BITS,
            forall|p: Point, t: &Tile| call_requires(visit, (p, t)),
        ensures
            walk_sound(self@, &(), point, r.0@),
            r.0@.len() > 0 <==> self@.in_bounds(point) && class_at(self@, &(), point) != Traversable::Obstructed,
            forall|k: int|
                0 <= k < r.0@.len() && !(r.1 && k == r.0@.len() - 1) ==> call_ensures(
                    visit,
                    (#[trigger] r.0@[k], &self@.tile(r.0@[k].x as int, r.0@[k].y as int)),
                    false,
                ),
            r.1 ==> r.0@.len() > 0 && call_ensures(
                visit,
                (r.0@.last(), &self@.tile(r.0@.last().x as int, r.0@.last().y as int)),
                true,
            ),
            !r.1 ==> walk_closed(self@, &(), r.0@),
            r.0@.len() <= bfs_order(self@, &(), point).len(),
            r.0@ == bfs_order(self@, &(), point).subrange(0, r.0@.len() as int),
            !r.1 ==> r.0@ == bfs_order(self@, &(), point),
    {
        self.reachable_from_ctx(&(), point, visit)
    }
}

/// On an all-Free grid, every in-bounds point lies on a closed walk from `start`: step by
/// step toward `start` each point has a visited neighbour.
proof fn lemma_toward<Tile: ContextInto<Traversable>>(
    g: GridView<Tile>,
    context: &<Tile as ContextInto<Traversable>>::Context,
    start: Point,
    out: Seq<Point>,
    q: Point,
)
    requires
        g.wf(),
        g.in_bounds(start),
        g.in_bounds(q),
        forall|p: Point| g.in_bounds(p) ==> class_at(g, context, p) == Traversable::Free,
        walk_sound(g, context, start, out),
        walk_closed(g, context, out),
        out.len() > 0,
    ensures
        out.contains(q),
    decreases abs(q.x - start.x) + abs(q.y - start.y),
{
    reveal(walk_sound);
    if q == start {
        assert(out[0] == start);
    } else {
        let (d, back) = if q.x > start.x {
            (Direction::Right, Point { x: (q.x - 1) as i32, y: q.y })
        } else if q.x < start.x {
            (Direction::Left, Point { x: (q.x + 1) as i32, y: q.y })
        } else if q.y > start.y {
            (Direction::Up, Point { x: q.x, y: (q.y - 1) as i32 })
        } else {
            (Direction::Down, Point { x: q.x, y: (q.y + 1) as i32 })
        };
        lemma_toward(g, context, start, out, back);
        lemma_step_is_neighbour(g, back, d);
        assert(q == Point { x: (back.x + dx(d)) as i32, y: (back.y + dy(d)) as i32 });
        let j = choose|j: int| 0 <= j < out.len() && out[j] == back;
        reveal(walk_closed);
        assert(neighbours(g, out[j]).contains(q));
    }
}

/// One step in direction `d` from `p` onto an in-bounds point reaches a neighbour of `p`.
pub proof fn lemma_step_is_neighbour<Tile>(g: GridView<Tile>, p: Point, d: Direction)
    requires
        g.wf(),
        g.contains(p.x + dx(d), p.y + dy(d)),
    ensures
        neighbours(g, p).contains(Point { x: (p.x + dx(d)) as i32, y: (p.y + dy(d)) as i32 }),
{
    let cands = orthogonal_candidates(p);
    let k: int = match d {
        Direction::Up => 0,
        Direction::Down => 1,
        Direction::Left => 2,
        Direction::Right => 3,
    };
    assert(orthogonal_order()[k] == d);
    assert(cands[k] == (p.x + dx(d), p.y + dy(d)));
    lemma_keep_in_bounds_has(g, cands, k);
}

/// On a grid whose tiles are all Free, a breadth-first walk from an in-bounds start that
/// was not stopped visits every tile exactly once.
pub proof fn lemma_free_walk_covers_grid<Tile: ContextInto<Traversable>>(
    g: GridView<Tile>,
    context: &<Tile as ContextInto<Traversable>>::Context,
    start: Point,
    out: Seq<Point>,
)
    requires
        g.wf(),
        g.in_bounds(start),
        forall|p: Point| g.in_bounds(p) ==> class_at(g, context, p) == Traversable::Free,
        walk_sound(g, context, start, out),
        walk_closed(g, context, out),
        out.len() > 0,
    ensures
        out.len() == g.tiles.len(),
        forall|p: Point| g.in_bounds(p) ==> out.contains(p),
{
    assert forall|p: Point| g.in_bounds(p) implies out.contains(p) by {
        lemma_toward(g, context, start, out, p);
    }
    reveal(walk_sound);
    let n = g.tiles.len() as int;
    let idxs = out.map_values(|p: Point| g.index_of(p.x as int, p.y as int));
    assert forall|a: int, b: int| 0 <= a < idxs.len() && 0 <= b < idxs.len() && a != b implies idxs[a] != idxs[b] by {
        lemma_point_index_round_trip(g, out[a], 0);
        lemma_point_index_round_trip(g, out[b], 0);
    }
    assert(idxs.no_duplicates());
    idxs.unique_seq_to_set();
    assert forall|i: int| #[trigger] idxs.to_set().contains(i) <==> set_int_range(0, n).contains(i) by {
        if 0 <= i < n {
            lemma_point_index_round_trip(g, Point { x: 0, y: 0 }, i);
            let p = g.point_at(i);
            assert(g.in_bounds(p));
            assert(out.contains(p));
            let k = choose|k: int| 0 <= k < out.len() && out[k] == p;
            assert(idxs[k] == g.index_of(p.x as int, p.y as int));
            assert(idxs.to_set().contains(idxs[k]));
        }
        if idxs.to_set().contains(i) {
            let k = choose|k: int| 0 <= k < idxs.len() && idxs[k] == i;
            lemma_point_index_round_trip(g, out[k], 0);
        }
    }
    assert(idxs.to_set() =~= set_int_range(0, n));
    lemma_int_range(0, n);
}

} // verus!
