use crate::bits::{count_unset, lemma_count_unset_set};
use crate::context::ContextInto;
use crate::direction::{dx, dy, orthogonal_order, Direction};
use crate::grid::{lemma_keep_in_bounds, lemma_keep_in_bounds_has, lemma_point_index_round_trip, orthogonal_candidates, Grid, GridView};
use crate::point::{abs, Point};
use crate::search::{class_at, lemma_step_is_neighbour, neighbours};
use crate::traversable::Traversable;
use vstd::prelude::*;

verus! {

/// Where a walk from `start` that takes the steps of `path` ends.
pub open spec fn walk_end(start: Point, path: Seq<Direction>) -> (int, int)
    decreases path.len(),
{
    if path.len() == 0 {
        (start.x as int, start.y as int)
    } else {
        let w = walk_end(start, path.drop_last());
        (w.0 + dx(path.last()), w.1 + dy(path.last()))
    }
}

/// Every point that a walk from `start` along `path` steps onto is in bounds and not
/// obstructed.
pub open spec fn path_ok<Tile: ContextInto<Traversable>>(
    g: GridView<Tile>,
    context: &<Tile as ContextInto<Traversable>>::Context,
    start: Point,
    path: Seq<Direction>,
) -> bool
    decreases path.len(),
{
    if path.len() == 0 {
        true
    } else {
        let w = walk_end(start, path);
        &&& path_ok(g, context, start, path.drop_last())
        &&& g.contains(w.0, w.1)
        &&& class_at(g, context, Point { x: w.0 as i32, y: w.1 as i32 }) != Traversable::Obstructed
    }
}

/// Some walk from `from` through unobstructed in-bounds tiles ends at `to`.
pub open spec fn reachable<Tile: ContextInto<Traversable>>(
    g: GridView<Tile>,
    context: &<Tile as ContextInto<Traversable>>::Context,
    from: Point,
    to: Point,
) -> bool {
    exists|path: Seq<Direction>| path_ok(g, context, from, path) && walk_end(from, path) == (to.x as int, to.y as int)
}

/// `s` in reverse order.
pub open spec fn reversed(s: Seq<Direction>) -> Seq<Direction> {
    Seq::new(s.len(), |i: int| s[s.len() - 1 - i])
}

/// Prepending a step from `p` onto `q` to a walk from `q`.
proof fn lemma_prepend_step<Tile: ContextInto<Traversable>>(
    g: GridView<Tile>,
    context: &<Tile as ContextInto<Traversable>>::Context,
    p: Point,
    d: Direction,
    q: Point,
    rest: Seq<Direction>,
)
    requires
        q.x == p.x + dx(d),
        q.y == p.y + dy(d),
        g.in_bounds(q),
        class_at(g, context, q) != Traversable::Obstructed,
        path_ok(g, context, q, rest),
    ensures
        path_ok(g, context, p, seq![d] + rest),
        walk_end(p, seq![d] + rest) == walk_end(q, rest),
    decreases rest.len(),
{
    let s = seq![d] + rest;
    if rest.len() == 0 {
        assert(s.drop_last() =~= Seq::<Direction>::empty());
        assert(s.last() == d);
        assert(walk_end(p, s.drop_last()) == (p.x as int, p.y as int));
        assert(walk_end(p, s) == (q.x as int, q.y as int));
        assert(rest =~= Seq::<Direction>::empty());
        assert(walk_end(q, rest) == (q.x as int, q.y as int));
        assert(path_ok(g, context, p, s.drop_last()));
    } else {
        lemma_prepend_step(g, context, p, d, q, rest.drop_last());
        assert(s.drop_last() =~= seq![d] + rest.drop_last());
        assert(s.last() == rest.last());
        assert(walk_end(p, s) == walk_end(q, rest));
    }
}

/// A good walk's first step goes onto an in-bounds unobstructed cell, from which the rest
/// of the walk is good and ends at the same place.
proof fn lemma_split_first<Tile: ContextInto<Traversable>>(
    g: GridView<Tile>,
    context: &<Tile as ContextInto<Traversable>>::Context,
    from: Point,
    q: Seq<Direction>,
)
    requires
        g.wf(),
        path_ok(g, context, from, q),
        q.len() > 0,
    ensures
        g.contains(from.x + dx(q[0]), from.y + dy(q[0])),
        class_at(g, context, Point { x: (from.x + dx(q[0])) as i32, y: (from.y + dy(q[0])) as i32 }) != Traversable::Obstructed,
        path_ok(g, context, Point { x: (from.x + dx(q[0])) as i32, y: (from.y + dy(q[0])) as i32 }, q.drop_first()),
        walk_end(Point { x: (from.x + dx(q[0])) as i32, y: (from.y + dy(q[0])) as i32 }, q.drop_first()) == walk_end(from, q),
    decreases q.len(),
{
    let n = Point { x: (from.x + dx(q[0])) as i32, y: (from.y + dy(q[0])) as i32 };
    if q.len() == 1 {
        assert(q.drop_last() =~= Seq::<Direction>::empty());
        assert(q.drop_first() =~= Seq::<Direction>::empty());
        assert(q.last() == q[0]);
        assert(walk_end(from, q.drop_last()) == (from.x as int, from.y as int));
        assert(walk_end(from, q) == (from.x + dx(q[0]), from.y + dy(q[0])));
        assert(walk_end(n, q.drop_first()) == (n.x as int, n.y as int));
    } else {
        let p = q.drop_last();
        lemma_split_first(g, context, from, p);
        assert(p[0] == q[0]);
        assert(q.drop_first().drop_last() =~= p.drop_first());
        assert(q.drop_first().last() == q.last());
    }
}

/// The position of `d` in the orthogonal direction order.
pub open spec fn order_index(d: Direction) -> int {
    match d {
        Direction::Up => 0,
        Direction::Down => 1,
        Direction::Left => 2,
        Direction::Right => 3,
    }
}

/// Summed scores.
pub open spec fn sum(s: Seq<usize>) -> int
    decreases s.len(),
{
    if s.len() == 0 {
        0
    } else {
        sum(s.drop_last()) + s.last()
    }
}

proof fn lemma_sum_nonneg(s: Seq<usize>)
    ensures
        sum(s) >= 0,
    decreases s.len(),
{
    if s.len() > 0 {
        lemma_sum_nonneg(s.drop_last());
    }
}

proof fn lemma_sum_update(s: Seq<usize>, i: int, v: usize)
    requires
        0 <= i < s.len(),
    ensures
        sum(s.update(i, v)) == sum(s) - s[i] + v,
    decreases s.len(),
{
    let t = s.update(i, v);
    if i == s.len() - 1 {
        assert(t.drop_last() =~= s.drop_last());
    } else {
        lemma_sum_update(s.drop_last(), i, v);
        assert(t.drop_last() =~= s.drop_last().update(i, v));
    }
}

/// Distance between two cells counted in orthogonal steps.
pub open spec fn manhattan(a: (int, int), b: (int, int)) -> int {
    abs(a.0 - b.0) + abs(a.1 - b.1)
}

/// Some entry of the open set is at `p`.
pub open spec fn in_open(open: Seq<(u128, Point)>, p: Point) -> bool {
    exists|i: int| 0 <= i < open.len() && open[i].1 == p
}

/// The open set holds each point at most once, with its score plus its Manhattan
/// distance to the goal as its estimate.
#[verifier::opaque]
pub open spec fn open_exact<Tile>(g: GridView<Tile>, gs: Seq<usize>, open: Seq<(u128, Point)>, to: Point) -> bool {
    &&& forall|i: int, j: int| 0 <= i < open.len() && 0 <= j < open.len() && i != j ==> open[i].1 != open[j].1
    &&& forall|i: int|
        0 <= i < open.len() ==> (#[trigger] open[i]).0 == gs[g.index_of(open[i].1.x as int, open[i].1.y as int)] + manhattan(
            (open[i].1.x as int, open[i].1.y as int),
            (to.x as int, to.y as int),
        )
}

/// Every expanded cell but `skip` that is not open again has each unobstructed neighbour
/// discovered, with a score at most one above its own.
#[verifier::opaque]
pub open spec fn consistent_ok<Tile: ContextInto<Traversable>>(
    g: GridView<Tile>,
    context: &<Tile as ContextInto<Traversable>>::Context,
    disc: Seq<bool>,
    gs: Seq<usize>,
    expd: Seq<bool>,
    open: Seq<(u128, Point)>,
    skip: int,
) -> bool {
    forall|e: int, m: Point|
        0 <= e < g.tiles.len() && e != skip && expd[e] && !in_open(open, g.point_at(e)) && #[trigger] neighbours(
            g,
            g.point_at(e),
        ).contains(m) && class_at(g, context, m) != Traversable::Obstructed ==> disc[g.index_of(m.x as int, m.y as int)]
            && gs[g.index_of(m.x as int, m.y as int)] <= gs[e] + 1
}

/// A prefix of a good walk is a good walk.
proof fn lemma_path_prefix<Tile: ContextInto<Traversable>>(
    g: GridView<Tile>,
    context: &<Tile as ContextInto<Traversable>>::Context,
    from: Point,
    path: Seq<Direction>,
    i: int,
)
    requires
        path_ok(g, context, from, path),
        0 <= i <= path.len(),
    ensures
        path_ok(g, context, from, path.take(i)),
    decreases path.len(),
{
    if i < path.len() {
        lemma_path_prefix(g, context, from, path.drop_last(), i);
        assert(path.drop_last().take(i) =~= path.take(i));
    } else {
        assert(path.take(i) =~= path);
    }
}

/// Step `i` of a good walk goes from cell `i` of the walk to cell `i + 1`, an in-bounds
/// unobstructed neighbour.
proof fn lemma_path_step<Tile: ContextInto<Traversable>>(
    g: GridView<Tile>,
    context: &<Tile as ContextInto<Traversable>>::Context,
    from: Point,
    path: Seq<Direction>,
    i: int,
)
    requires
        g.wf(),
        path_ok(g, context, from, path),
        0 <= i < path.len(),
    ensures
        walk_end(from, path.take(i + 1)) == (walk_end(from, path.take(i)).0 + dx(path[i]), walk_end(from, path.take(i)).1 + dy(path[i])),
        g.contains(walk_end(from, path.take(i + 1)).0, walk_end(from, path.take(i + 1)).1),
        class_at(g, context, Point { x: walk_end(from, path.take(i + 1)).0 as i32, y: walk_end(from, path.take(i + 1)).1 as i32 })
            != Traversable::Obstructed,
{
    lemma_path_prefix(g, context, from, path, i + 1);
    assert(path.take(i + 1).drop_last() =~= path.take(i));
    assert(path.take(i + 1).last() == path[i]);
}

/// The cell of a walk after `i` steps is at most `len - i` steps from its end.
proof fn lemma_walk_distance(from: Point, path: Seq<Direction>, i: int)
    requires
        0 <= i <= path.len(),
    ensures
        manhattan(walk_end(from, path.take(i)), walk_end(from, path)) <= path.len() - i,
    decreases path.len(),
{
    if i < path.len() {
        lemma_walk_distance(from, path.drop_last(), i);
        assert(path.drop_last().take(i) =~= path.take(i));
    } else {
        assert(path.take(i) =~= path);
    }
}

/// Along any good walk from the start, some cell is open with a score at most its
/// position on the walk, or the walk's last cell has a score at most the walk's length.
proof fn lemma_open_witness<Tile: ContextInto<Traversable>>(
    g: GridView<Tile>,
    context: &<Tile as ContextInto<Traversable>>::Context,
    from: Point,
    disc: Seq<bool>,
    gs: Seq<usize>,
    expd: Seq<bool>,
    open: Seq<(u128, Point)>,
    path: Seq<Direction>,
) -> (i: int)
    requires
        g.wf(),
        g.in_bounds(from),
        disc.len() == g.tiles.len(),
        gs.len() == g.tiles.len(),
        expd.len() == g.tiles.len(),
        disc[g.index_of(from.x as int, from.y as int)],
        gs[g.index_of(from.x as int, from.y as int)] == 0,
        path_ok(g, context, from, path),
        frontier_ok(g, disc, expd, open, -1),
        consistent_ok(g, context, disc, gs, expd, open, -1),
    ensures
        0 <= i <= path.len(),
        g.contains(walk_end(from, path.take(i)).0, walk_end(from, path.take(i)).1),
        disc[g.index_of(walk_end(from, path.take(i)).0, walk_end(from, path.take(i)).1)],
        gs[g.index_of(walk_end(from, path.take(i)).0, walk_end(from, path.take(i)).1)] <= i,
        i == path.len() || in_open(open, Point { x: walk_end(from, path.take(i)).0 as i32, y: walk_end(from, path.take(i)).1 as i32 }),
{
    assert(path.take(0) =~= Seq::<Direction>::empty());
    let v = Point { x: walk_end(from, path.take(0)).0 as i32, y: walk_end(from, path.take(0)).1 as i32 };
    assert(v == from);
    if 0 == path.len() || in_open(open, v) {
        0
    } else {
        lemma_step_forward(g, context, from, disc, gs, expd, open, path, 0)
    }
}

/// From a discovered walk cell `i` with score at most `i` that is not open, the next walk
/// cell is discovered with score at most `i + 1`; following the walk this way ends at an
/// open cell or at the walk's end.
proof fn lemma_step_forward<Tile: ContextInto<Traversable>>(
    g: GridView<Tile>,
    context: &<Tile as ContextInto<Traversable>>::Context,
    from: Point,
    disc: Seq<bool>,
    gs: Seq<usize>,
    expd: Seq<bool>,
    open: Seq<(u128, Point)>,
    path: Seq<Direction>,
    i: int,
) -> (r: int)
    requires
        g.wf(),
        disc.len() == g.tiles.len(),
        gs.len() == g.tiles.len(),
        expd.len() == g.tiles.len(),
        path_ok(g, context, from, path),
        0 <= i < path.len(),
        g.contains(walk_end(from, path.take(i)).0, walk_end(from, path.take(i)).1),
        disc[g.index_of(walk_end(from, path.take(i)).0, walk_end(from, path.take(i)).1)],
        gs[g.index_of(walk_end(from, path.take(i)).0, walk_end(from, path.take(i)).1)] <= i,
        !in_open(open, Point { x: walk_end(from, path.take(i)).0 as i32, y: walk_end(from, path.take(i)).1 as i32 }),
        frontier_ok(g, disc, expd, open, -1),
        consistent_ok(g, context, disc, gs, expd, open, -1),
    ensures
        i < r <= path.len(),
        g.contains(walk_end(from, path.take(r)).0, walk_end(from, path.take(r)).1),
        disc[g.index_of(walk_end(from, path.take(r)).0, walk_end(from, path.take(r)).1)],
        gs[g.index_of(walk_end(from, path.take(r)).0, walk_end(from, path.take(r)).1)] <= r,
        r == path.len() || in_open(open, Point { x: walk_end(from, path.take(r)).0 as i32, y: walk_end(from, path.take(r)).1 as i32 }),
    decreases path.len() - i,
{
    let w = walk_end(from, path.take(i));
    let v = Point { x: w.0 as i32, y: w.1 as i32 };
    let e = g.index_of(w.0, w.1);
    lemma_point_index_round_trip(g, v, 0);
    assert(g.point_at(e) == v);
    reveal(frontier_ok);
    assert(expd[e]);
    lemma_path_step(g, context, from, path, i);
    let w2 = walk_end(from, path.take(i + 1));
    let m = Point { x: w2.0 as i32, y: w2.1 as i32 };
    lemma_step_is_neighbour(g, v, path[i]);
    assert(m == Point { x: (v.x + dx(path[i])) as i32, y: (v.y + dy(path[i])) as i32 });
    reveal(consistent_ok);
    assert(neighbours(g, g.point_at(e)).contains(m));
    if i + 1 == path.len() || in_open(open, m) {
        i + 1
    } else {
        lemma_step_forward(g, context, from, disc, gs, expd, open, path, i + 1)
    }
}

/// When the goal has the smallest estimate in the open set, its score is at most the
/// length of any good walk from the start to it.
proof fn lemma_goal_score_is_least<Tile: ContextInto<Traversable>>(
    g: GridView<Tile>,
    context: &<Tile as ContextInto<Traversable>>::Context,
    from: Point,
    to: Point,
    disc: Seq<bool>,
    gs: Seq<usize>,
    expd: Seq<bool>,
    open: Seq<(u128, Point)>,
    k: int,
    path: Seq<Direction>,
)
    requires
        g.wf(),
        g.in_bounds(from),
        g.in_bounds(to),
        disc.len() == g.tiles.len(),
        gs.len() == g.tiles.len(),
        expd.len() == g.tiles.len(),
        disc[g.index_of(from.x as int, from.y as int)],
        gs[g.index_of(from.x as int, from.y as int)] == 0,
        0 <= k < open.len(),
        open[k].1 == to,
        forall|i: int| 0 <= i < open.len() ==> !entry_before(#[trigger] open[i], open[k]),
        open_exact(g, gs, open, to),
        frontier_ok(g, disc, expd, open, -1),
        consistent_ok(g, context, disc, gs, expd, open, -1),
        path_ok(g, context, from, path),
        walk_end(from, path) == (to.x as int, to.y as int),
    ensures
        gs[g.index_of(to.x as int, to.y as int)] <= path.len(),
{
    let i = lemma_open_witness(g, context, from, disc, gs, expd, open, path);
    assert(path.take(path.len() as int) =~= path);
    if i < path.len() {
        let w = walk_end(from, path.take(i));
        let v = Point { x: w.0 as i32, y: w.1 as i32 };
        let q = choose|q: int| 0 <= q < open.len() && open[q].1 == v;
        reveal(open_exact);
        assert(open[q].0 == gs[g.index_of(w.0, w.1)] + manhattan(w, (to.x as int, to.y as int)));
        lemma_walk_distance(from, path, i);
        assert(!entry_before(open[q], open[k]));
        assert(open[k].0 == gs[g.index_of(to.x as int, to.y as int)] + manhattan((to.x as int, to.y as int), (to.x as int, to.y as int)));
    }
}

/// Taking the entry of cell `ci` out of the open set keeps estimates exact, and keeps
/// expanded cells other than `ci` consistent.
proof fn lemma_pop_exact<Tile: ContextInto<Traversable>>(
    g: GridView<Tile>,
    context: &<Tile as ContextInto<Traversable>>::Context,
    to: Point,
    disc: Seq<bool>,
    gs: Seq<usize>,
    expd: Seq<bool>,
    open: Seq<(u128, Point)>,
    k: int,
    ci: int,
)
    requires
        g.wf(),
        0 <= k < open.len(),
        0 <= ci < g.tiles.len(),
        open[k].1 == g.point_at(ci),
        open_exact(g, gs, open, to),
        consistent_ok(g, context, disc, gs, expd, open, -1),
    ensures
        open_exact(g, gs, open.remove(k), to),
        consistent_ok(g, context, disc, gs, expd, open.remove(k), ci),
        !in_open(open.remove(k), g.point_at(ci)),
{
    reveal(open_exact);
    reveal(consistent_ok);
    let open2 = open.remove(k);
    assert forall|i: int| 0 <= i < open2.len() implies open2[i] == open[if i < k { i } else { i + 1 }] by {}
    assert forall|p: Point| #[trigger] in_open(open2, p) implies in_open(open, p) && p != g.point_at(ci) by {
        let i = choose|i: int| 0 <= i < open2.len() && open2[i].1 == p;
        assert(open2[i] == open[if i < k { i } else { i + 1 }]);
    }
    assert forall|e: int, m: Point|
        0 <= e < g.tiles.len() && e != ci && expd[e] && !in_open(open2, g.point_at(e)) && #[trigger] neighbours(g, g.point_at(e)).contains(m)
            && class_at(g, context, m) != Traversable::Obstructed implies disc[g.index_of(m.x as int, m.y as int)] && gs[g.index_of(
        m.x as int,
        m.y as int,
    )] <= gs[e] + 1 by {
        if in_open(open, g.point_at(e)) {
            let i = choose|i: int| 0 <= i < open.len() && open[i].1 == g.point_at(e);
            if i == k {
                lemma_point_index_round_trip(g, Point { x: 0, y: 0 }, e);
                lemma_point_index_round_trip(g, Point { x: 0, y: 0 }, ci);
            } else {
                assert(open2[if i < k { i } else { i - 1 }].1 == g.point_at(e));
            }
        }
    }
}

/// Giving cell `mi` the score `v` and the matching open entry keeps estimates exact and
/// expanded cells consistent.
proof fn lemma_relax_exact<Tile: ContextInto<Traversable>>(
    g: GridView<Tile>,
    context: &<Tile as ContextInto<Traversable>>::Context,
    to: Point,
    disc: Seq<bool>,
    gs: Seq<usize>,
    expd: Seq<bool>,
    open: Seq<(u128, Point)>,
    ci: int,
    mi: int,
    m: Point,
    pos: int,
    f: u128,
    v: usize,
)
    requires
        g.wf(),
        disc.len() == g.tiles.len(),
        gs.len() == g.tiles.len(),
        0 <= ci < g.tiles.len(),
        0 <= mi < g.tiles.len(),
        mi != ci,
        m == g.point_at(mi),
        0 <= pos <= open.len(),
        pos < open.len() ==> open[pos].1 == m,
        pos == open.len() ==> !in_open(open, m),
        f == v + manhattan((m.x as int, m.y as int), (to.x as int, to.y as int)),
        disc[mi] ==> v < gs[mi],
        open_ok(g, disc, open),
        open_exact(g, gs, open, to),
        consistent_ok(g, context, disc, gs, expd, open, ci),
        !in_open(open, g.point_at(ci)),
    ensures
        open_exact(
            g,
            gs.update(mi, v),
            if pos < open.len() { open.update(pos, (f, m)) } else { open.push((f, m)) },
            to,
        ),
        consistent_ok(
            g,
            context,
            disc.update(mi, true),
            gs.update(mi, v),
            expd,
            if pos < open.len() { open.update(pos, (f, m)) } else { open.push((f, m)) },
            ci,
        ),
        !in_open(if pos < open.len() { open.update(pos, (f, m)) } else { open.push((f, m)) }, g.point_at(ci)),
{
    reveal(open_exact);
    reveal(consistent_ok);
    reveal(open_ok);
    let open2 = if pos < open.len() { open.update(pos, (f, m)) } else { open.push((f, m)) };
    let gs2 = gs.update(mi, v);
    let disc2 = disc.update(mi, true);
    lemma_point_index_round_trip(g, m, mi);
    lemma_point_index_round_trip(g, Point { x: 0, y: 0 }, ci);
    assert forall|p: Point| #[trigger] in_open(open2, p) implies in_open(open, p) || p == m by {
        let i = choose|i: int| 0 <= i < open2.len() && open2[i].1 == p;
        if i != pos {
            assert(open2[i] == open[i]);
        }
    }
    assert forall|p: Point| #[trigger] in_open(open, p) implies in_open(open2, p) by {
        let i = choose|i: int| 0 <= i < open.len() && open[i].1 == p;
        assert(open2[i].1 == p);
    }
    assert(in_open(open2, m)) by {
        assert(open2[pos].1 == m);
    }
    assert forall|i: int, j: int| 0 <= i < open2.len() && 0 <= j < open2.len() && i != j implies open2[i].1 != open2[j].1 by {
        if i != pos && j != pos {
            assert(open2[i] == open[i] && open2[j] == open[j]);
        } else if i == pos && pos < open.len() {
            assert(open2[j] == open[j]);
        } else if j == pos && pos < open.len() {
            assert(open2[i] == open[i]);
        } else if i == pos {
            assert(open2[j] == open[j]);
            assert(in_open(open, open[j].1));
        } else {
            assert(open2[i] == open[i]);
            assert(in_open(open, open[i].1));
        }
    }
    assert forall|i: int| 0 <= i < open2.len() implies (#[trigger] open2[i]).0 == gs2[g.index_of(open2[i].1.x as int, open2[i].1.y as int)]
        + manhattan((open2[i].1.x as int, open2[i].1.y as int), (to.x as int, to.y as int)) by {
        if i != pos {
            assert(open2[i] == open[i]);
            lemma_point_index_round_trip(g, open[i].1, 0);
            if g.index_of(open[i].1.x as int, open[i].1.y as int) == mi {
                assert(open[i].1 == m);
            }
        }
    }
    assert forall|e: int, n: Point|
        0 <= e < g.tiles.len() && e != ci && expd[e] && !in_open(open2, g.point_at(e)) && #[trigger] neighbours(g, g.point_at(e)).contains(n)
            && class_at(g, context, n) != Traversable::Obstructed implies disc2[g.index_of(n.x as int, n.y as int)] && gs2[g.index_of(
        n.x as int,
        n.y as int,
    )] <= gs2[e] + 1 by {
        assert(g.point_at(e) != m);
        assert(!in_open(open, g.point_at(e)));
        assert(e != mi);
        lemma_keep_in_bounds(g, orthogonal_candidates(g.point_at(e)));
        lemma_point_index_round_trip(g, n, 0);
    }
}

/// Once every unobstructed neighbour of cell `ci` scores at most one above it, marking
/// `ci` expanded keeps every expanded cell consistent.
proof fn lemma_close_consistent<Tile: ContextInto<Traversable>>(
    g: GridView<Tile>,
    context: &<Tile as ContextInto<Traversable>>::Context,
    disc: Seq<bool>,
    gs: Seq<usize>,
    expd: Seq<bool>,
    open: Seq<(u128, Point)>,
    ci: int,
)
    requires
        0 <= ci < g.tiles.len(),
        expd.len() == g.tiles.len(),
        consistent_ok(g, context, disc, gs, expd, open, ci),
        forall|m: Point|
            #[trigger] neighbours(g, g.point_at(ci)).contains(m) && class_at(g, context, m) != Traversable::Obstructed ==> disc[g.index_of(
                m.x as int,
                m.y as int,
            )] && gs[g.index_of(m.x as int, m.y as int)] <= gs[ci] + 1,
    ensures
        consistent_ok(g, context, disc, gs, expd.update(ci, true), open, -1),
{
    reveal(consistent_ok);
    let expd2 = expd.update(ci, true);
    assert forall|e: int, m: Point|
        0 <= e < g.tiles.len() && e != -1 && expd2[e] && !in_open(open, g.point_at(e)) && #[trigger] neighbours(g, g.point_at(e)).contains(m)
            && class_at(g, context, m) != Traversable::Obstructed implies disc[g.index_of(m.x as int, m.y as int)] && gs[g.index_of(
        m.x as int,
        m.y as int,
    )] <= gs[e] + 1 by {
        if e != ci {
            assert(expd[e]);
        }
    }
}

/// A vector of `n` copies of `v`.
fn filled<T: Copy>(v: T, n: usize) -> (r: Vec<T>)
    ensures
        r@ == Seq::new(n as nat, |_i: int| v),
{
    let mut r: Vec<T> = Vec::with_capacity(n);
    let mut i: usize = 0;
    while i < n
        invariant
            i <= n,
            r@ =~= Seq::new(i as nat, |_i: int| v),
        decreases n - i,
    {
        r.push(v);
        i += 1;
    }
    r
}

proof fn lemma_count_unset_none(n: nat)
    ensures
        count_unset(Seq::new(n, |_i: int| false)) == n,
    decreases n,
{
    if n > 0 {
        lemma_count_unset_none((n - 1) as nat);
        assert(Seq::new(n, |_i: int| false).drop_last() =~= Seq::new((n - 1) as nat, |_i: int| false));
    }
}

/// The predecessor recorded for cell `c` is a discovered neighbour with a lower score, and
/// `c` itself is not obstructed.
pub open spec fn came_ok<Tile: ContextInto<Traversable>>(
    g: GridView<Tile>,
    context: &<Tile as ContextInto<Traversable>>::Context,
    disc: Seq<bool>,
    gs: Seq<usize>,
    came: Seq<Option<(Direction, usize)>>,
    c: int,
) -> bool {
    match came[c] {
        Some((d, p)) => {
            &&& p < g.tiles.len()
            &&& disc[p as int]
            &&& gs[p as int] < gs[c]
            &&& step_into(g, context, p as int, d, c)
        },
        None => false,
    }
}

/// Cell `c` is one step in direction `d` from cell `p`, and is not obstructed.
#[verifier::opaque]
pub open spec fn step_into<Tile: ContextInto<Traversable>>(
    g: GridView<Tile>,
    context: &<Tile as ContextInto<Traversable>>::Context,
    p: int,
    d: Direction,
    c: int,
) -> bool {
    &&& g.point_at(c).x == g.point_at(p).x + dx(d)
    &&& g.point_at(c).y == g.point_at(p).y + dy(d)
    &&& class_at(g, context, g.point_at(c)) != Traversable::Obstructed
}

/// Every unobstructed neighbour of cell `c` is discovered.
pub open spec fn closed_at<Tile: ContextInto<Traversable>>(
    g: GridView<Tile>,
    context: &<Tile as ContextInto<Traversable>>::Context,
    disc: Seq<bool>,
    c: int,
) -> bool {
    forall|m: Point|
        #[trigger] neighbours(g, g.point_at(c)).contains(m) && class_at(g, context, m) != Traversable::Obstructed ==> disc[g.index_of(
            m.x as int,
            m.y as int,
        )]
}

/// Scores of discovered cells stay below the number of discovered cells.
#[verifier::opaque]
pub open spec fn scores_ok<Tile>(g: GridView<Tile>, disc: Seq<bool>, gs: Seq<usize>, count: int) -> bool {
    forall|c: int| 0 <= c < g.tiles.len() && #[trigger] disc[c] ==> gs[c] < count
}

/// Every discovered cell but the start has a recorded predecessor.
#[verifier::opaque]
pub open spec fn preds_ok<Tile: ContextInto<Traversable>>(
    g: GridView<Tile>,
    context: &<Tile as ContextInto<Traversable>>::Context,
    fi: int,
    disc: Seq<bool>,
    gs: Seq<usize>,
    came: Seq<Option<(Direction, usize)>>,
) -> bool {
    forall|c: int| 0 <= c < g.tiles.len() && #[trigger] disc[c] && c != fi ==> came_ok(g, context, disc, gs, came, c)
}

/// Every expanded cell is discovered, is not the goal, and has all its unobstructed
/// neighbours discovered.
#[verifier::opaque]
pub open spec fn expanded_ok<Tile: ContextInto<Traversable>>(
    g: GridView<Tile>,
    context: &<Tile as ContextInto<Traversable>>::Context,
    ti: int,
    disc: Seq<bool>,
    expd: Seq<bool>,
) -> bool {
    forall|c: int| 0 <= c < g.tiles.len() && #[trigger] expd[c] ==> disc[c] && c != ti && closed_at(g, context, disc, c)
}

/// Every discovered cell but `skip` is expanded or waits in the open set.
#[verifier::opaque]
pub open spec fn frontier_ok<Tile>(
    g: GridView<Tile>,
    disc: Seq<bool>,
    expd: Seq<bool>,
    open: Seq<(u128, Point)>,
    skip: int,
) -> bool {
    forall|c: int|
        0 <= c < g.tiles.len() && #[trigger] disc[c] && c != skip ==> expd[c] || exists|i: int|
            0 <= i < open.len() && open[i].1 == g.point_at(c)
}

/// Every entry of the open set is an in-bounds discovered point.
#[verifier::opaque]
pub open spec fn open_ok<Tile>(g: GridView<Tile>, disc: Seq<bool>, open: Seq<(u128, Point)>) -> bool {
    forall|i: int| 0 <= i < open.len() ==> g.in_bounds(#[trigger] open[i].1) && disc[g.index_of(open[i].1.x as int, open[i].1.y as int)]
}

/// `a` comes before `b` in the open set: lower estimate first, then lower point.
pub open spec fn entry_before(a: (u128, Point), b: (u128, Point)) -> bool {
    a.0 < b.0 || (a.0 == b.0 && (a.1.y < b.1.y || (a.1.y == b.1.y && a.1.x < b.1.x)))
}

/// Position of the first entry of `open` that no other entry comes before.
fn min_entry(open: &Vec<(u128, Point)>) -> (k: usize)
    requires
        open@.len() > 0,
    ensures
        k < open@.len(),
        forall|i: int| 0 <= i < open@.len() ==> !entry_before(#[trigger] open@[i], open@[k as int]),
{
    let mut k: usize = 0;
    let mut i: usize = 1;
    while i < open.len()
        invariant
            0 < i <= open@.len(),
            k < i,
            forall|j: int| 0 <= j < i ==> !entry_before(#[trigger] open@[j], open@[k as int]),
        decreases open@.len() - i,
    {
        let (fa, pa) = open[i];
        let (fb, pb) = open[k];
        if fa < fb || (fa == fb && (pa.y < pb.y || (pa.y == pb.y && pa.x < pb.x))) {
            k = i;
        }
        i += 1;
    }
    k
}

/// Relaxing cell `mi` from cell `ci` keeps scores below the discovered count.
proof fn lemma_relax_scores<Tile>(g: GridView<Tile>, disc: Seq<bool>, gs: Seq<usize>, count: int, ci: int, mi: int, fresh: bool)
    requires
        disc.len() == g.tiles.len(),
        gs.len() == g.tiles.len(),
        0 <= ci < g.tiles.len(),
        0 <= mi < g.tiles.len(),
        disc[ci],
        ci != mi,
        fresh == !disc[mi],
        !fresh ==> gs[ci] + 1 < gs[mi],
        gs[ci] + 1 <= usize::MAX,
        scores_ok(g, disc, gs, count),
    ensures
        scores_ok(g, disc.update(mi, true), gs.update(mi, (gs[ci] + 1) as usize), if fresh { count + 1 } else { count }),
{
    reveal(scores_ok);
}

/// Relaxing cell `mi` from its neighbour `ci` keeps every predecessor record sound.
#[verifier::rlimit(40)]
proof fn lemma_relax_preds<Tile: ContextInto<Traversable>>(
    g: GridView<Tile>,
    context: &<Tile as ContextInto<Traversable>>::Context,
    fi: int,
    disc: Seq<bool>,
    gs: Seq<usize>,
    came: Seq<Option<(Direction, usize)>>,
    ci: int,
    d: Direction,
    mi: int,
    fresh: bool,
)
    requires
        g.wf(),
        disc.len() == g.tiles.len(),
        gs.len() == g.tiles.len(),
        came.len() == g.tiles.len(),
        g.tiles.len() <= usize::MAX,
        0 <= ci < g.tiles.len(),
        0 <= mi < g.tiles.len(),
        0 <= fi < g.tiles.len(),
        disc[ci],
        disc[fi],
        gs[fi] == 0,
        ci != mi,
        fresh == !disc[mi],
        !fresh ==> gs[ci] + 1 < gs[mi],
        gs[ci] + 1 <= usize::MAX,
        step_into(g, context, ci, d, mi),
        preds_ok(g, context, fi, disc, gs, came),
    ensures
        preds_ok(
            g,
            context,
            fi,
            disc.update(mi, true),
            gs.update(mi, (gs[ci] + 1) as usize),
            came.update(mi, Some((d, ci as usize))),
        ),
        mi != fi,
{
    reveal(preds_ok);
    let disc2 = disc.update(mi, true);
    let gs2 = gs.update(mi, (gs[ci] + 1) as usize);
    let came2 = came.update(mi, Some((d, ci as usize)));
    assert forall|c: int| 0 <= c < g.tiles.len() && #[trigger] disc2[c] && c != fi implies came_ok(g, context, disc2, gs2, came2, c) by {
        if c != mi {
            assert(disc[c]);
            assert(came_ok(g, context, disc, gs, came, c));
            assert(came2[c] == came[c]);
            assert(gs2[c] == gs[c]);
            let (d2, p) = came[c].unwrap();
            assert(disc2[p as int]);
            assert(gs2[p as int] <= gs[p as int]);
        } else {
            assert(came2[c] == Some((d, ci as usize)));
            assert(gs2[ci] == gs[ci]);
        }
    }
}

/// Relaxation keeps expanded cells closed, since it only adds discovered cells.
proof fn lemma_relax_expanded<Tile: ContextInto<Traversable>>(
    g: GridView<Tile>,
    context: &<Tile as ContextInto<Traversable>>::Context,
    ti: int,
    disc: Seq<bool>,
    expd: Seq<bool>,
    mi: int,
)
    requires
        g.wf(),
        disc.len() == g.tiles.len(),
        0 <= mi < g.tiles.len(),
        expanded_ok(g, context, ti, disc, expd),
    ensures
        expanded_ok(g, context, ti, disc.update(mi, true), expd),
{
    reveal(expanded_ok);
    let disc2 = disc.update(mi, true);
    assert forall|c: int| 0 <= c < g.tiles.len() && #[trigger] expd[c] implies disc2[c] && c != ti && closed_at(g, context, disc2, c) by {
        assert forall|m: Point|
            #[trigger] neighbours(g, g.point_at(c)).contains(m) && class_at(g, context, m) != Traversable::Obstructed implies disc2[g.index_of(
            m.x as int,
            m.y as int,
        )] by {
            lemma_keep_in_bounds(g, orthogonal_candidates(g.point_at(c)));
            lemma_point_index_round_trip(g, m, 0);
            assert(disc[g.index_of(m.x as int, m.y as int)]);
        }
    }
}

/// Putting `m` (the point of cell `mi`) into the open set, at `pos` or at the end, keeps the
/// frontier and open-set facts.
proof fn lemma_relax_open<Tile>(
    g: GridView<Tile>,
    disc: Seq<bool>,
    expd: Seq<bool>,
    open: Seq<(u128, Point)>,
    skip: int,
    mi: int,
    m: Point,
    pos: int,
    f: u128,
)
    requires
        g.wf(),
        disc.len() == g.tiles.len(),
        0 <= mi < g.tiles.len(),
        m == g.point_at(mi),
        0 <= pos <= open.len(),
        pos < open.len() ==> open[pos].1 == m,
        frontier_ok(g, disc, expd, open, skip),
        open_ok(g, disc, open),
    ensures
        frontier_ok(
            g,
            disc.update(mi, true),
            expd,
            if pos < open.len() { open.update(pos, (f, m)) } else { open.push((f, m)) },
            skip,
        ),
        open_ok(g, disc.update(mi, true), if pos < open.len() { open.update(pos, (f, m)) } else { open.push((f, m)) }),
{
    reveal(frontier_ok);
    reveal(open_ok);
    let disc2 = disc.update(mi, true);
    let open2 = if pos < open.len() { open.update(pos, (f, m)) } else { open.push((f, m)) };
    lemma_point_index_round_trip(g, m, mi);
    assert forall|c: int| 0 <= c < g.tiles.len() && #[trigger] disc2[c] && c != skip implies expd[c] || exists|i: int|
        0 <= i < open2.len() && open2[i].1 == g.point_at(c) by {
        if c == mi {
            if pos < open.len() {
                assert(open2[pos].1 == g.point_at(c));
            } else {
                assert(open2[open.len() as int].1 == g.point_at(c));
            }
        } else {
            assert(disc[c]);
            if !expd[c] {
                let i = choose|i: int| 0 <= i < open.len() && open[i].1 == g.point_at(c);
                assert(open2[i].1 == g.point_at(c));
            }
        }
    }
    assert forall|i: int| 0 <= i < open2.len() implies g.in_bounds(#[trigger] open2[i].1) && disc2[g.index_of(
        open2[i].1.x as int,
        open2[i].1.y as int,
    )] by {
        if i < open.len() && i != pos {
            assert(open2[i] == open[i]);
            lemma_point_index_round_trip(g, open[i].1, 0);
        }
    }
}

/// Taking entry `k`, the point of cell `ci`, out of the open set leaves `ci` as the only
/// discovered cell that may be neither expanded nor open.
proof fn lemma_pop_open<Tile>(
    g: GridView<Tile>,
    disc: Seq<bool>,
    expd: Seq<bool>,
    open: Seq<(u128, Point)>,
    k: int,
    ci: int,
)
    requires
        g.wf(),
        0 <= k < open.len(),
        0 <= ci < g.tiles.len(),
        open[k].1 == g.point_at(ci),
        frontier_ok(g, disc, expd, open, -1),
        open_ok(g, disc, open),
    ensures
        frontier_ok(g, disc, expd, open.remove(k), ci),
        open_ok(g, disc, open.remove(k)),
{
    reveal(frontier_ok);
    reveal(open_ok);
    let open2 = open.remove(k);
    assert forall|c: int| 0 <= c < g.tiles.len() && #[trigger] disc[c] && c != ci implies expd[c] || exists|i: int|
        0 <= i < open2.len() && open2[i].1 == g.point_at(c) by {
        if !expd[c] {
            let i = choose|i: int| 0 <= i < open.len() && open[i].1 == g.point_at(c);
            if i == k {
                lemma_point_index_round_trip(g, g.point_at(c), c);
                lemma_point_index_round_trip(g, g.point_at(ci), ci);
            } else if i < k {
                assert(open2[i] == open[i]);
            } else {
                assert(open2[i - 1] == open[i]);
            }
        }
    }
    assert forall|i: int| 0 <= i < open2.len() implies g.in_bounds(#[trigger] open2[i].1) && disc[g.index_of(
        open2[i].1.x as int,
        open2[i].1.y as int,
    )] by {
        if i < k {
            assert(open2[i] == open[i]);
        } else {
            assert(open2[i] == open[i + 1]);
        }
    }
}

/// Marking cell `ci` expanded once its neighbours are discovered.
proof fn lemma_expand<Tile: ContextInto<Traversable>>(
    g: GridView<Tile>,
    context: &<Tile as ContextInto<Traversable>>::Context,
    ti: int,
    disc: Seq<bool>,
    expd: Seq<bool>,
    open: Seq<(u128, Point)>,
    ci: int,
)
    requires
        0 <= ci < g.tiles.len(),
        expd.len() == g.tiles.len(),
        disc[ci],
        ci != ti,
        closed_at(g, context, disc, ci),
        frontier_ok(g, disc, expd, open, ci),
        expanded_ok(g, context, ti, disc, expd),
    ensures
        frontier_ok(g, disc, expd.update(ci, true), open, -1),
        expanded_ok(g, context, ti, disc, expd.update(ci, true)),
{
    reveal(frontier_ok);
    reveal(expanded_ok);
    let expd2 = expd.update(ci, true);
    assert forall|c: int| 0 <= c < g.tiles.len() && #[trigger] disc[c] && c != -1 implies expd2[c] || exists|i: int|
        0 <= i < open.len() && open[i].1 == g.point_at(c) by {
        if c != ci {
            assert(expd2[c] == expd[c]);
        }
    }
    assert forall|c: int| 0 <= c < g.tiles.len() && #[trigger] expd2[c] implies disc[c] && c != ti && closed_at(g, context, disc, c) by {
        if c != ci {
            assert(expd[c]);
        }
    }
}

/// When every discovered cell is expanded, every walk from the start ends on a
/// discovered cell.
proof fn lemma_walk_discovered<Tile: ContextInto<Traversable>>(
    g: GridView<Tile>,
    context: &<Tile as ContextInto<Traversable>>::Context,
    ti: int,
    from: Point,
    disc: Seq<bool>,
    expd: Seq<bool>,
    path: Seq<Direction>,
)
    requires
        g.wf(),
        g.in_bounds(from),
        disc.len() == g.tiles.len(),
        disc[g.index_of(from.x as int, from.y as int)],
        forall|c: int| 0 <= c < g.tiles.len() && #[trigger] disc[c] ==> expd[c],
        expanded_ok(g, context, ti, disc, expd),
        path_ok(g, context, from, path),
    ensures
        g.contains(walk_end(from, path).0, walk_end(from, path).1),
        disc[g.index_of(walk_end(from, path).0, walk_end(from, path).1)],
    decreases path.len(),
{
    if path.len() > 0 {
        lemma_walk_discovered(g, context, ti, from, disc, expd, path.drop_last());
        let w0 = walk_end(from, path.drop_last());
        let w = walk_end(from, path);
        let p = Point { x: w0.0 as i32, y: w0.1 as i32 };
        let q = Point { x: w.0 as i32, y: w.1 as i32 };
        let c = g.index_of(w0.0, w0.1);
        lemma_point_index_round_trip(g, p, 0);
        assert(g.point_at(c) == p);
        reveal(expanded_ok);
        assert(expd[c]);
        assert(closed_at(g, context, disc, c));
        let d = path.last();
        // `q` is the orthogonal candidate of `p` in direction `d`.
        let cands = orthogonal_candidates(p);
        assert(cands == orthogonal_order().map_values(|e: Direction| (p.x + dx(e), p.y + dy(e))));
        let k: int = match d {
            Direction::Up => 0,
            Direction::Down => 1,
            Direction::Left => 2,
            Direction::Right => 3,
        };
        assert(orthogonal_order()[k] == d);
        assert(cands[k] == (w.0, w.1));
        lemma_keep_in_bounds_has(g, cands, k);
        assert(neighbours(g, p).contains(q));
    }
}

/// Position of the first open entry at point `m`, or the length of the open set.
fn find_open(open: &Vec<(u128, Point)>, m: Point) -> (r: usize)
    ensures
        r <= open@.len(),
        r < open@.len() ==> open@[r as int].1 == m,
        r == open@.len() ==> !in_open(open@, m),
{
    let mut i: usize = 0;
    while i < open.len()
        invariant
            i <= open@.len(),
            forall|j: int| 0 <= j < i ==> (#[trigger] open@[j]).1 != m,
        decreases open@.len() - i,
    {
        if open[i].1 == m {
            return i;
        }
        i += 1;
    }
    i
}

/// Cost so far plus the Manhattan distance that remains.
fn estimate(cost: usize, at: Point, goal: Point) -> (r: u128)
    ensures
        r == cost + manhattan((at.x as int, at.y as int), (goal.x as int, goal.y as int)),
{
    let ddx = goal.x as i64 - at.x as i64;
    let ddy = goal.y as i64 - at.y as i64;
    let ax: i64 = if ddx < 0 {
        -ddx
    } else {
        ddx
    };
    let ay: i64 = if ddy < 0 {
        -ddy
    } else {
        ddy
    };
    cost as u128 + ax as u128 + ay as u128
}

impl<Tile: Copy + ContextInto<Traversable>> Grid<Tile> {
    /// Classify the tile at an in-bounds point.
    fn class_of(&self, context: &<Tile as ContextInto<Traversable>>::Context, point: Point) -> (r: Traversable)
        requires
            self.wf(),
            self@.in_bounds(point),
        ensures
            r == class_at(self@, context, point),
    {
        let tile = *self.at(point);
        tile.ctx_into(point, context)
    }

    /// Walk the recorded predecessors back from the goal cell `ti` to the start.
    fn reconstruct(
        &self,
        context: &<Tile as ContextInto<Traversable>>::Context,
        from: Point,
        to: Point,
        fi: usize,
        ti: usize,
        disc: &Vec<bool>,
        gs: &Vec<usize>,
        came: &Vec<Option<(Direction, usize)>>,
    ) -> (path: Vec<Direction>)
        requires
            self.wf(),
            self@.in_bounds(from),
            self@.in_bounds(to),
            fi == self@.index_of(from.x as int, from.y as int),
            ti == self@.index_of(to.x as int, to.y as int),
            fi < self@.tiles.len(),
            ti < self@.tiles.len(),
            disc@.len() == self@.tiles.len(),
            gs@.len() == self@.tiles.len(),
            came@.len() == self@.tiles.len(),
            disc@[ti as int],
            came@[fi as int] is None,
            preds_ok(self@, context, fi as int, disc@, gs@, came@),
        ensures
            path_ok(self@, context, from, path@),
            walk_end(from, path@) == (to.x as int, to.y as int),
            path@.len() <= gs@[ti as int],
    {
        let ghost g = self@;
        let mut back: Vec<Direction> = Vec::new();
        let mut cur: usize = ti;
        proof {
            lemma_point_index_round_trip(g, to, 0);
            lemma_point_index_round_trip(g, from, 0);
            assert(reversed(back@) =~= Seq::<Direction>::empty());
        }
        while came[cur].is_some()
            invariant
                self.wf(),
                g == self@,
                cur < g.tiles.len(),
                disc@.len() == g.tiles.len(),
                gs@.len() == g.tiles.len(),
                came@.len() == g.tiles.len(),
                disc@[cur as int],
                path_ok(g, context, g.point_at(cur as int), reversed(back@)),
                walk_end(g.point_at(cur as int), reversed(back@)) == (to.x as int, to.y as int),
                preds_ok(g, context, fi as int, disc@, gs@, came@),
                came@[fi as int] is None,
                ti < g.tiles.len(),
                back@.len() + gs@[cur as int] <= gs@[ti as int],
            decreases gs@[cur as int],
        {
            let (d, p) = came[cur].unwrap();
            proof {
                reveal(preds_ok);
                assert(came_ok(g, context, disc@, gs@, came@, cur as int));
                reveal(step_into);
                lemma_point_index_round_trip(g, g.point_at(cur as int), cur as int);
                lemma_prepend_step(g, context, g.point_at(p as int), d, g.point_at(cur as int), reversed(back@));
                assert(reversed(back@.push(d)) =~= seq![d] + reversed(back@));
            }
            back.push(d);
            cur = p;
        }
        proof {
            reveal(preds_ok);
            if cur != fi {
                assert(came_ok(g, context, disc@, gs@, came@, cur as int));
            }
        }
        let mut path: Vec<Direction> = Vec::new();
        let len = back.len();
        assert(len <= gs@[ti as int]);
        let mut i: usize = 0;
        while i < len
            invariant
                len == back@.len(),
                i <= len,
                path@ =~= reversed(back@).subrange(0, i as int),
            decreases len - i,
        {
            path.push(back[len - 1 - i]);
            i += 1;
        }
        proof {
            assert(path@ =~= reversed(back@));
        }
        path
    }

    /// A* from an in-bounds start.
    fn search_from_inside(
        &self,
        context: &<Tile as ContextInto<Traversable>>::Context,
        from: Point,
        to: Point,
    ) -> (r: Option<Vec<Direction>>)
        requires
            self.wf(),
            self@.in_bounds(from),
        ensures
            r is Some <==> from == to || reachable(self@, context, from, to),
            r matches Some(path) ==> path_ok(self@, context, from, path@) && walk_end(from, path@) == (
                to.x as int,
                to.y as int,
            ),
            r matches Some(path) ==> forall|other: Seq<Direction>|
                path_ok(self@, context, from, other) && walk_end(from, other) == (to.x as int, to.y as int) ==> path@.len()
                    <= other.len(),
    {
        if from == to {
            let path: Vec<Direction> = Vec::new();
            return Some(path);
        }
        let ghost g = self@;
        if !self.in_bounds(to) {
            proof {
                if reachable(g, context, from, to) {
                    let path = choose|path: Seq<Direction>| path_ok(g, context, from, path) && walk_end(from, path) == (to.x as int, to.y as int);
                    assert(path.len() > 0);
                }
            }
            return None;
        }
        let n = self.tiles().len();
        let fi = self.index_of_wide(from.x as i64, from.y as i64);
        let ti = self.index_of_wide(to.x as i64, to.y as i64);
        proof {
            lemma_point_index_round_trip(g, from, 0);
            lemma_point_index_round_trip(g, to, 0);
            lemma_count_unset_none(n as nat);
            lemma_count_unset_set(Seq::new(n as nat, |_i: int| false), fi as int);
        }
        let mut disc = filled(false, n);
        disc.set(fi, true);
        let mut expd = filled(false, n);
        let mut gs = filled(0usize, n);
        let mut came: Vec<Option<(Direction, usize)>> = filled(None, n);
        let mut count: usize = 1;
        let mut open: Vec<(u128, Point)> = Vec::new();
        open.push((estimate(0, from, to), from));
        let dirs = Direction::iter();
        proof {
            reveal(scores_ok);
            reveal(preds_ok);
            reveal(expanded_ok);
            reveal(frontier_ok);
            reveal(open_ok);
            reveal(open_exact);
            reveal(consistent_ok);
            assert(disc@ =~= Seq::new(n as nat, |_i: int| false).update(fi as int, true));
            assert forall|c: int| 0 <= c < n && #[trigger] disc@[c] && c != -1 implies expd@[c] || exists|i: int|
                0 <= i < open@.len() && open@[i].1 == g.point_at(c) by {
                assert(c == fi);
                assert(open@[0].1 == g.point_at(c));
            }
        }
        while open.len() > 0
            invariant
                self.wf(),
                g == self@,
                n == g.tiles.len(),
                g.in_bounds(from),
                g.in_bounds(to),
                from != to,
                fi == g.index_of(from.x as int, from.y as int),
                ti == g.index_of(to.x as int, to.y as int),
                fi < n,
                ti < n,
                fi != ti,
                g.point_at(fi as int) == from,
                g.point_at(ti as int) == to,
                disc@.len() == n,
                expd@.len() == n,
                gs@.len() == n,
                came@.len() == n,
                disc@[fi as int],
                gs@[fi as int] == 0,
                came@[fi as int] is None,
                count + count_unset(disc@) == n,
                scores_ok(g, disc@, gs@, count as int),
                preds_ok(g, context, fi as int, disc@, gs@, came@),
                expanded_ok(g, context, ti as int, disc@, expd@),
                frontier_ok(g, disc@, expd@, open@, -1),
                open_ok(g, disc@, open@),
                open_exact(g, gs@, open@, to),
                consistent_ok(g, context, disc@, gs@, expd@, open@, -1),
                dirs@ == orthogonal_order(),
            decreases count_unset(disc@), sum(gs@), open@.len(),
        {
            let k = min_entry(&open);
            let ghost open0 = open@;
            let (_, c) = open.remove(k);
            proof {
                reveal(open_ok);
                assert(g.in_bounds(open0[k as int].1));
            }
            let ci = self.index_of_wide(c.x as i64, c.y as i64);
            proof {
                lemma_point_index_round_trip(g, c, ci as int);
                lemma_pop_open(g, disc@, expd@, open0, k as int, ci as int);
                lemma_pop_exact(g, context, to, disc@, gs@, expd@, open0, k as int, ci as int);
                reveal(open_ok);
                assert(disc@[ci as int]);
                reveal(scores_ok);
            }
            if ci == ti {
                proof {
                    assert forall|other: Seq<Direction>|
                        path_ok(g, context, from, other) && walk_end(from, other) == (to.x as int, to.y as int) implies gs@[ti as int]
                            <= other.len() by {
                        lemma_goal_score_is_least(g, context, from, to, disc@, gs@, expd@, open0, k as int, other);
                    }
                }
                let path = self.reconstruct(context, from, to, fi, ti, &disc, &gs, &came);
                return Some(path);
            }
            let gc = gs[ci];
            let ghost cu0 = count_unset(disc@);
            let ghost s0 = sum(gs@);
            let ghost len0 = open0.len();
            let mut j: usize = 0;
            while j < dirs.len()
                invariant
                    self.wf(),
                    g == self@,
                    n == g.tiles.len(),
                    g.in_bounds(from),
                    g.in_bounds(to),
                    fi == g.index_of(from.x as int, from.y as int),
                    ti == g.index_of(to.x as int, to.y as int),
                    fi < n,
                    ti < n,
                    ci < n,
                    ci != ti,
                    g.point_at(ci as int) == c,
                    g.in_bounds(c),
                    disc@.len() == n,
                    expd@.len() == n,
                    gs@.len() == n,
                    came@.len() == n,
                    disc@[fi as int],
                    disc@[ci as int],
                    gs@[ci as int] == gc,
                    gs@[fi as int] == 0,
                    came@[fi as int] is None,
                    count + count_unset(disc@) == n,
                    scores_ok(g, disc@, gs@, count as int),
                    preds_ok(g, context, fi as int, disc@, gs@, came@),
                    expanded_ok(g, context, ti as int, disc@, expd@),
                    frontier_ok(g, disc@, expd@, open@, ci as int),
                    open_ok(g, disc@, open@),
                    dirs@ == orthogonal_order(),
                    j <= dirs@.len(),
                    gc < count,
                    forall|i: int|
                        0 <= i < j && g.contains(orthogonal_candidates(c)[i].0, orthogonal_candidates(c)[i].1) && class_at(
                            g,
                            context,
                            Point { x: orthogonal_candidates(c)[i].0 as i32, y: orthogonal_candidates(c)[i].1 as i32 },
                        ) != Traversable::Obstructed ==> disc@[g.index_of(orthogonal_candidates(c)[i].0, orthogonal_candidates(c)[i].1)],
                    count_unset(disc@) < cu0 || (count_unset(disc@) == cu0 && (sum(gs@) < s0 || (sum(gs@) == s0
                        && open@.len() < len0))),
                    open_exact(g, gs@, open@, to),
                    consistent_ok(g, context, disc@, gs@, expd@, open@, ci as int),
                    !in_open(open@, c),
                    forall|i: int|
                        0 <= i < j && g.contains(orthogonal_candidates(c)[i].0, orthogonal_candidates(c)[i].1) && class_at(
                            g,
                            context,
                            Point { x: orthogonal_candidates(c)[i].0 as i32, y: orthogonal_candidates(c)[i].1 as i32 },
                        ) != Traversable::Obstructed ==> gs@[g.index_of(orthogonal_candidates(c)[i].0, orthogonal_candidates(c)[i].1)] <= gc + 1,
                decreases dirs@.len() - j,
            {
                let d = dirs[j];
                let (ddx, ddy) = d.deltas();
                let nx = c.x as i64 + ddx as i64;
                let ny = c.y as i64 + ddy as i64;
                let ghost cand = orthogonal_candidates(c)[j as int];
                let ghost disc_before = disc@;
                let ghost gs_before = gs@;
                let ghost mi_ghost: int = g.index_of(cand.0, cand.1);
                assert(cand == (nx as int, ny as int));
                if self.contains_wide(nx, ny) {
                    let m = Point::new(nx as i32, ny as i32);
                    let mi = self.index_of_wide(nx, ny);
                    proof {
                        lemma_point_index_round_trip(g, m, mi as int);
                    }
                    if self.class_of(context, m) != Traversable::Obstructed {
                        let tentative = gc + 1;
                        let fresh = !disc[mi];
                        if fresh || tentative < gs[mi] {
                            proof {
                                reveal(step_into);
                                assert(step_into(g, context, ci as int, d, mi as int));
                                lemma_relax_scores(g, disc@, gs@, count as int, ci as int, mi as int, fresh);
                                lemma_relax_preds(g, context, fi as int, disc@, gs@, came@, ci as int, d, mi as int, fresh);
                                lemma_relax_expanded(g, context, ti as int, disc@, expd@, mi as int);
                                lemma_sum_update(gs@, mi as int, tentative);
                                if fresh {
                                    lemma_count_unset_set(disc@, mi as int);
                                } else {
                                    assert(disc@.update(mi as int, true) =~= disc@);
                                }
                            }
                            let f = estimate(tentative, m, to);
                            let pos = find_open(&open, m);
                            proof {
                                lemma_relax_open(g, disc@, expd@, open@, ci as int, mi as int, m, pos as int, f);
                                lemma_relax_exact(g, context, to, disc@, gs@, expd@, open@, ci as int, mi as int, m, pos as int, f, tentative);
                            }
                            disc.set(mi, true);
                            gs.set(mi, tentative);
                            came.set(mi, Some((d, ci)));
                            if fresh {
                                count = count + 1;
                            }
                            if pos < open.len() {
                                open.set(pos, (f, m));
                            } else {
                                open.push((f, m));
                            }
                        }
                    }
                }
                proof {
                    assert(forall|x: int| 0 <= x < n && disc_before[x] ==> disc@[x]);
                    assert(forall|x: int| 0 <= x < n && x != mi_ghost ==> gs@[x] == gs_before[x]);
                    assert(0 <= mi_ghost < n && g.contains(cand.0, cand.1) && class_at(g, context, Point { x: cand.0 as i32, y: cand.1 as i32 })
                        != Traversable::Obstructed ==> gs@[mi_ghost] <= gc + 1);
                    assert forall|i: int|
                        0 <= i < j + 1 && g.contains(orthogonal_candidates(c)[i].0, orthogonal_candidates(c)[i].1) && class_at(
                            g,
                            context,
                            Point { x: orthogonal_candidates(c)[i].0 as i32, y: orthogonal_candidates(c)[i].1 as i32 },
                        ) != Traversable::Obstructed implies gs@[g.index_of(orthogonal_candidates(c)[i].0, orthogonal_candidates(c)[i].1)] <= gc + 1 by {
                        let q = orthogonal_candidates(c)[i];
                        lemma_point_index_round_trip(g, Point { x: q.0 as i32, y: q.1 as i32 }, 0);
                        if i < j && g.index_of(q.0, q.1) == mi_ghost {
                            assert(gs_before[mi_ghost] <= gc + 1);
                        }
                    }
                    assert forall|i: int|
                        0 <= i < j + 1 && g.contains(orthogonal_candidates(c)[i].0, orthogonal_candidates(c)[i].1) && class_at(
                            g,
                            context,
                            Point { x: orthogonal_candidates(c)[i].0 as i32, y: orthogonal_candidates(c)[i].1 as i32 },
                        ) != Traversable::Obstructed implies disc@[g.index_of(orthogonal_candidates(c)[i].0, orthogonal_candidates(c)[i].1)] by {
                        let q = orthogonal_candidates(c)[i];
                        lemma_point_index_round_trip(g, Point { x: q.0 as i32, y: q.1 as i32 }, 0);
                    }
                }
                j += 1;
            }
            proof {
                lemma_sum_nonneg(gs@);
                assert forall|m: Point|
                    #[trigger] neighbours(g, g.point_at(ci as int)).contains(m) && class_at(g, context, m) != Traversable::Obstructed implies disc@[g.index_of(
                    m.x as int,
                    m.y as int,
                )] by {
                    lemma_keep_in_bounds(g, orthogonal_candidates(c));
                    let i = choose|i: int| 0 <= i < orthogonal_candidates(c).len() && orthogonal_candidates(c)[i] == (m.x as int, m.y as int);
                }
                assert forall|m: Point|
                    #[trigger] neighbours(g, g.point_at(ci as int)).contains(m) && class_at(g, context, m) != Traversable::Obstructed implies disc@[g.index_of(
                    m.x as int,
                    m.y as int,
                )] && gs@[g.index_of(m.x as int, m.y as int)] <= gs@[ci as int] + 1 by {
                    lemma_keep_in_bounds(g, orthogonal_candidates(c));
                    let i = choose|i: int| 0 <= i < orthogonal_candidates(c).len() && orthogonal_candidates(c)[i] == (m.x as int, m.y as int);
                }
                lemma_close_consistent(g, context, disc@, gs@, expd@, open@, ci as int);
                lemma_expand(g, context, ti as int, disc@, expd@, open@, ci as int);
            }
            expd.set(ci, true);
        }
        proof {
            reveal(frontier_ok);
            if reachable(g, context, from, to) {
                let path = choose|path: Seq<Direction>| path_ok(g, context, from, path) && walk_end(from, path) == (to.x as int, to.y as int);
                lemma_walk_discovered(g, context, ti as int, from, disc@, expd@, path);
                reveal(expanded_ok);
                assert(disc@[ti as int]);
                assert(expd@[ti as int]);
            }
        }
        None
    }

    /// Find a shortest path between the given points with A*, as the steps to take.
    ///
    /// The open set is ordered by score plus Manhattan distance to the goal, ties broken by
    /// the lower point; every step costs one. Obstructed tiles are never entered; Free and
    /// Halt tiles may both be passed through. The start itself may lie outside the grid,
    /// next to it. Returns `None` when no such walk reaches the goal.
    pub fn navigate_ctx(
        &self,
        context: &<Tile as ContextInto<Traversable>>::Context,
        from: Point,
        to: Point,
    ) -> (r: Option<Vec<Direction>>)
        requires
            self.wf(),
        ensures
            r is Some <==> from == to || reachable(self@, context, from, to),
            r matches Some(path) ==> path_ok(self@, context, from, path@) && walk_end(from, path@) == (
                to.x as int,
                to.y as int,
            ),
            r matches Some(path) ==> forall|other: Seq<Direction>|
                path_ok(self@, context, from, other) && walk_end(from, other) == (to.x as int, to.y as int) ==> path@.len()
                    <= other.len(),
    {
        if from == to {
            let path: Vec<Direction> = Vec::new();
            return Some(path);
        }
        if self.in_bounds(from) {
            return self.search_from_inside(context, from, to);
        }
        // The start lies outside: every walk first steps onto an in-bounds neighbour.
        let ghost g = self@;
        let dirs = Direction::iter();
        let mut best: Option<Vec<Direction>> = None;
        let mut j: usize = 0;
        while j < dirs.len()
            invariant
                self.wf(),
                g == self@,
                from != to,
                dirs@ == orthogonal_order(),
                j <= dirs@.len(),
                best matches Some(path) ==> path_ok(g, context, from, path@) && walk_end(from, path@) == (to.x as int, to.y as int),
                forall|q: Seq<Direction>|
                    q.len() > 0 && order_index(q[0]) < j && #[trigger] path_ok(g, context, from, q) && walk_end(from, q) == (
                        to.x as int,
                        to.y as int,
                    ) ==> best is Some && best->Some_0@.len() <= q.len(),
            decreases dirs@.len() - j,
        {
            let d = dirs[j];
            let (ddx, ddy) = d.deltas();
            let nx = from.x as i64 + ddx as i64;
            let ny = from.y as i64 + ddy as i64;
            let ghost best0 = best;
            if self.contains_wide(nx, ny) {
                let n = Point::new(nx as i32, ny as i32);
                if self.class_of(context, n) != Traversable::Obstructed {
                    match self.search_from_inside(context, n, to) {
                        Some(mut rest) => {
                            let better = match &best {
                                Some(b) => b.len() > 0 && rest.len() < b.len() - 1,
                                None => true,
                            };
                            if better {
                                let mut path: Vec<Direction> = vec![d];
                                let ghost tail = rest@;
                                path.append(&mut rest);
                                proof {
                                    assert(path@ =~= seq![d] + tail);
                                    lemma_prepend_step(g, context, from, d, n, tail);
                                }
                                best = Some(path);
                            }
                        },
                        None => {},
                    }
                }
            }
            proof {
                assert forall|q: Seq<Direction>|
                    q.len() > 0 && order_index(q[0]) < j + 1 && #[trigger] path_ok(g, context, from, q) && walk_end(from, q) == (
                        to.x as int,
                        to.y as int,
                    ) implies best is Some && best->Some_0@.len() <= q.len() by {
                    if order_index(q[0]) == j {
                        assert(orthogonal_order()[j as int] == q[0]);
                        lemma_split_first(g, context, from, q);
                    }
                }
            }
            j += 1;
        }
        proof {
            assert(best is Some <==> reachable(g, context, from, to)) by {
                if reachable(g, context, from, to) {
                    let q = choose|q: Seq<Direction>| path_ok(g, context, from, q) && walk_end(from, q) == (to.x as int, to.y as int);
                    assert(q.len() > 0);
                }
            }
            assert forall|q: Seq<Direction>| path_ok(g, context, from, q) && walk_end(from, q) == (to.x as int, to.y as int) implies best is Some
                && best->Some_0@.len() <= q.len() by {
                assert(q.len() > 0);
            }
        }
        best
    }
}

impl<Tile: Copy + ContextInto<Traversable, Context = ()>> Grid<Tile> {
    /// [`Grid::navigate_ctx`] for tiles whose classification needs no context.
    pub fn navigate(&self, from: Point, to: Point) -> (r: Option<Vec<Direction>>)
        requires
            self.wf(),
        ensures
            r is Some <==> from == to || reachable(self@, &(), from, to),
            r matches Some(path) ==> path_ok(self@, &(), from, path@) && walk_end(from, path@) == (
                to.x as int,
                to.y as int,
            ),
            r matches Some(path) ==> forall|other: Seq<Direction>|
                path_ok(self@, &(), from, other) && walk_end(from, other) == (to.x as int, to.y as int) ==> path@.len()
                    <= other.len(),
    {
        self.navigate_ctx(&(), from, to)
    }
}

} // verus!
