use crate::direction::{diagonal_order, dx, dy, orthogonal_order, Direction};
use crate::point::{fits_i32, Point};
use vstd::arithmetic::div_mod::{lemma_fundamental_div_mod, lemma_fundamental_div_mod_converse, lemma_mod_bound};
use vstd::prelude::*;

verus! {

/// The mathematical content of a [`Grid`]: its tiles in row-major order, its dimensions,
/// and the coordinate of its lower left corner.
pub struct GridView<Tile> {
    pub tiles: Seq<Tile>,
    pub width: nat,
    pub height: nat,
    pub offset: Point,
}

/// Every coordinate of a `width` x `height` box whose lower left corner is `offset`
/// fits in an `i32`, and so do `high_x` and `high_y` of an empty box.
pub open spec fn dims_ok(width: nat, height: nat, offset: Point) -> bool {
    &&& fits_i32(offset.x + width - 1)
    &&& fits_i32(offset.y + height - 1)
}

impl<Tile> GridView<Tile> {
    pub open spec fn wf(self) -> bool {
        &&& self.tiles.len() == self.width * self.height
        &&& dims_ok(self.width, self.height, self.offset)
    }

    pub open spec fn low_x(self) -> int {
        self.offset.x as int
    }

    pub open spec fn high_x(self) -> int {
        self.offset.x + self.width - 1
    }

    pub open spec fn low_y(self) -> int {
        self.offset.y as int
    }

    pub open spec fn high_y(self) -> int {
        self.offset.y + self.height - 1
    }

    /// `(x, y)` lies within the bounds of the map.
    pub open spec fn contains(self, x: int, y: int) -> bool {
        self.low_x() <= x <= self.high_x() && self.low_y() <= y <= self.high_y()
    }

    pub open spec fn in_bounds(self, p: Point) -> bool {
        self.contains(p.x as int, p.y as int)
    }

    /// Row-major position of `(x, y)` in the tile buffer.
    pub open spec fn index_of(self, x: int, y: int) -> int {
        (x - self.low_x()) + (y - self.low_y()) * self.width
    }

    /// The point stored at position `i` of the tile buffer.
    pub open spec fn point_at(self, i: int) -> Point {
        Point {
            x: (i % (self.width as int) + self.low_x()) as i32,
            y: (i / (self.width as int) + self.low_y()) as i32,
        }
    }

    /// The tile at `(x, y)`.
    pub open spec fn tile(self, x: int, y: int) -> Tile {
        self.tiles[self.index_of(x, y)]
    }
}

/// The grid mirrored across its horizontal midline; corners stay where they were.
pub open spec fn flip_vertical_view<Tile>(v: GridView<Tile>) -> GridView<Tile> {
    GridView {
        tiles: Seq::new(
            v.tiles.len(),
            |i: int| v.tiles[i % (v.width as int) + (v.height - 1 - i / (v.width as int)) * v.width],
        ),
        ..v
    }
}

/// The grid mirrored across its vertical midline; corners stay where they were.
pub open spec fn flip_horizontal_view<Tile>(v: GridView<Tile>) -> GridView<Tile> {
    GridView {
        tiles: Seq::new(
            v.tiles.len(),
            |i: int| v.tiles[(v.width - 1 - i % (v.width as int)) + (i / (v.width as int)) * v.width],
        ),
        ..v
    }
}

/// The grid rotated a quarter turn counter-clockwise: the cell `(x, y)` moves to
/// `(height - 1 - y, x)`, and width and height swap.
pub open spec fn rotate_left_view<Tile>(v: GridView<Tile>) -> GridView<Tile> {
    GridView {
        tiles: Seq::new(
            v.tiles.len(),
            |i: int| v.tiles[i / (v.height as int) + (v.height - 1 - i % (v.height as int)) * v.width],
        ),
        width: v.height,
        height: v.width,
        offset: v.offset,
    }
}

/// The grid rotated a quarter turn clockwise: the cell `(x, y)` moves to
/// `(y, width - 1 - x)`, and width and height swap.
pub open spec fn rotate_right_view<Tile>(v: GridView<Tile>) -> GridView<Tile> {
    GridView {
        tiles: Seq::new(
            v.tiles.len(),
            |i: int| v.tiles[(v.width - 1 - i / (v.height as int)) + (i % (v.height as int)) * v.width],
        ),
        width: v.height,
        height: v.width,
        offset: v.offset,
    }
}

/// Flipping twice in the same direction restores the grid; a left rotation followed by a
/// right rotation, or the reverse, restores the grid.
pub proof fn lemma_transforms_invert<Tile>(g: GridView<Tile>)
    requires
        g.wf(),
    ensures
        flip_vertical_view(flip_vertical_view(g)) == g,
        flip_horizontal_view(flip_horizontal_view(g)) == g,
        rotate_right_view(rotate_left_view(g)) == g,
        rotate_left_view(rotate_right_view(g)) == g,
{
    let w = g.width as int;
    let h = g.height as int;
    let fv = flip_vertical_view(flip_vertical_view(g));
    assert forall|i: int| 0 <= i < g.tiles.len() implies fv.tiles[i] == g.tiles[i] by {
        lemma_cell_of_index(w, h, i);
        lemma_index_of_cell(w, h, i % w, h - 1 - i / w);
    }
    assert(fv.tiles =~= g.tiles);
    let fh = flip_horizontal_view(flip_horizontal_view(g));
    assert forall|i: int| 0 <= i < g.tiles.len() implies fh.tiles[i] == g.tiles[i] by {
        lemma_cell_of_index(w, h, i);
        lemma_index_of_cell(w, h, w - 1 - i % w, i / w);
    }
    assert(fh.tiles =~= g.tiles);
    let rl = rotate_left_view(g);
    assert(w * h == h * w) by (nonlinear_arith);
    let lr = rotate_right_view(rl);
    assert forall|i: int| 0 <= i < g.tiles.len() implies lr.tiles[i] == g.tiles[i] by {
        // `i` names the cell (i % w, i / w) of the result, which came from the cell
        // (h - 1 - i / w, i % w) of the left rotation.
        lemma_cell_of_index(w, h, i);
        let j = (h - 1 - i / w) + (i % w) * h;
        lemma_index_of_cell(h, w, h - 1 - i / w, i % w);
        assert(rl.tiles[j] == g.tiles[j / h + (h - 1 - j % h) * w]);
    }
    assert(lr.tiles =~= g.tiles);
    let rr = rotate_right_view(g);
    let rl2 = rotate_left_view(rr);
    assert forall|i: int| 0 <= i < g.tiles.len() implies rl2.tiles[i] == g.tiles[i] by {
        lemma_cell_of_index(w, h, i);
        let j = i / w + (w - 1 - i % w) * h;
        lemma_index_of_cell(h, w, i / w, w - 1 - i % w);
        assert(rr.tiles[j] == g.tiles[(w - 1 - j / h) + (j % h) * w]);
    }
    assert(rl2.tiles =~= g.tiles);
}

/// Orthogonal neighbours of `p` in direction order `Up`, `Down`, `Left`, `Right`.
pub open spec fn orthogonal_candidates(p: Point) -> Seq<(int, int)> {
    orthogonal_order().map_values(|d: Direction| (p.x + dx(d), p.y + dy(d)))
}

/// Diagonal neighbours of `p` in order up-left, up-right, down-left, down-right.
pub open spec fn diagonal_candidates(p: Point) -> Seq<(int, int)> {
    diagonal_order().map_values(
        |dd: (Direction, Direction)| (p.x + dx(dd.0) + dx(dd.1), p.y + dy(dd.0) + dy(dd.1)),
    )
}

impl<Tile> GridView<Tile> {
    /// The coordinates of `s` that lie in bounds, in order, as points.
    pub open spec fn keep_in_bounds(self, s: Seq<(int, int)>) -> Seq<Point>
        decreases s.len(),
    {
        if s.len() == 0 {
            Seq::empty()
        } else {
            let rest = self.keep_in_bounds(s.drop_last());
            let c = s.last();
            if self.contains(c.0, c.1) {
                rest.push(Point { x: c.0 as i32, y: c.1 as i32 })
            } else {
                rest
            }
        }
    }
}

/// Every point kept by `keep_in_bounds` is in bounds and is one of the candidates, and
/// no more points are kept than there are candidates.
pub proof fn lemma_keep_in_bounds<Tile>(g: GridView<Tile>, s: Seq<(int, int)>)
    requires
        g.wf(),
    ensures
        g.keep_in_bounds(s).len() <= s.len(),
        forall|q: Point| #[trigger] g.keep_in_bounds(s).contains(q) ==> g.in_bounds(q) && s.contains((q.x as int, q.y as int)),
    decreases s.len(),
{
    if s.len() > 0 {
        lemma_keep_in_bounds(g, s.drop_last());
        let rest = g.keep_in_bounds(s.drop_last());
        let c = s.last();
        assert forall|q: Point| #[trigger] g.keep_in_bounds(s).contains(q) implies g.in_bounds(q) && s.contains((q.x as int, q.y as int)) by {
            if rest.contains(q) {
                let k = choose|k: int| 0 <= k < s.drop_last().len() && s.drop_last()[k] == (q.x as int, q.y as int);
                assert(s[k] == (q.x as int, q.y as int));
            } else {
                assert(q == (Point { x: c.0 as i32, y: c.1 as i32 }));
                assert(s[s.len() - 1] == c);
            }
        }
    }
}

/// A candidate that is in bounds is kept.
pub proof fn lemma_keep_in_bounds_has<Tile>(g: GridView<Tile>, s: Seq<(int, int)>, k: int)
    requires
        g.wf(),
        0 <= k < s.len(),
        g.contains(s[k].0, s[k].1),
    ensures
        g.keep_in_bounds(s).contains(Point { x: s[k].0 as i32, y: s[k].1 as i32 }),
    decreases s.len(),
{
    let q = Point { x: s[k].0 as i32, y: s[k].1 as i32 };
    let rest = g.keep_in_bounds(s.drop_last());
    if k == s.len() - 1 {
        assert(g.keep_in_bounds(s) == rest.push(q));
        assert(g.keep_in_bounds(s)[rest.len() as int] == q);
    } else {
        lemma_keep_in_bounds_has(g, s.drop_last(), k);
        let i = choose|i: int| 0 <= i < rest.len() && rest[i] == q;
        if g.contains(s.last().0, s.last().1) {
            assert(g.keep_in_bounds(s)[i] == q);
        }
    }
}

/// Orthogonal adjacencies are in bounds and at most four; all adjacencies are at most
/// eight and include the orthogonal ones.
pub proof fn lemma_adjacencies_bounded<Tile>(g: GridView<Tile>, p: Point)
    requires
        g.wf(),
    ensures
        forall|q: Point| #[trigger] g.keep_in_bounds(orthogonal_candidates(p)).contains(q) ==> g.in_bounds(q),
        g.keep_in_bounds(orthogonal_candidates(p)).len() <= 4,
        (g.keep_in_bounds(orthogonal_candidates(p)) + g.keep_in_bounds(diagonal_candidates(p))).len() <= 8,
        forall|q: Point| #[trigger] (g.keep_in_bounds(orthogonal_candidates(p)) + g.keep_in_bounds(diagonal_candidates(p))).contains(q) ==> g.in_bounds(q),
        forall|q: Point| g.keep_in_bounds(orthogonal_candidates(p)).contains(q) ==> #[trigger] (g.keep_in_bounds(orthogonal_candidates(p)) + g.keep_in_bounds(diagonal_candidates(p))).contains(q),
{
    lemma_keep_in_bounds(g, orthogonal_candidates(p));
    lemma_keep_in_bounds(g, diagonal_candidates(p));
    let o = g.keep_in_bounds(orthogonal_candidates(p));
    let d = g.keep_in_bounds(diagonal_candidates(p));
    assert forall|q: Point| #[trigger] (o + d).contains(q) implies g.in_bounds(q) by {
        let k = choose|k: int| 0 <= k < (o + d).len() && (o + d)[k] == q;
        if k < o.len() {
            assert(o[k] == q);
            assert(o.contains(q));
        } else {
            assert(d[k - o.len()] == q);
            assert(d.contains(q));
        }
    }
    assert forall|q: Point| o.contains(q) implies #[trigger] (o + d).contains(q) by {
        let k = choose|k: int| 0 <= k < o.len() && o[k] == q;
        assert((o + d)[k] == q);
    }
}

/// Positions of a `w` x `h` box and row-major indices correspond one to one.
pub proof fn lemma_index_of_cell(w: int, h: int, cx: int, cy: int)
    requires
        0 <= cx < w,
        0 <= cy < h,
    ensures
        0 <= cx + cy * w < w * h,
        (cx + cy * w) % w == cx,
        (cx + cy * w) / w == cy,
{
    assert(0 <= cy * w <= (h - 1) * w) by (nonlinear_arith)
        requires
            0 <= cy < h,
            0 < w,
    ;
    assert((h - 1) * w == h * w - w) by (nonlinear_arith);
    assert(w * h == h * w) by (nonlinear_arith);
    lemma_fundamental_div_mod_converse(cx + cy * w, w, cy, cx);
}

/// Every row-major index of a `w` x `h` box names a position of the box.
pub proof fn lemma_cell_of_index(w: int, h: int, i: int)
    requires
        0 <= i < w * h,
        0 <= w,
        0 <= h,
    ensures
        0 < w,
        0 <= i % w < w,
        0 <= i / w < h,
        i == i % w + (i / w) * w,
{
    if w == 0 {
        assert(w * h == 0);
    }
    lemma_mod_bound(i, w);
    lemma_fundamental_div_mod(i, w);
    assert(w * (i / w) == (i / w) * w) by (nonlinear_arith);
    if i / w < 0 {
        assert((i / w) * w <= -w) by (nonlinear_arith)
            requires
                i / w < 0,
                0 < w,
        ;
    }
    if i / w >= h {
        assert((i / w) * w >= h * w) by (nonlinear_arith)
            requires
                i / w >= h,
                0 < w,
        ;
        assert(w * h == h * w) by (nonlinear_arith);
    }
}

/// Converting an in-bounds point to its buffer index and back yields the point; converting
/// a buffer index to its point and back yields the index. This holds for every offset.
pub proof fn lemma_point_index_round_trip<Tile>(m: GridView<Tile>, p: Point, i: int)
    requires
        m.wf(),
    ensures
        m.in_bounds(p) ==> 0 <= m.index_of(p.x as int, p.y as int) < m.tiles.len(),
        m.in_bounds(p) ==> m.point_at(m.index_of(p.x as int, p.y as int)) == p,
        0 <= i < m.tiles.len() ==> m.in_bounds(m.point_at(i)),
        0 <= i < m.tiles.len() ==> m.index_of(m.point_at(i).x as int, m.point_at(i).y as int) == i,
{
    let w = m.width as int;
    let h = m.height as int;
    if m.in_bounds(p) {
        lemma_index_of_cell(w, h, p.x - m.low_x(), p.y - m.low_y());
    }
    if 0 <= i < m.tiles.len() {
        lemma_cell_of_index(w, h, i);
    }
}

/// A tile grid with an offset origin; `+y` points up, so row 0 is the bottom row.
#[derive(Clone, Debug, Default, PartialEq, Eq, Hash)]
pub struct Grid<Tile> {
    tiles: Vec<Tile>,
    width: usize,
    height: usize,
    offset: Point,
}

impl<Tile> View for Grid<Tile> {
    type V = GridView<Tile>;

    closed spec fn view(&self) -> GridView<Tile> {
        GridView {
            tiles: self.tiles@,
            width: self.width as nat,
            height: self.height as nat,
            offset: self.offset,
        }
    }
}

/// The point at buffer index `idx` of a map with the given width and offset.
fn point_of_index(width: usize, height: usize, offset: Point, idx: usize) -> (r: Point)
    requires
        dims_ok(width as nat, height as nat, offset),
        idx < width * height,
    ensures
        r == (GridView::<()> { tiles: Seq::empty(), width: width as nat, height: height as nat, offset }).point_at(idx as int),
        0 <= idx % width < width,
        0 <= idx / width < height,
{
    proof {
        lemma_cell_of_index(width as int, height as int, idx as int);
    }
    let x = (idx % width) as i64 + offset.x as i64;
    let y = (idx / width) as i64 + offset.y as i64;
    Point::new(x as i32, y as i32)
}

impl<Tile> Grid<Tile> {
    pub open spec fn wf(&self) -> bool {
        self@.wf()
    }

    /// Procedurally create a new `Grid` from a function; its lower left corner is `(0, 0)`.
    pub fn procedural<F: Fn(Point) -> Tile>(width: usize, height: usize, procedure: F) -> (r: Grid<Tile>)
        requires
            width * height <= usize::MAX,
            width <= i32::MAX + 1,
            height <= i32::MAX + 1,
            forall|p: Point| procedure.requires((p,)),
        ensures
            r.wf(),
            r@.width == width,
            r@.height == height,
            r@.offset == (Point { x: 0, y: 0 }),
            forall|i: int| 0 <= i < r@.tiles.len() ==> procedure.ensures((r@.point_at(i),), #[trigger] r@.tiles[i]),
    {
        Self::procedural_offset(Point::new(0, 0), width, height, procedure)
    }

    /// Procedurally create a new `Grid` from a function, with an offset origin.
    ///
    /// The function is called once per cell, in row-major order.
    pub fn procedural_offset<F: Fn(Point) -> Tile>(offset: Point, width: usize, height: usize, procedure: F) -> (r: Grid<Tile>)
        requires
            width * height <= usize::MAX,
            dims_ok(width as nat, height as nat, offset),
            forall|p: Point| procedure.requires((p,)),
        ensures
            r.wf(),
            r@.width == width,
            r@.height == height,
            r@.offset == offset,
            forall|i: int| 0 <= i < r@.tiles.len() ==> procedure.ensures((r@.point_at(i),), #[trigger] r@.tiles[i]),
    {
        let area = width * height;
        let mut tiles: Vec<Tile> = Vec::with_capacity(area);
        let ghost v = GridView::<()> { tiles: Seq::empty(), width: width as nat, height: height as nat, offset };
        let mut idx: usize = 0;
        while idx < area
            invariant
                area == width * height,
                dims_ok(width as nat, height as nat, offset),
                forall|p: Point| procedure.requires((p,)),
                idx <= area,
                tiles.len() == idx,
                v == (GridView::<()> { tiles: Seq::empty(), width: width as nat, height: height as nat, offset }),
                forall|i: int| 0 <= i < idx ==> procedure.ensures((v.point_at(i),), #[trigger] tiles@[i]),
            decreases area - idx,
        {
            let point = point_of_index(width, height, offset, idx);
            let tile = procedure(point);
            tiles.push(tile);
            idx += 1;
        }
        Grid { tiles, width, height, offset }
    }

    /// Width of this map.
    pub fn width(&self) -> (r: usize)
        ensures
            r == self@.width,
    {
        self.width
    }

    /// Height of this map.
    pub fn height(&self) -> (r: usize)
        ensures
            r == self@.height,
    {
        self.height
    }

    /// Offset of the lower left corner of this map from `(0, 0)`.
    pub fn offset(&self) -> (r: Point)
        ensures
            r == self@.offset,
    {
        self.offset
    }

    /// The tiles in row-major order, bottom row first.
    pub fn tiles(&self) -> (r: &[Tile])
        ensures
            r@ == self@.tiles,
    {
        self.tiles.as_slice()
    }

    /// Lowest x coordinate which is in bounds of this map.
    pub fn low_x(&self) -> (r: i32)
        ensures
            r == self@.low_x(),
    {
        self.offset.x
    }

    /// Highest x coordinate which is in bounds of this map (inclusive).
    pub fn high_x(&self) -> (r: i32)
        requires
            self.wf(),
        ensures
            r == self@.high_x(),
    {
        (self.offset.x as i64 + self.width as i64 - 1) as i32
    }

    /// Lowest y coordinate which is in bounds of this map.
    pub fn low_y(&self) -> (r: i32)
        ensures
            r == self@.low_y(),
    {
        self.offset.y
    }

    /// Highest y coordinate which is in bounds of this map (inclusive).
    pub fn high_y(&self) -> (r: i32)
        requires
            self.wf(),
        ensures
            r == self@.high_y(),
    {
        (self.offset.y as i64 + self.height as i64 - 1) as i32
    }

    /// The coordinates of the bottom left corner of this map.
    pub fn bottom_left(&self) -> (r: Point)
        requires
            self.wf(),
        ensures
            r.x == self@.low_x(),
            r.y == self@.low_y(),
    {
        Point::new(self.low_x(), self.low_y())
    }

    /// The coordinates of the top left corner of this map.
    pub fn top_left(&self) -> (r: Point)
        requires
            self.wf(),
        ensures
            r.x == self@.low_x(),
            r.y == self@.high_y(),
    {
        Point::new(self.low_x(), self.high_y())
    }

    /// The coordinates of the bottom right corner of this map.
    pub fn bottom_right(&self) -> (r: Point)
        requires
            self.wf(),
        ensures
            r.x == self@.high_x(),
            r.y == self@.low_y(),
    {
        Point::new(self.high_x(), self.low_y())
    }

    /// The coordinates of the top right corner of this map.
    pub fn top_right(&self) -> (r: Point)
        requires
            self.wf(),
        ensures
            r.x == self@.high_x(),
            r.y == self@.high_y(),
    {
        Point::new(self.high_x(), self.high_y())
    }

    /// `true` when a point is legal within the bounds of this map.
    pub fn in_bounds(&self, point: Point) -> (r: bool)
        requires
            self.wf(),
        ensures
            r == self@.in_bounds(point),
    {
        self.contains_wide(point.x as i64, point.y as i64)
    }

    /// Bounds check on coordinates that may lie outside the `i32` range.
    pub(crate) fn contains_wide(&self, x: i64, y: i64) -> (r: bool)
        requires
            self.wf(),
        ensures
            r == self@.contains(x as int, y as int),
    {
        let low_x = self.offset.x as i64;
        let low_y = self.offset.y as i64;
        let high_x = low_x + self.width as i64 - 1;
        let high_y = low_y + self.height as i64 - 1;
        x >= low_x && y >= low_y && x <= high_x && y <= high_y
    }

    /// The position of an in-bounds point in the tile buffer; the point may have negative
    /// coordinates.
    pub fn point_to_index(&self, point: Point) -> (r: usize)
        requires
            self.wf(),
            self@.in_bounds(point),
        ensures
            r == self@.index_of(point.x as int, point.y as int),
            r < self@.tiles.len(),
            self@.point_at(r as int) == point,
    {
        let r = self.index_of_wide(point.x as i64, point.y as i64);
        proof {
            lemma_point_index_round_trip(self@, point, r as int);
        }
        r
    }

    /// Convert a 2d point into a 1d index into the tiles.
    pub fn point2index(&self, x: usize, y: usize) -> (r: usize)
        requires
            self.wf(),
            self@.contains(x as int, y as int),
        ensures
            r == self@.index_of(x as int, y as int),
            r < self@.tiles.len(),
    {
        self.index_of_wide(x as i64, y as i64)
    }

    pub(crate) fn index_of_wide(&self, x: i64, y: i64) -> (r: usize)
        requires
            self.wf(),
            self@.contains(x as int, y as int),
        ensures
            r == self@.index_of(x as int, y as int),
            r < self@.tiles.len(),
    {
        let cx = (x - self.offset.x as i64) as usize;
        let cy = (y - self.offset.y as i64) as usize;
        let len = self.tiles.len();
        proof {
            lemma_index_of_cell(self.width as int, self.height as int, cx as int, cy as int);
        }
        cx + cy * self.width
    }

    /// Convert a 1d index in the tiles into a 2d point.
    pub fn index2point(&self, idx: usize) -> (r: Point)
        requires
            self.wf(),
            idx < self@.tiles.len(),
        ensures
            r == self@.point_at(idx as int),
            self@.in_bounds(r),
    {
        let r = point_of_index(self.width, self.height, self.offset, idx);
        proof {
            lemma_point_index_round_trip(self@, r, idx as int);
        }
        r
    }

    /// The tile at an in-bounds point.
    pub(crate) fn at(&self, point: Point) -> (r: &Tile)
        requires
            self.wf(),
            self@.in_bounds(point),
        ensures
            *r == self@.tile(point.x as int, point.y as int),
    {
        let i = self.index_of_wide(point.x as i64, point.y as i64);
        &self.tiles[i]
    }

    /// The tile at a point in the positive quadrant.
    pub fn get(&self, point: Point) -> (r: &Tile)
        requires
            self.wf(),
            point.x >= 0,
            point.y >= 0,
            self@.in_bounds(point),
        ensures
            *r == self@.tile(point.x as int, point.y as int),
    {
        self.at(point)
    }

    /// Replace the tile at a point in the positive quadrant.
    pub fn set(&mut self, point: Point, tile: Tile)
        requires
            old(self).wf(),
            point.x >= 0,
            point.y >= 0,
            old(self)@.in_bounds(point),
        ensures
            final(self)@ == (GridView {
                tiles: old(self)@.tiles.update(old(self)@.index_of(point.x as int, point.y as int), tile),
                ..old(self)@
            }),
    {
        let i = self.index_of_wide(point.x as i64, point.y as i64);
        self.tiles.set(i, tile);
    }
}

impl<Tile: Copy> Grid<Tile> {
    /// A copy of this grid flipped vertically: the axis of symmetry is horizontal.
    ///
    /// The corners remain where they were.
    pub fn flip_vertical(&self) -> (r: Grid<Tile>)
        requires
            self.wf(),
        ensures
            r.wf(),
            r@ == flip_vertical_view(self@),
    {
        let w = self.width;
        let h = self.height;
        let len = self.tiles.len();
        proof {
            assert(w * h == h * w) by (nonlinear_arith);
        }
        let mut tiles: Vec<Tile> = Vec::with_capacity(len);
        let mut i: usize = 0;
        while i < len
            invariant
                self.wf(),
                len == self@.tiles.len(),
                len == w * h,
                len == h * w,
                w == self@.width,
                h == self@.height,
                i <= len,
                tiles.len() == i,
                forall|j: int| 0 <= j < i ==> tiles@[j] == #[trigger] flip_vertical_view(self@).tiles[j],
            decreases len - i,
        {
            proof {
                lemma_cell_of_index(w as int, h as int, i as int);
                lemma_index_of_cell(w as int, h as int, (i % w) as int, (h - 1 - i / w) as int);
            }
            let src = i % w + (h - 1 - i / w) * w;
            tiles.push(self.tiles[src]);
            i += 1;
        }
        proof {
            assert(tiles@ =~= flip_vertical_view(self@).tiles);
        }
        Grid { tiles, width: w, height: h, offset: self.offset }
    }

    /// A copy of this grid flipped horizontally: the axis of symmetry is vertical.
    ///
    /// The corners remain where they were.
    pub fn flip_horizontal(&self) -> (r: Grid<Tile>)
        requires
            self.wf(),
        ensures
            r.wf(),
            r@ == flip_horizontal_view(self@),
    {
        let w = self.width;
        let h = self.height;
        let len = self.tiles.len();
        proof {
            assert(w * h == h * w) by (nonlinear_arith);
        }
        let mut tiles: Vec<Tile> = Vec::with_capacity(len);
        let mut i: usize = 0;
        while i < len
            invariant
                self.wf(),
                len == self@.tiles.len(),
                len == w * h,
                len == h * w,
                w == self@.width,
                h == self@.height,
                i <= len,
                tiles.len() == i,
                forall|j: int| 0 <= j < i ==> tiles@[j] == #[trigger] flip_horizontal_view(self@).tiles[j],
            decreases len - i,
        {
            proof {
                lemma_cell_of_index(w as int, h as int, i as int);
                lemma_index_of_cell(w as int, h as int, (w - 1 - i % w) as int, (i / w) as int);
            }
            let src = w - 1 - i % w + (i / w) * w;
            tiles.push(self.tiles[src]);
            i += 1;
        }
        proof {
            assert(tiles@ =~= flip_horizontal_view(self@).tiles);
        }
        Grid { tiles, width: w, height: h, offset: self.offset }
    }

    /// A copy of this grid rotated counter-clockwise.
    ///
    /// Only defined when the offset is `(0, 0)`: translate before and after as needed.
    pub fn rotate_left(&self) -> (r: Grid<Tile>)
        requires
            self.wf(),
            self@.offset == (Point { x: 0, y: 0 }),
        ensures
            r.wf(),
            r@ == rotate_left_view(self@),
    {
        let w = self.width;
        let h = self.height;
        let len = self.tiles.len();
        proof {
            assert(w * h == h * w) by (nonlinear_arith);
        }
        let mut tiles: Vec<Tile> = Vec::with_capacity(len);
        let mut i: usize = 0;
        while i < len
            invariant
                self.wf(),
                len == self@.tiles.len(),
                len == w * h,
                len == h * w,
                w == self@.width,
                h == self@.height,
                i <= len,
                tiles.len() == i,
                forall|j: int| 0 <= j < i ==> tiles@[j] == #[trigger] rotate_left_view(self@).tiles[j],
            decreases len - i,
        {
            proof {
                lemma_cell_of_index(h as int, w as int, i as int);
                lemma_index_of_cell(w as int, h as int, (i / h) as int, (h - 1 - i % h) as int);
            }
            let src = i / h + (h - 1 - i % h) * w;
            tiles.push(self.tiles[src]);
            i += 1;
        }
        proof {
            assert(tiles@ =~= rotate_left_view(self@).tiles);
        }
        Grid { tiles, width: h, height: w, offset: self.offset }
    }

    /// A copy of this grid rotated clockwise.
    ///
    /// Only defined when the offset is `(0, 0)`: translate before and after as needed.
    pub fn rotate_right(&self) -> (r: Grid<Tile>)
        requires
            self.wf(),
            self@.offset == (Point { x: 0, y: 0 }),
        ensures
            r.wf(),
            r@ == rotate_right_view(self@),
    {
        let w = self.width;
        let h = self.height;
        let len = self.tiles.len();
        proof {
            assert(w * h == h * w) by (nonlinear_arith);
        }
        let mut tiles: Vec<Tile> = Vec::with_capacity(len);
        let mut i: usize = 0;
        while i < len
            invariant
                self.wf(),
                len == self@.tiles.len(),
                len == w * h,
                len == h * w,
                w == self@.width,
                h == self@.height,
                i <= len,
                tiles.len() == i,
                forall|j: int| 0 <= j < i ==> tiles@[j] == #[trigger] rotate_right_view(self@).tiles[j],
            decreases len - i,
        {
            proof {
                lemma_cell_of_index(h as int, w as int, i as int);
                lemma_index_of_cell(w as int, h as int, (w - 1 - i / h) as int, (i % h) as int);
            }
            let src = w - 1 - i / h + (i % h) * w;
            tiles.push(self.tiles[src]);
            i += 1;
        }
        proof {
            assert(tiles@ =~= rotate_right_view(self@).tiles);
        }
        Grid { tiles, width: h, height: w, offset: self.offset }
    }
}

impl<Tile> Grid<Tile> {
    /// Append `(x, y)` to `out` when it lies in bounds.
    fn push_if_in_bounds(&self, out: &mut Vec<Point>, x: i64, y: i64)
        requires
            self.wf(),
        ensures
            final(out)@ == if self@.contains(x as int, y as int) {
                old(out)@.push(Point { x: x as i32, y: y as i32 })
            } else {
                old(out)@
            },
    {
        if self.contains_wide(x, y) {
            out.push(Point::new(x as i32, y as i32));
        }
    }

    /// All legal points orthogonally adjacent to the given point: up to 4, in direction
    /// order `Up`, `Down`, `Left`, `Right`.
    pub fn orthogonal_adjacencies(&self, point: Point) -> (r: Vec<Point>)
        requires
            self.wf(),
        ensures
            r@ == self@.keep_in_bounds(orthogonal_candidates(point)),
    {
        let dirs = Direction::iter();
        let ghost cands = orthogonal_candidates(point);
        let mut out: Vec<Point> = Vec::new();
        let mut k: usize = 0;
        while k < dirs.len()
            invariant
                self.wf(),
                dirs@ == orthogonal_order(),
                cands == orthogonal_candidates(point),
                k <= dirs.len(),
                out@ == self@.keep_in_bounds(cands.subrange(0, k as int)),
            decreases dirs.len() - k,
        {
            let (ddx, ddy) = dirs[k].deltas();
            self.push_if_in_bounds(&mut out, point.x as i64 + ddx as i64, point.y as i64 + ddy as i64);
            proof {
                assert(cands.subrange(0, k + 1).drop_last() =~= cands.subrange(0, k as int));
            }
            k += 1;
        }
        proof {
            assert(cands.subrange(0, 4) =~= cands);
        }
        out
    }

    /// All legal points adjacent to the given point, diagonals included: up to 8, the
    /// orthogonal ones first.
    pub fn adjacencies(&self, point: Point) -> (r: Vec<Point>)
        requires
            self.wf(),
        ensures
            r@ == self@.keep_in_bounds(orthogonal_candidates(point)) + self@.keep_in_bounds(
                diagonal_candidates(point),
            ),
    {
        let mut out = self.orthogonal_adjacencies(point);
        let ghost orth = out@;
        let diags = Direction::iter_diag();
        let ghost cands = diagonal_candidates(point);
        let mut k: usize = 0;
        while k < diags.len()
            invariant
                self.wf(),
                diags@ == diagonal_order(),
                cands == diagonal_candidates(point),
                k <= diags.len(),
                out@ == orth + self@.keep_in_bounds(cands.subrange(0, k as int)),
            decreases diags.len() - k,
        {
            let (vertical, horizontal) = diags[k];
            let (vx, vy) = vertical.deltas();
            let (hx, hy) = horizontal.deltas();
            let ghost before = out@;
            self.push_if_in_bounds(
                &mut out,
                point.x as i64 + vx as i64 + hx as i64,
                point.y as i64 + vy as i64 + hy as i64,
            );
            proof {
                assert(cands.subrange(0, k + 1).drop_last() =~= cands.subrange(0, k as int));
                let kept = self@.keep_in_bounds(cands.subrange(0, k as int));
                assert(before.push(Point { x: (point.x + vx + hx) as i32, y: (point.y + vy + hy) as i32 }) =~= orth + kept.push(Point { x: (point.x + vx + hx) as i32, y: (point.y + vy + hy) as i32 }));
            }
            k += 1;
        }
        proof {
            assert(cands.subrange(0, 4) =~= cands);
        }
        out
    }

    /// Same as [`Grid::adjacencies`]; the result does not borrow the grid.
    pub fn make_adjacencies(&self, point: Point) -> (r: Vec<Point>)
        requires
            self.wf(),
        ensures
            r@ == self@.keep_in_bounds(orthogonal_candidates(point)) + self@.keep_in_bounds(
                diagonal_candidates(point),
            ),
    {
        self.adjacencies(point)
    }

    /// Same as [`Grid::orthogonal_adjacencies`]; the result does not borrow the grid.
    pub fn make_orthogonal_adjacencies(&self, point: Point) -> (r: Vec<Point>)
        requires
            self.wf(),
        ensures
            r@ == self@.keep_in_bounds(orthogonal_candidates(point)),
    {
        self.orthogonal_adjacencies(point)
    }

    /// The legal points reached from `origin` by repeatedly adding `(dx, dy)`, starting
    /// with `origin` itself and stopping at the first point out of bounds.
    pub fn project(&self, origin: Point, dx: i32, dy: i32) -> (r: Vec<Point>)
        requires
            self.wf(),
            dx != 0 || dy != 0,
        ensures
            r@.len() == 0 <==> !self@.in_bounds(origin),
            r@.len() > 0 ==> r@[0] == origin,
            forall|i: int| 0 <= i < r@.len() ==> self@.in_bounds(#[trigger] r@[i]),
            forall|i: int|
                0 <= i < r@.len() - 1 ==> #[trigger] r@[i + 1] == (Point {
                    x: (r@[i].x + dx) as i32,
                    y: (r@[i].y + dy) as i32,
                }),
            r@.len() > 0 ==> !self@.contains(r@.last().x + dx, r@.last().y + dy),
    {
        let mut out: Vec<Point> = Vec::new();
        let mut x = origin.x as i64;
        let mut y = origin.y as i64;
        let low_x = self.offset.x as i64;
        let low_y = self.offset.y as i64;
        let high_x = low_x + self.width as i64 - 1;
        let high_y = low_y + self.height as i64 - 1;
        while self.contains_wide(x, y)
            invariant
                self.wf(),
                dx != 0 || dy != 0,
                low_x == self@.low_x(),
                low_y == self@.low_y(),
                high_x == self@.high_x(),
                high_y == self@.high_y(),
                out@.len() == 0 ==> x == origin.x && y == origin.y,
                out@.len() > 0 ==> out@[0] == origin,
                out@.len() > 0 ==> x == out@.last().x + dx && y == out@.last().y + dy,
                forall|i: int| 0 <= i < out@.len() ==> self@.in_bounds(#[trigger] out@[i]),
                forall|i: int|
                    0 <= i < out@.len() - 1 ==> #[trigger] out@[i + 1] == (Point {
                        x: (out@[i].x + dx) as i32,
                        y: (out@[i].y + dy) as i32,
                    }),
                out@.len() > 0 || fits_i32(x as int),
                out@.len() > 0 || fits_i32(y as int),
                -0x1_0000_0000 <= x <= 0x1_0000_0000,
                -0x1_0000_0000 <= y <= 0x1_0000_0000,
            decreases steps_left(x as int, y as int, dx as int, dy as int, low_x as int, low_y as int, high_x as int, high_y as int),
        {
            let ghost before = out@;
            out.push(Point::new(x as i32, y as i32));
            proof {
                if before.len() > 0 {
                    assert(out@[before.len() - 1] == before.last());
                }
            }
            x = x + dx as i64;
            y = y + dy as i64;
        }
        out
    }

    /// The boundary points on one side of this grid: the `Left` and `Right` edges run
    /// bottom to top, the `Up` and `Down` edges run left to right.
    pub fn edge(&self, direction: Direction) -> (r: Edge)
        requires
            self.wf(),
        ensures
            r@ == edge_points(self@, direction),
    {
        let vertical = match direction {
            Direction::Left | Direction::Right => true,
            _ => false,
        };
        let n = if self.width == 0 || self.height == 0 {
            0
        } else if vertical {
            self.height
        } else {
            self.width
        };
        let mut points: Vec<Point> = Vec::new();
        let mut i: usize = 0;
        while i < n
            invariant
                self.wf(),
                n == edge_points(self@, direction).len(),
                vertical == (direction == Direction::Left || direction == Direction::Right),
                i <= n,
                points@ =~= edge_points(self@, direction).subrange(0, i as int),
            decreases n - i,
        {
            let p = match direction {
                Direction::Left => Point::new(self.low_x(), (self.offset.y as i64 + i as i64) as i32),
                Direction::Right => Point::new(self.high_x(), (self.offset.y as i64 + i as i64) as i32),
                Direction::Down => Point::new((self.offset.x as i64 + i as i64) as i32, self.low_y()),
                Direction::Up => Point::new((self.offset.x as i64 + i as i64) as i32, self.high_y()),
            };
            points.push(p);
            i += 1;
        }
        let back = points.len();
        Edge { points, front: 0, back }
    }

    /// Translate all points in this grid by a given amount, in `O(1)`.
    pub fn translate(&mut self, dx: i32, dy: i32)
        requires
            old(self).wf(),
            fits_i32(old(self)@.offset.x + dx),
            fits_i32(old(self)@.offset.y + dy),
            dims_ok(
                old(self)@.width,
                old(self)@.height,
                Point { x: (old(self)@.offset.x + dx) as i32, y: (old(self)@.offset.y + dy) as i32 },
            ),
        ensures
            final(self).wf(),
            final(self)@ == (GridView {
                offset: Point { x: (old(self)@.offset.x + dx) as i32, y: (old(self)@.offset.y + dy) as i32 },
                ..old(self)@
            }),
    {
        self.offset.x = self.offset.x + dx;
        self.offset.y = self.offset.y + dy;
    }

    /// The points of this grid in storage order.
    pub fn points(&self) -> (r: Vec<Point>)
        requires
            self.wf(),
        ensures
            r@.len() == self@.tiles.len(),
            forall|i: int| 0 <= i < r@.len() ==> #[trigger] r@[i] == self@.point_at(i),
    {
        let mut out: Vec<Point> = Vec::new();
        let mut i: usize = 0;
        while i < self.tiles.len()
            invariant
                self.wf(),
                i <= self@.tiles.len(),
                out@.len() == i,
                forall|j: int| 0 <= j < i ==> #[trigger] out@[j] == self@.point_at(j),
            decreases self@.tiles.len() - i,
        {
            out.push(self.index2point(i));
            i += 1;
        }
        out
    }

    /// The points and tiles of this grid in storage order.
    pub fn iter(&self) -> (r: Vec<(Point, &Tile)>)
        requires
            self.wf(),
        ensures
            r@.len() == self@.tiles.len(),
            forall|i: int| 0 <= i < r@.len() ==> (#[trigger] r@[i]).0 == self@.point_at(i) && *r@[i].1 == self@.tiles[i],
    {
        let mut out: Vec<(Point, &Tile)> = Vec::new();
        let mut i: usize = 0;
        while i < self.tiles.len()
            invariant
                self.wf(),
                i <= self@.tiles.len(),
                out@.len() == i,
                forall|j: int| 0 <= j < i ==> (#[trigger] out@[j]).0 == self@.point_at(j) && *out@[j].1 == self@.tiles[j],
            decreases self@.tiles.len() - i,
        {
            out.push((self.index2point(i), &self.tiles[i]));
            i += 1;
        }
        out
    }
}

impl<Tile: Copy + Default> Grid<Tile> {
    /// A grid of the given dimensions, filled with the default tile; its lower left corner
    /// is `(0, 0)`.
    pub fn new(width: usize, height: usize) -> (r: Grid<Tile>)
        requires
            width * height <= usize::MAX,
            width <= i32::MAX + 1,
            height <= i32::MAX + 1,
        ensures
            r.wf(),
            r@.width == width,
            r@.height == height,
            r@.offset == (Point { x: 0, y: 0 }),
            forall|i: int, j: int| 0 <= i < r@.tiles.len() && 0 <= j < r@.tiles.len() ==> r@.tiles[i] == r@.tiles[j],
            forall|i: int| 0 <= i < r@.tiles.len() ==> call_ensures(Tile::default, (), #[trigger] r@.tiles[i]),
    {
        Self::new_offset(Point::new(0, 0), width, height)
    }

    /// A grid of the given dimensions, filled with the default tile; its lower left corner
    /// is `offset`.
    pub fn new_offset(offset: Point, width: usize, height: usize) -> (r: Grid<Tile>)
        requires
            width * height <= usize::MAX,
            dims_ok(width as nat, height as nat, offset),
        ensures
            r.wf(),
            r@.width == width,
            r@.height == height,
            r@.offset == offset,
            forall|i: int, j: int| 0 <= i < r@.tiles.len() && 0 <= j < r@.tiles.len() ==> r@.tiles[i] == r@.tiles[j],
            forall|i: int| 0 <= i < r@.tiles.len() ==> call_ensures(Tile::default, (), #[trigger] r@.tiles[i]),
    {
        let area = width * height;
        let fill = Tile::default();
        let mut tiles: Vec<Tile> = Vec::with_capacity(area);
        let mut i: usize = 0;
        while i < area
            invariant
                i <= area,
                tiles@.len() == i,
                forall|j: int| 0 <= j < i ==> tiles@[j] == fill,
                call_ensures(Tile::default, (), fill),
            decreases area - i,
        {
            tiles.push(fill);
            i += 1;
        }
        Grid { tiles, width, height, offset }
    }
}

/// How far a walk at `(x, y)` stepping by `(dx, dy)` may still go before it leaves the box.
pub open spec fn steps_left(x: int, y: int, dx: int, dy: int, low_x: int, low_y: int, high_x: int, high_y: int) -> nat {
    let m = if dx > 0 {
        high_x - x
    } else if dx < 0 {
        x - low_x
    } else if dy > 0 {
        high_y - y
    } else {
        y - low_y
    };
    if m < 0 {
        0
    } else {
        (m + 1) as nat
    }
}

/// The boundary points of one side of `g`, in increasing coordinate order.
pub open spec fn edge_points<Tile>(g: GridView<Tile>, side: Direction) -> Seq<Point> {
    if g.width == 0 || g.height == 0 {
        Seq::empty()
    } else {
        match side {
            Direction::Left => Seq::new(g.height, |i: int| Point { x: g.low_x() as i32, y: (g.low_y() + i) as i32 }),
            Direction::Right => Seq::new(g.height, |i: int| Point { x: g.high_x() as i32, y: (g.low_y() + i) as i32 }),
            Direction::Down => Seq::new(g.width, |i: int| Point { x: (g.low_x() + i) as i32, y: g.low_y() as i32 }),
            Direction::Up => Seq::new(g.width, |i: int| Point { x: (g.low_x() + i) as i32, y: g.high_y() as i32 }),
        }
    }
}

/// The points on one edge of a [`Grid`], consumable from either end.
///
/// Created by [`Grid::edge`].
pub struct Edge {
    points: Vec<Point>,
    front: usize,
    back: usize,
}

impl View for Edge {
    type V = Seq<Point>;

    /// The points not yet taken from either end.
    closed spec fn view(&self) -> Seq<Point> {
        self.points@.subrange(self.front as int, self.back as int)
    }
}

impl Edge {
    #[verifier::type_invariant]
    spec fn inv(&self) -> bool {
        self.front <= self.back <= self.points@.len()
    }

    /// Take the next point from the front.
    pub fn next(&mut self) -> (r: Option<Point>)
        ensures
            old(self)@.len() == 0 ==> r is None && final(self)@ == old(self)@,
            old(self)@.len() > 0 ==> r == Some(old(self)@[0]) && final(self)@ == old(self)@.drop_first(),
    {
        proof {
            use_type_invariant(&*self);
        }
        if self.front < self.back {
            let p = self.points[self.front];
            self.front = self.front + 1;
            proof {
                assert(self@ =~= old(self)@.drop_first());
            }
            Some(p)
        } else {
            None
        }
    }

    /// Take the next point from the back.
    pub fn next_back(&mut self) -> (r: Option<Point>)
        ensures
            old(self)@.len() == 0 ==> r is None && final(self)@ == old(self)@,
            old(self)@.len() > 0 ==> r == Some(old(self)@.last()) && final(self)@ == old(self)@.drop_last(),
    {
        proof {
            use_type_invariant(&*self);
        }
        if self.front < self.back {
            self.back = self.back - 1;
            let p = self.points[self.back];
            proof {
                assert(self@ =~= old(self)@.drop_last());
            }
            Some(p)
        } else {
            None
        }
    }

    /// Number of points left.
    pub fn len(&self) -> (r: usize)
        ensures
            r == self@.len(),
    {
        proof {
            use_type_invariant(self);
        }
        self.back - self.front
    }
}

/// The grid holding `rows`, bottom row first, with its lower left corner at the origin.
pub open spec fn stacked<Tile>(rows: Seq<Seq<Tile>>) -> GridView<Tile> {
    let h = rows.len();
    let w = if h == 0 {
        0
    } else {
        rows[0].len()
    };
    GridView {
        tiles: Seq::new(h * w, |i: int| rows[i / (w as int)][i % (w as int)]),
        width: w,
        height: h,
        offset: Point { x: 0, y: 0 },
    }
}

impl<Tile: Copy> Grid<Tile> {
    /// Build a grid from rows of equal length, bottom row first: `source[0][0]` is the
    /// lower left corner, at `(0, 0)`.
    pub fn from_rows(source: &Vec<Vec<Tile>>) -> (r: Grid<Tile>)
        requires
            forall|i: int| 0 <= i < source@.len() ==> (#[trigger] source@[i])@.len() == source@[0]@.len(),
            source@.len() <= i32::MAX + 1,
            source@.len() > 0 ==> source@[0]@.len() <= i32::MAX + 1,
        ensures
            r.wf(),
            r@ == stacked(source@.map_values(|row: Vec<Tile>| row@)),
    {
        let ghost rows = source@.map_values(|row: Vec<Tile>| row@);
        let h = source.len();
        let w: usize = if h == 0 {
            0
        } else {
            source[0].len()
        };
        let mut tiles: Vec<Tile> = Vec::new();
        let mut y: usize = 0;
        while y < h
            invariant
                h == source@.len(),
                h > 0 ==> w == source@[0]@.len(),
                rows == source@.map_values(|row: Vec<Tile>| row@),
                forall|i: int| 0 <= i < source@.len() ==> (#[trigger] source@[i])@.len() == source@[0]@.len(),
                y <= h,
                tiles@.len() == y * w,
                forall|i: int| 0 <= i < tiles@.len() ==> #[trigger] tiles@[i] == rows[i / (w as int)][i % (w as int)],
            decreases h - y,
        {
            let mut x: usize = 0;
            while x < w
                invariant
                    h == source@.len(),
                    h > 0 ==> w == source@[0]@.len(),
                    rows == source@.map_values(|row: Vec<Tile>| row@),
                    forall|i: int| 0 <= i < source@.len() ==> (#[trigger] source@[i])@.len() == source@[0]@.len(),
                    y < h,
                    x <= w,
                    tiles@.len() == y * w + x,
                    forall|i: int| 0 <= i < tiles@.len() ==> #[trigger] tiles@[i] == rows[i / (w as int)][i % (w as int)],
                decreases w - x,
            {
                proof {
                    lemma_index_of_cell(w as int, h as int, x as int, y as int);
                    assert(x + y * w == y * w + x) by (nonlinear_arith);
                }
                tiles.push(source[y][x]);
                x += 1;
            }
            proof {
                assert((y + 1) * w == y * w + w) by (nonlinear_arith);
            }
            y += 1;
        }
        proof {
            assert(h * w == w * h) by (nonlinear_arith);
            assert(tiles@ =~= stacked(rows).tiles);
        }
        Grid { tiles, width: w, height: h, offset: Point::new(0, 0) }
    }
}

/// The smallest box `(low_x, low_y, high_x, high_y)` holding the marked cells of `g`
/// among the first `marks.len()`; `None` when none is marked.
pub open spec fn marked_box<Tile>(g: GridView<Tile>, marks: Seq<bool>) -> Option<(int, int, int, int)>
    decreases marks.len(),
{
    if marks.len() == 0 {
        None
    } else {
        let i = marks.len() - 1;
        let p = g.point_at(i);
        let rest = marked_box(g, marks.drop_last());
        if !marks[i] {
            rest
        } else {
            match rest {
                None => Some((p.x as int, p.y as int, p.x as int, p.y as int)),
                Some((lx, ly, hx, hy)) => Some(
                    (
                        if p.x < lx { p.x as int } else { lx },
                        if p.y < ly { p.y as int } else { ly },
                        if p.x > hx { p.x as int } else { hx },
                        if p.y > hy { p.y as int } else { hy },
                    ),
                ),
            }
        }
    }
}

/// The part of `g` inside the box of its marked cells; an empty grid at the origin when
/// no cell is marked.
pub open spec fn region_of<Tile>(g: GridView<Tile>, marks: Seq<bool>) -> GridView<Tile> {
    match marked_box(g, marks) {
        None => GridView { tiles: Seq::empty(), width: 0, height: 0, offset: Point { x: 0, y: 0 } },
        Some((lx, ly, hx, hy)) => {
            let w = (hx - lx + 1) as nat;
            let h = (hy - ly + 1) as nat;
            GridView {
                tiles: Seq::new(w * h, |i: int| g.tile(lx + i % (w as int), ly + i / (w as int))),
                width: w,
                height: h,
                offset: Point { x: lx as i32, y: ly as i32 },
            }
        },
    }
}

/// The box of marked cells lies within the grid.
proof fn lemma_marked_box_in_bounds<Tile>(g: GridView<Tile>, marks: Seq<bool>)
    requires
        g.wf(),
        marks.len() <= g.tiles.len(),
    ensures
        marked_box(g, marks) matches Some((lx, ly, hx, hy)) ==> g.low_x() <= lx <= hx <= g.high_x() && g.low_y() <= ly <= hy
            <= g.high_y(),
    decreases marks.len(),
{
    if marks.len() > 0 {
        lemma_marked_box_in_bounds(g, marks.drop_last());
        lemma_point_index_round_trip(g, Point { x: 0, y: 0 }, marks.len() - 1);
    }
}

impl<Tile: Copy> Grid<Tile> {
    /// Reduce the grid to the smallest box holding every tile that `is_interesting` picks.
    ///
    /// When it picks none, the result is an empty grid at the origin.
    pub fn extract_interesting_region<F: Fn(Point, &Tile) -> bool>(&self, is_interesting: F) -> (r: Grid<Tile>)
        requires
            self.wf(),
            forall|p: Point, t: &Tile| is_interesting.requires((p, t)),
        ensures
            r.wf(),
            exists|marks: Seq<bool>|
                marks.len() == self@.tiles.len() && (forall|i: int|
                    0 <= i < marks.len() ==> is_interesting.ensures((self@.point_at(i), &self@.tiles[i]), #[trigger] marks[i]))
                    && r@ == region_of(self@, marks),
    {
        let ghost g = self@;
        let ghost mut marks: Seq<bool> = Seq::empty();
        let mut found = false;
        let mut lx: i32 = 0;
        let mut ly: i32 = 0;
        let mut hx: i32 = 0;
        let mut hy: i32 = 0;
        let n = self.tiles.len();
        let mut i: usize = 0;
        while i < n
            invariant
                self.wf(),
                g == self@,
                n == g.tiles.len(),
                i <= n,
                marks.len() == i,
                forall|p: Point, t: &Tile| is_interesting.requires((p, t)),
                forall|j: int| 0 <= j < i ==> is_interesting.ensures((g.point_at(j), &g.tiles[j]), #[trigger] marks[j]),
                found <==> marked_box(g, marks) is Some,
                found ==> marked_box(g, marks) == Some((lx as int, ly as int, hx as int, hy as int)),
            decreases n - i,
        {
            let p = self.index2point(i);
            let pick = is_interesting(p, &self.tiles[i]);
            let ghost old_marks = marks;
            proof {
                marks = marks.push(pick);
                assert(marks.drop_last() =~= old_marks);
            }
            proof {
                assert forall|j: int| 0 <= j < i + 1 implies is_interesting.ensures((g.point_at(j), &g.tiles[j]), #[trigger] marks[j]) by {
                    if j < i {
                        assert(marks[j] == old_marks[j]);
                    }
                }
            }
            if pick {
                if !found {
                    lx = p.x;
                    ly = p.y;
                    hx = p.x;
                    hy = p.y;
                    found = true;
                } else {
                    if p.x < lx {
                        lx = p.x;
                    }
                    if p.y < ly {
                        ly = p.y;
                    }
                    if p.x > hx {
                        hx = p.x;
                    }
                    if p.y > hy {
                        hy = p.y;
                    }
                }
            }
            i += 1;
        }
        proof {
            lemma_marked_box_in_bounds(g, marks);
        }
        if !found {
            return Grid { tiles: Vec::new(), width: 0, height: 0, offset: Point::new(0, 0) };
        }
        let w = (hx as i64 - lx as i64 + 1) as usize;
        let h = (hy as i64 - ly as i64 + 1) as usize;
        proof {
            assert(w <= self.width && h <= self.height);
            assert(w * h <= self.width * self.height) by (nonlinear_arith)
                requires
                    w <= self.width,
                    h <= self.height,
            ;
        }
        let area = w * h;
        let mut tiles: Vec<Tile> = Vec::with_capacity(area);
        let mut k: usize = 0;
        while k < area
            invariant
                self.wf(),
                g == self@,
                area == w * h,
                w > 0,
                h > 0,
                lx + w - 1 <= g.high_x(),
                ly + h - 1 <= g.high_y(),
                g.low_x() <= lx,
                g.low_y() <= ly,
                k <= area,
                tiles@.len() == k,
                forall|j: int| 0 <= j < k ==> #[trigger] tiles@[j] == g.tile(lx + j % (w as int), ly + j / (w as int)),
            decreases area - k,
        {
            proof {
                lemma_cell_of_index(w as int, h as int, k as int);
            }
            let x = lx as i64 + (k % w) as i64;
            let y = ly as i64 + (k / w) as i64;
            let t = *self.at(Point::new(x as i32, y as i32));
            tiles.push(t);
            k += 1;
        }
        proof {
            assert(tiles@ =~= region_of(g, marks).tiles);
        }
        Grid { tiles, width: w, height: h, offset: Point::new(lx, ly) }
    }
}

impl<Tile> Grid<Tile> {
    /// Convert the tiles of this grid to another tile type.
    pub fn convert_tile_type<NewTile>(self) -> (r: Grid<NewTile>)
        where
            Tile: Into<NewTile>,
        requires
            self.wf(),
        ensures
            r.wf(),
            r@.width == self@.width,
            r@.height == self@.height,
            r@.offset == self@.offset,
            r@.tiles.len() == self@.tiles.len(),
            forall|i: int| 0 <= i < r@.tiles.len() ==> call_ensures(Tile::into, (self@.tiles[i],), #[trigger] r@.tiles[i]),
    {
        let Grid { tiles, width, height, offset } = self;
        let ghost old_tiles = tiles@;
        let mut tiles = tiles;
        let mut reversed: Vec<NewTile> = Vec::new();
        while tiles.len() > 0
            invariant
                tiles@ == old_tiles.subrange(0, tiles@.len() as int),
                reversed@.len() == old_tiles.len() - tiles@.len(),
                forall|j: int| 0 <= j < reversed@.len() ==> call_ensures(Tile::into, (old_tiles[old_tiles.len() - 1 - j],), #[trigger] reversed@[j]),
            decreases tiles@.len(),
        {
            let t = tiles.pop().unwrap();
            reversed.push(t.into());
            proof {
                assert(tiles@ =~= old_tiles.subrange(0, tiles@.len() as int));
            }
        }
        let mut converted: Vec<NewTile> = Vec::new();
        while reversed.len() > 0
            invariant
                reversed@.len() + converted@.len() == old_tiles.len(),
                forall|j: int| 0 <= j < reversed@.len() ==> call_ensures(Tile::into, (old_tiles[old_tiles.len() - 1 - j],), #[trigger] reversed@[j]),
                forall|j: int| 0 <= j < converted@.len() ==> call_ensures(Tile::into, (old_tiles[j],), #[trigger] converted@[j]),
            decreases reversed@.len(),
        {
            let ghost before = converted@;
            let t = reversed.pop().unwrap();
            converted.push(t);
            proof {
                assert forall|j: int| 0 <= j < converted@.len() implies call_ensures(Tile::into, (old_tiles[j],), #[trigger] converted@[j]) by {
                    if j < before.len() {
                        assert(converted@[j] == before[j]);
                    }
                }
            }
        }
        Grid { tiles: converted, width, height, offset }
    }
}

} // verus!
