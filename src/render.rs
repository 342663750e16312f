use crate::grid::Grid;
use crate::point::Point;
use crate::tile::ToRgb;
use vstd::prelude::*;

verus! {

/// Relies on `rand::random::<bool>`: a value drawn from the thread-local generator;
/// nothing is promised of which one.
#[verifier::external_body]
fn coin_flip() -> bool {
    rand::random::<bool>()
}

/// The items of `items` whose flag in `mask` is set, in order.
pub open spec fn picked(mask: Seq<bool>, items: Seq<(int, int)>) -> Seq<(int, int)>
    decreases mask.len(),
{
    if mask.len() == 0 || items.len() < mask.len() {
        Seq::empty()
    } else {
        let rest = picked(mask.drop_last(), items);
        if mask.last() {
            rest.push(items[mask.len() - 1])
        } else {
            rest
        }
    }
}

/// How each tile gets rendered.
#[derive(Debug, Clone, Copy, PartialEq, Eq, Structural)]
pub enum Style {
    /// Fill the entire 4x4 area with the tile's color.
    Fill,
    /// Fill a 3x3 area with the tile's color, leaving a 1 pixel black grid pattern between.
    Grid,
    /// Fill a 3x3 cross with the tile's color, leaving black space between.
    Cross,
    /// Fill a 3x3 cross with the tile's color, plus up to 4 more chosen randomly,
    /// for a sparkling effect.
    SparkleCross,
}

/// The five pixels of the cross pattern.
pub open spec fn cross() -> Seq<(int, int)> {
    seq![(1, 0), (0, 1), (1, 1), (2, 1), (1, 2)]
}

/// The four corners of the 3x3 area.
pub open spec fn corners() -> Seq<(int, int)> {
    seq![(0, 0), (0, 2), (2, 0), (2, 2)]
}

/// Every pixel of a `side` x `side` square, row by row.
pub open spec fn square(side: int) -> Seq<(int, int)> {
    Seq::new((side * side) as nat, |i: int| (i % side, i / side))
}

impl Style {
    /// The pixel offsets within a tile's 4x4 area that this style colors.
    ///
    /// The sparkling cross adds each corner of its 3x3 area at random.
    pub fn offsets(self) -> (r: Vec<Point>)
        ensures
            self == Style::Fill ==> r@.map_values(|p: Point| (p.x as int, p.y as int)) == square(4),
            self == Style::Grid ==> r@.map_values(|p: Point| (p.x as int, p.y as int)) == square(3),
            self == Style::Cross ==> r@.map_values(|p: Point| (p.x as int, p.y as int)) == cross(),
            forall|i: int| 0 <= i < r@.len() ==> 0 <= (#[trigger] r@[i]).x < 4 && 0 <= r@[i].y < 4,
            self == Style::SparkleCross ==> r@.len() >= 5 && r@.subrange(0, 5).map_values(|p: Point| (p.x as int, p.y as int))
                == cross() && exists|mask: Seq<bool>|
                mask.len() == 4 && #[trigger] picked(mask, corners()) == r@.subrange(5, r@.len() as int).map_values(
                    |p: Point| (p.x as int, p.y as int),
                ),
    {
        match self {
            Style::Cross => Self::cross_offsets(),
            Style::SparkleCross => {
                let mut out = Self::cross_offsets();
                let corner = vec![Point::new(0, 0), Point::new(0, 2), Point::new(2, 0), Point::new(2, 2)];
                let mut i: usize = 0;
                let ghost mut mask: Seq<bool> = Seq::empty();
                proof {
                    assert(out@.subrange(5, out@.len() as int).map_values(|p: Point| (p.x as int, p.y as int)) =~= picked(mask, corners()));
                }
                while i < 4
                    invariant
                        mask.len() == i,
                        i <= 4,
                        picked(mask, corners()) == out@.subrange(5, out@.len() as int).map_values(|p: Point| (p.x as int, p.y as int)),
                        corner@.len() == 4,
                        forall|k: int| 0 <= k < 4 ==> (corner@[k].x as int, corner@[k].y as int) == #[trigger] corners()[k],
                        out@.len() >= 5,
                        out@.subrange(0, 5).map_values(|p: Point| (p.x as int, p.y as int)) == cross(),
                        forall|k: int| 5 <= k < out@.len() ==> corners().contains((out@[k].x as int, out@[k].y as int)),
                        forall|k: int| 0 <= k < out@.len() ==> 0 <= (#[trigger] out@[k]).x < 4 && 0 <= out@[k].y < 4,
                    decreases 4 - i,
                {
                    let keep = coin_flip();
                    let ghost before = out@;
                    let ghost mask0 = mask;
                    proof {
                        mask = mask.push(keep);
                        assert(mask.drop_last() =~= mask0);
                    }
                    if keep {
                        out.push(corner[i]);
                        proof {
                            assert(out@.subrange(0, 5) =~= before.subrange(0, 5));
                            assert(corners()[i as int] == (corner@[i as int].x as int, corner@[i as int].y as int));
                            assert(out@.subrange(5, out@.len() as int).map_values(|p: Point| (p.x as int, p.y as int)) =~= before.subrange(
                                5,
                                before.len() as int,
                            ).map_values(|p: Point| (p.x as int, p.y as int)).push(corners()[i as int]));
                        }
                    }
                    i += 1;
                }
                out
            },
            Style::Grid => Self::square_offsets(3),
            Style::Fill => Self::square_offsets(4),
        }
    }

    fn cross_offsets() -> (r: Vec<Point>)
        ensures
            r@.map_values(|p: Point| (p.x as int, p.y as int)) == cross(),
            r@.len() == 5,
            forall|i: int| 0 <= i < r@.len() ==> 0 <= (#[trigger] r@[i]).x < 4 && 0 <= r@[i].y < 4,
    {
        let r = vec![Point::new(1, 0), Point::new(0, 1), Point::new(1, 1), Point::new(2, 1), Point::new(1, 2)];
        proof {
            assert(r@.map_values(|p: Point| (p.x as int, p.y as int)) =~= cross());
        }
        r
    }

    fn square_offsets(side: i32) -> (r: Vec<Point>)
        requires
            0 < side <= 4,
        ensures
            r@.map_values(|p: Point| (p.x as int, p.y as int)) == square(side as int),
            forall|i: int| 0 <= i < r@.len() ==> 0 <= (#[trigger] r@[i]).x < 4 && 0 <= r@[i].y < 4,
    {
        let mut out: Vec<Point> = Vec::new();
        let mut y: i32 = 0;
        while y < side
            invariant
                0 < side <= 4,
                0 <= y <= side,
                out@.len() == y * side,
                forall|i: int| 0 <= i < out@.len() ==> (#[trigger] out@[i]).x == i % (side as int) && out@[i].y == i / (side as int),
                forall|i: int| 0 <= i < out@.len() ==> 0 <= (#[trigger] out@[i]).x < side && 0 <= out@[i].y < side,
            decreases side - y,
        {
            let mut x: i32 = 0;
            while x < side
                invariant
                    0 < side <= 4,
                    0 <= y < side,
                    0 <= x <= side,
                    out@.len() == y * side + x,
                    forall|i: int| 0 <= i < out@.len() ==> (#[trigger] out@[i]).x == i % (side as int) && out@[i].y == i / (side as int),
                    forall|i: int| 0 <= i < out@.len() ==> 0 <= (#[trigger] out@[i]).x < side && 0 <= out@[i].y < side,
                decreases side - x,
            {
                proof {
                    crate::grid::lemma_index_of_cell(side as int, side as int, x as int, y as int);
                    assert(x + y * side == y * side + x) by (nonlinear_arith);
                }
                out.push(Point::new(x, y));
                x += 1;
            }
            proof {
                assert((y + 1) * side == y * side + side) by (nonlinear_arith);
            }
            y += 1;
        }
        proof {
            assert(out@.map_values(|p: Point| (p.x as int, p.y as int)) =~= square(side as int));
        }
        out
    }
}

/// Each tile is 4px wide, with a 2px margin on the outside edges of the image.
pub fn pixel_width(width: usize) -> (r: u16)
    requires
        (width + 1) * 4 <= u16::MAX,
    ensures
        r == (width + 1) * 4,
{
    ((width + 1) * 4) as u16
}

/// Each tile is 4px high, with a 2px margin on the outside edges of the image.
pub fn pixel_height(height: usize) -> (r: u16)
    requires
        (height + 1) * 4 <= u16::MAX,
    ensures
        r == (height + 1) * 4,
{
    ((height + 1) * 4) as u16
}

/// Total pixels in the image of a map.
pub fn n_pixels_for(width: usize, height: usize) -> (r: usize)
    requires
        (width + 1) * 4 <= u16::MAX,
        (height + 1) * 4 <= u16::MAX,
    ensures
        r == ((width + 1) * 4) * ((height + 1) * 4),
{
    let w = pixel_width(width) as usize;
    let h = pixel_height(height) as usize;
    assert(w * h <= 65535 * 65535) by (nonlinear_arith)
        requires
            w <= 65535,
            h <= 65535,
    ;
    w * h
}

/// Index of the first subpixel of the pixel at `offset` within the tile at `position`.
pub open spec fn subpixel_index(position: Point, offset: (int, int), width: int) -> int {
    let row = (width + 1) * 4;
    (2 + 2 * row + position.x * 4 + position.y * 4 * row + offset.0 + offset.1 * row) * 3
}

/// The pixels that every rendering in `style` colors.
pub open spec fn fixed_pattern(style: Style) -> Seq<(int, int)> {
    match style {
        Style::Fill => square(4),
        Style::Grid => square(3),
        Style::Cross => cross(),
        Style::SparkleCross => cross(),
    }
}

/// The pixel starting at subpixel `i` of `buf` has color `rgb`.
pub open spec fn pixel_is(buf: Seq<u8>, i: int, rgb: [u8; 3]) -> bool {
    buf[i] == rgb@[0] && buf[i + 1] == rgb@[1] && buf[i + 2] == rgb@[2]
}

/// Color one tile into an RGB subpixel buffer whose rows hold `width` tiles plus margins.
pub fn render_point<Tile: ToRgb>(position: Point, tile: &Tile, subpixels: &mut Vec<u8>, width: usize, style: Style)
    requires
        0 <= position.x,
        0 <= position.y,
        (width + 1) * 4 <= u16::MAX,
        forall|ox: int, oy: int| 0 <= ox < 4 && 0 <= oy < 4 ==> subpixel_index(position, (ox, oy), width as int) + 3 <= old(subpixels)@.len(),
    ensures
        final(subpixels)@.len() == old(subpixels)@.len(),
        forall|k: int|
            0 <= k < fixed_pattern(style).len() ==> pixel_is(
                final(subpixels)@,
                #[trigger] subpixel_index(position, fixed_pattern(style)[k], width as int),
                tile.rgb_spec(),
            ),
        forall|i: int|
            0 <= i < final(subpixels)@.len() && #[trigger] final(subpixels)@[i] != old(subpixels)@[i] ==> exists|ox: int, oy: int|
                0 <= ox < 4 && 0 <= oy < 4 && #[trigger] subpixel_index(position, (ox, oy), width as int) <= i < subpixel_index(position, (ox, oy), width as int) + 3,
{
    let rgb = tile.to_rgb();
    let offsets = style.offsets();
    let row = ((width + 1) * 4) as usize;
    let mut k: usize = 0;
    while k < offsets.len()
        invariant
            0 <= position.x,
            0 <= position.y,
            row == (width + 1) * 4,
            row <= u16::MAX,
            forall|ox: int, oy: int| 0 <= ox < 4 && 0 <= oy < 4 ==> subpixel_index(position, (ox, oy), width as int) + 3 <= old(subpixels)@.len(),
            forall|i: int| 0 <= i < offsets@.len() ==> 0 <= (#[trigger] offsets@[i]).x < 4 && 0 <= offsets@[i].y < 4,
            subpixels@.len() == old(subpixels)@.len(),
            rgb == tile.rgb_spec(),
            k <= offsets@.len(),
            forall|j: int|
                0 <= j < k ==> pixel_is(
                    subpixels@,
                    #[trigger] subpixel_index(position, (offsets@[j].x as int, offsets@[j].y as int), width as int),
                    rgb,
                ),
            forall|i: int|
                0 <= i < subpixels@.len() && #[trigger] subpixels@[i] != old(subpixels)@[i] ==> exists|ox: int, oy: int|
                    0 <= ox < 4 && 0 <= oy < 4 && #[trigger] subpixel_index(position, (ox, oy), width as int) <= i < subpixel_index(position, (ox, oy), width as int) + 3,
        decreases offsets@.len() - k,
    {
        let o = offsets[k];
        let ghost base = subpixel_index(position, (o.x as int, o.y as int), width as int);
        assert(base + 3 <= subpixels@.len());
        let r = row as u128;
        let px = position.x as u128;
        let py = position.y as u128;
        assert(px * 4 <= 0x1_0000_0000 * 4) by (nonlinear_arith)
            requires
                px < 0x1_0000_0000,
        ;
        assert(py * 4 * r <= 0x1_0000_0000 * 4 * 65535) by (nonlinear_arith)
            requires
                py < 0x1_0000_0000,
                r <= 65535,
        ;
        assert(o.y as u128 * r <= 4 * 65535) by (nonlinear_arith)
            requires
                o.y < 4,
                0 <= o.y,
                r <= 65535,
        ;
        let wide = (2 + 2 * r + px * 4 + py * 4 * r + o.x as u128 + o.y as u128 * r) * 3;
        assert(wide == base);
        let len = subpixels.len();
        assert(wide + 3 <= len);
        let idx = wide as usize;
        let ghost before = subpixels@;
        subpixels.set(idx, rgb[0]);
        subpixels.set(idx + 1, rgb[1]);
        subpixels.set(idx + 2, rgb[2]);
        proof {
            assert forall|i: int|
                0 <= i < subpixels@.len() && #[trigger] subpixels@[i] != old(subpixels)@[i] implies exists|ox: int, oy: int|
                    0 <= ox < 4 && 0 <= oy < 4 && #[trigger] subpixel_index(position, (ox, oy), width as int) <= i < subpixel_index(position, (ox, oy), width as int) + 3 by {
                if idx <= i < idx + 3 {
                    assert(subpixel_index(position, (o.x as int, o.y as int), width as int) <= i);
                } else {
                    assert(subpixels@[i] == before[i]);
                }
            }
            assert forall|j: int| 0 <= j < k + 1 implies pixel_is(
                subpixels@,
                #[trigger] subpixel_index(position, (offsets@[j].x as int, offsets@[j].y as int), width as int),
                rgb,
            ) by {
                let q = subpixel_index(position, (offsets@[j].x as int, offsets@[j].y as int), width as int);
                if j < k && q != base {
                    assert(pixel_is(before, q, rgb));
                    assert(q <= base - 3 || q >= base + 3);
                }
            }
        }
        k += 1;
    }
    proof {
        let f = |p: Point| (p.x as int, p.y as int);
        assert forall|k: int| 0 <= k < fixed_pattern(style).len() implies pixel_is(
            subpixels@,
            #[trigger] subpixel_index(position, fixed_pattern(style)[k], width as int),
            rgb,
        ) by {
            if style == Style::SparkleCross {
                assert(offsets@.subrange(0, 5).map_values(f)[k] == f(offsets@[k]));
            } else {
                assert(offsets@.map_values(f)[k] == f(offsets@[k]));
            }
        }
    }
}

/// The RGB subpixels of a whole map, tile by tile, with black margins and gaps.
pub fn frame_pixels<Tile: ToRgb>(grid: &Grid<Tile>, style: Style) -> (r: Vec<u8>)
    requires
        grid.wf(),
        (grid@.width + 1) * 4 <= u16::MAX,
        (grid@.height + 1) * 4 <= u16::MAX,
        3 * (((grid@.width + 1) * 4) * ((grid@.height + 1) * 4)) <= usize::MAX,
    ensures
        r@.len() == 3 * (((grid@.width + 1) * 4) * ((grid@.height + 1) * 4)),
{
    let width = grid.width();
    let height = grid.height();
    let n = n_pixels_for(width, height);
    assert(n * 3 <= 65535 * 65535 * 3) by (nonlinear_arith)
        requires
            n == ((width + 1) * 4) * ((height + 1) * 4),
            (width + 1) * 4 <= 65535,
            (height + 1) * 4 <= 65535,
    ;
    let mut subpixels: Vec<u8> = vec![0; n * 3];
    let cells = grid.iter();
    let offset = grid.offset();
    let mut k: usize = 0;
    while k < cells.len()
        invariant
            grid.wf(),
            width == grid@.width,
            height == grid@.height,
            offset == grid@.offset,
            (width + 1) * 4 <= u16::MAX,
            (height + 1) * 4 <= u16::MAX,
            subpixels@.len() == n * 3,
            n == ((width + 1) * 4) * ((height + 1) * 4),
            cells@.len() == grid@.tiles.len(),
            forall|i: int| 0 <= i < cells@.len() ==> (#[trigger] cells@[i]).0 == grid@.point_at(i),
        decreases cells@.len() - k,
    {
        let (point, tile) = cells[k];
        proof {
            crate::grid::lemma_point_index_round_trip(grid@, point, k as int);
        }
        let position = Point::new(
            (point.x as i64 - offset.x as i64) as i32,
            (point.y as i64 - offset.y as i64) as i32,
        );
        proof {
            let w = width as int;
            let h = height as int;
            let row = (w + 1) * 4;
            let px = position.x as int;
            let py = position.y as int;
            assert forall|ox: int, oy: int| 0 <= ox < 4 && 0 <= oy < 4 implies subpixel_index(position, (ox, oy), w) + 3 <= subpixels@.len() by {
                assert(subpixel_index(position, (ox, oy), w) + 3 <= n * 3) by (nonlinear_arith)
                    requires
                        0 <= px < w,
                        0 <= py < h,
                        0 <= ox < 4,
                        0 <= oy < 4,
                        row == (w + 1) * 4,
                        n == row * ((h + 1) * 4),
                        subpixel_index(position, (ox, oy), w) == (2 + 2 * row + px * 4 + py * 4 * row + ox + oy * row) * 3,
                ;
            }
        }
        render_point(position, tile, &mut subpixels, width, style);
        k += 1;
    }
    subpixels
}

} // verus!
