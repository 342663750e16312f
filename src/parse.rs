use crate::grid::{stacked, Grid, GridView};
use crate::point::Point;
use crate::tile::{chunks, DisplayWidth, ParseTile};
use vstd::prelude::*;
use vstd::string::StrSliceExecFns;

verus! {

/// Why a grid could not be read from text.
#[derive(Debug)]
pub enum MapConversionErr {
    /// One tile's text did not parse: the cause, then the text.
    TileConversion(String, String),
    /// Rows hold different numbers of tiles.
    NotRectangular,
    /// Reading the text failed.
    Io(String),
}

/// The `i`th chunk of `w` characters of `line`.
pub open spec fn chunk_at(line: Seq<char>, w: nat, i: int) -> Seq<char> {
    line.subrange(i * w, i * w + w)
}

/// The tiles of one line of text, when it splits evenly into tiles that all parse.
pub open spec fn row_of<Tile: DisplayWidth + ParseTile>(line: Seq<char>) -> Option<Seq<Tile>> {
    let w = Tile::width_spec();
    let n = line.len() as int / w as int;
    if line.len() as int % w as int == 0 && forall|i: int| 0 <= i < n ==> (#[trigger] Tile::parse_spec(chunk_at(line, w, i))) is Some {
        Some(Seq::new(n as nat, |i: int| Tile::parse_spec(chunk_at(line, w, i)).unwrap()))
    } else {
        None
    }
}

/// Index of the first of the chunks `i..n` of `line` that does not parse, or `n` if all do.
pub open spec fn first_bad_chunk<Tile: DisplayWidth + ParseTile>(line: Seq<char>, i: int, n: int) -> int
    decreases n - i,
{
    if i >= n {
        n
    } else if Tile::parse_spec(chunk_at(line, Tile::width_spec(), i)) is None {
        i
    } else {
        first_bad_chunk::<Tile>(line, i + 1, n)
    }
}

/// The text that the error for a bad line carries: its first chunk that does not parse, or
/// else the characters left over after its whole chunks.
pub open spec fn bad_text<Tile: DisplayWidth + ParseTile>(line: Seq<char>) -> Seq<char> {
    let w = Tile::width_spec();
    let n = line.len() as int / w as int;
    let k = first_bad_chunk::<Tile>(line, 0, n);
    if k < n {
        chunk_at(line, w, k)
    } else {
        line.subrange(n * w, line.len() as int)
    }
}

/// When chunks `0..i` all parse, the search for the first bad chunk may start at `i`.
proof fn lemma_first_bad_from<Tile: DisplayWidth + ParseTile>(line: Seq<char>, i: int, n: int)
    requires
        0 <= i <= n,
        forall|k: int| 0 <= k < i ==> (#[trigger] Tile::parse_spec(chunk_at(line, Tile::width_spec(), k))) is Some,
    ensures
        first_bad_chunk::<Tile>(line, 0, n) == first_bad_chunk::<Tile>(line, i, n),
    decreases i,
{
    if i > 0 {
        lemma_first_bad_from::<Tile>(line, i - 1, n);
        assert(Tile::parse_spec(chunk_at(line, Tile::width_spec(), i - 1)) is Some);
    }
}

/// Every line reads as a row of tiles.
pub open spec fn lines_parse<Tile: DisplayWidth + ParseTile>(lines: Seq<Seq<char>>) -> bool {
    forall|l: int| 0 <= l < lines.len() ==> (#[trigger] row_of::<Tile>(lines[l])) is Some
}

/// The non-empty rows of tiles read from `lines`, top line first.
pub open spec fn rows_of<Tile: DisplayWidth + ParseTile>(lines: Seq<Seq<char>>) -> Seq<Seq<Tile>>
    decreases lines.len(),
{
    if lines.len() == 0 {
        Seq::empty()
    } else {
        let rest = rows_of::<Tile>(lines.drop_last());
        let row = row_of::<Tile>(lines.last()).unwrap();
        if row.len() == 0 {
            rest
        } else {
            rest.push(row)
        }
    }
}

/// All rows have the length of the first.
pub open spec fn rectangular<Tile>(rows: Seq<Seq<Tile>>) -> bool {
    forall|i: int| 0 <= i < rows.len() ==> (#[trigger] rows[i]).len() == rows[0].len()
}

/// The grid whose rows, bottom row first, are `rows` in reverse order; its lower left
/// corner is the origin.
pub open spec fn grid_of_rows<Tile>(rows: Seq<Seq<Tile>>) -> GridView<Tile> {
    stacked(Seq::new(rows.len(), |i: int| rows[rows.len() - 1 - i]))
}

/// The characters of each line.
pub open spec fn text_of(lines: Seq<String>) -> Seq<Seq<char>> {
    lines.map_values(|s: String| s@)
}

/// The characters of `s`.
pub(crate) fn chars_of(s: &str) -> (r: Vec<char>)
    ensures
        r@ == s@,
{
    let n = s.unicode_len();
    let mut out: Vec<char> = Vec::new();
    let mut i: usize = 0;
    while i < n
        invariant
            n == s@.len(),
            i <= n,
            out@ == s@.subrange(0, i as int),
        decreases n - i,
    {
        out.push(s.get_char(i));
        proof {
            assert(out@ =~= s@.subrange(0, i + 1));
        }
        i += 1;
    }
    proof {
        assert(out@ =~= s@);
    }
    out
}

/// Relies on `String`'s `FromIterator<&char>`: the string of exactly these characters.
#[verifier::external_body]
pub(crate) fn string_of(chars: &[char]) -> (r: String)
    ensures
        r@ == chars@,
{
    chars.iter().collect::<String>()
}

/// Read one line into a row of tiles, or the error for its first bad tile.
fn read_row<Tile: DisplayWidth + ParseTile>(line: &str) -> (r: Result<Vec<Tile>, MapConversionErr>)
    ensures
        r is Ok <==> row_of::<Tile>(line@) is Some,
        r matches Ok(row) ==> row_of::<Tile>(line@) == Some(row@),
        r matches Err(e) ==> e is TileConversion,
        r matches Err(MapConversionErr::TileConversion(_, raw)) ==> raw@ == bad_text::<Tile>(line@),
{
    let w = Tile::display_width();
    let chars = chars_of(line);
    let parts = chunks(chars.as_slice(), w);
    let ghost n = line@.len() as int / w as int;
    let mut row: Vec<Tile> = Vec::new();
    let mut i: usize = 0;
    while i < parts.len()
        invariant
            w == Tile::width_spec(),
            w > 0,
            chars@ == line@,
            parts@.len() == n,
            n == line@.len() as int / w as int,
            forall|k: int| 0 <= k < parts@.len() ==> (#[trigger] parts@[k])@ == chunk_at(line@, w as nat, k),
            i <= parts@.len(),
            row@.len() == i,
            forall|k: int| 0 <= k < i ==> Tile::parse_spec(chunk_at(line@, w as nat, k)) == Some(#[trigger] row@[k]),
        decreases parts@.len() - i,
    {
        match Tile::parse_tile(parts[i].as_slice()) {
            Ok(t) => {
                row.push(t);
            },
            Err(cause) => {
                assert(Tile::parse_spec(chunk_at(line@, w as nat, i as int)) is None);
                proof {
                    assert forall|k: int| 0 <= k < i implies (#[trigger] Tile::parse_spec(chunk_at(line@, Tile::width_spec(), k))) is Some by {
                        assert(Tile::parse_spec(chunk_at(line@, w as nat, k)) == Some(row@[k]));
                    }
                    lemma_first_bad_from::<Tile>(line@, i as int, n);
                }
                return Err(MapConversionErr::TileConversion(cause, string_of(parts[i].as_slice())));
            },
        }
        i += 1;
    }
    let len = chars.len();
    proof {
        vstd::arithmetic::div_mod::lemma_fundamental_div_mod(line@.len() as int, w as int);
        vstd::arithmetic::div_mod::lemma_mod_bound(line@.len() as int, w as int);
        assert(w * (line@.len() as int / w as int) == (line@.len() as int / w as int) * w) by (nonlinear_arith);
    }
    let used = parts.len() * w;
    if used < chars.len() {
        let mut tail: Vec<char> = Vec::new();
        let mut k: usize = used;
        while k < chars.len()
            invariant
                used <= k <= chars@.len(),
                tail@ == chars@.subrange(used as int, k as int),
            decreases chars@.len() - k,
        {
            tail.push(chars[k]);
            proof {
                assert(tail@ =~= chars@.subrange(used as int, k + 1));
            }
            k += 1;
        }
        proof {
            assert forall|k: int| 0 <= k < n implies (#[trigger] Tile::parse_spec(chunk_at(line@, Tile::width_spec(), k))) is Some by {
                assert(Tile::parse_spec(chunk_at(line@, w as nat, k)) == Some(row@[k]));
            }
            lemma_first_bad_from::<Tile>(line@, n, n);
        }
        let rest = string_of(tail.as_slice());
        return Err(MapConversionErr::TileConversion("incomplete tile".to_owned(), rest));
    }
    proof {
        assert(line@.len() as int % w as int == 0);
        assert forall|i: int| 0 <= i < n implies (#[trigger] Tile::parse_spec(chunk_at(line@, w as nat, i))) is Some by {
            assert(Tile::parse_spec(chunk_at(line@, w as nat, i)) == Some(row@[i]));
        }
        assert(row_of::<Tile>(line@) is Some);
        assert(row@ =~= row_of::<Tile>(line@).unwrap());
    }
    Ok(row)
}

impl<Tile: Copy + DisplayWidth + ParseTile> Grid<Tile> {
    /// Read a grid from lines of text in graphical order: the first line is the top row,
    /// the last line becomes row 0. Lines without tiles are skipped.
    pub fn try_from(lines: &Vec<String>) -> (r: Result<Grid<Tile>, MapConversionErr>)
        requires
            lines@.len() <= i32::MAX,
            forall|l: int| 0 <= l < lines@.len() ==> (#[trigger] lines@[l])@.len() <= i32::MAX,
        ensures
            r is Ok <==> lines_parse::<Tile>(text_of(lines@)) && rectangular(rows_of::<Tile>(text_of(lines@))),
            r matches Err(e) ==> (e is NotRectangular <==> lines_parse::<Tile>(text_of(lines@))),
            r matches Err(e) ==> !(e is Io),
            r matches Err(MapConversionErr::TileConversion(_, raw)) ==> exists|l: int|
                0 <= l < lines@.len() && row_of::<Tile>(text_of(lines@)[l]) is None && (forall|k: int|
                    0 <= k < l ==> (#[trigger] row_of::<Tile>(text_of(lines@)[k])) is Some) && raw@ == bad_text::<Tile>(
                    text_of(lines@)[l],
                ),
            r matches Ok(g) ==> g.wf() && g@ == grid_of_rows(rows_of::<Tile>(text_of(lines@))),
    {
        let ghost text = text_of(lines@);
        // learn that tiles are at least one character wide
        Tile::display_width();
        let mut rows: Vec<Vec<Tile>> = Vec::new();
        let mut l: usize = 0;
        while l < lines.len()
            invariant
                text == text_of(lines@),
                Tile::width_spec() > 0,
                l <= lines@.len(),
                lines@.len() <= i32::MAX,
                forall|k: int| 0 <= k < lines@.len() ==> (#[trigger] lines@[k])@.len() <= i32::MAX,
                lines_parse::<Tile>(text.subrange(0, l as int)),
                rows@.map_values(|row: Vec<Tile>| row@) == rows_of::<Tile>(text.subrange(0, l as int)),
                rows@.len() <= l,
                forall|k: int| 0 <= k < rows@.len() ==> (#[trigger] rows@[k])@.len() <= i32::MAX,
            decreases lines@.len() - l,
        {
            let ghost prefix = text.subrange(0, l as int);
            let ghost next = text.subrange(0, l + 1);
            proof {
                assert(next.drop_last() =~= prefix);
                assert(next.last() == lines@[l as int]@);
            }
            match read_row::<Tile>(lines[l].as_str()) {
                Ok(row) => {
                    proof {
                        let x = lines@[l as int]@.len() as int;
                        let wd = Tile::width_spec() as int;
                        assert(x / wd <= x) by (nonlinear_arith)
                            requires
                                wd >= 1,
                                x >= 0,
                        ;
                        assert forall|k: int| 0 <= k < next.len() implies (#[trigger] row_of::<Tile>(next[k])) is Some by {
                            if k < l {
                                assert(next[k] == prefix[k]);
                            }
                        }
                    }
                    if row.len() > 0 {
                        let ghost rows0 = rows@;
                        rows.push(row);
                        proof {
                            assert(rows@.map_values(|row: Vec<Tile>| row@) =~= rows0.map_values(|row: Vec<Tile>| row@).push(row_of::<Tile>(next.last()).unwrap()));
                        }
                    }
                },
                Err(e) => {
                    proof {
                        assert(!lines_parse::<Tile>(text)) by {
                            assert(text[l as int] == lines@[l as int]@);
                        }
                        assert(text[l as int] == lines@[l as int]@);
                        assert forall|k: int| 0 <= k < l implies (#[trigger] row_of::<Tile>(text[k])) is Some by {
                            assert(prefix[k] == text[k]);
                        }
                    }
                    return Err(e);
                },
            }
            l += 1;
        }
        proof {
            assert(text.subrange(0, lines@.len() as int) =~= text);
        }
        let ghost all = rows@.map_values(|row: Vec<Tile>| row@);
        let h = rows.len();
        let mut i: usize = 0;
        while i < h
            invariant
                h == rows@.len(),
                i <= h,
                all == rows@.map_values(|row: Vec<Tile>| row@),
                all == rows_of::<Tile>(text),
                text == text_of(lines@),
                lines_parse::<Tile>(text),
                forall|k: int| 0 <= k < i ==> (#[trigger] all[k]).len() == all[0].len(),
            decreases h - i,
        {
            if rows[i].len() != rows[0].len() {
                proof {
                    assert(all[i as int] == rows@[i as int]@);
                    assert(all[0] == rows@[0]@);
                    assert(all[i as int].len() != all[0].len());
                }
                return Err(MapConversionErr::NotRectangular);
            }
            i += 1;
        }
        let mut rev: Vec<Vec<Tile>> = Vec::new();
        while rows.len() > 0
            invariant
                h == all.len(),
                rows@.len() <= h,
                rows@.map_values(|row: Vec<Tile>| row@) == all.subrange(0, rows@.len() as int),
                rev@.len() == h - rows@.len(),
                forall|k: int| 0 <= k < rev@.len() ==> (#[trigger] rev@[k])@ == all[h - 1 - k],
            decreases rows@.len(),
        {
            let ghost rows0 = rows@;
            let row = rows.pop().unwrap();
            proof {
                assert(rows0.map_values(|row: Vec<Tile>| row@)[rows0.len() - 1] == rows0[rows0.len() - 1]@);
                assert(row@ == all[rows0.len() - 1]);
                assert(rows@.map_values(|row: Vec<Tile>| row@) =~= all.subrange(0, rows@.len() as int));
            }
            rev.push(row);
        }
        proof {
            assert(rev@.map_values(|row: Vec<Tile>| row@) =~= Seq::new(all.len(), |k: int| all[all.len() - 1 - k]));
        }
        let grid = Grid::from_rows(&rev);
        Ok(grid)
    }
}

} // verus!
