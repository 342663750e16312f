use aoclib::context::ContextInto;
use aoclib::grid::Grid;
use aoclib::parse::MapConversionErr;
use aoclib::point::Point;
use aoclib::tile::{Digit, ParseTile};
use aoclib::traversable::Traversable;

/// A height tile: height 9 is a wall.
#[derive(Clone, Copy, Debug, PartialEq, Eq, PartialOrd, Ord)]
struct Height(Digit);

impl aoclib::tile::DisplayWidth for Height {
    fn display_width() -> usize {
        1
    }
}

impl aoclib::tile::ParseTile for Height {
    fn parse_tile(s: &[char]) -> Result<Height, String> {
        Digit::parse_tile(s).map(Height)
    }
}

impl ContextInto<Traversable> for Height {
    type Context = ();

    fn ctx_into(self, _position: Point, _context: &()) -> Traversable {
        match self.0.value() {
            9 => Traversable::Obstructed,
            _ => Traversable::Free,
        }
    }
}


const EXAMPLE: &str = r"
2199943210
3987894921
9856789892
8767896789
9899965678
";

fn read_input(example: &str) -> Result<(Grid<Height>, Vec<Point>), MapConversionErr> {
    let lines: Vec<String> = example.trim().lines().map(String::from).collect();
    let map = Grid::<Height>::try_from(&lines)?;
    let low_points = map
        .iter()
        .iter()
        .filter(|(point, height)| {
            map.orthogonal_adjacencies(*point)
                .iter()
                .all(|adj| *map.get(*adj) > **height)
        })
        .map(|(point, _)| *point)
        .collect();
    Ok((map, low_points))
}

#[test]
fn test_example_finds_region_without_overflow() {
    let (map, low_points) = read_input(EXAMPLE).unwrap();
    let mut region_sizes: Vec<u64> = low_points
        .iter()
        .map(|point| {
            let mut size: u64 = 0;
            map.reachable_from(*point, |_point, _tile| {
                size += 1;
                false
            });
            size
        })
        .collect();
    region_sizes.sort_unstable();
    let basin_size_product: u64 = region_sizes.iter().rev().take(3).product();
    assert_eq!(basin_size_product, 1134);
}

#[test]
fn parsing_puts_the_last_line_at_the_bottom() {
    let (map, low_points) = read_input(EXAMPLE).unwrap();
    assert_eq!(map.width(), 10);
    assert_eq!(map.height(), 5);
    assert_eq!(map.get(Point::new(0, 4)).0.value(), 2);
    assert_eq!(map.get(Point::new(0, 0)).0.value(), 9);
    assert_eq!(low_points.len(), 4);
}

#[test]
fn parsing_rejects_ragged_rows_and_bad_tiles() {
    let ragged = vec!["123".to_string(), "12".to_string()];
    assert!(matches!(Grid::<Digit>::try_from(&ragged), Err(MapConversionErr::NotRectangular)));
    let bad = vec!["12x".to_string(), "123".to_string()];
    match Grid::<Digit>::try_from(&bad) {
        Err(MapConversionErr::TileConversion(_, raw)) => assert_eq!(raw, "x"),
        other => panic!("unexpected {:?}", other),
    }
    let later = vec!["123".to_string(), "4y6".to_string(), "z".to_string()];
    match Grid::<Digit>::try_from(&later) {
        Err(MapConversionErr::TileConversion(_, raw)) => assert_eq!(raw, "y"),
        other => panic!("unexpected {:?}", other),
    }
    let empty: Vec<String> = vec![String::new()];
    let map = Grid::<Digit>::try_from(&empty).unwrap();
    assert_eq!(map.width(), 0);
    assert_eq!(map.height(), 0);
}

#[test]
fn two_digit_tiles_parse_padded_values() {
    let lines = vec![" 07 42".to_string(), "  5 99".to_string()];
    let map = Grid::<aoclib::tile::TwoDigits>::try_from(&lines).unwrap();
    let values: Vec<u8> = map.tiles().iter().map(|t| t.value()).collect();
    assert_eq!(values, vec![5, 99, 7, 42]);
    let uneven = vec![" 07 4".to_string()];
    match Grid::<aoclib::tile::TwoDigits>::try_from(&uneven) {
        Err(MapConversionErr::TileConversion(_, raw)) => assert_eq!(raw, " 4"),
        other => panic!("unexpected {:?}", other),
    }
}
