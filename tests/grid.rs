use aoclib::context::ContextInto;
use aoclib::direction::Direction;
use aoclib::grid::Grid;
use aoclib::point::Point;
use aoclib::tile::Digit;
use aoclib::traversable::Traversable;
use std::collections::HashSet;

fn digits(map: &Grid<Digit>) -> Vec<u8> {
    map.tiles().iter().map(|&digit| digit.value()).collect()
}

#[test]
fn test_procedural() {
    let map = Grid::procedural(2, 2, |point| point.x + point.y);
    assert_eq!(map.width(), 2);
    assert_eq!(map.height(), 2);
    assert_eq!(map.offset(), Point::default());
    assert_eq!(map.tiles().to_vec(), vec![0, 1, 1, 2]);
    assert!(map.iter().iter().all(|(point, tile)| point.x + point.y == **tile));
}

#[test]
fn test_procedural_offset() {
    let map = Grid::procedural_offset(Point::new(2, 1), 2, 2, |point| point.x + point.y);
    assert_eq!(map.width(), 2);
    assert_eq!(map.height(), 2);
    assert_eq!(map.offset(), Point::new(2, 1));
    assert_eq!(map.tiles().to_vec(), vec![3, 4, 4, 5]);
    assert!(map.iter().iter().all(|(point, tile)| point.x + point.y == **tile));
}

#[test]
fn test_point_index_conversion_no_offset() {
    const EDGE: usize = 256;
    const AREA: usize = EDGE * EDGE;

    let map = Grid::<()>::new(EDGE, EDGE);
    let mut emitted_points = HashSet::new();
    for idx in 0..AREA {
        let point = map.index2point(idx);
        assert!(
            emitted_points.insert(point),
            "no duplicate point should ever be emitted"
        );
        assert_eq!(idx, map.point2index(point.x as usize, point.y as usize));
    }
}

#[test]
fn test_point_index_conversion_with_offset() {
    const EDGE: usize = 256;
    const AREA: usize = EDGE * EDGE;

    let map = Grid::<()>::new_offset(Point::new(3, 2), EDGE, EDGE);
    let mut emitted_points = HashSet::new();
    for idx in 0..AREA {
        let point = map.index2point(idx);
        assert!(
            emitted_points.insert(point),
            "no duplicate point should ever be emitted"
        );
        assert_eq!(idx, map.point2index(point.x as usize, point.y as usize));
    }
}

#[test]
fn test_boundaries_no_offset() {
    const EDGE: usize = 256;

    let map = Grid::<()>::new(EDGE, EDGE);

    assert_eq!(map.low_x(), 0);
    assert_eq!(map.high_x(), 255);
    assert_eq!(map.low_y(), 0);
    assert_eq!(map.high_y(), 255);
}

#[test]
fn test_boundaries_with_offset() {
    const EDGE: usize = 256;

    let map = Grid::<()>::new_offset(Point::new(3, 2), EDGE, EDGE);

    assert_eq!(map.low_x(), 3);
    assert_eq!(map.high_x(), EDGE as i32 + 3 - 1);
    assert_eq!(map.low_y(), 2);
    assert_eq!(map.high_y(), EDGE as i32 + 2 - 1);
}

#[test]
fn test_translate() {
    let mut map = Grid::procedural(2, 2, |point| point.x + point.y);
    map.translate(2, 1);

    assert_eq!(map.width(), 2);
    assert_eq!(map.height(), 2);
    assert_eq!(map.offset(), Point::new(2, 1));
    assert_eq!(map.tiles().to_vec(), vec![0, 1, 1, 2]);
    let offset = map.offset();
    assert!(map.iter().iter().all(|(point, tile)| {
        let point = point.sub(offset);
        point.x + point.y == **tile
    }));
}

#[test]
fn test_extract_interesting_region() {
    let map = Grid::procedural(2, 2, |point| point.x + point.y);
    let map = map.extract_interesting_region(|point, _tile| point.x != 0);

    assert_eq!(map.width(), 1);
    assert_eq!(map.height(), 2);
    assert_eq!(map.offset(), Point::new(1, 0));
    assert_eq!(map.tiles().to_vec(), vec![1, 2]);
}

#[test]
fn test_flip_vertical() {
    let map = Grid::procedural_offset(Point::new(3, 2), 2, 3, |point| point.x + point.y);
    let bottom_left = map.bottom_left();
    let top_right = map.top_right();
    assert_eq!(map.tiles().to_vec(), vec![5, 6, 6, 7, 7, 8]);

    let flip_map = map.flip_vertical();
    assert_eq!(flip_map.bottom_left(), bottom_left);
    assert_eq!(flip_map.top_right(), top_right);

    assert_eq!(flip_map.width(), 2);
    assert_eq!(flip_map.height(), 3);
    assert_eq!(flip_map.tiles().to_vec(), vec![7, 8, 6, 7, 5, 6]);

    assert_eq!(flip_map.flip_vertical(), map);
}

#[test]
fn test_flip_horizontal() {
    let map = Grid::procedural_offset(Point::new(3, 2), 2, 3, |point| point.x + point.y);
    let bottom_left = map.bottom_left();
    let top_right = map.top_right();
    assert_eq!(map.tiles().to_vec(), vec![5, 6, 6, 7, 7, 8]);

    let flip_map = map.flip_horizontal();
    assert_eq!(flip_map.bottom_left(), bottom_left);
    assert_eq!(flip_map.top_right(), top_right);

    assert_eq!(flip_map.width(), 2);
    assert_eq!(flip_map.height(), 3);
    assert_eq!(flip_map.tiles().to_vec(), vec![6, 5, 7, 6, 8, 7]);

    assert_eq!(flip_map.flip_horizontal(), map);
}

#[test]
fn test_rotate_left() {
    let map = Grid::<Digit>::procedural(3, 2, |point| {
        Digit::try_from((point.x + point.y) as u8).unwrap()
    });
    assert_eq!(digits(&map), vec![0, 1, 2, 1, 2, 3]);

    let rotated_map = map.rotate_left();

    assert_eq!(rotated_map.width(), 2);
    assert_eq!(rotated_map.height(), 3);
    assert_eq!(rotated_map.offset(), Point::default());
    assert_eq!(digits(&rotated_map), vec![1, 0, 2, 1, 3, 2]);

    assert_eq!(rotated_map.rotate_right(), map);
}

#[test]
fn test_rotate_right() {
    let map = Grid::<Digit>::procedural(3, 2, |point| {
        Digit::try_from((point.x + point.y) as u8).unwrap()
    });
    assert_eq!(digits(&map), vec![0, 1, 2, 1, 2, 3]);

    let rotated_map = map.rotate_right();

    assert_eq!(rotated_map.width(), 2);
    assert_eq!(rotated_map.height(), 3);
    assert_eq!(rotated_map.offset(), Point::default());
    assert_eq!(digits(&rotated_map), vec![2, 3, 1, 2, 0, 1]);

    assert_eq!(rotated_map.rotate_left(), map);
}

/// A tile that is open ground or a wall.
#[derive(Clone, Copy, Debug, PartialEq, Eq)]
enum Cell {
    Open,
    Stop,
    Wall,
}

impl ContextInto<Traversable> for Cell {
    type Context = ();

    fn ctx_into(self, _position: Point, _context: &()) -> Traversable {
        match self {
            Cell::Open => Traversable::Free,
            Cell::Stop => Traversable::Halt,
            Cell::Wall => Traversable::Obstructed,
        }
    }
}

#[test]
fn all_free_grid_visits_every_tile_once() {
    let map = Grid::procedural(5, 4, |_| Cell::Open);
    let mut count = 0;
    let (visited, stopped) = map.reachable_from(Point::new(2, 1), |_point, _tile| {
        count += 1;
        false
    });
    assert!(!stopped);
    assert_eq!(count, 20);
    assert_eq!(visited.len(), 5 * 4);
    let distinct: HashSet<Point> = visited.iter().copied().collect();
    assert_eq!(distinct.len(), 20);
    assert_eq!(visited[0], Point::new(2, 1));
}

#[test]
fn reachability_skips_walls_and_stops_at_halt_tiles() {
    // a wall down the middle column; a halt tile in the left half
    let map = Grid::procedural(5, 3, |p| {
        if p.x == 2 {
            Cell::Wall
        } else if p.x == 1 && p.y == 1 {
            Cell::Stop
        } else {
            Cell::Open
        }
    });
    let (visited, stopped) = map.reachable_from(Point::new(0, 0), |_, _| false);
    assert!(!stopped);
    assert!(visited.iter().all(|p| p.x < 2));
    assert_eq!(visited.len(), 6);
    // diamond fan-in: (1, 1) is reached from two sides but visited once
    assert_eq!(visited.iter().filter(|p| **p == Point::new(1, 1)).count(), 1);
}

#[test]
fn reachability_from_a_wall_visits_nothing() {
    let map = Grid::procedural(3, 3, |p| if p.x == 1 && p.y == 1 { Cell::Wall } else { Cell::Open });
    let (visited, stopped) = map.reachable_from(Point::new(1, 1), |_, _| false);
    assert!(visited.is_empty());
    assert!(!stopped);
}

#[test]
fn reachability_stops_when_the_visitor_asks() {
    let map = Grid::procedural(4, 4, |_| Cell::Open);
    let mut seen = 0;
    let (visited, stopped) = map.reachable_from(Point::new(0, 0), |_, _| {
        seen += 1;
        seen == 3
    });
    assert!(stopped);
    assert_eq!(visited.len(), 3);
    assert_eq!(seen, 3);
}

#[test]
fn navigate_open_grid_takes_manhattan_steps() {
    let map = Grid::procedural(5, 4, |_| Cell::Open);
    let path = map.navigate(Point::new(0, 0), Point::new(3, 2)).unwrap();
    assert_eq!(path.len(), 5);
    let horizontal = path.iter().filter(|d| matches!(d, Direction::Left | Direction::Right)).count();
    assert_eq!(horizontal, 3);
    let mut at = Point::new(0, 0);
    for d in path {
        at = at.step(d);
    }
    assert_eq!(at, Point::new(3, 2));
}

#[test]
fn navigate_to_enclosed_goal_is_none() {
    // the goal (3, 3) is ringed by walls
    let map = Grid::procedural(7, 7, |p| {
        let ring = (p.x - 3).abs() <= 1 && (p.y - 3).abs() <= 1 && !(p.x == 3 && p.y == 3);
        if ring {
            Cell::Wall
        } else {
            Cell::Open
        }
    });
    assert!(map.navigate(Point::new(0, 0), Point::new(3, 3)).is_none());
}

#[test]
fn navigate_passes_through_halt_tiles_and_around_walls() {
    let map = Grid::procedural(3, 3, |p| {
        if p.x == 1 && p.y < 2 {
            Cell::Wall
        } else if p.x == 1 {
            Cell::Stop
        } else {
            Cell::Open
        }
    });
    let path = map.navigate(Point::new(0, 0), Point::new(2, 0)).unwrap();
    assert_eq!(path.len(), 6);
    let mut at = Point::new(0, 0);
    for d in path {
        at = at.step(d);
        assert!(!(at.x == 1 && at.y < 2));
    }
    assert_eq!(at, Point::new(2, 0));
}

#[test]
fn navigate_to_self_is_empty() {
    let map = Grid::procedural(2, 2, |_| Cell::Open);
    assert_eq!(map.navigate(Point::new(1, 1), Point::new(1, 1)), Some(vec![]));
}

#[test]
fn adjacencies_at_corner_and_center() {
    let map = Grid::<()>::new(3, 3);
    let corner = map.orthogonal_adjacencies(Point::new(0, 0));
    assert_eq!(corner, vec![Point::new(0, 1), Point::new(1, 0)]);
    let center = map.adjacencies(Point::new(1, 1));
    assert_eq!(center.len(), 8);
    assert_eq!(center[0], Point::new(1, 2));
    assert_eq!(center[4], Point::new(0, 2));
    let orth = map.orthogonal_adjacencies(Point::new(1, 1));
    assert_eq!(orth.len(), 4);
    assert!(orth.iter().all(|p| center.contains(p)));
}

#[test]
fn edges_and_projection() {
    let map = Grid::<()>::new_offset(Point::new(1, 1), 3, 2);
    let mut left = map.edge(Direction::Left);
    assert_eq!(left.len(), 2);
    assert_eq!(left.next(), Some(Point::new(1, 1)));
    assert_eq!(left.next_back(), Some(Point::new(1, 2)));
    assert_eq!(left.next(), None);
    let mut top = map.edge(Direction::Up);
    let mut forward = Vec::new();
    while let Some(p) = top.next() {
        forward.push(p);
    }
    assert_eq!(forward, vec![Point::new(1, 2), Point::new(2, 2), Point::new(3, 2)]);
    let ray = map.project(Point::new(1, 1), 1, 1);
    assert_eq!(ray, vec![Point::new(1, 1), Point::new(2, 2)]);
    assert!(map.project(Point::new(0, 0), 1, 0).is_empty());
}

#[test]
fn searches_work_below_the_origin() {
    let map = Grid::procedural_offset(Point::new(-3, -2), 4, 3, |p| if p.x == -2 && p.y > -2 { Cell::Wall } else { Cell::Open });
    let (visited, _) = map.reachable_from(Point::new(-3, 0), |_, _| false);
    assert_eq!(visited.len(), 10);
    let path = map.navigate(Point::new(-3, 0), Point::new(0, 0)).unwrap();
    assert_eq!(path.len(), 7);
    assert!(map.navigate(Point::new(-3, 0), Point::new(5, 5)).is_none());
}

#[test]
fn uninteresting_region_is_empty_and_empty_grids_have_no_edges() {
    let map = Grid::procedural(3, 3, |p| p.x * p.y);
    let none = map.extract_interesting_region(|_, t| *t > 100);
    assert_eq!(none.width(), 0);
    assert_eq!(none.height(), 0);
    assert!(none.tiles().is_empty());
    let empty = Grid::<()>::new(0, 0);
    assert_eq!(empty.edge(Direction::Left).len(), 0);
    assert!(empty.points().is_empty());
}

#[test]
fn navigate_from_just_outside_the_grid() {
    let map = Grid::procedural(3, 2, |_| Cell::Open);
    assert_eq!(map.navigate(Point::new(-1, 0), Point::new(0, 0)), Some(vec![Direction::Right]));
    let path = map.navigate(Point::new(3, 1), Point::new(0, 0)).unwrap();
    assert_eq!(path.len(), 4);
    let mut at = Point::new(3, 1);
    for d in path {
        at = at.step(d);
    }
    assert_eq!(at, Point::new(0, 0));
    assert!(map.navigate(Point::new(-5, -5), Point::new(0, 0)).is_none());
    assert!(map.navigate(Point::new(-1, 5), Point::new(0, 0)).is_none());
}

#[test]
fn point_index_round_trip_below_the_origin() {
    let map = Grid::<()>::new_offset(Point::new(-4, -3), 5, 6);
    for idx in 0..30 {
        let p = map.index2point(idx);
        assert_eq!(map.point_to_index(p), idx);
    }
    assert_eq!(map.point_to_index(Point::new(-4, -3)), 0);
    assert_eq!(map.point_to_index(Point::new(0, 2)), 29);
}

#[test]
fn stopped_walk_is_a_prefix_of_the_full_walk() {
    let map = Grid::procedural(4, 3, |p| if p.x == 2 && p.y == 1 { Cell::Wall } else { Cell::Open });
    let (full, stopped) = map.reachable_from(Point::new(0, 0), |_, _| false);
    assert!(!stopped);
    assert_eq!(full.len(), 11);
    for k in 1..=full.len() {
        let mut calls = 0;
        let (part, stopped) = map.reachable_from(Point::new(0, 0), |_, _| {
            calls += 1;
            calls == k
        });
        assert!(stopped);
        assert_eq!(calls, k);
        assert_eq!(part[..], full[..k]);
    }
    // breadth first: distances from the start never decrease
    let dist: Vec<i32> = full.iter().map(|p| p.x + p.y).collect();
    assert!(dist.windows(2).all(|w| w[0] <= w[1]));
}
