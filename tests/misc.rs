use aoclib::config::Config;
use aoclib::direction::Direction;
use aoclib::hex::{Coordinate, Direction as HexDirection, Directions};
use aoclib::input::{parse_newline_sep_reader, parse_two_phase_reader, split_commas, TwoPhaseError};
use aoclib::point::Point;
use aoclib::render::{n_pixels_for, pixel_height, pixel_width, render_point, Style};
use aoclib::tile::{Bool, Digit, ToRgb, TwoDigits};
use aoclib::website::{fetch_decision, input_url_for_day, url_for_day, Fetch};

#[test]
fn direction_turns_and_deltas() {
    assert_eq!(Direction::Up.deltas(), (0, 1));
    assert_eq!(Direction::Left.deltas(), (-1, 0));
    assert_eq!(Direction::Up.turn_right(), Direction::Right);
    assert_eq!(Direction::Up.turn_left(), Direction::Left);
    assert_eq!(Direction::Right.reverse(), Direction::Left);
    let mut d = Direction::Down;
    for _ in 0..4 {
        d = d.turn_right();
    }
    assert_eq!(d, Direction::Down);
    assert_eq!(Direction::iter(), vec![Direction::Up, Direction::Down, Direction::Left, Direction::Right]);
    assert_eq!(Direction::iter_diag()[1], (Direction::Up, Direction::Right));
    assert_eq!(Direction::try_from(Point::new(0, -1)), Ok(Direction::Down));
    assert_eq!(Direction::try_from(Point::new(1, 1)), Err(()));
}

#[test]
fn point_arithmetic() {
    let p = Point::new(-3, 4);
    assert_eq!(p.manhattan(), 7);
    assert_eq!(p.add(Point::new(1, 1)), Point::new(-2, 5));
    assert_eq!(p.rotate_left(), Point::new(-4, -3));
    assert_eq!(p.rotate_right(), Point::new(4, 3));
    assert!(Point::new(5, 0) < Point::new(0, 1));
}

#[test]
fn hex_directions_parse_and_step() {
    let (d, rest) = HexDirection::try_parse("nwe");
    assert_eq!(d, Some(HexDirection::Northwest));
    assert_eq!(rest, "e");
    let (d, rest) = HexDirection::try_parse("x");
    assert_eq!(d, None);
    assert_eq!(rest, "x");
    let ds = Directions::parse("esenee").unwrap();
    assert_eq!(ds.0, vec![HexDirection::East, HexDirection::Southeast, HexDirection::Northeast, HexDirection::East]);
    assert!(Directions::parse("esx").is_err());
    let origin = Coordinate { q: 0, r: 0 };
    let around = origin.neighbors();
    assert_eq!(around.len(), 6);
    assert_eq!(around[2], Coordinate { q: -1, r: 1 });
    assert_eq!(HexDirection::iter().len(), 6);
}

#[test]
fn urls_for_a_day() {
    assert_eq!(url_for_day(2021, 9), "https://adventofcode.com/2021/day/9");
    assert_eq!(input_url_for_day(2015, 23), "https://adventofcode.com/2015/day/23/input");
}

#[test]
fn config_paths_fall_back_and_override() {
    let mut config = Config::default();
    assert_eq!(config.input_files(2021, "/work"), "/work/inputs");
    assert_eq!(config.input_for(2021, 3, "/work"), "/work/inputs/input-03.txt");
    assert_eq!(config.day_template(2021, "/data/adventofcode"), "/data/adventofcode/2021/day-template");
    config.set_implementation(2021, "/aoc/2021".to_string());
    assert_eq!(config.input_for(2021, 12, "/work"), "/aoc/2021/inputs/input-12.txt");
    config.set_input_files(2021, "/inputs".to_string());
    assert_eq!(config.input_files(2021, "/work"), "/inputs");
    config.set_day_template(2021, "/templates".to_string());
    assert_eq!(config.day_template(2021, "/data"), "/templates");
    assert_eq!(config.implementation(2021, "/work"), "/aoc/2021");
    assert_eq!(config.implementation(1999, "/work"), "/work");
}

#[test]
fn records_split_on_blank_lines() {
    let recs = parse_newline_sep_reader("a\nb\n\nc\r\n\r\nd");
    assert_eq!(recs, vec!["a\nb\n\n".to_string(), "c\r\n\r\n".to_string(), "d".to_string()]);
    let (first, rest) = parse_two_phase_reader("head\n\nx\n\ny\n").unwrap();
    assert_eq!(first, "head\n\n");
    assert_eq!(rest, vec!["x\n\n".to_string(), "y\n".to_string()]);
    assert!(matches!(parse_two_phase_reader(""), Err(TwoPhaseError::NoFirstLine)));
}

#[test]
fn tiles_and_colors() {
    assert_eq!(Bool::True.to_rgb(), [253, 244, 220]);
    assert_eq!(Bool::False.to_rgb(), [0, 0, 0]);
    assert_eq!(Bool::True.not(), Bool::False);
    assert!(Bool::True.eq_bool(true));
    assert_eq!(Bool::from_bool(false).to_string(), ".");
    assert_eq!(Digit::try_from(9).unwrap().to_rgb(), [252, 252, 252]);
    assert!(Digit::try_from(10).is_err());
    assert_eq!(TwoDigits::try_from(99).unwrap().to_rgb(), [198, 198, 198]);
    assert!(TwoDigits::try_from(100).is_err());
}

#[test]
fn rendering_geometry() {
    assert_eq!(pixel_width(3), 16);
    assert_eq!(pixel_height(1), 8);
    assert_eq!(n_pixels_for(3, 1), 128);
    let mut subpixels = vec![0u8; n_pixels_for(2, 2) * 3];
    render_point(Point::new(1, 0), &Bool::True, &mut subpixels, 2, Style::Fill);
    let lit = subpixels.chunks(3).filter(|px| px == &[253, 244, 220]).count();
    assert_eq!(lit, 16);
    let mut crossed = vec![0u8; n_pixels_for(2, 2) * 3];
    render_point(Point::new(0, 1), &Bool::True, &mut crossed, 2, Style::Cross);
    assert_eq!(crossed.chunks(3).filter(|px| px[0] == 253).count(), 5);
    assert_eq!(Style::Grid.offsets().len(), 9);
    let sparkle = Style::SparkleCross.offsets();
    assert!(sparkle.len() >= 5 && sparkle.len() <= 9);
}

#[test]
fn commas_split_fields_and_keep_whitespace() {
    assert_eq!(split_commas("1, 2,,3"), vec!["1".to_string(), " 2".to_string(), "".to_string(), "3".to_string()]);
    assert_eq!(split_commas(""), vec!["".to_string()]);
}

#[test]
fn tiles_and_directions_parse_from_text() {
    assert_eq!("#".parse::<Bool>(), Ok(Bool::True));
    assert_eq!(".".parse::<Bool>(), Ok(Bool::False));
    assert!("x".parse::<Bool>().is_err());
    assert_eq!("7".parse::<Digit>().unwrap().value(), 7);
    assert!("77".parse::<Digit>().is_err());
    assert_eq!(" 42".parse::<TwoDigits>().unwrap().value(), 42);
    assert_eq!("  5".parse::<TwoDigits>().unwrap().value(), 5);
    assert!("142".parse::<TwoDigits>().is_err());
    assert_eq!("swne".parse::<Directions>().unwrap().0, vec![HexDirection::Southwest, HexDirection::Northeast]);
}

#[test]
fn downloads_wait_for_the_recorded_time() {
    assert_eq!(fetch_decision(true, None, 0), Fetch::AlreadyPresent);
    assert_eq!(fetch_decision(false, None, 0), Fetch::Download);
    assert_eq!(fetch_decision(false, Some("2999-01-01T00:00:00Z"), 0), Fetch::Throttled);
    assert_eq!(fetch_decision(false, Some("1970-01-01T00:00:01Z"), 2_000_000_000), Fetch::Download);
    assert_eq!(fetch_decision(false, Some("1970-01-01T00:00:01Z"), 500_000_000), Fetch::Throttled);
    assert_eq!(fetch_decision(false, Some("not a time"), 0), Fetch::Download);
}
