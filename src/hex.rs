use crate::point::fits_i32;
use vstd::prelude::*;
use vstd::string::StrSliceExecFns;

verus! {

/// Direction in a hexagonal coordinate system whose major orientation is horizontal.
#[derive(Clone, Copy, Debug, PartialEq, Eq, Structural)]
pub enum Direction {
    East,
    Southeast,
    Southwest,
    West,
    Northwest,
    Northeast,
}

/// The change of `(q, r)` for one step in direction `d`.
pub open spec fn hex_delta(d: Direction) -> (int, int) {
    match d {
        Direction::East => (1, 0),
        Direction::Southeast => (0, 1),
        Direction::Southwest => (-1, 1),
        Direction::West => (-1, 0),
        Direction::Northwest => (0, -1),
        Direction::Northeast => (1, -1),
    }
}

/// All directions, clockwise from `East`.
pub open spec fn clockwise() -> Seq<Direction> {
    seq![
        Direction::East,
        Direction::Southeast,
        Direction::Southwest,
        Direction::West,
        Direction::Northwest,
        Direction::Northeast,
    ]
}

/// The direction named at the head of `s`, with the length of its name.
pub open spec fn head_direction(s: Seq<char>) -> Option<(Direction, nat)> {
    if s.len() >= 1 && s[0] == 'e' {
        Some((Direction::East, 1))
    } else if s.len() >= 2 && s[0] == 's' && s[1] == 'e' {
        Some((Direction::Southeast, 2))
    } else if s.len() >= 2 && s[0] == 's' && s[1] == 'w' {
        Some((Direction::Southwest, 2))
    } else if s.len() >= 1 && s[0] == 'w' {
        Some((Direction::West, 1))
    } else if s.len() >= 2 && s[0] == 'n' && s[1] == 'w' {
        Some((Direction::Northwest, 2))
    } else if s.len() >= 2 && s[0] == 'n' && s[1] == 'e' {
        Some((Direction::Northeast, 2))
    } else {
        None
    }
}

impl Direction {
    /// All directions, clockwise from `East`.
    pub fn iter() -> (r: Vec<Direction>)
        ensures
            r@ == clockwise(),
    {
        let r = vec![
            Direction::East,
            Direction::Southeast,
            Direction::Southwest,
            Direction::West,
            Direction::Northwest,
            Direction::Northeast,
        ];
        assert(r@ =~= clockwise());
        r
    }

    /// Parse a direction from the head of `s`: returns it and the unused rest of `s`, or
    /// `None` and all of `s`.
    ///
    /// Legal names (case sensitive): `e`, `se`, `sw`, `w`, `nw`, `ne`.
    pub fn try_parse(s: &str) -> (r: (Option<Direction>, &str))
        ensures
            head_direction(s@) is None ==> r.0 is None && r.1@ == s@,
            head_direction(s@) matches Some((d, k)) ==> r.0 == Some(d) && r.1@ == s@.subrange(k as int, s@.len() as int),
    {
        let n = s.unicode_len();
        if n == 0 {
            return (None, s);
        }
        let first = s.get_char(0);
        let second = if n >= 2 {
            Some(s.get_char(1))
        } else {
            None
        };
        let (d, k): (Option<Direction>, usize) = match (first, second) {
            ('e', _) => (Some(Direction::East), 1),
            ('s', Some('e')) => (Some(Direction::Southeast), 2),
            ('s', Some('w')) => (Some(Direction::Southwest), 2),
            ('w', _) => (Some(Direction::West), 1),
            ('n', Some('w')) => (Some(Direction::Northwest), 2),
            ('n', Some('e')) => (Some(Direction::Northeast), 2),
            _ => (None, 0),
        };
        match d {
            Some(d) => (Some(d), s.substring_char(k, n)),
            None => (None, s),
        }
    }
}

/// Helper for parsing a line of directions.
pub struct Directions(pub Vec<Direction>);

/// Parsing failed for a line of hex directions.
#[derive(Debug, Clone, Copy, PartialEq, Eq)]
pub struct ParseDirectionsError;

/// The directions named one after another by `s`, if it is made of names only.
pub open spec fn directions_of(s: Seq<char>) -> Option<Seq<Direction>>
    decreases s.len(),
{
    if s.len() == 0 {
        Some(Seq::empty())
    } else {
        match head_direction(s) {
            Some((d, k)) => if 0 < k <= s.len() {
                match directions_of(s.subrange(k as int, s.len() as int)) {
                    Some(rest) => Some(seq![d] + rest),
                    None => None,
                }
            } else {
                None
            },
            None => None,
        }
    }
}

impl Directions {
    /// Parse a whole line of direction names.
    pub fn parse(s: &str) -> (r: Result<Directions, ParseDirectionsError>)
        ensures
            r is Ok <==> directions_of(s@) is Some,
            r matches Ok(ds) ==> directions_of(s@) == Some(ds.0@),
    {
        let mut rest = s;
        let mut out: Vec<Direction> = Vec::new();
        while rest.unicode_len() > 0
            invariant
                directions_of(s@) is Some <==> directions_of(rest@) is Some,
                directions_of(rest@) matches Some(tail) ==> directions_of(s@) == Some(out@ + tail),
            decreases rest@.len(),
        {
            let (d, remaining) = Direction::try_parse(rest);
            match d {
                None => {
                    return Err(ParseDirectionsError);
                },
                Some(d) => {
                    proof {
                        let tail = directions_of(remaining@);
                        if let Some(t) = tail {
                            assert(out@.push(d) + t =~= out@ + (seq![d] + t));
                        }
                    }
                    out.push(d);
                },
            }
            rest = remaining;
        }
        proof {
            assert(out@ + Seq::<Direction>::empty() =~= out@);
        }
        Ok(Directions(out))
    }
}

impl std::str::FromStr for Directions {
    type Err = ParseDirectionsError;

    fn from_str(s: &str) -> Result<Directions, ParseDirectionsError> {
        Directions::parse(s)
    }
}

/// Axial hex coordinates; the third cube coordinate is `s = -q - r`.
#[derive(Clone, Copy, Debug, PartialEq, Eq, PartialOrd, Ord, Default, Hash, Structural)]
pub struct Coordinate {
    pub q: i32,
    pub r: i32,
}

impl Coordinate {
    /// Move one step in direction `rhs`.
    pub fn add_assign(&mut self, rhs: Direction)
        requires
            fits_i32(old(self).q + hex_delta(rhs).0),
            fits_i32(old(self).r + hex_delta(rhs).1),
        ensures
            final(self).q == old(self).q + hex_delta(rhs).0,
            final(self).r == old(self).r + hex_delta(rhs).1,
    {
        match rhs {
            Direction::East => {
                self.q = self.q + 1;
            },
            Direction::Southeast => {
                self.r = self.r + 1;
            },
            Direction::Southwest => {
                self.q = self.q - 1;
                self.r = self.r + 1;
            },
            Direction::West => {
                self.q = self.q - 1;
            },
            Direction::Northwest => {
                self.r = self.r - 1;
            },
            Direction::Northeast => {
                self.q = self.q + 1;
                self.r = self.r - 1;
            },
        }
    }

    /// The coordinate one step away in direction `rhs`.
    pub fn add(self, rhs: Direction) -> (r: Coordinate)
        requires
            fits_i32(self.q + hex_delta(rhs).0),
            fits_i32(self.r + hex_delta(rhs).1),
        ensures
            r.q == self.q + hex_delta(rhs).0,
            r.r == self.r + hex_delta(rhs).1,
    {
        let mut c = self;
        c.add_assign(rhs);
        c
    }

    /// The six neighbours, clockwise from the east.
    pub fn neighbors(self) -> (r: Vec<Coordinate>)
        requires
            i32::MIN < self.q < i32::MAX,
            i32::MIN < self.r < i32::MAX,
        ensures
            r@.len() == 6,
            forall|i: int|
                0 <= i < 6 ==> (#[trigger] r@[i]).q == self.q + hex_delta(clockwise()[i]).0 && r@[i].r == self.r
                    + hex_delta(clockwise()[i]).1,
    {
        let dirs = Direction::iter();
        let mut out: Vec<Coordinate> = Vec::new();
        let mut i: usize = 0;
        while i < dirs.len()
            invariant
                dirs@ == clockwise(),
                i <= 6,
                i32::MIN < self.q < i32::MAX,
                i32::MIN < self.r < i32::MAX,
                out@.len() == i,
                forall|j: int|
                    0 <= j < i ==> (#[trigger] out@[j]).q == self.q + hex_delta(clockwise()[j]).0 && out@[j].r == self.r
                        + hex_delta(clockwise()[j]).1,
            decreases 6 - i,
        {
            out.push(self.add(dirs[i]));
            i += 1;
        }
        out
    }
}

} // verus!
