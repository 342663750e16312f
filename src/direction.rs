use crate::point::{fits_i32, Point};
use vstd::prelude::*;

verus! {

/// One of the four orthogonal directions.
#[derive(Debug, Clone, Copy, PartialEq, Eq, Hash, Default, Structural)]
pub enum Direction {
    Right,
    Left,
    #[default]
    Up,
    Down,
}

/// The `x` component of a step in direction `d`.
pub open spec fn dx(d: Direction) -> int {
    match d {
        Direction::Right => 1,
        Direction::Left => -1,
        Direction::Up => 0,
        Direction::Down => 0,
    }
}

/// The `y` component of a step in direction `d`.
pub open spec fn dy(d: Direction) -> int {
    match d {
        Direction::Right => 0,
        Direction::Left => 0,
        Direction::Up => 1,
        Direction::Down => -1,
    }
}

pub open spec fn turn_right_spec(d: Direction) -> Direction {
    match d {
        Direction::Up => Direction::Right,
        Direction::Right => Direction::Down,
        Direction::Down => Direction::Left,
        Direction::Left => Direction::Up,
    }
}

/// The four orthogonal directions in iteration order.
pub open spec fn orthogonal_order() -> Seq<Direction> {
    seq![Direction::Up, Direction::Down, Direction::Left, Direction::Right]
}

/// The four diagonal direction pairs `(vertical, horizontal)` in iteration order.
pub open spec fn diagonal_order() -> Seq<(Direction, Direction)> {
    seq![
        (Direction::Up, Direction::Left),
        (Direction::Up, Direction::Right),
        (Direction::Down, Direction::Left),
        (Direction::Down, Direction::Right),
    ]
}

impl Direction {
    /// `(dx, dy)`, for `Right` is `+x` and `Up` is `+y`
    pub fn deltas(self) -> (r: (i32, i32))
        ensures
            r.0 == dx(self),
            r.1 == dy(self),
    {
        match self {
            Direction::Up => (0, 1),
            Direction::Down => (0, -1),
            Direction::Right => (1, 0),
            Direction::Left => (-1, 0),
        }
    }

    pub fn turn_right(self) -> (r: Direction)
        ensures
            r == turn_right_spec(self),
            dx(r) == dy(self),
            dy(r) == -dx(self),
    {
        match self {
            Direction::Up => Direction::Right,
            Direction::Right => Direction::Down,
            Direction::Down => Direction::Left,
            Direction::Left => Direction::Up,
        }
    }

    pub fn turn_left(self) -> (r: Direction)
        ensures
            turn_right_spec(r) == self,
            dx(r) == -dy(self),
            dy(r) == dx(self),
    {
        match self {
            Direction::Up => Direction::Left,
            Direction::Left => Direction::Down,
            Direction::Down => Direction::Right,
            Direction::Right => Direction::Up,
        }
    }

    pub fn reverse(self) -> (r: Direction)
        ensures
            r == turn_right_spec(turn_right_spec(self)),
            dx(r) == -dx(self),
            dy(r) == -dy(self),
    {
        match self {
            Direction::Up => Direction::Down,
            Direction::Left => Direction::Right,
            Direction::Down => Direction::Up,
            Direction::Right => Direction::Left,
        }
    }

    /// The four orthogonal directions: `Up`, `Down`, `Left`, `Right`.
    pub fn iter() -> (r: Vec<Direction>)
        ensures
            r@ == orthogonal_order(),
    {
        let r = vec![Direction::Up, Direction::Down, Direction::Left, Direction::Right];
        assert(r@ =~= orthogonal_order());
        r
    }

    /// The four diagonal direction pairs, each of the form `(vertical, horizontal)`.
    pub fn iter_diag() -> (r: Vec<(Direction, Direction)>)
        ensures
            r@ == diagonal_order(),
    {
        let r = vec![
            (Direction::Up, Direction::Left),
            (Direction::Up, Direction::Right),
            (Direction::Down, Direction::Left),
            (Direction::Down, Direction::Right),
        ];
        assert(r@ =~= diagonal_order());
        r
    }

    /// Inverse of [`Direction::deltas`].
    pub fn try_from(value: Point) -> (r: Result<Direction, ()>)
        ensures
            r is Err ==> forall|d: Direction| !(dx(d) == value.x && dy(d) == value.y),
            r matches Ok(d) ==> dx(d) == value.x && dy(d) == value.y,
    {
        if value.x == 0 && value.y == 1 {
            Ok(Direction::Up)
        } else if value.x == 0 && value.y == -1 {
            Ok(Direction::Down)
        } else if value.x == 1 && value.y == 0 {
            Ok(Direction::Right)
        } else if value.x == -1 && value.y == 0 {
            Ok(Direction::Left)
        } else {
            assert forall|d: Direction| !(dx(d) == value.x && dy(d) == value.y) by {
                match d {
                    Direction::Up => {},
                    Direction::Down => {},
                    Direction::Left => {},
                    Direction::Right => {},
                }
            }
            Err(())
        }
    }
}

impl Point {
    /// The point one step away in direction `d`.
    pub fn step(self, d: Direction) -> (r: Point)
        requires
            fits_i32(self.x + dx(d)),
            fits_i32(self.y + dy(d)),
        ensures
            r.x == self.x + dx(d),
            r.y == self.y + dy(d),
    {
        let (ddx, ddy) = d.deltas();
        Point::new(self.x + ddx, self.y + ddy)
    }
}

/// Turning right four times returns to the starting direction; turning left undoes turning
/// right; reversing is two right turns.
pub proof fn lemma_turns_form_a_cycle(d: Direction)
    ensures
        turn_right_spec(turn_right_spec(turn_right_spec(turn_right_spec(d)))) == d,
        turn_right_spec(d) != d,
        turn_right_spec(turn_right_spec(d)) != d,
{
}

} // verus!
