//! The four cardinal directions of the grid's 4-neighbor adjacency.
//!
//! Coordinates are those of a 2D matrix: `x` is the row, `y` is the
//! column. `Up` decreases the row, `Down` increases it, `Left`
//! decreases the column and `Right` increases it.

use vstd::prelude::*;

verus! {

#[derive(Clone, Copy, Debug, PartialEq, Eq, Structural)]
pub enum Direction {
    Up,
    Right,
    Down,
    Left,
}

/// The canonical index of each direction: Up, Right, Down, Left.
pub open spec fn direction_index(d: Direction) -> int {
    match d {
        Direction::Up => 0,
        Direction::Right => 1,
        Direction::Down => 2,
        Direction::Left => 3,
    }
}

/// The direction of each canonical index; the inverse of
/// `direction_index` on `0..4`.
pub open spec fn direction_from_index(n: int) -> Direction {
    if n == 0 {
        Direction::Up
    } else if n == 1 {
        Direction::Right
    } else if n == 2 {
        Direction::Down
    } else {
        Direction::Left
    }
}

/// Every direction is reached from its own index.
pub proof fn lemma_direction_index_roundtrip(d: Direction)
    ensures
        direction_from_index(direction_index(d)) == d,
        0 <= direction_index(d) < 4,
{
}

/// The opposite of each direction: Up pairs with Down, Left with Right.
pub open spec fn spec_opposite(d: Direction) -> Direction {
    match d {
        Direction::Up => Direction::Down,
        Direction::Right => Direction::Left,
        Direction::Down => Direction::Up,
        Direction::Left => Direction::Right,
    }
}

/// The row after one move in direction `d`, starting from row `x`.
pub open spec fn moved_row(x: int, d: Direction) -> int {
    match d {
        Direction::Up => x - 1,
        Direction::Down => x + 1,
        _ => x,
    }
}

/// The column after one move in direction `d`, starting from column `y`.
pub open spec fn moved_col(y: int, d: Direction) -> int {
    match d {
        Direction::Left => y - 1,
        Direction::Right => y + 1,
        _ => y,
    }
}

impl Direction {
    /// The canonical index as a `usize`, in socket-array order.
    pub fn to_num(&self) -> (n: usize)
        ensures
            n == direction_index(*self),
    {
        match *self {
            Direction::Up => 0,
            Direction::Right => 1,
            Direction::Down => 2,
            Direction::Left => 3,
        }
    }

    /// The canonical index as a `u8`; the same order as `to_num`.
    pub fn get_value(&self) -> (n: u8)
        ensures
            n == direction_index(*self),
    {
        match *self {
            Direction::Up => 0,
            Direction::Right => 1,
            Direction::Down => 2,
            Direction::Left => 3,
        }
    }

    /// The direction whose canonical index is `n`.
    pub fn from_num(n: usize) -> (d: Direction)
        requires
            n < 4,
        ensures
            direction_index(d) == n,
            d == direction_from_index(n as int),
    {
        if n == 0 {
            Direction::Up
        } else if n == 1 {
            Direction::Right
        } else if n == 2 {
            Direction::Down
        } else {
            Direction::Left
        }
    }

    /// The opposite direction (Up pairs with Down, Left with Right).
    pub fn get_opposite(&self) -> (d: Direction)
        ensures
            d == spec_opposite(*self),
    {
        match *self {
            Direction::Up => Direction::Down,
            Direction::Right => Direction::Left,
            Direction::Down => Direction::Up,
            Direction::Left => Direction::Right,
        }
    }

    /// The coordinate after one move in this direction, or `None` when
    /// the move would leave the matrix through row 0 or column 0.
    pub fn adjust_coordinate(&self, x: usize, y: usize) -> (r: Option<(usize, usize)>)
        requires
            (*self is Down) ==> x < usize::MAX,
            (*self is Right) ==> y < usize::MAX,
        ensures
            match r {
                Some(c) => c.0 == moved_row(x as int, *self) && c.1 == moved_col(
                    y as int,
                    *self,
                ) && moved_row(x as int, *self) >= 0 && moved_col(y as int, *self) >= 0,
                None => moved_row(x as int, *self) < 0 || moved_col(y as int, *self) < 0,
            },
    {
        match *self {
            Direction::Up => {
                if x == 0 {
                    None
                } else {
                    Some((x - 1, y))
                }
            },
            Direction::Down => Some((x + 1, y)),
            Direction::Left => {
                if y == 0 {
                    None
                } else {
                    Some((x, y - 1))
                }
            },
            Direction::Right => Some((x, y + 1)),
        }
    }

    /// The unit step of this direction as a `(row, column)` pair.
    pub fn get_index_unit_coordinate(&self) -> (r: (i8, i8))
        ensures
            r.0 == moved_row(0, *self) && r.1 == moved_col(0, *self),
    {
        match *self {
            Direction::Up => (-1, 0),
            Direction::Right => (0, 1),
            Direction::Down => (1, 0),
            Direction::Left => (0, -1),
        }
    }
}

} // verus!
