//! Positions, sizes, directions and orientations on the character grid.
use vstd::prelude::*;

verus! {

/// An absolute position in the plane a buffer occupies. Coordinates may be negative.
#[derive(Debug, Clone, Copy, PartialEq, Eq, Structural)]
pub struct Pos {
    /// Grows to the right.
    pub x: i32,
    /// Grows downward.
    pub y: i32,
}

/// The extent of a window or a rendered area, in cells. Zero is allowed in either dimension.
#[derive(Debug, Clone, Copy, PartialEq, Eq, Structural)]
pub struct Size {
    pub width: u32,
    pub height: u32,
}

/// A way to move across the plane.
#[derive(Debug, Clone, Copy, PartialEq, Eq, Structural)]
pub enum Direction {
    Up,
    Right,
    Down,
    Left,
}

/// Whether a run lies along a row or a column.
#[derive(Debug, Clone, Copy, PartialEq, Eq, Structural)]
pub enum Orientation {
    Horizontal,
    Vertical,
}

/// The direction opposite to `dir`.
pub open spec fn spec_opposite(dir: Direction) -> Direction {
    match dir {
        Direction::Up => Direction::Down,
        Direction::Down => Direction::Up,
        Direction::Left => Direction::Right,
        Direction::Right => Direction::Left,
    }
}

/// The direction opposite to `dir`.
pub fn opposite(dir: Direction) -> (r: Direction)
    ensures
        r == spec_opposite(dir),
{
    match dir {
        Direction::Up => Direction::Down,
        Direction::Down => Direction::Up,
        Direction::Left => Direction::Right,
        Direction::Right => Direction::Left,
    }
}

/// One step from `at` in `dir`, as a mathematical point; `None` where that leaves `i32`.
pub open spec fn spec_offset(at: Pos, dir: Direction) -> Option<Pos> {
    match dir {
        Direction::Up => if at.y > i32::MIN { Some(Pos { x: at.x, y: (at.y - 1) as i32 }) } else { None },
        Direction::Down => if at.y < i32::MAX { Some(Pos { x: at.x, y: (at.y + 1) as i32 }) } else { None },
        Direction::Left => if at.x > i32::MIN { Some(Pos { x: (at.x - 1) as i32, y: at.y }) } else { None },
        Direction::Right => if at.x < i32::MAX { Some(Pos { x: (at.x + 1) as i32, y: at.y }) } else { None },
    }
}

/// One step from `at` in `dir`, or `None` if that would overflow `i32`.
pub fn offset(at: Pos, dir: Direction) -> (r: Option<Pos>)
    ensures
        r == spec_offset(at, dir),
{
    match dir {
        Direction::Up => match at.y.checked_sub(1) {
            Some(y) => Some(Pos { x: at.x, y }),
            None => None,
        },
        Direction::Down => match at.y.checked_add(1) {
            Some(y) => Some(Pos { x: at.x, y }),
            None => None,
        },
        Direction::Left => match at.x.checked_sub(1) {
            Some(x) => Some(Pos { x, y: at.y }),
            None => None,
        },
        Direction::Right => match at.x.checked_add(1) {
            Some(x) => Some(Pos { x, y: at.y }),
            None => None,
        },
    }
}

/// The orientation a direction moves along: `Left`/`Right` are horizontal, `Up`/`Down` vertical.
pub open spec fn spec_direction_orientation(dir: Direction) -> Orientation {
    match dir {
        Direction::Left | Direction::Right => Orientation::Horizontal,
        Direction::Up | Direction::Down => Orientation::Vertical,
    }
}

/// The orientation a direction moves along: `Left`/`Right` are horizontal, `Up`/`Down` vertical.
pub fn direction_orientation(dir: Direction) -> (o: Orientation)
    ensures
        o == spec_direction_orientation(dir),
{
    match dir {
        Direction::Left | Direction::Right => Orientation::Horizontal,
        Direction::Up | Direction::Down => Orientation::Vertical,
    }
}

/// Whether `p` and `q` are one cell apart along one axis.
pub open spec fn adjacent(p: Pos, q: Pos) -> bool {
    (p.x == q.x && (p.y - q.y == 1 || q.y - p.y == 1)) || (p.y == q.y && (p.x - q.x == 1 || q.x
        - p.x == 1))
}

} // verus!
