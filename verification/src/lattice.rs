//! What an arrow's route is ranked by, and the lattice of lines it may turn on.
use vstd::prelude::*;

use crate::geometry::{
    direction_orientation, spec_direction_orientation, Direction, Orientation, Pos,
};

verus! {

/// The smallest rectangle containing both starting positions. It bounds nothing; it is the span
/// whose middle the ranking measures distance from.
pub struct RouteRectangle {
    pub x_min: i32,
    pub x_max: i32,
    pub y_min: i32,
    pub y_max: i32,
}

/// The cell halfway between `min` and `max` inclusive, taken nearer `anchor` where the span holds
/// an even number of cells.
pub open spec fn spec_midpoint(min: i32, max: i32, anchor: i32) -> i32 {
    let half = (max - min) / 2;
    if anchor == min {
        (min + half) as i32
    } else {
        (max - half) as i32
    }
}

impl RouteRectangle {
    /// The smallest rectangle containing both `s` and `t`.
    pub fn spanning(s: Pos, t: Pos) -> (r: RouteRectangle)
        ensures
            r.x_min == (if s.x <= t.x { s.x } else { t.x }),
            r.x_max == (if s.x <= t.x { t.x } else { s.x }),
            r.y_min == (if s.y <= t.y { s.y } else { t.y }),
            r.y_max == (if s.y <= t.y { t.y } else { s.y }),
    {
        RouteRectangle {
            x_min: if s.x <= t.x { s.x } else { t.x },
            x_max: if s.x <= t.x { t.x } else { s.x },
            y_min: if s.y <= t.y { s.y } else { t.y },
            y_max: if s.y <= t.y { t.y } else { s.y },
        }
    }

    /// One value per axis: the cell halfway along that axis's span, taken as the one nearer
    /// `anchor` where the span holds an even number of cells.
    pub fn middle(&self, anchor: Pos) -> (m: Pos)
        requires
            self.x_min <= self.x_max,
            self.y_min <= self.y_max,
        ensures
            m.x == spec_midpoint(self.x_min, self.x_max, anchor.x),
            m.y == spec_midpoint(self.y_min, self.y_max, anchor.y),
    {
        Pos {
            x: Self::midpoint(self.x_min, self.x_max, anchor.x),
            y: Self::midpoint(self.y_min, self.y_max, anchor.y),
        }
    }

    /// The cell halfway between `min` and `max` (inclusive), nearer `anchor`.
    pub fn midpoint(min: i32, max: i32, anchor: i32) -> (m: i32)
        requires
            min <= max,
        ensures
            m == spec_midpoint(min, max, anchor),
            min <= m <= max,
    {
        let half = ((max as i64) - (min as i64)) / 2;
        if anchor == min {
            (min as i64 + half) as i32
        } else {
            (max as i64 - half) as i32
        }
    }
}

/// Whether every value of `v` is smaller than every value after it.
pub open spec fn strictly_increasing(v: Seq<i32>) -> bool {
    forall|i: int, j: int| 0 <= i < j < v.len() ==> v[i] < v[j]
}

/// The seven candidate lines on one axis: the line each starting position pins, the line beside
/// each of them on either side, and the middle.
pub open spec fn axis_candidate(s_c: i32, t_c: i32, mid_c: i32, v: int) -> bool {
    v == s_c - 1 || v == s_c || v == s_c + 1 || v == mid_c || v == t_c - 1 || v == t_c || v
        == t_c + 1
}

/// Whether every candidate line beside `s_c` and `t_c` is an `i32`.
pub open spec fn axis_in_range(s_c: i32, t_c: i32) -> bool {
    i32::MIN < s_c < i32::MAX && i32::MIN < t_c < i32::MAX
}

/// Inserts `value` into the strictly increasing `v`, unless it is there already.
fn insert_sorted(v: &mut Vec<i32>, value: i32)
    requires
        strictly_increasing(old(v)@),
    ensures
        strictly_increasing(final(v)@),
        forall|x: i32| final(v)@.contains(x) <==> (old(v)@.contains(x) || x == value),
        final(v)@.len() <= old(v)@.len() + 1,
{
    let mut j: usize = 0;
    while j < v.len() && v[j] < value
        invariant
            j <= v@.len(),
            forall|i: int| 0 <= i < j ==> v@[i] < value,
        decreases v@.len() - j,
    {
        j += 1;
    }
    if j < v.len() && v[j] == value {
        return;
    }
    let ghost before = v@;
    v.insert(j, value);
    assert forall|x: i32| v@.contains(x) <==> (before.contains(x) || x == value) by {
        if v@.contains(x) {
            let k = choose|k: int| 0 <= k < v@.len() && v@[k] == x;
            if k < j {
                assert(before[k] == x);
            } else if k > j {
                assert(before[k - 1] == x);
            }
        }
        if before.contains(x) {
            let k = choose|k: int| 0 <= k < before.len() && before[k] == x;
            if k < j {
                assert(v@[k] == x);
            } else {
                assert(v@[k + 1] == x);
            }
        }
        if x == value {
            assert(v@[j as int] == x);
        }
    }
}

/// The lines a route may turn on, one sorted list per axis.
pub struct Lattice {
    /// The candidate columns, strictly increasing.
    pub x: Vec<i32>,
    /// The candidate rows, strictly increasing.
    pub y: Vec<i32>,
}

/// Whether `v` is one axis of a lattice: between one and seven lines, strictly increasing.
pub open spec fn lattice_axis_ok(v: Seq<i32>) -> bool {
    1 <= v.len() <= 7 && strictly_increasing(v)
}

impl Lattice {
    /// The lattice built around the starting positions `s` and `t` and the middle `mid`.
    pub fn new(s: Pos, t: Pos, mid: Pos) -> (l: Lattice)
        requires
            axis_in_range(s.x, t.x),
            axis_in_range(s.y, t.y),
        ensures
            lattice_axis_ok(l.x@),
            lattice_axis_ok(l.y@),
            forall|v: i32| l.x@.contains(v) <==> axis_candidate(s.x, t.x, mid.x, v as int),
            forall|v: i32| l.y@.contains(v) <==> axis_candidate(s.y, t.y, mid.y, v as int),
    {
        Lattice { x: Self::axis(s.x, t.x, mid.x), y: Self::axis(s.y, t.y, mid.y) }
    }

    /// The candidate lines of one axis, sorted and without repetition.
    pub fn axis(s_c: i32, t_c: i32, mid_c: i32) -> (v: Vec<i32>)
        requires
            axis_in_range(s_c, t_c),
        ensures
            lattice_axis_ok(v@),
            forall|x: i32| v@.contains(x) <==> axis_candidate(s_c, t_c, mid_c, x as int),
    {
        let mut values: Vec<i32> = Vec::new();
        insert_sorted(&mut values, s_c - 1);
        insert_sorted(&mut values, s_c);
        insert_sorted(&mut values, s_c + 1);
        insert_sorted(&mut values, mid_c);
        insert_sorted(&mut values, t_c - 1);
        insert_sorted(&mut values, t_c);
        insert_sorted(&mut values, t_c + 1);
        assert(values@.contains(s_c));
        values
    }

    /// The index of `value` in the axis `values`, which holds it.
    pub fn index_of(values: &Vec<i32>, value: i32) -> (i: usize)
        requires
            values@.contains(value),
        ensures
            i < values@.len(),
            values@[i as int] == value,
    {
        let mut i: usize = 0;
        while i < values.len()
            invariant
                i <= values@.len(),
                values@.contains(value),
                forall|k: int| 0 <= k < i ==> values@[k] != value,
            decreases values@.len() - i,
        {
            if values[i] == value {
                return i;
            }
            i += 1;
        }
        proof {
            let k = choose|k: int| 0 <= k < values@.len() && values@[k] == value;
        }
        0
    }

    /// The node at `pos`, whose coordinates are both lines of the lattice.
    pub fn node(&self, pos: Pos) -> (n: (usize, usize))
        requires
            self.x@.contains(pos.x),
            self.y@.contains(pos.y),
        ensures
            n.0 < self.x@.len(),
            n.1 < self.y@.len(),
            self.x@[n.0 as int] == pos.x,
            self.y@[n.1 as int] == pos.y,
    {
        (Self::index_of(&self.x, pos.x), Self::index_of(&self.y, pos.y))
    }

    /// The position of `node`.
    pub fn pos(&self, node: (usize, usize)) -> (p: Pos)
        requires
            node.0 < self.x@.len(),
            node.1 < self.y@.len(),
        ensures
            p == spec_lattice_pos(self.x@, self.y@, node),
    {
        Pos { x: self.x[node.0], y: self.y[node.1] }
    }

    /// One step from `node` along `d`, or `None` at the lattice's own edge.
    pub fn step(&self, node: (usize, usize), d: Direction) -> (r: Option<(usize, usize)>)
        requires
            node.0 < self.x@.len(),
            node.1 < self.y@.len(),
        ensures
            r == spec_lattice_step(self.x@.len(), self.y@.len(), node, d),
    {
        let (ix, iy) = node;
        match d {
            Direction::Up => if iy > 0 {
                Some((ix, iy - 1))
            } else {
                None
            },
            Direction::Down => if iy < self.y.len() - 1 {
                Some((ix, iy + 1))
            } else {
                None
            },
            Direction::Left => if ix > 0 {
                Some((ix - 1, iy))
            } else {
                None
            },
            Direction::Right => if ix < self.x.len() - 1 {
                Some((ix + 1, iy))
            } else {
                None
            },
        }
    }
}

/// The position of the lattice node `node`.
pub open spec fn spec_lattice_pos(xs: Seq<i32>, ys: Seq<i32>, node: (usize, usize)) -> Pos {
    Pos { x: xs[node.0 as int], y: ys[node.1 as int] }
}

/// One step from `node` along `d` in a lattice of `nx` columns and `ny` rows.
pub open spec fn spec_lattice_step(nx: nat, ny: nat, node: (usize, usize), d: Direction) -> Option<
    (usize, usize),
> {
    let (ix, iy) = node;
    match d {
        Direction::Up => if iy > 0 {
            Some((ix, (iy - 1) as usize))
        } else {
            None
        },
        Direction::Down => if iy + 1 < ny {
            Some((ix, (iy + 1) as usize))
        } else {
            None
        },
        Direction::Left => if ix > 0 {
            Some(((ix - 1) as usize, iy))
        } else {
            None
        },
        Direction::Right => if ix + 1 < nx {
            Some(((ix + 1) as usize, iy))
        } else {
            None
        },
    }
}

/// The ranking of a route: fewest bends, then shortest, then nearest the middle, then to the
/// right of the travel, compared in that order.
#[derive(Debug, Clone, Copy, PartialEq, Eq, Structural)]
pub struct Cost {
    pub bends: u64,
    pub length: u64,
    pub from_middle: u64,
    pub hand: u64,
}

/// Whether `a` ranks strictly before `b`.
pub open spec fn cost_lt(a: Cost, b: Cost) -> bool {
    a.bends < b.bends || (a.bends == b.bends && (a.length < b.length || (a.length == b.length && (
    a.from_middle < b.from_middle || (a.from_middle == b.from_middle && a.hand < b.hand)))))
}

/// Whether `a` ranks no later than `b`.
pub open spec fn cost_le(a: Cost, b: Cost) -> bool {
    cost_lt(a, b) || a == b
}

/// Whether `a` ranks strictly before `b`.
pub fn cost_less(a: Cost, b: Cost) -> (r: bool)
    ensures
        r == cost_lt(a, b),
{
    a.bends < b.bends || (a.bends == b.bends && (a.length < b.length || (a.length == b.length && (
    a.from_middle < b.from_middle || (a.from_middle == b.from_middle && a.hand < b.hand)))))
}

/// Whether the coordinate `c` sits, of `mid_c`, on the side leaving `da` puts to the travel's
/// right. Coordinates grow rightward and downward, so leaving `Up` or `Right` puts the larger
/// coordinate to the right, and leaving `Down` or `Left` the smaller.
pub open spec fn spec_is_right_of_travel(da: Direction, c: i32, mid_c: i32) -> bool {
    match da {
        Direction::Up | Direction::Right => c >= mid_c,
        Direction::Down | Direction::Left => c <= mid_c,
    }
}

/// Whether the coordinate `c` sits, of `mid_c`, on the side leaving `da` puts to the travel's
/// right.
pub fn is_right_of_travel(da: Direction, c: i32, mid_c: i32) -> (r: bool)
    ensures
        r == spec_is_right_of_travel(da, c, mid_c),
{
    match da {
        Direction::Up | Direction::Right => c >= mid_c,
        Direction::Down | Direction::Left => c <= mid_c,
    }
}

/// The `from_middle` and `hand` a run of `orientation` through `pos` is charged against `mid`
/// and the arrow's own travel `da`: its distance from the middle, and one where it runs along
/// `da`'s own orientation on the travel's left.
pub open spec fn spec_run_cost(orientation: Orientation, pos: Pos, mid: Pos, da: Direction) -> (
    u64,
    u64,
) {
    let (c, mid_c) = match orientation {
        Orientation::Horizontal => (pos.y, mid.y),
        Orientation::Vertical => (pos.x, mid.x),
    };
    let from_middle = (if c >= mid_c { c - mid_c } else { mid_c - c }) as u64;
    let hand: u64 = if orientation == spec_direction_orientation(da) && !spec_is_right_of_travel(
        da,
        c,
        mid_c,
    ) {
        1
    } else {
        0
    };
    (from_middle, hand)
}

/// The `from_middle` and `hand` a run of `orientation` through `pos` is charged.
pub fn run_cost(orientation: Orientation, pos: Pos, mid: Pos, da: Direction) -> (r: (u64, u64))
    ensures
        r == spec_run_cost(orientation, pos, mid, da),
        r.0 < 0x1_0000_0000,
        r.1 <= 1,
{
    let (c, mid_c) = match orientation {
        Orientation::Horizontal => (pos.y, mid.y),
        Orientation::Vertical => (pos.x, mid.x),
    };
    let from_middle = if c >= mid_c {
        (c as i64 - mid_c as i64) as u64
    } else {
        (mid_c as i64 - c as i64) as u64
    };
    let hand: u64 = if orientation == direction_orientation(da) && !is_right_of_travel(da, c, mid_c) {
        1
    } else {
        0
    };
    (from_middle, hand)
}

/// The direction at `h` in the fixed order up, right, down, left.
pub open spec fn spec_direction_at(h: int) -> Direction {
    if h == 0 {
        Direction::Up
    } else if h == 1 {
        Direction::Right
    } else if h == 2 {
        Direction::Down
    } else {
        Direction::Left
    }
}

/// The direction at `h` in the fixed order up, right, down, left.
pub fn direction_at(h: usize) -> (d: Direction)
    ensures
        d == spec_direction_at(h as int),
{
    if h == 0 {
        Direction::Up
    } else if h == 1 {
        Direction::Right
    } else if h == 2 {
        Direction::Down
    } else {
        Direction::Left
    }
}

/// The place of `d` in the fixed order up, right, down, left.
pub open spec fn spec_direction_index(d: Direction) -> usize {
    match d {
        Direction::Up => 0,
        Direction::Right => 1,
        Direction::Down => 2,
        Direction::Left => 3,
    }
}

/// The place of `d` in the fixed order up, right, down, left.
pub fn direction_index(d: Direction) -> (h: usize)
    ensures
        h < 4,
        spec_direction_at(h as int) == d,
        h == spec_direction_index(d),
{
    match d {
        Direction::Up => 0,
        Direction::Right => 1,
        Direction::Down => 2,
        Direction::Left => 3,
    }
}

} // verus!
