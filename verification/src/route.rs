//! A route: the path between an arrow's two starting positions, placed as corners and straight
//! runs.
use vstd::prelude::*;

use crate::cell::{Cell, Side};
use crate::fragment::corner::Corner;
use crate::fragment::segment::segment_cell;
use crate::geometry::{adjacent, Orientation, Pos};
use crate::stroke::Stroke;

verus! {

/// The side of `from` that faces `to`, one cell away along one axis.
pub open spec fn spec_side_toward(from: Pos, to: Pos) -> Side {
    if to.x == from.x {
        if to.y < from.y {
            Side::Top
        } else {
            Side::Bottom
        }
    } else if to.x < from.x {
        Side::Left
    } else {
        Side::Right
    }
}

/// The side of `from` that faces `to`, which must be exactly one cell away along one axis.
pub fn side_toward(from: Pos, to: Pos) -> (s: Side)
    requires
        adjacent(from, to),
    ensures
        s == spec_side_toward(from, to),
{
    if to.x == from.x {
        if to.y < from.y {
            Side::Top
        } else {
            Side::Bottom
        }
    } else if to.x < from.x {
        Side::Left
    } else {
        Side::Right
    }
}

/// The orientation a side lies along: `Top`/`Bottom` are vertical, `Left`/`Right` horizontal.
pub open spec fn spec_orientation_of(side: Side) -> Orientation {
    match side {
        Side::Top | Side::Bottom => Orientation::Vertical,
        Side::Left | Side::Right => Orientation::Horizontal,
    }
}

/// The orientation a side lies along: `Top`/`Bottom` are vertical, `Left`/`Right` horizontal.
pub fn orientation_of(side: Side) -> (o: Orientation)
    ensures
        o == spec_orientation_of(side),
{
    match side {
        Side::Top | Side::Bottom => Orientation::Vertical,
        Side::Left | Side::Right => Orientation::Horizontal,
    }
}

/// A route: the derived path between an arrow's two starting positions. `from` and `to` are the
/// arrow's own two endpoints, needed only so the outermost route positions know which side faces
/// the head beside them; the route never writes to `from` or `to`.
pub struct Route {
    /// The arrow's first endpoint, beside the route's first position.
    pub from: Pos,
    /// The arrow's second endpoint, beside the route's last position.
    pub to: Pos,
    /// The route's positions, in order.
    pub positions: Vec<Pos>,
    /// The stroke the route is drawn in.
    pub stroke: Stroke,
}

/// The position before the `i`th of `ps`: the previous one, or `from`.
pub open spec fn route_pred(from: Pos, ps: Seq<Pos>, i: int) -> Pos {
    if i == 0 {
        from
    } else {
        ps[i - 1]
    }
}

/// The position after the `i`th of `ps`: the next one, or `to`.
pub open spec fn route_succ(to: Pos, ps: Seq<Pos>, i: int) -> Pos {
    if i + 1 < ps.len() {
        ps[i + 1]
    } else {
        to
    }
}

/// The cell a route through `ps` between `from` and `to` writes at its `i`th position: a corner
/// opening toward both neighbours where the path bends, and a straight run's cell where it does
/// not.
pub open spec fn route_cell(from: Pos, to: Pos, ps: Seq<Pos>, stroke: Stroke, i: int) -> Cell {
    let p = ps[i];
    let sp = spec_side_toward(p, route_pred(from, ps, i));
    let ss = spec_side_toward(p, route_succ(to, ps, i));
    if spec_orientation_of(sp) != spec_orientation_of(ss) {
        Corner { at: p, opens: (sp, ss), stroke }.spec_cell()
    } else {
        segment_cell(spec_orientation_of(sp), stroke)
    }
}

/// The stamps a route through `ps` between `from` and `to` writes: at each of its positions, in
/// order, the cell [`route_cell`] says.
pub open spec fn route_stamps(from: Pos, to: Pos, ps: Seq<Pos>, stroke: Stroke) -> Seq<(Pos, Cell)> {
    Seq::new(ps.len(), |i: int| (ps[i], route_cell(from, to, ps, stroke, i)))
}

/// Whether `from`, the positions `ps` and `to`, in that order, are each one cell from the next.
pub open spec fn route_connected(from: Pos, to: Pos, ps: Seq<Pos>) -> bool {
    ps.len() > 0 ==> {
        &&& adjacent(from, ps[0])
        &&& adjacent(ps[ps.len() - 1], to)
        &&& forall|i: int| 0 <= i < ps.len() - 1 ==> adjacent(#[trigger] ps[i], ps[i + 1])
    }
}

impl Route {
    /// Whether `from`, the positions and `to`, in that order, are each one cell from the next.
    pub open spec fn spec_connected(&self) -> bool {
        route_connected(self.from, self.to, self.positions@)
    }

    /// The stamps the route writes: at each of its positions, in order, the cell
    /// [`route_cell`] says.
    pub open spec fn spec_stamps(&self) -> Seq<(Pos, Cell)> {
        route_stamps(self.from, self.to, self.positions@, self.stroke)
    }

    /// The stamps the route writes, in order.
    pub fn stamps(&self) -> (r: Vec<(Pos, Cell)>)
        requires
            self.spec_connected(),
        ensures
            r@ == self.spec_stamps(),
    {
        let n = self.positions.len();
        let mut out: Vec<(Pos, Cell)> = Vec::new();
        let mut i: usize = 0;
        while i < n
            invariant
                n == self.positions@.len(),
                i <= n,
                self.spec_connected(),
                out@ == self.spec_stamps().take(i as int),
            decreases n - i,
        {
            let pos = self.positions[i];
            let pred = if i == 0 {
                self.from
            } else {
                self.positions[i - 1]
            };
            let successor = if i + 1 < n {
                self.positions[i + 1]
            } else {
                self.to
            };
            proof {
                if i > 0 {
                    assert(adjacent(self.positions@[i - 1], self.positions@[i as int]));
                }
                if i + 1 < n {
                    assert(adjacent(self.positions@[i as int], self.positions@[i + 1]));
                }
            }
            let sp = side_toward(pos, pred);
            let ss = side_toward(pos, successor);
            let op = orientation_of(sp);
            let os = orientation_of(ss);
            let cell = if op != os {
                Corner { at: pos, opens: (sp, ss), stroke: self.stroke.duplicate() }.cell()
            } else {
                crate::fragment::segment::segment_cell_of(op, &self.stroke)
            };
            out.push((pos, cell));
            assert(out@ =~= self.spec_stamps().take(i + 1));
            i += 1;
        }
        assert(out@ =~= self.spec_stamps());
        out
    }
}

} // verus!
