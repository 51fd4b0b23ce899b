//! The border fragment: a run bounding a figure's interior.
use vstd::prelude::*;

use super::{run, spec_run, stamp_each, stamps_at};
use crate::cell::{Arm, Cell, Side, StrokeCell};
use crate::geometry::{Orientation, Pos};
use crate::shape::Shape;
use crate::stroke::Stroke;

verus! {

/// The side facing `side` across a cell.
pub open spec fn spec_opposite_side(side: Side) -> Side {
    match side {
        Side::Top => Side::Bottom,
        Side::Right => Side::Left,
        Side::Bottom => Side::Top,
        Side::Left => Side::Right,
    }
}

/// The orientation a border on `side` of its figure runs along.
pub open spec fn border_orientation(side: Side) -> Orientation {
    match side {
        Side::Top | Side::Bottom => Orientation::Horizontal,
        Side::Left | Side::Right => Orientation::Vertical,
    }
}

/// A border run: `Run` along it, `Unset` outward, and `Closed` facing the figure's interior only
/// when the figure closes that interior.
pub struct Border {
    /// The run's first position.
    pub from: Pos,
    /// How many cells the run covers.
    pub len: u32,
    /// Which side of the figure this border sits on.
    pub side: Side,
    /// The stroke every cell of the run is drawn in.
    pub stroke: Stroke,
    /// Whether the side facing the figure's interior is `Closed` (`true`) or `Unset` (`false`).
    pub closes_interior: bool,
}

impl Border {
    /// The arm a border cell carries toward `toward`.
    pub open spec fn spec_arm(&self, toward: Side) -> Arm {
        if toward == self.side {
            Arm::Unset
        } else if toward == spec_opposite_side(self.side) {
            if self.closes_interior {
                Arm::Closed
            } else {
                Arm::Unset
            }
        } else {
            Arm::Run(self.stroke)
        }
    }

    /// The cell written at every position of the run.
    pub open spec fn spec_cell(&self) -> Cell {
        Cell::Strokes(
            StrokeCell {
                base: self.stroke,
                top: self.spec_arm(Side::Top),
                right: self.spec_arm(Side::Right),
                bottom: self.spec_arm(Side::Bottom),
                left: self.spec_arm(Side::Left),
            },
        )
    }

    fn arm_toward(&self, toward: Side) -> (a: Arm)
        ensures
            a == self.spec_arm(toward),
    {
        let opposite = match self.side {
            Side::Top => Side::Bottom,
            Side::Right => Side::Left,
            Side::Bottom => Side::Top,
            Side::Left => Side::Right,
        };
        if toward == self.side {
            Arm::Unset
        } else if toward == opposite {
            if self.closes_interior {
                Arm::Closed
            } else {
                Arm::Unset
            }
        } else {
            Arm::Run(self.stroke.duplicate())
        }
    }
}

impl Border {
    /// The stamps this shape writes, in order.
    pub open spec fn spec_stamps(&self) -> Seq<(Pos, Cell)> {
        stamps_at(spec_run(self.from, self.len, border_orientation(self.side)), self.spec_cell())
    }
}

impl Shape for Border {
    open spec fn spec_writes(&self, stamps: Seq<(Pos, Cell)>) -> bool {
        stamps == self.spec_stamps()
    }

    fn stamps(&self) -> (r: Vec<(Pos, Cell)>) {
        let orientation = match self.side {
            Side::Top | Side::Bottom => Orientation::Horizontal,
            Side::Left | Side::Right => Orientation::Vertical,
        };
        let cell = Cell::Strokes(
            StrokeCell {
                base: self.stroke.duplicate(),
                top: self.arm_toward(Side::Top),
                right: self.arm_toward(Side::Right),
                bottom: self.arm_toward(Side::Bottom),
                left: self.arm_toward(Side::Left),
            },
        );
        let positions = run(self.from, self.len, orientation);
        let r = stamp_each(&positions, &cell);
        assert(r@ == self.spec_stamps());
        assert(self.spec_writes(r@));
        r
    }
}

} // verus!
