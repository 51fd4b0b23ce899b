//! The end fragment: the cell where a stroke stops.
use vstd::prelude::*;

use crate::cell::{Arm, Cell, Side, StrokeCell};
use crate::geometry::Pos;
use crate::shape::Shape;
use crate::stroke::Stroke;

verus! {

/// An end: one cell carrying the single arm the stroke runs on, `Unset` on the other three.
/// It renders through the glyph set like any other stroke cell.
pub struct End {
    /// The end's position.
    pub at: Pos,
    /// The side the stroke runs on.
    pub side: Side,
    /// The stroke the cell is drawn in.
    pub stroke: Stroke,
}

impl End {
    /// The arm the end carries toward `toward`.
    pub open spec fn spec_arm(&self, toward: Side) -> Arm {
        if toward == self.side {
            Arm::Run(self.stroke)
        } else {
            Arm::Unset
        }
    }

    /// The one cell the end writes.
    pub open spec fn spec_cell(&self) -> Cell {
        Cell::Strokes(
            StrokeCell {
                base: self.stroke,
                top: self.spec_arm(Side::Top),
                right: self.spec_arm(Side::Right),
                bottom: self.spec_arm(Side::Bottom),
                left: self.spec_arm(Side::Left),
            },
        )
    }

    fn arm_toward(&self, toward: Side) -> (a: Arm)
        ensures
            a == self.spec_arm(toward),
    {
        if toward == self.side {
            Arm::Run(self.stroke.duplicate())
        } else {
            Arm::Unset
        }
    }
}

impl End {
    /// The stamps this shape writes, in order.
    pub open spec fn spec_stamps(&self) -> Seq<(Pos, Cell)> {
        seq![(self.at, self.spec_cell())]
    }
}

impl Shape for End {
    open spec fn spec_writes(&self, stamps: Seq<(Pos, Cell)>) -> bool {
        stamps == self.spec_stamps()
    }

    fn stamps(&self) -> (r: Vec<(Pos, Cell)>) {
        let cell = Cell::Strokes(
            StrokeCell {
                base: self.stroke.duplicate(),
                top: self.arm_toward(Side::Top),
                right: self.arm_toward(Side::Right),
                bottom: self.arm_toward(Side::Bottom),
                left: self.arm_toward(Side::Left),
            },
        );
        let mut out = Vec::new();
        out.push((self.at, cell));
        assert(out@ =~= seq![(self.at, self.spec_cell())]);
        assert(out@ == self.spec_stamps());
        assert(self.spec_writes(out@));
        out
    }
}

} // verus!
