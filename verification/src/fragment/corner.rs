//! The corner fragment: one cell where a stroke opens toward two sides.
use vstd::prelude::*;

use crate::cell::{Arm, Cell, Side, StrokeCell};
use crate::geometry::Pos;
use crate::shape::Shape;
use crate::stroke::Stroke;

verus! {

/// A corner: one cell where a stroke opens toward two sides, `Unset` on the other two.
pub struct Corner {
    /// The corner's position.
    pub at: Pos,
    /// The two sides the stroke opens toward.
    pub opens: (Side, Side),
    /// The stroke the cell is drawn in.
    pub stroke: Stroke,
}

impl Corner {
    /// The arm the corner carries toward `toward`.
    pub open spec fn spec_arm(&self, toward: Side) -> Arm {
        if toward == self.opens.0 || toward == self.opens.1 {
            Arm::Run(self.stroke)
        } else {
            Arm::Unset
        }
    }

    /// The one cell the corner writes.
    pub open spec fn spec_cell(&self) -> Cell {
        Cell::Strokes(
            StrokeCell {
                base: self.stroke,
                top: self.spec_arm(Side::Top),
                right: self.spec_arm(Side::Right),
                bottom: self.spec_arm(Side::Bottom),
                left: self.spec_arm(Side::Left),
            },
        )
    }

    fn arm_toward(&self, toward: Side) -> (a: Arm)
        ensures
            a == self.spec_arm(toward),
    {
        if toward == self.opens.0 || toward == self.opens.1 {
            Arm::Run(self.stroke.duplicate())
        } else {
            Arm::Unset
        }
    }

    /// The one cell the corner writes.
    pub fn cell(&self) -> (c: Cell)
        ensures
            c == self.spec_cell(),
    {
        Cell::Strokes(
            StrokeCell {
                base: self.stroke.duplicate(),
                top: self.arm_toward(Side::Top),
                right: self.arm_toward(Side::Right),
                bottom: self.arm_toward(Side::Bottom),
                left: self.arm_toward(Side::Left),
            },
        )
    }
}

impl Corner {
    /// The stamps this shape writes, in order.
    pub open spec fn spec_stamps(&self) -> Seq<(Pos, Cell)> {
        seq![(self.at, self.spec_cell())]
    }
}

impl Shape for Corner {
    open spec fn spec_writes(&self, stamps: Seq<(Pos, Cell)>) -> bool {
        stamps == self.spec_stamps()
    }

    fn stamps(&self) -> (r: Vec<(Pos, Cell)>) {
        let mut out = Vec::new();
        out.push((self.at, self.cell()));
        assert(out@ =~= seq![(self.at, self.spec_cell())]);
        assert(out@ == self.spec_stamps());
        assert(self.spec_writes(out@));
        out
    }
}

} // verus!
