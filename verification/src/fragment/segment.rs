//! The segment fragment: a run that continues past both of its ends.
use vstd::prelude::*;

use super::{run, spec_run, stamp_each, stamps_at};
use crate::cell::{spec_merge, Arm, Cell, Side, StrokeCell};
use crate::geometry::{Orientation, Pos};
use crate::shape::Shape;
use crate::stroke::Stroke;

verus! {

/// A segment: `Run` on both sides along its run, `Unset` on the two across it. It has no
/// `Closed` side at all.
pub struct Segment {
    /// The run's first position.
    pub from: Pos,
    /// How many cells the run covers.
    pub len: u32,
    /// Whether the run lies along a row or a column.
    pub orientation: Orientation,
    /// The stroke every cell of the run is drawn in.
    pub stroke: Stroke,
}

/// The cell every position of a segment of `orientation` in `stroke` holds.
pub open spec fn segment_cell(orientation: Orientation, stroke: Stroke) -> Cell {
    match orientation {
        Orientation::Horizontal => Cell::Strokes(
            StrokeCell {
                base: stroke,
                top: Arm::Unset,
                right: Arm::Run(stroke),
                bottom: Arm::Unset,
                left: Arm::Run(stroke),
            },
        ),
        Orientation::Vertical => Cell::Strokes(
            StrokeCell {
                base: stroke,
                top: Arm::Run(stroke),
                right: Arm::Unset,
                bottom: Arm::Run(stroke),
                left: Arm::Unset,
            },
        ),
    }
}

/// The cell every position of a segment of `orientation` in `stroke` holds.
pub fn segment_cell_of(orientation: Orientation, stroke: &Stroke) -> (c: Cell)
    ensures
        c == segment_cell(orientation, *stroke),
{
    match orientation {
        Orientation::Horizontal => Cell::Strokes(
            StrokeCell {
                base: stroke.duplicate(),
                top: Arm::Unset,
                right: Arm::Run(stroke.duplicate()),
                bottom: Arm::Unset,
                left: Arm::Run(stroke.duplicate()),
            },
        ),
        Orientation::Vertical => Cell::Strokes(
            StrokeCell {
                base: stroke.duplicate(),
                top: Arm::Run(stroke.duplicate()),
                right: Arm::Unset,
                bottom: Arm::Run(stroke.duplicate()),
                left: Arm::Unset,
            },
        ),
    }
}

impl Segment {
    /// The stamps this shape writes, in order.
    pub open spec fn spec_stamps(&self) -> Seq<(Pos, Cell)> {
        stamps_at(
            spec_run(self.from, self.len, self.orientation),
            segment_cell(self.orientation, self.stroke),
        )
    }
}

impl Shape for Segment {
    open spec fn spec_writes(&self, stamps: Seq<(Pos, Cell)>) -> bool {
        stamps == self.spec_stamps()
    }

    fn stamps(&self) -> (r: Vec<(Pos, Cell)>) {
        let cell = segment_cell_of(self.orientation, &self.stroke);
        let positions = run(self.from, self.len, self.orientation);
        let r = stamp_each(&positions, &cell);
        assert(r@ == self.spec_stamps());
        assert(self.spec_writes(r@));
        r
    }
}

/// A run drawn over a perpendicular run makes a four-way junction: across its own run a segment
/// decides nothing, so the arms of the run behind show through on those two sides, while along
/// its run the front segment's own arms stand.
pub proof fn law_crossing_runs_make_a_junction(front: Stroke, behind: Stroke)
    ensures
        spec_merge(
            segment_cell(Orientation::Vertical, front),
            segment_cell(Orientation::Horizontal, behind),
        ) == Cell::Strokes(
            StrokeCell {
                base: front,
                top: Arm::Run(front),
                right: Arm::Run(behind),
                bottom: Arm::Run(front),
                left: Arm::Run(behind),
            },
        ),
        spec_merge(
            segment_cell(Orientation::Horizontal, front),
            segment_cell(Orientation::Vertical, behind),
        ) == Cell::Strokes(
            StrokeCell {
                base: front,
                top: Arm::Run(behind),
                right: Arm::Run(front),
                bottom: Arm::Run(behind),
                left: Arm::Run(front),
            },
        ),
{
}

} // verus!
