//! The line: a run of one stroke, its two outermost cells carrying only the arm it runs on.
use vstd::prelude::*;

use crate::cell::{Cell, Side};
use crate::route::spec_side_toward;
use crate::fragment::along;
use crate::fragment::end::End;
use crate::fragment::segment::Segment;
use crate::geometry::{Orientation, Pos};
use crate::shape::Shape;
use crate::stroke::Stroke;

verus! {

/// A line: a position, a length, an orientation and a stroke. No minimum length is declared: a
/// length of 0 draws nothing, and a length of 1 draws its one position as an end.
pub struct Line {
    /// The position of the line's first cell.
    pub at: Pos,
    /// How many cells the line occupies. Any value is accepted, including 0.
    pub len: u32,
    /// Whether the line runs along a row or a column.
    pub orientation: Orientation,
    /// The stroke every cell this line writes is drawn in.
    pub stroke: Stroke,
}

/// The position `i` cells along `orientation` from `at`, or `None` if that overflows `i32`.
pub open spec fn spec_pos_at(at: Pos, i: int, orientation: Orientation) -> Option<Pos> {
    let c = match orientation {
        Orientation::Horizontal => at.x as int,
        Orientation::Vertical => at.y as int,
    };
    if c + i <= i32::MAX {
        Some(along(at, i, orientation))
    } else {
        None
    }
}

/// The side a line's first cell runs toward, and the side its last cell runs toward.
pub open spec fn line_sides(orientation: Orientation) -> (Side, Side) {
    match orientation {
        Orientation::Horizontal => (Side::Right, Side::Left),
        Orientation::Vertical => (Side::Bottom, Side::Top),
    }
}

impl Line {
    /// The position `i` cells along this line from `at`, or `None` if that overflows `i32`.
    pub fn pos_at(&self, i: u32) -> (r: Option<Pos>)
        ensures
            r == spec_pos_at(self.at, i as int, self.orientation),
    {
        match self.orientation {
            Orientation::Horizontal => match self.at.x.checked_add_unsigned(i) {
                Some(x) => Some(Pos { x, y: self.at.y }),
                None => None,
            },
            Orientation::Vertical => match self.at.y.checked_add_unsigned(i) {
                Some(y) => Some(Pos { x: self.at.x, y }),
                None => None,
            },
        }
    }

    /// The end at the line's first position.
    pub open spec fn spec_first(&self) -> Seq<(Pos, Cell)> {
        End { at: self.at, side: line_sides(self.orientation).0, stroke: self.stroke }.spec_stamps()
    }

    /// The run between the line's two ends, present from length 3 on.
    pub open spec fn spec_middle(&self) -> Seq<(Pos, Cell)> {
        if self.len >= 3 && spec_pos_at(self.at, 1, self.orientation) is Some {
            Segment {
                from: spec_pos_at(self.at, 1, self.orientation)->0,
                len: (self.len - 2) as u32,
                orientation: self.orientation,
                stroke: self.stroke,
            }.spec_stamps()
        } else {
            Seq::empty()
        }
    }

    /// The end at the line's last position, present from length 2 on.
    pub open spec fn spec_last(&self) -> Seq<(Pos, Cell)> {
        if self.len >= 2 && spec_pos_at(self.at, self.len - 1, self.orientation) is Some {
            End {
                at: spec_pos_at(self.at, self.len - 1, self.orientation)->0,
                side: line_sides(self.orientation).1,
                stroke: self.stroke,
            }.spec_stamps()
        } else {
            Seq::empty()
        }
    }
}

impl Line {
    /// Nothing at length 0; otherwise the first end, the run between the ends, and the last end.
    /// The stamps this shape writes, in order.
    pub open spec fn spec_stamps(&self) -> Seq<(Pos, Cell)> {
        if self.len == 0 {
            Seq::empty()
        } else {
            self.spec_first() + self.spec_middle() + self.spec_last()
        }
    }
}

impl Shape for Line {
    open spec fn spec_writes(&self, stamps: Seq<(Pos, Cell)>) -> bool {
        stamps == self.spec_stamps()
    }

    fn stamps(&self) -> (r: Vec<(Pos, Cell)>) {
        let mut out: Vec<(Pos, Cell)> = Vec::new();
        if self.len == 0 {
            assert(out@ == self.spec_stamps());
            assert(self.spec_writes(out@));
            return out;
        }
        let (forward, backward) = match self.orientation {
            Orientation::Horizontal => (Side::Right, Side::Left),
            Orientation::Vertical => (Side::Bottom, Side::Top),
        };
        let mut first = End { at: self.at, side: forward, stroke: self.stroke.duplicate() }.stamps();
        out.append(&mut first);
        assert(out@ =~= self.spec_first());
        if self.len >= 3 {
            if let Some(from) = self.pos_at(1) {
                let mut middle = Segment {
                    from,
                    len: self.len - 2,
                    orientation: self.orientation,
                    stroke: self.stroke.duplicate(),
                }.stamps();
                out.append(&mut middle);
            }
        }
        assert(out@ == self.spec_first() + self.spec_middle());
        if self.len >= 2 {
            if let Some(last) = self.pos_at(self.len - 1) {
                let mut end = End {
                    at: last,
                    side: backward,
                    stroke: self.stroke.duplicate(),
                }.stamps();
                out.append(&mut end);
            }
        }
        assert(out@ == self.spec_stamps());
        assert(self.spec_writes(out@));
        out
    }
}

/// Each end of a line of at least two cells carries its one arm toward the line's own next cell:
/// the first end toward the second position, the last end toward the one before it.
pub proof fn law_line_ends_face_along_the_line(l: Line)
    requires
        l.len >= 2,
        spec_pos_at(l.at, l.len - 1, l.orientation) is Some,
    ensures
        l.spec_stamps().len() == l.len,
        l.spec_stamps()[0] == (
            l.at,
            End {
                at: l.at,
                side: spec_side_toward(l.at, spec_pos_at(l.at, 1, l.orientation)->0),
                stroke: l.stroke,
            }.spec_cell(),
        ),
        l.spec_stamps().last() == (
            spec_pos_at(l.at, l.len - 1, l.orientation)->0,
            End {
                at: spec_pos_at(l.at, l.len - 1, l.orientation)->0,
                side: spec_side_toward(
                    spec_pos_at(l.at, l.len - 1, l.orientation)->0,
                    spec_pos_at(l.at, l.len - 2, l.orientation)->0,
                ),
                stroke: l.stroke,
            }.spec_cell(),
        ),
{
    let first = l.spec_first();
    let middle = l.spec_middle();
    let last = l.spec_last();
    assert(first.len() == 1);
    assert(last.len() == 1);
    if l.len >= 3 {
        assert(spec_pos_at(l.at, 1, l.orientation) is Some);
        assert(middle.len() == l.len - 2);
    } else {
        assert(middle.len() == 0);
    }
    assert(l.spec_stamps() == first + middle + last);
    assert(l.spec_stamps()[0] == first[0]);
    assert(l.spec_stamps().last() == last[0]);
}

} // verus!
