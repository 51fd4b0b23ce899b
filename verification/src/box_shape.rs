//! The box: corners, border runs and an interior, placed correctly.
use vstd::prelude::*;

use crate::cell::{Cell, Side};
use crate::fragment::border::Border;
use crate::fragment::corner::Corner;
use crate::fragment::fill::Fill;
use crate::geometry::{Pos, Size};
use crate::glyph::Glyph;
use crate::shape::Shape;
use crate::stroke::Stroke;

verus! {

/// A box: a position, a size and a stroke, with a fill as an option.
///
/// Its decomposition depends on `size`: a 2x2 box is four corners and nothing else, and below 2
/// in either dimension it draws nothing at all.
pub struct BoxShape {
    /// The box's top-left corner.
    pub at: Pos,
    /// The box's width and height, in cells.
    pub size: Size,
    /// The stroke every cell this box writes is drawn in.
    pub stroke: Stroke,
    /// The glyph that fills the interior, or `None` for no fill at all.
    pub fill: Option<Glyph>,
}

impl BoxShape {
    /// Whether the box draws anything: at least 2 in both dimensions, and its far corner
    /// addressable in `i32`.
    pub open spec fn spec_drawn(&self) -> bool {
        &&& self.size.width >= 2
        &&& self.size.height >= 2
        &&& self.at.x + self.size.width - 1 <= i32::MAX
        &&& self.at.y + self.size.height - 1 <= i32::MAX
    }

    /// The column of the box's right edge.
    pub open spec fn spec_x1(&self) -> i32 {
        (self.at.x + self.size.width - 1) as i32
    }

    /// The row of the box's bottom edge.
    pub open spec fn spec_y1(&self) -> i32 {
        (self.at.y + self.size.height - 1) as i32
    }

    /// The four corners, clockwise from the top-left.
    pub open spec fn spec_corners(&self) -> Seq<(Pos, Cell)> {
        let x0 = self.at.x;
        let y0 = self.at.y;
        let x1 = self.spec_x1();
        let y1 = self.spec_y1();
        Corner {
            at: Pos { x: x0, y: y0 },
            opens: (Side::Right, Side::Bottom),
            stroke: self.stroke,
        }.spec_stamps() + Corner {
            at: Pos { x: x1, y: y0 },
            opens: (Side::Bottom, Side::Left),
            stroke: self.stroke,
        }.spec_stamps() + Corner {
            at: Pos { x: x1, y: y1 },
            opens: (Side::Top, Side::Left),
            stroke: self.stroke,
        }.spec_stamps() + Corner {
            at: Pos { x: x0, y: y1 },
            opens: (Side::Top, Side::Right),
            stroke: self.stroke,
        }.spec_stamps()
    }

    /// The top and bottom borders, present when the box is wider than 2.
    pub open spec fn spec_rows(&self) -> Seq<(Pos, Cell)> {
        if self.size.width > 2 {
            Border {
                from: Pos { x: (self.at.x + 1) as i32, y: self.at.y },
                len: (self.size.width - 2) as u32,
                side: Side::Top,
                stroke: self.stroke,
                closes_interior: self.fill is Some,
            }.spec_stamps() + Border {
                from: Pos { x: (self.at.x + 1) as i32, y: self.spec_y1() },
                len: (self.size.width - 2) as u32,
                side: Side::Bottom,
                stroke: self.stroke,
                closes_interior: self.fill is Some,
            }.spec_stamps()
        } else {
            Seq::empty()
        }
    }

    /// The left and right borders, present when the box is taller than 2.
    pub open spec fn spec_columns(&self) -> Seq<(Pos, Cell)> {
        if self.size.height > 2 {
            Border {
                from: Pos { x: self.at.x, y: (self.at.y + 1) as i32 },
                len: (self.size.height - 2) as u32,
                side: Side::Left,
                stroke: self.stroke,
                closes_interior: self.fill is Some,
            }.spec_stamps() + Border {
                from: Pos { x: self.spec_x1(), y: (self.at.y + 1) as i32 },
                len: (self.size.height - 2) as u32,
                side: Side::Right,
                stroke: self.stroke,
                closes_interior: self.fill is Some,
            }.spec_stamps()
        } else {
            Seq::empty()
        }
    }

    /// The interior, filled when the box has a fill and an interior to put it in.
    pub open spec fn spec_interior(&self) -> Seq<(Pos, Cell)> {
        if self.size.width > 2 && self.size.height > 2 && self.fill is Some {
            Fill {
                at: Pos { x: (self.at.x + 1) as i32, y: (self.at.y + 1) as i32 },
                size: Size {
                    width: (self.size.width - 2) as u32,
                    height: (self.size.height - 2) as u32,
                },
                glyph: self.fill->0,
            }.spec_stamps()
        } else {
            Seq::empty()
        }
    }
}

impl BoxShape {
    /// Nothing, unless the box is drawn; then its corners, its top and bottom borders, its left
    /// and right borders, and its fill.
    /// The stamps this shape writes, in order.
    pub open spec fn spec_stamps(&self) -> Seq<(Pos, Cell)> {
        if self.spec_drawn() {
            self.spec_corners() + self.spec_rows() + self.spec_columns() + self.spec_interior()
        } else {
            Seq::empty()
        }
    }
}

impl Shape for BoxShape {
    open spec fn spec_writes(&self, stamps: Seq<(Pos, Cell)>) -> bool {
        stamps == self.spec_stamps()
    }

    fn stamps(&self) -> (r: Vec<(Pos, Cell)>) {
        let mut out: Vec<(Pos, Cell)> = Vec::new();
        let width = self.size.width;
        let height = self.size.height;
        if width < 2 || height < 2 {
            assert(out@ == self.spec_stamps());
            assert(self.spec_writes(out@));
            return out;
        }
        let (x1, y1) = match (
            self.at.x.checked_add_unsigned(width - 1),
            self.at.y.checked_add_unsigned(height - 1),
        ) {
            (Some(x1), Some(y1)) => (x1, y1),
            _ => {
                assert(out@ == self.spec_stamps());
                assert(self.spec_writes(out@));
                return out;
            },
        };
        let x0 = self.at.x;
        let y0 = self.at.y;
        let closes_interior = self.fill.is_some();

        let mut c = Corner {
            at: Pos { x: x0, y: y0 },
            opens: (Side::Right, Side::Bottom),
            stroke: self.stroke.duplicate(),
        }.stamps();
        out.append(&mut c);
        let mut c = Corner {
            at: Pos { x: x1, y: y0 },
            opens: (Side::Bottom, Side::Left),
            stroke: self.stroke.duplicate(),
        }.stamps();
        out.append(&mut c);
        let mut c = Corner {
            at: Pos { x: x1, y: y1 },
            opens: (Side::Top, Side::Left),
            stroke: self.stroke.duplicate(),
        }.stamps();
        out.append(&mut c);
        let mut c = Corner {
            at: Pos { x: x0, y: y1 },
            opens: (Side::Top, Side::Right),
            stroke: self.stroke.duplicate(),
        }.stamps();
        out.append(&mut c);
        assert(out@ =~= self.spec_corners());

        if width > 2 {
            let mut b = Border {
                from: Pos { x: x0 + 1, y: y0 },
                len: width - 2,
                side: Side::Top,
                stroke: self.stroke.duplicate(),
                closes_interior,
            }.stamps();
            out.append(&mut b);
            let mut b = Border {
                from: Pos { x: x0 + 1, y: y1 },
                len: width - 2,
                side: Side::Bottom,
                stroke: self.stroke.duplicate(),
                closes_interior,
            }.stamps();
            out.append(&mut b);
        }
        assert(out@ =~= self.spec_corners() + self.spec_rows());
        if height > 2 {
            let mut b = Border {
                from: Pos { x: x0, y: y0 + 1 },
                len: height - 2,
                side: Side::Left,
                stroke: self.stroke.duplicate(),
                closes_interior,
            }.stamps();
            out.append(&mut b);
            let mut b = Border {
                from: Pos { x: x1, y: y0 + 1 },
                len: height - 2,
                side: Side::Right,
                stroke: self.stroke.duplicate(),
                closes_interior,
            }.stamps();
            out.append(&mut b);
        }
        assert(out@ =~= self.spec_corners() + self.spec_rows() + self.spec_columns());
        if width > 2 && height > 2 {
            if let Some(glyph) = &self.fill {
                let mut f = Fill {
                    at: Pos { x: x0 + 1, y: y0 + 1 },
                    size: Size { width: width - 2, height: height - 2 },
                    glyph: glyph.duplicate(),
                }.stamps();
                out.append(&mut f);
            }
        }
        assert(out@ =~= self.spec_stamps());
        assert(self.spec_writes(out@));
        out
    }
}

} // verus!
