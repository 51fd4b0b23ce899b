//! The fill fragment: a rectangle written as one chosen glyph.
use vstd::prelude::*;

use super::{rect, spec_rect, stamp_each, stamps_at};
use crate::cell::Cell;
use crate::geometry::{Pos, Size};
use crate::glyph::Glyph;
use crate::shape::Shape;

verus! {

/// A rectangle filled with one chosen glyph, hiding whatever a figure behind it would show. The
/// glyph is a literal, so nothing connects into it.
pub struct Fill {
    /// The rectangle's top-left corner.
    pub at: Pos,
    /// The rectangle's size.
    pub size: Size,
    /// The glyph every position is written as.
    pub glyph: Glyph,
}

impl Fill {
    /// The stamps this shape writes, in order.
    pub open spec fn spec_stamps(&self) -> Seq<(Pos, Cell)> {
        stamps_at(spec_rect(self.at, self.size), Cell::Literal(self.glyph))
    }
}

impl Shape for Fill {
    open spec fn spec_writes(&self, stamps: Seq<(Pos, Cell)>) -> bool {
        stamps == self.spec_stamps()
    }

    fn stamps(&self) -> (r: Vec<(Pos, Cell)>) {
        let positions = rect(self.at, self.size);
        let r = stamp_each(&positions, &Cell::Literal(self.glyph.duplicate()));
        assert(r@ == self.spec_stamps());
        assert(self.spec_writes(r@));
        r
    }
}

} // verus!
