//! The head fragment: an arrow's head, one chosen glyph.
use vstd::prelude::*;

use crate::cell::Cell;
use crate::geometry::Pos;
use crate::glyph::Glyph;
use crate::shape::Shape;

verus! {

/// A head: one cell written as a chosen glyph, supplied by the caller because no glyph set holds
/// a rule that points.
pub struct Head {
    /// The head's position.
    pub at: Pos,
    /// The glyph the head is drawn as.
    pub glyph: Glyph,
}

impl Head {
    /// The stamps this shape writes, in order.
    pub open spec fn spec_stamps(&self) -> Seq<(Pos, Cell)> {
        seq![(self.at, Cell::Literal(self.glyph))]
    }
}

impl Shape for Head {
    open spec fn spec_writes(&self, stamps: Seq<(Pos, Cell)>) -> bool {
        stamps == self.spec_stamps()
    }

    fn stamps(&self) -> (r: Vec<(Pos, Cell)>) {
        let mut out = Vec::new();
        out.push((self.at, Cell::Literal(self.glyph.duplicate())));
        assert(out@ =~= seq![(self.at, Cell::Literal(self.glyph))]);
        assert(out@ == self.spec_stamps());
        assert(self.spec_writes(out@));
        out
    }
}

} // verus!
