//! A cell: either a base stroke and four arms, or one chosen glyph; and how one cell lands on
//! another.
use vstd::prelude::*;

use crate::glyph::{Glyph, GlyphCatalog, GlyphKey, KeyView};
use crate::stroke::Stroke;

verus! {

/// A place on a cell: one of its four sides.
#[derive(Debug, Clone, Copy, PartialEq, Eq, Structural)]
pub enum Side {
    /// The top of a cell.
    Top,
    /// The right of a cell.
    Right,
    /// The bottom of a cell.
    Bottom,
    /// The left of a cell.
    Left,
}

/// What a cell has on one of its four sides.
#[derive(Debug, Clone, PartialEq, Eq)]
pub enum Arm {
    /// A stroke runs to this side, drawn in the stroke it carries.
    Run(Stroke),
    /// No stroke runs to this side, and that is decided.
    Closed,
    /// Not this stamp's to decide: whichever stamp writes here next chooses this side.
    Unset,
}

impl Arm {
    /// The same arm, as a value of its own.
    pub fn duplicate(&self) -> (a: Arm)
        ensures
            a == *self,
    {
        match self {
            Arm::Run(s) => Arm::Run(s.duplicate()),
            Arm::Closed => Arm::Closed,
            Arm::Unset => Arm::Unset,
        }
    }

    /// Whether this arm is `Unset`.
    pub fn is_unset(&self) -> (b: bool)
        ensures
            b == (*self is Unset),
    {
        match self {
            Arm::Unset => true,
            _ => false,
        }
    }
}

/// A base stroke, always present, and four arms, one per side. Each arm carries its own stroke.
#[derive(Debug, Clone, PartialEq, Eq)]
pub struct StrokeCell {
    /// The stroke the cell falls back to when its exact key has no rule.
    pub base: Stroke,
    /// What the cell has on its top side.
    pub top: Arm,
    /// What the cell has on its right side.
    pub right: Arm,
    /// What the cell has on its bottom side.
    pub bottom: Arm,
    /// What the cell has on its left side.
    pub left: Arm,
}

/// The stroke an arm contributes to the exact key: its own on a `Run` side, nothing otherwise.
pub open spec fn arm_key(arm: Arm) -> Option<Seq<char>> {
    match arm {
        Arm::Run(s) => Some(s@),
        _ => None,
    }
}

/// The stroke an arm contributes to the degraded key: `base` on a `Run` side, nothing otherwise.
pub open spec fn arm_degraded_key(arm: Arm, base: Stroke) -> Option<Seq<char>> {
    match arm {
        Arm::Run(_) => Some(base@),
        _ => None,
    }
}

/// Whether none of the four arms of `c` is `Unset`.
pub open spec fn stroke_cell_decided(c: StrokeCell) -> bool {
    !(c.top is Unset) && !(c.right is Unset) && !(c.bottom is Unset) && !(c.left is Unset)
}

/// The exact key of `c`: each arm's own stroke on every `Run` side.
pub open spec fn spec_key(c: StrokeCell) -> KeyView {
    (arm_key(c.top), arm_key(c.right), arm_key(c.bottom), arm_key(c.left))
}

/// The degraded key of `c`: the base stroke on every `Run` side.
pub open spec fn spec_degraded_key(c: StrokeCell) -> KeyView {
    (
        arm_degraded_key(c.top, c.base),
        arm_degraded_key(c.right, c.base),
        arm_degraded_key(c.bottom, c.base),
        arm_degraded_key(c.left, c.base),
    )
}

fn key_side(arm: &Arm) -> (r: Option<Stroke>)
    ensures
        crate::glyph::side_view(r) == arm_key(*arm),
{
    match arm {
        Arm::Run(stroke) => Some(stroke.duplicate()),
        Arm::Closed | Arm::Unset => None,
    }
}

fn degraded_side(arm: &Arm, base: &Stroke) -> (r: Option<Stroke>)
    ensures
        crate::glyph::side_view(r) == arm_degraded_key(*arm, *base),
{
    match arm {
        Arm::Run(_) => Some(base.duplicate()),
        Arm::Closed | Arm::Unset => None,
    }
}

impl StrokeCell {
    /// Whether every arm is decided: none of the four is `Unset`.
    pub fn is_decided(&self) -> (b: bool)
        ensures
            b == stroke_cell_decided(*self),
    {
        !self.top.is_unset() && !self.right.is_unset() && !self.bottom.is_unset()
            && !self.left.is_unset()
    }

    /// The exact key this cell resolves to in a catalog: each arm's own stroke on every `Run`
    /// side, and nothing where the arm is `Closed` or `Unset`.
    pub fn key(&self) -> (k: GlyphKey)
        ensures
            k@ == spec_key(*self),
    {
        GlyphKey {
            top: key_side(&self.top),
            right: key_side(&self.right),
            bottom: key_side(&self.bottom),
            left: key_side(&self.left),
        }
    }

    /// The degraded key this cell falls back to when its exact key matches nothing: the base
    /// stroke on every `Run` side, and nothing where the arm is `Closed` or `Unset`.
    pub fn degraded_key(&self) -> (k: GlyphKey)
        ensures
            k@ == spec_degraded_key(*self),
    {
        GlyphKey {
            top: degraded_side(&self.top, &self.base),
            right: degraded_side(&self.right, &self.base),
            bottom: degraded_side(&self.bottom, &self.base),
            left: degraded_side(&self.left, &self.base),
        }
    }

    /// The same cell, as a value of its own.
    pub fn duplicate(&self) -> (c: StrokeCell)
        ensures
            c == *self,
    {
        StrokeCell {
            base: self.base.duplicate(),
            top: self.top.duplicate(),
            right: self.right.duplicate(),
            bottom: self.bottom.duplicate(),
            left: self.left.duplicate(),
        }
    }
}

/// A cell whose every arm carries its base stroke resolves the same key from both lookups.
pub proof fn law_uniform_cell_has_one_key(c: StrokeCell)
    requires
        c.top == Arm::Run(c.base),
        c.right == Arm::Run(c.base),
        c.bottom == Arm::Run(c.base),
        c.left == Arm::Run(c.base),
    ensures
        spec_key(c) == spec_degraded_key(c),
{
}

/// A cell: either a base stroke with four arms, or one chosen glyph, rendered as itself.
#[derive(Debug, Clone, PartialEq, Eq)]
pub enum Cell {
    /// A base stroke and four arms.
    Strokes(StrokeCell),
    /// One chosen glyph. Nothing connects into it, and it renders as itself.
    Literal(Glyph),
}

impl From<StrokeCell> for Cell {
    fn from(cell: StrokeCell) -> (c: Cell)
        ensures
            c == Cell::Strokes(cell),
    {
        Cell::Strokes(cell)
    }
}

impl vstd::std_specs::convert::FromSpecImpl<StrokeCell> for Cell {
    open spec fn obeys_from_spec() -> bool {
        true
    }

    open spec fn from_spec(cell: StrokeCell) -> Cell {
        Cell::Strokes(cell)
    }
}

/// Whether `c` is decided: a stroke cell with no `Unset` arm, or any literal.
pub open spec fn cell_decided(c: Cell) -> bool {
    match c {
        Cell::Strokes(s) => stroke_cell_decided(s),
        Cell::Literal(_) => true,
    }
}

/// The character a cell renders to against `glyphs`: a literal's own, or the rule its exact
/// key answers, or failing that the rule its degraded key answers.
pub open spec fn spec_cell_char(c: Cell, glyphs: Map<KeyView, char>) -> Option<char> {
    match c {
        Cell::Literal(g) => Some(g@),
        Cell::Strokes(s) => if glyphs.contains_key(spec_key(s)) {
            Some(glyphs[spec_key(s)])
        } else if glyphs.contains_key(spec_degraded_key(s)) {
            Some(glyphs[spec_degraded_key(s)])
        } else {
            None
        },
    }
}

impl Cell {
    /// Whether the cell is already decided. A literal has no arms to leave undecided.
    pub fn is_decided(&self) -> (b: bool)
        ensures
            b == cell_decided(*self),
    {
        match self {
            Cell::Strokes(cell) => cell.is_decided(),
            Cell::Literal(_) => true,
        }
    }

    /// The text this cell renders to: a literal's own text, or for a stroke cell the rule its
    /// exact key answers first and its degraded key second, `None` if `glyphs` has neither.
    pub fn glyph_str<'a>(&'a self, glyphs: &'a GlyphCatalog) -> (r: Option<&'a str>)
        ensures
            r is Some <==> spec_cell_char(*self, glyphs@) is Some,
            r matches Some(s) ==> s@ == seq![spec_cell_char(*self, glyphs@)->0],
    {
        match self {
            Cell::Literal(glyph) => Some(glyph.as_str()),
            Cell::Strokes(cell) => {
                let exact = cell.key();
                match glyphs.glyph_of(&exact) {
                    Some(g) => Some(g.as_str()),
                    None => {
                        let degraded = cell.degraded_key();
                        match glyphs.glyph_of(&degraded) {
                            Some(g) => Some(g.as_str()),
                            None => None,
                        }
                    },
                }
            },
        }
    }

    /// The character this cell renders to against `glyphs`, as [`Cell::glyph_str`] finds it.
    pub fn glyph_char(&self, glyphs: &GlyphCatalog) -> (r: Option<char>)
        ensures
            r == spec_cell_char(*self, glyphs@),
    {
        match self {
            Cell::Literal(glyph) => Some(glyph.to_char()),
            Cell::Strokes(cell) => {
                let exact = cell.key();
                match glyphs.glyph(&exact) {
                    Some(c) => Some(c),
                    None => glyphs.glyph(&cell.degraded_key()),
                }
            },
        }
    }

    /// The same cell, as a value of its own.
    pub fn duplicate(&self) -> (c: Cell)
        ensures
            c == *self,
    {
        match self {
            Cell::Strokes(s) => Cell::Strokes(s.duplicate()),
            Cell::Literal(g) => Cell::Literal(g.duplicate()),
        }
    }
}

/// `top`, unless it is `Unset`: an abstaining arm falls through to `bottom`.
pub open spec fn spec_merge_arm(top: Arm, bottom: Arm) -> Arm {
    if top is Unset {
        bottom
    } else {
        top
    }
}

/// `arm`, with `Unset` read as `Closed`: what an arm becomes over a literal, which hides
/// whatever lies behind it.
pub open spec fn spec_close_arm(arm: Arm) -> Arm {
    if arm is Unset {
        Arm::Closed
    } else {
        arm
    }
}

/// The cell that results from `top` landing on `bottom`.
///
/// A literal on top is itself. A stroke cell on top keeps its base stroke and every arm it
/// decides; an arm it leaves `Unset` falls through to the stroke cell below, or is closed off by
/// a literal below, which hides whatever a figure behind it would show.
pub open spec fn spec_merge(top: Cell, bottom: Cell) -> Cell {
    match top {
        Cell::Literal(_) => top,
        Cell::Strokes(t) => match bottom {
            Cell::Literal(_) => Cell::Strokes(
                StrokeCell {
                    base: t.base,
                    top: spec_close_arm(t.top),
                    right: spec_close_arm(t.right),
                    bottom: spec_close_arm(t.bottom),
                    left: spec_close_arm(t.left),
                },
            ),
            Cell::Strokes(b) => Cell::Strokes(
                StrokeCell {
                    base: t.base,
                    top: spec_merge_arm(t.top, b.top),
                    right: spec_merge_arm(t.right, b.right),
                    bottom: spec_merge_arm(t.bottom, b.bottom),
                    left: spec_merge_arm(t.left, b.left),
                },
            ),
        },
    }
}

fn merge_arm(top: Arm, bottom: &Arm) -> (a: Arm)
    ensures
        a == spec_merge_arm(top, *bottom),
{
    if top.is_unset() {
        bottom.duplicate()
    } else {
        top
    }
}

fn close_arm(arm: Arm) -> (a: Arm)
    ensures
        a == spec_close_arm(arm),
{
    if arm.is_unset() {
        Arm::Closed
    } else {
        arm
    }
}

/// Builds the cell that results from `top` landing on `bottom`, as [`spec_merge`] says.
pub fn merge(top: Cell, bottom: &Cell) -> (c: Cell)
    ensures
        c == spec_merge(top, *bottom),
{
    match top {
        Cell::Literal(g) => Cell::Literal(g),
        Cell::Strokes(t) => match bottom {
            Cell::Literal(_) => Cell::Strokes(
                StrokeCell {
                    base: t.base,
                    top: close_arm(t.top),
                    right: close_arm(t.right),
                    bottom: close_arm(t.bottom),
                    left: close_arm(t.left),
                },
            ),
            Cell::Strokes(b) => Cell::Strokes(
                StrokeCell {
                    base: t.base,
                    top: merge_arm(t.top, &b.top),
                    right: merge_arm(t.right, &b.right),
                    bottom: merge_arm(t.bottom, &b.bottom),
                    left: merge_arm(t.left, &b.left),
                },
            ),
        },
    }
}

/// A decided cell on top is the result of the merge whatever lies below it.
pub proof fn law_decided_top_wins(top: Cell, bottom: Cell)
    requires
        cell_decided(top),
    ensures
        spec_merge(top, bottom) == top,
{
}

/// Merging is associative: landing `a` on the result of `b` landing on `c` is the same as
/// landing the result of `a` on `b` onto `c`.
pub proof fn law_merge_associative(a: Cell, b: Cell, c: Cell)
    ensures
        spec_merge(a, spec_merge(b, c)) == spec_merge(spec_merge(a, b), c),
{
}

} // verus!
