//! Monospace: drawing diagrams with box-drawing characters on a character grid. Cells are stamped
//! into a buffer, shapes are drawn as stamps, and a window of the buffer renders to text.
use vstd::prelude::*;

pub mod geometry;
pub mod text;
pub mod strings;
pub mod stroke;
pub mod glyph;
pub mod glyph_sets;
pub mod cell;
pub mod buffer;
pub mod render;
pub mod shape;
pub mod fragment;
pub mod line;
pub mod box_shape;
pub mod route;
pub mod arrow_path;
pub mod lattice;
pub mod search;
pub mod arrow;
pub mod shortcut;
pub mod diagram;
pub mod description;
pub mod cli;
pub mod xtask;

pub use arrow::{Arrow, Endpoint};
pub use box_shape::BoxShape;
pub use buffer::{Buffer, StampMode};
pub use cell::{Arm, Cell, StrokeCell};
pub use diagram::Diagram;
pub use geometry::{Direction, Orientation, Pos, Size};
pub use glyph::{Glyph, GlyphCatalog, GlyphKey};
pub use line::Line;
pub use render::render;
pub use shape::{Layer, Shape, Surface};
pub use stroke::Stroke;

verus! {

} // verus!
