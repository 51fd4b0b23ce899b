//! What the command-line front end computes: a description rendered once, or the shipped
//! demonstration's two captioned pictures, against the catalog of every glyph set.
use vstd::prelude::*;

use crate::buffer::{spec_stamp_all, Buffer, StampMode};
use crate::cell::Cell;
use crate::description::{spec_shapes, Description};
use crate::diagram::{writes_in_order, Shape};
use crate::geometry::{Pos, Size};
use crate::glyph::{light_glyphs, rules_map, table_rules, union_all, GlyphCatalog, KeyView};
use crate::glyph_sets::{
    ascii, ascii_glyphs, double, double_glyphs, heavy, heavy_glyphs, light_round,
    light_round_glyphs,
};
use crate::render::{render, renderable, spec_render};
use crate::text::push_chars;

verus! {

/// The rules of the catalog the front end renders with: the Light table, then the ASCII,
/// Double, Heavy and Light Round tables.
pub open spec fn cli_glyphs() -> Map<KeyView, char> {
    union_all(
        seq![
            rules_map(table_rules("light"@, light_glyphs())),
            rules_map(table_rules("ascii"@, ascii_glyphs())),
            rules_map(table_rules("double"@, double_glyphs())),
            rules_map(table_rules("heavy"@, heavy_glyphs())),
            rules_map(table_rules("light-round"@, light_round_glyphs())),
        ],
    )
}

/// The glyph catalog the front end renders with: the union of every glyph set.
pub fn glyph_catalog() -> (c: GlyphCatalog)
    ensures
        c@ == cli_glyphs(),
{
    let mut catalogs: Vec<GlyphCatalog> = Vec::new();
    catalogs.push(GlyphCatalog::light());
    catalogs.push(ascii());
    catalogs.push(double());
    catalogs.push(heavy());
    catalogs.push(light_round());
    let c = GlyphCatalog::union(catalogs);
    assert(catalogs@.map_values(|g: GlyphCatalog| g@) =~= seq![
        rules_map(table_rules("light"@, light_glyphs())),
        rules_map(table_rules("ascii"@, ascii_glyphs())),
        rules_map(table_rules("double"@, double_glyphs())),
        rules_map(table_rules("heavy"@, heavy_glyphs())),
        rules_map(table_rules("light-round"@, light_round_glyphs())),
    ]);
    c
}

/// Whether `text` is the picture of `shapes`, back to front, drawn into an empty window
/// `origin`/`size` and rendered with the front end's catalog.
pub open spec fn picture_of(shapes: Seq<Shape>, origin: Pos, size: Size, text: Seq<char>) -> bool {
    exists|stamps: Seq<(Pos, Cell)>|
        {
            &&& writes_in_order(shapes.reverse(), stamps)
            &&& text == spec_render(
                spec_stamp_all(Map::empty(), origin, size, stamps, StampMode::Below),
                cli_glyphs(),
                origin,
                size,
            )
        }
}

/// `shapes` with the one at `index` moved one place toward the front, where there is a place.
pub open spec fn moved_forward(shapes: Seq<Shape>, index: int) -> Seq<Shape> {
    if index + 1 < shapes.len() {
        shapes.update(index, shapes[index + 1]).update(index + 1, shapes[index])
    } else {
        shapes
    }
}

/// Draws the diagram into a fresh buffer over the window and renders that window.
fn picture(diagram: &crate::diagram::Diagram, catalog: &GlyphCatalog, origin: Pos, size: Size) -> (r:
    String)
    requires
        renderable(origin, size),
        catalog@ == cli_glyphs(),
    ensures
        picture_of(diagram@, origin, size, r@),
{
    let mut buffer = Buffer::new(origin, size);
    diagram.draw(&mut buffer);
    render(&buffer, catalog, origin, size)
}

/// Renders `description` into its own window, as one picture and nothing else.
pub fn render_once(description: Description) -> (r: String)
    requires
        renderable(description.canvas.origin, description.canvas.size),
    ensures
        picture_of(
            spec_shapes(description.shapes@),
            description.canvas.origin,
            description.canvas.size,
            r@,
        ),
{
    let (origin, size) = description.window();
    let diagram = description.into_diagram();
    picture(&diagram, &glyph_catalog(), origin, size)
}

/// Renders `description` as written, then again with its first entry moved one place toward the
/// front, each picture under a caption.
pub fn demonstrate(description: Description) -> (r: String)
    requires
        renderable(description.canvas.origin, description.canvas.size),
    ensures
        exists|first: Seq<char>, second: Seq<char>|
            {
                &&& picture_of(
                    spec_shapes(description.shapes@),
                    description.canvas.origin,
                    description.canvas.size,
                    first,
                )
                &&& picture_of(
                    moved_forward(spec_shapes(description.shapes@), 0),
                    description.canvas.origin,
                    description.canvas.size,
                    second,
                )
                &&& r@ == "As written:\n"@ + first
                    + "\nWith the back-most shape moved one place forward:\n"@ + second
            },
{
    let (origin, size) = description.window();
    let mut diagram = description.into_diagram();
    let catalog = glyph_catalog();
    let mut out = String::new();
    push_chars(&mut out, "As written:\n");
    let first = picture(&diagram, &catalog, origin, size);
    push_chars(&mut out, first.as_str());
    diagram.forward(0);
    push_chars(&mut out, "\nWith the back-most shape moved one place forward:\n");
    let second = picture(&diagram, &catalog, origin, size);
    push_chars(&mut out, second.as_str());
    proof {
        assert(out@ =~= "As written:\n"@ + first@
            + "\nWith the back-most shape moved one place forward:\n"@ + second@);
    }
    out
}

} // verus!
