//! Turning a buffer into text.
use vstd::prelude::*;

use crate::buffer::Buffer;
use crate::cell::{spec_cell_char, Cell};
use crate::geometry::{Pos, Size};
use crate::glyph::{GlyphCatalog, KeyView};
use crate::text::push_char;

verus! {

/// The character the position `p` renders as: the character its cell resolves to, or a space
/// where there is no cell or the cell resolves to nothing.
pub open spec fn spec_render_char(cells: Map<Pos, Cell>, glyphs: Map<KeyView, char>, p: Pos) -> char {
    if cells.contains_key(p) {
        match spec_cell_char(cells[p], glyphs) {
            Some(c) => c,
            None => ' ',
        }
    } else {
        ' '
    }
}

/// Row `dy` of the rectangle `origin`/`size`: its `size.width` characters, then a newline.
pub open spec fn spec_render_row(
    cells: Map<Pos, Cell>,
    glyphs: Map<KeyView, char>,
    origin: Pos,
    size: Size,
    dy: int,
) -> Seq<char> {
    Seq::new(
        size.width as nat,
        |dx: int|
            spec_render_char(
                cells,
                glyphs,
                Pos { x: (origin.x + dx) as i32, y: (origin.y + dy) as i32 },
            ),
    ).push('\n')
}

/// The first `rows` rows of the rectangle `origin`/`size`, one after another.
pub open spec fn spec_render_rows(
    cells: Map<Pos, Cell>,
    glyphs: Map<KeyView, char>,
    origin: Pos,
    size: Size,
    rows: nat,
) -> Seq<char>
    decreases rows,
{
    if rows == 0 {
        Seq::empty()
    } else {
        spec_render_rows(cells, glyphs, origin, size, (rows - 1) as nat) + spec_render_row(
            cells,
            glyphs,
            origin,
            size,
            rows - 1,
        )
    }
}

/// The text the rectangle `origin`/`size` of `cells` renders to: every row in turn.
pub open spec fn spec_render(
    cells: Map<Pos, Cell>,
    glyphs: Map<KeyView, char>,
    origin: Pos,
    size: Size,
) -> Seq<char> {
    spec_render_rows(cells, glyphs, origin, size, size.height as nat)
}

/// Whether every position of the rectangle `origin`/`size` can be written in `i32`, as
/// rendering it requires.
pub open spec fn renderable(origin: Pos, size: Size) -> bool {
    &&& size.width <= i32::MAX
    &&& size.height <= i32::MAX
    &&& (size.width > 0 && size.height > 0) ==> origin.x + size.width - 1 <= i32::MAX
        && origin.y + size.height - 1 <= i32::MAX
}

/// Whether every position of the rectangle `origin`/`size` can be written in `i32`.
pub fn window_renderable(origin: Pos, size: Size) -> (r: bool)
    ensures
        r == renderable(origin, size),
{
    size.width <= i32::MAX as u32 && size.height <= i32::MAX as u32 && (!(size.width > 0
        && size.height > 0) || (origin.x as i64 + size.width as i64 - 1 <= i32::MAX as i64
        && origin.y as i64 + size.height as i64 - 1 <= i32::MAX as i64))
}

/// Renders a rectangle of `buffer` to a string of exactly `size.height` lines, each exactly
/// `size.width` characters wide and ending in `\n`, the last line included.
///
/// A position with no cell, or whose cell resolves to nothing in `glyphs`, renders as a space.
/// A position inside the rectangle but outside the buffer's window renders as a space too.
pub fn render(buffer: &Buffer, glyphs: &GlyphCatalog, origin: Pos, size: Size) -> (out: String)
    requires
        renderable(origin, size),
    ensures
        out@ == spec_render(buffer@, glyphs@, origin, size),
{
    let width = size.width as i32;
    let height = size.height as i32;
    let mut out = String::new();
    let mut dy: i32 = 0;
    while dy < height
        invariant
            0 <= dy <= height,
            width == size.width,
            height == size.height,
            renderable(origin, size),
            out@ == spec_render_rows(buffer@, glyphs@, origin, size, dy as nat),
        decreases height - dy,
    {
        let ghost before = out@;
        let mut dx: i32 = 0;
        while dx < width
            invariant
                0 <= dx <= width,
                0 <= dy < height,
                width == size.width,
                height == size.height,
                renderable(origin, size),
                out@ == before + spec_render_row(buffer@, glyphs@, origin, size, dy as int).take(
                    dx as int,
                ),
            decreases width - dx,
        {
            let pos = Pos { x: origin.x + dx, y: origin.y + dy };
            let glyph = match buffer.cell(pos) {
                Some(cell) => match cell.glyph_char(glyphs) {
                    Some(c) => c,
                    None => ' ',
                },
                None => ' ',
            };
            push_char(&mut out, glyph);
            proof {
                let row = spec_render_row(buffer@, glyphs@, origin, size, dy as int);
                assert(row[dx as int] == glyph);
                assert(row.take(dx + 1) =~= row.take(dx as int).push(glyph));
            }
            dx += 1;
        }
        push_char(&mut out, '\n');
        proof {
            let row = spec_render_row(buffer@, glyphs@, origin, size, dy as int);
            assert(row.take(dx as int).push('\n') =~= row);
        }
        dy += 1;
    }
    out
}


} // verus!
