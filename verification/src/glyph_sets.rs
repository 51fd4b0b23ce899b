//! Glyph sets beyond the built-in Light table: ASCII, Double, Heavy and Light Round, each the
//! fifteen rules of one stroke in table order.
use vstd::prelude::*;

use crate::glyph::{rules_map, table_rules, GlyphCatalog};

verus! {

/// The characters of the ASCII table, in table order.
pub open spec fn ascii_glyphs() -> Seq<char> {
    seq!['|', '+', '+', '+', '+', '+', '+', '|', '-', '-', '+', '+', '-', '+', '|']
}

/// The characters of the Double table, in table order.
pub open spec fn double_glyphs() -> Seq<char> {
    seq!['║', '╗', '╦', '╬', '╣', '╔', '╠', '║', '═', '═', '╩', '╝', '═', '╚', '║']
}

/// The characters of the Heavy table, in table order.
pub open spec fn heavy_glyphs() -> Seq<char> {
    seq!['┃', '┓', '┳', '╋', '┫', '┏', '┣', '┃', '━', '━', '┻', '┛', '━', '┗', '┃']
}

/// The characters of the Light Round table, in table order. Its four corners read `╮╭╯╰`,
/// distinct from Light's `┐┌┘└`.
pub open spec fn light_round_glyphs() -> Seq<char> {
    seq!['│', '╮', '┬', '┼', '┤', '╭', '├', '│', '─', '─', '┴', '╯', '─', '╰', '│']
}

/// Builds a catalog from the ASCII table alone.
pub fn ascii() -> (c: GlyphCatalog)
    ensures
        c@ == rules_map(table_rules("ascii"@, ascii_glyphs())),
{
    let glyphs = vec!['|', '+', '+', '+', '+', '+', '+', '|', '-', '-', '+', '+', '-', '+', '|'];
    assert(glyphs@ =~= ascii_glyphs());
    GlyphCatalog::table("ascii", glyphs)
}

/// Builds a catalog from the Double table alone.
pub fn double() -> (c: GlyphCatalog)
    ensures
        c@ == rules_map(table_rules("double"@, double_glyphs())),
{
    let glyphs = vec!['║', '╗', '╦', '╬', '╣', '╔', '╠', '║', '═', '═', '╩', '╝', '═', '╚', '║'];
    assert(glyphs@ =~= double_glyphs());
    GlyphCatalog::table("double", glyphs)
}

/// Builds a catalog from the Heavy table alone.
pub fn heavy() -> (c: GlyphCatalog)
    ensures
        c@ == rules_map(table_rules("heavy"@, heavy_glyphs())),
{
    let glyphs = vec!['┃', '┓', '┳', '╋', '┫', '┏', '┣', '┃', '━', '━', '┻', '┛', '━', '┗', '┃'];
    assert(glyphs@ =~= heavy_glyphs());
    GlyphCatalog::table("heavy", glyphs)
}

/// Builds a catalog from the Light Round table alone.
pub fn light_round() -> (c: GlyphCatalog)
    ensures
        c@ == rules_map(table_rules("light-round"@, light_round_glyphs())),
{
    let glyphs = vec!['│', '╮', '┬', '┼', '┤', '╭', '├', '│', '─', '─', '┴', '╯', '─', '╰', '│'];
    assert(glyphs@ =~= light_round_glyphs());
    GlyphCatalog::table("light-round", glyphs)
}

} // verus!
