use std::collections::HashMap;

use monospace::cell::Side;
use monospace::fragment::border::Border;
use monospace::fragment::corner::Corner;
use monospace::fragment::end::End;
use monospace::fragment::fill::Fill;
use monospace::fragment::head::Head;
use monospace::fragment::segment::Segment;
use monospace::{
    render, Arm, BoxShape, Buffer, Cell, Glyph, GlyphCatalog, Layer, Line, Orientation, Pos, Shape,
    Size, StampMode, Stroke, StrokeCell, Surface,
};

/// A surface that counts how many times each position is written.
#[derive(Default)]
struct CountingSurface {
    writes: HashMap<(i32, i32), usize>,
}

impl CountingSurface {
    fn max_writes(&self) -> usize {
        self.writes.values().copied().max().unwrap_or(0)
    }
}

impl Surface for CountingSurface {
    fn stamp(&mut self, at: Pos, _cell: Cell) {
        *self.writes.entry((at.x, at.y)).or_insert(0) += 1;
    }
}

fn light() -> Stroke {
    Stroke::from("light")
}

fn boxed(buffer: &mut Buffer, at: Pos, size: Size, fill: Option<Glyph>) {
    BoxShape { at, size, stroke: light(), fill }.draw(&mut Layer::new(buffer, StampMode::Above));
}

#[test]
fn a_6x3_box_renders_its_border() {
    let origin = Pos { x: 0, y: 0 };
    let size = Size { width: 6, height: 3 };
    let mut buffer = Buffer::new(origin, size);
    boxed(&mut buffer, origin, size, None);

    let text = render(&buffer, &GlyphCatalog::light(), origin, size);

    assert_eq!(text, "┌────┐\n│    │\n└────┘\n");
}

#[test]
fn a_6x3_box_filled_keeps_its_border_and_fills_only_its_interior() {
    let origin = Pos { x: 0, y: 0 };
    let size = Size { width: 6, height: 3 };
    let mut buffer = Buffer::new(origin, size);
    boxed(&mut buffer, origin, size, Some(Glyph::new("░").expect("\"░\" is one glyph")));

    let text = render(&buffer, &GlyphCatalog::light(), origin, size);

    assert_eq!(text, "┌────┐\n│░░░░│\n└────┘\n");
}

#[test]
fn a_2x2_box_is_four_corners_and_nothing_else() {
    let origin = Pos { x: 0, y: 0 };
    let size = Size { width: 2, height: 2 };
    let mut buffer = Buffer::new(origin, size);
    boxed(&mut buffer, origin, size, None);

    let text = render(&buffer, &GlyphCatalog::light(), origin, size);

    assert_eq!(text, "┌┐\n└┘\n");
}

#[test]
fn a_box_below_2_in_either_dimension_draws_nothing() {
    let origin = Pos { x: 0, y: 0 };
    let size = Size { width: 2, height: 2 };

    for degenerate in [
        Size { width: 1, height: 2 },
        Size { width: 2, height: 1 },
        Size { width: 0, height: 2 },
    ] {
        let mut buffer = Buffer::new(origin, size);
        boxed(&mut buffer, origin, degenerate, None);

        let text = render(&buffer, &GlyphCatalog::light(), origin, size);

        assert_eq!(text, "  \n  \n", "size {degenerate:?}");
    }
}

#[test]
fn no_box_above_writes_any_position_more_than_once() {
    for (size, fill) in [
        (Size { width: 6, height: 3 }, None),
        (Size { width: 6, height: 3 }, Some(Glyph::new("░").expect("\"░\" is one glyph"))),
        (Size { width: 2, height: 2 }, None),
    ] {
        let mut surface = CountingSurface::default();
        BoxShape { at: Pos { x: 0, y: 0 }, size, stroke: light(), fill }.draw(&mut surface);

        assert!(surface.max_writes() <= 1, "size {size:?} wrote a position more than once");
    }
}

#[test]
fn two_unfilled_boxes_render_a_crossing_at_every_cell_their_borders_overlap() {
    let origin = Pos { x: 0, y: 0 };
    let size = Size { width: 9, height: 5 };
    let mut buffer = Buffer::new(origin, size);

    boxed(&mut buffer, Pos { x: 0, y: 0 }, Size { width: 6, height: 4 }, None);
    boxed(&mut buffer, Pos { x: 4, y: 2 }, Size { width: 6, height: 4 }, None);

    let text = render(&buffer, &GlyphCatalog::light(), origin, size);

    assert_eq!(text, "┌────┐   \n│    │   \n│   ┌┼───\n└───┼┘   \n    │    \n");
}

#[test]
fn a_filled_box_among_unfilled_ones_still_closes_its_interior() {
    let origin = Pos { x: 0, y: 0 };
    let size = Size { width: 9, height: 5 };
    let mut buffer = Buffer::new(origin, size);

    boxed(&mut buffer, Pos { x: 0, y: 0 }, Size { width: 6, height: 4 }, None);
    boxed(
        &mut buffer,
        Pos { x: 4, y: 2 },
        Size { width: 6, height: 4 },
        Some(Glyph::new("░").expect("\"░\" is one glyph")),
    );

    let text = render(&buffer, &GlyphCatalog::light(), origin, size);

    assert_eq!(text, "┌────┐   \n│    │   \n│   ┌┴───\n└───┤░░░░\n    │░░░░\n");
}

#[test]
fn two_unfilled_boxes_overlapping_horizontally_merge_into_t_junctions() {
    let origin = Pos { x: 0, y: 0 };
    let size = Size { width: 6, height: 3 };
    let mut buffer = Buffer::new(origin, size);

    boxed(&mut buffer, Pos { x: 0, y: 0 }, Size { width: 4, height: 3 }, None);
    boxed(&mut buffer, Pos { x: 2, y: 0 }, Size { width: 4, height: 3 }, None);

    let text = render(&buffer, &GlyphCatalog::light(), origin, size);

    assert_eq!(text, "┌─┬┬─┐\n│ ││ │\n└─┴┴─┘\n");
}

/// A box whose far corner would pass `i32::MAX` draws nothing and returns normally; one whose
/// far corner is exactly `i32::MAX` is drawn whole.
#[test]
fn a_box_at_the_edge_of_the_plane_returns_normally() {
    let at = Pos { x: i32::MAX - 1, y: i32::MAX - 1 };
    let mut buffer = Buffer::new(at, Size { width: 2, height: 2 });
    boxed(&mut buffer, at, Size { width: 5, height: 5 }, None);
    assert!(buffer.cell(at).is_none());
    boxed(&mut buffer, at, Size { width: 2, height: 2 }, None);
    assert_eq!(render(&buffer, &GlyphCatalog::light(), at, Size { width: 2, height: 2 }), "┌┐\n└┘\n");
}

fn line(len: u32, orientation: Orientation) -> Line {
    Line { at: Pos { x: 0, y: 0 }, len, orientation, stroke: light() }
}

#[test]
fn a_horizontal_line_of_length_5_renders_and_stops_cleanly() {
    let origin = Pos { x: 0, y: 0 };
    let size = Size { width: 6, height: 1 };
    let mut buffer = Buffer::new(origin, size);
    line(5, Orientation::Horizontal).draw(&mut Layer::new(&mut buffer, StampMode::Above));

    assert_eq!(render(&buffer, &GlyphCatalog::light(), origin, size), "───── \n");
    assert!(buffer.cell(Pos { x: 5, y: 0 }).is_none());
}

#[test]
fn a_vertical_line_of_length_4_renders_and_stops_cleanly() {
    let origin = Pos { x: 0, y: 0 };
    let size = Size { width: 1, height: 5 };
    let mut buffer = Buffer::new(origin, size);
    line(4, Orientation::Vertical).draw(&mut Layer::new(&mut buffer, StampMode::Above));

    assert_eq!(render(&buffer, &GlyphCatalog::light(), origin, size), "│\n│\n│\n│\n \n");
    assert!(buffer.cell(Pos { x: 0, y: 4 }).is_none());
}

#[test]
fn a_horizontal_lines_first_cell_carries_only_its_forward_arm() {
    let origin = Pos { x: 0, y: 0 };
    let mut buffer = Buffer::new(origin, Size { width: 5, height: 1 });
    line(5, Orientation::Horizontal).draw(&mut Layer::new(&mut buffer, StampMode::Above));

    let Some(Cell::Strokes(cell)) = buffer.cell(origin) else {
        panic!("expected a stroke cell at the line's first position");
    };
    assert_eq!(cell.right, Arm::Run(light()));
    assert_eq!(cell.top, Arm::Unset);
    assert_eq!(cell.bottom, Arm::Unset);
    assert_eq!(cell.left, Arm::Unset);
}

#[test]
fn a_line_of_length_2_is_two_ends_with_no_run_between_them() {
    let origin = Pos { x: 0, y: 0 };
    let size = Size { width: 2, height: 1 };
    let mut buffer = Buffer::new(origin, size);
    line(2, Orientation::Horizontal).draw(&mut Layer::new(&mut buffer, StampMode::Above));

    assert_eq!(render(&buffer, &GlyphCatalog::light(), origin, size), "──\n");
}

#[test]
fn a_line_of_length_1_writes_exactly_one_position() {
    let origin = Pos { x: 0, y: 0 };
    let mut buffer = Buffer::new(origin, Size { width: 1, height: 1 });
    line(1, Orientation::Horizontal).draw(&mut Layer::new(&mut buffer, StampMode::Above));

    assert!(buffer.cell(origin).is_some());
}

#[test]
fn a_line_of_length_0_draws_nothing() {
    let origin = Pos { x: 0, y: 0 };
    let mut buffer = Buffer::new(origin, Size { width: 1, height: 1 });
    line(0, Orientation::Horizontal).draw(&mut Layer::new(&mut buffer, StampMode::Above));

    assert!(buffer.cell(origin).is_none());
}

#[test]
fn no_line_above_writes_any_position_more_than_once() {
    for len in [0, 1, 2, 3, 5] {
        let mut surface = CountingSurface::default();
        line(len, Orientation::Horizontal).draw(&mut surface);

        assert!(surface.max_writes() <= 1, "length {len} wrote a position more than once");
    }
}

/// A line's positions come from its start along its orientation, and stop at the edge of `i32`.
#[test]
fn a_lines_positions_run_along_its_orientation() {
    let l = Line { at: Pos { x: 2, y: 3 }, len: 4, orientation: Orientation::Vertical, stroke: light() };
    assert_eq!(l.pos_at(2), Some(Pos { x: 2, y: 5 }));
    let edge = Line { at: Pos { x: i32::MAX, y: 0 }, len: 4, orientation: Orientation::Horizontal, stroke: light() };
    assert_eq!(edge.pos_at(1), None);
}

fn one_by_one() -> Buffer {
    Buffer::new(Pos { x: 0, y: 0 }, Size { width: 1, height: 1 })
}

fn light_stroke_cell(top: Arm, right: Arm, bottom: Arm, left: Arm) -> Cell {
    Cell::from(StrokeCell { base: Stroke::from("light"), top, right, bottom, left })
}

#[test]
fn a_top_border_closes_toward_the_interior_and_leaves_its_own_side_unset() {
    let mut buffer = one_by_one();
    let mut layer = Layer::new(&mut buffer, StampMode::Above);

    Border { from: Pos { x: 0, y: 0 }, len: 1, side: Side::Top, stroke: Stroke::from("light"), closes_interior: true }
        .draw(&mut layer);

    assert_eq!(
        buffer.cell(Pos { x: 0, y: 0 }),
        Some(&light_stroke_cell(Arm::Unset, Arm::Run(Stroke::from("light")), Arm::Closed, Arm::Run(Stroke::from("light"))))
    );
}

#[test]
fn a_left_border_closes_toward_the_interior_and_leaves_its_own_side_unset() {
    let mut buffer = one_by_one();
    let mut layer = Layer::new(&mut buffer, StampMode::Above);

    Border { from: Pos { x: 0, y: 0 }, len: 1, side: Side::Left, stroke: Stroke::from("light"), closes_interior: true }
        .draw(&mut layer);

    assert_eq!(
        buffer.cell(Pos { x: 0, y: 0 }),
        Some(&light_stroke_cell(Arm::Run(Stroke::from("light")), Arm::Closed, Arm::Run(Stroke::from("light")), Arm::Unset))
    );
}

#[test]
fn a_border_writes_every_position_of_its_run() {
    let mut buffer = Buffer::new(Pos { x: 0, y: 0 }, Size { width: 3, height: 1 });
    let mut layer = Layer::new(&mut buffer, StampMode::Above);

    Border { from: Pos { x: 0, y: 0 }, len: 3, side: Side::Top, stroke: Stroke::from("light"), closes_interior: true }
        .draw(&mut layer);

    for x in 0..3 {
        assert_eq!(
            buffer.cell(Pos { x, y: 0 }),
            Some(&light_stroke_cell(Arm::Unset, Arm::Run(Stroke::from("light")), Arm::Closed, Arm::Run(Stroke::from("light")))),
            "position ({x}, 0)"
        );
    }
}

#[test]
fn a_border_with_no_interior_to_close_leaves_that_side_unset() {
    let mut buffer = one_by_one();
    let mut layer = Layer::new(&mut buffer, StampMode::Above);

    Border { from: Pos { x: 0, y: 0 }, len: 1, side: Side::Top, stroke: Stroke::from("light"), closes_interior: false }
        .draw(&mut layer);

    assert_eq!(
        buffer.cell(Pos { x: 0, y: 0 }),
        Some(&light_stroke_cell(Arm::Unset, Arm::Run(Stroke::from("light")), Arm::Unset, Arm::Run(Stroke::from("light"))))
    );
}

#[test]
fn a_corner_sets_its_two_sides_and_leaves_the_other_two_unset() {
    let mut buffer = one_by_one();
    let mut layer = Layer::new(&mut buffer, StampMode::Above);

    Corner { at: Pos { x: 0, y: 0 }, opens: (Side::Right, Side::Bottom), stroke: Stroke::from("light") }.draw(&mut layer);

    assert_eq!(
        buffer.cell(Pos { x: 0, y: 0 }),
        Some(&light_stroke_cell(Arm::Unset, Arm::Run(Stroke::from("light")), Arm::Run(Stroke::from("light")), Arm::Unset))
    );
}

#[test]
fn a_corner_opening_opposite_sides_is_a_straight_run() {
    let mut buffer = one_by_one();
    let mut layer = Layer::new(&mut buffer, StampMode::Above);

    Corner { at: Pos { x: 0, y: 0 }, opens: (Side::Top, Side::Bottom), stroke: Stroke::from("light") }.draw(&mut layer);

    assert_eq!(
        buffer.cell(Pos { x: 0, y: 0 }),
        Some(&light_stroke_cell(Arm::Run(Stroke::from("light")), Arm::Unset, Arm::Run(Stroke::from("light")), Arm::Unset))
    );
}

#[test]
fn an_end_carries_one_arm_and_leaves_the_other_three_unset() {
    let mut buffer = one_by_one();
    let mut layer = Layer::new(&mut buffer, StampMode::Above);

    End { at: Pos { x: 0, y: 0 }, side: Side::Right, stroke: Stroke::from("light") }.draw(&mut layer);

    assert_eq!(
        buffer.cell(Pos { x: 0, y: 0 }),
        Some(&light_stroke_cell(Arm::Unset, Arm::Run(Stroke::from("light")), Arm::Unset, Arm::Unset))
    );
}

#[test]
fn a_fill_writes_the_glyph_at_every_position_of_its_rectangle() {
    let mut buffer = Buffer::new(Pos { x: 0, y: 0 }, Size { width: 2, height: 2 });
    let mut layer = Layer::new(&mut buffer, StampMode::Above);
    let glyph = Glyph::new("░").expect("\"░\" is one glyph");

    Fill { at: Pos { x: 0, y: 0 }, size: Size { width: 2, height: 2 }, glyph: glyph.clone() }.draw(&mut layer);

    for x in 0..2 {
        for y in 0..2 {
            assert_eq!(buffer.cell(Pos { x, y }), Some(&Cell::Literal(glyph.clone())), "position ({x}, {y})");
        }
    }
}

#[test]
fn a_head_writes_its_glyph_as_a_literal() {
    let mut buffer = one_by_one();
    let mut layer = Layer::new(&mut buffer, StampMode::Above);
    let glyph = Glyph::new("►").expect("\"►\" is one glyph");

    Head { at: Pos { x: 0, y: 0 }, glyph: glyph.clone() }.draw(&mut layer);

    assert_eq!(buffer.cell(Pos { x: 0, y: 0 }), Some(&Cell::Literal(glyph)));
}

#[test]
fn a_horizontal_segment_sets_left_and_right() {
    let mut buffer = Buffer::new(Pos { x: 0, y: 0 }, Size { width: 3, height: 1 });
    let mut layer = Layer::new(&mut buffer, StampMode::Above);

    Segment { from: Pos { x: 0, y: 0 }, len: 3, orientation: Orientation::Horizontal, stroke: Stroke::from("light") }
        .draw(&mut layer);

    for x in 0..3 {
        assert_eq!(
            buffer.cell(Pos { x, y: 0 }),
            Some(&light_stroke_cell(Arm::Unset, Arm::Run(Stroke::from("light")), Arm::Unset, Arm::Run(Stroke::from("light")))),
            "position ({x}, 0)"
        );
    }
}

#[test]
fn drawing_straight_into_a_buffer_matches_drawing_through_a_layer() {
    let origin = Pos { x: 0, y: 0 };
    let size = Size { width: 9, height: 5 };
    let mut direct = Buffer::new(origin, size);
    BoxShape { at: Pos { x: 0, y: 0 }, size: Size { width: 6, height: 4 }, stroke: light(), fill: None }
        .draw_into(&mut direct, StampMode::Above);
    BoxShape { at: Pos { x: 4, y: 2 }, size: Size { width: 6, height: 4 }, stroke: light(), fill: None }
        .draw_into(&mut direct, StampMode::Above);

    assert_eq!(
        render(&direct, &GlyphCatalog::light(), origin, size),
        "┌────┐   \n│    │   \n│   ┌┼───\n└───┼┘   \n    │    \n"
    );
}

#[test]
fn a_position_far_from_the_origin_of_a_wide_window_is_inside_it() {
    let origin = Pos { x: i32::MIN, y: 0 };
    let mut buffer = Buffer::new(origin, Size { width: u32::MAX, height: 1 });
    let at = Pos { x: i32::MAX - 1, y: 0 };
    assert!(buffer.contains(at));
    let cell = Cell::Literal(Glyph::new("A").expect("one glyph"));
    buffer.stamp(at, cell.clone(), StampMode::Above);
    assert_eq!(buffer.cell(at), Some(&cell));
    assert!(!buffer.contains(Pos { x: i32::MAX, y: 0 }));
}
