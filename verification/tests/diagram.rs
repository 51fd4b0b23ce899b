use monospace::cli::{demonstrate, glyph_catalog, render_once};
use monospace::description::{Canvas, Description, ShapeDescription};
use monospace::diagram::{Endpoint, Shape};
use monospace::{
    render, Arrow, BoxShape, Buffer, Cell, Direction, Diagram, Glyph, GlyphCatalog, Layer, Line,
    Orientation, Pos, Shape as CoreShape, Size, StampMode, Stroke,
};

fn light() -> Stroke {
    Stroke::from("light")
}

/// Collects every cell of `buffer` over the window `origin`/`size`.
fn cells(buffer: &Buffer, origin: Pos, size: Size) -> Vec<Option<Cell>> {
    (0..size.height)
        .flat_map(|dy| (0..size.width).map(move |dx| (dx, dy)))
        .map(|(dx, dy)| {
            let at = Pos {
                x: origin.x + i32::try_from(dx).expect("width fits i32"),
                y: origin.y + i32::try_from(dy).expect("height fits i32"),
            };
            buffer.cell(at).cloned()
        })
        .collect()
}

#[test]
fn drawing_the_same_diagram_twice_produces_equal_buffers() {
    let origin = Pos { x: 0, y: 0 };
    let size = Size { width: 10, height: 5 };
    let mut diagram = Diagram::new();
    diagram.add(Shape::Box { at: Pos { x: 0, y: 0 }, size: Size { width: 4, height: 3 }, stroke: light(), fill: None });
    diagram.add(Shape::Line { at: Pos { x: 0, y: 4 }, len: 5, orientation: Orientation::Horizontal, stroke: light() });

    let mut first = Buffer::new(origin, size);
    diagram.draw(&mut first);
    let mut second = Buffer::new(origin, size);
    diagram.draw(&mut second);

    assert_eq!(cells(&first, origin, size), cells(&second, origin, size));
}

#[test]
fn an_empty_diagram_leaves_its_buffer_untouched() {
    let origin = Pos { x: 0, y: 0 };
    let size = Size { width: 3, height: 3 };
    let mut buffer = Buffer::new(origin, size);
    Diagram::new().draw(&mut buffer);

    assert_eq!(cells(&buffer, origin, size), vec![None; (size.width * size.height) as usize]);
}

#[test]
fn a_box_partly_outside_the_window_draws_only_what_falls_inside() {
    let origin = Pos { x: 0, y: 0 };
    let size = Size { width: 3, height: 3 };
    let mut diagram = Diagram::new();
    diagram.add(Shape::Box { at: Pos { x: 1, y: 1 }, size: Size { width: 4, height: 4 }, stroke: light(), fill: None });

    let mut buffer = Buffer::new(origin, size);
    diagram.draw(&mut buffer);

    assert!(buffer.cell(Pos { x: 1, y: 1 }).is_some());
    assert!(buffer.cell(Pos { x: 4, y: 4 }).is_none());
}

#[test]
fn a_box_shape_matches_the_core_box_drawn_directly() {
    let origin = Pos { x: 0, y: 0 };
    let size = Size { width: 6, height: 3 };
    let mut diagram = Diagram::new();
    diagram.add(Shape::Box { at: origin, size, stroke: light(), fill: Some(Glyph::new("░").expect("\"░\" is one glyph")) });
    let mut actual = Buffer::new(origin, size);
    diagram.draw(&mut actual);

    let mut expected = Buffer::new(origin, size);
    BoxShape { at: origin, size, stroke: light(), fill: Some(Glyph::new("░").expect("\"░\" is one glyph")) }
        .draw(&mut Layer::new(&mut expected, StampMode::Above));

    assert_eq!(
        render(&actual, &GlyphCatalog::light(), origin, size),
        render(&expected, &GlyphCatalog::light(), origin, size)
    );
}

#[test]
fn a_line_shape_matches_the_core_line_drawn_directly() {
    let origin = Pos { x: 0, y: 0 };
    let size = Size { width: 5, height: 1 };
    let mut diagram = Diagram::new();
    diagram.add(Shape::Line { at: origin, len: 5, orientation: Orientation::Horizontal, stroke: light() });
    let mut actual = Buffer::new(origin, size);
    diagram.draw(&mut actual);

    let mut expected = Buffer::new(origin, size);
    Line { at: origin, len: 5, orientation: Orientation::Horizontal, stroke: light() }
        .draw(&mut Layer::new(&mut expected, StampMode::Above));

    assert_eq!(
        render(&actual, &GlyphCatalog::light(), origin, size),
        render(&expected, &GlyphCatalog::light(), origin, size)
    );
}

#[test]
fn an_arrow_shape_matches_the_core_arrow_drawn_directly() {
    let origin = Pos { x: 0, y: 0 };
    let size = Size { width: 5, height: 4 };
    let from = || Endpoint { at: Pos { x: 0, y: 0 }, leaving: Direction::Down, head: Glyph::new("▼").expect("one glyph") };
    let to = || Endpoint { at: Pos { x: 4, y: 3 }, leaving: Direction::Left, head: Glyph::new("►").expect("one glyph") };

    let mut diagram = Diagram::new();
    diagram.add(Shape::Arrow { from: from(), to: to(), stroke: light() });
    let mut actual = Buffer::new(origin, size);
    diagram.draw(&mut actual);

    let mut expected = Buffer::new(origin, size);
    Arrow { from: from().into_core(), to: to().into_core(), stroke: light() }
        .draw(&mut Layer::new(&mut expected, StampMode::Above));

    assert_eq!(
        render(&actual, &GlyphCatalog::light(), origin, size),
        render(&expected, &GlyphCatalog::light(), origin, size)
    );
}

/// Two overlapping opaque boxes: the front one, added last, decides the shared cells, and moving
/// the back one forward swaps which one does.
#[test]
fn the_front_shape_decides_and_moving_one_forward_swaps_the_order() {
    let origin = Pos { x: 0, y: 0 };
    let size = Size { width: 6, height: 4 };
    let a = || Shape::Box { at: Pos { x: 0, y: 0 }, size: Size { width: 4, height: 3 }, stroke: light(), fill: Some(Glyph::new("░").expect("one glyph")) };
    let b = || Shape::Box { at: Pos { x: 2, y: 1 }, size: Size { width: 4, height: 3 }, stroke: light(), fill: Some(Glyph::new("▓").expect("one glyph")) };
    let mut diagram = Diagram::new();
    diagram.add(a());
    diagram.add(b());
    let mut buffer = Buffer::new(origin, size);
    diagram.draw(&mut buffer);
    assert_eq!(render(&buffer, &GlyphCatalog::light(), origin, size), "┌──┐  \n│░┌┴─┐\n└─┤▓▓│\n  └──┘\n");

    diagram.forward(0);
    let mut buffer = Buffer::new(origin, size);
    diagram.draw(&mut buffer);
    assert_eq!(render(&buffer, &GlyphCatalog::light(), origin, size), "┌──┐  \n│░░├─┐\n└─┬┘▓│\n  └──┘\n");

    // The front-most shape has no place to move to.
    diagram.forward(1);
    let mut again = Buffer::new(origin, size);
    diagram.draw(&mut again);
    assert_eq!(cells(&buffer, origin, size), cells(&again, origin, size));
}

fn one_box_description() -> Description {
    Description {
        canvas: Canvas { origin: Pos { x: 0, y: 0 }, size: Size { width: 4, height: 3 } },
        shapes: vec![ShapeDescription::Box {
            at: Pos { x: 0, y: 0 },
            size: Size { width: 4, height: 3 },
            stroke: "light".to_string(),
            fill: Some(Glyph::new("░").expect("one glyph")),
        }],
    }
}

/// A one-box description renders the same text as the box drawn directly.
#[test]
fn a_one_box_description_renders_its_box() {
    assert_eq!(render_once(one_box_description()), "┌──┐\n│░░│\n└──┘\n");
}

/// The demonstration is two captioned pictures, identical where there is one shape.
#[test]
fn the_demonstration_is_two_captioned_pictures() {
    let shown = demonstrate(one_box_description());
    assert_eq!(
        shown,
        "As written:\n┌──┐\n│░░│\n└──┘\n\nWith the back-most shape moved one place forward:\n┌──┐\n│░░│\n└──┘\n"
    );
}

/// The description's window and buffer are its canvas, and its shapes become the diagram's.
#[test]
fn a_description_gives_its_window_buffer_and_diagram() {
    let description = one_box_description();
    assert_eq!(description.window(), (Pos { x: 0, y: 0 }, Size { width: 4, height: 3 }));
    let buffer = description.buffer();
    assert_eq!(buffer.origin(), Pos { x: 0, y: 0 });
    assert!(buffer.cell(Pos { x: 0, y: 0 }).is_none());
    let diagram = description.into_diagram();
    let mut drawn = Buffer::new(Pos { x: 0, y: 0 }, Size { width: 4, height: 3 });
    diagram.draw(&mut drawn);
    assert_eq!(render(&drawn, &glyph_catalog(), Pos { x: 0, y: 0 }, Size { width: 4, height: 3 }), "┌──┐\n│░░│\n└──┘\n");
}

/// The front end's catalog answers every table: an ASCII box renders in ASCII.
#[test]
fn the_front_end_catalog_holds_every_table() {
    let description = Description {
        canvas: Canvas { origin: Pos { x: 0, y: 0 }, size: Size { width: 3, height: 2 } },
        shapes: vec![ShapeDescription::Box { at: Pos { x: 0, y: 0 }, size: Size { width: 3, height: 2 }, stroke: "ascii".to_string(), fill: None }],
    };
    assert_eq!(render_once(description), "+-+\n+-+\n");
}

/// A shape's core drawing and the diagram's agree for each kind, read through the trait.
#[test]
fn a_diagram_shape_writes_what_its_core_shape_writes() {
    let shape = Shape::Line { at: Pos { x: 1, y: 1 }, len: 3, orientation: Orientation::Vertical, stroke: light() };
    let core = Line { at: Pos { x: 1, y: 1 }, len: 3, orientation: Orientation::Vertical, stroke: light() };
    assert_eq!(CoreShape::stamps(&shape), CoreShape::stamps(&core));
}

/// The demonstration's two pictures, found by the blank line between them and returned without
/// their captions.
fn demonstrated_pictures(description: Description) -> (String, String) {
    let output = demonstrate(description);
    let (first_block, rest) = output
        .split_once("\n\n")
        .expect("two captioned pictures separated by a blank line");
    let (_first_caption, first) = first_block
        .split_once('\n')
        .expect("a caption line precedes the first picture");
    let (_second_caption, second) = rest
        .split_once('\n')
        .expect("a caption line precedes the second picture");
    (format!("{first}\n"), second.to_owned())
}

#[test]
fn a_one_box_description_renders_the_same_as_a_box_shape_drawn_directly() {
    let origin = Pos { x: 0, y: 0 };
    let size = Size { width: 4, height: 3 };
    let mut buffer = Buffer::new(origin, size);
    BoxShape {
        at: origin,
        size,
        stroke: Stroke::from("light"),
        fill: Some(Glyph::new("░").expect("\"░\" is one glyph")),
    }
    .draw(&mut Layer::new(&mut buffer, StampMode::Above));
    let expected = render(&buffer, &GlyphCatalog::light(), origin, size);

    assert_eq!(render_once(one_box_description()), expected);
}

#[test]
fn rendering_once_is_the_demonstrations_first_picture_and_nothing_else() {
    let (first, _second) = demonstrated_pictures(one_box_description());

    assert_eq!(render_once(one_box_description()), first);
}

/// Stamps `back` then `front` with `StampMode::Above` into a six-by-four window.
fn stamped_back_to_front(back: &BoxShape, front: &BoxShape) -> String {
    let origin = Pos { x: 0, y: 0 };
    let size = Size { width: 6, height: 4 };
    let mut buffer = Buffer::new(origin, size);
    back.draw(&mut Layer::new(&mut buffer, StampMode::Above));
    front.draw(&mut Layer::new(&mut buffer, StampMode::Above));
    render(&buffer, &GlyphCatalog::light(), origin, size)
}

#[test]
fn two_overlapping_boxes_demonstrate_in_opposite_orders() {
    let (first, second) = demonstrated_pictures(Description {
        canvas: Canvas { origin: Pos { x: 0, y: 0 }, size: Size { width: 6, height: 4 } },
        shapes: vec![
            ShapeDescription::Box {
                at: Pos { x: 0, y: 0 },
                size: Size { width: 4, height: 3 },
                stroke: "light".to_string(),
                fill: Some(Glyph::new("░").expect("\"░\" is one glyph")),
            },
            ShapeDescription::Box {
                at: Pos { x: 2, y: 1 },
                size: Size { width: 4, height: 3 },
                stroke: "light".to_string(),
                fill: Some(Glyph::new("▓").expect("\"▓\" is one glyph")),
            },
        ],
    });

    let size = Size { width: 4, height: 3 };
    let a = BoxShape {
        at: Pos { x: 0, y: 0 },
        size,
        stroke: Stroke::from("light"),
        fill: Some(Glyph::new("░").expect("\"░\" is one glyph")),
    };
    let b = BoxShape {
        at: Pos { x: 2, y: 1 },
        size,
        stroke: Stroke::from("light"),
        fill: Some(Glyph::new("▓").expect("\"▓\" is one glyph")),
    };

    assert_eq!(first, stamped_back_to_front(&a, &b));
    assert_eq!(second, stamped_back_to_front(&b, &a));
}

#[test]
fn an_empty_description_demonstrates_as_two_identical_pictures() {
    let (first, second) = demonstrated_pictures(Description {
        canvas: Canvas { origin: Pos { x: 0, y: 0 }, size: Size { width: 4, height: 3 } },
        shapes: vec![],
    });

    assert_eq!(first, second);
}

#[test]
fn one_shape_demonstrates_as_two_identical_pictures() {
    let (first, second) = demonstrated_pictures(one_box_description());

    assert_eq!(first, second);
}

#[test]
fn a_box_a_line_and_an_arrow_render_all_three_composed() {
    let description = Description {
        canvas: Canvas { origin: Pos { x: 0, y: 0 }, size: Size { width: 10, height: 5 } },
        shapes: vec![
            ShapeDescription::Box {
                at: Pos { x: 0, y: 0 },
                size: Size { width: 4, height: 3 },
                stroke: "light".to_string(),
                fill: Some(Glyph::new("░").expect("one glyph")),
            },
            ShapeDescription::Line {
                at: Pos { x: 0, y: 4 },
                len: 4,
                orientation: Orientation::Horizontal,
                stroke: "light".to_string(),
            },
            ShapeDescription::Arrow {
                from: Endpoint {
                    at: Pos { x: 5, y: 0 },
                    leaving: Direction::Right,
                    head: Glyph::new(">").expect("one glyph"),
                },
                to: Endpoint {
                    at: Pos { x: 9, y: 2 },
                    leaving: Direction::Down,
                    head: Glyph::new("v").expect("one glyph"),
                },
                stroke: "light".to_string(),
            },
        ],
    };

    assert_eq!(
        render_once(description),
        "┌──┐ >─┐  \n│░░│   │  \n└──┘   │ v\n       └─┘\n────      \n"
    );
}

fn overlapping(first_at_origin: bool) -> Description {
    let a = ShapeDescription::Box {
        at: Pos { x: 0, y: 0 },
        size: Size { width: 4, height: 3 },
        stroke: "light".to_string(),
        fill: Some(Glyph::new("░").expect("one glyph")),
    };
    let b = ShapeDescription::Box {
        at: Pos { x: 2, y: 1 },
        size: Size { width: 4, height: 3 },
        stroke: "light".to_string(),
        fill: Some(Glyph::new("▓").expect("one glyph")),
    };
    Description {
        canvas: Canvas { origin: Pos { x: 0, y: 0 }, size: Size { width: 6, height: 4 } },
        shapes: if first_at_origin { vec![a, b] } else { vec![b, a] },
    }
}

#[test]
fn reordering_shapes_changes_which_one_is_rendered_on_top() {
    let a = BoxShape {
        at: Pos { x: 0, y: 0 },
        size: Size { width: 4, height: 3 },
        stroke: Stroke::from("light"),
        fill: Some(Glyph::new("░").expect("one glyph")),
    };
    let b = BoxShape {
        at: Pos { x: 2, y: 1 },
        size: Size { width: 4, height: 3 },
        stroke: Stroke::from("light"),
        fill: Some(Glyph::new("▓").expect("one glyph")),
    };
    let first = render_once(overlapping(true));
    let second = render_once(overlapping(false));

    assert_eq!(first, stamped_back_to_front(&a, &b));
    assert_eq!(second, stamped_back_to_front(&b, &a));
    assert_ne!(first, second);
}

#[test]
fn rendering_the_same_description_twice_gives_the_same_text() {
    assert_eq!(render_once(overlapping(true)), render_once(overlapping(true)));
}
