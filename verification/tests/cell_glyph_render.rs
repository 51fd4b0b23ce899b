use monospace::{
    render, Arm, Buffer, Cell, Glyph, GlyphCatalog, GlyphKey, Pos, Size, StampMode, Stroke,
    StrokeCell,
};

fn light() -> Stroke {
    Stroke::from("light")
}

fn set() -> Arm {
    Arm::Run(light())
}

fn stroke_cell(top: Arm, right: Arm, bottom: Arm, left: Arm) -> StrokeCell {
    StrokeCell { base: Stroke::from("light"), top, right, bottom, left }
}

fn light_cell(top: Arm, right: Arm, bottom: Arm, left: Arm) -> Cell {
    Cell::Strokes(StrokeCell { base: light(), top, right, bottom, left })
}

#[test]
fn a_stroke_cell_is_decided_only_when_no_arm_is_unset() {
    let light = || Arm::Run(Stroke::from("light"));
    assert!(stroke_cell(light(), Arm::Closed, light(), Arm::Closed).is_decided());
    assert!(!stroke_cell(Arm::Unset, light(), Arm::Closed, light()).is_decided());
    assert!(!stroke_cell(light(), light(), light(), Arm::Unset).is_decided());
}

#[test]
fn a_literal_is_always_decided() {
    let literal = Cell::Literal(Glyph::new("A").expect("\"A\" is one glyph"));

    assert!(literal.is_decided());
}

fn mixed_cell() -> StrokeCell {
    StrokeCell {
        base: Stroke::from("light"),
        top: Arm::Run(Stroke::from("light")),
        right: Arm::Run(Stroke::from("heavy")),
        bottom: Arm::Run(Stroke::from("light")),
        left: Arm::Run(Stroke::from("heavy")),
    }
}

#[test]
fn key_reads_each_arms_own_stroke() {
    let key = mixed_cell().key();

    assert_eq!(key.top, Some(Stroke::from("light")));
    assert_eq!(key.bottom, Some(Stroke::from("light")));
    assert_eq!(key.right, Some(Stroke::from("heavy")));
    assert_eq!(key.left, Some(Stroke::from("heavy")));
}

#[test]
fn degraded_key_collapses_every_set_arm_to_the_base_stroke() {
    let key = mixed_cell().degraded_key();

    assert_eq!(key.top, Some(Stroke::from("light")));
    assert_eq!(key.bottom, Some(Stroke::from("light")));
    assert_eq!(key.right, Some(Stroke::from("light")));
    assert_eq!(key.left, Some(Stroke::from("light")));
}

#[test]
fn glyph_str_tries_the_exact_key_then_the_degraded_key_then_none() {
    let mixed_glyph = Glyph::new("┿").expect("\"┿\" is one glyph");
    let degraded_glyph = Glyph::new("┼").expect("\"┼\" is one glyph");
    let cell: Cell = mixed_cell().into();

    let exact = GlyphCatalog::from_rules(vec![(mixed_cell().key(), mixed_glyph.clone())]);
    assert_eq!(cell.glyph_str(&exact), Some(mixed_glyph.as_str()));

    let degraded_only =
        GlyphCatalog::from_rules(vec![(mixed_cell().degraded_key(), degraded_glyph.clone())]);
    assert_eq!(cell.glyph_str(&degraded_only), Some(degraded_glyph.as_str()));

    let neither = GlyphCatalog::from_rules(vec![]);
    assert_eq!(cell.glyph_str(&neither), None);
}

#[test]
fn a_cell_whose_arms_all_carry_the_base_stroke_resolves_the_same_key_from_both_methods() {
    let uniform = stroke_cell(
        Arm::Run(Stroke::from("light")),
        Arm::Run(Stroke::from("light")),
        Arm::Run(Stroke::from("light")),
        Arm::Run(Stroke::from("light")),
    );

    assert_eq!(uniform.key(), uniform.degraded_key());
}

#[test]
fn a_single_character_is_accepted_and_reads_back_unchanged() {
    assert_eq!(Glyph::new("│").as_ref().map(Glyph::as_str), Some("│"));
}

#[test]
fn empty_text_is_refused() {
    assert_eq!(Glyph::new(""), None);
}

#[test]
fn more_than_one_character_is_refused() {
    assert_eq!(Glyph::new("ab"), None);
}

#[test]
fn a_control_character_is_refused() {
    assert_eq!(Glyph::new("\n"), None);
}

#[test]
fn a_lone_format_character_is_accepted() {
    assert!(Glyph::new("\u{200D}").is_some());
}

/// The edges of the control ranges: U+001F and U+009F are refused, U+0020 and U+00A0 are not.
#[test]
fn the_control_ranges_end_where_unicode_ends_them() {
    assert_eq!(Glyph::new("\u{1F}"), None);
    assert_eq!(Glyph::new("\u{7F}"), None);
    assert_eq!(Glyph::new("\u{9F}"), None);
    assert!(Glyph::new(" ").is_some());
    assert!(Glyph::new("\u{A0}").is_some());
    assert!(Glyph::new("~").is_some());
}

#[test]
fn an_exact_key_answers_the_light_table() {
    let catalog = GlyphCatalog::light();
    let key = GlyphKey {
        top: Some(Stroke::from("light")),
        right: None,
        bottom: Some(Stroke::from("light")),
        left: None,
    };

    assert_eq!(catalog.glyph(&key), Some('│'));
}

#[test]
fn light_answers_every_non_empty_combination_of_its_own_stroke() {
    let catalog = GlyphCatalog::light();

    for mask in 1u8..16 {
        let side = |bit: u8| if mask & bit == 0 { None } else { Some(Stroke::from("light")) };
        let key = GlyphKey {
            top: side(0b0001),
            right: side(0b0010),
            bottom: side(0b0100),
            left: side(0b1000),
        };

        assert!(catalog.glyph(&key).is_some(), "no glyph for {key:?}");
    }
}

#[test]
fn the_empty_key_has_no_answer_in_the_light_table() {
    let catalog = GlyphCatalog::light();
    let key = GlyphKey { top: None, right: None, bottom: None, left: None };

    assert_eq!(catalog.glyph(&key), None);
}

/// Where two rules share a key, the later one answers it; a union keeps the later catalog's rule.
#[test]
fn the_later_rule_for_one_key_is_the_one_kept() {
    let key = GlyphKey { top: Some(light()), right: None, bottom: None, left: None };
    let a = Glyph::new("a").expect("one glyph");
    let b = Glyph::new("b").expect("one glyph");
    let catalog = GlyphCatalog::from_rules(vec![(key.clone(), a.clone()), (key.clone(), b.clone())]);
    assert_eq!(catalog.glyph(&key), Some('b'));

    let first = GlyphCatalog::from_rules(vec![(key.clone(), a)]);
    let second = GlyphCatalog::from_rules(vec![(key.clone(), b)]);
    let united = GlyphCatalog::union(vec![GlyphCatalog::light(), first, second]);
    assert_eq!(united.glyph(&key), Some('b'));
    let cross = GlyphKey { top: Some(light()), right: Some(light()), bottom: Some(light()), left: Some(light()) };
    assert_eq!(united.glyph(&cross), Some('┼'));
}

#[test]
fn a_single_junction_renders_as_a_cross() {
    let mut buffer = Buffer::new(Pos { x: 0, y: 0 }, Size { width: 1, height: 1 });
    buffer.stamp(Pos { x: 0, y: 0 }, light_cell(set(), set(), set(), set()), StampMode::Above);

    let text = render(&buffer, &GlyphCatalog::light(), Pos { x: 0, y: 0 }, Size { width: 1, height: 1 });

    assert_eq!(text, "┼\n");
}

#[test]
fn a_box_renders_from_eight_stamps() {
    let mut buffer = Buffer::new(Pos { x: 0, y: 0 }, Size { width: 4, height: 3 });
    let corner = |top, right, bottom, left| light_cell(top, right, bottom, left);

    buffer.stamp(Pos { x: 0, y: 0 }, corner(Arm::Closed, set(), set(), Arm::Closed), StampMode::Above);
    buffer.stamp(Pos { x: 1, y: 0 }, corner(Arm::Closed, set(), Arm::Closed, set()), StampMode::Above);
    buffer.stamp(Pos { x: 2, y: 0 }, corner(Arm::Closed, set(), Arm::Closed, set()), StampMode::Above);
    buffer.stamp(Pos { x: 3, y: 0 }, corner(Arm::Closed, Arm::Closed, set(), set()), StampMode::Above);
    buffer.stamp(Pos { x: 0, y: 1 }, corner(set(), Arm::Closed, set(), Arm::Closed), StampMode::Above);
    buffer.stamp(Pos { x: 3, y: 1 }, corner(set(), Arm::Closed, set(), Arm::Closed), StampMode::Above);
    buffer.stamp(Pos { x: 0, y: 2 }, corner(set(), set(), Arm::Closed, Arm::Closed), StampMode::Above);
    buffer.stamp(Pos { x: 1, y: 2 }, corner(Arm::Closed, set(), Arm::Closed, set()), StampMode::Above);
    buffer.stamp(Pos { x: 2, y: 2 }, corner(Arm::Closed, set(), Arm::Closed, set()), StampMode::Above);
    buffer.stamp(Pos { x: 3, y: 2 }, corner(set(), Arm::Closed, Arm::Closed, set()), StampMode::Above);

    let text = render(&buffer, &GlyphCatalog::light(), Pos { x: 0, y: 0 }, Size { width: 4, height: 3 });

    assert_eq!(text, "┌──┐\n│  │\n└──┘\n");
}

#[test]
fn an_abstaining_stamp_renders_the_surviving_arm() {
    let mut buffer = Buffer::new(Pos { x: 0, y: 0 }, Size { width: 1, height: 1 });
    buffer.stamp(
        Pos { x: 0, y: 0 },
        light_cell(set(), Arm::Closed, Arm::Closed, Arm::Closed),
        StampMode::Above,
    );
    buffer.stamp(Pos { x: 0, y: 0 }, light_cell(Arm::Unset, set(), Arm::Closed, set()), StampMode::Above);

    let text = render(&buffer, &GlyphCatalog::light(), Pos { x: 0, y: 0 }, Size { width: 1, height: 1 });

    assert_eq!(text, "┴\n");
}

#[test]
fn a_key_the_catalog_does_not_answer_renders_as_a_space() {
    let mut buffer = Buffer::new(Pos { x: 0, y: 0 }, Size { width: 1, height: 1 });
    buffer.stamp(
        Pos { x: 0, y: 0 },
        Cell::Strokes(StrokeCell {
            base: Stroke::from("double"),
            top: Arm::Run(Stroke::from("double")),
            right: Arm::Closed,
            bottom: Arm::Closed,
            left: Arm::Closed,
        }),
        StampMode::Above,
    );

    let text = render(&buffer, &GlyphCatalog::light(), Pos { x: 0, y: 0 }, Size { width: 1, height: 1 });

    assert_eq!(text, " \n");
}

#[test]
fn an_undefined_cell_and_a_fully_closed_one_both_render_as_a_space() {
    let mut buffer = Buffer::new(Pos { x: 0, y: 0 }, Size { width: 2, height: 1 });
    buffer.stamp(
        Pos { x: 0, y: 0 },
        light_cell(Arm::Closed, Arm::Closed, Arm::Closed, Arm::Closed),
        StampMode::Above,
    );

    let text = render(&buffer, &GlyphCatalog::light(), Pos { x: 0, y: 0 }, Size { width: 2, height: 1 });

    assert_eq!(text, "  \n");
}

#[test]
fn a_buffer_with_no_positions_renders_as_spaces() {
    let mut buffer = Buffer::new(Pos { x: 0, y: 0 }, Size { width: 0, height: 0 });
    buffer.stamp(Pos { x: 0, y: 0 }, light_cell(set(), set(), set(), set()), StampMode::Above);

    let text = render(&buffer, &GlyphCatalog::light(), Pos { x: 0, y: 0 }, Size { width: 2, height: 1 });

    assert_eq!(text, "  \n");
}

#[test]
fn rendering_outside_the_window_fills_it_with_spaces() {
    let mut buffer = Buffer::new(Pos { x: 0, y: 0 }, Size { width: 2, height: 1 });
    buffer.stamp(
        Pos { x: 0, y: 0 },
        light_cell(set(), Arm::Closed, set(), Arm::Closed),
        StampMode::Above,
    );

    let text = render(&buffer, &GlyphCatalog::light(), Pos { x: -1, y: 0 }, Size { width: 4, height: 1 });

    assert_eq!(text, " │  \n");
}

/// A mixed cell that only a degraded lookup answers renders as its base stroke's glyph, and a
/// literal renders as itself without consulting any catalog.
#[test]
fn a_mixed_cell_degrades_and_a_literal_renders_as_itself() {
    let mut buffer = Buffer::new(Pos { x: 0, y: 0 }, Size { width: 2, height: 1 });
    buffer.stamp(Pos { x: 0, y: 0 }, Cell::Strokes(mixed_cell()), StampMode::Above);
    buffer.stamp(Pos { x: 1, y: 0 }, Cell::Literal(Glyph::new("#").expect("one glyph")), StampMode::Above);

    let text = render(&buffer, &GlyphCatalog::light(), Pos { x: 0, y: 0 }, Size { width: 2, height: 1 });

    assert_eq!(text, "┼#\n");
}

/// A window of zero height renders as nothing at all, and one of zero width as empty lines.
#[test]
fn an_empty_window_renders_as_its_lines_alone() {
    let buffer = Buffer::new(Pos { x: 0, y: 0 }, Size { width: 3, height: 3 });
    assert_eq!(render(&buffer, &GlyphCatalog::light(), Pos { x: 0, y: 0 }, Size { width: 3, height: 0 }), "");
    assert_eq!(render(&buffer, &GlyphCatalog::light(), Pos { x: 0, y: 0 }, Size { width: 0, height: 2 }), "\n\n");
}
