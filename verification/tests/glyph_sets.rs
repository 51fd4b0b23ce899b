use monospace::glyph_sets::{ascii, double, heavy, light_round};
use monospace::{render, BoxShape, Buffer, GlyphCatalog, GlyphKey, Layer, Pos, Shape, Size, StampMode, Stroke};

fn answers_every_combination(catalog: &GlyphCatalog, name: &str) {
    for mask in 1u8..16 {
        let side = |bit: u8| if mask & bit == 0 { None } else { Some(Stroke::from(name)) };
        let key = GlyphKey { top: side(0b0001), right: side(0b0010), bottom: side(0b0100), left: side(0b1000) };

        assert!(catalog.glyph(&key).is_some(), "no glyph for {key:?}");
    }
}

fn box_rendered_with(stroke: &str, catalog: &GlyphCatalog) -> String {
    let origin = Pos { x: 0, y: 0 };
    let size = Size { width: 4, height: 3 };
    let mut buffer = Buffer::new(origin, size);
    BoxShape { at: origin, size, stroke: Stroke::from(stroke), fill: None }
        .draw(&mut Layer::new(&mut buffer, StampMode::Above));
    render(&buffer, catalog, origin, size)
}

#[test]
fn ascii_answers_every_non_empty_combination_of_its_own_stroke() {
    answers_every_combination(&ascii(), "ascii");
}

#[test]
fn a_box_rendered_with_ascii_alone_uses_only_ascii_box_characters() {
    let output = box_rendered_with("ascii", &ascii());
    for ch in output.chars() {
        assert!(matches!(ch, '+' | '-' | '|' | ' ' | '\n'), "unexpected character {ch:?} in {output:?}");
    }
}

#[test]
fn double_answers_every_non_empty_combination_of_its_own_stroke() {
    answers_every_combination(&double(), "double");
}

#[test]
fn a_box_rendered_with_double_alone_uses_only_double_box_characters() {
    let output = box_rendered_with("double", &double());
    for ch in output.chars() {
        assert!(
            matches!(ch, '║' | '╗' | '╦' | '╬' | '╣' | '╔' | '╠' | '═' | '╩' | '╝' | '╚' | ' ' | '\n'),
            "unexpected character {ch:?} in {output:?}"
        );
    }
}

#[test]
fn heavy_answers_every_non_empty_combination_of_its_own_stroke() {
    answers_every_combination(&heavy(), "heavy");
}

#[test]
fn a_box_rendered_with_heavy_alone_uses_only_heavy_box_characters() {
    let output = box_rendered_with("heavy", &heavy());
    for ch in output.chars() {
        assert!(
            matches!(ch, '┃' | '┓' | '┳' | '╋' | '┫' | '┏' | '┣' | '━' | '┻' | '┛' | '┗' | ' ' | '\n'),
            "unexpected character {ch:?} in {output:?}"
        );
    }
}

#[test]
fn light_round_answers_every_non_empty_combination_of_its_own_stroke() {
    answers_every_combination(&light_round(), "light-round");
}

#[test]
fn a_box_rendered_with_light_round_alone_uses_only_light_round_box_characters() {
    let output = box_rendered_with("light-round", &light_round());
    for ch in output.chars() {
        assert!(
            matches!(ch, '│' | '╮' | '┬' | '┼' | '┤' | '╭' | '├' | '─' | '┴' | '╯' | '╰' | ' ' | '\n'),
            "unexpected character {ch:?} in {output:?}"
        );
    }
}

#[test]
fn light_rounds_corners_differ_from_lights() {
    let light_round_output = box_rendered_with("light-round", &light_round());
    let light_output = box_rendered_with("light", &GlyphCatalog::light());

    for corner in ['╮', '╭', '╯', '╰'] {
        assert!(light_round_output.contains(corner), "{light_round_output:?} is missing {corner:?}");
    }
    for corner in ['┐', '┌', '┘', '└'] {
        assert!(light_output.contains(corner), "{light_output:?} is missing {corner:?}");
    }
}

/// Each table draws a box in its own corners.
#[test]
fn each_table_draws_a_box_in_its_own_corners() {
    assert_eq!(box_rendered_with("ascii", &ascii()), "+--+\n|  |\n+--+\n");
    assert_eq!(box_rendered_with("double", &double()), "╔══╗\n║  ║\n╚══╝\n");
    assert_eq!(box_rendered_with("heavy", &heavy()), "┏━━┓\n┃  ┃\n┗━━┛\n");
    assert_eq!(box_rendered_with("light-round", &light_round()), "╭──╮\n│  │\n╰──╯\n");
}

/// A table answers nothing for another stroke's keys.
#[test]
fn a_table_answers_only_its_own_stroke() {
    let key = GlyphKey { top: Some(Stroke::from("light")), right: None, bottom: Some(Stroke::from("light")), left: None };
    assert_eq!(ascii().glyph(&key), None);
}
