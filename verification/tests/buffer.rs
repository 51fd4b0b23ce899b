use monospace::{Arm, Buffer, Cell, Pos, Size, StampMode, Stroke, StrokeCell};

fn light() -> Stroke {
    Stroke::from("light")
}

/// A stroke cell with `base` and four arms.
fn cell(base: Stroke, top: Arm, right: Arm, bottom: Arm, left: Arm) -> Cell {
    Cell::Strokes(StrokeCell { base, top, right, bottom, left })
}

fn run(name: &str) -> Arm {
    Arm::Run(Stroke::from(name))
}

#[test]
fn a_new_buffer_has_no_cell_anywhere() {
    let buffer = Buffer::new(Pos { x: -1, y: -1 }, Size { width: 3, height: 3 });

    for x in -2..3 {
        for y in -2..3 {
            assert!(buffer.cell(Pos { x, y }).is_none());
        }
    }
}

#[test]
fn stamping_outside_the_window_changes_nothing() {
    let mut buffer = Buffer::new(Pos { x: 0, y: 0 }, Size { width: 2, height: 1 });

    buffer.stamp(
        Pos { x: 2, y: 0 },
        cell(light(), run("light"), run("light"), run("light"), run("light")),
        StampMode::Above,
    );

    assert!(buffer.cell(Pos { x: 2, y: 0 }).is_none());
}

#[test]
fn stamping_an_undefined_position_defines_it_entirely() {
    let mut buffer = Buffer::new(Pos { x: 0, y: 0 }, Size { width: 1, height: 1 });
    let stamp = cell(light(), Arm::Unset, run("light"), Arm::Closed, Arm::Unset);

    buffer.stamp(Pos { x: 0, y: 0 }, stamp.clone(), StampMode::Above);

    assert_eq!(buffer.cell(Pos { x: 0, y: 0 }), Some(&stamp));
}

#[test]
fn an_unset_arm_on_a_stamp_leaves_the_target_arm_alone() {
    let mut buffer = Buffer::new(Pos { x: 0, y: 0 }, Size { width: 1, height: 1 });
    buffer.stamp(
        Pos { x: 0, y: 0 },
        cell(light(), run("light"), Arm::Closed, Arm::Closed, Arm::Closed),
        StampMode::Above,
    );

    buffer.stamp(
        Pos { x: 0, y: 0 },
        cell(light(), Arm::Unset, run("light"), Arm::Closed, run("light")),
        StampMode::Above,
    );

    assert_eq!(
        buffer.cell(Pos { x: 0, y: 0 }),
        Some(&cell(light(), run("light"), run("light"), Arm::Closed, run("light")))
    );
}

#[test]
fn stamping_outside_the_window_changes_nothing_under_below() {
    let mut buffer = Buffer::new(Pos { x: 0, y: 0 }, Size { width: 2, height: 1 });

    buffer.stamp(
        Pos { x: 2, y: 0 },
        cell(light(), run("light"), run("light"), run("light"), run("light")),
        StampMode::Below,
    );

    assert!(buffer.cell(Pos { x: 2, y: 0 }).is_none());
}

#[test]
fn stamping_an_undefined_position_with_below_defines_it_entirely() {
    let mut buffer = Buffer::new(Pos { x: 0, y: 0 }, Size { width: 1, height: 1 });
    let stamp = cell(light(), Arm::Unset, run("light"), Arm::Closed, Arm::Unset);

    buffer.stamp(Pos { x: 0, y: 0 }, stamp.clone(), StampMode::Below);

    assert_eq!(buffer.cell(Pos { x: 0, y: 0 }), Some(&stamp));
}

#[test]
fn below_writes_only_the_targets_unset_sides_and_leaves_the_base_stroke_alone() {
    let mut buffer = Buffer::new(Pos { x: 0, y: 0 }, Size { width: 1, height: 1 });
    buffer.stamp(
        Pos { x: 0, y: 0 },
        cell(light(), Arm::Unset, run("light"), Arm::Closed, Arm::Unset),
        StampMode::Above,
    );

    buffer.stamp(
        Pos { x: 0, y: 0 },
        cell(Stroke::from("double"), run("double"), Arm::Closed, run("double"), Arm::Unset),
        StampMode::Below,
    );

    assert_eq!(
        buffer.cell(Pos { x: 0, y: 0 }),
        Some(&cell(light(), run("double"), run("light"), Arm::Closed, Arm::Unset))
    );
}

#[test]
fn below_onto_a_decided_cell_changes_nothing() {
    let mut buffer = Buffer::new(Pos { x: 0, y: 0 }, Size { width: 1, height: 1 });
    let decided = cell(light(), run("light"), Arm::Closed, run("light"), Arm::Closed);
    buffer.stamp(Pos { x: 0, y: 0 }, decided.clone(), StampMode::Above);

    buffer.stamp(
        Pos { x: 0, y: 0 },
        cell(Stroke::from("double"), run("double"), run("double"), run("double"), run("double")),
        StampMode::Below,
    );

    assert_eq!(buffer.cell(Pos { x: 0, y: 0 }), Some(&decided));
}

#[test]
fn above_with_a_decided_stamp_wins_outright() {
    let mut buffer = Buffer::new(Pos { x: 0, y: 0 }, Size { width: 1, height: 1 });
    buffer.stamp(
        Pos { x: 0, y: 0 },
        cell(Stroke::from("double"), Arm::Unset, run("double"), Arm::Unset, Arm::Closed),
        StampMode::Above,
    );

    let decided = cell(light(), run("light"), Arm::Closed, run("light"), Arm::Closed);
    buffer.stamp(Pos { x: 0, y: 0 }, decided.clone(), StampMode::Above);

    assert_eq!(buffer.cell(Pos { x: 0, y: 0 }), Some(&decided));
}

#[test]
fn front_to_back_with_below_equals_back_to_front_with_above() {
    let pos = Pos { x: 0, y: 0 };
    let a = || cell(Stroke::from("double"), Arm::Unset, run("double"), Arm::Unset, Arm::Closed);
    let b = || cell(Stroke::from("light"), run("light"), Arm::Closed, Arm::Unset, run("light"));
    let c = || cell(Stroke::from("heavy"), Arm::Closed, run("heavy"), run("heavy"), run("heavy"));

    let mut front_to_back = Buffer::new(Pos { x: 0, y: 0 }, Size { width: 1, height: 1 });
    front_to_back.stamp(pos, a(), StampMode::Below);
    front_to_back.stamp(pos, b(), StampMode::Below);
    front_to_back.stamp(pos, c(), StampMode::Below);

    let mut back_to_front = Buffer::new(Pos { x: 0, y: 0 }, Size { width: 1, height: 1 });
    back_to_front.stamp(pos, c(), StampMode::Above);
    back_to_front.stamp(pos, b(), StampMode::Above);
    back_to_front.stamp(pos, a(), StampMode::Above);

    let expected_cell =
        cell(Stroke::from("double"), run("light"), run("double"), run("heavy"), Arm::Closed);
    let expected = Some(&expected_cell);
    assert_eq!(front_to_back.cell(pos), back_to_front.cell(pos));
    assert_eq!(front_to_back.cell(pos), expected);
}

/// A literal stamped above a stroke cell replaces it; a stroke cell stamped above a literal
/// reads the literal as closed on every side its own arms leave unset.
#[test]
fn a_literal_on_top_decides_the_kind_of_the_position() {
    let pos = Pos { x: 0, y: 0 };
    let glyph = monospace::Glyph::new("A").expect("one glyph");
    let mut buffer = Buffer::new(pos, Size { width: 1, height: 1 });
    buffer.stamp(pos, cell(light(), run("light"), Arm::Unset, Arm::Unset, Arm::Unset), StampMode::Above);
    buffer.stamp(pos, Cell::Literal(glyph.clone()), StampMode::Above);
    assert_eq!(buffer.cell(pos), Some(&Cell::Literal(glyph.clone())));

    buffer.stamp(pos, cell(light(), Arm::Unset, run("light"), Arm::Unset, Arm::Unset), StampMode::Above);
    assert_eq!(
        buffer.cell(pos),
        Some(&cell(light(), Arm::Closed, run("light"), Arm::Closed, Arm::Closed))
    );
}

/// The buffer reports the window it was made with.
#[test]
fn a_buffer_keeps_its_window() {
    let buffer = Buffer::new(Pos { x: -3, y: 4 }, Size { width: 2, height: 5 });
    assert_eq!(buffer.origin(), Pos { x: -3, y: 4 });
    assert_eq!(buffer.size(), Size { width: 2, height: 5 });
    assert!(buffer.contains(Pos { x: -2, y: 8 }));
    assert!(!buffer.contains(Pos { x: -1, y: 8 }));
    assert!(!buffer.contains(Pos { x: -4, y: 4 }));
}
