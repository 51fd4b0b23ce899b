use std::collections::HashMap;

use monospace::arrow::derive_path;
use monospace::geometry::offset;
use monospace::lattice::{Lattice, RouteRectangle};
use monospace::{
    render, Arrow, Buffer, Cell, Direction, Endpoint, Glyph, GlyphCatalog, Layer, Pos, Shape, Size,
    StampMode, Stroke, Surface,
};

/// A surface that counts how many times each position is written.
#[derive(Default)]
struct CountingSurface {
    writes: HashMap<(i32, i32), usize>,
}

impl CountingSurface {
    fn max_writes(&self) -> usize {
        self.writes.values().copied().max().unwrap_or(0)
    }
}

impl Surface for CountingSurface {
    fn stamp(&mut self, at: Pos, _cell: Cell) {
        *self.writes.entry((at.x, at.y)).or_insert(0) += 1;
    }
}

fn light() -> Stroke {
    Stroke::from("light")
}

/// The head glyph for a picture-asserting test: opposite the leaving direction.
fn head_for(leaving: Direction) -> Glyph {
    let text = match leaving {
        Direction::Up => "▼",
        Direction::Down => "▲",
        Direction::Left => "►",
        Direction::Right => "◄",
    };
    Glyph::new(text).expect("one of the four head glyphs is one glyph each")
}

fn endpoint(at: Pos, leaving: Direction) -> Endpoint {
    Endpoint { at, leaving, head: head_for(leaving) }
}

fn render_arrow(origin: Pos, size: Size, from: Endpoint, to: Endpoint) -> String {
    let mut buffer = Buffer::new(origin, size);
    Arrow { from, to, stroke: light() }.draw(&mut Layer::new(&mut buffer, StampMode::Above));

    render(&buffer, &GlyphCatalog::light(), origin, size)
}

fn at(x: i32, y: i32) -> Pos {
    Pos { x, y }
}

fn size(width: u32, height: u32) -> Size {
    Size { width, height }
}

#[test]
fn scenario_1_perpendicular_one_bend() {
    let text = render_arrow(at(0, 0), size(5, 4), endpoint(at(0, 0), Direction::Down), endpoint(at(4, 3), Direction::Left));

    assert_eq!(text, "▲    \n│    \n│    \n└───►\n");
}

#[test]
fn scenario_2_perpendicular_one_bend_mirrored() {
    let text = render_arrow(at(0, 0), size(5, 4), endpoint(at(0, 0), Direction::Right), endpoint(at(4, 3), Direction::Up));

    assert_eq!(text, "◄───┐\n    │\n    │\n    ▼\n");
}

#[test]
fn scenario_3_direction_is_part_of_the_description() {
    let one = render_arrow(at(0, 0), size(5, 4), endpoint(at(0, 0), Direction::Down), endpoint(at(4, 3), Direction::Left));
    let two = render_arrow(at(0, 0), size(5, 4), endpoint(at(0, 0), Direction::Right), endpoint(at(4, 3), Direction::Up));

    assert_ne!(one, two);
}

#[test]
fn scenario_4_opposite_aligned_no_bend() {
    let text = render_arrow(at(0, 0), size(7, 1), endpoint(at(0, 0), Direction::Right), endpoint(at(6, 0), Direction::Left));

    assert_eq!(text, "◄─────►\n");
}

#[test]
fn scenario_5_opposite_not_aligned_two_bends() {
    let text = render_arrow(at(0, 0), size(7, 3), endpoint(at(0, 0), Direction::Right), endpoint(at(6, 2), Direction::Left));

    assert_eq!(text, "◄──┐   \n   │   \n   └──►\n");
}

#[test]
fn scenario_6_two_bends_inside_the_endpoint_rectangle() {
    let text = render_arrow(at(0, 0), size(9, 3), endpoint(at(2, 0), Direction::Right), endpoint(at(8, 2), Direction::Left));

    assert_eq!(text, "  ◄──┐   \n     │   \n     └──►\n");
}

#[test]
fn scenario_7_facing_away_four_bends() {
    let text = render_arrow(at(0, 0), size(10, 3), endpoint(at(2, 0), Direction::Left), endpoint(at(8, 2), Direction::Right));

    assert_eq!(text, " ┌►       \n └───────┐\n        ◄┘\n");
}

#[test]
fn scenario_8_perpendicular_one_heading_away() {
    let text = render_arrow(at(0, 0), size(9, 4), endpoint(at(2, 0), Direction::Left), endpoint(at(8, 2), Direction::Down));

    assert_eq!(text, " ┌►      \n │       \n │      ▲\n └──────┘\n");
}

#[test]
fn scenario_9_tightest_two_bend_arrangement() {
    let text = render_arrow(at(0, 0), size(5, 2), endpoint(at(2, 0), Direction::Right), endpoint(at(4, 1), Direction::Left));

    assert_eq!(text, "  ◄┐ \n   └►\n");
}

#[test]
fn scenario_10_tightest_facing_away_arrangement() {
    let text = render_arrow(at(0, 0), size(5, 3), endpoint(at(2, 0), Direction::Left), endpoint(at(3, 2), Direction::Right));

    assert_eq!(text, " ┌►  \n └──┐\n   ◄┘\n");
}

#[test]
fn scenario_11_the_three_shared_endpoint_arrows_all_differ() {
    let six = render_arrow(at(0, 0), size(9, 3), endpoint(at(2, 0), Direction::Right), endpoint(at(8, 2), Direction::Left));
    let seven = render_arrow(at(0, 0), size(9, 3), endpoint(at(2, 0), Direction::Left), endpoint(at(8, 2), Direction::Right));
    let eight = render_arrow(at(0, 0), size(9, 4), endpoint(at(2, 0), Direction::Left), endpoint(at(8, 2), Direction::Down));

    assert_ne!(six, seven);
    assert_ne!(six, eight);
    assert_ne!(seven, eight);
}

#[test]
fn identical_directions_where_a_path_fits() {
    let text = render_arrow(at(0, 0), size(8, 3), endpoint(at(2, 0), Direction::Right), endpoint(at(6, 2), Direction::Right));

    assert_eq!(text, "  ◄────┐\n       │\n      ◄┘\n");
}

#[test]
fn identical_directions_in_line_are_joined_around_the_outside() {
    let text = render_arrow(at(0, 0), size(6, 2), endpoint(at(0, 0), Direction::Right), endpoint(at(4, 0), Direction::Right));

    assert_eq!(text, "◄──┐◄┐\n   └─┘\n");
}

#[test]
fn both_endpoints_at_the_same_position_returns_normally() {
    let _ = render_arrow(at(0, 0), size(1, 1), endpoint(at(0, 0), Direction::Right), endpoint(at(0, 0), Direction::Left));
}

#[test]
fn no_pinned_arrow_writes_any_position_more_than_once() {
    let pairs = [
        (endpoint(at(0, 0), Direction::Down), endpoint(at(4, 3), Direction::Left)),
        (endpoint(at(0, 0), Direction::Right), endpoint(at(4, 3), Direction::Up)),
        (endpoint(at(0, 0), Direction::Right), endpoint(at(6, 0), Direction::Left)),
        (endpoint(at(0, 0), Direction::Right), endpoint(at(6, 2), Direction::Left)),
        (endpoint(at(2, 0), Direction::Right), endpoint(at(8, 2), Direction::Left)),
        (endpoint(at(2, 0), Direction::Left), endpoint(at(8, 2), Direction::Right)),
        (endpoint(at(2, 0), Direction::Left), endpoint(at(8, 2), Direction::Down)),
        (endpoint(at(2, 0), Direction::Right), endpoint(at(4, 1), Direction::Left)),
        (endpoint(at(2, 0), Direction::Left), endpoint(at(3, 2), Direction::Right)),
    ];

    for (index, (from, to)) in pairs.into_iter().enumerate() {
        let mut surface = CountingSurface::default();
        Arrow { from, to, stroke: light() }.draw(&mut surface);

        assert!(surface.max_writes() <= 1, "pinned arrow {} wrote a position more than once", index + 1);
    }
}

#[test]
fn sc002_the_bug_report_renders_the_same_from_either_end() {
    let expected = "◄─────►\n";

    let named_left_first = render_arrow(at(0, 0), size(7, 1), endpoint(at(0, 0), Direction::Right), endpoint(at(6, 0), Direction::Left));
    let named_right_first = render_arrow(at(0, 0), size(7, 1), endpoint(at(6, 0), Direction::Left), endpoint(at(0, 0), Direction::Right));

    assert_eq!(named_left_first, expected);
    assert_eq!(named_right_first, expected);
}

#[test]
fn sc003_the_adr_0044_pair_turns_at_the_row_nearer_the_endpoint_named_first() {
    let up_first = render_arrow(at(0, 0), size(3, 7), endpoint(at(0, 1), Direction::Down), endpoint(at(2, 6), Direction::Up));
    let down_first = render_arrow(at(0, 0), size(3, 7), endpoint(at(2, 6), Direction::Up), endpoint(at(0, 1), Direction::Down));

    assert_eq!(up_first, "   \n▲  \n│  \n└─┐\n  │\n  │\n  ▼\n");
    assert_eq!(down_first, "   \n▲  \n│  \n│  \n└─┐\n  │\n  ▼\n");
}

#[test]
fn sc004_each_arrangement_turns_at_the_middle_of_its_route_rectangle() {
    let n4 = render_arrow(at(0, 0), size(5, 4), endpoint(at(0, 0), Direction::Right), endpoint(at(4, 3), Direction::Left));
    let n5 = render_arrow(at(0, 0), size(6, 4), endpoint(at(5, 3), Direction::Left), endpoint(at(0, 0), Direction::Right));
    let n6 = render_arrow(at(0, 0), size(7, 4), endpoint(at(0, 0), Direction::Right), endpoint(at(6, 3), Direction::Left));

    assert_eq!(n4, "◄─┐  \n  │  \n  │  \n  └─►\n");
    assert_eq!(n5, "◄──┐  \n   │  \n   │  \n   └─►\n");
    assert_eq!(n6, "◄──┐   \n   │   \n   │   \n   └──►\n");
}

#[test]
fn fr005_a_two_cell_free_span_turns_toward_the_endpoint_the_arrow_leaves_from() {
    let leaving_right_first = render_arrow(at(0, 0), size(4, 2), endpoint(at(0, 0), Direction::Right), endpoint(at(3, 1), Direction::Left));
    let leaving_left_first = render_arrow(at(0, 0), size(4, 2), endpoint(at(3, 1), Direction::Left), endpoint(at(0, 0), Direction::Right));

    assert_eq!(leaving_right_first, "◄┐  \n └─►\n");
    assert_eq!(leaving_left_first, "◄─┐ \n  └►\n");
}

#[test]
fn fr006_the_demonstration_turns_at_the_middle_of_its_route_rectangle() {
    let a = Pos { x: 13, y: 3 };
    let da = Direction::Right;
    let b = Pos { x: 22, y: 4 };
    let db = Direction::Down;

    let s = offset(a, da).expect("no overflow in this fixture");
    let t = offset(b, db).expect("no overflow in this fixture");
    let middle_x = i32::midpoint(s.x.min(t.x), s.x.max(t.x));
    assert_eq!(middle_x, 18);

    let path = derive_path(a, da, b, db).expect("the demonstration's arrow has a route");
    assert!(path.contains(&Pos { x: middle_x, y: s.y }));
    assert!(path.contains(&Pos { x: middle_x, y: t.y }));
}

#[test]
fn c6_the_to_head_wins_a_shared_cell() {
    let text = render_arrow(at(2, 1), size(1, 1), endpoint(at(2, 1), Direction::Right), endpoint(at(2, 1), Direction::Left));

    assert_eq!(text, "►\n");
}

#[test]
fn facing_away_are_joined_at_any_distance() {
    let near = render_arrow(at(0, -1), size(2, 5), endpoint(at(0, 0), Direction::Up), endpoint(at(0, 2), Direction::Down));
    let far = render_arrow(at(0, -1), size(2, 21), endpoint(at(0, 0), Direction::Up), endpoint(at(0, 18), Direction::Down));

    assert_eq!(near, "┌┐\n▼│\n │\n▲│\n└┘\n");
    assert_eq!(far, format!("┌┐\n▼│\n{}▲│\n└┘\n", " │\n".repeat(17)));
}

#[test]
fn facing_away_off_column_takes_four_bends_around_the_outside() {
    let text = render_arrow(at(-1, -1), size(3, 5), endpoint(at(0, 0), Direction::Up), endpoint(at(1, 2), Direction::Down));

    assert_eq!(text, "┌┐ \n│▼ \n│  \n│ ▲\n└─┘\n");
}

#[test]
fn the_former_double_escape_takes_four_bends_and_the_two_orders_mirror() {
    let leaving_left_first = render_arrow(at(-1, -1), size(5, 3), endpoint(at(0, 0), Direction::Left), endpoint(at(2, 1), Direction::Right));
    let leaving_right_first = render_arrow(at(-1, 0), size(5, 3), endpoint(at(2, 1), Direction::Right), endpoint(at(0, 0), Direction::Left));

    assert_eq!(leaving_left_first, "┌───┐\n└►  │\n   ◄┘\n");
    assert_eq!(leaving_right_first, "┌►   \n│  ◄┐\n└───┘\n");

    let bends = |text: &str| text.chars().filter(|c| "┌┐└┘".contains(*c)).count();
    assert_eq!(bends(&leaving_left_first), 4);
    assert_eq!(bends(&leaving_right_first), 4);
}

#[test]
fn a_mirrored_route_passes_on_the_right_of_the_travel() {
    let text = render_arrow(at(-1, 0), size(2, 4), endpoint(at(0, 0), Direction::Down), endpoint(at(0, 2), Direction::Down));

    assert_eq!(text, " ▲\n┌┘\n│▲\n└┘\n");
}

#[test]
fn the_route_is_empty_only_where_the_model_says_it_is() {
    let an_endpoint_stands_on_the_arrival_cell = derive_path(Pos { x: 0, y: 0 }, Direction::Up, Pos { x: 0, y: 1 }, Direction::Up);
    let coincident_leaving_the_same_direction = derive_path(Pos { x: 0, y: 0 }, Direction::Right, Pos { x: 0, y: 0 }, Direction::Right);

    assert_eq!(an_endpoint_stands_on_the_arrival_cell, None);
    assert_eq!(coincident_leaving_the_same_direction, None);
}

#[test]
fn the_coincident_position_family_follows_the_rule() {
    const DIRECTIONS: [Direction; 4] = [Direction::Up, Direction::Right, Direction::Down, Direction::Left];
    let at = Pos { x: 0, y: 0 };

    let mut same_direction = 0;
    let mut different_direction = 0;
    for da in DIRECTIONS {
        for db in DIRECTIONS {
            let route = derive_path(at, da, at, db);
            if da == db {
                assert_eq!(route, None, "leaving {da:?} both ways draws no route");
                same_direction += 1;
            } else {
                assert!(route.is_some(), "leaving {da:?} then {db:?} draws a route");
                different_direction += 1;
            }
        }
    }

    assert_eq!(same_direction, 4);
    assert_eq!(different_direction, 12);
}

#[test]
fn the_state_count_does_not_grow_with_distance() {
    let states_apart = |cells_apart: i32| {
        let s = Pos { x: 0, y: -1 };
        let t = Pos { x: 0, y: cells_apart + 1 };
        let mid = RouteRectangle::spanning(s, t).middle(s);
        let lattice = Lattice::new(s, t, mid);
        lattice.x.len() * lattice.y.len() * 4
    };

    let four = states_apart(4);
    let fifty = states_apart(50);
    let five_hundred = states_apart(500);

    assert_eq!(four, fifty);
    assert_eq!(fifty, five_hundred);
    assert!(four <= 196);
}

const SWEEP_ORIGIN: Pos = Pos { x: -2, y: -2 };
const SWEEP_SIZE: Size = Size { width: 10, height: 9 };

type AnchorGroup = (Pos, Direction, Vec<(Pos, Direction)>);

fn sweep_arrangements_by_anchor() -> Vec<AnchorGroup> {
    const DIRECTIONS: [Direction; 4] = [Direction::Up, Direction::Right, Direction::Down, Direction::Left];
    let anchors = [Pos { x: 0, y: 0 }, Pos { x: 2, y: 1 }];

    let mut groups = Vec::new();
    for anchor in anchors {
        for anchor_dir in DIRECTIONS {
            let mut others = Vec::new();
            for x in 0..6 {
                for y in 0..5 {
                    let other = Pos { x, y };
                    if other == anchor {
                        continue;
                    }
                    for other_dir in DIRECTIONS {
                        others.push((other, other_dir));
                    }
                }
            }
            groups.push((anchor, anchor_dir, others));
        }
    }
    groups
}

fn window_contains(p: Pos) -> bool {
    let dx = p.x.checked_sub(SWEEP_ORIGIN.x).and_then(|d| u32::try_from(d).ok());
    let dy = p.y.checked_sub(SWEEP_ORIGIN.y).and_then(|d| u32::try_from(d).ok());
    matches!((dx, dy), (Some(dx), Some(dy)) if dx < SWEEP_SIZE.width && dy < SWEEP_SIZE.height)
}

fn sweep_arrangements() -> Vec<(Pos, Direction, Pos, Direction)> {
    sweep_arrangements_by_anchor()
        .into_iter()
        .flat_map(|(anchor, anchor_dir, others)| {
            others.into_iter().map(move |(other, other_dir)| (anchor, anchor_dir, other, other_dir))
        })
        .collect()
}

#[test]
fn sweep_every_route_fits_inside_the_window() {
    for (a, da, b, db) in sweep_arrangements() {
        for (from_at, from_dir, to_at, to_dir) in [(a, da, b, db), (b, db, a, da)] {
            assert!(
                window_contains(from_at) && window_contains(to_at),
                "({from_at:?}, {from_dir:?}) -> ({to_at:?}, {to_dir:?}): a head outside the window"
            );
            if let Some(path) = derive_path(from_at, from_dir, to_at, to_dir) {
                for pos in path {
                    assert!(
                        window_contains(pos),
                        "({from_at:?}, {from_dir:?}) -> ({to_at:?}, {to_dir:?}): route cell {pos:?} outside the window"
                    );
                }
            }
        }
    }
}

#[test]
fn the_sweep_grid_has_928_arrangements() {
    assert_eq!(sweep_arrangements().len(), 928);
}

#[test]
fn sweep_every_endpoint_renders_its_own_head_and_no_position_is_written_twice() {
    for (a, da, b, db) in sweep_arrangements() {
        for (from_at, from_dir, to_at, to_dir) in [(a, da, b, db), (b, db, a, da)] {
            let mut buffer = Buffer::new(SWEEP_ORIGIN, SWEEP_SIZE);
            Arrow { from: endpoint(from_at, from_dir), to: endpoint(to_at, to_dir), stroke: light() }
                .draw(&mut Layer::new(&mut buffer, StampMode::Above));
            assert_eq!(
                buffer.cell(from_at),
                Some(&Cell::Literal(head_for(from_dir))),
                "({from_at:?}, {from_dir:?}) -> ({to_at:?}, {to_dir:?}): from's own head"
            );
            assert_eq!(
                buffer.cell(to_at),
                Some(&Cell::Literal(head_for(to_dir))),
                "({from_at:?}, {from_dir:?}) -> ({to_at:?}, {to_dir:?}): to's own head"
            );

            let mut counting = CountingSurface::default();
            Arrow { from: endpoint(from_at, from_dir), to: endpoint(to_at, to_dir), stroke: light() }
                .draw(&mut counting);
            assert!(
                counting.max_writes() <= 1,
                "({from_at:?}, {from_dir:?}) -> ({to_at:?}, {to_dir:?}) wrote a position more than once"
            );
        }
    }
}

/// Every route the sweep derives starts one step from its `from` endpoint, ends one step from
/// its `to` endpoint, goes one cell at a time and enters neither endpoint.
#[test]
fn every_sweep_route_is_a_route_for_its_arrow() {
    let adjacent = |p: Pos, q: Pos| (p.x - q.x).abs() + (p.y - q.y).abs() == 1;
    for (a, da, b, db) in sweep_arrangements() {
        if let Some(path) = derive_path(a, da, b, db) {
            assert_eq!(path[0], offset(a, da).expect("in range"));
            assert_eq!(*path.last().expect("not empty"), offset(b, db).expect("in range"));
            for pair in path.windows(2) {
                assert!(adjacent(pair[0], pair[1]));
            }
            assert!(path.iter().all(|p| *p != a && *p != b));
        }
    }
}

/// An endpoint whose starting position would leave `i32` has no route.
#[test]
fn a_starting_position_outside_the_plane_has_no_route() {
    assert_eq!(derive_path(Pos { x: i32::MAX, y: 0 }, Direction::Right, Pos { x: 0, y: 0 }, Direction::Left), None);
}

/// An arrow whose endpoints both leave to the right must turn back on itself; its route still
/// passes each position once.
#[test]
fn a_route_that_turns_back_passes_no_position_twice() {
    let path = derive_path(Pos { x: 0, y: 0 }, Direction::Right, Pos { x: 0, y: 3 }, Direction::Right)
        .expect("two endpoints leaving the same way have a route");
    assert_eq!(path[0], Pos { x: 1, y: 0 });
    assert_eq!(*path.last().expect("not empty"), Pos { x: 1, y: 3 });
    for i in 0..path.len() {
        for j in (i + 1)..path.len() {
            assert_ne!(path[i], path[j], "position {:?} is passed twice", path[i]);
        }
    }
}
