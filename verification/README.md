# monospace

Diagrams drawn in monospaced text — boxes, lines and arrows that route themselves — as a library
whose behaviour is stated in contracts and proved with Verus.

## Layout

| Path                        | What it is                                                              |
| --------------------------- | ----------------------------------------------------------------------- |
| `src/geometry.rs`           | Positions, sizes, directions, orientations.                             |
| `src/stroke.rs`, `cell.rs`  | Strokes, arms and cells, and how a stamp merges into a cell.            |
| `src/buffer.rs`             | A window of cells and the two stamp modes.                              |
| `src/glyph.rs`              | Glyphs, keys, and the catalog a cell is rendered through.               |
| `src/glyph_sets.rs`         | The ASCII, Double, Heavy and Light Round tables.                        |
| `src/render.rs`             | A window rendered as text.                                              |
| `src/shape.rs`              | What a shape draws into, and what drawing is.                           |
| `src/fragment/`, `line.rs`, `box_shape.rs`, `route.rs` | The shapes and the pieces they are made of.  |
| `src/lattice.rs`, `search.rs`, `arrow_path.rs`, `arrow.rs`, `shortcut.rs` | The arrow and the route ranked first for it. |
| `src/diagram.rs`            | An ordered set of shapes, drawn front to back.                          |
| `src/description.rs`, `cli.rs` | What a description file says, and what the command line prints.      |
| `src/xtask/`                | The repository's own tooling: what its commands decide.                 |
| `src/strings.rs`, `text.rs` | Text as sequences of characters.                                        |
| `app/`                      | The command-line program and the tooling's processes and files.         |
| `tests/`                    | Tests run against the compiled library.                                 |

## Laws

Besides each function's contract, the library proves laws that relate several of them, such as:
merging stamps is associative; a decided stamp on top wins outright; drawing front to back with
`Below` equals drawing back to front with `Above`; a glyph table answers every key of its own
stroke; the route an arrow draws ranks first among every route over its lattice and passes no
position twice; a file's markers can always be rewritten in place; a second line-ending rewrite
finds no work, unless the file holds a carriage return doubled before a line feed; and every slug
is short and clean.
