//! The fragments: the leaves that actually write cells. Each writes only the cells its
//! description names.
use vstd::prelude::*;

use crate::geometry::{Orientation, Pos, Size};

pub mod border;
pub mod corner;
pub mod end;
pub mod fill;
pub mod head;
pub mod segment;

verus! {

/// The position `i` cells from `from` along `orientation`, as a mathematical point.
pub open spec fn along(from: Pos, i: int, orientation: Orientation) -> Pos {
    match orientation {
        Orientation::Horizontal => Pos { x: (from.x + i) as i32, y: from.y },
        Orientation::Vertical => Pos { x: from.x, y: (from.y + i) as i32 },
    }
}

/// How many of the first `len` positions from `from` along `orientation` can be written in
/// `i32`: they are a prefix of the run, since the coordinate only grows.
pub open spec fn run_len(from: Pos, len: u32, orientation: Orientation) -> nat {
    let c = match orientation {
        Orientation::Horizontal => from.x as int,
        Orientation::Vertical => from.y as int,
    };
    if len <= i32::MAX - c + 1 {
        len as nat
    } else {
        (i32::MAX - c + 1) as nat
    }
}

/// The positions of a run of `len` cells starting at `from` and continuing in `orientation`,
/// leaving out any whose coordinate would overflow `i32`.
pub open spec fn spec_run(from: Pos, len: u32, orientation: Orientation) -> Seq<Pos> {
    Seq::new(run_len(from, len, orientation), |i: int| along(from, i, orientation))
}

/// The `len` positions of a run starting at `from` and continuing in `orientation`. A position
/// whose coordinate would overflow `i32` is skipped rather than panicking.
pub fn run(from: Pos, len: u32, orientation: Orientation) -> (r: Vec<Pos>)
    ensures
        r@ == spec_run(from, len, orientation),
{
    let mut out: Vec<Pos> = Vec::new();
    let mut i: u32 = 0;
    while i < len
        invariant
            i <= len,
            i <= run_len(from, len, orientation),
            out@ == spec_run(from, len, orientation).take(i as int),
        decreases len - i,
    {
        let next = match orientation {
            Orientation::Horizontal => match from.x.checked_add_unsigned(i) {
                Some(x) => Some(Pos { x, y: from.y }),
                None => None,
            },
            Orientation::Vertical => match from.y.checked_add_unsigned(i) {
                Some(y) => Some(Pos { x: from.x, y }),
                None => None,
            },
        };
        match next {
            Some(p) => {
                out.push(p);
                proof {
                    assert(spec_run(from, len, orientation).take(i + 1) =~= spec_run(
                        from,
                        len,
                        orientation,
                    ).take(i as int).push(p));
                }
                i += 1;
            },
            None => {
                assert(spec_run(from, len, orientation).take(i as int) =~= spec_run(
                    from,
                    len,
                    orientation,
                ));
                return out;
            },
        }
    }
    assert(spec_run(from, len, orientation).take(i as int) =~= spec_run(from, len, orientation));
    out
}

/// The first `rows` rows of the rectangle at `at` of `size`, row by row, leaving out every
/// position whose coordinate would overflow `i32`.
pub open spec fn spec_rect_rows(at: Pos, size: Size, rows: nat) -> Seq<Pos>
    decreases rows,
{
    if rows == 0 {
        Seq::empty()
    } else {
        spec_rect_rows(at, size, (rows - 1) as nat) + spec_run(
            Pos { x: at.x, y: (at.y + rows - 1) as i32 },
            size.width,
            Orientation::Horizontal,
        )
    }
}

/// Every position of a `size`-shaped rectangle whose top-left corner is `at`, row by row,
/// leaving out every position whose coordinate would overflow `i32`.
pub open spec fn spec_rect(at: Pos, size: Size) -> Seq<Pos> {
    spec_rect_rows(at, size, run_len(at, size.height, Orientation::Vertical))
}

/// Every position of a `size`-shaped rectangle whose top-left corner is `at`, row by row. A
/// position whose coordinate would overflow `i32` is skipped.
pub fn rect(at: Pos, size: Size) -> (r: Vec<Pos>)
    ensures
        r@ == spec_rect(at, size),
{
    let rows = run(at, size.height, Orientation::Vertical);
    let mut out: Vec<Pos> = Vec::new();
    let mut i: usize = 0;
    while i < rows.len()
        invariant
            i <= rows.len(),
            rows@ == spec_run(at, size.height, Orientation::Vertical),
            out@ == spec_rect_rows(at, size, i as nat),
        decreases rows.len() - i,
    {
        let row = run(rows[i], size.width, Orientation::Horizontal);
        let mut j: usize = 0;
        let ghost before = out@;
        while j < row.len()
            invariant
                j <= row.len(),
                out@ == before + row@.take(j as int),
            decreases row.len() - j,
        {
            out.push(row[j]);
            assert(row@.take(j + 1) =~= row@.take(j as int).push(row[j as int]));
            j += 1;
        }
        assert(row@.take(j as int) =~= row@);
        i += 1;
    }
    out
}

/// The stamps that write `cell` at every position of `positions`, in order.
pub open spec fn stamps_at(positions: Seq<Pos>, cell: crate::cell::Cell) -> Seq<(Pos, crate::cell::Cell)> {
    positions.map_values(|p: Pos| (p, cell))
}

/// The stamps that write `cell` at every position of `positions`, in order.
pub fn stamp_each(positions: &Vec<Pos>, cell: &crate::cell::Cell) -> (r: Vec<(Pos, crate::cell::Cell)>)
    ensures
        r@ == stamps_at(positions@, *cell),
{
    let mut out: Vec<(Pos, crate::cell::Cell)> = Vec::new();
    let mut i: usize = 0;
    while i < positions.len()
        invariant
            i <= positions.len(),
            out@ == stamps_at(positions@.take(i as int), *cell),
        decreases positions.len() - i,
    {
        out.push((positions[i], cell.duplicate()));
        assert(stamps_at(positions@.take(i + 1), *cell) =~= stamps_at(positions@.take(i as int), *cell).push((positions[i as int], *cell)));
        i += 1;
    }
    assert(positions@.take(i as int) =~= positions@);
    out
}

} // verus!
