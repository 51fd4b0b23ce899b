//! The diagram: an ordered set of shapes, drawable into a buffer the caller gives it.
use vstd::prelude::*;

use crate::arrow::{core_endpoint, Arrow};
use crate::box_shape::BoxShape;
use crate::buffer::{spec_stamp_all, Buffer, StampMode};
use crate::cell::Cell;
use crate::geometry::{Direction, Orientation, Pos, Size};
use crate::glyph::Glyph;
use crate::line::Line;
use crate::shape::Shape as Figure;
use crate::stroke::Stroke;

verus! {

/// One endpoint of an arrow held by a diagram: a position, the direction it leaves in, and its
/// head glyph.
pub struct Endpoint {
    /// The endpoint's position. The head occupies this position itself.
    pub at: Pos,
    /// The direction the arrow leaves this endpoint in.
    pub leaving: Direction,
    /// The glyph the head at this endpoint is drawn as.
    pub head: Glyph,
}

impl Endpoint {
    /// The same endpoint, as a value of its own.
    pub fn duplicate(&self) -> (e: Endpoint)
        ensures
            e == *self,
    {
        Endpoint { at: self.at, leaving: self.leaving, head: self.head.duplicate() }
    }
}

impl Endpoint {
    /// The arrow endpoint this endpoint describes, every field carried over.
    pub fn into_core(self) -> (e: crate::arrow::Endpoint)
        ensures
            e == core_endpoint(self),
    {
        crate::arrow::Endpoint { at: self.at, leaving: self.leaving, head: self.head }
    }
}

impl Clone for Endpoint {
    fn clone(&self) -> (e: Self)
        ensures
            e == *self,
    {
        self.duplicate()
    }
}


/// A figure a diagram can hold: one of a closed set of kinds, each carrying every position and
/// parameter the shape it constructs takes.
pub enum Shape {
    /// A box: a position, a size, a stroke and an optional fill.
    Box {
        /// The box's top-left corner.
        at: Pos,
        /// The box's width and height, in cells.
        size: Size,
        /// The stroke every cell this box writes is drawn in.
        stroke: Stroke,
        /// The glyph that fills the interior, or `None` for no fill at all.
        fill: Option<Glyph>,
    },
    /// A line: a position, a length, an orientation and a stroke.
    Line {
        /// The position of the line's first cell.
        at: Pos,
        /// How many cells the line occupies. Any value is accepted, including 0.
        len: u32,
        /// Whether the line runs along a row or a column.
        orientation: Orientation,
        /// The stroke every cell this line writes is drawn in.
        stroke: Stroke,
    },
    /// An arrow: two endpoints and a stroke.
    Arrow {
        /// One endpoint of the arrow.
        from: Endpoint,
        /// The other endpoint of the arrow.
        to: Endpoint,
        /// The stroke the route between the two endpoints is drawn in.
        stroke: Stroke,
    },
}

impl Figure for Shape {
    /// A diagram's shape writes exactly what the shape it describes writes.
    open spec fn spec_writes(&self, stamps: Seq<(Pos, Cell)>) -> bool {
        match self {
            Shape::Box { at, size, stroke, fill } => BoxShape {
                at: *at,
                size: *size,
                stroke: *stroke,
                fill: *fill,
            }.spec_writes(stamps),
            Shape::Line { at, len, orientation, stroke } => Line {
                at: *at,
                len: *len,
                orientation: *orientation,
                stroke: *stroke,
            }.spec_writes(stamps),
            Shape::Arrow { from, to, stroke } => Arrow {
                from: core_endpoint(*from),
                to: core_endpoint(*to),
                stroke: *stroke,
            }.spec_writes(stamps),
        }
    }

    fn stamps(&self) -> (r: Vec<(Pos, Cell)>) {
        match self {
            Shape::Box { at, size, stroke, fill } => {
                let fill_copy = match fill {
                    Some(g) => Some(g.duplicate()),
                    None => None,
                };
                assert(fill_copy == *fill);
                let shape = BoxShape {
                    at: *at,
                    size: *size,
                    stroke: stroke.duplicate(),
                    fill: fill_copy,
                };
                assert(shape == BoxShape { at: *at, size: *size, stroke: *stroke, fill: *fill });
                let r = shape.stamps();
                assert(shape.spec_writes(r@));
                assert(BoxShape { at: *at, size: *size, stroke: *stroke, fill: *fill }.spec_writes(r@));
                assert(self.spec_writes(r@));
                r
            },
            Shape::Line { at, len, orientation, stroke } => {
                let shape = Line {
                    at: *at,
                    len: *len,
                    orientation: *orientation,
                    stroke: stroke.duplicate(),
                };
                shape.stamps()
            },
            Shape::Arrow { from, to, stroke } => {
                let shape = Arrow {
                    from: crate::arrow::Endpoint { at: from.at, leaving: from.leaving, head: from.head.duplicate() },
                    to: crate::arrow::Endpoint { at: to.at, leaving: to.leaving, head: to.head.duplicate() },
                    stroke: stroke.duplicate(),
                };
                shape.stamps()
            },
        }
    }
}

/// Whether `stamps` are, one shape after another and in the order of `shapes`, the writes each
/// shape makes.
pub open spec fn writes_in_order(shapes: Seq<Shape>, stamps: Seq<(Pos, Cell)>) -> bool {
    exists|parts: Seq<Seq<(Pos, Cell)>>|
        {
            &&& parts.len() == shapes.len()
            &&& forall|i: int| 0 <= i < shapes.len() ==> #[trigger] shapes[i].spec_writes(parts[i])
            &&& stamps == parts.flatten()
        }
}

/// A diagram: an ordered set of shapes, and nothing else. The last shape is the front of the
/// order.
pub struct Diagram {
    shapes: Vec<Shape>,
}

impl View for Diagram {
    type V = Seq<Shape>;

    /// The shapes, back to front.
    closed spec fn view(&self) -> Seq<Shape> {
        self.shapes@
    }
}

impl Diagram {
    /// An empty diagram, holding no shapes.
    pub fn new() -> (d: Diagram)
        ensures
            d@ == Seq::<Shape>::empty(),
    {
        Diagram { shapes: Vec::new() }
    }

    /// Puts `shape` at the front of the order, in front of everything already there.
    pub fn add(&mut self, shape: Shape)
        ensures
            final(self)@ == old(self)@.push(shape),
    {
        self.shapes.push(shape);
    }

    /// Moves the shape at `index` one place toward the front, swapping it with the shape in front
    /// of it; the front-most shape, or an index past the end, leaves the order as it is.
    pub fn forward(&mut self, index: usize)
        ensures
            index + 1 < old(self)@.len() ==> final(self)@ == old(self)@.update(
                index as int,
                old(self)@[index + 1],
            ).update(index + 1, old(self)@[index as int]),
            index + 1 >= old(self)@.len() ==> final(self)@ == old(self)@,
    {
        if index < self.shapes.len() && index + 1 < self.shapes.len() {
            let back = self.shapes.remove(index);
            self.shapes.insert(index + 1, back);
            assert(self.shapes@ =~= old(self)@.update(index as int, old(self)@[index + 1]).update(
                index + 1,
                old(self)@[index as int],
            ));
        }
    }

    /// Every stamp drawing this diagram writes, front to back: the front-most shape's first.
    pub fn stamps(&self) -> (r: Vec<(Pos, Cell)>)
        ensures
            writes_in_order(self@.reverse(), r@),
    {
        let n = self.shapes.len();
        let mut out: Vec<(Pos, Cell)> = Vec::new();
        let ghost mut parts: Seq<Seq<(Pos, Cell)>> = Seq::empty();
        let mut i = n;
        while i > 0
            invariant
                n == self.shapes@.len(),
                i <= n,
                parts.len() == n - i,
                forall|j: int|
                    0 <= j < n - i ==> #[trigger] self.shapes@.reverse()[j].spec_writes(parts[j]),
                out@ == parts.flatten(),
            decreases i,
        {
            let part = self.shapes[i - 1].stamps();
            let ghost before = out@;
            let mut j: usize = 0;
            while j < part.len()
                invariant
                    j <= part@.len(),
                    out@ == before + part@.take(j as int),
                decreases part@.len() - j,
            {
                out.push((part[j].0, part[j].1.duplicate()));
                assert(part@.take(j + 1) =~= part@.take(j as int).push(part@[j as int]));
                j += 1;
            }
            proof {
                assert(part@.take(j as int) =~= part@);
                parts.lemma_flatten_push(part@);
                assert(self.shapes@.reverse()[n - i] == self.shapes@[i - 1]);
                parts = parts.push(part@);
            }
            i -= 1;
        }
        proof {
            assert(parts.len() == self@.reverse().len());
        }
        out
    }

    /// Draws every shape into `buffer`, front to back, stamping every cell with
    /// [`StampMode::Below`]. Drawing changes nothing about this diagram.
    pub fn draw(&self, buffer: &mut Buffer)
        ensures
            final(buffer).spec_origin() == old(buffer).spec_origin(),
            final(buffer).spec_size() == old(buffer).spec_size(),
            exists|stamps: Seq<(Pos, Cell)>|
                {
                    &&& writes_in_order(self@.reverse(), stamps)
                    &&& final(buffer)@ == spec_stamp_all(
                        old(buffer)@,
                        old(buffer).spec_origin(),
                        old(buffer).spec_size(),
                        stamps,
                        StampMode::Below,
                    )
                },
    {
        let stamps = self.stamps();
        let ghost all = stamps@;
        buffer.stamp_all(stamps, StampMode::Below);
        assert(writes_in_order(self@.reverse(), all));
    }
}

} // verus!
