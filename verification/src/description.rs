//! A diagram description: a canvas and an ordered list of shapes, as a description file states
//! them, and the diagram and buffer they describe.
use vstd::prelude::*;

use crate::buffer::Buffer;
use crate::diagram::{Diagram, Endpoint, Shape};
use crate::geometry::{Orientation, Pos, Size};
use crate::glyph::Glyph;
use crate::stroke::Stroke;

verus! {

/// The window a diagram is drawn on and rendered from.
pub struct Canvas {
    /// The window's top-left position.
    pub origin: Pos,
    /// The window's width and height, in cells.
    pub size: Size,
}

/// One entry of a description's shapes, by kind.
pub enum ShapeDescription {
    /// A box: a position, a size, a stroke's name and an optional fill.
    Box { at: Pos, size: Size, stroke: String, fill: Option<Glyph> },
    /// A line: a position, a length, an orientation and a stroke's name.
    Line { at: Pos, len: u32, orientation: Orientation, stroke: String },
    /// An arrow: two endpoints and a stroke's name.
    Arrow { from: Endpoint, to: Endpoint, stroke: String },
}

/// The diagram shape a description entry describes, every parameter carried over.
pub open spec fn spec_shape(d: ShapeDescription) -> Shape {
    match d {
        ShapeDescription::Box { at, size, stroke, fill } => Shape::Box {
            at,
            size,
            stroke: Stroke(stroke),
            fill,
        },
        ShapeDescription::Line { at, len, orientation, stroke } => Shape::Line {
            at,
            len,
            orientation,
            stroke: Stroke(stroke),
        },
        ShapeDescription::Arrow { from, to, stroke } => Shape::Arrow {
            from,
            to,
            stroke: Stroke(stroke),
        },
    }
}

impl ShapeDescription {
    /// Converts this entry into the diagram shape it describes, dropping no parameter.
    pub fn into_shape(self) -> (s: Shape)
        ensures
            s == spec_shape(self),
    {
        match self {
            ShapeDescription::Box { at, size, stroke, fill } => Shape::Box {
                at,
                size,
                stroke: Stroke(stroke),
                fill,
            },
            ShapeDescription::Line { at, len, orientation, stroke } => Shape::Line {
                at,
                len,
                orientation,
                stroke: Stroke(stroke),
            },
            ShapeDescription::Arrow { from, to, stroke } => Shape::Arrow {
                from,
                to,
                stroke: Stroke(stroke),
            },
        }
    }
}

/// The whole of one description: a canvas and an ordered list of shapes.
pub struct Description {
    /// The window the diagram is drawn on and rendered from.
    pub canvas: Canvas,
    /// The shapes, back to front.
    pub shapes: Vec<ShapeDescription>,
}

/// The diagram shapes a list of description entries describes, in order.
pub open spec fn spec_shapes(ds: Seq<ShapeDescription>) -> Seq<Shape> {
    ds.map_values(|d: ShapeDescription| spec_shape(d))
}

impl Description {
    /// The canvas's origin and size.
    pub fn window(&self) -> (w: (Pos, Size))
        ensures
            w == (self.canvas.origin, self.canvas.size),
    {
        (self.canvas.origin, self.canvas.size)
    }

    /// A buffer the size of the canvas, with no positions defined yet.
    pub fn buffer(&self) -> (b: Buffer)
        ensures
            b@ == Map::<Pos, crate::cell::Cell>::empty(),
            b.spec_origin() == self.canvas.origin,
            b.spec_size() == self.canvas.size,
    {
        let (origin, size) = self.window();
        Buffer::new(origin, size)
    }

    /// Builds a diagram from the shapes, in order.
    pub fn into_diagram(self) -> (d: Diagram)
        ensures
            d@ == spec_shapes(self.shapes@),
    {
        let mut diagram = Diagram::new();
        let ghost all = self.shapes@;
        let mut shapes = self.shapes;
        let mut rest: Vec<ShapeDescription> = Vec::new();
        while shapes.len() > 0
            invariant
                all == shapes@ + rest@.reverse(),
            decreases shapes@.len(),
        {
            let ghost before_shapes = shapes@;
            let ghost before_rest = rest@;
            let last = shapes.pop().unwrap();
            rest.push(last);
            proof {
                assert(rest@.reverse() =~= seq![last] + before_rest.reverse());
                assert(before_shapes =~= shapes@ + seq![last]);
                assert(shapes@ + rest@.reverse() =~= all);
            }
        }
        assert(rest@.reverse() =~= all);
        while rest.len() > 0
            invariant
                diagram@ + spec_shapes(rest@.reverse()) == spec_shapes(all),
            decreases rest@.len(),
        {
            let ghost before = rest@;
            let next = rest.pop().unwrap();
            diagram.add(next.into_shape());
            proof {
                assert(before.reverse() =~= seq![next] + rest@.reverse());
                assert(spec_shapes(before.reverse()) =~= seq![spec_shape(next)] + spec_shapes(
                    rest@.reverse(),
                ));
                assert(diagram@ + spec_shapes(rest@.reverse()) =~= spec_shapes(all));
            }
        }
        assert(spec_shapes(rest@.reverse()) =~= Seq::<Shape>::empty());
        assert(diagram@ =~= spec_shapes(all));
        diagram
    }
}

} // verus!
