//! What a shape draws into, and what a shape is.
use vstd::prelude::*;

use crate::buffer::{spec_stamp, spec_stamp_all, Buffer, StampMode};
use crate::cell::Cell;
use crate::geometry::Pos;

verus! {

/// One write operation and no reader: what a shape draws into.
pub trait Surface: Sized {
    /// Whether `next` is what this surface becomes once `cell` is written at `at`. A surface that
    /// says nothing of itself admits any `next`.
    open spec fn spec_stamped(&self, at: Pos, cell: Cell, next: Self) -> bool {
        true
    }

    /// Writes `cell` at the absolute position `at`.
    fn stamp(&mut self, at: Pos, cell: Cell)
        ensures
            old(self).spec_stamped(at, cell, *final(self)),
    ;
}

/// Whether `trail` is the surfaces one after another write of `stamps` passes through: it starts
/// before the first write, and each surface is what the one before it becomes once the next stamp
/// is written.
pub open spec fn stamped_through<S: Surface>(trail: Seq<S>, stamps: Seq<(Pos, Cell)>) -> bool {
    &&& trail.len() == stamps.len() + 1
    &&& forall|i: int|
        0 <= i < stamps.len() ==> #[trigger] trail[i].spec_stamped(stamps[i].0, stamps[i].1, trail[i + 1])
}

/// A buffer and a stamp mode, bound together at construction. No shape ever names a
/// [`StampMode`] itself: the caller's choice is taken here, once.
pub struct Layer<'a> {
    buffer: &'a mut Buffer,
    mode: StampMode,
}

impl<'a> Layer<'a> {
    /// Binds `buffer` to `mode` for every stamp drawn through this layer.
    pub fn new(buffer: &'a mut Buffer, mode: StampMode) -> (l: Layer<'a>)
        ensures
            l.spec_mode() == mode,
            *l.spec_buffer() == *old(buffer),
            *final(buffer) == *final(l.spec_borrow()),
    {
        Layer { buffer, mode }
    }

    /// The borrow of the caller's buffer this layer writes through: once the layer is done, the
    /// caller's buffer is what this borrow finally holds.
    pub closed spec fn spec_borrow(&self) -> &'a mut Buffer {
        self.buffer
    }

    /// Once a layer is done with, the caller's buffer is what the layer's own buffer then holds:
    /// the borrow it writes through finally holds its current buffer.
    pub proof fn lemma_layer_done(l: Layer<'a>)
        requires
            has_resolved(l),
        ensures
            *final(l.spec_borrow()) == *l.spec_buffer(),
    {
    }

    /// The mode every stamp through this layer is written in.
    pub closed spec fn spec_mode(&self) -> StampMode {
        self.mode
    }

    /// The buffer this layer writes into, as it stands now.
    pub open spec fn spec_buffer(&self) -> &Buffer {
        &*self.spec_borrow()
    }
}

impl<'a> Surface for Layer<'a> {
    /// The buffer takes the stamp under this layer's mode; the mode, and the buffer's window, stay.
    open spec fn spec_stamped(&self, at: Pos, cell: Cell, next: Self) -> bool {
        &&& next.spec_mode() == self.spec_mode()
        &&& next.spec_buffer().spec_origin() == self.spec_buffer().spec_origin()
        &&& next.spec_buffer().spec_size() == self.spec_buffer().spec_size()
        &&& next.spec_buffer()@ == spec_stamp(
            self.spec_buffer()@,
            self.spec_buffer().spec_origin(),
            self.spec_buffer().spec_size(),
            at,
            cell,
            self.spec_mode(),
        )
    }

    fn stamp(&mut self, at: Pos, cell: Cell)
        ensures
            final(self).spec_mode() == old(self).spec_mode(),
            *final(final(self).spec_borrow()) == *final(old(self).spec_borrow()),
            final(self).spec_buffer()@ == spec_stamp(
                old(self).spec_buffer()@,
                old(self).spec_buffer().spec_origin(),
                old(self).spec_buffer().spec_size(),
                at,
                cell,
                old(self).spec_mode(),
            ),
    {
        self.buffer.stamp(at, cell, self.mode);
    }
}

/// A value describing a figure. It draws, and answers nothing else about itself: drawing is
/// writing its stamps, in order.
pub trait Shape {
    /// Whether `stamps` are the writes this shape makes, in the order it makes them.
    spec fn spec_writes(&self, stamps: Seq<(Pos, Cell)>) -> bool;

    /// The stamps this shape writes, in the order it writes them.
    fn stamps(&self) -> (r: Vec<(Pos, Cell)>)
        ensures
            self.spec_writes(r@),
    ;

    /// Draws this shape's cells into `surface`, one stamp after another: the surface passes
    /// through one write of each of the shape's stamps, in order.
    fn draw<S: Surface>(&self, surface: &mut S)
        ensures
            exists|stamps: Seq<(Pos, Cell)>, trail: Seq<S>|
                #![trigger self.spec_writes(stamps), stamped_through(trail, stamps)]
                {
                    &&& self.spec_writes(stamps)
                    &&& stamped_through(trail, stamps)
                    &&& trail[0] == *old(surface)
                    &&& trail[trail.len() - 1] == *final(surface)
                },
    {
        let stamps = self.stamps();
        let ghost all = stamps@;
        let ghost mut trail: Seq<S> = seq![*surface];
        let mut i: usize = 0;
        while i < stamps.len()
            invariant
                i <= stamps@.len(),
                all == stamps@,
                trail.len() == i + 1,
                trail[0] == *old(surface),
                trail[trail.len() - 1] == *surface,
                forall|j: int|
                    0 <= j < i ==> #[trigger] trail[j].spec_stamped(all[j].0, all[j].1, trail[j + 1]),
            decreases stamps.len() - i,
        {
            let ghost before = trail;
            let cell = stamps[i].1.duplicate();
            surface.stamp(stamps[i].0, cell);
            proof {
                trail = trail.push(*surface);
                assert forall|j: int| 0 <= j < i + 1 implies #[trigger] trail[j].spec_stamped(
                    all[j].0,
                    all[j].1,
                    trail[j + 1],
                ) by {
                    if j < i {
                        assert(trail[j] == before[j] && trail[j + 1] == before[j + 1]);
                    }
                }
            }
            i += 1;
        }
        assert(stamped_through(trail, all));
    }

    /// Draws this shape's cells straight into `buffer` under `mode`: the buffer takes every one
    /// of the shape's stamps, in order, exactly as `Buffer::stamp` would, and keeps its window.
    fn draw_into(&self, buffer: &mut Buffer, mode: StampMode)
        ensures
            final(buffer).spec_origin() == old(buffer).spec_origin(),
            final(buffer).spec_size() == old(buffer).spec_size(),
            exists|stamps: Seq<(Pos, Cell)>|
                {
                    &&& #[trigger] self.spec_writes(stamps)
                    &&& final(buffer)@ == spec_stamp_all(
                        old(buffer)@,
                        old(buffer).spec_origin(),
                        old(buffer).spec_size(),
                        stamps,
                        mode,
                    )
                },
    {
        let stamps = self.stamps();
        let ghost all = stamps@;
        buffer.stamp_all(stamps, mode);
        assert(self.spec_writes(all));
    }
}


/// Drawing onto a layer is stamping each cell into its buffer, in order, under the layer's mode:
/// whatever trail of layers a run of stamps passes through, the last one's buffer holds what
/// stamping them all into the first one's gives, and the mode and the window stay.
pub proof fn law_drawing_on_a_layer_stamps_every_cell<'a>(
    trail: Seq<Layer<'a>>,
    stamps: Seq<(Pos, Cell)>,
)
    requires
        stamped_through(trail, stamps),
    ensures
        trail[trail.len() - 1].spec_mode() == trail[0].spec_mode(),
        trail[trail.len() - 1].spec_buffer().spec_origin() == trail[0].spec_buffer().spec_origin(),
        trail[trail.len() - 1].spec_buffer().spec_size() == trail[0].spec_buffer().spec_size(),
        trail[trail.len() - 1].spec_buffer()@ == spec_stamp_all(
            trail[0].spec_buffer()@,
            trail[0].spec_buffer().spec_origin(),
            trail[0].spec_buffer().spec_size(),
            stamps,
            trail[0].spec_mode(),
        ),
    decreases stamps.len(),
{
    if stamps.len() > 0 {
        let n = stamps.len() - 1;
        let shorter = trail.take(trail.len() - 1);
        assert forall|i: int| 0 <= i < stamps.drop_last().len() implies #[trigger] shorter[i].spec_stamped(
            stamps.drop_last()[i].0,
            stamps.drop_last()[i].1,
            shorter[i + 1],
        ) by {
            assert(trail[i].spec_stamped(stamps[i].0, stamps[i].1, trail[i + 1]));
        }
        law_drawing_on_a_layer_stamps_every_cell(shorter, stamps.drop_last());
        assert(trail[n].spec_stamped(stamps[n].0, stamps[n].1, trail[n + 1]));
    }
}


} // verus!
