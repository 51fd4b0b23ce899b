//! The buffer: a window of cells, and what stamping a cell into it does.
use std::collections::HashMap;

use vstd::prelude::*;

use crate::cell::{merge, spec_merge, Cell};
use crate::geometry::{Pos, Size};

verus! {

broadcast use vstd::std_specs::hash::group_hash_axioms;

/// Which side of an already-defined cell decides when a stamp lands on it.
#[derive(Debug, Clone, Copy, PartialEq, Eq, Structural)]
pub enum StampMode {
    /// The stamp lands on top: its base stroke and every arm it decides win, and an arm it
    /// leaves `Unset` keeps whatever the target already had.
    Above,
    /// The stamp lands underneath: the target keeps its base stroke and every side it has
    /// decided, and only the sides it left `Unset` are taken from the stamp.
    Below,
}

/// Whether `p` falls inside the window `origin`/`size`: its offset from the origin, taken as a
/// plain integer, lies within the window's width and height.
pub open spec fn in_window(origin: Pos, size: Size, p: Pos) -> bool {
    &&& 0 <= p.x - origin.x < size.width
    &&& 0 <= p.y - origin.y < size.height
}

/// The cells of a buffer after `cell` is stamped at `at` under `mode`: nothing changes outside
/// the window; an undefined position takes `cell` entirely; a defined one takes the merge of
/// the two, with the stamp on top under `Above` and underneath under `Below`.
pub open spec fn spec_stamp(
    cells: Map<Pos, Cell>,
    origin: Pos,
    size: Size,
    at: Pos,
    cell: Cell,
    mode: StampMode,
) -> Map<Pos, Cell> {
    if !in_window(origin, size, at) {
        cells
    } else if !cells.contains_key(at) {
        cells.insert(at, cell)
    } else {
        match mode {
            StampMode::Above => cells.insert(at, spec_merge(cell, cells[at])),
            StampMode::Below => cells.insert(at, spec_merge(cells[at], cell)),
        }
    }
}

/// The cells of a buffer after every stamp of `stamps` lands, in order, under `mode`.
pub open spec fn spec_stamp_all(
    cells: Map<Pos, Cell>,
    origin: Pos,
    size: Size,
    stamps: Seq<(Pos, Cell)>,
    mode: StampMode,
) -> Map<Pos, Cell>
    decreases stamps.len(),
{
    if stamps.len() == 0 {
        cells
    } else {
        spec_stamp(
            spec_stamp_all(cells, origin, size, stamps.drop_last(), mode),
            origin,
            size,
            stamps.last().0,
            stamps.last().1,
            mode,
        )
    }
}

/// The key a position is stored under: both coordinates shifted to be non-negative, the `x` in
/// the high half and the `y` in the low half.
pub open spec fn pos_key(p: Pos) -> u64 {
    ((p.x + 0x8000_0000) * 0x1_0000_0000 + (p.y + 0x8000_0000)) as u64
}

proof fn lemma_pos_key(p: Pos, q: Pos)
    ensures
        pos_key(p) == (p.x + 0x8000_0000) * 0x1_0000_0000 + (p.y + 0x8000_0000),
        pos_key(p) == pos_key(q) ==> p == q,
{
    let a = p.x + 0x8000_0000;
    let b = p.y + 0x8000_0000;
    let c = q.x + 0x8000_0000;
    let d = q.y + 0x8000_0000;
    assert(0 <= a * 0x1_0000_0000 + b <= u64::MAX) by (nonlinear_arith)
        requires
            0 <= a < 0x1_0000_0000,
            0 <= b < 0x1_0000_0000,
    ;
    assert(0 <= c * 0x1_0000_0000 + d <= u64::MAX) by (nonlinear_arith)
        requires
            0 <= c < 0x1_0000_0000,
            0 <= d < 0x1_0000_0000,
    ;
    assert(a * 0x1_0000_0000 + b == c * 0x1_0000_0000 + d ==> a == c && b == d) by (
    nonlinear_arith)
        requires
            0 <= a < 0x1_0000_0000,
            0 <= b < 0x1_0000_0000,
            0 <= c < 0x1_0000_0000,
            0 <= d < 0x1_0000_0000,
    ;
}

fn key_of(at: Pos) -> (k: u64)
    ensures
        k == pos_key(at),
{
    proof {
        lemma_pos_key(at, at);
    }
    let kx = (at.x as i64 + 0x8000_0000) as u64;
    let ky = (at.y as i64 + 0x8000_0000) as u64;
    assert(kx * 0x1_0000_0000 + ky <= u64::MAX) by (nonlinear_arith)
        requires
            kx < 0x1_0000_0000,
            ky < 0x1_0000_0000,
    ;
    kx * 0x1_0000_0000 + ky
}

/// A window of cells, with an origin and a size.
///
/// Every position in a freshly created buffer is undefined: it holds no cell until
/// [`Buffer::stamp`] is called for it. There is no erase.
pub struct Buffer {
    origin: Pos,
    size: Size,
    cells: HashMap<u64, Cell>,
}

impl View for Buffer {
    type V = Map<Pos, Cell>;

    /// The cell at every defined position.
    closed spec fn view(&self) -> Map<Pos, Cell> {
        Map::new(
            |p: Pos| self.cells@.contains_key(pos_key(p)),
            |p: Pos| self.cells@[pos_key(p)],
        )
    }
}

impl Buffer {
    #[verifier::type_invariant]
    spec fn inv(self) -> bool {
        forall|p: Pos|
            #[trigger] self.cells@.contains_key(pos_key(p)) ==> in_window(
                self.origin,
                self.size,
                p,
            )
    }

    /// The buffer's origin.
    pub closed spec fn spec_origin(&self) -> Pos {
        self.origin
    }

    /// The buffer's size.
    pub closed spec fn spec_size(&self) -> Size {
        self.size
    }

    /// Creates a buffer with no positions defined. A width or height of zero gives a buffer with
    /// no positions; construction cannot fail.
    pub fn new(origin: Pos, size: Size) -> (b: Buffer)
        ensures
            b@ == Map::<Pos, Cell>::empty(),
            b.spec_origin() == origin,
            b.spec_size() == size,
    {
        let b = Buffer { origin, size, cells: HashMap::new() };
        assert(b@ =~= Map::<Pos, Cell>::empty());
        b
    }

    /// The buffer's origin.
    pub fn origin(&self) -> (o: Pos)
        ensures
            o == self.spec_origin(),
    {
        self.origin
    }

    /// The buffer's size.
    pub fn size(&self) -> (s: Size)
        ensures
            s == self.spec_size(),
    {
        self.size
    }

    /// Whether `at` falls inside this buffer's window.
    pub fn contains(&self, at: Pos) -> (b: bool)
        ensures
            b == in_window(self.spec_origin(), self.spec_size(), at),
    {
        let dx = at.x as i64 - self.origin.x as i64;
        let dy = at.y as i64 - self.origin.y as i64;
        0 <= dx && dx < self.size.width as i64 && 0 <= dy && dy < self.size.height as i64
    }

    /// Returns the cell at an absolute position, or `None` if it is undefined. A position
    /// outside the window is never defined.
    pub fn cell(&self, at: Pos) -> (r: Option<&Cell>)
        ensures
            r is Some <==> self@.contains_key(at),
            r matches Some(c) ==> *c == self@[at],
            r is Some ==> in_window(self.spec_origin(), self.spec_size(), at),
    {
        proof {
            use_type_invariant(self);
        }
        let k = key_of(at);
        self.cells.get(&k)
    }

    /// Writes `cell` at the absolute position `at`, under `mode`, as [`spec_stamp`] says.
    pub fn stamp(&mut self, at: Pos, cell: Cell, mode: StampMode)
        ensures
            final(self)@ == spec_stamp(
                old(self)@,
                old(self).spec_origin(),
                old(self).spec_size(),
                at,
                cell,
                mode,
            ),
            final(self).spec_origin() == old(self).spec_origin(),
            final(self).spec_size() == old(self).spec_size(),
    {
        proof {
            use_type_invariant(&*self);
        }
        if !self.contains(at) {
            return;
        }
        let k = key_of(at);
        let merged = match self.cells.get(&k) {
            None => cell,
            Some(target) => match mode {
                StampMode::Above => merge(cell, target),
                StampMode::Below => merge(target.duplicate(), &cell),
            },
        };
        let ghost before = self@;
        let mut cells = HashMap::new();
        std::mem::swap(&mut cells, &mut self.cells);
        cells.insert(k, merged);
        std::mem::swap(&mut cells, &mut self.cells);
        proof {
            assert forall|p: Pos| #[trigger] self.cells@.contains_key(pos_key(p)) implies in_window(
                self.origin,
                self.size,
                p,
            ) by {
                lemma_pos_key(p, at);
                if pos_key(p) != k {
                    assert(old(self).cells@.contains_key(pos_key(p)));
                }
            }
            assert forall|p: Pos| #[trigger] self@.contains_key(p) == before.insert(
                at,
                merged,
            ).contains_key(p) by {
                lemma_pos_key(p, at);
            }
            assert forall|p: Pos| self@.contains_key(p) implies #[trigger] self@[p] == before.insert(
                at,
                merged,
            )[p] by {
                lemma_pos_key(p, at);
            }
            assert(self@ =~= before.insert(at, merged));
        }
    }

    /// Writes every stamp of `stamps`, in order, under `mode`.
    pub fn stamp_all(&mut self, stamps: Vec<(Pos, Cell)>, mode: StampMode)
        ensures
            final(self)@ == spec_stamp_all(
                old(self)@,
                old(self).spec_origin(),
                old(self).spec_size(),
                stamps@,
                mode,
            ),
            final(self).spec_origin() == old(self).spec_origin(),
            final(self).spec_size() == old(self).spec_size(),
    {
        let ghost all = stamps@;
        let mut i: usize = 0;
        while i < stamps.len()
            invariant
                i <= stamps.len(),
                all == stamps@,
                self@ == spec_stamp_all(
                    old(self)@,
                    old(self).spec_origin(),
                    old(self).spec_size(),
                    all.take(i as int),
                    mode,
                ),
                self.spec_origin() == old(self).spec_origin(),
                self.spec_size() == old(self).spec_size(),
            decreases stamps.len() - i,
        {
            let at = stamps[i].0;
            let cell = stamps[i].1.duplicate();
            proof {
                assert(all.take(i + 1).drop_last() =~= all.take(i as int));
                assert(all.take(i + 1).last() == all[i as int]);
            }
            self.stamp(at, cell, mode);
            i += 1;
        }
        assert(all.take(i as int) =~= all);
    }
}

/// One stamp underneath and one on top commute: stamping `below` under `Below` and then `above`
/// under `Above` leaves the same cells as the two in the other order.
proof fn lemma_below_above_commute(
    cells: Map<Pos, Cell>,
    origin: Pos,
    size: Size,
    above: (Pos, Cell),
    below: (Pos, Cell),
)
    ensures
        spec_stamp(
            spec_stamp(cells, origin, size, above.0, above.1, StampMode::Above),
            origin,
            size,
            below.0,
            below.1,
            StampMode::Below,
        ) == spec_stamp(
            spec_stamp(cells, origin, size, below.0, below.1, StampMode::Below),
            origin,
            size,
            above.0,
            above.1,
            StampMode::Above,
        ),
{
    let l = spec_stamp(
        spec_stamp(cells, origin, size, above.0, above.1, StampMode::Above),
        origin,
        size,
        below.0,
        below.1,
        StampMode::Below,
    );
    let r = spec_stamp(
        spec_stamp(cells, origin, size, below.0, below.1, StampMode::Below),
        origin,
        size,
        above.0,
        above.1,
        StampMode::Above,
    );
    if above.0 == below.0 && cells.contains_key(above.0) {
        crate::cell::law_merge_associative(above.1, cells[above.0], below.1);
    }
    assert(l =~= r);
}

/// A stamp underneath commutes with any run of stamps on top.
proof fn lemma_below_commutes_with_above_run(
    cells: Map<Pos, Cell>,
    origin: Pos,
    size: Size,
    run: Seq<(Pos, Cell)>,
    below: (Pos, Cell),
)
    ensures
        spec_stamp(
            spec_stamp_all(cells, origin, size, run, StampMode::Above),
            origin,
            size,
            below.0,
            below.1,
            StampMode::Below,
        ) == spec_stamp_all(
            spec_stamp(cells, origin, size, below.0, below.1, StampMode::Below),
            origin,
            size,
            run,
            StampMode::Above,
        ),
    decreases run.len(),
{
    if run.len() > 0 {
        lemma_below_commutes_with_above_run(cells, origin, size, run.drop_last(), below);
        lemma_below_above_commute(
            spec_stamp_all(cells, origin, size, run.drop_last(), StampMode::Above),
            origin,
            size,
            run.last(),
            below,
        );
    }
}

/// Stamping `first` and then `then` is stamping `first + then`.
proof fn lemma_stamp_all_concat(
    cells: Map<Pos, Cell>,
    origin: Pos,
    size: Size,
    first: Seq<(Pos, Cell)>,
    then: Seq<(Pos, Cell)>,
    mode: StampMode,
)
    ensures
        spec_stamp_all(cells, origin, size, first + then, mode) == spec_stamp_all(
            spec_stamp_all(cells, origin, size, first, mode),
            origin,
            size,
            then,
            mode,
        ),
    decreases then.len(),
{
    if then.len() == 0 {
        assert(first + then =~= first);
    } else {
        assert((first + then).drop_last() =~= first + then.drop_last());
        lemma_stamp_all_concat(cells, origin, size, first, then.drop_last(), mode);
    }
}

/// The two orders agree: stamping figures front to back with `Below` into an empty window
/// leaves the same cells as stamping them back to front with `Above`.
pub proof fn law_front_to_back_below_is_back_to_front_above(
    origin: Pos,
    size: Size,
    stamps: Seq<(Pos, Cell)>,
)
    ensures
        spec_stamp_all(Map::empty(), origin, size, stamps, StampMode::Below) == spec_stamp_all(
            Map::empty(),
            origin,
            size,
            stamps.reverse(),
            StampMode::Above,
        ),
    decreases stamps.len(),
{
    let e = Map::<Pos, Cell>::empty();
    if stamps.len() == 0 {
        assert(stamps.reverse() =~= stamps);
    } else {
        let front = stamps.drop_last();
        let x = stamps.last();
        law_front_to_back_below_is_back_to_front_above(origin, size, front);
        assert(stamps.reverse() =~= seq![x] + front.reverse());
        lemma_stamp_all_concat(e, origin, size, seq![x], front.reverse(), StampMode::Above);
        lemma_below_commutes_with_above_run(e, origin, size, front.reverse(), x);
        assert(seq![x].drop_last() =~= Seq::<(Pos, Cell)>::empty());
        assert(seq![x].last() == x);
        assert(spec_stamp_all(e, origin, size, seq![x].drop_last(), StampMode::Above) == e);
        let one = spec_stamp_all(e, origin, size, seq![x], StampMode::Above);
        assert(one == spec_stamp(e, origin, size, x.0, x.1, StampMode::Above));
        assert(spec_stamp(e, origin, size, x.0, x.1, StampMode::Below) == one);
    }
}


} // verus!
