//! The search an arrow's route comes from: a single-source shortest-path search over the states
//! of a lattice, ranked by [`Cost`].
use vstd::prelude::*;

use crate::geometry::{
    direction_orientation, opposite, spec_direction_orientation, spec_opposite, Direction,
    Orientation, Pos,
};
use crate::lattice::{
    cost_le, cost_less, cost_lt, direction_at, lattice_axis_ok, run_cost, spec_direction_at,
    spec_lattice_pos, spec_lattice_step, spec_run_cost, Cost, Lattice,
};

verus! {

/// A state of the search: a lattice node (column, row) and the index of the heading of the run
/// reaching it.
pub type State = (usize, usize, usize);

/// Whether `st` is a state of a lattice of `nx` columns and `ny` rows.
pub open spec fn state_ok(nx: nat, ny: nat, st: State) -> bool {
    st.0 < nx && st.1 < ny && st.2 < 4
}

/// The index `st` is stored at.
pub open spec fn enc(ny: nat, st: State) -> int {
    (st.0 * ny + st.1) * 4 + st.2
}

/// Whether `states` lists every state of the lattice, each at the index it is stored at.
pub open spec fn states_ok(nx: nat, ny: nat, states: Seq<State>) -> bool {
    &&& states.len() == nx * ny * 4
    &&& forall|k: int|
        0 <= k < states.len() ==> state_ok(nx, ny, #[trigger] states[k]) && enc(ny, states[k])
            == k
}

pub(crate) proof fn lemma_enc(nx: nat, ny: nat, st: State, other: State)
    requires
        state_ok(nx, ny, st),
        state_ok(nx, ny, other),
    ensures
        0 <= enc(ny, st) < nx * ny * 4,
        enc(ny, st) == enc(ny, other) ==> st == other,
{
    let (a, b, c) = st;
    let (d, e, f) = other;
    assert(0 <= (a * ny + b) * 4 + c < nx * ny * 4) by (nonlinear_arith)
        requires
            a < nx,
            b < ny,
            c < 4,
    ;
    assert((a * ny + b) * 4 + c == (d * ny + e) * 4 + f ==> a == d && b == e && c == f) by (
    nonlinear_arith)
        requires
            a < nx,
            b < ny,
            c < 4,
            d < nx,
            e < ny,
            f < 4,
    ;
}

/// Every state of a lattice of `nx` columns and `ny` rows, in the order they are stored in.
fn all_states(nx: usize, ny: usize) -> (v: Vec<State>)
    requires
        1 <= nx <= 7,
        1 <= ny <= 7,
    ensures
        states_ok(nx as nat, ny as nat, v@),
{
    let mut v: Vec<State> = Vec::new();
    let mut ix: usize = 0;
    while ix < nx
        invariant
            1 <= nx <= 7,
            1 <= ny <= 7,
            ix <= nx,
            v@.len() == ix * ny * 4,
            forall|k: int|
                0 <= k < v@.len() ==> state_ok(nx as nat, ny as nat, #[trigger] v@[k]) && enc(
                    ny as nat,
                    v@[k],
                ) == k,
        decreases nx - ix,
    {
        let mut iy: usize = 0;
        while iy < ny
            invariant
                1 <= nx <= 7,
                1 <= ny <= 7,
                ix < nx,
                iy <= ny,
                v@.len() == (ix * ny + iy) * 4,
                forall|k: int|
                    0 <= k < v@.len() ==> state_ok(nx as nat, ny as nat, #[trigger] v@[k]) && enc(
                        ny as nat,
                        v@[k],
                    ) == k,
            decreases ny - iy,
        {
            let mut h: usize = 0;
            while h < 4
                invariant
                    1 <= nx <= 7,
                    1 <= ny <= 7,
                    ix < nx,
                    iy < ny,
                    h <= 4,
                    v@.len() == (ix * ny + iy) * 4 + h,
                    forall|k: int|
                        0 <= k < v@.len() ==> state_ok(nx as nat, ny as nat, #[trigger] v@[k])
                            && enc(ny as nat, v@[k]) == k,
                decreases 4 - h,
            {
                v.push((ix, iy, h));
                h += 1;
            }
            iy += 1;
        }
        assert((ix * ny + ny) * 4 == (ix + 1) * ny * 4) by (nonlinear_arith);
        ix += 1;
    }
    v
}

/// The index `st` is stored at, in a lattice of `nx` columns and `ny` rows.
pub(crate) fn index_of_state(nx: usize, ny: usize, st: State, states: Ghost<Seq<State>>) -> (k: usize)
    requires
        1 <= nx <= 7,
        1 <= ny <= 7,
        state_ok(nx as nat, ny as nat, st),
        states_ok(nx as nat, ny as nat, states@),
    ensures
        k == enc(ny as nat, st),
        k < states@.len(),
        states@[k as int] == st,
{
    proof {
        lemma_enc(nx as nat, ny as nat, st, st);
        let k = enc(ny as nat, st);
        let other = states@[k];
        lemma_enc(nx as nat, ny as nat, st, other);
    }
    assert((st.0 * ny + st.1) * 4 + st.2 < 196) by (nonlinear_arith)
        requires
            st.0 < nx <= 7,
            st.1 < ny <= 7,
            st.2 < 4,
    ;
    (st.0 * ny + st.1) * 4 + st.2
}

/// The zero cost.
pub open spec fn zero_cost() -> Cost {
    Cost { bends: 0, length: 0, from_middle: 0, hand: 0 }
}

/// Whether every component of `c` is at most `bound`.
pub open spec fn cost_within(c: Cost, bound: int) -> bool {
    c.bends <= bound && c.length <= bound && c.from_middle <= bound && c.hand <= bound
}

/// The position of the node of state `st`.
pub open spec fn state_pos(xs: Seq<i32>, ys: Seq<i32>, st: State) -> Pos {
    spec_lattice_pos(xs, ys, (st.0, st.1))
}

/// Whether `p` is one of the two positions a route may not cross.
pub open spec fn forbidden(a: Pos, b: Pos, p: Pos) -> bool {
    p == a || p == b
}

/// The headroom one relaxation adds to any component of a cost.
pub open spec fn step_bound() -> int {
    0x2_0000_0000
}

/// A rank: a cost as four unbounded integers, bends, length, distance from the middle and
/// handedness, compared in that order.
pub type Rank = (int, int, int, int);

/// The rank of `c`.
pub open spec fn rank_of(c: Cost) -> Rank {
    (c.bends as int, c.length as int, c.from_middle as int, c.hand as int)
}

/// The rank nothing has been charged to.
pub open spec fn zero_rank() -> Rank {
    (0, 0, 0, 0)
}

/// Whether `a` ranks strictly before `b`.
pub open spec fn rank_lt(a: Rank, b: Rank) -> bool {
    a.0 < b.0 || (a.0 == b.0 && (a.1 < b.1 || (a.1 == b.1 && (a.2 < b.2 || (a.2 == b.2 && a.3
        < b.3)))))
}

/// Whether `a` ranks no later than `b`.
pub open spec fn rank_le(a: Rank, b: Rank) -> bool {
    rank_lt(a, b) || a == b
}

/// What turning at `pos` off a run along `heading` charges a route that has turned before: the
/// run's distance from the middle, and whether it lies against the arrow's own travel.
pub open spec fn turn_charge(r: Rank, heading: Direction, pos: Pos, mid: Pos, da: Direction) -> (
    int,
    int,
) {
    if r.0 > 0 {
        let rc = spec_run_cost(spec_direction_orientation(heading), pos, mid, da);
        (rc.0 as int, rc.1 as int)
    } else {
        (0, 0)
    }
}

/// One run from the state `st`, reached at rank `r`, to the next lattice line along the
/// direction at `h`: the state it reaches and the rank it reaches it at. `None` where the run
/// reverses the heading, leaves the lattice or enters `a` or `b`. A run that turns adds a bend,
/// and, where the route has turned before, the charge of the run it closes; every run adds its
/// length.
#[verifier::opaque]
pub open spec fn spec_step(
    xs: Seq<i32>,
    ys: Seq<i32>,
    st: State,
    r: Rank,
    h: int,
    a: Pos,
    b: Pos,
    mid: Pos,
    da: Direction,
) -> Option<(State, Rank)> {
    let heading = spec_direction_at(st.2 as int);
    let dir = spec_direction_at(h);
    if !(0 <= h < 4) || dir == spec_opposite(heading) {
        None
    } else {
        match spec_lattice_step(xs.len(), ys.len(), (st.0, st.1), dir) {
            None => None,
            Some(nb) => {
                let pos = spec_lattice_pos(xs, ys, (st.0, st.1));
                let npos = spec_lattice_pos(xs, ys, nb);
                if forbidden(a, b, npos) {
                    None
                } else {
                    let delta: int = match spec_direction_orientation(dir) {
                        Orientation::Horizontal => if npos.x >= pos.x {
                            npos.x - pos.x
                        } else {
                            pos.x - npos.x
                        },
                        Orientation::Vertical => if npos.y >= pos.y {
                            npos.y - pos.y
                        } else {
                            pos.y - npos.y
                        },
                    };
                    if dir != heading {
                        let c = turn_charge(r, heading, pos, mid, da);
                        Some(((nb.0, nb.1, h as usize), (r.0 + 1, r.1 + delta, r.2 + c.0, r.3 + c.1)))
                    } else {
                        Some(((nb.0, nb.1, h as usize), (r.0, r.1 + delta, r.2, r.3)))
                    }
                }
            },
        }
    }
}

/// Whether every state reached, but `start`, was reached by one step from the state recorded as
/// the one it was reached from, at exactly the rank recorded for it.
#[verifier::opaque]
pub open spec fn exact(
    xs: Seq<i32>,
    ys: Seq<i32>,
    states: Seq<State>,
    dist: Seq<Option<Cost>>,
    prev: Seq<Option<usize>>,
    a: Pos,
    b: Pos,
    mid: Pos,
    da: Direction,
    start: int,
) -> bool {
    forall|k: int|
        0 <= k < states.len() && k != start && (#[trigger] dist[k]) is Some ==> {
            &&& prev[k] is Some
            &&& prev[k]->0 < states.len()
            &&& dist[prev[k]->0 as int] is Some
            &&& spec_step(
                xs,
                ys,
                states[prev[k]->0 as int],
                rank_of(dist[prev[k]->0 as int]->0),
                states[k].2 as int,
                a,
                b,
                mid,
                da,
            ) == Some((states[k], rank_of(dist[k]->0)))
        }
}

/// Whether the step from the state stored at `p` along the direction at `h` reaches a state
/// whose recorded rank is no later than the step's.
pub open spec fn edge_relaxed(
    xs: Seq<i32>,
    ys: Seq<i32>,
    states: Seq<State>,
    dist: Seq<Option<Cost>>,
    a: Pos,
    b: Pos,
    mid: Pos,
    da: Direction,
    p: int,
    h: int,
) -> bool {
    match spec_step(xs, ys, states[p], rank_of(dist[p]->0), h, a, b, mid, da) {
        None => true,
        Some((st, r)) => {
            let k = enc(ys.len(), st);
            &&& 0 <= k < dist.len()
            &&& dist[k] is Some
            &&& rank_le(rank_of(dist[k]->0), r)
        },
    }
}

/// Whether every step out of every settled state is relaxed, but for the steps out of `cur` along
/// the directions from `upto` on.
#[verifier::opaque]
pub open spec fn relaxed(
    xs: Seq<i32>,
    ys: Seq<i32>,
    states: Seq<State>,
    dist: Seq<Option<Cost>>,
    done: Seq<bool>,
    a: Pos,
    b: Pos,
    mid: Pos,
    da: Direction,
    cur: int,
    upto: int,
) -> bool {
    forall|p: int, h: int|
        0 <= p < states.len() && 0 <= h < 4 && done[p] && (p != cur || h < upto)
            ==> #[trigger] edge_relaxed(xs, ys, states, dist, a, b, mid, da, p, h)
}

/// What holds of the search's tables between two pops.
pub open spec fn search_ok(
    xs: Seq<i32>,
    ys: Seq<i32>,
    states: Seq<State>,
    dist: Seq<Option<Cost>>,
    prev: Seq<Option<usize>>,
    done: Seq<bool>,
    a: Pos,
    b: Pos,
    start: int,
    ndone: int,
) -> bool {
    let n = states.len();
    &&& lattice_axis_ok(xs)
    &&& lattice_axis_ok(ys)
    &&& states_ok(xs.len(), ys.len(), states)
    &&& dist.len() == n && prev.len() == n && done.len() == n
    &&& 0 <= start < n
    &&& dist[start] == Some(zero_cost())
    &&& prev[start] is None
    &&& 0 <= ndone <= n
    &&& forall|k: int| 0 <= k < n && #[trigger] done[k] ==> dist[k] is Some
    &&& forall|k: int|
        0 <= k < n && (#[trigger] dist[k]) is Some ==> !forbidden(a, b, state_pos(xs, ys, states[k]))
            && cost_within(dist[k]->0, ndone * step_bound())
    &&& forall|k: int|
        0 <= k < n && k != start && (#[trigger] dist[k]) is Some ==> {
            &&& prev[k] is Some
            &&& prev[k]->0 < n
            &&& done[prev[k]->0 as int]
            &&& dist[prev[k]->0 as int] is Some
            &&& cost_lt(dist[prev[k]->0 as int]->0, dist[k]->0)
            &&& spec_lattice_step(
                xs.len(),
                ys.len(),
                (states[prev[k]->0 as int].0, states[prev[k]->0 as int].1),
                spec_direction_at(states[k].2 as int),
            ) == Some((states[k].0, states[k].1))
        }
    &&& forall|d: int, u: int|
        0 <= d < n && 0 <= u < n && #[trigger] done[d] && !#[trigger] done[u] && dist[u] is Some
            ==> cost_le(dist[d]->0, dist[u]->0)
}

/// What following each reached state back to the one it was reached from relies on: every
/// reached state avoids `a` and `b`, and each but `start` was reached, one lattice step along its
/// own heading, from a reached state that ranks strictly before it.
pub open spec fn trace_ok(
    xs: Seq<i32>,
    ys: Seq<i32>,
    states: Seq<State>,
    dist: Seq<Option<Cost>>,
    prev: Seq<Option<usize>>,
    a: Pos,
    b: Pos,
    start: int,
) -> bool {
    let n = states.len();
    &&& lattice_axis_ok(xs)
    &&& lattice_axis_ok(ys)
    &&& states_ok(xs.len(), ys.len(), states)
    &&& dist.len() == n && prev.len() == n
    &&& 0 <= start < n
    &&& forall|k: int|
        0 <= k < n && (#[trigger] dist[k]) is Some ==> !forbidden(a, b, state_pos(xs, ys, states[k]))
    &&& forall|k: int|
        0 <= k < n && k != start && (#[trigger] dist[k]) is Some ==> {
            &&& prev[k] is Some
            &&& prev[k]->0 < n
            &&& dist[prev[k]->0 as int] is Some
            &&& cost_lt(dist[prev[k]->0 as int]->0, dist[k]->0)
            &&& spec_lattice_step(
                xs.len(),
                ys.len(),
                (states[prev[k]->0 as int].0, states[prev[k]->0 as int].1),
                spec_direction_at(states[k].2 as int),
            ) == Some((states[k].0, states[k].1))
        }
}

pub(crate) proof fn lemma_trace_ok(
    xs: Seq<i32>,
    ys: Seq<i32>,
    states: Seq<State>,
    dist: Seq<Option<Cost>>,
    prev: Seq<Option<usize>>,
    done: Seq<bool>,
    a: Pos,
    b: Pos,
    start: int,
    ndone: int,
)
    requires
        search_ok(xs, ys, states, dist, prev, done, a, b, start, ndone),
    ensures
        trace_ok(xs, ys, states, dist, prev, a, b, start),
{
}

/// The not-yet-settled reached state ranked first, the first such in storage order where two
/// tie; `None` when none is left.
fn select(dist: &Vec<Option<Cost>>, done: &Vec<bool>) -> (r: Option<usize>)
    requires
        dist@.len() == done@.len(),
    ensures
        r matches Some(k) ==> {
            &&& k < dist@.len()
            &&& !done@[k as int]
            &&& dist@[k as int] is Some
            &&& forall|u: int|
                0 <= u < dist@.len() && !done@[u] && (#[trigger] dist@[u]) is Some ==> cost_le(
                    dist@[k as int]->0,
                    dist@[u]->0,
                )
        },
        r is None ==> forall|u: int|
            0 <= u < dist@.len() && !done@[u] ==> (#[trigger] dist@[u]) is None,
{
    let mut best: Option<usize> = None;
    let mut i: usize = 0;
    while i < dist.len()
        invariant
            i <= dist@.len(),
            dist@.len() == done@.len(),
            best matches Some(k) ==> {
                &&& k < i
                &&& !done@[k as int]
                &&& dist@[k as int] is Some
                &&& forall|u: int|
                    0 <= u < i && !done@[u] && (#[trigger] dist@[u]) is Some ==> cost_le(
                        dist@[k as int]->0,
                        dist@[u]->0,
                    )
            },
            best is None ==> forall|u: int| 0 <= u < i && !done@[u] ==> (#[trigger] dist@[u]) is None,
        decreases dist@.len() - i,
    {
        if !done[i] {
            if let Some(c) = dist[i] {
                match best {
                    None => {
                        best = Some(i);
                    },
                    Some(k) => {
                        let bc = dist[k].unwrap();
                        if cost_less(c, bc) {
                            best = Some(i);
                        }
                    },
                }
            }
        }
        i += 1;
    }
    best
}

proof fn lemma_done_count(n: int, done: Seq<bool>, done_set: Set<int>, fresh: int)
    requires
        done.len() == n,
        0 <= fresh < n,
        !done[fresh],
        done_set == Set::new(|k: int| 0 <= k < n && done[k]),
    ensures
        done_set.finite(),
        done_set.len() < n,
{
    let range = vstd::set_lib::set_int_range(0, n);
    vstd::set_lib::lemma_int_range(0, n);
    assert(done_set.subset_of(range.remove(fresh)));
    vstd::set_lib::lemma_len_subset(done_set, range.remove(fresh));
}

/// Whether every settled state's cost ranks no later than `cost`.
pub open spec fn settled_within(dist: Seq<Option<Cost>>, done: Seq<bool>, cost: Cost) -> bool {
    forall|k: int| 0 <= k < dist.len() && #[trigger] done[k] ==> cost_le(dist[k]->0, cost)
}

/// The state one run along the direction at `h` from the state stored at `p` reaches, and what
/// reaching it costs; `None` where that run reverses the heading, leaves the lattice or enters
/// `a` or `b`.
fn step_cost(
    lattice: &Lattice,
    states: &Vec<State>,
    p: usize,
    cost: Cost,
    h: usize,
    a: Pos,
    b: Pos,
    mid: Pos,
    da: Direction,
    Ghost(bound): Ghost<int>,
) -> (r: Option<(usize, Cost)>)
    requires
        lattice_axis_ok(lattice.x@),
        lattice_axis_ok(lattice.y@),
        states_ok(lattice.x@.len(), lattice.y@.len(), states@),
        p < states@.len(),
        h < 4,
        0 <= bound <= 200 * step_bound(),
        cost_within(cost, bound),
    ensures
        r matches Some((k, next)) ==> {
            &&& k < states@.len()
            &&& states@[k as int].2 == h
            &&& spec_lattice_step(
                lattice.x@.len(),
                lattice.y@.len(),
                (states@[p as int].0, states@[p as int].1),
                spec_direction_at(h as int),
            ) == Some((states@[k as int].0, states@[k as int].1))
            &&& !forbidden(a, b, state_pos(lattice.x@, lattice.y@, states@[k as int]))
            &&& cost_lt(cost, next)
            &&& cost_within(next, bound + step_bound())
        },
        match spec_step(
            lattice.x@,
            lattice.y@,
            states@[p as int],
            rank_of(cost),
            h as int,
            a,
            b,
            mid,
            da,
        ) {
            None => r is None,
            Some((st, rk)) => r matches Some((k, next)) && states@[k as int] == st && rank_of(next)
                == rk,
        },
{
    reveal(spec_step);
    let ghost xs = lattice.x@;
    let ghost ys = lattice.y@;
    let nx = lattice.x.len();
    let ny = lattice.y.len();
    let (pix, piy, ph) = states[p];
    let heading = direction_at(ph);
    let dir = direction_at(h);
    if dir == opposite(heading) {
        return None;
    }
    let neighbor = match lattice.step((pix, piy), dir) {
        Some(n) => n,
        None => return None,
    };
    let pos = lattice.pos((pix, piy));
    let neighbor_pos = lattice.pos(neighbor);
    if neighbor_pos == a || neighbor_pos == b {
        return None;
    }
    let mut next = cost;
    let delta = match direction_orientation(dir) {
        Orientation::Horizontal => if neighbor_pos.x >= pos.x {
            (neighbor_pos.x as i64 - pos.x as i64) as u64
        } else {
            (pos.x as i64 - neighbor_pos.x as i64) as u64
        },
        Orientation::Vertical => if neighbor_pos.y >= pos.y {
            (neighbor_pos.y as i64 - pos.y as i64) as u64
        } else {
            (pos.y as i64 - neighbor_pos.y as i64) as u64
        },
    };
    proof {
        let (nix, niy) = neighbor;
        if nix != pix {
            assert(xs[nix as int] != xs[pix as int]);
        } else {
            assert(ys[niy as int] != ys[piy as int]);
        }
    }
    assert(1 <= delta < 0x1_0000_0000);
    next.length = next.length + delta;
    if dir != heading {
        next.bends = next.bends + 1;
        if cost.bends > 0 {
            let (from_middle, hand) = run_cost(direction_orientation(heading), pos, mid, da);
            next.from_middle = next.from_middle + from_middle;
            next.hand = next.hand + hand;
        }
    }
    let k = index_of_state(nx, ny, (neighbor.0, neighbor.1, h), Ghost(states@));
    Some((k, next))
}

/// Records `next` as the best cost of the state stored at `k`, reached from the settled state
/// stored at `p`.
#[verifier::rlimit(60)]
fn improve(
    dist: &mut Vec<Option<Cost>>,
    prev: &mut Vec<Option<usize>>,
    k: usize,
    next: Cost,
    p: usize,
    cost: Cost,
    Ghost(xs): Ghost<Seq<i32>>,
    Ghost(ys): Ghost<Seq<i32>>,
    Ghost(states): Ghost<Seq<State>>,
    Ghost(done): Ghost<Seq<bool>>,
    Ghost(a): Ghost<Pos>,
    Ghost(b): Ghost<Pos>,
    Ghost(start): Ghost<int>,
    Ghost(ndone): Ghost<int>,
    Ghost(mid): Ghost<Pos>,
    Ghost(da): Ghost<Direction>,
)
    requires
        search_ok(xs, ys, states, old(dist)@, old(prev)@, done, a, b, start, ndone),
        exact(xs, ys, states, old(dist)@, old(prev)@, a, b, mid, da, start),
        relaxed(xs, ys, states, old(dist)@, done, a, b, mid, da, p as int, states[k as int].2 as int),
        spec_step(xs, ys, states[p as int], rank_of(cost), states[k as int].2 as int, a, b, mid, da)
            == Some((states[k as int], rank_of(next))),
        p < states.len(),
        done[p as int],
        old(dist)@[p as int] == Some(cost),
        settled_within(old(dist)@, done, cost),
        k < states.len(),
        spec_lattice_step(
            xs.len(),
            ys.len(),
            (states[p as int].0, states[p as int].1),
            spec_direction_at(states[k as int].2 as int),
        ) == Some((states[k as int].0, states[k as int].1)),
        !forbidden(a, b, state_pos(xs, ys, states[k as int])),
        cost_lt(cost, next),
        cost_within(next, ndone * step_bound()),
        old(dist)@[k as int] is None || cost_lt(next, old(dist)@[k as int]->0),
    ensures
        final(dist)@ == old(dist)@.update(k as int, Some(next)),
        final(prev)@ == old(prev)@.update(k as int, Some(p)),
        !done[k as int],
        k != p,
        search_ok(xs, ys, states, final(dist)@, final(prev)@, done, a, b, start, ndone),
        settled_within(final(dist)@, done, cost),
        exact(xs, ys, states, final(dist)@, final(prev)@, a, b, mid, da, start),
        relaxed(
            xs,
            ys,
            states,
            final(dist)@,
            done,
            a,
            b,
            mid,
            da,
            p as int,
            states[k as int].2 as int + 1,
        ),
{
    let ghost n = states.len() as int;
    let ghost before_dist = dist@;
    let ghost before_prev = prev@;
    assert(!done[k as int]) by {
        if done[k as int] {
            assert(cost_le(before_dist[k as int]->0, cost));
        }
    }
    assert(k as int != start);
    dist.set(k, Some(next));
    prev.set(k, Some(p));
    assert forall|j: int| 0 <= j < n && j != start && (#[trigger] dist@[j]) is Some implies {
        &&& prev@[j] is Some
        &&& prev@[j]->0 < n
        &&& done[prev@[j]->0 as int]
        &&& dist@[prev@[j]->0 as int] is Some
        &&& cost_lt(dist@[prev@[j]->0 as int]->0, dist@[j]->0)
        &&& spec_lattice_step(
            xs.len(),
            ys.len(),
            (states[prev@[j]->0 as int].0, states[prev@[j]->0 as int].1),
            spec_direction_at(states[j].2 as int),
        ) == Some((states[j].0, states[j].1))
    } by {
        if j != k {
            assert(before_dist[j] is Some);
            let q = before_prev[j]->0 as int;
            assert(done[q]);
            assert(q != k);
        }
    }
    assert forall|dd: int, u: int|
        0 <= dd < n && 0 <= u < n && #[trigger] done[dd] && !#[trigger] done[u] && dist@[u] is Some
            implies cost_le(dist@[dd]->0, dist@[u]->0) by {
        assert(dd != k);
        if u == k {
            assert(cost_le(dist@[dd]->0, cost));
        }
    }
    assert forall|j: int| 0 <= j < n && #[trigger] done[j] implies cost_le(dist@[j]->0, cost) by {
        assert(j != k);
    }
    proof {
        lemma_exact_update(
            xs, ys, states, before_dist, before_prev, done, a, b, mid, da, start, k as int,
            p, next,
        );
        lemma_relaxed_update(xs, ys, states, before_dist, done, a, b, mid, da, k as int, p as int, next);
    }
}

/// Recording `next` for the unsettled state `k`, reached from the settled state `p`, keeps every
/// reached state's rank exactly one step from the state it was reached from.
proof fn lemma_exact_update(
    xs: Seq<i32>,
    ys: Seq<i32>,
    states: Seq<State>,
    dist: Seq<Option<Cost>>,
    prev: Seq<Option<usize>>,
    done: Seq<bool>,
    a: Pos,
    b: Pos,
    mid: Pos,
    da: Direction,
    start: int,
    k: int,
    p: usize,
    next: Cost,
)
    requires
        exact(xs, ys, states, dist, prev, a, b, mid, da, start),
        dist.len() == states.len() && prev.len() == states.len() && done.len() == states.len(),
        p < states.len(),
        0 <= k < states.len(),
        k != start,
        done[p as int],
        !done[k],
        dist[p as int] is Some,
        forall|j: int|
            0 <= j < states.len() && j != start && (#[trigger] dist[j]) is Some ==> prev[j] is Some
                && prev[j]->0 < states.len() && done[prev[j]->0 as int],
        spec_step(xs, ys, states[p as int], rank_of(dist[p as int]->0), states[k].2 as int, a, b, mid, da)
            == Some((states[k], rank_of(next))),
    ensures
        exact(
            xs,
            ys,
            states,
            dist.update(k, Some(next)),
            prev.update(k, Some(p)),
            a,
            b,
            mid,
            da,
            start,
        ),
{
    reveal(exact);
    let nd = dist.update(k, Some(next));
    let np = prev.update(k, Some(p));
    assert forall|j: int| 0 <= j < states.len() && j != start && (#[trigger] nd[j]) is Some implies {
        &&& np[j] is Some
        &&& np[j]->0 < states.len()
        &&& nd[np[j]->0 as int] is Some
        &&& spec_step(
            xs,
            ys,
            states[np[j]->0 as int],
            rank_of(nd[np[j]->0 as int]->0),
            states[j].2 as int,
            a,
            b,
            mid,
            da,
        ) == Some((states[j], rank_of(nd[j]->0)))
    } by {
        if j != k {
            assert(dist[j] is Some);
            let q = prev[j]->0 as int;
            assert(done[q]);
            assert(q != k);
        }
    }
}

/// Recording `next` for the unsettled state `k`, reached from the settled state `p` along the
/// heading `k` holds, relaxes that step and keeps every step relaxed before it.
proof fn lemma_relaxed_update(
    xs: Seq<i32>,
    ys: Seq<i32>,
    states: Seq<State>,
    dist: Seq<Option<Cost>>,
    done: Seq<bool>,
    a: Pos,
    b: Pos,
    mid: Pos,
    da: Direction,
    k: int,
    p: int,
    next: Cost,
)
    requires
        relaxed(xs, ys, states, dist, done, a, b, mid, da, p, states[k].2 as int),
        states_ok(xs.len(), ys.len(), states),
        dist.len() == states.len() && done.len() == states.len(),
        0 <= p < states.len(),
        0 <= k < states.len(),
        done[p],
        !done[k],
        dist[k] is None || rank_lt(rank_of(next), rank_of(dist[k]->0)),
        spec_step(xs, ys, states[p], rank_of(dist[p]->0), states[k].2 as int, a, b, mid, da)
            == Some((states[k], rank_of(next))),
    ensures
        relaxed(
            xs,
            ys,
            states,
            dist.update(k, Some(next)),
            done,
            a,
            b,
            mid,
            da,
            p,
            states[k].2 as int + 1,
        ),
{
    reveal(relaxed);
    let nd = dist.update(k, Some(next));
    let hk = states[k].2 as int;
    assert(enc(ys.len(), states[k]) == k);
    assert forall|q: int, h: int|
        0 <= q < states.len() && 0 <= h < 4 && done[q] && (q != p || h < hk + 1) implies #[trigger] edge_relaxed(
        xs,
        ys,
        states,
        nd,
        a,
        b,
        mid,
        da,
        q,
        h,
    ) by {
        assert(q != k);
        assert(nd[q] == dist[q]);
        if !(q == p && h == hk) {
            assert(edge_relaxed(xs, ys, states, dist, a, b, mid, da, q, h));
        }
    }
}

/// Settling `p` leaves every step out of the other settled states relaxed.
proof fn lemma_relaxed_settle(
    xs: Seq<i32>,
    ys: Seq<i32>,
    states: Seq<State>,
    dist: Seq<Option<Cost>>,
    done: Seq<bool>,
    a: Pos,
    b: Pos,
    mid: Pos,
    da: Direction,
    p: int,
)
    requires
        relaxed(xs, ys, states, dist, done, a, b, mid, da, -1, 0),
        done.len() == states.len(),
        0 <= p < done.len(),
    ensures
        relaxed(xs, ys, states, dist, done.update(p, true), a, b, mid, da, p, 0),
{
    reveal(relaxed);
    let nd = done.update(p, true);
    assert forall|q: int, h: int|
        0 <= q < states.len() && 0 <= h < 4 && nd[q] && (q != p || h < 0) implies #[trigger] edge_relaxed(
        xs,
        ys,
        states,
        dist,
        a,
        b,
        mid,
        da,
        q,
        h,
    ) by {
        assert(done[q]);
    }
}

/// One more relaxed step out of `p` extends what is relaxed by one direction.
proof fn lemma_relaxed_extend(
    xs: Seq<i32>,
    ys: Seq<i32>,
    states: Seq<State>,
    dist: Seq<Option<Cost>>,
    done: Seq<bool>,
    a: Pos,
    b: Pos,
    mid: Pos,
    da: Direction,
    p: int,
    h: int,
)
    requires
        relaxed(xs, ys, states, dist, done, a, b, mid, da, p, h),
        edge_relaxed(xs, ys, states, dist, a, b, mid, da, p, h),
    ensures
        relaxed(xs, ys, states, dist, done, a, b, mid, da, p, h + 1),
{
    reveal(relaxed);
}

/// Once every step out of `p` is relaxed, every step out of every settled state is.
proof fn lemma_relaxed_finish(
    xs: Seq<i32>,
    ys: Seq<i32>,
    states: Seq<State>,
    dist: Seq<Option<Cost>>,
    done: Seq<bool>,
    a: Pos,
    b: Pos,
    mid: Pos,
    da: Direction,
    p: int,
)
    requires
        relaxed(xs, ys, states, dist, done, a, b, mid, da, p, 4),
    ensures
        relaxed(xs, ys, states, dist, done, a, b, mid, da, -1, 0),
{
    reveal(relaxed);
    assert forall|q: int, hh: int|
        0 <= q < states.len() && 0 <= hh < 4 && done[q] && (q != -1 || hh < 0) implies #[trigger] edge_relaxed(
        xs,
        ys,
        states,
        dist,
        a,
        b,
        mid,
        da,
        q,
        hh,
    ) by {
        assert(edge_relaxed(xs, ys, states, dist, a, b, mid, da, q, hh));
    }
}

/// The rank a route reaching its goal in a state heading along the direction at `h`, at rank
/// `r`, closes at against `exit_dir`, the direction continuing into the far endpoint: a last turn
/// adds a bend and, where the route has turned before, the charge of the run it closes. `None`
/// where closing would reverse the heading.
pub open spec fn spec_close(
    r: Rank,
    h: int,
    exit_dir: Direction,
    t: Pos,
    mid: Pos,
    da: Direction,
) -> Option<Rank> {
    let dir = spec_direction_at(h);
    if !(0 <= h < 4) || dir == spec_opposite(exit_dir) {
        None
    } else if dir != exit_dir {
        let c = turn_charge(r, dir, t, mid, da);
        Some((r.0 + 1, r.1, r.2 + c.0, r.3 + c.1))
    } else {
        Some(r)
    }
}

/// Closing is refused or done whatever the rank, and ranks its result no later from an earlier
/// rank.
pub proof fn lemma_close_monotone(
    r1: Rank,
    r2: Rank,
    h: int,
    exit_dir: Direction,
    t: Pos,
    mid: Pos,
    da: Direction,
)
    requires
        rank_le(r1, r2),
    ensures
        spec_close(r1, h, exit_dir, t, mid, da) is Some == spec_close(r2, h, exit_dir, t, mid, da) is Some,
        spec_close(r1, h, exit_dir, t, mid, da) is Some ==> rank_le(
            spec_close(r1, h, exit_dir, t, mid, da)->0,
            spec_close(r2, h, exit_dir, t, mid, da)->0,
        ),
{
}

/// The positions of the states following the headings `hs` from the state `st`, reached at rank
/// `r`, passes through, `st`'s own first, up to the first step refused.
pub open spec fn walk_positions(
    xs: Seq<i32>,
    ys: Seq<i32>,
    a: Pos,
    b: Pos,
    mid: Pos,
    da: Direction,
    st: State,
    r: Rank,
    hs: Seq<int>,
) -> Seq<Pos>
    decreases hs.len(),
{
    if hs.len() == 0 {
        seq![state_pos(xs, ys, st)]
    } else {
        match spec_step(xs, ys, st, r, hs[0], a, b, mid, da) {
            None => seq![state_pos(xs, ys, st)],
            Some((next, rn)) => seq![state_pos(xs, ys, st)] + walk_positions(
                xs,
                ys,
                a,
                b,
                mid,
                da,
                next,
                rn,
                hs.drop_first(),
            ),
        }
    }
}

/// What `exact` says of the reached state stored at `k`.
pub proof fn lemma_exact_at(
    xs: Seq<i32>,
    ys: Seq<i32>,
    states: Seq<State>,
    dist: Seq<Option<Cost>>,
    prev: Seq<Option<usize>>,
    a: Pos,
    b: Pos,
    mid: Pos,
    da: Direction,
    start: int,
    k: int,
)
    requires
        exact(xs, ys, states, dist, prev, a, b, mid, da, start),
        0 <= k < states.len(),
        k != start,
        dist[k] is Some,
    ensures
        prev[k] is Some,
        prev[k]->0 < states.len(),
        dist[prev[k]->0 as int] is Some,
        spec_step(
            xs,
            ys,
            states[prev[k]->0 as int],
            rank_of(dist[prev[k]->0 as int]->0),
            states[k].2 as int,
            a,
            b,
            mid,
            da,
        ) == Some((states[k], rank_of(dist[k]->0))),
{
    reveal(exact);
}

/// A walk that starts with a step taken is that step, then the walk from where it leads.
pub proof fn lemma_walk_prepend(
    xs: Seq<i32>,
    ys: Seq<i32>,
    a: Pos,
    b: Pos,
    mid: Pos,
    da: Direction,
    sq: State,
    rq: Rank,
    h: int,
    sc: State,
    rc: Rank,
    tail: Seq<int>,
)
    requires
        spec_step(xs, ys, sq, rq, h, a, b, mid, da) == Some((sc, rc)),
    ensures
        walk_from(xs, ys, a, b, mid, da, sq, rq, seq![h] + tail) == walk_from(
            xs,
            ys,
            a,
            b,
            mid,
            da,
            sc,
            rc,
            tail,
        ),
        walk_positions(xs, ys, a, b, mid, da, sq, rq, seq![h] + tail) == seq![state_pos(xs, ys, sq)]
            + walk_positions(xs, ys, a, b, mid, da, sc, rc, tail),
{
    let nt = seq![h] + tail;
    assert(nt.drop_first() =~= tail);
    assert(nt[0] == h);
}

/// Whether a walk that ends, ends at a state of the lattice recorded at a rank no later than the
/// walk's own.
pub open spec fn recorded_no_later(
    xs: Seq<i32>,
    ys: Seq<i32>,
    dist: Seq<Option<Cost>>,
    w: Option<(State, Rank)>,
) -> bool {
    match w {
        None => true,
        Some((end, re)) => {
            &&& state_ok(xs.len(), ys.len(), end)
            &&& dist[enc(ys.len(), end)] is Some
            &&& rank_le(rank_of(dist[enc(ys.len(), end)]->0), re)
        },
    }
}

/// Where following the headings `hs` from the state `st`, reached at rank `r`, ends, and at what
/// rank; `None` where one of its steps is refused.
pub open spec fn walk_from(
    xs: Seq<i32>,
    ys: Seq<i32>,
    a: Pos,
    b: Pos,
    mid: Pos,
    da: Direction,
    st: State,
    r: Rank,
    hs: Seq<int>,
) -> Option<(State, Rank)>
    decreases hs.len(),
{
    if hs.len() == 0 {
        Some((st, r))
    } else {
        match spec_step(xs, ys, st, r, hs[0], a, b, mid, da) {
            None => None,
            Some((next, rn)) => walk_from(xs, ys, a, b, mid, da, next, rn, hs.drop_first()),
        }
    }
}

/// A step is refused or taken whatever the rank it starts from, reaches the same state either
/// way, and ranks its result no later from an earlier rank.
pub proof fn lemma_step_monotone(
    xs: Seq<i32>,
    ys: Seq<i32>,
    st: State,
    r1: Rank,
    r2: Rank,
    h: int,
    a: Pos,
    b: Pos,
    mid: Pos,
    da: Direction,
)
    requires
        rank_le(r1, r2),
    ensures
        match (
            spec_step(xs, ys, st, r1, h, a, b, mid, da),
            spec_step(xs, ys, st, r2, h, a, b, mid, da),
        ) {
            (None, None) => true,
            (Some((s1, q1)), Some((s2, q2))) => s1 == s2 && rank_le(q1, q2),
            _ => false,
        },
{
    reveal(spec_step);
}

/// A step taken from a state of the lattice reaches a state of the lattice.
pub proof fn lemma_step_state_ok(
    xs: Seq<i32>,
    ys: Seq<i32>,
    st: State,
    r: Rank,
    h: int,
    a: Pos,
    b: Pos,
    mid: Pos,
    da: Direction,
)
    requires
        state_ok(xs.len(), ys.len(), st),
    ensures
        spec_step(xs, ys, st, r, h, a, b, mid, da) matches Some((next, _)) ==> state_ok(
            xs.len(),
            ys.len(),
            next,
        ),
{
    reveal(spec_step);
}

/// In a finished search every step relaxed and every state reached settled, no walk from a
/// reached state, started at a rank no earlier than the one recorded for it, ends at a state
/// recorded later than the walk's own rank.
proof fn lemma_walk_ranked(
    xs: Seq<i32>,
    ys: Seq<i32>,
    states: Seq<State>,
    dist: Seq<Option<Cost>>,
    done: Seq<bool>,
    a: Pos,
    b: Pos,
    mid: Pos,
    da: Direction,
    st: State,
    r: Rank,
    hs: Seq<int>,
)
    requires
        relaxed(xs, ys, states, dist, done, a, b, mid, da, -1, 0),
        states_ok(xs.len(), ys.len(), states),
        dist.len() == states.len(),
        done.len() == states.len(),
        forall|u: int| 0 <= u < states.len() && !done[u] ==> (#[trigger] dist[u]) is None,
        state_ok(xs.len(), ys.len(), st),
        dist[enc(ys.len(), st)] is Some,
        rank_le(rank_of(dist[enc(ys.len(), st)]->0), r),
    ensures
        recorded_no_later(xs, ys, dist, walk_from(xs, ys, a, b, mid, da, st, r, hs)),
    decreases hs.len(),
{
    if hs.len() > 0 {
        let k = enc(ys.len(), st);
        lemma_enc(xs.len(), ys.len(), st, st);
        lemma_enc(xs.len(), ys.len(), st, states[k]);
        assert(states[k] == st);
        assert(done[k]);
        let h = hs[0];
        lemma_step_monotone(xs, ys, st, rank_of(dist[k]->0), r, h, a, b, mid, da);
        lemma_step_state_ok(xs, ys, st, r, h, a, b, mid, da);
        if let Some((next, rn)) = spec_step(xs, ys, st, r, h, a, b, mid, da) {
            if 0 <= h < 4 {
                reveal(relaxed);
                assert(edge_relaxed(xs, ys, states, dist, a, b, mid, da, k, h));
            } else {
                reveal(spec_step);
            }
            lemma_walk_ranked(xs, ys, states, dist, done, a, b, mid, da, next, rn, hs.drop_first());
        }
    }
}

/// The tables a finished search leaves: for every state reached, its best cost and the state it
/// was reached from.
pub struct Search {
    pub states: Vec<State>,
    pub dist: Vec<Option<Cost>>,
    pub prev: Vec<Option<usize>>,
    pub done: Vec<bool>,
}

/// Runs the search over `lattice` from the state `start`, never entering the positions `a` and
/// `b`, charging runs against `mid` and the arrow's own travel `da`. Every state it reaches it
/// settles, each with a cost and, but for `start`, the settled state it was reached from.
#[verifier::spinoff_prover]
#[verifier::rlimit(60)]
pub fn search(lattice: &Lattice, start: State, a: Pos, b: Pos, mid: Pos, da: Direction) -> (r: (
    Search,
    usize,
))
    requires
        lattice_axis_ok(lattice.x@),
        lattice_axis_ok(lattice.y@),
        state_ok(lattice.x@.len(), lattice.y@.len(), start),
        !forbidden(a, b, state_pos(lattice.x@, lattice.y@, start)),
    ensures
        ({
            let (s, k) = r;
            &&& k == enc(lattice.y@.len(), start)
            &&& search_ok(
                lattice.x@,
                lattice.y@,
                s.states@,
                s.dist@,
                s.prev@,
                s.done@,
                a,
                b,
                k as int,
                s.states@.len() as int,
            )
            &&& forall|u: int|
                0 <= u < s.states@.len() && !s.done@[u] ==> (#[trigger] s.dist@[u]) is None
            &&& exact(lattice.x@, lattice.y@, s.states@, s.dist@, s.prev@, a, b, mid, da, k as int)
            &&& relaxed(lattice.x@, lattice.y@, s.states@, s.dist@, s.done@, a, b, mid, da, -1, 0)
            &&& forall|hs: Seq<int>|
                recorded_no_later(
                    lattice.x@,
                    lattice.y@,
                    s.dist@,
                    #[trigger] walk_from(lattice.x@, lattice.y@, a, b, mid, da, start, zero_rank(), hs),
                )
        }),
{
    let nx = lattice.x.len();
    let ny = lattice.y.len();
    let states = all_states(nx, ny);
    let n = states.len();
    let start_k = index_of_state(nx, ny, start, Ghost(states@));
    assert(n <= 196) by (nonlinear_arith)
        requires
            n == nx * ny * 4,
            nx <= 7,
            ny <= 7,
    ;
    let mut dist: Vec<Option<Cost>> = Vec::new();
    let mut prev: Vec<Option<usize>> = Vec::new();
    let mut done: Vec<bool> = Vec::new();
    let mut i: usize = 0;
    while i < n
        invariant
            n == states@.len(),
            i <= n,
            dist@.len() == i && prev@.len() == i && done@.len() == i,
            start_k < n,
            forall|k: int| 0 <= k < i ==> #[trigger] dist@[k] == (if k == start_k {
                Some(Cost { bends: 0, length: 0, from_middle: 0, hand: 0 })
            } else {
                None::<Cost>
            }),
            forall|k: int| 0 <= k < i ==> #[trigger] prev@[k] is None,
            forall|k: int| 0 <= k < i ==> !#[trigger] done@[k],
        decreases n - i,
    {
        if i == start_k {
            dist.push(Some(Cost { bends: 0, length: 0, from_middle: 0, hand: 0 }));
        } else {
            dist.push(None);
        }
        prev.push(None);
        done.push(false);
        i += 1;
    }
    let ghost xs = lattice.x@;
    let ghost ys = lattice.y@;
    let ghost mut done_set: Set<int> = Set::empty();
    let mut ndone: usize = 0;
    assert(done_set =~= Set::new(|k: int| 0 <= k < n && done@[k]));
    proof {
        reveal(exact);
        reveal(relaxed);
    }
    loop
        invariant
            xs == lattice.x@,
            ys == lattice.y@,
            n == states@.len(),
            n <= 196,
            nx == xs.len(),
            ny == ys.len(),
            start_k == enc(ny as nat, start),
            search_ok(xs, ys, states@, dist@, prev@, done@, a, b, start_k as int, ndone as int),
            done_set == Set::new(|k: int| 0 <= k < n && done@[k]),
            done_set.finite(),
            done_set.len() == ndone,
            exact(xs, ys, states@, dist@, prev@, a, b, mid, da, start_k as int),
            relaxed(xs, ys, states@, dist@, done@, a, b, mid, da, -1, 0),
        ensures
            search_ok(xs, ys, states@, dist@, prev@, done@, a, b, start_k as int, ndone as int),
            ndone <= n,
            forall|u: int| 0 <= u < n && !done@[u] ==> (#[trigger] dist@[u]) is None,
            exact(xs, ys, states@, dist@, prev@, a, b, mid, da, start_k as int),
            relaxed(xs, ys, states@, dist@, done@, a, b, mid, da, -1, 0),
        decreases n - ndone,
    {
        let p = match select(&dist, &done) {
            Some(p) => p,
            None => break,
        };
        proof {
            lemma_done_count(n as int, done@, done_set, p as int);
        }
        let cost = dist[p].unwrap();
        let ghost done_before = done@;
        done.set(p, true);
        proof {
            done_set = done_set.insert(p as int);
            assert(done_set =~= Set::new(|k: int| 0 <= k < n && done@[k]));
            lemma_relaxed_settle(xs, ys, states@, dist@, done_before, a, b, mid, da, p as int);
        }
        ndone = ndone + 1;
        let mut h: usize = 0;
        while h < 4
            invariant
                xs == lattice.x@,
                ys == lattice.y@,
                n == states@.len(),
                nx == xs.len(),
                ny == ys.len(),
                h <= 4,
                n <= 196,
                p < n,
                start_k == enc(ny as nat, start),
                done@[p as int],
                dist@[p as int] == Some(cost),
                1 <= ndone <= n,
                cost_within(cost, (ndone - 1) * step_bound()),
                settled_within(dist@, done@, cost),
                search_ok(xs, ys, states@, dist@, prev@, done@, a, b, start_k as int, ndone as int),
                exact(xs, ys, states@, dist@, prev@, a, b, mid, da, start_k as int),
                relaxed(xs, ys, states@, dist@, done@, a, b, mid, da, p as int, h as int),
            decreases 4 - h,
        {
            if let Some((next_k, next)) = step_cost(
                lattice,
                &states,
                p,
                cost,
                h,
                a,
                b,
                mid,
                da,
                Ghost((ndone - 1) * step_bound()),
            ) {
                let better = match dist[next_k] {
                    None => true,
                    Some(best) => cost_less(next, best),
                };
                proof {
                    lemma_enc(nx as nat, ny as nat, states@[next_k as int], states@[next_k as int]);
                }
                if !better {
                    proof {
                        assert(edge_relaxed(xs, ys, states@, dist@, a, b, mid, da, p as int, h as int));
                        lemma_relaxed_extend(xs, ys, states@, dist@, done@, a, b, mid, da, p as int, h as int);
                    }
                }
                if better {
                    improve(
                        &mut dist,
                        &mut prev,
                        next_k,
                        next,
                        p,
                        cost,
                        Ghost(xs),
                        Ghost(ys),
                        Ghost(states@),
                        Ghost(done@),
                        Ghost(a),
                        Ghost(b),
                        Ghost(start_k as int),
                        Ghost(ndone as int),
                        Ghost(mid),
                        Ghost(da),
                    );
                }
            } else {
                proof {
                    assert(edge_relaxed(xs, ys, states@, dist@, a, b, mid, da, p as int, h as int));
                    lemma_relaxed_extend(xs, ys, states@, dist@, done@, a, b, mid, da, p as int, h as int);
                }
            }
            h += 1;
        }
        proof {
            lemma_relaxed_finish(xs, ys, states@, dist@, done@, a, b, mid, da, p as int);
        }
    }
    assert(search_ok(xs, ys, states@, dist@, prev@, done@, a, b, start_k as int, n as int));
    proof {
        assert forall|hs: Seq<int>|
            recorded_no_later(
                xs,
                ys,
                dist@,
                #[trigger] walk_from(xs, ys, a, b, mid, da, start, zero_rank(), hs),
            ) by {
            lemma_walk_ranked(xs, ys, states@, dist@, done@, a, b, mid, da, start, zero_rank(), hs);
        }
    }
    (Search { states, dist, prev, done }, start_k)
}

} // verus!
