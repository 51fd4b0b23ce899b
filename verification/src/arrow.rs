//! The arrow: two endpoints, two heads and a route derived between them.
use vstd::prelude::*;

use crate::arrow_path::{
    aligned_steps, between_on_axis, expand_waypoints, lemma_expand_on_path, lemma_expand_steps,
    on_waypoint_path, spec_expand, unit_steps,
};
use crate::cell::Cell;
use crate::geometry::{
    direction_orientation, offset, opposite, spec_offset, spec_opposite, Direction, Pos,
};
use crate::glyph::Glyph;
use crate::lattice::{
    axis_candidate, axis_in_range, cost_less, cost_lt, direction_at, direction_index,
    lattice_axis_ok, run_cost, spec_direction_at, spec_direction_index, spec_lattice_pos,
    spec_lattice_step, spec_midpoint, strictly_increasing, Cost, Lattice, RouteRectangle,
};
use crate::route::{route_connected, route_stamps, Route};
use crate::shortcut::lemma_least_route_visits_once;
use crate::search::{
    cost_within, enc, exact, forbidden, rank_le, rank_of, search, search_ok, spec_close, spec_step,
    recorded_no_later, state_ok, state_pos, states_ok, step_bound, trace_ok, walk_from,
    walk_positions, zero_cost, zero_rank, Rank, Search, State,
};
use crate::shape::Shape;
use crate::stroke::Stroke;

verus! {

/// Where an arrow ends: a position, the direction it leaves in, and the glyph of the head that
/// sits there.
pub struct Endpoint {
    /// The endpoint's position. The head occupies this position itself.
    pub at: Pos,
    /// The direction the arrow leaves this endpoint in. The route's starting position is one
    /// step from `at` in this direction.
    pub leaving: Direction,
    /// The glyph the head at this endpoint is drawn as.
    pub head: Glyph,
}

/// The arrow's endpoint that a diagram's endpoint describes.
pub open spec fn core_endpoint(e: crate::diagram::Endpoint) -> Endpoint {
    Endpoint { at: e.at, leaving: e.leaving, head: e.head }
}

/// An arrow: two endpoints and a stroke. The route between the two endpoints is derived from
/// their positions and leaving directions alone.
pub struct Arrow {
    /// One endpoint of the arrow.
    pub from: Endpoint,
    /// The other endpoint of the arrow.
    pub to: Endpoint,
    /// The stroke the route is drawn in. The two heads are drawn in their own glyphs.
    pub stroke: Stroke,
}

/// Whether every line the lattice around the two starting positions needs is an `i32`.
pub open spec fn route_in_range(a: Pos, da: Direction, b: Pos, db: Direction) -> bool {
    match (spec_offset(a, da), spec_offset(b, db)) {
        (Some(s), Some(t)) => axis_in_range(s.x, t.x) && axis_in_range(s.y, t.y),
        _ => true,
    }
}

/// Whether the arrangement admits no route at all: both endpoints at one position leaving the
/// same way, a starting position outside `i32`, or a starting position on a head.
pub open spec fn route_refused(a: Pos, da: Direction, b: Pos, db: Direction) -> bool {
    ||| (a == b && da == db)
    ||| spec_offset(a, da) is None
    ||| spec_offset(b, db) is None
    ||| forbidden(a, b, spec_offset(a, da)->0)
    ||| forbidden(a, b, spec_offset(b, db)->0)
}

/// Whether `p` is a route for the arrow from `a` leaving `da` to `b` leaving `db`: it starts one
/// step from `a` along `da`, ends one step from `b` along `db`, goes one cell at a time and never
/// enters either endpoint's position.
pub open spec fn arrow_route(a: Pos, da: Direction, b: Pos, db: Direction, p: Seq<Pos>) -> bool {
    &&& spec_offset(a, da) is Some
    &&& spec_offset(b, db) is Some
    &&& p.len() >= 1
    &&& p[0] == spec_offset(a, da)->0
    &&& p[p.len() - 1] == spec_offset(b, db)->0
    &&& unit_steps(p)
    &&& forall|i: int| 0 <= i < p.len() ==> !forbidden(a, b, #[trigger] p[i])
}

/// Whether no position occurs twice in `p`.
pub open spec fn visits_once(p: Seq<Pos>) -> bool {
    forall|i: int, j: int| 0 <= i < j < p.len() ==> p[i] != p[j]
}

/// Whether no value of `v` lies strictly between `c1` and `c2`.
pub open spec fn no_line_between(v: Seq<i32>, c1: i32, c2: i32) -> bool {
    forall|j: int| 0 <= j < v.len() ==> !(c1 < #[trigger] v[j] < c2) && !(c2 < v[j] < c1)
}

/// Whether `p` and `q` are two distinct points of one row or column with no line of the lattice
/// `xs` by `ys` between them.
pub open spec fn lattice_neighbors(xs: Seq<i32>, ys: Seq<i32>, p: Pos, q: Pos) -> bool {
    ||| (p.x == q.x && p.y != q.y && no_line_between(ys, p.y, q.y))
    ||| (p.y == q.y && p.x != q.x && no_line_between(xs, p.x, q.x))
}

pub(crate) proof fn lemma_step_neighbors(
    xs: Seq<i32>,
    ys: Seq<i32>,
    node: (usize, usize),
    d: Direction,
    next: (usize, usize),
)
    requires
        lattice_axis_ok(xs),
        lattice_axis_ok(ys),
        node.0 < xs.len(),
        node.1 < ys.len(),
        spec_lattice_step(xs.len(), ys.len(), node, d) == Some(next),
    ensures
        lattice_neighbors(
            xs,
            ys,
            spec_lattice_pos(xs, ys, node),
            spec_lattice_pos(xs, ys, next),
        ),
{
    let (ix, iy) = node;
    let (jx, jy) = next;
    if ix == jx {
        let (lo, hi) = if iy < jy {
            (iy as int, jy as int)
        } else {
            (jy as int, iy as int)
        };
        assert(hi == lo + 1);
        assert forall|j: int| 0 <= j < ys.len() implies !(ys[iy as int] < #[trigger] ys[j] < ys[jy as int])
            && !(ys[jy as int] < ys[j] < ys[iy as int]) by {
            if j <= lo {
                assert(j == lo || ys[j] < ys[lo]);
            } else {
                assert(j == hi || ys[hi] < ys[j]);
            }
        }
    } else {
        let (lo, hi) = if ix < jx {
            (ix as int, jx as int)
        } else {
            (jx as int, ix as int)
        };
        assert(hi == lo + 1);
        assert forall|j: int| 0 <= j < xs.len() implies !(xs[ix as int] < #[trigger] xs[j] < xs[jx as int])
            && !(xs[jx as int] < xs[j] < xs[ix as int]) by {
            if j <= lo {
                assert(j == lo || xs[j] < xs[lo]);
            } else {
                assert(j == hi || xs[hi] < xs[j]);
            }
        }
    }
}

/// The positions of the settled states from `start_k` to `winner`, following each state back to
/// the one it was reached from: the positions of a walk from the start that ends at the winner at
/// exactly the rank recorded for it.
fn trace_back(
    lattice: &Lattice,
    found: &Search,
    start_k: usize,
    winner: usize,
    Ghost(a): Ghost<Pos>,
    Ghost(b): Ghost<Pos>,
    Ghost(mid): Ghost<Pos>,
    Ghost(da): Ghost<Direction>,
) -> (w: Vec<Pos>)
    requires
        trace_ok(
            lattice.x@,
            lattice.y@,
            found.states@,
            found.dist@,
            found.prev@,
            a,
            b,
            start_k as int,
        ),
        exact(lattice.x@, lattice.y@, found.states@, found.dist@, found.prev@, a, b, mid, da, start_k as int),
        found.dist@[start_k as int] == Some(zero_cost()),
        winner < found.states@.len(),
        found.dist@[winner as int] is Some,
    ensures
        w@.len() >= 1,
        w@[0] == state_pos(lattice.x@, lattice.y@, found.states@[start_k as int]),
        w@[w@.len() - 1] == state_pos(lattice.x@, lattice.y@, found.states@[winner as int]),
        forall|i: int| 0 <= i < w@.len() ==> !forbidden(a, b, #[trigger] w@[i]),
        forall|i: int|
            0 <= i < w@.len() - 1 ==> lattice_neighbors(
                lattice.x@,
                lattice.y@,
                #[trigger] w@[i],
                w@[i + 1],
            ),
        exists|hs: Seq<int>|
            {
                &&& walk_from(
                    lattice.x@,
                    lattice.y@,
                    a,
                    b,
                    mid,
                    da,
                    found.states@[start_k as int],
                    zero_rank(),
                    hs,
                ) == Some((found.states@[winner as int], rank_of(found.dist@[winner as int]->0)))
                &&& w@ == walk_positions(
                    lattice.x@,
                    lattice.y@,
                    a,
                    b,
                    mid,
                    da,
                    found.states@[start_k as int],
                    zero_rank(),
                    hs,
                )
            },
{
    let ghost xs = lattice.x@;
    let ghost ys = lattice.y@;
    let ghost states = found.states@;
    let ghost dist = found.dist@;
    let ghost n = states.len();
    let mut rev: Vec<Pos> = Vec::new();
    let mut cur = winner;
    let ghost mut tail: Seq<int> = Seq::empty();
    let ghost mut fwd: Seq<Pos> = seq![state_pos(xs, ys, states[winner as int])];
    loop
        invariant_except_break
            rev@.len() == 0 ==> cur == winner,
            rev@.len() > 0 ==> lattice_neighbors(
                xs,
                ys,
                state_pos(xs, ys, states[cur as int]),
                rev@[rev@.len() - 1],
            ),
            rev@.len() + 1 == fwd.len(),
            forall|i: int| 0 <= i < rev@.len() ==> #[trigger] rev@[i] == fwd[fwd.len() - 1 - i],
        invariant
            xs == lattice.x@,
            ys == lattice.y@,
            states == found.states@,
            dist == found.dist@,
            n == states.len(),
            trace_ok(xs, ys, states, found.dist@, found.prev@, a, b, start_k as int),
            exact(xs, ys, states, dist, found.prev@, a, b, mid, da, start_k as int),
            cur < n,
            found.dist@[cur as int] is Some,
            rev@.len() > 0 ==> rev@[0] == state_pos(xs, ys, states[winner as int]),
            forall|i: int| 0 <= i < rev@.len() ==> !forbidden(a, b, #[trigger] rev@[i]),
            forall|i: int|
                0 <= i < rev@.len() - 1 ==> lattice_neighbors(xs, ys, #[trigger] rev@[i], rev@[i + 1]),
            walk_from(xs, ys, a, b, mid, da, states[cur as int], rank_of(dist[cur as int]->0), tail)
                == Some((states[winner as int], rank_of(dist[winner as int]->0))),
            fwd == walk_positions(
                xs,
                ys,
                a,
                b,
                mid,
                da,
                states[cur as int],
                rank_of(dist[cur as int]->0),
                tail,
            ),
        ensures
            rev@.len() >= 1,
            rev@[0] == state_pos(xs, ys, states[winner as int]),
            rev@[rev@.len() - 1] == state_pos(xs, ys, states[start_k as int]),
            forall|i: int| 0 <= i < rev@.len() ==> !forbidden(a, b, #[trigger] rev@[i]),
            forall|i: int|
                0 <= i < rev@.len() - 1 ==> lattice_neighbors(xs, ys, #[trigger] rev@[i], rev@[i + 1]),
            cur == start_k,
            rev@.len() == fwd.len(),
            forall|i: int| 0 <= i < rev@.len() ==> #[trigger] rev@[i] == fwd[fwd.len() - 1 - i],
        decreases
            found.dist@[cur as int]->0.bends,
            found.dist@[cur as int]->0.length,
            found.dist@[cur as int]->0.from_middle,
            found.dist@[cur as int]->0.hand,
    {
        let (ix, iy, _h) = found.states[cur];
        let pos = lattice.pos((ix, iy));
        let ghost before = rev@;
        rev.push(pos);
        proof {
            assert(fwd[0] == pos);
            assert forall|i: int| 0 <= i < rev@.len() implies #[trigger] rev@[i] == fwd[fwd.len()
                - 1 - i] by {
                if i < before.len() {
                    assert(rev@[i] == before[i]);
                }
            }
            assert forall|i: int| 0 <= i < rev@.len() - 1 implies lattice_neighbors(
                xs,
                ys,
                #[trigger] rev@[i],
                rev@[i + 1],
            ) by {
                if i < before.len() - 1 {
                    assert(rev@[i] == before[i] && rev@[i + 1] == before[i + 1]);
                } else {
                    let p = state_pos(xs, ys, states[cur as int]);
                    let q = before[before.len() - 1];
                    assert(lattice_neighbors(xs, ys, p, q));
                    assert(rev@[i] == q);
                    assert(rev@[i + 1] == p);
                }
            }
        }
        if cur == start_k {
            break;
        }
        let q = found.prev[cur].unwrap();
        proof {
            let sq = states[q as int];
            let sc = states[cur as int];
            lemma_step_neighbors(xs, ys, (sq.0, sq.1), spec_direction_at(sc.2 as int), (sc.0, sc.1));
            let h = sc.2 as int;
            let nt = seq![h] + tail;
            crate::search::lemma_exact_at(
                xs, ys, states, dist, found.prev@, a, b, mid, da, start_k as int, cur as int,
            );
            crate::search::lemma_walk_prepend(
                xs, ys, a, b, mid, da, sq, rank_of(dist[q as int]->0), h, sc,
                rank_of(dist[cur as int]->0), tail,
            );
            let nf = seq![state_pos(xs, ys, sq)] + fwd;
            assert forall|i: int| 0 <= i < rev@.len() implies #[trigger] rev@[i] == nf[nf.len() - 1
                - i] by {
                assert(nf[nf.len() - 1 - i] == fwd[fwd.len() - 1 - i]);
            }
            tail = nt;
            fwd = nf;
        }
        cur = q;
    }
    let w = reversed(&rev);
    proof {
        lemma_reversed_route(xs, ys, rev@, w@, a, b);
        assert(w@ =~= fwd);
        assert(rank_of(dist[start_k as int]->0) == zero_rank());
    }
    w
}

proof fn lemma_reversed_route(xs: Seq<i32>, ys: Seq<i32>, rev: Seq<Pos>, w: Seq<Pos>, a: Pos, b: Pos)
    requires
        w.len() == rev.len(),
        forall|j: int| 0 <= j < rev.len() ==> #[trigger] w[j] == rev[rev.len() - 1 - j],
        forall|i: int| 0 <= i < rev.len() ==> !forbidden(a, b, #[trigger] rev[i]),
        forall|i: int| 0 <= i < rev.len() - 1 ==> lattice_neighbors(xs, ys, #[trigger] rev[i], rev[i + 1]),
    ensures
        forall|i: int| 0 <= i < w.len() ==> !forbidden(a, b, #[trigger] w[i]),
        forall|i: int| 0 <= i < w.len() - 1 ==> lattice_neighbors(xs, ys, #[trigger] w[i], w[i + 1]),
{
    let len = rev.len();
    assert forall|j: int| 0 <= j < w.len() implies !forbidden(a, b, #[trigger] w[j]) by {
        assert(w[j] == rev[len - 1 - j]);
    }
    assert forall|j: int| 0 <= j < w.len() - 1 implies lattice_neighbors(xs, ys, #[trigger] w[j], w[j + 1]) by {
        let k = len - 2 - j;
        assert(w[j] == rev[k + 1]);
        assert(w[j + 1] == rev[k]);
        assert(lattice_neighbors(xs, ys, rev[k], rev[k + 1]));
    }
}

/// The positions of `v` in reverse order.
fn reversed(v: &Vec<Pos>) -> (w: Vec<Pos>)
    ensures
        w@.len() == v@.len(),
        forall|j: int| 0 <= j < v@.len() ==> #[trigger] w@[j] == v@[v@.len() - 1 - j],
{
    let mut w: Vec<Pos> = Vec::new();
    let len = v.len();
    let mut i: usize = 0;
    while i < len
        invariant
            len == v@.len(),
            i <= len,
            w@.len() == i,
            forall|j: int| 0 <= j < i ==> #[trigger] w@[j] == v@[len - 1 - j],
        decreases len - i,
    {
        w.push(v[len - 1 - i]);
        i += 1;
    }
    w
}

/// Whether the state stored at `j` sits at the goal node `goal`, was reached, and can be closed
/// against `exit_dir`.
pub open spec fn closes_at_goal(
    found: Search,
    goal: (usize, usize),
    j: int,
    exit_dir: Direction,
    t: Pos,
    mid: Pos,
    da: Direction,
) -> bool {
    &&& 0 <= j < found.states@.len()
    &&& found.states@[j].0 == goal.0
    &&& found.states@[j].1 == goal.1
    &&& found.dist@[j] is Some
    &&& spec_close(rank_of(found.dist@[j]->0), found.states@[j].2 as int, exit_dir, t, mid, da) is Some
}

/// The rank the state stored at `j` closes at.
pub open spec fn closed_rank(
    found: Search,
    j: int,
    exit_dir: Direction,
    t: Pos,
    mid: Pos,
    da: Direction,
) -> Rank {
    spec_close(rank_of(found.dist@[j]->0), found.states@[j].2 as int, exit_dir, t, mid, da)->0
}

/// The state at the goal node `goal` whose route, closed against the exit direction, ranks
/// first; the first such in the fixed direction order where two tie, and `None` where no state
/// at `goal` that the exit does not reverse was reached.
fn pick_winner(
    lattice: &Lattice,
    found: &Search,
    goal: (usize, usize),
    exit_dir: Direction,
    t: Pos,
    mid: Pos,
    da: Direction,
    Ghost(a): Ghost<Pos>,
    Ghost(b): Ghost<Pos>,
    Ghost(start_k): Ghost<int>,
) -> (r: Option<usize>)
    requires
        search_ok(
            lattice.x@,
            lattice.y@,
            found.states@,
            found.dist@,
            found.prev@,
            found.done@,
            a,
            b,
            start_k,
            found.states@.len() as int,
        ),
        goal.0 < lattice.x@.len(),
        goal.1 < lattice.y@.len(),
    ensures
        r matches Some(k) ==> {
            &&& closes_at_goal(*found, goal, k as int, exit_dir, t, mid, da)
            &&& forall|j: int|
                #[trigger] closes_at_goal(*found, goal, j, exit_dir, t, mid, da) ==> rank_le(
                    closed_rank(*found, k as int, exit_dir, t, mid, da),
                    closed_rank(*found, j, exit_dir, t, mid, da),
                )
        },
        r is None ==> forall|j: int| !#[trigger] closes_at_goal(*found, goal, j, exit_dir, t, mid, da),
{
    let nx = lattice.x.len();
    let ny = lattice.y.len();
    let ghost n = found.states@.len();
    assert(n <= 196) by (nonlinear_arith)
        requires
            n == nx * ny * 4,
            nx <= 7,
            ny <= 7,
    ;
    let mut best: Option<(Cost, usize)> = None;
    let mut h: usize = 0;
    while h < 4
        invariant
            nx == lattice.x@.len(),
            ny == lattice.y@.len(),
            n == found.states@.len(),
            n <= 196,
            goal.0 < nx,
            goal.1 < ny,
            h <= 4,
            1 <= nx <= 7,
            1 <= ny <= 7,
            states_ok(nx as nat, ny as nat, found.states@),
            found.dist@.len() == n,
            forall|j: int|
                0 <= j < n && (#[trigger] found.dist@[j]) is Some ==> cost_within(
                    found.dist@[j]->0,
                    n * step_bound(),
                ),
            best matches Some((total, k)) ==> {
                &&& closes_at_goal(*found, goal, k as int, exit_dir, t, mid, da)
                &&& rank_of(total) == closed_rank(*found, k as int, exit_dir, t, mid, da)
                &&& forall|j: int|
                    #[trigger] closes_at_goal(*found, goal, j, exit_dir, t, mid, da)
                        && found.states@[j].2 < h ==> rank_le(
                        rank_of(total),
                        closed_rank(*found, j, exit_dir, t, mid, da),
                    )
            },
            best is None ==> forall|j: int|
                #[trigger] closes_at_goal(*found, goal, j, exit_dir, t, mid, da) ==> found.states@[j].2
                    >= h,
        decreases 4 - h,
    {
        let dir = direction_at(h);
        let k = crate::search::index_of_state(nx, ny, (goal.0, goal.1, h), Ghost(found.states@));
        proof {
            assert forall|j: int|
                #[trigger] closes_at_goal(*found, goal, j, exit_dir, t, mid, da) && found.states@[j].2
                    == h implies j == k by {
                assert(found.states@[j] == (goal.0, goal.1, h));
            }
        }
        if dir != opposite(exit_dir) {
            if let Some(cost) = found.dist[k] {
                assert(cost_within(cost, n * step_bound()));
                let mut total = cost;
                if dir != exit_dir {
                    total.bends = total.bends + 1;
                    if cost.bends > 0 {
                        let (from_middle, hand) = run_cost(direction_orientation(dir), t, mid, da);
                        total.from_middle = total.from_middle + from_middle;
                        total.hand = total.hand + hand;
                    }
                }
                assert(closes_at_goal(*found, goal, k as int, exit_dir, t, mid, da));
                assert(rank_of(total) == closed_rank(*found, k as int, exit_dir, t, mid, da));
                match best {
                    None => {
                        best = Some((total, k));
                    },
                    Some((best_total, _)) => {
                        if cost_less(total, best_total) {
                            best = Some((total, k));
                        }
                    },
                }
            }
        }
        h += 1;
    }
    match best {
        Some((_, k)) => Some(k),
        None => None,
    }
}

proof fn lemma_route_clear(xs: Seq<i32>, ys: Seq<i32>, w: Seq<Pos>, a: Pos, b: Pos)
    requires
        w.len() >= 1,
        forall|i: int| 0 <= i < w.len() ==> !forbidden(a, b, #[trigger] w[i]),
        forall|i: int| 0 <= i < w.len() - 1 ==> lattice_neighbors(xs, ys, #[trigger] w[i], w[i + 1]),
        xs.contains(a.x),
        ys.contains(a.y),
        xs.contains(b.x),
        ys.contains(b.y),
    ensures
        aligned_steps(w),
        forall|k: int| 0 <= k < spec_expand(w).len() ==> !forbidden(a, b, #[trigger] spec_expand(w)[k]),
{
    assert forall|i: int| 0 <= i < w.len() - 1 implies (#[trigger] w[i]).x == w[i + 1].x || w[i].y
        == w[i + 1].y by {
        assert(lattice_neighbors(xs, ys, w[i], w[i + 1]));
    }
    lemma_expand_on_path(w);
    let e = spec_expand(w);
    assert forall|k: int| 0 <= k < e.len() implies !forbidden(a, b, #[trigger] e[k]) by {
        assert(on_waypoint_path(w, e[k]));
        let i = choose|i: int|
            0 <= i < w.len() && (e[k] == #[trigger] w[i] || (i + 1 < w.len() && between_on_axis(
                w[i],
                w[i + 1],
                e[k],
            )));
        if e[k] != w[i] {
            let p = w[i];
            let q = w[i + 1];
            assert(lattice_neighbors(xs, ys, p, q));
            let ja = choose|j: int| 0 <= j < ys.len() && ys[j] == a.y;
            let jb = choose|j: int| 0 <= j < ys.len() && ys[j] == b.y;
            let ka = choose|j: int| 0 <= j < xs.len() && xs[j] == a.x;
            let kb = choose|j: int| 0 <= j < xs.len() && xs[j] == b.x;
            if p.x == q.x {
                assert(!(p.y < ys[ja] < q.y) && !(q.y < ys[ja] < p.y));
                assert(!(p.y < ys[jb] < q.y) && !(q.y < ys[jb] < p.y));
            } else {
                assert(!(p.x < xs[ka] < q.x) && !(q.x < xs[ka] < p.x));
                assert(!(p.x < xs[kb] < q.x) && !(q.x < xs[kb] < p.x));
            }
        }
    }
}

/// The middle of the span between the two starting positions `s` and `t`: on each axis the cell
/// halfway along it, taken nearer `s` where the span holds an even number of cells.
pub open spec fn route_middle(s: Pos, t: Pos) -> Pos {
    Pos {
        x: spec_midpoint(
            if s.x <= t.x {
                s.x
            } else {
                t.x
            },
            if s.x <= t.x {
                t.x
            } else {
                s.x
            },
            s.x,
        ),
        y: spec_midpoint(
            if s.y <= t.y {
                s.y
            } else {
                t.y
            },
            if s.y <= t.y {
                t.y
            } else {
                s.y
            },
            s.y,
        ),
    }
}

/// Whether `xs` and `ys` are the lines a route between the starting positions `s` and `t` may
/// turn on: on each axis, in increasing order, the line each starting position pins, the lines
/// beside each, and the middle.
pub open spec fn route_lattice(s: Pos, t: Pos, xs: Seq<i32>, ys: Seq<i32>) -> bool {
    let mid = route_middle(s, t);
    &&& lattice_axis_ok(xs)
    &&& lattice_axis_ok(ys)
    &&& forall|v: i32| xs.contains(v) <==> axis_candidate(s.x, t.x, mid.x, v as int)
    &&& forall|v: i32| ys.contains(v) <==> axis_candidate(s.y, t.y, mid.y, v as int)
}

/// The state a route over the lattice `xs` by `ys` starts in: the node at `s`, heading along
/// `da`.
pub open spec fn route_start(xs: Seq<i32>, ys: Seq<i32>, s: Pos, da: Direction) -> State {
    (
        choose|i: usize| i < xs.len() && xs[i as int] == s.x,
        choose|j: usize| j < ys.len() && ys[j as int] == s.y,
        spec_direction_index(da),
    )
}

/// The rank of the route the headings `hs` take over the lattice `xs` by `ys`, from the first
/// starting position heading along `da` to the second, closed against the direction continuing
/// into `b`. `None` where one of its steps is refused, or it ends anywhere but the second
/// starting position, or closing there would reverse it.
pub open spec fn route_rank(
    xs: Seq<i32>,
    ys: Seq<i32>,
    a: Pos,
    da: Direction,
    b: Pos,
    db: Direction,
    hs: Seq<int>,
) -> Option<Rank> {
    let s = spec_offset(a, da)->0;
    let t = spec_offset(b, db)->0;
    let mid = route_middle(s, t);
    match walk_from(xs, ys, a, b, mid, da, route_start(xs, ys, s, da), zero_rank(), hs) {
        None => None,
        Some((end, r)) => if state_pos(xs, ys, end) == t {
            spec_close(r, end.2 as int, spec_opposite(db), t, mid, da)
        } else {
            None
        },
    }
}

/// The lattice points the route the headings `hs` take passes through, in order.
pub open spec fn route_points(
    xs: Seq<i32>,
    ys: Seq<i32>,
    a: Pos,
    da: Direction,
    b: Pos,
    db: Direction,
    hs: Seq<int>,
) -> Seq<Pos> {
    let s = spec_offset(a, da)->0;
    let t = spec_offset(b, db)->0;
    walk_positions(xs, ys, a, b, route_middle(s, t), da, route_start(xs, ys, s, da), zero_rank(), hs)
}

/// Two places of an increasing axis holding one line are one place.
pub(crate) proof fn lemma_axis_place_unique(v: Seq<i32>, i: int, j: int)
    requires
        strictly_increasing(v),
        0 <= i < v.len(),
        0 <= j < v.len(),
        v[i] == v[j],
    ensures
        i == j,
{
    if i < j {
        assert(v[i] < v[j]);
    } else if j < i {
        assert(v[j] < v[i]);
    }
}

/// A state of the lattice at the position `p` sits at the node whose lines are `p`'s.
proof fn lemma_state_at(xs: Seq<i32>, ys: Seq<i32>, st: State, node: (usize, usize), p: Pos)
    requires
        lattice_axis_ok(xs),
        lattice_axis_ok(ys),
        state_ok(xs.len(), ys.len(), st),
        node.0 < xs.len(),
        node.1 < ys.len(),
        xs[node.0 as int] == p.x,
        ys[node.1 as int] == p.y,
        state_pos(xs, ys, st) == p,
    ensures
        st.0 == node.0,
        st.1 == node.1,
{
    lemma_axis_place_unique(xs, st.0 as int, node.0 as int);
    lemma_axis_place_unique(ys, st.1 as int, node.1 as int);
}

/// One route over the lattice, as the search ranked it: where it ends, it ends at a state the
/// search reached, recorded no later; and where it closes at the second starting position, that
/// state closes too, no later.
proof fn lemma_route_recorded(
    xs: Seq<i32>,
    ys: Seq<i32>,
    found: Search,
    a: Pos,
    da: Direction,
    b: Pos,
    db: Direction,
    s: Pos,
    t: Pos,
    mid: Pos,
    start: State,
    goal: (usize, usize),
    other: Seq<int>,
) -> (j: int)
    requires
        start == route_start(xs, ys, s, da),
        spec_offset(a, da) == Some(s),
        spec_offset(b, db) == Some(t),
        mid == route_middle(s, t),
        lattice_axis_ok(xs),
        lattice_axis_ok(ys),
        states_ok(xs.len(), ys.len(), found.states@),
        found.dist@.len() == found.states@.len(),
        goal.0 < xs.len(),
        goal.1 < ys.len(),
        xs[goal.0 as int] == t.x,
        ys[goal.1 as int] == t.y,
        recorded_no_later(
            xs,
            ys,
            found.dist@,
            walk_from(xs, ys, a, b, mid, da, start, zero_rank(), other),
        ),
        route_rank(xs, ys, a, da, b, db, other) is Some,
    ensures
        closes_at_goal(found, goal, j, spec_opposite(db), t, mid, da),
        rank_le(
            closed_rank(found, j, spec_opposite(db), t, mid, da),
            route_rank(xs, ys, a, da, b, db, other)->0,
        ),
{
    let w = walk_from(xs, ys, a, b, mid, da, start, zero_rank(), other);
    let (end, re) = w->0;
    let j = enc(ys.len(), end);
    crate::search::lemma_enc(xs.len(), ys.len(), end, end);
    crate::search::lemma_enc(xs.len(), ys.len(), end, found.states@[j]);
    assert(found.states@[j] == end);
    lemma_state_at(xs, ys, end, goal, t);
    crate::search::lemma_close_monotone(
        rank_of(found.dist@[j]->0),
        re,
        end.2 as int,
        spec_opposite(db),
        t,
        mid,
        da,
    );
    j
}

/// Where the search ranked every walk and the winner closes first among the states reached at the
/// goal, no route over the lattice ranks before the one that ends at the winner; where no state
/// reached at the goal closes, no route over the lattice exists.
proof fn lemma_route_least(
    xs: Seq<i32>,
    ys: Seq<i32>,
    found: Search,
    a: Pos,
    da: Direction,
    b: Pos,
    db: Direction,
    s: Pos,
    t: Pos,
    mid: Pos,
    start: State,
    goal: (usize, usize),
    k: int,
    hs: Seq<int>,
)
    requires
        start == route_start(xs, ys, s, da),
        spec_offset(a, da) == Some(s),
        spec_offset(b, db) == Some(t),
        mid == route_middle(s, t),
        lattice_axis_ok(xs),
        lattice_axis_ok(ys),
        states_ok(xs.len(), ys.len(), found.states@),
        found.dist@.len() == found.states@.len(),
        goal.0 < xs.len(),
        goal.1 < ys.len(),
        xs[goal.0 as int] == t.x,
        ys[goal.1 as int] == t.y,
        forall|other: Seq<int>|
            recorded_no_later(
                xs,
                ys,
                found.dist@,
                #[trigger] walk_from(xs, ys, a, b, mid, da, start, zero_rank(), other),
            ),
        k == -1 ==> forall|j: int| !#[trigger] closes_at_goal(found, goal, j, spec_opposite(db), t, mid, da),
        k != -1 ==> {
            &&& closes_at_goal(found, goal, k, spec_opposite(db), t, mid, da)
            &&& forall|j: int|
                #[trigger] closes_at_goal(found, goal, j, spec_opposite(db), t, mid, da) ==> rank_le(
                    closed_rank(found, k, spec_opposite(db), t, mid, da),
                    closed_rank(found, j, spec_opposite(db), t, mid, da),
                )
            &&& walk_from(xs, ys, a, b, mid, da, start, zero_rank(), hs) == Some(
                (found.states@[k], rank_of(found.dist@[k]->0)),
            )
        },
    ensures
        k == -1 ==> forall|other: Seq<int>| #[trigger] route_rank(xs, ys, a, da, b, db, other) is None,
        k != -1 ==> route_rank(xs, ys, a, da, b, db, hs) == Some(
            closed_rank(found, k, spec_opposite(db), t, mid, da),
        ),
        k != -1 ==> forall|other: Seq<int>|
            #[trigger] route_rank(xs, ys, a, da, b, db, other) is Some ==> rank_le(
                route_rank(xs, ys, a, da, b, db, hs)->0,
                route_rank(xs, ys, a, da, b, db, other)->0,
            ),
{
    if k != -1 {
        let sk = found.states@[k];
        assert(state_pos(xs, ys, sk) == t);
    }
    assert forall|other: Seq<int>| #[trigger] route_rank(xs, ys, a, da, b, db, other) is Some
        implies k != -1 && rank_le(
        closed_rank(found, k, spec_opposite(db), t, mid, da),
        route_rank(xs, ys, a, da, b, db, other)->0,
    ) by {
        let j = lemma_route_recorded(xs, ys, found, a, da, b, db, s, t, mid, start, goal, other);
    }
}

/// Whether `p` is the route the headings `hs` take over the lattice `xs` by `ys` around the
/// arrow's two starting positions, and no route over that lattice ranks before it: fewest bends,
/// then shortest, then nearest the middle, then to the right of the arrow's own travel.
pub open spec fn least_route(
    a: Pos,
    da: Direction,
    b: Pos,
    db: Direction,
    xs: Seq<i32>,
    ys: Seq<i32>,
    hs: Seq<int>,
    p: Seq<Pos>,
) -> bool {
    &&& route_lattice(spec_offset(a, da)->0, spec_offset(b, db)->0, xs, ys)
    &&& route_rank(xs, ys, a, da, b, db, hs) is Some
    &&& p == spec_expand(route_points(xs, ys, a, da, b, db, hs))
    &&& forall|other: Seq<int>|
        #[trigger] route_rank(xs, ys, a, da, b, db, other) is Some ==> rank_le(
            route_rank(xs, ys, a, da, b, db, hs)->0,
            route_rank(xs, ys, a, da, b, db, other)->0,
        )
}

/// Whether no route at all runs over the lattice `xs` by `ys` around the arrow's two starting
/// positions.
pub open spec fn no_route(a: Pos, da: Direction, b: Pos, db: Direction, xs: Seq<i32>, ys: Seq<i32>) -> bool {
    &&& route_lattice(spec_offset(a, da)->0, spec_offset(b, db)->0, xs, ys)
    &&& forall|hs: Seq<int>| #[trigger] route_rank(xs, ys, a, da, b, db, hs) is None
}

/// The route the winner's walk takes is a least route, once its rank is known to be no later
/// than any other's.
proof fn lemma_least_route(
    a: Pos,
    da: Direction,
    b: Pos,
    db: Direction,
    xs: Seq<i32>,
    ys: Seq<i32>,
    s: Pos,
    t: Pos,
    mid: Pos,
    start: State,
    hs: Seq<int>,
    waypoints: Seq<Pos>,
    path: Seq<Pos>,
)
    requires
        spec_offset(a, da) == Some(s),
        spec_offset(b, db) == Some(t),
        mid == route_middle(s, t),
        start == route_start(xs, ys, s, da),
        route_lattice(s, t, xs, ys),
        route_rank(xs, ys, a, da, b, db, hs) is Some,
        forall|other: Seq<int>|
            #[trigger] route_rank(xs, ys, a, da, b, db, other) is Some ==> rank_le(
                route_rank(xs, ys, a, da, b, db, hs)->0,
                route_rank(xs, ys, a, da, b, db, other)->0,
            ),
        waypoints == walk_positions(xs, ys, a, b, mid, da, start, zero_rank(), hs),
        path == spec_expand(waypoints),
    ensures
        least_route(a, da, b, db, xs, ys, hs, path),
{
}

/// Derives an arrow's route: the path between its two starting positions, `None` where no path
/// exists and the arrow is its two heads alone.
///
/// The route is the path ranked first by [`Cost`], found by a search over the states of the
/// lattice around the two starting positions; the search starts at the first starting position
/// heading along `da`, and closes at the second against the direction continuing into `b`.
#[verifier::spinoff_prover]
#[verifier::rlimit(80)]
pub fn derive_path(a: Pos, da: Direction, b: Pos, db: Direction) -> (r: Option<Vec<Pos>>)
    requires
        route_in_range(a, da, b, db),
    ensures
        route_refused(a, da, b, db) ==> r is None,
        r matches Some(p) ==> arrow_route(a, da, b, db, p@),
        r matches Some(p) ==> visits_once(p@),
        r matches Some(p) ==> exists|xs: Seq<i32>, ys: Seq<i32>, hs: Seq<int>|
            #[trigger] least_route(a, da, b, db, xs, ys, hs, p@),
        r is None && !route_refused(a, da, b, db) ==> exists|xs: Seq<i32>, ys: Seq<i32>|
            #[trigger] no_route(a, da, b, db, xs, ys),
{
    if a == b && da == db {
        return None;
    }
    let s = match offset(a, da) {
        Some(s) => s,
        None => return None,
    };
    let t = match offset(b, db) {
        Some(t) => t,
        None => return None,
    };
    if s == a || s == b || t == a || t == b {
        return None;
    }
    let rectangle = RouteRectangle::spanning(s, t);
    let mid = rectangle.middle(s);
    let lattice = Lattice::new(s, t, mid);
    proof {
        assert(axis_candidate(s.x, t.x, mid.x, s.x as int));
        assert(axis_candidate(s.y, t.y, mid.y, s.y as int));
        assert(axis_candidate(s.x, t.x, mid.x, t.x as int));
        assert(axis_candidate(s.y, t.y, mid.y, t.y as int));
        assert(axis_candidate(s.x, t.x, mid.x, a.x as int));
        assert(axis_candidate(s.y, t.y, mid.y, a.y as int));
        assert(axis_candidate(s.x, t.x, mid.x, b.x as int));
        assert(axis_candidate(s.y, t.y, mid.y, b.y as int));
    }
    let start_node = lattice.node(s);
    let start: State = (start_node.0, start_node.1, direction_index(da));
    let goal = lattice.node(t);
    let ghost xs = lattice.x@;
    let ghost ys = lattice.y@;
    proof {
        assert(mid == route_middle(s, t));
        assert(route_lattice(s, t, xs, ys));
        let rs = route_start(xs, ys, s, da);
        lemma_axis_place_unique(xs, rs.0 as int, start_node.0 as int);
        lemma_axis_place_unique(ys, rs.1 as int, start_node.1 as int);
        assert(start == rs);
    }
    let (r, Ghost(hs)) = least_path(&lattice, a, da, b, db, s, t, mid, start, goal);
    proof {
        if r is Some {
            assert(least_route(a, da, b, db, xs, ys, hs, r->0@));
            lemma_least_route_visits_once(a, da, b, db, xs, ys, hs, r->0@);
        } else {
            assert(no_route(a, da, b, db, xs, ys));
        }
    }
    r
}

/// The route ranked first over `lattice` between the starting positions `s` and `t`, from the
/// state `start` to the node `goal`; `None` where there is none.
#[verifier::spinoff_prover]
#[verifier::rlimit(100)]
fn least_path(
    lattice: &Lattice,
    a: Pos,
    da: Direction,
    b: Pos,
    db: Direction,
    s: Pos,
    t: Pos,
    mid: Pos,
    start: State,
    goal: (usize, usize),
) -> (r: (Option<Vec<Pos>>, Ghost<Seq<int>>))
    requires
        spec_offset(a, da) == Some(s),
        spec_offset(b, db) == Some(t),
        !forbidden(a, b, s),
        !forbidden(a, b, t),
        mid == route_middle(s, t),
        route_lattice(s, t, lattice.x@, lattice.y@),
        lattice.x@.contains(a.x),
        lattice.y@.contains(a.y),
        lattice.x@.contains(b.x),
        lattice.y@.contains(b.y),
        start == route_start(lattice.x@, lattice.y@, s, da),
        state_ok(lattice.x@.len(), lattice.y@.len(), start),
        state_pos(lattice.x@, lattice.y@, start) == s,
        start.2 == spec_direction_index(da),
        goal.0 < lattice.x@.len(),
        goal.1 < lattice.y@.len(),
        lattice.x@[goal.0 as int] == t.x,
        lattice.y@[goal.1 as int] == t.y,
    ensures
        r.0 matches Some(p) ==> arrow_route(a, da, b, db, p@),
        r.0 matches Some(p) ==> least_route(a, da, b, db, lattice.x@, lattice.y@, r.1@, p@),
        r.0 is None ==> no_route(a, da, b, db, lattice.x@, lattice.y@),
{
    let ghost xs = lattice.x@;
    let ghost ys = lattice.y@;
    let exit_dir = opposite(db);
    let (found, start_k) = search(&lattice, start, a, b, mid, da);
    let picked = pick_winner(
        &lattice,
        &found,
        goal,
        exit_dir,
        t,
        mid,
        da,
        Ghost(a),
        Ghost(b),
        Ghost(start_k as int),
    );
    let winner = match picked {
        Some(k) => k,
        None => {
            proof {
                assert(no_route(a, da, b, db, xs, ys)) by {
                    lemma_route_least(xs, ys, found, a, da, b, db, s, t, mid, start, goal, -1, Seq::empty());
                }
            }
            return (None, Ghost(Seq::empty()));
        },
    };
    proof {
        let (k0, k1, k2) = found.states@[start_k as int];
        crate::search::lemma_enc(xs.len(), ys.len(), start, found.states@[start_k as int]);
    }
    proof {
        crate::search::lemma_trace_ok(
            lattice.x@,
            lattice.y@,
            found.states@,
            found.dist@,
            found.prev@,
            found.done@,
            a,
            b,
            start_k as int,
            found.states@.len() as int,
        );
    }
    let waypoints = trace_back(
        &lattice,
        &found,
        start_k,
        winner,
        Ghost(a),
        Ghost(b),
        Ghost(mid),
        Ghost(da),
    );
    proof {
        lemma_route_clear(lattice.x@, lattice.y@, waypoints@, a, b);
        lemma_expand_steps(waypoints@);
    }
    let path = expand_waypoints(&waypoints);
    let ghost hs = choose|hs: Seq<int>|
            {
                &&& walk_from(
                    xs,
                    ys,
                    a,
                    b,
                    mid,
                    da,
                    found.states@[start_k as int],
                    zero_rank(),
                    hs,
                ) == Some((found.states@[winner as int], rank_of(found.dist@[winner as int]->0)))
                &&& waypoints@ == walk_positions(
                    xs,
                    ys,
                    a,
                    b,
                    mid,
                    da,
                    found.states@[start_k as int],
                    zero_rank(),
                    hs,
                )
            };
    proof {
        assert(least_route(a, da, b, db, xs, ys, hs, path@)) by {
            lemma_route_least(xs, ys, found, a, da, b, db, s, t, mid, start, goal, winner as int, hs);
            lemma_least_route(a, da, b, db, xs, ys, s, t, mid, start, hs, waypoints@, path@);
        }
    }
    (Some(path), Ghost(hs))
}

impl Arrow {
    /// Whether `stamps` are the cells, in order, of a route for this arrow that passes no position
    /// twice and that no route over the lattice around its starting positions ranks before.
    pub open spec fn spec_routed(&self, stamps: Seq<(Pos, Cell)>) -> bool {
        exists|p: Seq<Pos>, xs: Seq<i32>, ys: Seq<i32>, hs: Seq<int>|
            #[trigger] least_route(
                self.from.at,
                self.from.leaving,
                self.to.at,
                self.to.leaving,
                xs,
                ys,
                hs,
                p,
            ) && arrow_route(self.from.at, self.from.leaving, self.to.at, self.to.leaving, p)
                && visits_once(p) && stamps == route_stamps(self.from.at, self.to.at, p, self.stroke)
    }

    /// The two heads, the `from` endpoint's first.
    pub open spec fn spec_heads(&self) -> Seq<(Pos, Cell)> {
        seq![(self.from.at, Cell::Literal(self.from.head)), (self.to.at, Cell::Literal(self.to.head))]
    }
}

/// Whether every line the lattice around the two starting positions needs is an `i32`.
fn in_range(a: Pos, da: Direction, b: Pos, db: Direction) -> (r: bool)
    ensures
        r == route_in_range(a, da, b, db),
{
    match (offset(a, da), offset(b, db)) {
        (Some(s), Some(t)) => i32::MIN < s.x && s.x < i32::MAX && i32::MIN < t.x && t.x < i32::MAX
            && i32::MIN < s.y && s.y < i32::MAX && i32::MIN < t.y && t.y < i32::MAX,
        _ => true,
    }
}

impl Shape for Arrow {
    /// The two heads, `from`'s first, then the route's cells in order, if there is a route.
    open spec fn spec_writes(&self, stamps: Seq<(Pos, Cell)>) -> bool {
        &&& stamps.len() >= 2
        &&& stamps.take(2) == self.spec_heads()
        &&& route_refused(self.from.at, self.from.leaving, self.to.at, self.to.leaving)
            ==> stamps.len() == 2
        &&& stamps.len() > 2 ==> self.spec_routed(stamps.skip(2))
        &&& stamps.len() == 2 && route_in_range(
            self.from.at,
            self.from.leaving,
            self.to.at,
            self.to.leaving,
        ) && !route_refused(self.from.at, self.from.leaving, self.to.at, self.to.leaving)
            ==> exists|xs: Seq<i32>, ys: Seq<i32>|
            #[trigger] no_route(self.from.at, self.from.leaving, self.to.at, self.to.leaving, xs, ys)
    }

    fn stamps(&self) -> (r: Vec<(Pos, Cell)>) {
        let a = self.from.at;
        let da = self.from.leaving;
        let b = self.to.at;
        let db = self.to.leaving;
        let mut out: Vec<(Pos, Cell)> = Vec::new();
        out.push((a, Cell::Literal(self.from.head.duplicate())));
        out.push((b, Cell::Literal(self.to.head.duplicate())));
        assert(out@ =~= self.spec_heads());
        assert(out@.take(2) =~= self.spec_heads());
        if in_range(a, da, b, db) {
            let derived = derive_path(a, da, b, db);
            if let Some(positions) = derived {
                let ghost p = positions@;
                let ghost (xs, ys, hs) = choose|xs: Seq<i32>, ys: Seq<i32>, hs: Seq<int>|
                    #[trigger] least_route(a, da, b, db, xs, ys, hs, p);
                let route = Route { from: a, to: b, positions, stroke: self.stroke.duplicate() };
                proof {
                    assert(unit_steps(p));
                    assert(route_connected(a, b, p));
                }
                let rs = route.stamps();
                let mut i: usize = 0;
                while i < rs.len()
                    invariant
                        i <= rs@.len(),
                        out@ == self.spec_heads() + rs@.take(i as int),
                    decreases rs@.len() - i,
                {
                    out.push((rs[i].0, rs[i].1.duplicate()));
                    assert(rs@.take(i + 1) =~= rs@.take(i as int).push(rs@[i as int]));
                    i += 1;
                }
                proof {
                    assert(rs@.take(i as int) =~= rs@);
                    assert(out@.take(2) =~= self.spec_heads());
                    assert(out@.skip(2) =~= rs@);
                    assert(arrow_route(a, da, b, db, p));
                    assert(visits_once(p));
                    assert(out@.skip(2) == route_stamps(a, b, p, self.stroke));
                    assert(least_route(a, da, b, db, xs, ys, hs, p));
                    assert(self.spec_routed(out@.skip(2)));
                }
            }
        }
        assert(out@.len() >= 2);
        assert(out@.take(2) == self.spec_heads());
        assert(route_refused(a, da, b, db) ==> out@.len() == 2);
        assert(self.spec_writes(out@));
        out
    }
}

} // verus!
