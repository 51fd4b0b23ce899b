//! Why a least route never passes a point twice: the walk that skips the loop between two
//! visits ranks strictly before it.
use vstd::prelude::*;

use crate::arrow::{
    lattice_neighbors, lemma_axis_place_unique, no_line_between, lemma_step_neighbors, route_lattice, route_middle,
    least_route, route_points, route_rank, route_refused, route_start, visits_once,
};
use crate::arrow_path::{
    between_on_axis, lemma_expand_on_path, lemma_positions_between, on_waypoint_path, sign,
    spec_expand, spec_positions_between,
};
use crate::geometry::{spec_offset, spec_opposite, Direction, Pos};
use crate::lattice::{
    axis_candidate, lattice_axis_ok, spec_direction_at, spec_lattice_pos, spec_lattice_step,
    strictly_increasing,
};
use crate::search::{
    forbidden, rank_le, rank_lt, spec_close, spec_step, state_ok, state_pos, walk_from, walk_positions, zero_rank,
    Rank, State,
};

verus! {

/// Following `hs1` and then `hs2` is following `hs1`, then `hs2` from where that ends.
proof fn lemma_walk_concat(
    xs: Seq<i32>,
    ys: Seq<i32>,
    a: Pos,
    b: Pos,
    mid: Pos,
    da: Direction,
    st: State,
    r: Rank,
    hs1: Seq<int>,
    hs2: Seq<int>,
)
    ensures
        walk_from(xs, ys, a, b, mid, da, st, r, hs1 + hs2) == match walk_from(
            xs,
            ys,
            a,
            b,
            mid,
            da,
            st,
            r,
            hs1,
        ) {
            Some((m, rm)) => walk_from(xs, ys, a, b, mid, da, m, rm, hs2),
            None => None::<(State, Rank)>,
        },
    decreases hs1.len(),
{
    if hs1.len() == 0 {
        assert(hs1 + hs2 =~= hs2);
    } else {
        let hs = hs1 + hs2;
        assert(hs[0] == hs1[0]);
        assert(hs.drop_first() =~= hs1.drop_first() + hs2);
        match spec_step(xs, ys, st, r, hs1[0], a, b, mid, da) {
            Some((next, rn)) => {
                lemma_walk_concat(xs, ys, a, b, mid, da, next, rn, hs1.drop_first(), hs2);
            },
            None => {},
        }
    }
}

/// Following one heading is taking one step.
proof fn lemma_walk_one(
    xs: Seq<i32>,
    ys: Seq<i32>,
    a: Pos,
    b: Pos,
    mid: Pos,
    da: Direction,
    st: State,
    r: Rank,
    h: int,
)
    ensures
        walk_from(xs, ys, a, b, mid, da, st, r, seq![h]) == spec_step(xs, ys, st, r, h, a, b, mid, da),
{
    let hs = seq![h];
    assert(hs[0] == h);
    assert(hs.drop_first() =~= Seq::<int>::empty());
    if let Some((next, rn)) = spec_step(xs, ys, st, r, h, a, b, mid, da) {
        assert(walk_from(xs, ys, a, b, mid, da, next, rn, Seq::<int>::empty()) == Some((next, rn)));
    }
}

/// Following the first `k` headings is following the first `k - 1` and then taking one step.
proof fn lemma_walk_last(
    xs: Seq<i32>,
    ys: Seq<i32>,
    a: Pos,
    b: Pos,
    mid: Pos,
    da: Direction,
    st: State,
    r: Rank,
    hs: Seq<int>,
    k: int,
)
    requires
        1 <= k <= hs.len(),
    ensures
        walk_from(xs, ys, a, b, mid, da, st, r, hs.take(k)) == match walk_from(
            xs,
            ys,
            a,
            b,
            mid,
            da,
            st,
            r,
            hs.take(k - 1),
        ) {
            Some((m, rm)) => spec_step(xs, ys, m, rm, hs[k - 1], a, b, mid, da),
            None => None::<(State, Rank)>,
        },
{
    assert(hs.take(k) =~= hs.take(k - 1) + seq![hs[k - 1]]);
    lemma_walk_concat(xs, ys, a, b, mid, da, st, r, hs.take(k - 1), seq![hs[k - 1]]);
    match walk_from(xs, ys, a, b, mid, da, st, r, hs.take(k - 1)) {
        Some((m, rm)) => {
            lemma_walk_one(xs, ys, a, b, mid, da, m, rm, hs[k - 1]);
        },
        None => {},
    }
}

/// A walk is refused or taken whatever rank it starts from; either way it ends in the same state
/// and adds the same bends and the same length.
proof fn lemma_walk_shift(
    xs: Seq<i32>,
    ys: Seq<i32>,
    a: Pos,
    b: Pos,
    mid: Pos,
    da: Direction,
    st: State,
    r1: Rank,
    r2: Rank,
    hs: Seq<int>,
)
    ensures
        walk_from(xs, ys, a, b, mid, da, st, r1, hs) is Some == walk_from(
            xs,
            ys,
            a,
            b,
            mid,
            da,
            st,
            r2,
            hs,
        ) is Some,
        walk_from(xs, ys, a, b, mid, da, st, r1, hs) is Some ==> {
            let w1 = walk_from(xs, ys, a, b, mid, da, st, r1, hs)->0;
            let w2 = walk_from(xs, ys, a, b, mid, da, st, r2, hs)->0;
            let (q1, q2) = (w1.1, w2.1);
            &&& w1.0 == w2.0
            &&& q1.0 - r1.0 == q2.0 - r2.0
            &&& q1.1 - r1.1 == q2.1 - r2.1
        },
    decreases hs.len(),
{
    if hs.len() > 0 {
        reveal(spec_step);
        let o1 = spec_step(xs, ys, st, r1, hs[0], a, b, mid, da);
        let o2 = spec_step(xs, ys, st, r2, hs[0], a, b, mid, da);
        if let (Some((n1, p1)), Some((n2, p2))) = (o1, o2) {
            assert(n1 == n2);
            lemma_walk_shift(xs, ys, a, b, mid, da, n1, p1, p2, hs.drop_first());
        } else {
            assert(o1 is None && o2 is None);
        }
    }
}

/// A walk from a state of the lattice stays on the lattice, adds at least one to the length for
/// every step, and adds a bend at least where it ends heading another way than it started.
proof fn lemma_walk_grows(
    xs: Seq<i32>,
    ys: Seq<i32>,
    a: Pos,
    b: Pos,
    mid: Pos,
    da: Direction,
    st: State,
    r: Rank,
    hs: Seq<int>,
)
    requires
        lattice_axis_ok(xs),
        lattice_axis_ok(ys),
        state_ok(xs.len(), ys.len(), st),
    ensures
        walk_from(xs, ys, a, b, mid, da, st, r, hs) is Some ==> {
            let w = walk_from(xs, ys, a, b, mid, da, st, r, hs)->0;
            let (e, q) = (w.0, w.1);
            &&& state_ok(xs.len(), ys.len(), e)
            &&& q.1 - r.1 >= hs.len()
            &&& q.0 - r.0 >= (if e.2 == st.2 {
                0int
            } else {
                1int
            })
        },
    decreases hs.len(),
{
    if hs.len() > 0 {
        reveal(spec_step);
        match spec_step(xs, ys, st, r, hs[0], a, b, mid, da) {
            Some((next, rn)) => {
                let (ix, iy, hd) = st;
                if ix > 0 {
                    assert(xs[ix - 1] < xs[ix as int]);
                }
                if ix + 1 < xs.len() {
                    assert(xs[ix as int] < xs[ix + 1]);
                }
                if iy > 0 {
                    assert(ys[iy - 1] < ys[iy as int]);
                }
                if iy + 1 < ys.len() {
                    assert(ys[iy as int] < ys[iy + 1]);
                }
                assert(state_ok(xs.len(), ys.len(), next));
                assert(rn.1 - r.1 >= 1);
                assert(rn.0 - r.0 == (if next.2 == st.2 {
                    0int
                } else {
                    1int
                }));
                lemma_walk_grows(xs, ys, a, b, mid, da, next, rn, hs.drop_first());
            },
            None => {},
        }
    }
}

/// A step against `d` from the node one step along `d` from `q`, where `q` lies on the
/// lattice's lines, reaches `q`.
proof fn lemma_step_back(xs: Seq<i32>, ys: Seq<i32>, node: (usize, usize), d: Direction, q: Pos)
    requires
        lattice_axis_ok(xs),
        lattice_axis_ok(ys),
        node.0 < xs.len(),
        node.1 < ys.len(),
        spec_offset(q, d) == Some(spec_lattice_pos(xs, ys, node)),
        xs.contains(q.x),
        ys.contains(q.y),
        spec_lattice_step(xs.len(), ys.len(), node, spec_opposite(d)) is Some,
    ensures
        spec_lattice_pos(
            xs,
            ys,
            spec_lattice_step(xs.len(), ys.len(), node, spec_opposite(d))->0,
        ) == q,
{
    let (ix, iy) = node;
    let mx = choose|m: int| 0 <= m < xs.len() && xs[m] == q.x;
    let my = choose|m: int| 0 <= m < ys.len() && ys[m] == q.y;
    match d {
        Direction::Right => {
            if mx >= ix {
                if mx > ix {
                    assert(xs[ix as int] < xs[mx]);
                }
            }
            if mx < ix - 1 {
                assert(xs[mx] < xs[ix - 1]);
            }
            assert(xs[ix - 1] < xs[ix as int]);
        },
        Direction::Left => {
            if mx <= ix {
                if mx < ix {
                    assert(xs[mx] < xs[ix as int]);
                }
            }
            if mx > ix + 1 {
                assert(xs[ix + 1] < xs[mx]);
            }
            assert(xs[ix as int] < xs[ix + 1]);
        },
        Direction::Down => {
            if my >= iy {
                if my > iy {
                    assert(ys[iy as int] < ys[my]);
                }
            }
            if my < iy - 1 {
                assert(ys[my] < ys[iy - 1]);
            }
            assert(ys[iy - 1] < ys[iy as int]);
        },
        Direction::Up => {
            if my <= iy {
                if my < iy {
                    assert(ys[my] < ys[iy as int]);
                }
            }
            if my > iy + 1 {
                assert(ys[iy + 1] < ys[my]);
            }
            assert(ys[iy as int] < ys[iy + 1]);
        },
    }
}

/// Where the route the headings `hs` take from the arrow's first starting position ends, and at
/// what rank; `None` where one of its steps is refused.
spec fn route_walk(
    xs: Seq<i32>,
    ys: Seq<i32>,
    a: Pos,
    da: Direction,
    b: Pos,
    db: Direction,
    hs: Seq<int>,
) -> Option<(State, Rank)> {
    let s = spec_offset(a, da)->0;
    let t = spec_offset(b, db)->0;
    walk_from(xs, ys, a, b, route_middle(s, t), da, route_start(xs, ys, s, da), zero_rank(), hs)
}

/// The lattice around the starting positions holds both of them and both endpoints, and a route
/// over it starts at a state of it, at the first starting position.
proof fn lemma_route_start_ok(a: Pos, da: Direction, b: Pos, db: Direction, xs: Seq<i32>, ys: Seq<i32>)
    requires
        spec_offset(a, da) is Some,
        spec_offset(b, db) is Some,
        route_lattice(spec_offset(a, da)->0, spec_offset(b, db)->0, xs, ys),
    ensures
        lattice_axis_ok(xs),
        lattice_axis_ok(ys),
        xs.contains(a.x),
        ys.contains(a.y),
        xs.contains(b.x),
        ys.contains(b.y),
        state_ok(xs.len(), ys.len(), route_start(xs, ys, spec_offset(a, da)->0, da)),
        state_pos(xs, ys, route_start(xs, ys, spec_offset(a, da)->0, da)) == spec_offset(a, da)->0,
        route_start(xs, ys, spec_offset(a, da)->0, da).2 == crate::lattice::spec_direction_index(da),
{
    let s = spec_offset(a, da)->0;
    let t = spec_offset(b, db)->0;
    let mid = route_middle(s, t);
    assert(axis_candidate(s.x, t.x, mid.x, s.x as int));
    assert(axis_candidate(s.y, t.y, mid.y, s.y as int));
    assert(axis_candidate(s.x, t.x, mid.x, a.x as int));
    assert(axis_candidate(s.y, t.y, mid.y, a.y as int));
    assert(axis_candidate(s.x, t.x, mid.x, b.x as int));
    assert(axis_candidate(s.y, t.y, mid.y, b.y as int));
    assert(xs.contains(s.x));
    assert(ys.contains(s.y));
    let kx = choose|k: int| 0 <= k < xs.len() && xs[k] == s.x;
    let ky = choose|k: int| 0 <= k < ys.len() && ys[k] == s.y;
    assert((kx as usize) < xs.len() && xs[(kx as usize) as int] == s.x);
    assert((ky as usize) < ys.len() && ys[(ky as usize) as int] == s.y);
}

/// A walk that is taken passes one position more than it has headings: the position each of
/// its prefixes ends at.
proof fn lemma_walk_points(
    xs: Seq<i32>,
    ys: Seq<i32>,
    a: Pos,
    b: Pos,
    mid: Pos,
    da: Direction,
    st: State,
    r: Rank,
    hs: Seq<int>,
)
    requires
        walk_from(xs, ys, a, b, mid, da, st, r, hs) is Some,
    ensures
        walk_positions(xs, ys, a, b, mid, da, st, r, hs).len() == hs.len() + 1,
        forall|k: int|
            0 <= k <= hs.len() ==> (#[trigger] walk_from(xs, ys, a, b, mid, da, st, r, hs.take(k)))
                is Some,
        forall|k: int|
            0 <= k <= hs.len() ==> walk_positions(xs, ys, a, b, mid, da, st, r, hs)[k] == state_pos(
                xs,
                ys,
                ((#[trigger] walk_from(xs, ys, a, b, mid, da, st, r, hs.take(k)))->0).0,
            ),
    decreases hs.len(),
{
    if hs.len() == 0 {
        assert(hs.take(0) =~= hs);
    } else {
        let (next, rn) = spec_step(xs, ys, st, r, hs[0], a, b, mid, da)->0;
        let rest = hs.drop_first();
        lemma_walk_points(xs, ys, a, b, mid, da, next, rn, rest);
        assert forall|k: int| 0 <= k <= hs.len() implies {
            &&& (#[trigger] walk_from(xs, ys, a, b, mid, da, st, r, hs.take(k))) is Some
            &&& walk_positions(xs, ys, a, b, mid, da, st, r, hs)[k] == state_pos(
                xs,
                ys,
                (walk_from(xs, ys, a, b, mid, da, st, r, hs.take(k))->0).0,
            )
        } by {
            if k == 0 {
                assert(hs.take(0) =~= Seq::<int>::empty());
            } else {
                let pre = hs.take(k);
                assert(pre[0] == hs[0]);
                assert(pre.drop_first() =~= rest.take(k - 1));
                assert(walk_from(xs, ys, a, b, mid, da, next, rn, rest.take(k - 1)) is Some);
            }
        }
    }
}

/// A step along `d` and then a step back against it returns to the node it started from.
proof fn lemma_step_inverse(nx: nat, ny: nat, node: (usize, usize), d: Direction)
    requires
        node.0 < nx <= 7,
        node.1 < ny <= 7,
        spec_lattice_step(nx, ny, node, d) is Some,
    ensures
        spec_lattice_step(nx, ny, spec_lattice_step(nx, ny, node, d)->0, spec_opposite(d)) == Some(
            node,
        ),
{
    let (ix, iy) = node;
    match d {
        Direction::Up => {
            assert(spec_lattice_step(nx, ny, node, d) == Some((ix, (iy - 1) as usize)));
            assert(spec_lattice_step(nx, ny, (ix, (iy - 1) as usize), Direction::Down) == Some((ix, iy)));
        },
        Direction::Down => {
            assert(spec_lattice_step(nx, ny, (ix, (iy + 1) as usize), Direction::Up) == Some((ix, iy)));
        },
        Direction::Left => {
            assert(spec_lattice_step(nx, ny, ((ix - 1) as usize, iy), Direction::Right) == Some((ix, iy)));
        },
        Direction::Right => {
            assert(spec_lattice_step(nx, ny, ((ix + 1) as usize, iy), Direction::Left) == Some((ix, iy)));
        },
    }
}

/// What a step that is taken does: it moves along its heading to the next node of the lattice,
/// which is not an endpoint, ends heading that way, and adds a bend where it turns.
proof fn lemma_step_facts(
    xs: Seq<i32>,
    ys: Seq<i32>,
    st: State,
    r: Rank,
    h: int,
    a: Pos,
    b: Pos,
    mid: Pos,
    da: Direction,
)
    requires
        spec_step(xs, ys, st, r, h, a, b, mid, da) is Some,
    ensures
        ({
            let (next, rn) = spec_step(xs, ys, st, r, h, a, b, mid, da)->0;
            &&& 0 <= h < 4
            &&& next.2 == h
            &&& spec_direction_at(h) != spec_opposite(spec_direction_at(st.2 as int))
            &&& spec_lattice_step(xs.len(), ys.len(), (st.0, st.1), spec_direction_at(h)) == Some(
                (next.0, next.1),
            )
            &&& !forbidden(a, b, state_pos(xs, ys, next))
        }),
{
    reveal(spec_step);
}

/// Two states at one node step alike along a heading that reverses neither: the same state is
/// reached, at the same added length, and the first adds no more bends than the second, plus one
/// where the two states head different ways.
proof fn lemma_step_alike(
    xs: Seq<i32>,
    ys: Seq<i32>,
    s1: State,
    r1: Rank,
    s2: State,
    r2: Rank,
    h: int,
    a: Pos,
    b: Pos,
    mid: Pos,
    da: Direction,
)
    requires
        s1.0 == s2.0,
        s1.1 == s2.1,
        s1.2 < 4,
        s2.2 < 4,
        spec_step(xs, ys, s2, r2, h, a, b, mid, da) is Some,
        spec_direction_at(h) != spec_opposite(spec_direction_at(s1.2 as int)),
    ensures
        spec_step(xs, ys, s1, r1, h, a, b, mid, da) is Some,
        ({
            let (n1, q1) = spec_step(xs, ys, s1, r1, h, a, b, mid, da)->0;
            let (n2, q2) = spec_step(xs, ys, s2, r2, h, a, b, mid, da)->0;
            &&& n1 == n2
            &&& q1.0 - r1.0 <= q2.0 - r2.0 + (if s1.2 == s2.2 {
                0int
            } else {
                1int
            })
            &&& q1.1 - r1.1 == q2.1 - r2.1
        }),
{
    reveal(spec_step);
}

/// A least route over the lattice never comes back to a point it has passed: were the point
/// after `j` headings the point after `i`, skipping the headings between them would give a route
/// ranked strictly before it, or one of the two visits would stand on an endpoint.
#[verifier::spinoff_prover]
#[verifier::rlimit(60)]
proof fn lemma_no_return(
    a: Pos,
    da: Direction,
    b: Pos,
    db: Direction,
    xs: Seq<i32>,
    ys: Seq<i32>,
    hs: Seq<int>,
    i: int,
    j: int,
)
    requires
        !route_refused(a, da, b, db),
        route_lattice(spec_offset(a, da)->0, spec_offset(b, db)->0, xs, ys),
        route_rank(xs, ys, a, da, b, db, hs) is Some,
        forall|other: Seq<int>|
            #[trigger] route_rank(xs, ys, a, da, b, db, other) is Some ==> rank_le(
                route_rank(xs, ys, a, da, b, db, hs)->0,
                route_rank(xs, ys, a, da, b, db, other)->0,
            ),
        0 <= i < j <= hs.len(),
    ensures
        route_walk(xs, ys, a, da, b, db, hs.take(i)) is Some,
        route_walk(xs, ys, a, da, b, db, hs.take(j)) is Some,
        state_pos(xs, ys, (route_walk(xs, ys, a, da, b, db, hs.take(i))->0).0) != state_pos(
            xs,
            ys,
            (route_walk(xs, ys, a, da, b, db, hs.take(j))->0).0,
        ),
    decreases i,
{
    let s = spec_offset(a, da)->0;
    let t = spec_offset(b, db)->0;
    let mid = route_middle(s, t);
    let start = route_start(xs, ys, s, da);
    let z = zero_rank();
    let n = hs.len() as int;
    lemma_route_start_ok(a, da, b, db, xs, ys);
    assert(walk_from(xs, ys, a, b, mid, da, start, z, hs) is Some);
    lemma_walk_points(xs, ys, a, b, mid, da, start, z, hs);
    assert(walk_from(xs, ys, a, b, mid, da, start, z, hs.take(i)) is Some);
    assert(walk_from(xs, ys, a, b, mid, da, start, z, hs.take(j)) is Some);
    if state_pos(xs, ys, (route_walk(xs, ys, a, da, b, db, hs.take(i))->0).0) != state_pos(
        xs,
        ys,
        (route_walk(xs, ys, a, da, b, db, hs.take(j))->0).0,
    ) {
        return;
    }
    let (si, ri) = route_walk(xs, ys, a, da, b, db, hs.take(i))->0;
    let (sj, rj) = route_walk(xs, ys, a, da, b, db, hs.take(j))->0;
    lemma_walk_grows(xs, ys, a, b, mid, da, start, z, hs.take(i));
    lemma_walk_grows(xs, ys, a, b, mid, da, start, z, hs.take(j));
    lemma_axis_place_unique(xs, si.0 as int, sj.0 as int);
    lemma_axis_place_unique(ys, si.1 as int, sj.1 as int);
    assert(hs.take(j) =~= hs.take(i) + hs.subrange(i, j));
    lemma_walk_concat(xs, ys, a, b, mid, da, start, z, hs.take(i), hs.subrange(i, j));
    lemma_walk_grows(xs, ys, a, b, mid, da, si, ri, hs.subrange(i, j));
    assert(hs.take(n) =~= hs);
    if j < n {
        let h = hs[j];
        lemma_walk_last(xs, ys, a, b, mid, da, start, z, hs, j + 1);
        lemma_step_facts(xs, ys, sj, rj, h, a, b, mid, da);
        let (sj1, rj1) = spec_step(xs, ys, sj, rj, h, a, b, mid, da)->0;
        if spec_direction_at(h) == spec_opposite(spec_direction_at(si.2 as int)) {
            if i > 0 {
                lemma_walk_last(xs, ys, a, b, mid, da, start, z, hs, i);
                let (sp, rp) = route_walk(xs, ys, a, da, b, db, hs.take(i - 1))->0;
                lemma_walk_grows(xs, ys, a, b, mid, da, start, z, hs.take(i - 1));
                lemma_step_facts(xs, ys, sp, rp, hs[i - 1], a, b, mid, da);
                lemma_step_inverse(xs.len(), ys.len(), (sp.0, sp.1), spec_direction_at(hs[i - 1]));
                assert(state_pos(xs, ys, sj1) == state_pos(xs, ys, sp));
                lemma_no_return(a, da, b, db, xs, ys, hs, i - 1, j + 1);
            } else {
                assert(hs.take(0) =~= Seq::<int>::empty());
                lemma_step_back(xs, ys, (sj.0, sj.1), da, a);
            }
        } else {
            let hs2 = hs.take(i) + hs.skip(j);
            assert(hs.skip(j) =~= seq![h] + hs.skip(j + 1));
            assert(hs =~= hs.take(j + 1) + hs.skip(j + 1));
            lemma_walk_concat(xs, ys, a, b, mid, da, start, z, hs.take(i), hs.skip(j));
            lemma_walk_concat(xs, ys, a, b, mid, da, si, ri, seq![h], hs.skip(j + 1));
            lemma_walk_one(xs, ys, a, b, mid, da, si, ri, h);
            lemma_walk_concat(xs, ys, a, b, mid, da, start, z, hs.take(j + 1), hs.skip(j + 1));
            lemma_step_alike(xs, ys, si, ri, sj, rj, h, a, b, mid, da);
            let (s2, r2) = spec_step(xs, ys, si, ri, h, a, b, mid, da)->0;
            lemma_walk_shift(xs, ys, a, b, mid, da, sj1, r2, rj1, hs.skip(j + 1));
            assert(route_rank(xs, ys, a, da, b, db, hs2) is Some);
            assert(rank_lt(
                route_rank(xs, ys, a, da, b, db, hs2)->0,
                route_rank(xs, ys, a, da, b, db, hs)->0,
            ));
        }
    } else {
        let hs2 = hs.take(i);
        if spec_direction_at(si.2 as int) == db {
            if i > 0 {
                lemma_walk_last(xs, ys, a, b, mid, da, start, z, hs, i);
                let (sp, rp) = route_walk(xs, ys, a, da, b, db, hs.take(i - 1))->0;
                lemma_walk_grows(xs, ys, a, b, mid, da, start, z, hs.take(i - 1));
                lemma_step_facts(xs, ys, sp, rp, hs[i - 1], a, b, mid, da);
                lemma_step_inverse(xs.len(), ys.len(), (sp.0, sp.1), db);
                lemma_step_back(xs, ys, (si.0, si.1), db, b);
                assert(state_pos(xs, ys, sp) == b);
                if i > 1 {
                    lemma_walk_last(xs, ys, a, b, mid, da, start, z, hs, i - 1);
                    let (sq, rq) = route_walk(xs, ys, a, da, b, db, hs.take(i - 2))->0;
                    lemma_step_facts(xs, ys, sq, rq, hs[i - 2], a, b, mid, da);
                } else {
                    assert(hs.take(0) =~= Seq::<int>::empty());
                }
            } else {
                assert(hs.take(0) =~= Seq::<int>::empty());
            }
        } else {
            assert(route_rank(xs, ys, a, da, b, db, hs2) is Some);
            assert(rank_lt(
                route_rank(xs, ys, a, da, b, db, hs2)->0,
                route_rank(xs, ys, a, da, b, db, hs)->0,
            ));
        }
    }
}

/// The points a least route over the lattice passes are distinct points of the lattice, each the
/// lattice neighbour of the next.
proof fn lemma_route_points(
    a: Pos,
    da: Direction,
    b: Pos,
    db: Direction,
    xs: Seq<i32>,
    ys: Seq<i32>,
    hs: Seq<int>,
)
    requires
        !route_refused(a, da, b, db),
        route_lattice(spec_offset(a, da)->0, spec_offset(b, db)->0, xs, ys),
        route_rank(xs, ys, a, da, b, db, hs) is Some,
        forall|other: Seq<int>|
            #[trigger] route_rank(xs, ys, a, da, b, db, other) is Some ==> rank_le(
                route_rank(xs, ys, a, da, b, db, hs)->0,
                route_rank(xs, ys, a, da, b, db, other)->0,
            ),
    ensures
        route_points(xs, ys, a, da, b, db, hs).len() >= 1,
        forall|i: int, j: int|
            0 <= i < j < route_points(xs, ys, a, da, b, db, hs).len() ==> route_points(
                xs,
                ys,
                a,
                da,
                b,
                db,
                hs,
            )[i] != route_points(xs, ys, a, da, b, db, hs)[j],
        forall|i: int|
            0 <= i < route_points(xs, ys, a, da, b, db, hs).len() ==> xs.contains(
                (#[trigger] route_points(xs, ys, a, da, b, db, hs)[i]).x,
            ) && ys.contains(route_points(xs, ys, a, da, b, db, hs)[i].y),
        forall|i: int|
            0 <= i < route_points(xs, ys, a, da, b, db, hs).len() - 1 ==> lattice_neighbors(
                xs,
                ys,
                #[trigger] route_points(xs, ys, a, da, b, db, hs)[i],
                route_points(xs, ys, a, da, b, db, hs)[i + 1],
            ),
{
    let s = spec_offset(a, da)->0;
    let t = spec_offset(b, db)->0;
    let mid = route_middle(s, t);
    let start = route_start(xs, ys, s, da);
    let z = zero_rank();
    let w = route_points(xs, ys, a, da, b, db, hs);
    lemma_route_start_ok(a, da, b, db, xs, ys);
    lemma_walk_points(xs, ys, a, b, mid, da, start, z, hs);
    assert forall|i: int, j: int| 0 <= i < j < w.len() implies w[i] != w[j] by {
        lemma_no_return(a, da, b, db, xs, ys, hs, i, j);
    }
    assert forall|i: int| 0 <= i < w.len() implies xs.contains((#[trigger] w[i]).x) && ys.contains(
        w[i].y,
    ) by {
        assert(walk_from(xs, ys, a, b, mid, da, start, z, hs.take(i)) is Some);
        lemma_walk_grows(xs, ys, a, b, mid, da, start, z, hs.take(i));
        let st = (walk_from(xs, ys, a, b, mid, da, start, z, hs.take(i))->0).0;
        assert(xs[st.0 as int] == w[i].x);
        assert(ys[st.1 as int] == w[i].y);
    }
    assert forall|i: int| 0 <= i < w.len() - 1 implies lattice_neighbors(
        xs,
        ys,
        #[trigger] w[i],
        w[i + 1],
    ) by {
        assert(walk_from(xs, ys, a, b, mid, da, start, z, hs.take(i)) is Some);
        assert(walk_from(xs, ys, a, b, mid, da, start, z, hs.take(i + 1)) is Some);
        lemma_walk_grows(xs, ys, a, b, mid, da, start, z, hs.take(i));
        lemma_walk_last(xs, ys, a, b, mid, da, start, z, hs, i + 1);
        let (st, r) = walk_from(xs, ys, a, b, mid, da, start, z, hs.take(i))->0;
        lemma_step_facts(xs, ys, st, r, hs[i], a, b, mid, da);
        let next = (spec_step(xs, ys, st, r, hs[i], a, b, mid, da)->0).0;
        lemma_step_neighbors(xs, ys, (st.0, st.1), spec_direction_at(hs[i]), (next.0, next.1));
    }
}

/// A line of `v` lies in no gap between two lines of `v` with no line between them.
proof fn lemma_line_outside(v: Seq<i32>, c: i32, c1: i32, c2: i32)
    requires
        v.contains(c),
        no_line_between(v, c1, c2),
    ensures
        !(c1 < c < c2),
        !(c2 < c < c1),
{
    let k = choose|k: int| 0 <= k < v.len() && v[k] == c;
    assert(!(c1 < v[k] < c2) && !(c2 < v[k] < c1));
}

/// Two gaps of `v`, each between two of its lines with no line between them, that share a point
/// strictly inside both are one gap.
proof fn lemma_same_gap(v: Seq<i32>, c1: i32, c2: i32, c3: i32, c4: i32, e: i32)
    requires
        v.contains(c1),
        v.contains(c2),
        v.contains(c3),
        v.contains(c4),
        no_line_between(v, c1, c2),
        no_line_between(v, c3, c4),
        (c1 < e < c2) || (c2 < e < c1),
        (c3 < e < c4) || (c4 < e < c3),
    ensures
        (c3 == c1 && c4 == c2) || (c3 == c2 && c4 == c1),
{
    lemma_line_outside(v, c3, c1, c2);
    lemma_line_outside(v, c4, c1, c2);
    lemma_line_outside(v, c1, c3, c4);
    lemma_line_outside(v, c2, c3, c4);
}

/// The positions of one run, from `from` to another position `to`, are distinct.
proof fn lemma_run_distinct(from: Pos, to: Pos)
    requires
        from.x == to.x || from.y == to.y,
        from != to,
    ensures
        forall|k1: int, k2: int|
            0 <= k1 < k2 < spec_positions_between(from, to).len() ==> spec_positions_between(
                from,
                to,
            )[k1] != spec_positions_between(from, to)[k2],
{
    reveal(spec_positions_between);
    let seg = spec_positions_between(from, to);
    assert forall|k1: int, k2: int| 0 <= k1 < k2 < seg.len() implies seg[k1] != seg[k2] by {
        if from.x == to.x {
            let sg = sign(to.y - from.y);
            if to.y > from.y {
                assert(k1 * sg == k1) by (nonlinear_arith)
                    requires
                        sg == 1,
                ;
                assert(k2 * sg == k2) by (nonlinear_arith)
                    requires
                        sg == 1,
                ;
            } else {
                assert(k1 * sg == -k1) by (nonlinear_arith)
                    requires
                        sg == -1,
                ;
                assert(k2 * sg == -k2) by (nonlinear_arith)
                    requires
                        sg == -1,
                ;
            }
        } else {
            let sg = sign(to.x - from.x);
            if to.x > from.x {
                assert(k1 * sg == k1) by (nonlinear_arith)
                    requires
                        sg == 1,
                ;
                assert(k2 * sg == k2) by (nonlinear_arith)
                    requires
                        sg == 1,
                ;
            } else {
                assert(k1 * sg == -k1) by (nonlinear_arith)
                    requires
                        sg == -1,
                ;
                assert(k2 * sg == -k2) by (nonlinear_arith)
                    requires
                        sg == -1,
                ;
            }
        }
    }
}

/// Whether the waypoints `w` are distinct points of the lattice `xs` by `ys`, each the lattice
/// neighbour of the next.
spec fn lattice_walk(xs: Seq<i32>, ys: Seq<i32>, w: Seq<Pos>) -> bool {
    &&& forall|i: int, j: int| 0 <= i < j < w.len() ==> w[i] != w[j]
    &&& forall|i: int|
        0 <= i < w.len() ==> xs.contains((#[trigger] w[i]).x) && ys.contains(w[i].y)
    &&& forall|i: int|
        0 <= i < w.len() - 1 ==> lattice_neighbors(xs, ys, #[trigger] w[i], w[i + 1])
}

/// A position on the last run of a lattice walk, past its start, lies on no earlier part of the
/// walk.
proof fn lemma_last_run_apart(xs: Seq<i32>, ys: Seq<i32>, w: Seq<Pos>, m: int, f: Pos, g: Pos)
    requires
        lattice_walk(xs, ys, w),
        w.len() >= 2,
        0 <= m < w.len() - 1,
        f == w[m] || (m + 1 < w.len() - 1 && between_on_axis(w[m], w[m + 1], f)),
        g == w[w.len() - 1] || between_on_axis(w[w.len() - 2], w[w.len() - 1], g),
    ensures
        f != g,
{
    let n = w.len() as int;
    let p = w[n - 2];
    let q = w[n - 1];
    assert(lattice_neighbors(xs, ys, p, q));
    assert(xs.contains(q.x) && ys.contains(q.y));
    assert(xs.contains(w[m].x) && ys.contains(w[m].y));
    if f == g {
        if g == q {
            if f != w[m] {
                let u = w[m];
                let v = w[m + 1];
                assert(lattice_neighbors(xs, ys, u, v));
                if u.x == v.x {
                    lemma_line_outside(ys, q.y, u.y, v.y);
                } else {
                    lemma_line_outside(xs, q.x, u.x, v.x);
                }
            }
        } else if f == w[m] {
            if p.x == q.x {
                lemma_line_outside(ys, f.y, p.y, q.y);
            } else {
                lemma_line_outside(xs, f.x, p.x, q.x);
            }
        } else {
            let u = w[m];
            let v = w[m + 1];
            assert(lattice_neighbors(xs, ys, u, v));
            assert(xs.contains(v.x) && ys.contains(v.y));
            assert(xs.contains(p.x) && ys.contains(p.y));
            if p.x == q.x {
                if u.x == v.x {
                    lemma_same_gap(ys, p.y, q.y, u.y, v.y, f.y);
                } else {
                    lemma_line_outside(ys, u.y, p.y, q.y);
                }
            } else {
                if u.x == v.x {
                    lemma_line_outside(xs, u.x, p.x, q.x);
                } else {
                    lemma_same_gap(xs, p.x, q.x, u.x, v.x, f.x);
                }
            }
        }
    }
}

/// The expansion of a lattice walk passes no position twice.
proof fn lemma_expand_distinct(xs: Seq<i32>, ys: Seq<i32>, w: Seq<Pos>)
    requires
        w.len() >= 1,
        lattice_walk(xs, ys, w),
    ensures
        forall|i: int, j: int|
            0 <= i < j < spec_expand(w).len() ==> spec_expand(w)[i] != spec_expand(w)[j],
    decreases w.len(),
{
    if w.len() > 1 {
        let n = w.len() as int;
        let w0 = w.drop_last();
        assert forall|i: int| 0 <= i < w0.len() - 1 implies lattice_neighbors(
            xs,
            ys,
            #[trigger] w0[i],
            w0[i + 1],
        ) by {
            assert(lattice_neighbors(xs, ys, w[i], w[i + 1]));
        }
        assert forall|i: int| 0 <= i < w0.len() implies xs.contains((#[trigger] w0[i]).x)
            && ys.contains(w0[i].y) by {
            assert(w0[i] == w[i]);
        }
        lemma_expand_distinct(xs, ys, w0);
        assert forall|i: int| 0 <= i < w0.len() - 1 implies (#[trigger] w0[i]).x == w0[i + 1].x
            || w0[i].y == w0[i + 1].y by {
            assert(lattice_neighbors(xs, ys, w0[i], w0[i + 1]));
        }
        lemma_expand_on_path(w0);
        let p = w[n - 2];
        let q = w[n - 1];
        assert(lattice_neighbors(xs, ys, p, q));
        lemma_positions_between(p, q);
        lemma_run_distinct(p, q);
        let head = spec_expand(w0);
        let seg = spec_positions_between(p, q);
        let e = spec_expand(w);
        assert(e == head + seg.skip(1));
        assert forall|i: int, j: int| 0 <= i < j < e.len() implies e[i] != e[j] by {
            if j < head.len() {
                assert(e[i] == head[i] && e[j] == head[j]);
            } else if i >= head.len() {
                assert(e[i] == seg[i - head.len() + 1]);
                assert(e[j] == seg[j - head.len() + 1]);
            } else {
                let k = j - head.len() + 1;
                assert(e[i] == head[i]);
                assert(e[j] == seg[k]);
                assert(on_waypoint_path(w0, head[i]));
                let m = choose|m: int|
                    0 <= m < w0.len() && (head[i] == #[trigger] w0[m] || (m + 1 < w0.len()
                        && between_on_axis(w0[m], w0[m + 1], head[i])));
                assert(w0[m] == w[m]);
                if m + 1 < w0.len() {
                    assert(w0[m + 1] == w[m + 1]);
                }
                if k < seg.len() - 1 {
                    assert(between_on_axis(p, q, seg[k]));
                }
                lemma_last_run_apart(xs, ys, w, m, head[i], seg[k]);
            }
        }
    }
}

/// A least route over the lattice around an arrow's starting positions, for an arrangement that
/// admits routes, passes no position twice.
pub proof fn lemma_least_route_visits_once(
    a: Pos,
    da: Direction,
    b: Pos,
    db: Direction,
    xs: Seq<i32>,
    ys: Seq<i32>,
    hs: Seq<int>,
    p: Seq<Pos>,
)
    requires
        !route_refused(a, da, b, db),
        least_route(a, da, b, db, xs, ys, hs, p),
    ensures
        visits_once(p),
{
    lemma_route_points(a, da, b, db, xs, ys, hs);
    lemma_expand_distinct(xs, ys, route_points(xs, ys, a, da, b, db, hs));
}

} // verus!
