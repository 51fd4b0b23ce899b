//! The pieces an arrow's route is derived from: runs between waypoints, the span the middle is
//! measured in, and the lattice of lines a route may turn on.
use vstd::prelude::*;

use crate::geometry::{adjacent, Direction, Orientation, Pos};

verus! {

/// The sign of `d`: `-1`, `0` or `1`.
pub open spec fn sign(d: int) -> int {
    if d < 0 {
        -1
    } else if d > 0 {
        1
    } else {
        0
    }
}

/// The distance between `p` and `q`, which share a coordinate, along the other one.
pub open spec fn span_between(p: Pos, q: Pos) -> nat {
    if p.x == q.x {
        (if q.y >= p.y { q.y - p.y } else { p.y - q.y }) as nat
    } else {
        (if q.x >= p.x { q.x - p.x } else { p.x - q.x }) as nat
    }
}

/// Every position from `from` to `to` inclusive, in that order; the two share a coordinate.
#[verifier::opaque]
pub open spec fn spec_positions_between(from: Pos, to: Pos) -> Seq<Pos> {
    if from.x == to.x {
        Seq::new(
            span_between(from, to) + 1,
            |k: int| Pos { x: from.x, y: (from.y + k * sign(to.y - from.y)) as i32 },
        )
    } else {
        Seq::new(
            span_between(from, to) + 1,
            |k: int| Pos { x: (from.x + k * sign(to.x - from.x)) as i32, y: from.y },
        )
    }
}

/// Whether each position of `p` is one cell from the next.
pub open spec fn unit_steps(p: Seq<Pos>) -> bool {
    forall|i: int| 0 <= i < p.len() - 1 ==> adjacent(#[trigger] p[i], p[i + 1])
}

/// Every position from `from` to `to` inclusive, in that order. The two must share a coordinate.
pub fn positions_between(from: Pos, to: Pos) -> (r: Vec<Pos>)
    requires
        from.x == to.x || from.y == to.y,
    ensures
        r@ == spec_positions_between(from, to),
{
    reveal(spec_positions_between);
    let mut out: Vec<Pos> = Vec::new();
    let ghost want = spec_positions_between(from, to);
    let vertical = from.x == to.x;
    let (c0, c1) = if vertical {
        (from.y as i64, to.y as i64)
    } else {
        (from.x as i64, to.x as i64)
    };
    let step: i64 = if c1 > c0 {
        1
    } else if c1 < c0 {
        -1
    } else {
        0
    };
    let n: i64 = if c1 >= c0 {
        c1 - c0
    } else {
        c0 - c1
    };
    assert(n + 1 == want.len());
    let mut k: i64 = 0;
    while k <= n
        invariant
            0 <= k <= n + 1,
            n + 1 == want.len(),
            vertical == (from.x == to.x),
            vertical ==> c0 == from.y && c1 == to.y,
            !vertical ==> c0 == from.x && c1 == to.x,
            step == sign(c1 - c0),
            n == (if c1 >= c0 { c1 - c0 } else { c0 - c1 }),
            want == spec_positions_between(from, to),
            out@ == want.take(k as int),
        decreases n + 1 - k,
    {
        proof {
            reveal(spec_positions_between);
        }
        let c = c0 + k * step;
        assert(c0 <= c <= c1 || c1 <= c <= c0) by (nonlinear_arith)
            requires
                c == c0 + k * step,
                0 <= k <= n,
                step == sign(c1 - c0),
                n == (if c1 >= c0 { c1 - c0 } else { c0 - c1 }),
        ;
        let p = if vertical {
            Pos { x: from.x, y: c as i32 }
        } else {
            Pos { x: c as i32, y: from.y }
        };
        out.push(p);
        assert(out@ =~= want.take(k + 1));
        k += 1;
    }
    assert(out@ =~= want);
    out
}

/// The positions between `from` and `to` start at `from`, end at `to`, and go one cell at a
/// time; every one strictly inside lies strictly between the two on the axis they differ on.
pub proof fn lemma_positions_between(from: Pos, to: Pos)
    requires
        from.x == to.x || from.y == to.y,
    ensures
        spec_positions_between(from, to).len() >= 1,
        spec_positions_between(from, to)[0] == from,
        spec_positions_between(from, to).last() == to,
        unit_steps(spec_positions_between(from, to)),
        forall|k: int|
            0 <= k < spec_positions_between(from, to).len() ==> {
                let e = #[trigger] spec_positions_between(from, to)[k];
                &&& (from.x == to.x ==> e.x == from.x && ((from.y <= e.y <= to.y) || (to.y
                    <= e.y <= from.y)))
                &&& (from.x != to.x ==> e.y == from.y && ((from.x <= e.x <= to.x) || (to.x
                    <= e.x <= from.x)))
            },
        forall|k: int|
            0 < k < spec_positions_between(from, to).len() - 1 ==> between_on_axis(
                from,
                to,
                #[trigger] spec_positions_between(from, to)[k],
            ),
{
    reveal(spec_positions_between);
    let p = spec_positions_between(from, to);
    assert forall|i: int| 0 <= i < p.len() - 1 implies adjacent(#[trigger] p[i], p[i + 1]) by {}
}

/// Every position between the waypoints `w`, each pair's shared boundary point written once.
pub open spec fn spec_expand(w: Seq<Pos>) -> Seq<Pos>
    decreases w.len(),
{
    if w.len() <= 1 {
        w
    } else {
        spec_expand(w.drop_last()) + spec_positions_between(w[w.len() - 2], w.last()).skip(1)
    }
}

/// Whether each waypoint of `w` shares a coordinate with the next.
pub open spec fn aligned_steps(w: Seq<Pos>) -> bool {
    forall|i: int|
        0 <= i < w.len() - 1 ==> (#[trigger] w[i]).x == w[i + 1].x || w[i].y == w[i + 1].y
}

/// Every position between the waypoints of a chosen candidate, each pair's shared boundary point
/// written once.
pub fn expand_waypoints(waypoints: &Vec<Pos>) -> (r: Vec<Pos>)
    requires
        aligned_steps(waypoints@),
    ensures
        r@ == spec_expand(waypoints@),
{
    if waypoints.len() <= 1 {
        let mut out = Vec::new();
        if waypoints.len() == 1 {
            out.push(waypoints[0]);
        }
        assert(out@ =~= waypoints@);
        return out;
    }
    let mut out: Vec<Pos> = Vec::new();
    out.push(waypoints[0]);
    let mut i: usize = 1;
    while i < waypoints.len()
        invariant
            1 <= i <= waypoints@.len(),
            aligned_steps(waypoints@),
            out@ == spec_expand(waypoints@.take(i as int)),
        decreases waypoints@.len() - i,
    {
        assert(waypoints@[i - 1].x == waypoints@[i as int].x || waypoints@[i - 1].y
            == waypoints@[i as int].y);
        let segment = positions_between(waypoints[i - 1], waypoints[i]);
        proof {
            lemma_positions_between(waypoints@[i - 1], waypoints@[i as int]);
        }
        let mut j: usize = 1;
        let ghost before = out@;
        while j < segment.len()
            invariant
                1 <= j <= segment@.len(),
                out@ == before + segment@.skip(1).take(j - 1),
            decreases segment@.len() - j,
        {
            out.push(segment[j]);
            assert(segment@.skip(1).take(j as int) =~= segment@.skip(1).take(j - 1).push(
                segment@[j as int],
            ));
            j += 1;
        }
        proof {
            assert(segment@.skip(1).take(j - 1) =~= segment@.skip(1));
            let w = waypoints@.take(i + 1);
            assert(w.drop_last() =~= waypoints@.take(i as int));
            assert(w[w.len() - 2] == waypoints@[i - 1]);
            assert(w.last() == waypoints@[i as int]);
        }
        i += 1;
    }
    assert(waypoints@.take(i as int) =~= waypoints@);
    out
}

proof fn lemma_aligned_prefix(w: Seq<Pos>)
    requires
        w.len() >= 1,
        aligned_steps(w),
    ensures
        aligned_steps(w.drop_last()),
{
    let w0 = w.drop_last();
    assert forall|i: int| 0 <= i < w0.len() - 1 implies (#[trigger] w0[i]).x == w0[i + 1].x
        || w0[i].y == w0[i + 1].y by {
        assert(w0[i] == w[i]);
        assert(w0[i + 1] == w[i + 1]);
    }
}

/// The expansion of `w` starts at its first waypoint, ends at its last, and goes one cell at a
/// time.
pub proof fn lemma_expand_steps(w: Seq<Pos>)
    requires
        w.len() >= 1,
        aligned_steps(w),
    ensures
        spec_expand(w).len() >= 1,
        spec_expand(w)[0] == w[0],
        spec_expand(w).last() == w.last(),
        unit_steps(spec_expand(w)),
    decreases w.len(),
{
    if w.len() > 1 {
        let w0 = w.drop_last();
        lemma_aligned_prefix(w);
        lemma_expand_steps(w0);
        let p = w[w.len() - 2];
        let q = w.last();
        assert(p.x == q.x || p.y == q.y);
        lemma_positions_between(p, q);
        let head = spec_expand(w0);
        let seg = spec_positions_between(p, q);
        let tail = seg.skip(1);
        let e = spec_expand(w);
        assert(e == head + tail);
        assert(head.last() == p);
        assert forall|i: int| 0 <= i < e.len() - 1 implies adjacent(#[trigger] e[i], e[i + 1]) by {
            if i + 1 < head.len() {
                assert(adjacent(head[i], head[i + 1]));
            } else if i + 1 == head.len() {
                assert(e[i] == p);
                assert(e[i + 1] == seg[1]);
                assert(adjacent(seg[0], seg[1]));
            } else {
                let j = i - head.len() + 1;
                assert(e[i] == seg[j]);
                assert(e[i + 1] == seg[j + 1]);
                assert(adjacent(seg[j], seg[j + 1]));
            }
        }
        if tail.len() > 0 {
            assert(e.last() == seg.last());
        } else {
            assert(seg.len() == 1);
            assert(seg[0] == q);
        }
    }
}

/// Every position in the expansion of `w` is a waypoint or lies strictly between two
/// consecutive ones, on the axis those two differ on.
pub proof fn lemma_expand_on_path(w: Seq<Pos>)
    requires
        w.len() >= 1,
        aligned_steps(w),
    ensures
        forall|k: int|
            0 <= k < spec_expand(w).len() ==> on_waypoint_path(w, #[trigger] spec_expand(w)[k]),
    decreases w.len(),
{
    if w.len() == 1 {
        assert forall|k: int| 0 <= k < spec_expand(w).len() implies on_waypoint_path(
            w,
            #[trigger] spec_expand(w)[k],
        ) by {
            assert(spec_expand(w)[k] == w[0]);
        }
    } else {
        let w0 = w.drop_last();
        lemma_aligned_prefix(w);
        lemma_expand_on_path(w0);
        let p = w[w.len() - 2];
        let q = w.last();
        assert(p.x == q.x || p.y == q.y);
        lemma_positions_between(p, q);
        let head = spec_expand(w0);
        let seg = spec_positions_between(p, q);
        let e = spec_expand(w);
        assert(e == head + seg.skip(1));
        assert forall|k: int| 0 <= k < e.len() implies on_waypoint_path(w, #[trigger] e[k]) by {
            if k < head.len() {
                assert(e[k] == head[k]);
                assert(on_waypoint_path(w0, head[k]));
                let i = choose|i: int|
                    0 <= i < w0.len() && (head[k] == #[trigger] w0[i] || (i + 1 < w0.len()
                        && between_on_axis(w0[i], w0[i + 1], head[k])));
                assert(w0[i] == w[i]);
                if i + 1 < w0.len() {
                    assert(w0[i + 1] == w[i + 1]);
                }
            } else {
                let j = k - head.len() + 1;
                assert(e[k] == seg[j]);
                if j == seg.len() - 1 {
                    assert(e[k] == w[w.len() - 1]);
                } else {
                    assert(between_on_axis(w[w.len() - 2], w[w.len() - 1], e[k]));
                }
            }
        }
    }
}

/// Whether `e` is one of the waypoints `w`, or lies strictly between two consecutive ones.
pub open spec fn on_waypoint_path(w: Seq<Pos>, e: Pos) -> bool {
    exists|i: int|
        0 <= i < w.len() && (e == #[trigger] w[i] || (i + 1 < w.len() && between_on_axis(
            w[i],
            w[i + 1],
            e,
        )))
}

/// Whether `e` lies strictly between `p` and `q`, which share a coordinate, on the axis they
/// differ on.
pub open spec fn between_on_axis(p: Pos, q: Pos, e: Pos) -> bool {
    if p.x == q.x {
        e.x == p.x && ((p.y < e.y < q.y) || (q.y < e.y < p.y))
    } else {
        e.y == p.y && ((p.x < e.x < q.x) || (q.x < e.x < p.x))
    }
}

} // verus!
