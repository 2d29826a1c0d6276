use vstd::prelude::*;

use crate::cell::Cell;
use crate::character::Character;
use crate::character::Color;
use crate::walker::Walker;
use crate::rng::GameRng;
use crate::grid::lemma_row_major_distinct;
use crate::grid::row_major;
use std::collections::VecDeque;
use crate::grid::lemma_grid_size_bound;
use crate::grid::lemma_row_major_bound;
use vstd::arithmetic::div_mod::lemma_basic_div_specific_divisor;
use vstd::arithmetic::div_mod::lemma_div_pos_is_pos;
use vstd::arithmetic::div_mod::lemma_fundamental_div_mod;
use vstd::arithmetic::div_mod::lemma_mod_division_less_than_divisor;
use vstd::arithmetic::div_mod::lemma_multiply_divide_lt;
use vstd::arithmetic::mul::lemma_mul_inequality;
use vstd::arithmetic::mul::lemma_mul_is_distributive_add;
use vstd::arithmetic::mul::lemma_mul_nonnegative;
use vstd::math::abs;
use vstd::math::max;
use vstd::math::min;

verus! {

/// The number of sampling steps of the sight ray from `o` to `t`: the
/// larger of the two absolute axis deltas.
pub open spec fn sight_dmax(o: (int, int), t: (int, int)) -> int {
    max(abs(t.0 - o.0) as int, abs(t.1 - o.1) as int)
}

/// The grid point the ray from `o` to `t` samples at step `i`, for
/// `0 <= i <= sight_dmax(o, t)` (step `0` is `o` itself, the last step is
/// `t`).
///
/// The major axis advances one cell per step with the sign of its delta;
/// the minor axis accumulates as `(i * dmin + dmax / 2) / dmax` in integer
/// division — the classic midpoint rounding-error accumulator.
#[verifier::opaque]
pub open spec fn sight_step(o: (int, int), t: (int, int), i: int) -> (int, int) {
    let dx = t.0 - o.0;
    let dy = t.1 - o.1;
    let adx = abs(dx) as int;
    let ady = abs(dy) as int;
    let dmax = max(adx, ady);
    let dmin = min(adx, ady);
    let sx: int = if dx > 0 {
        1
    } else {
        -1
    };
    let sy: int = if dy > 0 {
        1
    } else {
        -1
    };
    let m = (i * dmin + dmax / 2) / dmax;
    if adx > ady {
        (o.0 + i * sx, o.1 + m * sy)
    } else {
        (o.0 + m * sx, o.1 + i * sy)
    }
}

/// Whether the ray from `o` to `t` is stopped at step `i`: the sampled
/// coordinate went negative, a corner test failed (only when
/// `check_corners` is set and the minor-axis coordinate just changed — a
/// diagonal move), or the sampled cell itself blocks sight and is not the
/// final target.
pub open spec fn sight_blocked_at(
    w: Walker,
    o: (int, int),
    t: (int, int),
    check_corners: bool,
    i: int,
) -> bool {
    let p = sight_step(o, t, i);
    let q = sight_step(o, t, i - 1);
    let adx = abs(t.0 - o.0) as int;
    let ady = abs(t.1 - o.1) as int;
    let minor_moved = if adx > ady {
        p.1 != q.1
    } else {
        p.0 != q.0
    };
    ||| p.0 < 0 || p.1 < 0
    ||| (check_corners && minor_moved && (w.cell_at(q.0, p.1).blocks_sight() || w.cell_at(
        p.0,
        q.1,
    ).blocks_sight()))
    ||| (w.cell_at(p.0, p.1).blocks_sight() && p != t)
}

/// Line of sight holds exactly when no step of the ray is blocked.
pub open spec fn spec_has_sight(
    w: Walker,
    o: (int, int),
    t: (int, int),
    check_corners: bool,
) -> bool {
    forall|i: int| 1 <= i <= sight_dmax(o, t) ==> !sight_blocked_at(w, o, t, check_corners, i)
}

/// A cell always sees itself: with target equal to origin the ray has no
/// steps to block.
pub proof fn lemma_sight_reflexive(w: Walker, p: (int, int), check_corners: bool)
    ensures
        spec_has_sight(w, p, p, check_corners),
{
    assert(sight_dmax(p, p) == 0);
}

/// The minor-axis accumulator stays between `0` and `dmin`.
proof fn lemma_minor_bound(i: int, dmin: int, dmax: int)
    requires
        0 <= i <= dmax,
        0 <= dmin,
        1 <= dmax,
    ensures
        0 <= (i * dmin + dmax / 2) / dmax <= dmin,
{
    let num = i * dmin + dmax / 2;
    lemma_mul_nonnegative(i, dmin);
    lemma_fundamental_div_mod(dmax, 2);
    lemma_mod_division_less_than_divisor(dmax, 2);
    lemma_div_pos_is_pos(dmax, 2);
    assert(0 <= dmax / 2 < dmax);
    lemma_div_pos_is_pos(num, dmax);
    lemma_mul_inequality(i, dmax, dmin);
    assert(dmax * (dmin + 1) == dmax * dmin + dmax * 1) by {
        lemma_mul_is_distributive_add(dmax, dmin, 1);
    }
    assert(i * dmin == dmin * i && dmax * dmin == dmin * dmax) by (nonlinear_arith);
    assert(num < dmax * (dmin + 1));
    lemma_multiply_divide_lt(num, dmax, dmin + 1);
}

/// Step `0` of a nonempty ray is the origin itself.
pub proof fn lemma_sight_step_at_zero(o: (int, int), t: (int, int))
    requires
        sight_dmax(o, t) >= 1,
    ensures
        sight_step(o, t, 0) == o,
{
    reveal(sight_step);
    let dmax = sight_dmax(o, t);
    lemma_fundamental_div_mod(dmax, 2);
    lemma_mod_division_less_than_divisor(dmax, 2);
    lemma_div_pos_is_pos(dmax, 2);
    lemma_basic_div_specific_divisor(dmax);
    assert((0 * min(abs(t.0 - o.0) as int, abs(t.1 - o.1) as int) + dmax / 2) / dmax == 0);
}

/// Every sampled point of the ray lies inside the bounding box of origin
/// and target.
pub proof fn lemma_sight_step_in_box(o: (int, int), t: (int, int), i: int)
    requires
        sight_dmax(o, t) >= 1,
        0 <= i <= sight_dmax(o, t),
    ensures
        min(o.0, t.0) <= sight_step(o, t, i).0 <= max(o.0, t.0),
        min(o.1, t.1) <= sight_step(o, t, i).1 <= max(o.1, t.1),
{
    reveal(sight_step);
    let dx = t.0 - o.0;
    let dy = t.1 - o.1;
    let adx = abs(dx) as int;
    let ady = abs(dy) as int;
    let dmax = max(adx, ady);
    let dmin = min(adx, ady);
    let m = (i * dmin + dmax / 2) / dmax;
    lemma_minor_bound(i, dmin, dmax);
    assert(0 <= m <= dmin);
    if adx > ady {
        if dx > 0 {
            assert(i * 1 == i) by (nonlinear_arith);
        } else {
            assert(i * -1 == -i) by (nonlinear_arith);
        }
        if dy > 0 {
            assert(m * 1 == m) by (nonlinear_arith);
        } else {
            assert(m * -1 == -m) by (nonlinear_arith);
        }
    } else {
        if dy > 0 {
            assert(i * 1 == i) by (nonlinear_arith);
        } else {
            assert(i * -1 == -i) by (nonlinear_arith);
        }
        if dx > 0 {
            assert(m * 1 == m) by (nonlinear_arith);
        } else {
            assert(m * -1 == -m) by (nonlinear_arith);
        }
    }
}

/// The two positions are one axis-aligned step apart.
pub open spec fn adjacent(a: (usize, usize), b: (usize, usize)) -> bool {
    abs(a.0 - b.0) + abs(a.1 - b.1) == 1
}

/// A single axis-aligned unit step.
pub open spec fn unit_dir(d: (i32, i32)) -> bool {
    abs(d.0 as int) + abs(d.1 as int) == 1
}

/// What the corridor search promises of a returned path: it runs from the
/// target door back to the start door, consecutive cells are axis-adjacent,
/// every cell lies inside the grid, and every cell but the two endpoints
/// was Void or Corridor when the search ran.
pub open spec fn valid_corridor_path(
    w: Walker,
    start: (usize, usize),
    end: (usize, usize),
    p: Seq<(usize, usize)>,
) -> bool {
    &&& p.len() >= 1
    &&& p[0] == end
    &&& p[p.len() - 1] == start
    &&& forall|k: int| 0 <= k < p.len() - 1 ==> adjacent(#[trigger] p[k], p[k + 1])
    &&& forall|k: int|
        0 <= k < p.len() ==> w.in_bounds(#[trigger] p[k].0 as int, p[k].1 as int)
    &&& forall|k: int|
        1 <= k < p.len() - 1 ==> w.cell_at(
            #[trigger] p[k].0 as int,
            p[k].1 as int,
        ).is_carveable()
}

/// How many entries of the predecessor store are still unset; the search's
/// termination measure.
pub open spec fn none_count<T>(s: Seq<Option<T>>) -> int
    decreases s.len(),
{
    if s.len() == 0 {
        0
    } else {
        none_count(s.drop_last()) + if s.last() is None {
            1int
        } else {
            0int
        }
    }
}

/// The unset-entry count lies between zero and the store's length.
pub proof fn lemma_none_count_bounds<T>(s: Seq<Option<T>>)
    ensures
        0 <= none_count(s) <= s.len(),
    decreases s.len(),
{
    if s.len() > 0 {
        lemma_none_count_bounds(s.drop_last());
    }
}

/// Setting one unset entry decreases the unset-entry count by one.
pub proof fn lemma_none_count_update<T>(s: Seq<Option<T>>, i: int, v: T)
    requires
        0 <= i < s.len(),
        s[i] is None,
    ensures
        none_count(s.update(i, Some(v))) == none_count(s) - 1,
    decreases s.len(),
{
    let t = s.update(i, Some(v));
    if i == s.len() - 1 {
        assert(t.drop_last() =~= s.drop_last());
    } else {
        assert(t.drop_last() =~= s.drop_last().update(i, Some(v)));
        lemma_none_count_update(s.drop_last(), i, v);
    }
}

/// A search frontier element: inside the grid, and already recorded in the
/// predecessor store unless it is the start cell.
spec fn frontier_ok(
    w: Walker,
    came_from: Seq<Option<(usize, usize)>>,
    start: (usize, usize),
    p: (usize, usize),
) -> bool {
    &&& (p.0 as int) < w.width()
    &&& (p.1 as int) < w.height()
    &&& (p == start || came_from[w.lin(p)] is Some)
}

/// One entry of the corridor search's predecessor store is consistent: it
/// points one axis step back towards the start, through carveable cells,
/// with a ghost depth that counts the steps back — which is what makes
/// walking the predecessor chain terminate.
spec fn came_from_entry_ok(
    w: Walker,
    came_from: Seq<Option<(usize, usize)>>,
    depth: Map<int, int>,
    start: (usize, usize),
    x: usize,
    y: usize,
) -> bool {
    came_from[row_major(x as int, y as int, w.width())] matches Some(p) ==> {
        &&& (p.0 as int) < w.width()
        &&& (p.1 as int) < w.height()
        &&& adjacent((x, y), p)
        &&& depth.contains_key(row_major(x as int, y as int, w.width()))
        &&& depth[row_major(x as int, y as int, w.width())] >= 1
        &&& (p == start ==> depth[row_major(x as int, y as int, w.width())] == 1)
        &&& (p != start ==> {
            &&& came_from[w.lin(p)] is Some
            &&& w.cell_at(p.0 as int, p.1 as int).is_carveable()
            &&& depth.contains_key(w.lin(p))
            &&& depth[w.lin(p)] == depth[row_major(x as int, y as int, w.width())] - 1
        })
    }
}

/// The recorded search depth of a cell: zero at the start door, else the
/// length of its predecessor chain.
spec fn qdepth_at(
    w: Walker,
    depth: Map<int, int>,
    start: (usize, usize),
    x: int,
    y: int,
) -> int {
    if (x, y) == (start.0 as int, start.1 as int) {
        0
    } else {
        depth[row_major(x, y, w.width())]
    }
}

/// Every entry of the predecessor store is consistent.
spec fn came_from_ok(
    w: Walker,
    came_from: Seq<Option<(usize, usize)>>,
    depth: Map<int, int>,
    start: (usize, usize),
) -> bool {
    forall|x: usize, y: usize|
        (x as int) < w.width() && (y as int) < w.height() ==> #[trigger] came_from_entry_ok(
            w,
            came_from,
            depth,
            start,
            x,
            y,
        )
}

/// The search has discovered the cell `(x, y)`: it is the start cell, or
/// its predecessor entry is set.
spec fn discovered_at(
    w: Walker,
    came_from: Seq<Option<(usize, usize)>>,
    start: (usize, usize),
    x: int,
    y: int,
) -> bool {
    ||| (x, y) == (start.0 as int, start.1 as int)
    ||| came_from[row_major(x, y, w.width())] is Some
}

/// An expanded cell has had each of its four in-grid neighbours
/// discovered.
spec fn cell_expanded_ok(
    w: Walker,
    came_from: Seq<Option<(usize, usize)>>,
    visited: Seq<bool>,
    start: (usize, usize),
    x: int,
    y: int,
) -> bool {
    visited[row_major(x, y, w.width())] ==> {
        &&& (w.in_bounds(x + 1, y) ==> discovered_at(w, came_from, start, x + 1, y))
        &&& (w.in_bounds(x - 1, y) ==> discovered_at(w, came_from, start, x - 1, y))
        &&& (w.in_bounds(x, y + 1) ==> discovered_at(w, came_from, start, x, y + 1))
        &&& (w.in_bounds(x, y - 1) ==> discovered_at(w, came_from, start, x, y - 1))
    }
}

/// The search frontier still holds the cell `(x, y)`.
spec fn in_frontier(q: Seq<(usize, usize)>, x: int, y: int) -> bool {
    exists|k: int| 0 <= k < q.len() && ((#[trigger] q[k]).0 as int, q[k].1 as int) == (x, y)
}

/// A discovered cell the search may expand — a carveable one, or the
/// start itself — has either been expanded already or still waits on the
/// frontier.
spec fn pending_or_expanded(
    w: Walker,
    came_from: Seq<Option<(usize, usize)>>,
    visited: Seq<bool>,
    q: Seq<(usize, usize)>,
    start: (usize, usize),
    x: int,
    y: int,
) -> bool {
    discovered_at(w, came_from, start, x, y) && (w.cell_at(x, y).is_carveable() || (x, y) == (
    start.0 as int,
    start.1 as int,
    )) ==> visited[row_major(x, y, w.width())] || in_frontier(q, x, y)
}

/// In breadth-first mode, expansion also bounds the recorded depths: each
/// in-grid neighbour of an expanded cell was discovered at most one level
/// deeper than the cell itself.
spec fn cell_depth_ok(
    w: Walker,
    visited: Seq<bool>,
    depth: Map<int, int>,
    start: (usize, usize),
    x: int,
    y: int,
) -> bool {
    visited[row_major(x, y, w.width())] ==> {
        &&& (w.in_bounds(x + 1, y) ==> qdepth_at(w, depth, start, x + 1, y) <= qdepth_at(
            w,
            depth,
            start,
            x,
            y,
        ) + 1)
        &&& (w.in_bounds(x - 1, y) ==> qdepth_at(w, depth, start, x - 1, y) <= qdepth_at(
            w,
            depth,
            start,
            x,
            y,
        ) + 1)
        &&& (w.in_bounds(x, y + 1) ==> qdepth_at(w, depth, start, x, y + 1) <= qdepth_at(
            w,
            depth,
            start,
            x,
            y,
        ) + 1)
        &&& (w.in_bounds(x, y - 1) ==> qdepth_at(w, depth, start, x, y - 1) <= qdepth_at(
            w,
            depth,
            start,
            x,
            y,
        ) + 1)
    }
}

/// Every finite run of non-expanded path cells has a last one: an index
/// whose successors (towards the path's end) are all expanded.
proof fn lemma_last_unexpanded(
    w: Walker,
    visited: Seq<bool>,
    p: Seq<(usize, usize)>,
    hi: int,
)
    requires
        0 <= hi < p.len(),
        exists|j: int| 0 <= j <= hi && !visited[row_major((#[trigger] p[j]).0 as int, p[j].1 as int, w.width())],
    ensures
        exists|j: int|
            0 <= j <= hi && !visited[row_major((#[trigger] p[j]).0 as int, p[j].1 as int, w.width())]
                && (forall|i: int|
                j < i <= hi ==> visited[row_major((#[trigger] p[i]).0 as int, p[i].1 as int, w.width())]),
    decreases hi,
{
    if !visited[row_major(p[hi].0 as int, p[hi].1 as int, w.width())] {
        let j = hi;
        assert(0 <= j <= hi && !visited[row_major((p[j]).0 as int, p[j].1 as int, w.width())]
            && (forall|i: int|
            j < i <= hi ==> visited[row_major((#[trigger] p[i]).0 as int, p[i].1 as int, w.width())]));
    } else {
        lemma_last_unexpanded(w, visited, p, hi - 1);
        let j = choose|j: int|
            0 <= j <= hi - 1 && !visited[row_major((#[trigger] p[j]).0 as int, p[j].1 as int, w.width())]
                && (forall|i: int|
                j < i <= hi - 1 ==> visited[row_major((#[trigger] p[i]).0 as int, p[i].1 as int, w.width())]);
        assert(forall|i: int|
            j < i <= hi ==> visited[row_major((#[trigger] p[i]).0 as int, p[i].1 as int, w.width())]);
    }
}

/// Walking a corridor path backwards from the start door through expanded
/// cells, each expanded cell bounds the recorded depth of the next one:
/// the cell at index `j` has depth at most its distance from the start end
/// of the path.
proof fn lemma_bfs_prefix(
    w: Walker,
    came_from: Seq<Option<(usize, usize)>>,
    visited: Seq<bool>,
    depth: Map<int, int>,
    start: (usize, usize),
    end: (usize, usize),
    p: Seq<(usize, usize)>,
    j: int,
)
    requires
        w.well_formed(),
        forall|x: int, y: int|
            w.in_bounds(x, y) ==> #[trigger] cell_expanded_ok(w, came_from, visited, start, x, y),
        forall|x: int, y: int|
            w.in_bounds(x, y) ==> #[trigger] cell_depth_ok(w, visited, depth, start, x, y),
        valid_corridor_path(w, start, end, p),
        0 <= j < p.len(),
        forall|i: int|
            j < i < p.len() ==> visited[row_major((#[trigger] p[i]).0 as int, p[i].1 as int, w.width())],
    ensures
        discovered_at(w, came_from, start, p[j].0 as int, p[j].1 as int),
        qdepth_at(w, depth, start, p[j].0 as int, p[j].1 as int) <= p.len() - 1 - j,
    decreases p.len() - j,
{
    if j == p.len() - 1 {
        assert(p[j] == start);
    } else {
        lemma_bfs_prefix(w, came_from, visited, depth, start, end, p, j + 1);
        let nx = p[j + 1].0 as int;
        let ny = p[j + 1].1 as int;
        assert(w.in_bounds(nx, ny));
        assert(visited[row_major(nx, ny, w.width())]);
        assert(cell_expanded_ok(w, came_from, visited, start, nx, ny));
        assert(cell_depth_ok(w, visited, depth, start, nx, ny));
        assert(adjacent(p[j], p[j + 1]));
        let ax = p[j].0 as int;
        let ay = p[j].1 as int;
        assert(w.in_bounds(ax, ay));
        assert((ax == nx + 1 && ay == ny) || (ax == nx - 1 && ay == ny) || (ax == nx && ay == ny
            + 1) || (ax == nx && ay == ny - 1));
    }
}

/// The search has dealt with one direction out of `cur`: the neighbour a
/// step along `d` is discovered, if it lies in the grid at all.
spec fn dir_handled(
    w: Walker,
    came_from: Seq<Option<(usize, usize)>>,
    start: (usize, usize),
    cur: (usize, usize),
    d: (i32, i32),
) -> bool {
    w.in_bounds(cur.0 + d.0 as int, cur.1 + d.1 as int) ==> discovered_at(
        w,
        came_from,
        start,
        cur.0 + d.0 as int,
        cur.1 + d.1 as int,
    )
}

/// Popping one frontier element keeps every other cell on the frontier.
proof fn lemma_frontier_after_pop(
    q_old: Seq<(usize, usize)>,
    q_new: Seq<(usize, usize)>,
    popped: (usize, usize),
    x: int,
    y: int,
)
    requires
        in_frontier(q_old, x, y),
        q_old.len() >= 1,
        (q_new =~= q_old.subrange(1, q_old.len() as int) && popped == q_old[0]) || (q_new
            =~= q_old.subrange(0, q_old.len() - 1) && popped == q_old[q_old.len() - 1]),
    ensures
        in_frontier(q_new, x, y) || (popped.0 as int, popped.1 as int) == (x, y),
{
    let k = choose|k: int|
        0 <= k < q_old.len() && ((q_old[k]).0 as int, q_old[k].1 as int) == (x, y);
    if q_new =~= q_old.subrange(1, q_old.len() as int) && popped == q_old[0] {
        if k == 0 {
        } else {
            assert(((q_new[k - 1]).0 as int, q_new[k - 1].1 as int) == (x, y));
        }
    } else {
        if k == q_old.len() - 1 {
        } else {
            assert(((q_new[k]).0 as int, q_new[k].1 as int) == (x, y));
        }
    }
}

/// Pushing onto the frontier keeps everything on it, and puts the pushed
/// cell on it.
proof fn lemma_frontier_after_push(
    q_old: Seq<(usize, usize)>,
    q_new: Seq<(usize, usize)>,
    e: (usize, usize),
    x: int,
    y: int,
)
    requires
        q_new =~= q_old.push(e),
        in_frontier(q_old, x, y) || (e.0 as int, e.1 as int) == (x, y),
    ensures
        in_frontier(q_new, x, y),
{
    if in_frontier(q_old, x, y) {
        let k = choose|k: int|
            0 <= k < q_old.len() && ((q_old[k]).0 as int, q_old[k].1 as int) == (x, y);
        assert(((q_new[k]).0 as int, q_new[k].1 as int) == (x, y));
    } else {
        assert(((q_new[q_new.len() - 1]).0 as int, q_new[q_new.len() - 1].1 as int) == (x, y));
    }
}

/// Swapping two positions of a sequence keeps every element it contains.
proof fn lemma_swap_keeps_element<T>(s_old: Seq<T>, s_new: Seq<T>, i: int, j: int, x: T)
    requires
        0 <= i < s_old.len(),
        0 <= j < s_old.len(),
        s_new =~= s_old.update(i, s_old[j]).update(j, s_old[i]),
        s_old.contains(x),
    ensures
        s_new.contains(x),
{
    let k = choose|k: int| 0 <= k < s_old.len() && s_old[k] == x;
    if k == i {
        assert(s_new[j] == x);
    } else if k == j {
        assert(s_new[i] == x);
    } else {
        assert(s_new[k] == x);
    }
}

/// Once the frontier has run dry, the search has discovered every cell of
/// any valid corridor path — walking the path from the start door, each
/// expanded cell hands discovery on to the next one.
proof fn lemma_exhausted_search_covers_path(
    w: Walker,
    came_from: Seq<Option<(usize, usize)>>,
    visited: Seq<bool>,
    q: Seq<(usize, usize)>,
    start: (usize, usize),
    end: (usize, usize),
    p: Seq<(usize, usize)>,
    i: int,
)
    requires
        w.well_formed(),
        q.len() == 0,
        forall|x: int, y: int|
            w.in_bounds(x, y) ==> #[trigger] cell_expanded_ok(w, came_from, visited, start, x, y),
        forall|x: int, y: int|
            w.in_bounds(x, y) ==> #[trigger] pending_or_expanded(
                w,
                came_from,
                visited,
                q,
                start,
                x,
                y,
            ),
        valid_corridor_path(w, start, end, p),
        0 <= i < p.len(),
    ensures
        discovered_at(w, came_from, start, p[i].0 as int, p[i].1 as int),
    decreases p.len() - i,
{
    if i == p.len() - 1 {
        assert(p[i] == start);
    } else {
        lemma_exhausted_search_covers_path(w, came_from, visited, q, start, end, p, i + 1);
        let nx = p[i + 1].0 as int;
        let ny = p[i + 1].1 as int;
        assert(w.in_bounds(nx, ny));
        if i + 1 == p.len() - 1 {
            assert(p[i + 1] == start);
        } else {
            assert(w.cell_at(nx, ny).is_carveable());
        }
        assert(pending_or_expanded(w, came_from, visited, q, start, nx, ny));
        assert(!in_frontier(q, nx, ny));
        assert(visited[row_major(nx, ny, w.width())]);
        assert(cell_expanded_ok(w, came_from, visited, start, nx, ny));
        assert(adjacent(p[i], p[i + 1]));
        let ax = p[i].0 as int;
        let ay = p[i].1 as int;
        assert(w.in_bounds(ax, ay));
        assert((ax == nx + 1 && ay == ny) || (ax == nx - 1 && ay == ny) || (ax == nx && ay == ny
            + 1) || (ax == nx && ay == ny - 1));
    }
}

/// How one cell tag is drawn at full brightness.
pub open spec fn spec_cell_char(cell_type: Cell) -> Character {
    match cell_type {
        Cell::Void => Character::spec_default(),
        Cell::Wall => Character {
            symbol: '#',
            color: Color { r: 100, g: 100, b: 100 },
            color_back: Color { r: 20, g: 20, b: 20 },
        },
        Cell::Floor => Character {
            symbol: ',',
            color: Color { r: 50, g: 50, b: 50 },
            color_back: Color { r: 1, g: 1, b: 1 },
        },
        Cell::Corridor => Character {
            symbol: '.',
            color: Color { r: 50, g: 50, b: 50 },
            color_back: Color { r: 1, g: 1, b: 1 },
        },
    }
}

impl Walker {
    /// The movement gate: true exactly when `position` lies inside the grid
    /// and its cell is Floor or Corridor.
    pub fn is_position_walkable(&mut self, position: (i32, i32)) -> (r: bool)
        requires
            old(self).well_formed(),
        ensures
            *final(self) == *old(self),
            r == (old(self).in_bounds(position.0 as int, position.1 as int) && old(self).cell_at(
                position.0 as int,
                position.1 as int,
            ).is_walkable()),
    {
        if position.0 < 0 || position.1 < 0 {
            false
        } else if position.0 >= self.screen_dims.0 as i32 || position.1 >= self.screen_dims.1
            as i32 {
            false
        } else {
            proof {
                lemma_row_major_bound(
                    position.0 as int,
                    position.1 as int,
                    self.width(),
                    self.height(),
                );
                lemma_grid_size_bound(self.width(), self.height());
            }
            let pos = self.map[position.1 as usize * self.screen_dims.0 + position.0 as usize];

            pos == Cell::Floor || pos == Cell::Corridor
        }
    }

    /// The map cell at column `x`, row `y`; the caller must bounds-check.
    pub fn get_cell(&self, x: usize, y: usize) -> (r: Cell)
        requires
            self.well_formed(),
            x < self.screen_dims.0,
            y < self.screen_dims.1,
        ensures
            r == self.cell_at(x as int, y as int),
    {
        proof {
            lemma_row_major_bound(x as int, y as int, self.width(), self.height());
            lemma_grid_size_bound(self.width(), self.height());
        }
        self.map[x + y * self.screen_dims.0]
    }

    /// The relative coordinates of the point the ray from `uorigin` to
    /// `utarget` samples at step `i`.
    #[verifier::rlimit(100)]
    fn sight_sample(
        uorigin: (usize, usize),
        utarget: (usize, usize),
        i: i32,
    ) -> (r: (i32, i32))
        requires
            uorigin.0 <= 0x8000,
            uorigin.1 <= 0x8000,
            utarget.0 <= 0x8000,
            utarget.1 <= 0x8000,
            1 <= i,
            i as int <= sight_dmax(
                (uorigin.0 as int, uorigin.1 as int),
                (utarget.0 as int, utarget.1 as int),
            ),
        ensures
            (uorigin.0 + r.0 as int, uorigin.1 + r.1 as int) == sight_step(
                (uorigin.0 as int, uorigin.1 as int),
                (utarget.0 as int, utarget.1 as int),
                i as int,
            ),
            -0x8000 <= r.0 <= 0x8000,
            -0x8000 <= r.1 <= 0x8000,
    {
        let ghost o = (uorigin.0 as int, uorigin.1 as int);
        let ghost t = (utarget.0 as int, utarget.1 as int);

        let ox = uorigin.0 as i32;
        let oy = uorigin.1 as i32;
        let tx = utarget.0 as i32;
        let ty = utarget.1 as i32;

        let dx = tx - ox;
        let dy = ty - oy;

        let adx = if dx >= 0 {
            dx
        } else {
            -dx
        };
        let ady = if dy >= 0 {
            dy
        } else {
            -dy
        };
        let dmax = if adx > ady {
            adx
        } else {
            ady
        };
        let dmin = if adx < ady {
            adx
        } else {
            ady
        };

        let sx: i32 = if dx > 0 {
            1
        } else {
            -1
        };
        let sy: i32 = if dy > 0 {
            1
        } else {
            -1
        };

        proof {
            assert(dmax == sight_dmax(o, t));
            assert((i as int) * (dmin as int) <= 0x8000 * 0x8000) by (nonlinear_arith)
                requires
                    0 <= i <= 0x8000,
                    0 <= dmin <= 0x8000,
            ;
            lemma_minor_bound(i as int, dmin as int, dmax as int);
        }
        let m_u = (i as usize) * (dmin as usize) + (dmax as usize) / 2;
        let m = (m_u / (dmax as usize)) as i32;

        proof {
            assert(-0x8000 <= (i as int) * (sx as int) <= 0x8000 && -0x8000 <= (m as int) * (
            sy as int) <= 0x8000 && -0x8000 <= (m as int) * (sx as int) <= 0x8000 && -0x8000 <= (
            i as int) * (sy as int) <= 0x8000) by (nonlinear_arith)
                requires
                    0 <= i <= 0x8000,
                    0 <= m <= 0x8000,
                    sx == 1 || sx == -1,
                    sy == 1 || sy == -1,
            ;
        }
        let x: i32;
        let y: i32;
        if adx > ady {
            x = i * sx;
            y = m * sy;
        } else {
            x = m * sx;
            y = i * sy;
        }
        proof {
            assert((ox + x, oy + y) == sight_step(o, t, i as int)) by {
                reveal(sight_step);
            }
        }
        (x, y)
    }

    /// One step of the sight walk: whether step `i` of the ray from
    /// `uorigin` to `utarget` is blocked, and the new relative coordinates
    /// of the sampled point. `(oldx, oldy)` are the relative coordinates of
    /// the point sampled at step `i - 1`.
    #[verifier::rlimit(100)]
    fn sight_step_blocked(
        &self,
        uorigin: (usize, usize),
        utarget: (usize, usize),
        i: i32,
        oldx: i32,
        oldy: i32,
        check_corners: bool,
    ) -> (r: (bool, i32, i32))
        requires
            self.well_formed(),
            uorigin.0 < self.screen_dims.0,
            uorigin.1 < self.screen_dims.1,
            utarget.0 < self.screen_dims.0,
            utarget.1 < self.screen_dims.1,
            1 <= i,
            i as int <= sight_dmax(
                (uorigin.0 as int, uorigin.1 as int),
                (utarget.0 as int, utarget.1 as int),
            ),
            (uorigin.0 + oldx as int, uorigin.1 + oldy as int) == sight_step(
                (uorigin.0 as int, uorigin.1 as int),
                (utarget.0 as int, utarget.1 as int),
                i - 1,
            ),
        ensures
            r.0 == sight_blocked_at(
                *self,
                (uorigin.0 as int, uorigin.1 as int),
                (utarget.0 as int, utarget.1 as int),
                check_corners,
                i as int,
            ),
            (uorigin.0 + r.1 as int, uorigin.1 + r.2 as int) == sight_step(
                (uorigin.0 as int, uorigin.1 as int),
                (utarget.0 as int, utarget.1 as int),
                i as int,
            ),
    {
        let ghost o = (uorigin.0 as int, uorigin.1 as int);
        let ghost t = (utarget.0 as int, utarget.1 as int);

        let ox = uorigin.0 as i32;
        let oy = uorigin.1 as i32;
        let tx = utarget.0 as i32;
        let ty = utarget.1 as i32;

        let adx = if tx - ox >= 0 {
            tx - ox
        } else {
            -(tx - ox)
        };
        let ady = if ty - oy >= 0 {
            ty - oy
        } else {
            -(ty - oy)
        };

        let sample = Self::sight_sample(uorigin, utarget, i);
        let x = sample.0;
        let y = sample.1;

        proof {
            lemma_sight_step_in_box(o, t, i as int);
            lemma_sight_step_in_box(o, t, i - 1);
        }

        let physical_x = x + ox;
        let physical_y = y + oy;

        if physical_x < 0 || physical_y < 0 {
            return (true, x, y);
        }

        let minor_moved = if adx > ady {
            y != oldy
        } else {
            x != oldx
        };
        if check_corners && minor_moved {
            let c1 = self.get_cell((oldx + ox) as usize, physical_y as usize);
            if c1 == Cell::Wall || c1 == Cell::Void {
                return (true, x, y);
            }
            let c2 = self.get_cell(physical_x as usize, (oldy + oy) as usize);
            if c2 == Cell::Wall || c2 == Cell::Void {
                return (true, x, y);
            }
        }

        let c = self.get_cell(physical_x as usize, physical_y as usize);
        let blocked = (c == Cell::Wall || c == Cell::Void) && !(physical_x == tx && physical_y
            == ty);
        (blocked, x, y)
    }

    /// Whether the cell `utarget` is visible from `uorigin` under the
    /// current wall geometry, by walking the integer ray between them.
    ///
    /// `max_dist` is accepted but not enforced inside the walk: callers are
    /// expected to query only targets within their visibility radius.
    ///
    /// With `check_corners` set, sight is not guaranteed symmetric: the
    /// two rays sample differently rounded cells near a diagonal wall
    /// corner, so one direction can pass a corner pair the other trips on.
    #[verifier::loop_isolation(false)]
    pub fn has_lineofsight(
        &self,
        uorigin: (usize, usize),
        utarget: (usize, usize),
        max_dist: usize,
        check_corners: bool,
    ) -> (r: bool)
        requires
            self.well_formed(),
            uorigin.0 < self.screen_dims.0,
            uorigin.1 < self.screen_dims.1,
            utarget.0 < self.screen_dims.0,
            utarget.1 < self.screen_dims.1,
        ensures
            r == spec_has_sight(
                *self,
                (uorigin.0 as int, uorigin.1 as int),
                (utarget.0 as int, utarget.1 as int),
                check_corners,
            ),
    {
        let ghost o = (uorigin.0 as int, uorigin.1 as int);
        let ghost t = (utarget.0 as int, utarget.1 as int);

        let ox = uorigin.0 as i32;
        let oy = uorigin.1 as i32;
        let tx = utarget.0 as i32;
        let ty = utarget.1 as i32;

        let dx = tx - ox;
        let dy = ty - oy;

        let adx = if dx >= 0 {
            dx
        } else {
            -dx
        };
        let ady = if dy >= 0 {
            dy
        } else {
            -dy
        };
        let dmax = if adx > ady {
            adx
        } else {
            ady
        };

        let mut oldx: i32 = 0;
        let mut oldy: i32 = 0;

        proof {
            assert(dmax == sight_dmax(o, t));
            if dmax >= 1 {
                lemma_sight_step_at_zero(o, t);
            }
        }

        let mut i: i32 = 1;
        while i <= dmax
            invariant
                1 <= i <= dmax + 1,
                i <= dmax ==> (uorigin.0 + oldx as int, uorigin.1 + oldy as int) == sight_step(
                    o,
                    t,
                    i - 1,
                ),
                forall|j: int| 1 <= j < i ==> !sight_blocked_at(*self, o, t, check_corners, j),
            decreases dmax + 1 - i,
        {
            let step = self.sight_step_blocked(uorigin, utarget, i, oldx, oldy, check_corners);
            if step.0 {
                return false;
            }
            oldx = step.1;
            oldy = step.2;
            i += 1;
        }
        true
    }

    /// Walk the predecessor store back from `end` to `start`, collecting
    /// the corridor path (target first, start last).
    #[verifier::rlimit(100)]
    fn reconstruct_path(
        &self,
        came_from: &Vec<Option<(usize, usize)>>,
        Ghost(depth): Ghost<Map<int, int>>,
        start: (usize, usize),
        end: (usize, usize),
    ) -> (r: Vec<(usize, usize)>)
        requires
            self.well_formed(),
            came_from@.len() == self.width() * self.height(),
            came_from_ok(*self, came_from@, depth, start),
            start.0 < self.screen_dims.0,
            start.1 < self.screen_dims.1,
            end.0 < self.screen_dims.0,
            end.1 < self.screen_dims.1,
            end == start || came_from@[self.lin(end)] is Some,
        ensures
            valid_corridor_path(*self, start, end, r@),
            r@.len() == qdepth_at(*self, depth, start, end.0 as int, end.1 as int) + 1,
    {
        let w = self.screen_dims.0;
        let h = self.screen_dims.1;
        let mut path: Vec<(usize, usize)> = Vec::new();
        let mut xcur = end;
        while xcur.0 != start.0 || xcur.1 != start.1
            invariant
                self.well_formed(),
                came_from@.len() == self.width() * self.height(),
                came_from_ok(*self, came_from@, depth, start),
                w == self.screen_dims.0,
                h == self.screen_dims.1,
                start.0 < w,
                start.1 < h,
                xcur.0 < w,
                xcur.1 < h,
                xcur == start || came_from@[self.lin(xcur)] is Some,
                path@.len() == 0 ==> xcur == end,
                path@.len() >= 1 ==> path@[0] == end && adjacent(path@[path@.len() - 1], xcur),
                forall|k: int|
                    0 <= k < path@.len() ==> (#[trigger] path@[k]).0 < w && path@[k].1 < h,
                forall|k: int|
                    0 <= k < path@.len() - 1 ==> adjacent(#[trigger] path@[k], path@[k + 1]),
                forall|k: int|
                    1 <= k < path@.len() ==> self.cell_at(
                        (#[trigger] path@[k]).0 as int,
                        path@[k].1 as int,
                    ).is_carveable(),
                path@.len() >= 1 ==> (xcur == start || self.cell_at(
                    xcur.0 as int,
                    xcur.1 as int,
                ).is_carveable()),
                path@.len() + qdepth_at(*self, depth, start, xcur.0 as int, xcur.1 as int)
                    == qdepth_at(*self, depth, start, end.0 as int, end.1 as int),
            decreases (if xcur == start {
                0int
            } else {
                depth[self.lin(xcur)]
            }),
        {
            proof {
                assert(came_from_entry_ok(*self, came_from@, depth, start, xcur.0, xcur.1));
                lemma_row_major_bound(xcur.0 as int, xcur.1 as int, self.width(), self.height());
                lemma_grid_size_bound(self.width(), self.height());
            }
            path.push(xcur);
            let idx = xcur.1 * w + xcur.0;
            let pred = came_from[idx].unwrap();
            xcur = pred;
        }
        path.push(xcur);
        return path;
    }

    /// Expand one frontier cell: record a predecessor for, and push, each
    /// in-grid neighbour that has no predecessor entry yet, trying the
    /// four directions in the order `dirs` currently holds them.
    #[verifier::loop_isolation(false)]
    #[verifier::rlimit(100)]
    fn expand_from(
        &self,
        dirs: &Vec<(i32, i32)>,
        came_from: &mut Vec<Option<(usize, usize)>>,
        to_look: &mut VecDeque<(usize, usize)>,
        visited: &Vec<bool>,
        Ghost(depth_in): Ghost<Map<int, int>>,
        Ghost(bfs): Ghost<bool>,
        Ghost(wave): Ghost<int>,
        current: (usize, usize),
        start: (usize, usize),
        end: (usize, usize),
    ) -> (depth_out: Ghost<Map<int, int>>)
        requires
            self.well_formed(),
            dirs@.len() == 4,
            forall|k: int| 0 <= k < 4 ==> unit_dir(#[trigger] dirs@[k]),
            dirs@.contains((0i32, 1i32)),
            dirs@.contains((1i32, 0i32)),
            dirs@.contains((-1i32, 0i32)),
            dirs@.contains((0i32, -1i32)),
            old(came_from)@.len() == self.width() * self.height(),
            visited@.len() == self.width() * self.height(),
            came_from_ok(*self, old(came_from)@, depth_in, start),
            forall|k: int|
                0 <= k < old(to_look)@.len() ==> frontier_ok(
                    *self,
                    old(came_from)@,
                    start,
                    #[trigger] old(to_look)@[k],
                ),
            current.0 < self.screen_dims.0,
            current.1 < self.screen_dims.1,
            end.0 < self.screen_dims.0,
            end.1 < self.screen_dims.1,
            current == start || self.cell_at(current.0 as int, current.1 as int).is_carveable(),
            current == start || old(came_from)@[self.lin(current)] is Some,
            visited@[self.lin(current)],
            forall|x: int, y: int|
                self.in_bounds(x, y) && (x, y) != (current.0 as int, current.1 as int)
                    ==> #[trigger] cell_expanded_ok(*self, old(came_from)@, visited@, start, x, y),
            forall|x: int, y: int|
                self.in_bounds(x, y) ==> #[trigger] pending_or_expanded(
                    *self,
                    old(came_from)@,
                    visited@,
                    old(to_look)@,
                    start,
                    x,
                    y,
                ),
            discovered_at(*self, old(came_from)@, start, end.0 as int, end.1 as int)
                ==> in_frontier(old(to_look)@, end.0 as int, end.1 as int),
            forall|x: int, y: int|
                self.in_bounds(x, y) && visited@[row_major(x, y, self.width())]
                    ==> #[trigger] discovered_at(*self, old(came_from)@, start, x, y),
            bfs ==> wave >= 0,
            bfs ==> qdepth_at(*self, depth_in, start, current.0 as int, current.1 as int)
                == wave,
            bfs ==> forall|k: int|
                0 <= k < old(to_look)@.len() && (#[trigger] old(to_look)@[k]) != start ==> wave
                    <= qdepth_at(
                    *self,
                    depth_in,
                    start,
                    old(to_look)@[k].0 as int,
                    old(to_look)@[k].1 as int,
                ) <= wave + 1,
            bfs ==> forall|i: int, j: int|
                #![trigger old(to_look)@[i], old(to_look)@[j]]
                0 <= i <= j < old(to_look)@.len() && old(to_look)@[i] != start && old(to_look)@[j] != start ==> qdepth_at(
                    *self,
                    depth_in,
                    start,
                    old(to_look)@[i].0 as int,
                    old(to_look)@[i].1 as int,
                ) <= qdepth_at(
                    *self,
                    depth_in,
                    start,
                    old(to_look)@[j].0 as int,
                    old(to_look)@[j].1 as int,
                ),
            bfs ==> forall|x: int, y: int|
                self.in_bounds(x, y) && #[trigger] discovered_at(
                    *self,
                    old(came_from)@,
                    start,
                    x,
                    y,
                ) ==> qdepth_at(*self, depth_in, start, x, y) <= wave + 1,
            bfs ==> forall|x: int, y: int|
                self.in_bounds(x, y) && (x, y) != (current.0 as int, current.1 as int)
                    ==> #[trigger] cell_depth_ok(*self, visited@, depth_in, start, x, y),
        ensures
            final(came_from)@.len() == old(came_from)@.len(),
            forall|idx: int|
                0 <= idx < old(came_from)@.len() && (#[trigger] old(came_from)@[idx]) is Some
                    ==> final(came_from)@[idx] == old(came_from)@[idx],
            came_from_ok(*self, final(came_from)@, depth_out@, start),
            forall|k: int|
                0 <= k < final(to_look)@.len() ==> frontier_ok(
                    *self,
                    final(came_from)@,
                    start,
                    #[trigger] final(to_look)@[k],
                ),
            forall|x: int, y: int|
                self.in_bounds(x, y) ==> #[trigger] cell_expanded_ok(
                    *self,
                    final(came_from)@,
                    visited@,
                    start,
                    x,
                    y,
                ),
            forall|x: int, y: int|
                self.in_bounds(x, y) ==> #[trigger] pending_or_expanded(
                    *self,
                    final(came_from)@,
                    visited@,
                    final(to_look)@,
                    start,
                    x,
                    y,
                ),
            discovered_at(*self, final(came_from)@, start, end.0 as int, end.1 as int)
                ==> in_frontier(final(to_look)@, end.0 as int, end.1 as int),
            final(to_look)@.len() + 5 * none_count(final(came_from)@) <= old(to_look)@.len() + 5
                * none_count(old(came_from)@),
            forall|x: int, y: int|
                self.in_bounds(x, y) && visited@[row_major(x, y, self.width())]
                    ==> #[trigger] discovered_at(*self, final(came_from)@, start, x, y),
            bfs ==> forall|k: int|
                0 <= k < final(to_look)@.len() && (#[trigger] final(to_look)@[k]) != start
                    ==> wave <= qdepth_at(
                    *self,
                    depth_out@,
                    start,
                    final(to_look)@[k].0 as int,
                    final(to_look)@[k].1 as int,
                ) <= wave + 1,
            bfs ==> forall|i: int, j: int|
                #![trigger final(to_look)@[i], final(to_look)@[j]]
                0 <= i <= j < final(to_look)@.len() && final(to_look)@[i] != start && final(to_look)@[j] != start ==> qdepth_at(
                    *self,
                    depth_out@,
                    start,
                    final(to_look)@[i].0 as int,
                    final(to_look)@[i].1 as int,
                ) <= qdepth_at(
                    *self,
                    depth_out@,
                    start,
                    final(to_look)@[j].0 as int,
                    final(to_look)@[j].1 as int,
                ),
            bfs ==> forall|x: int, y: int|
                self.in_bounds(x, y) && #[trigger] discovered_at(
                    *self,
                    final(came_from)@,
                    start,
                    x,
                    y,
                ) ==> qdepth_at(*self, depth_out@, start, x, y) <= wave + 1,
            bfs ==> forall|x: int, y: int|
                self.in_bounds(x, y) ==> #[trigger] cell_depth_ok(
                    *self,
                    visited@,
                    depth_out@,
                    start,
                    x,
                    y,
                ),
    {
        let w = self.screen_dims.0;
        let h = self.screen_dims.1;
        let ghost n = self.width() * self.height();
        let ghost mut depth: Map<int, int> = depth_in;
        let ghost t0 = to_look@.len();
        let ghost n0 = none_count(came_from@);

        let mut di: usize = 0;
        while di < 4
            invariant
                di <= 4,
                came_from@.len() == n,
                forall|idx: int|
                    0 <= idx < n && (#[trigger] old(came_from)@[idx]) is Some ==> came_from@[idx]
                        == old(came_from)@[idx],
                came_from_ok(*self, came_from@, depth, start),
                forall|k: int|
                    0 <= k < to_look@.len() ==> frontier_ok(
                        *self,
                        came_from@,
                        start,
                        #[trigger] to_look@[k],
                    ),
                forall|x: int, y: int|
                    self.in_bounds(x, y) && (x, y) != (current.0 as int, current.1 as int)
                        ==> #[trigger] cell_expanded_ok(*self, came_from@, visited@, start, x, y),
                forall|x: int, y: int|
                    self.in_bounds(x, y) ==> #[trigger] pending_or_expanded(
                        *self,
                        came_from@,
                        visited@,
                        to_look@,
                        start,
                        x,
                        y,
                    ),
                discovered_at(*self, came_from@, start, end.0 as int, end.1 as int)
                    ==> in_frontier(to_look@, end.0 as int, end.1 as int),
                forall|p: int|
                    0 <= p < di ==> dir_handled(
                        *self,
                        came_from@,
                        start,
                        current,
                        #[trigger] dirs@[p],
                    ),
                to_look@.len() + 5 * none_count(came_from@) <= t0 + 5 * n0,
                forall|x: int, y: int|
                    self.in_bounds(x, y) && visited@[row_major(x, y, self.width())]
                        ==> #[trigger] discovered_at(*self, came_from@, start, x, y),
                bfs ==> qdepth_at(*self, depth, start, current.0 as int, current.1 as int)
                    == wave,
                bfs ==> forall|k: int|
                    0 <= k < to_look@.len() && (#[trigger] to_look@[k]) != start ==> wave
                        <= qdepth_at(
                        *self,
                        depth,
                        start,
                        to_look@[k].0 as int,
                        to_look@[k].1 as int,
                    ) <= wave + 1,
                bfs ==> forall|i: int, j: int|
                    #![trigger to_look@[i], to_look@[j]]
                    0 <= i <= j < to_look@.len() && to_look@[i] != start && to_look@[j] != start
                        ==> qdepth_at(
                        *self,
                        depth,
                        start,
                        to_look@[i].0 as int,
                        to_look@[i].1 as int,
                    ) <= qdepth_at(
                        *self,
                        depth,
                        start,
                        to_look@[j].0 as int,
                        to_look@[j].1 as int,
                    ),
                bfs ==> forall|x: int, y: int|
                    self.in_bounds(x, y) && #[trigger] discovered_at(
                        *self,
                        came_from@,
                        start,
                        x,
                        y,
                    ) ==> qdepth_at(*self, depth, start, x, y) <= wave + 1,
                bfs ==> forall|x: int, y: int|
                    self.in_bounds(x, y) && (x, y) != (current.0 as int, current.1 as int)
                        ==> #[trigger] cell_depth_ok(*self, visited@, depth, start, x, y),
            decreases 4 - di,
        {
            let d = dirs[di];
            let pos_x = current.0 as i32 + d.0;
            let pos_y = current.1 as i32 + d.1;

            if pos_x >= 0 && pos_y >= 0 && pos_x < w as i32 && pos_y < h as i32 {
                let new_pos = (pos_x as usize, pos_y as usize);
                proof {
                    lemma_row_major_bound(
                        new_pos.0 as int,
                        new_pos.1 as int,
                        self.width(),
                        self.height(),
                    );
                    lemma_grid_size_bound(self.width(), self.height());
                }
                let nidx = new_pos.1 * w + new_pos.0;

                if came_from[nidx].is_none() {
                    proof {
                        lemma_none_count_update(came_from@, nidx as int, current);
                        if current != start {
                            assert(came_from_entry_ok(
                                *self,
                                came_from@,
                                depth,
                                start,
                                current.0,
                                current.1,
                            ));
                        }
                    }
                    let ghost mid_came_from = came_from@;
                    let ghost pre_depth = depth;
                    came_from.set(nidx, Some(current));
                    proof {
                        let key = row_major(new_pos.0 as int, new_pos.1 as int, self.width());
                        let dval: int = if current == start {
                            1
                        } else {
                            depth[self.lin(current)] + 1
                        };
                        let old_depth = depth;
                        depth = depth.insert(key, dval);
                        assert forall|x: usize, y: usize|
                            (x as int) < self.width() && (y as int)
                                < self.height() implies #[trigger] came_from_entry_ok(
                            *self,
                            came_from@,
                            depth,
                            start,
                            x,
                            y,
                        ) by {
                            lemma_row_major_bound(x as int, y as int, self.width(), self.height());
                            lemma_row_major_bound(
                                current.0 as int,
                                current.1 as int,
                                self.width(),
                                self.height(),
                            );
                            assert(current == start || came_from@[self.lin(current)] is Some);
                            assert(came_from_entry_ok(*self, mid_came_from, old_depth, start, x, y));
                            if (x, y) != new_pos {
                                lemma_row_major_distinct(
                                    x as int,
                                    y as int,
                                    new_pos.0 as int,
                                    new_pos.1 as int,
                                    self.width(),
                                );
                                if mid_came_from[row_major(x as int, y as int, self.width())]
                                    is Some {
                                    let p = mid_came_from[row_major(
                                        x as int,
                                        y as int,
                                        self.width(),
                                    )]->Some_0;
                                    lemma_row_major_bound(
                                        p.0 as int,
                                        p.1 as int,
                                        self.width(),
                                        self.height(),
                                    );
                                }
                            }
                        }
                    }
                    let ghost mid_to_look = to_look@;
                    to_look.push_back(new_pos);
                    proof {
                        assert forall|k: int|
                            0 <= k < to_look@.len() implies frontier_ok(
                            *self,
                            came_from@,
                            start,
                            #[trigger] to_look@[k],
                        ) by {
                            if k < mid_to_look.len() {
                                assert(frontier_ok(*self, mid_came_from, start, mid_to_look[k]));
                                lemma_row_major_bound(
                                    mid_to_look[k].0 as int,
                                    mid_to_look[k].1 as int,
                                    self.width(),
                                    self.height(),
                                );
                            }
                        }
                        assert forall|x: int, y: int|
                            self.in_bounds(x, y) && visited@[row_major(
                            x,
                            y,
                            self.width(),
                        )] implies #[trigger] discovered_at(*self, came_from@, start, x, y) by {
                            lemma_row_major_bound(x, y, self.width(), self.height());
                            assert(discovered_at(*self, mid_came_from, start, x, y));
                        }
                        if bfs {
                            lemma_row_major_bound(
                                current.0 as int,
                                current.1 as int,
                                self.width(),
                                self.height(),
                            );
                            assert(qdepth_at(*self, depth, start, new_pos.0 as int, new_pos.1 as int)
                                <= wave + 1);
                            assert forall|k: int|
                                0 <= k < mid_to_look.len() && (#[trigger] mid_to_look[k])
                                    != start implies qdepth_at(
                                *self,
                                depth,
                                start,
                                mid_to_look[k].0 as int,
                                mid_to_look[k].1 as int,
                            ) == qdepth_at(
                                *self,
                                pre_depth,
                                start,
                                mid_to_look[k].0 as int,
                                mid_to_look[k].1 as int,
                            ) by {
                                assert(frontier_ok(*self, mid_came_from, start, mid_to_look[k]));
                                lemma_row_major_bound(
                                    mid_to_look[k].0 as int,
                                    mid_to_look[k].1 as int,
                                    self.width(),
                                    self.height(),
                                );
                            }
                            assert forall|x: int, y: int|
                                self.in_bounds(x, y) && #[trigger] discovered_at(
                                *self,
                                came_from@,
                                start,
                                x,
                                y,
                            ) implies qdepth_at(*self, depth, start, x, y) <= wave + 1 by {
                                lemma_row_major_bound(x, y, self.width(), self.height());
                                if (x, y) != (new_pos.0 as int, new_pos.1 as int) {
                                    lemma_row_major_distinct(
                                        x,
                                        y,
                                        new_pos.0 as int,
                                        new_pos.1 as int,
                                        self.width(),
                                    );
                                    assert(discovered_at(*self, mid_came_from, start, x, y));
                                }
                            }
                            assert forall|x: int, y: int|
                                self.in_bounds(x, y) && (x, y) != (
                                current.0 as int,
                                current.1 as int,
                            ) implies #[trigger] cell_depth_ok(
                                *self,
                                visited@,
                                depth,
                                start,
                                x,
                                y,
                            ) by {
                                lemma_row_major_bound(x, y, self.width(), self.height());
                                if visited@[row_major(x, y, self.width())] {
                                    assert(cell_depth_ok(*self, visited@, pre_depth, start, x, y));
                                    assert(cell_expanded_ok(
                                        *self,
                                        mid_came_from,
                                        visited@,
                                        start,
                                        x,
                                        y,
                                    ));
                                    assert(discovered_at(*self, mid_came_from, start, x, y));
                                    if (x, y) != (new_pos.0 as int, new_pos.1 as int) {
                                        lemma_row_major_distinct(
                                            x,
                                            y,
                                            new_pos.0 as int,
                                            new_pos.1 as int,
                                            self.width(),
                                        );
                                    }
                                    if self.in_bounds(x + 1, y) {
                                        lemma_row_major_bound(x + 1, y, self.width(), self.height());
                                        if (x + 1, y) != (new_pos.0 as int, new_pos.1 as int) {
                                            lemma_row_major_distinct(
                                                x + 1,
                                                y,
                                                new_pos.0 as int,
                                                new_pos.1 as int,
                                                self.width(),
                                            );
                                        }
                                    }
                                    if self.in_bounds(x - 1, y) {
                                        lemma_row_major_bound(x - 1, y, self.width(), self.height());
                                        if (x - 1, y) != (new_pos.0 as int, new_pos.1 as int) {
                                            lemma_row_major_distinct(
                                                x - 1,
                                                y,
                                                new_pos.0 as int,
                                                new_pos.1 as int,
                                                self.width(),
                                            );
                                        }
                                    }
                                    if self.in_bounds(x, y + 1) {
                                        lemma_row_major_bound(x, y + 1, self.width(), self.height());
                                        if (x, y + 1) != (new_pos.0 as int, new_pos.1 as int) {
                                            lemma_row_major_distinct(
                                                x,
                                                y + 1,
                                                new_pos.0 as int,
                                                new_pos.1 as int,
                                                self.width(),
                                            );
                                        }
                                    }
                                    if self.in_bounds(x, y - 1) {
                                        lemma_row_major_bound(x, y - 1, self.width(), self.height());
                                        if (x, y - 1) != (new_pos.0 as int, new_pos.1 as int) {
                                            lemma_row_major_distinct(
                                                x,
                                                y - 1,
                                                new_pos.0 as int,
                                                new_pos.1 as int,
                                                self.width(),
                                            );
                                        }
                                    }
                                }
                            }
                        }
                        assert forall|x: int, y: int|
                            self.in_bounds(x, y) && (x, y) != (
                            current.0 as int,
                            current.1 as int,
                        ) implies #[trigger] cell_expanded_ok(
                            *self,
                            came_from@,
                            visited@,
                            start,
                            x,
                            y,
                        ) by {
                            assert(cell_expanded_ok(*self, mid_came_from, visited@, start, x, y));
                            lemma_row_major_bound(x, y, self.width(), self.height());
                            if self.in_bounds(x + 1, y) {
                                lemma_row_major_bound(x + 1, y, self.width(), self.height());
                            }
                            if self.in_bounds(x - 1, y) {
                                lemma_row_major_bound(x - 1, y, self.width(), self.height());
                            }
                            if self.in_bounds(x, y + 1) {
                                lemma_row_major_bound(x, y + 1, self.width(), self.height());
                            }
                            if self.in_bounds(x, y - 1) {
                                lemma_row_major_bound(x, y - 1, self.width(), self.height());
                            }
                        }
                        assert forall|x: int, y: int|
                            self.in_bounds(x, y) implies #[trigger] pending_or_expanded(
                            *self,
                            came_from@,
                            visited@,
                            to_look@,
                            start,
                            x,
                            y,
                        ) by {
                            lemma_row_major_bound(x, y, self.width(), self.height());
                            if (x, y) == (new_pos.0 as int, new_pos.1 as int) {
                                lemma_frontier_after_push(mid_to_look, to_look@, new_pos, x, y);
                            } else {
                                lemma_row_major_distinct(
                                    x,
                                    y,
                                    new_pos.0 as int,
                                    new_pos.1 as int,
                                    self.width(),
                                );
                                assert(pending_or_expanded(
                                    *self,
                                    mid_came_from,
                                    visited@,
                                    mid_to_look,
                                    start,
                                    x,
                                    y,
                                ));
                                if in_frontier(mid_to_look, x, y) {
                                    lemma_frontier_after_push(mid_to_look, to_look@, new_pos, x, y);
                                }
                            }
                        }
                        if discovered_at(*self, came_from@, start, end.0 as int, end.1 as int) {
                            lemma_row_major_bound(
                                end.0 as int,
                                end.1 as int,
                                self.width(),
                                self.height(),
                            );
                            if (end.0 as int, end.1 as int) != (
                                new_pos.0 as int,
                                new_pos.1 as int,
                            ) {
                                lemma_row_major_distinct(
                                    end.0 as int,
                                    end.1 as int,
                                    new_pos.0 as int,
                                    new_pos.1 as int,
                                    self.width(),
                                );
                            }
                            lemma_frontier_after_push(
                                mid_to_look,
                                to_look@,
                                new_pos,
                                end.0 as int,
                                end.1 as int,
                            );
                        }
                    }
                }
            }
            proof {
                assert forall|p: int|
                    0 <= p < di + 1 implies dir_handled(
                    *self,
                    came_from@,
                    start,
                    current,
                    #[trigger] dirs@[p],
                ) by {
                    if self.in_bounds(
                        current.0 + dirs@[p].0 as int,
                        current.1 + dirs@[p].1 as int,
                    ) {
                        lemma_row_major_bound(
                            current.0 + dirs@[p].0 as int,
                            current.1 + dirs@[p].1 as int,
                            self.width(),
                            self.height(),
                        );
                    }
                }
            }
            di += 1;
        }

        proof {
            lemma_none_count_bounds::<(usize, usize)>(came_from@);
            assert forall|x: int, y: int|
                self.in_bounds(x, y) implies #[trigger] cell_expanded_ok(
                *self,
                came_from@,
                visited@,
                start,
                x,
                y,
            ) by {
                if (x, y) == (current.0 as int, current.1 as int) {
                    let cx = current.0 as int;
                    let cy = current.1 as int;
                    if self.in_bounds(cx + 1, cy) {
                        let p = choose|p: int| 0 <= p < dirs@.len() && dirs@[p] == (1i32, 0i32);
                        assert(dir_handled(*self, came_from@, start, current, dirs@[p]));
                    }
                    if self.in_bounds(cx - 1, cy) {
                        let p = choose|p: int| 0 <= p < dirs@.len() && dirs@[p] == (-1i32, 0i32);
                        assert(dir_handled(*self, came_from@, start, current, dirs@[p]));
                    }
                    if self.in_bounds(cx, cy + 1) {
                        let p = choose|p: int| 0 <= p < dirs@.len() && dirs@[p] == (0i32, 1i32);
                        assert(dir_handled(*self, came_from@, start, current, dirs@[p]));
                    }
                    if self.in_bounds(cx, cy - 1) {
                        let p = choose|p: int| 0 <= p < dirs@.len() && dirs@[p] == (0i32, -1i32);
                        assert(dir_handled(*self, came_from@, start, current, dirs@[p]));
                    }
                }
            }
            if bfs {
                assert forall|x: int, y: int|
                    self.in_bounds(x, y) implies #[trigger] cell_depth_ok(
                    *self,
                    visited@,
                    depth,
                    start,
                    x,
                    y,
                ) by {
                    if (x, y) == (current.0 as int, current.1 as int) {
                        lemma_row_major_bound(x, y, self.width(), self.height());
                        assert(cell_expanded_ok(*self, came_from@, visited@, start, x, y));
                        if self.in_bounds(x + 1, y) {
                            lemma_row_major_bound(x + 1, y, self.width(), self.height());
                            assert(discovered_at(*self, came_from@, start, x + 1, y));
                        }
                        if self.in_bounds(x - 1, y) {
                            lemma_row_major_bound(x - 1, y, self.width(), self.height());
                            assert(discovered_at(*self, came_from@, start, x - 1, y));
                        }
                        if self.in_bounds(x, y + 1) {
                            lemma_row_major_bound(x, y + 1, self.width(), self.height());
                            assert(discovered_at(*self, came_from@, start, x, y + 1));
                        }
                        if self.in_bounds(x, y - 1) {
                            lemma_row_major_bound(x, y - 1, self.width(), self.height());
                            assert(discovered_at(*self, came_from@, start, x, y - 1));
                        }
                    }
                }
            }
        }
        Ghost(depth)
    }

    /// Search the grid for a corridor from the door `start` to the door
    /// `end`, traversing only Void and Corridor cells (besides the two
    /// doors themselves), and exploring the four axis directions in a
    /// freshly shuffled order at every expanded cell. The frontier is
    /// popped from the back when `is_dfs` is set (winding, maze-like
    /// corridors) and from the front otherwise (breadth-first).
    ///
    /// The search is exact: it yields a path exactly when one exists. A
    /// returned path is valid (see `valid_corridor_path`), and `None`
    /// comes back only when no valid corridor path connects the two doors
    /// at all. In breadth-first mode the returned path is moreover a
    /// shortest one; only the depth-first mode may wind.
    #[verifier::loop_isolation(false)]
    #[verifier::rlimit(100)]
    pub fn dfs_or_bfs(
        &mut self,
        rng: &mut GameRng,
        start: (usize, usize),
        end: (usize, usize),
        is_dfs: bool,
    ) -> (r: Option<Vec<(usize, usize)>>)
        requires
            old(self).well_formed(),
            start.0 < old(self).screen_dims.0,
            start.1 < old(self).screen_dims.1,
            end.0 < old(self).screen_dims.0,
            end.1 < old(self).screen_dims.1,
        ensures
            *final(self) == *old(self),
            r matches Some(path) ==> valid_corridor_path(*old(self), start, end, path@),
            r is None ==> forall|p: Seq<(usize, usize)>|
                !valid_corridor_path(*old(self), start, end, p),
            r matches Some(path) ==> !is_dfs ==> forall|p: Seq<(usize, usize)>|
                valid_corridor_path(*old(self), start, end, p) ==> path@.len() <= p.len(),
    {
        if start.0 == end.0 && start.1 == end.1 {
            // The doors coincide: popping the freshly pushed start would
            // reconstruct the one-cell path immediately.
            let mut path: Vec<(usize, usize)> = Vec::new();
            path.push(start);
            return Some(path);
        }

        let w = self.screen_dims.0;
        let h = self.screen_dims.1;
        proof {
            lemma_grid_size_bound(self.width(), self.height());
        }
        let n = w * h;

        let mut dirs: Vec<(i32, i32)> = Vec::new();
        dirs.push((0, 1));
        dirs.push((1, 0));
        dirs.push((-1, 0));
        dirs.push((0, -1));
        proof {
            assert(dirs@[0] == (0i32, 1i32));
            assert(dirs@[1] == (1i32, 0i32));
            assert(dirs@[2] == (-1i32, 0i32));
            assert(dirs@[3] == (0i32, -1i32));
        }

        let mut came_from: Vec<Option<(usize, usize)>> = Vec::new();
        let mut visited: Vec<bool> = Vec::new();
        let mut k0: usize = 0;
        while k0 < n
            invariant
                k0 <= n,
                came_from@.len() == k0,
                visited@.len() == k0,
                forall|i: int| 0 <= i < k0 ==> (#[trigger] came_from@[i]) is None,
                forall|i: int| 0 <= i < k0 ==> !(#[trigger] visited@[i]),
            decreases n - k0,
        {
            came_from.push(None);
            visited.push(false);
            k0 += 1;
        }

        let ghost mut depth: Map<int, int> = Map::empty();
        let ghost mut wave: int = 0;
        proof {
            assert forall|x: usize, y: usize|
                (x as int) < self.width() && (y as int)
                    < self.height() implies #[trigger] came_from_entry_ok(
                *self,
                came_from@,
                depth,
                start,
                x,
                y,
            ) by {
                lemma_row_major_bound(x as int, y as int, self.width(), self.height());
            }
        }

        let mut to_look: VecDeque<(usize, usize)> = VecDeque::new();
        to_look.push_back(start);
        proof {
            assert forall|x: int, y: int|
                self.in_bounds(x, y) implies #[trigger] cell_expanded_ok(
                *self,
                came_from@,
                visited@,
                start,
                x,
                y,
            ) by {
                lemma_row_major_bound(x, y, self.width(), self.height());
            }
            assert forall|x: int, y: int|
                self.in_bounds(x, y) implies #[trigger] pending_or_expanded(
                *self,
                came_from@,
                visited@,
                to_look@,
                start,
                x,
                y,
            ) by {
                lemma_row_major_bound(x, y, self.width(), self.height());
                if (x, y) == (start.0 as int, start.1 as int) {
                    assert(((to_look@[0]).0 as int, to_look@[0].1 as int) == (x, y));
                }
            }
            lemma_row_major_bound(end.0 as int, end.1 as int, self.width(), self.height());
            lemma_row_major_bound(start.0 as int, start.1 as int, self.width(), self.height());
            assert forall|x: int, y: int|
                self.in_bounds(x, y) implies !((#[trigger] came_from@[row_major(
                x,
                y,
                self.width(),
            )]) is Some) by {
                lemma_row_major_bound(x, y, self.width(), self.height());
            }
            assert forall|x: int, y: int|
                self.in_bounds(x, y) && visited@[row_major(x, y, self.width())]
                implies #[trigger] discovered_at(*self, came_from@, start, x, y) by {
                lemma_row_major_bound(x, y, self.width(), self.height());
            }
            assert forall|x: int, y: int|
                self.in_bounds(x, y) implies #[trigger] cell_depth_ok(
                *self,
                visited@,
                depth,
                start,
                x,
                y,
            ) by {
                lemma_row_major_bound(x, y, self.width(), self.height());
            }
            assert forall|x: int, y: int|
                self.in_bounds(x, y) && #[trigger] discovered_at(
                *self,
                came_from@,
                start,
                x,
                y,
            ) implies qdepth_at(*self, depth, start, x, y) <= wave + 1 by {
                lemma_row_major_bound(x, y, self.width(), self.height());
            }
        }

        while to_look.len() != 0
            invariant
                came_from@.len() == n,
                visited@.len() == n,
                dirs@.len() == 4,
                forall|k: int| 0 <= k < 4 ==> unit_dir(#[trigger] dirs@[k]),
                dirs@.contains((0i32, 1i32)),
                dirs@.contains((1i32, 0i32)),
                dirs@.contains((-1i32, 0i32)),
                dirs@.contains((0i32, -1i32)),
                forall|k: int|
                    0 <= k < to_look@.len() ==> frontier_ok(
                        *self,
                        came_from@,
                        start,
                        #[trigger] to_look@[k],
                    ),
                came_from_ok(*self, came_from@, depth, start),
                forall|x: int, y: int|
                    self.in_bounds(x, y) ==> #[trigger] cell_expanded_ok(
                        *self,
                        came_from@,
                        visited@,
                        start,
                        x,
                        y,
                    ),
                forall|x: int, y: int|
                    self.in_bounds(x, y) ==> #[trigger] pending_or_expanded(
                        *self,
                        came_from@,
                        visited@,
                        to_look@,
                        start,
                        x,
                        y,
                    ),
                discovered_at(*self, came_from@, start, end.0 as int, end.1 as int)
                    ==> in_frontier(to_look@, end.0 as int, end.1 as int),
                forall|x: int, y: int|
                    self.in_bounds(x, y) && visited@[row_major(x, y, self.width())]
                        ==> #[trigger] discovered_at(*self, came_from@, start, x, y),
                !visited@[row_major(end.0 as int, end.1 as int, self.width())],
                visited@[row_major(start.0 as int, start.1 as int, self.width())] || ((forall|
                    k: int,
                |
                    0 <= k < to_look@.len() ==> (#[trigger] to_look@[k]) == start) && (forall|
                    x: int,
                    y: int,
                |
                    self.in_bounds(x, y) ==> !((#[trigger] came_from@[row_major(
                        x,
                        y,
                        self.width(),
                    )]) is Some))),
                !is_dfs ==> wave >= 0,
                !is_dfs ==> forall|k: int|
                    0 <= k < to_look@.len() && (#[trigger] to_look@[k]) != start ==> wave
                        <= qdepth_at(
                        *self,
                        depth,
                        start,
                        to_look@[k].0 as int,
                        to_look@[k].1 as int,
                    ) <= wave + 1,
                !is_dfs ==> forall|i: int, j: int|
                    #![trigger to_look@[i], to_look@[j]]
                    0 <= i <= j < to_look@.len() && to_look@[i] != start && to_look@[j] != start
                        ==> qdepth_at(
                        *self,
                        depth,
                        start,
                        to_look@[i].0 as int,
                        to_look@[i].1 as int,
                    ) <= qdepth_at(
                        *self,
                        depth,
                        start,
                        to_look@[j].0 as int,
                        to_look@[j].1 as int,
                    ),
                !is_dfs ==> forall|x: int, y: int|
                    self.in_bounds(x, y) && #[trigger] discovered_at(
                        *self,
                        came_from@,
                        start,
                        x,
                        y,
                    ) ==> qdepth_at(*self, depth, start, x, y) <= wave + 1,
                !is_dfs ==> forall|x: int, y: int|
                    self.in_bounds(x, y) ==> #[trigger] cell_depth_ok(
                        *self,
                        visited@,
                        depth,
                        start,
                        x,
                        y,
                    ),
            decreases to_look@.len() + 5 * none_count(came_from@),
        {
            proof {
                lemma_none_count_bounds::<(usize, usize)>(came_from@);
            }
            let ghost q_before = to_look@;
            let popped = if is_dfs {
                to_look.pop_back()
            } else {
                to_look.pop_front()
            };
            let current = popped.unwrap();

            if current.0 == end.0 && current.1 == end.1 {
                let path = self.reconstruct_path(&came_from, Ghost(depth), start, end);
                proof {
                    if !is_dfs {
                        if !visited@[row_major(
                            start.0 as int,
                            start.1 as int,
                            self.width(),
                        )] {
                            assert(q_before[0] == start);
                            assert(false);
                        }
                        assert forall|p: Seq<(usize, usize)>|
                            valid_corridor_path(*self, start, end, p) implies path@.len()
                            <= p.len() by {
                            let gl = p.len() as int;
                            assert(p[0] == end && p[gl - 1] == start);
                            assert(!visited@[row_major(
                                p[0].0 as int,
                                p[0].1 as int,
                                self.width(),
                            )]);
                            lemma_last_unexpanded(*self, visited@, p, gl - 1);
                            let j = choose|j: int|
                                0 <= j <= gl - 1 && !visited@[row_major(
                                    (#[trigger] p[j]).0 as int,
                                    p[j].1 as int,
                                    self.width(),
                                )] && (forall|i: int|
                                j < i <= gl - 1 ==> visited@[row_major(
                                    (#[trigger] p[i]).0 as int,
                                    p[i].1 as int,
                                    self.width(),
                                )]);
                            assert(j < gl - 1);
                            lemma_bfs_prefix(*self, came_from@, visited@, depth, start, end, p, j);
                            if j == 0 {
                                assert(qdepth_at(
                                    *self,
                                    depth,
                                    start,
                                    end.0 as int,
                                    end.1 as int,
                                ) <= gl - 1);
                            } else {
                                assert(self.cell_at(p[j].0 as int, p[j].1 as int).is_carveable());
                                assert(pending_or_expanded(
                                    *self,
                                    came_from@,
                                    visited@,
                                    q_before,
                                    start,
                                    p[j].0 as int,
                                    p[j].1 as int,
                                ));
                                assert(in_frontier(q_before, p[j].0 as int, p[j].1 as int));
                                let k = choose|k: int|
                                    0 <= k < q_before.len() && ((#[trigger] q_before[k]).0 as int, q_before[k].1 as int)
                                        == (p[j].0 as int, p[j].1 as int);
                                assert(q_before[k] != start);
                                assert(qdepth_at(
                                    *self,
                                    depth,
                                    start,
                                    p[j].0 as int,
                                    p[j].1 as int,
                                ) >= wave);
                                assert(q_before[0] == current && current != start);
                                assert(qdepth_at(
                                    *self,
                                    depth,
                                    start,
                                    end.0 as int,
                                    end.1 as int,
                                ) <= wave + 1);
                                assert(qdepth_at(
                                    *self,
                                    depth,
                                    start,
                                    end.0 as int,
                                    end.1 as int,
                                ) <= gl - 1);
                            }
                        }
                    }
                }
                return Some(path);
            }

            proof {
                if discovered_at(*self, came_from@, start, end.0 as int, end.1 as int) {
                    lemma_frontier_after_pop(
                        q_before,
                        to_look@,
                        current,
                        end.0 as int,
                        end.1 as int,
                    );
                }
            }

            if current.0 >= w || current.1 >= h {
                // The frontier only ever holds in-grid cells, so this
                // guard cannot fire.
                proof {
                    assert(frontier_ok(*self, came_from@, start, current));
                    assert(false);
                }
                continue;
            }

            let c = self.get_cell(current.0, current.1);
            if c != Cell::Void && c != Cell::Corridor && !(current.0 == start.0 && current.1
                == start.1) {
                proof {
                    assert forall|x: int, y: int|
                        self.in_bounds(x, y) implies #[trigger] pending_or_expanded(
                        *self,
                        came_from@,
                        visited@,
                        to_look@,
                        start,
                        x,
                        y,
                    ) by {
                        assert(pending_or_expanded(
                            *self,
                            came_from@,
                            visited@,
                            q_before,
                            start,
                            x,
                            y,
                        ));
                        if in_frontier(q_before, x, y) {
                            lemma_frontier_after_pop(q_before, to_look@, current, x, y);
                            if (x, y) == (current.0 as int, current.1 as int) {
                                assert(!self.cell_at(x, y).is_carveable());
                            }
                        }
                    }
                }
                continue;
            }

            proof {
                lemma_row_major_bound(
                    current.0 as int,
                    current.1 as int,
                    self.width(),
                    self.height(),
                );
            }
            let vidx = current.1 * w + current.0;
            if visited[vidx] {
                proof {
                    assert forall|x: int, y: int|
                        self.in_bounds(x, y) implies #[trigger] pending_or_expanded(
                        *self,
                        came_from@,
                        visited@,
                        to_look@,
                        start,
                        x,
                        y,
                    ) by {
                        assert(pending_or_expanded(
                            *self,
                            came_from@,
                            visited@,
                            q_before,
                            start,
                            x,
                            y,
                        ));
                        if in_frontier(q_before, x, y) {
                            lemma_frontier_after_pop(q_before, to_look@, current, x, y);
                        }
                    }
                }
                continue;
            }
            let ghost visited_before = visited@;
            visited.set(vidx, true);
            proof {
                lemma_row_major_distinct(
                    end.0 as int,
                    end.1 as int,
                    current.0 as int,
                    current.1 as int,
                    self.width(),
                );
                assert(!visited@[row_major(end.0 as int, end.1 as int, self.width())]);
                if current != start {
                    if !visited_before[row_major(start.0 as int, start.1 as int, self.width())] {
                        if is_dfs {
                            assert(q_before[q_before.len() - 1] == start);
                        } else {
                            assert(q_before[0] == start);
                        }
                        assert(false);
                    }
                    lemma_row_major_distinct(
                        start.0 as int,
                        start.1 as int,
                        current.0 as int,
                        current.1 as int,
                        self.width(),
                    );
                }
                assert(visited@[row_major(start.0 as int, start.1 as int, self.width())]);
                assert forall|x: int, y: int|
                    self.in_bounds(x, y) && visited@[row_major(
                    x,
                    y,
                    self.width(),
                )] implies #[trigger] discovered_at(*self, came_from@, start, x, y) by {
                    lemma_row_major_bound(x, y, self.width(), self.height());
                    if (x, y) == (current.0 as int, current.1 as int) {
                        assert(frontier_ok(*self, came_from@, start, current));
                    } else {
                        lemma_row_major_distinct(
                            x,
                            y,
                            current.0 as int,
                            current.1 as int,
                            self.width(),
                        );
                    }
                }
                if !is_dfs {
                    assert forall|x: int, y: int|
                        self.in_bounds(x, y) && (x, y) != (
                        current.0 as int,
                        current.1 as int,
                    ) implies #[trigger] cell_depth_ok(*self, visited@, depth, start, x, y) by {
                        lemma_row_major_bound(x, y, self.width(), self.height());
                        lemma_row_major_distinct(
                            x,
                            y,
                            current.0 as int,
                            current.1 as int,
                            self.width(),
                        );
                        assert(cell_depth_ok(*self, visited_before, depth, start, x, y));
                    }
                    let old_wave = wave;
                    wave = qdepth_at(*self, depth, start, current.0 as int, current.1 as int);
                    if current == start {
                        assert(wave == 0);
                        assert forall|k: int|
                            0 <= k < to_look@.len() implies (#[trigger] to_look@[k])
                            == start by {
                        }
                        assert forall|x: int, y: int|
                            self.in_bounds(x, y) && #[trigger] discovered_at(
                            *self,
                            came_from@,
                            start,
                            x,
                            y,
                        ) implies qdepth_at(*self, depth, start, x, y) <= wave + 1 by {
                            lemma_row_major_bound(x, y, self.width(), self.height());
                        }
                    } else {
                        assert(q_before[0] == current);
                        assert(old_wave <= wave <= old_wave + 1);
                        assert(came_from_entry_ok(
                            *self,
                            came_from@,
                            depth,
                            start,
                            current.0,
                            current.1,
                        ));
                        assert(wave >= 0);
                        assert forall|k: int|
                            0 <= k < to_look@.len() && (#[trigger] to_look@[k])
                                != start implies wave <= qdepth_at(
                            *self,
                            depth,
                            start,
                            to_look@[k].0 as int,
                            to_look@[k].1 as int,
                        ) <= wave + 1 by {
                            assert(to_look@[k] == q_before[k + 1]);
                        }
                        assert forall|x: int, y: int|
                            self.in_bounds(x, y) && #[trigger] discovered_at(
                            *self,
                            came_from@,
                            start,
                            x,
                            y,
                        ) implies qdepth_at(*self, depth, start, x, y) <= wave + 1 by {
                        }
                    }
                }
                assert forall|x: int, y: int|
                    self.in_bounds(x, y) && (x, y) != (
                    current.0 as int,
                    current.1 as int,
                ) implies #[trigger] cell_expanded_ok(*self, came_from@, visited@, start, x, y) by {
                    assert(cell_expanded_ok(*self, came_from@, visited_before, start, x, y));
                    lemma_row_major_bound(x, y, self.width(), self.height());
                    lemma_row_major_distinct(
                        x,
                        y,
                        current.0 as int,
                        current.1 as int,
                        self.width(),
                    );
                }
                assert forall|x: int, y: int|
                    self.in_bounds(x, y) implies #[trigger] pending_or_expanded(
                    *self,
                    came_from@,
                    visited@,
                    to_look@,
                    start,
                    x,
                    y,
                ) by {
                    assert(pending_or_expanded(
                        *self,
                        came_from@,
                        visited_before,
                        q_before,
                        start,
                        x,
                        y,
                    ));
                    lemma_row_major_bound(x, y, self.width(), self.height());
                    if (x, y) == (current.0 as int, current.1 as int) {
                    } else {
                        lemma_row_major_distinct(
                            x,
                            y,
                            current.0 as int,
                            current.1 as int,
                            self.width(),
                        );
                        if in_frontier(q_before, x, y) {
                            lemma_frontier_after_pop(q_before, to_look@, current, x, y);
                        }
                    }
                }
            }

            let mut si: usize = 1;
            while si < 4
                invariant
                    1 <= si <= 4,
                    dirs@.len() == 4,
                    forall|k: int| 0 <= k < 4 ==> unit_dir(#[trigger] dirs@[k]),
                    dirs@.contains((0i32, 1i32)),
                    dirs@.contains((1i32, 0i32)),
                    dirs@.contains((-1i32, 0i32)),
                    dirs@.contains((0i32, -1i32)),
                decreases 4 - si,
            {
                let j = rng.random_range(0, si + 1);
                let ghost dirs_before = dirs@;
                let a = dirs[si];
                let b = dirs[j];
                dirs.set(si, b);
                dirs.set(j, a);
                proof {
                    lemma_swap_keeps_element(
                        dirs_before,
                        dirs@,
                        si as int,
                        j as int,
                        (0i32, 1i32),
                    );
                    lemma_swap_keeps_element(
                        dirs_before,
                        dirs@,
                        si as int,
                        j as int,
                        (1i32, 0i32),
                    );
                    lemma_swap_keeps_element(
                        dirs_before,
                        dirs@,
                        si as int,
                        j as int,
                        (-1i32, 0i32),
                    );
                    lemma_swap_keeps_element(
                        dirs_before,
                        dirs@,
                        si as int,
                        j as int,
                        (0i32, -1i32),
                    );
                }
                si += 1;
            }

            let Ghost(depth_out) = self.expand_from(
                &dirs,
                &mut came_from,
                &mut to_look,
                &visited,
                Ghost(depth),
                Ghost(!is_dfs),
                Ghost(wave),
                current,
                start,
                end,
            );
            proof {
                depth = depth_out;
                lemma_none_count_bounds::<(usize, usize)>(came_from@);
            }
        }

        proof {
            assert forall|p: Seq<(usize, usize)>| !valid_corridor_path(
                *self,
                start,
                end,
                p,
            ) by {
                if valid_corridor_path(*self, start, end, p) {
                    lemma_exhausted_search_covers_path(
                        *self,
                        came_from@,
                        visited@,
                        to_look@,
                        start,
                        end,
                        p,
                        0,
                    );
                    assert(discovered_at(*self, came_from@, start, end.0 as int, end.1 as int));
                    assert(in_frontier(to_look@, end.0 as int, end.1 as int));
                    assert(false);
                }
            }
        }
        None
    }

    /// Search for a corridor from `start` to `end` with a depth-first
    /// frontier: longer, winding corridors.
    pub fn dfs_to_pos(&mut self, rng: &mut GameRng, start: (usize, usize), end: (usize, usize)) -> (r:
        Option<Vec<(usize, usize)>>)
        requires
            old(self).well_formed(),
            start.0 < old(self).screen_dims.0,
            start.1 < old(self).screen_dims.1,
            end.0 < old(self).screen_dims.0,
            end.1 < old(self).screen_dims.1,
        ensures
            *final(self) == *old(self),
            r matches Some(path) ==> valid_corridor_path(*old(self), start, end, path@),
            r is None ==> forall|p: Seq<(usize, usize)>|
                !valid_corridor_path(*old(self), start, end, p),
    {
        self.dfs_or_bfs(rng, start, end, true)
    }

    /// Search for a corridor from `start` to `end` with a breadth-first
    /// frontier: a returned path is a shortest valid corridor path, no
    /// matter how the neighbour order was shuffled.
    pub fn bfs_to_pos(&mut self, rng: &mut GameRng, start: (usize, usize), end: (usize, usize)) -> (r:
        Option<Vec<(usize, usize)>>)
        requires
            old(self).well_formed(),
            start.0 < old(self).screen_dims.0,
            start.1 < old(self).screen_dims.1,
            end.0 < old(self).screen_dims.0,
            end.1 < old(self).screen_dims.1,
        ensures
            *final(self) == *old(self),
            r matches Some(path) ==> valid_corridor_path(*old(self), start, end, path@),
            r is None ==> forall|p: Seq<(usize, usize)>|
                !valid_corridor_path(*old(self), start, end, p),
            r matches Some(path) ==> forall|p: Seq<(usize, usize)>|
                valid_corridor_path(*old(self), start, end, p) ==> path@.len() <= p.len(),
    {
        self.dfs_or_bfs(rng, start, end, false)
    }

    /// How one cell tag is drawn at full brightness.
    pub fn get_cell_char(&mut self, cell_type: Cell) -> (r: Character)
        ensures
            *final(self) == *old(self),
            r == spec_cell_char(cell_type),
    {
        match cell_type {
            Cell::Void => Character::default(),
            Cell::Wall => Character {
                symbol: '#',
                color: Color { r: 100, g: 100, b: 100 },
                color_back: Color { r: 20, g: 20, b: 20 },
            },
            Cell::Floor => Character {
                symbol: ',',
                color: Color { r: 50, g: 50, b: 50 },
                color_back: Color { r: 1, g: 1, b: 1 },
            },
            Cell::Corridor => Character {
                symbol: '.',
                color: Color { r: 50, g: 50, b: 50 },
                color_back: Color { r: 1, g: 1, b: 1 },
            },
        }
    }
}

} // verus!
