//! Roads: which cells they cover, what walks cost, and where they lead.

use super::distance::flipped;
use crate::scalar::arith::abs_int;
use crate::scalar::bounds::lemma_product;
use crate::scalar::consts::TWO;
use crate::scalar::convert::lemma_unit;
use crate::scalar::exact::{lemma_exact, lemma_power};
use crate::scalar::monotone::lemma_add_commutes;
use crate::scalar::order::lemma_two;
use crate::scalar::{scalar, unit};
use crate::sim::agent::Position;
use crate::sim::city::{seg_dist2, seg_param};
use crate::sim::grid::{in_bounds, slot, Lattice};
use crate::sim::route::{
    adjacent, beside, end_cell, free, is_path, is_snap, on_road, path_cost, road_cells, step_cost,
    Cell, Ground, Offset, RouteGrid,
};
use vstd::arithmetic::power2::lemma2_to64;
use vstd::prelude::*;

verus! {

/// A point lies within two units of the segment between two others.
pub open spec fn is_by_segment(p: Position, a: Position, b: Position) -> bool {
    let d2 = seg_dist2(p, a, b);
    !d2.is_nan_spec() && d2.num() <= 4 * unit()
}

/// A point lies within two units of some stretch of some road, from one of its
/// points to the next.
pub open spec fn is_by_road(p: Position, roads: Seq<Seq<Position>>) -> bool {
    exists|r: int, w: int|
        0 <= r < roads.len() && 0 <= w && w + 1 < roads[r].len() && #[trigger] is_by_segment(
            p,
            roads[r][w],
            roads[r][w + 1],
        )
}

proof fn lemma_width()
    ensures
        !scalar(TWO).mul_spec(scalar(TWO)).is_nan_spec(),
        scalar(TWO).mul_spec(scalar(TWO)).num() == 4 * unit(),
{
    lemma_two();
    lemma_unit();
    lemma2_to64();
    let two = scalar(TWO);
    let u = unit();
    lemma_product(two, two);
    lemma_power(0x4080_0000, 2);
    assert((2 * u) * (2 * u) == (4 * u) * u) by (nonlinear_arith);
    lemma_exact(0x4080_0000, (2 * u) * (2 * u), u);
}

proof fn lemma_by_road(p: Position, roads: Seq<Seq<Position>>)
    ensures
        on_road(roads, p) == is_by_road(p, roads),
{
    lemma_width();
    if on_road(roads, p) {
        let (r, w) = choose|r: int, w: int|
            0 <= r < roads.len() && 0 <= w < roads[r].len() - 1 && #[trigger] beside(
                p,
                roads[r],
                w,
            );
        assert(is_by_segment(p, roads[r][w], roads[r][w + 1]));
    }
    if is_by_road(p, roads) {
        let (r, w) = choose|r: int, w: int|
            0 <= r < roads.len() && 0 <= w && w + 1 < roads[r].len() && #[trigger] is_by_segment(
                p,
                roads[r][w],
                roads[r][w + 1],
            );
        assert(beside(p, roads[r], w));
    }
}

/// Entering a cell costs 3 where its center lies within two units of any
/// stretch of any road, and 10 everywhere else.
pub proof fn law_roads_are_cheap(ground: Ground, c: Cell)
    requires
        in_bounds(ground.lattice.side(), c.0 as int, c.1 as int),
    ensures
        step_cost(ground.road(), ground.lattice.side(), c) == (if is_by_road(
            ground.lattice.center(c.0 as int, c.1 as int),
            ground.roads,
        ) {
            3u32
        } else {
            10u32
        }),
{
    let n = ground.lattice.side();
    crate::sim::grid::lemma_slot(n, c.0 as int, c.1 as int);
    lemma_by_road(ground.lattice.center(c.0 as int, c.1 as int), ground.roads);
}

/// A road cut in two at one of its points covers the same ground as before.
pub proof fn law_cutting_a_road_changes_nothing(
    roads: Seq<Seq<Position>>,
    r: int,
    j: int,
    lattice: Lattice,
)
    requires
        0 <= r < roads.len(),
        0 <= j < roads[r].len(),
    ensures
        road_cells(
            lattice,
            roads.update(r, roads[r].subrange(0, j + 1)).push(
                roads[r].subrange(j, roads[r].len() as int),
            ),
        ) == road_cells(lattice, roads),
{
    let line = roads[r];
    let head = line.subrange(0, j + 1);
    let tail = line.subrange(j, line.len() as int);
    let cut = roads.update(r, head).push(tail);
    let n = roads.len() as int;
    assert forall|p: Position| on_road(cut, p) == on_road(roads, p) by {
        if on_road(roads, p) {
            let (q, w) = choose|q: int, w: int|
                0 <= q < roads.len() && 0 <= w < roads[q].len() - 1 && #[trigger] beside(
                    p,
                    roads[q],
                    w,
                );
            if q != r {
                assert(cut[q] == roads[q]);
                assert(beside(p, cut[q], w));
            } else if w < j {
                assert(head[w] == line[w] && head[w + 1] == line[w + 1]);
                assert(cut[r] == head);
                assert(beside(p, cut[r], w));
            } else {
                assert(tail[w - j] == line[w] && tail[w - j + 1] == line[w + 1]);
                assert(cut[n] == tail);
                assert(beside(p, cut[n], w - j));
            }
        }
        if on_road(cut, p) {
            let (q, w) = choose|q: int, w: int|
                0 <= q < cut.len() && 0 <= w < cut[q].len() - 1 && #[trigger] beside(p, cut[q], w);
            if q == n {
                assert(tail[w] == line[w + j] && tail[w + 1] == line[w + j + 1]);
                assert(beside(p, roads[r], w + j));
            } else if q == r {
                assert(head[w] == line[w] && head[w + 1] == line[w + 1]);
                assert(beside(p, roads[r], w));
            } else {
                assert(cut[q] == roads[q]);
                assert(beside(p, roads[q], w));
            }
        }
    }
    assert(road_cells(lattice, cut) =~= road_cells(lattice, roads));
}

/// Roads do not disturb one another: a cell is road in the whole network
/// exactly when it is road in one of its lines alone.
pub proof fn law_roads_add_up(roads: Seq<Seq<Position>>, lattice: Lattice, i: int)
    requires
        0 <= i < lattice.count(),
    ensures
        road_cells(lattice, roads)[i] == exists|r: int|
            0 <= r < roads.len() && #[trigger] road_cells(lattice, seq![roads[r]])[i],
{
    let p = lattice.center(i % lattice.side(), i / lattice.side());
    if on_road(roads, p) {
        let (r, w) = choose|r: int, w: int|
            0 <= r < roads.len() && 0 <= w < roads[r].len() - 1 && #[trigger] beside(
                p,
                roads[r],
                w,
            );
        let one = seq![roads[r]];
        assert(one[0] == roads[r]);
        assert(beside(p, one[0], w));
        assert(road_cells(lattice, seq![roads[r]])[i]);
    }
    if exists|r: int| 0 <= r < roads.len() && #[trigger] road_cells(lattice, seq![roads[r]])[i] {
        let r = choose|r: int|
            0 <= r < roads.len() && #[trigger] road_cells(lattice, seq![roads[r]])[i];
        let one = seq![roads[r]];
        let (q, w) = choose|q: int, w: int|
            0 <= q < one.len() && 0 <= w < one[q].len() - 1 && #[trigger] beside(p, one[q], w);
        assert(one[q] == roads[r]);
        assert(beside(p, roads[r], w));
    }
}

/// Exchanging the axes changes no distance to a segment.
pub proof fn law_segments_count_both_axes(p: Position, a: Position, b: Position)
    ensures
        seg_dist2(flipped(p), flipped(a), flipped(b)) == seg_dist2(p, a, b),
{
    let abx = b.x.sub_spec(a.x);
    let abz = b.z.sub_spec(a.z);
    lemma_add_commutes(abx.mul_spec(abx), abz.mul_spec(abz));
    lemma_add_commutes(
        p.x.sub_spec(a.x).mul_spec(abx),
        p.z.sub_spec(a.z).mul_spec(abz),
    );
    assert(seg_param(flipped(p), flipped(a), flipped(b)) == seg_param(p, a, b));
    let t = seg_param(p, a, b);
    let dx = p.x.sub_spec(a.x.add_spec(abx.mul_spec(t)));
    let dz = p.z.sub_spec(a.z.add_spec(abz.mul_spec(t)));
    lemma_add_commutes(dx.mul_spec(dx), dz.mul_spec(dz));
}

/// Two cells are neighbours when they lie one step apart along exactly one
/// axis.
pub proof fn law_steps_go_to_neighbours(a: Cell, b: Cell)
    ensures
        adjacent(a, b) == (abs_int(a.0 - b.0) + abs_int(a.1 - b.1) == 1),
        adjacent(a, b) == adjacent(b, a),
{
}

/// The search may step from a cell to exactly the neighbours that are on the
/// grid and not blocked, at the cost of entering them.
pub proof fn law_search_steps(grid: RouteGrid, c: Cell, to: Cell, cost: u32)
    requires
        grid.valid(),
        in_bounds(grid.n as int, c.0 as int, c.1 as int),
    ensures
        grid.steps_from(c).contains((to, cost)) == (abs_int(c.0 - to.0) + abs_int(c.1 - to.1) == 1
            && 0 <= to.0 < grid.n && 0 <= to.1 < grid.n && !grid.blocked@[to.1 * grid.n + to.0]
            && cost == (if grid.road@[to.1 * grid.n + to.0] {
            3u32
        } else {
            10u32
        })),
{
    let n = grid.n as int;
    assert(n < 0x1_0000) by (nonlinear_arith)
        requires
            n * n <= 429_496_729,
            n > 0,
    ;
    let r = grid.step_towards(c, 1, 0);
    let l = grid.step_towards(c, -1, 0);
    let d = grid.step_towards(c, 0, 1);
    let u = grid.step_towards(c, 0, -1);
    let all = grid.steps_from(c);
    assert(all == r + l + d + u);
    let x = (to, cost);
    if r.contains(x) {
        let k = choose|k: int| 0 <= k < r.len() && r[k] == x;
        assert(all[k] == x);
    }
    if l.contains(x) {
        let k = choose|k: int| 0 <= k < l.len() && l[k] == x;
        assert(all[r.len() + k] == x);
    }
    if d.contains(x) {
        let k = choose|k: int| 0 <= k < d.len() && d[k] == x;
        assert(all[r.len() + l.len() + k] == x);
    }
    if u.contains(x) {
        let k = choose|k: int| 0 <= k < u.len() && u[k] == x;
        assert(all[r.len() + l.len() + d.len() + k] == x);
    }
    if all.contains(x) {
        let k = choose|k: int| 0 <= k < all.len() && all[k] == x;
        if k < r.len() {
            assert(r[k] == x);
        } else if k < r.len() + l.len() {
            assert(l[k - r.len()] == x);
        } else if k < r.len() + l.len() + d.len() {
            assert(d[k - r.len() - l.len()] == x);
        } else {
            assert(u[k - r.len() - l.len() - d.len()] == x);
        }
        assert(r.contains(x) || l.contains(x) || d.contains(x) || u.contains(x));
    }
    if abs_int(c.0 - to.0) + abs_int(c.1 - to.1) == 1 && 0 <= to.0 < grid.n && 0 <= to.1 < grid.n
        && !grid.blocked@[to.1 * grid.n + to.0] && cost == step_cost(grid.road@, n, to) {
        if to.0 == c.0 + 1 {
            assert(r[0] == x);
        } else if to.0 == c.0 - 1 {
            assert(l[0] == x);
        } else if to.1 == c.1 + 1 {
            assert(d[0] == x);
        } else {
            assert(u[0] == x);
        }
    }
}

/// How many of the cells of a walk behind the first are road.
pub open spec fn road_steps(road: Seq<bool>, n: int, p: Seq<Cell>) -> nat
    decreases p.len(),
{
    if p.len() <= 1 {
        0
    } else {
        road_steps(road, n, p.drop_last()) + if road[p.last().1 * n + p.last().0] {
            1nat
        } else {
            0
        }
    }
}

/// A walk costs 3 for each road cell that it enters and 10 for each other one;
/// the cell where it starts is free.
pub proof fn law_cost_of_a_walk(road: Seq<bool>, n: int, p: Seq<Cell>)
    requires
        p.len() > 0,
    ensures
        path_cost(road, n, p) == 3 * road_steps(road, n, p) + 10 * (p.len() - 1 - road_steps(
            road,
            n,
            p,
        )),
    decreases p.len(),
{
    if p.len() > 1 {
        law_cost_of_a_walk(road, n, p.drop_last());
    }
}

/// A walk back over free cells is a walk too.
pub proof fn law_walks_can_be_reversed(
    blocked: Seq<bool>,
    n: int,
    start: Cell,
    target: Cell,
    p: Seq<Cell>,
)
    requires
        is_path(blocked, n, start, target, p),
        free(blocked, n, start.0 as int, start.1 as int),
    ensures
        is_path(blocked, n, target, start, p.reverse()),
{
    let q = p.reverse();
    assert forall|i: int| 1 <= i < q.len() implies adjacent(q[i - 1], #[trigger] q[i]) && free(
        blocked,
        n,
        q[i].0 as int,
        q[i].1 as int,
    ) by {
        let k = p.len() - i;
        assert(q[i - 1] == p[k] && q[i] == p[k - 1]);
        assert(adjacent(p[k - 1], p[k]));
        if k - 1 >= 1 {
            assert(free(blocked, n, p[k - 1].0 as int, p[k - 1].1 as int));
        }
    }
}

/// A cell is blocked when its center lies in one of the obstacles, edges
/// included, or a wall crosses it; and for no other reason.
pub proof fn law_blocked_cells(ground: Ground, c: Cell)
    requires
        in_bounds(ground.lattice.side(), c.0 as int, c.1 as int),
    ensures
        ({
            let n = ground.lattice.side();
            let i = c.1 * n + c.0;
            let p = ground.lattice.center(c.0 as int, c.1 as int);
            ground.blocked()[i] == ((i < ground.crossed.len() && ground.crossed[i]) || exists|
                k: int,
            |
                0 <= k < ground.rects.len() && {
                    let r = #[trigger] ground.rects[k];
                    r.min_x.le_spec(p.x) && p.x.le_spec(r.max_x) && r.min_z.le_spec(p.z)
                        && p.z.le_spec(r.max_z)
                })
        }),
{
    let n = ground.lattice.side();
    let i = slot(n, c.0 as int, c.1 as int);
    crate::sim::grid::lemma_slot(n, c.0 as int, c.1 as int);
    let p = ground.lattice.center(c.0 as int, c.1 as int);
    assert(ground.lattice.center(i % n, i / n) == p);
    if crate::sim::grid::covered(ground.rects, p) {
        let k = choose|k: int| 0 <= k < ground.rects.len() && #[trigger] ground.rects[k].covers(p);
        let r = ground.rects[k];
        assert(r.min_x.le_spec(p.x));
    }
    if exists|k: int|
        0 <= k < ground.rects.len() && {
            let r = #[trigger] ground.rects[k];
            r.min_x.le_spec(p.x) && p.x.le_spec(r.max_x) && r.min_z.le_spec(p.z) && p.z.le_spec(
                r.max_z,
            )
        } {
        let k = choose|k: int|
            0 <= k < ground.rects.len() && {
                let r = #[trigger] ground.rects[k];
                r.min_x.le_spec(p.x) && p.x.le_spec(r.max_x) && r.min_z.le_spec(p.z)
                    && p.z.le_spec(r.max_z)
            };
        assert(ground.rects[k].covers(p));
    }
}

/// A target that is not free snaps to a free cell at most four rings around
/// it, and no ring inside that one has a free cell. Where it snaps to none, no
/// cell within four rings is free.
pub proof fn law_targets_snap_to_the_nearest_free_cell(
    blocked: Seq<bool>,
    n: int,
    to: Cell,
    other: Offset,
)
    requires
        0 < n < 0x1_0000,
        !free(blocked, n, to.0 as int, to.1 as int),
        1 <= abs_int(other.dx) <= 4 || 1 <= abs_int(other.dy) <= 4,
        abs_int(other.dx) <= 4,
        abs_int(other.dy) <= 4,
        free(blocked, n, to.0 + other.dx, to.1 + other.dy),
    ensures
        end_cell(blocked, n, to) matches Some(c) && {
            let x = abs_int(c.0 - to.0);
            let y = abs_int(c.1 - to.1);
            let near = if x < y {
                y
            } else {
                x
            };
            &&& 0 <= c.0 < n && 0 <= c.1 < n && !blocked[c.1 * n + c.0]
            &&& 1 <= near <= 4
            &&& near <= abs_int(other.dx) || near <= abs_int(other.dy)
        },
{
    // among the offsets to free cells there is a first one
    let o = lemma_first_offset(blocked, n, to, other);
    crate::sim::route::lemma_snap(blocked, n, to, o);
    assert(free(blocked, n, to.0 + other.dx, to.1 + other.dy));
    assert(!other.before(o, o.ring()));
}

/// Place of an offset in the order in which cells are tried.
spec fn trial(o: Offset) -> int {
    o.ring() * 10000 + (o.dy + 50) * 100 + o.dx + 50
}

proof fn lemma_first_offset(blocked: Seq<bool>, n: int, to: Cell, o: Offset) -> (f: Offset)
    requires
        1 <= o.ring() <= 4,
        free(blocked, n, to.0 + o.dx, to.1 + o.dy),
    ensures
        is_snap(blocked, n, to, f),
    decreases trial(o),
{
    if exists|q: Offset|
        1 <= q.ring() <= 4 && #[trigger] free(blocked, n, to.0 + q.dx, to.1 + q.dy) && q.before(
            o,
            o.ring(),
        ) {
        let q = choose|q: Offset|
            1 <= q.ring() <= 4 && #[trigger] free(blocked, n, to.0 + q.dx, to.1 + q.dy)
                && q.before(o, o.ring());
        lemma_first_offset(blocked, n, to, q)
    } else {
        o
    }
}

} // verus!
