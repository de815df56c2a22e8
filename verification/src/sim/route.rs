//! Routes around obstacles.

use super::agent::Position;
use super::city::{point_seg_dist2, seg_dist2, Roads};
use super::grid::{
    blocked_cells, cell_total, in_bounds, lemma_slot, lemma_unslot, slot, Lattice, Obstacle,
    Obstacles, Wall, Walls, MAX_CELLS,
};
use crate::scalar::consts::TWO;
use crate::scalar::{scalar, Scalar};
use pathfinding::directed::dijkstra::dijkstra;
use vstd::prelude::*;

verus! {

/// Snap radius (cells) for targets inside obstacles.
pub const SNAP_RADIUS_CELLS: i64 = 4;

/// Cost of entering a grass cell. Road cells are about three times cheaper,
/// so agents detour onto stamped roads instead of cutting across grass.
pub const GRASS_COST: u32 = 10;

/// Cost of entering a road cell.
pub const ROAD_COST: u32 = 3;

/// Cell centers within this of a road segment count as road (2).
pub const ROAD_HALF_WIDTH: u32 = TWO;

/// A cell by column and row.
pub type Cell = (i32, i32);

/// What routing knows of the ground.
pub ghost struct Ground {
    pub lattice: Lattice,
    pub rects: Seq<Obstacle>,
    pub walls: Seq<Wall>,
    pub crossed: Seq<bool>,
    pub roads: Seq<Seq<Position>>,
}

/// Some road segment passes within half a road's width of the point.
pub open spec fn on_road(roads: Seq<Seq<Position>>, p: Position) -> bool {
    exists|r: int, w: int|
        0 <= r < roads.len() && 0 <= w < roads[r].len() - 1 && #[trigger] beside(p, roads[r], w)
}

/// Segment `w` of the line passes within half a road's width of the point.
pub open spec fn beside(p: Position, line: Seq<Position>, w: int) -> bool {
    seg_dist2(p, line[w], line[w + 1]).le_spec(
        scalar(ROAD_HALF_WIDTH).mul_spec(scalar(ROAD_HALF_WIDTH)),
    )
}

/// Road flags of all cells, row by row.
pub open spec fn road_cells(lattice: Lattice, roads: Seq<Seq<Position>>) -> Seq<bool> {
    Seq::new(
        lattice.count(),
        |i: int| on_road(roads, lattice.center(i % lattice.side(), i / lattice.side())),
    )
}

/// The cell lies on the grid and is not blocked.
pub open spec fn free(blocked: Seq<bool>, n: int, cx: int, cy: int) -> bool {
    in_bounds(n, cx, cy) && !blocked[slot(n, cx, cy)]
}

/// One step in one of the four directions.
pub open spec fn adjacent(a: Cell, b: Cell) -> bool {
    (a.1 == b.1 && (b.0 == a.0 + 1 || b.0 == a.0 - 1)) || (a.0 == b.0 && (b.1 == a.1 + 1 || b.1
        == a.1 - 1))
}

/// Cost of entering a cell.
pub open spec fn step_cost(road: Seq<bool>, n: int, c: Cell) -> u32 {
    if road[slot(n, c.0 as int, c.1 as int)] {
        ROAD_COST
    } else {
        GRASS_COST
    }
}

/// `p` walks from `start` to `target` over free cells, one step at a time.
pub open spec fn is_path(
    blocked: Seq<bool>,
    n: int,
    start: Cell,
    target: Cell,
    p: Seq<Cell>,
) -> bool {
    &&& p.len() > 0
    &&& p[0] == start
    &&& p.last() == target
    &&& forall|i: int|
        1 <= i < p.len() ==> adjacent(p[i - 1], #[trigger] p[i]) && free(
            blocked,
            n,
            p[i].0 as int,
            p[i].1 as int,
        )
}

/// Cost of a path: every cell but the first is entered.
pub open spec fn path_cost(road: Seq<bool>, n: int, p: Seq<Cell>) -> nat
    decreases p.len(),
{
    if p.len() <= 1 {
        0
    } else {
        path_cost(road, n, p.drop_last()) + step_cost(road, n, p.last()) as nat
    }
}

/// No path from `start` to `target` is cheaper than `p`.
pub open spec fn is_cheapest(
    blocked: Seq<bool>,
    road: Seq<bool>,
    n: int,
    start: Cell,
    target: Cell,
    p: Seq<Cell>,
) -> bool {
    forall|q: Seq<Cell>| #[trigger]
        is_path(blocked, n, start, target, q) ==> path_cost(road, n, p) <= path_cost(road, n, q)
}

/// The cells that `dijkstra` of the crate `pathfinding` returns for a grid of
/// side `n` with the given blocked and road flags.
pub uninterp spec fn dijkstra_cells(
    blocked: Seq<bool>,
    road: Seq<bool>,
    n: i32,
    start: (i32, i32),
    target: (i32, i32),
) -> Option<Seq<(i32, i32)>>;

/// Grid flags for one search.
pub struct RouteGrid {
    pub n: i32,
    pub blocked: Vec<bool>,
    pub road: Vec<bool>,
}

impl RouteGrid {
    pub open spec fn valid(&self) -> bool {
        &&& self.n > 0
        &&& self.n * self.n <= MAX_CELLS
        &&& self.blocked.len() == self.n * self.n
        &&& self.road.len() == self.n * self.n
    }

    /// The steps that lead from `c` in one direction: one or none.
    pub open spec fn step_towards(&self, c: Cell, dx: int, dy: int) -> Seq<(Cell, u32)> {
        if free(self.blocked@, self.n as int, c.0 + dx, c.1 + dy) {
            let to: Cell = ((c.0 + dx) as i32, (c.1 + dy) as i32);
            seq![(to, step_cost(self.road@, self.n as int, to))]
        } else {
            Seq::empty()
        }
    }

    /// The steps that lead from `c`: right, left, down, up.
    pub open spec fn steps_from(&self, c: Cell) -> Seq<(Cell, u32)> {
        self.step_towards(c, 1, 0) + self.step_towards(c, -1, 0) + self.step_towards(c, 0, 1)
            + self.step_towards(c, 0, -1)
    }

    fn push_step(&self, out: &mut Vec<(Cell, u32)>, c: Cell, dx: i32, dy: i32)
        requires
            self.valid(),
            in_bounds(self.n as int, c.0 as int, c.1 as int),
            -1 <= dx <= 1,
            -1 <= dy <= 1,
        ensures
            final(out)@ == old(out)@ + self.step_towards(c, dx as int, dy as int),
    {
        let _total: usize = cell_total(self.n);
        let x: i32 = c.0 + dx;
        let y: i32 = c.1 + dy;
        if self.is_free(x as i64, y as i64) {
            proof {
                lemma_slot(self.n as int, x as int, y as int);
            }
            let i: usize = y as usize * self.n as usize + x as usize;
            let cost: u32 = if self.road[i] {
                ROAD_COST
            } else {
                GRASS_COST
            };
            out.push(((x, y), cost));
        }
        proof {
            assert(out@ =~= old(out)@ + self.step_towards(c, dx as int, dy as int));
        }
    }

    /// Free neighbours of a cell with the cost of entering them.
    pub fn steps(&self, c: Cell) -> (r: Vec<(Cell, u32)>)
        requires
            self.valid(),
            in_bounds(self.n as int, c.0 as int, c.1 as int),
        ensures
            r@ == self.steps_from(c),
    {
        let mut r: Vec<(Cell, u32)> = Vec::new();
        self.push_step(&mut r, c, 1, 0);
        self.push_step(&mut r, c, -1, 0);
        self.push_step(&mut r, c, 0, 1);
        self.push_step(&mut r, c, 0, -1);
        proof {
            assert(r@ =~= self.steps_from(c));
        }
        r
    }

    fn is_free(&self, x: i64, y: i64) -> (r: bool)
        requires
            self.valid(),
        ensures
            r == free(self.blocked@, self.n as int, x as int, y as int),
    {
        if x < 0 || y < 0 || x >= self.n as i64 || y >= self.n as i64 {
            return false;
        }
        let _total: usize = cell_total(self.n);
        proof {
            lemma_slot(self.n as int, x as int, y as int);
        }
        !self.blocked[y as usize * self.n as usize + x as usize]
    }

    /// Nearest walkable cell around a target, within the snap radius.
    fn snap(&self, target: Cell) -> (r: Option<Cell>)
        requires
            self.valid(),
        ensures
            match r {
                Some(c) => snapped(self.blocked@, self.n as int, target) == Some(c),
                None => snapped(self.blocked@, self.n as int, target) is None,
            },
    {
        let ghost b = self.blocked@;
        let ghost n = self.n as int;
        let mut ring: i64 = 1;
        while ring <= SNAP_RADIUS_CELLS
            invariant
                self.valid(),
                b == self.blocked@,
                n == self.n,
                1 <= ring <= SNAP_RADIUS_CELLS + 1,
                forall|o: Offset|
                    o.ring() >= 1 && o.ring() < ring ==> !#[trigger] free(
                        b,
                        n,
                        target.0 + o.dx,
                        target.1 + o.dy,
                    ),
            decreases SNAP_RADIUS_CELLS + 1 - ring,
        {
            let mut dy: i64 = -ring;
            while dy <= ring
                invariant
                    self.valid(),
                    b == self.blocked@,
                    n == self.n,
                    1 <= ring <= SNAP_RADIUS_CELLS,
                    -ring <= dy <= ring + 1,
                    forall|o: Offset|
                        o.ring() >= 1 && (o.ring() < ring || (o.ring() == ring && o.dy < dy))
                            ==> !#[trigger] free(b, n, target.0 + o.dx, target.1 + o.dy),
                decreases ring + 1 - dy,
            {
                let mut dx: i64 = -ring;
                while dx <= ring
                    invariant
                        self.valid(),
                        b == self.blocked@,
                        n == self.n,
                        1 <= ring <= SNAP_RADIUS_CELLS,
                        -ring <= dy <= ring,
                        -ring <= dx <= ring + 1,
                        forall|o: Offset|
                            o.ring() >= 1 && o.before(Offset { dx: dx as int, dy: dy as int }, ring as int)
                                ==> !#[trigger] free(b, n, target.0 + o.dx, target.1 + o.dy),
                    decreases ring + 1 - dx,
                {
                    let here: bool = dx == ring || dx == -ring || dy == ring || dy == -ring;
                    let cx: i64 = target.0 as i64 + dx;
                    let cy: i64 = target.1 as i64 + dy;
                    let ghost o = Offset { dx: dx as int, dy: dy as int };
                    if here && self.is_free(cx, cy) {
                        proof {
                            assert(o.ring() == ring);
                            assert(free(b, n, target.0 + o.dx, target.1 + o.dy));
                            assert forall|q: Offset|
                                1 <= q.ring() <= SNAP_RADIUS_CELLS && free(
                                    b,
                                    n,
                                    target.0 + q.dx,
                                    target.1 + q.dy,
                                ) implies !q.before(o, o.ring()) by {}
                            assert(is_snap(b, n, target, o));
                            lemma_snap(b, n, target, o);
                        }
                        return Some((cx as i32, cy as i32));
                    }
                    proof {
                        assert forall|q: Offset|
                            q.ring() >= 1 && q.before(
                                Offset { dx: dx + 1, dy: dy as int },
                                ring as int,
                            ) implies !#[trigger] free(b, n, target.0 + q.dx, target.1 + q.dy) by {
                            if !q.before(o, ring as int) {
                                assert(q.dx == dx && q.dy == dy);
                            }
                        }
                    }
                    dx += 1;
                }
                dy += 1;
            }
            ring += 1;
        }
        proof {
            assert forall|o: Offset| !is_snap(b, n, target, o) by {
                if is_snap(b, n, target, o) {
                    assert(free(b, n, target.0 + o.dx, target.1 + o.dy));
                }
            }
        }
        None
    }
}

/// A displacement in cells.
pub ghost struct Offset {
    pub dx: int,
    pub dy: int,
}

impl Offset {
    /// Which square ring around the origin it lies on.
    pub open spec fn ring(self) -> int {
        let ax = if self.dx < 0 {
            -self.dx
        } else {
            self.dx
        };
        let ay = if self.dy < 0 {
            -self.dy
        } else {
            self.dy
        };
        if ax < ay {
            ay
        } else {
            ax
        }
    }

    /// Tried before `o` on ring `ring`: inner rings first, then row by row.
    pub open spec fn before(self, o: Offset, ring: int) -> bool {
        self.ring() < ring || (self.ring() == ring && (self.dy < o.dy || (self.dy == o.dy && self.dx
            < o.dx)))
    }
}

/// `o` leads to the first free cell around the target.
pub open spec fn is_snap(blocked: Seq<bool>, n: int, target: Cell, o: Offset) -> bool {
    &&& 1 <= o.ring() <= SNAP_RADIUS_CELLS
    &&& free(blocked, n, target.0 + o.dx, target.1 + o.dy)
    &&& forall|q: Offset|
        1 <= q.ring() <= SNAP_RADIUS_CELLS && #[trigger] free(
            blocked,
            n,
            target.0 + q.dx,
            target.1 + q.dy,
        ) ==> !q.before(o, o.ring())
}

/// The cell that a target inside an obstacle, or off the grid, snaps to.
pub open spec fn snapped(blocked: Seq<bool>, n: int, target: Cell) -> Option<Cell> {
    if exists|o: Offset| is_snap(blocked, n, target, o) {
        let o = choose|o: Offset| is_snap(blocked, n, target, o);
        Some(((target.0 + o.dx) as i32, (target.1 + o.dy) as i32))
    } else {
        None
    }
}

pub(crate) proof fn lemma_snap(blocked: Seq<bool>, n: int, target: Cell, o: Offset)
    requires
        is_snap(blocked, n, target, o),
    ensures
        snapped(blocked, n, target) == Some(
            ((target.0 + o.dx) as i32, (target.1 + o.dy) as i32),
        ),
{
    let q = choose|q: Offset| is_snap(blocked, n, target, q);
    assert(is_snap(blocked, n, target, q));
    assert(free(blocked, n, target.0 + o.dx, target.1 + o.dy));
    assert(free(blocked, n, target.0 + q.dx, target.1 + q.dy));
    assert(!q.before(o, o.ring()));
    assert(!o.before(q, q.ring()));
    assert(o.dx == q.dx && o.dy == q.dy);
}

/// The cell that a walk towards `to` ends in: its own where that is free,
/// else the one it snaps to.
pub open spec fn end_cell(blocked: Seq<bool>, n: int, to: Cell) -> Option<Cell> {
    if free(blocked, n, to.0 as int, to.1 as int) {
        Some(to)
    } else {
        snapped(blocked, n, to)
    }
}

impl Lattice {
    /// Waypoints for a walk over `cells`: the centers of all but the first,
    /// then the exact target.
    pub open spec fn waypoints(self, cells: Seq<Cell>, to: Position) -> Seq<Position> {
        Seq::new(
            cells.len(),
            |i: int|
                if i + 1 < cells.len() {
                    self.center(cells[i + 1].0 as int, cells[i + 1].1 as int)
                } else {
                    to
                },
        )
    }
}

impl Ground {
    pub open spec fn blocked(self) -> Seq<bool> {
        blocked_cells(self.lattice, self.rects, self.crossed)
    }

    pub open spec fn road(self) -> Seq<bool> {
        road_cells(self.lattice, self.roads)
    }

    pub open spec fn cell_of(self, p: Position) -> Cell {
        (self.lattice.cell_of(p).0 as i32, self.lattice.cell_of(p).1 as i32)
    }

    /// Nothing stands or lies on the ground.
    pub open spec fn is_bare(self) -> bool {
        self.rects.len() == 0 && self.roads.len() == 0 && self.walls.len() == 0
    }

    /// Routing is possible: the ground is bare, so that no grid is needed, or
    /// the grid is small enough.
    pub open spec fn can_route(self) -> bool {
        !self.is_bare() ==> self.lattice.count() <= MAX_CELLS
    }

    /// The walk is straight: the ground is bare, the start is off the grid,
    /// or the walk ends somewhere and starts there or in a blocked cell.
    pub open spec fn is_straight(self, from: Position, to: Position) -> bool {
        let n = self.lattice.side();
        let start = self.cell_of(from);
        ||| self.is_bare()
        ||| !in_bounds(n, start.0 as int, start.1 as int)
        ||| end_cell(self.blocked(), n, self.cell_of(to)) matches Some(target) && (start == target
            || !free(self.blocked(), n, start.0 as int, start.1 as int))
    }

    /// The target cannot be reached: neither is the walk straight, nor does a
    /// walk over free cells lead there.
    pub open spec fn is_unreachable(self, from: Position, to: Position) -> bool {
        !self.is_straight(from, to) && self.is_cut_off(from, to)
    }

    /// Waypoints for a walk over `cells`.
    pub open spec fn waypoints(self, cells: Seq<Cell>, to: Position) -> Seq<Position> {
        self.lattice.waypoints(cells, to)
    }

    /// The route from one point to another. `None` means that the target
    /// cannot be reached; no waypoints mean a straight walk (on bare ground,
    /// from off the grid or from inside an obstacle, or within one cell).
    pub open spec fn plan(self, from: Position, to: Position) -> Option<Seq<Position>> {
        let n = self.lattice.side();
        let start = self.cell_of(from);
        if self.is_bare() || !in_bounds(n, start.0 as int, start.1 as int) {
            Some(Seq::empty())
        } else {
            match end_cell(self.blocked(), n, self.cell_of(to)) {
                None => None,
                Some(target) => if start == target || !free(
                    self.blocked(),
                    n,
                    start.0 as int,
                    start.1 as int,
                ) {
                    Some(Seq::empty())
                } else {
                    match dijkstra_cells(self.blocked(), self.road(), n as i32, start, target) {
                        None => None,
                        Some(cells) => Some(self.waypoints(cells, to)),
                    }
                },
            }
        }
    }

    /// Walking `cells` visits the waypoints and ends in the target cell over
    /// free cells at the least cost.
    pub open spec fn is_best_walk(
        self,
        from: Position,
        to: Position,
        points: Seq<Position>,
        cells: Seq<Cell>,
    ) -> bool {
        let n = self.lattice.side();
        match end_cell(self.blocked(), n, self.cell_of(to)) {
            None => false,
            Some(target) => {
                &&& points == self.waypoints(cells, to)
                &&& cells.no_duplicates()
                &&& is_path(self.blocked(), n, self.cell_of(from), target, cells)
                &&& is_cheapest(self.blocked(), self.road(), n, self.cell_of(from), target, cells)
            },
        }
    }

    /// No walk over free cells leads from one point to the other.
    pub open spec fn is_cut_off(self, from: Position, to: Position) -> bool {
        let n = self.lattice.side();
        match end_cell(self.blocked(), n, self.cell_of(to)) {
            None => true,
            Some(target) => forall|q: Seq<Cell>|
                !#[trigger] is_path(self.blocked(), n, self.cell_of(from), target, q),
        }
    }
}

/// The target test of the search.
fn same_cell(a: Cell, b: Cell) -> (r: bool)
    ensures
        r == (a == b),
{
    a.0 == b.0 && a.1 == b.1
}

/// `dijkstra` of the crate `pathfinding`, searching from `start` over the
/// free neighbours of each cell until it reaches `target`. Its result is a
/// function of the grid and the two cells; it is `None` exactly when no path
/// exists, and otherwise a path from `start` to `target` that visits no cell
/// twice and that no other path undercuts. A path enters each cell at most
/// once, at no more than the grass cost, so the cost of a grid within
/// [`MAX_CELLS`] fits `u32`.
#[verifier::external_body]
fn shortest_path(grid: &RouteGrid, start: Cell, target: Cell) -> (r: Option<Vec<Cell>>)
    requires
        grid.valid(),
        in_bounds(grid.n as int, start.0 as int, start.1 as int),
    ensures
        match r {
            Some(p) => dijkstra_cells(grid.blocked@, grid.road@, grid.n, start, target) == Some(p@)
                && is_path(grid.blocked@, grid.n as int, start, target, p@)
                && p@.no_duplicates() && is_cheapest(
                grid.blocked@,
                grid.road@,
                grid.n as int,
                start,
                target,
                p@,
            ),
            None => dijkstra_cells(grid.blocked@, grid.road@, grid.n, start, target) is None
                && forall|q: Seq<Cell>|
                !#[trigger] is_path(grid.blocked@, grid.n as int, start, target, q),
        },
{
    dijkstra(&start, |c| grid.steps(*c), |c| same_cell(*c, target)).map(|(cells, _)| cells)
}

fn is_on_road(roads: &Roads, p: Position) -> (r: bool)
    ensures
        r == on_road(roads@, p),
{
    let limit: Scalar = scalar(ROAD_HALF_WIDTH).mul(scalar(ROAD_HALF_WIDTH));
    let mut r: usize = 0;
    while r < roads.0.len()
        invariant
            limit == scalar(ROAD_HALF_WIDTH).mul_spec(scalar(ROAD_HALF_WIDTH)),
            r <= roads.0.len(),
            forall|r0: int, w: int|
                0 <= r0 < r && 0 <= w < roads@[r0].len() - 1 ==> !#[trigger] beside(
                    p,
                    roads@[r0],
                    w,
                ),
        decreases roads.0.len() - r,
    {
        let line: &Vec<Position> = &roads.0[r];
        let mut w: usize = 0;
        while line.len() > 1 && w < line.len() - 1
            invariant
                limit == scalar(ROAD_HALF_WIDTH).mul_spec(scalar(ROAD_HALF_WIDTH)),
                r < roads.0.len(),
                line@ == roads@[r as int],
                w <= line.len(),
                forall|w0: int|
                    0 <= w0 < w && w0 < line.len() - 1 ==> !#[trigger] beside(p, line@, w0),
            decreases line.len() - w,
        {
            if point_seg_dist2(p, line[w], line[w + 1]).le(limit) {
                proof {
                    assert(beside(p, roads@[r as int], w as int));
                }
                return true;
            }
            w += 1;
        }
        r += 1;
    }
    false
}

fn road_mask(obs: &Obstacles, roads: &Roads, n: i32) -> (mask: Vec<bool>)
    requires
        n == obs.lattice().side(),
        n > 0,
        n * n <= MAX_CELLS,
    ensures
        mask@ == road_cells(obs.lattice(), roads@),
{
    let total: usize = cell_total(n);
    let mut mask: Vec<bool> = Vec::new();
    let mut i: usize = 0;
    while i < total
        invariant
            n == obs.lattice().side(),
            n > 0,
            total == n * n,
            total <= MAX_CELLS,
            i <= total,
            mask.len() == i,
            forall|j: int|
                0 <= j < i ==> mask@[j] == on_road(
                    roads@,
                    obs.lattice().center(j % n as int, j / n as int),
                ),
        decreases total - i,
    {
        proof {
            lemma_unslot(n as int, i as int);
        }
        let cx: i32 = (i % n as usize) as i32;
        let cy: i32 = (i / n as usize) as i32;
        mask.push(is_on_road(roads, obs.center(cx, cy)));
        i += 1;
    }
    proof {
        assert(mask@ =~= road_cells(obs.lattice(), roads@));
    }
    mask
}

/// What routing knows of the ground.
pub open spec fn ground_of(obs: &Obstacles, roads: &Roads, walls: &Walls) -> Ground {
    Ground {
        lattice: obs.lattice(),
        rects: obs.rects@,
        walls: walls.segments@,
        crossed: walls.crossed@,
        roads: roads@,
    }
}

/// Waypoints for a walk over cells: the centers of all but the first, then
/// the exact target.
pub fn route_points(obs: &Obstacles, cells: &Vec<Cell>, to: Position) -> (points: Vec<Position>)
    requires
        cells.len() > 0,
    ensures
        points@ == obs.lattice().waypoints(cells@, to),
{
    let mut points: Vec<Position> = Vec::new();
    let mut i: usize = 1;
    while i < cells.len()
        invariant
            1 <= i <= cells.len(),
            points.len() == i - 1,
            forall|j: int|
                0 <= j < points.len() ==> points@[j] == obs.lattice().center(
                    cells@[j + 1].0 as int,
                    cells@[j + 1].1 as int,
                ),
        decreases cells.len() - i,
    {
        points.push(obs.center(cells[i].0, cells[i].1));
        i += 1;
    }
    points.push(to);
    proof {
        assert(points@ =~= obs.lattice().waypoints(cells@, to));
    }
    points
}

/// Cheapest route on the obstacle grid with a road cost map. `None` means
/// unreachable, and comes for no other target; an empty route means a
/// straight walk. Any other route walks
/// over free cells, never twice over the same, and no cheaper walk exists.
pub fn plan_route(
    obs: &Obstacles,
    roads: &Roads,
    walls: &Walls,
    from: Position,
    to: Position,
) -> (r: Option<Vec<Position>>)
    requires
        ground_of(obs, roads, walls).can_route(),
    ensures
        r is None <==> ground_of(obs, roads, walls).is_unreachable(from, to),
        match r {
            Some(points) => ground_of(obs, roads, walls).plan(from, to) == Some(points@) && if points.len()
                == 0 {
                ground_of(obs, roads, walls).is_straight(from, to)
            } else {
                exists|cells: Seq<Cell>|
                    ground_of(obs, roads, walls).is_best_walk(from, to, points@, cells)
            },
            None => ground_of(obs, roads, walls).plan(from, to) is None,
        },
{
    let ghost g = ground_of(obs, roads, walls);
    if obs.rects.len() == 0 && roads.0.len() == 0 && walls.segments.len() == 0 {
        let r: Vec<Position> = Vec::new();
        proof {
            assert(r@ =~= Seq::empty());
        }
        return Some(r);
    }
    let n: i32 = obs.grid_n();
    let start: Cell = obs.cell_of(from);
    if start.0 < 0 || start.1 < 0 || start.0 >= n || start.1 >= n {
        let r: Vec<Position> = Vec::new();
        proof {
            assert(r@ =~= Seq::empty());
        }
        return Some(r);
    }
    let _total: usize = cell_total(n);
    let grid = RouteGrid {
        n,
        blocked: obs.blocked_grid(walls),
        road: road_mask(obs, roads, n),
    };
    let to_cell: Cell = obs.cell_of(to);
    let target: Cell = if grid.is_free(to_cell.0 as i64, to_cell.1 as i64) {
        to_cell
    } else {
        match grid.snap(to_cell) {
            Some(c) => c,
            None => {
                return None;
            },
        }
    };
    if same_cell(start, target) || !grid.is_free(start.0 as i64, start.1 as i64) {
        let r: Vec<Position> = Vec::new();
        proof {
            assert(r@ =~= Seq::empty());
        }
        return Some(r);
    }
    match shortest_path(&grid, start, target) {
        None => None,
        Some(cells) => {
            let points: Vec<Position> = route_points(obs, &cells, to);
            proof {
                assert(points@ == g.waypoints(cells@, to));
                assert(g.is_best_walk(from, to, points@, cells@));
            }
            Some(points)
        },
    }
}

} // verus!
