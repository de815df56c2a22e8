//! The routing grid: which cells are blocked.

use super::agent::Position;
use crate::scalar::consts::{HALF, MICRO, MILLI, TWO};
use crate::scalar::{scalar, Scalar};
use vstd::prelude::*;

verus! {

/// Largest number of cells whose path costs fit the routing arithmetic.
pub const MAX_CELLS: u64 = 429_496_729;

/// World half-extent covered by the default grid (64).
pub const DEFAULT_HALF_EXTENT: u32 = 0x4280_0000;

/// Axis-aligned blocked rect on the ground plane (buildings).
#[derive(Clone, Copy, Debug, PartialEq, Eq, Structural)]
pub struct Obstacle {
    pub min_x: Scalar,
    pub min_z: Scalar,
    pub max_x: Scalar,
    pub max_z: Scalar,
}

impl Obstacle {
    /// The point lies in the closed rect.
    pub open spec fn covers(self, p: Position) -> bool {
        self.min_x.le_spec(p.x) && p.x.le_spec(self.max_x) && self.min_z.le_spec(p.z)
            && p.z.le_spec(self.max_z)
    }

    pub fn contains(&self, p: Position) -> (r: bool)
        ensures
            r == self.covers(p),
    {
        self.min_x.le(p.x) && p.x.le(self.max_x) && self.min_z.le(p.z) && p.z.le(self.max_z)
    }
}

/// A wall segment (build mode): thin impassable barrier. Grid cells whose
/// rect a segment truly crosses are blocked for routing. Door gaps need one
/// full free cell row: wall ends pull a millimetre inside so that shared
/// corners do not bleed, but a gap straddling two crossed rows stays sealed.
#[derive(Clone, Copy, Debug, PartialEq, Eq, Structural)]
pub struct Wall {
    pub ax: Scalar,
    pub az: Scalar,
    pub bx: Scalar,
    pub bz: Scalar,
}

/// Stamped and built walls, with the cells that they cross.
///
/// `crossed[cy * n + cx]` tells whether the span of some wall meets the rect
/// of cell `(cx, cy)`. That geometric test is made by whoever edits the
/// walls, on [`Wall::span`] and [`Obstacles::cell_rect`]; cells past the end
/// of the list count as not crossed.
#[derive(Debug)]
pub struct Walls {
    pub segments: Vec<Wall>,
    pub crossed: Vec<bool>,
}

/// Routing grid and obstacles.
#[derive(Debug)]
pub struct Obstacles {
    pub rects: Vec<Obstacle>,
    /// World half-extent covered by the grid.
    pub half_extent: Scalar,
    /// Cell size in world units.
    pub cell: Scalar,
}

/// The square of cells laid over the ground.
pub ghost struct Lattice {
    pub half: Scalar,
    pub cell: Scalar,
}

impl Lattice {
    /// Cells per side (not positive for a degenerate lattice).
    pub open spec fn side(self) -> int {
        self.half.mul_spec(scalar(TWO)).div_spec(self.cell).ceil_spec().to_int_spec(
            i32::MIN as int,
            i32::MAX as int,
        )
    }

    pub open spec fn count(self) -> nat {
        if self.side() > 0 {
            (self.side() * self.side()) as nat
        } else {
            0
        }
    }

    pub open spec fn coordinate(self, c: int) -> Scalar {
        Scalar::from_int_spec(c).mul_spec(self.cell).add_spec(
            self.cell.mul_spec(scalar(HALF)),
        ).sub_spec(self.half)
    }

    /// Half a cell to each side of its center.
    pub open spec fn rect(self, cx: int, cy: int) -> Obstacle {
        let c = self.center(cx, cy);
        let h = self.cell.div_spec(scalar(TWO));
        Obstacle {
            min_x: c.x.sub_spec(h),
            min_z: c.z.sub_spec(h),
            max_x: c.x.add_spec(h),
            max_z: c.z.add_spec(h),
        }
    }

    /// Center of a cell.
    pub open spec fn center(self, cx: int, cy: int) -> Position {
        Position { x: self.coordinate(cx), z: self.coordinate(cy) }
    }

    /// The cell that holds a point, on or off the lattice.
    pub open spec fn cell_of(self, p: Position) -> (int, int) {
        (
            p.x.add_spec(self.half).div_spec(self.cell).floor_spec().to_int_spec(
                i32::MIN as int,
                i32::MAX as int,
            ),
            p.z.add_spec(self.half).div_spec(self.cell).floor_spec().to_int_spec(
                i32::MIN as int,
                i32::MAX as int,
            ),
        )
    }
}

/// Position of cell `(cx, cy)` in a row-major list.
pub open spec fn slot(n: int, cx: int, cy: int) -> int {
    cy * n + cx
}

pub open spec fn in_bounds(n: int, cx: int, cy: int) -> bool {
    0 <= cx < n && 0 <= cy < n
}

pub proof fn lemma_slot(n: int, cx: int, cy: int)
    requires
        in_bounds(n, cx, cy),
    ensures
        0 <= slot(n, cx, cy) < n * n,
        slot(n, cx, cy) % n == cx,
        slot(n, cx, cy) / n == cy,
{
    assert(0 <= cy * n + cx < n * n) by (nonlinear_arith)
        requires
            0 <= cx < n,
            0 <= cy < n,
    ;
    vstd::arithmetic::div_mod::lemma_fundamental_div_mod_converse(cy * n + cx, n, cy, cx);
}

pub proof fn lemma_unslot(n: int, i: int)
    requires
        0 <= i < n * n,
        n > 0,
    ensures
        in_bounds(n, i % n, i / n),
        slot(n, i % n, i / n) == i,
{
    vstd::arithmetic::div_mod::lemma_fundamental_div_mod(i, n);
    assert(i / n < n && i / n >= 0) by (nonlinear_arith)
        requires
            0 <= i < n * n,
            n > 0,
    ;
    assert(n * (i / n) == (i / n) * n) by (nonlinear_arith);
}

/// Some obstacle covers the point.
pub open spec fn covered(rects: Seq<Obstacle>, p: Position) -> bool {
    exists|k: int| 0 <= k < rects.len() && #[trigger] rects[k].covers(p)
}

/// A cell is blocked when an obstacle covers its center or a wall crosses
/// it.
pub open spec fn blocked_cell(
    lattice: Lattice,
    rects: Seq<Obstacle>,
    crossed: Seq<bool>,
    i: int,
) -> bool {
    covered(rects, lattice.center(i % lattice.side(), i / lattice.side())) || (i < crossed.len()
        && crossed[i])
}

/// Blocked flags of all cells, row by row.
pub open spec fn blocked_cells(lattice: Lattice, rects: Seq<Obstacle>, crossed: Seq<bool>) -> Seq<
    bool,
> {
    Seq::new(lattice.count(), |i: int| blocked_cell(lattice, rects, crossed, i))
}

impl Wall {
    /// Fraction of its length by which each end of the wall is pulled in.
    pub open spec fn trim(self) -> Scalar {
        let dx = self.bx.sub_spec(self.ax);
        let dz = self.bz.sub_spec(self.az);
        let len = dx.mul_spec(dx).add_spec(dz.mul_spec(dz)).sqrt_spec().max_spec(scalar(MICRO));
        scalar(MILLI).div_spec(len).min_spec(scalar(HALF))
    }

    /// Both ends of the wall, each pulled in.
    pub open spec fn trimmed(self) -> (Position, Position) {
        let dx = self.bx.sub_spec(self.ax);
        let dz = self.bz.sub_spec(self.az);
        (
            Position {
                x: self.ax.add_spec(dx.mul_spec(self.trim())),
                z: self.az.add_spec(dz.mul_spec(self.trim())),
            },
            Position {
                x: self.bx.sub_spec(dx.mul_spec(self.trim())),
                z: self.bz.sub_spec(dz.mul_spec(self.trim())),
            },
        )
    }

    /// The part of the wall that blocks cells: each end is pulled a
    /// millimetre inside.
    pub fn span(&self) -> (r: (Position, Position))
        ensures
            r == self.trimmed(),
            r.0 == (Position {
                x: self.ax.add_spec(self.bx.sub_spec(self.ax).mul_spec(self.trim())),
                z: self.az.add_spec(self.bz.sub_spec(self.az).mul_spec(self.trim())),
            }),
            r.1 == (Position {
                x: self.bx.sub_spec(self.bx.sub_spec(self.ax).mul_spec(self.trim())),
                z: self.bz.sub_spec(self.bz.sub_spec(self.az).mul_spec(self.trim())),
            }),
    {
        let dx: Scalar = self.bx.sub(self.ax);
        let dz: Scalar = self.bz.sub(self.az);
        let len: Scalar = dx.mul(dx).add(dz.mul(dz)).sqrt().max(scalar(MICRO));
        let t: Scalar = scalar(MILLI).div(len).min(scalar(HALF));
        (
            Position { x: self.ax.add(dx.mul(t)), z: self.az.add(dz.mul(t)) },
            Position { x: self.bx.sub(dx.mul(t)), z: self.bz.sub(dz.mul(t)) },
        )
    }
}

impl Obstacles {
    pub open spec fn lattice(&self) -> Lattice {
        Lattice { half: self.half_extent, cell: self.cell }
    }

    /// Cells per side, shared by routing and room detection.
    pub fn grid_n(&self) -> (n: i32)
        ensures
            n == self.lattice().side(),
    {
        self.half_extent.mul(scalar(TWO)).div(self.cell).ceil().to_i32()
    }

    fn coordinate(&self, c: i32) -> (r: Scalar)
        ensures
            r == self.lattice().coordinate(c as int),
    {
        Scalar::from_int(c as i64).mul(self.cell).add(self.cell.mul(scalar(HALF))).sub(
            self.half_extent,
        )
    }

    /// Center of a cell.
    pub fn center(&self, cx: i32, cy: i32) -> (r: Position)
        ensures
            r == self.lattice().center(cx as int, cy as int),
    {
        Position { x: self.coordinate(cx), z: self.coordinate(cy) }
    }

    /// The cell that holds a point.
    pub fn cell_of(&self, p: Position) -> (r: (i32, i32))
        ensures
            r.0 == self.lattice().cell_of(p).0,
            r.1 == self.lattice().cell_of(p).1,
    {
        (
            p.x.add(self.half_extent).div(self.cell).floor().to_i32(),
            p.z.add(self.half_extent).div(self.cell).floor().to_i32(),
        )
    }

    /// Rect of a cell: half a cell to each side of its center.
    pub fn cell_rect(&self, cx: i32, cy: i32) -> (r: Obstacle)
        ensures
            r == self.lattice().rect(cx as int, cy as int),
            ({
                let c = self.lattice().center(cx as int, cy as int);
                let h = self.cell.div_spec(scalar(TWO));
                r == Obstacle {
                    min_x: c.x.sub_spec(h),
                    min_z: c.z.sub_spec(h),
                    max_x: c.x.add_spec(h),
                    max_z: c.z.add_spec(h),
                }
            }),
    {
        let c: Position = self.center(cx, cy);
        let h: Scalar = self.cell.div(scalar(TWO));
        Obstacle { min_x: c.x.sub(h), min_z: c.z.sub(h), max_x: c.x.add(h), max_z: c.z.add(h) }
    }

    fn covers(&self, p: Position) -> (r: bool)
        ensures
            r == covered(self.rects@, p),
    {
        let mut k: usize = 0;
        while k < self.rects.len()
            invariant
                k <= self.rects.len(),
                forall|j: int| 0 <= j < k ==> !#[trigger] self.rects@[j].covers(p),
            decreases self.rects.len() - k,
        {
            if self.rects[k].contains(p) {
                return true;
            }
            k += 1;
        }
        false
    }

    /// Blocked flags of all cells, row by row: obstacle-covered centers plus
    /// the cells that walls cross.
    pub fn blocked_grid(&self, walls: &Walls) -> (grid: Vec<bool>)
        requires
            self.lattice().count() <= MAX_CELLS,
        ensures
            grid@ == blocked_cells(self.lattice(), self.rects@, walls.crossed@),
    {
        let n: i32 = self.grid_n();
        let mut grid: Vec<bool> = Vec::new();
        if n <= 0 {
            proof {
                assert(grid@ =~= blocked_cells(self.lattice(), self.rects@, walls.crossed@));
            }
            return grid;
        }
        let total: usize = cell_total(n);
        let mut i: usize = 0;
        while i < total
            invariant
                n == self.lattice().side(),
                n > 0,
                total == n * n,
                total <= MAX_CELLS,
                i <= total,
                grid.len() == i,
                forall|j: int|
                    0 <= j < i ==> grid@[j] == blocked_cell(
                        self.lattice(),
                        self.rects@,
                        walls.crossed@,
                        j,
                    ),
            decreases total - i,
        {
            proof {
                lemma_unslot(n as int, i as int);
            }
            let cx: i32 = (i % n as usize) as i32;
            let cy: i32 = (i / n as usize) as i32;
            let hit: bool = self.covers(self.center(cx, cy)) || (i < walls.crossed.len()
                && walls.crossed[i]);
            grid.push(hit);
            i += 1;
        }
        proof {
            assert(grid@ =~= blocked_cells(self.lattice(), self.rects@, walls.crossed@));
        }
        grid
    }
}

/// Number of cells of a square grid.
pub(crate) fn cell_total(n: i32) -> (r: usize)
    requires
        n > 0,
        n * n <= MAX_CELLS,
    ensures
        r == n * n,
        n < 0x1_0000,
{
    proof {
        assert(n < 0x1_0000) by (nonlinear_arith)
            requires
                n * n <= 429_496_729,
                n > 0,
        ;
        assert(n as usize * n as usize == n * n);
    }
    n as usize * n as usize
}

impl Default for Obstacles {
    fn default() -> (r: Obstacles)
        ensures
            r.rects@ == Seq::<Obstacle>::empty(),
            r.half_extent == scalar(DEFAULT_HALF_EXTENT),
            r.cell == scalar(TWO),
    {
        Obstacles { rects: Vec::new(), half_extent: scalar(DEFAULT_HALF_EXTENT), cell: scalar(TWO) }
    }
}

/// The default grid has 64 cells per side.
pub proof fn lemma_default_side()
    ensures
        (Lattice { half: scalar(DEFAULT_HALF_EXTENT), cell: scalar(TWO) }).side() == 64,
        (Lattice { half: scalar(DEFAULT_HALF_EXTENT), cell: scalar(TWO) }).count() <= MAX_CELLS,
{
    crate::scalar::exact::lemma_default_extent();
}

} // verus!
