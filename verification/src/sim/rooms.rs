//! Room detection: enclosed walkable regions of the grid.

use super::grid::{blocked_cells, cell_total, Lattice, Obstacles, Walls, MAX_CELLS};
use crate::scalar::consts::{INFINITY, NEG_INFINITY, TWO, ZERO};
use crate::scalar::{scalar, Scalar};
use vstd::prelude::*;

verus! {

/// A detected room: an enclosed walkable region (walled area, courtyard
/// against a building). Centroid, cell count and bounds.
#[derive(Clone, Copy, Debug, PartialEq, Eq, Structural)]
pub struct Room {
    pub cx: Scalar,
    pub cz: Scalar,
    pub cells: u32,
    pub min_x: Scalar,
    pub min_z: Scalar,
    pub max_x: Scalar,
    pub max_z: Scalar,
}

/// Progress of a flood fill over row-major cells.
pub ghost struct Flood {
    /// Cells reached so far.
    pub seen: Seq<bool>,
    /// Cells reached but not yet expanded.
    pub stack: Seq<usize>,
    /// Cells expanded, in order.
    pub order: Seq<usize>,
}

/// Number of unset flags.
pub open spec fn unseen(seen: Seq<bool>) -> nat
    decreases seen.len(),
{
    if seen.len() == 0 {
        0
    } else {
        unseen(seen.drop_last()) + if seen.last() {
            0nat
        } else {
            1
        }
    }
}

proof fn lemma_unseen_bound(seen: Seq<bool>)
    ensures
        unseen(seen) <= seen.len(),
    decreases seen.len(),
{
    if seen.len() > 0 {
        lemma_unseen_bound(seen.drop_last());
    }
}

proof fn lemma_unseen_mark(seen: Seq<bool>, i: int)
    requires
        0 <= i < seen.len(),
        !seen[i],
    ensures
        unseen(seen.update(i, true)) + 1 == unseen(seen),
    decreases seen.len(),
{
    let marked = seen.update(i, true);
    if i == seen.len() - 1 {
        assert(marked.drop_last() =~= seen.drop_last());
    } else {
        assert(marked.drop_last() =~= seen.drop_last().update(i, true));
        lemma_unseen_mark(seen.drop_last(), i);
    }
}

/// The neighbour of a cell in one of four directions (right, left, down,
/// up), where the grid has one.
pub open spec fn neighbour(n: int, c: int, dir: int) -> Option<usize> {
    if dir == 0 {
        if c % n + 1 < n {
            Some((c + 1) as usize)
        } else {
            None
        }
    } else if dir == 1 {
        if c % n > 0 {
            Some((c - 1) as usize)
        } else {
            None
        }
    } else if dir == 2 {
        if c + n < n * n {
            Some((c + n) as usize)
        } else {
            None
        }
    } else {
        if c >= n {
            Some((c - n) as usize)
        } else {
            None
        }
    }
}

/// Reach a cell, where it is open and was not reached before.
pub open spec fn offered(open: Seq<bool>, f: Flood, to: Option<usize>) -> Flood {
    match to {
        Some(j) => if open[j as int] && !f.seen[j as int] {
            Flood { seen: f.seen.update(j as int, true), stack: f.stack.push(j), ..f }
        } else {
            f
        },
        None => f,
    }
}

/// Reach the open neighbours of a cell.
pub open spec fn expanded(open: Seq<bool>, n: int, f: Flood, c: int) -> Flood {
    offered(
        open,
        offered(
            open,
            offered(open, offered(open, f, neighbour(n, c, 0)), neighbour(n, c, 1)),
            neighbour(n, c, 2),
        ),
        neighbour(n, c, 3),
    )
}

/// Take the newest reached cell off the stack and expand it.
pub open spec fn advanced(open: Seq<bool>, n: int, f: Flood) -> Flood {
    let c = f.stack.last();
    expanded(
        open,
        n,
        Flood { stack: f.stack.drop_last(), order: f.order.push(c), ..f },
        c as int,
    )
}

/// The grid has `n` cells per side and the stack holds cells of it.
pub open spec fn flood_valid(open: Seq<bool>, n: int, f: Flood) -> bool {
    &&& n > 0
    &&& n * n <= MAX_CELLS
    &&& open.len() == n * n
    &&& f.seen.len() == n * n
    &&& forall|k: int| 0 <= k < f.stack.len() ==> #[trigger] f.stack[k] < n * n
}

/// Expand reached cells until none is left.
pub open spec fn flooded(open: Seq<bool>, n: int, f: Flood) -> Flood
    decreases unseen(f.seen) + f.stack.len(),
    when flood_valid(open, n, f)
    via flooded_decreases
{
    if f.stack.len() == 0 {
        f
    } else {
        flooded(open, n, advanced(open, n, f))
    }
}

#[via_fn]
proof fn flooded_decreases(open: Seq<bool>, n: int, f: Flood) {
    if f.stack.len() > 0 {
        lemma_advanced(open, n, f);
    }
}

pub(crate) proof fn lemma_neighbour(n: int, c: int, dir: int)
    requires
        n > 0,
        n * n <= MAX_CELLS,
        0 <= c < n * n,
    ensures
        neighbour(n, c, dir) matches Some(j) ==> j < n * n,
        n < 0x1_0000,
{
    assert(n < 0x1_0000) by (nonlinear_arith)
        requires
            n * n <= 429_496_729,
            n > 0,
    ;
    if dir == 0 && c % n + 1 < n {
        vstd::arithmetic::div_mod::lemma_fundamental_div_mod(c, n);
        assert(c + 1 < n * n) by (nonlinear_arith)
            requires
                c == n * (c / n) + c % n,
                c % n + 1 < n,
                c < n * n,
                n > 0,
        ;
    }
    if dir == 1 && c % n > 0 {
        assert(c > 0) by {
            if c == 0 {
                vstd::arithmetic::div_mod::lemma_small_mod(0, n as nat);
            }
        }
    }
}

pub(crate) proof fn lemma_offered(open: Seq<bool>, n: int, f: Flood, to: Option<usize>)
    requires
        flood_valid(open, n, f),
        to matches Some(j) ==> j < n * n,
    ensures
        flood_valid(open, n, offered(open, f, to)),
        unseen(offered(open, f, to).seen) + offered(open, f, to).stack.len() == unseen(f.seen)
            + f.stack.len(),
        offered(open, f, to).order == f.order,
{
    if let Some(j) = to {
        if open[j as int] && !f.seen[j as int] {
            lemma_unseen_mark(f.seen, j as int);
            let g = offered(open, f, to);
            assert forall|k: int| 0 <= k < g.stack.len() implies #[trigger] g.stack[k] < n * n by {
                if k < f.stack.len() {
                    assert(g.stack[k] == f.stack[k]);
                }
            }
        }
    }
}

proof fn lemma_expanded(open: Seq<bool>, n: int, f: Flood, c: int)
    requires
        flood_valid(open, n, f),
        0 <= c < n * n,
    ensures
        flood_valid(open, n, expanded(open, n, f, c)),
        unseen(expanded(open, n, f, c).seen) + expanded(open, n, f, c).stack.len() == unseen(f.seen)
            + f.stack.len(),
        expanded(open, n, f, c).order == f.order,
{
    lemma_neighbour(n, c, 0);
    lemma_neighbour(n, c, 1);
    lemma_neighbour(n, c, 2);
    lemma_neighbour(n, c, 3);
    let f0 = offered(open, f, neighbour(n, c, 0));
    let f1 = offered(open, f0, neighbour(n, c, 1));
    let f2 = offered(open, f1, neighbour(n, c, 2));
    lemma_offered(open, n, f, neighbour(n, c, 0));
    lemma_offered(open, n, f0, neighbour(n, c, 1));
    lemma_offered(open, n, f1, neighbour(n, c, 2));
    lemma_offered(open, n, f2, neighbour(n, c, 3));
}

pub(crate) proof fn lemma_advanced(open: Seq<bool>, n: int, f: Flood)
    requires
        flood_valid(open, n, f),
        f.stack.len() > 0,
    ensures
        flood_valid(open, n, advanced(open, n, f)),
        unseen(advanced(open, n, f).seen) + advanced(open, n, f).stack.len() + 1 == unseen(f.seen)
            + f.stack.len(),
        advanced(open, n, f).order == f.order.push(f.stack.last()),
{
    let c = f.stack.last();
    assert(f.stack[f.stack.len() - 1] < n * n);
    let g = Flood { stack: f.stack.drop_last(), order: f.order.push(c), ..f };
    assert forall|k: int| 0 <= k < g.stack.len() implies #[trigger] g.stack[k] < n * n by {
        assert(g.stack[k] == f.stack[k]);
    }
    lemma_expanded(open, n, g, c as int);
}

/// The four border cells in row or column `c`.
pub open spec fn border_cell(n: int, c: int, k: int) -> usize {
    if k == 0 {
        c as usize
    } else if k == 1 {
        ((n - 1) * n + c) as usize
    } else if k == 2 {
        (c * n) as usize
    } else {
        (c * n + n - 1) as usize
    }
}

/// Reach the open border cells of the first `c` rows and columns.
pub open spec fn border_reached(open: Seq<bool>, n: int, c: nat) -> Flood
    decreases c,
{
    if c == 0 {
        Flood { seen: Seq::new((n * n) as nat, |i: int| false), stack: Seq::empty(), order: Seq::empty() }
    } else {
        let f = border_reached(open, n, (c - 1) as nat);
        offered(
            open,
            offered(
                open,
                offered(
                    open,
                    offered(open, f, Some(border_cell(n, c - 1, 0))),
                    Some(border_cell(n, c - 1, 1)),
                ),
                Some(border_cell(n, c - 1, 2)),
            ),
            Some(border_cell(n, c - 1, 3)),
        )
    }
}

/// Cells reached from the border over open cells.
pub open spec fn outside_cells(open: Seq<bool>, n: int) -> Seq<bool> {
    flooded(open, n, border_reached(open, n, n as nat)).seen
}

/// The fill that starts in one cell.
pub open spec fn room_fill(inner: Seq<bool>, n: int, seen: Seq<bool>, i: int) -> Flood {
    flooded(
        inner,
        n,
        Flood { seen: seen.update(i, true), stack: seq![i as usize], order: Seq::empty() },
    )
}

/// Cells of each room from cell `i` on, in discovery order.
pub open spec fn regions_from(inner: Seq<bool>, n: int, seen: Seq<bool>, i: int) -> Seq<Seq<usize>>
    decreases n * n - i,
{
    if i >= n * n {
        Seq::empty()
    } else if inner[i] && !seen[i] {
        let f = room_fill(inner, n, seen, i);
        seq![f.order] + regions_from(inner, n, f.seen, i + 1)
    } else {
        regions_from(inner, n, seen, i + 1)
    }
}

/// Flags of the cells that are not blocked.
pub open spec fn open_cells(blocked: Seq<bool>) -> Seq<bool> {
    Seq::new(blocked.len(), |i: int| !blocked[i])
}

/// Flags of the open cells that the border does not reach.
pub open spec fn inner_cells(blocked: Seq<bool>, n: int) -> Seq<bool> {
    Seq::new(
        blocked.len(),
        |i: int| !blocked[i] && !outside_cells(open_cells(blocked), n)[i],
    )
}

/// The cells of every room.
pub open spec fn regions(blocked: Seq<bool>, n: int) -> Seq<Seq<usize>> {
    if n <= 0 {
        Seq::empty()
    } else {
        regions_from(inner_cells(blocked, n), n, Seq::new((n * n) as nat, |i: int| false), 0)
    }
}

pub open spec fn sum_x(lattice: Lattice, cells: Seq<usize>) -> Scalar
    decreases cells.len(),
{
    if cells.len() == 0 {
        scalar(ZERO)
    } else {
        sum_x(lattice, cells.drop_last()).add_spec(
            lattice.coordinate(cells.last() as int % lattice.side()),
        )
    }
}

pub open spec fn sum_z(lattice: Lattice, cells: Seq<usize>) -> Scalar
    decreases cells.len(),
{
    if cells.len() == 0 {
        scalar(ZERO)
    } else {
        sum_z(lattice, cells.drop_last()).add_spec(
            lattice.coordinate(cells.last() as int / lattice.side()),
        )
    }
}

/// Smallest left edge of the cells.
pub open spec fn least_x(lattice: Lattice, cells: Seq<usize>) -> Scalar
    decreases cells.len(),
{
    if cells.len() == 0 {
        scalar(INFINITY)
    } else {
        least_x(lattice, cells.drop_last()).min_spec(
            lattice.coordinate(cells.last() as int % lattice.side()).sub_spec(
                lattice.cell.div_spec(scalar(TWO)),
            ),
        )
    }
}

/// Smallest upper edge of the cells.
pub open spec fn least_z(lattice: Lattice, cells: Seq<usize>) -> Scalar
    decreases cells.len(),
{
    if cells.len() == 0 {
        scalar(INFINITY)
    } else {
        least_z(lattice, cells.drop_last()).min_spec(
            lattice.coordinate(cells.last() as int / lattice.side()).sub_spec(
                lattice.cell.div_spec(scalar(TWO)),
            ),
        )
    }
}

/// Largest right edge of the cells.
pub open spec fn most_x(lattice: Lattice, cells: Seq<usize>) -> Scalar
    decreases cells.len(),
{
    if cells.len() == 0 {
        scalar(NEG_INFINITY)
    } else {
        most_x(lattice, cells.drop_last()).max_spec(
            lattice.coordinate(cells.last() as int % lattice.side()).add_spec(
                lattice.cell.div_spec(scalar(TWO)),
            ),
        )
    }
}

/// Largest lower edge of the cells.
pub open spec fn most_z(lattice: Lattice, cells: Seq<usize>) -> Scalar
    decreases cells.len(),
{
    if cells.len() == 0 {
        scalar(NEG_INFINITY)
    } else {
        most_z(lattice, cells.drop_last()).max_spec(
            lattice.coordinate(cells.last() as int / lattice.side()).add_spec(
                lattice.cell.div_spec(scalar(TWO)),
            ),
        )
    }
}

/// The room that a list of cells forms.
pub open spec fn room_of(lattice: Lattice, cells: Seq<usize>) -> Room {
    let count = Scalar::from_int_spec(cells.len() as int);
    Room {
        cx: sum_x(lattice, cells).div_spec(count),
        cz: sum_z(lattice, cells).div_spec(count),
        cells: cells.len() as u32,
        min_x: least_x(lattice, cells),
        min_z: least_z(lattice, cells),
        max_x: most_x(lattice, cells),
        max_z: most_z(lattice, cells),
    }
}

/// The rooms of a lattice with the given blocked flags.
pub open spec fn rooms_of(lattice: Lattice, blocked: Seq<bool>) -> Seq<Room> {
    regions(blocked, lattice.side()).map_values(|cells: Seq<usize>| room_of(lattice, cells))
}

fn next_cell(n: usize, c: usize, dir: usize) -> (r: Option<usize>)
    requires
        n > 0,
        n * n <= MAX_CELLS,
        c < n * n,
        dir < 4,
    ensures
        r == neighbour(n as int, c as int, dir as int),
        r matches Some(j) ==> j < n * n,
{
    proof {
        lemma_neighbour(n as int, c as int, dir as int);
        vstd::arithmetic::div_mod::lemma_small_mod(0, n as nat);
    }
    if dir == 0 {
        if c % n + 1 < n {
            Some(c + 1)
        } else {
            None
        }
    } else if dir == 1 {
        if c % n > 0 {
            Some(c - 1)
        } else {
            None
        }
    } else if dir == 2 {
        if c + n < n * n {
            Some(c + n)
        } else {
            None
        }
    } else if c >= n {
        Some(c - n)
    } else {
        None
    }
}

/// Reach a cell, where it is open and was not reached before.
fn offer(open: &Vec<bool>, seen: &mut Vec<bool>, stack: &mut Vec<usize>, to: Option<usize>)
    requires
        to matches Some(j) ==> j < open.len() && j < old(seen).len(),
    ensures
        ({
            let f = Flood { seen: old(seen)@, stack: old(stack)@, order: Seq::empty() };
            let g = offered(open@, f, to);
            final(seen)@ == g.seen && final(stack)@ == g.stack
        }),
{
    if let Some(j) = to {
        if open[j] && !seen[j] {
            seen.set(j, true);
            stack.push(j);
        }
    }
}

/// Expand reached cells until none is left; the cells in order.
fn flood(open: &Vec<bool>, n: usize, seen: &mut Vec<bool>, start: Vec<usize>) -> (order: Vec<usize>)
    requires
        flood_valid(
            open@,
            n as int,
            (Flood { seen: old(seen)@, stack: start@, order: Seq::empty() }),
        ),
    ensures
        ({
            let f = Flood { seen: old(seen)@, stack: start@, order: Seq::empty() };
            let g = flooded(open@, n as int, f);
            final(seen)@ == g.seen && order@ == g.order
        }),
        final(seen).len() == old(seen).len(),
        order.len() <= unseen(old(seen)@) + start.len(),
        forall|k: int| 0 <= k < order.len() ==> #[trigger] order[k] < n * n,
{
    let ghost goal = flooded(
        open@,
        n as int,
        Flood { seen: seen@, stack: start@, order: Seq::empty() },
    );
    let ghost budget = unseen(seen@) + start.len();
    let mut stack = start;
    let mut order: Vec<usize> = Vec::new();
    proof {
        assert(order@ =~= Seq::empty());
    }
    while stack.len() > 0
        invariant
            flood_valid(open@, n as int, (Flood { seen: seen@, stack: stack@, order: order@ })),
            flooded(open@, n as int, Flood { seen: seen@, stack: stack@, order: order@ }) == goal,
            order.len() + unseen(seen@) + stack.len() == budget,
            seen.len() == old(seen).len(),
            forall|k: int| 0 <= k < order.len() ==> #[trigger] order[k] < n * n,
        decreases unseen(seen@) + stack.len(),
    {
        let ghost f = Flood { seen: seen@, stack: stack@, order: order@ };
        proof {
            lemma_advanced(open@, n as int, f);
            assert(f.stack[f.stack.len() - 1] < n * n);
        }
        let c: usize = stack.pop().unwrap();
        order.push(c);
        let ghost f1 = Flood { seen: seen@, stack: stack@, order: order@ };
        assert(f1 == Flood { stack: f.stack.drop_last(), order: f.order.push(c), ..f });
        let right: Option<usize> = next_cell(n, c, 0);
        let left: Option<usize> = next_cell(n, c, 1);
        let below: Option<usize> = next_cell(n, c, 2);
        let above: Option<usize> = next_cell(n, c, 3);
        offer(open, seen, &mut stack, right);
        offer(open, seen, &mut stack, left);
        offer(open, seen, &mut stack, below);
        offer(open, seen, &mut stack, above);
        assert(Flood { seen: seen@, stack: stack@, order: order@ } == advanced(
            open@,
            n as int,
            f,
        ));
    }
    order
}

fn room_from(obs: &Obstacles, n: usize, cells: &Vec<usize>) -> (room: Room)
    requires
        n == obs.lattice().side(),
        0 < n < 0x1_0000,
        cells.len() <= MAX_CELLS,
        forall|k: int| 0 <= k < cells.len() ==> #[trigger] cells[k] < n * n,
    ensures
        room == room_of(obs.lattice(), cells@),
{
    let ghost lattice = obs.lattice();
    let half: Scalar = obs.cell.div(scalar(TWO));
    let mut sx: Scalar = scalar(ZERO);
    let mut sz: Scalar = scalar(ZERO);
    let mut min_x: Scalar = scalar(INFINITY);
    let mut min_z: Scalar = scalar(INFINITY);
    let mut max_x: Scalar = scalar(NEG_INFINITY);
    let mut max_z: Scalar = scalar(NEG_INFINITY);
    let mut k: usize = 0;
    while k < cells.len()
        invariant
            lattice == obs.lattice(),
            half == obs.cell.div_spec(scalar(TWO)),
            n == obs.lattice().side(),
            0 < n < 0x1_0000,
            forall|k: int| 0 <= k < cells.len() ==> #[trigger] cells[k] < n * n,
            k <= cells.len(),
            sx == sum_x(lattice, cells@.take(k as int)),
            sz == sum_z(lattice, cells@.take(k as int)),
            min_x == least_x(lattice, cells@.take(k as int)),
            min_z == least_z(lattice, cells@.take(k as int)),
            max_x == most_x(lattice, cells@.take(k as int)),
            max_z == most_z(lattice, cells@.take(k as int)),
        decreases cells.len() - k,
    {
        let c: usize = cells[k];
        proof {
            assert(cells@.take(k + 1).drop_last() =~= cells@.take(k as int));
            assert(cells@.take(k + 1).last() == c);
            super::grid::lemma_unslot(n as int, c as int);
        }
        let w = obs.center((c % n) as i32, (c / n) as i32);
        sx = sx.add(w.x);
        sz = sz.add(w.z);
        min_x = min_x.min(w.x.sub(half));
        min_z = min_z.min(w.z.sub(half));
        max_x = max_x.max(w.x.add(half));
        max_z = max_z.max(w.z.add(half));
        k += 1;
    }
    proof {
        assert(cells@.take(cells.len() as int) =~= cells@);
    }
    let count: Scalar = Scalar::from_int(cells.len() as i64);
    Room {
        cx: sx.div(count),
        cz: sz.div(count),
        cells: cells.len() as u32,
        min_x,
        min_z,
        max_x,
        max_z,
    }
}

fn cleared(total: usize) -> (r: Vec<bool>)
    ensures
        r@ == Seq::new(total as nat, |i: int| false),
{
    let mut r: Vec<bool> = Vec::new();
    while r.len() < total
        invariant
            r.len() <= total,
            forall|j: int| 0 <= j < r.len() ==> !#[trigger] r[j],
        decreases total - r.len(),
    {
        r.push(false);
    }
    proof {
        assert(r@ =~= Seq::new(total as nat, |i: int| false));
    }
    r
}

/// Mark the open cells that the border reaches.
fn mark_outside(open: &Vec<bool>, n: usize) -> (outside: Vec<bool>)
    requires
        n > 0,
        n * n <= MAX_CELLS,
        open.len() == n * n,
    ensures
        outside@ == outside_cells(open@, n as int),
        outside.len() == n * n,
{
    proof {
        assert(n * n > 0) by (nonlinear_arith)
            requires
                n > 0,
        ;
        lemma_neighbour(n as int, 0, 0);
    }
    let total: usize = n * n;
    let mut outside: Vec<bool> = cleared(total);
    let mut stack: Vec<usize> = Vec::new();
    let mut c: usize = 0;
    proof {
        assert(stack@ =~= Seq::empty());
    }
    while c < n
        invariant
            0 < n < 0x1_0000,
            n * n <= MAX_CELLS,
            open.len() == n * n,
            c <= n,
            border_reached(open@, n as int, c as nat) == (Flood {
                seen: outside@,
                stack: stack@,
                order: Seq::empty(),
            }),
            flood_valid(
                open@,
                n as int,
                (Flood { seen: outside@, stack: stack@, order: Seq::empty() }),
            ),
        decreases n - c,
    {
        let ghost f = Flood { seen: outside@, stack: stack@, order: Seq::empty() };
        proof {
            assert(c < n * n && (n - 1) * n + c < n * n && c * n < n * n && c * n + n - 1 < n * n)
                by (nonlinear_arith)
                requires
                    0 <= c < n,
                    n > 0,
            ;
            let f0 = offered(open@, f, Some(border_cell(n as int, c as int, 0)));
            let f1 = offered(open@, f0, Some(border_cell(n as int, c as int, 1)));
            let f2 = offered(open@, f1, Some(border_cell(n as int, c as int, 2)));
            lemma_offered(open@, n as int, f, Some(border_cell(n as int, c as int, 0)));
            lemma_offered(open@, n as int, f0, Some(border_cell(n as int, c as int, 1)));
            lemma_offered(open@, n as int, f1, Some(border_cell(n as int, c as int, 2)));
            lemma_offered(open@, n as int, f2, Some(border_cell(n as int, c as int, 3)));
        }
        offer(open, &mut outside, &mut stack, Some(c));
        offer(open, &mut outside, &mut stack, Some((n - 1) * n + c));
        offer(open, &mut outside, &mut stack, Some(c * n));
        offer(open, &mut outside, &mut stack, Some(c * n + n - 1));
        c += 1;
    }
    let _order: Vec<usize> = flood(open, n, &mut outside, stack);
    outside
}

/// Flood-fill room detection on the blocked grid: border-reachable walkable
/// cells are outside; the remaining walkable components are rooms.
pub fn detect_rooms(obs: &Obstacles, walls: &Walls) -> (rooms: Vec<Room>)
    requires
        obs.lattice().count() <= MAX_CELLS,
    ensures
        rooms@ == rooms_of(
            obs.lattice(),
            blocked_cells(obs.lattice(), obs.rects@, walls.crossed@),
        ),
{
    let ghost lattice = obs.lattice();
    let side: i32 = obs.grid_n();
    let mut rooms: Vec<Room> = Vec::new();
    let blocked: Vec<bool> = obs.blocked_grid(walls);
    if side <= 0 {
        proof {
            assert(rooms@ =~= rooms_of(lattice, blocked@));
        }
        return rooms;
    }
    let total: usize = cell_total(side);
    let n: usize = side as usize;
    let mut open: Vec<bool> = Vec::new();
    while open.len() < total
        invariant
            blocked.len() == total,
            open.len() <= total,
            forall|j: int| 0 <= j < open.len() ==> #[trigger] open[j] == !blocked[j],
        decreases total - open.len(),
    {
        let free: bool = !blocked[open.len()];
        open.push(free);
    }
    proof {
        assert(open@ =~= open_cells(blocked@));
    }
    let outside: Vec<bool> = mark_outside(&open, n);
    let mut inner: Vec<bool> = Vec::new();
    while inner.len() < total
        invariant
            blocked.len() == total,
            outside.len() == total,
            inner.len() <= total,
            forall|j: int|
                0 <= j < inner.len() ==> #[trigger] inner[j] == (!blocked[j] && !outside[j]),
        decreases total - inner.len(),
    {
        let i: usize = inner.len();
        inner.push(!blocked[i] && !outside[i]);
    }
    proof {
        assert(inner@ =~= inner_cells(blocked@, n as int));
    }
    let ghost to_room = |cells: Seq<usize>| room_of(lattice, cells);
    let mut seen: Vec<bool> = cleared(total);
    let mut i: usize = 0;
    while i < total
        invariant
            n == lattice.side(),
            lattice == obs.lattice(),
            0 < n < 0x1_0000,
            total == n * n,
            total <= MAX_CELLS,
            inner.len() == total,
            seen.len() == total,
            i <= total,
            to_room == (|cells: Seq<usize>| room_of(lattice, cells)),
            rooms@ + regions_from(inner@, n as int, seen@, i as int).map_values(to_room)
                == regions(blocked@, n as int).map_values(to_room),
        decreases total - i,
    {
        if inner[i] && !seen[i] {
            let ghost before = seen@;
            let ghost done = rooms@;
            proof {
                lemma_unseen_mark(before, i as int);
                lemma_unseen_bound(before);
            }
            seen.set(i, true);
            let start: Vec<usize> = vec![i];
            proof {
                assert(start@ =~= seq![i]);
            }
            let order: Vec<usize> = flood(&inner, n, &mut seen, start);
            rooms.push(room_from(obs, n, &order));
            proof {
                let f = room_fill(inner@, n as int, before, i as int);
                let rest = regions_from(inner@, n as int, f.seen, i + 1);
                assert((seq![f.order] + rest).map_values(to_room) =~= seq![to_room(f.order)]
                    + rest.map_values(to_room));
                assert(rooms@ =~= done + seq![to_room(f.order)]);
                assert(rooms@ + rest.map_values(to_room) =~= done + (seq![to_room(f.order)]
                    + rest.map_values(to_room)));
            }
        }
        i += 1;
    }
    proof {
        assert(regions_from(inner@, n as int, seen@, i as int).map_values(to_room)
            =~= Seq::<Room>::empty());
        assert(rooms@ =~= regions(blocked@, n as int).map_values(to_room));
    }
    rooms
}

} // verus!
