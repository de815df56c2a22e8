//! The shape of rooms, and what they are used for.

use crate::scalar::arith::abs_int;
use crate::scalar::bounds::{lemma_quotient_error, lemma_within_quotient, PRECISION, TINY};
use crate::scalar::consts::TWO;
use crate::scalar::convert::lemma_unit;
use crate::scalar::exact::lemma_from_int;
use crate::scalar::sums::{
    exact_size, exact_sum, lemma_exact_size, lemma_running_sum, running_sum, MOST_SUMMANDS,
};
use crate::scalar::{scalar, unit, Scalar};
use crate::sim::city_ops::{leads, voted, votes};
use crate::sim::goal::{FurnitureKind, RoomFunction};
use crate::sim::grid::{lemma_slot, lemma_unslot, Lattice, MAX_CELLS};
use super::rooms::{connected, is_border, law_outside_is_border_reachable, touches};
use crate::sim::rooms::{
    border_cell, inner_cells, least_x, least_z, most_x, most_z, neighbour, open_cells, regions,
    room_of, rooms_of, sum_x, sum_z, Room,
};
use crate::sim::world::GoalRowView;
use vstd::prelude::*;

verus! {

/// Column of a cell.
pub open spec fn column(lattice: Lattice, c: usize) -> int {
    c as int % lattice.side()
}

/// Row of a cell.
pub open spec fn row(lattice: Lattice, c: usize) -> int {
    c as int / lattice.side()
}

/// Half a cell.
pub open spec fn half_cell(lattice: Lattice) -> Scalar {
    lattice.cell.div_spec(scalar(TWO))
}

/// The edges of all cells are numbers.
pub open spec fn has_edges(lattice: Lattice, cells: Seq<usize>) -> bool {
    forall|k: int|
        0 <= k < cells.len() ==> {
            let p = lattice.center(column(lattice, #[trigger] cells[k]), row(lattice, cells[k]));
            let h = half_cell(lattice);
            &&& p.x.sub_spec(h).is_finite_spec() && p.x.add_spec(h).is_finite_spec()
            &&& p.z.sub_spec(h).is_finite_spec() && p.z.add_spec(h).is_finite_spec()
        }
}

/// Cell `k` lies between the bounds of a room.
pub open spec fn is_bounded_by(lattice: Lattice, c: usize, r: Room) -> bool {
    let p = lattice.center(column(lattice, c), row(lattice, c));
    let h = half_cell(lattice);
    &&& r.min_x.num() <= p.x.sub_spec(h).num()
    &&& r.min_z.num() <= p.z.sub_spec(h).num()
    &&& r.max_x.num() >= p.x.add_spec(h).num()
    &&& r.max_z.num() >= p.z.add_spec(h).num()
}

proof fn lemma_bounds(lattice: Lattice, cells: Seq<usize>)
    requires
        has_edges(lattice, cells),
    ensures
        !least_x(lattice, cells).is_nan_spec(),
        !least_z(lattice, cells).is_nan_spec(),
        !most_x(lattice, cells).is_nan_spec(),
        !most_z(lattice, cells).is_nan_spec(),
        forall|k: int|
            0 <= k < cells.len() ==> {
                let p = lattice.center(column(lattice, #[trigger] cells[k]), row(lattice, cells[k]));
                let h = half_cell(lattice);
                &&& least_x(lattice, cells).num() <= p.x.sub_spec(h).num()
                &&& least_z(lattice, cells).num() <= p.z.sub_spec(h).num()
                &&& most_x(lattice, cells).num() >= p.x.add_spec(h).num()
                &&& most_z(lattice, cells).num() >= p.z.add_spec(h).num()
            },
        cells.len() > 0 ==> exists|k: int|
            0 <= k < cells.len() && least_x(lattice, cells) == lattice.coordinate(
                column(lattice, #[trigger] cells[k]),
            ).sub_spec(half_cell(lattice)),
        cells.len() > 0 ==> exists|k: int|
            0 <= k < cells.len() && least_z(lattice, cells) == lattice.coordinate(
                row(lattice, #[trigger] cells[k]),
            ).sub_spec(half_cell(lattice)),
        cells.len() > 0 ==> exists|k: int|
            0 <= k < cells.len() && most_x(lattice, cells) == lattice.coordinate(
                column(lattice, #[trigger] cells[k]),
            ).add_spec(half_cell(lattice)),
        cells.len() > 0 ==> exists|k: int|
            0 <= k < cells.len() && most_z(lattice, cells) == lattice.coordinate(
                row(lattice, #[trigger] cells[k]),
            ).add_spec(half_cell(lattice)),
    decreases cells.len(),
{
    if cells.len() > 0 {
        let rest = cells.drop_last();
        let last = cells.len() - 1;
        assert(has_edges(lattice, rest)) by {
            assert forall|k: int| 0 <= k < rest.len() implies ({
                let p = lattice.center(
                    column(lattice, #[trigger] rest[k]),
                    row(lattice, rest[k]),
                );
                let h = half_cell(lattice);
                &&& p.x.sub_spec(h).is_finite_spec() && p.x.add_spec(h).is_finite_spec()
                &&& p.z.sub_spec(h).is_finite_spec() && p.z.add_spec(h).is_finite_spec()
            }) by {
                assert(rest[k] == cells[k]);
            }
        }
        lemma_bounds(lattice, rest);
        assert(cells[last] == cells.last());
        let p = lattice.center(column(lattice, cells[last]), row(lattice, cells[last]));
        let h = half_cell(lattice);
        assert(p.x.sub_spec(h).is_finite_spec());
        crate::scalar::round::lemma_magnitude_increases(
            p.x.sub_spec(h).pattern(),
            crate::scalar::INF_PATTERN as nat,
        );
        crate::scalar::round::lemma_magnitude_increases(
            p.z.sub_spec(h).pattern(),
            crate::scalar::INF_PATTERN as nat,
        );
        crate::scalar::round::lemma_magnitude_increases(
            p.x.add_spec(h).pattern(),
            crate::scalar::INF_PATTERN as nat,
        );
        crate::scalar::round::lemma_magnitude_increases(
            p.z.add_spec(h).pattern(),
            crate::scalar::INF_PATTERN as nat,
        );
        assert forall|k: int| 0 <= k < cells.len() implies ({
            let p = lattice.center(column(lattice, #[trigger] cells[k]), row(lattice, cells[k]));
            let h = half_cell(lattice);
            &&& least_x(lattice, cells).num() <= p.x.sub_spec(h).num()
            &&& least_z(lattice, cells).num() <= p.z.sub_spec(h).num()
            &&& most_x(lattice, cells).num() >= p.x.add_spec(h).num()
            &&& most_z(lattice, cells).num() >= p.z.add_spec(h).num()
        }) by {
            if k < last {
                assert(rest[k] == cells[k]);
            }
        }
        lemma_attained(lattice, cells);
    }
}

/// The bounds are edges of cells.
proof fn lemma_attained(lattice: Lattice, cells: Seq<usize>)
    requires
        cells.len() > 0,
        ({
            let rest = cells.drop_last();
            let p = lattice.center(column(lattice, cells.last()), row(lattice, cells.last()));
            let h = half_cell(lattice);
            &&& p.x.sub_spec(h).is_finite_spec() && p.x.add_spec(h).is_finite_spec()
            &&& p.z.sub_spec(h).is_finite_spec() && p.z.add_spec(h).is_finite_spec()
            &&& rest.len() > 0 ==> exists|k: int|
                0 <= k < rest.len() && least_x(lattice, rest) == lattice.coordinate(
                    column(lattice, #[trigger] rest[k]),
                ).sub_spec(h)
            &&& rest.len() > 0 ==> exists|k: int|
                0 <= k < rest.len() && least_z(lattice, rest) == lattice.coordinate(
                    row(lattice, #[trigger] rest[k]),
                ).sub_spec(h)
            &&& rest.len() > 0 ==> exists|k: int|
                0 <= k < rest.len() && most_x(lattice, rest) == lattice.coordinate(
                    column(lattice, #[trigger] rest[k]),
                ).add_spec(h)
            &&& rest.len() > 0 ==> exists|k: int|
                0 <= k < rest.len() && most_z(lattice, rest) == lattice.coordinate(
                    row(lattice, #[trigger] rest[k]),
                ).add_spec(h)
        }),
    ensures
        exists|k: int|
            0 <= k < cells.len() && least_x(lattice, cells) == lattice.coordinate(
                column(lattice, #[trigger] cells[k]),
            ).sub_spec(half_cell(lattice)),
        exists|k: int|
            0 <= k < cells.len() && least_z(lattice, cells) == lattice.coordinate(
                row(lattice, #[trigger] cells[k]),
            ).sub_spec(half_cell(lattice)),
        exists|k: int|
            0 <= k < cells.len() && most_x(lattice, cells) == lattice.coordinate(
                column(lattice, #[trigger] cells[k]),
            ).add_spec(half_cell(lattice)),
        exists|k: int|
            0 <= k < cells.len() && most_z(lattice, cells) == lattice.coordinate(
                row(lattice, #[trigger] cells[k]),
            ).add_spec(half_cell(lattice)),
{
    let rest = cells.drop_last();
    let last = cells.len() - 1;
    let h = half_cell(lattice);
    assert(cells[last] == cells.last());
    let p = lattice.center(column(lattice, cells.last()), row(lattice, cells.last()));
    let top = crate::scalar::INF_PATTERN as nat;
    crate::scalar::round::lemma_magnitude_increases(p.x.sub_spec(h).pattern(), top);
    crate::scalar::round::lemma_magnitude_increases(p.z.sub_spec(h).pattern(), top);
    crate::scalar::round::lemma_magnitude_increases(p.x.add_spec(h).pattern(), top);
    crate::scalar::round::lemma_magnitude_increases(p.z.add_spec(h).pattern(), top);
    let inf = scalar(crate::scalar::consts::INFINITY);
    let neg = scalar(crate::scalar::consts::NEG_INFINITY);
    assert(inf.num() == crate::scalar::magnitude(top) && !inf.is_nan_spec());
    assert(neg.num() == -(crate::scalar::magnitude(top) as int) && !neg.is_nan_spec());
    assert(least_x(lattice, cells) == least_x(lattice, rest).min_spec(p.x.sub_spec(h)));
    assert(least_z(lattice, cells) == least_z(lattice, rest).min_spec(p.z.sub_spec(h)));
    assert(most_x(lattice, cells) == most_x(lattice, rest).max_spec(p.x.add_spec(h)));
    assert(most_z(lattice, cells) == most_z(lattice, rest).max_spec(p.z.add_spec(h)));
    if rest.len() == 0 {
        assert(least_x(lattice, rest) == inf && least_z(lattice, rest) == inf);
        assert(most_x(lattice, rest) == neg && most_z(lattice, rest) == neg);
        assert(least_x(lattice, cells) == lattice.coordinate(
            column(lattice, cells[last]),
        ).sub_spec(h));
        assert(least_z(lattice, cells) == lattice.coordinate(row(lattice, cells[last])).sub_spec(
            h,
        ));
    }
    if rest.len() > 0 {
        let a = choose|k: int|
            0 <= k < rest.len() && least_x(lattice, rest) == lattice.coordinate(
                column(lattice, #[trigger] rest[k]),
            ).sub_spec(h);
        assert(cells[a] == rest[a]);
        let b = choose|k: int|
            0 <= k < rest.len() && least_z(lattice, rest) == lattice.coordinate(
                row(lattice, #[trigger] rest[k]),
            ).sub_spec(h);
        assert(cells[b] == rest[b]);
        let c = choose|k: int|
            0 <= k < rest.len() && most_x(lattice, rest) == lattice.coordinate(
                column(lattice, #[trigger] rest[k]),
            ).add_spec(h);
        assert(cells[c] == rest[c]);
        let d = choose|k: int|
            0 <= k < rest.len() && most_z(lattice, rest) == lattice.coordinate(
                row(lattice, #[trigger] rest[k]),
            ).add_spec(h);
        assert(cells[d] == rest[d]);
    }
}

/// The bounds of a room hold all its cells, edges and all, and each of them is
/// the edge of one of its cells; and the room counts its cells.
pub proof fn law_rooms_bound_their_cells(lattice: Lattice, cells: Seq<usize>, k: int)
    requires
        has_edges(lattice, cells),
        0 <= k < cells.len() <= u32::MAX,
    ensures
        ({
            let r = room_of(lattice, cells);
            let h = half_cell(lattice);
            &&& r.cells == cells.len()
            &&& is_bounded_by(lattice, cells[k], r)
            &&& exists|j: int|
                0 <= j < cells.len() && r.min_x == lattice.coordinate(
                    column(lattice, #[trigger] cells[j]),
                ).sub_spec(h)
            &&& exists|j: int|
                0 <= j < cells.len() && r.min_z == lattice.coordinate(
                    row(lattice, #[trigger] cells[j]),
                ).sub_spec(h)
            &&& exists|j: int|
                0 <= j < cells.len() && r.max_x == lattice.coordinate(
                    column(lattice, #[trigger] cells[j]),
                ).add_spec(h)
            &&& exists|j: int|
                0 <= j < cells.len() && r.max_z == lattice.coordinate(
                    row(lattice, #[trigger] cells[j]),
                ).add_spec(h)
        }),
{
    lemma_bounds(lattice, cells);
}

/// The centers of cells along x.
spec fn centers_x(lattice: Lattice, cells: Seq<usize>) -> Seq<Scalar> {
    cells.map_values(|c: usize| lattice.coordinate(column(lattice, c)))
}

/// The centers of cells along z.
spec fn centers_z(lattice: Lattice, cells: Seq<usize>) -> Seq<Scalar> {
    cells.map_values(|c: usize| lattice.coordinate(row(lattice, c)))
}

/// Exact sum of the centers of the first `k` cells along x.
pub open spec fn all_x(lattice: Lattice, cells: Seq<usize>, k: int) -> int
    decreases k,
{
    if k <= 0 {
        0
    } else {
        all_x(lattice, cells, k - 1) + lattice.coordinate(column(lattice, cells[k - 1])).num()
    }
}

/// Exact sum of the centers of the first `k` cells along z.
pub open spec fn all_z(lattice: Lattice, cells: Seq<usize>, k: int) -> int
    decreases k,
{
    if k <= 0 {
        0
    } else {
        all_z(lattice, cells, k - 1) + lattice.coordinate(row(lattice, cells[k - 1])).num()
    }
}

proof fn lemma_sums(lattice: Lattice, cells: Seq<usize>, k: int)
    requires
        0 <= k <= cells.len(),
    ensures
        sum_x(lattice, cells.take(k)) == running_sum(centers_x(lattice, cells), k),
        sum_z(lattice, cells.take(k)) == running_sum(centers_z(lattice, cells), k),
        all_x(lattice, cells, k) == exact_sum(centers_x(lattice, cells), k),
        all_z(lattice, cells, k) == exact_sum(centers_z(lattice, cells), k),
    decreases k,
{
    if k > 0 {
        lemma_sums(lattice, cells, k - 1);
        assert(cells.take(k).drop_last() =~= cells.take(k - 1));
        assert(cells.take(k).last() == cells[k - 1]);
    }
}

/// The middle of a room, times the number of its cells, is the sum of their
/// centers, up to rounding: along x and along z.
pub proof fn law_rooms_have_their_middle(lattice: Lattice, cells: Seq<usize>)
    requires
        0 < cells.len() <= MOST_SUMMANDS,
        forall|c: int| (#[trigger] lattice.coordinate(c)).within(20),
    ensures
        ({
            let r = room_of(lattice, cells);
            let n = cells.len() as int;
            let slack = 8 * n * (n * (0x10_0000 * unit()));
            &&& abs_int(r.cx.num() * n - all_x(lattice, cells, n)) * PRECISION <= slack
            &&& abs_int(r.cz.num() * n - all_z(lattice, cells, n)) * PRECISION <= slack
        }),
{
    let n = cells.len() as int;
    assert(cells.take(n) =~= cells);
    lemma_sums(lattice, cells, n);
    lemma_middle(centers_x(lattice, cells), n);
    lemma_middle(centers_z(lattice, cells), n);
}

#[verifier::spinoff_prover]
#[verifier::rlimit(60)]
proof fn lemma_middle(s: Seq<Scalar>, n: int)
    requires
        0 < n == s.len() <= MOST_SUMMANDS,
        forall|i: int| 0 <= i < s.len() ==> (#[trigger] s[i]).within(20),
    ensures
        abs_int(
            running_sum(s, n).div_spec(Scalar::from_int_spec(n)).num() * n - exact_sum(s, n),
        ) * PRECISION <= 8 * n * (n * (0x10_0000 * unit())),
{
    vstd::arithmetic::power2::lemma2_to64();
    lemma_unit();
    let u = unit() as int;
    assert forall|i: int| 0 <= i < s.len() implies (#[trigger] s[i]).within(40) by {
        crate::scalar::bounds::lemma_within_weakens(s[i], 20, 40);
    }
    lemma_running_sum(s, n);
    lemma_size_small(s, n);
    let size = exact_size(s, n) as int;
    let b = n * (0x10_0000 * u);
    let r = running_sum(s, n);
    let c = Scalar::from_int_spec(n);
    lemma_from_int(n as nat);
    let e = exact_sum(s, n);
    lemma_exact_size(s, n);
    let q = r.div_spec(c);
    assert(c.num() == n * u);
    assert(n * u >= u) by (nonlinear_arith)
        requires
            n >= 1,
            u > 0,
    ;
    let most = vstd::arithmetic::power2::pow2(62) as int;
    assert(most * u <= most * (n * u)) by (nonlinear_arith)
        requires
            n * u >= u,
            most >= 0,
    ;
    lemma_within_quotient(r, c, 62);
    lemma_quotient_error(r, c);
    // in units of u
    let f = abs_int(q.num() * n - r.num()) as int;
    assert(abs_int(q.num() * (n * u) - r.num() * u) == f * u) by (nonlinear_arith)
        requires
            f == abs_int(q.num() * n - r.num()),
            u > 0,
    ;
    assert(f * PRECISION <= abs_int(r.num()) + TINY * n) by (nonlinear_arith)
        requires
            f * u * PRECISION <= abs_int(r.num()) * u + TINY * (n * u),
            u > 0,
    ;
    assert(6 * n * size <= 6 * n * b) by (nonlinear_arith)
        requires
            size <= b,
            n >= 0,
    ;
    assert(b <= n * b) by (nonlinear_arith)
        requires
            n >= 1,
            b >= 0,
            b == n * (0x10_0000 * u),
            u > 0,
    ;
    assert(8 * n * b == 8 * (n * b) && 6 * n * b == 6 * (n * b)) by (nonlinear_arith);
    crate::scalar::bounds::lemma_unit_large();
    assert(TINY * n <= b) by (nonlinear_arith)
        requires
            b == n * (0x10_0000 * u),
            u >= 0x100_0000,
            n >= 1,
            TINY == 0x80_0000,
    ;
    assert(abs_int(r.num()) <= 2 * size);
    assert(2 * b <= n * b + n * b);
}

proof fn lemma_size_small(s: Seq<Scalar>, k: int)
    requires
        0 <= k <= s.len(),
        forall|i: int| 0 <= i < s.len() ==> (#[trigger] s[i]).within(20),
    ensures
        exact_size(s, k) <= k * (0x10_0000 * unit()),
    decreases k,
{
    vstd::arithmetic::power2::lemma2_to64();
    let b = 0x10_0000 * unit();
    if k > 0 {
        lemma_size_small(s, k - 1);
        assert(s[k - 1].within(20));
        assert(k * b == (k - 1) * b + b) by (nonlinear_arith);
    } else {
        assert(k * b == 0) by (nonlinear_arith)
            requires
                k == 0,
        ;
    }
}

/// What a piece of furniture makes of a room.
pub open spec fn makes(kind: FurnitureKind) -> RoomFunction {
    if kind == FurnitureKind::Bed {
        RoomFunction::Bedroom
    } else if kind == FurnitureKind::Fridge {
        RoomFunction::Kitchen
    } else if kind == FurnitureKind::Toilet || kind == FurnitureKind::Tub {
        RoomFunction::Bathroom
    } else {
        RoomFunction::Living
    }
}

/// A place lies in the bounds of a room.
pub open spec fn lies_in(r: Room, x: Scalar, z: Scalar) -> bool {
    r.min_x.le_spec(x) && x.le_spec(r.max_x) && r.min_z.le_spec(z) && z.le_spec(r.max_z)
}

/// One more goal gives a room one more vote, for what its furniture makes of
/// it, where it stands in the room; anything else gives none.
pub proof fn law_furniture_votes(
    goals: Seq<GoalRowView>,
    g: GoalRowView,
    r: Room,
    f: RoomFunction,
)
    ensures
        votes(goals.push(g), r, f, goals.len() as int + 1) == votes(goals, r, f, goals.len() as int) + (
        if g.furniture matches Some(piece) && makes(piece.0) == f && lies_in(r, g.goal.x, g.goal.z) {
            1int
        } else {
            0
        }),
        votes(Seq::<GoalRowView>::empty(), r, f, 0) == 0,
{
    lemma_votes_prefix(goals, g, r, f, goals.len() as int);
}

proof fn lemma_votes_prefix(
    goals: Seq<GoalRowView>,
    g: GoalRowView,
    r: Room,
    f: RoomFunction,
    k: int,
)
    requires
        0 <= k <= goals.len(),
    ensures
        votes(goals.push(g), r, f, k) == votes(goals, r, f, k),
    decreases k,
{
    if k > 0 {
        lemma_votes_prefix(goals, g, r, f, k - 1);
        assert(goals.push(g)[k - 1] == goals[k - 1]);
    }
}

/// A room is used for what has more votes than anything else, and for nothing
/// where there is no such thing.
pub proof fn law_most_votes_win(goals: Seq<GoalRowView>, r: Room, f: RoomFunction)
    ensures
        ({
            let n = goals.len() as int;
            let wins = forall|g: RoomFunction|
                g != f ==> #[trigger] votes(goals, r, g, n) < votes(goals, r, f, n);
            (voted(goals, r) == Some(f)) == wins
        }),
{
    let n = goals.len() as int;
    if exists|g: RoomFunction| leads(goals, r, g) {
        let g = choose|g: RoomFunction| leads(goals, r, g);
        if g != f {
            assert(votes(goals, r, f, n) < votes(goals, r, g, n));
        }
    }
    if forall|g: RoomFunction|
        g != f ==> #[trigger] votes(goals, r, g, n) < votes(goals, r, f, n) {
        assert(leads(goals, r, f));
    }
}

/// Two cells touch exactly when they lie one step apart along one axis: rows do
/// not run on into the next.
pub proof fn law_touching_cells(n: int, a: usize, b: usize)
    requires
        n > 0,
        n * n <= MAX_CELLS,
        a < n * n,
        b < n * n,
    ensures
        touches(n, a, b) == (abs_int(a as int % n - b as int % n) + abs_int(
            a as int / n - b as int / n,
        ) == 1),
{
    let (x, y) = (a as int % n, a as int / n);
    let (v, w) = (b as int % n, b as int / n);
    lemma_unslot(n, a as int);
    lemma_unslot(n, b as int);
    assert(a == y * n + x && b == w * n + v);
    if touches(n, a, b) {
        let dir = choose|dir: int|
            0 <= dir < 4 && #[trigger] neighbour(n, a as int, dir) == Some(b);
        if dir == 0 {
            lemma_slot(n, x + 1, y);
        } else if dir == 1 {
            lemma_slot(n, x - 1, y);
        } else if dir == 2 {
            assert((y + 1) * n == y * n + n) by (nonlinear_arith);
            assert(y + 1 < n) by (nonlinear_arith)
                requires
                    y * n + x + n < n * n,
                    x >= 0,
                    n > 0,
            ;
            lemma_slot(n, x, y + 1);
        } else {
            assert((y - 1) * n == y * n - n) by (nonlinear_arith);
            assert(y >= 1) by (nonlinear_arith)
                requires
                    y * n + x >= n,
                    x < n,
                    n > 0,
            ;
            lemma_slot(n, x, y - 1);
        }
    }
    if abs_int(x - v) + abs_int(y - w) == 1 {
        if v == x + 1 {
            assert(neighbour(n, a as int, 0) == Some(b));
        } else if v == x - 1 {
            assert(neighbour(n, a as int, 1) == Some(b));
        } else if w == y + 1 {
            assert((y + 1) * n == y * n + n) by (nonlinear_arith);
            assert(neighbour(n, a as int, 2) == Some(b));
        } else {
            assert((y - 1) * n == y * n - n) by (nonlinear_arith);
            assert(neighbour(n, a as int, 3) == Some(b)) by {
                assert(y * n + x >= n) by (nonlinear_arith)
                    requires
                        y >= 1,
                        x >= 0,
                        n > 0,
                ;
            }
        }
    }
}

/// The border is the first and the last column and row.
pub proof fn law_border_cells(n: int, c: int)
    requires
        n > 0,
        n * n <= MAX_CELLS,
        0 <= c < n * n,
    ensures
        is_border(n, c) == (c % n == 0 || c % n == n - 1 || c / n == 0 || c / n == n - 1),
{
    lemma_unslot(n, c);
    let (x, y) = (c % n, c / n);
    assert(c == y * n + x);
    if is_border(n, c) {
        let (i, k) = choose|i: int, k: int|
            0 <= i < n && 0 <= k < 4 && c == #[trigger] border_cell(n, i, k);
        lemma_slot(n, i, 0);
        lemma_slot(n, i, n - 1);
        lemma_slot(n, 0, i);
        lemma_slot(n, n - 1, i);
        assert(0 * n == 0);
    }
    if y == 0 {
        assert(0 * n == 0);
        assert(c == border_cell(n, x, 0));
    } else if y == n - 1 {
        assert(c == border_cell(n, x, 1));
    } else if x == 0 {
        assert(c == border_cell(n, y, 2));
    } else if x == n - 1 {
        assert(c == border_cell(n, y, 3));
    }
}

/// A cell belongs inside exactly when it is not blocked and no walk over cells
/// that are not blocked leads to it from the border.
pub proof fn law_inner_cells(blocked: Seq<bool>, open: Seq<bool>, n: int, c: usize)
    requires
        n > 0,
        n * n <= MAX_CELLS,
        blocked.len() == n * n,
        open.len() == n * n,
        forall|i: int| 0 <= i < n * n ==> #[trigger] open[i] == !blocked[i],
        c < n * n,
    ensures
        inner_cells(blocked, n)[c as int] == (!blocked[c as int] && !exists|b: usize|
            is_border(n, b as int) && b < n * n && #[trigger] connected(open, n, b, c)),
{
    assert(open_cells(blocked) =~= open);
    law_outside_is_border_reachable(open, n, c);
}

/// There is one room for each region of cells, in their order, and no other.
pub proof fn law_one_room_per_region(lattice: Lattice, blocked: Seq<bool>, k: int)
    ensures
        rooms_of(lattice, blocked).len() == regions(blocked, lattice.side()).len(),
        0 <= k < rooms_of(lattice, blocked).len() ==> rooms_of(lattice, blocked)[k].cells
            == regions(blocked, lattice.side())[k].len() as u32 && rooms_of(lattice, blocked)[k]
            == room_of(lattice, regions(blocked, lattice.side())[k]),
{
}

} // verus!
