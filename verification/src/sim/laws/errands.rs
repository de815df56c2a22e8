//! Where agents are sent, and along which way.

use super::distance::{flipped, lemma_difference_close, lemma_sum_close};
use crate::scalar::{magnitude, scalar, unit, Scalar, BINADE, INF_PATTERN};
use crate::scalar::arith::abs_int;
use crate::scalar::bounds::{
    lemma_product_error, lemma_quotient, lemma_quotient_error, lemma_unit_large,
    lemma_within_product, lemma_within_sum, lemma_within_weakens, PRECISION, TINY,
};
use crate::scalar::consts::{HALF, MICRO, MILLI};
use crate::scalar::convert::lemma_unit;
use crate::scalar::wholes::{is_whole, lemma_sides_of};
use crate::sim::agent::{ActionKind, AgentState, AgentView, Position, WalkTarget};
use crate::sim::grid::{in_bounds, Lattice, Wall};
use crate::sim::route::{end_cell, free, is_snap, Cell, Ground, Offset};
use crate::sim::systems::autonomy::{
    at_leisure, chacha_index, decided, ranking_of, tied, turn, Pick,
};
use crate::sim::systems::orders::pumped;
use crate::sim::systems::walk::dist2;
use crate::sim::world::{goal_ids, lemma_first, lemma_first_facts, GoalRowView, SimRng};
use vstd::prelude::*;

verus! {

/// An idle agent that stands takes its first order off its list and sets out
/// for the place it names, or for the goal it names, along the planned route;
/// where no way leads there, the order is dropped all the same. The other
/// orders wait.
pub proof fn law_orders_are_taken_in_turn(
    a: AgentView,
    ground: Ground,
    goals: Seq<GoalRowView>,
    j: int,
)
    requires
        a.state == AgentState::Idle,
        a.target is None,
        a.queue.len() > 0,
    ensures
        ({
            let b = pumped(a, ground, goals);
            let rest = a.queue.subrange(1, a.queue.len() as int);
            let names = |e: crate::sim::Entity, i: int|
                0 <= i < goals.len() && goals[i].id == e && forall|m: int|
                    0 <= m < i ==> (#[trigger] goals[m]).id != e;
            &&& b.queue == rest
            &&& b.pos == a.pos && b.needs == a.needs && b.home == a.home && b.employment
                == a.employment
            &&& a.queue[0] matches ActionKind::Goto { x, z } ==> is_sent(
                a,
                b,
                ground,
                Position { x, z },
            )
            &&& a.queue[0] matches ActionKind::Use { goal } ==> (names(goal, j) ==> is_sent(
                a,
                b,
                ground,
                Position { x: goals[j].goal.x, z: goals[j].goal.z },
            ))
            &&& a.queue[0] matches ActionKind::Use { goal } ==> ((forall|m: int|
                0 <= m < goals.len() ==> (#[trigger] goals[m]).id != goal) ==> b.target is None
                && b.state == AgentState::Idle)
        }),
{
    assert(a.queue.drop_first() =~= a.queue.subrange(1, a.queue.len() as int));
    if let ActionKind::Use { goal } = a.queue[0] {
        let ids = goal_ids(goals);
        lemma_first_facts(ids, goal);
        if 0 <= j < goals.len() && goals[j].id == goal && forall|m: int|
            0 <= m < j ==> (#[trigger] goals[m]).id != goal {
            assert(ids[j] == goal);
            assert forall|m: int| 0 <= m < j implies #[trigger] ids[m] != goal by {
                assert(ids[m] == goals[m].id);
            }
            lemma_first(ids, goal, j);
        }
        if forall|m: int| 0 <= m < goals.len() ==> (#[trigger] goals[m]).id != goal {
            assert forall|m: int| 0 <= m < ids.len() implies #[trigger] ids[m] != goal by {
                assert(ids[m] == goals[m].id);
            }
        }
    }
}

/// An agent has set out for a place along the planned route, without a claim;
/// or stands where it stood, where no way leads there.
pub open spec fn is_sent(a: AgentView, b: AgentView, ground: Ground, to: Position) -> bool {
    match ground.plan(a.pos, to) {
        Some(route) => b.state == AgentState::SeekGoal && b.route == Some(route) && b.target
            == Some(WalkTarget { x: to.x, z: to.z, claim: None }),
        None => b.state == a.state && b.target is None && b.route == a.route,
    }
}

/// Agents that stand with orders wait for nothing; everyone else keeps theirs.
pub proof fn law_busy_agents_keep_their_orders(
    a: AgentView,
    ground: Ground,
    goals: Seq<GoalRowView>,
)
    requires
        a.state != AgentState::Idle || a.target is Some || a.queue.len() == 0,
    ensures
        pumped(a, ground, goals) == a,
{
}

/// Among goals that tie for best, chance decides: the draw names the one that
/// an agent at leisure sets out for, where it is free and can be reached; and
/// each such decision moves the random stream on.
pub proof fn law_ties_are_drawn(
    ground: Ground,
    agents: Seq<AgentView>,
    goals: Seq<GoalRowView>,
    rng: SimRng,
    k: int,
)
    requires
        0 <= k < agents.len(),
        goals.len() <= usize::MAX,
        at_leisure(agents[k]),
        ranking_of(agents[k], goals).len() > 0,
    ensures
        ({
            let d = decided(ground, agents, goals, rng, k);
            let e = decided(ground, agents, goals, rng, k + 1);
            let ranking = ranking_of(agents[k], goals);
            let draw = chacha_index(d.rng.seed, d.rng.word_pos, tied(ranking) as usize);
            let g = ranking[draw.0 as int % tied(ranking)].goal as int;
            let to = Position { x: goals[g].goal.x, z: goals[g].goal.z };
            &&& e.rng.seed == rng.seed
            &&& e.rng.word_pos == draw.1
            &&& !d.taken[g] ==> (ground.plan(agents[k].pos, to) matches Some(route) ==> e.picks[k]
                == Some(Pick { goal: g as usize, route }) && e.taken[g])
        }),
{
    let ranking = ranking_of(agents[k], goals);
    crate::sim::laws::gain::law_ties(ranking, 0);
    let d = decided(ground, agents, goals, rng, k);
    let draw = chacha_index(d.rng.seed, d.rng.word_pos, tied(ranking) as usize);
    let t = turn(tied(ranking), draw.0 as int, 0);
    assert(t == draw.0 as int % tied(ranking));
    vstd::arithmetic::div_mod::lemma_mod_bound(draw.0 as int, tied(ranking));
    crate::sim::laws::autonomy::law_ranking(agents[k], goals);
    lemma_same_seed(ground, agents, goals, rng, k);
    crate::sim::laws::autonomy::law_decisions(ground, agents, goals, rng, k);
}

proof fn lemma_same_seed(
    ground: Ground,
    agents: Seq<AgentView>,
    goals: Seq<GoalRowView>,
    rng: SimRng,
    k: int,
)
    requires
        0 <= k <= agents.len(),
    ensures
        decided(ground, agents, goals, rng, k).rng.seed == rng.seed,
    decreases k,
{
    if k > 0 {
        lemma_same_seed(ground, agents, goals, rng, k - 1);
    }
}

/// A route over cells names the center of every cell behind the first, in
/// order, but for the last, in whose place it ends at the exact target.
pub proof fn law_routes_visit_every_cell(lattice: Lattice, cells: Seq<Cell>, to: Position, i: int)
    requires
        cells.len() > 0,
    ensures
        ({
            let r = lattice.waypoints(cells, to);
            &&& r.len() == cells.len() && r[r.len() - 1] == to
            &&& 1 <= i < cells.len() ==> r[i - 1].x == lattice.coordinate(cells[i].0 as int)
                && r[i - 1].z == lattice.coordinate(cells[i].1 as int)
        }),
{
}

/// On bare ground, and within one cell, the way is straight: nothing lies
/// between. From a free cell of the grid to another, a route ends at the
/// target.
pub proof fn law_plain_ways_are_straight(ground: Ground, from: Position, to: Position)
    ensures
        ground.rects.len() == 0 && ground.roads.len() == 0 && ground.walls.len() == 0
            ==> ground.plan(from, to) == Some(Seq::<Position>::empty()),
        ({
            let n = ground.lattice.side();
            let c = ground.cell_of(from);
            &&& !in_bounds(n, c.0 as int, c.1 as int) ==> ground.plan(from, to) == Some(
                Seq::<Position>::empty(),
            )
            &&& in_bounds(n, c.0 as int, c.1 as int) && ground.cell_of(to) == c
                && !ground.blocked()[c.1 * n + c.0] ==> ground.plan(from, to) == Some(
                Seq::<Position>::empty(),
            )
        }),
        ground.plan(from, to) matches Some(route) ==> (route.len() > 0 ==> route.last() == to),
{
}

/// Of the free cells on the nearest ring a target snaps to the first, row by
/// row.
pub proof fn law_snaps_go_row_by_row(blocked: Seq<bool>, n: int, to: Cell, other: Offset)
    requires
        0 < n < 0x1_0000,
        !free(blocked, n, to.0 as int, to.1 as int),
        end_cell(blocked, n, to) is Some,
        free(blocked, n, to.0 + other.dx, to.1 + other.dy),
        ({
            let c = end_cell(blocked, n, to)->0;
            ring_of(other.dx as int, other.dy as int) == ring_of(c.0 - to.0, c.1 - to.1)
        }),
    ensures
        ({
            let c = end_cell(blocked, n, to)->0;
            c.1 - to.1 < other.dy || (c.1 - to.1 == other.dy && c.0 - to.0 <= other.dx)
        }),
{
    let o = choose|o: Offset| is_snap(blocked, n, to, o);
    assert(is_snap(blocked, n, to, o));
    assert(!other.before(o, o.ring()));
}

/// Number of the ring around a cell.
pub open spec fn ring_of(dx: int, dy: int) -> int {
    if abs_int(dx) < abs_int(dy) {
        abs_int(dy) as int
    } else {
        abs_int(dx) as int
    }
}

/// How far a wall is trimmed goes by both axes alike.
pub proof fn law_walls_are_trimmed_alike(w: Wall)
    ensures
        ({
            let v = Wall { ax: w.az, az: w.ax, bx: w.bz, bz: w.bx };
            &&& v.trim() == w.trim()
            &&& v.trimmed().0 == flipped(w.trimmed().0) && v.trimmed().1 == flipped(w.trimmed().1)
        }),
{
    let dx = w.bx.sub_spec(w.ax);
    let dz = w.bz.sub_spec(w.az);
    crate::scalar::monotone::lemma_add_commutes(dx.mul_spec(dx), dz.mul_spec(dz));
}

/// The cells around whole coordinates reach half a cell to each side.
pub proof fn law_cells_reach_half_a_cell(
    lattice: Lattice,
    cx: int,
    cy: int,
    x: int,
    z: int,
    size: int,
)
    requires
        is_whole(lattice.coordinate(cx), x),
        is_whole(lattice.coordinate(cy), z),
        is_whole(lattice.cell, size),
        -0x1000 < x < 0x1000,
        -0x1000 < z < 0x1000,
        0 < size < 0x1000,
    ensures
        2 * lattice.rect(cx, cy).min_x.num() == (2 * x - size) * unit(),
        2 * lattice.rect(cx, cy).max_x.num() == (2 * x + size) * unit(),
        2 * lattice.rect(cx, cy).min_z.num() == (2 * z - size) * unit(),
        2 * lattice.rect(cx, cy).max_z.num() == (2 * z + size) * unit(),
{
    lemma_sides_of(lattice.coordinate(cx), lattice.cell, x, size);
    lemma_sides_of(lattice.coordinate(cy), lattice.cell, z, size);
}

/// What a wall loses at each end is a thousandth of a unit, up to rounding,
/// unless that is half of it: the part that is trimmed, times the length.
pub proof fn law_walls_lose_a_thousandth(w: Wall)
    requires
        ({
            let len = dist2(w.bx, w.bz, Position { x: w.ax, z: w.az }).sqrt_spec();
            len.is_finite_spec() && scalar(MICRO).le_spec(len)
        }),
        w.trim().lt_spec(scalar(HALF)),
    ensures
        ({
            let len = dist2(w.bx, w.bz, Position { x: w.ax, z: w.az }).sqrt_spec().num();
            let thousandth = scalar(MILLI).num();
            &&& abs_int(1000 * thousandth - unit()) * 0x100_0000 <= unit()
            &&& abs_int(w.trim().num() * len - thousandth * unit()) * PRECISION <= thousandth
                * unit() + TINY * len
        }),
{
    lemma_unit();
    vstd::arithmetic::power2::lemma2_to64();
    let len = dist2(w.bx, w.bz, Position { x: w.ax, z: w.az }).sqrt_spec();
    vstd::arithmetic::div_mod::lemma_fundamental_div_mod_converse(
        MILLI as int,
        BINADE as int,
        117,
        0x3_126f,
    );
    vstd::arithmetic::power2::lemma_pow2_adds(1, 116);
    vstd::arithmetic::power2::lemma_pow2_adds(32, 117);
    vstd::arithmetic::power2::lemma_pow2_pos(116);
    let v = vstd::arithmetic::power2::pow2(116) as int;
    assert(scalar(MILLI).num() == 0x83_126f * v);
    assert(unit() == 0x2_0000_0000 * v);
    crate::scalar::round::lemma_magnitude_increases(0, MICRO as nat);
    assert(magnitude(0) == 0);
    assert(len.num() > 0);
    assert(len.max_spec(scalar(MICRO)) == len);
    let q = scalar(MILLI).div_spec(len);
    assert(w.trim() == q);
    assert(q.is_finite_spec()) by {
        lemma_quotient(scalar(MILLI), len);
        crate::scalar::round::lemma_magnitude_increases(HALF as nat, INF_PATTERN as nat);
    }
    lemma_quotient_error(scalar(MILLI), len);
}

/// A place lies a part of the way from one coordinate to another, up to
/// rounding.
pub open spec fn lies_along(c: Scalar, a: Scalar, b: Scalar, part: Scalar) -> bool {
    c.is_finite_spec() && abs_int(
        (c.num() - a.num()) * unit() - (b.num() - a.num()) * part.num(),
    ) * PRECISION <= (3 * abs_int(a.num()) + 20 * abs_int(b.num() - a.num()) + 4 * TINY) * unit()
}

/// Each end of a wall is pulled in towards the other one by the same part of
/// its length.
pub proof fn law_walls_are_pulled_in(w: Wall)
    requires
        w.ax.within(12),
        w.az.within(12),
        w.bx.within(12),
        w.bz.within(12),
        w.trim().is_finite_spec(),
        0 <= w.trim().num() <= unit(),
    ensures
        lies_along(w.trimmed().0.x, w.ax, w.bx, w.trim()),
        lies_along(w.trimmed().0.z, w.az, w.bz, w.trim()),
        lies_along(w.trimmed().1.x, w.bx, w.ax, w.trim()),
        lies_along(w.trimmed().1.z, w.bz, w.az, w.trim()),
{
    lemma_pulled(w.ax, w.bx, w.trim());
    lemma_pulled(w.az, w.bz, w.trim());
}

/// The way that an end is pulled in.
proof fn lemma_pull(a: Scalar, b: Scalar, t: Scalar)
    requires
        a.within(12),
        b.within(12),
        t.is_finite_spec(),
        0 <= t.num() <= unit(),
    ensures
        ({
            let m = b.sub_spec(a).mul_spec(t);
            let ex = b.num() - a.num();
            let su = abs_int(ex) * unit();
            &&& m.within(13)
            &&& abs_int(m.num() * unit() - ex * t.num()) * PRECISION <= 5 * su + TINY * unit()
            &&& abs_int(m.num()) * unit() <= 4 * su + TINY * unit()
        }),
{
    lemma_unit();
    lemma_unit_large();
    vstd::arithmetic::power2::lemma2_to64();
    let u = unit() as int;
    let xs = b.sub_spec(a);
    lemma_within_sum(b, a, 12);
    lemma_difference_close(b, a);
    let ms = xs.mul_spec(t);
    assert(1 * u == u);
    lemma_within_product(xs, t, 13, 0);
    lemma_product_error(xs, t);
    let (x, m, tn) = (xs.num(), ms.num(), t.num());
    let ex = b.num() - a.num();
    let s = abs_int(ex) as int;
    let xv = abs_int(x) as int;
    let mv = abs_int(m) as int;
    assert(xv <= 2 * s);
    let xt = x * tn;
    assert(abs_int(xt) <= xv * u) by (nonlinear_arith)
        requires
            xt == x * tn,
            xv == abs_int(x),
            0 <= tn <= u,
    ;
    let su = s * u;
    assert(xv * u <= 2 * su) by (nonlinear_arith)
        requires
            xv <= 2 * s,
            su == s * u,
            u > 0,
    ;
    let em = m * u - xt;
    assert(abs_int(em) * PRECISION <= abs_int(xt) + TINY * u);
    assert(abs_int(m * u) == mv * u) by (nonlinear_arith)
        requires
            mv == abs_int(m),
            u > 0,
    ;
    assert(mv * u <= 4 * su + TINY * u) by {
        assert(abs_int(m * u) <= abs_int(xt) + abs_int(em));
    }
    let ed = (x - ex) * tn;
    assert(ed == xt - ex * tn) by (nonlinear_arith)
        requires
            ed == (x - ex) * tn,
            xt == x * tn,
    ;
    let w = abs_int(x - ex) as int;
    assert(abs_int(ed) <= w * u) by (nonlinear_arith)
        requires
            ed == (x - ex) * tn,
            w == abs_int(x - ex),
            0 <= tn <= u,
    ;
    assert(w * u * PRECISION <= 3 * su) by (nonlinear_arith)
        requires
            w * PRECISION <= 3 * s,
            su == s * u,
            u > 0,
    ;
    lemma_two_errors(m * u - ex * tn, em, ed);
}

proof fn lemma_pulled(a: Scalar, b: Scalar, t: Scalar)
    requires
        a.within(12),
        b.within(12),
        t.is_finite_spec(),
        0 <= t.num() <= unit(),
    ensures
        lies_along(a.add_spec(b.sub_spec(a).mul_spec(t)), a, b, t),
        lies_along(b.sub_spec(b.sub_spec(a).mul_spec(t)), b, a, t),
{
    lemma_unit();
    lemma_pull(a, b, t);
    let ms = b.sub_spec(a).mul_spec(t);
    lemma_within_weakens(a, 12, 13);
    lemma_within_weakens(b, 12, 13);
    lemma_within_sum(a, ms, 13);
    lemma_within_sum(b, ms, 13);
    lemma_sum_close(a, ms);
    lemma_difference_close(b, ms);
    let u = unit() as int;
    let ex = b.num() - a.num();
    let su = abs_int(ex) * unit();
    lemma_end(a.num(), a.add_spec(ms).num(), ms.num(), ex * t.num(), u, su as int);
    lemma_along(a.num(), ex, u);
    assert((-ex) * t.num() == -(ex * t.num()) && (-ms.num()) * u == -(ms.num() * u))
        by (nonlinear_arith);
    lemma_end(b.num(), b.sub_spec(ms).num(), -ms.num(), (-ex) * t.num(), u, su as int);
    lemma_along(b.num(), -ex, u);
}

proof fn lemma_along(a: int, ex: int, u: int)
    requires
        u > 0,
    ensures
        (3 * abs_int(a) + 20 * abs_int(ex) + 4 * TINY) * u == 3 * (abs_int(a) * u) + 20 * (abs_int(
            ex,
        ) * u) + 4 * (TINY * u),
{
    let (v, w) = (abs_int(a) as int, abs_int(ex) as int);
    assert((3 * v + 20 * w + 4 * TINY) * u == 3 * (v * u) + 20 * (w * u) + 4 * (TINY * u))
        by (nonlinear_arith);
}

/// The end of a way, from where it starts and how long it is.
proof fn lemma_end(a: int, c: int, m: int, xt: int, u: int, su: int)
    requires
        abs_int(c - (a + m)) * PRECISION <= 3 * abs_int(a + m),
        abs_int(m * u - xt) * PRECISION <= 5 * su + TINY * u,
        abs_int(m) * u <= 4 * su + TINY * u,
        su >= 0,
        u > 0,
    ensures
        abs_int((c - a) * u - xt) * PRECISION <= 3 * (abs_int(a) * u) + 20 * su + 4 * (TINY * u),
{
    lemma_pulled_end(a, c - a, m, u, abs_int(a) as int, abs_int(m) as int);
    let e = (c - a - m) * u;
    assert(e == (c - a) * u - m * u) by (nonlinear_arith)
        requires
            e == (c - a - m) * u,
    ;
    lemma_two_errors((c - a) * u - xt, e, m * u - xt);
}

/// The error of the last sum, in finer units.
proof fn lemma_pulled_end(a: int, way: int, m: int, u: int, av: int, mv: int)
    requires
        abs_int(a + way - (a + m)) * PRECISION <= 3 * abs_int(a + m),
        av == abs_int(a),
        mv == abs_int(m),
        u > 0,
    ensures
        abs_int((way - m) * u) * PRECISION <= 3 * (av * u) + 3 * (mv * u),
{
    let e = abs_int(way - m) as int;
    assert(e * PRECISION <= 3 * (av + mv));
    assert(abs_int((way - m) * u) == e * u) by (nonlinear_arith)
        requires
            e == abs_int(way - m),
            u > 0,
    ;
    assert(e * u * PRECISION <= 3 * (av * u) + 3 * (mv * u)) by (nonlinear_arith)
        requires
            e * PRECISION <= 3 * (av + mv),
            u > 0,
    ;
}

/// Two errors add up.
proof fn lemma_two_errors(total: int, a: int, b: int)
    requires
        total == a + b,
    ensures
        abs_int(total) * PRECISION <= abs_int(a) * PRECISION + abs_int(b) * PRECISION,
{
    assert(abs_int(total) <= abs_int(a) + abs_int(b));
}

} // verus!
