//! How agents walk, and what arrival brings.

use super::distance::{lemma_difference_close, lemma_sum_close, lies_within};
use super::score::lemma_root_bound;
use crate::scalar::arith::abs_int;
use crate::scalar::bounds::{
    lemma_product_error, lemma_quotient_error, lemma_unit_large, lemma_within_product,
    lemma_within_quotient, lemma_within_sum, lemma_within_weakens, PRECISION, TINY,
};
use crate::scalar::consts::{MICRO, ONE, TWO};
use crate::scalar::convert::lemma_unit;
use crate::scalar::monotone::lemma_root;
use crate::scene::finite::{lemma_micro, lemma_sides};
use crate::scalar::{scalar, unit, Scalar};
use crate::sim::agent::{AgentState, AgentView, NeedKind, Needs, Position, Skills, WalkTarget};
use crate::sim::systems::walk::{
    dist2, fed, law_nearest_goal, nearest_goal, practised, walked_and_arrived, Places,
};
use crate::sim::world::{dwelling_ids, first_index, lemma_first_facts, workplace_ids, SimConfig};
use vstd::arithmetic::power2::lemma2_to64;
use vstd::prelude::*;

verus! {

/// Distance from the agent to a point.
pub open spec fn way_to(a: AgentView, p: Position) -> Scalar {
    dist2(p.x, p.z, a.pos).sqrt_spec()
}

/// The agent is on its way, with a target and a route of waypoints.
pub open spec fn is_under_way(a: AgentView, t: WalkTarget, r: Seq<Position>) -> bool {
    a.state == AgentState::SeekGoal && a.target == Some(t) && a.route == Some(r)
}

/// A walker that has come within the arrival distance of its next waypoint
/// keeps exactly the waypoints behind that one, in order, and stands where it
/// stood. One that has not keeps all of them, and only moves.
pub proof fn law_waypoints_are_taken_one_by_one(
    a: AgentView,
    t: WalkTarget,
    r: Seq<Position>,
    places: Places,
    dt: Scalar,
    cfg: SimConfig,
)
    requires
        is_under_way(a, t, r),
        r.len() > 0,
    ensures
        ({
            let b = walked_and_arrived(a, places, dt, cfg);
            if way_to(a, r[0]).le_spec(cfg.arrive_dist) {
                b == AgentView { route: Some(r.subrange(1, r.len() as int)), ..a }
            } else {
                b == AgentView { pos: b.pos, ..a }
            }
        }),
{
    assert(r.drop_first() =~= r.subrange(1, r.len() as int));
}

/// Without waypoints left a walker heads for its target: it only moves until
/// it has come within the arrival distance, and then it stands there and walks
/// no more.
pub proof fn law_walks_end_at_the_target(
    a: AgentView,
    t: WalkTarget,
    places: Places,
    dt: Scalar,
    cfg: SimConfig,
)
    requires
        is_under_way(a, t, Seq::empty()),
    ensures
        ({
            let b = walked_and_arrived(a, places, dt, cfg);
            if way_to(a, Position { x: t.x, z: t.z }).le_spec(cfg.arrive_dist) {
                b.pos == a.pos && b.target is None && b.route is None && b.state
                    != AgentState::SeekGoal
            } else {
                b == AgentView { pos: b.pos, ..a }
            }
        }),
{
}

/// The agent after `k` ticks of walking, each with its own length and
/// surroundings.
pub open spec fn walked_on(
    a: AgentView,
    places: spec_fn(int) -> Places,
    dts: spec_fn(int) -> Scalar,
    cfg: SimConfig,
    k: int,
) -> AgentView
    decreases k,
{
    if k <= 0 {
        a
    } else {
        walked_and_arrived(
            walked_on(a, places, dts, cfg, k - 1),
            places(k - 1),
            dts(k - 1),
            cfg,
        )
    }
}

/// Before tick `i` the agent stood within the arrival distance of waypoint
/// `m`, with that waypoint next.
pub open spec fn passes(
    a: AgentView,
    r: Seq<Position>,
    places: spec_fn(int) -> Places,
    dts: spec_fn(int) -> Scalar,
    cfg: SimConfig,
    m: int,
    i: int,
) -> bool {
    let b = walked_on(a, places, dts, cfg, i);
    b.route == Some(r.subrange(m, r.len() as int)) && way_to(b, r[m]).le_spec(cfg.arrive_dist)
}

/// Waypoint `m` was passed within the first `k` ticks.
pub open spec fn was_passed(
    a: AgentView,
    r: Seq<Position>,
    places: spec_fn(int) -> Places,
    dts: spec_fn(int) -> Scalar,
    cfg: SimConfig,
    m: int,
    k: int,
) -> bool {
    exists|i: int| 0 <= i < k && #[trigger] passes(a, r, places, dts, cfg, m, i)
}

/// Walkers follow their routes: after any number of ticks a walker has passed
/// the first waypoints, one after the other and each within the arrival
/// distance, and the rest are still ahead of it; or it has passed them all.
pub proof fn law_routes_are_followed(
    a: AgentView,
    t: WalkTarget,
    r: Seq<Position>,
    places: spec_fn(int) -> Places,
    dts: spec_fn(int) -> Scalar,
    cfg: SimConfig,
    k: int,
) -> (j: int)
    requires
        is_under_way(a, t, r),
        k >= 0,
    ensures
        0 <= j <= r.len(),
        j < r.len() ==> is_under_way(
            walked_on(a, places, dts, cfg, k),
            t,
            r.subrange(j, r.len() as int),
        ),
        forall|m: int| 0 <= m < j ==> #[trigger] was_passed(a, r, places, dts, cfg, m, k),
    decreases k,
{
    let n = r.len() as int;
    if k == 0 {
        assert(r.subrange(0, n) =~= r);
        0
    } else {
        let j = law_routes_are_followed(a, t, r, places, dts, cfg, k - 1);
        let b = walked_on(a, places, dts, cfg, k - 1);
        let rest = r.subrange(j, n);
        let next = if j < n && way_to(b, r[j]).le_spec(cfg.arrive_dist) {
            j + 1
        } else {
            j
        };
        if j < n {
            law_waypoints_are_taken_one_by_one(b, t, rest, places(k - 1), dts(k - 1), cfg);
            assert(rest[0] == r[j]);
            assert(rest.subrange(1, rest.len() as int) =~= r.subrange(j + 1, n));
            if next == j + 1 {
                assert(passes(a, r, places, dts, cfg, j, k - 1));
            }
        }
        assert forall|m: int| 0 <= m < next implies #[trigger] was_passed(
            a,
            r,
            places,
            dts,
            cfg,
            m,
            k,
        ) by {
            if m < j {
                assert(was_passed(a, r, places, dts, cfg, m, k - 1));
                let i = choose|i: int|
                    0 <= i < k - 1 && #[trigger] passes(a, r, places, dts, cfg, m, i);
                assert(0 <= i < k && passes(a, r, places, dts, cfg, m, i));
            }
        }
        next
    }
}

/// A part of a way, rounded: the way over the distance, times the stride.
pub proof fn lemma_part(dd: Scalar, left: Scalar, step: Scalar)
    requires
        dd.is_finite_spec(),
        left.within(18),
        step.within(18),
        left.num() > 0,
        step.num() >= 0,
        abs_int(dd.num()) <= 2 * left.num(),
    ensures
        dd.div_spec(left).within(1),
        dd.div_spec(left).mul_spec(step).within(19),
        abs_int(
            dd.div_spec(left).mul_spec(step).num() * left.num() - dd.num() * step.num(),
        ) * PRECISION <= 3 * (abs_int(dd.num()) * step.num()) + 0x400_0000_0000 * left.num(),
{
    lemma_unit();
    lemma_unit_large();
    lemma2_to64();
    let u = unit() as int;
    let l = left.num();
    let s = step.num();
    let q = dd.div_spec(left);
    lemma_within_quotient(dd, left, 1);
    lemma_quotient_error(dd, left);
    let w = q.mul_spec(step);
    lemma_within_product(q, step, 1, 18);
    lemma_product_error(q, step);
    let x = dd.num();
    let qn = q.num();
    let wn = w.num();
    // all in units of u, times l
    let ql = qn * l;
    let xu = x * u;
    assert(abs_int(x) * u == abs_int(xu)) by (nonlinear_arith)
        requires
            xu == x * u,
            u > 0,
    ;
    assert(abs_int(ql - xu) * PRECISION <= abs_int(xu) + TINY * l);
    let e1 = abs_int(ql - xu) as int;
    assert(abs_int(ql * s - xu * s) == e1 * s) by (nonlinear_arith)
        requires
            e1 == abs_int(ql - xu),
            s >= 0,
    ;
    let xs = abs_int(x) * s;
    assert(abs_int(xu) * s == xs * u) by (nonlinear_arith)
        requires
            abs_int(x) * u == abs_int(xu),
            xs == abs_int(x) * s,
    ;
    assert(e1 * s * PRECISION <= xs * u + TINY * l * s) by (nonlinear_arith)
        requires
            e1 * PRECISION <= abs_int(xu) + TINY * l,
            abs_int(xu) * s == xs * u,
            s >= 0,
    ;
    assert(s <= 0x4_0000 * u);
    assert(TINY * l * s <= 0x200_0000_0000 * (l * u)) by (nonlinear_arith)
        requires
            s <= 0x4_0000 * u,
            l >= 0,
            TINY == 0x80_0000,
    ;
    let e2 = abs_int(wn * u - qn * s) as int;
    let qs = abs_int(qn * s) as int;
    assert(e2 * PRECISION <= qs + TINY * u);
    assert(abs_int(wn * u * l - qn * s * l) == e2 * l) by (nonlinear_arith)
        requires
            e2 == abs_int(wn * u - qn * s),
            l > 0,
    ;
    assert(e2 * l * PRECISION <= qs * l + TINY * (u * l)) by (nonlinear_arith)
        requires
            e2 * PRECISION <= qs + TINY * u,
            l > 0,
    ;
    assert(qn * s * l == ql * s) by (nonlinear_arith)
        requires
            ql == qn * l,
    ;
    assert(qs * l == abs_int(ql * s)) by (nonlinear_arith)
        requires
            qs == abs_int(qn * s),
            qn * s * l == ql * s,
            l > 0,
    ;
    assert(abs_int(xu * s) == xs * u) by (nonlinear_arith)
        requires
            abs_int(xu) * s == xs * u,
            s >= 0,
    ;
    let lu = l * u;
    assert(u * l == lu) by (nonlinear_arith)
        requires
            lu == l * u,
    ;
    // |wn * u * l - x * u * s| against 3 * |x| * s * u
    let g = abs_int(wn * u * l - xu * s) as int;
    assert(g <= e1 * s + e2 * l);
    assert(qs * l <= xs * u + e1 * s);
    assert(g * PRECISION <= 3 * (xs * u) + 0x400_0000_0000 * lu);
    let h = abs_int(wn * l - x * s) as int;
    assert(g == h * u) by (nonlinear_arith)
        requires
            g == abs_int(wn * u * l - xu * s),
            h == abs_int(wn * l - x * s),
            xu == x * u,
            u > 0,
    ;
    assert(h * PRECISION <= 3 * xs + 0x400_0000_0000 * l) by (nonlinear_arith)
        requires
            h * u * PRECISION <= 3 * (xs * u) + 0x400_0000_0000 * (l * u),
            u > 0,
    ;
}

/// The way of one tick along one axis.
proof fn lemma_way(p: Scalar, t: Scalar, left: Scalar, step: Scalar)
    requires
        p.within(11),
        t.within(11),
        left.within(18),
        step.within(18),
        left.num() > 0,
        0 <= step.num() <= left.num(),
        abs_int(t.sub_spec(p).num()) <= 2 * left.num(),
    ensures
        ({
            let r = p.add_spec(t.sub_spec(p).div_spec(left).mul_spec(step));
            let d = t.num() - p.num();
            let m = r.num() - p.num();
            &&& r.is_finite_spec()
            &&& abs_int(m * left.num() - d * step.num()) * PRECISION <= 12 * abs_int(d)
                * step.num() + (3 * abs_int(p.num()) + 0x800_0000_0000) * left.num()
        }),
{
    lemma_unit();
    lemma_unit_large();
    lemma2_to64();
    let u = unit() as int;
    let l = left.num();
    let s = step.num();
    let d = t.num() - p.num();
    let dd = t.sub_spec(p);
    lemma_within_sum(t, p, 11);
    lemma_difference_close(t, p);
    let q = dd.div_spec(left);
    lemma_part(dd, left, step);
    let w = q.mul_spec(step);
    let r = p.add_spec(w);
    lemma_within_weakens(p, 11, 19);
    lemma_within_sum(p, w, 19);
    lemma_sum_close(p, w);
    let x = dd.num();
    let wn = w.num();
    let xs = abs_int(x) * s;
    let h = abs_int(wn * l - x * s) as int;
    // the rounding of the difference and of the sum
    let e0 = abs_int(x - d) as int;
    let ds = abs_int(d) * s;
    assert(e0 * s * PRECISION <= 3 * ds) by (nonlinear_arith)
        requires
            e0 * PRECISION <= 3 * abs_int(d),
            ds == abs_int(d) * s,
            s >= 0,
    ;
    assert(abs_int(x * s - d * s) == e0 * s) by (nonlinear_arith)
        requires
            e0 == abs_int(x - d),
            s >= 0,
    ;
    assert(xs <= ds + e0 * s) by (nonlinear_arith)
        requires
            xs == abs_int(x) * s,
            ds == abs_int(d) * s,
            e0 == abs_int(x - d),
            s >= 0,
    ;
    assert(abs_int(x * s) == xs) by (nonlinear_arith)
        requires
            xs == abs_int(x) * s,
            s >= 0,
    ;
    let e3 = abs_int(r.num() - (p.num() + wn)) as int;
    let pl = abs_int(p.num()) * l;
    let wl = abs_int(wn * l) as int;
    assert(e3 * l * PRECISION <= 3 * pl + 3 * wl) by (nonlinear_arith)
        requires
            e3 * PRECISION <= 3 * abs_int(p.num() + wn),
            pl == abs_int(p.num()) * l,
            wl == abs_int(wn * l),
            l > 0,
    ;
    let m = r.num() - p.num();
    assert(abs_int(m * l - wn * l) == e3 * l) by (nonlinear_arith)
        requires
            e3 == abs_int(m - wn),
            l > 0,
    ;
    let total = abs_int(m * l - d * s) as int;
    assert(total <= e3 * l + h + e0 * s);
    assert(wl <= xs + h);
    assert(0 <= ds) by (nonlinear_arith)
        requires
            ds == abs_int(d) * s,
            s >= 0,
    ;
    assert(total * PRECISION <= 12 * ds + 3 * pl + 0x800_0000_0000 * l);
    assert(12 * abs_int(d) * s == 12 * ds) by (nonlinear_arith)
        requires
            ds == abs_int(d) * s,
    ;
    assert((3 * abs_int(p.num()) + 0x800_0000_0000) * l == 3 * pl + 0x800_0000_0000 * l)
        by (nonlinear_arith)
        requires
            pl == abs_int(p.num()) * l,
    ;
}

/// The tick of a walker that is not there yet: how far it has to go, and how
/// far it goes.
pub open spec fn stride(a: AgentView, to: Position, dt: Scalar, cfg: SimConfig) -> Scalar {
    cfg.walk_speed.mul_spec(dt).min_spec(way_to(a, to))
}

/// A walker moves straight towards its next waypoint, or its target where none
/// is left: along each axis it covers the same part of the way that is left,
/// namely the part that its stride makes of the distance, up to rounding.
pub proof fn law_walkers_go_straight(
    a: AgentView,
    t: WalkTarget,
    r: Seq<Position>,
    places: Places,
    dt: Scalar,
    cfg: SimConfig,
)
    requires
        is_under_way(a, t, r),
        ({
            let to = if r.len() > 0 {
                r[0]
            } else {
                Position { x: t.x, z: t.z }
            };
            &&& lies_within(a.pos, 11)
            &&& lies_within(to, 11)
            &&& !way_to(a, to).le_spec(cfg.arrive_dist)
            &&& scalar(MICRO).le_spec(cfg.arrive_dist)
            &&& cfg.walk_speed.mul_spec(dt).within(18)
            &&& cfg.walk_speed.mul_spec(dt).num() >= 0
        }),
    ensures
        ({
            let to = if r.len() > 0 {
                r[0]
            } else {
                Position { x: t.x, z: t.z }
            };
            let b = walked_and_arrived(a, places, dt, cfg);
            let left = way_to(a, to).num();
            let step = stride(a, to, dt, cfg).num();
            &&& covers_part(a.pos.x, b.pos.x, to.x, left, step)
            &&& covers_part(a.pos.z, b.pos.z, to.z, left, step)
        }),
{
    let to = if r.len() > 0 {
        r[0]
    } else {
        Position { x: t.x, z: t.z }
    };
    let left = way_to(a, to);
    let step = stride(a, to, dt, cfg);
    let d2 = dist2(to.x, to.z, a.pos);
    lemma_sides(a.pos, to);
    lemma_micro();
    vstd::arithmetic::power2::lemma_pow2_pos(129);
    lemma_within_weakens(d2, 25, 35);
    lemma_within_weakens(d2, 25, 60);
    lemma_root(d2);
    lemma_root_bound(d2);
    lemma_way(a.pos.x, to.x, left, step);
    lemma_way(a.pos.z, to.z, left, step);
}

/// Along one axis the way covered is to the way to go as the stride is to the
/// distance, up to rounding.
pub open spec fn covers_part(from: Scalar, at: Scalar, to: Scalar, left: int, step: int) -> bool {
    let way = to.num() - from.num();
    let moved = at.num() - from.num();
    at.is_finite_spec() && abs_int(moved * left - way * step) * PRECISION <= 12 * abs_int(way)
        * step + (3 * abs_int(from.num()) + 0x800_0000_0000) * left
}

/// A walker that is within the arrival distance of its target, with no
/// waypoint left.
pub open spec fn is_there(a: AgentView, t: WalkTarget, cfg: SimConfig) -> bool {
    is_under_way(a, t, Seq::empty()) && way_to(a, Position { x: t.x, z: t.z }).le_spec(
        cfg.arrive_dist,
    )
}

/// A place lies within twice the arrival distance of the agent.
pub open spec fn at_hand(a: AgentView, x: Scalar, z: Scalar, cfg: SimConfig) -> bool {
    let reach = cfg.arrive_dist.mul_spec(scalar(TWO));
    dist2(x, z, a.pos).le_spec(reach.mul_spec(reach))
}

/// A commuter that is there starts to work, where its site stands at hand;
/// otherwise it is idle and commutes no more. Nothing else of it changes.
pub proof fn law_commuters_start_work(
    a: AgentView,
    t: WalkTarget,
    places: Places,
    dt: Scalar,
    cfg: SimConfig,
    site: crate::sim::Entity,
)
    requires
        is_there(a, t, cfg),
        a.commute == Some(crate::sim::agent::Commute(site)),
    ensures
        ({
            let b = walked_and_arrived(a, places, dt, cfg);
            let stands = exists|j: int|
                0 <= j < places.workplaces.len() && (#[trigger] places.workplaces[j]).id == site
                    && at_hand(
                    a,
                    places.workplaces[j].workplace.x,
                    places.workplaces[j].workplace.z,
                    cfg,
                ) && forall|i: int| 0 <= i < j ==> (#[trigger] places.workplaces[i]).id != site;
            b == AgentView {
                target: None,
                route: None,
                state: if stands {
                    AgentState::Working
                } else {
                    AgentState::Idle
                },
                commute: if stands {
                    a.commute
                } else {
                    None
                },
                ..a
            }
        }),
{
    let ids = workplace_ids(places.workplaces);
    lemma_first_facts(ids, site);
    match first_index(ids, site) {
        Some(j) => {
            assert forall|i: int| 0 <= i < j implies (#[trigger] places.workplaces[i]).id
                != site by {
                assert(ids[i] != site);
            }
            assert(places.workplaces[j].id == site);
        },
        None => {
            assert forall|j: int| 0 <= j < places.workplaces.len() implies (
            #[trigger] places.workplaces[j]).id != site by {
                assert(ids[j] == places.workplaces[j].id);
            }
        },
    }
}

/// Whoever goes home and is there sleeps, where it is night and the home stands
/// at hand; otherwise it is idle. Nothing else of it changes.
pub proof fn law_home_goers_turn_in(
    a: AgentView,
    t: WalkTarget,
    places: Places,
    dt: Scalar,
    cfg: SimConfig,
    home: crate::sim::Entity,
)
    requires
        is_there(a, t, cfg),
        a.commute is None,
        a.going_home == Some(crate::sim::agent::GoingHome(home)),
    ensures
        ({
            let b = walked_and_arrived(a, places, dt, cfg);
            let stands = exists|j: int|
                0 <= j < places.dwellings.len() && (#[trigger] places.dwellings[j]).id == home
                    && at_hand(
                    a,
                    places.dwellings[j].dwelling.x,
                    places.dwellings[j].dwelling.z,
                    cfg,
                ) && forall|i: int| 0 <= i < j ==> (#[trigger] places.dwellings[i]).id != home;
            b == AgentView {
                target: None,
                route: None,
                going_home: None,
                state: if stands && (places.hour >= 22 || places.hour < 6) {
                    AgentState::Sleeping
                } else {
                    AgentState::Idle
                },
                ..a
            }
        }),
{
    let ids = dwelling_ids(places.dwellings);
    lemma_first_facts(ids, home);
    match first_index(ids, home) {
        Some(j) => {
            assert forall|i: int| 0 <= i < j implies (#[trigger] places.dwellings[i]).id
                != home by {
                assert(ids[i] != home);
            }
            assert(places.dwellings[j].id == home);
        },
        None => {
            assert forall|j: int| 0 <= j < places.dwellings.len() implies (
            #[trigger] places.dwellings[j]).id != home by {
                assert(ids[j] == places.dwellings[j].id);
            }
        },
    }
}

/// Goal `j` is the one that an arrived agent uses: not out of reach, none not
/// out of reach is nearer, and none that stands earlier is as near. All
/// distances are numbers.
pub open spec fn is_used(a: AgentView, places: Places, cfg: SimConfig, j: int) -> bool {
    let reach = cfg.arrive_dist.mul_spec(scalar(TWO));
    let limit = reach.mul_spec(reach);
    let g = places.goals;
    &&& 0 <= j < g.len()
    &&& forall|i: int|
        0 <= i < g.len() ==> !dist2((#[trigger] g[i]).goal.x, g[i].goal.z, a.pos).is_nan_spec()
    &&& !limit.lt_spec(dist2(g[j].goal.x, g[j].goal.z, a.pos))
    &&& forall|i: int|
        0 <= i < g.len() && !limit.lt_spec(
            dist2((#[trigger] g[i]).goal.x, g[i].goal.z, a.pos),
        ) ==> !dist2(g[i].goal.x, g[i].goal.z, a.pos).lt_spec(
            dist2(g[j].goal.x, g[j].goal.z, a.pos),
        )
    &&& forall|i: int|
        0 <= i < j && !limit.lt_spec(
            dist2((#[trigger] g[i]).goal.x, g[i].goal.z, a.pos),
        ) ==> !dist2(g[i].goal.x, g[i].goal.z, a.pos).le_spec(
            dist2(g[j].goal.x, g[j].goal.z, a.pos),
        )
}

/// The ads are for different needs.
pub open spec fn are_different(ads: Seq<(NeedKind, Scalar)>) -> bool {
    forall|i: int, k: int| 0 <= i < k < ads.len() ==> (#[trigger] ads[i]).0 != (#[trigger] ads[k]).0
}

/// The skill that serves a need multiplies what an ad for it restores.
pub open spec fn skill_factor(skills: Skills, kind: NeedKind) -> Scalar {
    if kind == NeedKind::Hunger {
        scalar(ONE).add_spec(skills.cooking)
    } else if kind == NeedKind::Sociability {
        scalar(ONE).add_spec(skills.charisma)
    } else {
        scalar(ONE)
    }
}

/// A skill after one use.
pub open spec fn used_once(v: Scalar) -> Scalar {
    v.add_spec(scalar(0x3ca3_d70a /* 0.02 */)).min_spec(scalar(ONE))
}

proof fn lemma_fed_each(needs: Needs, skills: Skills, ads: Seq<(NeedKind, Scalar)>, k: int, kind: NeedKind)
    requires
        0 <= k <= ads.len(),
        are_different(ads),
    ensures
        forall|j: int|
            0 <= j < k && (#[trigger] ads[j]).0 == kind ==> fed(needs, skills, ads, k).get(kind)
                == needs.get(kind).add_spec(
                ads[j].1.mul_spec(skill_factor(skills, kind)),
            ).min_spec(scalar(ONE)),
        (forall|j: int| 0 <= j < k ==> (#[trigger] ads[j]).0 != kind) ==> fed(
            needs,
            skills,
            ads,
            k,
        ).get(kind) == needs.get(kind),
        practised(skills, ads, k).cooking == (if exists|j: int|
            0 <= j < k && (#[trigger] ads[j]).0 == NeedKind::Hunger {
            used_once(skills.cooking)
        } else {
            skills.cooking
        }),
        practised(skills, ads, k).charisma == (if exists|j: int|
            0 <= j < k && (#[trigger] ads[j]).0 == NeedKind::Sociability {
            used_once(skills.charisma)
        } else {
            skills.charisma
        }),
    decreases k,
{
    if k > 0 {
        lemma_fed_each(needs, skills, ads, k - 1, kind);
        let last = ads[k - 1];
        if last.0 == kind {
            assert forall|j: int| 0 <= j < k - 1 implies (#[trigger] ads[j]).0 != kind by {
                assert(ads[j].0 != ads[k - 1].0);
            }
        }
        if last.0 == NeedKind::Hunger {
            assert forall|j: int| 0 <= j < k - 1 implies (#[trigger] ads[j]).0
                != NeedKind::Hunger by {
                assert(ads[j].0 != ads[k - 1].0);
            }
        }
        if last.0 == NeedKind::Sociability {
            assert forall|j: int| 0 <= j < k - 1 implies (#[trigger] ads[j]).0
                != NeedKind::Sociability by {
                assert(ads[j].0 != ads[k - 1].0);
            }
        }
        if exists|j: int| 0 <= j < k - 1 && (#[trigger] ads[j]).0 == NeedKind::Hunger {
            let j = choose|j: int| 0 <= j < k - 1 && (#[trigger] ads[j]).0 == NeedKind::Hunger;
            assert(0 <= j < k && ads[j].0 == NeedKind::Hunger);
        }
        if exists|j: int| 0 <= j < k - 1 && (#[trigger] ads[j]).0 == NeedKind::Sociability {
            let j = choose|j: int|
                0 <= j < k - 1 && (#[trigger] ads[j]).0 == NeedKind::Sociability;
            assert(0 <= j < k && ads[j].0 == NeedKind::Sociability);
        }
    }
}

/// An agent on an errand that is there uses the nearest goal at hand: every ad
/// of it restores its need, times the skill that serves it and up to 1, needs
/// without an ad stay, and the skills that serve an ad grow. The agent is idle
/// then.
pub proof fn law_arrival_uses_the_goal(
    a: AgentView,
    t: WalkTarget,
    places: Places,
    dt: Scalar,
    cfg: SimConfig,
    j: int,
    kind: NeedKind,
)
    requires
        is_there(a, t, cfg),
        a.commute is None,
        a.going_home is None,
        is_used(a, places, cfg, j),
        are_different(places.goals[j].goal.ads),
    ensures
        ({
            let b = walked_and_arrived(a, places, dt, cfg);
            let ads = places.goals[j].goal.ads;
            &&& b == AgentView {
                target: None,
                route: None,
                state: AgentState::Idle,
                needs: b.needs,
                skills: b.skills,
                ..a
            }
            &&& forall|i: int|
                0 <= i < ads.len() && (#[trigger] ads[i]).0 == kind ==> b.needs.get(kind)
                    == a.needs.get(kind).add_spec(
                    ads[i].1.mul_spec(skill_factor(a.skills, kind)),
                ).min_spec(scalar(ONE))
            &&& (forall|i: int| 0 <= i < ads.len() ==> (#[trigger] ads[i]).0 != kind)
                ==> b.needs.get(kind) == a.needs.get(kind)
            &&& b.skills.cooking == (if exists|i: int|
                0 <= i < ads.len() && (#[trigger] ads[i]).0 == NeedKind::Hunger {
                used_once(a.skills.cooking)
            } else {
                a.skills.cooking
            })
            &&& b.skills.charisma == (if exists|i: int|
                0 <= i < ads.len() && (#[trigger] ads[i]).0 == NeedKind::Sociability {
                used_once(a.skills.charisma)
            } else {
                a.skills.charisma
            })
        }),
{
    let n = places.goals.len() as int;
    let ads = places.goals[j].goal.ads;
    law_nearest_goal(places.goals, n, a.pos, cfg.arrive_dist);
    lemma_used(a, places, cfg, j);
    lemma_fed_each(a.needs, a.skills, ads, ads.len() as int, kind);
}

/// An agent on an errand that is there with every goal out of reach is idle,
/// and nothing else of it changes.
pub proof fn law_arrival_in_vain(
    a: AgentView,
    t: WalkTarget,
    places: Places,
    dt: Scalar,
    cfg: SimConfig,
)
    requires
        is_there(a, t, cfg),
        a.commute is None,
        a.going_home is None,
        forall|i: int|
            0 <= i < places.goals.len() ==> cfg.arrive_dist.mul_spec(scalar(TWO)).mul_spec(
                cfg.arrive_dist.mul_spec(scalar(TWO)),
            ).lt_spec(
                dist2((#[trigger] places.goals[i]).goal.x, places.goals[i].goal.z, a.pos),
            ),
    ensures
        walked_and_arrived(a, places, dt, cfg) == (AgentView {
            target: None,
            route: None,
            state: AgentState::Idle,
            ..a
        }),
{
    let g = places.goals;
    law_nearest_goal(g, g.len() as int, a.pos, cfg.arrive_dist);
    if let Some(b) = nearest_goal(g, g.len() as int, a.pos, cfg.arrive_dist) {
        assert(crate::sim::systems::walk::goal_dist2(g, b.1, a.pos) == dist2(
            g[b.1].goal.x,
            g[b.1].goal.z,
            a.pos,
        ));
    }
}

proof fn lemma_used(a: AgentView, places: Places, cfg: SimConfig, j: int)
    requires
        is_used(a, places, cfg, j),
    ensures
        nearest_goal(places.goals, places.goals.len() as int, a.pos, cfg.arrive_dist) matches Some(
            b,
        ) && b.1 == j,
{
    let g = places.goals;
    let n = g.len() as int;
    law_nearest_goal(g, n, a.pos, cfg.arrive_dist);
    let d = |i: int| dist2(g[i].goal.x, g[i].goal.z, a.pos);
    assert(crate::sim::systems::walk::goal_dist2(g, j, a.pos) == d(j));
    assert(crate::sim::systems::walk::in_reach(d(j), cfg.arrive_dist));
    let b = nearest_goal(g, n, a.pos, cfg.arrive_dist)->0;
    assert(crate::sim::systems::walk::goal_dist2(g, b.1, a.pos) == d(b.1));
    assert(g[b.1] == g[b.1]);
    if b.1 < j {
        assert(!d(b.1).le_spec(d(j)) && !d(j).lt_spec(d(b.1)));
    } else if j < b.1 {
        assert(!d(j).le_spec(d(b.1)) && !d(b.1).lt_spec(d(j)));
    }
}

} // verus!
