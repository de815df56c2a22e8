//! A day in the city: draining, dozing, nights, chats, growth and taxes.

use super::distance::law_distance_is_symmetric;
use super::needs::is_sound;
use super::work::{holdings, law_credit_reaches_the_account};
use crate::scalar::arith::abs_int;
use crate::scalar::bounds::PRECISION;
use crate::scalar::consts::{ONE, TWO, ZERO};
use crate::scalar::convert::lemma_unit;
use crate::scalar::order::lemma_one;
use crate::scalar::sums::{
    exact_size, exact_sum, lemma_exact_size, lemma_running_sum, running_sum, MOST_SUMMANDS,
};
use crate::scalar::{scalar, unit, Scalar};
use crate::sim::agent::{
    AgentState, AgentView, GoingHome, Home, NeedKind, Needs, Position, WalkTarget,
};
use crate::sim::city::{seg_dist2, BuildingView};
use crate::sim::city_ops::taxes_due;
use crate::sim::route::Ground;
use crate::sim::systems::needs::{decayed, dozed};
use crate::sim::systems::night::rested;
use crate::sim::systems::social::{chatting, has_company, socialized};
use crate::sim::systems::walk::dist2;
use crate::sim::world::{
    dwelling_ids, first_index, lemma_first, lemma_first_facts, BuildingRowView, DwellingRow,
    SimConfig, SimView,
};
use vstd::prelude::*;

verus! {

/// The rate at which a need drains.
pub open spec fn drain_rate(kind: NeedKind, cfg: SimConfig) -> Scalar {
    match kind {
        NeedKind::Fun => cfg.fun_decay,
        NeedKind::Bladder => cfg.bladder_decay,
        NeedKind::Hygiene => cfg.hygiene_decay,
        NeedKind::Comfort => cfg.comfort_decay,
        NeedKind::Sociability => cfg.sociability_decay,
        NeedKind::Energy => cfg.energy_decay,
        NeedKind::Hunger => cfg.hunger_decay,
    }
}

/// Every need drains at its own rate times the time, down to nothing at most,
/// and nothing but needs changes.
pub proof fn law_each_need_drains_at_its_rate(
    a: AgentView,
    dt: Scalar,
    cfg: SimConfig,
    kind: NeedKind,
)
    ensures
        decayed(a, dt, cfg) == (AgentView { needs: decayed(a, dt, cfg).needs, ..a }),
        ({
            let before = a.needs.get(kind);
            let after = decayed(a, dt, cfg).needs.get(kind);
            let rest = before.sub_spec(drain_rate(kind, cfg).mul_spec(dt));
            &&& scalar(ZERO).le_spec(rest) ==> after == rest
            &&& rest.le_spec(scalar(ZERO)) ==> after.num() == 0
        }),
{
    lemma_one();
}

/// The fields of needs are the needs that they are named after.
pub proof fn law_needs_are_told_apart(n: Needs)
    ensures
        n.get(NeedKind::Hunger) == n.hunger,
        n.get(NeedKind::Energy) == n.energy,
        n.get(NeedKind::Sociability) == n.sociability,
        n.get(NeedKind::Comfort) == n.comfort,
        n.get(NeedKind::Hygiene) == n.hygiene,
        n.get(NeedKind::Bladder) == n.bladder,
        n.get(NeedKind::Fun) == n.fun,
{
}

/// Restoring a need raises that one, up to 1 at most, and no other.
pub proof fn law_restoring_one_need(n: Needs, kind: NeedKind, other: NeedKind, amount: Scalar)
    ensures
        ({
            let sum = n.get(kind).add_spec(amount);
            let after = n.restored(kind, amount);
            &&& sum.le_spec(scalar(ONE)) ==> after.get(kind) == sum
            &&& scalar(ONE).lt_spec(sum) ==> after.get(kind) == scalar(ONE)
            &&& other != kind ==> after.get(other) == n.get(other)
        }),
{
}

/// The lowest need is one of the needs, and none is lower.
pub proof fn law_lowest_need(n: Needs, kind: NeedKind)
    requires
        forall|k: NeedKind| !(#[trigger] n.get(k)).is_nan_spec(),
    ensures
        n.lowest_spec().num() <= n.get(kind).num(),
        exists|k: NeedKind| #[trigger] n.get(k) == n.lowest_spec(),
{
    assert(!n.get(NeedKind::Hunger).is_nan_spec());
    assert(!n.get(NeedKind::Energy).is_nan_spec());
    assert(!n.get(NeedKind::Sociability).is_nan_spec());
    assert(!n.get(NeedKind::Comfort).is_nan_spec());
    assert(!n.get(NeedKind::Hygiene).is_nan_spec());
    assert(!n.get(NeedKind::Bladder).is_nan_spec());
    assert(!n.get(NeedKind::Fun).is_nan_spec());
}

/// By day nobody dozes. At night sleepers regain energy at the night rate and
/// the idle at half of it, up to 1; nobody else regains any, and nothing but
/// energy changes.
pub proof fn law_nights_restore_energy(a: AgentView, hour: u8, dt: Scalar, cfg: SimConfig)
    ensures
        ({
            let b = dozed(a, hour, dt, cfg);
            let full = a.needs.energy.add_spec(cfg.night_restore.mul_spec(dt));
            let half = a.needs.energy.add_spec(
                cfg.night_restore.div_spec(scalar(TWO)).mul_spec(dt),
            );
            let dark = hour >= 22 || hour <= 5;
            &&& b == AgentView { needs: Needs { energy: b.needs.energy, ..a.needs }, ..a }
            &&& dark && a.state == AgentState::Sleeping && full.le_spec(scalar(ONE))
                ==> b.needs.energy == full
            &&& dark && a.state == AgentState::Sleeping && scalar(ONE).le_spec(full)
                ==> b.needs.energy.num() == unit()
            &&& dark && a.state == AgentState::Idle && half.le_spec(scalar(ONE))
                ==> b.needs.energy == half
            &&& dark && a.state == AgentState::Idle && scalar(ONE).le_spec(half)
                ==> b.needs.energy.num() == unit()
            &&& !dark || (a.state != AgentState::Sleeping && a.state != AgentState::Idle) ==> b
                == a
        }),
{
    lemma_one();
}

/// Home `j` is the agent's: the first of that identity.
pub open spec fn is_home(homes: Seq<DwellingRow>, j: int, a: AgentView) -> bool {
    &&& 0 <= j < homes.len()
    &&& a.home == Some(Home(homes[j].id))
    &&& forall|i: int| 0 <= i < j ==> (#[trigger] homes[i]).id != homes[j].id
}

/// At night, whoever has a home, nothing to do and nowhere to go sets out for
/// it where it can be reached, and stays put where it cannot; everyone else
/// stays as they are.
pub proof fn law_nights_call_home(
    a: AgentView,
    ground: Ground,
    homes: Seq<DwellingRow>,
    hour: u8,
    j: int,
)
    requires
        hour >= 22 || hour <= 5,
        is_home(homes, j, a),
    ensures
        ({
            let d = homes[j].dwelling;
            let free = a.state == AgentState::Idle && a.queue.len() == 0 && a.target is None
                && a.going_home is None;
            let b = rested(a, ground, homes, hour);
            match ground.plan(a.pos, Position { x: d.x, z: d.z }) {
                Some(route) => if free {
                    b == (AgentView {
                        going_home: Some(GoingHome(homes[j].id)),
                        target: Some(WalkTarget { x: d.x, z: d.z, claim: None }),
                        route: Some(route),
                        state: AgentState::SeekGoal,
                        ..a
                    })
                } else {
                    b == a
                },
                None => b == a,
            }
        }),
{
    let ids = dwelling_ids(homes);
    assert forall|i: int| 0 <= i < j implies #[trigger] ids[i] != homes[j].id by {
        assert(homes[i].id != homes[j].id);
    }
    lemma_first(ids, homes[j].id, j);
}

/// By day sleepers wake and are idle, and everyone else stays as they are. At
/// night an idle agent whose home is gone forgets it.
pub proof fn law_days_wake_sleepers(
    a: AgentView,
    ground: Ground,
    homes: Seq<DwellingRow>,
    hour: u8,
)
    ensures
        ({
            let b = rested(a, ground, homes, hour);
            let dark = hour >= 22 || hour <= 5;
            &&& !dark && a.state == AgentState::Sleeping ==> b == AgentView {
                state: AgentState::Idle,
                ..a
            }
            &&& !dark && a.state != AgentState::Sleeping ==> b == a
            &&& dark && a.home is None ==> b == a
            &&& a.home matches Some(h) ==> (dark && (forall|j: int|
                0 <= j < homes.len() ==> (#[trigger] homes[j]).id != h.0) && a.state
                == AgentState::Idle && a.queue.len() == 0 && a.target is None && a.going_home is None
                ==> b == AgentView { home: None, ..a })
        }),
{
    if let Some(h) = a.home {
        let ids = dwelling_ids(homes);
        lemma_first_facts(ids, h.0);
        if let Some(j) = first_index(ids, h.0) {
            assert(homes[j].id == h.0);
        }
    }
}

/// Two agents keep each other company: both are idle or chatting, none of
/// their needs is urgent, and they stand within the chat radius.
pub open spec fn keep_company(a: AgentView, b: AgentView, cfg: SimConfig) -> bool {
    &&& a.state == AgentState::Idle || a.state == AgentState::Socialize
    &&& b.state == AgentState::Idle || b.state == AgentState::Socialize
    &&& forall|k: NeedKind| !(#[trigger] a.needs.get(k)).lt_spec(cfg.chat_break)
    &&& forall|k: NeedKind| !(#[trigger] b.needs.get(k)).lt_spec(cfg.chat_break)
    &&& dist2(a.pos.x, a.pos.z, b.pos).le_spec(cfg.chat_radius.mul_spec(cfg.chat_radius))
}

proof fn lemma_mood(a: AgentView, cfg: SimConfig)
    requires
        is_sound(a),
    ensures
        a.needs.lowest_spec().lt_spec(cfg.chat_break) == exists|k: NeedKind|
            (#[trigger] a.needs.get(k)).lt_spec(cfg.chat_break),
{
    assert forall|k: NeedKind| !(#[trigger] a.needs.get(k)).is_nan_spec() by {
        assert(a.needs.get(k).in_unit());
    }
    if exists|k: NeedKind| (#[trigger] a.needs.get(k)).lt_spec(cfg.chat_break) {
        let k = choose|k: NeedKind| (#[trigger] a.needs.get(k)).lt_spec(cfg.chat_break);
        law_lowest_need(a.needs, k);
    }
    law_lowest_need(a.needs, NeedKind::Fun);
    let k = choose|k: NeedKind| #[trigger] a.needs.get(k) == a.needs.lowest_spec();
    assert(a.needs.get(k) == a.needs.lowest_spec());
}

proof fn lemma_company(agents: Seq<AgentView>, i: int, j: int, cfg: SimConfig)
    requires
        0 <= i < agents.len(),
        0 <= j < agents.len(),
        is_sound(agents[i]),
        is_sound(agents[j]),
    ensures
        chatting(agents, i, j, cfg) == (i != j && keep_company(agents[i], agents[j], cfg)),
{
    lemma_mood(agents[i], cfg);
    lemma_mood(agents[j], cfg);
    law_distance_is_symmetric(agents[i].pos, agents[j].pos);
}

/// Whoever has company chats and regains sociability at the chat rate, up to 1;
/// whoever is idle or chatting without company is idle; everyone else stays as
/// they are. Nothing but state and sociability changes.
pub proof fn law_company_makes_chats(agents: Seq<AgentView>, i: int, dt: Scalar, cfg: SimConfig)
    requires
        0 <= i < agents.len(),
        forall|k: int| 0 <= k < agents.len() ==> is_sound(#[trigger] agents[k]),
    ensures
        ({
            let a = agents[i];
            let b = socialized(agents, i, dt, cfg);
            let more = a.needs.sociability.add_spec(cfg.chat_restore.mul_spec(dt));
            let company = exists|j: int|
                0 <= j < agents.len() && j != i && #[trigger] keep_company(a, agents[j], cfg);
            &&& b == AgentView {
                state: b.state,
                needs: Needs { sociability: b.needs.sociability, ..a.needs },
                ..a
            }
            &&& company ==> b.state == AgentState::Socialize
            &&& company && more.le_spec(scalar(ONE)) ==> b.needs.sociability == more
            &&& company && scalar(ONE).le_spec(more) ==> b.needs.sociability.num() == unit()
            &&& !company ==> b.needs == a.needs
            &&& !company && (a.state == AgentState::Idle || a.state == AgentState::Socialize)
                ==> b.state == AgentState::Idle
            &&& a.state != AgentState::Idle && a.state != AgentState::Socialize ==> b == a
        }),
{
    lemma_one();
    let a = agents[i];
    assert(is_sound(a));
    if has_company(agents, i, cfg) {
        let j = choose|j: int| 0 <= j < agents.len() && #[trigger] chatting(agents, i, j, cfg);
        assert(is_sound(agents[j]));
        lemma_company(agents, i, j, cfg);
        assert(keep_company(a, agents[j], cfg));
    }
    if exists|j: int|
        0 <= j < agents.len() && j != i && #[trigger] keep_company(a, agents[j], cfg) {
        let j = choose|j: int|
            0 <= j < agents.len() && j != i && #[trigger] keep_company(a, agents[j], cfg);
        assert(is_sound(agents[j]));
        lemma_company(agents, i, j, cfg);
        assert(chatting(agents, i, j, cfg));
    }
}

/// Chats are mutual: the partner chats too.
pub proof fn law_chats_are_mutual(
    agents: Seq<AgentView>,
    i: int,
    j: int,
    dt: Scalar,
    cfg: SimConfig,
)
    requires
        0 <= i < agents.len(),
        0 <= j < agents.len(),
        i != j,
        is_sound(agents[i]),
        is_sound(agents[j]),
        keep_company(agents[i], agents[j], cfg),
    ensures
        keep_company(agents[j], agents[i], cfg),
        socialized(agents, i, dt, cfg).state == AgentState::Socialize,
        socialized(agents, j, dt, cfg).state == AgentState::Socialize,
{
    law_distance_is_symmetric(agents[i].pos, agents[j].pos);
    lemma_company(agents, i, j, cfg);
    lemma_company(agents, j, i, cfg);
    assert(chatting(agents, i, j, cfg) && chatting(agents, j, i, cfg));
}

/// A point lies within six units of some stretch of some road.
pub open spec fn has_road_near(p: Position, roads: Seq<Seq<Position>>) -> bool {
    exists|r: int, w: int|
        0 <= r < roads.len() && 0 <= w && w + 1 < roads[r].len() && (#[trigger] seg_dist2(
            p,
            roads[r][w],
            roads[r][w + 1],
        )).sqrt_spec().le_spec(scalar(0x40c0_0000 /* 6 */))
}

/// The building stands by a road: its center or one of its corners does.
pub open spec fn stands_by_road(b: BuildingView, roads: Seq<Seq<Position>>) -> bool {
    ||| has_road_near(b.center(), roads)
    ||| has_road_near(Position { x: b.min_x, z: b.min_z }, roads)
    ||| has_road_near(Position { x: b.min_x, z: b.max_z }, roads)
    ||| has_road_near(Position { x: b.max_x, z: b.min_z }, roads)
    ||| has_road_near(Position { x: b.max_x, z: b.max_z }, roads)
}

proof fn lemma_access(b: BuildingView, roads: Seq<Seq<Position>>)
    ensures
        b.has_access(roads) == stands_by_road(b, roads),
{
    let probes = b.probes();
    if b.has_access(roads) {
        let (k, r, w) = choose|k: int, r: int, w: int|
            0 <= k < 5 && 0 <= r < roads.len() && 0 <= w < roads[r].len() - 1
                && #[trigger] crate::sim::city::near_segment(probes[k], roads[r], w);
        let p = probes[k];
        assert(seg_dist2(p, roads[r][w], roads[r][w + 1]).sqrt_spec().le_spec(
            scalar(0x40c0_0000),
        ));
        assert(has_road_near(p, roads));
        assert(k == 0 || k == 1 || k == 2 || k == 3 || k == 4);
    }
    if stands_by_road(b, roads) {
        let k = if has_road_near(b.center(), roads) {
            0int
        } else if has_road_near(Position { x: b.min_x, z: b.min_z }, roads) {
            1
        } else if has_road_near(Position { x: b.max_x, z: b.min_z }, roads) {
            2
        } else if has_road_near(Position { x: b.min_x, z: b.max_z }, roads) {
            3
        } else {
            4
        };
        let p = probes[k];
        assert(has_road_near(p, roads));
        let (r, w) = choose|r: int, w: int|
            0 <= r < roads.len() && 0 <= w && w + 1 < roads[r].len() && (#[trigger] seg_dist2(
                p,
                roads[r][w],
                roads[r][w + 1],
            )).sqrt_spec().le_spec(scalar(0x40c0_0000));
        assert(crate::sim::city::near_segment(probes[k], roads[r], w));
    }
}

/// A building by a road grows by two hundredths a second, up to 1; any other
/// decays by five thousandths a second, down to 0. Nothing else of it changes.
pub proof fn law_roads_develop_buildings(
    b: BuildingView,
    roads: Seq<Seq<Position>>,
    dt: Scalar,
)
    ensures
        ({
            let c = b.developed(roads, dt);
            let more = b.development.add_spec(scalar(0x3ca3_d70a /* 0.02 */).mul_spec(dt));
            let less = b.development.sub_spec(scalar(0x3ba3_d70a /* 0.005 */).mul_spec(dt));
            &&& c == BuildingView { development: c.development, ..b }
            &&& stands_by_road(b, roads) && more.le_spec(scalar(ONE)) ==> c.development == more
            &&& stands_by_road(b, roads) && scalar(ONE).le_spec(more) ==> c.development.num()
                == unit()
            &&& !stands_by_road(b, roads) && scalar(ZERO).le_spec(less) ==> c.development == less
            &&& !stands_by_road(b, roads) && less.le_spec(scalar(ZERO)) ==> c.development.num()
                == 0
        }),
{
    lemma_one();
    lemma_access(b, roads);
}

/// Another road never takes access away.
pub proof fn law_more_roads_never_hurt(
    b: BuildingView,
    roads: Seq<Seq<Position>>,
    line: Seq<Position>,
)
    requires
        b.has_access(roads),
    ensures
        b.has_access(roads.push(line)),
{
    let (k, r, w) = choose|k: int, r: int, w: int|
        0 <= k < 5 && 0 <= r < roads.len() && 0 <= w < roads[r].len() - 1
            && #[trigger] crate::sim::city::near_segment(b.probes()[k], roads[r], w);
    let more = roads.push(line);
    assert(more[r] == roads[r]);
    assert(crate::sim::city::near_segment(b.probes()[k], more[r], w));
}

/// What a building owes a day: five dollars for each head that it holds, times
/// its development.
pub open spec fn dues(b: BuildingView) -> Scalar {
    scalar(0x40a0_0000 /* 5 */).mul_spec(Scalar::from_int_spec(b.capacity as int)).mul_spec(
        b.development,
    )
}

/// What the first `k` buildings owe together, exactly.
pub open spec fn all_dues(buildings: Seq<BuildingRowView>, k: int) -> int
    decreases k,
{
    if k <= 0 {
        0
    } else {
        all_dues(buildings, k - 1) + dues(buildings[k - 1].building).num()
    }
}

proof fn lemma_taxes(buildings: Seq<BuildingRowView>, k: int)
    requires
        0 <= k <= buildings.len(),
        forall|i: int|
            0 <= i < buildings.len() ==> dues((#[trigger] buildings[i]).building).num() >= 0,
    ensures
        ({
            let list = buildings.map_values(|b: BuildingRowView| dues(b.building));
            &&& taxes_due(buildings, k) == running_sum(list, k)
            &&& all_dues(buildings, k) == exact_sum(list, k)
            &&& exact_size(list, k) == exact_sum(list, k)
        }),
    decreases k,
{
    if k > 0 {
        lemma_taxes(buildings, k - 1);
        let b = buildings[k - 1];
        assert(dues(b.building).num() >= 0);
    }
}

/// Every building pays: what is due is the sum of what all of them owe, up to
/// rounding, which is few parts in two to the 24 for each of them.
pub proof fn law_every_building_pays(buildings: Seq<BuildingRowView>)
    requires
        buildings.len() <= MOST_SUMMANDS,
        forall|i: int|
            0 <= i < buildings.len() ==> dues((#[trigger] buildings[i]).building).within(40)
                && dues(buildings[i].building).num() >= 0,
    ensures
        ({
            let n = buildings.len() as int;
            let all = all_dues(buildings, n);
            &&& taxes_due(buildings, n).within(62)
            &&& abs_int(taxes_due(buildings, n).num() - all) * PRECISION <= 6 * n * all
            &&& 2 * abs_int(taxes_due(buildings, n).num() - all) <= all
        }),
{
    let n = buildings.len() as int;
    let list = buildings.map_values(|b: BuildingRowView| dues(b.building));
    lemma_taxes(buildings, n);
    assert forall|i: int| 0 <= i < list.len() implies (#[trigger] list[i]).within(40) by {
        assert(dues(buildings[i].building).within(40));
    }
    lemma_running_sum(list, n);
    lemma_exact_size(list, n);
}

/// When the clock passes midnight the taxes go to the treasury, all of them,
/// and to nobody else.
pub proof fn law_midnight_collects_taxes(s: SimView, hour: u8)
    requires
        hour < s.hour < 24,
        s.day < u32::MAX,
        s.buildings.len() <= MOST_SUMMANDS,
        forall|i: int|
            0 <= i < s.buildings.len() ==> dues((#[trigger] s.buildings[i]).building).within(40)
                && dues(s.buildings[i].building).num() >= 0,
        all_dues(s.buildings, s.buildings.len() as int) <= 0x1_0000_0000 * unit(),
        s.treasury.frac.within(0),
        -0x1000_0000_0000_0000 <= s.treasury.cents <= 0x1000_0000_0000_0000,
    ensures
        ({
            let t = s.at_hour(hour);
            let n = s.buildings.len() as int;
            let all = all_dues(s.buildings, n);
            &&& t.hour == hour && t.day == s.day + 1 && t.funds == s.funds
            &&& t.buildings == s.buildings && t.agents == s.agents
            &&& abs_int(holdings(t.treasury) - (holdings(s.treasury) + 100 * all)) * PRECISION
                <= 600 * n * all + 0x100 * (200 * all + abs_int(s.treasury.frac.num()) + unit())
        }),
{
    let t = s.at_hour(hour);
    let n = s.buildings.len() as int;
    law_every_building_pays(s.buildings);
    let sum = taxes_due(s.buildings, n);
    let all = all_dues(s.buildings, n);
    lemma_unit();
    vstd::arithmetic::power2::lemma2_to64();
    vstd::arithmetic::power2::lemma_pow2_adds(32, 8);
    assert(sum.within(40));
    law_credit_reaches_the_account(s.treasury, sum);
    let e = abs_int(sum.num() - all) as int;
    let h = holdings(t.treasury);
    let g = holdings(s.treasury);
    let f = abs_int(h - (g + 100 * sum.num())) as int;
    assert(abs_int(h - (g + 100 * all)) <= f + 100 * e);
    assert(f * PRECISION <= 0x100 * (f * 0x1_0000));
    assert(100 * e * PRECISION <= 600 * n * all) by (nonlinear_arith)
        requires
            e * PRECISION <= 6 * n * all,
    ;
    assert(abs_int(sum.num()) <= 2 * all);
}

} // verus!
