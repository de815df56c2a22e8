//! Needs, skills and development stay in 0..=1.

use super::autonomy::law_decisions;
use crate::scalar::arith::abs_int;
use crate::scalar::bounds::lemma_sum;
use crate::scalar::consts::{ONE, TWO, TWO_HUNDREDTHS, ZERO};
use crate::scalar::convert::lemma_representable;
use crate::scalar::order::{
    lemma_add_nonnegative, lemma_capped, lemma_div_nonnegative, lemma_floored,
    lemma_mul_nonnegative, lemma_nearest_monotone, lemma_one, lemma_sub_decreases,
    lemma_unit_finite,
};
use crate::scalar::round::lemma_magnitude_increases;
use crate::scalar::{scalar, Scalar, INF_PATTERN};
use crate::sim::agent::{AgentView, NeedKind, Needs, Skills};
use crate::sim::city::{BuildingView, DEVELOP_RATE, NEGLECT_RATE};
use crate::sim::goal::GoalView;
use crate::sim::systems::autonomy::{claimed, decided};
use crate::sim::systems::needs::{decayed, dozed, drained, refilled};
use crate::sim::systems::social::socialized;
use crate::sim::systems::walk::{fed, nearest_goal, practised, walked_and_arrived, Places};
use crate::sim::world::{GoalRowView, SimConfig, SimView};
use vstd::prelude::*;

verus! {

/// All needs and skills lie in 0..=1.
pub open spec fn is_sound(a: AgentView) -> bool {
    &&& forall|k: NeedKind| (#[trigger] a.needs.get(k)).in_unit()
    &&& a.skills.cooking.in_unit()
    &&& a.skills.charisma.in_unit()
}

pub open spec fn all_sound(agents: Seq<AgentView>) -> bool {
    forall|i: int| 0 <= i < agents.len() ==> is_sound(#[trigger] agents[i])
}

/// No rate is negative.
pub open spec fn tuning_is_sound(cfg: SimConfig) -> bool {
    &&& cfg.hunger_decay.is_nonnegative()
    &&& cfg.energy_decay.is_nonnegative()
    &&& cfg.sociability_decay.is_nonnegative()
    &&& cfg.comfort_decay.is_nonnegative()
    &&& cfg.hygiene_decay.is_nonnegative()
    &&& cfg.bladder_decay.is_nonnegative()
    &&& cfg.fun_decay.is_nonnegative()
    &&& cfg.night_restore.is_nonnegative()
    &&& cfg.chat_restore.is_nonnegative()
}

/// No ad takes away from a need.
pub open spec fn ads_give(ads: Seq<(NeedKind, Scalar)>) -> bool {
    forall|k: int| 0 <= k < ads.len() ==> (#[trigger] ads[k]).1.is_nonnegative()
}

pub open spec fn goals_give(goals: Seq<GoalRowView>) -> bool {
    forall|j: int| 0 <= j < goals.len() ==> ads_give((#[trigger] goals[j]).goal.ads)
}

proof fn lemma_drained(v: Scalar, rate: Scalar, dt: Scalar)
    requires
        v.in_unit(),
        rate.is_nonnegative(),
        dt.is_nonnegative(),
    ensures
        drained(v, rate, dt).in_unit(),
{
    lemma_mul_nonnegative(rate, dt);
    lemma_unit_finite(v);
    lemma_sub_decreases(v, rate.mul_spec(dt));
    lemma_floored(v.sub_spec(rate.mul_spec(dt)));
}

proof fn lemma_refilled(v: Scalar, rate: Scalar, dt: Scalar)
    requires
        v.in_unit(),
        rate.is_nonnegative(),
        dt.is_nonnegative(),
    ensures
        refilled(v, rate, dt).in_unit(),
{
    lemma_mul_nonnegative(rate, dt);
    lemma_add_nonnegative(v, rate.mul_spec(dt));
    lemma_capped(v.add_spec(rate.mul_spec(dt)));
}

proof fn lemma_decayed(a: AgentView, dt: Scalar, cfg: SimConfig)
    requires
        is_sound(a),
        tuning_is_sound(cfg),
        dt.is_nonnegative(),
    ensures
        is_sound(decayed(a, dt, cfg)),
{
    lemma_drained(a.needs.get(NeedKind::Hunger), cfg.hunger_decay, dt);
    lemma_drained(a.needs.get(NeedKind::Energy), cfg.energy_decay, dt);
    lemma_drained(a.needs.get(NeedKind::Sociability), cfg.sociability_decay, dt);
    lemma_drained(a.needs.get(NeedKind::Comfort), cfg.comfort_decay, dt);
    lemma_drained(a.needs.get(NeedKind::Hygiene), cfg.hygiene_decay, dt);
    lemma_drained(a.needs.get(NeedKind::Bladder), cfg.bladder_decay, dt);
    lemma_drained(a.needs.get(NeedKind::Fun), cfg.fun_decay, dt);
}

/// These needs with one set to a value in 0..=1 stay sound.
proof fn lemma_with(n: Needs, kind: NeedKind, v: Scalar)
    requires
        forall|k: NeedKind| (#[trigger] n.get(k)).in_unit(),
        v.in_unit(),
    ensures
        forall|k: NeedKind| (#[trigger] n.with(kind, v).get(k)).in_unit(),
{
    assert forall|k: NeedKind| (#[trigger] n.with(kind, v).get(k)).in_unit() by {
        if k != kind {
            assert(n.with(kind, v).get(k) == n.get(k));
        }
    }
}

proof fn lemma_dozed(a: AgentView, hour: u8, dt: Scalar, cfg: SimConfig)
    requires
        is_sound(a),
        tuning_is_sound(cfg),
        dt.is_nonnegative(),
    ensures
        is_sound(dozed(a, hour, dt, cfg)),
{
    let full = refilled(a.needs.energy, cfg.night_restore, dt);
    let half = refilled(a.needs.energy, cfg.night_restore.div_spec(scalar(TWO)), dt);
    assert(a.needs.get(NeedKind::Energy).in_unit());
    lemma_refilled(a.needs.energy, cfg.night_restore, dt);
    lemma_div_nonnegative(cfg.night_restore, scalar(TWO));
    lemma_refilled(a.needs.energy, cfg.night_restore.div_spec(scalar(TWO)), dt);
    lemma_with(a.needs, NeedKind::Energy, full);
    lemma_with(a.needs, NeedKind::Energy, half);
    let b = dozed(a, hour, dt, cfg);
    assert(b.needs == a.needs || b.needs == a.needs.with(NeedKind::Energy, full) || b.needs
        == a.needs.with(NeedKind::Energy, half));
}

proof fn lemma_fed(needs: Needs, skills: Skills, ads: Seq<(NeedKind, Scalar)>, k: int)
    requires
        forall|kind: NeedKind| (#[trigger] needs.get(kind)).in_unit(),
        skills.cooking.in_unit(),
        skills.charisma.in_unit(),
        ads_give(ads),
        k <= ads.len(),
    ensures
        forall|kind: NeedKind| (#[trigger] fed(needs, skills, ads, k).get(kind)).in_unit(),
    decreases k,
{
    if k > 0 {
        lemma_fed(needs, skills, ads, k - 1);
        let before = fed(needs, skills, ads, k - 1);
        let (kind, amount) = ads[k - 1];
        let f = skills.factor_spec(kind);
        lemma_one();
        lemma_add_nonnegative(scalar(ONE), skills.cooking);
        lemma_add_nonnegative(scalar(ONE), skills.charisma);
        assert(f.is_nonnegative());
        lemma_mul_nonnegative(amount, f);
        assert(before.get(kind).in_unit());
        lemma_add_nonnegative(before.get(kind), amount.mul_spec(f));
        let v = before.get(kind).add_spec(amount.mul_spec(f));
        lemma_capped(v);
        lemma_with(before, kind, v.min_spec(scalar(ONE)));
    }
}

proof fn lemma_practised(skills: Skills, ads: Seq<(NeedKind, Scalar)>, k: int)
    requires
        skills.cooking.in_unit(),
        skills.charisma.in_unit(),
    ensures
        practised(skills, ads, k).cooking.in_unit(),
        practised(skills, ads, k).charisma.in_unit(),
    decreases k,
{
    if k > 0 {
        lemma_practised(skills, ads, k - 1);
        let s = practised(skills, ads, k - 1);
        lemma_add_nonnegative(s.cooking, scalar(TWO_HUNDREDTHS));
        lemma_add_nonnegative(s.charisma, scalar(TWO_HUNDREDTHS));
        lemma_capped(s.cooking.add_spec(scalar(TWO_HUNDREDTHS)));
        lemma_capped(s.charisma.add_spec(scalar(TWO_HUNDREDTHS)));
    }
}

proof fn lemma_arrived(a: AgentView, places: Places, dt: Scalar, cfg: SimConfig)
    requires
        is_sound(a),
        goals_give(places.goals),
    ensures
        is_sound(walked_and_arrived(a, places, dt, cfg)),
{
    let n = places.goals.len() as int;
    crate::sim::systems::walk::lemma_nearest_index(places.goals, n, a.pos, cfg.arrive_dist);
    if let Some(best) = nearest_goal(places.goals, n, a.pos, cfg.arrive_dist) {
        let ads = places.goals[best.1].goal.ads;
        lemma_fed(a.needs, a.skills, ads, ads.len() as int);
        lemma_practised(a.skills, ads, ads.len() as int);
    }
}

proof fn lemma_socialized(agents: Seq<AgentView>, i: int, dt: Scalar, cfg: SimConfig)
    requires
        0 <= i < agents.len(),
        is_sound(agents[i]),
        tuning_is_sound(cfg),
        dt.is_nonnegative(),
    ensures
        is_sound(socialized(agents, i, dt, cfg)),
{
    let a = agents[i];
    assert(a.needs.get(NeedKind::Sociability).in_unit());
    lemma_refilled(a.needs.sociability, cfg.chat_restore, dt);
    let v = refilled(a.needs.sociability, cfg.chat_restore, dt);
    lemma_with(a.needs, NeedKind::Sociability, v);
    let b = socialized(agents, i, dt, cfg);
    assert(b.needs == a.needs || b.needs == a.needs.with(NeedKind::Sociability, v));
}

/// Claims change neither what goals advertise nor how many there are.
pub proof fn lemma_claimed_ads(
    goals: Seq<GoalRowView>,
    agents: Seq<AgentView>,
    picks: Seq<Option<crate::sim::systems::autonomy::Pick>>,
    k: int,
)
    requires
        forall|i: int|
            0 <= i < k ==> ((#[trigger] picks[i]) matches Some(p) ==> p.goal < goals.len()),
    ensures
        claimed(goals, agents, picks, k).len() == goals.len(),
        forall|j: int|
            0 <= j < goals.len() ==> (#[trigger] claimed(goals, agents, picks, k)[j])
                == (GoalRowView {
                goal: GoalView {
                    claimed_by: claimed(goals, agents, picks, k)[j].goal.claimed_by,
                    ..goals[j].goal
                },
                ..goals[j]
            }),
    decreases k,
{
    if k > 0 {
        lemma_claimed_ads(goals, agents, picks, k - 1);
    }
}

/// A tick keeps every need and skill in 0..=1, in a city whose rates are not
/// negative and whose goals only give.
pub proof fn law_step_keeps_needs_in_range(s: SimView, dt: Scalar)
    requires
        all_sound(s.agents),
        tuning_is_sound(s.config),
        goals_give(s.goals),
        s.goals.len() <= usize::MAX,
        dt.is_nonnegative(),
    ensures
        all_sound(s.stepped(dt).agents),
{
    let s1 = s.after_decay(dt);
    assert forall|i: int| 0 <= i < s1.agents.len() implies is_sound(#[trigger] s1.agents[i]) by {
        lemma_decayed(s.agents[i], dt, s.config);
    }
    let s2 = s1.after_doze(dt);
    assert forall|i: int| 0 <= i < s2.agents.len() implies is_sound(#[trigger] s2.agents[i]) by {
        lemma_dozed(s1.agents[i], s.hour, dt, s.config);
    }
    let s3 = s2.after_work(dt);
    assert forall|i: int| 0 <= i < s3.agents.len() implies is_sound(#[trigger] s3.agents[i]) by {
        assert(is_sound(s2.agents[i]));
    }
    let s4 = s3.after_night_rest();
    assert forall|i: int| 0 <= i < s4.agents.len() implies is_sound(#[trigger] s4.agents[i]) by {
        assert(is_sound(s3.agents[i]));
    }
    let s5 = s4.after_development(dt);
    let s6 = s5.after_orders();
    assert forall|i: int| 0 <= i < s6.agents.len() implies is_sound(#[trigger] s6.agents[i]) by {
        assert(is_sound(s5.agents[i]));
    }
    let s7 = s6.after_assignment();
    assert forall|i: int| 0 <= i < s7.agents.len() implies is_sound(#[trigger] s7.agents[i]) by {
        assert(is_sound(s6.agents[i]));
    }
    let d = decided(s6.ground, s6.agents, s6.goals, s6.rng, s6.agents.len() as int);
    law_decisions(s6.ground, s6.agents, s6.goals, s6.rng, s6.agents.len() as int);
    lemma_claimed_ads(s6.goals, s6.agents, d.picks, s6.agents.len() as int);
    assert(goals_give(s7.goals)) by {
        assert forall|j: int| 0 <= j < s7.goals.len() implies ads_give(
            (#[trigger] s7.goals[j]).goal.ads,
        ) by {
            assert(ads_give(s.goals[j].goal.ads));
        }
    }
    let s8 = s7.after_walk(dt);
    let places = Places {
        goals: s7.goals,
        workplaces: s7.workplaces,
        dwellings: s7.dwellings,
        hour: s7.hour,
    };
    assert forall|i: int| 0 <= i < s8.agents.len() implies is_sound(#[trigger] s8.agents[i]) by {
        lemma_arrived(s7.agents[i], places, dt, s.config);
    }
    let s9 = s8.after_chat(dt);
    assert forall|i: int| 0 <= i < s9.agents.len() implies is_sound(#[trigger] s9.agents[i]) by {
        lemma_socialized(s8.agents, i, dt, s.config);
    }
}

/// A newly spawned agent has all its needs and skills in 0..=1.
pub proof fn law_spawned_agents_are_sound(
    s: SimView,
    pos: crate::sim::agent::Position,
    personality: crate::sim::agent::Personality,
)
    requires
        all_sound(s.agents),
    ensures
        all_sound(s.spawned_agent(pos, personality).agents),
{
    use_one();
    let t = s.spawned_agent(pos, personality);
    assert forall|i: int| 0 <= i < t.agents.len() implies is_sound(#[trigger] t.agents[i]) by {
        if i < s.agents.len() {
            assert(t.agents[i] == s.agents[i]);
        } else {
            assert forall|k: NeedKind| (#[trigger] t.agents[i].needs.get(k)).in_unit() by {}
        }
    }
}

proof fn use_one()
    ensures
        scalar(ZERO).in_unit(),
        scalar(crate::scalar::consts::EIGHT_TENTHS).in_unit(),
{
    lemma_one();
    crate::scalar::round::lemma_magnitude_increases(
        crate::scalar::consts::EIGHT_TENTHS as nat,
        ONE as nat,
    );
}

/// Development of every building stays in 0..=1 through a tick.
pub proof fn law_step_keeps_development_in_range(s: SimView, dt: Scalar)
    requires
        dt.is_nonnegative(),
        forall|i: int|
            0 <= i < s.buildings.len() ==> (
            #[trigger] s.buildings[i]).building.development.in_unit(),
    ensures
        forall|i: int|
            0 <= i < s.stepped(dt).buildings.len() ==> (
            #[trigger] s.stepped(dt).buildings[i]).building.development.in_unit(),
{
    let t = s.stepped(dt);
    assert forall|i: int| 0 <= i < t.buildings.len() implies (
    #[trigger] t.buildings[i]).building.development.in_unit() by {
        lemma_developed(s.buildings[i].building, s.ground.roads, dt);
    }
}

proof fn lemma_developed(
    b: BuildingView,
    roads: Seq<Seq<crate::sim::agent::Position>>,
    dt: Scalar,
)
    requires
        dt.is_nonnegative(),
        b.development.in_unit(),
    ensures
        b.developed(roads, dt).development.in_unit(),
{
    lemma_refilled(b.development, scalar(DEVELOP_RATE), dt);
    lemma_drained(b.development, scalar(NEGLECT_RATE), dt);
}

/// Refilling a value in 0..=1 does not lower it.
proof fn lemma_refilled_grows(v: Scalar, rate: Scalar, dt: Scalar)
    requires
        v.in_unit(),
        rate.is_nonnegative(),
        dt.is_nonnegative(),
    ensures
        refilled(v, rate, dt).num() >= v.num(),
{
    let more = rate.mul_spec(dt);
    lemma_mul_nonnegative(rate, dt);
    lemma_one();
    lemma_unit_finite(v);
    if more.is_finite_spec() {
        lemma_sum(v, more);
        lemma_nearest_monotone(abs_int(v.num()), 1, abs_int(v.num() + more.num()), 1);
        lemma_representable(v.pattern());
        lemma_magnitude_increases(v.pattern(), v.add_spec(more).pattern());
    } else {
        reveal(Scalar::add_spec);
        lemma_magnitude_increases(ONE as nat, INF_PATTERN as nat);
    }
}

/// Chat and dozing never lower a need: sociability and energy stay or grow,
/// and the other needs stay.
pub proof fn law_rest_never_hurts(
    agents: Seq<AgentView>,
    i: int,
    hour: u8,
    dt: Scalar,
    cfg: SimConfig,
    kind: NeedKind,
)
    requires
        0 <= i < agents.len(),
        is_sound(agents[i]),
        tuning_is_sound(cfg),
        dt.is_nonnegative(),
    ensures
        socialized(agents, i, dt, cfg).needs.get(kind).num() >= agents[i].needs.get(kind).num(),
        dozed(agents[i], hour, dt, cfg).needs.get(kind).num() >= agents[i].needs.get(kind).num(),
{
    let a = agents[i];
    assert(a.needs.get(NeedKind::Sociability).in_unit());
    assert(a.needs.get(NeedKind::Energy).in_unit());
    lemma_refilled_grows(a.needs.sociability, cfg.chat_restore, dt);
    lemma_refilled_grows(a.needs.energy, cfg.night_restore, dt);
    lemma_div_nonnegative(cfg.night_restore, scalar(TWO));
    lemma_refilled_grows(a.needs.energy, cfg.night_restore.div_spec(scalar(TWO)), dt);
}

} // verus!
