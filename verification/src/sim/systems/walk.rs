//! Walking, and what happens on arrival.

use crate::scalar::consts::TWO;
use crate::scalar::{scalar, Scalar};
use crate::sim::agent::{
    Agent, AgentState, AgentView, NeedKind, Needs, Position, Skills, WalkTarget,
};
use crate::sim::city::{is_night, night};
use crate::sim::world::{
    agent_views, dwelling_at, find_dwelling, find_goal, find_workplace, first_index, goal_ids,
    goal_views, workplace_at, DwellingRow, GoalRow, GoalRowView, SimConfig, WorkplaceRow,
};
use crate::sim::goal::GoalView;
use crate::sim::Entity;
use vstd::prelude::*;

verus! {

/// Squared distance between two points, each coordinate taken from the
/// first.
pub open spec fn dist2(x: Scalar, z: Scalar, p: Position) -> Scalar {
    let dx = x.sub_spec(p.x);
    let dz = z.sub_spec(p.z);
    dx.mul_spec(dx).add_spec(dz.mul_spec(dz))
}

pub(crate) fn distance2(x: Scalar, z: Scalar, p: Position) -> (r: Scalar)
    ensures
        r == dist2(x, z, p),
{
    let dx: Scalar = x.sub(p.x);
    let dz: Scalar = z.sub(p.z);
    dx.mul(dx).add(dz.mul(dz))
}

/// Squared reach of an arrived agent: twice the arrival distance, squared.
pub open spec fn reach2(arrive: Scalar) -> Scalar {
    arrive.mul_spec(scalar(TWO)).mul_spec(arrive.mul_spec(scalar(TWO)))
}

pub(crate) fn reach_squared(arrive: Scalar) -> (r: Scalar)
    ensures
        r == reach2(arrive),
{
    let d: Scalar = arrive.mul(scalar(TWO));
    d.mul(d)
}

/// Where a walking agent heads: the front waypoint, or the exact target when
/// the route is spent.
pub open spec fn heading(a: AgentView, t: WalkTarget) -> Position {
    match a.route {
        Some(r) => if r.len() > 0 {
            r[0]
        } else {
            Position { x: t.x, z: t.z }
        },
        None => Position { x: t.x, z: t.z },
    }
}

/// Waypoints are left.
pub open spec fn has_waypoints(a: AgentView) -> bool {
    a.route matches Some(r) && r.len() > 0
}

/// Distance from a walking agent to where it heads.
pub open spec fn way_left(a: AgentView, t: WalkTarget) -> Scalar {
    let dest = heading(a, t);
    let dx = dest.x.sub_spec(a.pos.x);
    let dz = dest.z.sub_spec(a.pos.z);
    dx.mul_spec(dx).add_spec(dz.mul_spec(dz)).sqrt_spec()
}

/// The agent walks: it seeks a goal and has a target.
pub open spec fn is_walking(a: AgentView) -> bool {
    a.state == AgentState::SeekGoal && a.target is Some
}

/// A walking agent has reached its target.
pub open spec fn is_done(a: AgentView, cfg: SimConfig) -> bool {
    &&& is_walking(a)
    &&& !has_waypoints(a)
    &&& way_left(a, a.target->0).le_spec(cfg.arrive_dist)
}

/// The agent after a walk of `dt` seconds: a reached waypoint is dropped,
/// otherwise it moves towards where it heads, without overshooting.
pub open spec fn walked(a: AgentView, dt: Scalar, cfg: SimConfig) -> AgentView {
    if !is_walking(a) {
        a
    } else {
        let t = a.target->0;
        let left = way_left(a, t);
        if left.le_spec(cfg.arrive_dist) {
            if has_waypoints(a) {
                AgentView { route: Some(a.route->0.drop_first()), ..a }
            } else {
                a
            }
        } else {
            let dest = heading(a, t);
            let step = cfg.walk_speed.mul_spec(dt).min_spec(left);
            AgentView {
                pos: Position {
                    x: a.pos.x.add_spec(
                        dest.x.sub_spec(a.pos.x).div_spec(left).mul_spec(step),
                    ),
                    z: a.pos.z.add_spec(
                        dest.z.sub_spec(a.pos.z).div_spec(left).mul_spec(step),
                    ),
                },
                ..a
            }
        }
    }
}

/// Walk one agent; true when it has reached its target.
fn walk_one(a: &mut Agent, dt: Scalar, cfg: &SimConfig) -> (done: bool)
    ensures
        final(a)@ == walked(old(a)@, dt, *cfg),
        done == is_done(old(a)@, *cfg),
        done ==> final(a)@ == old(a)@,
{
    if a.state != AgentState::SeekGoal {
        return false;
    }
    let t: WalkTarget = match a.target {
        Some(t) => t,
        None => {
            return false;
        },
    };
    let mut more: bool = false;
    let mut dest: Position = Position { x: t.x, z: t.z };
    if let Some(r) = &a.route {
        if r.0.len() > 0 {
            more = true;
            dest = r.0[0];
        }
    }
    let dx: Scalar = dest.x.sub(a.pos.x);
    let dz: Scalar = dest.z.sub(a.pos.z);
    let dist: Scalar = dx.mul(dx).add(dz.mul(dz)).sqrt();
    if dist.le(cfg.arrive_dist) {
        if more {
            if let Some(r) = &mut a.route {
                let ghost before = r.0@;
                let _first: Position = r.0.remove(0);
                proof {
                    assert(r.0@ =~= before.drop_first());
                }
            }
            return false;
        }
        return true;
    }
    let step: Scalar = cfg.walk_speed.mul(dt).min(dist);
    a.pos.x = a.pos.x.add(dx.div(dist).mul(step));
    a.pos.z = a.pos.z.add(dz.div(dist).mul(step));
    false
}

/// The nearest goal within reach of a point among the first `k`, with its
/// squared distance; of several equally near the first.
pub open spec fn nearest_goal(goals: Seq<GoalRowView>, k: int, p: Position, arrive: Scalar) -> Option<
    (Scalar, int),
>
    decreases k,
{
    if k <= 0 {
        None
    } else {
        let best = nearest_goal(goals, k - 1, p, arrive);
        let d2 = dist2(goals[k - 1].goal.x, goals[k - 1].goal.z, p);
        if reach2(arrive).lt_spec(d2) {
            best
        } else {
            match best {
                Some(b) => if d2.lt_spec(b.0) {
                    Some((d2, k - 1))
                } else {
                    best
                },
                None => Some((d2, k - 1)),
            }
        }
    }
}

/// Needs after using the first `k` ads, each scaled by the skills.
pub open spec fn fed(needs: Needs, skills: Skills, ads: Seq<(NeedKind, Scalar)>, k: int) -> Needs
    decreases k,
{
    if k <= 0 {
        needs
    } else {
        let (kind, amount) = ads[k - 1];
        fed(needs, skills, ads, k - 1).restored(kind, amount.mul_spec(skills.factor_spec(kind)))
    }
}

/// Skills after practising the first `k` ads.
pub open spec fn practised(skills: Skills, ads: Seq<(NeedKind, Scalar)>, k: int) -> Skills
    decreases k,
{
    if k <= 0 {
        skills
    } else {
        practised(skills, ads, k - 1).learned(ads[k - 1].0)
    }
}

/// The agent arrives on an errand, not at work and not at home.
pub open spec fn on_errand(a: AgentView) -> bool {
    a.commute is None && a.going_home is None
}

/// What arrival depends on.
pub ghost struct Places {
    pub goals: Seq<GoalRowView>,
    pub workplaces: Seq<WorkplaceRow>,
    pub dwellings: Seq<DwellingRow>,
    pub hour: u8,
}

/// The agent after reaching its target. A commuter clocks in on site, else
/// drops the stale commute. A home-goer turns in at night. Anyone else uses
/// the nearest goal within reach, where one is left.
pub open spec fn arrived(a: AgentView, places: Places, cfg: SimConfig) -> AgentView {
    let limit = reach2(cfg.arrive_dist);
    match a.commute {
        Some(c) => {
            let at_work = workplace_at(places.workplaces, c.0) matches Some(w) && dist2(
                w.x,
                w.z,
                a.pos,
            ).le_spec(limit);
            if at_work {
                a.stopped(AgentState::Working)
            } else {
                AgentView { commute: None, ..a.stopped(AgentState::Idle) }
            }
        },
        None => match a.going_home {
            Some(h) => {
                let at_home = dwelling_at(places.dwellings, h.0) matches Some(d) && dist2(
                    d.x,
                    d.z,
                    a.pos,
                ).le_spec(limit);
                AgentView {
                    going_home: None,
                    ..a.stopped(
                        if at_home && night(places.hour) {
                            AgentState::Sleeping
                        } else {
                            AgentState::Idle
                        },
                    )
                }
            },
            None => match nearest_goal(
                places.goals,
                places.goals.len() as int,
                a.pos,
                cfg.arrive_dist,
            ) {
                Some(best) => {
                    let ads = places.goals[best.1].goal.ads;
                    AgentView {
                        needs: fed(a.needs, a.skills, ads, ads.len() as int),
                        skills: practised(a.skills, ads, ads.len() as int),
                        ..a.stopped(AgentState::Idle)
                    }
                },
                None => a.stopped(AgentState::Idle),
            },
        },
    }
}

/// A goal at this squared distance is within reach of an arrived agent.
pub open spec fn in_reach(d2: Scalar, arrive: Scalar) -> bool {
    !reach2(arrive).lt_spec(d2)
}

/// Squared distance from a point to goal `j`.
pub open spec fn goal_dist2(goals: Seq<GoalRowView>, j: int, p: Position) -> Scalar {
    dist2(goals[j].goal.x, goals[j].goal.z, p)
}

/// The nearest goal within reach is what its name says: there is none exactly
/// when no goal is in reach; otherwise it is in reach, no goal in reach is
/// nearer, and none that stands earlier is as near.
pub proof fn law_nearest_goal(goals: Seq<GoalRowView>, k: int, p: Position, arrive: Scalar)
    requires
        0 <= k <= goals.len(),
    ensures
        match nearest_goal(goals, k, p, arrive) {
            None => forall|j: int|
                0 <= j < k ==> !in_reach(#[trigger] goal_dist2(goals, j, p), arrive),
            Some(b) => {
                &&& 0 <= b.1 < k
                &&& b.0 == goal_dist2(goals, b.1, p)
                &&& in_reach(b.0, arrive)
                &&& forall|j: int|
                    0 <= j < k && in_reach(#[trigger] goal_dist2(goals, j, p), arrive)
                        ==> !goal_dist2(goals, j, p).lt_spec(b.0)
                &&& forall|j: int|
                    0 <= j < b.1 && in_reach(#[trigger] goal_dist2(goals, j, p), arrive)
                        ==> !goal_dist2(goals, j, p).le_spec(b.0)
            },
        },
    decreases k,
{
    if k > 0 {
        law_nearest_goal(goals, k - 1, p, arrive);
        let d2 = goal_dist2(goals, k - 1, p);
        assert(in_reach(d2, arrive) == !reach2(arrive).lt_spec(d2));
    }
}

pub(crate) proof fn lemma_nearest_index(goals: Seq<GoalRowView>, k: int, p: Position, arrive: Scalar)
    requires
        k <= goals.len(),
    ensures
        nearest_goal(goals, k, p, arrive) matches Some(b) ==> 0 <= b.1 < k,
    decreases k,
{
    if k > 0 {
        lemma_nearest_index(goals, k - 1, p, arrive);
    }
}

fn find_nearest(goals: &Vec<GoalRow>, p: Position, arrive: Scalar) -> (r: Option<usize>)
    ensures
        match r {
            Some(i) => i < goals.len() && (nearest_goal(
                goal_views(goals@),
                goals.len() as int,
                p,
                arrive,
            ) matches Some(b) && b.1 == i),
            None => nearest_goal(goal_views(goals@), goals.len() as int, p, arrive) is None,
        },
{
    let ghost views = goal_views(goals@);
    let limit: Scalar = reach_squared(arrive);
    let mut best: Option<(Scalar, usize)> = None;
    let mut k: usize = 0;
    while k < goals.len()
        invariant
            views == goal_views(goals@),
            limit == reach2(arrive),
            k <= goals.len(),
            match best {
                Some(b) => b.1 < k && nearest_goal(views, k as int, p, arrive) == Some(
                    (b.0, b.1 as int),
                ),
                None => nearest_goal(views, k as int, p, arrive) is None,
            },
        decreases goals.len() - k,
    {
        let d2: Scalar = distance2(goals[k].goal.x, goals[k].goal.z, p);
        assert(views[k as int] == goals[k as int]@);
        if !limit.lt(d2) {
            match best {
                Some(b) => {
                    if d2.lt(b.0) {
                        best = Some((d2, k));
                    }
                },
                None => {
                    best = Some((d2, k));
                },
            }
        }
        k += 1;
    }
    match best {
        Some(b) => Some(b.1),
        None => None,
    }
}

/// Settle an agent that has reached its target.
fn arrive_one(
    a: &mut Agent,
    goals: &Vec<GoalRow>,
    workplaces: &Vec<WorkplaceRow>,
    dwellings: &Vec<DwellingRow>,
    hour: u8,
    cfg: &SimConfig,
)
    ensures
        final(a)@ == arrived(
            old(a)@,
            (Places {
                goals: goal_views(goals@),
                workplaces: workplaces@,
                dwellings: dwellings@,
                hour,
            }),
            *cfg,
        ),
{
    let limit: Scalar = reach_squared(cfg.arrive_dist);
    if let Some(c) = a.commute {
        let at_work: bool = match find_workplace(workplaces, c.0) {
            Some(w) => distance2(w.x, w.z, a.pos).le(limit),
            None => false,
        };
        if at_work {
            a.stop(AgentState::Working);
        } else {
            a.commute = None;
            a.stop(AgentState::Idle);
        }
        return;
    }
    if let Some(h) = a.going_home {
        let at_home: bool = match find_dwelling(dwellings, h.0) {
            Some(i) => distance2(dwellings[i].dwelling.x, dwellings[i].dwelling.z, a.pos).le(limit),
            None => false,
        };
        a.going_home = None;
        if at_home && is_night(hour) {
            a.stop(AgentState::Sleeping);
        } else {
            a.stop(AgentState::Idle);
        }
        return;
    }
    if let Some(i) = find_nearest(goals, a.pos, cfg.arrive_dist) {
        let ads: &Vec<(NeedKind, Scalar)> = &goals[i].goal.ads;
        assert(goal_views(goals@)[i as int].goal.ads == ads@);
        let skills: Skills = a.skills;
        let ghost needs = a.needs;
        let ghost start = a@;
        let mut k: usize = 0;
        while k < ads.len()
            invariant
                k <= ads.len(),
                a@ == (AgentView {
                    needs: fed(needs, skills, ads@, k as int),
                    skills: practised(skills, ads@, k as int),
                    ..start
                }),
            decreases ads.len() - k,
        {
            let (kind, amount) = ads[k];
            a.needs.restore(kind, amount.mul(skills.factor(kind)));
            a.skills.learn(kind);
            k += 1;
        }
    }
    a.stop(AgentState::Idle);
}

/// The goals after `agent` lets go of `goal`.
pub open spec fn released(goals: Seq<GoalRowView>, agent: Entity, goal: Entity) -> Seq<
    GoalRowView,
> {
    match first_index(goal_ids(goals), goal) {
        Some(j) => if goals[j].goal.claimed_by == Some(agent) {
            goals.update(j, unclaimed(goals[j]))
        } else {
            goals
        },
        None => goals,
    }
}

/// A goal that nobody claims.
pub open spec fn unclaimed(g: GoalRowView) -> GoalRowView {
    GoalRowView { goal: GoalView { claimed_by: None, ..g.goal }, ..g }
}

/// Drop the claim that `agent` holds on `goal`.
pub(crate) fn release(goals: &mut Vec<GoalRow>, agent: Entity, goal: Entity)
    ensures
        goal_views(final(goals)@) == released(goal_views(old(goals)@), agent, goal),
{
    let ghost before = goal_views(goals@);
    if let Some(j) = find_goal(goals, goal) {
        if let Some(holder) = goals[j].goal.claimed_by {
            if holder == agent {
                goals[j].goal.claimed_by = None;
            }
        }
    }
    proof {
        assert(goal_views(goals@) =~= released(before, agent, goal));
    }
}

/// Agent `a`, done with its errand, lets go of goal `j`.
pub open spec fn lets_go(goals: Seq<GoalRowView>, a: AgentView, cfg: SimConfig, j: int) -> bool {
    &&& is_done(a, cfg)
    &&& on_errand(a)
    &&& a.target->0.claim matches Some(e) && first_index(goal_ids(goals), e) == Some(j)
    &&& goals[j].goal.claimed_by == Some(a.id)
}

/// Some of the first `k` agents lets go of goal `j`.
pub open spec fn freed(
    goals: Seq<GoalRowView>,
    agents: Seq<AgentView>,
    cfg: SimConfig,
    k: int,
    j: int,
) -> bool {
    exists|i: int| 0 <= i < k && #[trigger] lets_go(goals, agents[i], cfg, j)
}

/// The goals after the first `k` agents have walked.
pub open spec fn goals_after_walk(
    goals: Seq<GoalRowView>,
    agents: Seq<AgentView>,
    cfg: SimConfig,
    k: int,
) -> Seq<GoalRowView> {
    Seq::new(
        goals.len(),
        |j: int|
            if freed(goals, agents, cfg, k, j) {
                unclaimed(goals[j])
            } else {
                goals[j]
            },
    )
}

/// One agent after walking and, where it is done, arriving.
pub open spec fn walked_and_arrived(
    a: AgentView,
    places: Places,
    dt: Scalar,
    cfg: SimConfig,
) -> AgentView {
    if is_done(a, cfg) {
        arrived(a, places, cfg)
    } else {
        walked(a, dt, cfg)
    }
}

proof fn lemma_release_step(
    goals: Seq<GoalRowView>,
    agents: Seq<AgentView>,
    cfg: SimConfig,
    i: int,
    e: Entity,
)
    requires
        0 <= i < agents.len(),
        is_done(agents[i], cfg),
        on_errand(agents[i]),
        agents[i].target->0.claim == Some(e),
    ensures
        released(goals_after_walk(goals, agents, cfg, i), agents[i].id, e) == goals_after_walk(
            goals,
            agents,
            cfg,
            i + 1,
        ),
{
    let now = goals_after_walk(goals, agents, cfg, i);
    let next = goals_after_walk(goals, agents, cfg, i + 1);
    assert(goal_ids(now) =~= goal_ids(goals));
    crate::sim::world::lemma_first_facts(goal_ids(goals), e);
    assert forall|j: int| 0 <= j < goals.len() implies #[trigger] released(
        now,
        agents[i].id,
        e,
    )[j] == next[j] by {
        if lets_go(goals, agents[i], cfg, j) {
            assert(freed(goals, agents, cfg, i + 1, j));
        } else {
            assert(freed(goals, agents, cfg, i + 1, j) == freed(goals, agents, cfg, i, j)) by {
                if freed(goals, agents, cfg, i + 1, j) {
                    let k = choose|k: int| 0 <= k < i + 1 && #[trigger] lets_go(goals, agents[k], cfg, j);
                    assert(k < i);
                }
                if freed(goals, agents, cfg, i, j) {
                    let k = choose|k: int| 0 <= k < i && #[trigger] lets_go(goals, agents[k], cfg, j);
                    assert(0 <= k < i + 1);
                }
            }
        }
    }
    assert(released(now, agents[i].id, e) =~= next);
}

proof fn lemma_release_skip(
    goals: Seq<GoalRowView>,
    agents: Seq<AgentView>,
    cfg: SimConfig,
    i: int,
)
    requires
        0 <= i < agents.len(),
        !is_done(agents[i], cfg) || !on_errand(agents[i]) || agents[i].target->0.claim is None,
    ensures
        goals_after_walk(goals, agents, cfg, i) == goals_after_walk(goals, agents, cfg, i + 1),
{
    let now = goals_after_walk(goals, agents, cfg, i);
    let next = goals_after_walk(goals, agents, cfg, i + 1);
    assert forall|j: int| 0 <= j < goals.len() implies #[trigger] now[j] == next[j] by {
        assert(!lets_go(goals, agents[i], cfg, j));
        if freed(goals, agents, cfg, i + 1, j) {
            let k = choose|k: int| 0 <= k < i + 1 && #[trigger] lets_go(goals, agents[k], cfg, j);
            assert(k < i);
        }
        if freed(goals, agents, cfg, i, j) {
            let k = choose|k: int| 0 <= k < i && #[trigger] lets_go(goals, agents[k], cfg, j);
            assert(0 <= k < i + 1);
        }
    }
    assert(now =~= next);
}

/// Walk all agents, then settle those that have reached their targets: apply
/// the reached goal's ads, clock in or turn in, and release claims.
pub fn walk_agents(
    agents: &mut Vec<Agent>,
    goals: &mut Vec<GoalRow>,
    workplaces: &Vec<WorkplaceRow>,
    dwellings: &Vec<DwellingRow>,
    hour: u8,
    dt: Scalar,
    cfg: &SimConfig,
)
    ensures
        ({
            let places = Places {
                goals: goal_views(old(goals)@),
                workplaces: workplaces@,
                dwellings: dwellings@,
                hour,
            };
            let before = agent_views(old(agents)@);
            &&& agent_views(final(agents)@) == before.map_values(
                |a: AgentView| walked_and_arrived(a, places, dt, *cfg),
            )
            &&& goal_views(final(goals)@) == goals_after_walk(
                goal_views(old(goals)@),
                before,
                *cfg,
                before.len() as int,
            )
        }),
{
    let ghost places = Places {
        goals: goal_views(goals@),
        workplaces: workplaces@,
        dwellings: dwellings@,
        hour,
    };
    let ghost before = agent_views(agents@);
    let ghost goals0 = goal_views(goals@);
    // claims to release, one place per agent
    let mut claims: Vec<Option<Entity>> = Vec::new();
    let mut i: usize = 0;
    while i < agents.len()
        invariant
            before == agent_views(old(agents)@),
            agents.len() == before.len(),
            i <= agents.len(),
            claims.len() == i,
            places == (Places {
                goals: goal_views(goals@),
                workplaces: workplaces@,
                dwellings: dwellings@,
                hour,
            }),
            forall|j: int|
                0 <= j < i ==> #[trigger] agents[j]@ == walked_and_arrived(
                    before[j],
                    places,
                    dt,
                    *cfg,
                ),
            forall|j: int| i <= j < agents.len() ==> #[trigger] agents[j]@ == before[j],
            forall|j: int|
                0 <= j < i ==> #[trigger] claims[j] == if is_done(before[j], *cfg) && on_errand(
                    before[j],
                ) {
                    before[j].target->0.claim
                } else {
                    None
                },
        decreases agents.len() - i,
    {
        let mut claim: Option<Entity> = None;
        let a: &mut Agent = &mut agents[i];
        let done: bool = walk_one(a, dt, cfg);
        if done {
            if a.commute.is_none() && a.going_home.is_none() {
                if let Some(t) = a.target {
                    claim = t.claim;
                }
            }
            arrive_one(a, goals, workplaces, dwellings, hour, cfg);
        }
        claims.push(claim);
        i += 1;
    }
    proof {
        assert(agent_views(agents@) =~= before.map_values(
            |a: AgentView| walked_and_arrived(a, places, dt, *cfg),
        ));
        assert(goals_after_walk(goals0, before, *cfg, 0) =~= goals0);
    }
    let mut k: usize = 0;
    while k < agents.len()
        invariant
            k <= agents.len(),
            claims.len() == agents.len(),
            before.len() == agents.len(),
            goal_views(goals@) == goals_after_walk(goals0, before, *cfg, k as int),
            forall|j: int| 0 <= j < agents.len() ==> (#[trigger] agents[j])@.id == before[j].id,
            forall|j: int|
                0 <= j < agents.len() ==> #[trigger] claims[j] == if is_done(before[j], *cfg)
                    && on_errand(before[j]) {
                    before[j].target->0.claim
                } else {
                    None
                },
        decreases agents.len() - k,
    {
        if let Some(e) = claims[k] {
            release(goals, agents[k].id, e);
            proof {
                lemma_release_step(goals0, before, *cfg, k as int, e);
            }
        } else {
            proof {
                lemma_release_skip(goals0, before, *cfg, k as int);
            }
        }
        k += 1;
    }
}

} // verus!
