//! What is written down of a city, and what comes and goes in it.

use crate::scalar::Scalar;
use crate::sim::Entity;
use crate::sim::agent::{AgentState, NeedKind, Personality, Position};
use crate::sim::city_ops::removed;
use crate::sim::snapshot::SnapshotView;
use crate::sim::systems::autonomy::assignment;
use crate::sim::systems::needs::{decayed, dozed};
use crate::sim::systems::night::rested;
use crate::sim::systems::orders::pumped;
use crate::sim::systems::social::socialized;
use crate::sim::systems::walk::{goals_after_walk, walked_and_arrived, Places};
use crate::sim::systems::work::{credited, earned, shifted};
use crate::sim::world::{
    agent_ids, building_ids, dwelling_ids, first_index, goal_ids, lemma_first, lemma_first_facts,
    workplace_ids, SimConfig, SimView,
};
use vstd::prelude::*;

verus! {

/// A snapshot keeps of everything, in its order, each value under its own name.
pub proof fn law_snapshots_keep_everything(s: SimView, i: int)
    ensures
        ({
            let k = s.kept();
            &&& k.agents.len() == s.agents.len() && k.goals.len() == s.goals.len()
            &&& k.workplaces.len() == s.workplaces.len() && k.dwellings.len() == s.dwellings.len()
            &&& k.buildings.len() == s.buildings.len()
            &&& 0 <= i < s.agents.len() ==> {
                let (a, b) = (s.agents[i], k.agents[i]);
                &&& b.x == a.pos.x && b.z == a.pos.z
                &&& b.hunger == a.needs.hunger && b.energy == a.needs.energy
                &&& b.sociability == a.needs.sociability && b.comfort == a.needs.comfort
                &&& b.hygiene == a.needs.hygiene && b.bladder == a.needs.bladder
                &&& b.fun == a.needs.fun && b.playful == a.personality.playful
                &&& b.outgoing == a.personality.outgoing && b.active == a.personality.active
                &&& b.cooking == a.skills.cooking && b.charisma == a.skills.charisma
            }
            &&& 0 <= i < s.goals.len() ==> {
                let (a, b) = (s.goals[i].goal, k.goals[i]);
                b.x == a.x && b.z == a.z && b.ads == a.ads && b.attenuation == a.attenuation
            }
            &&& 0 <= i < s.workplaces.len() ==> {
                let (a, b) = (s.workplaces[i].workplace, k.workplaces[i]);
                b.x == a.x && b.z == a.z && b.pay_per_hour == a.pay_per_hour && b.shift_start
                    == a.shift_start && b.shift_end == a.shift_end
            }
            &&& 0 <= i < s.dwellings.len() ==> {
                let (a, b) = (s.dwellings[i].dwelling, k.dwellings[i]);
                b.x == a.x && b.z == a.z && b.capacity == a.capacity && b.taken == a.taken
            }
            &&& 0 <= i < s.buildings.len() ==> k.buildings[i] == s.buildings[i].building
            &&& k.obstacles == s.ground.rects && k.roads == s.ground.roads && k.walls
                == s.ground.walls
            &&& k.hour == s.hour && k.day == s.day
            &&& k.funds == s.funds.cents && k.treasury == s.treasury.cents
        }),
{
}

/// A restored city has all that was kept, in its order, each value under its
/// own name; no two things share an identity.
pub proof fn law_restoring_brings_everything_back(
    k: SnapshotView,
    config: SimConfig,
    crossed: Seq<bool>,
    i: int,
)
    requires
        k.population() <= u64::MAX,
    ensures
        ({
            let s = k.restored(config, crossed);
            &&& s.agents.len() == k.agents.len() && s.goals.len() == k.goals.len()
            &&& s.workplaces.len() == k.workplaces.len() && s.dwellings.len() == k.dwellings.len()
            &&& s.buildings.len() == k.buildings.len()
            &&& 0 <= i < k.agents.len() ==> {
                let (a, b) = (s.agents[i], k.agents[i]);
                &&& b.x == a.pos.x && b.z == a.pos.z
                &&& b.hunger == a.needs.hunger && b.energy == a.needs.energy
                &&& b.sociability == a.needs.sociability && b.comfort == a.needs.comfort
                &&& b.hygiene == a.needs.hygiene && b.bladder == a.needs.bladder
                &&& b.fun == a.needs.fun && b.playful == a.personality.playful
                &&& b.outgoing == a.personality.outgoing && b.active == a.personality.active
                &&& b.cooking == a.skills.cooking && b.charisma == a.skills.charisma
                &&& a.id.index == i
            }
            &&& 0 <= i < k.goals.len() ==> {
                let (a, b) = (s.goals[i].goal, k.goals[i]);
                &&& b.x == a.x && b.z == a.z && b.ads == a.ads && b.attenuation == a.attenuation
                &&& s.goals[i].id.index == k.agents.len() + i
            }
            &&& 0 <= i < k.workplaces.len() ==> {
                let (a, b) = (s.workplaces[i].workplace, k.workplaces[i]);
                &&& b.x == a.x && b.z == a.z && b.pay_per_hour == a.pay_per_hour
                &&& b.shift_start == a.shift_start && b.shift_end == a.shift_end
                &&& s.workplaces[i].id.index == k.agents.len() + k.goals.len() + i
            }
            &&& 0 <= i < k.dwellings.len() ==> {
                let (a, b) = (s.dwellings[i].dwelling, k.dwellings[i]);
                &&& b.x == a.x && b.z == a.z && b.capacity == a.capacity
                &&& s.dwellings[i].id.index == k.agents.len() + k.goals.len()
                    + k.workplaces.len() + i
            }
            &&& 0 <= i < k.buildings.len() ==> {
                let (a, b) = (s.buildings[i].building, k.buildings[i]);
                &&& b.label == a.label && b.function == a.function && b.development
                    == a.development
                &&& b.min_x == a.min_x && b.min_z == a.min_z && b.max_x == a.max_x && b.max_z
                    == a.max_z
                &&& s.buildings[i].id.index == k.agents.len() + k.goals.len()
                    + k.workplaces.len() + k.dwellings.len() + i
            }
            &&& s.ground.rects == k.obstacles && s.ground.roads == k.roads && s.ground.walls
                == k.walls
            &&& s.hour as int == k.hour as int % 24 && s.day == k.day
            &&& s.funds.cents == k.funds && s.treasury.cents == k.treasury
            &&& s.next == k.population()
        }),
{
}

/// The city but for its agents and the next identity.
pub open spec fn same_but_agents(s: SimView, t: SimView) -> bool {
    t == (SimView { agents: t.agents, next: t.next, ..s })
}

/// A new agent stands where it was put, idle, content, with the personality it
/// was given and without a job, a home or an order; nothing else changes.
pub proof fn law_newcomers(s: SimView, pos: Position, p: Personality, kind: NeedKind)
    requires
        s.next < u64::MAX,
    ensures
        ({
            let t = s.spawned_agent(pos, p);
            let a = t.agents[s.agents.len() as int];
            &&& same_but_agents(s, t) && t.next == s.next + 1
            &&& t.agents.len() == s.agents.len() + 1
            &&& t.agents.drop_last() == s.agents
            &&& a.id.index == s.next && a.pos == pos && a.personality == p
            &&& a.state == AgentState::Idle && a.queue.len() == 0
            &&& a.employment is None && a.home is None && a.target is None
            &&& a.needs.get(kind) == crate::scalar::scalar(0x3f4c_cccd)
            &&& a.skills.cooking.num() == 0 && a.skills.charisma.num() == 0
        }),
{
    crate::scalar::order::lemma_one();
    assert(s.spawned_agent(pos, p).agents.drop_last() =~= s.agents);
}

/// Nothing in the city has an identity.
pub open spec fn is_absent(s: SimView, e: Entity) -> bool {
    &&& !agent_ids(s.agents).contains(e) && !goal_ids(s.goals).contains(e)
    &&& !workplace_ids(s.workplaces).contains(e) && !dwelling_ids(s.dwellings).contains(e)
    &&& !building_ids(s.buildings).contains(e)
}

proof fn lemma_removed<A>(rows: Seq<A>, ids: Seq<Entity>, e: Entity, x: A, i: int)
    requires
        rows.len() == ids.len(),
        0 <= i < rows.len(),
        ids[i] != e,
        rows[i] == x,
    ensures
        removed(rows, first_index(ids, e)).contains(x),
{
    let r = removed(rows, first_index(ids, e));
    lemma_first_facts(ids, e);
    if let Some(j) = first_index(ids, e) {
        if i < j {
            assert(r[i] == x);
        } else {
            assert(r[i - 1] == x);
        }
    } else {
        assert(r[i] == x);
    }
}

/// What is removed is one thing: all that has another identity stays.
pub proof fn law_removal_spares_the_others(s: SimView, e: Entity, i: int)
    ensures
        ({
            let t = s.without(e);
            &&& 0 <= i < s.agents.len() && s.agents[i].id != e ==> t.agents.contains(s.agents[i])
            &&& 0 <= i < s.goals.len() && s.goals[i].id != e ==> t.goals.contains(s.goals[i])
            &&& 0 <= i < s.workplaces.len() && s.workplaces[i].id != e ==> t.workplaces.contains(
                s.workplaces[i],
            )
            &&& 0 <= i < s.dwellings.len() && s.dwellings[i].id != e ==> t.dwellings.contains(
                s.dwellings[i],
            )
            &&& 0 <= i < s.buildings.len() && s.buildings[i].id != e ==> t.buildings.contains(
                s.buildings[i],
            )
            &&& t.ground == s.ground && t.funds == s.funds && t.treasury == s.treasury
            &&& t.hour == s.hour && t.day == s.day && t.rooms == s.rooms && t.config == s.config
            &&& t.next == s.next && t.rng == s.rng
        }),
{
    reveal(SimView::without);
    if 0 <= i < s.agents.len() && s.agents[i].id != e {
        lemma_removed(s.agents, agent_ids(s.agents), e, s.agents[i], i);
    }
    if 0 <= i < s.goals.len() && s.goals[i].id != e {
        lemma_removed(s.goals, goal_ids(s.goals), e, s.goals[i], i);
    }
    if 0 <= i < s.workplaces.len() && s.workplaces[i].id != e {
        lemma_removed(s.workplaces, workplace_ids(s.workplaces), e, s.workplaces[i], i);
    }
    if 0 <= i < s.dwellings.len() && s.dwellings[i].id != e {
        lemma_removed(s.dwellings, dwelling_ids(s.dwellings), e, s.dwellings[i], i);
    }
    if 0 <= i < s.buildings.len() && s.buildings[i].id != e {
        lemma_removed(s.buildings, building_ids(s.buildings), e, s.buildings[i], i);
    }
}

proof fn lemma_gone(ids: Seq<Entity>, e: Entity, after: Seq<Entity>)
    requires
        ids.no_duplicates(),
        after == removed(ids, first_index(ids, e)),
    ensures
        !after.contains(e),
{
    lemma_first_facts(ids, e);
    if let Some(j) = first_index(ids, e) {
        assert forall|k: int| 0 <= k < after.len() implies after[k] != e by {
            if k < j {
                assert(after[k] == ids[k]);
            } else {
                assert(after[k] == ids[k + 1]);
            }
        }
    }
}

/// What is removed is gone, where no two things of a kind share an identity.
pub proof fn law_removed_things_are_gone(s: SimView, e: Entity)
    requires
        agent_ids(s.agents).no_duplicates(),
        goal_ids(s.goals).no_duplicates(),
        workplace_ids(s.workplaces).no_duplicates(),
        dwelling_ids(s.dwellings).no_duplicates(),
        building_ids(s.buildings).no_duplicates(),
    ensures
        is_absent(s.without(e), e),
{
    reveal(SimView::without);
    let t = s.without(e);
    let a = agent_ids(s.agents);
    let g = goal_ids(s.goals);
    let w = workplace_ids(s.workplaces);
    let d = dwelling_ids(s.dwellings);
    let b = building_ids(s.buildings);
    lemma_first_facts(a, e);
    lemma_first_facts(g, e);
    lemma_first_facts(w, e);
    lemma_first_facts(d, e);
    lemma_first_facts(b, e);
    assert(agent_ids(t.agents) =~= removed(a, first_index(a, e)));
    assert(goal_ids(t.goals) =~= removed(g, first_index(g, e)));
    assert(workplace_ids(t.workplaces) =~= removed(w, first_index(w, e)));
    assert(dwelling_ids(t.dwellings) =~= removed(d, first_index(d, e)));
    assert(building_ids(t.buildings) =~= removed(b, first_index(b, e)));
    lemma_gone(a, e, agent_ids(t.agents));
    lemma_gone(g, e, goal_ids(t.goals));
    lemma_gone(w, e, workplace_ids(t.workplaces));
    lemma_gone(d, e, dwelling_ids(t.dwellings));
    lemma_gone(b, e, building_ids(t.buildings));
}

/// A new order comes first and the others wait; the agent drops what it does,
/// and everyone else goes on.
pub proof fn law_orders_reach_the_agent(
    s: SimView,
    e: Entity,
    action: crate::sim::agent::ActionKind,
    i: int,
)
    requires
        s.has_agent(e),
        0 <= i < s.agents.len(),
    ensures
        ({
            let t = s.ordered(e, action);
            &&& t.agents.len() == s.agents.len()
            &&& s.agents[i].id != e ==> t.agents[i] == s.agents[i]
            &&& t.agent(e).queue.len() == s.agent(e).queue.len() + 1
            &&& t.agent(e).queue[0] == action
            &&& 0 <= i < s.agent(e).queue.len() ==> t.agent(e).queue[i + 1] == s.agent(e).queue[i]
            &&& t.agent(e).pos == s.agent(e).pos && t.agent(e).needs == s.agent(e).needs
            &&& t.agent(e).state == AgentState::Idle && t.agent(e).target is None
            &&& t.agent(e).home == s.agent(e).home && t.agent(e).employment
                == s.agent(e).employment
            &&& t.dwellings == s.dwellings && t.workplaces == s.workplaces && t.buildings
                == s.buildings
        }),
{
    reveal(SimView::ordered);
    let ids = agent_ids(s.agents);
    let j = s.agent_index(e)->0;
    lemma_first_facts(ids, e);
    let t = s.ordered(e, action);
    assert(agent_ids(t.agents) =~= ids);
    lemma_first(agent_ids(t.agents), e, j);
}

/// Within one tick every building develops or decays where it stands; the
/// clock, the roads, the treasury and the places stay.
pub proof fn law_ticks_touch_every_building(s: SimView, dt: Scalar, i: int)
    ensures
        ({
            let t = s.stepped(dt);
            &&& t.buildings.len() == s.buildings.len() && t.agents.len() == s.agents.len()
            &&& 0 <= i < s.buildings.len() ==> t.buildings[i].id == s.buildings[i].id
                && t.buildings[i].building == s.buildings[i].building.developed(
                s.ground.roads,
                dt,
            )
            &&& t.ground == s.ground && t.treasury == s.treasury && t.rooms == s.rooms
            &&& t.workplaces == s.workplaces && t.dwellings == s.dwellings
            &&& t.hour == s.hour && t.day == s.day && t.next == s.next && t.config == s.config
        }),
{
}

/// A tick takes its steps one after the other: everyone's needs drain, the
/// resting doze, shifts change and work is paid, the tired turn in, buildings
/// develop, orders are taken, the idle choose, walkers walk, and company chats.
pub proof fn law_ticks_take_every_step(s: SimView, dt: Scalar) -> (c: Seq<SimView>)
    ensures
        c.len() == 10,
        c[0] == s,
        c[9] == s.stepped(dt),
        forall|k: int| 0 <= k < 10 ==> (#[trigger] c[k]).agents.len() == s.agents.len(),
        forall|i: int|
            0 <= i < s.agents.len() ==> {
                &&& #[trigger] c[1].agents[i] == decayed(s.agents[i], dt, s.config)
                &&& c[2].agents[i] == dozed(c[1].agents[i], s.hour, dt, s.config)
                &&& c[3].agents[i] == shifted(c[2].agents[i], s.ground, s.workplaces, s.hour)
                &&& c[4].agents[i] == rested(c[3].agents[i], s.ground, s.dwellings, s.hour)
                &&& c[5].agents[i] == c[4].agents[i]
                &&& c[6].agents[i] == pumped(c[5].agents[i], s.ground, s.goals)
                &&& c[8].agents[i] == walked_and_arrived(
                    c[7].agents[i],
                    Places {
                        goals: c[7].goals,
                        workplaces: s.workplaces,
                        dwellings: s.dwellings,
                        hour: s.hour,
                    },
                    dt,
                    s.config,
                )
                &&& c[9].agents[i] == socialized(c[8].agents, i, dt, s.config)
            },
        c[7].agents == assignment(s.ground, c[6].agents, s.goals, s.rng).agents,
        c[7].goals == assignment(s.ground, c[6].agents, s.goals, s.rng).goals,
        c[9].goals == goals_after_walk(
            c[7].goals,
            c[7].agents,
            s.config,
            s.agents.len() as int,
        ),
        c[9].funds == credited(
            s.funds,
            earned(
                c[3].agents,
                s.workplaces,
                s.hour,
                s.config.arrive_dist,
                dt,
                s.agents.len() as int,
            ),
        ),
{
    let c1 = s.after_decay(dt);
    let c2 = c1.after_doze(dt);
    let c3 = c2.after_work(dt);
    let c4 = c3.after_night_rest();
    let c5 = c4.after_development(dt);
    let c6 = c5.after_orders();
    let c7 = c6.after_assignment();
    let c8 = c7.after_walk(dt);
    let c9 = c8.after_chat(dt);
    seq![s, c1, c2, c3, c4, c5, c6, c7, c8, c9]
}

} // verus!
