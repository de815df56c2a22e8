//! Night rest.

use crate::sim::agent::{Agent, AgentState, AgentView, GoingHome, Position, WalkTarget};
use crate::sim::city::{is_night, night, Roads};
use crate::sim::grid::{Obstacles, Walls};
use crate::sim::route::{ground_of, plan_route, Ground};
use crate::sim::world::{agent_views, dwelling_at, find_dwelling, DwellingRow};
use vstd::prelude::*;

verus! {

/// The agent may turn in: idle, without orders, not walking.
pub open spec fn may_turn_in(a: AgentView) -> bool {
    a.state == AgentState::Idle && a.queue.len() == 0 && a.going_home is None && a.target is None
}

/// Sleepers wake by day. At night idle homed agents without orders head home;
/// unreachable homes leave them where they stand, and a home that is gone is
/// forgotten.
pub open spec fn rested(
    a: AgentView,
    ground: Ground,
    homes: Seq<DwellingRow>,
    hour: u8,
) -> AgentView {
    if !night(hour) {
        if a.state == AgentState::Sleeping {
            AgentView { state: AgentState::Idle, ..a }
        } else {
            a
        }
    } else if !may_turn_in(a) {
        a
    } else {
        match a.home {
            Some(h) => match dwelling_at(homes, h.0) {
                Some(d) => match ground.plan(a.pos, Position { x: d.x, z: d.z }) {
                    Some(route) => AgentView {
                        going_home: Some(GoingHome(h.0)),
                        ..a.sent(WalkTarget { x: d.x, z: d.z, claim: None }, route)
                    },
                    None => a,
                },
                None => AgentView { home: None, ..a },
            },
            None => a,
        }
    }
}

fn turn_in(
    a: &mut Agent,
    homes: &Vec<DwellingRow>,
    hour: u8,
    obs: &Obstacles,
    roads: &Roads,
    walls: &Walls,
)
    requires
        ground_of(obs, roads, walls).can_route(),
    ensures
        final(a)@ == rested(old(a)@, ground_of(obs, roads, walls), homes@, hour),
{
    if !is_night(hour) {
        if a.state == AgentState::Sleeping {
            a.state = AgentState::Idle;
        }
        return;
    }
    if a.state != AgentState::Idle || a.queue.0.len() > 0 || a.going_home.is_some()
        || a.target.is_some() {
        return;
    }
    if let Some(h) = a.home {
        match find_dwelling(homes, h.0) {
            Some(i) => {
                let to = Position { x: homes[i].dwelling.x, z: homes[i].dwelling.z };
                if let Some(points) = plan_route(obs, roads, walls, a.pos, to) {
                    a.going_home = Some(GoingHome(h.0));
                    a.send(WalkTarget { x: to.x, z: to.z, claim: None }, points);
                }
            },
            None => {
                a.home = None;
            },
        }
    }
}

/// Night rest: sleepers wake at dawn; idle homed agents with an empty queue
/// head home.
pub fn night_rest(
    agents: &mut Vec<Agent>,
    homes: &Vec<DwellingRow>,
    hour: u8,
    obs: &Obstacles,
    roads: &Roads,
    walls: &Walls,
)
    requires
        ground_of(obs, roads, walls).can_route(),
    ensures
        ({
            let ground = ground_of(obs, roads, walls);
            agent_views(final(agents)@) == agent_views(old(agents)@).map_values(
                |a: AgentView| rested(a, ground, homes@, hour),
            )
        }),
{
    let ghost ground = ground_of(obs, roads, walls);
    let ghost before = agent_views(agents@);
    let mut i: usize = 0;
    while i < agents.len()
        invariant
            ground_of(obs, roads, walls).can_route(),
            ground == ground_of(obs, roads, walls),
            agents.len() == before.len(),
            i <= agents.len(),
            forall|j: int|
                0 <= j < i ==> (#[trigger] agents[j])@ == rested(before[j], ground, homes@, hour),
            forall|j: int| i <= j < agents.len() ==> (#[trigger] agents[j])@ == before[j],
        decreases agents.len() - i,
    {
        turn_in(&mut agents[i], homes, hour, obs, roads, walls);
        i += 1;
    }
    proof {
        assert(agent_views(agents@) =~= before.map_values(
            |a: AgentView| rested(a, ground, homes@, hour),
        ));
    }
}

} // verus!
