//! The player queue.

use crate::sim::agent::{ActionKind, Agent, AgentState, AgentView, Position, WalkTarget};
use crate::sim::city::Roads;
use crate::sim::grid::{Obstacles, Walls};
use crate::sim::route::{ground_of, plan_route, Ground};
use crate::sim::world::{agent_views, find_goal, goal_at, goal_views, GoalRow, GoalRowView};
use vstd::prelude::*;

verus! {

/// Where an order leads; nowhere when its goal is gone.
pub open spec fn destination(action: ActionKind, goals: Seq<GoalRowView>) -> Option<Position> {
    match action {
        ActionKind::Goto { x, z } => Some(Position { x, z }),
        ActionKind::Use { goal } => match goal_at(goals, goal) {
            Some(g) => Some(Position { x: g.x, z: g.z }),
            None => None,
        },
    }
}

/// An idle agent with no walk target takes the front order off its queue and
/// sets out; an order that leads nowhere, or to where no route leads, is
/// dropped.
pub open spec fn pumped(a: AgentView, ground: Ground, goals: Seq<GoalRowView>) -> AgentView {
    if a.state != AgentState::Idle || a.target is Some || a.queue.len() == 0 {
        a
    } else {
        let b = AgentView { queue: a.queue.drop_first(), ..a };
        match destination(a.queue[0], goals) {
            Some(to) => match ground.plan(a.pos, to) {
                Some(route) => b.sent(WalkTarget { x: to.x, z: to.z, claim: None }, route),
                None => b,
            },
            None => b,
        }
    }
}

fn pump(a: &mut Agent, goals: &Vec<GoalRow>, obs: &Obstacles, roads: &Roads, walls: &Walls)
    requires
        ground_of(obs, roads, walls).can_route(),
    ensures
        final(a)@ == pumped(old(a)@, ground_of(obs, roads, walls), goal_views(goals@)),
{
    if a.state != AgentState::Idle || a.target.is_some() || a.queue.0.len() == 0 {
        return;
    }
    let ghost before = a.queue.0@;
    let action: ActionKind = match a.queue.0.pop_front() {
        Some(action) => action,
        None => {
            return;
        },
    };
    proof {
        assert(a.queue.0@ =~= before.drop_first());
    }
    let dest: Option<Position> = match action {
        ActionKind::Goto { x, z } => Some(Position { x, z }),
        ActionKind::Use { goal } => match find_goal(goals, goal) {
            Some(i) => Some(Position { x: goals[i].goal.x, z: goals[i].goal.z }),
            None => None,
        },
    };
    if let Some(to) = dest {
        if let Some(points) = plan_route(obs, roads, walls, a.pos, to) {
            a.send(WalkTarget { x: to.x, z: to.z, claim: None }, points);
        }
    }
}

/// Work the player queue.
pub fn pump_queue(
    agents: &mut Vec<Agent>,
    goals: &Vec<GoalRow>,
    obs: &Obstacles,
    roads: &Roads,
    walls: &Walls,
)
    requires
        ground_of(obs, roads, walls).can_route(),
    ensures
        ({
            let ground = ground_of(obs, roads, walls);
            let rows = goal_views(goals@);
            agent_views(final(agents)@) == agent_views(old(agents)@).map_values(
                |a: AgentView| pumped(a, ground, rows),
            )
        }),
{
    let ghost ground = ground_of(obs, roads, walls);
    let ghost rows = goal_views(goals@);
    let ghost before = agent_views(agents@);
    let mut i: usize = 0;
    while i < agents.len()
        invariant
            ground_of(obs, roads, walls).can_route(),
            ground == ground_of(obs, roads, walls),
            rows == goal_views(goals@),
            agents.len() == before.len(),
            i <= agents.len(),
            forall|j: int| 0 <= j < i ==> (#[trigger] agents[j])@ == pumped(before[j], ground, rows),
            forall|j: int| i <= j < agents.len() ==> (#[trigger] agents[j])@ == before[j],
        decreases agents.len() - i,
    {
        pump(&mut agents[i], goals, obs, roads, walls);
        i += 1;
    }
    proof {
        assert(agent_views(agents@) =~= before.map_values(|a: AgentView| pumped(a, ground, rows)));
    }
}

} // verus!
