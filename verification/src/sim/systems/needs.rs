//! Needs drain, and rest restores energy.

use crate::scalar::consts::{ONE, TWO, ZERO};
use crate::scalar::{scalar, Scalar};
use crate::sim::agent::{Agent, AgentState, AgentView, Needs};
use crate::sim::city::{is_night, night};
use crate::sim::world::{agent_views, SimConfig};
use vstd::prelude::*;

verus! {

/// A need after draining at a rate for `dt` seconds, floored at 0.
pub open spec fn drained(v: Scalar, rate: Scalar, dt: Scalar) -> Scalar {
    v.sub_spec(rate.mul_spec(dt)).max_spec(scalar(ZERO))
}

/// A need after being restored at a rate for `dt` seconds, capped at 1.
pub open spec fn refilled(v: Scalar, rate: Scalar, dt: Scalar) -> Scalar {
    v.add_spec(rate.mul_spec(dt)).min_spec(scalar(ONE))
}

fn drain(v: Scalar, rate: Scalar, dt: Scalar) -> (r: Scalar)
    ensures
        r == drained(v, rate, dt),
{
    v.sub(rate.mul(dt)).max(scalar(ZERO))
}

pub(crate) fn refill(v: Scalar, rate: Scalar, dt: Scalar) -> (r: Scalar)
    ensures
        r == refilled(v, rate, dt),
{
    v.add(rate.mul(dt)).min(scalar(ONE))
}

pub open spec fn needs_after(n: Needs, dt: Scalar, cfg: SimConfig) -> Needs {
    Needs {
        hunger: drained(n.hunger, cfg.hunger_decay, dt),
        energy: drained(n.energy, cfg.energy_decay, dt),
        sociability: drained(n.sociability, cfg.sociability_decay, dt),
        comfort: drained(n.comfort, cfg.comfort_decay, dt),
        hygiene: drained(n.hygiene, cfg.hygiene_decay, dt),
        bladder: drained(n.bladder, cfg.bladder_decay, dt),
        fun: drained(n.fun, cfg.fun_decay, dt),
    }
}

/// The agent with its needs drained.
pub open spec fn decayed(a: AgentView, dt: Scalar, cfg: SimConfig) -> AgentView {
    AgentView { needs: needs_after(a.needs, dt, cfg), ..a }
}

/// The agent after dozing: sleepers regain energy at the full rate, the idle
/// doze rough at half of it.
pub open spec fn dozed(a: AgentView, hour: u8, dt: Scalar, cfg: SimConfig) -> AgentView {
    let rest = |rate: Scalar|
        AgentView {
            needs: Needs { energy: refilled(a.needs.energy, rate, dt), ..a.needs },
            ..a
        };
    if !night(hour) {
        a
    } else if a.state == AgentState::Sleeping {
        rest(cfg.night_restore)
    } else if a.state == AgentState::Idle {
        rest(cfg.night_restore.div_spec(scalar(TWO)))
    } else {
        a
    }
}

/// Drain everyone's needs.
pub fn decay_needs(agents: &mut Vec<Agent>, dt: Scalar, cfg: &SimConfig)
    ensures
        agent_views(final(agents)@) == agent_views(old(agents)@).map_values(
            |a: AgentView| decayed(a, dt, *cfg),
        ),
{
    let ghost before = agent_views(agents@);
    let mut i: usize = 0;
    while i < agents.len()
        invariant
            agents.len() == before.len(),
            i <= agents.len(),
            forall|j: int| 0 <= j < i ==> (#[trigger] agents[j])@ == decayed(before[j], dt, *cfg),
            forall|j: int| i <= j < agents.len() ==> (#[trigger] agents[j])@ == before[j],
        decreases agents.len() - i,
    {
        let n: Needs = agents[i].needs;
        agents[i].needs =
        Needs {
            hunger: drain(n.hunger, cfg.hunger_decay, dt),
            energy: drain(n.energy, cfg.energy_decay, dt),
            sociability: drain(n.sociability, cfg.sociability_decay, dt),
            comfort: drain(n.comfort, cfg.comfort_decay, dt),
            hygiene: drain(n.hygiene, cfg.hygiene_decay, dt),
            bladder: drain(n.bladder, cfg.bladder_decay, dt),
            fun: drain(n.fun, cfg.fun_decay, dt),
        };
        i += 1;
    }
    proof {
        assert(agent_views(agents@) =~= before.map_values(|a: AgentView| decayed(a, dt, *cfg)));
    }
}

/// At night, sleepers doze at full rate; the homeless doze rough at half
/// rate.
pub fn doze_at_night(agents: &mut Vec<Agent>, hour: u8, dt: Scalar, cfg: &SimConfig)
    ensures
        agent_views(final(agents)@) == agent_views(old(agents)@).map_values(
            |a: AgentView| dozed(a, hour, dt, *cfg),
        ),
{
    let ghost before = agent_views(agents@);
    let dark: bool = is_night(hour);
    let mut i: usize = 0;
    while i < agents.len()
        invariant
            dark == night(hour),
            agents.len() == before.len(),
            i <= agents.len(),
            forall|j: int|
                0 <= j < i ==> (#[trigger] agents[j])@ == dozed(before[j], hour, dt, *cfg),
            forall|j: int| i <= j < agents.len() ==> (#[trigger] agents[j])@ == before[j],
        decreases agents.len() - i,
    {
        if dark {
            match agents[i].state {
                AgentState::Sleeping => {
                    let e: Scalar = refill(agents[i].needs.energy, cfg.night_restore, dt);
                    agents[i].needs.energy = e;
                },
                AgentState::Idle => {
                    let e: Scalar = refill(
                        agents[i].needs.energy,
                        cfg.night_restore.div(scalar(TWO)),
                        dt,
                    );
                    agents[i].needs.energy = e;
                },
                _ => {},
            }
        }
        i += 1;
    }
    proof {
        assert(agent_views(agents@) =~= before.map_values(
            |a: AgentView| dozed(a, hour, dt, *cfg),
        ));
    }
}

} // verus!
