//! Proximity chat.

use super::needs::{refill, refilled};
use super::walk::{dist2, distance2};
use crate::scalar::Scalar;
use crate::sim::agent::{Agent, AgentState, AgentView, Needs};
use crate::sim::world::{agent_views, SimConfig};
use vstd::prelude::*;

verus! {

/// The agent is about and may be talked to.
pub open spec fn is_about(a: AgentView) -> bool {
    a.state == AgentState::Idle || a.state == AgentState::Socialize
}

/// The agent is in the mood: about, and no need is urgent.
pub open spec fn is_sociable(a: AgentView, cfg: SimConfig) -> bool {
    is_about(a) && !a.needs.lowest_spec().lt_spec(cfg.chat_break)
}

/// Two agents chat: both are in the mood, and the second stands within the
/// chat radius of the first.
pub open spec fn chat(a: AgentView, b: AgentView, cfg: SimConfig) -> bool {
    &&& is_sociable(a, cfg)
    &&& is_sociable(b, cfg)
    &&& dist2(b.pos.x, b.pos.z, a.pos).le_spec(cfg.chat_radius.mul_spec(cfg.chat_radius))
}

/// Agents `i` and `j` chat.
pub open spec fn chatting(agents: Seq<AgentView>, i: int, j: int, cfg: SimConfig) -> bool {
    if i < j {
        chat(agents[i], agents[j], cfg)
    } else {
        i != j && chat(agents[j], agents[i], cfg)
    }
}

/// Agent `i` has someone to chat with.
pub open spec fn has_company(agents: Seq<AgentView>, i: int, cfg: SimConfig) -> bool {
    exists|j: int| 0 <= j < agents.len() && #[trigger] chatting(agents, i, j, cfg)
}

/// Agent `i` after a while of chat. Whoever chats regains sociability at the
/// chat rate, in whatever company; whoever does not is idle.
pub open spec fn socialized(agents: Seq<AgentView>, i: int, dt: Scalar, cfg: SimConfig) -> AgentView {
    let a = agents[i];
    if !is_about(a) {
        a
    } else if has_company(agents, i, cfg) {
        AgentView {
            needs: Needs {
                sociability: refilled(a.needs.sociability, cfg.chat_restore, dt),
                ..a.needs
            },
            state: AgentState::Socialize,
            ..a
        }
    } else {
        AgentView { state: AgentState::Idle, ..a }
    }
}

fn in_mood(a: &Agent, cfg: &SimConfig) -> (r: bool)
    ensures
        r == is_sociable(a@, *cfg),
{
    (a.state == AgentState::Idle || a.state == AgentState::Socialize) && !a.needs.lowest().lt(
        cfg.chat_break,
    )
}

fn talk(a: &Agent, b: &Agent, cfg: &SimConfig) -> (r: bool)
    ensures
        r == chat(a@, b@, *cfg),
{
    in_mood(a, cfg) && in_mood(b, cfg) && distance2(b.pos.x, b.pos.z, a.pos).le(
        cfg.chat_radius.mul(cfg.chat_radius),
    )
}

fn finds_company(agents: &Vec<Agent>, i: usize, cfg: &SimConfig) -> (r: bool)
    requires
        i < agents.len(),
    ensures
        r == has_company(agent_views(agents@), i as int, *cfg),
{
    let ghost views = agent_views(agents@);
    let mut k: usize = 0;
    while k < agents.len()
        invariant
            views == agent_views(agents@),
            i < agents.len(),
            k <= agents.len(),
            forall|j: int| 0 <= j < k ==> !#[trigger] chatting(views, i as int, j, *cfg),
        decreases agents.len() - k,
    {
        assert(views[k as int] == agents[k as int]@ && views[i as int] == agents[i as int]@);
        let yes: bool = if i < k {
            talk(&agents[i], &agents[k], cfg)
        } else {
            i != k && talk(&agents[k], &agents[i], cfg)
        };
        if yes {
            assert(chatting(views, i as int, k as int, *cfg));
            return true;
        }
        k += 1;
    }
    false
}

/// Proximity chat: idle agents near each other socialize until a need gets
/// urgent, then free will wins and they drop back to idle.
pub fn socialize(agents: &mut Vec<Agent>, dt: Scalar, cfg: &SimConfig)
    ensures
        ({
            let before = agent_views(old(agents)@);
            agent_views(final(agents)@) == Seq::new(
                before.len(),
                |i: int| socialized(before, i, dt, *cfg),
            )
        }),
{
    let ghost before = agent_views(agents@);
    let mut company: Vec<bool> = Vec::new();
    let mut i: usize = 0;
    while i < agents.len()
        invariant
            before == agent_views(agents@),
            i <= agents.len(),
            company.len() == i,
            forall|j: int| 0 <= j < i ==> #[trigger] company[j] == has_company(before, j, *cfg),
        decreases agents.len() - i,
    {
        company.push(finds_company(agents, i, cfg));
        i += 1;
    }
    let mut k: usize = 0;
    while k < agents.len()
        invariant
            agents.len() == before.len(),
            company.len() == before.len(),
            k <= agents.len(),
            forall|j: int|
                0 <= j < company.len() ==> #[trigger] company[j] == has_company(before, j, *cfg),
            forall|j: int|
                0 <= j < k ==> (#[trigger] agents[j])@ == socialized(before, j, dt, *cfg),
            forall|j: int| k <= j < agents.len() ==> (#[trigger] agents[j])@ == before[j],
        decreases agents.len() - k,
    {
        let a: &mut Agent = &mut agents[k];
        if a.state == AgentState::Idle || a.state == AgentState::Socialize {
            if company[k] {
                a.needs.sociability = refill(a.needs.sociability, cfg.chat_restore, dt);
                a.state = AgentState::Socialize;
            } else {
                a.state = AgentState::Idle;
            }
        }
        k += 1;
    }
    proof {
        assert(agent_views(agents@) =~= Seq::new(
            before.len(),
            |i: int| socialized(before, i, dt, *cfg),
        ));
    }
}

} // verus!
