//! Orders, the clock and replays.

use crate::scalar::Scalar;
use crate::sim::agent::{ActionKind, AgentState, AgentView, Employment};
use crate::sim::snapshot::SnapshotView;
use crate::sim::world::{agent_ids, first_index, goal_ids, lemma_first_facts, SimConfig, SimView};
use crate::sim::Entity;
use vstd::prelude::*;

verus! {

/// The city after a series of ticks.
pub open spec fn run(s: SimView, ticks: Seq<Scalar>) -> SimView
    decreases ticks.len(),
{
    if ticks.len() == 0 {
        s
    } else {
        run(s, ticks.drop_last()).stepped(ticks.last())
    }
}

/// Same seed and same ops make the same city: two cities that agree, random
/// stream included, still agree after the same ticks.
pub proof fn law_same_ticks_same_city(a: SimView, b: SimView, ticks: Seq<Scalar>)
    requires
        a == b,
    ensures
        run(a, ticks) == run(b, ticks),
{
}

/// A city that can run a tick can run the next one too.
pub proof fn law_ticks_go_on(s: SimView, dt: Scalar)
    requires
        s.can_step(),
        s.goals.len() <= usize::MAX,
    ensures
        s.stepped(dt).can_step(),
        s.stepped(dt).goals.len() == s.goals.len(),
        s.stepped(dt).agents.len() == s.agents.len(),
{
    let s5 = s.after_decay(dt).after_doze(dt).after_work(dt).after_night_rest().after_development(
        dt,
    );
    let s6 = s5.after_orders();
    let n = s6.agents.len() as int;
    super::autonomy::law_decisions(s6.ground, s6.agents, s6.goals, s6.rng, n);
    let d = crate::sim::systems::autonomy::decided(s6.ground, s6.agents, s6.goals, s6.rng, n);
    super::needs::lemma_claimed_ads(s6.goals, s6.agents, d.picks, n);
}

/// A restored city can be played on.
pub proof fn law_restored_city_plays_on(snap: SnapshotView, config: SimConfig, crossed: Seq<bool>)
    ensures
        snap.restored(config, crossed).can_step(),
{
    crate::sim::grid::lemma_default_side();
}

/// Hiring does not interrupt: an agent that is not commuting keeps doing what
/// it did, with its walk and its claim. A commute under way is dropped.
pub proof fn law_hiring_waits_for_the_errand(s: SimView, agent: Entity, workplace: Entity)
    requires
        s.has_agent(agent),
    ensures
        ({
            let a = s.agent(agent);
            let t = s.employed(agent, workplace);
            let b = t.agent(agent);
            &&& b.employment == Some(Employment { workplace })
            &&& b.commute is None
            &&& b.queue == a.queue && b.home == a.home
            &&& a.commute is None ==> b == (AgentView { employment: b.employment, ..a })
                && t.goals == s.goals
            &&& a.commute is Some ==> b.state == AgentState::Idle && b.target is None
        }),
{
    reveal(SimView::employed);
    lemma_first_facts(agent_ids(s.agents), agent);
    let t = s.employed(agent, workplace);
    assert(agent_ids(t.agents) =~= agent_ids(s.agents));
}

/// Dismissal clears what the agent was doing and frees the goal that it
/// walked to; its orders and its home persist.
pub proof fn law_dismissal_clears_activity(s: SimView, agent: Entity, j: int)
    requires
        s.has_agent(agent),
    ensures
        ({
            let a = s.agent(agent);
            let t = s.dismissed(agent);
            let b = t.agent(agent);
            &&& b == (AgentView { employment: None, ..a.relieved() })
            &&& s.claim_of(agent) matches Some(g) ==> (first_index(goal_ids(s.goals), g) == Some(j)
                ==> t.goals[j].goal.claimed_by != Some(agent))
        }),
{
    reveal(SimView::dismissed);
    lemma_first_facts(agent_ids(s.agents), agent);
    let t = s.dismissed(agent);
    assert(agent_ids(t.agents) =~= agent_ids(s.agents));
    if let Some(g) = s.claim_of(agent) {
        lemma_first_facts(goal_ids(s.goals), g);
    }
}

/// An order takes effect at once: the agent drops what it was doing and has
/// the order at the front of its queue, the older ones behind it; its job and
/// its home persist.
pub proof fn law_order_preempts(s: SimView, agent: Entity, action: ActionKind)
    requires
        s.has_agent(agent),
    ensures
        ({
            let a = s.agent(agent);
            let b = s.ordered(agent, action).agent(agent);
            &&& b.state == AgentState::Idle
            &&& b.target is None
            &&& b.route is None
            &&& b.commute is None
            &&& b.going_home is None
            &&& b.queue[0] == action
            &&& b.queue.drop_first() == a.queue
            &&& b.employment == a.employment
            &&& b.home == a.home
        }),
{
    reveal(SimView::ordered);
    lemma_first_facts(agent_ids(s.agents), agent);
    let t = s.ordered(agent, action);
    assert(agent_ids(t.agents) =~= agent_ids(s.agents));
    assert(t.agent(agent).queue.drop_first() =~= s.agent(agent).queue);
}

/// Whatever the clock is set to, the hour lies in 0..23; the day advances
/// exactly when the hour goes back.
pub proof fn law_clock(s: SimView, hour: u8)
    requires
        s.day < u32::MAX,
    ensures
        s.at_hour(hour).hour < 24,
        s.at_hour(hour).day == s.day + if hour % 24 < s.hour {
            1int
        } else {
            0
        },
        hour % 24 >= s.hour ==> s.at_hour(hour).treasury == s.treasury,
{
}

} // verus!
