//! One agent per goal.

use super::autonomy::law_decisions;
use super::needs::lemma_claimed_ads;
use crate::scalar::Scalar;
use crate::sim::agent::{
    ActionKind, AgentState, AgentView, Employment, NeedKind, Personality, Position,
};
use crate::sim::goal::Furniture;
use crate::sim::snapshot::SnapshotView;
use crate::sim::systems::autonomy::{appeals, claimed, decided, Pick};
use crate::sim::systems::walk::{freed, is_done, lets_go};
use crate::sim::world::{
    agent_ids, first_index, goal_ids, lemma_first, lemma_first_facts, GoalRowView, SimConfig,
    SimView,
};
use crate::sim::Entity;
use vstd::prelude::*;

verus! {

/// The goal that an agent walks to with a claim on it.
pub open spec fn claim(a: AgentView) -> Option<Entity> {
    match a.target {
        Some(t) => t.claim,
        None => None,
    }
}

/// A standing goal is held by exactly the agent that walks to it with a
/// claim.
pub open spec fn claims_hold(s: SimView) -> bool {
    forall|i: int, j: int|
        #![trigger s.agents[i], s.goals[j]]
        0 <= i < s.agents.len() && 0 <= j < s.goals.len() ==> ((claim(s.agents[i]) == Some(
            s.goals[j].id,
        )) == (s.goals[j].goal.claimed_by == Some(s.agents[i].id)))
}

/// What the agent does fits together: only a walker has a target or is on
/// the way home, only a walker or a worker commutes, and neither way to work
/// nor way home claims a goal.
pub open spec fn is_coherent(a: AgentView) -> bool {
    &&& a.state != AgentState::SeekGoal ==> a.target is None && a.going_home is None
    &&& a.state != AgentState::SeekGoal && a.state != AgentState::Working ==> a.commute is None
    &&& a.commute is Some ==> a.going_home is None && claim(a) is None
    &&& a.going_home is Some ==> claim(a) is None
}

/// Identities are dealt out once each, agents are coherent, and claims are
/// kept.
pub open spec fn is_orderly(s: SimView) -> bool {
    &&& forall|i: int, k: int|
        0 <= i < k < s.agents.len() ==> (#[trigger] s.agents[i]).id != (#[trigger] s.agents[k]).id
    &&& forall|i: int, k: int|
        0 <= i < k < s.goals.len() ==> (#[trigger] s.goals[i]).id != (#[trigger] s.goals[k]).id
    &&& forall|i: int|
        0 <= i < s.agents.len() ==> (#[trigger] s.agents[i]).id.index < s.next && (claim(
            s.agents[i],
        ) matches Some(g) ==> g.index < s.next)
    &&& forall|i: int| 0 <= i < s.agents.len() ==> is_coherent(#[trigger] s.agents[i])
    &&& forall|j: int|
        0 <= j < s.goals.len() ==> (#[trigger] s.goals[j]).id.index < s.next && (
        s.goals[j].goal.claimed_by matches Some(e) ==> e.index < s.next)
    &&& claims_hold(s)
}

/// In an orderly city no two agents walk to the same standing goal with a
/// claim on it.
pub proof fn law_one_agent_per_goal(s: SimView, i: int, k: int, j: int)
    requires
        is_orderly(s),
        0 <= i < s.agents.len(),
        0 <= k < s.agents.len(),
        0 <= j < s.goals.len(),
        claim(s.agents[i]) == Some(s.goals[j].id),
        claim(s.agents[k]) == Some(s.goals[j].id),
    ensures
        i == k,
{
    assert(s.goals[j].goal.claimed_by == Some(s.agents[i].id));
    assert(s.goals[j].goal.claimed_by == Some(s.agents[k].id));
}

/// In an orderly city the agent that a goal names as its holder, while both
/// stand, is walking to that goal.
pub proof fn law_holders_walk(s: SimView, i: int, j: int)
    requires
        is_orderly(s),
        0 <= i < s.agents.len(),
        0 <= j < s.goals.len(),
        s.goals[j].goal.claimed_by == Some(s.agents[i].id),
    ensures
        claim(s.agents[i]) == Some(s.goals[j].id),
        s.agents[i].state == AgentState::SeekGoal,
        s.agents[i].commute is None,
        s.agents[i].going_home is None,
{
    assert(claim(s.agents[i]) == Some(s.goals[j].id));
    assert(is_coherent(s.agents[i]));
}

/// A new city is orderly.
pub proof fn law_new_city_is_orderly()
    ensures
        is_orderly(SimView::empty()),
{
}

/// A restored city is orderly.
pub proof fn law_restored_city_is_orderly(
    snap: SnapshotView,
    config: SimConfig,
    crossed: Seq<bool>,
)
    requires
        snap.population() <= u64::MAX,
    ensures
        is_orderly(snap.restored(config, crossed)),
{
}

/// Agents that keep their identity and their claims leave an orderly city
/// orderly.
proof fn lemma_claims_kept(s: SimView, t: SimView)
    requires
        is_orderly(s),
        t.goals == s.goals,
        t.next == s.next,
        t.agents.len() == s.agents.len(),
        forall|i: int|
            0 <= i < s.agents.len() ==> (#[trigger] t.agents[i]).id == s.agents[i].id && claim(
                t.agents[i],
            ) == claim(s.agents[i]) && is_coherent(t.agents[i]),
    ensures
        is_orderly(t),
{
    assert forall|i: int, k: int| 0 <= i < k < t.agents.len() implies (#[trigger] t.agents[i]).id
        != (#[trigger] t.agents[k]).id by {
        assert(s.agents[i].id != s.agents[k].id);
    }
    assert forall|i: int| 0 <= i < t.agents.len() implies (#[trigger] t.agents[i]).id.index < t.next
        && (claim(t.agents[i]) matches Some(g) ==> g.index < t.next) by {
        assert(s.agents[i].id.index < s.next);
    }
    assert forall|i: int, j: int|
        #![trigger t.agents[i], t.goals[j]]
        0 <= i < t.agents.len() && 0 <= j < t.goals.len() implies ((claim(t.agents[i]) == Some(
        t.goals[j].id,
    )) == (t.goals[j].goal.claimed_by == Some(t.agents[i].id))) by {
        assert((claim(s.agents[i]) == Some(s.goals[j].id)) == (s.goals[j].goal.claimed_by == Some(
            s.agents[i].id,
        )));
    }
}

/// Who holds goal `j` after the first `k` picks.
pub(crate) proof fn lemma_claimed_by(
    goals: Seq<GoalRowView>,
    agents: Seq<AgentView>,
    picks: Seq<Option<Pick>>,
    k: int,
    j: int,
)
    requires
        0 <= k <= agents.len(),
        picks.len() == agents.len(),
        0 <= j < goals.len(),
        forall|i: int|
            0 <= i < k ==> ((#[trigger] picks[i]) matches Some(p) ==> p.goal < goals.len()),
        forall|i: int, m: int|
            0 <= i < m < k ==> ((#[trigger] picks[i]) matches Some(p) ==> ((
            #[trigger] picks[m]) matches Some(q) ==> p.goal != q.goal)),
    ensures
        forall|i: int|
            0 <= i < k ==> ((#[trigger] picks[i]) matches Some(p) ==> (p.goal == j ==> claimed(
                goals,
                agents,
                picks,
                k,
            )[j].goal.claimed_by == Some(agents[i].id))),
        (forall|i: int| 0 <= i < k ==> ((#[trigger] picks[i]) matches Some(p) ==> p.goal != j))
            ==> claimed(goals, agents, picks, k)[j].goal.claimed_by == goals[j].goal.claimed_by,
    decreases k,
{
    if k > 0 {
        lemma_claimed_by(goals, agents, picks, k - 1, j);
        lemma_claimed_ads(goals, agents, picks, k - 1);
        let last = picks[k - 1];
        if last matches Some(q) && q.goal == j {
            assert forall|i: int| 0 <= i < k implies ((#[trigger] picks[i]) matches Some(p) ==> (
            p.goal == j ==> claimed(goals, agents, picks, k)[j].goal.claimed_by == Some(
                agents[i].id,
            ))) by {
                if i < k - 1 {
                    assert(picks[i] matches Some(p) ==> p.goal != j);
                }
            }
        }
    }
}

/// The pick is goal `j`.
spec fn picks_goal(pick: Option<Pick>, j: int) -> bool {
    pick matches Some(p) && p.goal == j
}

/// Free will keeps a city orderly.
proof fn lemma_assignment_orderly(s: SimView)
    requires
        is_orderly(s),
        s.goals.len() <= usize::MAX,
    ensures
        is_orderly(s.after_assignment()),
{
    let n = s.agents.len() as int;
    let d = decided(s.ground, s.agents, s.goals, s.rng, n);
    let t = s.after_assignment();
    law_decisions(s.ground, s.agents, s.goals, s.rng, n);
    lemma_claimed_ads(s.goals, s.agents, d.picks, n);
    assert forall|j: int| 0 <= j < s.goals.len() implies (#[trigger] t.goals[j]).id
        == s.goals[j].id by {}
    assert forall|i: int| 0 <= i < n implies (#[trigger] t.agents[i]).id == s.agents[i].id by {}
    assert forall|i: int, k: int| 0 <= i < k < t.goals.len() implies (#[trigger] t.goals[i]).id
        != (#[trigger] t.goals[k]).id by {
        assert(s.goals[i].id != s.goals[k].id);
    }
    assert forall|i: int, k: int| 0 <= i < k < t.agents.len() implies (#[trigger] t.agents[i]).id
        != (#[trigger] t.agents[k]).id by {
        assert(s.agents[i].id != s.agents[k].id);
    }
    assert forall|j: int| 0 <= j < t.goals.len() implies (#[trigger] t.goals[j]).id.index < t.next
        && (t.goals[j].goal.claimed_by matches Some(e) ==> e.index < t.next) by {
        assert(s.goals[j].id.index < s.next);
        lemma_claimed_by(s.goals, s.agents, d.picks, n, j);
        if exists|m: int| 0 <= m < n && picks_goal(#[trigger] d.picks[m], j) {
            let m = choose|m: int| 0 <= m < n && picks_goal(#[trigger] d.picks[m], j);
            assert(t.goals[j].goal.claimed_by == Some(s.agents[m].id));
            assert(s.agents[m].id.index < s.next);
        } else {
            assert forall|m: int| 0 <= m < n implies ((#[trigger] d.picks[m]) matches Some(p)
                ==> p.goal != j) by {
                assert(!picks_goal(d.picks[m], j));
            }
        }
    }
    assert forall|i: int| 0 <= i < t.agents.len() implies (#[trigger] t.agents[i]).id.index < t.next
        && (claim(t.agents[i]) matches Some(g) ==> g.index < t.next) && is_coherent(t.agents[i]) by {
        assert(s.agents[i].id.index < s.next);
        assert(is_coherent(s.agents[i]));
        if let Some(p) = d.picks[i] {
            assert(s.goals[p.goal as int].id.index < s.next);
        }
    }
    assert forall|i: int, j: int|
        #![trigger t.agents[i], t.goals[j]]
        0 <= i < t.agents.len() && 0 <= j < t.goals.len() implies ((claim(t.agents[i]) == Some(
        t.goals[j].id,
    )) == (t.goals[j].goal.claimed_by == Some(t.agents[i].id))) by {
        lemma_claimed_by(s.goals, s.agents, d.picks, n, j);
        assert(t.goals[j].id == s.goals[j].id);
        assert(is_coherent(s.agents[i]));
        assert((claim(s.agents[i]) == Some(s.goals[j].id)) == (s.goals[j].goal.claimed_by == Some(
            s.agents[i].id,
        )));
        if exists|m: int| 0 <= m < n && picks_goal(#[trigger] d.picks[m], j) {
            let m = choose|m: int| 0 <= m < n && picks_goal(#[trigger] d.picks[m], j);
            assert(t.goals[j].goal.claimed_by == Some(s.agents[m].id));
            assert(claim(t.agents[m]) == Some(s.goals[j].id));
            if i != m {
                assert(s.agents[i].id != s.agents[m].id);
                match d.picks[i] {
                    Some(p) => {
                        let g = p.goal as int;
                        assert(g != j);
                        assert(s.goals[g].id != s.goals[j].id);
                    },
                    None => {
                        // the goal appealed to agent m, so nobody else held it
                        assert(appeals(s.agents[m], s.goals[j].goal));
                        assert(claim(s.agents[i]) != Some(s.goals[j].id));
                    },
                }
            }
        } else {
            assert forall|m: int| 0 <= m < n implies ((#[trigger] d.picks[m]) matches Some(p)
                ==> p.goal != j) by {
                assert(!picks_goal(d.picks[m], j));
            }
            assert(t.goals[j].goal.claimed_by == s.goals[j].goal.claimed_by);
            if let Some(p) = d.picks[i] {
                let g = p.goal as int;
                assert(g != j);
                assert(s.goals[g].id != s.goals[j].id);
                assert(claim(s.agents[i]) is None);
            }
        }
    }
}

/// Walking and arriving keep a city orderly.
proof fn lemma_walk_orderly(s: SimView, dt: Scalar)
    requires
        is_orderly(s),
    ensures
        is_orderly(s.after_walk(dt)),
{
    let t = s.after_walk(dt);
    let n = s.agents.len() as int;
    assert forall|j: int| 0 <= j < s.goals.len() implies (#[trigger] t.goals[j]).id
        == s.goals[j].id by {}
    assert forall|i: int| 0 <= i < n implies (#[trigger] t.agents[i]).id == s.agents[i].id && (
    claim(t.agents[i]) is None || (claim(t.agents[i]) == claim(s.agents[i]) && !is_done(
        s.agents[i],
        s.config,
    ))) by {}
    assert forall|i: int, k: int| 0 <= i < k < t.goals.len() implies (#[trigger] t.goals[i]).id
        != (#[trigger] t.goals[k]).id by {
        assert(s.goals[i].id != s.goals[k].id);
    }
    assert forall|i: int, k: int| 0 <= i < k < t.agents.len() implies (#[trigger] t.agents[i]).id
        != (#[trigger] t.agents[k]).id by {
        assert(s.agents[i].id != s.agents[k].id);
    }
    assert forall|j: int| 0 <= j < t.goals.len() implies (#[trigger] t.goals[j]).id.index < t.next
        && (t.goals[j].goal.claimed_by matches Some(e) ==> e.index < t.next) by {
        assert(s.goals[j].id.index < s.next);
    }
    assert forall|i: int| 0 <= i < t.agents.len() implies (#[trigger] t.agents[i]).id.index < t.next
        && (claim(t.agents[i]) matches Some(g) ==> g.index < t.next) && is_coherent(t.agents[i]) by {
        assert(s.agents[i].id.index < s.next);
        assert(is_coherent(s.agents[i]));
    }
    assert forall|i: int, j: int|
        #![trigger t.agents[i], t.goals[j]]
        0 <= i < t.agents.len() && 0 <= j < t.goals.len() implies ((claim(t.agents[i]) == Some(
        t.goals[j].id,
    )) == (t.goals[j].goal.claimed_by == Some(t.agents[i].id))) by {
        let a = s.agents[i];
        assert(is_coherent(a));
        assert((claim(a) == Some(s.goals[j].id)) == (s.goals[j].goal.claimed_by == Some(a.id)));
        if freed(s.goals, s.agents, s.config, n, j) {
            let k = choose|k: int| 0 <= k < n && #[trigger] lets_go(s.goals, s.agents[k], s.config, j);
            if claim(a) == Some(s.goals[j].id) {
                assert(s.agents[k].id == a.id);
                assert(k == i);
                assert(is_done(a, s.config));
            }
        } else if claim(a) == Some(s.goals[j].id) && is_done(a, s.config) {
            lemma_first(goal_ids(s.goals), s.goals[j].id, j);
            assert(lets_go(s.goals, s.agents[i], s.config, j));
        }
    }
}

/// A tick keeps a city orderly, so that it is one agent per goal at all
/// times.
pub proof fn law_step_keeps_order(s: SimView, dt: Scalar)
    requires
        is_orderly(s),
        s.goals.len() <= usize::MAX,
    ensures
        is_orderly(s.stepped(dt)),
{
    let s1 = s.after_decay(dt);
    lemma_claims_kept(s, s1);
    let s2 = s1.after_doze(dt);
    lemma_claims_kept(s1, s2);
    let s3 = s2.after_work(dt);
    lemma_claims_kept(s2, s3);
    let s4 = s3.after_night_rest();
    lemma_claims_kept(s3, s4);
    let s5 = s4.after_development(dt);
    lemma_claims_kept(s4, s5);
    let s6 = s5.after_orders();
    lemma_claims_kept(s5, s6);
    lemma_assignment_orderly(s6);
    let s7 = s6.after_assignment();
    lemma_walk_orderly(s7, dt);
    let s8 = s7.after_walk(dt);
    let s9 = s8.after_chat(dt);
    lemma_claims_kept(s8, s9);
}

/// An agent that drops its walk and its claim leaves the city orderly.
proof fn lemma_claim_dropped(s: SimView, e: Entity, a: AgentView)
    requires
        is_orderly(s),
        s.has_agent(e),
        a.id == e,
        a.target is None,
        is_coherent(a),
    ensures
        is_orderly(s.claim_dropped(e).with_agent(e, a)),
        s.claim_dropped(e).agents == s.agents,
{
    let t = s.claim_dropped(e).with_agent(e, a);
    let at = s.agent_index(e)->0;
    lemma_first_facts(agent_ids(s.agents), e);
    assert(s.agents[at].id == e);
    if let Some(g) = s.claim_of(e) {
        lemma_first_facts(goal_ids(s.goals), g);
    }
    assert forall|j: int| 0 <= j < s.goals.len() implies (#[trigger] t.goals[j]).id == s.goals[j].id
        && t.goals[j].goal.claimed_by == (if s.goals[j].goal.claimed_by == Some(e) {
        None
    } else {
        s.goals[j].goal.claimed_by
    }) by {
        if s.goals[j].goal.claimed_by == Some(e) {
            assert(claim(s.agents[at]) == Some(s.goals[j].id));
            lemma_first(goal_ids(s.goals), s.goals[j].id, j);
        }
    }
    assert forall|i: int| 0 <= i < s.agents.len() implies (#[trigger] t.agents[i]).id
        == s.agents[i].id && (i == at ==> claim(t.agents[i]) is None) && (i != at ==> t.agents[i]
        == s.agents[i]) by {}
    assert forall|i: int, k: int| 0 <= i < k < t.goals.len() implies (#[trigger] t.goals[i]).id
        != (#[trigger] t.goals[k]).id by {
        assert(s.goals[i].id != s.goals[k].id);
    }
    assert forall|i: int, k: int| 0 <= i < k < t.agents.len() implies (#[trigger] t.agents[i]).id
        != (#[trigger] t.agents[k]).id by {
        assert(s.agents[i].id != s.agents[k].id);
    }
    assert forall|j: int| 0 <= j < t.goals.len() implies (#[trigger] t.goals[j]).id.index < t.next
        && (t.goals[j].goal.claimed_by matches Some(h) ==> h.index < t.next) by {
        assert(s.goals[j].id.index < s.next);
    }
    assert forall|i: int| 0 <= i < t.agents.len() implies (#[trigger] t.agents[i]).id.index < t.next
        && (claim(t.agents[i]) matches Some(g) ==> g.index < t.next) && is_coherent(t.agents[i]) by {
        assert(s.agents[i].id.index < s.next);
        assert(is_coherent(s.agents[i]));
    }
    assert forall|i: int, j: int|
        #![trigger t.agents[i], t.goals[j]]
        0 <= i < t.agents.len() && 0 <= j < t.goals.len() implies ((claim(t.agents[i]) == Some(
        t.goals[j].id,
    )) == (t.goals[j].goal.claimed_by == Some(t.agents[i].id))) by {
        assert((claim(s.agents[i]) == Some(s.goals[j].id)) == (s.goals[j].goal.claimed_by == Some(
            s.agents[i].id,
        )));
        if i != at {
            assert(s.agents[i].id != s.agents[at].id);
        }
    }
}

/// Orders, hiring and dismissal keep a city orderly.
pub proof fn law_directing_keeps_order(
    s: SimView,
    agent: Entity,
    action: ActionKind,
    workplace: Entity,
)
    requires
        is_orderly(s),
        s.has_agent(agent),
    ensures
        is_orderly(s.ordered(agent, action)),
        is_orderly(s.employed(agent, workplace)),
        is_orderly(s.dismissed(agent)),
{
    reveal(SimView::ordered);
    reveal(SimView::employed);
    reveal(SimView::dismissed);
    lemma_first_facts(agent_ids(s.agents), agent);
    let a = s.agent(agent);
    assert(a.id == agent);
    lemma_claim_dropped(
        s,
        agent,
        AgentView { queue: seq![action] + a.queue, ..a.relieved() },
    );
    lemma_claim_dropped(s, agent, AgentView { employment: None, ..a.relieved() });
    assert(is_coherent(a));
    if a.commute is Some {
        lemma_claim_dropped(
            s,
            agent,
            AgentView {
                employment: Some(Employment { workplace }),
                commute: None,
                ..a.stopped(AgentState::Idle)
            },
        );
    } else {
        lemma_claims_kept(s, s.employed(agent, workplace));
    }
}

/// Moving in and out keeps a city orderly.
pub proof fn law_moving_keeps_order(s: SimView, agent: Entity, dwelling: Entity)
    requires
        is_orderly(s),
        s.has_agent(agent),
    ensures
        is_orderly(s.moved_out(agent)),
        is_orderly(s.moved_in(agent, dwelling)),
{
    reveal(SimView::moved_out);
    reveal(SimView::moved_in);
    lemma_first_facts(agent_ids(s.agents), agent);
    let out = s.moved_out(agent);
    lemma_claims_kept(s, out);
    assert(agent_ids(out.agents) =~= agent_ids(s.agents));
    lemma_claims_kept(s, s.moved_in(agent, dwelling));
}

/// Spawning keeps a city orderly.
pub proof fn law_spawning_keeps_order(
    s: SimView,
    pos: Position,
    personality: Personality,
    ads: Seq<(NeedKind, Scalar)>,
    attenuation: Scalar,
    furniture: Option<Furniture>,
)
    requires
        is_orderly(s),
        s.next < u64::MAX,
    ensures
        is_orderly(s.spawned_agent(pos, personality)),
        is_orderly(s.spawned_goal(pos.x, pos.z, ads, attenuation, furniture)),
{
    let t = s.spawned_agent(pos, personality);
    assert forall|i: int| 0 <= i < s.agents.len() implies #[trigger] t.agents[i] == s.agents[i] by {}
    assert forall|i: int, k: int| 0 <= i < k < t.agents.len() implies (#[trigger] t.agents[i]).id
        != (#[trigger] t.agents[k]).id by {
        if k == s.agents.len() {
            assert(s.agents[i].id.index < s.next);
        } else {
            assert(s.agents[i].id != s.agents[k].id);
        }
    }
    assert forall|i: int, j: int|
        #![trigger t.agents[i], t.goals[j]]
        0 <= i < t.agents.len() && 0 <= j < t.goals.len() implies ((claim(t.agents[i]) == Some(
        t.goals[j].id,
    )) == (t.goals[j].goal.claimed_by == Some(t.agents[i].id))) by {
        assert(s.goals[j].id.index < s.next);
        if i < s.agents.len() {
            assert((claim(s.agents[i]) == Some(s.goals[j].id)) == (s.goals[j].goal.claimed_by
                == Some(s.agents[i].id)));
        }
    }
    assert(is_orderly(t));
    let u = s.spawned_goal(pos.x, pos.z, ads, attenuation, furniture);
    assert forall|j: int| 0 <= j < s.goals.len() implies #[trigger] u.goals[j] == s.goals[j] by {}
    assert forall|i: int, k: int| 0 <= i < k < u.goals.len() implies (#[trigger] u.goals[i]).id
        != (#[trigger] u.goals[k]).id by {
        if k == s.goals.len() {
            assert(s.goals[i].id.index < s.next);
        } else {
            assert(s.goals[i].id != s.goals[k].id);
        }
    }
    assert forall|i: int, j: int|
        #![trigger u.agents[i], u.goals[j]]
        0 <= i < u.agents.len() && 0 <= j < u.goals.len() implies ((claim(u.agents[i]) == Some(
        u.goals[j].id,
    )) == (u.goals[j].goal.claimed_by == Some(u.agents[i].id))) by {
        if j < s.goals.len() {
            assert((claim(s.agents[i]) == Some(s.goals[j].id)) == (s.goals[j].goal.claimed_by
                == Some(s.agents[i].id)));
        } else {
            assert(s.agents[i].id.index < s.next);
        }
    }
    assert(is_orderly(u));
}

/// Removing anything keeps a city orderly.
pub proof fn law_despawning_keeps_order(s: SimView, e: Entity)
    requires
        is_orderly(s),
    ensures
        is_orderly(s.without(e)),
{
    reveal(SimView::without);
    let t = s.without(e);
    lemma_first_facts(agent_ids(s.agents), e);
    lemma_first_facts(goal_ids(s.goals), e);
    // where the rows that stay stood before
    let a = |i: int| after_gap(first_index(agent_ids(s.agents), e), i);
    let g = |j: int| after_gap(first_index(goal_ids(s.goals), e), j);
    assert forall|i: int| 0 <= i < t.agents.len() implies #[trigger] t.agents[i] == s.agents[a(i)]
        && 0 <= a(i) < s.agents.len() by {}
    assert forall|j: int| 0 <= j < t.goals.len() implies #[trigger] t.goals[j] == s.goals[g(j)]
        && 0 <= g(j) < s.goals.len() by {}
    assert forall|i: int, k: int| 0 <= i < k < t.agents.len() implies (#[trigger] t.agents[i]).id
        != (#[trigger] t.agents[k]).id by {
        assert(s.agents[a(i)].id != s.agents[a(k)].id);
    }
    assert forall|i: int, k: int| 0 <= i < k < t.goals.len() implies (#[trigger] t.goals[i]).id
        != (#[trigger] t.goals[k]).id by {
        assert(s.goals[g(i)].id != s.goals[g(k)].id);
    }
    assert forall|i: int, j: int|
        #![trigger t.agents[i], t.goals[j]]
        0 <= i < t.agents.len() && 0 <= j < t.goals.len() implies ((claim(t.agents[i]) == Some(
        t.goals[j].id,
    )) == (t.goals[j].goal.claimed_by == Some(t.agents[i].id))) by {
        assert((claim(s.agents[a(i)]) == Some(s.goals[g(j)].id)) == (
        s.goals[g(j)].goal.claimed_by == Some(s.agents[a(i)].id)));
    }
}

/// Place before one row was removed.
spec fn after_gap(gap: Option<int>, i: int) -> int {
    if gap matches Some(at) && at <= i {
        i + 1
    } else {
        i
    }
}

} // verus!
