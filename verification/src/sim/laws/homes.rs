//! Beds are counted.

use crate::scalar::Scalar;
use crate::sim::agent::{AgentView, Home, Personality, Position};
use crate::sim::city::Dwelling;
use crate::sim::snapshot::SnapshotView;
use crate::sim::world::{
    agent_ids, dwelling_at, dwelling_ids, lemma_first_facts, DwellingRow, SimConfig, SimView,
};
use crate::sim::Entity;
use vstd::prelude::*;

verus! {

/// How many of the first `k` agents live in a home.
pub open spec fn residents(agents: Seq<AgentView>, home: Entity, k: int) -> nat
    decreases k,
{
    if k <= 0 {
        0
    } else {
        residents(agents, home, k - 1) + if agents[k - 1].home == Some(Home(home)) {
            1nat
        } else {
            0
        }
    }
}

/// Identities are dealt out once each, every home counts its residents, and
/// no home is overfull.
pub open spec fn is_housed(s: SimView) -> bool {
    &&& forall|i: int, k: int|
        0 <= i < k < s.agents.len() ==> (#[trigger] s.agents[i]).id != (#[trigger] s.agents[k]).id
    &&& forall|i: int, k: int|
        0 <= i < k < s.dwellings.len() ==> (#[trigger] s.dwellings[i]).id != (
        #[trigger] s.dwellings[k]).id
    &&& forall|i: int|
        0 <= i < s.agents.len() ==> (#[trigger] s.agents[i]).id.index < s.next && (
        s.agents[i].home matches Some(h) ==> h.0.index < s.next)
    &&& forall|j: int|
        0 <= j < s.dwellings.len() ==> {
            &&& (#[trigger] s.dwellings[j]).id.index < s.next
            &&& s.dwellings[j].dwelling.taken == residents(
                s.agents,
                s.dwellings[j].id,
                s.agents.len() as int,
            )
            &&& s.dwellings[j].dwelling.taken <= s.dwellings[j].dwelling.capacity
        }
}

proof fn lemma_same_residents(a: Seq<AgentView>, b: Seq<AgentView>, home: Entity, k: int)
    requires
        forall|i: int|
            0 <= i < k ==> ((#[trigger] a[i]).home == Some(Home(home))) == (b[i].home == Some(
                Home(home),
            )),
    ensures
        residents(a, home, k) == residents(b, home, k),
    decreases k,
{
    if k > 0 {
        assert(a[k - 1].home == Some(Home(home)) <==> b[k - 1].home == Some(Home(home)));
        lemma_same_residents(a, b, home, k - 1);
    }
}

/// One agent's move changes a home's count by that agent alone.
proof fn lemma_one_moves(agents: Seq<AgentView>, at: int, a: AgentView, home: Entity, k: int)
    requires
        0 <= at < k <= agents.len(),
    ensures
        residents(agents.update(at, a), home, k) + (if agents[at].home == Some(Home(home)) {
            1nat
        } else {
            0
        }) == residents(agents, home, k) + (if a.home == Some(Home(home)) {
            1nat
        } else {
            0
        }),
    decreases k,
{
    let b = agents.update(at, a);
    if at == k - 1 {
        lemma_same_residents(agents, b, home, k - 1);
    } else {
        lemma_one_moves(agents, at, a, home, k - 1);
    }
}

/// A new city is housed.
pub proof fn law_new_city_is_housed()
    ensures
        is_housed(SimView::empty()),
{
}

proof fn lemma_nobody(agents: Seq<AgentView>, home: Entity, k: int)
    requires
        forall|i: int| 0 <= i < k ==> (#[trigger] agents[i]).home != Some(Home(home)),
    ensures
        residents(agents, home, k) == 0,
    decreases k,
{
    if k > 0 {
        lemma_nobody(agents, home, k - 1);
    }
}

/// A restored city is housed: beds reload empty and nobody has a home.
pub proof fn law_restored_city_is_housed(
    snap: SnapshotView,
    config: SimConfig,
    crossed: Seq<bool>,
)
    requires
        snap.population() <= u64::MAX,
    ensures
        is_housed(snap.restored(config, crossed)),
{
    let s = snap.restored(config, crossed);
    assert forall|j: int| 0 <= j < s.dwellings.len() implies ({
        &&& (#[trigger] s.dwellings[j]).id.index < s.next
        &&& s.dwellings[j].dwelling.taken == residents(
            s.agents,
            s.dwellings[j].id,
            s.agents.len() as int,
        )
        &&& s.dwellings[j].dwelling.taken <= s.dwellings[j].dwelling.capacity
    }) by {
        lemma_nobody(s.agents, s.dwellings[j].id, s.agents.len() as int);
    }
}

/// Moving out keeps a city housed.
pub proof fn law_moving_out_keeps_housing(s: SimView, agent: Entity)
    requires
        is_housed(s),
        s.has_agent(agent),
    ensures
        is_housed(s.moved_out(agent)),
{
    reveal(SimView::moved_out);
    let t = s.moved_out(agent);
    let n = s.agents.len() as int;
    let at = s.agent_index(agent)->0;
    lemma_first_facts(agent_ids(s.agents), agent);
    if let Some(h) = s.agents[at].home {
        lemma_first_facts(dwelling_ids(s.dwellings), h.0);
    }
    assert forall|j: int| 0 <= j < t.dwellings.len() implies ({
        &&& (#[trigger] t.dwellings[j]).id.index < t.next
        &&& t.dwellings[j].dwelling.taken == residents(t.agents, t.dwellings[j].id, n)
        &&& t.dwellings[j].dwelling.taken <= t.dwellings[j].dwelling.capacity
    }) by {
        let d = s.dwellings[j];
        assert(t.dwellings[j].id == d.id);
        lemma_one_moves(s.agents, at, t.agents[at], d.id, n);
        assert(d.dwelling.taken == residents(s.agents, d.id, n));
        if s.agents[at].home == Some(Home(d.id)) {
            let k = s.dwelling_index(d.id)->0;
            assert(dwelling_ids(s.dwellings)[j] == d.id);
            assert(s.dwellings[k].id == s.dwellings[j].id);
            assert(k == j);
        }
    }
    assert forall|i: int, k: int| 0 <= i < k < t.agents.len() implies (#[trigger] t.agents[i]).id
        != (#[trigger] t.agents[k]).id by {
        assert(s.agents[i].id != s.agents[k].id);
    }
    assert forall|i: int, k: int| 0 <= i < k < t.dwellings.len() implies (
    #[trigger] t.dwellings[i]).id != (#[trigger] t.dwellings[k]).id by {
        assert(s.dwellings[i].id != s.dwellings[k].id);
    }
    assert forall|i: int| 0 <= i < t.agents.len() implies (#[trigger] t.agents[i]).id.index < t.next
        && (t.agents[i].home matches Some(h) ==> h.0.index < t.next) by {
        assert(s.agents[i].id.index < s.next);
    }
}

/// Moving in keeps a city housed.
pub proof fn law_moving_in_keeps_housing(s: SimView, agent: Entity, dwelling: Entity)
    requires
        is_housed(s),
        s.has_agent(agent),
    ensures
        is_housed(s.moved_in(agent, dwelling)),
{
    reveal(SimView::moved_in);
    reveal(SimView::moved_out);
    if s.agent(agent).home == Some(Home(dwelling)) || !s.has_bed(dwelling) {
        return;
    }
    let t = s.moved_in(agent, dwelling);
    let out = s.moved_out(agent);
    let n = s.agents.len() as int;
    let at = s.agent_index(agent)->0;
    let bed = s.dwelling_index(dwelling)->0;
    law_moving_out_keeps_housing(s, agent);
    lemma_first_facts(agent_ids(s.agents), agent);
    lemma_first_facts(dwelling_ids(s.dwellings), dwelling);
    if let Some(h) = s.agents[at].home {
        lemma_first_facts(dwelling_ids(s.dwellings), h.0);
    }
    assert(agent_ids(out.agents) =~= agent_ids(s.agents));
    assert(dwelling_ids(out.dwellings) =~= dwelling_ids(s.dwellings));
    assert(out.dwellings[bed] == s.dwellings[bed]);
    assert forall|j: int| 0 <= j < t.dwellings.len() implies ({
        &&& (#[trigger] t.dwellings[j]).id.index < t.next
        &&& t.dwellings[j].dwelling.taken == residents(t.agents, t.dwellings[j].id, n)
        &&& t.dwellings[j].dwelling.taken <= t.dwellings[j].dwelling.capacity
    }) by {
        let d = out.dwellings[j];
        assert(t.dwellings[j].id == d.id);
        lemma_one_moves(out.agents, at, t.agents[at], d.id, n);
        assert(d.dwelling.taken == residents(out.agents, d.id, n));
        if d.id == dwelling {
            assert(s.dwellings[bed].id == dwelling);
            assert(out.dwellings[bed].id == out.dwellings[j].id);
            assert(bed == j);
        }
    }
    assert forall|i: int, k: int| 0 <= i < k < t.agents.len() implies (#[trigger] t.agents[i]).id
        != (#[trigger] t.agents[k]).id by {
        assert(out.agents[i].id != out.agents[k].id);
    }
    assert forall|i: int, k: int| 0 <= i < k < t.dwellings.len() implies (
    #[trigger] t.dwellings[i]).id != (#[trigger] t.dwellings[k]).id by {
        assert(out.dwellings[i].id != out.dwellings[k].id);
    }
    assert forall|i: int| 0 <= i < t.agents.len() implies (#[trigger] t.agents[i]).id.index < t.next
        && (t.agents[i].home matches Some(h) ==> h.0.index < t.next) by {
        assert(out.agents[i].id.index < out.next);
        assert(s.dwellings[bed].id.index < s.next);
    }
}

/// Moving out again undoes a move in: every bed is as it was.
pub proof fn law_moving_out_undoes_moving_in(s: SimView, agent: Entity, dwelling: Entity)
    requires
        s.has_agent(agent),
        s.agent(agent).home is None,
        s.has_bed(dwelling),
    ensures
        s.moved_in(agent, dwelling).moved_out(agent).dwellings == s.dwellings,
        s.moved_in(agent, dwelling).moved_out(agent).agents == s.moved_out(agent).agents,
{
    reveal(SimView::moved_in);
    reveal(SimView::moved_out);
    let at = s.agent_index(agent)->0;
    let bed = s.dwelling_index(dwelling)->0;
    lemma_first_facts(agent_ids(s.agents), agent);
    lemma_first_facts(dwelling_ids(s.dwellings), dwelling);
    let out = s.moved_out(agent);
    assert(agent_ids(out.agents) =~= agent_ids(s.agents));
    let t = s.moved_in(agent, dwelling);
    assert(agent_ids(t.agents) =~= agent_ids(s.agents));
    assert(dwelling_ids(t.dwellings) =~= dwelling_ids(s.dwellings));
    assert(t.moved_out(agent).dwellings =~= s.dwellings);
    assert(t.moved_out(agent).agents =~= out.agents);
}

/// A refused move changes nothing: a full house, or one that is gone, leaves
/// the old home in place.
pub proof fn law_refused_move_keeps_home(s: SimView, agent: Entity, dwelling: Entity)
    requires
        !s.has_bed(dwelling),
    ensures
        s.moved_in(agent, dwelling) == s,
{
    reveal(SimView::moved_in);
}

/// Spawning agents and homes keeps a city housed.
pub proof fn law_spawning_keeps_housing(
    s: SimView,
    pos: Position,
    personality: Personality,
    capacity: u32,
)
    requires
        is_housed(s),
        s.next < u64::MAX,
    ensures
        is_housed(s.spawned_agent(pos, personality)),
        is_housed(
            s.spawned_dwelling((Dwelling { x: pos.x, z: pos.z, capacity, taken: 0 })),
        ),
{
    let n = s.agents.len() as int;
    let t = s.spawned_agent(pos, personality);
    assert forall|i: int| 0 <= i < n implies #[trigger] t.agents[i] == s.agents[i] by {}
    assert forall|i: int, k: int| 0 <= i < k < t.agents.len() implies (#[trigger] t.agents[i]).id
        != (#[trigger] t.agents[k]).id by {
        if k == n {
            assert(s.agents[i].id.index < s.next);
        } else {
            assert(s.agents[i].id != s.agents[k].id);
        }
    }
    assert forall|j: int| 0 <= j < t.dwellings.len() implies ({
        &&& (#[trigger] t.dwellings[j]).id.index < t.next
        &&& t.dwellings[j].dwelling.taken == residents(t.agents, t.dwellings[j].id, n + 1)
        &&& t.dwellings[j].dwelling.taken <= t.dwellings[j].dwelling.capacity
    }) by {
        assert(s.dwellings[j].id.index < s.next);
        lemma_same_residents(s.agents, t.agents, s.dwellings[j].id, n);
    }
    let d = Dwelling { x: pos.x, z: pos.z, capacity, taken: 0 };
    let u = s.spawned_dwelling(d);
    let m = s.dwellings.len() as int;
    assert forall|j: int| 0 <= j < m implies #[trigger] u.dwellings[j] == s.dwellings[j] by {}
    assert forall|i: int, k: int| 0 <= i < k < u.dwellings.len() implies (
    #[trigger] u.dwellings[i]).id != (#[trigger] u.dwellings[k]).id by {
        if k == m {
            assert(s.dwellings[i].id.index < s.next);
        } else {
            assert(s.dwellings[i].id != s.dwellings[k].id);
        }
    }
    assert forall|j: int| 0 <= j < u.dwellings.len() implies ({
        &&& (#[trigger] u.dwellings[j]).id.index < u.next
        &&& u.dwellings[j].dwelling.taken == residents(u.agents, u.dwellings[j].id, n)
        &&& u.dwellings[j].dwelling.taken <= u.dwellings[j].dwelling.capacity
    }) by {
        if j == m {
            assert forall|i: int| 0 <= i < n implies (#[trigger] s.agents[i]).home != Some(
                Home(u.dwellings[j].id),
            ) by {
                assert(s.agents[i].id.index < s.next);
            }
            lemma_nobody(s.agents, u.dwellings[j].id, n);
        } else {
            assert(s.dwellings[j].id.index < s.next);
        }
    }
    assert forall|i: int| 0 <= i < u.agents.len() implies (#[trigger] u.agents[i]).id.index < u.next
        && (u.agents[i].home matches Some(h) ==> h.0.index < u.next) by {
        assert(s.agents[i].id.index < s.next);
    }
}

/// The home of an agent is gone.
spec fn is_homeless(a: AgentView, homes: Seq<DwellingRow>) -> bool {
    a.home matches Some(h) && dwelling_at(homes, h.0) is None
}

/// A tick keeps a city housed.
pub proof fn law_step_keeps_housing(s: SimView, dt: Scalar)
    requires
        is_housed(s),
    ensures
        is_housed(s.stepped(dt)),
{
    let t = s.stepped(dt);
    let n = s.agents.len() as int;
    let before = s.after_decay(dt).after_doze(dt).after_work(dt);
    assert forall|i: int| 0 <= i < n implies (#[trigger] t.agents[i]).id == s.agents[i].id && (
    t.agents[i].home == s.agents[i].home || (t.agents[i].home is None && is_homeless(
        s.agents[i],
        s.dwellings,
    ))) by {
        let a = before.agents[i];
        assert(a.id == s.agents[i].id && a.home == s.agents[i].home);
        let rested = before.after_night_rest().agents[i];
        assert(rested.id == a.id);
        let six = before.after_night_rest().after_development(dt).after_orders().agents[i];
        assert(six.id == a.id && six.home == rested.home);
        let seven = before.after_night_rest().after_development(
            dt,
        ).after_orders().after_assignment().agents[i];
        assert(seven.id == a.id && seven.home == rested.home);
        let eight = before.after_night_rest().after_development(
            dt,
        ).after_orders().after_assignment().after_walk(dt).agents[i];
        assert(eight.id == a.id && eight.home == rested.home);
        assert(t.agents[i].home == rested.home);
    }
    assert(t.dwellings == s.dwellings && t.next == s.next);
    assert forall|i: int, k: int| 0 <= i < k < t.agents.len() implies (#[trigger] t.agents[i]).id
        != (#[trigger] t.agents[k]).id by {
        assert(s.agents[i].id != s.agents[k].id);
    }
    assert forall|i: int| 0 <= i < t.agents.len() implies (#[trigger] t.agents[i]).id.index < t.next
        && (t.agents[i].home matches Some(h) ==> h.0.index < t.next) by {
        assert(s.agents[i].id.index < s.next);
    }
    assert forall|j: int| 0 <= j < t.dwellings.len() implies ({
        &&& (#[trigger] t.dwellings[j]).id.index < t.next
        &&& t.dwellings[j].dwelling.taken == residents(t.agents, t.dwellings[j].id, n)
        &&& t.dwellings[j].dwelling.taken <= t.dwellings[j].dwelling.capacity
    }) by {
        let e = s.dwellings[j].id;
        assert forall|i: int| 0 <= i < n implies ((#[trigger] s.agents[i]).home == Some(Home(e)))
            == (t.agents[i].home == Some(Home(e))) by {
            assert(t.agents[i].id == s.agents[i].id);
            lemma_first_facts(dwelling_ids(s.dwellings), e);
            assert(dwelling_ids(s.dwellings)[j] == e);
        }
        lemma_same_residents(s.agents, t.agents, e, n);
    }
}

} // verus!
