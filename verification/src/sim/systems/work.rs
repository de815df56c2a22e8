//! Job shifts and pay.

use super::walk::{dist2, distance2, reach2, reach_squared};
use crate::scalar::consts::{SECONDS_PER_HOUR, ZERO};
use crate::scalar::{scalar, Scalar};
use crate::sim::agent::{Agent, AgentState, AgentView, Commute, Employment, Position, WalkTarget};
use crate::sim::city::{in_shift, on_shift, Roads, Workplace};
use crate::sim::grid::{Obstacles, Walls};
use crate::sim::money::Money;
use crate::sim::route::{ground_of, plan_route, Ground};
use crate::sim::world::{agent_views, find_workplace, workplace_at, WorkplaceRow};
use vstd::prelude::*;

verus! {

/// The commute is still good: the site stands, the agent works there, and
/// the shift is on.
pub open spec fn commute_holds(a: AgentView, c: Commute, sites: Seq<WorkplaceRow>, hour: u8) -> bool {
    workplace_at(sites, c.0) matches Some(w) && a.employment == Some(Employment { workplace: c.0 })
        && on_shift(hour, w.shift_start, w.shift_end)
}

/// Work-directed agents whose shift is over, who moved jobs or lost the site
/// clock out.
pub open spec fn clocked_out(a: AgentView, sites: Seq<WorkplaceRow>, hour: u8) -> AgentView {
    match a.commute {
        Some(c) => if (a.state == AgentState::Working || a.state == AgentState::SeekGoal)
            && !commute_holds(a, c, sites, hour) {
            AgentView { commute: None, ..a.stopped(AgentState::Idle) }
        } else {
            a
        },
        None => a,
    }
}

/// The site an agent should head for now: it is idle without orders, errand
/// or commute, and its shift is on.
pub open spec fn due_at(a: AgentView, sites: Seq<WorkplaceRow>, hour: u8) -> Option<Workplace> {
    if a.state != AgentState::Idle || a.queue.len() > 0 || a.commute is Some || a.target is Some {
        None
    } else {
        match a.employment {
            Some(e) => match workplace_at(sites, e.workplace) {
                Some(w) => if on_shift(hour, w.shift_start, w.shift_end) {
                    Some(w)
                } else {
                    None
                },
                None => None,
            },
            None => None,
        }
    }
}

/// Idle employees head to work in-shift, where it can be reached.
pub open spec fn commuting(
    a: AgentView,
    ground: Ground,
    sites: Seq<WorkplaceRow>,
    hour: u8,
) -> AgentView {
    match due_at(a, sites, hour) {
        Some(w) => match ground.plan(a.pos, Position { x: w.x, z: w.z }) {
            Some(route) => AgentView {
                commute: Some(Commute(a.employment->0.workplace)),
                ..a.sent(WalkTarget { x: w.x, z: w.z, claim: None }, route)
            },
            None => a,
        },
        None => a,
    }
}

/// The site that pays an agent: it works there, on site and in-shift.
pub open spec fn paid_by(
    a: AgentView,
    sites: Seq<WorkplaceRow>,
    hour: u8,
    arrive: Scalar,
) -> Option<Workplace> {
    if a.state != AgentState::Working {
        None
    } else {
        match a.employment {
            Some(e) => match workplace_at(sites, e.workplace) {
                Some(w) => if on_shift(hour, w.shift_start, w.shift_end) && dist2(
                    w.x,
                    w.z,
                    a.pos,
                ).le_spec(reach2(arrive)) {
                    Some(w)
                } else {
                    None
                },
                None => None,
            },
            None => None,
        }
    }
}

/// Dollars that the first `k` agents earn in `dt` seconds.
pub open spec fn earned(
    agents: Seq<AgentView>,
    sites: Seq<WorkplaceRow>,
    hour: u8,
    arrive: Scalar,
    dt: Scalar,
    k: int,
) -> Scalar
    decreases k,
{
    if k <= 0 {
        scalar(ZERO)
    } else {
        let sum = earned(agents, sites, hour, arrive, dt, k - 1);
        match paid_by(agents[k - 1], sites, hour, arrive) {
            Some(w) => sum.add_spec(
                w.pay_per_hour.div_spec(scalar(SECONDS_PER_HOUR)).mul_spec(dt),
            ),
            None => sum,
        }
    }
}

/// An account after an amount in dollars, which zero leaves alone.
pub open spec fn credited(m: Money, dollars: Scalar) -> Money {
    if dollars.same_spec(scalar(ZERO)) {
        m
    } else {
        m.accrued(dollars)
    }
}

/// Add an amount in dollars, unless it is zero.
pub(crate) fn credit(m: &mut Money, dollars: Scalar)
    ensures
        *final(m) == credited(*old(m), dollars),
{
    if !dollars.same(scalar(ZERO)) {
        m.accrue(dollars);
    }
}

/// One agent after clocking out and commuting.
pub open spec fn shifted(
    a: AgentView,
    ground: Ground,
    sites: Seq<WorkplaceRow>,
    hour: u8,
) -> AgentView {
    commuting(clocked_out(a, sites, hour), ground, sites, hour)
}

fn clock_out(a: &mut Agent, sites: &Vec<WorkplaceRow>, hour: u8)
    ensures
        final(a)@ == clocked_out(old(a)@, sites@, hour),
{
    if let Some(c) = a.commute {
        if a.state == AgentState::Working || a.state == AgentState::SeekGoal {
            let ok: bool = match find_workplace(sites, c.0) {
                Some(w) => match a.employment {
                    Some(e) => e.workplace == c.0 && in_shift(hour, w.shift_start, w.shift_end),
                    None => false,
                },
                None => false,
            };
            if !ok {
                a.commute = None;
                a.stop(AgentState::Idle);
            }
        }
    }
}

fn commute(
    a: &mut Agent,
    sites: &Vec<WorkplaceRow>,
    hour: u8,
    obs: &Obstacles,
    roads: &Roads,
    walls: &Walls,
)
    requires
        ground_of(obs, roads, walls).can_route(),
    ensures
        final(a)@ == commuting(old(a)@, ground_of(obs, roads, walls), sites@, hour),
{
    if a.state != AgentState::Idle || a.queue.0.len() > 0 || a.commute.is_some()
        || a.target.is_some() {
        return;
    }
    if let Some(e) = a.employment {
        if let Some(w) = find_workplace(sites, e.workplace) {
            if in_shift(hour, w.shift_start, w.shift_end) {
                let to = Position { x: w.x, z: w.z };
                if let Some(points) = plan_route(obs, roads, walls, a.pos, to) {
                    a.commute = Some(Commute(e.workplace));
                    a.send(WalkTarget { x: w.x, z: w.z, claim: None }, points);
                }
            }
        }
    }
}

fn payer(a: &Agent, sites: &Vec<WorkplaceRow>, hour: u8, arrive: Scalar) -> (r: Option<Workplace>)
    ensures
        r == paid_by(a@, sites@, hour, arrive),
{
    if a.state != AgentState::Working {
        return None;
    }
    if let Some(e) = a.employment {
        if let Some(w) = find_workplace(sites, e.workplace) {
            if in_shift(hour, w.shift_start, w.shift_end) && distance2(w.x, w.z, a.pos).le(
                reach_squared(arrive),
            ) {
                return Some(w);
            }
        }
    }
    None
}

/// Job shifts: clock out commute holders whose job ended, moved, or
/// vanished; send idle employees to work in-shift; pay on-site workers.
pub fn work_shifts(
    agents: &mut Vec<Agent>,
    funds: &mut Money,
    sites: &Vec<WorkplaceRow>,
    hour: u8,
    arrive: Scalar,
    dt: Scalar,
    obs: &Obstacles,
    roads: &Roads,
    walls: &Walls,
)
    requires
        ground_of(obs, roads, walls).can_route(),
    ensures
        ({
            let ground = ground_of(obs, roads, walls);
            let after = agent_views(old(agents)@).map_values(
                |a: AgentView| shifted(a, ground, sites@, hour),
            );
            &&& agent_views(final(agents)@) == after
            &&& *final(funds) == credited(
                *old(funds),
                earned(after, sites@, hour, arrive, dt, after.len() as int),
            )
        }),
{
    let ghost ground = ground_of(obs, roads, walls);
    let ghost before = agent_views(agents@);
    let ghost after = before.map_values(|a: AgentView| shifted(a, ground, sites@, hour));
    let mut i: usize = 0;
    while i < agents.len()
        invariant
            ground_of(obs, roads, walls).can_route(),
            ground == ground_of(obs, roads, walls),
            agents.len() == before.len(),
            i <= agents.len(),
            forall|j: int|
                0 <= j < i ==> (#[trigger] agents[j])@ == shifted(before[j], ground, sites@, hour),
            forall|j: int| i <= j < agents.len() ==> (#[trigger] agents[j])@ == before[j],
        decreases agents.len() - i,
    {
        let a: &mut Agent = &mut agents[i];
        clock_out(a, sites, hour);
        commute(a, sites, hour, obs, roads, walls);
        i += 1;
    }
    proof {
        assert(agent_views(agents@) =~= after);
    }
    let mut sum: Scalar = scalar(ZERO);
    let mut k: usize = 0;
    while k < agents.len()
        invariant
            after == agent_views(agents@),
            k <= agents.len(),
            sum == earned(after, sites@, hour, arrive, dt, k as int),
        decreases agents.len() - k,
    {
        assert(after[k as int] == agents[k as int]@);
        if let Some(w) = payer(&agents[k], sites, hour, arrive) {
            sum = sum.add(w.pay_per_hour.div(scalar(SECONDS_PER_HOUR)).mul(dt));
        }
        k += 1;
    }
    credit(funds, sum);
}

} // verus!
