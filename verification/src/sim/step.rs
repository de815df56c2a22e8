//! One tick of the city.

use super::agent::AgentView;
use super::city::Roads;
use super::grid::MAX_CELLS;
use super::systems::autonomy::{assign_goals, assignment};
use super::systems::needs::{decay_needs, decayed, doze_at_night, dozed};
use super::systems::night::{night_rest, rested};
use super::systems::orders::{pump_queue, pumped};
use super::systems::social::{socialize, socialized};
use super::systems::walk::{goals_after_walk, walk_agents, walked_and_arrived, Places};
use super::systems::work::{credited, earned, shifted, work_shifts};
use super::world::{building_views, BuildingRow, BuildingRowView, Sim, SimConfig, SimView};
use crate::scalar::Scalar;
use vstd::prelude::*;

verus! {

impl SimView {
    /// Everyone's needs drain.
    pub open spec fn after_decay(self, dt: Scalar) -> SimView {
        SimView {
            agents: self.agents.map_values(|a: AgentView| decayed(a, dt, self.config)),
            ..self
        }
    }

    /// Resting agents regain energy.
    pub open spec fn after_doze(self, dt: Scalar) -> SimView {
        SimView {
            agents: self.agents.map_values(|a: AgentView| dozed(a, self.hour, dt, self.config)),
            ..self
        }
    }

    /// Shifts end and begin, and work is paid.
    pub open spec fn after_work(self, dt: Scalar) -> SimView {
        let agents = self.agents.map_values(
            |a: AgentView| shifted(a, self.ground, self.workplaces, self.hour),
        );
        SimView {
            agents,
            funds: credited(
                self.funds,
                earned(
                    agents,
                    self.workplaces,
                    self.hour,
                    self.config.arrive_dist,
                    dt,
                    agents.len() as int,
                ),
            ),
            ..self
        }
    }

    /// Sleepers wake, the homed turn in.
    pub open spec fn after_night_rest(self) -> SimView {
        SimView {
            agents: self.agents.map_values(
                |a: AgentView| rested(a, self.ground, self.dwellings, self.hour),
            ),
            ..self
        }
    }

    /// Buildings develop or decay.
    pub open spec fn after_development(self, dt: Scalar) -> SimView {
        SimView {
            buildings: self.buildings.map_values(
                |b: BuildingRowView|
                    BuildingRowView { building: b.building.developed(self.ground.roads, dt), ..b },
            ),
            ..self
        }
    }

    /// Idle agents pick goals.
    pub open spec fn after_assignment(self) -> SimView {
        let r = assignment(self.ground, self.agents, self.goals, self.rng);
        SimView { agents: r.agents, goals: r.goals, rng: r.rng, ..self }
    }

    /// Idle agents with orders set out.
    pub open spec fn after_orders(self) -> SimView {
        SimView {
            agents: self.agents.map_values(|a: AgentView| pumped(a, self.ground, self.goals)),
            ..self
        }
    }

    /// Walkers walk and arrive.
    pub open spec fn after_walk(self, dt: Scalar) -> SimView {
        let places = Places {
            goals: self.goals,
            workplaces: self.workplaces,
            dwellings: self.dwellings,
            hour: self.hour,
        };
        SimView {
            agents: self.agents.map_values(
                |a: AgentView| walked_and_arrived(a, places, dt, self.config),
            ),
            goals: goals_after_walk(
                self.goals,
                self.agents,
                self.config,
                self.agents.len() as int,
            ),
            ..self
        }
    }

    /// Idle agents near each other chat.
    pub open spec fn after_chat(self, dt: Scalar) -> SimView {
        SimView {
            agents: Seq::new(
                self.agents.len(),
                |i: int| socialized(self.agents, i, dt, self.config),
            ),
            ..self
        }
    }

    /// The city `dt` seconds later.
    pub open spec fn stepped(self, dt: Scalar) -> SimView {
        self.after_decay(dt).after_doze(dt).after_work(dt).after_night_rest().after_development(
            dt,
        ).after_orders().after_assignment().after_walk(dt).after_chat(dt)
    }

    /// A tick can run: the ground is bare, or the grid is small enough for
    /// routing.
    pub open spec fn can_step(self) -> bool {
        self.ground.can_route()
    }
}

/// Buildings with road access develop toward 1, isolated ones decay.
fn develop_buildings(buildings: &mut Vec<BuildingRow>, roads: &Roads, dt: Scalar)
    ensures
        building_views(final(buildings)@) == building_views(old(buildings)@).map_values(
            |b: BuildingRowView|
                BuildingRowView { building: b.building.developed(roads@, dt), ..b },
        ),
{
    let ghost before = building_views(buildings@);
    let mut i: usize = 0;
    while i < buildings.len()
        invariant
            buildings.len() == before.len(),
            i <= buildings.len(),
            forall|j: int|
                0 <= j < i ==> (#[trigger] buildings[j])@ == (BuildingRowView {
                    building: before[j].building.developed(roads@, dt),
                    ..before[j]
                }),
            forall|j: int| i <= j < buildings.len() ==> (#[trigger] buildings[j])@ == before[j],
        decreases buildings.len() - i,
    {
        buildings[i].building.develop(roads, dt);
        i += 1;
    }
    proof {
        assert(building_views(buildings@) =~= before.map_values(
            |b: BuildingRowView|
                BuildingRowView { building: b.building.developed(roads@, dt), ..b },
        ));
    }
}

impl Sim {
    /// The grid is small enough for routing.
    pub fn routable(&self) -> (r: bool)
        ensures
            r == self@.routable(),
    {
        let n: i32 = self.obstacles.grid_n();
        if n <= 0 {
            return true;
        }
        let side: u64 = n as u64;
        proof {
            assert(side * side <= 0x7fff_ffff * 0x7fff_ffff) by (nonlinear_arith)
                requires
                    side <= 0x7fff_ffff,
            ;
        }
        side * side <= MAX_CELLS
    }

    /// A tick can run.
    pub fn can_step(&self) -> (r: bool)
        ensures
            r == self@.can_step(),
    {
        (self.obstacles.rects.len() == 0 && self.roads.0.len() == 0 && self.walls.segments.len()
            == 0) || self.routable()
    }

    /// Advance the city by `dt` seconds: decay needs, doze, work shifts,
    /// night rest, develop buildings, run the player queue, assign goals to
    /// free agents, walk, then chat.
    pub fn step(&mut self, dt: Scalar)
        requires
            old(self)@.can_step(),
        ensures
            final(self)@ == old(self)@.stepped(dt),
    {
        let cfg: SimConfig = self.config;
        let hour: u8 = self.hour.0;
        decay_needs(&mut self.agents, dt, &cfg);
        doze_at_night(&mut self.agents, hour, dt, &cfg);
        work_shifts(
            &mut self.agents,
            &mut self.funds.0,
            &self.workplaces,
            hour,
            cfg.arrive_dist,
            dt,
            &self.obstacles,
            &self.roads,
            &self.walls,
        );
        night_rest(
            &mut self.agents,
            &self.dwellings,
            hour,
            &self.obstacles,
            &self.roads,
            &self.walls,
        );
        develop_buildings(&mut self.buildings, &self.roads, dt);
        pump_queue(&mut self.agents, &self.goals, &self.obstacles, &self.roads, &self.walls);
        assign_goals(
            &mut self.agents,
            &mut self.goals,
            &mut self.rng,
            &self.obstacles,
            &self.roads,
            &self.walls,
        );
        walk_agents(
            &mut self.agents,
            &mut self.goals,
            &self.workplaces,
            &self.dwellings,
            hour,
            dt,
            &cfg,
        );
        socialize(&mut self.agents, dt, &cfg);
    }
}

} // verus!
