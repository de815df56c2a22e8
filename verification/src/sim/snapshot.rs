//! Snapshots of a city and back.

use super::agent::{Agent, AgentView, NeedKind, Needs, Personality, Position, Skills};
use super::city::{
    capacity_of, BuildingView, CityBuilding, Dwelling, Roads, Workplace, ZoneFunction,
};
use super::city_ops::{bare_ground, copied};
use super::goal::{Goal, GoalView};
use super::grid::{lemma_default_side, Obstacle, Obstacles, Wall, Walls};
use super::money::{Funds, Money, Treasury};
use super::rooms::{detect_rooms, rooms_of};
use super::route::Ground;
use super::world::{
    BuildingRow, BuildingRowView, DayCount, DwellingRow, GoalRow, GoalRowView, HourOfDay, Rooms,
    Sim, SimConfig, SimRng, SimView, WorkplaceRow, DEFAULT_SEED,
};
use super::Entity;
use crate::scalar::consts::ZERO;
use crate::scalar::{scalar, Scalar};
use crate::text::{digits, push_number, push_str};
use vstd::prelude::*;

verus! {

/// Snapshot format version. Bump when [`SimSnapshot`] changes shape; loading
/// rejects anything else.
pub const SNAPSHOT_VERSION: u32 = 1;

#[derive(Clone, Copy, Debug, PartialEq, Eq, Structural)]
pub struct AgentSnapshot {
    pub x: Scalar,
    pub z: Scalar,
    pub hunger: Scalar,
    pub energy: Scalar,
    pub sociability: Scalar,
    pub comfort: Scalar,
    pub hygiene: Scalar,
    pub bladder: Scalar,
    pub fun: Scalar,
    pub playful: Scalar,
    pub outgoing: Scalar,
    pub active: Scalar,
    pub cooking: Scalar,
    pub charisma: Scalar,
}

#[derive(Debug, PartialEq)]
pub struct GoalSnapshot {
    pub x: Scalar,
    pub z: Scalar,
    pub ads: Vec<(NeedKind, Scalar)>,
    pub attenuation: Scalar,
}

/// Mathematical content of a [`GoalSnapshot`].
pub ghost struct GoalSnapshotView {
    pub x: Scalar,
    pub z: Scalar,
    pub ads: Seq<(NeedKind, Scalar)>,
    pub attenuation: Scalar,
}

impl View for GoalSnapshot {
    type V = GoalSnapshotView;

    open spec fn view(&self) -> GoalSnapshotView {
        GoalSnapshotView {
            x: self.x,
            z: self.z,
            ads: self.ads@,
            attenuation: self.attenuation,
        }
    }
}

#[derive(Clone, Copy, Debug, PartialEq, Eq, Structural)]
pub struct WorkplaceSnapshot {
    pub x: Scalar,
    pub z: Scalar,
    pub pay_per_hour: Scalar,
    pub shift_start: u8,
    pub shift_end: u8,
}

#[derive(Debug, PartialEq)]
pub struct BuildingSnapshot {
    pub label: String,
    pub function: ZoneFunction,
    pub min_x: Scalar,
    pub min_z: Scalar,
    pub max_x: Scalar,
    pub max_z: Scalar,
    pub development: Scalar,
    pub capacity: u32,
}

impl View for BuildingSnapshot {
    type V = BuildingView;

    open spec fn view(&self) -> BuildingView {
        BuildingView {
            label: self.label@,
            function: self.function,
            min_x: self.min_x,
            min_z: self.min_z,
            max_x: self.max_x,
            max_z: self.max_z,
            development: self.development,
            capacity: self.capacity,
        }
    }
}

#[derive(Clone, Copy, Debug, PartialEq, Eq, Structural)]
pub struct DwellingSnapshot {
    pub x: Scalar,
    pub z: Scalar,
    pub capacity: u32,
    pub taken: u32,
}

/// Snapshot of a city. Identities are not preserved (claims, queues and
/// targets reference live entities); see [`Sim::restore`].
#[derive(Debug, PartialEq)]
pub struct SimSnapshot {
    pub version: u32,
    pub agents: Vec<AgentSnapshot>,
    pub goals: Vec<GoalSnapshot>,
    pub workplaces: Vec<WorkplaceSnapshot>,
    pub buildings: Vec<BuildingSnapshot>,
    pub dwellings: Vec<DwellingSnapshot>,
    pub obstacles: Vec<Obstacle>,
    pub roads: Vec<Vec<Position>>,
    pub walls: Vec<Wall>,
    pub hour: u8,
    pub day: u32,
    pub funds: i64,
    pub treasury: i64,
}

/// Mathematical content of a [`SimSnapshot`].
pub ghost struct SnapshotView {
    pub version: u32,
    pub agents: Seq<AgentSnapshot>,
    pub goals: Seq<GoalSnapshotView>,
    pub workplaces: Seq<WorkplaceSnapshot>,
    pub buildings: Seq<BuildingView>,
    pub dwellings: Seq<DwellingSnapshot>,
    pub obstacles: Seq<Obstacle>,
    pub roads: Seq<Seq<Position>>,
    pub walls: Seq<Wall>,
    pub hour: u8,
    pub day: u32,
    pub funds: i64,
    pub treasury: i64,
}

pub open spec fn road_lines(roads: Seq<Vec<Position>>) -> Seq<Seq<Position>> {
    roads.map_values(|line: Vec<Position>| line@)
}

impl View for SimSnapshot {
    type V = SnapshotView;

    open spec fn view(&self) -> SnapshotView {
        SnapshotView {
            version: self.version,
            agents: self.agents@,
            goals: self.goals@.map_values(|g: GoalSnapshot| g@),
            workplaces: self.workplaces@,
            buildings: self.buildings@.map_values(|b: BuildingSnapshot| b@),
            dwellings: self.dwellings@,
            obstacles: self.obstacles@,
            roads: road_lines(self.roads@),
            walls: self.walls@,
            hour: self.hour,
            day: self.day,
            funds: self.funds,
            treasury: self.treasury,
        }
    }
}

/// What a snapshot keeps of an agent.
pub open spec fn agent_kept(a: AgentView) -> AgentSnapshot {
    AgentSnapshot {
        x: a.pos.x,
        z: a.pos.z,
        hunger: a.needs.hunger,
        energy: a.needs.energy,
        sociability: a.needs.sociability,
        comfort: a.needs.comfort,
        hygiene: a.needs.hygiene,
        bladder: a.needs.bladder,
        fun: a.needs.fun,
        playful: a.personality.playful,
        outgoing: a.personality.outgoing,
        active: a.personality.active,
        cooking: a.skills.cooking,
        charisma: a.skills.charisma,
    }
}

/// What a snapshot keeps of a goal.
pub open spec fn goal_kept(g: GoalView) -> GoalSnapshotView {
    GoalSnapshotView { x: g.x, z: g.z, ads: g.ads, attenuation: g.attenuation }
}

/// What a snapshot keeps of a job site.
pub open spec fn workplace_kept(w: Workplace) -> WorkplaceSnapshot {
    WorkplaceSnapshot {
        x: w.x,
        z: w.z,
        pay_per_hour: w.pay_per_hour,
        shift_start: w.shift_start,
        shift_end: w.shift_end,
    }
}

/// What a snapshot keeps of a home.
pub open spec fn dwelling_kept(d: Dwelling) -> DwellingSnapshot {
    DwellingSnapshot { x: d.x, z: d.z, capacity: d.capacity, taken: d.taken }
}

impl SimView {
    /// The snapshot of a city.
    pub open spec fn kept(self) -> SnapshotView {
        SnapshotView {
            version: SNAPSHOT_VERSION,
            agents: self.agents.map_values(|a: AgentView| agent_kept(a)),
            goals: self.goals.map_values(|g: GoalRowView| goal_kept(g.goal)),
            workplaces: self.workplaces.map_values(|w: WorkplaceRow| workplace_kept(w.workplace)),
            buildings: self.buildings.map_values(|b: BuildingRowView| b.building),
            dwellings: self.dwellings.map_values(|d: DwellingRow| dwelling_kept(d.dwelling)),
            obstacles: self.ground.rects,
            roads: self.ground.roads,
            walls: self.ground.walls,
            hour: self.hour,
            day: self.day,
            funds: self.funds.cents,
            treasury: self.treasury.cents,
        }
    }
}

/// The entity with an index.
pub open spec fn entity(index: int) -> Entity {
    Entity { index: index as u64 }
}

pub open spec fn agent_restored(a: AgentSnapshot, index: int) -> AgentView {
    AgentView::fresh(
        entity(index),
        Position { x: a.x, z: a.z },
        Needs {
            hunger: a.hunger,
            energy: a.energy,
            sociability: a.sociability,
            comfort: a.comfort,
            hygiene: a.hygiene,
            bladder: a.bladder,
            fun: a.fun,
        },
        Personality { playful: a.playful, outgoing: a.outgoing, active: a.active },
        Skills { cooking: a.cooking, charisma: a.charisma },
    )
}

pub open spec fn goal_restored(g: GoalSnapshotView, index: int) -> GoalRowView {
    GoalRowView {
        id: entity(index),
        goal: GoalView {
            x: g.x,
            z: g.z,
            ads: g.ads,
            attenuation: g.attenuation,
            claimed_by: None,
        },
        furniture: None,
    }
}

pub open spec fn workplace_restored(w: WorkplaceSnapshot, index: int) -> WorkplaceRow {
    WorkplaceRow {
        id: entity(index),
        workplace: Workplace {
            x: w.x,
            z: w.z,
            pay_per_hour: w.pay_per_hour,
            shift_start: w.shift_start,
            shift_end: w.shift_end,
        },
    }
}

/// Homes reload with every bed empty.
pub open spec fn dwelling_restored(d: DwellingSnapshot, index: int) -> DwellingRow {
    DwellingRow {
        id: entity(index),
        dwelling: Dwelling { x: d.x, z: d.z, capacity: d.capacity, taken: 0 },
    }
}

/// Buildings reload with the capacity of their footprint.
pub open spec fn building_restored(b: BuildingView, index: int) -> BuildingRowView {
    BuildingRowView {
        id: entity(index),
        building: BuildingView {
            development: b.development,
            ..BuildingView::fresh(b.label, b.function, b.min_x, b.min_z, b.max_x, b.max_z)
        },
    }
}

impl SnapshotView {
    /// Number of entities that the snapshot holds.
    pub open spec fn population(self) -> nat {
        self.agents.len() + self.goals.len() + self.workplaces.len() + self.dwellings.len()
            + self.buildings.len()
    }

    /// The ground that the snapshot describes, on the default grid.
    pub open spec fn ground(self, crossed: Seq<bool>) -> Ground {
        Ground {
            rects: self.obstacles,
            walls: self.walls,
            crossed,
            roads: self.roads,
            ..bare_ground()
        }
    }

    /// The city that the snapshot restores, with the given tuning. Everyone
    /// is idle, unemployed and homeless, and nothing is claimed. Identities
    /// are dealt out anew, and the random stream starts over.
    pub open spec fn restored(self, config: SimConfig, crossed: Seq<bool>) -> SimView {
        let goals_at = self.agents.len() as int;
        let workplaces_at = goals_at + self.goals.len();
        let dwellings_at = workplaces_at + self.workplaces.len();
        let buildings_at = dwellings_at + self.dwellings.len();
        let ground = self.ground(crossed);
        SimView {
            agents: Seq::new(self.agents.len(), |i: int| agent_restored(self.agents[i], i)),
            goals: Seq::new(self.goals.len(), |i: int| goal_restored(self.goals[i], goals_at + i)),
            workplaces: Seq::new(
                self.workplaces.len(),
                |i: int| workplace_restored(self.workplaces[i], workplaces_at + i),
            ),
            dwellings: Seq::new(
                self.dwellings.len(),
                |i: int| dwelling_restored(self.dwellings[i], dwellings_at + i),
            ),
            buildings: Seq::new(
                self.buildings.len(),
                |i: int| building_restored(self.buildings[i], buildings_at + i),
            ),
            config,
            ground,
            rooms: rooms_of(ground.lattice, ground.blocked()),
            hour: (self.hour % 24) as u8,
            day: self.day,
            funds: Money { cents: self.funds, frac: scalar(ZERO) },
            treasury: Money { cents: self.treasury, frac: scalar(ZERO) },
            rng: SimRng::seeded(DEFAULT_SEED),
            next: self.population() as u64,
        }
    }
}

pub(crate) fn copied_lines(lines: &Vec<Vec<Position>>) -> (r: Vec<Vec<Position>>)
    ensures
        road_lines(r@) == road_lines(lines@),
{
    let mut r: Vec<Vec<Position>> = Vec::new();
    let mut i: usize = 0;
    while i < lines.len()
        invariant
            i <= lines.len(),
            r.len() == i,
            forall|j: int| 0 <= j < i ==> (#[trigger] r[j])@ == lines[j]@,
        decreases lines.len() - i,
    {
        r.push(copied(&lines[i]));
        i += 1;
    }
    proof {
        assert(road_lines(r@) =~= road_lines(lines@));
    }
    r
}

/// Message for a snapshot of another version.
pub open spec fn version_message(version: u32) -> Seq<char> {
    "unsupported snapshot version "@ + digits(version as nat) + " (want "@ + digits(
        SNAPSHOT_VERSION as nat,
    ) + ")"@
}

impl Sim {
    fn keep_agents(&self) -> (r: Vec<AgentSnapshot>)
        ensures
            r@ == self@.kept().agents,
    {
        let mut r: Vec<AgentSnapshot> = Vec::new();
        let mut i: usize = 0;
        while i < self.agents.len()
            invariant
                i <= self.agents.len(),
                r.len() == i,
                forall|j: int| 0 <= j < i ==> #[trigger] r[j] == agent_kept(self.agents[j]@),
            decreases self.agents.len() - i,
        {
            let a: &Agent = &self.agents[i];
            r.push(
                AgentSnapshot {
                    x: a.pos.x,
                    z: a.pos.z,
                    hunger: a.needs.hunger,
                    energy: a.needs.energy,
                    sociability: a.needs.sociability,
                    comfort: a.needs.comfort,
                    hygiene: a.needs.hygiene,
                    bladder: a.needs.bladder,
                    fun: a.needs.fun,
                    playful: a.personality.playful,
                    outgoing: a.personality.outgoing,
                    active: a.personality.active,
                    cooking: a.skills.cooking,
                    charisma: a.skills.charisma,
                },
            );
            i += 1;
        }
        proof {
            assert(r@ =~= self@.kept().agents);
        }
        r
    }

    fn keep_goals(&self) -> (r: Vec<GoalSnapshot>)
        ensures
            r@.map_values(|g: GoalSnapshot| g@) == self@.kept().goals,
    {
        let mut r: Vec<GoalSnapshot> = Vec::new();
        let mut i: usize = 0;
        while i < self.goals.len()
            invariant
                i <= self.goals.len(),
                r.len() == i,
                forall|j: int| 0 <= j < i ==> (#[trigger] r[j])@ == goal_kept(self.goals[j]@.goal),
            decreases self.goals.len() - i,
        {
            let g: &Goal = &self.goals[i].goal;
            r.push(
                GoalSnapshot { x: g.x, z: g.z, ads: copied(&g.ads), attenuation: g.attenuation },
            );
            i += 1;
        }
        proof {
            assert(r@.map_values(|g: GoalSnapshot| g@) =~= self@.kept().goals);
        }
        r
    }

    fn keep_workplaces(&self) -> (r: Vec<WorkplaceSnapshot>)
        ensures
            r@ == self@.kept().workplaces,
    {
        let mut r: Vec<WorkplaceSnapshot> = Vec::new();
        let mut i: usize = 0;
        while i < self.workplaces.len()
            invariant
                i <= self.workplaces.len(),
                r.len() == i,
                forall|j: int|
                    0 <= j < i ==> #[trigger] r[j] == workplace_kept(self.workplaces[j].workplace),
            decreases self.workplaces.len() - i,
        {
            let w: Workplace = self.workplaces[i].workplace;
            r.push(
                WorkplaceSnapshot {
                    x: w.x,
                    z: w.z,
                    pay_per_hour: w.pay_per_hour,
                    shift_start: w.shift_start,
                    shift_end: w.shift_end,
                },
            );
            i += 1;
        }
        proof {
            assert(r@ =~= self@.kept().workplaces);
        }
        r
    }

    fn keep_buildings(&self) -> (r: Vec<BuildingSnapshot>)
        ensures
            r@.map_values(|b: BuildingSnapshot| b@) == self@.kept().buildings,
    {
        let mut r: Vec<BuildingSnapshot> = Vec::new();
        let mut i: usize = 0;
        while i < self.buildings.len()
            invariant
                i <= self.buildings.len(),
                r.len() == i,
                forall|j: int| 0 <= j < i ==> (#[trigger] r[j])@ == self.buildings[j]@.building,
            decreases self.buildings.len() - i,
        {
            let b: &CityBuilding = &self.buildings[i].building;
            r.push(
                BuildingSnapshot {
                    label: b.label.clone(),
                    function: b.function,
                    min_x: b.min_x,
                    min_z: b.min_z,
                    max_x: b.max_x,
                    max_z: b.max_z,
                    development: b.development,
                    capacity: b.capacity,
                },
            );
            i += 1;
        }
        proof {
            assert(r@.map_values(|b: BuildingSnapshot| b@) =~= self@.kept().buildings);
        }
        r
    }

    fn keep_dwellings(&self) -> (r: Vec<DwellingSnapshot>)
        ensures
            r@ == self@.kept().dwellings,
    {
        let mut r: Vec<DwellingSnapshot> = Vec::new();
        let mut i: usize = 0;
        while i < self.dwellings.len()
            invariant
                i <= self.dwellings.len(),
                r.len() == i,
                forall|j: int|
                    0 <= j < i ==> #[trigger] r[j] == dwelling_kept(self.dwellings[j].dwelling),
            decreases self.dwellings.len() - i,
        {
            let d: Dwelling = self.dwellings[i].dwelling;
            r.push(DwellingSnapshot { x: d.x, z: d.z, capacity: d.capacity, taken: d.taken });
            i += 1;
        }
        proof {
            assert(r@ =~= self@.kept().dwellings);
        }
        r
    }

    /// Snapshot of agents, goals, workplaces, buildings, dwellings,
    /// obstacles, roads, walls, clock, day, funds and treasury. In-flight
    /// state (walk targets, routes, claims, commutes, home links, queues,
    /// employments) is intentionally dropped.
    pub fn snapshot(&self) -> (r: SimSnapshot)
        ensures
            r@ == self@.kept(),
    {
        SimSnapshot {
            version: SNAPSHOT_VERSION,
            agents: self.keep_agents(),
            goals: self.keep_goals(),
            workplaces: self.keep_workplaces(),
            buildings: self.keep_buildings(),
            dwellings: self.keep_dwellings(),
            obstacles: copied(&self.obstacles.rects),
            roads: copied_lines(&self.roads.0),
            walls: copied(&self.walls.segments),
            hour: self.hour.0,
            day: self.day(),
            funds: self.funds(),
            treasury: self.treasury(),
        }
    }

    /// Restore a snapshot: swaps in a fresh world, respawns agents (idle) and
    /// goals (unclaimed), restores obstacles and clock. Tuning carries over
    /// untouched. `crossed` tells which cells the snapshot's walls cross.
    pub fn restore(&mut self, snap: &SimSnapshot, crossed: Vec<bool>)
        requires
            snap@.population() <= u64::MAX,
        ensures
            final(self)@ == snap@.restored(old(self)@.config, crossed@),
    {
        let config: SimConfig = self.config;
        let ghost marks = crossed@;
        let mut next: u64 = 0;
        let mut agents: Vec<Agent> = Vec::new();
        let mut i: usize = 0;
        while i < snap.agents.len()
            invariant
                snap@.population() <= u64::MAX,
                i <= snap.agents.len(),
                next == i,
                agents.len() == i,
                forall|j: int|
                    0 <= j < i ==> (#[trigger] agents[j])@ == agent_restored(snap.agents[j], j),
            decreases snap.agents.len() - i,
        {
            let a: AgentSnapshot = snap.agents[i];
            agents.push(
                Agent::fresh(
                    Entity { index: next },
                    Position { x: a.x, z: a.z },
                    Needs {
                        hunger: a.hunger,
                        energy: a.energy,
                        sociability: a.sociability,
                        comfort: a.comfort,
                        hygiene: a.hygiene,
                        bladder: a.bladder,
                        fun: a.fun,
                    },
                    Personality { playful: a.playful, outgoing: a.outgoing, active: a.active },
                    Skills { cooking: a.cooking, charisma: a.charisma },
                ),
            );
            next = next + 1;
            i += 1;
        }
        let ghost goals_at: int = next as int;
        let mut goals: Vec<GoalRow> = Vec::new();
        let mut i: usize = 0;
        while i < snap.goals.len()
            invariant
                snap@.population() <= u64::MAX,
                goals_at == snap.agents.len(),
                i <= snap.goals.len(),
                next == goals_at + i,
                goals.len() == i,
                forall|j: int|
                    0 <= j < i ==> (#[trigger] goals[j])@ == goal_restored(
                        snap.goals[j]@,
                        goals_at + j,
                    ),
            decreases snap.goals.len() - i,
        {
            let g: &GoalSnapshot = &snap.goals[i];
            goals.push(
                GoalRow {
                    id: Entity { index: next },
                    goal: Goal {
                        x: g.x,
                        z: g.z,
                        ads: copied(&g.ads),
                        attenuation: g.attenuation,
                        claimed_by: None,
                    },
                    furniture: None,
                },
            );
            next = next + 1;
            i += 1;
        }
        let ghost workplaces_at: int = next as int;
        let mut workplaces: Vec<WorkplaceRow> = Vec::new();
        let mut i: usize = 0;
        while i < snap.workplaces.len()
            invariant
                snap@.population() <= u64::MAX,
                workplaces_at == snap.agents.len() + snap.goals.len(),
                i <= snap.workplaces.len(),
                next == workplaces_at + i,
                workplaces.len() == i,
                forall|j: int|
                    0 <= j < i ==> #[trigger] workplaces[j] == workplace_restored(
                        snap.workplaces[j],
                        workplaces_at + j,
                    ),
            decreases snap.workplaces.len() - i,
        {
            let w: WorkplaceSnapshot = snap.workplaces[i];
            workplaces.push(
                WorkplaceRow {
                    id: Entity { index: next },
                    workplace: Workplace {
                        x: w.x,
                        z: w.z,
                        pay_per_hour: w.pay_per_hour,
                        shift_start: w.shift_start,
                        shift_end: w.shift_end,
                    },
                },
            );
            next = next + 1;
            i += 1;
        }
        let ghost dwellings_at: int = next as int;
        let mut dwellings: Vec<DwellingRow> = Vec::new();
        let mut i: usize = 0;
        while i < snap.dwellings.len()
            invariant
                snap@.population() <= u64::MAX,
                dwellings_at == snap.agents.len() + snap.goals.len() + snap.workplaces.len(),
                i <= snap.dwellings.len(),
                next == dwellings_at + i,
                dwellings.len() == i,
                forall|j: int|
                    0 <= j < i ==> #[trigger] dwellings[j] == dwelling_restored(
                        snap.dwellings[j],
                        dwellings_at + j,
                    ),
            decreases snap.dwellings.len() - i,
        {
            let d: DwellingSnapshot = snap.dwellings[i];
            dwellings.push(
                DwellingRow {
                    id: Entity { index: next },
                    dwelling: Dwelling { x: d.x, z: d.z, capacity: d.capacity, taken: 0 },
                },
            );
            next = next + 1;
            i += 1;
        }
        let ghost buildings_at: int = next as int;
        let mut buildings: Vec<BuildingRow> = Vec::new();
        let mut i: usize = 0;
        while i < snap.buildings.len()
            invariant
                snap@.population() <= u64::MAX,
                buildings_at == snap.agents.len() + snap.goals.len() + snap.workplaces.len()
                    + snap.dwellings.len(),
                i <= snap.buildings.len(),
                next == buildings_at + i,
                buildings.len() == i,
                forall|j: int|
                    0 <= j < i ==> (#[trigger] buildings[j])@ == building_restored(
                        snap.buildings[j]@,
                        buildings_at + j,
                    ),
            decreases snap.buildings.len() - i,
        {
            let b: &BuildingSnapshot = &snap.buildings[i];
            let mut building = CityBuilding::new(
                b.label.clone(),
                b.function,
                b.min_x,
                b.min_z,
                b.max_x,
                b.max_z,
            );
            building.development = b.development;
            buildings.push(BuildingRow { id: Entity { index: next }, building });
            next = next + 1;
            i += 1;
        }
        let mut obstacles = Obstacles::default();
        obstacles.rects = copied(&snap.obstacles);
        let walls = Walls { segments: copied(&snap.walls), crossed };
        proof {
            lemma_default_side();
        }
        let rooms: Vec<super::rooms::Room> = detect_rooms(&obstacles, &walls);
        *self =
        Sim {
            agents,
            goals,
            workplaces,
            dwellings,
            buildings,
            config,
            obstacles,
            roads: Roads(copied_lines(&snap.roads)),
            walls,
            rooms: Rooms(rooms),
            hour: HourOfDay(snap.hour % 24),
            day: DayCount(snap.day),
            funds: Funds(Money { cents: snap.funds, frac: scalar(ZERO) }),
            treasury: Treasury(Money { cents: snap.treasury, frac: scalar(ZERO) }),
            rng: SimRng::default(),
            next,
        };
        proof {
            let t = snap@.restored(config, marks);
            assert(self@.agents =~= t.agents);
            assert(self@.goals =~= t.goals);
            assert(self@.workplaces =~= t.workplaces);
            assert(self@.dwellings =~= t.dwellings);
            assert(self@.buildings =~= t.buildings);
        }
    }

    /// Restore what was read from a text. Where nothing could be read, or the
    /// snapshot has an unknown version, the city stays as it is and the
    /// message says why. `crossed` tells which cells the snapshot's walls
    /// cross.
    pub fn load_json(
        &mut self,
        parsed: Result<SimSnapshot, String>,
        crossed: Vec<bool>,
    ) -> (r: Result<(), String>)
        requires
            parsed matches Ok(snap) ==> (snap@.version == SNAPSHOT_VERSION ==> snap@.population()
                <= u64::MAX),
        ensures
            r is Ok <==> (parsed matches Ok(snap) && snap@.version == SNAPSHOT_VERSION),
            r is Ok ==> final(self)@ == parsed->Ok_0@.restored(old(self)@.config, crossed@),
            r is Err ==> *final(self) == *old(self) && r->Err_0@ == load_message(parsed),
    {
        match parsed {
            Err(message) => Err(message),
            Ok(snap) => {
                if snap.version != SNAPSHOT_VERSION {
                    return Err(complaint(snap.version));
                }
                self.restore(&snap, crossed);
                Ok(())
            },
        }
    }
}

/// Why what was read cannot be loaded.
pub open spec fn load_message(parsed: Result<SimSnapshot, String>) -> Seq<char> {
    match parsed {
        Err(message) => message@,
        Ok(snap) => version_message(snap@.version),
    }
}

/// Message for a snapshot of another version.
fn complaint(version: u32) -> (m: String)
    ensures
        m@ == version_message(version),
{
    let mut m = String::new();
    push_str(&mut m, "unsupported snapshot version ");
    push_number(&mut m, version as u64);
    push_str(&mut m, " (want ");
    push_number(&mut m, SNAPSHOT_VERSION as u64);
    push_str(&mut m, ")");
    proof {
        assert(m@ =~= version_message(version));
    }
    m
}

/// The clock shows a valid hour, and buildings have the capacity of their
/// footprints.
pub open spec fn is_regular(s: SimView) -> bool {
    &&& s.hour < 24
    &&& forall|i: int|
        0 <= i < s.buildings.len() ==> has_footprint_capacity(
            (#[trigger] s.buildings[i]).building,
        )
}

pub open spec fn has_footprint_capacity(b: BuildingView) -> bool {
    b.capacity == capacity_of(b.min_x, b.min_z, b.max_x, b.max_z)
}

/// Cities are regular: a new one and a restored one are, and ticks, the clock
/// and new buildings keep them so.
pub proof fn law_cities_are_regular(
    s: SimView,
    snap: SnapshotView,
    crossed: Seq<bool>,
    dt: Scalar,
    hour: u8,
    b: BuildingView,
)
    requires
        is_regular(s),
    ensures
        is_regular(SimView::empty()),
        is_regular(snap.restored(s.config, crossed)),
        is_regular(s.stepped(dt)),
        is_regular(s.at_hour(hour)),
        is_regular(
            s.spawned_building(
                BuildingView::fresh(b.label, b.function, b.min_x, b.min_z, b.max_x, b.max_z),
            ),
        ),
{
    let t = s.stepped(dt);
    assert forall|i: int| 0 <= i < t.buildings.len() implies has_footprint_capacity(
        (#[trigger] t.buildings[i]).building,
    ) by {
        assert(has_footprint_capacity(s.buildings[i].building));
    }
}

impl SnapshotView {
    /// The snapshot with every bed empty.
    pub open spec fn with_empty_beds(self) -> SnapshotView {
        SnapshotView {
            dwellings: self.dwellings.map_values(
                |d: DwellingSnapshot| DwellingSnapshot { taken: 0, ..d },
            ),
            ..self
        }
    }
}

/// What one city saves another can load, and then saves the same, up to the
/// beds taken: these reload empty.
pub proof fn law_save_and_load(s: SimView, config: SimConfig, crossed: Seq<bool>)
    requires
        is_regular(s),
    ensures
        s.kept().version == SNAPSHOT_VERSION,
        s.kept().restored(config, crossed).kept() == s.kept().with_empty_beds(),
{
    let snap = s.kept();
    let t = snap.restored(config, crossed).kept();
    assert(t.agents =~= snap.agents);
    assert(t.goals =~= snap.goals);
    assert(t.workplaces =~= snap.workplaces);
    assert(t.dwellings =~= snap.with_empty_beds().dwellings);
    assert forall|i: int| 0 <= i < snap.buildings.len() implies t.buildings[i]
        == snap.buildings[i] by {
        assert(has_footprint_capacity(s.buildings[i].building));
    }
    assert(t.buildings =~= snap.buildings);
}

/// Restoring a snapshot and taking one again gives the snapshot back, where
/// it has the current version and a valid hour, its beds are empty and its
/// buildings have the capacity of their footprints.
pub proof fn law_snapshot_round_trip(snap: SnapshotView, config: SimConfig, crossed: Seq<bool>)
    requires
        snap.version == SNAPSHOT_VERSION,
        snap.hour < 24,
        forall|i: int| 0 <= i < snap.dwellings.len() ==> (#[trigger] snap.dwellings[i]).taken == 0,
        forall|i: int|
            0 <= i < snap.buildings.len() ==> (#[trigger] snap.buildings[i]).capacity
                == capacity_of(
                snap.buildings[i].min_x,
                snap.buildings[i].min_z,
                snap.buildings[i].max_x,
                snap.buildings[i].max_z,
            ),
    ensures
        snap.restored(config, crossed).kept() == snap,
{
    let t = snap.restored(config, crossed).kept();
    assert(t.agents =~= snap.agents);
    assert(t.goals =~= snap.goals);
    assert(t.workplaces =~= snap.workplaces);
    assert(t.dwellings =~= snap.dwellings);
    assert forall|i: int| 0 <= i < snap.buildings.len() implies t.buildings[i]
        == snap.buildings[i] by {}
    assert(t.buildings =~= snap.buildings);
}

/// Everyone restored is idle, unemployed, homeless, without orders and not
/// walking; no goal is claimed and no bed is taken.
pub proof fn law_restore_drops_activity(
    snap: SnapshotView,
    config: SimConfig,
    crossed: Seq<bool>,
    i: int,
)
    ensures
        ({
            let s = snap.restored(config, crossed);
            &&& 0 <= i < s.agents.len() ==> s.agents[i] == AgentView::fresh(
                s.agents[i].id,
                s.agents[i].pos,
                s.agents[i].needs,
                s.agents[i].personality,
                s.agents[i].skills,
            )
            &&& 0 <= i < s.goals.len() ==> s.goals[i].goal.claimed_by is None
            &&& 0 <= i < s.dwellings.len() ==> s.dwellings[i].dwelling.taken == 0
        }),
{
}

/// Tuning carries over a restore untouched.
pub proof fn law_restore_keeps_tuning(snap: SnapshotView, config: SimConfig, crossed: Seq<bool>)
    ensures
        snap.restored(config, crossed).config == config,
{
}

} // verus!
