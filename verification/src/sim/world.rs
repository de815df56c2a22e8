//! The state of a city.

use super::agent::{Agent, AgentView, Position};
use super::city::{BuildingView, CityBuilding, Dwelling, Roads, Workplace};
use super::goal::{Furniture, Goal, GoalView};
use super::grid::{Obstacles, Walls};
use super::money::{Funds, Money, Treasury};
use super::rooms::Room;
use super::route::{ground_of, Ground};
use super::Entity;
use crate::scalar::{scalar, Scalar};
use vstd::prelude::*;

verus! {

/// A goal in the city, with its marker where it is furniture.
#[derive(Debug)]
pub struct GoalRow {
    pub id: Entity,
    pub goal: Goal,
    pub furniture: Option<Furniture>,
}

/// Mathematical content of a [`GoalRow`].
pub ghost struct GoalRowView {
    pub id: Entity,
    pub goal: GoalView,
    pub furniture: Option<Furniture>,
}

impl View for GoalRow {
    type V = GoalRowView;

    open spec fn view(&self) -> GoalRowView {
        GoalRowView { id: self.id, goal: self.goal@, furniture: self.furniture }
    }
}

/// A job site in the city.
#[derive(Clone, Copy, Debug, PartialEq, Eq, Structural)]
pub struct WorkplaceRow {
    pub id: Entity,
    pub workplace: Workplace,
}

/// A home in the city.
#[derive(Clone, Copy, Debug, PartialEq, Eq, Structural)]
pub struct DwellingRow {
    pub id: Entity,
    pub dwelling: Dwelling,
}

/// A building in the city.
#[derive(Debug)]
pub struct BuildingRow {
    pub id: Entity,
    pub building: CityBuilding,
}

/// Mathematical content of a [`BuildingRow`].
pub ghost struct BuildingRowView {
    pub id: Entity,
    pub building: BuildingView,
}

impl View for BuildingRow {
    type V = BuildingRowView;

    open spec fn view(&self) -> BuildingRowView {
        BuildingRowView { id: self.id, building: self.building@ }
    }
}

/// Position of the random stream for autonomy decisions: the seed and the
/// number of 32-bit words drawn from it.
#[derive(Clone, Copy, Debug, PartialEq, Eq, Structural)]
pub struct SimRng {
    pub seed: u64,
    pub word_pos: u128,
}

/// Seed of a new city.
pub const DEFAULT_SEED: u64 = 0xC1_7B07;

impl SimRng {
    /// The start of the stream of a seed.
    pub open spec fn seeded(seed: u64) -> SimRng {
        SimRng { seed, word_pos: 0 }
    }
}

impl Default for SimRng {
    fn default() -> (r: SimRng)
        ensures
            r == SimRng::seeded(DEFAULT_SEED),
    {
        SimRng { seed: DEFAULT_SEED, word_pos: 0 }
    }
}

/// Day counter, incremented when the clock wraps past midnight.
#[derive(Clone, Copy, Debug, PartialEq, Eq, Structural)]
pub struct DayCount(pub u32);

/// Hour of day 0..23, fed by the clock each frame. Drives day and night
/// effects.
#[derive(Clone, Copy, Debug, PartialEq, Eq, Structural)]
pub struct HourOfDay(pub u8);

/// Detected rooms, derived from the walls.
#[derive(Debug)]
pub struct Rooms(pub Vec<Room>);

/// Simulation tuning. Decay is per need: different needs drain at different
/// rates instead of one global knob.
#[derive(Clone, Copy, Debug, PartialEq, Eq, Structural)]
pub struct SimConfig {
    /// Hunger points lost per second.
    pub hunger_decay: Scalar,
    /// Energy points lost per second.
    pub energy_decay: Scalar,
    /// Sociability points lost per second.
    pub sociability_decay: Scalar,
    /// Comfort points lost per second.
    pub comfort_decay: Scalar,
    /// Hygiene points lost per second.
    pub hygiene_decay: Scalar,
    /// Bladder points lost per second.
    pub bladder_decay: Scalar,
    /// Fun points lost per second.
    pub fun_decay: Scalar,
    /// Ground units walked per second.
    pub walk_speed: Scalar,
    /// Distance at which a goal counts as reached.
    pub arrive_dist: Scalar,
    /// Energy per second regained by agents asleep at night.
    pub night_restore: Scalar,
    /// Radius (ground units) within which idle agents chat.
    pub chat_radius: Scalar,
    /// Sociability per second regained while chatting.
    pub chat_restore: Scalar,
    /// Chatting stops when any need drops below this (free will wins).
    pub chat_break: Scalar,
}

impl SimConfig {
    pub open spec fn standard() -> SimConfig {
        SimConfig {
            hunger_decay: scalar(0x3c23_d70a /* 0.01 */),
            energy_decay: scalar(0x3c23_d70a /* 0.01 */),
            sociability_decay: scalar(0x3c23_d70a /* 0.01 */),
            comfort_decay: scalar(0x3c23_d70a /* 0.01 */),
            hygiene_decay: scalar(0x3c44_9ba6 /* 0.012 */),
            bladder_decay: scalar(0x3c75_c28f /* 0.015 */),
            fun_decay: scalar(0x3c03_126f /* 0.008 */),
            walk_speed: scalar(0x4080_0000 /* 4 */),
            arrive_dist: scalar(0x3fc0_0000 /* 1.5 */),
            night_restore: scalar(0x3ca3_d70a /* 0.02 */),
            chat_radius: scalar(0x4040_0000 /* 3 */),
            chat_restore: scalar(0x3da3_d70a /* 0.08 */),
            chat_break: scalar(0x3e80_0000 /* 0.25 */),
        }
    }
}

impl Default for SimConfig {
    fn default() -> (r: SimConfig)
        ensures
            r == SimConfig::standard(),
    {
        SimConfig {
            hunger_decay: scalar(0x3c23_d70a /* 0.01 */),
            energy_decay: scalar(0x3c23_d70a /* 0.01 */),
            sociability_decay: scalar(0x3c23_d70a /* 0.01 */),
            comfort_decay: scalar(0x3c23_d70a /* 0.01 */),
            hygiene_decay: scalar(0x3c44_9ba6 /* 0.012 */),
            bladder_decay: scalar(0x3c75_c28f /* 0.015 */),
            fun_decay: scalar(0x3c03_126f /* 0.008 */),
            walk_speed: scalar(0x4080_0000 /* 4 */),
            arrive_dist: scalar(0x3fc0_0000 /* 1.5 */),
            night_restore: scalar(0x3ca3_d70a /* 0.02 */),
            chat_radius: scalar(0x4040_0000 /* 3 */),
            chat_restore: scalar(0x3da3_d70a /* 0.08 */),
            chat_break: scalar(0x3e80_0000 /* 0.25 */),
        }
    }
}

/// A city: agents plus the goals, jobs, homes and buildings around them.
/// Everything spawned is kept in spawn order.
#[derive(Debug)]
pub struct Sim {
    pub agents: Vec<Agent>,
    pub goals: Vec<GoalRow>,
    pub workplaces: Vec<WorkplaceRow>,
    pub dwellings: Vec<DwellingRow>,
    pub buildings: Vec<BuildingRow>,
    pub config: SimConfig,
    pub obstacles: Obstacles,
    pub roads: Roads,
    pub walls: Walls,
    pub rooms: Rooms,
    pub hour: HourOfDay,
    pub day: DayCount,
    pub funds: Funds,
    pub treasury: Treasury,
    pub rng: SimRng,
    /// Index of the next entity.
    pub next: u64,
}

/// Mathematical content of a [`Sim`].
pub ghost struct SimView {
    pub agents: Seq<AgentView>,
    pub goals: Seq<GoalRowView>,
    pub workplaces: Seq<WorkplaceRow>,
    pub dwellings: Seq<DwellingRow>,
    pub buildings: Seq<BuildingRowView>,
    pub config: SimConfig,
    pub ground: Ground,
    pub rooms: Seq<Room>,
    pub hour: u8,
    pub day: u32,
    pub funds: Money,
    pub treasury: Money,
    pub rng: SimRng,
    pub next: u64,
}

pub open spec fn agent_views(agents: Seq<Agent>) -> Seq<AgentView> {
    agents.map_values(|a: Agent| a@)
}

pub open spec fn goal_views(goals: Seq<GoalRow>) -> Seq<GoalRowView> {
    goals.map_values(|g: GoalRow| g@)
}

pub open spec fn building_views(buildings: Seq<BuildingRow>) -> Seq<BuildingRowView> {
    buildings.map_values(|b: BuildingRow| b@)
}

impl View for Sim {
    type V = SimView;

    open spec fn view(&self) -> SimView {
        SimView {
            agents: agent_views(self.agents@),
            goals: goal_views(self.goals@),
            workplaces: self.workplaces@,
            dwellings: self.dwellings@,
            buildings: building_views(self.buildings@),
            config: self.config,
            ground: ground_of(&self.obstacles, &self.roads, &self.walls),
            rooms: self.rooms.0@,
            hour: self.hour.0,
            day: self.day.0,
            funds: self.funds.0,
            treasury: self.treasury.0,
            rng: self.rng,
            next: self.next,
        }
    }
}

/// `i` is the first place where the entity stands.
pub open spec fn is_first(ids: Seq<Entity>, e: Entity, i: int) -> bool {
    &&& 0 <= i < ids.len()
    &&& ids[i] == e
    &&& forall|j: int| 0 <= j < i ==> #[trigger] ids[j] != e
}

/// The first place where an entity stands.
pub open spec fn first_index(ids: Seq<Entity>, e: Entity) -> Option<int> {
    if exists|i: int| is_first(ids, e, i) {
        Some(choose|i: int| is_first(ids, e, i))
    } else {
        None
    }
}

pub proof fn lemma_first(ids: Seq<Entity>, e: Entity, i: int)
    requires
        is_first(ids, e, i),
    ensures
        first_index(ids, e) == Some(i),
{
    let k = choose|k: int| is_first(ids, e, k);
    assert(is_first(ids, e, k));
    if k < i {
        assert(ids[k] != e);
    } else if i < k {
        assert(ids[i] != e);
    }
}

pub proof fn lemma_first_facts(ids: Seq<Entity>, e: Entity)
    ensures
        first_index(ids, e) matches Some(i) ==> is_first(ids, e, i),
        first_index(ids, e) is None ==> !ids.contains(e),
    decreases ids.len(),
{
    if ids.contains(e) {
        lemma_first_exists(ids, e, ids.index_of(e));
    }
}

proof fn lemma_first_exists(ids: Seq<Entity>, e: Entity, i: int)
    requires
        0 <= i < ids.len(),
        ids[i] == e,
    ensures
        exists|k: int| is_first(ids, e, k),
    decreases i,
{
    if exists|j: int| 0 <= j < i && ids[j] == e {
        let j = choose|j: int| 0 <= j < i && ids[j] == e;
        lemma_first_exists(ids, e, j);
    } else {
        assert(is_first(ids, e, i));
    }
}

pub open spec fn agent_ids(agents: Seq<AgentView>) -> Seq<Entity> {
    agents.map_values(|a: AgentView| a.id)
}

pub open spec fn goal_ids(goals: Seq<GoalRowView>) -> Seq<Entity> {
    goals.map_values(|g: GoalRowView| g.id)
}

pub open spec fn workplace_ids(rows: Seq<WorkplaceRow>) -> Seq<Entity> {
    rows.map_values(|r: WorkplaceRow| r.id)
}

pub open spec fn dwelling_ids(rows: Seq<DwellingRow>) -> Seq<Entity> {
    rows.map_values(|r: DwellingRow| r.id)
}

pub open spec fn building_ids(rows: Seq<BuildingRowView>) -> Seq<Entity> {
    rows.map_values(|r: BuildingRowView| r.id)
}

/// The job site with an identity.
pub open spec fn workplace_at(rows: Seq<WorkplaceRow>, e: Entity) -> Option<Workplace> {
    match first_index(workplace_ids(rows), e) {
        Some(i) => Some(rows[i].workplace),
        None => None,
    }
}

/// The home with an identity.
pub open spec fn dwelling_at(rows: Seq<DwellingRow>, e: Entity) -> Option<Dwelling> {
    match first_index(dwelling_ids(rows), e) {
        Some(i) => Some(rows[i].dwelling),
        None => None,
    }
}

/// The goal with an identity.
pub open spec fn goal_at(rows: Seq<GoalRowView>, e: Entity) -> Option<GoalView> {
    match first_index(goal_ids(rows), e) {
        Some(i) => Some(rows[i].goal),
        None => None,
    }
}

pub fn find_agent(agents: &Vec<Agent>, e: Entity) -> (r: Option<usize>)
    ensures
        match r {
            Some(i) => i < agents.len() && first_index(agent_ids(agent_views(agents@)), e) == Some(
                i as int,
            ),
            None => first_index(agent_ids(agent_views(agents@)), e) is None,
        },
{
    let ghost ids = agent_ids(agent_views(agents@));
    let mut i: usize = 0;
    while i < agents.len()
        invariant
            ids == agent_ids(agent_views(agents@)),
            i <= agents.len(),
            forall|j: int| 0 <= j < i ==> #[trigger] ids[j] != e,
        decreases agents.len() - i,
    {
        if agents[i].id == e {
            proof {
                assert(is_first(ids, e, i as int));
                lemma_first(ids, e, i as int);
            }
            return Some(i);
        }
        i += 1;
    }
    None
}

pub fn find_goal(goals: &Vec<GoalRow>, e: Entity) -> (r: Option<usize>)
    ensures
        match r {
            Some(i) => i < goals.len() && first_index(goal_ids(goal_views(goals@)), e) == Some(
                i as int,
            ),
            None => first_index(goal_ids(goal_views(goals@)), e) is None,
        },
{
    let ghost ids = goal_ids(goal_views(goals@));
    let mut i: usize = 0;
    while i < goals.len()
        invariant
            ids == goal_ids(goal_views(goals@)),
            i <= goals.len(),
            forall|j: int| 0 <= j < i ==> #[trigger] ids[j] != e,
        decreases goals.len() - i,
    {
        if goals[i].id == e {
            proof {
                assert(is_first(ids, e, i as int));
                lemma_first(ids, e, i as int);
            }
            return Some(i);
        }
        i += 1;
    }
    None
}

pub fn find_workplace(rows: &Vec<WorkplaceRow>, e: Entity) -> (r: Option<Workplace>)
    ensures
        r == workplace_at(rows@, e),
{
    let ghost ids = workplace_ids(rows@);
    let mut i: usize = 0;
    while i < rows.len()
        invariant
            ids == workplace_ids(rows@),
            i <= rows.len(),
            forall|j: int| 0 <= j < i ==> #[trigger] ids[j] != e,
        decreases rows.len() - i,
    {
        if rows[i].id == e {
            proof {
                assert(is_first(ids, e, i as int));
                lemma_first(ids, e, i as int);
            }
            return Some(rows[i].workplace);
        }
        i += 1;
    }
    None
}

/// Place of the home with an identity.
pub fn find_dwelling(rows: &Vec<DwellingRow>, e: Entity) -> (r: Option<usize>)
    ensures
        match r {
            Some(i) => i < rows.len() && first_index(dwelling_ids(rows@), e) == Some(i as int),
            None => first_index(dwelling_ids(rows@), e) is None,
        },
{
    let ghost ids = dwelling_ids(rows@);
    let mut i: usize = 0;
    while i < rows.len()
        invariant
            ids == dwelling_ids(rows@),
            i <= rows.len(),
            forall|j: int| 0 <= j < i ==> #[trigger] ids[j] != e,
        decreases rows.len() - i,
    {
        if rows[i].id == e {
            proof {
                assert(is_first(ids, e, i as int));
                lemma_first(ids, e, i as int);
            }
            return Some(i);
        }
        i += 1;
    }
    None
}

} // verus!
