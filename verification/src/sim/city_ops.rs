//! Building and directing a city.

use super::agent::{
    ActionKind, Agent, AgentState, AgentView, Employment, Home, NeedKind, Needs, Personality,
    Position, Skills,
};
use super::city::{BuildingView, CityBuilding, Dwelling, Roads, Workplace, ZoneFunction};
use super::goal::{
    furniture_ad, furniture_ads, room_function_for, Furniture, FurnitureKind, Goal, GoalView,
    RoomFunction, DEFAULT_AD_AMOUNT, DEFAULT_ATTENUATION,
};
use super::grid::{Lattice, Obstacle, Obstacles, Wall, Walls, DEFAULT_HALF_EXTENT, MAX_CELLS};
use super::money::{Funds, Money, Treasury};
use super::rooms::{detect_rooms, rooms_of, Room};
use super::route::Ground;
use super::systems::walk::{release, released};
use super::systems::work::{credit, credited};
use super::world::{
    agent_ids, building_ids, dwelling_ids, find_agent, find_dwelling, find_goal, first_index,
    goal_ids, goal_views, lemma_first, lemma_first_facts, workplace_ids, BuildingRow,
    BuildingRowView, DayCount, DwellingRow, GoalRow, GoalRowView, HourOfDay, Rooms, Sim, SimConfig,
    SimRng, SimView, WorkplaceRow, DEFAULT_SEED,
};
use super::Entity;
use crate::scalar::consts::{EIGHT_TENTHS, TWO, ZERO};
use crate::scalar::{scalar, Scalar};
use vstd::prelude::*;

verus! {

/// The ground of a new city: a bare grid.
pub open spec fn bare_ground() -> Ground {
    Ground {
        lattice: Lattice { half: scalar(DEFAULT_HALF_EXTENT), cell: scalar(TWO) },
        rects: Seq::empty(),
        walls: Seq::empty(),
        crossed: Seq::empty(),
        roads: Seq::empty(),
    }
}

/// A copy of a vector of plain values.
pub(crate) fn copied<T: Copy>(v: &Vec<T>) -> (r: Vec<T>)
    ensures
        r@ == v@,
{
    let mut r: Vec<T> = Vec::new();
    let mut i: usize = 0;
    while i < v.len()
        invariant
            i <= v.len(),
            r@ == v@.take(i as int),
        decreases v.len() - i,
    {
        r.push(v[i]);
        proof {
            assert(v@.take(i + 1) =~= v@.take(i as int).push(v@[i as int]));
        }
        i += 1;
    }
    proof {
        assert(v@.take(i as int) =~= v@);
    }
    r
}

impl SimView {
    /// A city with nothing in it, at eight in the morning.
    pub open spec fn empty() -> SimView {
        SimView {
            agents: Seq::empty(),
            goals: Seq::empty(),
            workplaces: Seq::empty(),
            dwellings: Seq::empty(),
            buildings: Seq::empty(),
            config: SimConfig::standard(),
            ground: bare_ground(),
            rooms: Seq::empty(),
            hour: 8,
            day: 0,
            funds: Money { cents: 0, frac: scalar(ZERO) },
            treasury: Money { cents: 0, frac: scalar(ZERO) },
            rng: SimRng::seeded(DEFAULT_SEED),
            next: 0,
        }
    }

    /// The identity that the next spawn gets.
    pub open spec fn fresh_id(self) -> Entity {
        Entity { index: self.next }
    }

    pub open spec fn spawned_agent(self, pos: Position, personality: Personality) -> SimView {
        SimView {
            agents: self.agents.push(
                AgentView::fresh(
                    self.fresh_id(),
                    pos,
                    Needs::all(scalar(EIGHT_TENTHS)),
                    personality,
                    Skills { cooking: scalar(ZERO), charisma: scalar(ZERO) },
                ),
            ),
            next: (self.next + 1) as u64,
            ..self
        }
    }

    pub open spec fn spawned_goal(
        self,
        x: Scalar,
        z: Scalar,
        ads: Seq<(NeedKind, Scalar)>,
        attenuation: Scalar,
        furniture: Option<Furniture>,
    ) -> SimView {
        SimView {
            goals: self.goals.push(
                GoalRowView {
                    id: self.fresh_id(),
                    goal: GoalView { x, z, ads, attenuation, claimed_by: None },
                    furniture,
                },
            ),
            next: (self.next + 1) as u64,
            ..self
        }
    }

    pub open spec fn spawned_building(self, building: BuildingView) -> SimView {
        SimView {
            buildings: self.buildings.push(BuildingRowView { id: self.fresh_id(), building }),
            next: (self.next + 1) as u64,
            ..self
        }
    }

    pub open spec fn spawned_workplace(self, workplace: Workplace) -> SimView {
        SimView {
            workplaces: self.workplaces.push(WorkplaceRow { id: self.fresh_id(), workplace }),
            next: (self.next + 1) as u64,
            ..self
        }
    }

    pub open spec fn spawned_dwelling(self, dwelling: Dwelling) -> SimView {
        SimView {
            dwellings: self.dwellings.push(DwellingRow { id: self.fresh_id(), dwelling }),
            next: (self.next + 1) as u64,
            ..self
        }
    }

    /// Place of an agent.
    pub open spec fn agent_index(self, e: Entity) -> Option<int> {
        first_index(agent_ids(self.agents), e)
    }

    pub open spec fn has_agent(self, e: Entity) -> bool {
        self.agent_index(e) is Some
    }

    pub open spec fn agent(self, e: Entity) -> AgentView {
        self.agents[self.agent_index(e)->0]
    }

    pub open spec fn with_agent(self, e: Entity, a: AgentView) -> SimView {
        SimView { agents: self.agents.update(self.agent_index(e)->0, a), ..self }
    }

    /// The goal claim that an agent holds while walking.
    pub open spec fn claim_of(self, e: Entity) -> Option<Entity> {
        match self.agent(e).target {
            Some(t) => t.claim,
            None => None,
        }
    }

    /// The city after an agent dropped its goal claim.
    pub open spec fn claim_dropped(self, e: Entity) -> SimView {
        match self.claim_of(e) {
            Some(goal) => SimView { goals: released(self.goals, e, goal), ..self },
            None => self,
        }
    }

    /// The city after hiring: a commute under way ends where the agent
    /// stands, any other errand goes on.
    #[verifier::opaque]
    pub open spec fn employed(self, agent: Entity, workplace: Entity) -> SimView {
        let a = self.agent(agent);
        let employment = Some(Employment { workplace });
        if a.commute is Some {
            self.claim_dropped(agent).with_agent(
                agent,
                AgentView { employment, commute: None, ..a.stopped(AgentState::Idle) },
            )
        } else {
            self.with_agent(agent, AgentView { employment, ..a })
        }
    }

    #[verifier::opaque]
    pub open spec fn dismissed(self, agent: Entity) -> SimView {
        self.claim_dropped(agent).with_agent(
            agent,
            AgentView { employment: None, ..self.agent(agent).relieved() },
        )
    }

    #[verifier::opaque]
    pub open spec fn ordered(self, agent: Entity, action: ActionKind) -> SimView {
        self.claim_dropped(agent).with_agent(
            agent,
            AgentView {
                queue: seq![action] + self.agent(agent).queue,
                ..self.agent(agent).relieved()
            },
        )
    }

    /// Place of a home.
    pub open spec fn dwelling_index(self, e: Entity) -> Option<int> {
        first_index(dwelling_ids(self.dwellings), e)
    }

    pub open spec fn with_taken(self, e: Entity, taken: u32) -> SimView {
        match self.dwelling_index(e) {
            Some(i) => SimView {
                dwellings: self.dwellings.update(
                    i,
                    DwellingRow {
                        dwelling: Dwelling { taken, ..self.dwellings[i].dwelling },
                        ..self.dwellings[i]
                    },
                ),
                ..self
            },
            None => self,
        }
    }

    /// Beds taken in a home.
    pub open spec fn taken(self, e: Entity) -> u32 {
        self.dwellings[self.dwelling_index(e)->0].dwelling.taken
    }

    #[verifier::opaque]
    pub open spec fn moved_out(self, agent: Entity) -> SimView {
        let a = AgentView { home: None, going_home: None, ..self.agent(agent) };
        match self.agent(agent).home {
            Some(h) => self.with_taken(
                h.0,
                if self.taken(h.0) > 0 {
                    (self.taken(h.0) - 1) as u32
                } else {
                    0
                },
            ),
            None => self,
        }.with_agent(agent, a)
    }

    /// The agent stands and has its home there.
    pub open spec fn lives_in(self, agent: Entity, home: Entity) -> bool {
        self.has_agent(agent) && self.agent(agent).home == Some(Home(home))
    }

    /// The home stands and has a free bed.
    pub open spec fn has_bed(self, e: Entity) -> bool {
        self.dwelling_index(e) matches Some(i) && self.dwellings[i].dwelling.taken
            < self.dwellings[i].dwelling.capacity
    }

    #[verifier::opaque]
    pub open spec fn moved_in(self, agent: Entity, dwelling: Entity) -> SimView {
        if !self.has_bed(dwelling) || self.agent(agent).home == Some(Home(dwelling)) {
            self
        } else {
            let out = self.moved_out(agent);
            out.with_taken(dwelling, (self.taken(dwelling) + 1) as u32).with_agent(
                agent,
                AgentView { home: Some(Home(dwelling)), ..out.agent(agent) },
            )
        }
    }

    /// The city when the clock shows an hour. A wrap past midnight advances
    /// the day and collects taxes.
    pub open spec fn at_hour(self, hour: u8) -> SimView {
        let h = (hour % 24) as u8;
        if h < self.hour {
            SimView {
                hour: h,
                day: (self.day + 1) as u32,
                treasury: credited(self.treasury, taxes_due(self.buildings, self.buildings.len() as int)),
                ..self
            }
        } else {
            SimView { hour: h, ..self }
        }
    }

    pub open spec fn with_roads(self, roads: Seq<Seq<Position>>) -> SimView {
        SimView { ground: Ground { roads, ..self.ground }, ..self }
    }

    pub open spec fn with_obstacles(self, rects: Seq<Obstacle>) -> SimView {
        SimView { ground: Ground { rects, ..self.ground }, ..self }
    }

    /// The city with its rooms detected anew.
    pub open spec fn with_rooms_rebuilt(self) -> SimView {
        SimView { rooms: rooms_of(self.ground.lattice, self.ground.blocked()), ..self }
    }

    pub open spec fn with_walls(self, walls: Seq<Wall>, crossed: Seq<bool>) -> SimView {
        SimView { ground: Ground { walls, crossed, ..self.ground }, ..self }
    }

    /// The city without an entity.
    #[verifier::opaque]
    pub open spec fn without(self, e: Entity) -> SimView {
        SimView {
            agents: removed(self.agents, first_index(agent_ids(self.agents), e)),
            goals: removed(self.goals, first_index(goal_ids(self.goals), e)),
            workplaces: removed(self.workplaces, first_index(workplace_ids(self.workplaces), e)),
            dwellings: removed(self.dwellings, first_index(dwelling_ids(self.dwellings), e)),
            buildings: removed(self.buildings, first_index(building_ids(self.buildings), e)),
            ..self
        }
    }

    /// The grid is small enough for routing.
    pub open spec fn routable(self) -> bool {
        self.ground.lattice.count() <= MAX_CELLS
    }
}

/// Taxes due from the first `k` buildings, in dollars.
pub open spec fn taxes_due(buildings: Seq<BuildingRowView>, k: int) -> Scalar
    decreases k,
{
    if k <= 0 {
        scalar(ZERO)
    } else {
        taxes_due(buildings, k - 1).add_spec(buildings[k - 1].building.tax())
    }
}

/// A sequence without the element at a place.
pub open spec fn removed<A>(s: Seq<A>, at: Option<int>) -> Seq<A> {
    match at {
        Some(i) => s.remove(i),
        None => s,
    }
}

/// Furniture inside the bounds of a room.
pub open spec fn stands_in(g: GoalRowView, r: Room) -> bool {
    r.min_x.le_spec(g.goal.x) && g.goal.x.le_spec(r.max_x) && r.min_z.le_spec(g.goal.z)
        && g.goal.z.le_spec(r.max_z)
}

/// Goal `k` votes for a function of the room.
pub open spec fn votes_for(g: GoalRowView, r: Room, f: RoomFunction) -> bool {
    g.furniture matches Some(piece) && room_function_for(piece.0) == f && stands_in(g, r)
}

/// Votes of the first `k` goals for a function of the room.
pub open spec fn votes(goals: Seq<GoalRowView>, r: Room, f: RoomFunction, k: int) -> nat
    decreases k,
{
    if k <= 0 {
        0
    } else {
        votes(goals, r, f, k - 1) + if votes_for(goals[k - 1], r, f) {
            1nat
        } else {
            0
        }
    }
}

/// The function has more votes than any other.
pub open spec fn leads(goals: Seq<GoalRowView>, r: Room, f: RoomFunction) -> bool {
    forall|g: RoomFunction|
        g != f ==> #[trigger] votes(goals, r, g, goals.len() as int) < votes(
            goals,
            r,
            f,
            goals.len() as int,
        )
}

/// The function that the furniture of a room voted for; none for ties and
/// empty rooms.
pub open spec fn voted(goals: Seq<GoalRowView>, r: Room) -> Option<RoomFunction> {
    if exists|f: RoomFunction| leads(goals, r, f) {
        Some(choose|f: RoomFunction| leads(goals, r, f))
    } else {
        None
    }
}

fn count_votes(goals: &Vec<GoalRow>, r: &Room, f: RoomFunction) -> (n: usize)
    ensures
        n == votes(goal_views(goals@), *r, f, goals.len() as int),
{
    let ghost views = goal_views(goals@);
    let mut n: usize = 0;
    let mut k: usize = 0;
    while k < goals.len()
        invariant
            views == goal_views(goals@),
            k <= goals.len(),
            n <= k,
            n == votes(views, *r, f, k as int),
        decreases goals.len() - k,
    {
        let g: &GoalRow = &goals[k];
        assert(views[k as int] == g@);
        if let Some(piece) = g.furniture {
            if room_function_for(piece.0) == f && r.min_x.le(g.goal.x) && g.goal.x.le(r.max_x)
                && r.min_z.le(g.goal.z) && g.goal.z.le(r.max_z) {
                n += 1;
            }
        }
        k += 1;
    }
    n
}

fn vote(goals: &Vec<GoalRow>, r: &Room) -> (f: Option<RoomFunction>)
    ensures
        f == voted(goal_views(goals@), *r),
{
    let bed: usize = count_votes(goals, r, RoomFunction::Bedroom);
    let kitchen: usize = count_votes(goals, r, RoomFunction::Kitchen);
    let living: usize = count_votes(goals, r, RoomFunction::Living);
    let bath: usize = count_votes(goals, r, RoomFunction::Bathroom);
    let winner: Option<RoomFunction> = if bed > kitchen && bed > living && bed > bath {
        Some(RoomFunction::Bedroom)
    } else if kitchen > bed && kitchen > living && kitchen > bath {
        Some(RoomFunction::Kitchen)
    } else if living > bed && living > kitchen && living > bath {
        Some(RoomFunction::Living)
    } else if bath > bed && bath > kitchen && bath > living {
        Some(RoomFunction::Bathroom)
    } else {
        None
    };
    proof {
        let views = goal_views(goals@);
        let n = views.len() as int;
        assert(votes(views, *r, RoomFunction::Bedroom, n) == bed);
        assert(votes(views, *r, RoomFunction::Kitchen, n) == kitchen);
        assert(votes(views, *r, RoomFunction::Living, n) == living);
        assert(votes(views, *r, RoomFunction::Bathroom, n) == bath);
        if let Some(w) = winner {
            assert(leads(views, *r, w));
            let c = choose|f: RoomFunction| leads(views, *r, f);
            assert(leads(views, *r, c));
            if c != w {
                assert(votes(views, *r, c, n) < votes(views, *r, w, n));
            }
        } else {
            assert forall|f: RoomFunction| !leads(views, *r, f) by {}
        }
    }
    winner
}

impl Sim {
    pub fn new() -> (r: Sim)
        ensures
            r@ == SimView::empty(),
    {
        let r = Sim {
            agents: Vec::new(),
            goals: Vec::new(),
            workplaces: Vec::new(),
            dwellings: Vec::new(),
            buildings: Vec::new(),
            config: SimConfig::default(),
            obstacles: Obstacles::default(),
            roads: Roads(Vec::new()),
            walls: Walls { segments: Vec::new(), crossed: Vec::new() },
            rooms: Rooms(Vec::new()),
            hour: HourOfDay(8),
            day: DayCount(0),
            funds: Funds(Money::default()),
            treasury: Treasury(Money::default()),
            rng: SimRng::default(),
            next: 0,
        };
        proof {
            assert(r@.agents =~= Seq::empty());
            assert(r@.goals =~= Seq::empty());
            assert(r@.workplaces =~= Seq::empty());
            assert(r@.dwellings =~= Seq::empty());
            assert(r@.buildings =~= Seq::empty());
            assert(r@.rooms =~= Seq::empty());
            assert(r@.ground.rects =~= Seq::empty());
            assert(r@.ground.walls =~= Seq::empty());
            assert(r@.ground.crossed =~= Seq::empty());
            assert(r@.ground.roads =~= Seq::empty());
        }
        r
    }

    fn take_id(&mut self) -> (e: Entity)
        requires
            old(self)@.next < u64::MAX,
        ensures
            e == old(self)@.fresh_id(),
            final(self)@ == (SimView { next: (old(self)@.next + 1) as u64, ..old(self)@ }),
            *final(self) == (Sim { next: (old(self).next + 1) as u64, ..*old(self) }),
    {
        let e = Entity { index: self.next };
        self.next = self.next + 1;
        e
    }

    /// Spawn an idle agent with a personality drawn for it.
    pub fn spawn_agent(&mut self, x: Scalar, z: Scalar, personality: Personality) -> (e: Entity)
        requires
            old(self)@.next < u64::MAX,
        ensures
            e == old(self)@.fresh_id(),
            final(self)@ == old(self)@.spawned_agent(Position { x, z }, personality),
    {
        let ghost before = self@;
        let e: Entity = self.take_id();
        self.agents.push(
            Agent::fresh(e, Position { x, z }, Needs::default(), personality, Skills::default()),
        );
        proof {
            assert(self@.agents =~= before.spawned_agent(Position { x, z }, personality).agents);
        }
        e
    }

    /// Spawn a goal that restores one need by the default amount.
    pub fn spawn_goal(&mut self, x: Scalar, z: Scalar, restores: NeedKind) -> (e: Entity)
        requires
            old(self)@.next < u64::MAX,
        ensures
            e == old(self)@.fresh_id(),
            final(self)@ == old(self)@.spawned_goal(
                x,
                z,
                seq![(restores, scalar(DEFAULT_AD_AMOUNT))],
                scalar(DEFAULT_ATTENUATION),
                None,
            ),
    {
        let ads: Vec<(NeedKind, Scalar)> = vec![(restores, scalar(DEFAULT_AD_AMOUNT))];
        proof {
            assert(ads@ =~= seq![(restores, scalar(DEFAULT_AD_AMOUNT))]);
        }
        self.spawn_goal_ads(x, z, ads, scalar(DEFAULT_ATTENUATION))
    }

    pub fn spawn_goal_ads(
        &mut self,
        x: Scalar,
        z: Scalar,
        ads: Vec<(NeedKind, Scalar)>,
        attenuation: Scalar,
    ) -> (e: Entity)
        requires
            old(self)@.next < u64::MAX,
        ensures
            e == old(self)@.fresh_id(),
            final(self)@ == old(self)@.spawned_goal(x, z, ads@, attenuation, None),
    {
        self.place_goal(x, z, ads, attenuation, None)
    }

    fn place_goal(
        &mut self,
        x: Scalar,
        z: Scalar,
        ads: Vec<(NeedKind, Scalar)>,
        attenuation: Scalar,
        furniture: Option<Furniture>,
    ) -> (e: Entity)
        requires
            old(self)@.next < u64::MAX,
        ensures
            e == old(self)@.fresh_id(),
            final(self)@ == old(self)@.spawned_goal(x, z, ads@, attenuation, furniture),
    {
        let ghost before = self@;
        let ghost list = ads@;
        let e: Entity = self.take_id();
        self.goals.push(
            GoalRow {
                id: e,
                goal: Goal { x, z, ads, attenuation, claimed_by: None },
                furniture,
            },
        );
        proof {
            assert(self@.goals =~= before.spawned_goal(x, z, list, attenuation, furniture).goals);
        }
        e
    }

    /// Place furniture: a goal with kind-fixed ads plus a marker.
    pub fn spawn_furniture(&mut self, x: Scalar, z: Scalar, kind: FurnitureKind) -> (e: Entity)
        requires
            old(self)@.next < u64::MAX,
        ensures
            e == old(self)@.fresh_id(),
            final(self)@ == old(self)@.spawned_goal(
                x,
                z,
                seq![furniture_ad(kind)],
                scalar(DEFAULT_ATTENUATION),
                Some(Furniture(kind)),
            ),
    {
        self.place_goal(
            x,
            z,
            furniture_ads(kind),
            scalar(DEFAULT_ATTENUATION),
            Some(Furniture(kind)),
        )
    }

    /// Stamp a zoned building: records function and capacity, starts at zero
    /// development (road access grows it).
    pub fn spawn_building(
        &mut self,
        label: String,
        function: ZoneFunction,
        min_x: Scalar,
        min_z: Scalar,
        max_x: Scalar,
        max_z: Scalar,
    ) -> (e: Entity)
        requires
            old(self)@.next < u64::MAX,
        ensures
            e == old(self)@.fresh_id(),
            final(self)@ == old(self)@.spawned_building(
                BuildingView::fresh(label@, function, min_x, min_z, max_x, max_z),
            ),
    {
        let ghost before = self@;
        let ghost view = BuildingView::fresh(label@, function, min_x, min_z, max_x, max_z);
        let e: Entity = self.take_id();
        let building = CityBuilding::new(label, function, min_x, min_z, max_x, max_z);
        self.buildings.push(BuildingRow { id: e, building });
        proof {
            assert(self@.buildings =~= before.spawned_building(view).buildings);
        }
        e
    }

    pub fn spawn_workplace(
        &mut self,
        x: Scalar,
        z: Scalar,
        pay_per_hour: Scalar,
        shift_start: u8,
        shift_end: u8,
    ) -> (e: Entity)
        requires
            old(self)@.next < u64::MAX,
        ensures
            e == old(self)@.fresh_id(),
            final(self)@ == old(self)@.spawned_workplace(
                Workplace { x, z, pay_per_hour, shift_start, shift_end },
            ),
    {
        let e: Entity = self.take_id();
        self.workplaces.push(
            WorkplaceRow {
                id: e,
                workplace: Workplace { x, z, pay_per_hour, shift_start, shift_end },
            },
        );
        e
    }

    pub fn spawn_dwelling(&mut self, x: Scalar, z: Scalar, capacity: u32) -> (e: Entity)
        requires
            old(self)@.next < u64::MAX,
        ensures
            e == old(self)@.fresh_id(),
            final(self)@ == old(self)@.spawned_dwelling(Dwelling { x, z, capacity, taken: 0 }),
    {
        let e: Entity = self.take_id();
        self.dwellings.push(DwellingRow { id: e, dwelling: Dwelling { x, z, capacity, taken: 0 } });
        e
    }

    /// Remove an entity; true when there was one.
    pub fn despawn(&mut self, e: Entity) -> (r: bool)
        ensures
            final(self)@ == old(self)@.without(e),
            r == (agent_ids(old(self)@.agents).contains(e) || goal_ids(old(self)@.goals).contains(e)
                || workplace_ids(old(self)@.workplaces).contains(e) || dwelling_ids(
                old(self)@.dwellings,
            ).contains(e) || building_ids(old(self)@.buildings).contains(e)),
    {
        let ghost s = self@;
        proof {
            reveal(SimView::without);
            lemma_first_facts(agent_ids(s.agents), e);
            lemma_first_facts(goal_ids(s.goals), e);
            lemma_first_facts(workplace_ids(s.workplaces), e);
            lemma_first_facts(dwelling_ids(s.dwellings), e);
            lemma_first_facts(building_ids(s.buildings), e);
        }
        let mut hit: bool = false;
        if let Some(i) = find_agent(&self.agents, e) {
            let _gone: Agent = self.agents.remove(i);
            hit = true;
        }
        if let Some(i) = find_goal(&self.goals, e) {
            let _gone: GoalRow = self.goals.remove(i);
            hit = true;
        }
        if let Some(i) = self.find_site(e) {
            let _gone: WorkplaceRow = self.workplaces.remove(i);
            hit = true;
        }
        if let Some(i) = find_dwelling(&self.dwellings, e) {
            let _gone: DwellingRow = self.dwellings.remove(i);
            hit = true;
        }
        if let Some(i) = self.find_building(e) {
            let _gone: BuildingRow = self.buildings.remove(i);
            hit = true;
        }
        proof {
            let t = s.without(e);
            assert(self@.agents =~= t.agents);
            assert(self@.goals =~= t.goals);
            assert(self@.workplaces =~= t.workplaces);
            assert(self@.dwellings =~= t.dwellings);
            assert(self@.buildings =~= t.buildings);
        }
        hit
    }

    fn find_site(&self, e: Entity) -> (r: Option<usize>)
        ensures
            match r {
                Some(i) => i < self.workplaces.len() && first_index(
                    workplace_ids(self@.workplaces),
                    e,
                ) == Some(i as int),
                None => first_index(workplace_ids(self@.workplaces), e) is None,
            },
    {
        let ghost ids = workplace_ids(self@.workplaces);
        let mut i: usize = 0;
        while i < self.workplaces.len()
            invariant
                ids == workplace_ids(self@.workplaces),
                i <= self.workplaces.len(),
                forall|j: int| 0 <= j < i ==> #[trigger] ids[j] != e,
            decreases self.workplaces.len() - i,
        {
            if self.workplaces[i].id == e {
                proof {
                    lemma_first(ids, e, i as int);
                }
                return Some(i);
            }
            i += 1;
        }
        None
    }

    fn find_building(&self, e: Entity) -> (r: Option<usize>)
        ensures
            match r {
                Some(i) => i < self.buildings.len() && first_index(
                    building_ids(self@.buildings),
                    e,
                ) == Some(i as int),
                None => first_index(building_ids(self@.buildings), e) is None,
            },
    {
        let ghost ids = building_ids(self@.buildings);
        let mut i: usize = 0;
        while i < self.buildings.len()
            invariant
                ids == building_ids(self@.buildings),
                i <= self.buildings.len(),
                forall|j: int| 0 <= j < i ==> #[trigger] ids[j] != e,
            decreases self.buildings.len() - i,
        {
            if self.buildings[i].id == e {
                proof {
                    lemma_first(ids, e, i as int);
                }
                return Some(i);
            }
            i += 1;
        }
        None
    }

    /// Replace the stamped road network (for development access).
    pub fn set_roads(&mut self, roads: Vec<Vec<Position>>)
        ensures
            final(self)@ == old(self)@.with_roads(
                roads@.map_values(|line: Vec<Position>| line@),
            ),
    {
        self.roads = Roads(roads);
    }

    /// Add a wall segment (build mode). `crossed` tells for all walls
    /// together which cells they cross.
    pub fn add_wall(&mut self, ax: Scalar, az: Scalar, bx: Scalar, bz: Scalar, crossed: Vec<bool>)
        ensures
            final(self)@ == old(self)@.with_walls(
                old(self)@.ground.walls.push(Wall { ax, az, bx, bz }),
                crossed@,
            ),
    {
        self.walls.segments.push(Wall { ax, az, bx, bz });
        self.walls.crossed = crossed;
    }

    /// Replace the whole wall network.
    pub fn set_walls(&mut self, walls: Vec<Wall>, crossed: Vec<bool>)
        ensures
            final(self)@ == old(self)@.with_walls(walls@, crossed@),
    {
        self.walls = Walls { segments: walls, crossed };
    }

    /// Clear all walls.
    pub fn clear_walls(&mut self)
        ensures
            final(self)@ == old(self)@.with_walls(Seq::empty(), Seq::empty()),
    {
        self.set_walls(Vec::new(), Vec::new());
        proof {
            assert(self@.ground.walls =~= Seq::empty());
            assert(self@.ground.crossed =~= Seq::empty());
        }
    }

    /// Rebuild room detection from the current walls and obstacles. Call
    /// after wall edits.
    pub fn rebuild_rooms(&mut self)
        requires
            old(self)@.routable(),
        ensures
            final(self)@ == old(self)@.with_rooms_rebuilt(),
    {
        self.rooms = Rooms(detect_rooms(&self.obstacles, &self.walls));
    }

    /// Detected rooms (enclosed walkable regions).
    pub fn rooms(&self) -> (r: Vec<Room>)
        ensures
            r@ == self@.rooms,
    {
        copied(&self.rooms.0)
    }

    /// Room functions voted from furniture inside each room's bounds: most
    /// beds make a bedroom, most fridges a kitchen, most sofas and sets a
    /// living room, most toilets and tubs a bathroom; empty rooms and ties
    /// stay unassigned. Aligned with [`Sim::rooms`].
    pub fn room_functions(&self) -> (r: Vec<Option<RoomFunction>>)
        ensures
            r@ == self@.rooms.map_values(|room: Room| voted(self@.goals, room)),
    {
        let mut r: Vec<Option<RoomFunction>> = Vec::new();
        let mut i: usize = 0;
        while i < self.rooms.0.len()
            invariant
                i <= self.rooms.0.len(),
                r.len() == i,
                forall|j: int|
                    0 <= j < i ==> #[trigger] r[j] == voted(self@.goals, self.rooms.0[j]),
            decreases self.rooms.0.len() - i,
        {
            r.push(vote(&self.goals, &self.rooms.0[i]));
            i += 1;
        }
        proof {
            assert(r@ =~= self@.rooms.map_values(|room: Room| voted(self@.goals, room)));
        }
        r
    }

    /// Replace the routing obstacles (building footprints).
    pub fn set_obstacles(&mut self, rects: Vec<Obstacle>)
        ensures
            final(self)@ == old(self)@.with_obstacles(rects@),
    {
        self.obstacles.rects = rects;
    }

    /// Drop any goal claim held by an agent.
    fn release_claim(&mut self, i: usize)
        requires
            i < old(self).agents.len(),
            old(self)@.agent_index(old(self).agents[i as int].id) == Some(i as int),
        ensures
            final(self)@ == old(self)@.claim_dropped(old(self).agents[i as int].id),
            final(self).agents == old(self).agents,
    {
        if let Some(t) = self.agents[i].target {
            if let Some(goal) = t.claim {
                let id: Entity = self.agents[i].id;
                release(&mut self.goals, id, goal);
            }
        }
    }

    /// Employ an agent (they finish their current errand, then commute on
    /// shift). Re-employing elsewhere resets the commute.
    pub fn employ(&mut self, agent: Entity, workplace: Entity)
        requires
            old(self)@.has_agent(agent),
        ensures
            final(self)@ == old(self)@.employed(agent, workplace),
    {
        let ghost s = self@;
        proof {
            reveal(SimView::employed);
            lemma_first_facts(agent_ids(s.agents), agent);
        }
        if let Some(i) = find_agent(&self.agents, agent) {
            if self.agents[i].commute.is_some() {
                self.release_claim(i);
                self.agents[i].commute = None;
                self.agents[i].stop(AgentState::Idle);
            }
            self.agents[i].employment = Some(Employment { workplace });
            proof {
                assert(self@.agents =~= s.employed(agent, workplace).agents);
            }
        }
    }

    /// Dismiss: employment ends immediately, activity cleared (releasing any
    /// goal claim).
    pub fn dismiss(&mut self, agent: Entity)
        requires
            old(self)@.has_agent(agent),
        ensures
            final(self)@ == old(self)@.dismissed(agent),
    {
        let ghost s = self@;
        proof {
            reveal(SimView::dismissed);
            lemma_first_facts(agent_ids(s.agents), agent);
        }
        if let Some(i) = find_agent(&self.agents, agent) {
            self.release_claim(i);
            self.agents[i].relieve();
            self.agents[i].employment = None;
            proof {
                assert(self@.agents =~= s.dismissed(agent).agents);
            }
        }
    }

    /// Player order: drop current activity (releasing any goal claim, taking
    /// them off-shift and off-to-bed for now; employment and home persist)
    /// and queue the action at the front.
    pub fn order(&mut self, agent: Entity, action: ActionKind)
        requires
            old(self)@.has_agent(agent),
        ensures
            final(self)@ == old(self)@.ordered(agent, action),
    {
        let ghost s = self@;
        proof {
            reveal(SimView::ordered);
            lemma_first_facts(agent_ids(s.agents), agent);
        }
        if let Some(i) = find_agent(&self.agents, agent) {
            self.release_claim(i);
            self.agents[i].relieve();
            let ghost q = self.agents[i as int].queue.0@;
            self.agents[i].queue.0.push_front(action);
            proof {
                assert(self.agents[i as int].queue.0@ =~= seq![action] + q);
                assert(self@.agents =~= s.ordered(agent, action).agents);
            }
        }
    }

    /// Move in: releases the old bed, claims one here. False when full (or
    /// the dwelling is gone); the old home is kept then.
    pub fn move_in(&mut self, agent: Entity, dwelling: Entity) -> (r: bool)
        requires
            old(self)@.has_bed(dwelling) ==> old(self)@.has_agent(agent),
        ensures
            final(self)@ == old(self)@.moved_in(agent, dwelling),
            r == (old(self)@.has_bed(dwelling) || (old(self)@.lives_in(agent, dwelling)
                && old(self)@.dwelling_index(dwelling) is Some)),
    {
        let ghost s = self@;
        proof {
            reveal(SimView::moved_in);
            reveal(SimView::moved_out);
            lemma_first_facts(agent_ids(s.agents), agent);
            lemma_first_facts(dwelling_ids(s.dwellings), dwelling);
        }
        let at: usize = match find_agent(&self.agents, agent) {
            Some(i) => i,
            None => {
                return false;
            },
        };
        let bed: usize = match find_dwelling(&self.dwellings, dwelling) {
            Some(i) => i,
            None => {
                return false;
            },
        };
        if let Some(h) = self.agents[at].home {
            if h.0 == dwelling {
                return true;
            }
        }
        if self.dwellings[bed].dwelling.taken >= self.dwellings[bed].dwelling.capacity {
            return false;
        }
        self.move_out(agent);
        proof {
            let out = s.moved_out(agent);
            assert(agent_ids(out.agents) =~= agent_ids(s.agents));
            assert(dwelling_ids(out.dwellings) =~= dwelling_ids(s.dwellings));
            if let Some(h) = s.agent(agent).home {
                lemma_first_facts(dwelling_ids(s.dwellings), h.0);
            }
            assert(out.dwellings[bed as int] == s.dwellings[bed as int]);
        }
        self.dwellings[bed].dwelling.taken = self.dwellings[bed].dwelling.taken + 1;
        self.agents[at].home = Some(Home(dwelling));
        proof {
            let t = s.moved_in(agent, dwelling);
            assert(self@.agents =~= t.agents);
            assert(self@.dwellings =~= t.dwellings);
        }
        true
    }

    /// Move out: frees the bed, clears night commuting.
    pub fn move_out(&mut self, agent: Entity)
        requires
            old(self)@.has_agent(agent),
        ensures
            final(self)@ == old(self)@.moved_out(agent),
    {
        let ghost s = self@;
        proof {
            reveal(SimView::moved_out);
            lemma_first_facts(agent_ids(s.agents), agent);
        }
        if let Some(at) = find_agent(&self.agents, agent) {
            if let Some(h) = self.agents[at].home {
                if let Some(i) = find_dwelling(&self.dwellings, h.0) {
                    let n: u32 = self.dwellings[i].dwelling.taken;
                    self.dwellings[i].dwelling.taken =
                    if n > 0 {
                        n - 1
                    } else {
                        0
                    };
                }
            }
            self.agents[at].home = None;
            self.agents[at].going_home = None;
            proof {
                let t = s.moved_out(agent);
                assert(self@.agents =~= t.agents);
                assert(self@.dwellings =~= t.dwellings);
            }
        }
    }

    pub fn funds(&self) -> (r: i64)
        ensures
            r == self@.funds.cents,
    {
        self.funds.0.cents
    }

    pub fn treasury(&self) -> (r: i64)
        ensures
            r == self@.treasury.cents,
    {
        self.treasury.0.cents
    }

    pub fn day(&self) -> (r: u32)
        ensures
            r == self@.day,
    {
        self.day.0
    }

    /// Reseed autonomy decisions (deterministic replays, map variants).
    pub fn set_seed(&mut self, seed: u64)
        ensures
            final(self)@ == (SimView { rng: SimRng::seeded(seed), ..old(self)@ }),
    {
        self.rng = SimRng { seed, word_pos: 0 };
    }

    /// Set the hour of day (wraps into 0..23). A wrap past midnight advances
    /// the day and collects taxes.
    pub fn set_hour(&mut self, hour: u8)
        requires
            hour % 24 < old(self)@.hour ==> old(self)@.day < u32::MAX,
        ensures
            final(self)@ == old(self)@.at_hour(hour),
    {
        let h: u8 = hour % 24;
        let wrapped: bool = h < self.hour.0;
        self.hour = HourOfDay(h);
        if wrapped {
            self.day = DayCount(self.day.0 + 1);
            self.collect_taxes();
        }
    }

    /// Nightly tax tick: every developed building pays rate times capacity
    /// times development into the treasury.
    fn collect_taxes(&mut self)
        ensures
            final(self)@ == (SimView {
                treasury: credited(
                    old(self)@.treasury,
                    taxes_due(old(self)@.buildings, old(self)@.buildings.len() as int),
                ),
                ..old(self)@
            }),
    {
        let ghost s = self@;
        let mut due: Scalar = scalar(ZERO);
        let mut k: usize = 0;
        while k < self.buildings.len()
            invariant
                s == self@,
                k <= self.buildings.len(),
                due == taxes_due(s.buildings, k as int),
            decreases self.buildings.len() - k,
        {
            assert(s.buildings[k as int] == self.buildings[k as int]@);
            due = due.add(self.buildings[k].building.tax());
            k += 1;
        }
        credit(&mut self.treasury.0, due);
    }
}

} // verus!
