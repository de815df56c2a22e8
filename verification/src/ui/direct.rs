//! Directing agents with clicks on the ground.

use super::state::{UiMode, UiState, UiView};
use crate::scalar::Scalar;
use crate::scalar::scalar;
use crate::sim::agent::{ActionKind, Employment, Position};
use crate::sim::laws::homes::law_refused_move_keeps_home;
use crate::sim::systems::walk::{dist2, distance2};
use crate::sim::world::{
    agent_ids, find_agent, find_dwelling, lemma_first_facts, DwellingRow, GoalRowView, Sim, SimView,
    WorkplaceRow,
};
use crate::sim::Entity;
use crate::viewport::{PickEvent, PickView};
use vstd::prelude::*;

verus! {

/// Click radius (ground units) for snapping to a goal, job or home (3).
pub const USE_RADIUS: u32 = 0x4040_0000;

/// Most points that a planning project takes.
pub const MAX_PROJECT_POINTS: usize = 64;

/// Somewhere an agent can be sent.
#[derive(Clone, Copy, Debug, PartialEq, Eq, Structural)]
pub struct Spot {
    pub id: Entity,
    pub x: Scalar,
    pub z: Scalar,
}

/// The point lies within the click radius of a place.
pub open spec fn in_click_radius(d2: Scalar) -> bool {
    d2.le_spec(scalar(USE_RADIUS).mul_spec(scalar(USE_RADIUS)))
}

/// The nearest of the first `k` spots within the click radius of a point,
/// with its squared distance; of several equally near the first.
pub open spec fn nearest_spot(spots: Seq<Spot>, p: Position, k: int) -> Option<(Scalar, Entity)>
    decreases k,
{
    if k <= 0 {
        None
    } else {
        let best = nearest_spot(spots, p, k - 1);
        let s = spots[k - 1];
        let d2 = dist2(s.x, s.z, p);
        if !in_click_radius(d2) {
            best
        } else {
            match best {
                Some(b) => if d2.lt_spec(b.0) {
                    Some((d2, s.id))
                } else {
                    best
                },
                None => Some((d2, s.id)),
            }
        }
    }
}

/// The nearest of all spots, by identity.
pub open spec fn clicked(spots: Seq<Spot>, p: Position) -> Option<Entity> {
    match nearest_spot(spots, p, spots.len() as int) {
        Some(b) => Some(b.1),
        None => None,
    }
}

/// Squared distance from a point to spot `j`.
pub open spec fn spot_dist2(spots: Seq<Spot>, j: int, p: Position) -> Scalar {
    dist2(spots[j].x, spots[j].z, p)
}

/// Spot `i` is in the click radius, none in it is nearer, and none that stands
/// earlier is as near.
pub open spec fn is_nearest_spot(spots: Seq<Spot>, p: Position, k: int, i: int) -> bool {
    &&& 0 <= i < k
    &&& in_click_radius(spot_dist2(spots, i, p))
    &&& forall|j: int|
        0 <= j < k && in_click_radius(#[trigger] spot_dist2(spots, j, p)) ==> !spot_dist2(
            spots,
            j,
            p,
        ).lt_spec(spot_dist2(spots, i, p))
    &&& forall|j: int|
        0 <= j < i && in_click_radius(#[trigger] spot_dist2(spots, j, p)) ==> !spot_dist2(
            spots,
            j,
            p,
        ).le_spec(spot_dist2(spots, i, p))
}

proof fn lemma_nearest_spot(spots: Seq<Spot>, p: Position, k: int) -> (i: int)
    requires
        0 <= k <= spots.len(),
    ensures
        match nearest_spot(spots, p, k) {
            None => forall|j: int|
                0 <= j < k ==> !in_click_radius(#[trigger] spot_dist2(spots, j, p)),
            Some(b) => is_nearest_spot(spots, p, k, i) && b == (
                spot_dist2(spots, i, p),
                spots[i].id,
            ),
        },
    decreases k,
{
    if k <= 0 {
        0
    } else {
        let i = lemma_nearest_spot(spots, p, k - 1);
        let d2 = spot_dist2(spots, k - 1, p);
        if nearest_spot(spots, p, k) == nearest_spot(spots, p, k - 1) && !(in_click_radius(d2) && (
        nearest_spot(spots, p, k - 1) is None || d2.lt_spec(spot_dist2(spots, i, p)))) {
            i
        } else {
            k - 1
        }
    }
}

/// A click hits the nearest spot in its radius: none exactly when no spot is
/// in the radius; otherwise one that is, with none nearer and none as near
/// that stands earlier.
pub proof fn law_click_hits_the_nearest(spots: Seq<Spot>, p: Position)
    ensures
        match clicked(spots, p) {
            None => forall|j: int|
                0 <= j < spots.len() ==> !in_click_radius(#[trigger] spot_dist2(spots, j, p)),
            Some(e) => exists|i: int| #[trigger]
                is_nearest_spot(spots, p, spots.len() as int, i) && spots[i].id == e,
        },
{
    let i = lemma_nearest_spot(spots, p, spots.len() as int);
    if clicked(spots, p) is Some {
        assert(is_nearest_spot(spots, p, spots.len() as int, i));
    }
}

fn nearest(spots: &Vec<Spot>, p: Position) -> (r: Option<Entity>)
    ensures
        r == clicked(spots@, p),
{
    let limit: Scalar = scalar(USE_RADIUS).mul(scalar(USE_RADIUS));
    let mut best: Option<(Scalar, Entity)> = None;
    let mut k: usize = 0;
    while k < spots.len()
        invariant
            limit == scalar(USE_RADIUS).mul_spec(scalar(USE_RADIUS)),
            k <= spots.len(),
            best == nearest_spot(spots@, p, k as int),
        decreases spots.len() - k,
    {
        let s: Spot = spots[k];
        let d2: Scalar = distance2(s.x, s.z, p);
        if d2.le(limit) {
            match best {
                Some(b) => {
                    if d2.lt(b.0) {
                        best = Some((d2, s.id));
                    }
                },
                None => {
                    best = Some((d2, s.id));
                },
            }
        }
        k += 1;
    }
    match best {
        Some(b) => Some(b.1),
        None => None,
    }
}

pub open spec fn goal_spots(s: SimView) -> Seq<Spot> {
    s.goals.map_values(|g: GoalRowView| Spot { id: g.id, x: g.goal.x, z: g.goal.z })
}

pub open spec fn dwelling_spots(s: SimView) -> Seq<Spot> {
    s.dwellings.map_values(
        |d: DwellingRow| Spot { id: d.id, x: d.dwelling.x, z: d.dwelling.z },
    )
}

pub open spec fn workplace_spots(s: SimView) -> Seq<Spot> {
    s.workplaces.map_values(
        |w: WorkplaceRow| Spot { id: w.id, x: w.workplace.x, z: w.workplace.z },
    )
}

pub(crate) fn list_goals(sim: &Sim) -> (r: Vec<Spot>)
    ensures
        r@ == goal_spots(sim@),
{
    let mut r: Vec<Spot> = Vec::new();
    let mut i: usize = 0;
    while i < sim.goals.len()
        invariant
            i <= sim.goals.len(),
            r.len() == i,
            forall|j: int|
                0 <= j < i ==> #[trigger] r[j] == (Spot {
                    id: sim.goals[j].id,
                    x: sim.goals[j].goal.x,
                    z: sim.goals[j].goal.z,
                }),
        decreases sim.goals.len() - i,
    {
        r.push(Spot { id: sim.goals[i].id, x: sim.goals[i].goal.x, z: sim.goals[i].goal.z });
        i += 1;
    }
    proof {
        assert(r@ =~= goal_spots(sim@));
    }
    r
}

pub(crate) fn list_dwellings(sim: &Sim) -> (r: Vec<Spot>)
    ensures
        r@ == dwelling_spots(sim@),
{
    let mut r: Vec<Spot> = Vec::new();
    let mut i: usize = 0;
    while i < sim.dwellings.len()
        invariant
            i <= sim.dwellings.len(),
            r.len() == i,
            forall|j: int|
                0 <= j < i ==> #[trigger] r[j] == (Spot {
                    id: sim.dwellings[j].id,
                    x: sim.dwellings[j].dwelling.x,
                    z: sim.dwellings[j].dwelling.z,
                }),
        decreases sim.dwellings.len() - i,
    {
        let d: DwellingRow = sim.dwellings[i];
        r.push(Spot { id: d.id, x: d.dwelling.x, z: d.dwelling.z });
        i += 1;
    }
    proof {
        assert(r@ =~= dwelling_spots(sim@));
    }
    r
}

pub(crate) fn list_workplaces(sim: &Sim) -> (r: Vec<Spot>)
    ensures
        r@ == workplace_spots(sim@),
{
    let mut r: Vec<Spot> = Vec::new();
    let mut i: usize = 0;
    while i < sim.workplaces.len()
        invariant
            i <= sim.workplaces.len(),
            r.len() == i,
            forall|j: int|
                0 <= j < i ==> #[trigger] r[j] == (Spot {
                    id: sim.workplaces[j].id,
                    x: sim.workplaces[j].workplace.x,
                    z: sim.workplaces[j].workplace.z,
                }),
        decreases sim.workplaces.len() - i,
    {
        let w: WorkplaceRow = sim.workplaces[i];
        r.push(Spot { id: w.id, x: w.workplace.x, z: w.workplace.z });
        i += 1;
    }
    proof {
        assert(r@ =~= workplace_spots(sim@));
    }
    r
}

fn lives_in(sim: &Sim, agent: Entity, home: Entity) -> (r: bool)
    ensures
        r == sim@.lives_in(agent, home),
{
    if let Some(i) = find_agent(&sim.agents, agent) {
        assert(sim@.agents[i as int] == sim.agents[i as int]@);
        if let Some(h) = sim.agents[i].home {
            return h.0 == home;
        }
    }
    false
}

fn works_at(sim: &Sim, agent: Entity, workplace: Entity) -> (r: bool)
    requires
        sim@.has_agent(agent),
    ensures
        r == (sim@.agent(agent).employment == Some(Employment { workplace })),
{
    if let Some(i) = find_agent(&sim.agents, agent) {
        assert(sim@.agents[i as int] == sim.agents[i as int]@);
        if let Some(e) = sim.agents[i].employment {
            return e.workplace == workplace;
        }
    }
    false
}

impl UiView {
    /// The selected agent, where there is one, stands in the city.
    pub open spec fn selection_stands(self) -> bool {
        self.selected_agent matches Some(e) ==> self.sim.has_agent(e)
    }

    /// A click near a home finds the selected agent in the city, or is
    /// refused: the house is full.
    pub open spec fn can_house(self, p: Position) -> bool {
        match (self.selected_agent, clicked(dwelling_spots(self.sim), p)) {
            (Some(e), Some(home)) => self.sim.has_bed(home) ==> self.sim.has_agent(e),
            _ => true,
        }
    }

    /// A click near a workplace finds the selected agent in the city.
    pub open spec fn can_hire(self, p: Position) -> bool {
        clicked(workplace_spots(self.sim), p) is Some ==> self.selection_stands()
    }

    /// A click on the ground finds the selected agent in the city, where it
    /// changes it.
    pub open spec fn can_click(self, p: Position) -> bool {
        if self.takes_point() {
            true
        } else if clicked(dwelling_spots(self.sim), p) is Some {
            self.can_house(p)
        } else {
            self.selection_stands()
        }
    }

    /// A canvas event finds the selected agent in the city, where it changes
    /// it.
    pub open spec fn can_pick(self, e: PickView) -> bool {
        match e {
            PickView::GroundClick { x, z } => self.can_click(Position { x, z }),
            _ => true,
        }
    }

    /// The order that a click gives: to use the goal near it, else to go
    /// there.
    pub open spec fn click_action(self, p: Position) -> ActionKind {
        match clicked(goal_spots(self.sim), p) {
            Some(goal) => ActionKind::Use { goal },
            None => ActionKind::Goto { x: p.x, z: p.z },
        }
    }

    /// After directing the selected agent to a point.
    pub open spec fn directed(self, p: Position) -> UiView {
        match self.selected_agent {
            Some(e) => UiView {
                sim: self.sim.ordered(e, self.click_action(p)),
                ..self
            }.blipped(660),
            None => self,
        }
    }

    /// After an agent moved in, or out where it lives there already. Full
    /// houses refuse with a low tone.
    pub open spec fn home_toggled(self, e: Entity, home: Entity) -> UiView {
        if self.sim.lives_in(e, home) {
            UiView { sim: self.sim.moved_out(e), ..self }.blipped(392)
        } else if self.sim.has_bed(home) {
            UiView { sim: self.sim.moved_in(e, home), ..self }.blipped(740)
        } else {
            self.blipped(220)
        }
    }

    /// After an agent was hired, or dismissed where it works there already.
    pub open spec fn job_toggled(self, e: Entity, workplace: Entity) -> UiView {
        if self.sim.agent(e).employment == Some(Employment { workplace }) {
            UiView { sim: self.sim.dismissed(e), ..self }.blipped(392)
        } else {
            UiView { sim: self.sim.employed(e, workplace), ..self }.blipped(740)
        }
    }

    /// After a click that may move the selected agent in or out.
    pub open spec fn housed_by_click(self, p: Position) -> UiView {
        match self.selected_agent {
            Some(e) => match clicked(dwelling_spots(self.sim), p) {
                Some(home) => self.home_toggled(e, home),
                None => self,
            },
            None => self,
        }
    }

    /// After a click that may hire or dismiss the selected agent.
    pub open spec fn hired_by_click(self, p: Position) -> UiView {
        match self.selected_agent {
            Some(e) => match clicked(workplace_spots(self.sim), p) {
                Some(workplace) => self.job_toggled(e, workplace),
                None => self,
            },
            None => self,
        }
    }

    /// The current project takes another point.
    pub open spec fn takes_point(self) -> bool {
        self.ui_mode == UiMode::Planning && self.current_project is Some
            && self.project_points.len() < MAX_PROJECT_POINTS
    }

    /// After a click on the ground: a planning project takes the point; else
    /// a home or job near it takes or releases the selected agent; else the
    /// agent is sent there.
    pub open spec fn ground_clicked(self, p: Position) -> UiView {
        if self.takes_point() {
            UiView { project_points: self.project_points.push(p), ..self }
        } else if self.selected_agent is None {
            self
        } else if clicked(dwelling_spots(self.sim), p) is Some {
            self.housed_by_click(p)
        } else if clicked(workplace_spots(self.sim), p) is Some {
            self.hired_by_click(p)
        } else {
            self.directed(p)
        }
    }

    /// After a canvas event. Hovering follows the pointer unless a building
    /// is pinned; selecting pins one.
    pub open spec fn after_pick(self, e: PickView) -> UiView {
        match e {
            PickView::Hover { id, screen } => if self.building_pinned {
                self
            } else {
                UiView { inspected_building: id, building_anchor: Some(screen), ..self }
            },
            PickView::Select { id, screen } => UiView {
                inspected_building: Some(id),
                building_pinned: true,
                building_anchor: Some(screen),
                ..self
            }.blipped(880),
            PickView::GroundClick { x, z } => self.ground_clicked(Position { x, z }),
        }
    }
}

impl UiState {
    /// The selected agent, where there is one, stands in the city.
    pub fn selection_stands(&self) -> (r: bool)
        ensures
            r == self@.selection_stands(),
    {
        match self.selected_agent {
            Some(e) => find_agent(&self.sim.agents, e).is_some(),
            None => true,
        }
    }

    /// Direct the selected agent: a click near a goal sends it to use that,
    /// anywhere else to go there. Nothing happens without a selection. True
    /// when an order was sent.
    pub fn direct_order(&mut self, x: Scalar, z: Scalar) -> (r: bool)
        requires
            old(self)@.selection_stands(),
        ensures
            r == (old(self)@.selected_agent is Some),
            final(self)@ == old(self)@.directed(Position { x, z }),
    {
        let agent: Entity = match self.selected_agent {
            Some(e) => e,
            None => {
                return false;
            },
        };
        let spots: Vec<Spot> = list_goals(&self.sim);
        match nearest(&spots, Position { x, z }) {
            Some(goal) => {
                self.sim.order(agent, ActionKind::Use { goal });
            },
            None => {
                self.sim.order(agent, ActionKind::Goto { x, z });
            },
        }
        self.blip(660);
        true
    }

    /// A canvas event finds the selected agent in the city, where it changes
    /// it.
    pub fn can_pick(&self, event: &PickEvent) -> (r: bool)
        ensures
            r == self@.can_pick(event@),
    {
        match *event {
            PickEvent::GroundClick { x, z } => self.takes_point() || self.selection_stands()
                || self.refuses(Position { x, z }),
            _ => true,
        }
    }

    /// The home near a point has no free bed.
    fn refuses(&self, p: Position) -> (r: bool)
        ensures
            r == (clicked(dwelling_spots(self@.sim), p) matches Some(home) && !self@.sim.has_bed(
                home,
            )),
    {
        let spots: Vec<Spot> = list_dwellings(&self.sim);
        match nearest(&spots, p) {
            Some(home) => match find_dwelling(&self.sim.dwellings, home) {
                Some(i) => self.sim.dwellings[i].dwelling.taken
                    >= self.sim.dwellings[i].dwelling.capacity,
                None => true,
            },
            None => false,
        }
    }

    /// The current project takes another point.
    fn takes_point(&self) -> (r: bool)
        ensures
            r == self@.takes_point(),
    {
        self.ui_mode == UiMode::Planning && self.current_project.is_some()
            && self.project_points.len() < MAX_PROJECT_POINTS
    }

    fn toggle_home(&mut self, agent: Entity, home: Entity)
        requires
            old(self)@.sim.has_bed(home) ==> old(self)@.sim.has_agent(agent),
        ensures
            final(self)@ == old(self)@.home_toggled(agent, home),
    {
        if lives_in(&self.sim, agent, home) {
            self.sim.move_out(agent);
            self.blip(392);
        } else {
            self.enter_home(agent, home);
        }
    }

    fn enter_home(&mut self, agent: Entity, home: Entity)
        requires
            old(self)@.sim.has_bed(home) ==> old(self)@.sim.has_agent(agent),
            !old(self)@.sim.lives_in(agent, home),
        ensures
            final(self)@ == (if old(self)@.sim.has_bed(home) {
                UiView { sim: old(self)@.sim.moved_in(agent, home), ..old(self)@ }.blipped(740)
            } else {
                old(self)@.blipped(220)
            }),
    {
        let ghost s = self@.sim;
        let moved: bool = self.sim.move_in(agent, home);
        proof {
            if !moved {
                law_refused_move_keeps_home(s, agent, home);
            }
        }
        self.blip(
            if moved {
                740
            } else {
                220
            },
        );
    }

    fn toggle_job(&mut self, agent: Entity, workplace: Entity)
        requires
            old(self)@.sim.has_agent(agent),
        ensures
            final(self)@ == old(self)@.job_toggled(agent, workplace),
    {
        if works_at(&self.sim, agent, workplace) {
            self.sim.dismiss(agent);
            self.blip(392);
        } else {
            self.sim.employ(agent, workplace);
            self.blip(740);
        }
    }

    /// Move in or out: a click near a dwelling toggles the selected agent's
    /// home there. True when it handled the click.
    pub fn maybe_move_in(&mut self, x: Scalar, z: Scalar) -> (r: bool)
        requires
            old(self)@.can_house(Position { x, z }),
        ensures
            r == (old(self)@.selected_agent is Some && clicked(
                dwelling_spots(old(self)@.sim),
                Position { x, z },
            ) is Some),
            final(self)@ == old(self)@.housed_by_click(Position { x, z }),
    {
        let agent: Entity = match self.selected_agent {
            Some(e) => e,
            None => {
                return false;
            },
        };
        let spots: Vec<Spot> = list_dwellings(&self.sim);
        let home: Entity = match nearest(&spots, Position { x, z }) {
            Some(h) => h,
            None => {
                return false;
            },
        };
        self.toggle_home(agent, home);
        true
    }

    /// Hire or dismiss: a click near a workplace toggles the selected agent's
    /// job there. True when it handled the click.
    pub fn maybe_employ(&mut self, x: Scalar, z: Scalar) -> (r: bool)
        requires
            old(self)@.can_hire(Position { x, z }),
        ensures
            r == (old(self)@.selected_agent is Some && clicked(
                workplace_spots(old(self)@.sim),
                Position { x, z },
            ) is Some),
            final(self)@ == old(self)@.hired_by_click(Position { x, z }),
    {
        let agent: Entity = match self.selected_agent {
            Some(e) => e,
            None => {
                return false;
            },
        };
        let spots: Vec<Spot> = list_workplaces(&self.sim);
        let site: Entity = match nearest(&spots, Position { x, z }) {
            Some(s) => s,
            None => {
                return false;
            },
        };
        self.toggle_job(agent, site);
        true
    }

    /// A click on the ground.
    pub fn click_ground(&mut self, x: Scalar, z: Scalar)
        requires
            old(self)@.can_click(Position { x, z }),
        ensures
            final(self)@ == old(self)@.ground_clicked(Position { x, z }),
    {
        if self.takes_point() {
            self.project_points.push(Position { x, z });
        } else if !self.maybe_move_in(x, z) && !self.maybe_employ(x, z) {
            self.direct_order(x, z);
        }
    }

    /// A canvas event.
    pub fn on_pick(&mut self, event: PickEvent)
        requires
            old(self)@.can_pick(event@),
        ensures
            final(self)@ == old(self)@.after_pick(event@),
    {
        match event {
            PickEvent::Hover { id, screen } => {
                if !self.building_pinned {
                    self.inspected_building = id;
                    self.building_anchor = Some(screen);
                }
            },
            PickEvent::Select { id, screen } => {
                self.inspected_building = Some(id);
                self.building_pinned = true;
                self.building_anchor = Some(screen);
                self.blip(880);
            },
            PickEvent::GroundClick { x, z } => {
                self.click_ground(x, z);
            },
        }
    }
}

/// A second click on the same workplace undoes the first: the agent has no
/// job there any more.
pub proof fn law_job_click_toggles(s: UiView, p: Position, e: Entity)
    requires
        s.selected_agent == Some(e),
        s.sim.has_agent(e),
        clicked(workplace_spots(s.sim), p) is Some,
    ensures
        ({
            let workplace = clicked(workplace_spots(s.sim), p)->0;
            let once = s.hired_by_click(p);
            let twice = once.hired_by_click(p);
            &&& s.sim.agent(e).employment != Some(Employment { workplace })
                ==> once.sim.agent(e).employment == Some(Employment { workplace })
                && twice.sim.agent(e).employment is None
            &&& s.sim.agent(e).employment == Some(Employment { workplace }) ==> once.sim.agent(
                e,
            ).employment is None && twice.sim.agent(e).employment == Some(
                Employment { workplace },
            )
        }),
{
    reveal(SimView::employed);
    reveal(SimView::dismissed);
    lemma_first_facts(agent_ids(s.sim.agents), e);
    let workplace = clicked(workplace_spots(s.sim), p)->0;
    let once = s.hired_by_click(p);
    assert(agent_ids(once.sim.agents) =~= agent_ids(s.sim.agents));
    assert(workplace_spots(once.sim) == workplace_spots(s.sim));
    let twice = once.hired_by_click(p);
    assert(agent_ids(twice.sim.agents) =~= agent_ids(s.sim.agents));
}

} // verus!
