//! Planning projects: drafts become part of the city.

use super::labels::land_use_function;
use super::state::{PlanningMode, Segment, UiState, UiView};
use super::zoning::{stamp_zoning, Zoned, STAMP_SIZE};
use crate::scalar::scalar;
use crate::sim::agent::Position;
use crate::sim::city_ops::copied;
use crate::sim::goal::{furniture_ad, Furniture, FurnitureKind, DEFAULT_ATTENUATION};
use crate::sim::grid::Wall;
use crate::sim::snapshot::{copied_lines, road_lines};
use crate::sim::world::SimView;
use vstd::prelude::*;

verus! {

/// Consecutive points as wall segments.
pub open spec fn chain(points: Seq<Position>) -> Seq<Segment> {
    Seq::new(
        (points.len() - 1) as nat,
        |i: int| Segment { a: points[i], b: points[i + 1] },
    )
}

/// Wall segments as the sim knows them.
pub open spec fn as_walls(segments: Seq<Segment>) -> Seq<Wall> {
    segments.map_values(|s: Segment| Wall { ax: s.a.x, az: s.a.z, bx: s.b.x, bz: s.b.z })
}

/// The city with a piece of furniture at each of the first `k` points.
pub open spec fn with_furniture(
    s: SimView,
    kind: FurnitureKind,
    points: Seq<Position>,
    k: int,
) -> SimView
    decreases k,
{
    if k <= 0 {
        s
    } else {
        with_furniture(s, kind, points, k - 1).spawned_goal(
            points[k - 1].x,
            points[k - 1].z,
            seq![furniture_ad(kind)],
            scalar(DEFAULT_ATTENUATION),
            Some(Furniture(kind)),
        )
    }
}

impl UiView {
    /// The draft has become a road.
    #[verifier::opaque]
    pub open spec fn road_built(self) -> UiView {
        let roads = self.built_roads.push(self.project_points);
        UiView {
            built_roads: roads,
            project_points: Seq::empty(),
            sim: self.sim.with_roads(roads),
            ..self
        }
    }

    /// The draft has become a chain of walls.
    #[verifier::opaque]
    pub open spec fn walls_built(self, crossed: Seq<bool>) -> UiView {
        let walls = self.built_walls + chain(self.project_points);
        UiView {
            built_walls: walls,
            project_points: Seq::empty(),
            sim: self.sim.with_walls(as_walls(walls), crossed).with_rooms_rebuilt(),
            ..self
        }
    }

    /// Every point of the draft has become a piece of the selected furniture.
    #[verifier::opaque]
    pub open spec fn furniture_placed(self) -> UiView {
        UiView {
            sim: match self.selected_furniture {
                Some(kind) => with_furniture(
                    self.sim,
                    kind,
                    self.project_points,
                    self.project_points.len() as int,
                ),
                None => self.sim,
            },
            project_points: Seq::empty(),
            ..self
        }
    }

    /// The blocks in the draft have got the selected land use.
    #[verifier::opaque]
    pub open spec fn zoned(self) -> UiView {
        let z = match self.selected_land_use {
            Some(lu) => (Zoned { sim: self.sim, stamped: self.stamped }).stamped_blocks(
                self.project_points,
                land_use_function(lu),
                7,
            ),
            None => Zoned { sim: self.sim, stamped: self.stamped },
        };
        UiView { sim: z.sim, stamped: z.stamped, project_points: Seq::empty(), ..self }
    }

    /// No project is open, and nothing is being inspected.
    pub open spec fn project_closed(self) -> UiView {
        UiView {
            current_project: None,
            planning_mode: None,
            selected_land_use: None,
            has_redo: false,
            inspected_building: None,
            building_pinned: false,
            building_anchor: None,
            ..self
        }
    }

    /// The draft has become what was planned, where it has enough points.
    pub open spec fn drafted(self, crossed: Seq<bool>) -> UiView {
        let n = self.project_points.len();
        if self.planning_mode == Some(PlanningMode::Roads) && n >= 2 {
            self.road_built()
        } else if self.planning_mode == Some(PlanningMode::Walls) && n >= 2 {
            self.walls_built(crossed)
        } else if self.planning_mode == Some(PlanningMode::Furniture) && n >= 1 {
            self.furniture_placed()
        } else if self.planning_mode == Some(PlanningMode::Zoning) && n >= 3 {
            self.zoned()
        } else {
            UiView { project_points: Seq::empty(), ..self }
        }
    }

    /// After implementing the draft and closing the project.
    pub open spec fn implemented(self, crossed: Seq<bool>) -> UiView {
        self.drafted(crossed).project_closed()
    }

    /// The draft can be implemented: there is room for the furniture or the
    /// stamps that it spawns, and for walls the grid is small enough to detect
    /// rooms on.
    pub open spec fn can_implement(self) -> bool {
        let n = self.project_points.len();
        match self.planning_mode {
            Some(PlanningMode::Walls) => n >= 2 ==> self.sim.routable(),
            Some(PlanningMode::Furniture) => self.selected_furniture is Some ==> self.sim.next + n
                <= u64::MAX,
            Some(PlanningMode::Zoning) => n >= 3 && self.selected_land_use is Some
                ==> self.sim.next + 7 * STAMP_SIZE <= u64::MAX,
            _ => true,
        }
    }
}

impl UiState {
    /// The draft can be implemented.
    pub fn can_implement(&self) -> (r: bool)
        ensures
            r == self@.can_implement(),
    {
        let room: u64 = u64::MAX - self.sim.next;
        let n: usize = self.project_points.len();
        match self.planning_mode {
            Some(PlanningMode::Walls) => n < 2 || self.sim.routable(),
            Some(PlanningMode::Furniture) => self.selected_furniture.is_none() || n as u64 <= room,
            Some(PlanningMode::Zoning) => n < 3 || self.selected_land_use.is_none() || room >= 7
                * STAMP_SIZE,
            _ => true,
        }
    }

    fn build_road(&mut self)
        ensures
            final(self)@ == old(self)@.road_built(),
    {
        let ghost s = self@;
        proof {
            reveal(UiView::road_built);
        }
        let mut points: Vec<Position> = Vec::new();
        std::mem::swap(&mut points, &mut self.project_points);
        self.built_roads.push(points);
        proof {
            assert(road_lines(self.built_roads@) =~= s.built_roads.push(s.project_points));
            assert(self.project_points@ =~= Seq::empty());
        }
        self.sim.set_roads(copied_lines(&self.built_roads));
    }

    pub(crate) fn all_walls(segments: &Vec<Segment>) -> (r: Vec<Wall>)
        ensures
            r@ == as_walls(segments@),
    {
        let mut r: Vec<Wall> = Vec::new();
        let mut i: usize = 0;
        while i < segments.len()
            invariant
                i <= segments.len(),
                r.len() == i,
                forall|j: int|
                    0 <= j < i ==> #[trigger] r[j] == (Wall {
                        ax: segments[j].a.x,
                        az: segments[j].a.z,
                        bx: segments[j].b.x,
                        bz: segments[j].b.z,
                    }),
            decreases segments.len() - i,
        {
            let s: Segment = segments[i];
            r.push(Wall { ax: s.a.x, az: s.a.z, bx: s.b.x, bz: s.b.z });
            i += 1;
        }
        proof {
            assert(r@ =~= as_walls(segments@));
        }
        r
    }

    fn push_chain(walls: &mut Vec<Segment>, points: &Vec<Position>)
        requires
            points.len() >= 1,
        ensures
            final(walls)@ == old(walls)@ + chain(points@),
    {
        let ghost before = walls@;
        let mut i: usize = 0;
        proof {
            assert(before + chain(points@).take(0) =~= before);
        }
        while i < points.len() - 1
            invariant
                points.len() >= 1,
                i <= points.len() - 1,
                walls@ == before + chain(points@).take(i as int),
            decreases points.len() - i,
        {
            walls.push(Segment { a: points[i], b: points[i + 1] });
            proof {
                assert(walls@ =~= before + chain(points@).take(i + 1));
            }
            i += 1;
        }
        proof {
            assert(chain(points@).take(i as int) =~= chain(points@));
        }
    }

    /// The walls that stand after implementing the draft. Whoever implements
    /// it tests which cells they cross.
    pub fn planned_walls(&self) -> (r: Vec<Wall>)
        ensures
            r@ == as_walls(
                if self@.planning_mode == Some(PlanningMode::Walls) && self@.project_points.len()
                    >= 2 {
                    self@.built_walls + chain(self@.project_points)
                } else {
                    self@.built_walls
                },
            ),
    {
        let mut walls: Vec<Segment> = copied(&self.built_walls);
        let drafting: bool = match self.planning_mode {
            Some(m) => m == PlanningMode::Walls,
            None => false,
        };
        if drafting && self.project_points.len() >= 2 {
            Self::push_chain(&mut walls, &self.project_points);
        }
        Self::all_walls(&walls)
    }

    fn build_walls(&mut self, crossed: Vec<bool>)
        requires
            old(self)@.project_points.len() >= 1,
            old(self)@.sim.routable(),
        ensures
            final(self)@ == old(self)@.walls_built(crossed@),
    {
        Self::push_chain(&mut self.built_walls, &self.project_points);
        self.project_points = Vec::new();
        proof {
            reveal(UiView::walls_built);
            assert(self.project_points@ =~= Seq::empty());
        }
        let walls: Vec<Wall> = Self::all_walls(&self.built_walls);
        self.sim.set_walls(walls, crossed);
        self.sim.rebuild_rooms();
    }

    fn place_furniture(&mut self)
        requires
            old(self)@.selected_furniture is Some ==> old(self)@.sim.next
                + old(self)@.project_points.len() <= u64::MAX,
        ensures
            final(self)@ == old(self)@.furniture_placed(),
    {
        let ghost s = self@;
        let mut points: Vec<Position> = Vec::new();
        std::mem::swap(&mut points, &mut self.project_points);
        proof {
            reveal(UiView::furniture_placed);
            assert(self.project_points@ =~= Seq::empty());
        }
        if let Some(kind) = self.selected_furniture {
            let mut k: usize = 0;
            while k < points.len()
                invariant
                    points@ == s.project_points,
                    k <= points.len(),
                    s.sim.next + points.len() <= u64::MAX,
                    self@ == (UiView {
                        sim: with_furniture(s.sim, kind, points@, k as int),
                        project_points: Seq::empty(),
                        ..s
                    }),
                    self@.sim.next == s.sim.next + k,
                decreases points.len() - k,
            {
                self.sim.spawn_furniture(points[k].x, points[k].z, kind);
                k += 1;
            }
        }
    }

    fn zone_blocks(&mut self)
        requires
            old(self)@.project_points.len() >= 1,
            old(self)@.selected_land_use is Some ==> old(self)@.sim.next + 7 * STAMP_SIZE
                <= u64::MAX,
        ensures
            final(self)@ == old(self)@.zoned(),
    {
        if let Some(lu) = self.selected_land_use {
            stamp_zoning(
                &mut self.sim,
                &mut self.stamped,
                &self.project_points,
                land_use_function(lu),
            );
        }
        self.project_points = Vec::new();
        proof {
            reveal(UiView::zoned);
            assert(self.project_points@ =~= Seq::empty());
        }
    }

    fn close_project(&mut self)
        ensures
            final(self)@ == old(self)@.project_closed(),
    {
        self.current_project = None;
        self.planning_mode = None;
        self.selected_land_use = None;
        self.has_redo = false;
        self.inspected_building = None;
        self.building_pinned = false;
        self.building_anchor = None;
    }

    fn clear_draft(&mut self)
        ensures
            final(self)@ == (UiView { project_points: Seq::empty(), ..old(self)@ }),
    {
        self.project_points = Vec::new();
        proof {
            assert(self.project_points@ =~= Seq::empty());
        }
    }

    fn apply_draft(&mut self, crossed: Vec<bool>)
        requires
            old(self)@.can_implement(),
        ensures
            final(self)@ == old(self)@.drafted(crossed@),
    {
        let n: usize = self.project_points.len();
        match self.planning_mode {
            Some(PlanningMode::Roads) => {
                if n >= 2 {
                    self.build_road();
                    return;
                }
            },
            Some(PlanningMode::Walls) => {
                if n >= 2 {
                    self.build_walls(crossed);
                    return;
                }
            },
            Some(PlanningMode::Furniture) => {
                if n >= 1 {
                    self.place_furniture();
                    return;
                }
            },
            Some(PlanningMode::Zoning) => {
                if n >= 3 {
                    self.zone_blocks();
                    return;
                }
            },
            None => {},
        }
        self.clear_draft();
    }

    /// Turn the draft into what was planned, then close the project.
    /// `crossed` tells which cells [`UiState::planned_walls`] cross.
    pub fn implement_project(&mut self, crossed: Vec<bool>)
        requires
            old(self)@.can_implement(),
        ensures
            final(self)@ == old(self)@.implemented(crossed@),
    {
        self.apply_draft(crossed);
        self.close_project();
    }
}

/// However a project ends, it is closed and its draft is gone.
pub proof fn law_implementing_closes_the_project(s: UiView, crossed: Seq<bool>)
    ensures
        s.implemented(crossed).current_project is None,
        s.implemented(crossed).planning_mode is None,
        s.implemented(crossed).project_points.len() == 0,
        !s.implemented(crossed).has_redo,
{
    reveal(UiView::road_built);
    reveal(UiView::walls_built);
    reveal(UiView::furniture_placed);
    reveal(UiView::zoned);
}

} // verus!
