//! What the canvas shows of the city and of the draft.

use super::labels::{land_use_color, Bytes3};
use super::state::{PlanningMode, Segment, UiMode, UiState, UiView};
use crate::scalar::consts::ONE;
use crate::scalar::{scalar, Scalar};
use crate::scene::draw::{path_views, poly_views, ViewportInput, ViewportView};
use crate::scene::shapes::{
    AgentMarker, GroundMarker, PathLine, PathPoly, PathView, PolyView, PropBox, WallSeg,
};
use crate::scene::{rgb, Rgb};
use crate::sim::agent::{Agent, AgentState, AgentView, NeedKind, Position};
use crate::sim::city_ops::copied;
use crate::sim::goal::{dominant_ad, FurnitureKind};
use crate::sim::world::{find_agent, goal_views, DwellingRow, GoalRow, GoalRowView, WorkplaceRow};
use vstd::prelude::*;

verus! {

/// Colour of an agent token by what the agent does.
#[verifier::allow_in_spec]
pub fn state_color(state: AgentState) -> (c: Rgb)
    returns
        (match state {
            AgentState::Idle => rgb(0x3ee6_6666 /* 0.45 */, 0x3f26_6666 /* 0.65 */, 0x3ee6_6666 /* 0.45 */),
            AgentState::Walk => rgb(0x3f66_6666 /* 0.9 */, 0x3f33_3333 /* 0.7 */, 0x3e99_999a /* 0.3 */),
            AgentState::SeekGoal => rgb(0x3f73_3333 /* 0.95 */, 0x3f0c_cccd /* 0.55 */, 0x3e80_0000 /* 0.25 */),
            AgentState::Socialize => rgb(0x3f73_3333 /* 0.95 */, 0x3f0c_cccd /* 0.55 */, 0x3f33_3333 /* 0.7 */),
            AgentState::Working => rgb(0x3ee6_6666 /* 0.45 */, 0x3f0c_cccd /* 0.55 */, 0x3f73_3333 /* 0.95 */),
            AgentState::Sleeping => rgb(0x3eb3_3333 /* 0.35 */, 0x3ecc_cccd /* 0.4 */, 0x3f40_0000 /* 0.75 */),
        }),
{
    match state {
        AgentState::Idle => rgb(0x3ee6_6666 /* 0.45 */, 0x3f26_6666 /* 0.65 */, 0x3ee6_6666 /* 0.45 */),
        AgentState::Walk => rgb(0x3f66_6666 /* 0.9 */, 0x3f33_3333 /* 0.7 */, 0x3e99_999a /* 0.3 */),
        AgentState::SeekGoal => rgb(0x3f73_3333 /* 0.95 */, 0x3f0c_cccd /* 0.55 */, 0x3e80_0000 /* 0.25 */),
        AgentState::Socialize => rgb(0x3f73_3333 /* 0.95 */, 0x3f0c_cccd /* 0.55 */, 0x3f33_3333 /* 0.7 */),
        AgentState::Working => rgb(0x3ee6_6666 /* 0.45 */, 0x3f0c_cccd /* 0.55 */, 0x3f73_3333 /* 0.95 */),
        AgentState::Sleeping => rgb(0x3eb3_3333 /* 0.35 */, 0x3ecc_cccd /* 0.4 */, 0x3f40_0000 /* 0.75 */),
    }
}

/// Colour of a goal marker by the need it serves most.
#[verifier::allow_in_spec]
pub fn need_color(kind: NeedKind) -> (c: Rgb)
    returns
        (match kind {
            NeedKind::Hunger => rgb(0x3f73_3333 /* 0.95 */, 0x3ecc_cccd /* 0.4 */, 0x3e4c_cccd /* 0.2 */),
            NeedKind::Energy => rgb(0x3e99_999a /* 0.3 */, 0x3f19_999a /* 0.6 */, 0x3f73_3333 /* 0.95 */),
            NeedKind::Sociability => rgb(0x3eb3_3333 /* 0.35 */, 0x3f4c_cccd /* 0.8 */, 0x3ecc_cccd /* 0.4 */),
            NeedKind::Comfort => rgb(0x3f73_3333 /* 0.95 */, 0x3f59_999a /* 0.85 */, 0x3ee6_6666 /* 0.45 */),
            NeedKind::Hygiene => rgb(0x3ee6_6666 /* 0.45 */, 0x3f66_6666 /* 0.9 */, 0x3f66_6666 /* 0.9 */),
            NeedKind::Bladder => rgb(0x3f66_6666 /* 0.9 */, 0x3f19_999a /* 0.6 */, 0x3e80_0000 /* 0.25 */),
            NeedKind::Fun => rgb(0x3f73_3333 /* 0.95 */, 0x3ee6_6666 /* 0.45 */, 0x3f40_0000 /* 0.75 */),
        }),
{
    match kind {
        NeedKind::Hunger => rgb(0x3f73_3333 /* 0.95 */, 0x3ecc_cccd /* 0.4 */, 0x3e4c_cccd /* 0.2 */),
        NeedKind::Energy => rgb(0x3e99_999a /* 0.3 */, 0x3f19_999a /* 0.6 */, 0x3f73_3333 /* 0.95 */),
        NeedKind::Sociability => rgb(0x3eb3_3333 /* 0.35 */, 0x3f4c_cccd /* 0.8 */, 0x3ecc_cccd /* 0.4 */),
        NeedKind::Comfort => rgb(0x3f73_3333 /* 0.95 */, 0x3f59_999a /* 0.85 */, 0x3ee6_6666 /* 0.45 */),
        NeedKind::Hygiene => rgb(0x3ee6_6666 /* 0.45 */, 0x3f66_6666 /* 0.9 */, 0x3f66_6666 /* 0.9 */),
        NeedKind::Bladder => rgb(0x3f66_6666 /* 0.9 */, 0x3f19_999a /* 0.6 */, 0x3e80_0000 /* 0.25 */),
        NeedKind::Fun => rgb(0x3f73_3333 /* 0.95 */, 0x3ee6_6666 /* 0.45 */, 0x3f40_0000 /* 0.75 */),
    }
}

/// Size and colour of a piece of furniture.
#[derive(Clone, Copy, Debug, PartialEq, Eq, Structural)]
pub struct PropShape {
    pub w: Scalar,
    pub h: Scalar,
    pub d: Scalar,
    pub color: Rgb,
}

#[verifier::allow_in_spec]
fn shape(w: u32, h: u32, d: u32, color: Rgb) -> (s: PropShape)
    returns
        (PropShape { w: scalar(w), h: scalar(h), d: scalar(d), color }),
{
    PropShape { w: scalar(w), h: scalar(h), d: scalar(d), color }
}

/// Furniture dimensions and colour by kind.
pub open spec fn prop_shape(kind: FurnitureKind) -> PropShape {
    match kind {
        FurnitureKind::Fridge => PropShape {
            w: scalar(0x3f99_999a /* 1.2 */),
            h: scalar(0x400c_cccd /* 2.2 */),
            d: scalar(0x3f99_999a /* 1.2 */),
            color: rgb(0x3f6b_851f /* 0.92 */, 0x3f6b_851f /* 0.92 */, 0x3f70_a3d7 /* 0.94 */),
        },
        FurnitureKind::Bed => PropShape {
            w: scalar(0x400c_cccd /* 2.2 */),
            h: scalar(0x3f4c_cccd /* 0.8 */),
            d: scalar(0x4040_0000 /* 3 */),
            color: rgb(0x3f00_0000 /* 0.5 */, 0x3f19_999a /* 0.6 */, 0x3f66_6666 /* 0.9 */),
        },
        FurnitureKind::Sofa => PropShape {
            w: scalar(0x4019_999a /* 2.4 */),
            h: scalar(0x3f80_0000 /* 1 */),
            d: scalar(0x3f99_999a /* 1.2 */),
            color: rgb(0x3f00_0000 /* 0.5 */, 0x3f40_0000 /* 0.75 */, 0x3f0c_cccd /* 0.55 */),
        },
        FurnitureKind::Toilet => PropShape {
            w: scalar(0x3f80_0000 /* 1 */),
            h: scalar(0x3f99_999a /* 1.2 */),
            d: scalar(0x3fb3_3333 /* 1.4 */),
            color: rgb(0x3f66_6666 /* 0.9 */, 0x3f66_6666 /* 0.9 */, 0x3f6b_851f /* 0.92 */),
        },
        FurnitureKind::Tub => PropShape {
            w: scalar(0x4000_0000 /* 2 */),
            h: scalar(0x3f80_0000 /* 1 */),
            d: scalar(0x4040_0000 /* 3 */),
            color: rgb(0x3f26_6666 /* 0.65 */, 0x3f59_999a /* 0.85 */, 0x3f66_6666 /* 0.9 */),
        },
        FurnitureKind::TV => PropShape {
            w: scalar(0x4000_0000 /* 2 */),
            h: scalar(0x3fb3_3333 /* 1.4 */),
            d: scalar(0x3f19_999a /* 0.6 */),
            color: rgb(0x3e4c_cccd /* 0.2 */, 0x3e4c_cccd /* 0.2 */, 0x3e80_0000 /* 0.25 */),
        },
    }
}

pub fn furniture_prop(kind: FurnitureKind) -> (s: PropShape)
    ensures
        s == prop_shape(kind),
{
    match kind {
        FurnitureKind::Fridge => shape(0x3f99_999a /* 1.2 */, 0x400c_cccd /* 2.2 */, 0x3f99_999a /* 1.2 */, rgb(0x3f6b_851f /* 0.92 */, 0x3f6b_851f /* 0.92 */, 0x3f70_a3d7 /* 0.94 */)),
        FurnitureKind::Bed => shape(0x400c_cccd /* 2.2 */, 0x3f4c_cccd /* 0.8 */, 0x4040_0000 /* 3 */, rgb(0x3f00_0000 /* 0.5 */, 0x3f19_999a /* 0.6 */, 0x3f66_6666 /* 0.9 */)),
        FurnitureKind::Sofa => shape(0x4019_999a /* 2.4 */, 0x3f80_0000 /* 1 */, 0x3f99_999a /* 1.2 */, rgb(0x3f00_0000 /* 0.5 */, 0x3f40_0000 /* 0.75 */, 0x3f0c_cccd /* 0.55 */)),
        FurnitureKind::Toilet => shape(0x3f80_0000 /* 1 */, 0x3f99_999a /* 1.2 */, 0x3fb3_3333 /* 1.4 */, rgb(0x3f66_6666 /* 0.9 */, 0x3f66_6666 /* 0.9 */, 0x3f6b_851f /* 0.92 */)),
        FurnitureKind::Tub => shape(0x4000_0000 /* 2 */, 0x3f80_0000 /* 1 */, 0x4040_0000 /* 3 */, rgb(0x3f26_6666 /* 0.65 */, 0x3f59_999a /* 0.85 */, 0x3f66_6666 /* 0.9 */)),
        FurnitureKind::TV => shape(0x4000_0000 /* 2 */, 0x3fb3_3333 /* 1.4 */, 0x3f19_999a /* 0.6 */, rgb(0x3e4c_cccd /* 0.2 */, 0x3e4c_cccd /* 0.2 */, 0x3e80_0000 /* 0.25 */)),
    }
}

/// A colour in bytes as parts of one.
pub open spec fn unit_color(c: Bytes3) -> Rgb {
    Rgb {
        r: Scalar::from_int_spec(c.r as int).div_spec(scalar(0x437f_0000 /* 255 */)),
        g: Scalar::from_int_spec(c.g as int).div_spec(scalar(0x437f_0000 /* 255 */)),
        b: Scalar::from_int_spec(c.b as int).div_spec(scalar(0x437f_0000 /* 255 */)),
    }
}

pub fn rgb_to_unit(c: Bytes3) -> (r: Rgb)
    ensures
        r == unit_color(c),
{
    Rgb {
        r: Scalar::from_int(c.r as i64).div(scalar(0x437f_0000 /* 255 */)),
        g: Scalar::from_int(c.g as i64).div(scalar(0x437f_0000 /* 255 */)),
        b: Scalar::from_int(c.b as i64).div(scalar(0x437f_0000 /* 255 */)),
    }
}

pub open spec fn agent_token(a: AgentView) -> AgentMarker {
    AgentMarker { x: a.pos.x, z: a.pos.z, color: state_color(a.state) }
}

pub open spec fn draft_marker(p: Position) -> GroundMarker {
    GroundMarker { x: p.x, z: p.z, color: rgb(0x3e80_0000 /* 0.25 */, 0x3ee6_6666 /* 0.45 */, 0x3f80_0000 /* 1 */), size: scalar(0x3f99_999a /* 1.2 */) }
}

pub open spec fn goal_marker(g: GoalRowView) -> GroundMarker {
    GroundMarker {
        x: g.goal.x,
        z: g.goal.z,
        color: need_color(dominant_ad(g.goal.ads).0),
        size: scalar(0x3fcc_cccd /* 1.6 */),
    }
}

pub open spec fn job_marker(w: WorkplaceRow) -> GroundMarker {
    GroundMarker {
        x: w.workplace.x,
        z: w.workplace.z,
        color: rgb(0x3f73_3333 /* 0.95 */, 0x3f40_0000 /* 0.75 */, 0x3e4c_cccd /* 0.2 */),
        size: scalar(0x3fe6_6666 /* 1.8 */),
    }
}

pub open spec fn home_marker(d: DwellingRow) -> GroundMarker {
    GroundMarker {
        x: d.dwelling.x,
        z: d.dwelling.z,
        color: rgb(0x3eb3_3333 /* 0.35 */, 0x3f40_0000 /* 0.75 */, 0x3f59_999a /* 0.85 */),
        size: scalar(0x3fcc_cccd /* 1.6 */),
    }
}

/// Markers of the first `k` goals; furniture stands as boxes instead.
pub open spec fn goal_markers(goals: Seq<GoalRowView>, k: int) -> Seq<GroundMarker>
    decreases k,
{
    if k <= 0 {
        Seq::empty()
    } else if goals[k - 1].furniture is None {
        goal_markers(goals, k - 1).push(goal_marker(goals[k - 1]))
    } else {
        goal_markers(goals, k - 1)
    }
}

/// Boxes of the furniture among the first `k` goals.
pub open spec fn furniture_boxes(goals: Seq<GoalRowView>, k: int) -> Seq<PropBox>
    decreases k,
{
    if k <= 0 {
        Seq::empty()
    } else {
        match goals[k - 1].furniture {
            Some(f) => {
                let s = prop_shape(f.0);
                furniture_boxes(goals, k - 1).push(
                    PropBox {
                        cx: goals[k - 1].goal.x,
                        cz: goals[k - 1].goal.z,
                        w: s.w,
                        h: s.h,
                        d: s.d,
                        color: s.color,
                    },
                )
            },
            None => furniture_boxes(goals, k - 1),
        }
    }
}

/// Ribbons of the first `k` roads that have a segment.
pub open spec fn road_ribbons(roads: Seq<Seq<Position>>, k: int) -> Seq<PathView>
    decreases k,
{
    if k <= 0 {
        Seq::empty()
    } else if roads[k - 1].len() >= 2 {
        road_ribbons(roads, k - 1).push(
            PathView {
                points: roads[k - 1],
                width: scalar(0x4000_0000 /* 2 */),
                color: rgb(0x3f0c_cccd /* 0.55 */, 0x3f0c_cccd /* 0.55 */, 0x3f14_7ae1 /* 0.58 */),
            },
        )
    } else {
        road_ribbons(roads, k - 1)
    }
}

pub open spec fn wall_box(s: Segment) -> WallSeg {
    WallSeg {
        ax: s.a.x,
        az: s.a.z,
        bx: s.b.x,
        bz: s.b.z,
        height: scalar(0x4040_0000 /* 3 */),
        color: rgb(0x3f61_47ae /* 0.88 */, 0x3f59_999a /* 0.85 */, 0x3f4c_cccd /* 0.8 */),
    }
}

impl UiView {
    /// The selected agent gets a white ring.
    pub open spec fn ring(self) -> Seq<GroundMarker> {
        match self.selected_agent {
            Some(e) => match self.sim.agent_index(e) {
                Some(i) => seq![
                    GroundMarker {
                        x: self.sim.agents[i].pos.x,
                        z: self.sim.agents[i].pos.z,
                        color: rgb(ONE, ONE, ONE),
                        size: scalar(0x400c_cccd /* 2.2 */),
                    },
                ],
                None => Seq::empty(),
            },
            None => Seq::empty(),
        }
    }

    /// Markers of the draft, of goals, jobs and homes, and of the selection.
    pub open spec fn shown_markers(self) -> Seq<GroundMarker> {
        self.project_points.map_values(|p: Position| draft_marker(p)) + goal_markers(
            self.sim.goals,
            self.sim.goals.len() as int,
        ) + self.sim.workplaces.map_values(|w: WorkplaceRow| job_marker(w))
            + self.sim.dwellings.map_values(|d: DwellingRow| home_marker(d)) + self.ring()
    }

    /// The draft as a ribbon, where a chain of points is being planned.
    pub open spec fn draft_ribbon(self) -> Seq<PathView> {
        if self.project_points.len() < 2 {
            Seq::empty()
        } else if self.planning_mode == Some(PlanningMode::Roads) {
            seq![
                PathView {
                    points: self.project_points,
                    width: scalar(0x4000_0000 /* 2 */),
                    color: rgb(0x3f73_3333 /* 0.95 */, 0x3f73_3333 /* 0.95 */, 0x3f75_c28f /* 0.96 */),
                },
            ]
        } else if self.planning_mode == Some(PlanningMode::Walls) {
            seq![
                PathView {
                    points: self.project_points,
                    width: scalar(0x3f19_999a /* 0.6 */),
                    color: rgb(0x3f7a_e148 /* 0.98 */, 0x3f75_c28f /* 0.96 */, 0x3f66_6666 /* 0.9 */),
                },
            ]
        } else {
            Seq::empty()
        }
    }

    /// The zoning draft filled with the colour of the selected land use.
    pub open spec fn draft_zone(self) -> Seq<PolyView> {
        match self.selected_land_use {
            Some(lu) => if self.planning_mode == Some(PlanningMode::Zoning)
                && self.project_points.len() >= 3 {
                seq![
                    PolyView {
                        points: self.project_points,
                        color: unit_color(land_use_color(lu)),
                    },
                ]
            } else {
                Seq::empty()
            },
            None => Seq::empty(),
        }
    }

    /// Everything that the canvas shows.
    pub open spec fn shown(self) -> ViewportView {
        ViewportView {
            inspection: self.ui_mode == UiMode::Inspection,
            agents: self.sim.agents.map_values(|a: AgentView| agent_token(a)),
            markers: self.shown_markers(),
            paths: road_ribbons(self.built_roads, self.built_roads.len() as int)
                + self.draft_ribbon(),
            polys: self.draft_zone(),
            walls: self.built_walls.map_values(|s: Segment| wall_box(s)),
            props: furniture_boxes(self.sim.goals, self.sim.goals.len() as int),
        }
    }
}

fn push_draft(out: &mut Vec<GroundMarker>, points: &Vec<Position>)
    ensures
        final(out)@ == old(out)@ + points@.map_values(|p: Position| draft_marker(p)),
{
    let ghost before = out@;
    let ghost all = points@.map_values(|p: Position| draft_marker(p));
    let mut i: usize = 0;
    proof {
        assert(before + all.take(0) =~= before);
    }
    while i < points.len()
        invariant
            i <= points.len(),
            all == points@.map_values(|p: Position| draft_marker(p)),
            out@ == before + all.take(i as int),
        decreases points.len() - i,
    {
        let p: Position = points[i];
        out.push(
            GroundMarker { x: p.x, z: p.z, color: rgb(0x3e80_0000 /* 0.25 */, 0x3ee6_6666 /* 0.45 */, 0x3f80_0000 /* 1 */), size: scalar(0x3f99_999a /* 1.2 */) },
        );
        proof {
            assert(out@ =~= before + all.take(i + 1));
        }
        i += 1;
    }
    proof {
        assert(all.take(i as int) =~= all);
    }
}

fn push_goals(out: &mut Vec<GroundMarker>, goals: &Vec<GoalRow>)
    ensures
        final(out)@ == old(out)@ + goal_markers(goal_views(goals@), goals.len() as int),
{
    let ghost before = out@;
    let ghost views = goal_views(goals@);
    let mut k: usize = 0;
    proof {
        assert(before + goal_markers(views, 0) =~= before);
    }
    while k < goals.len()
        invariant
            k <= goals.len(),
            views == goal_views(goals@),
            out@ == before + goal_markers(views, k as int),
        decreases goals.len() - k,
    {
        let g: &GoalRow = &goals[k];
        assert(views[k as int] == g@);
        if g.furniture.is_none() {
            out.push(
                GroundMarker {
                    x: g.goal.x,
                    z: g.goal.z,
                    color: need_color(g.goal.primary()),
                    size: scalar(0x3fcc_cccd /* 1.6 */),
                },
            );
        }
        proof {
            assert(out@ =~= before + goal_markers(views, k + 1));
        }
        k += 1;
    }
}

fn push_jobs(out: &mut Vec<GroundMarker>, rows: &Vec<WorkplaceRow>)
    ensures
        final(out)@ == old(out)@ + rows@.map_values(|w: WorkplaceRow| job_marker(w)),
{
    let ghost before = out@;
    let ghost all = rows@.map_values(|w: WorkplaceRow| job_marker(w));
    let mut i: usize = 0;
    proof {
        assert(before + all.take(0) =~= before);
    }
    while i < rows.len()
        invariant
            i <= rows.len(),
            all == rows@.map_values(|w: WorkplaceRow| job_marker(w)),
            out@ == before + all.take(i as int),
        decreases rows.len() - i,
    {
        let w = rows[i].workplace;
        out.push(
            GroundMarker { x: w.x, z: w.z, color: rgb(0x3f73_3333 /* 0.95 */, 0x3f40_0000 /* 0.75 */, 0x3e4c_cccd /* 0.2 */), size: scalar(0x3fe6_6666 /* 1.8 */) },
        );
        proof {
            assert(out@ =~= before + all.take(i + 1));
        }
        i += 1;
    }
    proof {
        assert(all.take(i as int) =~= all);
    }
}

fn push_homes(out: &mut Vec<GroundMarker>, rows: &Vec<DwellingRow>)
    ensures
        final(out)@ == old(out)@ + rows@.map_values(|d: DwellingRow| home_marker(d)),
{
    let ghost before = out@;
    let ghost all = rows@.map_values(|d: DwellingRow| home_marker(d));
    let mut i: usize = 0;
    proof {
        assert(before + all.take(0) =~= before);
    }
    while i < rows.len()
        invariant
            i <= rows.len(),
            all == rows@.map_values(|d: DwellingRow| home_marker(d)),
            out@ == before + all.take(i as int),
        decreases rows.len() - i,
    {
        let d = rows[i].dwelling;
        out.push(
            GroundMarker { x: d.x, z: d.z, color: rgb(0x3eb3_3333 /* 0.35 */, 0x3f40_0000 /* 0.75 */, 0x3f59_999a /* 0.85 */), size: scalar(0x3fcc_cccd /* 1.6 */) },
        );
        proof {
            assert(out@ =~= before + all.take(i + 1));
        }
        i += 1;
    }
    proof {
        assert(all.take(i as int) =~= all);
    }
}

fn agent_tokens(agents: &Vec<Agent>) -> (r: Vec<AgentMarker>)
    ensures
        r@ == crate::sim::world::agent_views(agents@).map_values(|a: AgentView| agent_token(a)),
{
    let mut r: Vec<AgentMarker> = Vec::new();
    let mut i: usize = 0;
    while i < agents.len()
        invariant
            i <= agents.len(),
            r.len() == i,
            forall|j: int| 0 <= j < i ==> #[trigger] r[j] == agent_token(agents[j]@),
        decreases agents.len() - i,
    {
        let a: &Agent = &agents[i];
        r.push(AgentMarker { x: a.pos.x, z: a.pos.z, color: state_color(a.state) });
        i += 1;
    }
    proof {
        assert(r@ =~= crate::sim::world::agent_views(agents@).map_values(
            |a: AgentView| agent_token(a),
        ));
    }
    r
}

fn furniture_props(goals: &Vec<GoalRow>) -> (r: Vec<PropBox>)
    ensures
        r@ == furniture_boxes(goal_views(goals@), goals.len() as int),
{
    let ghost views = goal_views(goals@);
    let mut r: Vec<PropBox> = Vec::new();
    let mut k: usize = 0;
    proof {
        assert(r@ =~= furniture_boxes(views, 0));
    }
    while k < goals.len()
        invariant
            k <= goals.len(),
            views == goal_views(goals@),
            r@ == furniture_boxes(views, k as int),
        decreases goals.len() - k,
    {
        let g: &GoalRow = &goals[k];
        assert(views[k as int] == g@);
        if let Some(f) = g.furniture {
            let s: PropShape = furniture_prop(f.0);
            r.push(
                PropBox { cx: g.goal.x, cz: g.goal.z, w: s.w, h: s.h, d: s.d, color: s.color },
            );
        }
        k += 1;
    }
    r
}

fn wall_boxes(walls: &Vec<Segment>) -> (r: Vec<WallSeg>)
    ensures
        r@ == walls@.map_values(|s: Segment| wall_box(s)),
{
    let mut r: Vec<WallSeg> = Vec::new();
    let mut i: usize = 0;
    while i < walls.len()
        invariant
            i <= walls.len(),
            r.len() == i,
            forall|j: int| 0 <= j < i ==> #[trigger] r[j] == wall_box(walls[j]),
        decreases walls.len() - i,
    {
        let s: Segment = walls[i];
        r.push(
            WallSeg {
                ax: s.a.x,
                az: s.a.z,
                bx: s.b.x,
                bz: s.b.z,
                height: scalar(0x4040_0000 /* 3 */),
                color: rgb(0x3f61_47ae /* 0.88 */, 0x3f59_999a /* 0.85 */, 0x3f4c_cccd /* 0.8 */),
            },
        );
        i += 1;
    }
    proof {
        assert(r@ =~= walls@.map_values(|s: Segment| wall_box(s)));
    }
    r
}

impl UiState {
    fn markers(&self) -> (r: Vec<GroundMarker>)
        ensures
            r@ == self@.shown_markers(),
    {
        let mut r: Vec<GroundMarker> = Vec::new();
        push_draft(&mut r, &self.project_points);
        proof {
            assert(r@ =~= self@.project_points.map_values(|p: Position| draft_marker(p)));
        }
        push_goals(&mut r, &self.sim.goals);
        push_jobs(&mut r, &self.sim.workplaces);
        push_homes(&mut r, &self.sim.dwellings);
        let ghost rest = r@;
        if let Some(e) = self.selected_agent {
            if let Some(i) = find_agent(&self.sim.agents, e) {
                assert(self@.sim.agents[i as int] == self.sim.agents[i as int]@);
                let p: Position = self.sim.agents[i].pos;
                r.push(GroundMarker { x: p.x, z: p.z, color: rgb(ONE, ONE, ONE), size: scalar(0x400c_cccd /* 2.2 */) });
            }
        }
        proof {
            assert(r@ =~= rest + self@.ring());
        }
        r
    }

    fn ribbons(&self) -> (r: Vec<PathLine>)
        ensures
            path_views(r@) == road_ribbons(self@.built_roads, self@.built_roads.len() as int)
                + self@.draft_ribbon(),
    {
        let ghost roads = self@.built_roads;
        let mut r: Vec<PathLine> = Vec::new();
        let mut k: usize = 0;
        proof {
            assert(path_views(r@) =~= road_ribbons(roads, 0));
        }
        while k < self.built_roads.len()
            invariant
                k <= self.built_roads.len(),
                roads == self@.built_roads,
                path_views(r@) == road_ribbons(roads, k as int),
            decreases self.built_roads.len() - k,
        {
            assert(roads[k as int] == self.built_roads[k as int]@);
            let ghost before = r@;
            if self.built_roads[k].len() >= 2 {
                r.push(
                    PathLine {
                        points: copied(&self.built_roads[k]),
                        width: scalar(0x4000_0000 /* 2 */),
                        color: rgb(0x3f0c_cccd /* 0.55 */, 0x3f0c_cccd /* 0.55 */, 0x3f14_7ae1 /* 0.58 */),
                    },
                );
                proof {
                    assert(path_views(r@) =~= path_views(before).push(r@.last()@));
                }
            }
            k += 1;
        }
        let ghost built = r@;
        if self.project_points.len() >= 2 {
            match self.planning_mode {
                Some(PlanningMode::Roads) => {
                    r.push(
                        PathLine {
                            points: copied(&self.project_points),
                            width: scalar(0x4000_0000 /* 2 */),
                            color: rgb(0x3f73_3333 /* 0.95 */, 0x3f73_3333 /* 0.95 */, 0x3f75_c28f /* 0.96 */),
                        },
                    );
                },
                Some(PlanningMode::Walls) => {
                    r.push(
                        PathLine {
                            points: copied(&self.project_points),
                            width: scalar(0x3f19_999a /* 0.6 */),
                            color: rgb(0x3f7a_e148 /* 0.98 */, 0x3f75_c28f /* 0.96 */, 0x3f66_6666 /* 0.9 */),
                        },
                    );
                },
                _ => {},
            }
        }
        proof {
            assert(path_views(r@) =~= path_views(built) + self@.draft_ribbon());
        }
        r
    }

    fn zone_fill(&self) -> (r: Vec<PathPoly>)
        ensures
            poly_views(r@) == self@.draft_zone(),
    {
        let mut r: Vec<PathPoly> = Vec::new();
        let zoning: bool = match self.planning_mode {
            Some(m) => m == PlanningMode::Zoning,
            None => false,
        };
        if let Some(lu) = self.selected_land_use {
            if zoning && self.project_points.len() >= 3 {
                r.push(
                    PathPoly {
                        points: copied(&self.project_points),
                        color: rgb_to_unit(land_use_color(lu)),
                    },
                );
            }
        }
        proof {
            assert(poly_views(r@) =~= self@.draft_zone());
        }
        r
    }

    /// What the canvas shows this frame.
    pub fn viewport_input(&self) -> (r: ViewportInput)
        ensures
            r@ == self@.shown(),
    {
        ViewportInput {
            inspection: self.ui_mode == UiMode::Inspection,
            agents: agent_tokens(&self.sim.agents),
            markers: self.markers(),
            paths: self.ribbons(),
            polys: self.zone_fill(),
            walls: wall_boxes(&self.built_walls),
            props: furniture_props(&self.sim.goals),
        }
    }
}

} // verus!
