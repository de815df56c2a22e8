//! What the player does reaches the city.

use super::direct::{
    clicked, dwelling_spots, goal_spots, in_click_radius, is_nearest_spot,
    law_click_hits_the_nearest, spot_dist2, workplace_spots, Spot, USE_RADIUS,
};
use super::game::{first_spot, seeded, speed_of, with_people};
use super::keys::{Key, KeyEvent, Shortcut};
use super::labels::clock;
use super::plan::with_furniture;
use super::state::{PlanningMode, StampView, UiMode, UiView};
use super::zoning::{
    all_near, despawned, door, find_stamp, furnished, in_polygon, labelled, others, resolved,
    spots_near, Zoned,
};
use crate::scalar::{scalar, unit, Scalar};
use crate::scalar::convert::lemma_unit;
use crate::scene::{find_block, skyline, BlockView};
use crate::sim::Entity;
use crate::sim::agent::{ActionKind, Employment, Home, NeedKind, Personality, Position};
use crate::sim::city::ZoneFunction;
use crate::sim::city_ops::removed;
use crate::sim::goal::{furniture_ad, Furniture, FurnitureKind};
use crate::sim::laws::record::{is_absent, law_removed_things_are_gone};
use crate::sim::save::{LoadStatus, SaveView};
use crate::sim::systems::walk::dist2;
use crate::sim::world::{
    agent_ids, building_ids, dwelling_ids, first_index, goal_ids, lemma_first_facts, workplace_ids,
    SimView,
};
use crate::viewport::PickView;
use vstd::prelude::*;

verus! {

/// Some spot of a list lies in the click radius of a point.
pub open spec fn any_near(spots: Seq<Spot>, p: Position) -> bool {
    exists|j: int| 0 <= j < spots.len() && in_click_radius(#[trigger] spot_dist2(spots, j, p))
}

/// An entity is the spot that a click means.
pub open spec fn is_meant(spots: Seq<Spot>, p: Position, e: Entity) -> bool {
    exists|i: int| #[trigger]
        is_nearest_spot(spots, p, spots.len() as int, i) && spots[i].id == e
}

proof fn lemma_clicked(spots: Seq<Spot>, p: Position)
    ensures
        (clicked(spots, p) is Some) == any_near(spots, p),
        clicked(spots, p) matches Some(e) ==> is_meant(spots, p, e),
{
    law_click_hits_the_nearest(spots, p);
    if let Some(e) = clicked(spots, p) {
        let i = choose|i: int| #[trigger]
            is_nearest_spot(spots, p, spots.len() as int, i) && spots[i].id == e;
        assert(in_click_radius(spot_dist2(spots, i, p)));
    }
}

/// The click radius is three units.
pub proof fn law_clicks_reach_three_units(d2: Scalar)
    requires
        d2.is_finite_spec(),
    ensures
        in_click_radius(d2) == (d2.num() <= 9 * unit()),
{
    lemma_unit();
    let r = scalar(USE_RADIUS);
    vstd::arithmetic::power2::lemma2_to64();
    crate::scalar::exact::lemma_whole(0x4040_0000, 3, 128);
    crate::scalar::exact::lemma_whole(0x4110_0000, 9, 130);
    crate::scalar::bounds::lemma_product(r, r);
    let u = unit() as int;
    assert((3 * u) * (3 * u) == (9 * u) * u && (9 * u) * u >= 0) by (nonlinear_arith);
    crate::scalar::exact::lemma_exact(0x4110_0000, ((9 * u) * u) as nat, unit());
}

/// The places that clicks can mean are where they stand.
pub proof fn law_spots_stand_where_their_places_do(s: SimView, i: int)
    ensures
        goal_spots(s).len() == s.goals.len(),
        dwelling_spots(s).len() == s.dwellings.len(),
        workplace_spots(s).len() == s.workplaces.len(),
        0 <= i < s.goals.len() ==> goal_spots(s)[i].id == s.goals[i].id && goal_spots(s)[i].x
            == s.goals[i].goal.x && goal_spots(s)[i].z == s.goals[i].goal.z,
        0 <= i < s.dwellings.len() ==> dwelling_spots(s)[i].id == s.dwellings[i].id
            && dwelling_spots(s)[i].x == s.dwellings[i].dwelling.x && dwelling_spots(s)[i].z
            == s.dwellings[i].dwelling.z,
        0 <= i < s.workplaces.len() ==> workplace_spots(s)[i].id == s.workplaces[i].id
            && workplace_spots(s)[i].x == s.workplaces[i].workplace.x && workplace_spots(s)[i].z
            == s.workplaces[i].workplace.z,
{
}

/// While a project is being drawn a click adds its point at the end, and
/// nothing in the city changes; at other times it never adds one.
pub proof fn law_drafts_grow_click_by_click(s: UiView, p: Position)
    ensures
        ({
            let t = s.ground_clicked(p);
            if s.ui_mode == UiMode::Planning && s.current_project is Some && s.project_points.len()
                < 64 {
                &&& t.project_points.len() == s.project_points.len() + 1
                &&& t.project_points[s.project_points.len() as int] == p
                &&& t.project_points.drop_last() == s.project_points
                &&& t.sim == s.sim && t.selected_agent == s.selected_agent && t.current_project
                    == s.current_project && t.ui_mode == s.ui_mode
            } else {
                &&& t.project_points == s.project_points
                &&& s.selected_agent is None ==> t.sim == s.sim
            }
        }),
{
    assert(s.project_points.push(p).drop_last() =~= s.project_points);
    if !s.takes_point() && s.selected_agent is Some {
        lemma_other_clicks(s, p);
    }
}

proof fn lemma_other_clicks(s: UiView, p: Position)
    ensures
        s.housed_by_click(p).project_points == s.project_points,
        s.hired_by_click(p).project_points == s.project_points,
        s.directed(p).project_points == s.project_points,
{
}

/// A click of a selected agent, outside of planning, means the home near it
/// first, then the workplace near it, then the goal near it, and else the
/// ground itself.
pub proof fn law_clicks_mean_what_is_near(s: UiView, p: Position, e: Entity)
    requires
        s.selected_agent == Some(e),
        s.sim.has_agent(e),
        s.ui_mode != UiMode::Planning,
    ensures
        ({
            let t = s.ground_clicked(p).sim;
            let homes = dwelling_spots(s.sim);
            let jobs = workplace_spots(s.sim);
            let goals = goal_spots(s.sim);
            if any_near(homes, p) {
                exists|h: Entity| #[trigger]
                    is_meant(homes, p, h) && t == (if s.sim.agent(e).home == Some(Home(h)) {
                        s.sim.moved_out(e)
                    } else if s.sim.has_bed(h) {
                        s.sim.moved_in(e, h)
                    } else {
                        s.sim
                    })
            } else if any_near(jobs, p) {
                exists|w: Entity| #[trigger]
                    is_meant(jobs, p, w) && t == (if s.sim.agent(e).employment == Some(
                        Employment { workplace: w },
                    ) {
                        s.sim.dismissed(e)
                    } else {
                        s.sim.employed(e, w)
                    })
            } else if any_near(goals, p) {
                exists|g: Entity| #[trigger]
                    is_meant(goals, p, g) && t == s.sim.ordered(e, ActionKind::Use { goal: g })
            } else {
                t == s.sim.ordered(e, ActionKind::Goto { x: p.x, z: p.z })
            }
        }),
{
    let homes = dwelling_spots(s.sim);
    let jobs = workplace_spots(s.sim);
    let goals = goal_spots(s.sim);
    lemma_clicked(homes, p);
    lemma_clicked(jobs, p);
    lemma_clicked(goals, p);
    if any_near(homes, p) {
        assert(is_meant(homes, p, clicked(homes, p)->0));
    } else if any_near(jobs, p) {
        assert(is_meant(jobs, p, clicked(jobs, p)->0));
    } else if any_near(goals, p) {
        assert(is_meant(goals, p, clicked(goals, p)->0));
    }
}

/// Hovering shows the building under the pointer unless one is pinned, and
/// selecting pins the one selected.
pub proof fn law_selected_buildings_stay(s: UiView, e: PickView, f: PickView)
    ensures
        match e {
            PickView::Hover { id, screen } => {
                let t = s.after_pick(e);
                &&& !s.building_pinned ==> t.inspected_building == id && t.building_anchor == Some(
                    screen,
                )
                &&& s.building_pinned ==> t == s
                &&& t.sim == s.sim && !s.building_pinned ==> !t.building_pinned
            },
            PickView::Select { id, screen } => {
                let t = s.after_pick(e);
                &&& t.inspected_building == Some(id) && t.building_pinned && t.building_anchor
                    == Some(screen) && t.sim == s.sim
                &&& f is Hover ==> t.after_pick(f).inspected_building == Some(id)
            },
            PickView::GroundClick { x, z } => s.after_pick(e) == s.ground_clicked(
                Position { x, z },
            ),
        },
{
}

/// A drafted road is built as it was drawn, after all earlier ones, and the
/// city knows the same roads.
pub proof fn law_roads_are_built_as_drawn(s: UiView, crossed: Seq<bool>)
    requires
        s.planning_mode == Some(PlanningMode::Roads),
        s.project_points.len() >= 2,
    ensures
        ({
            let t = s.implemented(crossed);
            &&& t.built_roads.len() == s.built_roads.len() + 1
            &&& t.built_roads[s.built_roads.len() as int] == s.project_points
            &&& t.built_roads.drop_last() == s.built_roads
            &&& t.sim.ground.roads == t.built_roads
            &&& t.sim.agents == s.sim.agents && t.sim.goals == s.sim.goals && t.sim.ground.walls
                == s.sim.ground.walls && t.built_walls == s.built_walls
        }),
{
    reveal(UiView::road_built);
    assert(s.built_roads.push(s.project_points).drop_last() =~= s.built_roads);
}

/// Drafted walls join each drawn point to the next, after all earlier ones, and
/// the city knows the same walls.
pub proof fn law_walls_are_built_as_drawn(s: UiView, crossed: Seq<bool>, i: int)
    requires
        s.planning_mode == Some(PlanningMode::Walls),
        s.project_points.len() >= 2,
    ensures
        ({
            let t = s.implemented(crossed);
            let n = s.built_walls.len();
            &&& t.built_walls.len() == n + s.project_points.len() - 1
            &&& 0 <= i < n ==> t.built_walls[i] == s.built_walls[i]
            &&& 0 <= i < s.project_points.len() - 1 ==> t.built_walls[n + i].a
                == s.project_points[i] && t.built_walls[n + i].b == s.project_points[i + 1]
            &&& t.sim.ground.walls.len() == t.built_walls.len()
            &&& 0 <= i < t.built_walls.len() ==> t.sim.ground.walls[i].ax
                == t.built_walls[i].a.x && t.sim.ground.walls[i].az == t.built_walls[i].a.z
                && t.sim.ground.walls[i].bx == t.built_walls[i].b.x && t.sim.ground.walls[i].bz
                == t.built_walls[i].b.z
            &&& t.sim.ground.crossed == crossed
            &&& t.sim.agents == s.sim.agents && t.sim.ground.roads == s.sim.ground.roads
                && t.built_roads == s.built_roads
        }),
{
    reveal(UiView::walls_built);
}

proof fn lemma_with_furniture(
    s: SimView,
    kind: FurnitureKind,
    points: Seq<Position>,
    k: int,
    i: int,
)
    requires
        0 <= k <= points.len(),
    ensures
        ({
            let t = with_furniture(s, kind, points, k);
            let n = s.goals.len();
            &&& t.goals.len() == n + k
            &&& 0 <= i < n ==> t.goals[i] == s.goals[i]
            &&& 0 <= i < k ==> t.goals[n + i].goal.x == points[i].x && t.goals[n + i].goal.z
                == points[i].z && t.goals[n + i].furniture == Some(Furniture(kind))
                && t.goals[n + i].goal.claimed_by is None
                && t.goals[n + i].goal.ads == seq![furniture_ad(kind)]
            &&& t.agents == s.agents && t.ground == s.ground && t.workplaces == s.workplaces
                && t.dwellings == s.dwellings && t.buildings == s.buildings
        }),
    decreases k,
{
    if k > 0 {
        lemma_with_furniture(s, kind, points, k - 1, i);
    }
}

/// A piece of the chosen furniture stands at each drawn point.
pub proof fn law_furniture_stands_where_drawn(
    s: UiView,
    crossed: Seq<bool>,
    kind: FurnitureKind,
    i: int,
)
    requires
        s.planning_mode == Some(PlanningMode::Furniture),
        s.selected_furniture == Some(kind),
        s.project_points.len() >= 1,
    ensures
        ({
            let t = s.implemented(crossed).sim;
            let n = s.sim.goals.len();
            &&& t.goals.len() == n + s.project_points.len()
            &&& 0 <= i < n ==> t.goals[i] == s.sim.goals[i]
            &&& 0 <= i < s.project_points.len() ==> t.goals[n + i].goal.x == s.project_points[i].x
                && t.goals[n + i].goal.z == s.project_points[i].z && t.goals[n + i].furniture
                == Some(Furniture(kind))
            &&& t.agents == s.sim.agents && t.ground == s.sim.ground
        }),
{
    reveal(UiView::furniture_placed);
    lemma_with_furniture(s.sim, kind, s.project_points, s.project_points.len() as int, i);
}

/// Each piece of furniture serves the need that it is for, and no two serve the
/// same one; all offer more than half of it and less than all.
pub proof fn law_furniture_serves_its_need(a: FurnitureKind, b: FurnitureKind)
    ensures
        a != b ==> furniture_ad(a).0 != furniture_ad(b).0,
        furniture_ad(FurnitureKind::Fridge).0 == NeedKind::Hunger,
        furniture_ad(FurnitureKind::Bed).0 == NeedKind::Energy,
        furniture_ad(FurnitureKind::Sofa).0 == NeedKind::Sociability,
        furniture_ad(FurnitureKind::Toilet).0 == NeedKind::Bladder,
        furniture_ad(FurnitureKind::Tub).0 == NeedKind::Hygiene,
        furniture_ad(FurnitureKind::TV).0 == NeedKind::Fun,
        scalar(0x3f00_0000).lt_spec(furniture_ad(a).1),
        furniture_ad(a).1.lt_spec(scalar(0x3f80_0000)),
{
    let bits = furniture_ad(a).1.bits as nat;
    crate::scalar::round::lemma_magnitude_increases(0x3f00_0000, bits);
    crate::scalar::round::lemma_magnitude_increases(bits, 0x3f80_0000);
}

/// The goals of a city have one more, that serves a need at a place.
pub open spec fn has_new_goal(s: SimView, t: SimView, at: Position, need: NeedKind) -> bool {
    &&& t.goals.len() == s.goals.len() + 1
    &&& t.goals.drop_last() == s.goals
    &&& t.goals.last().goal.x == at.x && t.goals.last().goal.z == at.z
    &&& t.goals.last().goal.ads.len() > 0 && t.goals.last().goal.ads[0].0 == need
    &&& t.goals.last().goal.claimed_by is None && t.goals.last().furniture is None
}

/// The workplaces of a city have one more, at a place with a shift and an
/// hourly pay in dollars.
pub open spec fn has_new_job(
    s: SimView,
    t: SimView,
    at: Position,
    start: u8,
    end: u8,
    pay: int,
) -> bool {
    let w = t.workplaces.last().workplace;
    &&& t.workplaces.len() == s.workplaces.len() + 1
    &&& t.workplaces.drop_last() == s.workplaces
    &&& w.x == at.x && w.z == at.z && w.shift_start == start && w.shift_end == end
    &&& w.pay_per_hour.num() == pay * unit()
}

/// The homes of a city have one more, empty, at a place with a number of beds.
pub open spec fn has_new_home(s: SimView, t: SimView, at: Position, beds: u32) -> bool {
    let d = t.dwellings.last().dwelling;
    &&& t.dwellings.len() == s.dwellings.len() + 1
    &&& t.dwellings.drop_last() == s.dwellings
    &&& d.x == at.x && d.z == at.z && d.capacity == beds && d.taken == 0
}

/// A zone brings what it is for to its door: shops and works bring jobs, homes
/// bring beds, and the others serve a need. What it brings is on its list.
pub proof fn law_zones_bring_what_they_are_for(
    s: SimView,
    f: ZoneFunction,
    at: Position,
    beds: u32,
)
    requires
        s.next + 2 <= u64::MAX,
    ensures
        ({
            let (t, list) = furnished(s, f, at, beds);
            &&& t.agents == s.agents && t.buildings == s.buildings && t.ground == s.ground
            &&& (f == ZoneFunction::Commercial || f == ZoneFunction::Industrial) || t.workplaces
                == s.workplaces
            &&& f == ZoneFunction::Residential || t.dwellings == s.dwellings
            &&& (f == ZoneFunction::Residential || f == ZoneFunction::Industrial) ==> t.goals
                == s.goals
            &&& match f {
                ZoneFunction::Commercial => has_new_job(s, t, at, 9, 17, 30) && has_new_goal(
                    s,
                    t,
                    at,
                    NeedKind::Comfort,
                ) && list == seq![t.workplaces.last().id, t.goals.last().id],
                ZoneFunction::Industrial => has_new_job(s, t, at, 6, 14, 38) && list
                    == seq![t.workplaces.last().id],
                ZoneFunction::Recreational => has_new_goal(s, t, at, NeedKind::Fun) && list
                    == seq![t.goals.last().id] && t.goals.last().goal.ads.len() == 2
                    && t.goals.last().goal.ads[1].0 == NeedKind::Energy,
                ZoneFunction::Agricultural => has_new_goal(s, t, at, NeedKind::Hunger) && list
                    == seq![t.goals.last().id],
                ZoneFunction::Administrative => has_new_goal(
                    s,
                    t,
                    at,
                    NeedKind::Sociability,
                ) && list == seq![t.goals.last().id],
                ZoneFunction::Residential => has_new_home(s, t, at, beds) && list
                    == seq![t.dwellings.last().id],
            }
        }),
{
    lemma_unit();
    vstd::arithmetic::power2::lemma2_to64();
    crate::scalar::exact::lemma_whole(0x41f0_0000, 30, 131);
    crate::scalar::exact::lemma_whole(0x4218_0000, 38, 132);
    let (t, list) = furnished(s, f, at, beds);
    assert(t.goals.len() > s.goals.len() ==> t.goals.drop_last() =~= s.goals);
    assert(t.workplaces.len() > s.workplaces.len() ==> t.workplaces.drop_last()
        =~= s.workplaces);
    assert(t.dwellings.len() > s.dwellings.len() ==> t.dwellings.drop_last() =~= s.dwellings);
}

proof fn lemma_others(stamped: Seq<StampView>, id: Seq<char>, k: int, x: StampView)
    requires
        0 <= k <= stamped.len(),
    ensures
        others(stamped, id, k).contains(x) == (x.id != id && stamped.take(k).contains(x)),
    decreases k,
{
    if k > 0 {
        lemma_others(stamped, id, k - 1, x);
        let a = others(stamped, id, k - 1);
        let b = others(stamped, id, k);
        let y = stamped[k - 1];
        let c = stamped.take(k - 1);
        let d = stamped.take(k);
        assert(d =~= c.push(y));
        assert(d.contains(x) == (c.contains(x) || x == y)) by {
            if c.contains(x) {
                let i = choose|i: int| 0 <= i < c.len() && c[i] == x;
                assert(d[i] == x);
            }
            assert(d[k - 1] == y);
        }
        if y.id != id {
            assert(b == a.push(y));
            if a.contains(x) {
                let i = choose|i: int| 0 <= i < a.len() && a[i] == x;
                assert(b[i] == x);
            }
            assert(b[b.len() - 1] == y);
        }
    }
}

/// Stamping a block puts up its building, on the footprint of the block, with
/// the function of the zone, and records it; the records of the other blocks
/// stay, and no other record of this block does.
pub proof fn law_stamps_put_up_their_building(z: Zoned, b: BlockView, f: ZoneFunction, x: StampView)
    ensures
        ({
            let t = z.stamped_block(b, f);
            let row = t.sim.buildings.last();
            &&& t.sim.buildings.len() > 0
            &&& row.building.label == b.id && row.building.function == f
            &&& row.building.min_x == b.min_x() && row.building.max_x == b.max_x()
            &&& row.building.min_z == b.min_z() && row.building.max_z == b.max_z()
            &&& t.stamped.last().id == b.id && t.stamped.last().generated.len() > 1
            &&& t.stamped.last().generated[0] == row.id
            &&& x.id != b.id ==> t.stamped.contains(x) == z.stamped.contains(x)
            &&& x.id == b.id && t.stamped.contains(x) ==> x == t.stamped.last()
        }),
{
    let t = z.stamped_block(b, f);
    let n = z.stamped.len() as int;
    let a = others(z.stamped, b.id, n);
    lemma_others(z.stamped, b.id, n, x);
    assert(z.stamped.take(n) =~= z.stamped);
    assert(t.stamped == a.push(t.stamped.last()));
    if a.contains(x) {
        let i = choose|i: int| 0 <= i < a.len() && a[i] == x;
        assert(t.stamped[i] == x);
    }
}

/// A block has a record.
pub open spec fn is_recorded(z: Zoned, id: Seq<char>) -> bool {
    exists|i: int| 0 <= i < z.stamped.len() && (#[trigger] z.stamped[i]).id == id
}

proof fn lemma_skyline_names(i: int, j: int)
    requires
        0 <= i < j < 7,
    ensures
        skyline()[i].id != skyline()[j].id,
{
    reveal_strlit("bld:1");
    reveal_strlit("bld:2");
    reveal_strlit("bld:3");
    reveal_strlit("bld:4");
    reveal_strlit("bld:5");
    reveal_strlit("bld:6");
    reveal_strlit("bld:7");
    assert(skyline()[i].id[4] != skyline()[j].id[4]);
}

/// A zone stamps the blocks whose centers lie in its outline: each of them is
/// recorded afterwards, and the records of each other block stay as they are.
pub proof fn law_zones_stamp_the_blocks_inside(
    z: Zoned,
    poly: Seq<Position>,
    f: ZoneFunction,
    k: int,
    i: int,
    x: StampView,
)
    requires
        0 <= i < k <= 7,
    ensures
        ({
            let t = z.stamped_blocks(poly, f, k);
            let b = skyline()[i];
            &&& in_polygon(Position { x: b.cx, z: b.cz }, poly) ==> is_recorded(t, b.id)
            &&& !in_polygon(Position { x: b.cx, z: b.cz }, poly) && x.id == b.id
                ==> t.stamped.contains(x) == z.stamped.contains(x)
        }),
    decreases k,
{
    let b = skyline()[k - 1];
    let before = z.stamped_blocks(poly, f, k - 1);
    let t = z.stamped_blocks(poly, f, k);
    law_stamps_put_up_their_building(before, b, f, x);
    if i < k - 1 {
        law_zones_stamp_the_blocks_inside(z, poly, f, k - 1, i, x);
        lemma_skyline_names(i, k - 1);
        let id = skyline()[i].id;
        if is_recorded(before, id) && in_polygon(Position { x: b.cx, z: b.cz }, poly) {
            let m = choose|m: int|
                0 <= m < before.stamped.len() && (#[trigger] before.stamped[m]).id == id;
            let y = before.stamped[m];
            assert(before.stamped.contains(y));
            law_stamps_put_up_their_building(before, b, f, y);
            let q = choose|q: int| 0 <= q < t.stamped.len() && t.stamped[q] == y;
            assert(t.stamped[q].id == id);
        }
    } else {
        lemma_prefix_spares(z, poly, f, k - 1, i, x);
        if in_polygon(Position { x: b.cx, z: b.cz }, poly) {
            assert(t.stamped[t.stamped.len() - 1].id == b.id);
        }
    }
}

proof fn lemma_prefix_spares(
    z: Zoned,
    poly: Seq<Position>,
    f: ZoneFunction,
    k: int,
    i: int,
    x: StampView,
)
    requires
        0 <= k <= i < 7,
    ensures
        x.id == skyline()[i].id ==> z.stamped_blocks(poly, f, k).stamped.contains(x)
            == z.stamped.contains(x),
    decreases k,
{
    if k > 0 {
        lemma_prefix_spares(z, poly, f, k - 1, i, x);
        lemma_skyline_names(k - 1, i);
        law_stamps_put_up_their_building(
            z.stamped_blocks(poly, f, k - 1),
            skyline()[k - 1],
            f,
            x,
        );
    }
}

/// No two things of a kind share an identity.
pub open spec fn all_distinct(s: SimView) -> bool {
    &&& agent_ids(s.agents).no_duplicates() && goal_ids(s.goals).no_duplicates()
    &&& workplace_ids(s.workplaces).no_duplicates() && dwelling_ids(
        s.dwellings,
    ).no_duplicates()
    &&& building_ids(s.buildings).no_duplicates()
}

proof fn lemma_removed_ids(ids: Seq<Entity>, e: Entity, x: Entity)
    requires
        ids.no_duplicates(),
    ensures
        removed(ids, first_index(ids, e)).no_duplicates(),
        !ids.contains(x) ==> !removed(ids, first_index(ids, e)).contains(x),
{
    lemma_first_facts(ids, e);
    let r = removed(ids, first_index(ids, e));
    if let Some(j) = first_index(ids, e) {
        assert forall|a: int| 0 <= a < r.len() implies #[trigger] r[a] == ids[if a < j {
            a
        } else {
            a + 1
        }] by {}
        if r.contains(x) {
            let a = choose|a: int| 0 <= a < r.len() && r[a] == x;
            assert(ids.contains(r[a]));
        }
    }
}

proof fn lemma_without(s: SimView, e: Entity, x: Entity)
    requires
        all_distinct(s),
    ensures
        all_distinct(s.without(e)),
        is_absent(s, x) ==> is_absent(s.without(e), x),
        is_absent(s.without(e), e),
{
    reveal(SimView::without);
    let t = s.without(e);
    let a = agent_ids(s.agents);
    let g = goal_ids(s.goals);
    let w = workplace_ids(s.workplaces);
    let d = dwelling_ids(s.dwellings);
    let b = building_ids(s.buildings);
    lemma_first_facts(a, e);
    lemma_first_facts(g, e);
    lemma_first_facts(w, e);
    lemma_first_facts(d, e);
    lemma_first_facts(b, e);
    assert(agent_ids(t.agents) =~= removed(a, first_index(a, e)));
    assert(goal_ids(t.goals) =~= removed(g, first_index(g, e)));
    assert(workplace_ids(t.workplaces) =~= removed(w, first_index(w, e)));
    assert(dwelling_ids(t.dwellings) =~= removed(d, first_index(d, e)));
    assert(building_ids(t.buildings) =~= removed(b, first_index(b, e)));
    lemma_removed_ids(a, e, x);
    lemma_removed_ids(g, e, x);
    lemma_removed_ids(w, e, x);
    lemma_removed_ids(d, e, x);
    lemma_removed_ids(b, e, x);
    law_removed_things_are_gone(s, e);
}

proof fn lemma_despawned(s: SimView, list: Seq<Entity>, k: int, i: int)
    requires
        0 <= k <= list.len(),
        all_distinct(s),
    ensures
        all_distinct(despawned(s, list, k)),
        0 <= i < k ==> is_absent(despawned(s, list, k), list[i]),
    decreases k,
{
    if k > 0 {
        lemma_despawned(s, list, k - 1, i);
        lemma_without(despawned(s, list, k - 1), list[k - 1], list[i]);
    }
}

/// Stamping a block anew first takes away all that the earlier stamp put up; a
/// block without a record takes away nothing.
pub proof fn law_restamping_clears_the_block(z: Zoned, id: Seq<char>, j: int, i: int)
    requires
        all_distinct(z.sim),
        0 <= j < z.stamped.len(),
        z.stamped[j].id == id,
        forall|m: int| 0 <= m < j ==> (#[trigger] z.stamped[m]).id != id,
        0 <= i < z.stamped[j].generated.len(),
    ensures
        is_absent(z.unstamped(id), z.stamped[j].generated[i]),
{
    lemma_find_stamp(z.stamped, id, 0, j);
    lemma_despawned(
        z.sim,
        z.stamped[j].generated,
        z.stamped[j].generated.len() as int,
        i,
    );
}

proof fn lemma_find_stamp(stamped: Seq<StampView>, id: Seq<char>, i: int, j: int)
    requires
        0 <= i <= j < stamped.len(),
        stamped[j].id == id,
        forall|m: int| 0 <= m < j ==> (#[trigger] stamped[m]).id != id,
    ensures
        find_stamp(stamped, id, i) == Some(j),
    decreases j - i,
{
    if i < j {
        lemma_find_stamp(stamped, id, i + 1, j);
    }
}

/// What a stamp owns is found again: among more spots, one more is found
/// exactly when it lies in the click radius of the door.
pub proof fn law_stamps_find_what_is_near(spots: Seq<Spot>, x: Spot, p: Position)
    ensures
        all_near(spots.push(x), p) == (if in_click_radius(dist2(x.x, x.z, p)) {
            all_near(spots, p).push(x.id)
        } else {
            all_near(spots, p)
        }),
        all_near(Seq::<Spot>::empty(), p) == Seq::<Entity>::empty(),
{
    lemma_near_prefix(spots, x, p, spots.len() as int);
}

proof fn lemma_near_prefix(spots: Seq<Spot>, x: Spot, p: Position, k: int)
    requires
        0 <= k <= spots.len(),
    ensures
        spots_near(spots.push(x), p, k) == spots_near(spots, p, k),
    decreases k,
{
    if k > 0 {
        lemma_near_prefix(spots, x, p, k - 1);
        assert(spots.push(x)[k - 1] == spots[k - 1]);
    }
}

/// Every building with a label is found by it, and no other.
pub proof fn law_labels_find_every_building(s: SimView, id: Seq<char>, k: int, e: Entity)
    requires
        0 <= k <= s.buildings.len(),
    ensures
        labelled(s, id, k).contains(e) == exists|i: int|
            0 <= i < k && (#[trigger] s.buildings[i]).id == e && s.buildings[i].building.label
                == id,
    decreases k,
{
    if k > 0 {
        law_labels_find_every_building(s, id, k - 1, e);
        let a = labelled(s, id, k - 1);
        let b = labelled(s, id, k);
        let row = s.buildings[k - 1];
        if row.building.label == id {
            assert(b == a.push(row.id));
            if a.contains(e) {
                let i = choose|i: int| 0 <= i < a.len() && a[i] == e;
                assert(b[i] == e);
            }
            assert(b[b.len() - 1] == row.id);
        }
    }
}

/// Some goal of a city serves a need.
pub open spec fn is_served(s: SimView, need: NeedKind) -> bool {
    exists|i: int|
        0 <= i < s.goals.len() && (#[trigger] s.goals[i]).goal.ads.len() > 0
            && s.goals[i].goal.ads[0].0 == need
}

proof fn lemma_people(s: SimView, people: Seq<Personality>, k: int, i: int)
    requires
        0 <= k <= people.len(),
    ensures
        ({
            let t = with_people(s, people, k);
            &&& t.agents.len() == s.agents.len() + k
            &&& 0 <= i < k ==> t.agents[s.agents.len() + i].personality == people[i]
                && t.agents[s.agents.len() + i].pos == first_spot(i)
            &&& 0 <= i < s.agents.len() ==> t.agents[i] == s.agents[i]
            &&& t.goals == s.goals && t.workplaces == s.workplaces && t.dwellings == s.dwellings
                && t.buildings == s.buildings && t.ground == s.ground
        }),
    decreases k,
{
    if k > 0 {
        lemma_people(s, people, k - 1, i);
    }
}

/// A city starts with six people, each with the personality drawn for it and
/// no two in the same place, with something for every need, with two
/// workplaces, and with the blocks of the skyline as obstacles.
pub proof fn law_cities_start_complete(s: SimView, people: Seq<Personality>, i: int, j: int)
    requires
        people.len() == 6,
        s.goals.len() == 0,
    ensures
        ({
            let t = seeded(s, people);
            let n = s.agents.len();
            &&& t.agents.len() == n + 6 && t.goals.len() == 7
            &&& t.workplaces.len() == s.workplaces.len() + 2
            &&& 0 <= i < 6 ==> t.agents[n + i].personality == people[i]
            &&& 0 <= i < j < 6 ==> t.agents[n + i].pos != t.agents[n + j].pos
            &&& is_served(t, NeedKind::Hunger) && is_served(t, NeedKind::Energy)
            &&& is_served(t, NeedKind::Sociability) && is_served(t, NeedKind::Comfort)
            &&& is_served(t, NeedKind::Hygiene) && is_served(t, NeedKind::Bladder)
            &&& is_served(t, NeedKind::Fun)
            &&& t.ground.rects.len() == 7
            &&& 0 <= i < 7 ==> t.ground.rects[i].min_x == skyline()[i].min_x()
                && t.ground.rects[i].min_z == skyline()[i].min_z() && t.ground.rects[i].max_x
                == skyline()[i].max_x() && t.ground.rects[i].max_z == skyline()[i].max_z()
            &&& t.dwellings == s.dwellings && t.buildings == s.buildings
        }),
{
    lemma_people(s, people, 6, i);
    lemma_people(s, people, 6, j);
    let t = seeded(s, people);
    assert(skyline().len() == 7);
    assert(t.goals[0].goal.ads[0].0 == NeedKind::Hunger);
    assert(t.goals[1].goal.ads[0].0 == NeedKind::Energy);
    assert(t.goals[2].goal.ads[0].0 == NeedKind::Sociability);
    assert(t.goals[3].goal.ads[0].0 == NeedKind::Bladder);
    assert(t.goals[4].goal.ads[0].0 == NeedKind::Hygiene);
    assert(t.goals[5].goal.ads[0].0 == NeedKind::Comfort);
    assert(t.goals[6].goal.ads[0].0 == NeedKind::Fun);
}

/// A city is only populated once.
pub proof fn law_cities_start_once(s: UiView, people: Seq<Personality>, others: Seq<Personality>)
    ensures
        s.started(people).sim_seeded,
        s.started(people).started(others) == s.started(people),
        s.sim_seeded ==> s.started(people) == s,
{
}

/// While time stands still nothing happens in the city; while it runs, the
/// seconds add up.
pub proof fn law_time_stands_or_runs(s: UiView, elapsed: Scalar, people: Seq<Personality>)
    requires
        s.sim_seeded,
    ensures
        ({
            let t = s.ticked(elapsed, people);
            if scalar(0).lt_spec(speed_of(s.sim_speed_log)) {
                &&& t.sim_secs == s.sim_secs.add_spec(s.frame_time(elapsed))
                &&& t.sim_hour == clock(t.sim_secs).0 && t.sim_min == clock(t.sim_secs).1
                &&& t.sim == s.sim.stepped(s.frame_time(elapsed)).at_hour(t.sim_hour as u8)
            } else {
                t == s
            }
        }),
{
}

/// A saved game holds the city, every road, every wall from end to end and
/// every building's label and function.
pub proof fn law_files_hold_the_game(s: UiView, i: int)
    ensures
        ({
            let f = s.saved();
            &&& f.snapshot == s.sim.kept() && f.roads == s.built_roads
            &&& f.walls.len() == s.built_walls.len() && f.stamped.len() == s.sim.buildings.len()
            &&& 0 <= i < s.built_walls.len() ==> f.walls[i].ax == s.built_walls[i].a.x
                && f.walls[i].az == s.built_walls[i].a.z && f.walls[i].bx == s.built_walls[i].b.x
                && f.walls[i].bz == s.built_walls[i].b.z
            &&& 0 <= i < s.sim.buildings.len() ==> f.stamped[i].0
                == s.sim.buildings[i].building.label && f.stamped[i].1
                == s.sim.buildings[i].building.function
        }),
{
}

proof fn lemma_find_block(i: int, k: int)
    requires
        0 <= k <= i < 7,
    ensures
        find_block(skyline()[i].id, k) == Some(i),
    decreases i - k,
{
    assert(skyline().len() == 7);
    if k < i {
        lemma_skyline_names(k, i);
        lemma_find_block(i, k + 1);
    }
}

proof fn lemma_near(spots: Seq<Spot>, p: Position, k: int, j: int)
    requires
        0 <= j < k <= spots.len(),
        in_click_radius(dist2(spots[j].x, spots[j].z, p)),
    ensures
        spots_near(spots, p, k).contains(spots[j].id),
    decreases k,
{
    let b = spots_near(spots, p, k);
    if j < k - 1 {
        lemma_near(spots, p, k - 1, j);
        let a = spots_near(spots, p, k - 1);
        let m = choose|m: int| 0 <= m < a.len() && a[m] == spots[j].id;
        assert(b[m] == a[m]);
    } else {
        assert(b[b.len() - 1] == spots[j].id);
    }
}

/// What a stamp of a block owns is found again in a loaded city: every building
/// with its label, and every goal, workplace and home in the click radius of
/// the block's door.
pub proof fn law_stamps_are_found_again(s: SimView, i: int, j: int)
    requires
        0 <= i < 7,
    ensures
        ({
            let b = skyline()[i];
            let at = door(b.min_x(), b.min_z(), b.max_z());
            let r = resolved(s, b.id);
            &&& 0 <= j < s.buildings.len() && s.buildings[j].building.label == b.id
                ==> r.contains(s.buildings[j].id)
            &&& 0 <= j < s.goals.len() && in_click_radius(
                dist2(s.goals[j].goal.x, s.goals[j].goal.z, at),
            ) ==> r.contains(s.goals[j].id)
            &&& 0 <= j < s.workplaces.len() && in_click_radius(
                dist2(s.workplaces[j].workplace.x, s.workplaces[j].workplace.z, at),
            ) ==> r.contains(s.workplaces[j].id)
            &&& 0 <= j < s.dwellings.len() && in_click_radius(
                dist2(s.dwellings[j].dwelling.x, s.dwellings[j].dwelling.z, at),
            ) ==> r.contains(s.dwellings[j].id)
        }),
{
    let b = skyline()[i];
    let at = door(b.min_x(), b.min_z(), b.max_z());
    let r = resolved(s, b.id);
    lemma_find_block(i, 0);
    let named = labelled(s, b.id, s.buildings.len() as int);
    let x = goal_spots(s);
    let y = workplace_spots(s);
    let z = dwelling_spots(s);
    let (p, q, t) = (all_near(x, at), all_near(y, at), all_near(z, at));
    assert(r == named + p + q + t);
    if 0 <= j < s.buildings.len() && s.buildings[j].building.label == b.id {
        let e = s.buildings[j].id;
        law_labels_find_every_building(s, b.id, s.buildings.len() as int, e);
        assert(named.contains(e));
        let m = choose|m: int| 0 <= m < named.len() && named[m] == e;
        assert(r[m] == e);
    }
    if 0 <= j < s.goals.len() && in_click_radius(
        dist2(s.goals[j].goal.x, s.goals[j].goal.z, at),
    ) {
        lemma_near(x, at, x.len() as int, j);
        let m = choose|m: int| 0 <= m < p.len() && p[m] == x[j].id;
        assert(r[named.len() + m] == x[j].id);
    }
    if 0 <= j < s.workplaces.len() && in_click_radius(
        dist2(s.workplaces[j].workplace.x, s.workplaces[j].workplace.z, at),
    ) {
        lemma_near(y, at, y.len() as int, j);
        let m = choose|m: int| 0 <= m < q.len() && q[m] == y[j].id;
        assert(r[named.len() + p.len() + m] == y[j].id);
    }
    if 0 <= j < s.dwellings.len() && in_click_radius(
        dist2(s.dwellings[j].dwelling.x, s.dwellings[j].dwelling.z, at),
    ) {
        lemma_near(z, at, z.len() as int, j);
        let m = choose|m: int| 0 <= m < t.len() && t[m] == z[j].id;
        assert(r[named.len() + p.len() + q.len() + m] == z[j].id);
    }
}

/// Loading a game brings its roads, walls and city, and finds the stamps again;
/// nothing stays selected, planned or inspected.
pub proof fn law_loading_starts_afresh(s: UiView, file: SaveView, crossed: Seq<bool>, i: int)
    ensures
        ({
            let t = s.after_load(file, LoadStatus::Loaded, crossed);
            &&& t.built_roads == file.roads && t.built_walls.len() == file.walls.len()
            &&& 0 <= i < file.walls.len() ==> t.built_walls[i].a.x == file.walls[i].ax
                && t.built_walls[i].a.z == file.walls[i].az && t.built_walls[i].b.x
                == file.walls[i].bx && t.built_walls[i].b.z == file.walls[i].bz
            &&& t.stamped.len() == file.stamped.len()
            &&& 0 <= i < file.stamped.len() ==> t.stamped[i].id == file.stamped[i].0
                && t.stamped[i].generated == resolved(t.sim, file.stamped[i].0)
            &&& t.project_points.len() == 0 && t.current_project is None && t.planning_mode is None
            &&& t.selected_agent is None && t.inspected_building is None && !t.building_pinned
        }),
{
    reveal(UiView::loaded);
}

/// Keys act when they go down, once, and never with alt. With the command key,
/// enter implements, `z` undoes or with shift redoes, and `y` redoes; the point
/// opens the debug window without it. No other key does anything.
pub proof fn law_keys_do_one_thing(e: KeyEvent)
    ensures
        ({
            let what = e.shortcut();
            let acts = e.down && !e.is_repeat && !e.alt;
            &&& what == Shortcut::Unbound || acts
            &&& what == Shortcut::Implement <==> acts && e.command && !e.shift && e.key == Key::Enter
            &&& what == Shortcut::Undo <==> acts && e.command && !e.shift && e.key
                == Key::Character('z')
            &&& what == Shortcut::Redo <==> acts && e.command && ((e.shift && e.key
                == Key::Character('z')) || (!e.shift && e.key == Key::Character('y')))
            &&& what == Shortcut::ToggleDebug <==> acts && !e.command && !e.shift && e.key
                == Key::Character('.')
        }),
{
}

} // verus!
