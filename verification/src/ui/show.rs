//! What the player sees is what the city holds.

use super::canvas::{
    furniture_boxes, goal_markers, prop_shape, road_ribbons, state_color, unit_color,
};
use super::game::speed_of;
use super::labels::Bytes3;
use super::panel::{beds_taken, beds_there, chip, find_label, insiders};
use super::state::{PlanningMode, UiMode, UiView};
use crate::scalar::{scalar, unit, Scalar};
use crate::scalar::arith::abs_int;
use crate::scalar::bounds::{PRECISION, TINY};
use crate::scalar::consts::{HALF, ONE, TWO, ZERO};
use crate::scalar::convert::lemma_unit;
use crate::scalar::exact::lemma_power;
use crate::scalar::monotone::lemma_sum_monotone;
use crate::scalar::order::{lemma_one, lemma_two};
use crate::scene::{picked, skyline, BlockView};
use crate::scene::draw::ViewportView;
use crate::scene::shapes::GroundMarker;
use crate::sim::Entity;
use crate::sim::agent::{AgentView, NeedKind, Position};
use crate::sim::goal::dominant_ad;
use crate::sim::systems::walk::dist2;
use crate::sim::world::{BuildingRowView, DwellingRow, GoalRowView};
use crate::text::digits;
use crate::viewport::{
    camera_move, dragged, is_click, zoom_spec, CameraMove, DragState, PointerButton,
};
use vstd::arithmetic::power2::lemma2_to64;
use vstd::prelude::*;

verus! {

/// A marker stands at a place.
pub open spec fn marks(m: GroundMarker, x: Scalar, z: Scalar) -> bool {
    m.x == x && m.z == z
}

/// Some marker stands at a place.
pub open spec fn has_marker(v: ViewportView, x: Scalar, z: Scalar) -> bool {
    exists|k: int| 0 <= k < v.markers.len() && marks(#[trigger] v.markers[k], x, z)
}

/// The canvas shows every agent where it stands, in its place of the list, and
/// agents that do different things in different colours.
pub proof fn law_canvas_shows_every_agent(s: UiView, i: int, j: int)
    requires
        0 <= i < s.sim.agents.len(),
        0 <= j < s.sim.agents.len(),
    ensures
        ({
            let v = s.shown();
            &&& v.agents.len() == s.sim.agents.len()
            &&& v.agents[i].x == s.sim.agents[i].pos.x && v.agents[i].z == s.sim.agents[i].pos.z
            &&& (v.agents[i].color == v.agents[j].color) == (s.sim.agents[i].state
                == s.sim.agents[j].state)
        }),
{
    let a = s.sim.agents[i];
    let b = s.sim.agents[j];
    assert(state_color(a.state).r == state_color(b.state).r && state_color(a.state).g
        == state_color(b.state).g && state_color(a.state).b == state_color(b.state).b
        ==> a.state == b.state);
}

/// How many of the first `k` goals are no furniture.
pub open spec fn plain_goals(goals: Seq<GoalRowView>, k: int) -> nat
    decreases k,
{
    if k <= 0 {
        0
    } else {
        plain_goals(goals, k - 1) + if goals[k - 1].furniture is None {
            1nat
        } else {
            0
        }
    }
}

proof fn lemma_goal_markers(goals: Seq<GoalRowView>, k: int, i: int)
    requires
        0 <= k <= goals.len(),
    ensures
        goal_markers(goals, k).len() == plain_goals(goals, k),
        furniture_boxes(goals, k).len() + plain_goals(goals, k) == k,
        0 <= i < k && goals[i].furniture is None ==> exists|m: int|
            0 <= m < goal_markers(goals, k).len() && marks(
                #[trigger] goal_markers(goals, k)[m],
                goals[i].goal.x,
                goals[i].goal.z,
            ),
        0 <= i < k && goals[i].furniture is Some ==> exists|m: int|
            0 <= m < furniture_boxes(goals, k).len() && {
                let b = #[trigger] furniture_boxes(goals, k)[m];
                let shape = prop_shape((goals[i].furniture->0).0);
                b.cx == goals[i].goal.x && b.cz == goals[i].goal.z && b.w == shape.w && b.h
                    == shape.h && b.d == shape.d && b.color == shape.color
            },
    decreases k,
{
    if k > 0 {
        lemma_goal_markers(goals, k - 1, i);
        let a = goal_markers(goals, k - 1);
        let b = goal_markers(goals, k);
        let c = furniture_boxes(goals, k - 1);
        let d = furniture_boxes(goals, k);
        if 0 <= i < k - 1 {
            if goals[i].furniture is None {
                let m = choose|m: int|
                    0 <= m < a.len() && marks(#[trigger] a[m], goals[i].goal.x, goals[i].goal.z);
                assert(b[m] == a[m]);
            } else {
                let shape = prop_shape((goals[i].furniture->0).0);
                let m = choose|m: int|
                    0 <= m < c.len() && {
                        let x = #[trigger] c[m];
                        x.cx == goals[i].goal.x && x.cz == goals[i].goal.z && x.w == shape.w && x.h
                            == shape.h && x.d == shape.d && x.color == shape.color
                    };
                assert(d[m] == c[m]);
            }
        } else if i == k - 1 {
            if goals[i].furniture is None {
                assert(marks(b[b.len() - 1], goals[i].goal.x, goals[i].goal.z));
            } else {
                assert(d[d.len() - 1].cx == goals[i].goal.x);
            }
        }
    }
}

/// The canvas marks every draft point, every goal that is no furniture, every
/// workplace, every home and the selected agent, and nothing else; furniture
/// stands as a box where it is placed.
pub proof fn law_canvas_marks_every_place(s: UiView, i: int)
    ensures
        ({
            let v = s.shown();
            let n = s.sim.goals.len() as int;
            &&& 0 <= i < s.project_points.len() ==> has_marker(
                v,
                s.project_points[i].x,
                s.project_points[i].z,
            )
            &&& 0 <= i < n && s.sim.goals[i].furniture is None ==> has_marker(
                v,
                s.sim.goals[i].goal.x,
                s.sim.goals[i].goal.z,
            )
            &&& 0 <= i < n && s.sim.goals[i].furniture is Some ==> exists|m: int|
                0 <= m < v.props.len() && (#[trigger] v.props[m]).cx == s.sim.goals[i].goal.x
                    && v.props[m].cz == s.sim.goals[i].goal.z
            &&& 0 <= i < s.sim.workplaces.len() ==> has_marker(
                v,
                s.sim.workplaces[i].workplace.x,
                s.sim.workplaces[i].workplace.z,
            )
            &&& 0 <= i < s.sim.dwellings.len() ==> has_marker(
                v,
                s.sim.dwellings[i].dwelling.x,
                s.sim.dwellings[i].dwelling.z,
            )
            &&& s.selected_agent matches Some(e) ==> (s.sim.has_agent(e) ==> has_marker(
                v,
                s.sim.agent(e).pos.x,
                s.sim.agent(e).pos.z,
            ))
            &&& v.props.len() == n - plain_goals(s.sim.goals, n)
            &&& v.markers.len() == s.project_points.len() + plain_goals(s.sim.goals, n)
                + s.sim.workplaces.len() + s.sim.dwellings.len() + (if s.selected_agent matches Some(
                e,
            ) && s.sim.has_agent(e) {
                1int
            } else {
                0
            })
        }),
{
    let v = s.shown();
    let n = s.sim.goals.len() as int;
    lemma_goal_markers(s.sim.goals, n, i);
    let a = s.project_points.len() as int;
    let g = goal_markers(s.sim.goals, n);
    let b = a + g.len();
    let c = b + s.sim.workplaces.len();
    let d = c + s.sim.dwellings.len();
    if 0 <= i < a {
        assert(marks(v.markers[i], s.project_points[i].x, s.project_points[i].z));
    }
    if 0 <= i < n && s.sim.goals[i].furniture is None {
        let m = choose|m: int|
            0 <= m < g.len() && marks(
                #[trigger] g[m],
                s.sim.goals[i].goal.x,
                s.sim.goals[i].goal.z,
            );
        assert(v.markers[a + m] == g[m]);
    }
    if 0 <= i < s.sim.workplaces.len() {
        assert(marks(
            v.markers[b + i],
            s.sim.workplaces[i].workplace.x,
            s.sim.workplaces[i].workplace.z,
        ));
    }
    if 0 <= i < s.sim.dwellings.len() {
        assert(marks(
            v.markers[c + i],
            s.sim.dwellings[i].dwelling.x,
            s.sim.dwellings[i].dwelling.z,
        ));
    }
    if let Some(e) = s.selected_agent {
        if s.sim.has_agent(e) {
            assert(marks(v.markers[d], s.sim.agent(e).pos.x, s.sim.agent(e).pos.z));
        }
    }
}

proof fn lemma_road_ribbons(roads: Seq<Seq<Position>>, k: int, i: int)
    requires
        0 <= i < k <= roads.len(),
        roads[i].len() >= 2,
    ensures
        exists|m: int|
            0 <= m < road_ribbons(roads, k).len() && (#[trigger] road_ribbons(roads, k)[m]).points
                == roads[i],
    decreases k,
{
    let b = road_ribbons(roads, k);
    if i < k - 1 {
        lemma_road_ribbons(roads, k - 1, i);
        let a = road_ribbons(roads, k - 1);
        let m = choose|m: int| 0 <= m < a.len() && (#[trigger] a[m]).points == roads[i];
        assert(b[m] == a[m]);
    } else {
        assert(b[b.len() - 1].points == roads[i]);
    }
}

/// The canvas shows every road that leads somewhere, point by point, and every
/// wall from end to end.
pub proof fn law_canvas_shows_roads_and_walls(s: UiView, i: int)
    ensures
        ({
            let v = s.shown();
            &&& 0 <= i < s.built_roads.len() && s.built_roads[i].len() >= 2 ==> exists|m: int|
                0 <= m < v.paths.len() && (#[trigger] v.paths[m]).points == s.built_roads[i]
            &&& v.walls.len() == s.built_walls.len()
            &&& 0 <= i < s.built_walls.len() ==> v.walls[i].ax == s.built_walls[i].a.x
                && v.walls[i].az == s.built_walls[i].a.z && v.walls[i].bx == s.built_walls[i].b.x
                && v.walls[i].bz == s.built_walls[i].b.z
            &&& v.inspection == (s.ui_mode == UiMode::Inspection)
        }),
{
    let v = s.shown();
    let n = s.built_roads.len() as int;
    if 0 <= i < n && s.built_roads[i].len() >= 2 {
        lemma_road_ribbons(s.built_roads, n, i);
        let a = road_ribbons(s.built_roads, n);
        let m = choose|m: int| 0 <= m < a.len() && (#[trigger] a[m]).points == s.built_roads[i];
        assert(v.paths[m] == a[m]);
    }
}

/// The canvas shows the draft of a road or of walls as a ribbon through all of
/// its points, behind the built roads, and the draft of a zone as a filled
/// outline through all of its points; no other draft.
pub proof fn law_canvas_shows_the_draft(s: UiView)
    ensures
        ({
            let v = s.shown();
            let built = road_ribbons(s.built_roads, s.built_roads.len() as int).len();
            let n = s.project_points.len();
            let chain = n >= 2 && (s.planning_mode == Some(PlanningMode::Roads) || s.planning_mode
                == Some(PlanningMode::Walls));
            let zone = n >= 3 && s.planning_mode == Some(PlanningMode::Zoning)
                && s.selected_land_use is Some;
            &&& chain ==> v.paths.len() == built + 1 && v.paths.last().points == s.project_points
            &&& !chain ==> v.paths.len() == built
            &&& zone ==> v.polys.len() == 1 && v.polys[0].points == s.project_points
            &&& !zone ==> v.polys.len() == 0
        }),
{
}

/// A goal is known for the need for which it offers most; of several equal
/// offers the first counts.
pub proof fn law_goals_are_known_for_their_best_ad(ads: Seq<(NeedKind, Scalar)>, i: int)
    requires
        0 <= i < ads.len(),
        forall|k: int| 0 <= k < ads.len() ==> (#[trigger] ads[k]).1.is_finite_spec(),
    ensures
        exists|k: int|
            0 <= k < ads.len() && #[trigger] ads[k] == dominant_ad(ads) && ads[i].1.num()
                <= ads[k].1.num() && (i < k ==> ads[i].1.num() < ads[k].1.num()),
    decreases ads.len(),
{
    let n = ads.len() - 1;
    let rest = ads.drop_last();
    assert(ads[n].1.is_finite_spec());
    crate::scalar::round::lemma_magnitude_increases(
        ads[n].1.pattern(),
        crate::scalar::INF_PATTERN as nat,
    );
    if rest.len() == 0 {
        let neg = scalar(crate::scalar::consts::NEG_INFINITY);
        assert(dominant_ad(rest) == (NeedKind::Hunger, neg));
        assert(neg.num() == -(crate::scalar::magnitude(crate::scalar::INF_PATTERN as nat) as int));
        assert(dominant_ad(ads) == ads[n]);
    } else {
        assert forall|k: int| 0 <= k < rest.len() implies (
        #[trigger] rest[k]).1.is_finite_spec() by {
            assert(ads[k].1.is_finite_spec());
        }
        let j = if i < n {
            i
        } else {
            0
        };
        law_goals_are_known_for_their_best_ad(rest, j);
        let k = choose|k: int|
            0 <= k < rest.len() && #[trigger] rest[k] == dominant_ad(rest) && rest[j].1.num()
                <= rest[k].1.num() && (j < k ==> rest[j].1.num() < rest[k].1.num());
        assert(ads[k] == rest[k]);
        assert(ads[j] == rest[j]);
        if dominant_ad(ads) == ads[n] && dominant_ad(rest).1.lt_spec(ads[n].1) {
            assert(0 <= n < ads.len() && ads[n] == dominant_ad(ads));
        } else {
            assert(ads[k] == dominant_ad(ads));
        }
    }
}

/// Block `i` lies under a point, edges included.
pub open spec fn lies_under(i: int, p: Position) -> bool {
    let b = skyline()[i];
    &&& b.cx.sub_spec(b.w.div_spec(scalar(TWO))).le_spec(p.x)
    &&& p.x.le_spec(b.cx.add_spec(b.w.div_spec(scalar(TWO))))
    &&& b.cz.sub_spec(b.d.div_spec(scalar(TWO))).le_spec(p.z)
    &&& p.z.le_spec(b.cz.add_spec(b.d.div_spec(scalar(TWO))))
}

/// Squared distance from the center of block `i`.
pub open spec fn from_center(i: int, p: Position) -> Scalar {
    dist2(p.x, p.z, Position { x: skyline()[i].cx, z: skyline()[i].cz })
}

/// A point picks the block that lies under it: none exactly when none does, and
/// of several the one whose center is nearest.
pub proof fn law_points_pick_the_block_under_them(p: Position, k: int)
    requires
        0 <= k <= 7,
    ensures
        match picked(p, k) {
            None => forall|i: int| 0 <= i < k ==> !#[trigger] lies_under(i, p),
            Some(x) => {
                &&& 0 <= x.1 < k && lies_under(x.1, p) && x.0 == from_center(x.1, p)
                &&& forall|i: int|
                    0 <= i < k && #[trigger] lies_under(i, p) ==> !from_center(i, p).lt_spec(
                        from_center(x.1, p),
                    )
            },
        },
    decreases k,
{
    assert(skyline().len() == 7);
    if k > 0 {
        law_points_pick_the_block_under_them(p, k - 1);
        let b = skyline()[k - 1];
        assert(b.covers(p) == lies_under(k - 1, p));
        assert(crate::scene::center_dist2(b, p) == from_center(k - 1, p));
    }
}

/// The agents listed in a block are those in it, in their order: one more agent
/// is added at the end of the list exactly when it stands within half the
/// width and half the depth of the block from its center.
pub proof fn law_blocks_list_who_is_inside(agents: Seq<AgentView>, a: AgentView, b: BlockView)
    ensures
        insiders(agents.push(a), b, agents.len() as int + 1) == (if a.pos.x.sub_spec(
            b.cx,
        ).abs_spec().le_spec(b.w.div_spec(scalar(TWO))) && a.pos.z.sub_spec(
            b.cz,
        ).abs_spec().le_spec(b.d.div_spec(scalar(TWO))) {
            insiders(agents, b, agents.len() as int).push(a)
        } else {
            insiders(agents, b, agents.len() as int)
        }),
        insiders(Seq::<AgentView>::empty(), b, 0) == Seq::<AgentView>::empty(),
{
    lemma_insiders_prefix(agents, a, b, agents.len() as int);
}

proof fn lemma_insiders_prefix(agents: Seq<AgentView>, a: AgentView, b: BlockView, k: int)
    requires
        0 <= k <= agents.len(),
    ensures
        insiders(agents.push(a), b, k) == insiders(agents, b, k),
    decreases k,
{
    if k > 0 {
        lemma_insiders_prefix(agents, a, b, k - 1);
        assert(agents.push(a)[k - 1] == agents[k - 1]);
    }
}

/// The beds of the city are those of all homes: one more home adds its own.
pub proof fn law_beds_add_up(rows: Seq<DwellingRow>, d: DwellingRow)
    ensures
        beds_there(rows.push(d), rows.len() as int + 1) == beds_there(rows, rows.len() as int)
            + d.dwelling.capacity,
        beds_taken(rows.push(d), rows.len() as int + 1) == beds_taken(rows, rows.len() as int)
            + d.dwelling.taken,
        beds_there(Seq::<DwellingRow>::empty(), 0) == 0,
        beds_taken(Seq::<DwellingRow>::empty(), 0) == 0,
{
    lemma_beds_prefix(rows, d, rows.len() as int);
}

proof fn lemma_beds_prefix(rows: Seq<DwellingRow>, d: DwellingRow, k: int)
    requires
        0 <= k <= rows.len(),
    ensures
        beds_there(rows.push(d), k) == beds_there(rows, k),
        beds_taken(rows.push(d), k) == beds_taken(rows, k),
    decreases k,
{
    if k > 0 {
        lemma_beds_prefix(rows, d, k - 1);
        assert(rows.push(d)[k - 1] == rows[k - 1]);
    }
}

/// A label finds the first building that has it, and none where none has.
pub proof fn law_labels_find_their_building(
    buildings: Seq<BuildingRowView>,
    id: Seq<char>,
    i: int,
)
    requires
        0 <= i <= buildings.len(),
    ensures
        match find_label(buildings, id, i) {
            Some(j) => i <= j < buildings.len() && buildings[j].building.label == id && forall|
                k: int,
            |
                i <= k < j ==> (#[trigger] buildings[k]).building.label != id,
            None => forall|k: int|
                i <= k < buildings.len() ==> (#[trigger] buildings[k]).building.label != id,
        },
    decreases buildings.len() - i,
{
    if i < buildings.len() && buildings[i].building.label != id {
        law_labels_find_their_building(buildings, id, i + 1);
    }
}

/// Each mark of the speed slider doubles the speed of the one before; the first
/// is paused and the second runs in real time.
pub proof fn law_marks_double_the_speed(log: Scalar, next: Scalar, k: int)
    requires
        log.is_finite_spec(),
        next.is_finite_spec(),
        log.num() == k * unit(),
        next.num() == (k + 1) * unit(),
        0 <= k <= 5,
    ensures
        k == 0 ==> speed_of(log).num() == 0 && speed_of(next).num() == unit(),
        k > 0 ==> speed_of(next).num() == 2 * speed_of(log).num(),
{
    lemma_unit();
    lemma_one();
    lemma_two();
    lemma2_to64();
    lemma_power(0x4080_0000, 2);
    lemma_power(0x4100_0000, 3);
    lemma_power(0x4180_0000, 4);
    lemma_power(0x4200_0000, 5);
    let u = unit() as int;
    assert(0 * u == 0 && 1 * u == u && 2 * u == u + u);
    assert(k * u >= 0 && (k + 1) * u > 0 && (k > 0 ==> k * u > 0)) by (nonlinear_arith)
        requires
            k >= 0,
            u > 0,
    ;
    crate::scalar::exact::lemma_whole_to_int(log, k, 0, u32::MAX as int);
    crate::scalar::exact::lemma_whole_to_int(next, k + 1, 0, u32::MAX as int);
}

/// A drag hands the camera exactly the way that the pointer went, from where it
/// was last seen: to the side as to the side, and up or down as up or down. It
/// orbits, unless the drag pans. What it has travelled grows by both ways.
pub proof fn law_drags_follow_the_pointer(d: DragState, x: Scalar, y: Scalar)
    ensures
        ({
            let e = dragged(d, x, y);
            &&& e.last_x == x && e.last_y == y && e.pan == d.pan && e.button == d.button
            &&& e.travel == d.travel.add_spec(
                x.sub_spec(d.last_x).abs_spec().add_spec(y.sub_spec(d.last_y).abs_spec()),
            )
            &&& match camera_move(d, x, y) {
                CameraMove::Pan { dx, dy } => d.pan && dx == x.sub_spec(d.last_x) && dy
                    == y.sub_spec(d.last_y),
                CameraMove::Orbit { dx, dy } => !d.pan && dx == x.sub_spec(d.last_x) && dy
                    == y.sub_spec(d.last_y),
                CameraMove::Stay => true,
            }
            &&& x.is_finite_spec() && y.is_finite_spec() && d.last_x.is_finite_spec()
                && d.last_y.is_finite_spec() ==> (camera_move(d, x, y) == CameraMove::Stay) == (
            x.num() == d.last_x.num() && y.num() == d.last_y.num())
        }),
{
    if x.is_finite_spec() && y.is_finite_spec() && d.last_x.is_finite_spec()
        && d.last_y.is_finite_spec() {
        lemma_travel(x, d.last_x, y, d.last_y);
    }
}

proof fn lemma_travel(x: Scalar, a: Scalar, y: Scalar, b: Scalar)
    requires
        x.is_finite_spec(),
        a.is_finite_spec(),
        y.is_finite_spec(),
        b.is_finite_spec(),
    ensures
        scalar(ZERO).lt_spec(
            x.sub_spec(a).abs_spec().add_spec(y.sub_spec(b).abs_spec()),
        ) == !(x.num() == a.num() && y.num() == b.num()),
{
    use_differences(x, a);
    use_differences(y, b);
    lemma_one();
    let p = x.sub_spec(a).abs_spec();
    let q = y.sub_spec(b).abs_spec();
    crate::scalar::round::lemma_magnitude_increases(0, crate::scalar::INF_PATTERN as nat);
    assert(crate::scalar::magnitude(0) == 0);
    if p.is_finite_spec() && q.is_finite_spec() {
        crate::scalar::bounds::lemma_sum(p, q);
        let n = abs_int(p.num() + q.num());
        if n == 0 {
            crate::scalar::convert::lemma_representable(0);
        } else {
            crate::scalar::order::lemma_nearest_monotone(1, 1, n, 1);
            assert(crate::scalar::magnitude(1) == 1);
            crate::scalar::convert::lemma_representable(1);
            crate::scalar::round::lemma_magnitude_increases(0, p.add_spec(q).pattern());
        }
    } else {
        reveal(Scalar::add_spec);
    }
}

proof fn use_differences(x: Scalar, a: Scalar)
    requires
        x.is_finite_spec(),
        a.is_finite_spec(),
    ensures
        ({
            let p = x.sub_spec(a).abs_spec();
            &&& !p.is_nan_spec() && !p.negative() && p.num() >= 0
            &&& (p.num() == 0) == (x.num() == a.num())
        }),
{
    crate::scalar::bounds::lemma_difference(x, a);
    let n = abs_int(x.num() - a.num());
    let d = x.sub_spec(a);
    assert(d.abs_spec().pattern() == d.pattern());
    assert(crate::scalar::magnitude(0) == 0 && crate::scalar::magnitude(1) == 1);
    if n == 0 {
        crate::scalar::convert::lemma_representable(0);
    } else {
        crate::scalar::order::lemma_nearest_monotone(1, 1, n, 1);
        crate::scalar::convert::lemma_representable(1);
        crate::scalar::round::lemma_magnitude_increases(0, d.pattern());
    }
}

/// The wheel zooms by at most twice and at least half: turned one way it brings
/// the city no farther, turned the other way no nearer; the smallest turns do
/// nothing.
pub proof fn law_the_wheel_zooms(dy: Scalar)
    requires
        dy.within(40),
    ensures
        (zoom_spec(dy) is None) == (2 * abs_int(dy.num()) <= unit()),
        zoom_spec(dy) matches Some(f) ==> {
            &&& !f.is_nan_spec() && unit() <= 2 * f.num() && f.num() <= 2 * unit()
            &&& dy.num() < 0 ==> f.num() >= unit()
            &&& dy.num() > 0 ==> f.num() <= unit()
        },
{
    lemma_unit();
    lemma_one();
    lemma_two();
    lemma2_to64();
    crate::sim::laws::gain::lemma_half_num();
    let rate = scalar(crate::viewport::ZOOM_RATE);
    let n = dy.neg_spec();
    crate::scalar::bounds::lemma_within_neg(dy, 40);
    crate::scalar::bounds::lemma_within_pattern(rate, 0);
    crate::scalar::bounds::lemma_within_product(n, rate, 40, 0);
    crate::scalar::bounds::lemma_product(n, rate);
    let m = n.mul_spec(rate);
    crate::scalar::round::lemma_magnitude_increases(0, crate::viewport::ZOOM_RATE as nat);
    assert(crate::scalar::magnitude(0) == 0);
    assert(rate.num() > 0);
    assert(n.num() > 0 ==> n.num() * rate.num() > 0) by (nonlinear_arith)
        requires
            rate.num() > 0,
    ;
    assert(n.num() < 0 ==> n.num() * rate.num() < 0) by (nonlinear_arith)
        requires
            rate.num() > 0,
    ;
    crate::scalar::bounds::lemma_within_pattern(scalar(ONE), 40);
    crate::scalar::bounds::lemma_within_sum(scalar(ONE), m, 40);
    crate::scalar::bounds::lemma_sum_with_zero(scalar(ONE), scalar(ZERO));
    if m.num() >= 0 {
        lemma_sum_monotone(scalar(ZERO), m, scalar(ONE));
    }
    if m.num() <= 0 {
        lemma_sum_monotone(m, scalar(ZERO), scalar(ONE));
    }
    let t = scalar(ONE).add_spec(m);
    assert(t.is_finite_spec());
    assert(n.num() == -dy.num());
    assert(2 * scalar(HALF).num() == unit() && scalar(TWO).num() == 2 * unit());
}

/// The number that decimal digits denote.
pub open spec fn value_of(s: Seq<char>) -> int
    decreases s.len(),
{
    if s.len() == 0 {
        0
    } else {
        10 * value_of(s.drop_last()) + (s.last() as int - 48)
    }
}

/// Numbers read back from their digits.
pub proof fn law_digits_read_back(n: nat)
    ensures
        value_of(digits(n)) == n,
        digits(n).len() > 0,
        digits(n).len() > 1 ==> digits(n)[0] != '0',
    decreases n,
{
    if n < 10 {
        assert(seq![crate::text::digit(n)].drop_last().len() == 0);
        assert(digits(n).last() as int == 48 + n);
        assert(value_of(digits(n).drop_last()) == 0);
    } else {
        law_digits_read_back(n / 10);
        let d = digits(n / 10);
        assert(digits(n).drop_last() =~= d);
        assert(digits(n).last() as int == 48 + n % 10);
        if d.len() == 1 {
            assert(value_of(d.drop_last()) == 0);
            assert(value_of(d) == d.last() as int - 48);
            assert(d[0] == d.last());
        }
    }
}

/// A press that has come less than five pixels along when it is released is a
/// click, with the primary button and on nothing that took it.
pub proof fn law_short_drags_are_clicks(d: DragState, consumed: bool)
    requires
        d.travel.is_finite_spec(),
    ensures
        is_click(d, consumed) == (d.button == PointerButton::Primary && !consumed && d.travel.num()
            < 5 * unit()),
{
    lemma2_to64();
    crate::scalar::exact::lemma_whole(0x40a0_0000, 5, 129);
}

/// The roster has a chip for every agent, in order; the selected one stands out.
pub proof fn law_chips_stand_for_agents(a: AgentView, i: int, selected: Option<Entity>)
    ensures
        chip(a, i, selected).id == a.id,
        chip(a, i, selected).selected == (selected matches Some(e) && e == a.id),
        i >= 0 ==> value_of(
            chip(a, i, selected).label.subrange(1, digits((i + 1) as nat).len() + 1int),
        ) == i + 1,
{
    if i >= 0 {
        reveal_strlit("A");
        let d = digits((i + 1) as nat);
        law_digits_read_back((i + 1) as nat);
        assert(chip(a, i, selected).label.subrange(1, d.len() + 1int) =~= d);
    }
}

/// Colours in bytes come out as parts of 255, in their order.
pub proof fn law_bytes_are_parts_of_255(c: Bytes3)
    ensures
        is_part_of_255(unit_color(c).r, c.r),
        is_part_of_255(unit_color(c).g, c.g),
        is_part_of_255(unit_color(c).b, c.b),
{
    lemma_part_of_255(c.r);
    lemma_part_of_255(c.g);
    lemma_part_of_255(c.b);
}

/// A number is a byte over 255, up to rounding.
pub open spec fn is_part_of_255(s: Scalar, byte: u8) -> bool {
    s.is_finite_spec() && abs_int(s.num() * 255 - byte * unit()) * PRECISION <= 300 * unit()
}

proof fn lemma_part_of_255(byte: u8)
    ensures
        is_part_of_255(
            Scalar::from_int_spec(byte as int).div_spec(scalar(0x437f_0000)),
            byte,
        ),
{
    lemma2_to64();
    lemma_unit();
    crate::scalar::bounds::lemma_unit_large();
    let u = unit() as int;
    let d = scalar(0x437f_0000);
    crate::scalar::exact::lemma_whole(0x437f_0000, 255, 134);
    let a = Scalar::from_int_spec(byte as int);
    if byte > 0 {
        crate::scalar::exact::lemma_from_int(byte as nat);
    } else {
        crate::scalar::wholes::lemma_from_zero();
        assert(byte * u == 0) by (nonlinear_arith)
            requires
                byte == 0,
        ;
    }
    let b = byte as int;
    assert(0 <= b * u <= 255 * u) by (nonlinear_arith)
        requires
            0 <= b <= 255,
            u > 0,
    ;
    assert(a.num() == b * u);
    crate::scalar::bounds::lemma_within_quotient(a, d, 0);
    crate::scalar::bounds::lemma_quotient_error(a, d);
    let q = a.div_spec(d).num();
    let e = abs_int(q * 255 - b * u) as int;
    assert(q * (255 * u) - (b * u) * u == (q * 255 - b * u) * u) by (nonlinear_arith);
    assert(abs_int((q * 255 - b * u) * u) == e * u) by (nonlinear_arith)
        requires
            e == abs_int(q * 255 - b * u),
            u > 0,
    ;
    assert(e * PRECISION <= b * u + TINY * 255) by (nonlinear_arith)
        requires
            e * u * PRECISION <= (b * u) * u + TINY * (255 * u),
            u > 0,
    ;
}

} // verus!
