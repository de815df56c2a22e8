use geo::{Coord, Intersects, LineString, Rect};
use resims::scalar::{scalar, Scalar};
use resims::sim::agent::{ActionKind, AgentState, Home, NeedKind, Personality, Position};
use resims::sim::city::ZoneFunction;
use resims::sim::goal::{Furniture, FurnitureKind};
use resims::sim::grid::{Obstacles, Wall};
use resims::sim::save::{LoadStatus, SaveFile};
use resims::sim::world::find_agent;
use resims::sim::Entity;
use resims::ui::canvas::{furniture_prop, rgb_to_unit};
use resims::ui::direct::USE_RADIUS;
use resims::ui::game::{seed_sim, sim_speed_multiplier, SliderEvent};
use resims::ui::keys::{Key, KeyEvent};
use resims::ui::labels::{
    city_line, clock_hm, clock_line, demand_line, format_id, furniture_glyph, furniture_kinds,
    land_use_color, land_use_function, land_use_glyph, land_use_name, land_uses, ledger_line,
    mood_line, project_label, short_project_name, Demand, LandUse, Ledger,
};
use resims::ui::panel::{building_body, city_stats, spawn_spot, ToolbarItem};
use resims::ui::state::{DebugSection, HoverWindow, PlanningMode, Segment, UiMode, UiState};
use resims::ui::zoning::{door_point, point_in_polygon};
use resims::viewport::PickEvent;

fn s(v: f32) -> Scalar {
    Scalar { bits: v.to_bits() }
}

fn f(v: Scalar) -> f32 {
    f32::from_bits(v.bits)
}

fn pos(x: f32, z: f32) -> Position {
    Position { x: s(x), z: s(z) }
}

fn points(list: &[[f32; 2]]) -> Vec<Position> {
    list.iter().map(|p| pos(p[0], p[1])).collect()
}

/// Which cells a set of walls crosses.
fn crossed(obs: &Obstacles, walls: &[Wall]) -> Vec<bool> {
    let coord = |p: Position| Coord { x: f(p.x), y: f(p.z) };
    let spans: Vec<LineString<f32>> = walls
        .iter()
        .map(|w| {
            let (a, b) = w.span();
            LineString::from(vec![coord(a), coord(b)])
        })
        .collect();
    let n = obs.grid_n();
    let mut out = Vec::new();
    for cy in 0..n {
        for cx in 0..n {
            let r = obs.cell_rect(cx, cy);
            let rect = Rect::new(
                Coord { x: f(r.min_x), y: f(r.min_z) },
                Coord { x: f(r.max_x), y: f(r.max_z) },
            );
            out.push(spans.iter().any(|l| l.intersects(&rect)));
        }
    }
    out
}

fn implement(st: &mut UiState) {
    let cells = crossed(&st.sim.obstacles, &st.planned_walls());
    st.implement_project(cells);
}

fn shortcut(st: &mut UiState, ev: KeyEvent) -> bool {
    let cells = crossed(&st.sim.obstacles, &st.planned_walls());
    st.handle_shortcut(ev, cells)
}

fn load(st: &mut UiState, file: &SaveFile, status: LoadStatus) {
    let cells = crossed(&Obstacles::default(), &file.snapshot.walls);
    st.do_load(file, status, cells);
}

fn key_down(key: Key, command: bool, shift: bool) -> KeyEvent {
    KeyEvent { key, down: true, is_repeat: false, command, shift, alt: false }
}

fn session_with_project() -> UiState {
    let mut st = UiState::new();
    st.current_project = Some("prj001".to_string());
    st.planning_mode = Some(PlanningMode::Roads);
    st.selected_land_use = Some(LandUse::Residential);
    st
}

#[test]
fn implement_shortcut_clears_project() {
    let mut st = session_with_project();
    st.project_points.push(pos(1.0, 2.0));
    st.inspected_building = Some("bld:1".to_string());
    st.building_pinned = true;
    assert!(shortcut(&mut st, key_down(Key::Enter, true, false)));
    assert!(st.current_project.is_none());
    assert!(st.planning_mode.is_none());
    assert!(st.selected_land_use.is_none());
    assert!(st.project_points.is_empty());
    assert!(st.inspected_building.is_none());
    assert!(!st.building_pinned);
}

#[test]
fn implement_shortcut_stamps_roads() {
    let mut st = session_with_project();
    st.project_points = points(&[[0.0, 0.0], [10.0, 0.0], [10.0, 10.0]]);
    assert!(shortcut(&mut st, key_down(Key::Enter, true, false)));
    assert!(st.current_project.is_none());
    assert!(st.project_points.is_empty());
    assert_eq!(st.built_roads.len(), 1);
    assert_eq!(st.built_roads[0].len(), 3);
    assert_eq!(st.take_blips(), vec![740]);
    assert!(st.take_blips().is_empty());
}

#[test]
fn sim_speed_marks_match_slider_labels() {
    assert_eq!(f(sim_speed_multiplier(s(0.0))), 0.0); // ||
    assert_eq!(f(sim_speed_multiplier(s(1.0))), 1.0); // 1x
    assert_eq!(f(sim_speed_multiplier(s(3.0))), 4.0); // 4x
    assert_eq!(f(sim_speed_multiplier(s(6.0))), 32.0); // 32x
}

#[test]
fn every_mark_is_a_power_of_two() {
    for k in 1..=6 {
        assert_eq!(f(sim_speed_multiplier(s(k as f32))), 2f32.powf(k as f32 - 1.0));
    }
}

#[test]
fn clock_formats_sim_seconds() {
    assert_eq!(clock_hm(s(0.0)), (0, 0));
    assert_eq!(clock_hm(s(59.0)), (0, 0));
    assert_eq!(clock_hm(s(60.0)), (0, 1));
    assert_eq!(clock_hm(s(34200.0)), (9, 30));
    assert_eq!(clock_hm(s(86399.0)), (23, 59));
    assert_eq!(clock_hm(s(86400.0)), (0, 0));
    assert_eq!(clock_hm(s(-5.0)), (0, 0));
}

#[test]
fn undo_redo_shortcuts_flip_redo_flag() {
    let mut st = session_with_project();
    assert!(shortcut(&mut st, key_down(Key::Character('z'), true, false)));
    assert!(st.has_redo);
    assert!(shortcut(&mut st, key_down(Key::Character('z'), true, true)));
    assert!(!st.has_redo);
}

#[test]
fn redo_has_a_second_shortcut() {
    let mut st = session_with_project();
    assert!(!shortcut(&mut st, key_down(Key::Character('y'), true, false)));
    assert!(shortcut(&mut st, key_down(Key::Character('z'), true, false)));
    assert!(shortcut(&mut st, key_down(Key::Character('y'), true, false)));
    assert!(!st.has_redo);
}

#[test]
fn debug_toggle_shortcut_flips_window() {
    let mut st = UiState::default();
    let dot = key_down(Key::Character('.'), false, false);
    assert!(!st.show_debug);
    assert!(shortcut(&mut st, dot));
    assert!(st.show_debug);
    assert!(shortcut(&mut st, dot));
    assert!(!st.show_debug);
}

#[test]
fn shortcuts_ignore_repeats_releases_and_plain_keys() {
    let mut st = session_with_project();
    let mut ev = key_down(Key::Enter, true, false);
    ev.is_repeat = true;
    assert!(!shortcut(&mut st, ev));
    let mut ev = key_down(Key::Enter, true, false);
    ev.down = false;
    assert!(!shortcut(&mut st, ev));
    assert!(!shortcut(&mut st, key_down(Key::Enter, false, false)));
    let mut ev = key_down(Key::Enter, true, false);
    ev.alt = true;
    assert!(!shortcut(&mut st, ev));
    assert!(!shortcut(&mut st, key_down(Key::Other, true, false)));
    assert!(st.current_project.is_some());
}

fn people() -> Vec<Personality> {
    (0..6)
        .map(|i| Personality {
            playful: s(i as f32 / 6.0),
            outgoing: s(0.5),
            active: s(1.0 - i as f32 / 6.0),
        })
        .collect()
}

fn session_seeded() -> UiState {
    let mut st = UiState::default();
    seed_sim(&mut st.sim, &people());
    st
}

fn first_agent(st: &UiState) -> Entity {
    st.sim.agents[0].id
}

#[test]
fn direct_order_without_selection_is_noop() {
    let mut st = session_seeded();
    let agent = first_agent(&st);
    assert!(!st.direct_order(s(50.0), s(50.0)));
    st.sim.step(s(0.1));
    let i = find_agent(&st.sim.agents, agent).unwrap();
    assert_eq!(st.sim.agents[i].state, AgentState::Idle);
}

#[test]
fn direct_order_sends_goto() {
    let mut st = session_seeded();
    let agent = first_agent(&st);
    st.selected_agent = Some(agent);
    // Far from every seeded goal: plain move order.
    assert!(st.direct_order(s(50.0), s(50.0)));
    st.sim.step(s(0.1));
    let target = st.sim.agents[0].target;
    assert!(target.is_some());
    assert_eq!((f(target.unwrap().x), f(target.unwrap().z)), (50.0, 50.0));
}

#[test]
fn direct_order_near_goal_sends_use() {
    let mut st = session_seeded();
    let agent = first_agent(&st);
    st.selected_agent = Some(agent);
    // Seeded hunger goal sits at (-20, 0).
    assert!(st.direct_order(s(-20.0), s(0.0)));
    st.sim.step(s(0.1));
    assert_eq!(st.sim.agents[0].state, AgentState::SeekGoal);
    let target = st.sim.agents[0].target;
    assert_eq!((f(target.unwrap().x), f(target.unwrap().z)), (-20.0, 0.0));
}

#[test]
fn the_nearest_goal_in_the_click_radius_is_used() {
    let mut st = UiState::default();
    let e = st.sim.spawn_agent(s(0.0), s(0.0), people()[0]);
    let far = st.sim.spawn_goal(s(2.0), s(0.0), NeedKind::Fun);
    let near = st.sim.spawn_goal(s(-1.0), s(0.0), NeedKind::Fun);
    st.selected_agent = Some(e);
    assert!(st.direct_order(s(0.0), s(0.0)));
    assert_eq!(st.sim.agents[0].queue.0, vec![ActionKind::Use { goal: near }]);
    assert!(st.direct_order(s(4.0), s(0.0)));
    assert_eq!(st.sim.agents[0].queue.0[0], ActionKind::Use { goal: far });
    assert!(st.direct_order(s(2.0 + f(scalar(USE_RADIUS)) + 0.01), s(0.0)));
    assert!(matches!(st.sim.agents[0].queue.0[0], ActionKind::Goto { .. }));
}

#[test]
fn employ_click_toggles_job() {
    let mut st = session_seeded();
    let agent = first_agent(&st);
    // No selection, and far clicks: untouched.
    assert!(!st.maybe_employ(s(-24.0), s(8.0)));
    st.selected_agent = Some(agent);
    assert!(!st.maybe_employ(s(50.0), s(50.0)));
    // Seeded cafe workplace sits at (-24, 8).
    assert!(st.maybe_employ(s(-24.0), s(8.0)));
    assert!(st.sim.agents[0].employment.is_some());
    // Click again: dismissed.
    assert!(st.maybe_employ(s(-24.0), s(8.0)));
    assert!(st.sim.agents[0].employment.is_none());
}

fn session_zoning(land_use: LandUse, poly: Vec<Position>) -> UiState {
    let mut st = UiState::default();
    st.current_project = Some("prj009".to_string());
    st.planning_mode = Some(PlanningMode::Zoning);
    st.selected_land_use = Some(land_use);
    st.project_points = poly;
    st
}

/// Polygon around bld:3's center (12, 10).
fn bld3_poly() -> Vec<Position> {
    points(&[[8.0, 6.0], [16.0, 6.0], [16.0, 14.0], [8.0, 14.0]])
}

#[test]
fn point_in_polygon_sides() {
    assert!(point_in_polygon(pos(12.0, 10.0), &bld3_poly()));
    assert!(!point_in_polygon(pos(0.0, 0.0), &bld3_poly()));
    assert!(!point_in_polygon(pos(12.0, 20.0), &bld3_poly()));
}

#[test]
fn zoning_implement_stamps_building_and_spawns_jobs() {
    let mut st = session_zoning(LandUse::Commercial, bld3_poly());
    implement(&mut st);
    assert_eq!(st.stamped.len(), 1);
    assert_eq!(st.stamped[0].id, "bld:3");
    assert_eq!(st.sim.buildings.len(), 1);
    assert_eq!(st.sim.buildings[0].building.function, ZoneFunction::Commercial);
    assert_eq!(st.sim.buildings[0].building.capacity, 2); // 8x8=64u² / 25
    assert_eq!(st.sim.workplaces.len(), 1);
    assert_eq!(f(st.sim.workplaces[0].workplace.pay_per_hour), 30.0);
}

#[test]
fn restamp_replaces_function_set() {
    let mut st = session_zoning(LandUse::Commercial, bld3_poly());
    implement(&mut st);
    // Re-stamp the same block industrial.
    st.current_project = Some("prj010".to_string());
    st.planning_mode = Some(PlanningMode::Zoning);
    st.selected_land_use = Some(LandUse::Industrial);
    st.project_points = bld3_poly();
    implement(&mut st);
    assert_eq!(st.stamped.len(), 1);
    assert_eq!(st.sim.buildings.len(), 1);
    assert_eq!(st.sim.buildings[0].building.function, ZoneFunction::Industrial);
    // Old commercial site despawned, one industrial site stands.
    assert_eq!(st.sim.workplaces.len(), 1);
    assert_eq!(f(st.sim.workplaces[0].workplace.pay_per_hour), 38.0);
    assert!(st.sim.goals.is_empty());
}

#[test]
fn every_land_use_stamps_its_own_set() {
    for (lu, goals, jobs, homes) in [
        (LandUse::Residential, 0, 0, 1),
        (LandUse::Commercial, 1, 1, 0),
        (LandUse::Industrial, 0, 1, 0),
        (LandUse::Agricultural, 1, 0, 0),
        (LandUse::Recreational, 1, 0, 0),
        (LandUse::Administrative, 1, 0, 0),
    ] {
        let mut st = session_zoning(lu, bld3_poly());
        implement(&mut st);
        assert_eq!(st.sim.goals.len(), goals);
        assert_eq!(st.sim.workplaces.len(), jobs);
        assert_eq!(st.sim.dwellings.len(), homes);
        assert_eq!(st.sim.buildings[0].building.function, land_use_function(lu));
        assert_eq!(st.stamped[0].generated.len(), 1 + goals + jobs + homes);
    }
}

#[test]
fn roads_implement_syncs_sim_network() {
    let mut st = session_with_project(); // roads mode, 2-point project below
    st.project_points = points(&[[0.0, 0.0], [10.0, 0.0]]);
    implement(&mut st);
    assert_eq!(st.sim.roads.0.len(), 1);
}

#[test]
fn residential_stamp_spawns_dwelling_at_door() {
    let mut st = session_zoning(LandUse::Residential, bld3_poly());
    implement(&mut st);
    assert_eq!(st.stamped.len(), 1);
    assert_eq!(st.sim.dwellings.len(), 1);
    let home = st.sim.dwellings[0].dwelling;
    assert_eq!(home.capacity, 2);
    // Door: west of bld:3 (min_x 8) at mid-depth 10.
    assert_eq!((f(home.x), f(home.z)), (6.0, 10.0));
}

#[test]
fn commercial_stamp_sits_workplace_at_door() {
    let mut st = session_zoning(LandUse::Commercial, bld3_poly());
    implement(&mut st);
    assert_eq!(st.sim.workplaces.len(), 1);
    let site = st.sim.workplaces[0].workplace;
    assert_eq!((f(site.x), f(site.z)), (6.0, 10.0));
}

#[test]
fn move_in_click_toggles_home() {
    let mut st = session_seeded();
    let agent = first_agent(&st);
    let home = st.sim.spawn_dwelling(s(-24.0), s(8.0), 2);
    assert!(!st.maybe_move_in(s(-24.0), s(8.0))); // no selection
    st.selected_agent = Some(agent);
    assert!(!st.maybe_move_in(s(50.0), s(50.0))); // open ground
    assert!(st.maybe_move_in(s(-24.0), s(8.0)));
    assert_eq!(st.sim.agents[0].home, Some(Home(home)));
    // Click again: moved out.
    assert!(st.maybe_move_in(s(-24.0), s(8.0)));
    assert!(st.sim.agents[0].home.is_none());
}

#[test]
fn a_full_house_refuses_with_a_low_tone() {
    let mut st = session_seeded();
    st.sim.spawn_dwelling(s(-24.0), s(8.0), 0);
    st.selected_agent = Some(first_agent(&st));
    assert!(st.maybe_move_in(s(-24.0), s(8.0)));
    assert!(st.sim.agents[0].home.is_none());
    assert_eq!(st.take_blips(), vec![220]);
}

#[test]
fn city_stats_counts_agents_and_mood() {
    let st = session_seeded(); // 6 agents at default 0.8 needs
    let (pop, happy) = city_stats(&st.sim);
    assert_eq!(pop, 6);
    assert!((f(happy) - 0.8).abs() < 1e-6, "happy: {}", f(happy));
    let (pop, happy) = city_stats(&UiState::default().sim);
    assert_eq!((pop, f(happy)), (0, 1.0));
}

#[test]
fn panel_lines_format_demand_and_ledger() {
    let d = Demand { residential: s(1.0), commercial: s(-0.6), industrial: s(0.05) };
    assert_eq!(demand_line(d), "R+1.0 C-0.6 I+0.1");
    let l = Ledger { property_in: s(20.0), wage_in: s(0.1), services_out: s(8.0) };
    assert_eq!(ledger_line(l), "$20.10 in · $8.00 out");
}

#[test]
fn walls_implement_stamps_chain_and_syncs() {
    let mut st = UiState::default();
    st.current_project = Some("prj011".to_string());
    st.planning_mode = Some(PlanningMode::Walls);
    st.project_points = points(&[[0.0, 0.0], [0.0, 8.0], [8.0, 8.0]]);
    implement(&mut st);
    // 3-point chain -> 2 segments, draft cleared, project closed.
    assert_eq!(st.built_walls.len(), 2);
    assert_eq!(st.built_walls[0], Segment { a: pos(0.0, 0.0), b: pos(0.0, 8.0) });
    assert!(st.project_points.is_empty());
    assert!(st.current_project.is_none());
    assert_eq!(st.sim.walls.segments.len(), 2);
    assert_eq!(f(st.sim.walls.segments[1].bx), 8.0);
}

#[test]
fn save_load_restores_stamps() {
    let mut st = session_zoning(LandUse::Commercial, bld3_poly());
    implement(&mut st);
    let file = st.save_file();
    st.report_save(None);
    assert_eq!(st.last_save_msg, "Saved.");
    // Fresh session loads the stamp back with resolved entities.
    let mut st2 = UiState::default();
    load(&mut st2, &file, LoadStatus::Loaded);
    assert_eq!(st2.stamped.len(), 1);
    assert_eq!(st2.stamped[0].id, "bld:3");
    assert!(!st2.stamped[0].generated.is_empty());
    assert_eq!(st2.sim.buildings.len(), 1);
    assert!(st2.last_save_msg.starts_with("Loaded day"));
    // The building, its goal and its workplace are found again.
    assert_eq!(st2.stamped[0].generated.len(), 3);
}

#[test]
fn load_missing_reports_no_save() {
    let file = UiState::default().save_file();
    let mut st = UiState::default();
    load(&mut st, &file, LoadStatus::Missing);
    assert_eq!(st.last_save_msg, "No save yet.");
    assert!(st.stamped.is_empty());
    load(&mut st, &file, LoadStatus::Unreadable);
    assert_eq!(st.last_save_msg, "Save unreadable; city untouched.");
}

#[test]
fn a_failed_save_reports_why() {
    let mut st = UiState::default();
    st.report_save(Some("disk full".to_string()));
    assert_eq!(st.last_save_msg, "Save failed: disk full");
    assert!(st.take_blips().is_empty());
}

#[test]
fn furniture_implement_places_pieces() {
    let mut st = UiState::default();
    st.current_project = Some("prj012".to_string());
    st.planning_mode = Some(PlanningMode::Furniture);
    st.selected_furniture = Some(FurnitureKind::Bed);
    st.project_points = points(&[[2.0, 2.0], [6.0, 6.0]]);
    implement(&mut st);
    assert!(st.project_points.is_empty());
    assert!(st.current_project.is_none());
    assert_eq!(st.sim.goals.len(), 2);
    assert!(st.sim.goals.iter().all(|g| g.furniture == Some(Furniture(FurnitureKind::Bed))));
    assert_eq!(f(furniture_prop(FurnitureKind::Fridge).h), 2.2);
}

#[test]
fn drafts_with_too_few_points_are_dropped() {
    for (mode, n) in [
        (PlanningMode::Roads, 1),
        (PlanningMode::Walls, 1),
        (PlanningMode::Zoning, 2),
        (PlanningMode::Furniture, 0),
    ] {
        let mut st = session_with_project();
        st.planning_mode = Some(mode);
        st.project_points = (0..n).map(|i| pos(i as f32, 0.0)).collect();
        implement(&mut st);
        assert!(st.project_points.is_empty());
        assert!(st.built_roads.is_empty() && st.built_walls.is_empty());
        assert!(st.stamped.is_empty() && st.sim.goals.is_empty());
        assert!(st.current_project.is_none());
    }
}

#[test]
fn ticking_seeds_once_and_runs_the_clock() {
    let mut st = UiState::default();
    st.sim_speed_log = s(6.0);
    assert!(st.tick(s(0.0), &people()));
    assert_eq!(st.sim.agents.len(), 6);
    assert_eq!(st.sim.goals.len(), 7);
    assert_eq!(st.sim.workplaces.len(), 2);
    assert_eq!(st.sim.obstacles.rects.len(), 7);
    for _ in 0..10 {
        // a frame covers at most a quarter of a second: 8 sim-seconds at 32x
        assert!(st.tick(s(3.0), &Vec::new()));
    }
    assert_eq!(st.sim.agents.len(), 6);
    assert_eq!(f(st.sim_secs), 80.0);
    assert_eq!((st.sim_hour, st.sim_min), (0, 1));
    assert_eq!(st.sim.hour.0, 0);
    st.sim_speed_log = s(0.0);
    assert!(!st.tick(s(1.0), &Vec::new()));
    assert_eq!(f(st.sim_secs), 80.0);
}

#[test]
fn slider_snaps_to_marks() {
    let mut st = UiState::default();
    for (x, mark) in [(0.0, 0.0), (8.0, 0.0), (10.0, 1.0), (56.0, 3.0), (111.0, 6.0), (999.0, 6.0)] {
        st.set_speed(s(10.0 + x), s(10.0), s(112.0));
        assert_eq!(f(st.sim_speed_log), mark, "at {x}");
    }
    st.set_speed(s(10.0), s(10.0), s(1.0)); // not laid out yet
    assert_eq!(f(st.sim_speed_log), 6.0);
    assert_eq!(f(st.slider_fill()), 1.0);
}

#[test]
fn projects_start_and_cycle() {
    let mut st = UiState::default();
    st.cycle_project();
    assert!(st.current_project.is_none());
    st.start_project();
    st.start_project();
    assert_eq!(st.projects, vec!["prj001".to_string(), "prj002".to_string()]);
    assert_eq!(st.current_project.as_deref(), Some("prj002"));
    st.cycle_project();
    assert_eq!(st.current_project.as_deref(), Some("prj001"));
    st.cycle_project();
    assert_eq!(st.current_project.as_deref(), Some("prj002"));
    st.current_project = None;
    assert_eq!(st.project_label(), "Open a project");
    st.cycle_project();
    assert_eq!(st.current_project.as_deref(), Some("prj001"));
    assert_eq!(st.project_label(), "Project 'PRJ'");
}

#[test]
fn names_and_glyphs() {
    assert_eq!(land_use_name(LandUse::Agricultural), "Agricultural");
    assert_eq!(land_use_glyph(LandUse::Residential), "⌂");
    assert_eq!(land_uses().len(), 6);
    assert_eq!(furniture_kinds().len(), 6);
    assert_eq!(furniture_glyph(FurnitureKind::TV), "📺");
    assert_eq!(short_project_name("straße"), "Project 'STR'");
    assert_eq!(short_project_name("ß"), "Project 'SS'");
    assert_eq!(project_label("ABC"), "Project 'ABC'");
    assert_eq!(format_id("bld:3"), "bld:3");
    assert_eq!(format_id("building:31"), "building");
    assert_eq!(format_id("ääääa"), "ääääa");
    assert_eq!(clock_line(7, 5), "07:05");
    assert_eq!(city_line(3, -5), "day 3 · city $-1.95");
    assert_eq!(mood_line(6, s(0.805)), "6 agents · 80%");
    let c = rgb_to_unit(land_use_color(LandUse::Commercial));
    assert_eq!((f(c.r), f(c.g), f(c.b)), (215.0 / 255.0, 120.0 / 255.0, 75.0 / 255.0));
}

#[test]
fn building_window_texts() {
    let mut st = session_zoning(LandUse::Residential, bld3_poly());
    implement(&mut st);
    let p = people()[0];
    st.sim.spawn_agent(s(12.0), s(10.0), p);
    let body = building_body(&st.sim, "bld:3");
    assert_eq!(body.title, "Block 8×8, 5 high");
    assert_eq!(body.zoning, "Residential · 0% grown · 2 homes");
    assert_eq!(body.beds.as_deref(), Some("Beds 0/2 taken city-wide"));
    assert_eq!(body.inside, "1 agent inside:");
    assert_eq!(body.rows[0].name, "Agent 0");
    assert_eq!(body.rows[0].doing, "idling • needs 80%");
    for _ in 0..9 {
        st.sim.spawn_agent(s(12.0), s(10.0), p);
    }
    let body = building_body(&st.sim, "bld:3");
    assert_eq!(body.inside, "10 agents inside:");
    assert_eq!(body.rows.len(), 6);
    let body = building_body(&UiState::default().sim, "nowhere");
    assert_eq!(body.title, "Unknown block");
    assert_eq!(body.zoning, "Unzoned — stamp a zone, then Implement");
    assert_eq!(body.inside, "No agents inside.");
    assert!(body.beds.is_none());
}

#[test]
fn roster_and_toolbar() {
    let mut st = session_seeded();
    let roster = st.roster();
    assert_eq!(roster.len(), 6);
    assert_eq!(roster[0].label, "A1·idle");
    assert!(!roster[0].selected);
    st.toggle_agent(roster[2].id);
    assert!(st.roster()[2].selected);
    assert!(st.toolbar().contains(&ToolbarItem::Hint));
    st.toggle_agent(roster[2].id);
    assert!(!st.roster()[2].selected);
    st.toggle_planning();
    assert_eq!(
        st.toolbar(),
        vec![
            ToolbarItem::MainMode,
            ToolbarItem::Roster,
            ToolbarItem::StartProject,
            ToolbarItem::Spacer,
            ToolbarItem::Menu,
        ]
    );
    st.start_project();
    st.plan(PlanningMode::Zoning);
    assert!(st.toolbar().contains(&ToolbarItem::LandUses));
    st.plan(PlanningMode::Furniture);
    assert!(st.toolbar().contains(&ToolbarItem::Furniture));
    assert_eq!(st.selected_furniture, Some(FurnitureKind::Fridge));
    st.toggle_planning();
    assert_eq!(st.ui_mode, UiMode::Free);
}

#[test]
fn picks_hover_pin_and_plan() {
    let mut st = UiState::default();
    st.toggle_inspection();
    assert!(st.shows_hint());
    st.on_pick(PickEvent::Hover { id: Some("bld:1".to_string()), screen: pos(400.0, 500.0) });
    assert!(st.shows_building());
    assert_eq!(st.window_corner(), pos(280.0, 188.0));
    st.on_pick(PickEvent::Select { id: "bld:2".to_string(), screen: pos(1.0, 2.0) });
    st.on_pick(PickEvent::Hover { id: None, screen: pos(0.0, 0.0) });
    assert_eq!(st.inspected_building.as_deref(), Some("bld:2"));
    assert_eq!(st.window_corner(), pos(8.0, 72.0));
    st.close_window(HoverWindow::Building);
    assert!(st.inspected_building.is_none() && !st.building_pinned);
    st.toggle_planning();
    st.start_project();
    for i in 0..70 {
        st.on_pick(PickEvent::GroundClick { x: s(i as f32), z: s(0.0) });
    }
    assert_eq!(st.project_points.len(), 64);
}

#[test]
fn windows_and_sections() {
    let mut st = UiState::default();
    st.enter_window(HoverWindow::Menu);
    st.leave_window(HoverWindow::Debug);
    assert_eq!(st.hovered_window, Some(HoverWindow::Menu));
    st.leave_window(HoverWindow::Menu);
    assert!(st.hovered_window.is_none());
    st.close_window(HoverWindow::Menu);
    assert!(!st.show_menu);
    for section in [DebugSection::Actions, DebugSection::Net, DebugSection::Log, DebugSection::Sim] {
        st.toggle_section(section);
    }
    assert!(st.debug_sec_actions && st.debug_sec_net && st.debug_sec_log && st.debug_sec_sim);
    st.sim_secs = s(12.25);
    assert_eq!(st.stats_line(), "agents: 0   sim time: 12.2s");
    assert_eq!(st.points_line(), "planning points: 0");
    assert_eq!(spawn_spot(3), pos(31.0 - 40.0, 79.0 - 40.0));
}

#[test]
fn canvas_shows_city_and_draft() {
    let mut st = session_seeded();
    st.sim.spawn_furniture(s(3.0), s(3.0), FurnitureKind::Bed);
    st.selected_agent = Some(first_agent(&st));
    st.current_project = Some("prj001".to_string());
    st.planning_mode = Some(PlanningMode::Roads);
    st.project_points = points(&[[0.0, 0.0], [5.0, 0.0]]);
    st.built_roads = vec![points(&[[1.0, 1.0], [2.0, 2.0]]), points(&[[9.0, 9.0]])];
    let input = st.viewport_input();
    assert!(!input.inspection);
    assert_eq!(input.agents.len(), 6);
    // 2 draft points, 7 goals, 2 workplaces, 1 ring
    assert_eq!(input.markers.len(), 12);
    assert_eq!(f(input.markers[11].size), 2.2);
    assert_eq!(input.paths.len(), 2);
    assert_eq!(f(input.paths[1].color.r), 0.95);
    assert_eq!(input.props.len(), 1);
    assert_eq!(f(input.props[0].w), 2.2);
    assert!(input.polys.is_empty() && input.walls.is_empty());
    st.planning_mode = Some(PlanningMode::Zoning);
    st.selected_land_use = Some(LandUse::Industrial);
    st.project_points = bld3_poly();
    assert_eq!(st.viewport_input().polys.len(), 1);
}

#[test]
fn sliding_drags_between_press_and_release() {
    let mut st = UiState::default();
    let mut dragging = false;
    let mut slide = |st: &mut UiState, event: SliderEvent, x: f32| {
        st.slide_speed(&mut dragging, event, s(x), s(0.0), s(112.0));
        f(st.sim_speed_log)
    };
    let start = f(st.sim_speed_log);
    assert_eq!(slide(&mut st, SliderEvent::Move, 112.0), start);
    assert_eq!(slide(&mut st, SliderEvent::Press, 112.0), 6.0);
    assert_eq!(slide(&mut st, SliderEvent::Move, 0.0), 0.0);
    assert_eq!(slide(&mut st, SliderEvent::Release, 112.0), 0.0);
    assert_eq!(slide(&mut st, SliderEvent::Move, 112.0), 0.0);
    assert!(!dragging);
}

#[test]
fn frames_need_people_and_a_marked_speed() {
    let mut st = UiState::default();
    assert!(st.can_tick(s(0.1), &people()) && !st.can_tick(s(0.1), &Vec::new()));
    st.sim_speed_log = s(2.5);
    assert!(!st.can_tick(s(0.1), &people()));
    st.sim_speed_log = s(1.0);
    st.tick(s(0.0), &people());
    assert!(st.can_tick(s(0.1), &Vec::new()));
    st.sim.obstacles.cell = s(1e-4);
    assert!(!st.can_tick(s(0.1), &Vec::new()));
    st.sim_speed_log = s(0.0); // paused: nothing is routed
    assert!(st.can_tick(s(0.1), &Vec::new()));
    assert!(!st.tick(s(0.1), &Vec::new()));
}

#[test]
fn the_last_day_ends_at_midnight_only() {
    let mut st = session_seeded();
    st.sim_seeded = true;
    st.sim_speed_log = s(1.0);
    st.sim_secs = s(23.5 * 3600.0);
    st.sim.set_hour(23);
    st.sim.day.0 = u32::MAX;
    assert!(st.can_tick(s(0.1), &Vec::new()));
    st.tick(s(0.1), &Vec::new());
    st.sim_secs = s(24.0 * 3600.0);
    assert!(!st.can_tick(s(0.1), &Vec::new()));
}

#[test]
fn drafts_ask_only_for_what_they_need() {
    let mut st = session_with_project();
    st.sim.obstacles.cell = s(1e-4);
    st.sim.next = u64::MAX;
    st.project_points = points(&[[0.0, 0.0], [5.0, 0.0], [5.0, 5.0]]);
    assert!(st.can_implement()); // a road
    st.planning_mode = Some(PlanningMode::Walls);
    assert!(!st.can_implement());
    st.planning_mode = Some(PlanningMode::Zoning);
    assert!(!st.can_implement());
    st.selected_land_use = None;
    assert!(st.can_implement());
    st.planning_mode = Some(PlanningMode::Furniture);
    st.selected_furniture = Some(FurnitureKind::Bed);
    assert!(!st.can_implement());
    st.project_points.truncate(0);
    assert!(st.can_implement());
}

#[test]
fn clicks_ask_for_the_agent_only_where_it_changes() {
    let mut st = UiState::default();
    let gone = st.sim.spawn_agent(s(0.0), s(0.0), people()[0]);
    st.sim.despawn(gone);
    st.selected_agent = Some(gone);
    let full = st.sim.spawn_dwelling(s(20.0), s(0.0), 0);
    let click = |x: f32| PickEvent::GroundClick { x: s(x), z: s(0.0) };
    assert!(!st.selection_stands());
    assert!(st.can_pick(&PickEvent::Hover { id: None, screen: pos(0.0, 0.0) }));
    assert!(!st.can_pick(&click(50.0)));
    // a full house refuses whoever comes
    assert!(st.can_pick(&click(20.0)));
    st.on_pick(click(20.0));
    assert_eq!(st.take_blips(), vec![220]);
    assert!(!st.sim.move_in(gone, full));
    st.start_project();
    st.ui_mode = UiMode::Planning;
    assert!(st.can_pick(&click(50.0)));
    st.on_pick(click(50.0));
    assert_eq!(st.project_points, points(&[[50.0, 0.0]]));
}

#[test]
fn ids_are_cut_by_characters() {
    assert_eq!(format_id("äöüäöü"), "äöüäöü");
    assert_eq!(format_id("äöüäöüäöü"), "äöüäöüäö");
    assert_eq!(format_id("12345678"), "12345678");
}

#[test]
fn undo_and_redo_need_a_project() {
    let mut st = UiState::default();
    assert!(!st.undo() && !st.redo() && !st.has_redo);
    let mut st = session_with_project();
    assert!(!st.redo());
    assert!(st.undo() && st.has_redo);
    assert!(st.redo() && !st.has_redo);
}

#[test]
fn doors_open_to_the_west() {
    assert_eq!(door_point(s(8.0), s(6.0), s(14.0)), pos(6.0, 10.0));
}
