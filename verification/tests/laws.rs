use resims::scalar::Scalar;
use resims::sim::agent::{
    ActionKind, AgentState, Employment, Home, NeedKind, Personality, Position,
};
use resims::sim::city::{in_shift, point_seg_dist, CityBuilding, ZoneFunction};
use resims::sim::goal::{furniture_ads, room_function_for, FurnitureKind, RoomFunction};
use resims::sim::grid::{Obstacle, Obstacles, Wall, Walls};
use resims::sim::money::{fmt_cents, Money};
use resims::sim::rooms::detect_rooms;
use resims::sim::route::{plan_route, route_points};
use resims::sim::systems::autonomy::{motive_weight, pick_first, Candidate};
use resims::sim::systems::social::socialize;
use resims::sim::world::{Sim, SimConfig, SimRng};

fn s(v: f32) -> Scalar {
    Scalar { bits: v.to_bits() }
}

fn f(v: Scalar) -> f32 {
    f32::from_bits(v.bits)
}

fn pos(x: f32, z: f32) -> Position {
    Position { x: s(x), z: s(z) }
}

fn plain() -> Personality {
    Personality { playful: s(0.5), outgoing: s(0.5), active: s(0.5) }
}

fn busy_city() -> Sim {
    let mut sim = Sim::new();
    for i in 0..6 {
        let e = sim.spawn_agent(s(i as f32 * 3.0), s(0.0), plain());
        sim.agents[i].needs.hunger = s(0.1 + 0.05 * i as f32);
        sim.agents[i].needs.fun = s(0.3);
        let home = sim.spawn_dwelling(s(0.0), s(30.0 + i as f32), 1);
        assert!(sim.move_in(e, home));
    }
    sim.spawn_goal(s(20.0), s(5.0), NeedKind::Hunger);
    sim.spawn_goal(s(-20.0), s(5.0), NeedKind::Hunger);
    sim.spawn_goal(s(0.0), s(-20.0), NeedKind::Fun);
    sim.set_obstacles(vec![Obstacle {
        min_x: s(8.0),
        min_z: s(-10.0),
        max_x: s(12.0),
        max_z: s(10.0),
    }]);
    sim
}

#[test]
fn needs_stay_in_range_and_goals_stay_exclusive() {
    let mut sim = busy_city();
    for step in 0..200 {
        sim.set_hour((step / 8) as u8);
        sim.step(s(0.5));
        for a in &sim.agents {
            for k in [
                NeedKind::Hunger,
                NeedKind::Energy,
                NeedKind::Sociability,
                NeedKind::Comfort,
                NeedKind::Hygiene,
                NeedKind::Bladder,
                NeedKind::Fun,
            ] {
                let v = f(a.needs.value(k));
                assert!((0.0..=1.0).contains(&v));
            }
        }
        for g in &sim.goals {
            let walkers: Vec<_> = sim
                .agents
                .iter()
                .filter(|a| a.target.is_some_and(|t| t.claim == Some(g.id)))
                .collect();
            assert!(walkers.len() <= 1);
            for a in walkers {
                assert_eq!(g.goal.claimed_by, Some(a.id));
            }
        }
        for d in &sim.dwellings {
            let residents = sim
                .agents
                .iter()
                .filter(|a| a.home.is_some_and(|h| h.0 == d.id))
                .count();
            assert_eq!(d.dwelling.taken as usize, residents);
        }
    }
}

#[test]
fn equal_cities_stay_equal() {
    let (mut a, mut b) = (busy_city(), busy_city());
    for _ in 0..100 {
        a.step(s(0.3));
        b.step(s(0.3));
    }
    assert_eq!(a.snapshot(), b.snapshot());
    assert_eq!(a.rng, b.rng);
    assert!(a.rng.word_pos > 0);
}

#[test]
fn different_seeds_break_ties_differently() {
    let pick = |seed: u64| {
        let mut sim = Sim::new();
        sim.set_seed(seed);
        sim.spawn_agent(s(0.0), s(0.0), plain());
        sim.agents[0].needs.hunger = s(0.1);
        sim.spawn_goal(s(10.0), s(0.0), NeedKind::Hunger);
        sim.spawn_goal(s(-10.0), s(0.0), NeedKind::Hunger);
        sim.step(s(0.1));
        f(sim.agents[0].target.unwrap().x)
    };
    let picks: Vec<f32> = (0..20).map(pick).collect();
    assert!(picks.contains(&10.0) && picks.contains(&-10.0));
}

#[test]
fn orders_preempt_and_persist() {
    let mut sim = busy_city();
    sim.step(s(0.1));
    let e = sim.agents[0].id;
    let job = sim.spawn_workplace(s(0.0), s(0.0), s(1.0), 9, 17);
    sim.employ(e, job);
    sim.order(e, ActionKind::Goto { x: s(1.0), z: s(1.0) });
    sim.order(e, ActionKind::Goto { x: s(2.0), z: s(2.0) });
    let a = &sim.agents[0];
    assert_eq!(a.queue.0[0], ActionKind::Goto { x: s(2.0), z: s(2.0) });
    assert_eq!(a.queue.0.len(), 2);
    assert_eq!(a.state, AgentState::Idle);
    assert!(a.employment.is_some() && a.home.is_some() && a.target.is_none());
    assert!(sim.goals.iter().all(|g| g.goal.claimed_by != Some(e)));
}

#[test]
fn shifts_alternate() {
    for h in 0..24 {
        assert_ne!(in_shift(h, 22, 6), in_shift(h, 6, 22));
    }
}

#[test]
fn pennies_are_not_lost() {
    let mut m = Money::default();
    for _ in 0..1000 {
        let before = m;
        let total = f(before.frac) + 0.0123 * 100.0;
        m.accrue(s(0.0123));
        assert_eq!(m.cents, before.cents + total.floor() as i64);
        assert_eq!(f(m.frac), total - total.floor());
    }
    let mut m = Money { cents: 5, frac: s(0.0) };
    m.accrue(s(-0.02));
    assert_eq!(m.cents, 3);
    assert_eq!(fmt_cents(-5), "$-1.95");
    assert_eq!(fmt_cents(i64::MIN), "$-92233720368547759.92");
    assert_eq!(fmt_cents(7), "$0.07");
}

fn open_ground() -> Obstacles {
    Obstacles::default()
}

fn no_walls() -> Walls {
    Walls { segments: Vec::new(), crossed: Vec::new() }
}

#[test]
fn routes_step_between_free_neighbours() {
    let mut obs = open_ground();
    obs.rects.push(Obstacle {
        min_x: s(4.0),
        min_z: s(-10.0),
        max_x: s(6.0),
        max_z: s(10.0),
    });
    let roads = resims::sim::city::Roads(Vec::new());
    let route = plan_route(&obs, &roads, &no_walls(), pos(0.0, 0.0), pos(10.0, 0.0)).unwrap();
    assert_eq!(*route.last().unwrap(), pos(10.0, 0.0));
    let mut at = obs.cell_of(pos(0.0, 0.0));
    for p in &route[..route.len() - 1] {
        let next = obs.cell_of(*p);
        assert_eq!((next.0 - at.0).abs() + (next.1 - at.1).abs(), 1);
        assert!(!obs.rects[0].contains(*p));
        at = next;
    }
    // five cells across, five out and five back, then the target itself
    assert_eq!(route.len(), 5 + 10 + 1);
    // off the grid and on bare ground the walk is straight
    let far = plan_route(&obs, &roads, &no_walls(), pos(900.0, 0.0), pos(10.0, 0.0)).unwrap();
    assert!(far.is_empty());
    let bare = plan_route(&open_ground(), &roads, &no_walls(), pos(0.0, 0.0), pos(10.0, 0.0));
    assert!(bare.unwrap().is_empty());
    // a target inside an obstacle snaps to a free cell beside it
    let near = plan_route(&obs, &roads, &no_walls(), pos(0.0, 0.0), pos(5.0, 0.0)).unwrap();
    assert_eq!(*near.last().unwrap(), pos(5.0, 0.0));
    // far off the grid there is nothing to snap to
    assert!(plan_route(&obs, &roads, &no_walls(), pos(0.0, 0.0), pos(1e9, 0.0)).is_none());
}

#[test]
fn rooms_are_enclosed() {
    let mut obs = open_ground();
    obs.half_extent = s(4.0); // four by four cells
    let at = |cx: usize, cy: usize| cy * 4 + cx;
    let mut crossed = vec![false; 16];
    for (cx, cy) in [(1, 0), (0, 1), (2, 1), (1, 2), (3, 3)] {
        crossed[at(cx, cy)] = true;
    }
    let rooms = detect_rooms(&obs, &Walls { segments: Vec::new(), crossed: crossed.clone() });
    assert_eq!(rooms.len(), 1);
    assert_eq!(rooms[0].cells, 1);
    assert_eq!((f(rooms[0].cx), f(rooms[0].cz)), (-1.0, -1.0));
    assert_eq!((f(rooms[0].min_x), f(rooms[0].max_z)), (-2.0, 0.0));
    crossed[at(1, 2)] = false;
    assert!(detect_rooms(&obs, &Walls { segments: Vec::new(), crossed }).is_empty());
}

#[test]
fn satisfied_agents_want_nothing() {
    assert_eq!(f(motive_weight(s(0.5))), 0.0);
    assert_eq!(f(motive_weight(s(0.9))), 0.0);
    assert_eq!(f(motive_weight(s(0.25))), 0.25);
    assert_eq!(f(motive_weight(s(0.0))), 1.0);
    let mut sim = Sim::new();
    sim.spawn_agent(s(0.0), s(0.0), plain());
    sim.spawn_goal(s(1.0), s(0.0), NeedKind::Hunger);
    let before = sim.rng;
    sim.step(s(1.0));
    assert_eq!(sim.agents[0].state, AgentState::Idle);
    assert_eq!(sim.rng, before);
}

#[test]
fn formulas() {
    assert_eq!(f(point_seg_dist(pos(5.0, 3.0), pos(0.0, 0.0), pos(10.0, 0.0))), 3.0);
    assert_eq!(f(point_seg_dist(pos(13.0, 4.0), pos(0.0, 0.0), pos(10.0, 0.0))), 5.0);
    assert_eq!(f(point_seg_dist(pos(3.0, 4.0), pos(0.0, 0.0), pos(0.0, 0.0))), 5.0);
    let w = Wall { ax: s(0.0), az: s(0.0), bx: s(10.0), bz: s(0.0) };
    let (a, b) = w.span();
    let t = (1e-3f32 / 10.0).min(0.5);
    assert_eq!((f(a.x), f(b.x)), (10.0 * t, 10.0 - 10.0 * t));
    let b = CityBuilding::new("b".to_string(), ZoneFunction::Industrial, s(0.0), s(0.0), s(1.0), s(1.0));
    assert_eq!(b.capacity, 1);
    assert_eq!(f(b.tax()), 0.0);
    assert_eq!(furniture_ads(FurnitureKind::Tub), vec![(NeedKind::Hygiene, s(0.8))]);
    assert_eq!(room_function_for(FurnitureKind::TV), RoomFunction::Living);
    assert_eq!(Obstacles::default().grid_n(), 64);
    assert_eq!(f(plain().factor(NeedKind::Fun)), 1.0);
}

#[test]
fn waypoints_are_cell_centers_then_the_target() {
    let obs = open_ground();
    let walk = vec![(32, 32), (33, 32), (33, 33)];
    let points = route_points(&obs, &walk, pos(2.5, 2.5));
    assert_eq!(points, vec![pos(3.0, 1.0), pos(3.0, 3.0), pos(2.5, 2.5)]);
    assert_eq!(route_points(&obs, &vec![(0, 0)], pos(1.0, 1.0)), vec![pos(1.0, 1.0)]);
}

#[test]
fn blocked_cells_are_covered_or_crossed() {
    let mut obs = open_ground();
    obs.half_extent = s(4.0); // four by four cells, centers at -3, -1, 1, 3
    obs.rects.push(Obstacle { min_x: s(0.0), min_z: s(-4.0), max_x: s(1.0), max_z: s(-1.0) });
    let mut crossed = vec![false; 16];
    crossed[12] = true;
    let grid = obs.blocked_grid(&Walls { segments: Vec::new(), crossed });
    let blocked: Vec<usize> = (0..16).filter(|i| grid[*i]).collect();
    assert_eq!(blocked, vec![2, 6, 12]);
}

#[test]
fn ties_rotate_and_taken_goals_are_passed_over() {
    let mut sim = Sim::new();
    for x in [4.0, 8.0, 12.0] {
        sim.spawn_goal(s(x), s(0.0), NeedKind::Hunger);
    }
    let ranking: Vec<Candidate> =
        (0..3).map(|goal| Candidate { score: s(1.0), goal }).collect();
    let pick = |off: usize, taken: Vec<bool>| {
        pick_first(
            &sim.obstacles,
            &sim.roads,
            &sim.walls,
            &sim.goals,
            pos(0.0, 0.0),
            &ranking,
            off,
            &taken,
        )
        .map(|c| c.goal)
    };
    assert_eq!(pick(0, vec![false; 3]), Some(0));
    assert_eq!(pick(1, vec![false; 3]), Some(1));
    assert_eq!(pick(2, vec![false, false, true]), Some(0));
    assert_eq!(pick(2, vec![true, false, true]), Some(1));
    assert_eq!(pick(0, vec![true; 3]), None);
}

#[test]
fn ticks_need_bare_ground_or_a_small_grid() {
    let mut sim = Sim::new();
    assert!(sim.can_step());
    sim.obstacles.cell = s(1e-4);
    assert!(!sim.routable() && sim.can_step());
    sim.set_roads(vec![vec![pos(0.0, 0.0), pos(1.0, 0.0)]]);
    assert!(!sim.can_step());
}

#[test]
fn restored_cities_play_on() {
    let mut sim = Sim::new();
    sim.spawn_goal(s(10.0), s(0.0), NeedKind::Hunger);
    let snap = sim.snapshot();
    sim.set_seed(7);
    sim.restore(&snap, Vec::new());
    assert_eq!(sim.rng, SimRng::default());
    assert!(sim.can_step());
    sim.step(s(0.1));
    assert_eq!(sim.snapshot().goals, snap.goals);
}

#[test]
fn hiring_waits_for_the_errand() {
    let mut sim = busy_city();
    sim.step(s(0.1));
    let e = sim.agents[0].id;
    let target = sim.agents[0].target.unwrap();
    let goal = target.claim.unwrap();
    let site = sim.spawn_workplace(s(-30.0), s(0.0), s(36.0), 0, 24);
    sim.employ(e, site);
    assert_eq!(sim.agents[0].employment, Some(Employment { workplace: site }));
    assert_eq!(sim.agents[0].state, AgentState::SeekGoal);
    assert_eq!(sim.agents[0].target, Some(target));
    assert!(sim.goals.iter().any(|g| g.id == goal && g.goal.claimed_by == Some(e)));
    // the errand ends, then the commute begins
    for _ in 0..200 {
        sim.step(s(0.1));
        if sim.agents[0].commute.is_some() {
            break;
        }
    }
    assert!(sim.agents[0].commute.is_some());
    assert!(sim.goals.iter().all(|g| g.goal.claimed_by != Some(e)));
    let other = sim.spawn_workplace(s(30.0), s(0.0), s(36.0), 0, 24);
    sim.employ(e, other);
    assert!(sim.agents[0].commute.is_none() && sim.agents[0].target.is_none());
    assert_eq!(sim.agents[0].state, AgentState::Idle);
}

#[test]
fn dismissal_frees_the_goal() {
    let mut sim = busy_city();
    sim.step(s(0.1));
    let e = sim.agents[0].id;
    let goal = sim.agents[0].target.unwrap().claim.unwrap();
    let home = sim.agents[0].home;
    sim.dismiss(e);
    assert_eq!(sim.agents[0].state, AgentState::Idle);
    assert!(sim.agents[0].target.is_none() && sim.agents[0].route.is_none());
    assert_eq!(sim.agents[0].home, home);
    assert!(sim.goals.iter().any(|g| g.id == goal && g.goal.claimed_by.is_none()));
}

#[test]
fn nobody_moves_into_a_home_that_is_gone() {
    let mut sim = Sim::new();
    let a = sim.spawn_agent(s(0.0), s(0.0), plain());
    let d = sim.spawn_dwelling(s(6.0), s(0.0), 2);
    assert!(sim.move_in(a, d));
    assert!(sim.move_in(a, d));
    sim.despawn(d);
    assert!(!sim.move_in(a, d));
    assert_eq!(sim.agents[0].home, Some(Home(d)));
}

#[test]
fn company_does_not_speed_up_chat() {
    let mut sim = Sim::new();
    for (x, z) in [(0.0, 0.0), (1.0, 0.0), (0.0, 1.0)] {
        sim.spawn_agent(s(x), s(z), plain());
    }
    sim.spawn_agent(s(50.0), s(0.0), plain());
    for a in &mut sim.agents {
        a.needs.sociability = s(0.5);
    }
    socialize(&mut sim.agents, s(1.0), &SimConfig::default());
    for a in &sim.agents[..3] {
        assert_eq!(a.state, AgentState::Socialize);
        assert!((f(a.needs.sociability) - 0.58).abs() < 1e-6);
    }
    assert_eq!(sim.agents[3].state, AgentState::Idle);
    assert_eq!(f(sim.agents[3].needs.sociability), 0.5);
}

#[test]
fn a_dropped_order_leaves_room_for_free_will() {
    let mut sim = Sim::new();
    let e = sim.spawn_agent(s(0.0), s(0.0), plain());
    sim.agents[0].needs.hunger = s(0.1);
    let gone = sim.spawn_goal(s(5.0), s(0.0), NeedKind::Fun);
    let stall = sim.spawn_goal(s(10.0), s(0.0), NeedKind::Hunger);
    sim.despawn(gone);
    sim.order(e, ActionKind::Use { goal: gone });
    sim.step(s(0.1));
    assert!(sim.agents[0].queue.0.is_empty());
    assert_eq!(sim.agents[0].target.unwrap().claim, Some(stall));
}

#[test]
fn holders_walk_to_what_they_hold() {
    let mut sim = busy_city();
    for _ in 0..300 {
        sim.step(s(0.1));
        for g in &sim.goals {
            for a in &sim.agents {
                let walks = a.target.and_then(|t| t.claim) == Some(g.id);
                assert_eq!(walks, g.goal.claimed_by == Some(a.id));
            }
        }
    }
}

#[test]
fn debts_keep_their_pennies() {
    let mut m = Money { cents: 100, frac: s(0.0) };
    m.accrue(s(-0.125));
    assert_eq!((m.cents, f(m.frac)), (87, 0.5));
    m.accrue(s(-0.005));
    assert_eq!((m.cents, f(m.frac)), (87, 0.0));
    // a crumb below zero: the rest rounds up to a whole cent
    let mut m = Money { cents: 0, frac: s(0.0) };
    m.accrue(s(-1e-12));
    assert_eq!((m.cents, f(m.frac)), (-1, 1.0));
}

#[test]
fn moods_and_lessons() {
    let mut sim = busy_city();
    let a = &mut sim.agents[0];
    assert_eq!(f(a.needs.lowest()), 0.1);
    let sum = 0.1f32 + 0.8 + 0.8 + 0.8 + 0.8 + 0.8 + 0.3;
    assert_eq!(f(a.needs.mean()), sum / 7.0);
    a.skills.learn(NeedKind::Hunger);
    a.skills.learn(NeedKind::Fun);
    assert_eq!((f(a.skills.cooking), f(a.skills.charisma)), (0.02, 0.0));
    a.skills.charisma = s(0.99);
    a.skills.learn(NeedKind::Sociability);
    assert_eq!(f(a.skills.charisma), 1.0);
}

#[test]
fn cleared_walls_leave_no_rooms() {
    let mut sim = Sim::new();
    sim.set_walls(
        vec![Wall { ax: s(0.0), az: s(0.0), bx: s(2.0), bz: s(0.0) }],
        vec![true; 64],
    );
    sim.clear_walls();
    sim.rebuild_rooms();
    assert!(sim.walls.segments.is_empty() && sim.walls.crossed.is_empty());
    assert!(sim.rooms().is_empty());
}
