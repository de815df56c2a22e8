//! Starting, running, saving and loading a game.

use super::labels::{clock, clock_hm};
use super::plan::as_walls;
use super::state::{stamp_list, Segment, StampView, StampedBuilding, UiState, UiView};
use super::zoning::{resolve_stamp, resolved};
use crate::scalar::consts::{ONE, ZERO};
use crate::scalar::exact::{lemma_exact, lemma_from_int};
use crate::scalar::order::{
    lemma_nearest_exists, lemma_nearest_monotone, lemma_one, lemma_unit_finite,
};
use crate::scalar::round::{lemma_magnitude_increases, lemma_magnitude_split, nearest};
use crate::scalar::{magnitude, scalar, unit, Scalar, BINADE, NAN_BITS};
use crate::scene::{block_views, blocks, skyline, BlockDef, BlockView};
use crate::sim::agent::{NeedKind, Personality, Position};
use crate::sim::city::{Workplace, ZoneFunction};
use crate::sim::grid::{Obstacle, Wall};
use crate::sim::save::{stamp_views, LoadStatus, SaveFile, SaveView, SAVE_VERSION};
use crate::sim::snapshot::copied_lines;
use crate::sim::world::{BuildingRowView, Sim, SimView};
use crate::text::{digits, push_number, push_str};
use super::zoning::with_plain_goal;
use vstd::arithmetic::power2::{lemma2_to64, lemma_pow2_adds, pow2};
use vstd::prelude::*;

verus! {

/// People that a new city starts with.
pub const FIRST_PEOPLE: usize = 6;

/// Entities that a new city starts with.
pub const FIRST_ENTITIES: u64 = 15;

/// Longest real time that one frame may cover, in seconds (0.25).
pub const MAX_FRAME: u32 = 0x3e80_0000;

/// Where the first people stand.
pub open spec fn first_spot(i: int) -> Position {
    if i == 0 {
        Position { x: scalar(0xc0c0_0000 /* -6 */), z: scalar(0x4080_0000 /* 4 */) }
    } else if i == 1 {
        Position { x: scalar(0x4080_0000 /* 4 */), z: scalar(0xc000_0000 /* -2 */) }
    } else if i == 2 {
        Position { x: scalar(ZERO), z: scalar(0x4120_0000 /* 10 */) }
    } else if i == 3 {
        Position { x: scalar(0xc120_0000 /* -10 */), z: scalar(0xc160_0000 /* -14 */) }
    } else if i == 4 {
        Position { x: scalar(0x4160_0000 /* 14 */), z: scalar(0x40c0_0000 /* 6 */) }
    } else {
        Position { x: scalar(0x4000_0000 /* 2 */), z: scalar(0xc140_0000 /* -12 */) }
    }
}

/// The first `k` people of a new city.
pub open spec fn with_people(s: SimView, people: Seq<Personality>, k: int) -> SimView
    decreases k,
{
    if k <= 0 {
        s
    } else {
        with_people(s, people, k - 1).spawned_agent(first_spot(k - 1), people[k - 1])
    }
}

/// Every need has a source before anything is built.
pub open spec fn with_services(s: SimView) -> SimView {
    let s1 = with_plain_goal(s, Position { x: scalar(0xc1a0_0000 /* -20 */), z: scalar(ZERO) }, NeedKind::Hunger);
    let s2 = with_plain_goal(s1, Position { x: scalar(0x41a0_0000 /* 20 */), z: scalar(0xc0c0_0000 /* -6 */) }, NeedKind::Energy);
    let s3 = with_plain_goal(s2, Position { x: scalar(ZERO), z: scalar(0x41a0_0000 /* 20 */) }, NeedKind::Sociability);
    let s4 = with_plain_goal(s3, Position { x: scalar(0x4100_0000 /* 8 */), z: scalar(0xc1a0_0000 /* -20 */) }, NeedKind::Bladder);
    let s5 = with_plain_goal(s4, Position { x: scalar(0xc100_0000 /* -8 */), z: scalar(0x41a0_0000 /* 20 */) }, NeedKind::Hygiene);
    let s6 = with_plain_goal(s5, Position { x: scalar(ZERO), z: scalar(0xc1a0_0000 /* -20 */) }, NeedKind::Comfort);
    with_plain_goal(s6, Position { x: scalar(0x4160_0000 /* 14 */), z: scalar(0x41a0_0000 /* 20 */) }, NeedKind::Fun)
}

/// Job sites: office day shift, cafe evening shift.
pub open spec fn with_jobs(s: SimView) -> SimView {
    s.spawned_workplace(
        Workplace {
            x: scalar(0x41a0_0000 /* 20 */),
            z: scalar(0xc1a0_0000 /* -20 */),
            pay_per_hour: scalar(0x4220_0000 /* 40 */),
            shift_start: 9,
            shift_end: 17,
        },
    ).spawned_workplace(
        Workplace {
            x: scalar(0xc1c0_0000 /* -24 */),
            z: scalar(0x4100_0000 /* 8 */),
            pay_per_hour: scalar(0x41c8_0000 /* 25 */),
            shift_start: 12,
            shift_end: 20,
        },
    )
}

/// Footprint of a block as an obstacle.
pub open spec fn footprint(b: BlockView) -> Obstacle {
    Obstacle { min_x: b.min_x(), min_z: b.min_z(), max_x: b.max_x(), max_z: b.max_z() }
}

/// A city as it starts: people, services, jobs, and the skyline as obstacles.
pub open spec fn seeded(s: SimView, people: Seq<Personality>) -> SimView {
    with_jobs(with_services(with_people(s, people, FIRST_PEOPLE as int))).with_obstacles(
        skyline().map_values(|b: BlockView| footprint(b)),
    )
}

/// Populating a city leaves its calendar and grid alone.
proof fn lemma_seeded(s: SimView, people: Seq<Personality>)
    ensures
        seeded(s, people).day == s.day,
        seeded(s, people).hour == s.hour,
        seeded(s, people).ground.lattice == s.ground.lattice,
{
    lemma_people(s, people, FIRST_PEOPLE as int);
}

proof fn lemma_people(s: SimView, people: Seq<Personality>, k: int)
    ensures
        with_people(s, people, k).day == s.day,
        with_people(s, people, k).hour == s.hour,
        with_people(s, people, k).ground == s.ground,
    decreases k,
{
    if k > 0 {
        lemma_people(s, people, k - 1);
    }
}

fn first_position(i: usize) -> (p: Position)
    ensures
        p == first_spot(i as int),
{
    if i == 0 {
        Position { x: scalar(0xc0c0_0000 /* -6 */), z: scalar(0x4080_0000 /* 4 */) }
    } else if i == 1 {
        Position { x: scalar(0x4080_0000 /* 4 */), z: scalar(0xc000_0000 /* -2 */) }
    } else if i == 2 {
        Position { x: scalar(ZERO), z: scalar(0x4120_0000 /* 10 */) }
    } else if i == 3 {
        Position { x: scalar(0xc120_0000 /* -10 */), z: scalar(0xc160_0000 /* -14 */) }
    } else if i == 4 {
        Position { x: scalar(0x4160_0000 /* 14 */), z: scalar(0x40c0_0000 /* 6 */) }
    } else {
        Position { x: scalar(0x4000_0000 /* 2 */), z: scalar(0xc140_0000 /* -12 */) }
    }
}

fn add_people(sim: &mut Sim, people: &Vec<Personality>)
    requires
        people.len() == FIRST_PEOPLE,
        old(sim)@.next + FIRST_PEOPLE <= u64::MAX,
    ensures
        final(sim)@ == with_people(old(sim)@, people@, FIRST_PEOPLE as int),
        final(sim)@.next == old(sim)@.next + FIRST_PEOPLE,
{
    let ghost s = sim@;
    let mut k: usize = 0;
    while k < FIRST_PEOPLE
        invariant
            people.len() == FIRST_PEOPLE,
            s.next + FIRST_PEOPLE <= u64::MAX,
            k <= FIRST_PEOPLE,
            sim@ == with_people(s, people@, k as int),
            sim@.next == s.next + k,
        decreases FIRST_PEOPLE - k,
    {
        let p: Position = first_position(k);
        sim.spawn_agent(p.x, p.z, people[k]);
        k += 1;
    }
}

fn add_services(sim: &mut Sim)
    requires
        old(sim)@.next + 7 <= u64::MAX,
    ensures
        final(sim)@ == with_services(old(sim)@),
        final(sim)@.next == old(sim)@.next + 7,
{
    sim.spawn_goal(scalar(0xc1a0_0000 /* -20 */), scalar(ZERO), NeedKind::Hunger);
    sim.spawn_goal(scalar(0x41a0_0000 /* 20 */), scalar(0xc0c0_0000 /* -6 */), NeedKind::Energy);
    sim.spawn_goal(scalar(ZERO), scalar(0x41a0_0000 /* 20 */), NeedKind::Sociability);
    sim.spawn_goal(scalar(0x4100_0000 /* 8 */), scalar(0xc1a0_0000 /* -20 */), NeedKind::Bladder);
    sim.spawn_goal(scalar(0xc100_0000 /* -8 */), scalar(0x41a0_0000 /* 20 */), NeedKind::Hygiene);
    sim.spawn_goal(scalar(ZERO), scalar(0xc1a0_0000 /* -20 */), NeedKind::Comfort);
    sim.spawn_goal(scalar(0x4160_0000 /* 14 */), scalar(0x41a0_0000 /* 20 */), NeedKind::Fun);
}

fn add_jobs(sim: &mut Sim)
    requires
        old(sim)@.next + 2 <= u64::MAX,
    ensures
        final(sim)@ == with_jobs(old(sim)@),
{
    sim.spawn_workplace(scalar(0x41a0_0000 /* 20 */), scalar(0xc1a0_0000 /* -20 */), scalar(0x4220_0000 /* 40 */), 9, 17);
    sim.spawn_workplace(scalar(0xc1c0_0000 /* -24 */), scalar(0x4100_0000 /* 8 */), scalar(0x41c8_0000 /* 25 */), 12, 20);
}

fn footprints() -> (r: Vec<Obstacle>)
    ensures
        r@ == skyline().map_values(|b: BlockView| footprint(b)),
{
    let list: Vec<BlockDef> = blocks();
    let mut r: Vec<Obstacle> = Vec::new();
    let mut i: usize = 0;
    while i < list.len()
        invariant
            block_views(list@) == skyline(),
            list.len() == 7,
            i <= list.len(),
            r.len() == i,
            forall|j: int| 0 <= j < i ==> #[trigger] r[j] == footprint(skyline()[j]),
        decreases list.len() - i,
    {
        let b: BlockDef = list[i];
        assert(block_views(list@)[i as int] == b@);
        r.push(
            Obstacle { min_x: b.min_x(), min_z: b.min_z(), max_x: b.max_x(), max_z: b.max_z() },
        );
        i += 1;
    }
    proof {
        assert(r@ =~= skyline().map_values(|b: BlockView| footprint(b)));
    }
    r
}

/// Populate a new city with six people of the given personalities.
pub fn seed_sim(sim: &mut Sim, people: &Vec<Personality>)
    requires
        people.len() == FIRST_PEOPLE,
        old(sim)@.next + FIRST_ENTITIES <= u64::MAX,
    ensures
        final(sim)@ == seeded(old(sim)@, people@),
{
    add_people(sim, people);
    add_services(sim);
    add_jobs(sim);
    sim.set_obstacles(footprints());
}

/// Speed for a slider mark: 0 is paused, mark `k` runs at two to the `k`
/// minus one.
pub open spec fn speed_of(log: Scalar) -> Scalar {
    if log.is_nan_spec() {
        scalar(NAN_BITS)
    } else if log.le_spec(scalar(ZERO)) {
        scalar(ZERO)
    } else {
        let mark = log.to_int_spec(0, u32::MAX as int);
        if mark <= 1 {
            scalar(ONE)
        } else if mark == 2 {
            scalar(0x4000_0000 /* 2 */)
        } else if mark == 3 {
            scalar(0x4080_0000 /* 4 */)
        } else if mark == 4 {
            scalar(0x4100_0000 /* 8 */)
        } else if mark == 5 {
            scalar(0x4180_0000 /* 16 */)
        } else {
            scalar(0x4200_0000 /* 32 */)
        }
    }
}

/// The slider stands on one of its marks, from 0 (paused) to 6, or nowhere.
pub open spec fn on_mark(log: Scalar) -> bool {
    log.is_nan_spec() || exists|k: int| 0 <= k <= 6 && log.num() == #[trigger] (k * unit())
}

/// Sim-seconds per real second for a slider mark (pause, 1x, 4x, 32x).
pub fn sim_speed_multiplier(log: Scalar) -> (r: Scalar)
    requires
        on_mark(log),
    ensures
        r == speed_of(log),
{
    if log.is_nan() {
        return scalar(NAN_BITS);
    }
    if log.le(scalar(ZERO)) {
        return scalar(ZERO);
    }
    let mark: u32 = log.to_u32();
    if mark <= 1 {
        scalar(ONE)
    } else if mark == 2 {
        scalar(0x4000_0000 /* 2 */)
    } else if mark == 3 {
        scalar(0x4080_0000 /* 4 */)
    } else if mark == 4 {
        scalar(0x4100_0000 /* 8 */)
    } else if mark == 5 {
        scalar(0x4180_0000 /* 16 */)
    } else {
        scalar(0x4200_0000 /* 32 */)
    }
}

/// What the pointer does on the speed slider.
#[derive(Clone, Copy, Debug, PartialEq, Eq, Structural)]
pub enum SliderEvent {
    Press,
    Move,
    Release,
}

/// Where the pointer stands along the slider, from 0 to 1.
pub open spec fn slider_part(x: Scalar, left: Scalar, width: Scalar) -> Scalar {
    x.sub_spec(left).div_spec(width).clamp_spec(scalar(ZERO), scalar(ONE))
}

impl UiView {
    /// After a click or drag on the speed slider, which snaps to the nearest
    /// mark. A slider not laid out yet ignores it.
    pub open spec fn speed_set(self, x: Scalar, left: Scalar, width: Scalar) -> UiView {
        if width.le_spec(scalar(ONE)) {
            self
        } else {
            UiView {
                sim_speed_log: slider_part(x, left, width).mul_spec(scalar(0x40c0_0000 /* 6 */)).round_spec().clamp_spec(
                    scalar(ZERO),
                    scalar(0x40c0_0000 /* 6 */),
                ),
                ..self
            }
        }
    }

    /// The city is populated.
    pub open spec fn started(self, people: Seq<Personality>) -> UiView {
        if self.sim_seeded {
            self
        } else {
            UiView { sim: seeded(self.sim, people), sim_seeded: true, ..self }
        }
    }

    /// Sim-seconds that a frame covers, for the real seconds since the last.
    pub open spec fn frame_time(self, elapsed: Scalar) -> Scalar {
        elapsed.clamp_spec(scalar(ZERO), scalar(MAX_FRAME)).mul_spec(speed_of(self.sim_speed_log))
    }

    /// The sim has run for `dt` seconds and the clocks follow.
    pub open spec fn advanced(self, dt: Scalar) -> UiView {
        let secs = self.sim_secs.add_spec(dt);
        UiView {
            sim: self.sim.stepped(dt).at_hour(clock(secs).0 as u8),
            sim_secs: secs,
            sim_hour: clock(secs).0,
            sim_min: clock(secs).1,
            ..self
        }
    }

    /// After a frame.
    pub open spec fn ticked(self, elapsed: Scalar, people: Seq<Personality>) -> UiView {
        let s = self.started(people);
        if s.is_running() {
            s.advanced(s.frame_time(elapsed))
        } else {
            s
        }
    }

    /// Time runs.
    pub open spec fn is_running(self) -> bool {
        scalar(ZERO).lt_spec(speed_of(self.sim_speed_log))
    }

    /// The clock passes midnight in a frame.
    pub open spec fn passes_midnight(self, elapsed: Scalar) -> bool {
        (clock(self.sim_secs.add_spec(self.frame_time(elapsed))).0 as u8) < self.sim.hour
    }

    /// A frame can run: before the first one there is room for the people
    /// that it brings, and while time runs a tick can run, on the skyline that
    /// the first frame puts up too, and there is a day left after midnight.
    pub open spec fn can_tick(self, elapsed: Scalar, people: Seq<Personality>) -> bool {
        &&& on_mark(self.sim_speed_log)
        &&& !self.sim_seeded ==> people.len() == FIRST_PEOPLE && self.sim.next + FIRST_ENTITIES
            <= u64::MAX
        &&& self.is_running() ==> if self.sim_seeded {
            self.sim.can_step()
        } else {
            self.sim.routable()
        }
        &&& self.is_running() && self.passes_midnight(elapsed) ==> self.sim.day < u32::MAX
    }

    /// The game as a file.
    pub open spec fn saved(self) -> SaveView {
        SaveView {
            version: SAVE_VERSION,
            snapshot: self.sim.kept(),
            roads: self.built_roads,
            walls: as_walls(self.built_walls),
            stamped: self.sim.buildings.map_values(
                |b: BuildingRowView| (b.building.label, b.building.function),
            ),
        }
    }

    /// After writing a file: the outcome as a message.
    pub open spec fn save_reported(self, error: Option<Seq<char>>) -> UiView {
        match error {
            None => UiView { last_save_msg: "Saved."@, ..self }.blipped(740),
            Some(e) => UiView { last_save_msg: "Save failed: "@ + e, ..self },
        }
    }

    /// Records of the stamps in a file, found again in a city.
    pub open spec fn stamps_found(sim: SimView, stamped: Seq<(Seq<char>, ZoneFunction)>) -> Seq<
        StampView,
    > {
        stamped.map_values(
            |s: (Seq<char>, ZoneFunction)| StampView { id: s.0, generated: resolved(sim, s.0) },
        )
    }

    /// After loading a file that was read: the city and its edits are
    /// replaced, and whatever was selected or drafted is dropped.
    #[verifier::opaque]
    pub open spec fn loaded(self, file: SaveView, crossed: Seq<bool>) -> UiView {
        let sim = file.snapshot.restored(self.sim.config, crossed);
        UiView {
            sim,
            built_roads: file.roads,
            built_walls: as_segments(file.walls),
            project_points: Seq::empty(),
            current_project: None,
            planning_mode: None,
            selected_land_use: None,
            selected_agent: None,
            inspected_building: None,
            building_pinned: false,
            stamped: UiView::stamps_found(sim, file.stamped),
            last_save_msg: "Loaded day "@ + digits(file.snapshot.day as nat)
                + ". Jobs, homes and queues reset."@,
            ..self
        }.blipped(880)
    }

    /// After trying to load.
    pub open spec fn after_load(
        self,
        file: SaveView,
        status: LoadStatus,
        crossed: Seq<bool>,
    ) -> UiView {
        match status {
            LoadStatus::Loaded => self.loaded(file, crossed),
            LoadStatus::Missing => UiView { last_save_msg: "No save yet."@, ..self },
            _ => UiView { last_save_msg: "Save unreadable; city untouched."@, ..self },
        }
    }
}

/// Walls of the sim as segments.
pub open spec fn as_segments(walls: Seq<Wall>) -> Seq<Segment> {
    walls.map_values(
        |w: Wall|
            Segment {
                a: Position { x: w.ax, z: w.az },
                b: Position { x: w.bx, z: w.bz },
            },
    )
}

fn segments_of(walls: &Vec<Wall>) -> (r: Vec<Segment>)
    ensures
        r@ == as_segments(walls@),
{
    let mut r: Vec<Segment> = Vec::new();
    let mut i: usize = 0;
    while i < walls.len()
        invariant
            i <= walls.len(),
            r.len() == i,
            forall|j: int|
                0 <= j < i ==> #[trigger] r[j] == (Segment {
                    a: Position { x: walls[j].ax, z: walls[j].az },
                    b: Position { x: walls[j].bx, z: walls[j].bz },
                }),
        decreases walls.len() - i,
    {
        let w: Wall = walls[i];
        r.push(
            Segment { a: Position { x: w.ax, z: w.az }, b: Position { x: w.bx, z: w.bz } },
        );
        i += 1;
    }
    proof {
        assert(r@ =~= as_segments(walls@));
    }
    r
}

fn find_stamps(sim: &Sim, stamped: &Vec<(String, ZoneFunction)>) -> (r: Vec<StampedBuilding>)
    ensures
        stamp_list(r@) == UiView::stamps_found(sim@, stamp_views(stamped@)),
{
    let mut r: Vec<StampedBuilding> = Vec::new();
    let mut i: usize = 0;
    while i < stamped.len()
        invariant
            i <= stamped.len(),
            r.len() == i,
            forall|j: int|
                0 <= j < i ==> (#[trigger] r[j])@ == (StampView {
                    id: stamped[j].0@,
                    generated: resolved(sim@, stamped[j].0@),
                }),
        decreases stamped.len() - i,
    {
        let id: String = stamped[i].0.clone();
        let generated: Vec<crate::sim::Entity> = resolve_stamp(sim, id.as_str());
        r.push(StampedBuilding { id, generated });
        i += 1;
    }
    proof {
        assert(stamp_list(r@) =~= UiView::stamps_found(sim@, stamp_views(stamped@)));
    }
    r
}

impl UiState {
    /// Click or drag on the speed slider.
    pub fn set_speed(&mut self, x: Scalar, left: Scalar, width: Scalar)
        ensures
            final(self)@ == old(self)@.speed_set(x, left, width),
    {
        if width.le(scalar(ONE)) {
            return;
        }
        let part: Scalar = x.sub(left).div(width).clamp(scalar(ZERO), scalar(ONE));
        self.sim_speed_log = part.mul(scalar(0x40c0_0000 /* 6 */)).round().clamp(scalar(ZERO), scalar(0x40c0_0000 /* 6 */));
    }

    /// The pointer on the speed slider: a press starts a drag and sets the
    /// speed, a move sets it while dragging, and a release ends the drag.
    pub fn slide_speed(
        &mut self,
        dragging: &mut bool,
        event: SliderEvent,
        x: Scalar,
        left: Scalar,
        width: Scalar,
    )
        ensures
            *final(dragging) == (match event {
                SliderEvent::Press => true,
                SliderEvent::Move => *old(dragging),
                SliderEvent::Release => false,
            }),
            final(self)@ == (if event == SliderEvent::Press || (event == SliderEvent::Move && *old(
                dragging,
            )) {
                old(self)@.speed_set(x, left, width)
            } else {
                old(self)@
            }),
    {
        match event {
            SliderEvent::Press => {
                *dragging = true;
                self.set_speed(x, left, width);
            },
            SliderEvent::Move => {
                if *dragging {
                    self.set_speed(x, left, width);
                }
            },
            SliderEvent::Release => {
                *dragging = false;
            },
        }
    }

    fn start(&mut self, people: &Vec<Personality>)
        requires
            !old(self)@.sim_seeded ==> people.len() == FIRST_PEOPLE && old(self)@.sim.next
                + FIRST_ENTITIES <= u64::MAX,
        ensures
            final(self)@ == old(self)@.started(people@),
    {
        if !self.sim_seeded {
            seed_sim(&mut self.sim, people);
            self.sim_seeded = true;
        }
    }

    fn advance(&mut self, dt: Scalar)
        requires
            old(self)@.sim.can_step(),
            (clock(old(self)@.sim_secs.add_spec(dt)).0 as u8) < old(self)@.sim.hour
                ==> old(self)@.sim.day < u32::MAX,
        ensures
            final(self)@ == old(self)@.advanced(dt),
    {
        self.sim.step(dt);
        self.sim_secs = self.sim_secs.add(dt);
        let (h, m) = clock_hm(self.sim_secs);
        self.sim_hour = h;
        self.sim_min = m;
        self.sim.set_hour(h as u8);
    }

    fn speed_on_mark(&self) -> (r: bool)
        ensures
            r == on_mark(self@.sim_speed_log),
    {
        let log: Scalar = self.sim_speed_log;
        proof {
            lemma_marks(log);
        }
        log.is_nan() || log.same(scalar(ZERO)) || log.same(scalar(0x3f80_0000 /* 1 */)) || log.same(scalar(0x4000_0000 /* 2 */)) || log.same(
            scalar(0x4040_0000 /* 3 */),
        ) || log.same(scalar(0x4080_0000 /* 4 */)) || log.same(scalar(0x40a0_0000 /* 5 */)) || log.same(scalar(0x40c0_0000 /* 6 */))
    }

    /// A frame can run.
    pub fn can_tick(&self, elapsed: Scalar, people: &Vec<Personality>) -> (r: bool)
        ensures
            r == self@.can_tick(elapsed, people@),
    {
        if !self.speed_on_mark() {
            return false;
        }
        if !self.sim_seeded && (people.len() != FIRST_PEOPLE || u64::MAX - self.sim.next
            < FIRST_ENTITIES) {
            return false;
        }
        let speed: Scalar = sim_speed_multiplier(self.sim_speed_log);
        if !scalar(ZERO).lt(speed) {
            return true;
        }
        let ready: bool = if self.sim_seeded {
            self.sim.can_step()
        } else {
            self.sim.routable()
        };
        let dt: Scalar = elapsed.clamp(scalar(ZERO), scalar(MAX_FRAME)).mul(speed);
        let (h, _m) = clock_hm(self.sim_secs.add(dt));
        ready && (h as u8 >= self.sim.hour.0 || self.sim.day.0 < u32::MAX)
    }

    /// Advance the sim by the real seconds since the last frame. The first
    /// frame populates the city, with people of the given personalities. True
    /// while time runs: then another frame is due.
    pub fn tick(&mut self, elapsed: Scalar, people: &Vec<Personality>) -> (r: bool)
        requires
            old(self)@.can_tick(elapsed, people@),
        ensures
            final(self)@ == old(self)@.ticked(elapsed, people@),
            r == old(self)@.is_running(),
    {
        let speed: Scalar = sim_speed_multiplier(self.sim_speed_log);
        let passed: Scalar = elapsed.clamp(scalar(ZERO), scalar(MAX_FRAME));
        proof {
            lemma_seeded(self@.sim, people@);
        }
        self.start(people);
        if !scalar(ZERO).lt(speed) {
            return false;
        }
        self.advance(passed.mul(speed));
        true
    }

    /// The game as a file: snapshot plus city edits.
    pub fn save_file(&self) -> (r: SaveFile)
        ensures
            r@ == self@.saved(),
    {
        let roads: Vec<Vec<Position>> = copied_lines(&self.built_roads);
        let walls: Vec<Wall> = Self::all_walls(&self.built_walls);
        let mut stamped: Vec<(String, ZoneFunction)> = Vec::new();
        let mut i: usize = 0;
        while i < self.sim.buildings.len()
            invariant
                i <= self.sim.buildings.len(),
                stamped.len() == i,
                forall|j: int|
                    0 <= j < i ==> (#[trigger] stamped[j]).0@
                        == self.sim.buildings[j].building.label@ && stamped[j].1
                        == self.sim.buildings[j].building.function,
            decreases self.sim.buildings.len() - i,
        {
            let b = &self.sim.buildings[i].building;
            stamped.push((b.label.clone(), b.function));
            i += 1;
        }
        proof {
            assert(stamp_views(stamped@) =~= self@.saved().stamped);
        }
        self.sim.save_game(roads, walls, stamped)
    }

    /// Report how writing a file went.
    pub fn report_save(&mut self, error: Option<String>)
        ensures
            final(self)@ == old(self)@.save_reported(super::state::text_of(error)),
    {
        match error {
            None => {
                self.last_save_msg = "Saved.".to_owned();
                self.blip(740);
            },
            Some(e) => {
                let mut m: String = String::new();
                push_str(&mut m, "Save failed: ");
                push_str(&mut m, e.as_str());
                proof {
                    assert(m@ =~= "Save failed: "@ + e@);
                }
                self.last_save_msg = m;
            },
        }
    }

    fn apply_file(&mut self, file: &SaveFile, crossed: Vec<bool>)
        requires
            file@.snapshot.population() <= u64::MAX,
        ensures
            final(self)@ == old(self)@.loaded(file@, crossed@),
    {
        proof {
            reveal(UiView::loaded);
        }
        self.sim.load_game(file, LoadStatus::Loaded, crossed);
        self.built_roads = copied_lines(&file.roads);
        self.built_walls = segments_of(&file.walls);
        self.project_points = Vec::new();
        self.current_project = None;
        self.planning_mode = None;
        self.selected_land_use = None;
        self.selected_agent = None;
        self.inspected_building = None;
        self.building_pinned = false;
        self.stamped = find_stamps(&self.sim, &file.stamped);
        let mut m: String = String::new();
        push_str(&mut m, "Loaded day ");
        push_number(&mut m, file.snapshot.day as u64);
        push_str(&mut m, ". Jobs, homes and queues reset.");
        proof {
            assert(m@ =~= "Loaded day "@ + digits(file.snapshot.day as nat)
                + ". Jobs, homes and queues reset."@);
            assert(self.project_points@ =~= Seq::empty());
        }
        self.last_save_msg = m;
        self.blip(880);
    }

    /// Load a game that was read, or report why there is none. Jobs, homes,
    /// queues and claims reset. `crossed` tells which cells the snapshot's
    /// walls cross.
    pub fn do_load(&mut self, file: &SaveFile, status: LoadStatus, crossed: Vec<bool>)
        requires
            status == LoadStatus::Loaded ==> file@.snapshot.population() <= u64::MAX,
        ensures
            final(self)@ == old(self)@.after_load(file@, status, crossed@),
    {
        match status {
            LoadStatus::Loaded => {
                self.apply_file(file, crossed);
            },
            LoadStatus::Missing => {
                self.last_save_msg = "No save yet.".to_owned();
            },
            _ => {
                self.last_save_msg = "Save unreadable; city untouched.".to_owned();
            },
        }
    }
}

/// Wherever the speed slider is clicked, it ends up on a mark.
pub proof fn law_slider_lands_on_a_mark(s: UiView, x: Scalar, left: Scalar, width: Scalar)
    requires
        on_mark(s.sim_speed_log),
    ensures
        on_mark(s.speed_set(x, left, width).sim_speed_log),
{
    if !width.le_spec(scalar(ONE)) {
        let part = slider_part(x, left, width);
        lemma_one();
        if part.is_nan_spec() {
            reveal(Scalar::mul_spec);
            reveal(Scalar::round_spec);
        } else {
            assert(part.in_unit());
            lemma_mark(part);
        }
    }
}

/// A part of the slider times six rounds to a mark.
proof fn lemma_mark(part: Scalar)
    requires
        part.in_unit(),
    ensures
        on_mark(part.mul_spec(scalar(0x40c0_0000 /* 6 */)).round_spec().clamp_spec(scalar(ZERO), scalar(0x40c0_0000 /* 6 */))),
{
    reveal(Scalar::mul_spec);
    reveal(Scalar::round_spec);
    let six = scalar(0x40c0_0000 /* 6 */);
    let u = unit();
    lemma_one();
    lemma_six();
    lemma_unit_finite(part);
    let m = magnitude(part.pattern());
    lemma_nearest_exists(m * (6 * u), u);
    assert(m * (6 * u) * u <= (6 * u) * u * u) by (nonlinear_arith)
        requires
            0 <= m <= u,
    ;
    assert((6 * u) * u == magnitude(0x40c0_0000 as nat) * u);
    lemma_exact(0x40c0_0000 as nat, (6 * u) * u, u);
    assert(m * (6 * u) * u <= ((6 * u) * u) * u) by (nonlinear_arith)
        requires
            m * (6 * u) * u <= (6 * u) * u * u,
    ;
    lemma_nearest_monotone(m * (6 * u), u, (6 * u) * u, u);
    let p = nearest(m * (6 * u), u);
    lemma_magnitude_increases(p, 0x40c0_0000 as nat);
    let prod = part.mul_spec(six);
    let pm = magnitude(prod.pattern());
    assert(pm <= 6 * u);
    let q = (2 * pm + u) / (2 * u);
    assert(q <= 6) by (nonlinear_arith)
        requires
            q == (2 * pm + u) / (2 * u),
            pm <= 6 * u,
            u > 0,
    ;
    let r = prod.round_spec();
    if q > 0 {
        // only a zero part may carry a minus sign
        if part.negative() {
            assert(m * (6 * u) == 0) by (nonlinear_arith)
                requires
                    m == 0,
            ;
            assert(magnitude(0) * u == 0) by (nonlinear_arith)
                requires
                    magnitude(0) == 0,
            ;
            lemma_exact(0, 0, u);
            vstd::arithmetic::div_mod::lemma_basic_div(u as int, 2 * u as int);
        }
        lemma_from_int(q);
        assert(r.num() == q * u);
        assert(q * u <= 6 * u) by (nonlinear_arith)
            requires
                q <= 6,
                u > 0,
        ;
    } else {
        assert(r.num() == 0);
        assert(0 * u == 0);
    }
    assert(r.num() == q as int * u);
    let c = r.clamp_spec(scalar(ZERO), six);
    assert(c.num() == r.num());
}

/// The marks as scalars.
proof fn lemma_marks(log: Scalar)
    ensures
        on_mark(log) <==> log.is_nan_spec() || log.same_spec(scalar(ZERO)) || log.same_spec(scalar(0x3f80_0000 /* 1 */))
            || log.same_spec(scalar(0x4000_0000 /* 2 */)) || log.same_spec(scalar(0x4040_0000 /* 3 */)) || log.same_spec(scalar(0x4080_0000 /* 4 */))
            || log.same_spec(scalar(0x40a0_0000 /* 5 */)) || log.same_spec(scalar(0x40c0_0000 /* 6 */)),
{
    let u = unit();
    lemma_one();
    lemma_six();
    lemma_whole_mark(0x3f80_0000 as nat, 1, 0x80_0000, 126, 23);
    lemma_whole_mark(0x4000_0000 as nat, 2, 0x80_0000, 127, 22);
    lemma_whole_mark(0x4040_0000 as nat, 3, 0xc0_0000, 127, 22);
    lemma_whole_mark(0x4080_0000 as nat, 4, 0x80_0000, 128, 21);
    lemma_whole_mark(0x40a0_0000 as nat, 5, 0xa0_0000, 128, 21);
    assert(0 * u == 0);
    assert(0 * unit() == 0);
    assert(1 * unit() == unit());
    assert(2 * unit() == magnitude(0x4000_0000 as nat));
    assert(3 * unit() == magnitude(0x4040_0000 as nat));
    assert(4 * unit() == magnitude(0x4080_0000 as nat));
    assert(5 * unit() == magnitude(0x40a0_0000 as nat));
    assert(6 * unit() == magnitude(0x40c0_0000 as nat));
    if on_mark(log) && !log.is_nan_spec() {
        let k = choose|k: int| 0 <= k <= 6 && log.num() == #[trigger] (k * unit());
        assert(k == 0 || k == 1 || k == 2 || k == 3 || k == 4 || k == 5 || k == 6);
    }
}

/// A pattern whose magnitude is a whole number of units.
proof fn lemma_whole_mark(p: nat, k: nat, sig: nat, e: nat, shift: nat)
    requires
        p == e * (BINADE as nat) + sig,
        BINADE <= sig < 2 * BINADE,
        e + shift == 149,
        shift == 21 || shift == 22 || shift == 23,
        (shift == 21 ==> sig == k * 0x20_0000) && (shift == 22 ==> sig == k * 0x40_0000) && (shift
            == 23 ==> sig == k * 0x80_0000),
    ensures
        magnitude(p) == k * unit(),
{
    lemma_magnitude_split(e, sig);
    lemma2_to64();
    lemma_pow2_adds(shift, e);
    let w = pow2(e);
    let c = pow2(shift);
    assert((k * c) * w == k * (c * w)) by (nonlinear_arith);
}

proof fn lemma_six()
    ensures
        scalar(0x40c0_0000 /* 6 */).num() == 6 * unit(),
        magnitude(0x40c0_0000 as nat) == 6 * unit(),
        !scalar(0x40c0_0000 /* 6 */).is_nan_spec(),
{
    let e = 128nat;
    let sig = 0xc0_0000nat;
    lemma_magnitude_split(e, sig);
    lemma2_to64();
    lemma_pow2_adds(21, 128);
    assert(0x40c0_0000 as nat == e * (BINADE as nat) + sig);
    assert(sig == 6 * 0x20_0000);
    let w = pow2(128);
    assert((6 * 0x20_0000) * w == 6 * (0x20_0000 * w)) by (nonlinear_arith);
}

/// A load that fails leaves the city and its edits as they were.
pub proof fn law_failed_load_changes_nothing(
    s: UiView,
    file: SaveView,
    status: LoadStatus,
    crossed: Seq<bool>,
)
    requires
        status != LoadStatus::Loaded,
    ensures
        s.after_load(file, status, crossed) == (UiView {
            last_save_msg: s.after_load(file, status, crossed).last_save_msg,
            ..s
        }),
{
}

/// Loading what was saved brings back roads, walls and the city's snapshot.
pub proof fn law_loading_restores_what_was_saved(s: UiView, t: UiView, crossed: Seq<bool>)
    ensures
        ({
            let u = t.after_load(s.saved(), LoadStatus::Loaded, crossed);
            &&& u.built_roads == s.built_roads
            &&& u.built_walls == s.built_walls
            &&& u.sim == s.sim.kept().restored(t.sim.config, crossed)
        }),
{
    reveal(UiView::loaded);
    assert(as_segments(as_walls(s.built_walls)) =~= s.built_walls);
}

} // verus!
