//! Texts and lists for panels and windows.

use super::labels::{
    doing_text, doing_word, head, percent, push_percent, roster_text, roster_word,
    short_project_name, uppercase_text, zone_name, zone_word,
};
use super::state::{PlanningMode, UiMode, UiState, UiView};
use crate::scalar::consts::{ONE, TWO, ZERO};
use crate::scalar::decimal::push_fixed;
use crate::scalar::{scalar, Scalar};
use crate::scene::{block_by_id, find_block, same_text, skyline, BlockDef, BlockView};
use crate::sim::agent::{Agent, AgentView, Position};
use crate::sim::city::ZoneFunction;
use crate::sim::world::{BuildingRowView, DwellingRow, Sim, SimView};
use crate::sim::Entity;
use crate::text::{digits, push_number, push_str, push_wide};
use vstd::prelude::*;

verus! {

/// Most agents listed in a building window.
pub const MAX_LISTED: usize = 6;

/// Sum of the mean need levels of the first `k` agents.
pub open spec fn mood_sum(agents: Seq<AgentView>, k: int) -> Scalar
    decreases k,
{
    if k <= 0 {
        scalar(ZERO)
    } else {
        mood_sum(agents, k - 1).add_spec(agents[k - 1].needs.mean_spec())
    }
}

/// Average need level of all agents; an empty city is happy.
pub open spec fn mood(agents: Seq<AgentView>) -> Scalar {
    if agents.len() == 0 {
        scalar(ONE)
    } else {
        mood_sum(agents, agents.len() as int).div_spec(Scalar::from_int_spec(agents.len() as int))
    }
}

/// City stats for the time panel: population and average need level (0..=1)
/// across all agents.
pub fn city_stats(sim: &Sim) -> (r: (usize, Scalar))
    requires
        sim@.agents.len() <= i64::MAX,
    ensures
        r.0 == sim@.agents.len(),
        r.1 == mood(sim@.agents),
{
    let ghost agents = sim@.agents;
    let n: usize = sim.agents.len();
    if n == 0 {
        return (0, scalar(ONE));
    }
    let mut sum: Scalar = scalar(ZERO);
    let mut k: usize = 0;
    while k < n
        invariant
            agents == sim@.agents,
            n == sim.agents.len(),
            k <= n,
            sum == mood_sum(agents, k as int),
        decreases n - k,
    {
        assert(agents[k as int] == sim.agents[k as int]@);
        sum = sum.add(sim.agents[k].needs.mean());
        k += 1;
    }
    (n, sum.div(Scalar::from_int(n as i64)))
}

/// An agent chip in the bottom bar.
#[derive(Debug)]
pub struct RosterEntry {
    pub id: Entity,
    pub label: String,
    pub selected: bool,
}

/// Mathematical content of a [`RosterEntry`].
pub ghost struct RosterView {
    pub id: Entity,
    pub label: Seq<char>,
    pub selected: bool,
}

impl View for RosterEntry {
    type V = RosterView;

    open spec fn view(&self) -> RosterView {
        RosterView { id: self.id, label: self.label@, selected: self.selected }
    }
}

/// Chip of the `i`th agent: number and state word.
pub open spec fn chip(a: AgentView, i: int, selected: Option<Entity>) -> RosterView {
    RosterView {
        id: a.id,
        label: "A"@ + digits((i + 1) as nat) + "·"@ + roster_word(a.state),
        selected: selected == Some(a.id),
    }
}

/// A line of a building window: who, and what they are doing.
#[derive(Debug)]
pub struct BodyRow {
    pub name: String,
    pub doing: String,
}

pub ghost struct BodyRowView {
    pub name: Seq<char>,
    pub doing: Seq<char>,
}

impl View for BodyRow {
    type V = BodyRowView;

    open spec fn view(&self) -> BodyRowView {
        BodyRowView { name: self.name@, doing: self.doing@ }
    }
}

/// Texts of a building window.
#[derive(Debug)]
pub struct BuildingBody {
    pub title: String,
    pub zoning: String,
    /// City-wide beds, where there are any.
    pub beds: Option<String>,
    pub inside: String,
    pub rows: Vec<BodyRow>,
}

/// Mathematical content of a [`BuildingBody`].
pub ghost struct BodyView {
    pub title: Seq<char>,
    pub zoning: Seq<char>,
    pub beds: Option<Seq<char>>,
    pub inside: Seq<char>,
    pub rows: Seq<BodyRowView>,
}

impl View for BuildingBody {
    type V = BodyView;

    open spec fn view(&self) -> BodyView {
        BodyView {
            title: self.title@,
            zoning: self.zoning@,
            beds: match self.beds {
                Some(s) => Some(s@),
                None => None,
            },
            inside: self.inside@,
            rows: self.rows@.map_values(|r: BodyRow| r@),
        }
    }
}

/// Title of a building window: the size of its block.
pub open spec fn body_title(id: Seq<char>) -> Seq<char> {
    match find_block(id, 0) {
        Some(i) => {
            let b = skyline()[i];
            "Block "@ + b.w.fixed(false, false) + "×"@ + b.d.fixed(false, false) + ", "@
                + b.h.fixed(false, false) + " high"@
        },
        None => "Unknown block"@,
    }
}

/// Place of the first building with a label, from place `i` on.
pub open spec fn find_label(buildings: Seq<BuildingRowView>, id: Seq<char>, i: int) -> Option<int>
    decreases buildings.len() - i,
{
    if i < 0 || i >= buildings.len() {
        None
    } else if buildings[i].building.label == id {
        Some(i)
    } else {
        find_label(buildings, id, i + 1)
    }
}

/// What the capacity of a building counts.
pub open spec fn capacity_word(f: ZoneFunction) -> Seq<char> {
    match f {
        ZoneFunction::Residential => "homes"@,
        ZoneFunction::Commercial => "jobs"@,
        ZoneFunction::Industrial => "jobs"@,
        _ => "sites"@,
    }
}

/// Zoning line of a building window.
pub open spec fn body_zoning(s: SimView, id: Seq<char>) -> Seq<char> {
    match find_label(s.buildings, id, 0) {
        Some(i) => {
            let b = s.buildings[i].building;
            zone_word(b.function) + " · "@ + percent(b.development) + " grown · "@ + digits(
                b.capacity as nat,
            ) + " "@ + capacity_word(b.function)
        },
        None => "Unzoned — stamp a zone, then Implement"@,
    }
}

/// Beds taken in the first `k` homes.
pub open spec fn beds_taken(rows: Seq<DwellingRow>, k: int) -> nat
    decreases k,
{
    if k <= 0 {
        0
    } else {
        beds_taken(rows, k - 1) + rows[k - 1].dwelling.taken as nat
    }
}

/// Beds in the first `k` homes.
pub open spec fn beds_there(rows: Seq<DwellingRow>, k: int) -> nat
    decreases k,
{
    if k <= 0 {
        0
    } else {
        beds_there(rows, k - 1) + rows[k - 1].dwelling.capacity as nat
    }
}

/// Line on the beds of the whole city, where there are any.
pub open spec fn body_beds(s: SimView) -> Option<Seq<char>> {
    let n = s.dwellings.len() as int;
    if beds_there(s.dwellings, n) > 0 {
        Some(
            "Beds "@ + digits(beds_taken(s.dwellings, n)) + "/"@ + digits(
                beds_there(s.dwellings, n),
            ) + " taken city-wide"@,
        )
    } else {
        None
    }
}

/// The agent stands in the footprint of a block.
pub open spec fn is_inside(a: AgentView, b: BlockView) -> bool {
    a.pos.x.sub_spec(b.cx).abs_spec().le_spec(b.w.div_spec(scalar(TWO))) && a.pos.z.sub_spec(
        b.cz,
    ).abs_spec().le_spec(b.d.div_spec(scalar(TWO)))
}

/// The first `k` agents that stand in a block.
pub open spec fn insiders(agents: Seq<AgentView>, b: BlockView, k: int) -> Seq<AgentView>
    decreases k,
{
    if k <= 0 {
        Seq::empty()
    } else if is_inside(agents[k - 1], b) {
        insiders(agents, b, k - 1).push(agents[k - 1])
    } else {
        insiders(agents, b, k - 1)
    }
}

/// The agents in the block with an id; nobody where there is no such block.
pub open spec fn people_in(s: SimView, id: Seq<char>) -> Seq<AgentView> {
    match find_block(id, 0) {
        Some(i) => insiders(s.agents, skyline()[i], s.agents.len() as int),
        None => Seq::empty(),
    }
}

/// How many agents are inside.
pub open spec fn inside_line(n: nat) -> Seq<char> {
    if n == 0 {
        "No agents inside."@
    } else if n == 1 {
        digits(n) + " agent"@ + ""@ + " inside:"@
    } else {
        digits(n) + " agent"@ + "s"@ + " inside:"@
    }
}

/// Line of the `i`th agent inside.
pub open spec fn body_row(a: AgentView, i: int) -> BodyRowView {
    BodyRowView {
        name: "Agent "@ + digits(i as nat),
        doing: doing_word(a.state) + " • needs "@ + percent(a.needs.lowest_spec()),
    }
}

/// Lines of the agents inside, as many as are listed.
pub open spec fn body_rows(people: Seq<AgentView>) -> Seq<BodyRowView> {
    Seq::new(
        if people.len() < MAX_LISTED {
            people.len()
        } else {
            MAX_LISTED as nat
        },
        |i: int| body_row(people[i], i),
    )
}

/// Texts of the window of a building.
pub open spec fn body_of(s: SimView, id: Seq<char>) -> BodyView {
    BodyView {
        title: body_title(id),
        zoning: body_zoning(s, id),
        beds: body_beds(s),
        inside: inside_line(people_in(s, id).len()),
        rows: body_rows(people_in(s, id)),
    }
}

fn title_text(id: &str) -> (r: String)
    ensures
        r@ == body_title(id@),
{
    match block_by_id(id) {
        Some(b) => {
            let mut r: String = String::new();
            push_str(&mut r, "Block ");
            push_fixed(&mut r, b.w, false, false);
            push_str(&mut r, "×");
            push_fixed(&mut r, b.d, false, false);
            push_str(&mut r, ", ");
            push_fixed(&mut r, b.h, false, false);
            push_str(&mut r, " high");
            proof {
                assert(r@ =~= body_title(id@));
            }
            r
        },
        None => "Unknown block".to_owned(),
    }
}

fn capacity_text(f: ZoneFunction) -> (r: &'static str)
    ensures
        r@ == capacity_word(f),
{
    match f {
        ZoneFunction::Residential => "homes",
        ZoneFunction::Commercial | ZoneFunction::Industrial => "jobs",
        _ => "sites",
    }
}

fn zoning_text(sim: &Sim, id: &str) -> (r: String)
    ensures
        r@ == body_zoning(sim@, id@),
{
    let ghost rows = sim@.buildings;
    let mut i: usize = 0;
    while i < sim.buildings.len()
        invariant
            rows == sim@.buildings,
            i <= sim.buildings.len(),
            find_label(rows, id@, i as int) == find_label(rows, id@, 0),
        decreases sim.buildings.len() - i,
    {
        let b = &sim.buildings[i].building;
        assert(rows[i as int].building == b@);
        if same_text(b.label.as_str(), id) {
            let mut r: String = String::new();
            push_str(&mut r, zone_name(b.function));
            push_str(&mut r, " · ");
            push_percent(&mut r, b.development);
            push_str(&mut r, " grown · ");
            push_number(&mut r, b.capacity as u64);
            push_str(&mut r, " ");
            push_str(&mut r, capacity_text(b.function));
            proof {
                assert(r@ =~= body_zoning(sim@, id@));
            }
            return r;
        }
        i += 1;
    }
    "Unzoned — stamp a zone, then Implement".to_owned()
}

fn beds_text(sim: &Sim) -> (r: Option<String>)
    ensures
        match r {
            Some(s) => body_beds(sim@) == Some(s@),
            None => body_beds(sim@) is None,
        },
{
    let ghost rows = sim@.dwellings;
    let mut taken: u128 = 0;
    let mut beds: u128 = 0;
    let mut k: usize = 0;
    while k < sim.dwellings.len()
        invariant
            rows == sim@.dwellings,
            k <= sim.dwellings.len(),
            taken == beds_taken(rows, k as int),
            beds == beds_there(rows, k as int),
            taken <= k * 0xffff_ffff,
            beds <= k * 0xffff_ffff,
        decreases sim.dwellings.len() - k,
    {
        taken = taken + sim.dwellings[k].dwelling.taken as u128;
        beds = beds + sim.dwellings[k].dwelling.capacity as u128;
        k += 1;
    }
    if beds == 0 {
        return None;
    }
    let mut r: String = String::new();
    push_str(&mut r, "Beds ");
    push_wide(&mut r, taken);
    push_str(&mut r, "/");
    push_wide(&mut r, beds);
    push_str(&mut r, " taken city-wide");
    proof {
        assert(r@ =~= body_beds(sim@)->0);
    }
    Some(r)
}

fn row_text(a: &Agent, i: usize) -> (r: BodyRow)
    ensures
        r@ == body_row(a@, i as int),
{
    let mut name: String = String::new();
    push_str(&mut name, "Agent ");
    push_number(&mut name, i as u64);
    let mut doing: String = String::new();
    push_str(&mut doing, doing_text(a.state));
    push_str(&mut doing, " • needs ");
    push_percent(&mut doing, a.needs.lowest());
    proof {
        assert(name@ =~= "Agent "@ + digits(i as nat));
        assert(doing@ =~= doing_word(a.state) + " • needs "@ + percent(a.needs.lowest_spec()));
    }
    BodyRow { name, doing }
}

/// Lines of the agents in a block, and how many there are.
fn list_inside(sim: &Sim, b: &BlockDef) -> (r: (Vec<BodyRow>, usize))
    ensures
        ({
            let people = insiders(sim@.agents, b@, sim@.agents.len() as int);
            r.1 == people.len() && r.0@.map_values(|x: BodyRow| x@) == body_rows(people)
        }),
{
    let ghost agents = sim@.agents;
    let mut rows: Vec<BodyRow> = Vec::new();
    let mut count: usize = 0;
    let mut k: usize = 0;
    let half_w: Scalar = b.w.div(scalar(TWO));
    let half_d: Scalar = b.d.div(scalar(TWO));
    proof {
        assert(rows@.map_values(|x: BodyRow| x@) =~= body_rows(insiders(agents, b@, 0)));
    }
    while k < sim.agents.len()
        invariant
            agents == sim@.agents,
            half_w == b.w.div_spec(scalar(TWO)),
            half_d == b.d.div_spec(scalar(TWO)),
            k <= sim.agents.len(),
            count <= k,
            count == insiders(agents, b@, k as int).len(),
            rows@.map_values(|x: BodyRow| x@) == body_rows(insiders(agents, b@, k as int)),
        decreases sim.agents.len() - k,
    {
        let a: &Agent = &sim.agents[k];
        assert(agents[k as int] == a@);
        if a.pos.x.sub(b.cx).abs().le(half_w) && a.pos.z.sub(b.cz).abs().le(half_d) {
            let ghost before = rows@;
            let ghost people = insiders(agents, b@, k as int);
            assert(before.map_values(|x: BodyRow| x@).len() == before.len());
            if count < MAX_LISTED {
                rows.push(row_text(a, count));
                proof {
                    assert(rows@.map_values(|x: BodyRow| x@) =~= before.map_values(
                        |x: BodyRow| x@,
                    ).push(body_row(a@, count as int)));
                }
            }
            proof {
                assert(rows@.map_values(|x: BodyRow| x@) =~= body_rows(people.push(a@)));
            }
            count += 1;
        }
        k += 1;
    }
    (rows, count)
}

fn inside_text(n: usize) -> (r: String)
    ensures
        r@ == inside_line(n as nat),
{
    if n == 0 {
        return "No agents inside.".to_owned();
    }
    let mut r: String = String::new();
    push_number(&mut r, n as u64);
    push_str(&mut r, " agent");
    push_str(
        &mut r,
        if n == 1 {
            ""
        } else {
            "s"
        },
    );
    push_str(&mut r, " inside:");
    proof {
        assert(r@ =~= inside_line(n as nat));
    }
    r
}

/// Live building body: block dimensions, zoning, and the agents currently
/// inside its footprint.
pub fn building_body(sim: &Sim, id: &str) -> (r: BuildingBody)
    ensures
        r@ == body_of(sim@, id@),
{
    let (rows, n): (Vec<BodyRow>, usize) = match block_by_id(id) {
        Some(b) => list_inside(sim, &b),
        None => {
            let none: Vec<BodyRow> = Vec::new();
            proof {
                assert(none@.map_values(|x: BodyRow| x@) =~= body_rows(Seq::empty()));
            }
            (none, 0)
        },
    };
    BuildingBody {
        title: title_text(id),
        zoning: zoning_text(sim, id),
        beds: beds_text(sim),
        inside: inside_text(n),
        rows,
    }
}

/// A part of the bottom toolbar.
#[derive(Clone, Copy, Debug, PartialEq, Eq, Structural)]
pub enum ToolbarItem {
    MainMode,
    Roster,
    ProjectSelect,
    Implement,
    History,
    PlanningModes,
    LandUses,
    Furniture,
    StartProject,
    Spacer,
    Hint,
    Menu,
}

impl UiView {
    /// Tools of the planning mode: those of the open project, or a way to
    /// open one.
    pub open spec fn planning_tools(self) -> Seq<ToolbarItem> {
        if self.ui_mode != UiMode::Planning {
            Seq::empty()
        } else if self.current_project is Some {
            seq![
                ToolbarItem::ProjectSelect,
                ToolbarItem::Implement,
                ToolbarItem::History,
                ToolbarItem::PlanningModes,
            ] + if self.planning_mode == Some(PlanningMode::Zoning) {
                seq![ToolbarItem::LandUses]
            } else if self.planning_mode == Some(PlanningMode::Furniture) {
                seq![ToolbarItem::Furniture]
            } else {
                Seq::empty()
            }
        } else if self.projects.len() == 0 {
            seq![ToolbarItem::StartProject]
        } else {
            seq![ToolbarItem::ProjectSelect]
        }
    }

    /// The bottom toolbar, from left to right.
    pub open spec fn toolbar(self) -> Seq<ToolbarItem> {
        seq![ToolbarItem::MainMode, ToolbarItem::Roster] + self.planning_tools() + seq![
            ToolbarItem::Spacer,
        ] + (if self.selected_agent is Some && self.ui_mode != UiMode::Planning {
            seq![ToolbarItem::Hint]
        } else {
            Seq::empty()
        }) + seq![ToolbarItem::Menu]
    }

    /// Label of the project selector.
    pub open spec fn project_label(self) -> Seq<char> {
        match self.current_project {
            Some(id) => if id.len() == 0 {
                "Open a project"@
            } else {
                "Project '"@ + uppercase_text(head(id, 3)) + "'"@
            },
            None => "Open a project"@,
        }
    }

    /// Upper left corner of the building window: above the pick, inside the
    /// screen; a fixed corner without a pick yet.
    pub open spec fn window_corner(self) -> Position {
        let anchor = match self.building_anchor {
            Some(p) => p,
            None => Position { x: scalar(0x4308_0000 /* 136 */), z: scalar(0x43c4_0000 /* 392 */) },
        };
        Position {
            x: anchor.x.sub_spec(scalar(0x42f0_0000 /* 120 */)).max_spec(scalar(0x4100_0000 /* 8 */)),
            z: anchor.z.sub_spec(scalar(0x4394_0000 /* 296 */)).sub_spec(scalar(0x4180_0000 /* 16 */)).max_spec(scalar(0x4290_0000 /* 72 */)),
        }
    }
}

/// Where the debug window spawns the agent after `n` others.
pub open spec fn spawn_coordinate(n: nat, stride: nat) -> Scalar {
    Scalar::from_int_spec(((n * stride) % 80) as int).sub_spec(scalar(0x4220_0000 /* 40 */))
}

fn scatter(n: usize, stride: usize) -> (r: Scalar)
    requires
        stride <= 100,
    ensures
        r == spawn_coordinate(n as nat, stride as nat),
{
    let m: usize = n % 80;
    proof {
        assert(m * stride <= 79 * 100) by (nonlinear_arith)
            requires
                m <= 79,
                stride <= 100,
        ;
        vstd::arithmetic::div_mod::lemma_mul_mod_noop_left(n as int, stride as int, 80);
    }
    let k: usize = (m * stride) % 80;
    Scalar::from_int(k as i64).sub(scalar(0x4220_0000 /* 40 */))
}

/// Where the debug window spawns the next agent.
pub fn spawn_spot(n: usize) -> (r: Position)
    ensures
        r.x == spawn_coordinate(n as nat, 37),
        r.z == spawn_coordinate(n as nat, 53),
{
    Position { x: scatter(n, 37), z: scatter(n, 53) }
}

impl UiState {
    /// Agent chips in the bottom bar.
    pub fn roster(&self) -> (r: Vec<RosterEntry>)
        ensures
            r@.map_values(|e: RosterEntry| e@) == Seq::new(
                self@.sim.agents.len(),
                |i: int| chip(self@.sim.agents[i], i, self@.selected_agent),
            ),
    {
        let ghost agents = self@.sim.agents;
        let mut r: Vec<RosterEntry> = Vec::new();
        let mut i: usize = 0;
        while i < self.sim.agents.len()
            invariant
                agents == self@.sim.agents,
                i <= self.sim.agents.len(),
                r.len() == i,
                forall|j: int|
                    0 <= j < i ==> (#[trigger] r[j])@ == chip(agents[j], j, self.selected_agent),
            decreases self.sim.agents.len() - i,
        {
            let a: &Agent = &self.sim.agents[i];
            assert(agents[i as int] == a@);
            let mut label: String = String::new();
            push_str(&mut label, "A");
            push_wide(&mut label, i as u128 + 1);
            push_str(&mut label, "·");
            push_str(&mut label, roster_text(a.state));
            proof {
                assert(label@ =~= "A"@ + digits((i + 1) as nat) + "·"@ + roster_word(a.state));
            }
            let selected: bool = match self.selected_agent {
                Some(e) => e == a.id,
                None => false,
            };
            r.push(RosterEntry { id: a.id, label, selected });
            i += 1;
        }
        proof {
            assert(r@.map_values(|e: RosterEntry| e@) =~= Seq::new(
                self@.sim.agents.len(),
                |i: int| chip(self@.sim.agents[i], i, self@.selected_agent),
            ));
        }
        r
    }

    /// What stands in the bottom toolbar.
    pub fn toolbar(&self) -> (r: Vec<ToolbarItem>)
        ensures
            r@ == self@.toolbar(),
    {
        let planning: bool = self.ui_mode == UiMode::Planning;
        let mut r: Vec<ToolbarItem> = Vec::new();
        r.push(ToolbarItem::MainMode);
        r.push(ToolbarItem::Roster);
        if planning {
            if self.current_project.is_some() {
                r.push(ToolbarItem::ProjectSelect);
                r.push(ToolbarItem::Implement);
                r.push(ToolbarItem::History);
                r.push(ToolbarItem::PlanningModes);
                match self.planning_mode {
                    Some(PlanningMode::Zoning) => {
                        r.push(ToolbarItem::LandUses);
                    },
                    Some(PlanningMode::Furniture) => {
                        r.push(ToolbarItem::Furniture);
                    },
                    _ => {},
                }
            } else if self.projects.len() == 0 {
                r.push(ToolbarItem::StartProject);
            } else {
                r.push(ToolbarItem::ProjectSelect);
            }
        }
        proof {
            assert(r@ =~= seq![ToolbarItem::MainMode, ToolbarItem::Roster]
                + self@.planning_tools());
        }
        let ghost left = r@;
        r.push(ToolbarItem::Spacer);
        if self.selected_agent.is_some() && !planning {
            r.push(ToolbarItem::Hint);
        }
        r.push(ToolbarItem::Menu);
        proof {
            assert(r@ =~= self@.toolbar());
        }
        r
    }

    /// Label of the project selector.
    pub fn project_label(&self) -> (r: String)
        ensures
            r@ == self@.project_label(),
    {
        match &self.current_project {
            Some(id) => if id.as_str().unicode_len() == 0 {
                "Open a project".to_owned()
            } else {
                short_project_name(id.as_str())
            },
            None => "Open a project".to_owned(),
        }
    }

    /// Upper left corner of the building window.
    pub fn window_corner(&self) -> (r: Position)
        ensures
            r == self@.window_corner(),
    {
        let anchor: Position = match self.building_anchor {
            Some(p) => p,
            None => Position { x: scalar(0x4308_0000 /* 136 */), z: scalar(0x43c4_0000 /* 392 */) },
        };
        Position {
            x: anchor.x.sub(scalar(0x42f0_0000 /* 120 */)).max(scalar(0x4100_0000 /* 8 */)),
            z: anchor.z.sub(scalar(0x4394_0000 /* 296 */)).sub(scalar(0x4180_0000 /* 16 */)).max(scalar(0x4290_0000 /* 72 */)),
        }
    }

    /// The building window shows while something is inspected.
    pub fn shows_building(&self) -> (r: bool)
        ensures
            r == (self@.ui_mode == UiMode::Inspection && self@.inspected_building is Some),
    {
        self.ui_mode == UiMode::Inspection && self.inspected_building.is_some()
    }

    /// The inspection hint shows while nothing is inspected.
    pub fn shows_hint(&self) -> (r: bool)
        ensures
            r == (self@.ui_mode == UiMode::Inspection && self@.inspected_building is None),
    {
        self.ui_mode == UiMode::Inspection && self.inspected_building.is_none()
    }

    /// Population and sim time for the debug window.
    pub fn stats_line(&self) -> (r: String)
        ensures
            r@ == "agents: "@ + digits(self@.sim.agents.len()) + "   sim time: "@
                + self@.sim_secs.fixed(true, false) + "s"@,
    {
        let mut r: String = String::new();
        push_str(&mut r, "agents: ");
        push_number(&mut r, self.sim.agents.len() as u64);
        push_str(&mut r, "   sim time: ");
        push_fixed(&mut r, self.sim_secs, true, false);
        push_str(&mut r, "s");
        proof {
            assert(r@ =~= "agents: "@ + digits(self@.sim.agents.len()) + "   sim time: "@
                + self@.sim_secs.fixed(true, false) + "s"@);
        }
        r
    }

    /// Size of the draft for the debug window.
    pub fn points_line(&self) -> (r: String)
        ensures
            r@ == "planning points: "@ + digits(self@.project_points.len()),
    {
        let mut r: String = String::new();
        push_str(&mut r, "planning points: ");
        push_number(&mut r, self.project_points.len() as u64);
        proof {
            assert(r@ =~= "planning points: "@ + digits(self@.project_points.len()));
        }
        r
    }

    /// Filled part of the speed slider, from 0 to 1.
    pub fn slider_fill(&self) -> (r: Scalar)
        ensures
            r == self@.sim_speed_log.div_spec(scalar(0x40c0_0000 /* 6 */)).clamp_spec(scalar(ZERO), scalar(ONE)),
    {
        self.sim_speed_log.div(scalar(0x40c0_0000 /* 6 */)).clamp(scalar(ZERO), scalar(ONE))
    }
}

} // verus!
