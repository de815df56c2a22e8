//! State of the user interface.

use super::labels::{project_id, LandUse};
use crate::scalar::consts::{ONE, ZERO};
use crate::scalar::{scalar, Scalar};
use crate::sim::agent::Position;
use crate::sim::goal::FurnitureKind;
use crate::sim::snapshot::road_lines;
use crate::sim::world::{Sim, SimView};
use crate::sim::Entity;
use crate::text::padded;
use vstd::prelude::*;

verus! {

#[derive(Clone, Copy, Debug, PartialEq, Eq, Structural)]
pub enum UiMode {
    Free,
    Inspection,
    Planning,
}

#[derive(Clone, Copy, Debug, PartialEq, Eq, Structural)]
pub enum PlanningMode {
    Roads,
    Zoning,
    Walls,
    Furniture,
}

#[derive(Clone, Copy, Debug, PartialEq, Eq, Structural)]
pub enum HoverWindow {
    Menu,
    Debug,
    Building,
}

/// Sections of the debug window.
#[derive(Clone, Copy, Debug, PartialEq, Eq, Structural)]
pub enum DebugSection {
    Actions,
    Net,
    Log,
    Sim,
}

/// A wall between two points.
#[derive(Clone, Copy, Debug, PartialEq, Eq, Structural)]
pub struct Segment {
    pub a: Position,
    pub b: Position,
}

/// A stamped building: block id plus the entities that the stamp generated
/// (despawned first on re-stamp). The function lives on the building in the
/// sim; this is the record of ownership.
#[derive(Debug)]
pub struct StampedBuilding {
    pub id: String,
    pub generated: Vec<Entity>,
}

/// Mathematical content of a [`StampedBuilding`].
pub ghost struct StampView {
    pub id: Seq<char>,
    pub generated: Seq<Entity>,
}

impl View for StampedBuilding {
    type V = StampView;

    open spec fn view(&self) -> StampView {
        StampView { id: self.id@, generated: self.generated@ }
    }
}

#[derive(Debug)]
pub struct UiState {
    pub show_menu: bool,
    pub menu_tab: usize,
    pub show_debug: bool,
    pub debug_sec_actions: bool,
    pub debug_sec_net: bool,
    pub debug_sec_log: bool,
    pub debug_sec_sim: bool,
    pub debug_grid_n: i32,
    pub debug_grid_lanes: i32,
    pub debug_grid_spacing: i32,
    pub debug_spawn_tries: i32,
    pub rendering_enabled: bool,
    pub sim_hour: u32,
    pub sim_min: u32,
    /// Slider mark: 0 is paused, else the speed is two to the mark minus one.
    pub sim_speed_log: Scalar,
    pub ui_mode: UiMode,
    pub planning_mode: Option<PlanningMode>,
    pub current_project: Option<String>,
    pub projects: Vec<String>,
    pub project_seq: u32,
    pub has_redo: bool,
    pub selected_land_use: Option<LandUse>,
    pub selected_furniture: Option<FurnitureKind>,
    pub inspected_building: Option<String>,
    pub building_pinned: bool,
    /// Last pick cursor position for window anchoring.
    pub building_anchor: Option<Position>,
    pub hovered_window: Option<HoverWindow>,
    /// The live sim, stepped in the frame loop.
    pub sim: Sim,
    pub sim_seeded: bool,
    pub sim_secs: Scalar,
    /// Ground points of the current planning project.
    pub project_points: Vec<Position>,
    /// Agent selected in the roster for direct orders.
    pub selected_agent: Option<Entity>,
    /// Stamped roads.
    pub built_roads: Vec<Vec<Position>>,
    /// Built walls.
    pub built_walls: Vec<Segment>,
    /// Zoned buildings.
    pub stamped: Vec<StampedBuilding>,
    /// Last save or load message.
    pub last_save_msg: String,
    /// Tones to play, in Hz, oldest first.
    pub blips: Vec<u32>,
}

/// Mathematical content of a [`UiState`].
pub ghost struct UiView {
    pub show_menu: bool,
    pub menu_tab: usize,
    pub show_debug: bool,
    pub debug_sec_actions: bool,
    pub debug_sec_net: bool,
    pub debug_sec_log: bool,
    pub debug_sec_sim: bool,
    pub debug_grid_n: i32,
    pub debug_grid_lanes: i32,
    pub debug_grid_spacing: i32,
    pub debug_spawn_tries: i32,
    pub rendering_enabled: bool,
    pub sim_hour: u32,
    pub sim_min: u32,
    pub sim_speed_log: Scalar,
    pub ui_mode: UiMode,
    pub planning_mode: Option<PlanningMode>,
    pub current_project: Option<Seq<char>>,
    pub projects: Seq<Seq<char>>,
    pub project_seq: u32,
    pub has_redo: bool,
    pub selected_land_use: Option<LandUse>,
    pub selected_furniture: Option<FurnitureKind>,
    pub inspected_building: Option<Seq<char>>,
    pub building_pinned: bool,
    pub building_anchor: Option<Position>,
    pub hovered_window: Option<HoverWindow>,
    pub sim: SimView,
    pub sim_seeded: bool,
    pub sim_secs: Scalar,
    pub project_points: Seq<Position>,
    pub selected_agent: Option<Entity>,
    pub built_roads: Seq<Seq<Position>>,
    pub built_walls: Seq<Segment>,
    pub stamped: Seq<StampView>,
    pub last_save_msg: Seq<char>,
    pub blips: Seq<u32>,
}

pub open spec fn text_of(s: Option<String>) -> Option<Seq<char>> {
    match s {
        Some(t) => Some(t@),
        None => None,
    }
}

pub open spec fn texts(list: Seq<String>) -> Seq<Seq<char>> {
    list.map_values(|s: String| s@)
}

pub open spec fn stamp_list(list: Seq<StampedBuilding>) -> Seq<StampView> {
    list.map_values(|s: StampedBuilding| s@)
}

impl View for UiState {
    type V = UiView;

    open spec fn view(&self) -> UiView {
        UiView {
            show_menu: self.show_menu,
            menu_tab: self.menu_tab,
            show_debug: self.show_debug,
            debug_sec_actions: self.debug_sec_actions,
            debug_sec_net: self.debug_sec_net,
            debug_sec_log: self.debug_sec_log,
            debug_sec_sim: self.debug_sec_sim,
            debug_grid_n: self.debug_grid_n,
            debug_grid_lanes: self.debug_grid_lanes,
            debug_grid_spacing: self.debug_grid_spacing,
            debug_spawn_tries: self.debug_spawn_tries,
            rendering_enabled: self.rendering_enabled,
            sim_hour: self.sim_hour,
            sim_min: self.sim_min,
            sim_speed_log: self.sim_speed_log,
            ui_mode: self.ui_mode,
            planning_mode: self.planning_mode,
            current_project: text_of(self.current_project),
            projects: texts(self.projects@),
            project_seq: self.project_seq,
            has_redo: self.has_redo,
            selected_land_use: self.selected_land_use,
            selected_furniture: self.selected_furniture,
            inspected_building: text_of(self.inspected_building),
            building_pinned: self.building_pinned,
            building_anchor: self.building_anchor,
            hovered_window: self.hovered_window,
            sim: self.sim@,
            sim_seeded: self.sim_seeded,
            sim_secs: self.sim_secs,
            project_points: self.project_points@,
            selected_agent: self.selected_agent,
            built_roads: road_lines(self.built_roads@),
            built_walls: self.built_walls@,
            stamped: stamp_list(self.stamped@),
            last_save_msg: self.last_save_msg@,
            blips: self.blips@,
        }
    }
}

impl UiView {
    /// The first screen: the menu is open, time runs at normal speed.
    pub open spec fn initial() -> UiView {
        UiView {
            show_menu: true,
            menu_tab: 0,
            show_debug: false,
            debug_sec_actions: false,
            debug_sec_net: false,
            debug_sec_log: false,
            debug_sec_sim: false,
            debug_grid_n: 10,
            debug_grid_lanes: 2,
            debug_grid_spacing: 200,
            debug_spawn_tries: 50,
            rendering_enabled: true,
            sim_hour: 0,
            sim_min: 0,
            sim_speed_log: scalar(ONE),
            ui_mode: UiMode::Free,
            planning_mode: None,
            current_project: None,
            projects: Seq::empty(),
            project_seq: 0,
            has_redo: false,
            selected_land_use: None,
            selected_furniture: None,
            inspected_building: None,
            building_pinned: false,
            building_anchor: None,
            hovered_window: None,
            sim: SimView::empty(),
            sim_seeded: false,
            sim_secs: scalar(ZERO),
            project_points: Seq::empty(),
            selected_agent: None,
            built_roads: Seq::empty(),
            built_walls: Seq::empty(),
            stamped: Seq::empty(),
            last_save_msg: Seq::empty(),
            blips: Seq::empty(),
        }
    }

    /// The state with one more tone to play.
    pub open spec fn blipped(self, hz: u32) -> UiView {
        UiView { blips: self.blips.push(hz), ..self }
    }

    /// Place of the current project in the list.
    pub open spec fn is_current(self, i: int) -> bool {
        &&& 0 <= i < self.projects.len()
        &&& self.current_project == Some(self.projects[i])
        &&& forall|j: int|
            0 <= j < i ==> self.current_project != Some(#[trigger] self.projects[j])
    }

    /// The project that follows the current one, the first after the last
    /// and where none is current.
    pub open spec fn is_next_project(self, name: Seq<char>) -> bool {
        if exists|i: int| self.is_current(i) {
            exists|i: int|
                #[trigger] self.is_current(i) && name == self.projects[(i + 1)
                    % self.projects.len() as int]
        } else {
            name == self.projects[0]
        }
    }
}

impl UiState {
    /// The first screen.
    pub fn new() -> (r: UiState)
        ensures
            r@ == UiView::initial(),
    {
        let r = UiState {
            show_menu: true,
            menu_tab: 0,
            show_debug: false,
            debug_sec_actions: false,
            debug_sec_net: false,
            debug_sec_log: false,
            debug_sec_sim: false,
            debug_grid_n: 10,
            debug_grid_lanes: 2,
            debug_grid_spacing: 200,
            debug_spawn_tries: 50,
            rendering_enabled: true,
            sim_hour: 0,
            sim_min: 0,
            sim_speed_log: scalar(ONE),
            ui_mode: UiMode::Free,
            planning_mode: None,
            current_project: None,
            projects: Vec::new(),
            project_seq: 0,
            has_redo: false,
            selected_land_use: None,
            selected_furniture: None,
            inspected_building: None,
            building_pinned: false,
            building_anchor: None,
            hovered_window: None,
            sim: Sim::new(),
            sim_seeded: false,
            sim_secs: scalar(ZERO),
            project_points: Vec::new(),
            selected_agent: None,
            built_roads: Vec::new(),
            built_walls: Vec::new(),
            stamped: Vec::new(),
            last_save_msg: String::new(),
            blips: Vec::new(),
        };
        proof {
            assert(r@.projects =~= Seq::empty());
            assert(r@.project_points =~= Seq::empty());
            assert(r@.built_roads =~= Seq::empty());
            assert(r@.built_walls =~= Seq::empty());
            assert(r@.stamped =~= Seq::empty());
            assert(r@.last_save_msg =~= Seq::empty());
            assert(r@.blips =~= Seq::empty());
        }
        r
    }

    /// Queue a confirm tone.
    pub fn blip(&mut self, hz: u32)
        ensures
            final(self)@ == old(self)@.blipped(hz),
    {
        self.blips.push(hz);
    }

    /// Hand out the queued tones.
    pub fn take_blips(&mut self) -> (r: Vec<u32>)
        ensures
            r@ == old(self)@.blips,
            final(self)@ == (UiView { blips: Seq::empty(), ..old(self)@ }),
    {
        let mut r: Vec<u32> = Vec::new();
        std::mem::swap(&mut r, &mut self.blips);
        proof {
            assert(self.blips@ =~= Seq::empty());
        }
        r
    }

    /// Inspection button: on, or off again.
    pub fn toggle_inspection(&mut self)
        ensures
            final(self)@ == (UiView {
                ui_mode: if old(self)@.ui_mode == UiMode::Inspection {
                    UiMode::Free
                } else {
                    UiMode::Inspection
                },
                ..old(self)@
            }),
    {
        self.ui_mode =
        if self.ui_mode == UiMode::Inspection {
            UiMode::Free
        } else {
            UiMode::Inspection
        };
    }

    /// Planning button: on, or off again.
    pub fn toggle_planning(&mut self)
        ensures
            final(self)@ == (UiView {
                ui_mode: if old(self)@.ui_mode == UiMode::Planning {
                    UiMode::Free
                } else {
                    UiMode::Planning
                },
                ..old(self)@
            }),
    {
        self.ui_mode =
        if self.ui_mode == UiMode::Planning {
            UiMode::Free
        } else {
            UiMode::Planning
        };
    }

    /// Start a new project and open it.
    pub fn start_project(&mut self)
        requires
            old(self)@.project_seq < u32::MAX,
        ensures
            ({
                let n = (old(self)@.project_seq + 1) as u32;
                let id = "prj"@ + padded(n as nat, 3);
                final(self)@ == (UiView {
                    project_seq: n,
                    projects: old(self)@.projects.push(id),
                    current_project: Some(id),
                    planning_mode: None,
                    selected_land_use: None,
                    has_redo: false,
                    ..old(self)@
                }).blipped(520)
            }),
    {
        let ghost before = self@;
        self.project_seq = self.project_seq + 1;
        let id: String = project_id(self.project_seq);
        self.projects.push(id.clone());
        self.current_project = Some(id);
        self.planning_mode = None;
        self.selected_land_use = None;
        self.has_redo = false;
        self.blip(520);
        proof {
            assert(self@.projects =~= before.projects.push(
                "prj"@ + padded((before.project_seq + 1) as nat, 3),
            ));
        }
    }

    fn current_index(&self) -> (r: Option<usize>)
        ensures
            match r {
                Some(i) => self@.is_current(i as int),
                None => forall|i: int| !#[trigger] self@.is_current(i),
            },
    {
        let ghost s = self@;
        if let Some(current) = &self.current_project {
            let mut i: usize = 0;
            while i < self.projects.len()
                invariant
                    s == self@,
                    s.current_project == Some(current@),
                    i <= self.projects.len(),
                    forall|j: int| 0 <= j < i ==> #[trigger] s.projects[j] != current@,
                decreases self.projects.len() - i,
            {
                assert(s.projects[i as int] == self.projects[i as int]@);
                if self.projects[i] == *current {
                    return Some(i);
                }
                i += 1;
            }
        }
        None
    }

    /// Open the next project in the list, where there is one.
    pub fn cycle_project(&mut self)
        ensures
            old(self)@.projects.len() == 0 ==> final(self)@ == old(self)@,
            old(self)@.projects.len() > 0 ==> final(self)@.current_project is Some && old(
                self,
            )@.is_next_project(final(self)@.current_project->0) && final(self)@ == (UiView {
                current_project: final(self)@.current_project,
                ..old(self)@
            }),
    {
        let ghost s = self@;
        if self.projects.len() == 0 {
            return;
        }
        let next: usize = match self.current_index() {
            Some(i) => {
                proof {
                    if i + 1 == self.projects.len() {
                        vstd::arithmetic::div_mod::lemma_mod_self_0((i + 1) as int);
                    } else {
                        vstd::arithmetic::div_mod::lemma_small_mod(
                            (i + 1) as nat,
                            self.projects.len() as nat,
                        );
                    }
                    assert(s.is_current(i as int));
                }
                if i + 1 == self.projects.len() {
                    0
                } else {
                    i + 1
                }
            },
            None => 0,
        };
        assert(s.projects[next as int] == self.projects[next as int]@);
        self.current_project = Some(self.projects[next].clone());
    }

    /// Click on an agent in the roster: select it, or deselect it again.
    pub fn toggle_agent(&mut self, e: Entity)
        ensures
            final(self)@ == (UiView {
                selected_agent: if old(self)@.selected_agent == Some(e) {
                    None
                } else {
                    Some(e)
                },
                ..old(self)@
            }).blipped(520),
    {
        let same: bool = match self.selected_agent {
            Some(s) => s == e,
            None => false,
        };
        self.selected_agent =
        if same {
            None
        } else {
            Some(e)
        };
        self.blip(520);
    }

    /// Undo button; it works while a project is open.
    pub fn undo(&mut self) -> (r: bool)
        ensures
            r == (old(self)@.current_project is Some),
            final(self)@ == (if r {
                UiView { has_redo: true, ..old(self)@ }
            } else {
                old(self)@
            }),
    {
        if self.current_project.is_some() {
            self.has_redo = true;
            return true;
        }
        false
    }

    /// Redo button; it works after an undo.
    pub fn redo(&mut self) -> (r: bool)
        ensures
            r == old(self)@.has_redo,
            final(self)@ == (UiView { has_redo: false, ..old(self)@ }),
    {
        if self.has_redo {
            self.has_redo = false;
            return true;
        }
        false
    }

    /// Choose what to plan. Zoning starts without a land use; furniture
    /// starts with a fridge.
    pub fn plan(&mut self, mode: PlanningMode)
        ensures
            final(self)@ == (UiView {
                planning_mode: Some(mode),
                selected_land_use: if mode == PlanningMode::Zoning {
                    None
                } else {
                    old(self)@.selected_land_use
                },
                selected_furniture: if mode == PlanningMode::Furniture && old(
                    self,
                )@.selected_furniture is None {
                    Some(FurnitureKind::Fridge)
                } else {
                    old(self)@.selected_furniture
                },
                ..old(self)@
            }),
    {
        self.planning_mode = Some(mode);
        if mode == PlanningMode::Zoning {
            self.selected_land_use = None;
        }
        if mode == PlanningMode::Furniture && self.selected_furniture.is_none() {
            self.selected_furniture = Some(FurnitureKind::Fridge);
        }
    }

    /// The pointer entered a window.
    pub fn enter_window(&mut self, target: HoverWindow)
        ensures
            final(self)@ == (UiView { hovered_window: Some(target), ..old(self)@ }),
    {
        self.hovered_window = Some(target);
    }

    /// The pointer left a window.
    pub fn leave_window(&mut self, target: HoverWindow)
        ensures
            final(self)@ == (UiView {
                hovered_window: if old(self)@.hovered_window == Some(target) {
                    None
                } else {
                    old(self)@.hovered_window
                },
                ..old(self)@
            }),
    {
        if let Some(w) = self.hovered_window {
            if w == target {
                self.hovered_window = None;
            }
        }
    }

    /// Close button of a window.
    pub fn close_window(&mut self, target: HoverWindow)
        ensures
            final(self)@ == (match target {
                HoverWindow::Menu => UiView { show_menu: false, ..old(self)@ },
                HoverWindow::Debug => UiView { show_debug: false, ..old(self)@ },
                HoverWindow::Building => UiView {
                    inspected_building: None,
                    building_pinned: false,
                    ..old(self)@
                },
            }),
    {
        match target {
            HoverWindow::Menu => {
                self.show_menu = false;
            },
            HoverWindow::Debug => {
                self.show_debug = false;
            },
            HoverWindow::Building => {
                self.inspected_building = None;
                self.building_pinned = false;
            },
        }
    }

    /// Open or close a section of the debug window.
    pub fn toggle_section(&mut self, section: DebugSection)
        ensures
            final(self)@ == (match section {
                DebugSection::Actions => UiView {
                    debug_sec_actions: !old(self)@.debug_sec_actions,
                    ..old(self)@
                },
                DebugSection::Net => UiView {
                    debug_sec_net: !old(self)@.debug_sec_net,
                    ..old(self)@
                },
                DebugSection::Log => UiView {
                    debug_sec_log: !old(self)@.debug_sec_log,
                    ..old(self)@
                },
                DebugSection::Sim => UiView {
                    debug_sec_sim: !old(self)@.debug_sec_sim,
                    ..old(self)@
                },
            }),
    {
        match section {
            DebugSection::Actions => {
                self.debug_sec_actions = !self.debug_sec_actions;
            },
            DebugSection::Net => {
                self.debug_sec_net = !self.debug_sec_net;
            },
            DebugSection::Log => {
                self.debug_sec_log = !self.debug_sec_log;
            },
            DebugSection::Sim => {
                self.debug_sec_sim = !self.debug_sec_sim;
            },
        }
    }
}

impl Default for UiState {
    fn default() -> (r: UiState)
        ensures
            r@ == UiView::initial(),
    {
        UiState::new()
    }
}

} // verus!
