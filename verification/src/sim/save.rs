//! Saved games: the snapshot of a city plus the city edits.

use super::agent::Position;
use super::city::ZoneFunction;
use super::grid::Wall;
use super::snapshot::{road_lines, SimSnapshot, SnapshotView};
use super::world::Sim;
use vstd::prelude::*;

verus! {

/// Save format version. Bump on [`SaveFile`] shape changes. (The inner
/// snapshot has its own version counter.)
pub const SAVE_VERSION: u32 = 1;

/// A saved game: the snapshot plus the authoritative city edits (roads,
/// walls, stamp functions). Links between entities do not survive.
#[derive(Debug, PartialEq)]
pub struct SaveFile {
    pub version: u32,
    pub snapshot: SimSnapshot,
    pub roads: Vec<Vec<Position>>,
    pub walls: Vec<Wall>,
    pub stamped: Vec<(String, ZoneFunction)>,
}

/// Mathematical content of a [`SaveFile`].
pub ghost struct SaveView {
    pub version: u32,
    pub snapshot: SnapshotView,
    pub roads: Seq<Seq<Position>>,
    pub walls: Seq<Wall>,
    pub stamped: Seq<(Seq<char>, ZoneFunction)>,
}

pub open spec fn stamp_views(stamped: Seq<(String, ZoneFunction)>) -> Seq<
    (Seq<char>, ZoneFunction),
> {
    stamped.map_values(|s: (String, ZoneFunction)| (s.0@, s.1))
}

impl View for SaveFile {
    type V = SaveView;

    open spec fn view(&self) -> SaveView {
        SaveView {
            version: self.version,
            snapshot: self.snapshot@,
            roads: road_lines(self.roads@),
            walls: self.walls@,
            stamped: stamp_views(self.stamped@),
        }
    }
}

/// How reading a saved game went.
#[derive(Clone, Copy, Debug, PartialEq, Eq, Structural)]
pub enum LoadStatus {
    Loaded,
    /// There is no saved game.
    Missing,
    /// There is one, but it could not be read.
    Unreadable,
    /// There is one, but what it holds makes no sense.
    Corrupt,
}

impl Sim {
    /// The full game as a file: snapshot plus city edits.
    pub fn save_game(
        &self,
        roads: Vec<Vec<Position>>,
        walls: Vec<Wall>,
        stamped: Vec<(String, ZoneFunction)>,
    ) -> (r: SaveFile)
        ensures
            r@ == (SaveView {
                version: SAVE_VERSION,
                snapshot: self@.kept(),
                roads: road_lines(roads@),
                walls: walls@,
                stamped: stamp_views(stamped@),
            }),
    {
        SaveFile { version: SAVE_VERSION, snapshot: self.snapshot(), roads, walls, stamped }
    }

    /// Load the full game: restores the snapshot where the file was read. The
    /// city is untouched unless the load succeeded. `crossed` tells which
    /// cells the snapshot's walls cross.
    pub fn load_game(&mut self, file: &SaveFile, status: LoadStatus, crossed: Vec<bool>)
        requires
            status == LoadStatus::Loaded ==> file@.snapshot.population() <= u64::MAX,
        ensures
            status == LoadStatus::Loaded ==> final(self)@ == file@.snapshot.restored(
                old(self)@.config,
                crossed@,
            ),
            status != LoadStatus::Loaded ==> *final(self) == *old(self),
    {
        if status == LoadStatus::Loaded {
            self.restore(&file.snapshot, crossed);
        }
    }
}

} // verus!
