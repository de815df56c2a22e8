//! Stamping zone functions onto blocks.

use super::direct::{
    dwelling_spots, goal_spots, in_click_radius, list_dwellings, list_goals, list_workplaces,
    workplace_spots, Spot, USE_RADIUS,
};
use super::state::{stamp_list, StampView, StampedBuilding};
use crate::scalar::consts::{SEVEN_TENTHS, TWO};
use crate::scalar::{scalar, Scalar};
use crate::scene::{
    block_by_id, block_views, blocks, find_block, same_text, skyline, BlockDef, BlockView,
};
use crate::sim::agent::{NeedKind, Position};
use crate::sim::city::{capacity_of, BuildingView, Dwelling, Workplace, ZoneFunction};
use crate::sim::goal::{DEFAULT_AD_AMOUNT, DEFAULT_ATTENUATION};
use crate::sim::systems::walk::{dist2, distance2};
use crate::sim::world::{building_views, Sim, SimView};
use crate::sim::Entity;
use vstd::prelude::*;

verus! {

/// Most entities that stamping one block generates.
pub const STAMP_SIZE: u64 = 3;

/// The edge from `b` to `a` crosses the ray that runs right from `p`.
pub open spec fn crosses(p: Position, a: Position, b: Position) -> bool {
    &&& p.z.lt_spec(a.z) != p.z.lt_spec(b.z)
    &&& p.x.lt_spec(
        a.x.add_spec(
            p.z.sub_spec(a.z).mul_spec(b.x.sub_spec(a.x)).div_spec(b.z.sub_spec(a.z)),
        ),
    )
}

/// The ray crosses an odd number of the first `k` edges; edge `i` ends in
/// corner `i`.
pub open spec fn odd_crossings(p: Position, poly: Seq<Position>, k: int) -> bool
    decreases k,
{
    if k <= 0 {
        false
    } else {
        let i = k - 1;
        let before = if i == 0 {
            poly.len() - 1
        } else {
            i - 1
        };
        odd_crossings(p, poly, k - 1) != crosses(p, poly[i], poly[before])
    }
}

/// Ray-cast test whether a point lies in a polygon.
pub open spec fn in_polygon(p: Position, poly: Seq<Position>) -> bool {
    odd_crossings(p, poly, poly.len() as int)
}

/// Ray-cast point-in-polygon (zoning drafts assign blocks by center).
pub fn point_in_polygon(p: Position, poly: &Vec<Position>) -> (r: bool)
    requires
        poly.len() > 0,
    ensures
        r == in_polygon(p, poly@),
{
    let mut inside: bool = false;
    let mut j: usize = poly.len() - 1;
    let mut i: usize = 0;
    while i < poly.len()
        invariant
            poly.len() > 0,
            i <= poly.len(),
            i < poly.len() ==> j == (if i == 0 {
                poly.len() - 1
            } else {
                i - 1
            }),
            j < poly.len(),
            inside == odd_crossings(p, poly@, i as int),
        decreases poly.len() - i,
    {
        let a: Position = poly[i];
        let b: Position = poly[j];
        if p.z.lt(a.z) != p.z.lt(b.z) {
            let at: Scalar = a.x.add(p.z.sub(a.z).mul(b.x.sub(a.x)).div(b.z.sub(a.z)));
            if p.x.lt(at) {
                inside = !inside;
            }
        }
        j = i;
        i += 1;
    }
    inside
}

/// Front door of a footprint: on the west side, off the footprint, so that
/// agents and clicks can reach it.
pub open spec fn door(min_x: Scalar, min_z: Scalar, max_z: Scalar) -> Position {
    Position {
        x: min_x.sub_spec(scalar(TWO)),
        z: min_z.add_spec(max_z).div_spec(scalar(TWO)),
    }
}

pub fn door_point(min_x: Scalar, min_z: Scalar, max_z: Scalar) -> (r: Position)
    ensures
        r == door(min_x, min_z, max_z),
{
    Position { x: min_x.sub(scalar(TWO)), z: min_z.add(max_z).div(scalar(TWO)) }
}

/// A city with the records of what was stamped onto it.
pub ghost struct Zoned {
    pub sim: SimView,
    pub stamped: Seq<StampView>,
}

/// Place of the first record of a block, from place `i` on.
pub open spec fn find_stamp(stamped: Seq<StampView>, id: Seq<char>, i: int) -> Option<int>
    decreases stamped.len() - i,
{
    if i < 0 || i >= stamped.len() {
        None
    } else if stamped[i].id == id {
        Some(i)
    } else {
        find_stamp(stamped, id, i + 1)
    }
}

/// The city without the first `k` of a list of entities.
pub open spec fn despawned(s: SimView, list: Seq<Entity>, k: int) -> SimView
    decreases k,
{
    if k <= 0 {
        s
    } else {
        despawned(s, list, k - 1).without(list[k - 1])
    }
}

/// The records among the first `k` that are not of a block.
pub open spec fn others(stamped: Seq<StampView>, id: Seq<char>, k: int) -> Seq<StampView>
    decreases k,
{
    if k <= 0 {
        Seq::empty()
    } else if stamped[k - 1].id != id {
        others(stamped, id, k - 1).push(stamped[k - 1])
    } else {
        others(stamped, id, k - 1)
    }
}

/// A goal with one ad of the default amount.
pub open spec fn with_plain_goal(s: SimView, at: Position, need: NeedKind) -> SimView {
    s.spawned_goal(
        at.x,
        at.z,
        seq![(need, scalar(DEFAULT_AD_AMOUNT))],
        scalar(DEFAULT_ATTENUATION),
        None,
    )
}

/// What a zone function puts at the door: a workplace, goals or a home. The
/// city with it, and the new entities.
pub open spec fn furnished(s: SimView, f: ZoneFunction, at: Position, capacity: u32) -> (
    SimView,
    Seq<Entity>,
) {
    let first = s.fresh_id();
    match f {
        ZoneFunction::Commercial => {
            let t = s.spawned_workplace(
                Workplace {
                    x: at.x,
                    z: at.z,
                    pay_per_hour: scalar(0x41f0_0000 /* 30 */),
                    shift_start: 9,
                    shift_end: 17,
                },
            );
            (with_plain_goal(t, at, NeedKind::Comfort), seq![first, t.fresh_id()])
        },
        ZoneFunction::Industrial => (
            s.spawned_workplace(
                Workplace {
                    x: at.x,
                    z: at.z,
                    pay_per_hour: scalar(0x4218_0000 /* 38 */),
                    shift_start: 6,
                    shift_end: 14,
                },
            ),
            seq![first],
        ),
        ZoneFunction::Recreational => (
            s.spawned_goal(
                at.x,
                at.z,
                seq![(NeedKind::Fun, scalar(SEVEN_TENTHS)), (NeedKind::Energy, scalar(0x3e99_999a /* 0.3 */))],
                scalar(DEFAULT_ATTENUATION),
                None,
            ),
            seq![first],
        ),
        ZoneFunction::Agricultural => (with_plain_goal(s, at, NeedKind::Hunger), seq![first]),
        ZoneFunction::Administrative => (
            with_plain_goal(s, at, NeedKind::Sociability),
            seq![first],
        ),
        ZoneFunction::Residential => (
            s.spawned_dwelling(Dwelling { x: at.x, z: at.z, capacity, taken: 0 }),
            seq![first],
        ),
    }
}

impl Zoned {
    /// The city without what an earlier stamp put onto a block.
    pub open spec fn unstamped(self, id: Seq<char>) -> SimView {
        match find_stamp(self.stamped, id, 0) {
            Some(i) => despawned(
                self.sim,
                self.stamped[i].generated,
                self.stamped[i].generated.len() as int,
            ),
            None => self.sim,
        }
    }

    /// A block stamped with a function: the old set is replaced by the
    /// building and what the function puts at its door.
    pub open spec fn stamped_block(self, b: BlockView, f: ZoneFunction) -> Zoned {
        let s = self.unstamped(b.id);
        let t = s.spawned_building(
            BuildingView::fresh(b.id, f, b.min_x(), b.min_z(), b.max_x(), b.max_z()),
        );
        let (u, list) = furnished(
            t,
            f,
            door(b.min_x(), b.min_z(), b.max_z()),
            capacity_of(b.min_x(), b.min_z(), b.max_x(), b.max_z()),
        );
        Zoned {
            sim: u,
            stamped: others(self.stamped, b.id, self.stamped.len() as int).push(
                StampView { id: b.id, generated: seq![s.fresh_id()] + list },
            ),
        }
    }

    /// The first `k` blocks stamped, where their centers lie in a polygon.
    pub open spec fn stamped_blocks(self, poly: Seq<Position>, f: ZoneFunction, k: int) -> Zoned
        decreases k,
    {
        if k <= 0 {
            self
        } else {
            let before = self.stamped_blocks(poly, f, k - 1);
            let b = skyline()[k - 1];
            if in_polygon(Position { x: b.cx, z: b.cz }, poly) {
                before.stamped_block(b, f)
            } else {
                before
            }
        }
    }
}

fn clear_stamp(sim: &mut Sim, stamped: &Vec<StampedBuilding>, id: &str)
    ensures
        final(sim)@ == (Zoned { sim: old(sim)@, stamped: stamp_list(stamped@) }).unstamped(id@),
        final(sim)@.next == old(sim)@.next,
{
    let ghost s = sim@;
    let ghost views = stamp_list(stamped@);
    let mut i: usize = 0;
    while i < stamped.len()
        invariant
            s == sim@,
            s == old(sim)@,
            views == stamp_list(stamped@),
            i <= stamped.len(),
            find_stamp(views, id@, i as int) == find_stamp(views, id@, 0),
        decreases stamped.len() - i,
    {
        assert(views[i as int] == stamped[i as int]@);
        if same_text(stamped[i].id.as_str(), id) {
            let list: &Vec<Entity> = &stamped[i].generated;
            let mut k: usize = 0;
            while k < list.len()
                invariant
                    k <= list.len(),
                    sim@ == despawned(s, list@, k as int),
                    sim@.next == s.next,
                decreases list.len() - k,
            {
                let _hit: bool = sim.despawn(list[k]);
                proof {
                    reveal(SimView::without);
                }
                k += 1;
            }
            return;
        }
        i += 1;
    }
}

fn drop_stamp(stamped: &mut Vec<StampedBuilding>, id: &str)
    ensures
        stamp_list(final(stamped)@) == others(
            stamp_list(old(stamped)@),
            id@,
            old(stamped).len() as int,
        ),
{
    let ghost before = stamp_list(stamped@);
    let mut rest: Vec<StampedBuilding> = Vec::new();
    let mut i: usize = 0;
    let n: usize = stamped.len();
    proof {
        assert(stamp_list(rest@) =~= others(before, id@, 0));
    }
    while i < n
        invariant
            i <= n,
            n == before.len(),
            stamped.len() + i == n,
            forall|j: int| 0 <= j < stamped.len() ==> (#[trigger] stamped[j])@ == before[j + i],
            stamp_list(rest@) == others(before, id@, i as int),
        decreases n - i,
    {
        let ghost was = stamped@;
        let ghost kept = rest@;
        let s: StampedBuilding = stamped.remove(0);
        proof {
            assert(s@ == was[0]@);
            assert forall|j: int| 0 <= j < stamped.len() implies (#[trigger] stamped[j])@ == before[j
                + i + 1] by {
                assert(stamped[j] == was[j + 1]);
            }
        }
        if !same_text(s.id.as_str(), id) {
            rest.push(s);
            proof {
                assert(stamp_list(rest@) =~= stamp_list(kept).push(before[i as int]));
            }
        }
        i += 1;
    }
    *stamped = rest;
}

fn furnish(sim: &mut Sim, f: ZoneFunction, at: Position, capacity: u32) -> (r: Vec<Entity>)
    requires
        old(sim)@.next + 2 <= u64::MAX,
    ensures
        ({
            let want = furnished(old(sim)@, f, at, capacity);
            final(sim)@ == want.0 && r@ == want.1
        }),
        final(sim)@.next <= old(sim)@.next + 2,
{
    let ghost want = furnished(sim@, f, at, capacity);
    let mut r: Vec<Entity> = Vec::new();
    match f {
        ZoneFunction::Commercial => {
            r.push(sim.spawn_workplace(at.x, at.z, scalar(0x41f0_0000 /* 30 */), 9, 17));
            r.push(sim.spawn_goal(at.x, at.z, NeedKind::Comfort));
        },
        ZoneFunction::Industrial => {
            r.push(sim.spawn_workplace(at.x, at.z, scalar(0x4218_0000 /* 38 */), 6, 14));
        },
        ZoneFunction::Recreational => {
            let ads: Vec<(NeedKind, Scalar)> =
                vec![(NeedKind::Fun, scalar(SEVEN_TENTHS)), (NeedKind::Energy, scalar(0x3e99_999a /* 0.3 */))];
            proof {
                assert(ads@ =~= seq![
                    (NeedKind::Fun, scalar(SEVEN_TENTHS)),
                    (NeedKind::Energy, scalar(0x3e99_999a /* 0.3 */)),
                ]);
            }
            r.push(sim.spawn_goal_ads(at.x, at.z, ads, scalar(DEFAULT_ATTENUATION)));
        },
        ZoneFunction::Agricultural => {
            r.push(sim.spawn_goal(at.x, at.z, NeedKind::Hunger));
        },
        ZoneFunction::Administrative => {
            r.push(sim.spawn_goal(at.x, at.z, NeedKind::Sociability));
        },
        ZoneFunction::Residential => {
            r.push(sim.spawn_dwelling(at.x, at.z, capacity));
        },
    }
    proof {
        assert(r@ =~= want.1);
    }
    r
}

fn stamp_block(
    sim: &mut Sim,
    stamped: &mut Vec<StampedBuilding>,
    b: &BlockDef,
    f: ZoneFunction,
)
    requires
        old(sim)@.next + STAMP_SIZE <= u64::MAX,
    ensures
        (Zoned { sim: final(sim)@, stamped: stamp_list(final(stamped)@) }) == (Zoned {
            sim: old(sim)@,
            stamped: stamp_list(old(stamped)@),
        }).stamped_block(b@, f),
        final(sim)@.next <= old(sim)@.next + STAMP_SIZE,
{
    let ghost z = Zoned { sim: sim@, stamped: stamp_list(stamped@) };
    clear_stamp(sim, stamped, b.id);
    drop_stamp(stamped, b.id);
    let ghost kept = stamp_list(stamped@);
    let min_x: Scalar = b.min_x();
    let min_z: Scalar = b.min_z();
    let max_x: Scalar = b.max_x();
    let max_z: Scalar = b.max_z();
    let ghost cleared = sim@;
    let building: Entity = sim.spawn_building(b.id.to_owned(), f, min_x, min_z, max_x, max_z);
    let n: usize = sim.buildings.len();
    assert(building_views(sim.buildings@).len() == n);
    assert(sim@.buildings.len() == cleared.buildings.len() + 1);
    assert(sim@.buildings[n - 1] == sim.buildings[n - 1]@);
    let capacity: u32 = sim.buildings[n - 1].building.capacity;
    let mut rest: Vec<Entity> = furnish(sim, f, door_point(min_x, min_z, max_z), capacity);
    let ghost list = rest@;
    let mut generated: Vec<Entity> = Vec::new();
    generated.push(building);
    generated.append(&mut rest);
    proof {
        assert(generated@ =~= seq![building] + list);
    }
    stamped.push(StampedBuilding { id: b.id.to_owned(), generated });
    proof {
        assert(stamp_list(stamped@) =~= z.stamped_block(b@, f).stamped);
    }
}

/// Stamp a zoning draft: every block whose center falls in the polygon gets
/// the function (re-stamping replaces the old function set), plus the
/// function-appropriate entities at its front door.
pub fn stamp_zoning(
    sim: &mut Sim,
    stamped: &mut Vec<StampedBuilding>,
    poly: &Vec<Position>,
    function: ZoneFunction,
)
    requires
        poly.len() > 0,
        old(sim)@.next + 7 * STAMP_SIZE <= u64::MAX,
    ensures
        (Zoned { sim: final(sim)@, stamped: stamp_list(final(stamped)@) }) == (Zoned {
            sim: old(sim)@,
            stamped: stamp_list(old(stamped)@),
        }).stamped_blocks(poly@, function, 7),
{
    let ghost z = Zoned { sim: sim@, stamped: stamp_list(stamped@) };
    let list: Vec<BlockDef> = blocks();
    let mut k: usize = 0;
    while k < list.len()
        invariant
            poly.len() > 0,
            block_views(list@) == skyline(),
            list.len() == 7,
            k <= list.len(),
            z.sim.next + 7 * STAMP_SIZE <= u64::MAX,
            sim@.next <= z.sim.next + k * STAMP_SIZE,
            z.stamped_blocks(poly@, function, k as int) == (Zoned {
                sim: sim@,
                stamped: stamp_list(stamped@),
            }),
        decreases list.len() - k,
    {
        let b: BlockDef = list[k];
        assert(block_views(list@)[k as int] == b@);
        if point_in_polygon(Position { x: b.cx, z: b.cz }, poly) {
            stamp_block(sim, stamped, &b, function);
        }
        k += 1;
    }
}

/// Buildings among the first `k` that carry a label.
pub open spec fn labelled(s: SimView, id: Seq<char>, k: int) -> Seq<Entity>
    decreases k,
{
    if k <= 0 {
        Seq::empty()
    } else if s.buildings[k - 1].building.label == id {
        labelled(s, id, k - 1).push(s.buildings[k - 1].id)
    } else {
        labelled(s, id, k - 1)
    }
}

/// Spots among the first `k` within the click radius of a point.
pub open spec fn spots_near(spots: Seq<Spot>, p: Position, k: int) -> Seq<Entity>
    decreases k,
{
    if k <= 0 {
        Seq::empty()
    } else if in_click_radius(dist2(spots[k - 1].x, spots[k - 1].z, p)) {
        spots_near(spots, p, k - 1).push(spots[k - 1].id)
    } else {
        spots_near(spots, p, k - 1)
    }
}

pub open spec fn all_near(spots: Seq<Spot>, p: Position) -> Seq<Entity> {
    spots_near(spots, p, spots.len() as int)
}

/// What a stamp owns, found again by label and place: the buildings with the
/// label, then the goals, workplaces and dwellings at the block's door.
pub open spec fn resolved(s: SimView, id: Seq<char>) -> Seq<Entity> {
    let named = labelled(s, id, s.buildings.len() as int);
    match find_block(id, 0) {
        Some(i) => {
            let b = skyline()[i];
            let at = door(b.min_x(), b.min_z(), b.max_z());
            named + all_near(goal_spots(s), at) + all_near(workplace_spots(s), at) + all_near(
                dwelling_spots(s),
                at,
            )
        },
        None => named,
    }
}

fn push_near(out: &mut Vec<Entity>, spots: &Vec<Spot>, p: Position)
    ensures
        final(out)@ == old(out)@ + all_near(spots@, p),
{
    let limit: Scalar = scalar(USE_RADIUS).mul(scalar(USE_RADIUS));
    let ghost before = out@;
    let mut k: usize = 0;
    proof {
        assert(before + spots_near(spots@, p, 0) =~= before);
    }
    while k < spots.len()
        invariant
            limit == scalar(USE_RADIUS).mul_spec(scalar(USE_RADIUS)),
            k <= spots.len(),
            out@ == before + spots_near(spots@, p, k as int),
        decreases spots.len() - k,
    {
        if distance2(spots[k].x, spots[k].z, p).le(limit) {
            out.push(spots[k].id);
        }
        proof {
            assert(out@ =~= before + spots_near(spots@, p, k + 1));
        }
        k += 1;
    }
}

/// Re-resolve a stamp record after a load: the building by label plus any
/// goal, workplace or dwelling at its front door.
pub fn resolve_stamp(sim: &Sim, id: &str) -> (r: Vec<Entity>)
    ensures
        r@ == resolved(sim@, id@),
{
    let ghost s = sim@;
    let mut out: Vec<Entity> = Vec::new();
    let mut k: usize = 0;
    proof {
        assert(out@ =~= labelled(s, id@, 0));
    }
    while k < sim.buildings.len()
        invariant
            s == sim@,
            k <= sim.buildings.len(),
            out@ == labelled(s, id@, k as int),
        decreases sim.buildings.len() - k,
    {
        assert(s.buildings[k as int] == sim.buildings[k as int]@);
        if same_text(sim.buildings[k].building.label.as_str(), id) {
            out.push(sim.buildings[k].id);
        }
        k += 1;
    }
    if let Some(b) = block_by_id(id) {
        let at: Position = door_point(b.min_x(), b.min_z(), b.max_z());
        push_near(&mut out, &list_goals(sim), at);
        push_near(&mut out, &list_workplaces(sim), at);
        push_near(&mut out, &list_dwellings(sim), at);
    }
    out
}

/// Whatever was stamped before, a block has exactly one record after it is
/// stamped, and other blocks keep theirs.
pub proof fn law_one_record_per_block(z: Zoned, b: BlockView, f: ZoneFunction, i: int)
    requires
        0 <= i < z.stamped_block(b, f).stamped.len(),
    ensures
        z.stamped_block(b, f).stamped[i].id == b.id <==> i == z.stamped_block(b, f).stamped.len()
            - 1,
{
    lemma_others(z.stamped, b.id, z.stamped.len() as int);
}

proof fn lemma_others(stamped: Seq<StampView>, id: Seq<char>, k: int)
    requires
        k <= stamped.len(),
    ensures
        forall|i: int|
            0 <= i < others(stamped, id, k).len() ==> (#[trigger] others(stamped, id, k)[i]).id
                != id,
    decreases k,
{
    if k > 0 {
        lemma_others(stamped, id, k - 1);
        let o = others(stamped, id, k - 1);
        assert forall|i: int| 0 <= i < others(stamped, id, k).len() implies (#[trigger] others(
            stamped,
            id,
            k,
        )[i]).id != id by {
            if i < o.len() {
                assert(others(stamped, id, k)[i] == o[i]);
            }
        }
    }
}

} // verus!
