//! Zoned buildings, job sites, homes and roads.

use super::agent::Position;
use crate::scalar::consts::{ONE, TWENTY_FIVE, TWO, ZERO};
use crate::scalar::{scalar, Scalar};
use vstd::prelude::*;

verus! {

/// Tax funds per capacity per day at full development (5).
pub const TAX_PER_CAP_DAY: u32 = 0x40a0_0000;

/// Road-access radius (6).
pub const ROAD_ACCESS_DIST: u32 = 0x40c0_0000;

/// Development growth per sim-second with road access (0.02).
pub const DEVELOP_RATE: u32 = 0x3ca3_d70a;

/// Vacancy decay per sim-second without road access (0.005).
pub const NEGLECT_RATE: u32 = 0x3ba3_d70a;

/// A job site: agents employed here commute during the shift and earn
/// `pay_per_hour` into household funds while on site.
#[derive(Clone, Copy, Debug, PartialEq, Eq, Structural)]
pub struct Workplace {
    pub x: Scalar,
    pub z: Scalar,
    pub pay_per_hour: Scalar,
    /// Shift start (inclusive) and end (exclusive), hours 0..23.
    /// Overnight shifts (start > end) wrap past midnight.
    pub shift_start: u8,
    pub shift_end: u8,
}

/// A home with beds, spawned by residential stamps. Agents move in; nights
/// are spent here (full doze) instead of rough-sleeping outside.
#[derive(Clone, Copy, Debug, PartialEq, Eq, Structural)]
pub struct Dwelling {
    pub x: Scalar,
    pub z: Scalar,
    pub capacity: u32,
    pub taken: u32,
}

/// Zoning function stamped onto a building.
#[derive(Clone, Copy, Debug, PartialEq, Eq, Structural)]
pub enum ZoneFunction {
    Residential,
    Commercial,
    Industrial,
    Agricultural,
    Recreational,
    Administrative,
}

/// A city building with a stamped zone function. Residential buildings are
/// homes (capacity), commercial and industrial ones are job sites, the rest
/// are amenity goal sites. Behaviour flows through spawned goals and
/// workplaces; this holds the city-level state for stats and growth.
#[derive(Debug)]
pub struct CityBuilding {
    /// Links back to the block on the map (e.g. "bld:3").
    pub label: String,
    pub function: ZoneFunction,
    pub min_x: Scalar,
    pub min_z: Scalar,
    pub max_x: Scalar,
    pub max_z: Scalar,
    /// Development 0..=1: grows with road access, decays without.
    pub development: Scalar,
    /// Residents or jobs at full development (from footprint area).
    pub capacity: u32,
}

/// Mathematical content of a [`CityBuilding`].
pub ghost struct BuildingView {
    pub label: Seq<char>,
    pub function: ZoneFunction,
    pub min_x: Scalar,
    pub min_z: Scalar,
    pub max_x: Scalar,
    pub max_z: Scalar,
    pub development: Scalar,
    pub capacity: u32,
}

impl View for CityBuilding {
    type V = BuildingView;

    open spec fn view(&self) -> BuildingView {
        BuildingView {
            label: self.label@,
            function: self.function,
            min_x: self.min_x,
            min_z: self.min_z,
            max_x: self.max_x,
            max_z: self.max_z,
            development: self.development,
            capacity: self.capacity,
        }
    }
}

/// Residents or jobs that a footprint holds: one per 25 square units, at
/// least one.
pub open spec fn capacity_of(min_x: Scalar, min_z: Scalar, max_x: Scalar, max_z: Scalar) -> u32 {
    max_x.sub_spec(min_x).max_spec(scalar(ZERO)).mul_spec(
        max_z.sub_spec(min_z).max_spec(scalar(ZERO)),
    ).div_spec(scalar(TWENTY_FIVE)).floor_spec().max_spec(scalar(ONE)).to_int_spec(
        0,
        u32::MAX as int,
    ) as u32
}

impl BuildingView {
    pub open spec fn fresh(
        label: Seq<char>,
        function: ZoneFunction,
        min_x: Scalar,
        min_z: Scalar,
        max_x: Scalar,
        max_z: Scalar,
    ) -> BuildingView {
        BuildingView {
            label,
            function,
            min_x,
            min_z,
            max_x,
            max_z,
            development: scalar(ZERO),
            capacity: capacity_of(min_x, min_z, max_x, max_z),
        }
    }

    pub open spec fn center(self) -> Position {
        Position {
            x: self.min_x.add_spec(self.max_x).div_spec(scalar(TWO)),
            z: self.min_z.add_spec(self.max_z).div_spec(scalar(TWO)),
        }
    }

    /// Points tested for road access: the center and the four corners.
    pub open spec fn probes(self) -> Seq<Position> {
        seq![
            self.center(),
            Position { x: self.min_x, z: self.min_z },
            Position { x: self.max_x, z: self.min_z },
            Position { x: self.min_x, z: self.max_z },
            Position { x: self.max_x, z: self.max_z },
        ]
    }

    /// Some probe lies within reach of some road segment.
    pub open spec fn has_access(self, roads: Seq<Seq<Position>>) -> bool {
        exists|k: int, r: int, w: int|
            0 <= k < 5 && 0 <= r < roads.len() && 0 <= w < roads[r].len() - 1
                && #[trigger] near_segment(self.probes()[k], roads[r], w)
    }

    /// The building after `dt` sim-seconds: road access develops it towards
    /// 1, isolation lets it decay towards 0.
    pub open spec fn developed(self, roads: Seq<Seq<Position>>, dt: Scalar) -> BuildingView {
        if self.has_access(roads) {
            BuildingView {
                development: self.development.add_spec(
                    scalar(DEVELOP_RATE).mul_spec(dt),
                ).min_spec(scalar(ONE)),
                ..self
            }
        } else {
            BuildingView {
                development: self.development.sub_spec(
                    scalar(NEGLECT_RATE).mul_spec(dt),
                ).max_spec(scalar(ZERO)),
                ..self
            }
        }
    }

    /// Tax that the building pays per day, in dollars.
    pub open spec fn tax(self) -> Scalar {
        scalar(TAX_PER_CAP_DAY).mul_spec(Scalar::from_int_spec(self.capacity as int)).mul_spec(
            self.development,
        )
    }
}

impl CityBuilding {
    /// A building with no development yet.
    pub fn new(
        label: String,
        function: ZoneFunction,
        min_x: Scalar,
        min_z: Scalar,
        max_x: Scalar,
        max_z: Scalar,
    ) -> (r: CityBuilding)
        ensures
            r@ == BuildingView::fresh(label@, function, min_x, min_z, max_x, max_z),
    {
        let area: Scalar = max_x.sub(min_x).max(scalar(ZERO)).mul(
            max_z.sub(min_z).max(scalar(ZERO)),
        );
        let capacity: u32 = area.div(scalar(TWENTY_FIVE)).floor().max(scalar(ONE)).to_u32();
        CityBuilding {
            label,
            function,
            min_x,
            min_z,
            max_x,
            max_z,
            development: scalar(ZERO),
            capacity,
        }
    }

    pub fn center(&self) -> (r: Position)
        ensures
            r == self@.center(),
    {
        Position {
            x: self.min_x.add(self.max_x).div(scalar(TWO)),
            z: self.min_z.add(self.max_z).div(scalar(TWO)),
        }
    }

    fn has_access(&self, roads: &Roads) -> (r: bool)
        ensures
            r == self@.has_access(roads@),
    {
        let probes: Vec<Position> =
            vec![
            self.center(),
            Position { x: self.min_x, z: self.min_z },
            Position { x: self.max_x, z: self.min_z },
            Position { x: self.min_x, z: self.max_z },
            Position { x: self.max_x, z: self.max_z },
        ];
        proof {
            assert(probes@ =~= self@.probes());
        }
        let mut k: usize = 0;
        while k < 5
            invariant
                probes@ == self@.probes(),
                probes.len() == 5,
                k <= 5,
                forall|k0: int, r: int, w: int|
                    0 <= k0 < k && 0 <= r < roads@.len() && 0 <= w < roads@[r].len() - 1
                        ==> !#[trigger] near_segment(self@.probes()[k0], roads@[r], w),
            decreases 5 - k,
        {
            let mut r: usize = 0;
            while r < roads.0.len()
                invariant
                    probes@ == self@.probes(),
                    probes.len() == 5,
                    k < 5,
                    r <= roads.0.len(),
                    forall|r0: int, w: int|
                        0 <= r0 < r && 0 <= w < roads@[r0].len() - 1 ==> !#[trigger] near_segment(
                            self@.probes()[k as int],
                            roads@[r0],
                            w,
                        ),
                decreases roads.0.len() - r,
            {
                let line: &Vec<Position> = &roads.0[r];
                let mut w: usize = 0;
                while line.len() > 1 && w < line.len() - 1
                    invariant
                        probes@ == self@.probes(),
                        probes.len() == 5,
                        k < 5,
                        r < roads.0.len(),
                        line@ == roads@[r as int],
                        w <= line.len(),
                        forall|w0: int|
                            0 <= w0 < w && w0 < line.len() - 1 ==> !#[trigger] near_segment(
                                self@.probes()[k as int],
                                line@,
                                w0,
                            ),
                    decreases line.len() - w,
                {
                    let d: Scalar = point_seg_dist(probes[k], line[w], line[w + 1]);
                    if d.le(scalar(ROAD_ACCESS_DIST)) {
                        proof {
                            assert(near_segment(self@.probes()[k as int], roads@[r as int], w as int));
                        }
                        return true;
                    }
                    w += 1;
                }
                r += 1;
            }
            k += 1;
        }
        false
    }

    /// Develop or decay over `dt` sim-seconds.
    pub fn develop(&mut self, roads: &Roads, dt: Scalar)
        ensures
            final(self)@ == old(self)@.developed(roads@, dt),
    {
        if self.has_access(roads) {
            self.development = self.development.add(scalar(DEVELOP_RATE).mul(dt)).min(scalar(ONE));
        } else {
            self.development = self.development.sub(scalar(NEGLECT_RATE).mul(dt)).max(scalar(ZERO));
        }
    }

    pub fn tax(&self) -> (r: Scalar)
        ensures
            r == self@.tax(),
    {
        scalar(TAX_PER_CAP_DAY).mul(Scalar::from_int(self.capacity as i64)).mul(self.development)
    }
}

/// Stamped road network (polylines). Buildings near any segment develop;
/// isolated ones decay. Road cells are also cheaper to walk, so agents
/// prefer roads.
#[derive(Debug)]
pub struct Roads(pub Vec<Vec<Position>>);

impl View for Roads {
    type V = Seq<Seq<Position>>;

    open spec fn view(&self) -> Seq<Seq<Position>> {
        self.0@.map_values(|line: Vec<Position>| line@)
    }
}

/// Where along a segment the nearest point to `p` lies, from 0 at `a` to 1
/// at `b`.
pub open spec fn seg_param(p: Position, a: Position, b: Position) -> Scalar {
    let abx = b.x.sub_spec(a.x);
    let abz = b.z.sub_spec(a.z);
    let len2 = abx.mul_spec(abx).add_spec(abz.mul_spec(abz));
    if len2.le_spec(scalar(ZERO)) {
        scalar(ZERO)
    } else {
        p.x.sub_spec(a.x).mul_spec(abx).add_spec(p.z.sub_spec(a.z).mul_spec(abz)).div_spec(
            len2,
        ).clamp_spec(scalar(ZERO), scalar(ONE))
    }
}

/// Squared distance from a point to a segment.
pub open spec fn seg_dist2(p: Position, a: Position, b: Position) -> Scalar {
    let t = seg_param(p, a, b);
    let dx = p.x.sub_spec(a.x.add_spec(b.x.sub_spec(a.x).mul_spec(t)));
    let dz = p.z.sub_spec(a.z.add_spec(b.z.sub_spec(a.z).mul_spec(t)));
    dx.mul_spec(dx).add_spec(dz.mul_spec(dz))
}

/// Segment `w` of a road passes within reach of `p`.
pub open spec fn near_segment(p: Position, line: Seq<Position>, w: int) -> bool {
    seg_dist2(p, line[w], line[w + 1]).sqrt_spec().le_spec(scalar(ROAD_ACCESS_DIST))
}

pub(crate) fn point_seg_dist2(p: Position, a: Position, b: Position) -> (r: Scalar)
    ensures
        r == seg_dist2(p, a, b),
{
    let abx: Scalar = b.x.sub(a.x);
    let abz: Scalar = b.z.sub(a.z);
    let len2: Scalar = abx.mul(abx).add(abz.mul(abz));
    let t: Scalar = if len2.le(scalar(ZERO)) {
        scalar(ZERO)
    } else {
        p.x.sub(a.x).mul(abx).add(p.z.sub(a.z).mul(abz)).div(len2).clamp(scalar(ZERO), scalar(ONE))
    };
    let dx: Scalar = p.x.sub(a.x.add(abx.mul(t)));
    let dz: Scalar = p.z.sub(a.z.add(abz.mul(t)));
    dx.mul(dx).add(dz.mul(dz))
}

/// Distance from point to segment (for road access).
pub fn point_seg_dist(p: Position, a: Position, b: Position) -> (r: Scalar)
    ensures
        r == seg_dist2(p, a, b).sqrt_spec(),
{
    point_seg_dist2(p, a, b).sqrt()
}

/// The hour lies inside `[start, end)`, past midnight where start > end.
pub open spec fn on_shift(hour: u8, start: u8, end: u8) -> bool {
    if start <= end {
        start <= hour < end
    } else {
        hour >= start || hour < end
    }
}

/// True while `hour` is inside `[start, end)` (wraps past midnight).
pub fn in_shift(hour: u8, start: u8, end: u8) -> (r: bool)
    ensures
        r == on_shift(hour, start, end),
{
    if start <= end {
        hour >= start && hour < end
    } else {
        hour >= start || hour < end
    }
}

/// Nights run from 22:00 to 06:00.
pub open spec fn night(hour: u8) -> bool {
    hour >= 22 || hour < 6
}

pub fn is_night(hour: u8) -> (r: bool)
    ensures
        r == night(hour),
{
    hour >= 22 || hour < 6
}

/// A day shift of the same hours complements a night shift: at every hour
/// exactly one of `[start, end)` and `[end, start)` is on.
pub proof fn law_shifts_alternate(hour: u8, start: u8, end: u8)
    requires
        start != end,
    ensures
        on_shift(hour, start, end) != on_shift(hour, end, start),
{
}

} // verus!
