//! Points of interest and furniture.

use super::agent::NeedKind;
use super::Entity;
use crate::scalar::consts::{EIGHT_TENTHS, NEG_INFINITY, SEVEN_TENTHS, SIX_TENTHS};
use crate::scalar::{scalar, Scalar};
use vstd::prelude::*;

verus! {

/// Default distance discount for goals (0.05).
pub const DEFAULT_ATTENUATION: u32 = 0x3d4c_cccd;

/// Default amount a single-need goal restores (0.5).
pub const DEFAULT_AD_AMOUNT: u32 = 0x3f00_0000;

/// A point of interest agents can use (food stall, bench, home).
///
/// `ads` are motive advertisements: (need, amount restored) pairs scored by
/// the autonomy system. `attenuation` discounts distant goals: the score is
/// divided by one plus `attenuation` times the distance.
#[derive(Debug)]
pub struct Goal {
    pub x: Scalar,
    pub z: Scalar,
    pub ads: Vec<(NeedKind, Scalar)>,
    pub attenuation: Scalar,
    /// Agent currently walking to this goal (one agent per goal).
    pub claimed_by: Option<Entity>,
}

/// Mathematical content of a [`Goal`].
pub ghost struct GoalView {
    pub x: Scalar,
    pub z: Scalar,
    pub ads: Seq<(NeedKind, Scalar)>,
    pub attenuation: Scalar,
    pub claimed_by: Option<Entity>,
}

impl View for Goal {
    type V = GoalView;

    open spec fn view(&self) -> GoalView {
        GoalView {
            x: self.x,
            z: self.z,
            ads: self.ads@,
            attenuation: self.attenuation,
            claimed_by: self.claimed_by,
        }
    }
}

/// The first ad with the largest amount, above every amount not a number;
/// hunger at minus infinity where there is none.
pub open spec fn dominant_ad(ads: Seq<(NeedKind, Scalar)>) -> (NeedKind, Scalar)
    decreases ads.len(),
{
    if ads.len() == 0 {
        (NeedKind::Hunger, scalar(NEG_INFINITY))
    } else {
        let best = dominant_ad(ads.drop_last());
        if best.1.lt_spec(ads.last().1) {
            ads.last()
        } else {
            best
        }
    }
}

impl Goal {
    /// Dominant advertised need (for markers); hunger if ad-less.
    pub fn primary(&self) -> (r: NeedKind)
        ensures
            r == dominant_ad(self@.ads).0,
    {
        let mut best: (NeedKind, Scalar) = (NeedKind::Hunger, scalar(NEG_INFINITY));
        let mut i: usize = 0;
        while i < self.ads.len()
            invariant
                i <= self.ads.len(),
                best == dominant_ad(self.ads@.take(i as int)),
            decreases self.ads.len() - i,
        {
            proof {
                assert(self.ads@.take(i + 1).drop_last() =~= self.ads@.take(i as int));
            }
            if best.1.lt(self.ads[i].1) {
                best = self.ads[i];
            }
            i += 1;
        }
        proof {
            assert(self.ads@.take(i as int) =~= self.ads@);
        }
        best.0
    }
}

/// Placeable furniture: behaves as a goal with kind-fixed ads (a fridge is a
/// hunger goal).
#[derive(Clone, Copy, Debug, PartialEq, Eq, Structural)]
pub enum FurnitureKind {
    Fridge,
    Bed,
    Sofa,
    Toilet,
    Tub,
    TV,
}

/// Furniture marker on a goal (tells furniture from building-attached
/// goals).
#[derive(Clone, Copy, Debug, PartialEq, Eq, Structural)]
pub struct Furniture(pub FurnitureKind);

/// What a piece of furniture advertises.
pub open spec fn furniture_ad(kind: FurnitureKind) -> (NeedKind, Scalar) {
    match kind {
        FurnitureKind::Fridge => (NeedKind::Hunger, scalar(SEVEN_TENTHS)),
        FurnitureKind::Bed => (NeedKind::Energy, scalar(EIGHT_TENTHS)),
        FurnitureKind::Sofa => (NeedKind::Sociability, scalar(SIX_TENTHS)),
        FurnitureKind::Toilet => (NeedKind::Bladder, scalar(EIGHT_TENTHS)),
        FurnitureKind::Tub => (NeedKind::Hygiene, scalar(EIGHT_TENTHS)),
        FurnitureKind::TV => (NeedKind::Fun, scalar(SEVEN_TENTHS)),
    }
}

pub fn furniture_ads(kind: FurnitureKind) -> (r: Vec<(NeedKind, Scalar)>)
    ensures
        r@ == seq![furniture_ad(kind)],
{
    let ad: (NeedKind, Scalar) = match kind {
        FurnitureKind::Fridge => (NeedKind::Hunger, scalar(SEVEN_TENTHS)),
        FurnitureKind::Bed => (NeedKind::Energy, scalar(EIGHT_TENTHS)),
        FurnitureKind::Sofa => (NeedKind::Sociability, scalar(SIX_TENTHS)),
        FurnitureKind::Toilet => (NeedKind::Bladder, scalar(EIGHT_TENTHS)),
        FurnitureKind::Tub => (NeedKind::Hygiene, scalar(EIGHT_TENTHS)),
        FurnitureKind::TV => (NeedKind::Fun, scalar(SEVEN_TENTHS)),
    };
    let r: Vec<(NeedKind, Scalar)> = vec![ad];
    proof {
        assert(r@ =~= seq![furniture_ad(kind)]);
    }
    r
}

/// Room function voted from furniture contents; empty or tied rooms stay
/// unassigned.
#[derive(Clone, Copy, Debug, PartialEq, Eq, Structural)]
pub enum RoomFunction {
    Bedroom,
    Kitchen,
    Living,
    Bathroom,
}

/// The room function that a piece of furniture votes for.
#[verifier::allow_in_spec]
pub fn room_function_for(kind: FurnitureKind) -> (r: RoomFunction)
    returns
        (match kind {
            FurnitureKind::Bed => RoomFunction::Bedroom,
            FurnitureKind::Fridge => RoomFunction::Kitchen,
            FurnitureKind::Sofa => RoomFunction::Living,
            FurnitureKind::TV => RoomFunction::Living,
            FurnitureKind::Toilet => RoomFunction::Bathroom,
            FurnitureKind::Tub => RoomFunction::Bathroom,
        }),
{
    match kind {
        FurnitureKind::Bed => RoomFunction::Bedroom,
        FurnitureKind::Fridge => RoomFunction::Kitchen,
        FurnitureKind::Sofa | FurnitureKind::TV => RoomFunction::Living,
        FurnitureKind::Toilet | FurnitureKind::Tub => RoomFunction::Bathroom,
    }
}

} // verus!
