//! Names, glyphs and one-line texts.

use crate::scalar::consts::{HUNDRED, ZERO};
use crate::scalar::decimal::push_fixed;
use crate::scalar::{scalar, Scalar};
use crate::sim::agent::AgentState;
use crate::sim::city::ZoneFunction;
use crate::sim::goal::FurnitureKind;
use crate::sim::money::{cents_text, fmt_cents};
use crate::text::{digits, padded, push_number, push_padded, push_str};
use vstd::prelude::*;

verus! {

/// Land use chosen for a zoning draft.
#[derive(Clone, Copy, Debug, PartialEq, Eq, Structural)]
pub enum LandUse {
    Residential,
    Commercial,
    Industrial,
    Agricultural,
    Recreational,
    Administrative,
}

/// Land-use choice maps one to one onto the zone function.
#[verifier::allow_in_spec]
pub fn land_use_function(lu: LandUse) -> (f: ZoneFunction)
    returns
        (match lu {
            LandUse::Residential => ZoneFunction::Residential,
            LandUse::Commercial => ZoneFunction::Commercial,
            LandUse::Industrial => ZoneFunction::Industrial,
            LandUse::Agricultural => ZoneFunction::Agricultural,
            LandUse::Recreational => ZoneFunction::Recreational,
            LandUse::Administrative => ZoneFunction::Administrative,
        }),
{
    match lu {
        LandUse::Residential => ZoneFunction::Residential,
        LandUse::Commercial => ZoneFunction::Commercial,
        LandUse::Industrial => ZoneFunction::Industrial,
        LandUse::Agricultural => ZoneFunction::Agricultural,
        LandUse::Recreational => ZoneFunction::Recreational,
        LandUse::Administrative => ZoneFunction::Administrative,
    }
}

/// All land uses, in toolbar order.
pub fn land_uses() -> (r: Vec<LandUse>)
    ensures
        r@ == seq![
            LandUse::Residential,
            LandUse::Commercial,
            LandUse::Industrial,
            LandUse::Agricultural,
            LandUse::Recreational,
            LandUse::Administrative,
        ],
{
    let r: Vec<LandUse> =
        vec![
        LandUse::Residential,
        LandUse::Commercial,
        LandUse::Industrial,
        LandUse::Agricultural,
        LandUse::Recreational,
        LandUse::Administrative,
    ];
    proof {
        assert(r@ =~= seq![
            LandUse::Residential,
            LandUse::Commercial,
            LandUse::Industrial,
            LandUse::Agricultural,
            LandUse::Recreational,
            LandUse::Administrative,
        ]);
    }
    r
}

pub open spec fn zone_word(f: ZoneFunction) -> Seq<char> {
    match f {
        ZoneFunction::Residential => "Residential"@,
        ZoneFunction::Commercial => "Commercial"@,
        ZoneFunction::Industrial => "Industrial"@,
        ZoneFunction::Agricultural => "Agricultural"@,
        ZoneFunction::Recreational => "Recreational"@,
        ZoneFunction::Administrative => "Administrative"@,
    }
}

/// Name of a zone function.
pub fn zone_name(f: ZoneFunction) -> (r: &'static str)
    ensures
        r@ == zone_word(f),
{
    match f {
        ZoneFunction::Residential => "Residential",
        ZoneFunction::Commercial => "Commercial",
        ZoneFunction::Industrial => "Industrial",
        ZoneFunction::Agricultural => "Agricultural",
        ZoneFunction::Recreational => "Recreational",
        ZoneFunction::Administrative => "Administrative",
    }
}

/// Name of a land use: that of its zone function.
pub fn land_use_name(lu: LandUse) -> (r: &'static str)
    ensures
        r@ == zone_word(land_use_function(lu)),
{
    zone_name(land_use_function(lu))
}

/// Glyphs approximating black line icons.
pub fn land_use_glyph(lu: LandUse) -> (r: &'static str)
    ensures
        r@ == (match lu {
            LandUse::Residential => "⌂"@,
            LandUse::Commercial => "🏪"@,
            LandUse::Industrial => "🏭"@,
            LandUse::Agricultural => "🌾"@,
            LandUse::Recreational => "🌲"@,
            LandUse::Administrative => "🏛"@,
        }),
{
    match lu {
        LandUse::Residential => "⌂",
        LandUse::Commercial => "🏪",
        LandUse::Industrial => "🏭",
        LandUse::Agricultural => "🌾",
        LandUse::Recreational => "🌲",
        LandUse::Administrative => "🏛",
    }
}

/// A colour in bytes.
#[derive(Clone, Copy, Debug, PartialEq, Eq, Structural)]
pub struct Bytes3 {
    pub r: u8,
    pub g: u8,
    pub b: u8,
}

/// Land-use swatch colours: each base mixed 90% over grass.
#[verifier::allow_in_spec]
pub fn land_use_color(lu: LandUse) -> (c: Bytes3)
    returns
        (match lu {
            LandUse::Residential => Bytes3 { r: 234, g: 207, b: 105 },
            LandUse::Commercial => Bytes3 { r: 215, g: 120, b: 75 },
            LandUse::Industrial => Bytes3 { r: 135, g: 103, b: 114 },
            LandUse::Agricultural => Bytes3 { r: 149, g: 151, b: 124 },
            LandUse::Recreational => Bytes3 { r: 139, g: 198, b: 136 },
            LandUse::Administrative => Bytes3 { r: 87, g: 162, b: 220 },
        }),
{
    match lu {
        LandUse::Residential => Bytes3 { r: 234, g: 207, b: 105 },
        LandUse::Commercial => Bytes3 { r: 215, g: 120, b: 75 },
        LandUse::Industrial => Bytes3 { r: 135, g: 103, b: 114 },
        LandUse::Agricultural => Bytes3 { r: 149, g: 151, b: 124 },
        LandUse::Recreational => Bytes3 { r: 139, g: 198, b: 136 },
        LandUse::Administrative => Bytes3 { r: 87, g: 162, b: 220 },
    }
}

/// Furniture kinds with their glyphs, in toolbar order.
pub fn furniture_kinds() -> (r: Vec<FurnitureKind>)
    ensures
        r@ == seq![
            FurnitureKind::Fridge,
            FurnitureKind::Bed,
            FurnitureKind::Sofa,
            FurnitureKind::Toilet,
            FurnitureKind::Tub,
            FurnitureKind::TV,
        ],
{
    let r: Vec<FurnitureKind> =
        vec![
        FurnitureKind::Fridge,
        FurnitureKind::Bed,
        FurnitureKind::Sofa,
        FurnitureKind::Toilet,
        FurnitureKind::Tub,
        FurnitureKind::TV,
    ];
    proof {
        assert(r@ =~= seq![
            FurnitureKind::Fridge,
            FurnitureKind::Bed,
            FurnitureKind::Sofa,
            FurnitureKind::Toilet,
            FurnitureKind::Tub,
            FurnitureKind::TV,
        ]);
    }
    r
}

pub fn furniture_glyph(kind: FurnitureKind) -> (r: &'static str)
    ensures
        r@ == (match kind {
            FurnitureKind::Fridge => "🧊"@,
            FurnitureKind::Bed => "🛏"@,
            FurnitureKind::Sofa => "🛋"@,
            FurnitureKind::Toilet => "🚽"@,
            FurnitureKind::Tub => "🛁"@,
            FurnitureKind::TV => "📺"@,
        }),
{
    match kind {
        FurnitureKind::Fridge => "🧊",
        FurnitureKind::Bed => "🛏",
        FurnitureKind::Sofa => "🛋",
        FurnitureKind::Toilet => "🚽",
        FurnitureKind::Tub => "🛁",
        FurnitureKind::TV => "📺",
    }
}

/// What `str::to_uppercase` of the standard library returns for a text.
pub uninterp spec fn uppercase_text(text: Seq<char>) -> Seq<char>;

/// `str::to_uppercase` of the standard library, which maps each character to
/// its uppercase form as Unicode defines it. The mapping is a function of the
/// text alone; what it maps each character to is not spelled out here.
#[verifier::external_body]
fn to_upper(s: &str) -> (r: String)
    ensures
        r@ == uppercase_text(s@),
{
    s.to_uppercase()
}

/// The first characters of a text, at most `n`.
pub open spec fn head(s: Seq<char>, n: int) -> Seq<char> {
    if s.len() < n {
        s
    } else {
        s.take(n)
    }
}

fn take_head(s: &str, n: usize) -> (r: String)
    ensures
        r@ == head(s@, n as int),
{
    let len: usize = s.unicode_len();
    let r: String = if len < n {
        s.to_owned()
    } else {
        s.substring_char(0, n).to_owned()
    };
    proof {
        assert(r@ =~= head(s@, n as int));
    }
    r
}

/// Label of a project whose short name is given.
pub fn project_label(name: &str) -> (r: String)
    ensures
        r@ == "Project '"@ + name@ + "'"@,
{
    let mut r: String = String::new();
    push_str(&mut r, "Project '");
    push_str(&mut r, name);
    push_str(&mut r, "'");
    proof {
        assert(r@ =~= "Project '"@ + name@ + "'"@);
    }
    r
}

/// Label of a project: its first three characters in capitals.
pub fn short_project_name(id: &str) -> (r: String)
    ensures
        r@ == "Project '"@ + uppercase_text(head(id@, 3)) + "'"@,
{
    let name: String = take_head(id, 3);
    let upper: String = to_upper(name.as_str());
    project_label(upper.as_str())
}

/// An id cut to eight characters.
pub fn format_id(id: &str) -> (r: String)
    ensures
        r@ == head(id@, 8),
{
    take_head(id, 8)
}

/// Demand for homes, shops and industry.
#[derive(Clone, Copy, Debug, PartialEq, Eq, Structural)]
pub struct Demand {
    pub residential: Scalar,
    pub commercial: Scalar,
    pub industrial: Scalar,
}

/// A settled day of the city budget, in dollars.
#[derive(Clone, Copy, Debug, PartialEq, Eq, Structural)]
pub struct Ledger {
    pub property_in: Scalar,
    pub wage_in: Scalar,
    pub services_out: Scalar,
}

pub open spec fn demand_text(d: Demand) -> Seq<char> {
    "R"@ + d.residential.fixed(true, true) + " C"@ + d.commercial.fixed(true, true) + " I"@
        + d.industrial.fixed(true, true)
}

/// Demand as one compact panel line: "R+1.0 C-0.6 I+0.0".
pub fn demand_line(d: Demand) -> (r: String)
    ensures
        r@ == demand_text(d),
{
    let mut r: String = String::new();
    push_str(&mut r, "R");
    push_fixed(&mut r, d.residential, true, true);
    push_str(&mut r, " C");
    push_fixed(&mut r, d.commercial, true, true);
    push_str(&mut r, " I");
    push_fixed(&mut r, d.industrial, true, true);
    proof {
        assert(r@ =~= demand_text(d));
    }
    r
}

/// Dollars in cents, without the fraction.
pub open spec fn in_cents(dollars: Scalar) -> int {
    dollars.mul_spec(scalar(HUNDRED)).to_int_spec(i64::MIN as int, i64::MAX as int)
}

pub open spec fn ledger_text(l: Ledger) -> Seq<char> {
    cents_text(in_cents(l.property_in.add_spec(l.wage_in))) + " in · "@ + cents_text(
        in_cents(l.services_out),
    ) + " out"@
}

/// Last settled day as one compact panel line: "$20.10 in · $8.00 out".
pub fn ledger_line(l: Ledger) -> (r: String)
    ensures
        r@ == ledger_text(l),
{
    let income: i64 = l.property_in.add(l.wage_in).mul(scalar(HUNDRED)).to_i64();
    let out: i64 = l.services_out.mul(scalar(HUNDRED)).to_i64();
    let mut r: String = fmt_cents(income);
    push_str(&mut r, " in · ");
    push_str(&mut r, fmt_cents(out).as_str());
    push_str(&mut r, " out");
    proof {
        assert(r@ =~= ledger_text(l));
    }
    r
}

/// Hour and minute that a number of seconds since midnight shows.
pub open spec fn clock(total_secs: Scalar) -> (u32, u32) {
    let mins = total_secs.div_spec(scalar(0x4270_0000 /* 60 */)).floor_spec().max_spec(scalar(ZERO)).to_int_spec(
        0,
        u32::MAX as int,
    );
    (((mins / 60) % 24) as u32, (mins % 60) as u32)
}

pub fn clock_hm(total_secs: Scalar) -> (r: (u32, u32))
    ensures
        r == clock(total_secs),
        r.0 < 24,
        r.1 < 60,
{
    let mins: u32 = total_secs.div(scalar(0x4270_0000 /* 60 */)).floor().max(scalar(ZERO)).to_u32();
    ((mins / 60) % 24, mins % 60)
}

/// A clock as "hh:mm".
pub fn clock_line(h: u32, m: u32) -> (r: String)
    ensures
        r@ == padded(h as nat, 2) + ":"@ + padded(m as nat, 2),
{
    let mut r: String = String::new();
    push_padded(&mut r, h as u64, 2);
    push_str(&mut r, ":");
    push_padded(&mut r, m as u64, 2);
    proof {
        assert(r@ =~= padded(h as nat, 2) + ":"@ + padded(m as nat, 2));
    }
    r
}

/// Day and treasury as one panel line.
pub fn city_line(day: u32, treasury: i64) -> (r: String)
    ensures
        r@ == "day "@ + digits(day as nat) + " · city "@ + cents_text(treasury as int),
{
    let mut r: String = String::new();
    push_str(&mut r, "day ");
    push_number(&mut r, day as u64);
    push_str(&mut r, " · city ");
    push_str(&mut r, fmt_cents(treasury).as_str());
    proof {
        assert(r@ =~= "day "@ + digits(day as nat) + " · city "@ + cents_text(treasury as int));
    }
    r
}

/// A share in 0..=1 as a whole percentage.
pub open spec fn percent(v: Scalar) -> Seq<char> {
    v.mul_spec(scalar(HUNDRED)).fixed(false, false) + "%"@
}

pub(crate) fn push_percent(out: &mut String, v: Scalar)
    ensures
        final(out)@ == old(out)@ + percent(v),
{
    push_fixed(out, v.mul(scalar(HUNDRED)), false, false);
    push_str(out, "%");
    proof {
        assert(out@ =~= old(out)@ + percent(v));
    }
}

/// Population and mood as one panel line.
pub fn mood_line(pop: usize, happy: Scalar) -> (r: String)
    ensures
        r@ == digits(pop as nat) + " agents · "@ + percent(happy),
{
    let mut r: String = String::new();
    push_number(&mut r, pop as u64);
    push_str(&mut r, " agents · ");
    push_percent(&mut r, happy);
    proof {
        assert(r@ =~= digits(pop as nat) + " agents · "@ + percent(happy));
    }
    r
}

/// Id of the `n`th project: "prj" and at least three digits.
pub fn project_id(n: u32) -> (r: String)
    ensures
        r@ == "prj"@ + padded(n as nat, 3),
{
    let mut r: String = String::new();
    push_str(&mut r, "prj");
    push_padded(&mut r, n as u64, 3);
    proof {
        assert(r@ =~= "prj"@ + padded(n as nat, 3));
    }
    r
}

pub open spec fn roster_word(state: AgentState) -> Seq<char> {
    match state {
        AgentState::Idle => "idle"@,
        AgentState::Walk => "walk"@,
        AgentState::SeekGoal => "seek"@,
        AgentState::Socialize => "chat"@,
        AgentState::Working => "work"@,
        AgentState::Sleeping => "sleep"@,
    }
}

pub(crate) fn roster_text(state: AgentState) -> (r: &'static str)
    ensures
        r@ == roster_word(state),
{
    match state {
        AgentState::Idle => "idle",
        AgentState::Walk => "walk",
        AgentState::SeekGoal => "seek",
        AgentState::Socialize => "chat",
        AgentState::Working => "work",
        AgentState::Sleeping => "sleep",
    }
}

/// What an agent is doing, in a word.
pub open spec fn doing_word(state: AgentState) -> Seq<char> {
    match state {
        AgentState::Idle => "idling"@,
        AgentState::Walk => "strolling"@,
        AgentState::SeekGoal => "seeking"@,
        AgentState::Socialize => "chatting"@,
        AgentState::Working => "working"@,
        AgentState::Sleeping => "sleeping"@,
    }
}

pub(crate) fn doing_text(state: AgentState) -> (r: &'static str)
    ensures
        r@ == doing_word(state),
{
    match state {
        AgentState::Idle => "idling",
        AgentState::Walk => "strolling",
        AgentState::SeekGoal => "seeking",
        AgentState::Socialize => "chatting",
        AgentState::Working => "working",
        AgentState::Sleeping => "sleeping",
    }
}

} // verus!
