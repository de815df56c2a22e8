//! Figures that the player reads are the figures of the city.

use super::game::{slider_part, speed_of, MAX_FRAME};
use super::labels::clock;
use super::panel::{mood, mood_sum, spawn_coordinate};
use super::show::{law_digits_read_back, value_of};
use super::state::UiView;
use super::zoning::door;
use crate::scalar::{magnitude, scalar, unit, Scalar};
use crate::scalar::arith::abs_int;
use crate::scalar::bounds::{
    lemma_product_error, lemma_quotient_error, lemma_unit_large, lemma_within_product, PRECISION,
    TINY,
};
use crate::scalar::consts::{ONE, SEVEN, TWENTY_FIVE, ZERO};
use crate::scalar::convert::lemma_unit;
use crate::scalar::decimal::half_even;
use crate::scalar::exact::{lemma_from_int, lemma_whole, lemma_whole_to_int};
use crate::scalar::order::lemma_one;
use crate::scalar::sums::{exact_size, exact_sum, lemma_running_sum, running_sum};
use crate::scalar::wholes::{
    is_whole, lemma_difference_exact, lemma_half_exact, lemma_parts_of_one, lemma_product_exact,
    lemma_quotient_floor, lemma_sides_of, lemma_sum_exact, part,
};
use crate::scene::BlockView;
use crate::sim::agent::{AgentView, Needs, Position};
use crate::sim::city::capacity_of;
use crate::sim::money::cents_text;
use crate::text::{digits, padded};
use vstd::arithmetic::power2::{lemma2_to64, pow2};
use vstd::prelude::*;

verus! {

/// On whole seconds the clock shows the hour of the day and the minute of the
/// hour.
pub proof fn law_clock_shows_the_time(secs: Scalar, k: int)
    requires
        is_whole(secs, k),
        0 <= k < 0x10_0000,
    ensures
        clock(secs).0 == (k / 3600) % 24,
        clock(secs).1 == (k / 60) % 60,
{
    lemma2_to64();
    lemma_unit();
    lemma_one();
    let sixty = scalar(0x4270_0000);
    lemma_whole(0x4270_0000, 60, 132);
    lemma_quotient_floor(secs, sixty, k, 60);
    let m = k / 60;
    let f = secs.div_spec(sixty).floor_spec();
    let u = unit() as int;
    assert(m >= 0 && m * u >= 0) by (nonlinear_arith)
        requires
            m == k / 60,
            k >= 0,
            u > 0,
    ;
    let g = f.max_spec(scalar(ZERO));
    assert(g.num() == m * u && g.is_finite_spec());
    lemma_whole_to_int(g, m, 0, u32::MAX as int);
    assert((k / 60) / 60 == k / 3600) by (nonlinear_arith);
}

/// A footprint between whole coordinates holds one resident or job per 25
/// square units, and at least one.
pub proof fn law_capacity_goes_by_area(
    min_x: Scalar,
    min_z: Scalar,
    max_x: Scalar,
    max_z: Scalar,
    a: int,
    b: int,
    c: int,
    d: int,
)
    requires
        is_whole(min_x, a),
        is_whole(min_z, b),
        is_whole(max_x, c),
        is_whole(max_z, d),
        0 <= c - a < 0x100,
        0 <= d - b < 0x100,
    ensures
        capacity_of(min_x, min_z, max_x, max_z) == if (c - a) * (d - b) < 25 {
            1
        } else {
            ((c - a) * (d - b)) / 25
        },
{
    lemma2_to64();
    lemma_unit();
    lemma_one();
    lemma_parts_of_one();
    let u = unit() as int;
    let w = part() as int;
    let (p, q) = (c - a, d - b);
    assert(c * u - a * u == p * u && d * u - b * u == q * u) by (nonlinear_arith)
        requires
            p == c - a,
            q == d - b,
    ;
    assert(p * u == (128 * p) * w && q * u == (128 * q) * w) by (nonlinear_arith)
        requires
            u == 128 * w,
    ;
    assert(p * u >= 0 && q * u >= 0 && 0 <= p * q < 0x1_0000) by (nonlinear_arith)
        requires
            0 <= p < 0x100,
            0 <= q < 0x100,
            u > 0,
    ;
    lemma_difference_exact(max_x, min_x, 128 * p);
    lemma_difference_exact(max_z, min_z, 128 * q);
    let wide = max_x.sub_spec(min_x).max_spec(scalar(ZERO));
    let deep = max_z.sub_spec(min_z).max_spec(scalar(ZERO));
    assert(is_whole(wide, p) && is_whole(deep, q));
    lemma_product_exact(wide, deep, p, q);
    let area = wide.mul_spec(deep);
    let n = p * q;
    lemma_whole(TWENTY_FIVE as nat, 25, 131);
    assert(n / 25 < 0x1_0000);
    lemma_quotient_floor(area, scalar(TWENTY_FIVE), n, 25);
    let f = area.div_spec(scalar(TWENTY_FIVE)).floor_spec();
    let k = n / 25;
    let g = f.max_spec(scalar(ONE));
    assert(k >= 1 ==> k * u >= u) by (nonlinear_arith)
        requires
            u > 0,
    ;
    assert(k == 0 ==> k * u == 0) by (nonlinear_arith);
    if k >= 1 {
        assert(is_whole(g, k));
        lemma_whole_to_int(g, k, 0, u32::MAX as int);
    } else {
        assert(1 * u == u);
        assert(is_whole(g, 1));
        lemma_whole_to_int(g, 1, 0, u32::MAX as int);
    }
}

/// The door of a footprint between whole coordinates lies two units west of it,
/// halfway along its west side.
pub proof fn law_doors_face_west(
    min_x: Scalar,
    min_z: Scalar,
    max_z: Scalar,
    a: int,
    b: int,
    d: int,
)
    requires
        is_whole(min_x, a),
        is_whole(min_z, b),
        is_whole(max_z, d),
        -0x1000 < a < 0x1000,
        -0x1000 < b < 0x1000,
        -0x1000 < d < 0x1000,
    ensures
        is_whole(door(min_x, min_z, max_z).x, a - 2),
        door(min_x, min_z, max_z).z.is_finite_spec(),
        2 * door(min_x, min_z, max_z).z.num() == min_z.num() + max_z.num(),
{
    lemma_two_whole();
    lemma_parts_of_one();
    let u = unit() as int;
    let w = part() as int;
    assert(a * u - 2 * u == (a - 2) * u && (a - 2) * u == (128 * (a - 2)) * w) by (nonlinear_arith)
        requires
            u == 128 * w,
    ;
    lemma_difference_exact(min_x, scalar(crate::scalar::consts::TWO), 128 * (a - 2));
    assert(b * u + d * u == (128 * (b + d)) * w) by (nonlinear_arith)
        requires
            u == 128 * w,
    ;
    lemma_sum_exact(min_z, max_z, 128 * (b + d));
    assert((128 * (b + d)) * w == 2 * ((64 * (b + d)) * w)) by (nonlinear_arith);
    lemma_half_exact(min_z.add_spec(max_z), 64 * (b + d));
}

proof fn lemma_two_whole()
    ensures
        is_whole(scalar(crate::scalar::consts::TWO), 2),
{
    crate::scalar::order::lemma_two();
}

/// A block with whole measures reaches half of its width and half of its depth
/// to either side of its center.
pub proof fn law_blocks_stand_round_their_center(b: BlockView, x: int, z: int, w: int, d: int)
    requires
        is_whole(b.cx, x),
        is_whole(b.cz, z),
        is_whole(b.w, w),
        is_whole(b.d, d),
        -0x1000 < x < 0x1000,
        -0x1000 < z < 0x1000,
        -0x1000 < w < 0x1000,
        -0x1000 < d < 0x1000,
    ensures
        2 * b.min_x().num() == (2 * x - w) * unit(),
        2 * b.max_x().num() == (2 * x + w) * unit(),
        2 * b.min_z().num() == (2 * z - d) * unit(),
        2 * b.max_z().num() == (2 * z + d) * unit(),
{
    lemma_sides_of(b.cx, b.w, x, w);
    lemma_sides_of(b.cz, b.d, z, d);
}

/// Agents from the debug window are put onto whole coordinates of the square
/// from -40 up to 39, a stride apart.
pub proof fn law_spawns_are_strewn(n: nat, stride: nat)
    ensures
        is_whole(spawn_coordinate(n, stride), (n * stride) as int % 80 - 40),
{
    lemma2_to64();
    lemma_unit();
    lemma_parts_of_one();
    let u = unit() as int;
    let w = part() as int;
    let k = (n * stride) as int % 80;
    vstd::arithmetic::div_mod::lemma_mod_bound((n * stride) as int, 80);
    let forty = scalar(0x4220_0000);
    lemma_whole(0x4220_0000, 40, 132);
    let a = Scalar::from_int_spec(k);
    if k > 0 {
        lemma_from_int(k as nat);
    } else {
        crate::scalar::wholes::lemma_from_zero();
        assert(k * u == 0) by (nonlinear_arith)
            requires
                k == 0,
        ;
    }
    assert(k * u - 40 * u == (k - 40) * u && (k - 40) * u == (128 * (k - 40)) * w)
        by (nonlinear_arith)
        requires
            u == 128 * w,
    ;
    lemma_difference_exact(a, forty, 128 * (k - 40));
}

/// Every need lies between empty and full.
pub open spec fn is_sound(n: Needs) -> bool {
    &&& n.hunger.in_unit() && n.energy.in_unit() && n.sociability.in_unit()
    &&& n.comfort.in_unit() && n.hygiene.in_unit() && n.bladder.in_unit() && n.fun.in_unit()
}

/// One more summand.
proof fn lemma_one_more(a: Scalar, b: Scalar, exact: int, k: int)
    requires
        a.is_finite_spec(),
        b.in_unit(),
        0 <= k <= 6,
        0 <= exact <= k * unit(),
        abs_int(a.num() - exact) * PRECISION <= 24 * (k - 1) * unit(),
        k >= 1,
    ensures
        a.add_spec(b).is_finite_spec(),
        0 <= exact + b.num() <= (k + 1) * unit(),
        abs_int(a.add_spec(b).num() - (exact + b.num())) * PRECISION <= 24 * k * unit(),
{
    lemma_unit();
    lemma_unit_large();
    lemma2_to64();
    let u = unit() as int;
    lemma_in_unit(b);
    assert(0 <= k * u <= 6 * u) by (nonlinear_arith)
        requires
            0 <= k <= 6,
            u > 0,
    ;
    assert((k + 1) * u == k * u + u && 24 * (k - 1) * u == 24 * (k * u) - 24 * u && 24 * k * u == 24
        * (k * u)) by (nonlinear_arith);
    let c = a.add_spec(b);
    assert(abs_int(a.num()) <= 8 * u);
    assert(a.within(3));
    assert(b.within(0));
    crate::scalar::bounds::lemma_within_weakens(b, 0, 3);
    crate::scalar::bounds::lemma_within_sum(a, b, 3);
    crate::sim::laws::distance::lemma_sum_close(a, b);
    assert(abs_int(a.num() + b.num()) <= 8 * u);
}

proof fn lemma_in_unit(b: Scalar)
    requires
        b.in_unit(),
    ensures
        b.is_finite_spec(),
        0 <= b.num() <= unit(),
        b.within(0),
{
    lemma_one();
    lemma2_to64();
    crate::scalar::order::lemma_unit_finite(b);
    assert(1 * unit() == unit());
}

/// The well-being of an agent is the mean of all its needs, up to rounding.
pub proof fn law_mean_counts_every_need(n: Needs)
    requires
        is_sound(n),
    ensures
        n.mean_spec().is_finite_spec(),
        n.mean_spec().within(1),
        abs_int(
            7 * n.mean_spec().num() - (n.hunger.num() + n.energy.num() + n.sociability.num()
                + n.comfort.num() + n.hygiene.num() + n.bladder.num() + n.fun.num()),
        ) * PRECISION <= 200 * unit(),
{
    lemma_unit();
    lemma_unit_large();
    lemma2_to64();
    let u = unit() as int;
    lemma_in_unit(n.hunger);
    lemma_in_unit(n.fun);
    let e1 = n.hunger.num();
    assert(1 * u == u && 24 * (1 - 1) * u == 0) by (nonlinear_arith);
    let s1 = n.hunger;
    lemma_one_more(s1, n.energy, e1, 1);
    let s2 = s1.add_spec(n.energy);
    let e2 = e1 + n.energy.num();
    lemma_one_more(s2, n.sociability, e2, 2);
    let s3 = s2.add_spec(n.sociability);
    let e3 = e2 + n.sociability.num();
    lemma_one_more(s3, n.comfort, e3, 3);
    let s4 = s3.add_spec(n.comfort);
    let e4 = e3 + n.comfort.num();
    lemma_one_more(s4, n.hygiene, e4, 4);
    let s5 = s4.add_spec(n.hygiene);
    let e5 = e4 + n.hygiene.num();
    lemma_one_more(s5, n.bladder, e5, 5);
    let s6 = s5.add_spec(n.bladder);
    let e6 = e5 + n.bladder.num();
    lemma_one_more(s6, n.fun, e6, 6);
    let s7 = s6.add_spec(n.fun);
    let e7 = e6 + n.fun.num();
    assert(24 * 6 * u == 144 * u && (6 + 1) * u == 7 * u) by (nonlinear_arith);
    let seven = scalar(SEVEN);
    lemma_whole(SEVEN as nat, 7, 129);
    assert(seven.num() == 7 * u);
    assert(abs_int(s7.num()) <= 8 * u);
    crate::scalar::bounds::lemma_within_quotient(s7, seven, 1);
    let m = n.mean_spec();
    assert(m == s7.div_spec(seven));
    lemma_quotient_error(s7, seven);
    let x = s7.num();
    let y = m.num();
    let d = abs_int(7 * y - x) as int;
    assert(y * (7 * u) - x * u == (7 * y - x) * u) by (nonlinear_arith);
    assert(abs_int((7 * y - x) * u) == d * u) by (nonlinear_arith)
        requires
            d == abs_int(7 * y - x),
            u > 0,
    ;
    let z = abs_int(x) as int;
    assert(d * PRECISION <= z + 7 * TINY) by (nonlinear_arith)
        requires
            d * u * PRECISION <= z * u + TINY * (7 * u),
            u > 0,
    ;
    assert(d * PRECISION <= 9 * u);
    lemma_split(7 * y, x, e7, d);
}

/// Well-being of each agent.
pub open spec fn means(agents: Seq<AgentView>) -> Seq<Scalar> {
    Seq::new(agents.len(), |i: int| agents[i].needs.mean_spec())
}

proof fn lemma_mood_sum(agents: Seq<AgentView>, k: int)
    requires
        0 <= k <= agents.len(),
    ensures
        mood_sum(agents, k) == running_sum(means(agents), k),
    decreases k,
{
    if k > 0 {
        lemma_mood_sum(agents, k - 1);
    }
}

proof fn lemma_means_size(s: Seq<Scalar>, k: int)
    requires
        0 <= k <= s.len(),
        forall|i: int| 0 <= i < s.len() ==> (#[trigger] s[i]).within(1),
    ensures
        exact_size(s, k) <= 2 * (k * unit()),
    decreases k,
{
    let u = unit() as int;
    lemma2_to64();
    assert(k * u == (k - 1) * u + u) by (nonlinear_arith);
    if k > 0 {
        lemma_means_size(s, k - 1);
        assert(s[k - 1].within(1));
    } else {
        assert(k * u == 0) by (nonlinear_arith)
            requires
                k == 0,
        ;
    }
}

/// The mood of the city is the average over all agents, up to rounding; that
/// of an empty one is the best.
pub proof fn law_mood_counts_everyone(agents: Seq<AgentView>)
    requires
        agents.len() <= 0x1_0000,
        forall|i: int| 0 <= i < agents.len() ==> is_sound((#[trigger] agents[i]).needs),
    ensures
        agents.len() == 0 ==> mood(agents).num() == unit(),
        agents.len() > 0 ==> {
            let n = agents.len() as int;
            mood(agents).is_finite_spec() && abs_int(
                n * mood(agents).num() - exact_sum(means(agents), n),
            ) * PRECISION <= 20 * (n * (n * unit()))
        },
{
    lemma_one();
    lemma_unit();
    lemma_unit_large();
    lemma2_to64();
    let n = agents.len() as int;
    let s = means(agents);
    let u = unit() as int;
    if n > 0 {
        assert forall|i: int| 0 <= i < s.len() implies (#[trigger] s[i]).within(1) by {
            assert(is_sound(agents[i].needs));
            law_mean_counts_every_need(agents[i].needs);
        }
        assert forall|i: int| 0 <= i < s.len() implies (#[trigger] s[i]).within(40) by {
            crate::scalar::bounds::lemma_within_weakens(s[i], 1, 40);
        }
        lemma_running_sum(s, n);
        lemma_means_size(s, n);
        lemma_mood_sum(agents, n);
        let x = mood_sum(agents, n);
        let d = Scalar::from_int_spec(n);
        lemma_from_int(n as nat);
        let e = exact_sum(s, n);
        let size = exact_size(s, n) as int;
        let nu = n * u;
        assert(nu >= u) by (nonlinear_arith)
            requires
                nu == n * u,
                n >= 1,
                u > 0,
        ;
        let nnu = n * nu;
        assert(nnu >= nu) by (nonlinear_arith)
            requires
                nnu == n * nu,
                n >= 1,
                nu > 0,
        ;
        assert(6 * n * size <= 12 * nnu) by (nonlinear_arith)
            requires
                size <= 2 * nu,
                nnu == n * nu,
                n >= 1,
        ;
        lemma_exact_bound(s, n);
        assert(abs_int(x.num()) <= 3 * nu);
        crate::scalar::bounds::lemma_within_quotient(x, d, 2);
        let m = mood(agents);
        assert(m == x.div_spec(d));
        lemma_quotient_error(x, d);
        let y = m.num();
        let t = abs_int(n * y - x.num()) as int;
        assert(y * nu - x.num() * u == (n * y - x.num()) * u) by (nonlinear_arith)
            requires
                nu == n * u,
        ;
        assert(abs_int((n * y - x.num()) * u) == t * u) by (nonlinear_arith)
            requires
                t == abs_int(n * y - x.num()),
                u > 0,
        ;
        let z = abs_int(x.num()) as int;
        assert(t * PRECISION <= z + TINY * n) by (nonlinear_arith)
            requires
                t * u * PRECISION <= z * u + TINY * nu,
                nu == n * u,
                u > 0,
        ;
        lemma_split(n * y, x.num(), e, t);
    }
}

proof fn lemma_exact_bound(s: Seq<Scalar>, k: int)
    requires
        0 <= k <= s.len(),
    ensures
        abs_int(exact_sum(s, k)) <= exact_size(s, k),
    decreases k,
{
    if k > 0 {
        lemma_exact_bound(s, k - 1);
    }
}

/// Time runs at the chosen speed: a frame covers the seconds since the last
/// one, at most a quarter of one and at least none, times the speed.
pub proof fn law_frames_run_at_speed(s: UiView, elapsed: Scalar)
    requires
        elapsed.is_finite_spec(),
        speed_of(s.sim_speed_log).within(5),
    ensures
        ({
            let span = if elapsed.num() < 0 {
                0
            } else if 4 * elapsed.num() > unit() {
                scalar(MAX_FRAME).num()
            } else {
                elapsed.num()
            };
            let speed = speed_of(s.sim_speed_log).num();
            &&& 4 * scalar(MAX_FRAME).num() == unit()
            &&& s.frame_time(elapsed).is_finite_spec()
            &&& abs_int(s.frame_time(elapsed).num() * unit() - span * speed) * PRECISION
                <= abs_int(span * speed) + TINY * unit()
        }),
{
    lemma_one();
    lemma_unit();
    lemma2_to64();
    lemma_quarter();
    let c = elapsed.clamp_spec(scalar(ZERO), scalar(MAX_FRAME));
    assert(c.is_finite_spec());
    assert(c.within(0)) by {
        assert(pow2(0) * unit() == unit());
    }
    let v = speed_of(s.sim_speed_log);
    lemma_within_product(c, v, 0, 5);
    lemma_product_error(c, v);
}

proof fn lemma_quarter()
    ensures
        4 * scalar(MAX_FRAME).num() == unit(),
        scalar(MAX_FRAME).is_finite_spec(),
{
    lemma2_to64();
    vstd::arithmetic::div_mod::lemma_fundamental_div_mod_converse(
        MAX_FRAME as int,
        crate::scalar::BINADE as int,
        125,
        0,
    );
    vstd::arithmetic::power2::lemma_pow2_adds(23, 124);
    vstd::arithmetic::power2::lemma_pow2_adds(2, 147);
}

/// On whole pixels the speed slider lands on the mark nearest to the pointer:
/// six times the part of the way along it, rounded.
pub proof fn law_slider_takes_the_nearest_mark(
    s: UiView,
    x: Scalar,
    left: Scalar,
    width: Scalar,
    a: int,
    b: int,
    j: int,
    k: int,
)
    requires
        is_whole(x, a),
        is_whole(left, b),
        is_whole(width, j),
        0 <= a - b <= j,
        2 <= j <= 4096,
        0 <= k <= 6,
        2 * abs_int(k * j - 6 * (a - b)) < j,
    ensures
        s.speed_set(x, left, width).sim_speed_log.num() == k * unit(),
{
    lemma_unit();
    lemma_one();
    lemma_unit_large();
    lemma_parts_of_one();
    lemma2_to64();
    let u = unit() as int;
    let w = part() as int;
    let i = a - b;
    assert(a * u - b * u == i * u && i * u == (128 * i) * w && j * u >= 2 * u && 0 <= i * u <= j
        * u) by (nonlinear_arith)
        requires
            i == a - b,
            0 <= i <= j,
            j >= 2,
            u == 128 * w,
            u > 0,
    ;
    lemma_difference_exact(x, left, 128 * i);
    let d = x.sub_spec(left);
    assert(1 * (j * u) == j * u);
    crate::scalar::bounds::lemma_within_quotient(d, width, 0);
    crate::scalar::bounds::lemma_quotient(d, width);
    lemma_quotient_error(d, width);
    let qs = d.div_spec(width);
    let q = qs.num();
    assert(1 * u == u);
    assert(0 <= q <= u);
    let ps = slider_part(x, left, width);
    assert(ps.num() == q && ps.is_finite_spec() && ps == qs);
    // the quotient against the exact part
    let e = abs_int(q * j - i * u) as int;
    assert(q * (j * u) - (i * u) * u == (q * j - i * u) * u) by (nonlinear_arith);
    assert(abs_int((q * j - i * u) * u) == e * u) by (nonlinear_arith)
        requires
            e == abs_int(q * j - i * u),
            u > 0,
    ;
    assert(e * PRECISION <= i * u + TINY * j) by (nonlinear_arith)
        requires
            e * u * PRECISION <= (i * u) * u + TINY * (j * u),
            u > 0,
    ;
    // six times the part
    let six = scalar(0x40c0_0000);
    lemma_whole(0x40c0_0000, 6, 129);
    assert(ps.within(0));
    assert(six.within(3));
    lemma_within_product(ps, six, 0, 3);
    lemma_product_error(ps, six);
    crate::scalar::bounds::lemma_product(ps, six);
    let ms = ps.mul_spec(six);
    let m = ms.num();
    assert(q * (6 * u) >= 0) by (nonlinear_arith)
        requires
            q >= 0,
            u > 0,
    ;
    let f = abs_int(m - 6 * q) as int;
    assert(m * u - q * (6 * u) == (m - 6 * q) * u) by (nonlinear_arith);
    assert(abs_int((m - 6 * q) * u) == f * u) by (nonlinear_arith)
        requires
            f == abs_int(m - 6 * q),
            u > 0,
    ;
    assert(q * (6 * u) == (6 * q) * u) by (nonlinear_arith);
    assert(f * PRECISION <= 6 * q + TINY) by (nonlinear_arith)
        requires
            f * u * PRECISION <= (6 * q) * u + TINY * u,
            u > 0,
    ;
    assert(f * PRECISION <= 7 * u);
    let ju = j * u;
    assert(f * j * PRECISION <= 7 * ju) by (nonlinear_arith)
        requires
            f * PRECISION <= 7 * u,
            j >= 0,
            ju == j * u,
    ;
    let mj = m * j;
    let goal = 6 * (i * u);
    lemma_size_of(m - 6 * q, j, f);
    assert((m - 6 * q) * j == mj - 6 * (q * j)) by (nonlinear_arith)
        requires
            mj == m * j,
    ;
    assert(abs_int(mj - goal) <= f * j + 6 * e);
    assert(abs_int(mj - goal) * PRECISION <= 20 * ju);
    assert(ju <= 4096 * u) by (nonlinear_arith)
        requires
            ju == j * u,
            j <= 4096,
            u > 0,
    ;
    assert(abs_int(mj - goal) * 200 <= u);
    // the rounded mark
    lemma_rounded(ms);
    let n = (2 * m + u) / (2 * u);
    let rs = ms.round_spec();
    assert(rs.num() == n * u);
    vstd::arithmetic::div_mod::lemma_fundamental_div_mod(2 * m + u, 2 * u);
    vstd::arithmetic::div_mod::lemma_mod_bound(2 * m + u, 2 * u);
    let nu = n * u;
    assert((2 * u) * n == 2 * nu) by (nonlinear_arith)
        requires
            nu == n * u,
    ;
    assert(2 * m + u - 2 * u < 2 * nu <= 2 * m + u);
    let nj = n * j;
    assert(2 * mj - ju < 2 * (nu * j) <= 2 * mj + ju) by (nonlinear_arith)
        requires
            2 * m - u < 2 * nu <= 2 * m + u,
            mj == m * j,
            ju == j * u,
            j >= 1,
    ;
    assert(nu * j == nj * u) by (nonlinear_arith)
        requires
            nu == n * u,
            nj == n * j,
    ;
    let g = nj - 6 * i;
    assert(nj * u - goal == g * u) by (nonlinear_arith)
        requires
            g == nj - 6 * i,
            goal == 6 * (i * u),
    ;
    assert(-(ju + u) < 2 * (g * u) < ju + u);
    assert(-(j + 1) < 2 * g < j + 1) by (nonlinear_arith)
        requires
            -(ju + u) < 2 * (g * u) < ju + u,
            ju == j * u,
            u > 0,
    ;
    let h = k * j - 6 * i;
    assert((n - k) * j == nj - k * j) by (nonlinear_arith)
        requires
            nj == n * j,
    ;
    assert(-2 * j < 2 * ((n - k) * j) < 2 * j);
    assert(n == k) by (nonlinear_arith)
        requires
            -2 * j < 2 * ((n - k) * j) < 2 * j,
            j >= 1,
    ;
    assert(0 <= k * u <= 6 * u) by (nonlinear_arith)
        requires
            0 <= k <= 6,
            u > 0,
    ;
}

proof fn lemma_size_of(a: int, j: int, f: int)
    requires
        f == abs_int(a),
        j >= 0,
    ensures
        abs_int(a * j) == f * j,
{
    assert(abs_int(a * j) == f * j) by (nonlinear_arith)
        requires
            f == abs_int(a),
            j >= 0,
    ;
}

/// Rounding a number from zero up.
proof fn lemma_rounded(m: Scalar)
    requires
        m.is_finite_spec(),
        0 <= m.num() <= 8 * unit(),
    ensures
        m.round_spec().is_finite_spec(),
        m.round_spec().num() == ((2 * m.num() + unit()) / (2 * unit() as int)) * unit(),
{
    reveal(Scalar::round_spec);
    lemma_unit();
    let u = unit() as int;
    let p = magnitude(m.pattern()) as int;
    let n = (2 * p + u) / (2 * u);
    assert(0 <= n <= 8) by (nonlinear_arith)
        requires
            n == (2 * p + u) / (2 * u),
            0 <= p <= 8 * u,
            u > 0,
    ;
    if m.negative() {
        assert(p == 0);
        vstd::arithmetic::div_mod::lemma_basic_div(u, 2 * u);
        assert(n == 0);
    }
    if n > 0 {
        lemma_from_int(n as nat);
    } else {
        assert(magnitude(0) == 0);
        assert(n * u == 0) by (nonlinear_arith)
            requires
                n == 0,
        ;
    }
}

/// The window of a building opens 120 pixels left of what was picked and 312
/// above it, but no nearer to the edges than 8 and 72.
pub proof fn law_windows_open_above_the_pick(s: UiView, p: Position, a: int, b: int)
    requires
        s.building_anchor == Some(p),
        is_whole(p.x, a),
        is_whole(p.z, b),
        -0x1000 < a < 0x1000,
        -0x1000 < b < 0x1000,
    ensures
        s.window_corner().x.num() == (if a - 120 < 8 {
            8
        } else {
            a - 120
        }) * unit(),
        s.window_corner().z.num() == (if b - 312 < 72 {
            72
        } else {
            b - 312
        }) * unit(),
{
    lemma2_to64();
    lemma_unit();
    lemma_whole(0x42f0_0000, 120, 133);
    lemma_whole(0x4394_0000, 296, 135);
    lemma_whole(0x4180_0000, 16, 131);
    lemma_whole(0x4290_0000, 72, 133);
    lemma_whole(0x4100_0000, 8, 130);
    lemma_less(p.x, scalar(0x42f0_0000), a, 120);
    lemma_less(p.z, scalar(0x4394_0000), b, 296);
    lemma_less(p.z.sub_spec(scalar(0x4394_0000)), scalar(0x4180_0000), b - 296, 16);
    lemma_whole_order(a - 120, 8);
    lemma_whole_order(b - 312, 72);
}

proof fn lemma_less(x: Scalar, y: Scalar, a: int, b: int)
    requires
        is_whole(x, a),
        is_whole(y, b),
        -0x2000 < a < 0x2000,
        -0x2000 < b < 0x2000,
    ensures
        is_whole(x.sub_spec(y), a - b),
{
    lemma_parts_of_one();
    let u = unit() as int;
    let w = part() as int;
    assert(a * u - b * u == (a - b) * u && (a - b) * u == (128 * (a - b)) * w) by (nonlinear_arith)
        requires
            u == 128 * w,
    ;
    lemma_difference_exact(x, y, 128 * (a - b));
}

proof fn lemma_whole_order(a: int, b: int)
    ensures
        (a * unit() < b * unit()) == (a < b),
{
    lemma_unit();
    let u = unit() as int;
    assert((a * u < b * u) == (a < b)) by (nonlinear_arith)
        requires
            u > 0,
    ;
}

/// Two errors add up.
proof fn lemma_split(a: int, b: int, c: int, d: int)
    requires
        d == abs_int(a - b),
    ensures
        abs_int(a - c) * PRECISION <= d * PRECISION + abs_int(b - c) * PRECISION,
{
    assert(abs_int(a - c) <= d + abs_int(b - c));
}

/// Rounded to nearest, a number is off by half a step at most.
pub proof fn law_texts_round_to_the_nearest(n: nat, d: nat)
    requires
        d > 0,
    ensures
        2 * (half_even(n, d) * d - n) <= d,
        2 * (n - half_even(n, d) * d) <= d,
{
    vstd::arithmetic::div_mod::lemma_fundamental_div_mod(n as int, d as int);
    let q = n as int / d as int;
    assert((q + 1) * d == d * q + d && q * d == d * q) by (nonlinear_arith);
}

/// Amounts from zero up read as dollars, a point and two digits of cents.
pub proof fn law_amounts_read_back(cents: int)
    requires
        cents >= 0,
    ensures
        exists|a: Seq<char>, b: Seq<char>|
            cents_text(cents) == seq!['$'] + a + seq!['.'] + b && #[trigger] value_of(a) * 100
                + #[trigger] value_of(b) == cents && b.len() == 2 && a.len() > 0,
{
    let a = digits((cents / 100) as nat);
    let b = padded((cents % 100) as nat, 2);
    law_digits_read_back((cents / 100) as nat);
    law_digits_read_back((cents % 100) as nat);
    let r = (cents % 100) as nat;
    let d = digits(r);
    if r < 10 {
        assert(d.len() == 1);
        assert(b =~= seq!['0', d[0]]);
        assert(b.drop_last() =~= seq!['0']);
        assert(seq!['0'].drop_last().len() == 0);
        assert(value_of(seq!['0']) == 0) by {
            assert(value_of(seq!['0'].drop_last()) == 0);
        }
        assert(d.drop_last().len() == 0);
        assert(value_of(d.drop_last()) == 0);
        assert(value_of(d) == d.last() as int - 48);
        assert(value_of(b) == r);
    } else {
        assert(digits(r / 10).len() == 1);
        assert(d.len() == 2);
        assert(b == d);
    }
    assert(cents_text(cents) == seq!['$'] + a + seq!['.'] + b);
    assert(value_of(a) * 100 + value_of(b) == cents);
}

} // verus!
