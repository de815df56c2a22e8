//! What ads are worth to an agent, and how it sets out.

use super::autonomy::law_decisions;
use super::distance::{lemma_difference_close, lemma_sum_close};
use crate::scalar::arith::abs_int;
use crate::scalar::bounds::{
    lemma_product_error, lemma_quotient_error, lemma_unit_large, lemma_within_pattern,
    lemma_within_product, lemma_within_quotient, lemma_within_sum, lemma_within_weakens, PRECISION,
    TINY,
};
use crate::scalar::consts::{HALF, MICRO, ONE, ZERO};
use crate::scalar::convert::lemma_unit;
use crate::scalar::order::{lemma_one, lemma_unit_finite};
use crate::scalar::sums::{exact_size, exact_sum, lemma_running_sum, running_sum};
use crate::scalar::{scalar, unit, Scalar, BINADE};
use crate::sim::agent::{AgentState, AgentView, NeedKind, Needs, Personality, WalkTarget};
use crate::sim::goal::GoalView;
use crate::sim::route::Ground;
use crate::sim::systems::autonomy::{
    ad_gain, appeals, assignment, decided, gain, score_of, tied, tied_from, weight, Candidate,
};
use crate::sim::world::{GoalRowView, SimRng};
use vstd::arithmetic::power2::{lemma2_to64, lemma_pow2_adds, pow2};
use vstd::prelude::*;

verus! {

/// `a` is `b` up to `k` parts in two to the 24.
pub open spec fn is_about(a: int, b: int, k: int) -> bool {
    abs_int(a - b) * PRECISION <= k * b
}

proof fn lemma_about_product(a: int, x: int, j: int, b: int, y: int, k: int)
    requires
        is_about(a, x, j),
        is_about(b, y, k),
        a >= 0,
        b >= 0,
        x >= 0,
        y >= 0,
        0 <= j <= 1000,
        0 <= k <= 1000,
    ensures
        is_about(a * b, x * y, j + k + 1),
{
    let e = abs_int(a - x) as int;
    let f = abs_int(b - y) as int;
    let g = abs_int(a * b - x * y) as int;
    let xy = x * y;
    assert(g <= e * y + x * f + e * f) by (nonlinear_arith)
        requires
            g == abs_int(a * b - x * y),
            e == abs_int(a - x),
            f == abs_int(b - y),
            x >= 0,
            y >= 0,
    ;
    assert(e * y * PRECISION <= j * xy) by (nonlinear_arith)
        requires
            e * PRECISION <= j * x,
            y >= 0,
            xy == x * y,
    ;
    assert(x * f * PRECISION <= k * xy) by (nonlinear_arith)
        requires
            f * PRECISION <= k * y,
            x >= 0,
            xy == x * y,
    ;
    assert(f <= y) by (nonlinear_arith)
        requires
            f * PRECISION <= k * y,
            k <= 1000,
            y >= 0,
            PRECISION == 0xff_ffff,
    ;
    assert(1000 * f <= y) by (nonlinear_arith)
        requires
            f * PRECISION <= k * y,
            k <= 1000,
            y >= 0,
            PRECISION == 0xff_ffff,
    ;
    assert(e * f * PRECISION <= xy) by (nonlinear_arith)
        requires
            e * PRECISION <= j * x,
            j <= 1000,
            1000 * f <= y,
            f >= 0,
            e >= 0,
            x >= 0,
            xy == x * y,
    ;
    assert((j + k + 1) * xy == j * xy + k * xy + xy) by (nonlinear_arith);
    assert(g * PRECISION <= e * y * PRECISION + x * f * PRECISION + e * f * PRECISION)
        by (nonlinear_arith)
        requires
            g <= e * y + x * f + e * f,
    ;
}

proof fn lemma_about_chain(a: int, b: int, j: int, c: int, k: int)
    requires
        is_about(a, b, j),
        is_about(b, c, k),
        b >= 0,
        c >= 0,
        0 <= j <= 1000,
        0 <= k <= 1000,
    ensures
        is_about(a, c, j + k + 1),
{
    let e = abs_int(a - b) as int;
    let f = abs_int(b - c) as int;
    assert(1000 * f <= c) by (nonlinear_arith)
        requires
            f * PRECISION <= k * c,
            k <= 1000,
            c >= 0,
            PRECISION == 0xff_ffff,
    ;
    assert(j * b <= j * c + c) by (nonlinear_arith)
        requires
            b <= c + f,
            1000 * f <= c,
            0 <= j <= 1000,
            c >= 0,
    ;
    assert((j + k + 1) * c == j * c + k * c + c) by (nonlinear_arith);
}

/// A rounded product, where nothing is tiny.
proof fn lemma_about_rounded(a: Scalar, b: Scalar)
    requires
        a.within(20),
        b.within(20),
        a.num() >= 0,
        b.num() >= 0,
        a.num() * b.num() >= TINY * unit(),
    ensures
        a.mul_spec(b).within(40),
        a.mul_spec(b).num() >= 0,
        is_about(a.mul_spec(b).num() * unit(), a.num() * b.num(), 2),
{
    lemma_within_product(a, b, 20, 20);
    lemma_product_error(a, b);
    crate::scalar::bounds::lemma_product(a, b);
}

/// Half is half a unit.
pub proof fn lemma_half_num()
    ensures
        2 * scalar(HALF).num() == unit(),
        scalar(HALF).is_finite_spec(),
{
    lemma2_to64();
    vstd::arithmetic::div_mod::lemma_fundamental_div_mod_converse(
        HALF as int,
        BINADE as int,
        126,
        0,
    );
    lemma_pow2_adds(23, 125);
    lemma_pow2_adds(1, 148);
}

/// Urgency is the square of the part of the way from half full to empty, up to
/// rounding; from half full on there is none.
pub proof fn law_urgency_is_quadratic(v: Scalar)
    requires
        v.in_unit(),
    ensures
        weight(v).within(1),
        weight(v).num() >= 0,
        2 * v.num() >= unit() ==> weight(v).num() == 0,
        unit() - 2 * v.num() >= unit() / 1024 ==> is_about(
            weight(v).num() * unit(),
            (unit() - 2 * v.num()) * (unit() - 2 * v.num()),
            40,
        ),
{
    lemma_unit();
    lemma_unit_large();
    lemma2_to64();
    lemma_one();
    lemma_half_num();
    lemma_unit_finite(v);
    let u = unit() as int;
    let h = scalar(HALF);
    let d = h.sub_spec(v);
    assert(v.within(1) && h.within(1));
    lemma_within_sum(h, v, 1);
    lemma_difference_close(h, v);
    crate::scalar::bounds::lemma_difference(h, v);
    let m = d.max_spec(scalar(ZERO));
    let q = m.div_spec(h);
    crate::scalar::monotone::lemma_difference_monotone(scalar(ZERO), v, h);
    assert(2 * h.sub_spec(scalar(ZERO)).num() == u) by {
        crate::scalar::bounds::lemma_difference(h, scalar(ZERO));
        crate::scalar::convert::lemma_representable(h.pattern());
    }
    assert(0 <= 2 * m.num() <= u);
    assert(m.is_finite_spec());
    assert(abs_int(m.num()) <= pow2(0) * abs_int(h.num()));
    lemma_within_quotient(m, h, 0);
    lemma_quotient_error(m, h);
    crate::scalar::bounds::lemma_quotient(m, h);
    assert(q.num() >= 0);
    lemma_within_product(q, q, 0, 0);
    lemma_within_weakens(weight(v), 0, 1);
    crate::scalar::bounds::lemma_product(q, q);
    assert(q.num() * q.num() >= 0) by (nonlinear_arith);
    let x = u - 2 * v.num();
    if 2 * v.num() >= u {
        assert(m.num() == 0);
        crate::scalar::order::lemma_zero_quotient(m, h);
        crate::scalar::order::lemma_zero_product(q, q);
    } else if x >= u / 1024 {
        vstd::arithmetic::div_mod::lemma_fundamental_div_mod(u, 1024);
        assert(m == d);
        // q against x
        let e = abs_int(q.num() - 2 * m.num()) as int;
        assert(abs_int(q.num() * h.num() - m.num() * u) == e * h.num()) by (nonlinear_arith)
            requires
                e == abs_int(q.num() - 2 * m.num()),
                u == 2 * h.num(),
                h.num() > 0,
        ;
        assert(e * PRECISION <= 2 * m.num() + TINY) by (nonlinear_arith)
            requires
                e * h.num() * PRECISION <= m.num() * u + TINY * h.num(),
                u == 2 * h.num(),
                h.num() > 0,
        ;
        assert(is_about(q.num(), x, 8));
        lemma_about_product(q.num(), x, 8, q.num(), x, 8);
        assert(q.num() * 2048 >= u);
        assert(q.num() * q.num() >= TINY * u) by (nonlinear_arith)
            requires
                q.num() * 2048 >= u,
                u >= 0x1_0000_0000_0000_0000,
                TINY == 0x80_0000,
        ;
        lemma_within_weakens(q, 0, 20);
        lemma_about_rounded(q, q);
        lemma_about_chain(weight(v).num() * u, q.num() * q.num(), 2, x * x, 17);
        assert(x * x >= 0) by (nonlinear_arith);
        assert(20 * (x * x) <= 40 * (x * x));
    }
}

/// The part of an ad that fits: as much as it offers, and not more than is
/// missing.
pub open spec fn fitting(v: Scalar, amount: Scalar) -> int {
    if amount.num() <= unit() - v.num() {
        amount.num()
    } else {
        unit() - v.num()
    }
}

/// How much the agent's nature makes of a need: half, plus the trait that the
/// need speaks to; one for needs that speak to none.
pub open spec fn liking(p: Personality, kind: NeedKind) -> int {
    if kind == NeedKind::Fun {
        unit() / 2 + p.playful.num()
    } else if kind == NeedKind::Sociability {
        unit() / 2 + p.outgoing.num()
    } else if kind == NeedKind::Energy {
        unit() / 2 + p.active.num()
    } else {
        unit() as int
    }
}

/// The traits lie in 0..=1.
pub open spec fn is_natural(p: Personality) -> bool {
    p.playful.in_unit() && p.outgoing.in_unit() && p.active.in_unit()
}

proof fn lemma_liking(p: Personality, kind: NeedKind)
    requires
        is_natural(p),
    ensures
        p.factor_spec(kind).within(2),
        is_about(p.factor_spec(kind).num(), liking(p, kind), 3),
        2 * liking(p, kind) >= unit(),
        p.factor_spec(kind).num() > 0,
{
    lemma_unit();
    lemma_unit_large();
    lemma2_to64();
    lemma_one();
    lemma_half_num();
    lemma_unit_finite(p.playful);
    lemma_unit_finite(p.outgoing);
    lemma_unit_finite(p.active);
    let h = scalar(HALF);
    assert(h.within(1) && p.playful.within(1) && p.outgoing.within(1) && p.active.within(1));
    lemma_within_sum(h, p.playful, 1);
    lemma_within_sum(h, p.outgoing, 1);
    lemma_within_sum(h, p.active, 1);
    lemma_sum_close(h, p.playful);
    lemma_sum_close(h, p.outgoing);
    lemma_sum_close(h, p.active);
    lemma_within_pattern(scalar(ONE), 2);
}

/// An ad for a low need is worth what fits of it, times the urgency of the
/// need, times the liking for it, up to rounding.
pub proof fn law_ads_are_worth_what_they_mend(
    needs: Needs,
    p: Personality,
    ad: (NeedKind, Scalar),
)
    requires
        needs.get(ad.0).in_unit(),
        is_natural(p),
        ad.1.within(10),
        ad.1.num() >= unit() / 1024,
        unit() - 2 * needs.get(ad.0).num() >= unit() / 1024,
    ensures
        ({
            let v = needs.get(ad.0);
            let low = unit() - 2 * v.num();
            is_about(
                ad_gain(needs, p, ad).num() * (unit() * unit() * unit()),
                fitting(v, ad.1) * (low * low) * liking(p, ad.0),
                100,
            )
        }),
{
    lemma_unit();
    lemma_unit_large();
    lemma2_to64();
    lemma_one();
    let u = unit() as int;
    let v = needs.get(ad.0);
    lemma_unit_finite(v);
    lemma_liking(p, ad.0);
    law_urgency_is_quadratic(v);
    vstd::arithmetic::div_mod::lemma_fundamental_div_mod(u, 1024);
    let one = scalar(ONE);
    let lack = one.sub_spec(v);
    assert(one.within(1) && v.within(1));
    lemma_within_sum(one, v, 1);
    lemma_difference_close(one, v);
    let fit = ad.1.min_spec(lack).max_spec(scalar(ZERO));
    let x = fitting(v, ad.1);
    assert(lack.within(10)) by {
        lemma_within_weakens(lack, 2, 10);
    }
    assert(is_about(fit.num(), x, 3));
    assert(fit.within(10));
    assert(2048 * fit.num() >= u);
    let w = weight(v);
    let low = u - 2 * v.num();
    let ll = low * low;
    let f = p.factor_spec(ad.0);
    // weight is not tiny
    assert(ll * 0x40_0000 >= u * u) by (nonlinear_arith)
        requires
            ll == low * low,
            low * 2048 >= u,
            u > 0,
    ;
    assert(w.num() * 0x80_0000 >= u) by (nonlinear_arith)
        requires
            abs_int(w.num() * u - ll) * PRECISION <= 40 * ll,
            ll * 0x40_0000 >= u * u,
            u > 0,
            PRECISION == 0xff_ffff,
    ;
    lemma_within_weakens(fit, 10, 20);
    lemma_within_weakens(w, 1, 20);
    assert(fit.num() * w.num() >= TINY * u) by (nonlinear_arith)
        requires
            2048 * fit.num() >= u,
            w.num() * 0x80_0000 >= u,
            u >= 0x1_0000_0000_0000_0000,
            TINY == 0x80_0000,
    ;
    lemma_about_rounded(fit, w);
    let m = fit.mul_spec(w);
    lemma_within_product(fit, w, 10, 1);
    lemma_within_weakens(m, 11, 20);
    lemma_within_weakens(f, 2, 20);
    let fw = fit.num() * w.num();
    assert(fw * (2048 * 0x80_0000) >= u * u) by (nonlinear_arith)
        requires
            2048 * fit.num() >= u,
            w.num() * 0x80_0000 >= u,
            fw == fit.num() * w.num(),
            u > 0,
    ;
    assert(m.num() * (4096 * 0x80_0000) >= u) by (nonlinear_arith)
        requires
            abs_int(m.num() * u - fw) * PRECISION <= 2 * fw,
            fw * (2048 * 0x80_0000) >= u * u,
            u > 0,
            PRECISION == 0xff_ffff,
    ;
    assert(4 * f.num() >= u);
    assert(m.num() * f.num() >= TINY * u) by (nonlinear_arith)
        requires
            m.num() * (4096 * 0x80_0000) >= u,
            4 * f.num() >= u,
            u >= 0x1_0000_0000_0000_0000 * 0x1_0000,
            TINY == 0x80_0000,
    ;
    lemma_about_rounded(m, f);
    let g = m.mul_spec(f).num();
    // g * u ~ m * f, m * u ~ fit * w, w * u ~ low * low
    let mu = m.num() * u;
    let wu = w.num() * u;
    lemma_about_product(mu, fw, 2, f.num(), liking(p, ad.0), 3);
    lemma_scale_about(g * u, m.num() * f.num(), 2, u);
    assert(m.num() * f.num() * u == mu * f.num()) by (nonlinear_arith)
        requires
            mu == m.num() * u,
    ;
    lemma_about_chain(g * u * u, mu * f.num(), 2, fw * liking(p, ad.0), 6);
    lemma_scale_about(g * u * u, fw * liking(p, ad.0), 9, u);
    lemma_about_product(fit.num(), x, 3, wu, ll, 40);
    lemma_about_self(liking(p, ad.0));
    lemma_about_product(fit.num() * wu, x * ll, 44, liking(p, ad.0), liking(p, ad.0), 0);
    assert(fw * liking(p, ad.0) * u == fit.num() * wu * liking(p, ad.0)) by (nonlinear_arith)
        requires
            fw == fit.num() * w.num(),
            wu == w.num() * u,
    ;
    assert(x * ll * liking(p, ad.0) >= 0) by (nonlinear_arith)
        requires
            x >= 0,
            ll >= 0,
            liking(p, ad.0) >= 0,
    ;
    lemma_about_chain(
        g * u * u * u,
        fw * liking(p, ad.0) * u,
        9,
        x * ll * liking(p, ad.0),
        45,
    );
    assert(g * u * u * u == g * (u * u * u)) by (nonlinear_arith);
    let all = x * ll * liking(p, ad.0);
    assert(is_about(g * (u * u * u), all, 55));
    assert(55 * all <= 100 * all);
    assert(is_about(g * (u * u * u), all, 100));
    assert(unit() * unit() * unit() == u * u * u);
}

proof fn lemma_about_self(a: int)
    ensures
        is_about(a, a, 0),
{
}

proof fn lemma_scale_about(a: int, b: int, k: int, u: int)
    requires
        is_about(a, b, k),
        u > 0,
    ensures
        is_about(a * u, b * u, k),
{
    let e = abs_int(a - b) as int;
    assert(abs_int(a * u - b * u) == e * u) by (nonlinear_arith)
        requires
            e == abs_int(a - b),
            u > 0,
    ;
    assert(e * u * PRECISION <= k * (b * u)) by (nonlinear_arith)
        requires
            e * PRECISION <= k * b,
            u > 0,
    ;
}

/// Gains of the first `k` ads together, exactly.
pub open spec fn all_gains(
    needs: Needs,
    p: Personality,
    ads: Seq<(NeedKind, Scalar)>,
    k: int,
) -> int
    decreases k,
{
    if k <= 0 {
        0
    } else {
        all_gains(needs, p, ads, k - 1) + ad_gain(needs, p, ads[k - 1]).num()
    }
}

proof fn lemma_gains(needs: Needs, p: Personality, ads: Seq<(NeedKind, Scalar)>, k: int)
    requires
        0 <= k <= ads.len(),
    ensures
        ({
            let list = ads.map_values(|ad: (NeedKind, Scalar)| ad_gain(needs, p, ad));
            &&& gain(needs, p, ads, k) == running_sum(list, k)
            &&& all_gains(needs, p, ads, k) == exact_sum(list, k)
        }),
    decreases k,
{
    if k > 0 {
        lemma_gains(needs, p, ads, k - 1);
    }
}

/// Every ad of a goal counts: what the goal is worth is the sum of what its ads
/// are worth, up to rounding.
pub proof fn law_every_ad_counts(needs: Needs, p: Personality, ads: Seq<(NeedKind, Scalar)>)
    requires
        ads.len() <= 1024,
        forall|i: int| 0 <= i < ads.len() ==> ad_gain(needs, p, #[trigger] ads[i]).within(11),
    ensures
        ({
            let n = ads.len() as int;
            abs_int(gain(needs, p, ads, n).num() - all_gains(needs, p, ads, n)) * PRECISION <= 6
                * n * (n * (0x800 * unit()))
        }),
{
    let n = ads.len() as int;
    let list = ads.map_values(|ad: (NeedKind, Scalar)| ad_gain(needs, p, ad));
    lemma_gains(needs, p, ads, n);
    assert forall|i: int| 0 <= i < list.len() implies (#[trigger] list[i]).within(40)
        && list[i].within(11) by {
        assert(ad_gain(needs, p, ads[i]).within(11));
        lemma_within_weakens(list[i], 11, 40);
    }
    lemma_running_sum(list, n);
    lemma_gain_size(list, n);
    let b = n * (0x800 * unit());
    assert(6 * n * exact_size(list, n) <= 6 * n * b) by (nonlinear_arith)
        requires
            exact_size(list, n) <= b,
            n >= 0,
    ;
}

proof fn lemma_gain_size(s: Seq<Scalar>, k: int)
    requires
        0 <= k <= s.len(),
        forall|i: int| 0 <= i < s.len() ==> (#[trigger] s[i]).within(11),
    ensures
        exact_size(s, k) <= k * (0x800 * unit()),
    decreases k,
{
    lemma2_to64();
    let b = 0x800 * unit();
    if k > 0 {
        lemma_gain_size(s, k - 1);
        assert(s[k - 1].within(11));
        assert(k * b == (k - 1) * b + b) by (nonlinear_arith);
    } else {
        assert(k * b == 0) by (nonlinear_arith)
            requires
                k == 0,
        ;
    }
}

/// A goal appeals when nobody else holds it and its score is above one in ten
/// thousand.
pub proof fn law_what_appeals(a: AgentView, g: GoalView)
    ensures
        appeals(a, g) == ((g.claimed_by matches Some(e) ==> e == a.id) && scalar(
            0x38d1_b717 /* 0.0001 */,
        ).lt_spec(score_of(a, g))),
{
}

/// The candidates that tie for best are those up to the first whose score falls
/// short of the best by more than a millionth, and at least the best one.
pub proof fn law_ties(s: Seq<Candidate>, i: int)
    requires
        s.len() > 0,
    ensures
        1 <= tied(s) <= s.len(),
        1 <= i < tied(s) ==> s[0].score.sub_spec(s[i].score).le_spec(
            scalar(0x3586_37bd /* 0.000001 */),
        ),
        1 < tied(s) < s.len() || (tied(s) < s.len() && s[0].score.sub_spec(s[0].score).le_spec(
            scalar(0x3586_37bd),
        )) ==> !s[0].score.sub_spec(s[tied(s)].score).le_spec(scalar(0x3586_37bd)),
{
    lemma_ties(s, 0, i);
}

proof fn lemma_ties(s: Seq<Candidate>, k: int, i: int)
    requires
        0 <= k <= s.len(),
    ensures
        k <= tied_from(s, k) <= s.len(),
        k <= i < tied_from(s, k) ==> s[0].score.sub_spec(s[i].score).le_spec(scalar(MICRO)),
        tied_from(s, k) < s.len() ==> !s[0].score.sub_spec(s[tied_from(s, k)].score).le_spec(
            scalar(MICRO),
        ),
    decreases s.len() - k,
{
    if k < s.len() && s[0].score.sub_spec(s[k].score).le_spec(scalar(MICRO)) {
        lemma_ties(s, k + 1, i);
    }
}

/// Whoever picks a goal sets out for the place where it stands, along the
/// planned route and with a claim on it, and the goal names the agent; whoever
/// picks none stays as they are.
pub proof fn law_picks_set_out(
    ground: Ground,
    agents: Seq<AgentView>,
    goals: Seq<GoalRowView>,
    rng: SimRng,
    i: int,
)
    requires
        0 <= i < agents.len(),
        goals.len() <= usize::MAX,
    ensures
        ({
            let d = decided(ground, agents, goals, rng, agents.len() as int);
            let r = assignment(ground, agents, goals, rng);
            &&& r.agents.len() == agents.len() && r.goals.len() == goals.len()
            &&& r.rng == d.rng
            &&& d.picks[i] is None ==> r.agents[i] == agents[i]
            &&& d.picks[i] matches Some(p) ==> {
                let g = goals[p.goal as int];
                &&& r.agents[i] == AgentView {
                    target: Some(WalkTarget { x: g.goal.x, z: g.goal.z, claim: Some(g.id) }),
                    route: Some(p.route),
                    state: AgentState::SeekGoal,
                    ..agents[i]
                }
                &&& r.goals[p.goal as int].goal.claimed_by == Some(agents[i].id)
            }
        }),
{
    let n = agents.len() as int;
    let d = decided(ground, agents, goals, rng, n);
    law_decisions(ground, agents, goals, rng, n);
    super::needs::lemma_claimed_ads(goals, agents, d.picks, n);
    if let Some(p) = d.picks[i] {
        super::claims::lemma_claimed_by(goals, agents, d.picks, n, p.goal as int);
    }
}

} // verus!
