//! Wages, shifts and the way to work.

use crate::scalar::arith::abs_int;
use crate::scalar::bounds::{
    lemma_product_error, lemma_unit_large, lemma_within_pattern, lemma_within_product, PRECISION,
    TINY,
};
use crate::scalar::consts::{HUNDRED, SECONDS_PER_HOUR, TWO};
use crate::scalar::convert::lemma_unit;
use crate::scalar::sums::{
    exact_size, exact_sum, lemma_exact_size, lemma_running_sum, running_sum, MOST_SUMMANDS,
};
use super::distance::lemma_sum_close;
use crate::scalar::{scalar, unit, Scalar};
use crate::sim::agent::{AgentState, AgentView, Commute, Employment, Position, WalkTarget};
use crate::sim::money::{law_no_lost_pennies, Money};
use crate::sim::route::Ground;
use crate::sim::systems::walk::dist2;
use crate::sim::systems::work::{credited, earned, paid_by, shifted};
use crate::sim::world::{
    first_index, lemma_first, lemma_first_facts, workplace_at, workplace_ids, SimView, WorkplaceRow,
};
use vstd::prelude::*;

verus! {

/// Site `j` employs the agent: it is the first of that identity.
pub open spec fn employs(sites: Seq<WorkplaceRow>, j: int, a: AgentView) -> bool {
    &&& 0 <= j < sites.len()
    &&& a.employment == Some(Employment { workplace: sites[j].id })
    &&& forall|i: int| 0 <= i < j ==> (#[trigger] sites[i]).id != sites[j].id
}

/// The shift of site `j` is on: from its start up to its end, past midnight
/// where the end comes first.
pub open spec fn is_open(sites: Seq<WorkplaceRow>, j: int, hour: u8) -> bool {
    let w = sites[j].workplace;
    (w.shift_start <= hour && hour < w.shift_end) || (w.shift_end < w.shift_start && (
    w.shift_start <= hour || hour < w.shift_end))
}

/// The agent works at site `j`: it is employed there, at work, in its shift and
/// within twice the arrival distance of the site.
pub open spec fn works_at(
    a: AgentView,
    sites: Seq<WorkplaceRow>,
    j: int,
    hour: u8,
    arrive: Scalar,
) -> bool {
    &&& employs(sites, j, a)
    &&& a.state == AgentState::Working
    &&& is_open(sites, j, hour)
    &&& dist2(sites[j].workplace.x, sites[j].workplace.z, a.pos).le_spec(
        arrive.mul_spec(scalar(TWO)).mul_spec(arrive.mul_spec(scalar(TWO))),
    )
}

/// What an agent at work earns in `dt` seconds at site `j`.
pub open spec fn wage(sites: Seq<WorkplaceRow>, j: int, dt: Scalar) -> Scalar {
    sites[j].workplace.pay_per_hour.div_spec(scalar(SECONDS_PER_HOUR)).mul_spec(dt)
}

/// The agent's wage, exactly: nothing for whoever does not work.
pub open spec fn wage_of(
    a: AgentView,
    sites: Seq<WorkplaceRow>,
    hour: u8,
    arrive: Scalar,
    dt: Scalar,
) -> int {
    if exists|j: int| works_at(a, sites, j, hour, arrive) {
        wage(sites, choose|j: int| works_at(a, sites, j, hour, arrive), dt).num()
    } else {
        0
    }
}

/// The wages of the first `k` agents together, exactly.
pub open spec fn wages(
    agents: Seq<AgentView>,
    sites: Seq<WorkplaceRow>,
    hour: u8,
    arrive: Scalar,
    dt: Scalar,
    k: int,
) -> int
    decreases k,
{
    if k <= 0 {
        0
    } else {
        wages(agents, sites, hour, arrive, dt, k - 1) + wage_of(
            agents[k - 1],
            sites,
            hour,
            arrive,
            dt,
        )
    }
}

/// Who is paid, and by whom.
proof fn lemma_paid(a: AgentView, sites: Seq<WorkplaceRow>, hour: u8, arrive: Scalar)
    ensures
        match paid_by(a, sites, hour, arrive) {
            Some(w) => exists|j: int| #[trigger]
                works_at(a, sites, j, hour, arrive) && sites[j].workplace == w,
            None => forall|j: int| !#[trigger] works_at(a, sites, j, hour, arrive),
        },
        forall|i: int, j: int| #[trigger]
            employs(sites, i, a) && #[trigger] employs(sites, j, a) ==> i == j,
{
    assert forall|i: int, j: int| #[trigger]
        employs(sites, i, a) && #[trigger] employs(sites, j, a) implies i == j by {
        if i < j {
            assert(sites[i].id != sites[j].id);
        } else if j < i {
            assert(sites[j].id != sites[i].id);
        }
    }
    if let Some(e) = a.employment {
        let ids = workplace_ids(sites);
        lemma_first_facts(ids, e.workplace);
        match first_index(ids, e.workplace) {
            Some(j) => {
                assert forall|i: int| 0 <= i < j implies (#[trigger] sites[i]).id
                    != sites[j].id by {
                    assert(ids[i] != e.workplace);
                }
                assert(employs(sites, j, a));
                assert forall|i: int| #[trigger]
                    works_at(a, sites, i, hour, arrive) implies i == j by {
                    assert(employs(sites, i, a));
                }
                if paid_by(a, sites, hour, arrive) is Some {
                    assert(works_at(a, sites, j, hour, arrive));
                }
            },
            None => {
                assert forall|i: int| !#[trigger] works_at(a, sites, i, hour, arrive) by {
                    if works_at(a, sites, i, hour, arrive) {
                        assert(ids[i] == e.workplace);
                        assert(ids.contains(e.workplace));
                    }
                }
            },
        }
    }
}

/// The wages paid to the first `k` agents, one for each that works.
spec fn payroll(
    agents: Seq<AgentView>,
    sites: Seq<WorkplaceRow>,
    hour: u8,
    arrive: Scalar,
    dt: Scalar,
    k: int,
) -> Seq<Scalar>
    decreases k,
{
    if k <= 0 {
        Seq::empty()
    } else {
        let before = payroll(agents, sites, hour, arrive, dt, k - 1);
        match paid_by(agents[k - 1], sites, hour, arrive) {
            Some(w) => before.push(
                w.pay_per_hour.div_spec(scalar(SECONDS_PER_HOUR)).mul_spec(dt),
            ),
            None => before,
        }
    }
}

proof fn lemma_sum_of_prefix(s: Seq<Scalar>, x: Scalar, k: int)
    requires
        0 <= k <= s.len(),
    ensures
        running_sum(s.push(x), k) == running_sum(s, k),
        exact_sum(s.push(x), k) == exact_sum(s, k),
        exact_size(s.push(x), k) == exact_size(s, k),
    decreases k,
{
    if k > 0 {
        lemma_sum_of_prefix(s, x, k - 1);
        assert(s.push(x)[k - 1] == s[k - 1]);
    }
}

proof fn lemma_payroll(
    agents: Seq<AgentView>,
    sites: Seq<WorkplaceRow>,
    hour: u8,
    arrive: Scalar,
    dt: Scalar,
    k: int,
)
    requires
        0 <= k <= agents.len(),
        pays_in_bounds(sites, dt),
    ensures
        ({
            let p = payroll(agents, sites, hour, arrive, dt, k);
            &&& p.len() <= k
            &&& earned(agents, sites, hour, arrive, dt, k) == running_sum(p, p.len() as int)
            &&& wages(agents, sites, hour, arrive, dt, k) == exact_sum(p, p.len() as int)
            &&& exact_size(p, p.len() as int) == exact_sum(p, p.len() as int)
            &&& forall|i: int|
                0 <= i < p.len() ==> (#[trigger] p[i]).within(40) && p[i].num() >= 0
        }),
    decreases k,
{
    if k > 0 {
        lemma_payroll(agents, sites, hour, arrive, dt, k - 1);
        let before = payroll(agents, sites, hour, arrive, dt, k - 1);
        let a = agents[k - 1];
        lemma_paid(a, sites, hour, arrive);
        let p = payroll(agents, sites, hour, arrive, dt, k);
        match paid_by(a, sites, hour, arrive) {
            Some(w) => {
                let j = choose|j: int| works_at(a, sites, j, hour, arrive);
                let i = choose|i: int| #[trigger]
                    works_at(a, sites, i, hour, arrive) && sites[i].workplace == w;
                assert(employs(sites, i, a) && employs(sites, j, a));
                assert(wage(sites, j, dt).within(40) && wage(sites, j, dt).num() >= 0);
                lemma_sum_of_prefix(before, wage(sites, j, dt), before.len() as int);
                assert(p == before.push(wage(sites, j, dt)));
            },
            None => {},
        }
    }
}

/// Every site pays, not less than nothing and not more than about a trillion.
pub open spec fn pays_in_bounds(sites: Seq<WorkplaceRow>, dt: Scalar) -> bool {
    forall|j: int|
        0 <= j < sites.len() ==> (#[trigger] wage(sites, j, dt)).within(40) && wage(
            sites,
            j,
            dt,
        ).num() >= 0
}

/// Everybody who works is paid: what a tick earns is the sum of the wages of
/// all agents that work, up to rounding, which is few parts in two to the 24
/// for each of them.
pub proof fn law_everyone_at_work_is_paid(
    agents: Seq<AgentView>,
    sites: Seq<WorkplaceRow>,
    hour: u8,
    arrive: Scalar,
    dt: Scalar,
)
    requires
        agents.len() <= MOST_SUMMANDS,
        pays_in_bounds(sites, dt),
    ensures
        ({
            let n = agents.len() as int;
            let sum = earned(agents, sites, hour, arrive, dt, n);
            let all = wages(agents, sites, hour, arrive, dt, n);
            &&& sum.within(62)
            &&& abs_int(sum.num() - all) * PRECISION <= 6 * n * all
            &&& 2 * abs_int(sum.num() - all) <= all
        }),
{
    let n = agents.len() as int;
    lemma_payroll(agents, sites, hour, arrive, dt, n);
    let p = payroll(agents, sites, hour, arrive, dt, n);
    let m = p.len() as int;
    lemma_running_sum(p, m);
    lemma_exact_size(p, m);
    let all = exact_sum(p, m);
    assert(6 * m * all <= 6 * n * all) by (nonlinear_arith)
        requires
            0 <= m <= n,
            all >= 0,
    ;
}

/// As many workers on the same pay earn as many times what one of them earns,
/// up to rounding.
pub proof fn law_pay_is_per_head(
    agents: Seq<AgentView>,
    sites: Seq<WorkplaceRow>,
    hour: u8,
    arrive: Scalar,
    dt: Scalar,
    j: int,
)
    requires
        0 < agents.len() <= MOST_SUMMANDS,
        pays_in_bounds(sites, dt),
        forall|i: int|
            0 <= i < agents.len() ==> works_at(#[trigger] agents[i], sites, j, hour, arrive),
    ensures
        ({
            let n = agents.len() as int;
            let sum = earned(agents, sites, hour, arrive, dt, n).num();
            abs_int(sum - n * wage(sites, j, dt).num()) * PRECISION <= 6 * n * (n * wage(
                sites,
                j,
                dt,
            ).num())
        }),
{
    let n = agents.len() as int;
    law_everyone_at_work_is_paid(agents, sites, hour, arrive, dt);
    lemma_equal_wages(agents, sites, hour, arrive, dt, j, n);
}

proof fn lemma_equal_wages(
    agents: Seq<AgentView>,
    sites: Seq<WorkplaceRow>,
    hour: u8,
    arrive: Scalar,
    dt: Scalar,
    j: int,
    k: int,
)
    requires
        0 <= k <= agents.len(),
        forall|i: int|
            0 <= i < agents.len() ==> works_at(#[trigger] agents[i], sites, j, hour, arrive),
    ensures
        wages(agents, sites, hour, arrive, dt, k) == k * wage(sites, j, dt).num(),
    decreases k,
{
    let w = wage(sites, j, dt).num();
    if k > 0 {
        lemma_equal_wages(agents, sites, hour, arrive, dt, j, k - 1);
        let a = agents[k - 1];
        assert(works_at(a, sites, j, hour, arrive));
        lemma_paid(a, sites, hour, arrive);
        let i = choose|i: int| works_at(a, sites, i, hour, arrive);
        assert(employs(sites, i, a) && employs(sites, j, a));
        assert(k * w == (k - 1) * w + w) by (nonlinear_arith);
    } else {
        assert(k * w == 0) by (nonlinear_arith)
            requires
                k == 0,
        ;
    }
}

/// What an account holds, in cents and in units of two to the minus 149.
pub open spec fn holdings(m: Money) -> int {
    m.cents * unit() + m.frac.num()
}

/// Money that comes in stays: an account grows by a hundred cents for each
/// dollar credited, up to rounding.
pub proof fn law_credit_reaches_the_account(m: Money, dollars: Scalar)
    requires
        dollars.within(40),
        m.frac.within(0),
        -0x1000_0000_0000_0000 <= m.cents <= 0x1000_0000_0000_0000,
    ensures
        abs_int(holdings(credited(m, dollars)) - (holdings(m) + 100 * dollars.num())) * 0x1_0000
            <= 100 * abs_int(dollars.num()) + abs_int(m.frac.num()) + unit(),
{
    lemma_unit();
    lemma_unit_large();
    vstd::arithmetic::power2::lemma2_to64();
    crate::scalar::order::lemma_one();
    let u = unit() as int;
    let d = dollars.num();
    let hundred = scalar(HUNDRED);
    lemma_hundred();
    lemma_within_pattern(hundred, 7);
    let h = dollars.mul_spec(hundred);
    lemma_within_product(dollars, hundred, 40, 7);
    lemma_product_error(dollars, hundred);
    let e = abs_int(h.num() - 100 * d) as int;
    assert(abs_int(h.num() * u - d * (100 * u)) == e * u) by (nonlinear_arith)
        requires
            e == abs_int(h.num() - 100 * d),
            u > 0,
    ;
    assert(abs_int(d * (100 * u)) == 100 * abs_int(d) * u) by (nonlinear_arith)
        requires
            u > 0,
    ;
    assert(e * PRECISION <= 100 * abs_int(d) + TINY) by (nonlinear_arith)
        requires
            e * u * PRECISION <= 100 * abs_int(d) * u + TINY * u,
            u > 0,
    ;
    crate::scalar::bounds::lemma_within_weakens(m.frac, 0, 47);
    let t = m.frac.add_spec(h);
    crate::scalar::bounds::lemma_within_sum(m.frac, h, 47);
    lemma_sum_close(m.frac, h);
    if !dollars.same_spec(scalar(0)) {
        assert(t == m.total(dollars));
        crate::scalar::bounds::lemma_sum(m.frac, h);
        vstd::arithmetic::power2::lemma_pow2_adds(16, 32);
        assert(-0x1_0000_0000_0000 * u <= t.num() <= 0x1_0000_0000_0000 * u);
        let q = t.num() / u;
        vstd::arithmetic::div_mod::lemma_fundamental_div_mod(t.num(), u);
        vstd::arithmetic::div_mod::lemma_mod_bound(t.num(), u);
        assert(-0x1_0000_0000_0001 <= q <= 0x1_0000_0000_0001) by (nonlinear_arith)
            requires
                t.num() == u * q + t.num() % u,
                0 <= t.num() % u < u,
                -0x1_0000_0000_0000 * u <= t.num() <= 0x1_0000_0000_0000 * u,
                u > 0,
        ;
        law_no_lost_pennies(m, dollars);
    }
}

/// One hundred is a hundred units.
pub proof fn lemma_hundred()
    ensures
        scalar(HUNDRED).num() == 100 * unit(),
        scalar(HUNDRED).is_finite_spec(),
{
    vstd::arithmetic::power2::lemma2_to64();
    vstd::arithmetic::div_mod::lemma_fundamental_div_mod_converse(
        HUNDRED as int,
        crate::scalar::BINADE as int,
        133,
        0x48_0000,
    );
    vstd::arithmetic::power2::lemma_pow2_adds(17, 132);
    assert(0x80_0000 + 0x48_0000 == 100 * 0x2_0000);
    let w = vstd::arithmetic::power2::pow2(132) as int;
    assert((0x80_0000 + 0x48_0000) * w == 100 * (0x2_0000 * w)) by (nonlinear_arith);
}

/// Wages go to the household, and to nobody else: a tick's shifts credit the
/// funds with what the agents earn after clocking in and out.
pub proof fn law_wages_reach_the_household(s: SimView, dt: Scalar)
    requires
        s.agents.len() <= MOST_SUMMANDS,
        pays_in_bounds(s.workplaces, dt),
        wages(
            s.after_work(dt).agents,
            s.workplaces,
            s.hour,
            s.config.arrive_dist,
            dt,
            s.agents.len() as int,
        ) <= 0x1_0000_0000 * unit(),
        s.funds.frac.within(0),
        -0x1000_0000_0000_0000 <= s.funds.cents <= 0x1000_0000_0000_0000,
    ensures
        ({
            let t = s.after_work(dt);
            let all = wages(
                t.agents,
                s.workplaces,
                s.hour,
                s.config.arrive_dist,
                dt,
                s.agents.len() as int,
            );
            &&& t.treasury == s.treasury
            &&& abs_int(holdings(t.funds) - (holdings(s.funds) + 100 * all)) * PRECISION <= 600
                * s.agents.len() * all + 0x100 * (200 * all + abs_int(s.funds.frac.num()) + unit())
        }),
{
    let t = s.after_work(dt);
    let n = s.agents.len() as int;
    let arrive = s.config.arrive_dist;
    assert(t.agents.len() == n);
    law_everyone_at_work_is_paid(t.agents, s.workplaces, s.hour, arrive, dt);
    let sum = earned(t.agents, s.workplaces, s.hour, arrive, dt, n);
    let all = wages(t.agents, s.workplaces, s.hour, arrive, dt, n);
    lemma_unit();
    vstd::arithmetic::power2::lemma2_to64();
    vstd::arithmetic::power2::lemma_pow2_adds(32, 8);
    assert(sum.within(40));
    law_credit_reaches_the_account(s.funds, sum);
    let e = abs_int(sum.num() - all) as int;
    let h = holdings(t.funds);
    let g = holdings(s.funds);
    let f = abs_int(h - (g + 100 * sum.num())) as int;
    assert(abs_int(h - (g + 100 * all)) <= f + 100 * e);
    assert(f * PRECISION <= 0x100 * (f * 0x1_0000));
    assert(100 * e * PRECISION <= 600 * n * all) by (nonlinear_arith)
        requires
            e * PRECISION <= 6 * n * all,
    ;
    assert(abs_int(sum.num()) <= 2 * all);
}

/// Idle employees without orders, errand or commute set out for work when
/// their shift is on and the site can be reached; others do not.
pub proof fn law_shifts_call_to_work(
    a: AgentView,
    ground: Ground,
    sites: Seq<WorkplaceRow>,
    hour: u8,
    j: int,
)
    requires
        employs(sites, j, a),
        a.commute is None,
    ensures
        ({
            let w = sites[j].workplace;
            let b = shifted(a, ground, sites, hour);
            let free = a.state == AgentState::Idle && a.queue.len() == 0 && a.target is None;
            match ground.plan(a.pos, Position { x: w.x, z: w.z }) {
                Some(route) => if free && is_open(sites, j, hour) {
                    b == (AgentView {
                        commute: Some(Commute(sites[j].id)),
                        target: Some(WalkTarget { x: w.x, z: w.z, claim: None }),
                        route: Some(route),
                        state: AgentState::SeekGoal,
                        ..a
                    })
                } else {
                    b == a
                },
                None => b == a,
            }
        }),
{
    lemma_site(sites, j, a);
}

proof fn lemma_site(sites: Seq<WorkplaceRow>, j: int, a: AgentView)
    requires
        employs(sites, j, a),
    ensures
        workplace_at(sites, sites[j].id) == Some(sites[j].workplace),
{
    let ids = workplace_ids(sites);
    assert forall|i: int| 0 <= i < j implies #[trigger] ids[i] != sites[j].id by {
        assert(sites[i].id != sites[j].id);
    }
    lemma_first(ids, sites[j].id, j);
}

/// Whoever commutes or works is let go exactly when the shift is over or the
/// job is another one: then it is as if the agent had stood idle there, without
/// commute or walk. Otherwise it goes on.
pub proof fn law_shifts_end(
    a: AgentView,
    ground: Ground,
    sites: Seq<WorkplaceRow>,
    hour: u8,
    site: WorkplaceRow,
)
    requires
        a.commute == Some(Commute(site.id)),
        a.state == AgentState::Working || a.state == AgentState::SeekGoal,
    ensures
        ({
            let b = shifted(a, ground, sites, hour);
            if exists|j: int| employs(sites, j, a) && sites[j].id == site.id && is_open(
                sites,
                j,
                hour,
            ) {
                b == a
            } else {
                b == shifted(
                    AgentView {
                        commute: None,
                        target: None,
                        route: None,
                        state: AgentState::Idle,
                        ..a
                    },
                    ground,
                    sites,
                    hour,
                )
            }
        }),
{
    let ids = workplace_ids(sites);
    lemma_first_facts(ids, site.id);
    if exists|j: int| employs(sites, j, a) && sites[j].id == site.id && is_open(sites, j, hour) {
        let j = choose|j: int|
            employs(sites, j, a) && sites[j].id == site.id && is_open(sites, j, hour);
        lemma_site(sites, j, a);
    } else if a.employment == Some(Employment { workplace: site.id }) {
        if let Some(j) = first_index(ids, site.id) {
            assert forall|i: int| 0 <= i < j implies (#[trigger] sites[i]).id != sites[j].id by {
                assert(ids[i] != site.id);
            }
            assert(employs(sites, j, a) && sites[j].id == site.id);
            assert(!is_open(sites, j, hour));
        }
    }
}

} // verus!
