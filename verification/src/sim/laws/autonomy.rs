//! What free will guarantees.

use crate::scalar::consts::{HALF, ONE, ZERO};
use crate::scalar::order::{
    lemma_one, lemma_sub_decreases, lemma_sub_nonpositive, lemma_sub_unit_finite, lemma_sum_finite,
    lemma_unit_finite, lemma_zero_pattern, lemma_zero_product, lemma_zero_quotient, lemma_zero_sum,
};
use crate::scalar::round::lemma_magnitude_increases;
use crate::scalar::{magnitude, scalar, Scalar, INF_PATTERN};
use crate::sim::agent::{AgentView, NeedKind, Personality, Position};
use crate::sim::route::Ground;
use crate::sim::systems::autonomy::{
    ad_gain, appeals, assignment, at_leisure, candidates, chacha_index, decided, first_pick, gain,
    lemma_ranked_in_members, lemma_tied, ranked, ranked_in, ranking_of, score_of, tied, turn,
    weight, Candidate, Pick, MIN_SCORE, SATISFIED,
};
use crate::sim::systems::walk::dist2;
use crate::sim::world::{GoalRowView, SimRng};
use vstd::prelude::*;

verus! {

/// `x` is tried before `y`: it scores more, or as much and stands earlier.
pub open spec fn ahead(x: Candidate, y: Candidate) -> bool {
    y.score.lt_spec(x.score) || (y.score.same_spec(x.score) && x.goal < y.goal)
}

/// Everything is ahead of what follows it.
pub open spec fn in_order(s: Seq<Candidate>) -> bool {
    forall|i: int, j: int| 0 <= i < j < s.len() ==> ahead(#[trigger] s[i], #[trigger] s[j])
}

/// All scores are numbers.
pub open spec fn scored(s: Seq<Candidate>) -> bool {
    forall|i: int| 0 <= i < s.len() ==> !(#[trigger] s[i]).score.is_nan_spec()
}

proof fn lemma_in_order(s: Seq<Candidate>, x: Candidate)
    requires
        in_order(s),
        scored(s),
        !x.score.is_nan_spec(),
        forall|i: int| 0 <= i < s.len() ==> (#[trigger] s[i]).goal < x.goal,
    ensures
        in_order(ranked_in(s, x)),
        scored(ranked_in(s, x)),
    decreases s.len(),
{
    lemma_ranked_in_members(s, x);
    let r = ranked_in(s, x);
    assert(scored(r)) by {
        assert forall|i: int| 0 <= i < r.len() implies !(#[trigger] r[i]).score.is_nan_spec() by {
            assert(r[i] == x || s.contains(r[i]));
        }
    }
    if s.len() > 0 && s.last().score.lt_spec(x.score) {
        let t = s.drop_last();
        assert forall|i: int| 0 <= i < t.len() implies (#[trigger] t[i]).goal < x.goal by {
            assert(t[i] == s[i]);
        }
        assert(in_order(t)) by {
            assert forall|i: int, j: int| 0 <= i < j < t.len() implies ahead(
                #[trigger] t[i],
                #[trigger] t[j],
            ) by {
                assert(t[i] == s[i] && t[j] == s[j]);
            }
        }
        assert(scored(t)) by {
            assert forall|i: int| 0 <= i < t.len() implies !(
            #[trigger] t[i]).score.is_nan_spec() by {
                assert(t[i] == s[i]);
            }
        }
        lemma_in_order(t, x);
        lemma_ranked_in_members(t, x);
        let q = ranked_in(t, x);
        assert(r == q.push(s.last()));
        assert forall|i: int, j: int| 0 <= i < j < r.len() implies ahead(
            #[trigger] r[i],
            #[trigger] r[j],
        ) by {
            assert(r[i] == q[i]);
            if j < q.len() {
                assert(r[j] == q[j]);
            } else {
                assert(q[i] == x || t.contains(q[i]));
                if q[i] != x {
                    let k = choose|k: int| 0 <= k < t.len() && t[k] == q[i];
                    assert(s[k] == t[k]);
                    assert(ahead(s[k], s[s.len() - 1]));
                }
            }
        }
    } else {
        assert forall|i: int, j: int| 0 <= i < j < r.len() implies ahead(
            #[trigger] r[i],
            #[trigger] r[j],
        ) by {
            assert(r[i] == s[i]);
            if j < s.len() {
                assert(r[j] == s[j]);
            } else {
                assert(s[i].goal < x.goal);
                if i < s.len() - 1 {
                    assert(ahead(s[i], s[s.len() - 1]));
                }
                assert(!s.last().score.lt_spec(x.score));
                assert(!s[s.len() - 1].score.is_nan_spec());
                assert(!s[i].score.is_nan_spec());
            }
        }
    }
}

proof fn lemma_candidate_facts(a: AgentView, goals: Seq<GoalRowView>, k: int)
    requires
        0 <= k <= goals.len(),
        goals.len() <= usize::MAX,
    ensures
        forall|i: int|
            0 <= i < candidates(a, goals, k).len() ==> {
                let c = #[trigger] candidates(a, goals, k)[i];
                c.goal < k && appeals(a, goals[c.goal as int].goal) && c.score == score_of(
                    a,
                    goals[c.goal as int].goal,
                )
            },
        forall|j: int|
            0 <= j < k && appeals(a, (#[trigger] goals[j]).goal) ==> candidates(
                a,
                goals,
                k,
            ).contains(Candidate { score: score_of(a, goals[j].goal), goal: j as usize }),
    decreases k,
{
    if k > 0 {
        lemma_candidate_facts(a, goals, k - 1);
        let c = candidates(a, goals, k);
        let b = candidates(a, goals, k - 1);
        assert forall|j: int| 0 <= j < k && appeals(a, (#[trigger] goals[j]).goal) implies c.contains(
            Candidate { score: score_of(a, goals[j].goal), goal: j as usize },
        ) by {
            let x = Candidate { score: score_of(a, goals[j].goal), goal: j as usize };
            if j < k - 1 {
                let i = choose|i: int| 0 <= i < b.len() && b[i] == x;
                assert(c[i] == x);
            } else {
                assert(c[c.len() - 1] == x);
            }
        }
    }
}

/// The members of `ranked_in`, the other way round.
proof fn lemma_ranked_in_keeps(s: Seq<Candidate>, x: Candidate, y: Candidate)
    requires
        y == x || s.contains(y),
    ensures
        ranked_in(s, x).contains(y),
    decreases s.len(),
{
    let r = ranked_in(s, x);
    if s.len() > 0 && s.last().score.lt_spec(x.score) {
        let t = s.drop_last();
        if y == s.last() {
            assert(r[r.len() - 1] == y);
        } else {
            if y != x {
                let i = choose|i: int| 0 <= i < s.len() && s[i] == y;
                assert(t[i] == y);
            }
            lemma_ranked_in_keeps(t, x, y);
            let i = choose|i: int| 0 <= i < ranked_in(t, x).len() && ranked_in(t, x)[i] == y;
            assert(r[i] == y);
        }
    } else if y == x {
        assert(r[r.len() - 1] == y);
    } else {
        let i = choose|i: int| 0 <= i < s.len() && s[i] == y;
        assert(r[i] == y);
    }
}

proof fn lemma_ranked(a: AgentView, goals: Seq<GoalRowView>, k: int)
    requires
        0 <= k <= goals.len(),
        goals.len() <= usize::MAX,
    ensures
        ({
            let c = candidates(a, goals, k);
            let r = ranked(c);
            &&& r.len() == c.len()
            &&& in_order(r)
            &&& scored(r)
            &&& forall|i: int| 0 <= i < r.len() ==> c.contains(#[trigger] r[i])
            &&& forall|y: Candidate| c.contains(y) ==> #[trigger] r.contains(y)
        }),
    decreases k,
{
    if k > 0 {
        lemma_ranked(a, goals, k - 1);
        lemma_candidate_facts(a, goals, k - 1);
        let b = candidates(a, goals, k - 1);
        let c = candidates(a, goals, k);
        if appeals(a, goals[k - 1].goal) {
            let x = c.last();
            assert(c.drop_last() =~= b);
            let rb = ranked(b);
            assert forall|i: int| 0 <= i < rb.len() implies (#[trigger] rb[i]).goal < x.goal by {
                assert(b.contains(rb[i]));
                let m = choose|m: int| 0 <= m < b.len() && b[m] == rb[i];
                assert(b[m].goal < k - 1);
            }
            lemma_in_order(rb, x);
            lemma_ranked_in_members(rb, x);
            let r = ranked(c);
            assert(r == ranked_in(rb, x));
            assert forall|i: int| 0 <= i < r.len() implies c.contains(#[trigger] r[i]) by {
                if r[i] == x {
                    assert(c[c.len() - 1] == x);
                } else {
                    assert(rb.contains(r[i]));
                    let m = choose|m: int| 0 <= m < rb.len() && rb[m] == r[i];
                    assert(b.contains(rb[m]));
                    let n = choose|n: int| 0 <= n < b.len() && b[n] == r[i];
                    assert(c[n] == r[i]);
                }
            }
            assert forall|y: Candidate| c.contains(y) implies #[trigger] r.contains(y) by {
                if y != x {
                    let n = choose|n: int| 0 <= n < c.len() && c[n] == y;
                    assert(b[n] == y);
                    assert(b.contains(y));
                    assert(rb.contains(y));
                }
                lemma_ranked_in_keeps(rb, x, y);
            }
        }
    }
}

/// An agent ranks exactly the goals that appeal to it, best first; of goals
/// that score the same, the one that stands earlier comes first.
pub proof fn law_ranking(a: AgentView, goals: Seq<GoalRowView>)
    requires
        goals.len() <= usize::MAX,
    ensures
        in_order(ranking_of(a, goals)),
        forall|i: int|
            0 <= i < ranking_of(a, goals).len() ==> {
                let c = #[trigger] ranking_of(a, goals)[i];
                c.goal < goals.len() && appeals(a, goals[c.goal as int].goal) && c.score
                    == score_of(a, goals[c.goal as int].goal)
            },
        forall|j: int|
            0 <= j < goals.len() && appeals(a, (#[trigger] goals[j]).goal) ==> ranking_of(
                a,
                goals,
            ).contains(Candidate { score: score_of(a, goals[j].goal), goal: j as usize }),
{
    let n = goals.len() as int;
    lemma_ranked(a, goals, n);
    lemma_candidate_facts(a, goals, n);
    let c = candidates(a, goals, n);
    let r = ranking_of(a, goals);
    assert forall|i: int| 0 <= i < r.len() implies ({
        let c = #[trigger] r[i];
        c.goal < goals.len() && appeals(a, goals[c.goal as int].goal) && c.score == score_of(
            a,
            goals[c.goal as int].goal,
        )
    }) by {
        assert(c.contains(r[i]));
        let m = choose|m: int| 0 <= m < c.len() && c[m] == r[i];
        assert(c[m].goal < n);
    }
    assert forall|j: int| 0 <= j < goals.len() && appeals(
        a,
        (#[trigger] goals[j]).goal,
    ) implies r.contains(Candidate { score: score_of(a, goals[j].goal), goal: j as usize }) by {
        assert(c.contains(Candidate { score: score_of(a, goals[j].goal), goal: j as usize }));
    }
}

/// A place in the ranking cannot be used: its goal is taken or out of reach.
pub open spec fn is_out(
    ground: Ground,
    goals: Seq<GoalRowView>,
    from: Position,
    taken: Seq<bool>,
    c: Candidate,
) -> bool {
    let g = goals[c.goal as int].goal;
    taken[c.goal as int] || ground.plan(from, Position { x: g.x, z: g.z }) is None
}

/// Where the first pick from turn `m` on comes from.
proof fn lemma_first_pick(
    ground: Ground,
    goals: Seq<GoalRowView>,
    from: Position,
    ranking: Seq<Candidate>,
    off: int,
    taken: Seq<bool>,
    m: int,
) -> (t: int)
    requires
        0 <= m <= ranking.len(),
        ranking.len() > 0,
    ensures
        m <= t <= ranking.len(),
        forall|u: int|
            m <= u < t ==> is_out(
                ground,
                goals,
                from,
                taken,
                ranking[#[trigger] turn(tied(ranking), off, u)],
            ),
        match first_pick(ground, goals, from, ranking, off, taken, m) {
            Some(p) => {
                let c = ranking[turn(tied(ranking), off, t)];
                let g = goals[c.goal as int].goal;
                &&& t < ranking.len()
                &&& p.goal == c.goal
                &&& !taken[p.goal as int]
                &&& ground.plan(from, Position { x: g.x, z: g.z }) == Some(p.route)
            },
            None => t == ranking.len(),
        },
    decreases ranking.len() - m,
{
    if m >= ranking.len() {
        m
    } else {
        let c = ranking[turn(tied(ranking), off, m)];
        if is_out(ground, goals, from, taken, c) {
            let t = lemma_first_pick(ground, goals, from, ranking, off, taken, m + 1);
            assert forall|u: int| m <= u < t implies is_out(
                ground,
                goals,
                from,
                taken,
                ranking[#[trigger] turn(tied(ranking), off, u)],
            ) by {
                if u > m {
                    assert(m + 1 <= u < t);
                }
            }
            t
        } else {
            m
        }
    }
}

/// Turns stay inside the ranking.
proof fn lemma_turn(ranking: Seq<Candidate>, off: int, m: int)
    requires
        0 <= m < ranking.len(),
        off >= 0,
    ensures
        0 <= turn(tied(ranking), off, m) < ranking.len(),
        1 <= tied(ranking) <= ranking.len(),
        m < tied(ranking) ==> turn(tied(ranking), off, m) < tied(ranking),
{
    lemma_tied(ranking, 0);
    if m < tied(ranking) {
        vstd::arithmetic::div_mod::lemma_mod_bound(off + m, tied(ranking));
    }
}

/// Every tied place has its turn among the first.
proof fn lemma_turn_reaches(ranking: Seq<Candidate>, off: int, i: int) -> (m: int)
    requires
        ranking.len() > 0,
        0 <= i < tied(ranking),
        off >= 0,
    ensures
        0 <= m < tied(ranking),
        turn(tied(ranking), off, m) == i,
{
    lemma_tied(ranking, 0);
    let n = tied(ranking);
    let m = (i - off) % n;
    vstd::arithmetic::div_mod::lemma_mod_bound(i - off, n);
    vstd::arithmetic::div_mod::lemma_fundamental_div_mod(i - off, n);
    let q = (i - off) / n;
    assert(off + m == (-q) * n + i) by (nonlinear_arith)
        requires
            i - off == n * q + m,
    ;
    vstd::arithmetic::div_mod::lemma_fundamental_div_mod_converse(off + m, n, -q, i);
    m
}

/// What the decisions of the first `k` agents amount to.
pub open spec fn decisions_hold(
    ground: Ground,
    agents: Seq<AgentView>,
    goals: Seq<GoalRowView>,
    rng: SimRng,
    k: int,
) -> bool {
    let d = decided(ground, agents, goals, rng, k);
    &&& d.picks.len() == k
    &&& d.taken.len() == goals.len()
    &&& forall|i: int|
        0 <= i < k ==> ((#[trigger] d.picks[i]) matches Some(p) ==> {
            &&& p.goal < goals.len()
            &&& at_leisure(agents[i])
            &&& appeals(agents[i], goals[p.goal as int].goal)
            &&& d.taken[p.goal as int]
            &&& ground.plan(
                agents[i].pos,
                Position { x: goals[p.goal as int].goal.x, z: goals[p.goal as int].goal.z },
            ) == Some(p.route)
        })
    &&& forall|i: int, j: int|
        0 <= i < j < k ==> ((#[trigger] d.picks[i]) matches Some(p) ==> ((
        #[trigger] d.picks[j]) matches Some(q) ==> p.goal != q.goal))
}

/// Whoever sets out in a tick was at leisure, goes to a goal that appealed to
/// it, along the planned route; and no two set out for the same goal.
pub proof fn law_decisions(
    ground: Ground,
    agents: Seq<AgentView>,
    goals: Seq<GoalRowView>,
    rng: SimRng,
    k: int,
)
    requires
        0 <= k <= agents.len(),
        goals.len() <= usize::MAX,
    ensures
        decisions_hold(ground, agents, goals, rng, k),
    decreases k,
{
    if k > 0 {
        law_decisions(ground, agents, goals, rng, k - 1);
        let d = decided(ground, agents, goals, rng, k - 1);
        let e = decided(ground, agents, goals, rng, k);
        let a = agents[k - 1];
        let ranking = ranking_of(a, goals);
        if at_leisure(a) && ranking.len() > 0 {
            law_ranking(a, goals);
            let r = d.rng;
            let draw = chacha_index(r.seed, r.word_pos, tied(ranking) as usize);
            let off = draw.0 as int;
            let t = lemma_first_pick(ground, goals, a.pos, ranking, off, d.taken, 0);
            if t < ranking.len() {
                lemma_turn(ranking, off, t);
                let c = ranking[turn(tied(ranking), off, t)];
                assert(c.goal < goals.len());
            }
        }
        assert forall|i: int| 0 <= i < k implies ((#[trigger] e.picks[i]) matches Some(p) ==> {
            &&& p.goal < goals.len()
            &&& at_leisure(agents[i])
            &&& appeals(agents[i], goals[p.goal as int].goal)
            &&& e.taken[p.goal as int]
            &&& ground.plan(
                agents[i].pos,
                Position { x: goals[p.goal as int].goal.x, z: goals[p.goal as int].goal.z },
            ) == Some(p.route)
        }) by {
            if i < k - 1 {
                assert(e.picks[i] == d.picks[i]);
            }
        }
        assert forall|i: int, j: int| 0 <= i < j < k implies ((
        #[trigger] e.picks[i]) matches Some(p) ==> ((#[trigger] e.picks[j]) matches Some(q)
            ==> p.goal != q.goal)) by {
            assert(e.picks[i] == d.picks[i]);
            if j < k - 1 {
                assert(e.picks[j] == d.picks[j]);
            }
        }
    }
}

/// Turn at which place `i` of a ranking is tried, where the `tied` first
/// places are rotated by `off`.
pub open spec fn turn_of(tied: int, off: int, i: int) -> int {
    if i < tied {
        (i - off) % tied
    } else {
        i
    }
}

proof fn lemma_turn_of(ranking: Seq<Candidate>, off: int, i: int)
    requires
        0 <= i < ranking.len(),
        off >= 0,
    ensures
        0 <= turn_of(tied(ranking), off, i) < ranking.len(),
        turn(tied(ranking), off, turn_of(tied(ranking), off, i)) == i,
        i < tied(ranking) ==> turn_of(tied(ranking), off, i) < tied(ranking),
{
    lemma_turn(ranking, off, i);
    if i < tied(ranking) {
        let m = lemma_turn_reaches(ranking, off, i);
        let n = tied(ranking);
        vstd::arithmetic::div_mod::lemma_mod_bound(i - off, n);
        vstd::arithmetic::div_mod::lemma_fundamental_div_mod(off + m, n);
        let q = (off + m) / n;
        assert(i - off == (-q) * n + m) by (nonlinear_arith)
            requires
                off + m == n * q + i,
        ;
        vstd::arithmetic::div_mod::lemma_fundamental_div_mod_converse(i - off, n, -q, m);
    }
}

/// Place `k` of the ranking is the pick: its goal is free and can be reached,
/// and every place that is tried earlier is taken or out of reach. That is
/// every better place, but for places that tie for best: these are tried in a
/// rotated order.
pub open spec fn is_best_left(
    ground: Ground,
    goals: Seq<GoalRowView>,
    from: Position,
    ranking: Seq<Candidate>,
    off: int,
    taken: Seq<bool>,
    p: Pick,
    k: int,
) -> bool {
    let n = tied(ranking);
    &&& 0 <= k < ranking.len()
    &&& ranking[k].goal == p.goal
    &&& !taken[p.goal as int]
    &&& ground.plan(
        from,
        Position { x: goals[p.goal as int].goal.x, z: goals[p.goal as int].goal.z },
    ) == Some(p.route)
    &&& forall|i: int|
        0 <= i < ranking.len() && turn_of(n, off, i) < turn_of(n, off, k) ==> is_out(
            ground,
            goals,
            from,
            taken,
            #[trigger] ranking[i],
        )
    &&& k >= n ==> forall|i: int|
        0 <= i < k ==> is_out(ground, goals, from, taken, #[trigger] ranking[i])
}

/// An agent sets out for the best goal left: it is free and can be reached,
/// and whatever was tried before it, which outside the tie for best is all
/// that ranks higher, is taken or out of reach. An agent that sets out for
/// none has every goal that appeals to it taken or out of reach.
pub proof fn law_best_goal_first(
    ground: Ground,
    goals: Seq<GoalRowView>,
    a: AgentView,
    off: int,
    taken: Seq<bool>,
)
    requires
        goals.len() <= usize::MAX,
        off >= 0,
    ensures
        match first_pick(ground, goals, a.pos, ranking_of(a, goals), off, taken, 0) {
            Some(p) => exists|k: int| #[trigger]
                is_best_left(ground, goals, a.pos, ranking_of(a, goals), off, taken, p, k),
            None => forall|j: int|
                0 <= j < goals.len() && appeals(a, (#[trigger] goals[j]).goal) ==> taken[j]
                    || ground.plan(
                    a.pos,
                    Position { x: goals[j].goal.x, z: goals[j].goal.z },
                ) is None,
        },
{
    law_ranking(a, goals);
    let ranking = ranking_of(a, goals);
    let n = tied(ranking);
    if ranking.len() > 0 {
        let t = lemma_first_pick(ground, goals, a.pos, ranking, off, taken, 0);
        match first_pick(ground, goals, a.pos, ranking, off, taken, 0) {
            Some(p) => {
                lemma_turn(ranking, off, t);
                let k = turn(n, off, t);
                assert forall|i: int|
                    0 <= i < ranking.len() && turn_of(n, off, i) < t implies is_out(
                    ground,
                    goals,
                    a.pos,
                    taken,
                    #[trigger] ranking[i],
                ) by {
                    lemma_turn_of(ranking, off, i);
                    assert(is_out(
                        ground,
                        goals,
                        a.pos,
                        taken,
                        ranking[turn(n, off, turn_of(n, off, i))],
                    ));
                }
                lemma_turn_of(ranking, off, k);
                assert(turn_of(n, off, k) == t) by {
                    if t < n {
                        let m = turn_of(n, off, k);
                        // two turns of the same tied place
                        assert((off + m) % n == (off + t) % n);
                        vstd::arithmetic::div_mod::lemma_fundamental_div_mod(off + m, n);
                        vstd::arithmetic::div_mod::lemma_fundamental_div_mod(off + t, n);
                        let q = (off + m) / n - (off + t) / n;
                        assert(m - t == n * q) by (nonlinear_arith)
                            requires
                                off + m == n * ((off + m) / n) + (off + m) % n,
                                off + t == n * ((off + t) / n) + (off + t) % n,
                                (off + m) % n == (off + t) % n,
                                q == (off + m) / n - (off + t) / n,
                        ;
                        assert(q == 0) by (nonlinear_arith)
                            requires
                                m - t == n * q,
                                -n < m - t < n,
                                n > 0,
                        ;
                    }
                }
                if k >= n {
                    assert forall|i: int| 0 <= i < k implies is_out(
                        ground,
                        goals,
                        a.pos,
                        taken,
                        #[trigger] ranking[i],
                    ) by {
                        lemma_turn_of(ranking, off, i);
                    }
                }
                assert(is_best_left(ground, goals, a.pos, ranking, off, taken, p, k));
            },
            None => {
                assert forall|j: int|
                    0 <= j < goals.len() && appeals(a, (#[trigger] goals[j]).goal) implies taken[j]
                    || ground.plan(
                    a.pos,
                    Position { x: goals[j].goal.x, z: goals[j].goal.z },
                ) is None by {
                    let c = Candidate { score: score_of(a, goals[j].goal), goal: j as usize };
                    assert(ranking.contains(c));
                    let i = choose|i: int| 0 <= i < ranking.len() && ranking[i] == c;
                    lemma_turn_of(ranking, off, i);
                    assert(is_out(
                        ground,
                        goals,
                        a.pos,
                        taken,
                        ranking[turn(n, off, turn_of(n, off, i))],
                    ));
                }
            },
        }
    } else {
        assert forall|j: int|
            0 <= j < goals.len() && appeals(a, (#[trigger] goals[j]).goal) implies taken[j]
            || ground.plan(
            a.pos,
            Position { x: goals[j].goal.x, z: goals[j].goal.z },
        ) is None by {
            assert(ranking.contains(
                Candidate { score: score_of(a, goals[j].goal), goal: j as usize },
            ));
        }
    }
}

/// In a tick, an agent at leisure that sets out for nothing found every goal
/// that appeals to it taken by an agent before it or out of reach.
pub proof fn law_idle_agents_have_no_goal_left(
    ground: Ground,
    agents: Seq<AgentView>,
    goals: Seq<GoalRowView>,
    rng: SimRng,
    i: int,
    j: int,
)
    requires
        0 <= i < agents.len(),
        0 <= j < goals.len() <= usize::MAX,
        at_leisure(agents[i]),
        decided(ground, agents, goals, rng, i + 1).picks[i] is None,
        appeals(agents[i], goals[j].goal),
    ensures
        decided(ground, agents, goals, rng, i).taken[j] || ground.plan(
            agents[i].pos,
            Position { x: goals[j].goal.x, z: goals[j].goal.z },
        ) is None,
{
    let d = decided(ground, agents, goals, rng, i);
    let a = agents[i];
    law_decisions(ground, agents, goals, rng, i);
    law_ranking(a, goals);
    let ranking = ranking_of(a, goals);
    assert(ranking.contains(Candidate { score: score_of(a, goals[j].goal), goal: j as usize }));
    let draw = chacha_index(d.rng.seed, d.rng.word_pos, tied(ranking) as usize);
    law_best_goal_first(ground, goals, a, draw.0 as int, d.taken);
    assert(appeals(a, goals[j].goal));
}

/// Player orders win over autonomy: an agent with a queue is not sent
/// anywhere by it, and neither is one that is busy.
pub proof fn law_orders_win(
    ground: Ground,
    agents: Seq<AgentView>,
    goals: Seq<GoalRowView>,
    rng: SimRng,
    i: int,
)
    requires
        0 <= i < agents.len(),
        goals.len() <= usize::MAX,
        !at_leisure(agents[i]),
    ensures
        assignment(ground, agents, goals, rng).agents[i] == agents[i],
{
    law_decisions(ground, agents, goals, rng, agents.len() as int);
}

/// Everything that the agent needs is at least half met.
pub open spec fn is_satisfied(a: AgentView) -> bool {
    &&& forall|k: NeedKind| {
        &&& (#[trigger] a.needs.get(k)).in_unit()
        &&& a.needs.get(k).num() >= scalar(HALF).num()
    }
    &&& a.personality.playful.in_unit()
    &&& a.personality.outgoing.in_unit()
    &&& a.personality.active.in_unit()
}

proof fn lemma_half()
    ensures
        scalar(HALF).in_unit(),
        scalar(HALF).num() > 0,
{
    lemma_one();
    lemma_magnitude_increases(HALF as nat, ONE as nat);
    lemma_magnitude_increases(0, HALF as nat);
    assert(magnitude(0) == 0);
}

proof fn lemma_factor_finite(p: Personality, kind: NeedKind)
    requires
        p.playful.in_unit(),
        p.outgoing.in_unit(),
        p.active.in_unit(),
    ensures
        p.factor_spec(kind).is_finite_spec(),
{
    lemma_half();
    lemma_one();
    lemma_unit_finite(scalar(ONE));
    lemma_sum_finite(scalar(HALF), p.playful);
    lemma_sum_finite(scalar(HALF), p.outgoing);
    lemma_sum_finite(scalar(HALF), p.active);
}

proof fn lemma_no_gain(a: AgentView, ad: (NeedKind, Scalar))
    requires
        is_satisfied(a),
    ensures
        ad_gain(a.needs, a.personality, ad).is_zero_spec(),
{
    let v = a.needs.get(ad.0);
    assert(v.in_unit() && v.num() >= scalar(HALF).num());
    lemma_half();
    lemma_one();
    lemma_unit_finite(v);
    lemma_unit_finite(scalar(HALF));
    lemma_unit_finite(scalar(ONE));
    lemma_unit_finite(scalar(ZERO));
    // the weight is zero
    let low = scalar(SATISFIED).sub_spec(v);
    lemma_sub_nonpositive(scalar(HALF), v);
    let d = low.max_spec(scalar(ZERO));
    assert(d.is_zero_spec());
    lemma_zero_quotient(d, scalar(SATISFIED));
    let q = d.div_spec(scalar(SATISFIED));
    lemma_zero_pattern(q);
    lemma_zero_product(q, q);
    assert(weight(v).is_zero_spec());
    // what fits under a full need is finite
    lemma_sub_unit_finite(scalar(ONE), v);
    lemma_sub_decreases(scalar(ONE), v);
    let room = scalar(ONE).sub_spec(v);
    let eff = ad.1.min_spec(room).max_spec(scalar(ZERO));
    assert(eff.is_finite_spec()) by {
        if eff.is_infinite_spec() {
            lemma_magnitude_increases(room.pattern(), INF_PATTERN as nat);
            lemma_magnitude_increases(0, INF_PATTERN as nat);
            assert(magnitude(0) == 0);
        }
    }
    lemma_zero_product(eff, weight(v));
    lemma_factor_finite(a.personality, ad.0);
    lemma_zero_product(eff.mul_spec(weight(v)), a.personality.factor_spec(ad.0));
}

proof fn lemma_no_gain_at_all(a: AgentView, ads: Seq<(NeedKind, Scalar)>, k: int)
    requires
        is_satisfied(a),
    ensures
        gain(a.needs, a.personality, ads, k).is_zero_spec(),
    decreases k,
{
    lemma_one();
    if k > 0 {
        lemma_no_gain_at_all(a, ads, k - 1);
        lemma_no_gain(a, ads[k - 1]);
        lemma_zero_sum(
            gain(a.needs, a.personality, ads, k - 1),
            ad_gain(a.needs, a.personality, ads[k - 1]),
        );
    }
}

/// Satisfied agents stay idle: with every need at least half met, no goal
/// appeals, so there is nothing to rank.
pub proof fn law_satisfied_agents_want_nothing(a: AgentView, goals: Seq<GoalRowView>)
    requires
        is_satisfied(a),
        goals.len() <= usize::MAX,
    ensures
        forall|j: int| 0 <= j < goals.len() ==> !appeals(a, (#[trigger] goals[j]).goal),
        ranking_of(a, goals).len() == 0,
{
    assert forall|j: int| 0 <= j < goals.len() implies !appeals(a, (#[trigger] goals[j]).goal) by {
        let g = goals[j].goal;
        lemma_no_gain_at_all(a, g.ads, g.ads.len() as int);
        lemma_zero_quotient(
            gain(a.needs, a.personality, g.ads, g.ads.len() as int),
            scalar(ONE).add_spec(g.attenuation.mul_spec(dist2(g.x, g.z, a.pos).sqrt_spec())),
        );
        assert(scalar(MIN_SCORE).num() >= 0);
    }
    law_ranking(a, goals);
    let r = ranking_of(a, goals);
    if r.len() > 0 {
        assert(appeals(a, goals[r[0].goal as int].goal));
    }
}

} // verus!
