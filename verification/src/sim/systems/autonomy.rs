//! Free will: idle agents pick goals.

use super::walk::{dist2, distance2};
use crate::scalar::consts::{HALF, MICRO, ONE, ZERO};
use crate::scalar::{scalar, Scalar};
use crate::sim::agent::{
    Agent, AgentState, AgentView, NeedKind, Needs, Personality, Position, WalkTarget,
};
use crate::sim::city::Roads;
use crate::sim::goal::{Goal, GoalView};
use crate::sim::grid::{Obstacles, Walls};
use crate::sim::route::{ground_of, plan_route, Ground};
use crate::sim::world::{agent_views, goal_views, GoalRow, GoalRowView, SimRng};
use crate::sim::Entity;
use rand::{Rng, SeedableRng};
use rand_chacha::ChaCha8Rng;
use vstd::prelude::*;

verus! {

/// Needs at or above this are in the flat part of the curve (0.5): ads for
/// them score zero, so satisfied agents stay idle.
pub const SATISFIED: u32 = HALF;

/// Scores at or below this are ignored (0.0001): dust and far-away weak
/// wants.
pub const MIN_SCORE: u32 = 0x38d1_b717;

/// Contribution curve: low needs weigh quadratically more, so urgency grows
/// as a need drops (0 from [`SATISFIED`] up).
pub open spec fn weight(v: Scalar) -> Scalar {
    let d = scalar(SATISFIED).sub_spec(v).max_spec(scalar(ZERO)).div_spec(scalar(SATISFIED));
    d.mul_spec(d)
}

pub fn motive_weight(v: Scalar) -> (r: Scalar)
    ensures
        r == weight(v),
{
    let d: Scalar = scalar(SATISFIED).sub(v).max(scalar(ZERO)).div(scalar(SATISFIED));
    d.mul(d)
}

/// What one ad is worth: the part of it that fits under a full need, weighted
/// by urgency and personality.
pub open spec fn ad_gain(needs: Needs, personality: Personality, ad: (NeedKind, Scalar)) -> Scalar {
    let v = needs.get(ad.0);
    ad.1.min_spec(scalar(ONE).sub_spec(v)).max_spec(scalar(ZERO)).mul_spec(weight(v)).mul_spec(
        personality.factor_spec(ad.0),
    )
}

/// What the first `k` ads are worth together.
pub open spec fn gain(
    needs: Needs,
    personality: Personality,
    ads: Seq<(NeedKind, Scalar)>,
    k: int,
) -> Scalar
    decreases k,
{
    if k <= 0 {
        scalar(ZERO)
    } else {
        gain(needs, personality, ads, k - 1).add_spec(ad_gain(needs, personality, ads[k - 1]))
    }
}

/// Advertised restoration weighted by low need, attenuated by distance.
pub open spec fn score_of(a: AgentView, g: GoalView) -> Scalar {
    gain(a.needs, a.personality, g.ads, g.ads.len() as int).div_spec(
        scalar(ONE).add_spec(g.attenuation.mul_spec(dist2(g.x, g.z, a.pos).sqrt_spec())),
    )
}

/// Nobody else holds the goal, and its score counts.
pub open spec fn appeals(a: AgentView, g: GoalView) -> bool {
    &&& g.claimed_by is None || g.claimed_by == Some(a.id)
    &&& scalar(MIN_SCORE).lt_spec(score_of(a, g))
}

/// A scored goal, by its place in the list of goals.
#[derive(Clone, Copy, Debug, PartialEq, Eq, Structural)]
pub struct Candidate {
    pub score: Scalar,
    pub goal: usize,
}

/// The appealing ones among the first `k` goals, in order.
pub open spec fn candidates(a: AgentView, goals: Seq<GoalRowView>, k: int) -> Seq<Candidate>
    decreases k,
{
    if k <= 0 {
        Seq::empty()
    } else if appeals(a, goals[k - 1].goal) {
        candidates(a, goals, k - 1).push(
            Candidate { score: score_of(a, goals[k - 1].goal), goal: (k - 1) as usize },
        )
    } else {
        candidates(a, goals, k - 1)
    }
}

/// `x` put behind everything that scores at least as much.
pub open spec fn ranked_in(s: Seq<Candidate>, x: Candidate) -> Seq<Candidate>
    decreases s.len(),
{
    if s.len() > 0 && s.last().score.lt_spec(x.score) {
        ranked_in(s.drop_last(), x).push(s.last())
    } else {
        s.push(x)
    }
}

/// Candidates by falling score; equals keep their order.
pub open spec fn ranked(s: Seq<Candidate>) -> Seq<Candidate>
    decreases s.len(),
{
    if s.len() == 0 {
        s
    } else {
        ranked_in(ranked(s.drop_last()), s.last())
    }
}

/// Length of the prefix from `k` on whose scores tie with the best.
pub open spec fn tied_from(s: Seq<Candidate>, k: int) -> int
    decreases s.len() - k,
{
    if 0 <= k < s.len() && s[0].score.sub_spec(s[k].score).le_spec(scalar(MICRO)) {
        tied_from(s, k + 1)
    } else {
        k
    }
}

/// Number of candidates that tie for best, at least one.
pub open spec fn tied(s: Seq<Candidate>) -> int {
    if tied_from(s, 0) < 1 {
        1
    } else {
        tied_from(s, 0)
    }
}

/// The candidate tried at turn `m`: the tied ones rotated by `off`, then the
/// rest in order.
pub open spec fn turn(tied: int, off: int, m: int) -> int {
    if m < tied {
        (off + m) % tied
    } else {
        m
    }
}

/// A goal taken and the route to it.
pub ghost struct Pick {
    pub goal: usize,
    pub route: Seq<Position>,
}

/// The first candidate from turn `m` on that is not taken yet and can be
/// reached.
pub open spec fn first_pick(
    ground: Ground,
    goals: Seq<GoalRowView>,
    from: Position,
    ranking: Seq<Candidate>,
    off: int,
    taken: Seq<bool>,
    m: int,
) -> Option<Pick>
    decreases ranking.len() - m,
{
    if m < 0 || m >= ranking.len() {
        None
    } else {
        let g = ranking[turn(tied(ranking), off, m)].goal;
        if taken[g as int] {
            first_pick(ground, goals, from, ranking, off, taken, m + 1)
        } else {
            match ground.plan(from, Position { x: goals[g as int].goal.x, z: goals[g as int].goal.z }) {
                Some(route) => Some(Pick { goal: g, route }),
                None => first_pick(ground, goals, from, ranking, off, taken, m + 1),
            }
        }
    }
}

/// Progress of one tick's decisions.
pub ghost struct Decisions {
    pub rng: SimRng,
    /// Goals taken this tick: later agents see them as occupied.
    pub taken: Seq<bool>,
    /// One place per agent.
    pub picks: Seq<Option<Pick>>,
}

/// The index below `bound` that `Rng::random_range` of the crate `rand` draws
/// from a `ChaCha8Rng` of the crate `rand_chacha`, seeded from a number and
/// advanced to a word position, and the word position after the draw.
pub uninterp spec fn chacha_index(seed: u64, word_pos: u128, bound: usize) -> (usize, u128);

/// Draws an index below `bound` with `Rng::random_range` of the crate `rand`,
/// from the generator that `ChaCha8Rng::seed_from_u64` and `set_word_pos` of
/// the crate `rand_chacha` set up. The seed and the word position determine
/// all that the generator yields, so the index and the position after the
/// draw are a function of them and the bound; the index lies below the bound.
#[verifier::external_body]
fn draw_index(seed: u64, word_pos: u128, bound: usize) -> (r: (usize, u128))
    requires
        bound > 0,
    ensures
        r == chacha_index(seed, word_pos, bound),
        r.0 < bound,
{
    let mut rng = ChaCha8Rng::seed_from_u64(seed);
    rng.set_word_pos(word_pos);
    let index = rng.random_range(0..bound);
    (index, rng.get_word_pos())
}

/// The agent is free to follow its wants.
pub open spec fn at_leisure(a: AgentView) -> bool {
    a.state == AgentState::Idle && a.queue.len() == 0
}

/// The ranking of the goals that appeal to an agent.
pub open spec fn ranking_of(a: AgentView, goals: Seq<GoalRowView>) -> Seq<Candidate> {
    ranked(candidates(a, goals, goals.len() as int))
}

/// Decisions of the first `k` agents. Each agent at leisure with candidates
/// draws once, to rotate those that tie for best, and takes the first
/// candidate that is still free and can be reached.
pub open spec fn decided(
    ground: Ground,
    agents: Seq<AgentView>,
    goals: Seq<GoalRowView>,
    rng: SimRng,
    k: int,
) -> Decisions
    decreases k,
{
    if k <= 0 {
        Decisions {
            rng,
            taken: Seq::new(goals.len(), |j: int| false),
            picks: Seq::empty(),
        }
    } else {
        let d = decided(ground, agents, goals, rng, k - 1);
        let a = agents[k - 1];
        let ranking = ranking_of(a, goals);
        if !at_leisure(a) || ranking.len() == 0 {
            Decisions { picks: d.picks.push(None), ..d }
        } else {
            let r = d.rng;
            let draw = chacha_index(r.seed, r.word_pos, tied(ranking) as usize);
            let pick = first_pick(ground, goals, a.pos, ranking, draw.0 as int, d.taken, 0);
            Decisions {
                rng: SimRng { seed: r.seed, word_pos: draw.1 },
                taken: match pick {
                    Some(p) => d.taken.update(p.goal as int, true),
                    None => d.taken,
                },
                picks: d.picks.push(pick),
            }
        }
    }
}

/// The agent sent to the goal that it picked.
pub open spec fn assigned(a: AgentView, goals: Seq<GoalRowView>, pick: Option<Pick>) -> AgentView {
    match pick {
        Some(p) => {
            let g = goals[p.goal as int];
            a.sent(WalkTarget { x: g.goal.x, z: g.goal.z, claim: Some(g.id) }, p.route)
        },
        None => a,
    }
}

/// The goals with the claims of the first `k` picks.
pub open spec fn claimed(
    goals: Seq<GoalRowView>,
    agents: Seq<AgentView>,
    picks: Seq<Option<Pick>>,
    k: int,
) -> Seq<GoalRowView>
    decreases k,
{
    if k <= 0 {
        goals
    } else {
        let before = claimed(goals, agents, picks, k - 1);
        match picks[k - 1] {
            Some(p) => before.update(p.goal as int, held(before[p.goal as int], agents[k - 1].id)),
            None => before,
        }
    }
}

/// A goal claimed by an agent.
pub open spec fn held(g: GoalRowView, by: Entity) -> GoalRowView {
    GoalRowView { goal: GoalView { claimed_by: Some(by), ..g.goal }, ..g }
}

/// What autonomy does to agents, goals and the random stream.
pub ghost struct Assigned {
    pub agents: Seq<AgentView>,
    pub goals: Seq<GoalRowView>,
    pub rng: SimRng,
}

pub open spec fn assignment(
    ground: Ground,
    agents: Seq<AgentView>,
    goals: Seq<GoalRowView>,
    rng: SimRng,
) -> Assigned {
    let d = decided(ground, agents, goals, rng, agents.len() as int);
    Assigned {
        agents: Seq::new(agents.len(), |i: int| assigned(agents[i], goals, d.picks[i])),
        goals: claimed(goals, agents, d.picks, agents.len() as int),
        rng: d.rng,
    }
}

fn score(a: &Agent, g: &Goal) -> (r: Scalar)
    ensures
        r == score_of(a@, g@),
{
    let dist: Scalar = distance2(g.x, g.z, a.pos).sqrt();
    let mut sum: Scalar = scalar(ZERO);
    let mut k: usize = 0;
    while k < g.ads.len()
        invariant
            k <= g.ads.len(),
            sum == gain(a.needs, a.personality, g.ads@, k as int),
        decreases g.ads.len() - k,
    {
        let (kind, amount) = g.ads[k];
        let v: Scalar = a.needs.value(kind);
        let eff: Scalar = amount.min(scalar(ONE).sub(v)).max(scalar(ZERO));
        sum = sum.add(eff.mul(motive_weight(v)).mul(a.personality.factor(kind)));
        k += 1;
    }
    sum.div(scalar(ONE).add(g.attenuation.mul(dist)))
}

proof fn lemma_ranked_in(s: Seq<Candidate>, x: Candidate, p: int)
    requires
        0 <= p <= s.len(),
        forall|i: int| p <= i < s.len() ==> (#[trigger] s[i]).score.lt_spec(x.score),
        p > 0 ==> !s[p - 1].score.lt_spec(x.score),
    ensures
        ranked_in(s, x) == s.insert(p, x),
    decreases s.len(),
{
    if p < s.len() {
        assert(s[s.len() - 1].score.lt_spec(x.score));
        assert forall|i: int| p <= i < s.drop_last().len() implies (
        #[trigger] s.drop_last()[i]).score.lt_spec(x.score) by {
            assert(s[i].score.lt_spec(x.score));
        }
        lemma_ranked_in(s.drop_last(), x, p);
        assert(s.drop_last().insert(p, x).push(s.last()) =~= s.insert(p, x));
    } else {
        assert(s.push(x) =~= s.insert(p, x));
    }
}

fn rank_in(s: &mut Vec<Candidate>, x: Candidate)
    ensures
        final(s)@ == ranked_in(old(s)@, x),
{
    let mut p: usize = s.len();
    while p > 0 && s[p - 1].score.lt(x.score)
        invariant
            p <= s.len(),
            forall|i: int| p <= i < s.len() ==> (#[trigger] s[i]).score.lt_spec(x.score),
        decreases p,
    {
        p -= 1;
    }
    proof {
        lemma_ranked_in(s@, x, p as int);
    }
    s.insert(p, x);
}

/// Rank the goals that appeal to an agent.
fn rank_goals(a: &Agent, goals: &Vec<GoalRow>) -> (r: Vec<Candidate>)
    ensures
        r@ == ranking_of(a@, goal_views(goals@)),
        forall|i: int| 0 <= i < r.len() ==> (#[trigger] r[i]).goal < goals.len(),
{
    let ghost views = goal_views(goals@);
    let mut r: Vec<Candidate> = Vec::new();
    let mut k: usize = 0;
    proof {
        assert(r@ =~= ranked(candidates(a@, views, 0)));
    }
    while k < goals.len()
        invariant
            k <= goals.len(),
            views == goal_views(goals@),
            r@ == ranked(candidates(a@, views, k as int)),
            forall|i: int| 0 <= i < r.len() ==> (#[trigger] r[i]).goal < goals.len(),
        decreases goals.len() - k,
    {
        let g: &Goal = &goals[k].goal;
        assert(views[k as int].goal == g@);
        let open: bool = match g.claimed_by {
            Some(holder) => holder == a.id,
            None => true,
        };
        let s: Scalar = score(a, g);
        if open && scalar(MIN_SCORE).lt(s) {
            let x = Candidate { score: s, goal: k };
            let ghost before = r@;
            proof {
                let c = candidates(a@, views, k as int);
                assert(c.push(x).drop_last() =~= c);
            }
            rank_in(&mut r, x);
            proof {
                lemma_ranked_in_members(before, x);
                assert forall|i: int| 0 <= i < r.len() implies (#[trigger] r[i]).goal
                    < goals.len() by {
                    assert(r@[i] == x || before.contains(r@[i]));
                }
            }
        }
        k += 1;
    }
    r
}

pub(crate) proof fn lemma_ranked_in_members(s: Seq<Candidate>, x: Candidate)
    ensures
        ranked_in(s, x).len() == s.len() + 1,
        forall|i: int|
            0 <= i < ranked_in(s, x).len() ==> (#[trigger] ranked_in(s, x)[i] == x || s.contains(
                ranked_in(s, x)[i],
            )),
    decreases s.len(),
{
    if s.len() > 0 && s.last().score.lt_spec(x.score) {
        let t = s.drop_last();
        lemma_ranked_in_members(t, x);
        assert forall|i: int| 0 <= i < ranked_in(s, x).len() implies (#[trigger] ranked_in(s, x)[i]
            == x || s.contains(ranked_in(s, x)[i])) by {
            if i < s.len() {
                let y = ranked_in(t, x)[i];
                assert(ranked_in(s, x)[i] == y);
                if y != x {
                    let j = choose|j: int| 0 <= j < t.len() && t[j] == y;
                    assert(s[j] == y);
                }
            } else {
                assert(s[s.len() - 1] == ranked_in(s, x)[i]);
            }
        }
    } else {
        assert forall|i: int| 0 <= i < ranked_in(s, x).len() implies (#[trigger] ranked_in(s, x)[i]
            == x || s.contains(ranked_in(s, x)[i])) by {
            if i < s.len() {
                assert(s[i] == ranked_in(s, x)[i]);
            }
        }
    }
}

pub(crate) proof fn lemma_tied(s: Seq<Candidate>, k: int)
    requires
        0 <= k <= s.len(),
    ensures
        k <= tied_from(s, k) <= s.len(),
    decreases s.len() - k,
{
    if k < s.len() && s[0].score.sub_spec(s[k].score).le_spec(scalar(MICRO)) {
        lemma_tied(s, k + 1);
    }
}

/// Count the candidates that tie for best.
fn count_tied(s: &Vec<Candidate>) -> (r: usize)
    requires
        s.len() > 0,
    ensures
        r == tied(s@),
        1 <= r <= s.len(),
{
    let mut k: usize = 0;
    while k < s.len() && s[0].score.sub(s[k].score).le(scalar(MICRO))
        invariant
            k <= s.len(),
            tied_from(s@, k as int) == tied_from(s@, 0),
        decreases s.len() - k,
    {
        k += 1;
    }
    if k < 1 {
        1
    } else {
        k
    }
}

/// A goal chosen and the route to it.
#[derive(Debug)]
pub struct Choice {
    pub goal: usize,
    pub route: Vec<Position>,
}

/// A choice as the contracts speak of it.
pub open spec fn pick_view(c: Option<Choice>) -> Option<Pick> {
    match c {
        Some(c) => Some(Pick { goal: c.goal, route: c.route@ }),
        None => None,
    }
}

proof fn lemma_rotation(tied: int, off: int, m: int)
    requires
        0 <= off < tied,
        0 <= m < tied,
    ensures
        (off + m) % tied == if m < tied - off {
            off + m
        } else {
            m - (tied - off)
        },
{
    if m < tied - off {
        vstd::arithmetic::div_mod::lemma_small_mod((off + m) as nat, tied as nat);
    } else {
        vstd::arithmetic::div_mod::lemma_fundamental_div_mod_converse(
            off + m,
            tied,
            1,
            off + m - tied,
        );
    }
}

/// Choose from a ranking whose tied candidates are rotated by `off`: the
/// first that is not taken yet and can be reached.
pub fn pick_first(
    obs: &Obstacles,
    roads: &Roads,
    walls: &Walls,
    goals: &Vec<GoalRow>,
    from: Position,
    ranking: &Vec<Candidate>,
    off: usize,
    taken: &Vec<bool>,
) -> (r: Option<Choice>)
    requires
        ground_of(obs, roads, walls).can_route(),
        off < tied(ranking@),
        taken.len() == goals.len(),
        forall|i: int| 0 <= i < ranking.len() ==> (#[trigger] ranking[i]).goal < goals.len(),
    ensures
        pick_view(r) == first_pick(
            ground_of(obs, roads, walls),
            goal_views(goals@),
            from,
            ranking@,
            off as int,
            taken@,
            0,
        ),
        r matches Some(c) ==> c.goal < goals.len(),
{
    let ghost ground = ground_of(obs, roads, walls);
    let ghost views = goal_views(goals@);
    if ranking.len() == 0 {
        return None;
    }
    let ties: usize = count_tied(ranking);
    let mut m: usize = 0;
    while m < ranking.len()
        invariant
            ground_of(obs, roads, walls).can_route(),
            ground == ground_of(obs, roads, walls),
            views == goal_views(goals@),
            ties == tied(ranking@),
            off < ties <= ranking.len(),
            taken.len() == goals.len(),
            forall|i: int| 0 <= i < ranking.len() ==> (#[trigger] ranking[i]).goal < goals.len(),
            m <= ranking.len(),
            first_pick(ground, views, from, ranking@, off as int, taken@, m as int) == first_pick(
                ground,
                views,
                from,
                ranking@,
                off as int,
                taken@,
                0,
            ),
        decreases ranking.len() - m,
    {
        let at: usize = if m < ties - off {
            off + m
        } else if m < ties {
            m - (ties - off)
        } else {
            m
        };
        proof {
            if m < ties {
                lemma_rotation(ties as int, off as int, m as int);
            }
        }
        let g: usize = ranking[at].goal;
        if !taken[g] {
            let to = Position { x: goals[g].goal.x, z: goals[g].goal.z };
            assert(views[g as int] == goals[g as int]@);
            if let Some(points) = plan_route(obs, roads, walls, from, to) {
                return Some(Choice { goal: g, route: points });
            }
        }
        m += 1;
    }
    None
}

/// Idle agents score every goal and head for the best one that is free and
/// can be reached.
pub fn assign_goals(
    agents: &mut Vec<Agent>,
    goals: &mut Vec<GoalRow>,
    rng: &mut SimRng,
    obs: &Obstacles,
    roads: &Roads,
    walls: &Walls,
)
    requires
        ground_of(obs, roads, walls).can_route(),
    ensures
        ({
            let r = assignment(
                ground_of(obs, roads, walls),
                agent_views(old(agents)@),
                goal_views(old(goals)@),
                *old(rng),
            );
            &&& agent_views(final(agents)@) == r.agents
            &&& goal_views(final(goals)@) == r.goals
            &&& *final(rng) == r.rng
        }),
{
    let ghost ground = ground_of(obs, roads, walls);
    let ghost views = agent_views(agents@);
    let ghost rows = goal_views(goals@);
    let ghost stream = *rng;
    let mut taken: Vec<bool> = Vec::new();
    while taken.len() < goals.len()
        invariant
            taken.len() <= goals.len(),
            forall|j: int| 0 <= j < taken.len() ==> !#[trigger] taken[j],
        decreases goals.len() - taken.len(),
    {
        taken.push(false);
    }
    proof {
        assert(taken@ =~= Seq::new(rows.len(), |j: int| false));
    }
    let mut choices: Vec<Option<Choice>> = Vec::new();
    let mut i: usize = 0;
    while i < agents.len()
        invariant
            ground_of(obs, roads, walls).can_route(),
            ground == ground_of(obs, roads, walls),
            views == agent_views(agents@),
            rows == goal_views(goals@),
            i <= agents.len(),
            choices.len() == i,
            taken.len() == goals.len(),
            *rng == decided(ground, views, rows, stream, i as int).rng,
            decided(ground, views, rows, stream, i as int).picks.len() == i,
            forall|j: int|
                0 <= j < i ==> pick_view(#[trigger] choices[j]) == decided(
                    ground,
                    views,
                    rows,
                    stream,
                    i as int,
                ).picks[j],
            forall|j: int|
                0 <= j < i ==> ((#[trigger] choices[j]) matches Some(c) ==> c.goal < goals.len()),
            taken@ == decided(ground, views, rows, stream, i as int).taken,
        decreases agents.len() - i,
    {
        let ghost d = decided(ground, views, rows, stream, i as int);
        let ghost chosen = choices@;
        let a: &Agent = &agents[i];
        assert(views[i as int] == a@);
        let mut choice: Option<Choice> = None;
        if a.state == AgentState::Idle && a.queue.0.len() == 0 {
            let ranking: Vec<Candidate> = rank_goals(a, goals);
            if ranking.len() > 0 {
                assert(ranking[0].goal < goals.len());
                let ties: usize = count_tied(&ranking);
                let (off, pos) = draw_index(rng.seed, rng.word_pos, ties);
                rng.word_pos = pos;
                choice = pick_first(obs, roads, walls, goals, a.pos, &ranking, off, &taken);
                if let Some(c) = &choice {
                    taken.set(c.goal, true);
                }
            }
        }
        choices.push(choice);
        proof {
            let e = decided(ground, views, rows, stream, i + 1);
            assert(e.picks == d.picks.push(pick_view(choice)));
            assert forall|j: int| 0 <= j < i + 1 implies pick_view(#[trigger] choices[j])
                == e.picks[j] by {
                if j < i {
                    assert(choices[j] == chosen[j]);
                }
            }
            assert forall|j: int| 0 <= j < i + 1 implies ((#[trigger] choices[j]) matches Some(c)
                ==> c.goal < goals.len()) by {
                if j < i {
                    assert(choices[j] == chosen[j]);
                }
            }
        }
        i += 1;
    }
    let ghost d = decided(ground, views, rows, stream, views.len() as int);
    let ghost picks = d.picks;
    let mut k: usize = 0;
    while k < agents.len()
        invariant
            k <= agents.len(),
            agents.len() == views.len(),
            agents.len() == choices.len() + k,
            goals.len() == rows.len(),
            picks.len() == views.len(),
            goal_views(goals@) == claimed(rows, views, picks, k as int),
            forall|j: int| 0 <= j < rows.len() ==> {
                &&& (#[trigger] goals[j])@.id == rows[j].id
                &&& goals[j]@.goal.x == rows[j].goal.x
                &&& goals[j]@.goal.z == rows[j].goal.z
            },
            forall|j: int|
                0 <= j < choices.len() ==> pick_view(#[trigger] choices[j]) == picks[j + k],
            forall|j: int|
                0 <= j < choices.len() ==> ((#[trigger] choices[j]) matches Some(c) ==> c.goal
                    < goals.len()),
            forall|j: int|
                0 <= j < k ==> (#[trigger] agents[j])@ == assigned(views[j], rows, picks[j]),
            forall|j: int| k <= j < agents.len() ==> (#[trigger] agents[j])@ == views[j],
        decreases agents.len() - k,
    {
        let ghost rest = choices@;
        let ghost before = goal_views(goals@);
        let choice: Option<Choice> = choices.remove(0);
        proof {
            assert(choice == rest[0]);
            assert forall|j: int| 0 <= j < choices.len() implies choices[j] == rest[j + 1] by {}
        }
        if let Some(c) = choice {
            let id: Entity = goals[c.goal].id;
            let target = WalkTarget {
                x: goals[c.goal].goal.x,
                z: goals[c.goal].goal.z,
                claim: Some(id),
            };
            goals[c.goal].goal.claimed_by = Some(agents[k].id);
            agents[k].send(target, c.route);
            proof {
                assert(goal_views(goals@) =~= before.update(
                    c.goal as int,
                    held(before[c.goal as int], views[k as int].id),
                ));
            }
        }
        k += 1;
    }
    proof {
        assert(agent_views(agents@) =~= assignment(ground, views, rows, stream).agents);
    }
}

} // verus!
