//! What an agent is: needs, traits, skills and current activity.

use super::Entity;
use crate::scalar::consts::{EIGHT_TENTHS, HALF, ONE, SEVEN, TWO_HUNDREDTHS, ZERO};
use crate::scalar::{scalar, Scalar};
use std::collections::VecDeque;
use vstd::prelude::*;

verus! {

/// Where something is on the ground plane (x right, z towards viewer).
#[derive(Clone, Copy, Debug, PartialEq, Eq, Structural)]
pub struct Position {
    pub x: Scalar,
    pub z: Scalar,
}

/// What an agent is currently doing.
#[derive(Clone, Copy, Debug, PartialEq, Eq, Structural)]
pub enum AgentState {
    Idle,
    Walk,
    SeekGoal,
    Socialize,
    Working,
    Sleeping,
}

#[derive(Clone, Copy, Debug, PartialEq, Eq, Structural)]
pub enum NeedKind {
    Hunger,
    Energy,
    Sociability,
    Comfort,
    Hygiene,
    Bladder,
    Fun,
}

/// Simple decaying needs in 0..=1. Autonomy scores the lowest ones.
#[derive(Clone, Copy, Debug, PartialEq, Eq, Structural)]
pub struct Needs {
    pub hunger: Scalar,
    pub energy: Scalar,
    pub sociability: Scalar,
    pub comfort: Scalar,
    pub hygiene: Scalar,
    pub bladder: Scalar,
    pub fun: Scalar,
}

impl Needs {
    pub open spec fn get(self, kind: NeedKind) -> Scalar {
        match kind {
            NeedKind::Hunger => self.hunger,
            NeedKind::Energy => self.energy,
            NeedKind::Sociability => self.sociability,
            NeedKind::Comfort => self.comfort,
            NeedKind::Hygiene => self.hygiene,
            NeedKind::Bladder => self.bladder,
            NeedKind::Fun => self.fun,
        }
    }

    /// These needs with one of them set.
    pub open spec fn with(self, kind: NeedKind, v: Scalar) -> Needs {
        match kind {
            NeedKind::Hunger => Needs { hunger: v, ..self },
            NeedKind::Energy => Needs { energy: v, ..self },
            NeedKind::Sociability => Needs { sociability: v, ..self },
            NeedKind::Comfort => Needs { comfort: v, ..self },
            NeedKind::Hygiene => Needs { hygiene: v, ..self },
            NeedKind::Bladder => Needs { bladder: v, ..self },
            NeedKind::Fun => Needs { fun: v, ..self },
        }
    }

    /// These needs with one of them restored by `amount`, capped at 1.
    pub open spec fn restored(self, kind: NeedKind, amount: Scalar) -> Needs {
        self.with(kind, self.get(kind).add_spec(amount).min_spec(scalar(ONE)))
    }

    pub open spec fn lowest_spec(self) -> Scalar {
        self.hunger.min_spec(self.energy).min_spec(self.sociability).min_spec(
            self.comfort,
        ).min_spec(self.hygiene).min_spec(self.bladder).min_spec(self.fun)
    }

    pub open spec fn mean_spec(self) -> Scalar {
        self.hunger.add_spec(self.energy).add_spec(self.sociability).add_spec(
            self.comfort,
        ).add_spec(self.hygiene).add_spec(self.bladder).add_spec(self.fun).div_spec(scalar(SEVEN))
    }

    pub open spec fn all(v: Scalar) -> Needs {
        Needs {
            hunger: v,
            energy: v,
            sociability: v,
            comfort: v,
            hygiene: v,
            bladder: v,
            fun: v,
        }
    }

    pub fn value(&self, kind: NeedKind) -> (r: Scalar)
        ensures
            r == self.get(kind),
    {
        match kind {
            NeedKind::Hunger => self.hunger,
            NeedKind::Energy => self.energy,
            NeedKind::Sociability => self.sociability,
            NeedKind::Comfort => self.comfort,
            NeedKind::Hygiene => self.hygiene,
            NeedKind::Bladder => self.bladder,
            NeedKind::Fun => self.fun,
        }
    }

    /// Restore a need by `amount`, capped at 1.
    pub fn restore(&mut self, kind: NeedKind, amount: Scalar)
        ensures
            *final(self) == old(self).restored(kind, amount),
    {
        let v: Scalar = self.value(kind).add(amount).min(scalar(ONE));
        match kind {
            NeedKind::Hunger => {
                self.hunger = v;
            },
            NeedKind::Energy => {
                self.energy = v;
            },
            NeedKind::Sociability => {
                self.sociability = v;
            },
            NeedKind::Comfort => {
                self.comfort = v;
            },
            NeedKind::Hygiene => {
                self.hygiene = v;
            },
            NeedKind::Bladder => {
                self.bladder = v;
            },
            NeedKind::Fun => {
                self.fun = v;
            },
        }
    }

    /// Lowest need (autonomy/chat urgency).
    pub fn lowest(&self) -> (r: Scalar)
        ensures
            r == self.lowest_spec(),
    {
        self.hunger.min(self.energy).min(self.sociability).min(self.comfort).min(self.hygiene).min(
            self.bladder,
        ).min(self.fun)
    }

    /// Mean level (happiness).
    pub fn mean(&self) -> (r: Scalar)
        ensures
            r == self.mean_spec(),
    {
        self.hunger.add(self.energy).add(self.sociability).add(self.comfort).add(self.hygiene).add(
            self.bladder,
        ).add(self.fun).div(scalar(SEVEN))
    }
}

impl Default for Needs {
    fn default() -> (r: Needs)
        ensures
            r == Needs::all(scalar(EIGHT_TENTHS)),
    {
        let v: Scalar = scalar(EIGHT_TENTHS);
        Needs {
            hunger: v,
            energy: v,
            sociability: v,
            comfort: v,
            hygiene: v,
            bladder: v,
            fun: v,
        }
    }
}

/// Personality traits 0..=1, drawn at spawn. Each scales the autonomy gain
/// of one need: playful for fun, outgoing for sociability, active for
/// energy, as 0.5 plus the trait.
#[derive(Clone, Copy, Debug, PartialEq, Eq, Structural)]
pub struct Personality {
    pub playful: Scalar,
    pub outgoing: Scalar,
    pub active: Scalar,
}

impl Personality {
    pub open spec fn factor_spec(self, kind: NeedKind) -> Scalar {
        match kind {
            NeedKind::Fun => scalar(HALF).add_spec(self.playful),
            NeedKind::Sociability => scalar(HALF).add_spec(self.outgoing),
            NeedKind::Energy => scalar(HALF).add_spec(self.active),
            _ => scalar(ONE),
        }
    }

    /// Multiplier for a need's scored gain.
    pub fn factor(&self, kind: NeedKind) -> (r: Scalar)
        ensures
            r == self.factor_spec(kind),
    {
        match kind {
            NeedKind::Fun => scalar(HALF).add(self.playful),
            NeedKind::Sociability => scalar(HALF).add(self.outgoing),
            NeedKind::Energy => scalar(HALF).add(self.active),
            _ => scalar(ONE),
        }
    }
}

/// Learnable skills 0..=1, all start at 0 and grow by 0.02 per relevant
/// arrival (capped at 1). Cooking scales hunger restoration, charisma
/// scales sociability restoration.
#[derive(Clone, Copy, Debug, PartialEq, Eq, Structural)]
pub struct Skills {
    pub cooking: Scalar,
    pub charisma: Scalar,
}

impl Skills {
    pub open spec fn factor_spec(self, kind: NeedKind) -> Scalar {
        match kind {
            NeedKind::Hunger => scalar(ONE).add_spec(self.cooking),
            NeedKind::Sociability => scalar(ONE).add_spec(self.charisma),
            _ => scalar(ONE),
        }
    }

    pub open spec fn learned(self, kind: NeedKind) -> Skills {
        match kind {
            NeedKind::Hunger => Skills {
                cooking: self.cooking.add_spec(scalar(TWO_HUNDREDTHS)).min_spec(scalar(ONE)),
                ..self
            },
            NeedKind::Sociability => Skills {
                charisma: self.charisma.add_spec(scalar(TWO_HUNDREDTHS)).min_spec(scalar(ONE)),
                ..self
            },
            _ => self,
        }
    }

    /// Restoration multiplier for a need.
    pub fn factor(&self, kind: NeedKind) -> (r: Scalar)
        ensures
            r == self.factor_spec(kind),
    {
        match kind {
            NeedKind::Hunger => scalar(ONE).add(self.cooking),
            NeedKind::Sociability => scalar(ONE).add(self.charisma),
            _ => scalar(ONE),
        }
    }

    /// Learn from a used ad (called on arrival per ad kind).
    pub fn learn(&mut self, kind: NeedKind)
        ensures
            *final(self) == old(self).learned(kind),
    {
        match kind {
            NeedKind::Hunger => {
                self.cooking = self.cooking.add(scalar(TWO_HUNDREDTHS)).min(scalar(ONE));
            },
            NeedKind::Sociability => {
                self.charisma = self.charisma.add(scalar(TWO_HUNDREDTHS)).min(scalar(ONE));
            },
            _ => {},
        }
    }
}

impl Default for Skills {
    fn default() -> (r: Skills)
        ensures
            r == (Skills { cooking: scalar(ZERO), charisma: scalar(ZERO) }),
    {
        Skills { cooking: scalar(ZERO), charisma: scalar(ZERO) }
    }
}

/// Employment link. Survives orders (player directs, work resumes after);
/// removed by dismissal.
#[derive(Clone, Copy, Debug, PartialEq, Eq, Structural)]
pub struct Employment {
    pub workplace: Entity,
}

/// Work-directed commute marker (commute = seeking + this). Removed by
/// player orders and shift-end cleanup, so it always means work.
#[derive(Clone, Copy, Debug, PartialEq, Eq, Structural)]
pub struct Commute(pub Entity);

/// Home link. Dropped on load.
#[derive(Clone, Copy, Debug, PartialEq, Eq, Structural)]
pub struct Home(pub Entity);

/// Night commute marker (going home = seeking + this). Removed by player
/// orders and on arrival, so it always means night rest.
#[derive(Clone, Copy, Debug, PartialEq, Eq, Structural)]
pub struct GoingHome(pub Entity);

/// Walk target assigned by the behaviour systems or the player.
#[derive(Clone, Copy, Debug, PartialEq, Eq, Structural)]
pub struct WalkTarget {
    pub x: Scalar,
    pub z: Scalar,
    /// Goal object claim held while walking (one agent per goal).
    pub claim: Option<Entity>,
}

/// A player-issued order. Player actions preempt autonomy and are worked
/// through front to back; autonomy only fills idle agents with an empty
/// queue.
#[derive(Clone, Copy, Debug, PartialEq, Eq, Structural)]
pub enum ActionKind {
    /// Walk to a ground point.
    Goto { x: Scalar, z: Scalar },
    /// Walk to a goal object and use it.
    Use { goal: Entity },
}

/// Pending player orders, front first.
#[derive(Debug)]
pub struct ActionQueue(pub VecDeque<ActionKind>);

/// Remaining waypoints to the walk target (empty = straight walk).
#[derive(Debug)]
pub struct Route(pub Vec<Position>);

/// One inhabitant.
#[derive(Debug)]
pub struct Agent {
    pub id: Entity,
    pub pos: Position,
    pub needs: Needs,
    pub state: AgentState,
    pub queue: ActionQueue,
    pub personality: Personality,
    pub skills: Skills,
    pub employment: Option<Employment>,
    pub commute: Option<Commute>,
    pub home: Option<Home>,
    pub going_home: Option<GoingHome>,
    pub target: Option<WalkTarget>,
    pub route: Option<Route>,
}

/// Mathematical content of an [`Agent`].
pub ghost struct AgentView {
    pub id: Entity,
    pub pos: Position,
    pub needs: Needs,
    pub state: AgentState,
    pub queue: Seq<ActionKind>,
    pub personality: Personality,
    pub skills: Skills,
    pub employment: Option<Employment>,
    pub commute: Option<Commute>,
    pub home: Option<Home>,
    pub going_home: Option<GoingHome>,
    pub target: Option<WalkTarget>,
    pub route: Option<Seq<Position>>,
}

impl View for Agent {
    type V = AgentView;

    open spec fn view(&self) -> AgentView {
        AgentView {
            id: self.id,
            pos: self.pos,
            needs: self.needs,
            state: self.state,
            queue: self.queue.0@,
            personality: self.personality,
            skills: self.skills,
            employment: self.employment,
            commute: self.commute,
            home: self.home,
            going_home: self.going_home,
            target: self.target,
            route: match self.route {
                Some(r) => Some(r.0@),
                None => None,
            },
        }
    }
}

impl AgentView {
    /// An idle agent with nothing planned.
    pub open spec fn fresh(
        id: Entity,
        pos: Position,
        needs: Needs,
        personality: Personality,
        skills: Skills,
    ) -> AgentView {
        AgentView {
            id,
            pos,
            needs,
            state: AgentState::Idle,
            queue: Seq::empty(),
            personality,
            skills,
            employment: None,
            commute: None,
            home: None,
            going_home: None,
            target: None,
            route: None,
        }
    }

    /// The agent sent walking along `route` to a target.
    pub open spec fn sent(self, target: WalkTarget, route: Seq<Position>) -> AgentView {
        AgentView {
            target: Some(target),
            route: Some(route),
            state: AgentState::SeekGoal,
            ..self
        }
    }

    /// The agent stopped where it stands, its walk forgotten.
    pub open spec fn stopped(self, state: AgentState) -> AgentView {
        AgentView { target: None, route: None, state, ..self }
    }

    /// The agent idle, off-shift and off to no bed, its walk forgotten.
    pub open spec fn relieved(self) -> AgentView {
        AgentView { commute: None, going_home: None, ..self.stopped(AgentState::Idle) }
    }
}

impl Agent {
    pub fn fresh(
        id: Entity,
        pos: Position,
        needs: Needs,
        personality: Personality,
        skills: Skills,
    ) -> (r: Agent)
        ensures
            r@ == AgentView::fresh(id, pos, needs, personality, skills),
    {
        let r = Agent {
            id,
            pos,
            needs,
            state: AgentState::Idle,
            queue: ActionQueue(VecDeque::new()),
            personality,
            skills,
            employment: None,
            commute: None,
            home: None,
            going_home: None,
            target: None,
            route: None,
        };
        proof {
            assert(r@.queue =~= Seq::empty());
        }
        r
    }

    pub(crate) fn send(&mut self, target: WalkTarget, route: Vec<Position>)
        ensures
            final(self)@ == old(self)@.sent(target, route@),
    {
        self.target = Some(target);
        self.route = Some(Route(route));
        self.state = AgentState::SeekGoal;
    }

    pub(crate) fn relieve(&mut self)
        ensures
            final(self)@ == old(self)@.relieved(),
    {
        self.commute = None;
        self.going_home = None;
        self.stop(AgentState::Idle);
    }

    pub(crate) fn stop(&mut self, state: AgentState)
        ensures
            final(self)@ == old(self)@.stopped(state),
    {
        self.target = None;
        self.route = None;
        self.state = state;
    }
}

} // verus!
