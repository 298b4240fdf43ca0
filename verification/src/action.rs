//! Actions: what they need, what they change, what they cost, and the state
//! machine that each one runs through.
use vstd::prelude::*;
use crate::state::{Condition, Facts, WorldState};

verus! {

/// The verdict of an action's evaluation.
#[derive(Clone, Copy, Debug, PartialEq, Eq, Structural)]
pub enum EvaluationResult {
    /// The action can run now.
    Success,
    /// The action cannot run now, whatever its preconditions say.
    Failure,
}

/// Where an action stands in its life cycle.
#[derive(Clone, Copy, Debug, PartialEq, Eq, Structural)]
pub enum ActionState {
    /// Resting, outside any plan.
    Idle,
    /// Asked to find out whether it can run and at what cost.
    Evaluate,
    /// Evaluated, with the verdict.
    EvaluationComplete(EvaluationResult),
    /// Considered, but left out of the plan. The flag tells whether the action
    /// had been evaluated, and so may hold something that it must give back.
    NotInPlan(bool),
    /// Chosen as the current step of the plan.
    Started,
    /// Running; this may last many ticks.
    Executing,
    /// Finished with success.
    Complete,
    /// Finished without success.
    Failure,
}

/// What the engine does to an action's state. Each move applies in some
/// states and leaves the others alone.
#[derive(Clone, Copy, Debug, PartialEq, Eq, Structural)]
pub enum Drive {
    /// Planning begins: a resting action is asked to evaluate.
    Consider,
    /// The plan leaves the action out: an evaluated action is told so.
    Reject,
    /// An action that was left out comes to rest.
    Release,
    /// The action's turn in the plan has come.
    Start,
    /// The agent gives up what it was doing: an action under way is told that
    /// it is in no plan, a finished one comes to rest.
    Cancel,
}

impl ActionState {
    /// The state that the engine's move `drive` leads to from this one.
    pub open spec fn after(self, drive: Drive) -> ActionState {
        match (drive, self) {
            (Drive::Consider, ActionState::Idle) => ActionState::Evaluate,
            (Drive::Reject, ActionState::EvaluationComplete(_)) => ActionState::NotInPlan(true),
            (Drive::Release, ActionState::NotInPlan(_)) => ActionState::Idle,
            (Drive::Start, ActionState::EvaluationComplete(EvaluationResult::Success)) => {
                ActionState::Started
            },
            (Drive::Start, ActionState::Complete) => ActionState::Started,
            (Drive::Cancel, ActionState::Evaluate) => ActionState::NotInPlan(false),
            (Drive::Cancel, ActionState::EvaluationComplete(_)) => ActionState::NotInPlan(true),
            (Drive::Cancel, ActionState::Started) => ActionState::NotInPlan(true),
            (Drive::Cancel, ActionState::Executing) => ActionState::NotInPlan(true),
            (Drive::Cancel, ActionState::Complete) => ActionState::Idle,
            (Drive::Cancel, ActionState::Failure) => ActionState::Idle,
            _ => self,
        }
    }

    /// Whether the logic behind an action, which the engine does not own, may
    /// move the action from this state to `next`: out of `Evaluate` with a
    /// verdict, from `Started` to `Executing`, and out of `Executing` to the
    /// end of the run.
    pub open spec fn host_may(self, next: ActionState) -> bool {
        match (self, next) {
            (ActionState::Evaluate, ActionState::EvaluationComplete(_)) => true,
            (ActionState::Started, ActionState::Executing) => true,
            (ActionState::Executing, ActionState::Complete) => true,
            (ActionState::Executing, ActionState::Failure) => true,
            _ => false,
        }
    }

    /// Whether the engine itself ever moves an action from this state to
    /// `next`.
    pub open spec fn engine_may(self, next: ActionState) -> bool {
        exists|drive: Drive| next == self.after(drive) && next != self
    }

    /// Makes the engine's move `drive`.
    pub fn driven(self, drive: Drive) -> (next: ActionState)
        ensures
            next == self.after(drive),
    {
        match (drive, self) {
            (Drive::Consider, ActionState::Idle) => ActionState::Evaluate,
            (Drive::Reject, ActionState::EvaluationComplete(_)) => ActionState::NotInPlan(true),
            (Drive::Release, ActionState::NotInPlan(_)) => ActionState::Idle,
            (Drive::Start, ActionState::EvaluationComplete(EvaluationResult::Success)) => {
                ActionState::Started
            },
            (Drive::Start, ActionState::Complete) => ActionState::Started,
            (Drive::Cancel, ActionState::Evaluate) => ActionState::NotInPlan(false),
            (Drive::Cancel, ActionState::EvaluationComplete(_)) => ActionState::NotInPlan(true),
            (Drive::Cancel, ActionState::Started) => ActionState::NotInPlan(true),
            (Drive::Cancel, ActionState::Executing) => ActionState::NotInPlan(true),
            (Drive::Cancel, ActionState::Complete) => ActionState::Idle,
            (Drive::Cancel, ActionState::Failure) => ActionState::Idle,
            _ => self,
        }
    }

    /// Whether the logic behind an action may move it from this state to
    /// `next`.
    pub fn allows(self, next: ActionState) -> (yes: bool)
        ensures
            yes == self.host_may(next),
    {
        match (self, next) {
            (ActionState::Evaluate, ActionState::EvaluationComplete(_)) => true,
            (ActionState::Started, ActionState::Executing) => true,
            (ActionState::Executing, ActionState::Complete) => true,
            (ActionState::Executing, ActionState::Failure) => true,
            _ => false,
        }
    }
}

/// An action as mathematics: what the planner and the state machines need to
/// know of it.
pub struct Operator {
    /// The kind of behaviour.
    pub id: u64,
    /// What must hold for the action to run.
    pub pre: Facts,
    /// What holds once the action has run.
    pub post: Facts,
    /// What it costs to run it.
    pub cost: nat,
    /// Where it stands in its life cycle.
    pub state: ActionState,
}

impl Operator {
    /// Whether the planner may use the operator: its evaluation ended in
    /// success.
    pub open spec fn eligible(self) -> bool {
        self.state == ActionState::EvaluationComplete(EvaluationResult::Success)
    }

    /// The same operator in another state.
    pub open spec fn with_state(self, state: ActionState) -> Operator {
        Operator { state, ..self }
    }

    /// The same operator after the engine's move `drive`.
    pub open spec fn after(self, drive: Drive) -> Operator {
        self.with_state(self.state.after(drive))
    }
}

/// One thing an agent can do.
#[derive(Debug)]
pub struct Action {
    /// The kind of behaviour; many actions may share one.
    pub id: u64,
    pub preconditions: WorldState,
    pub postconditions: WorldState,
    pub cost: u64,
    pub state: ActionState,
}

impl View for Action {
    type V = Operator;

    open spec fn view(&self) -> Operator {
        Operator {
            id: self.id,
            pre: self.preconditions@,
            post: self.postconditions@,
            cost: self.cost as nat,
            state: self.state,
        }
    }
}

/// The actions of a list, each as an operator.
pub open spec fn operators(actions: Seq<Action>) -> Seq<Operator> {
    actions.map_values(|a: Action| a@)
}

impl Action {
    /// A resting action of kind `id` that needs nothing, changes nothing and
    /// costs nothing.
    pub fn build(id: u64) -> (action: Action)
        ensures
            action@ == (Operator {
                id,
                pre: Map::empty(),
                post: Map::empty(),
                cost: 0,
                state: ActionState::Idle,
            }),
    {
        Action {
            id,
            preconditions: WorldState::new(),
            postconditions: WorldState::new(),
            cost: 0,
            state: ActionState::Idle,
        }
    }

    /// The action, which now also needs `condition` to have the value `value`.
    pub fn with_precondition(self, condition: Condition, value: bool) -> (action: Action)
        ensures
            action@ == (Operator { pre: self@.pre.insert(condition, value), ..self@ }),
    {
        let mut action = self;
        action.preconditions.set(condition, value);
        action
    }

    /// The action, which now also gives `condition` the value `value`.
    pub fn with_postcondition(self, condition: Condition, value: bool) -> (action: Action)
        ensures
            action@ == (Operator { post: self@.post.insert(condition, value), ..self@ }),
    {
        let mut action = self;
        action.postconditions.set(condition, value);
        action
    }

    /// The action at the cost `cost`.
    pub fn with_cost(self, cost: u64) -> (action: Action)
        ensures
            action@ == (Operator { cost: cost as nat, ..self@ }),
    {
        let mut action = self;
        action.cost = cost;
        action
    }

    /// Sets what the action costs from now on.
    pub fn update_cost(&mut self, cost: u64)
        ensures
            final(self)@ == (Operator { cost: cost as nat, ..old(self)@ }),
    {
        self.cost = cost;
    }

    /// Moves the action to `next` on behalf of the logic behind it, if that
    /// logic may make this move; says whether it did.
    pub fn report(&mut self, next: ActionState) -> (moved: bool)
        ensures
            moved == old(self)@.state.host_may(next),
            final(self)@ == (if moved {
                old(self)@.with_state(next)
            } else {
                old(self)@
            }),
    {
        if self.state.allows(next) {
            self.state = next;
            true
        } else {
            false
        }
    }

    /// Makes the engine's move `drive` on the action.
    pub fn drive(&mut self, drive: Drive)
        ensures
            final(self)@ == old(self)@.after(drive),
    {
        self.state = self.state.driven(drive);
    }
}

} // verus!
