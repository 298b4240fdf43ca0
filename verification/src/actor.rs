//! Agents: what they believe, what they want, what they can do, and the state
//! machine that takes them from asking for a plan to the end of it.
use vstd::prelude::*;
use crate::action::{operators, Action, ActionState, Drive, Operator};
use crate::model::lemma_executable_names;
use crate::optimality::finitary;
use crate::planning::{answer_of, find_plan, Plan};
use crate::search::{search, Answer};
use crate::state::{overlay, Condition, Facts, WorldState};

verus! {

/// Where an agent stands between wanting a plan and having carried one out.
#[derive(Clone, Copy, Debug, PartialEq, Eq, Structural)]
pub enum ActorState {
    /// The agent has no plan and wants one.
    RequiresPlan,
    /// The agent's actions are being evaluated; a plan is to come.
    Planning,
    /// The agent walks a plan that has steps left.
    PerformingPlan,
    /// Every step of the plan succeeded, or the goal held from the start.
    CompletedPlan,
    /// A step failed and the plan was given up.
    PlanFailed,
    /// No sequence of the agent's actions leads to its goal.
    Infeasible,
}

/// An agent as mathematics.
pub struct Agent {
    /// Who the agent is.
    pub id: u64,
    pub state: ActorState,
    /// What the agent believes of its world.
    pub current: Facts,
    /// What the agent wants to hold.
    pub goal: Facts,
    /// What the agent can do.
    pub actions: Seq<Operator>,
    /// The plan that the agent walks: places in `actions`, in order.
    pub steps: Seq<usize>,
    /// What the plan costs.
    pub cost: nat,
    /// The place in `steps` of the step under way.
    pub cursor: nat,
}

impl Agent {
    /// An agent that performs a plan has a step under way, and every step
    /// names one of its actions; any other agent holds no plan.
    pub open spec fn wf(self) -> bool {
        &&& self.actions.len() <= usize::MAX
        &&& self.cost <= u64::MAX
        &&& self.state == ActorState::PerformingPlan ==> {
            &&& self.cursor < self.steps.len()
            &&& forall|k: int|
                0 <= k < self.steps.len() ==> #[trigger] self.steps[k] < self.actions.len()
        }
        &&& self.state != ActorState::PerformingPlan ==> {
            &&& self.steps.len() == 0
            &&& self.cursor == 0
            &&& self.cost == 0
        }
    }

    /// Whether the agent is one that a machine can hold: it believes finitely
    /// much, and its actions are finitely many and change finitely much.
    pub open spec fn finite(self) -> bool {
        finitary(self.current, self.actions)
    }

    /// The same agent with every action moved by `drive`.
    pub open spec fn driven(self, drive: Drive) -> Agent {
        Agent { actions: self.actions.map_values(|op: Operator| op.after(drive)), ..self }
    }

    /// The same agent in state `state`, holding no plan.
    pub open spec fn without_plan(self, state: ActorState) -> Agent {
        Agent { state, steps: Seq::empty(), cost: 0, cursor: 0, ..self }
    }

    /// Whether the agent's wish for a plan can be taken up: it wants one and
    /// all its actions rest.
    pub open spec fn can_request(self) -> bool {
        &&& self.state == ActorState::RequiresPlan
        &&& forall|i: int|
            0 <= i < self.actions.len() ==> (#[trigger] self.actions[i]).state == ActionState::Idle
    }

    /// The agent after its wish for a plan was taken up, if it can be: every
    /// action is asked to evaluate.
    pub open spec fn requested(self) -> Agent {
        if self.can_request() {
            Agent { state: ActorState::Planning, ..self.driven(Drive::Consider) }
        } else {
            self
        }
    }

    /// Whether a plan can be made for the agent: it waits for one and no
    /// action is still to be evaluated.
    pub open spec fn can_plan(self) -> bool {
        &&& self.state == ActorState::Planning
        &&& forall|i: int|
            0 <= i < self.actions.len() ==> (#[trigger] self.actions[i]).state
                != ActionState::Evaluate
    }

    /// The agent's actions once the plan `path` is chosen: the first step
    /// starts, the other steps wait as they are, and every evaluated action
    /// outside the plan is told that it was left out.
    pub open spec fn chosen(self, path: Seq<usize>) -> Seq<Operator> {
        Seq::new(
            self.actions.len(),
            |i: int|
                if path.len() > 0 && i == path[0] {
                    self.actions[i].after(Drive::Start)
                } else if path.contains(i as usize) {
                    self.actions[i]
                } else {
                    self.actions[i].after(Drive::Reject)
                },
        )
    }

    /// The agent after planning, if a plan can be made for it. With a plan of
    /// at least one step it performs the plan. With the empty plan it is done
    /// at once. Without a plan it is stuck, and says so.
    pub open spec fn planned(self) -> Agent {
        if !self.can_plan() {
            self
        } else {
            match search(self.current, self.goal, self.actions) {
                Answer::Found { path, cost } => {
                    if path.len() == 0 {
                        self.driven(Drive::Reject).without_plan(ActorState::CompletedPlan)
                    } else {
                        Agent {
                            state: ActorState::PerformingPlan,
                            actions: self.chosen(path),
                            steps: path,
                            cost,
                            cursor: 0,
                            ..self
                        }
                    }
                },
                Answer::Infeasible => self.driven(Drive::Reject).without_plan(
                    ActorState::Infeasible,
                ),
            }
        }
    }

    /// The agent after the engine looked at its actions. Actions that were
    /// left out of a plan come to rest. An agent that performs a plan follows
    /// the step under way: when it is complete, its postconditions enter the
    /// agent's beliefs and the next step starts, or the plan is completed;
    /// when it failed, the plan is given up with nothing more applied, and the
    /// steps that still waited are told that they are in no plan; until then
    /// the agent waits, however long the step takes.
    pub open spec fn observed(self) -> Agent {
        let rested = self.driven(Drive::Release);
        if self.state != ActorState::PerformingPlan {
            rested
        } else {
            let at = self.steps[self.cursor as int] as int;
            match rested.actions[at].state {
                ActionState::Complete => {
                    let current = overlay(self.current, rested.actions[at].post);
                    if self.cursor + 1 == self.steps.len() {
                        Agent { current, ..rested.without_plan(ActorState::CompletedPlan) }
                    } else {
                        let next = self.steps[self.cursor as int + 1] as int;
                        Agent {
                            current,
                            actions: rested.actions.update(
                                next,
                                rested.actions[next].after(Drive::Start),
                            ),
                            cursor: self.cursor + 1,
                            ..rested
                        }
                    }
                },
                ActionState::Failure => rested.driven(Drive::Reject).without_plan(
                    ActorState::PlanFailed,
                ),
                _ => rested,
            }
        }
    }

    /// The agent after it was sent back to want a plan: whatever plan it had
    /// is gone, and so is whatever its actions were doing.
    pub open spec fn reset(self) -> Agent {
        self.driven(Drive::Cancel).without_plan(ActorState::RequiresPlan)
    }
}

/// An agent: its beliefs, its goal, its actions, and the plan it walks.
#[derive(Debug)]
pub struct Actor {
    id: u64,
    state: ActorState,
    current: WorldState,
    goal: WorldState,
    actions: Vec<Action>,
    plan: Plan,
    cursor: usize,
}

impl View for Actor {
    type V = Agent;

    closed spec fn view(&self) -> Agent {
        Agent {
            id: self.id,
            state: self.state,
            current: self.current@,
            goal: self.goal@,
            actions: operators(self.actions@),
            steps: self.plan.steps@,
            cost: self.plan.cost as nat,
            cursor: self.cursor as nat,
        }
    }
}

/// Makes the move `drive` on every action of the list.
fn drive_all(actions: &mut Vec<Action>, drive: Drive)
    ensures
        operators(final(actions)@) == operators(old(actions)@).map_values(
            |op: Operator| op.after(drive),
        ),
{
    let mut i: usize = 0;
    while i < actions.len()
        invariant
            i <= actions.len(),
            actions.len() == old(actions).len(),
            forall|j: int| 0 <= j < i ==> (#[trigger] actions[j])@ == old(actions)[j]@.after(drive),
            forall|j: int| i <= j < actions.len() ==> (#[trigger] actions[j])@ == old(actions)[j]@,
        decreases actions.len() - i,
    {
        actions[i].drive(drive);
        i += 1;
    }
    assert(operators(actions@) =~= operators(old(actions)@).map_values(
        |op: Operator| op.after(drive),
    ));
}

/// Whether every action of the list is in state `state`.
fn all_in(actions: &Vec<Action>, state: ActionState) -> (yes: bool)
    ensures
        yes == (forall|i: int|
            0 <= i < actions.len() ==> (#[trigger] operators(actions@)[i]).state == state),
{
    let mut i: usize = 0;
    while i < actions.len()
        invariant
            i <= actions.len(),
            forall|j: int| 0 <= j < i ==> (#[trigger] operators(actions@)[j]).state == state,
        decreases actions.len() - i,
    {
        if actions[i].state != state {
            assert(operators(actions@)[i as int].state != state);
            return false;
        }
        i += 1;
    }
    true
}

/// Whether no action of the list is in state `state`.
fn none_in(actions: &Vec<Action>, state: ActionState) -> (yes: bool)
    ensures
        yes == (forall|i: int|
            0 <= i < actions.len() ==> (#[trigger] operators(actions@)[i]).state != state),
{
    let mut i: usize = 0;
    while i < actions.len()
        invariant
            i <= actions.len(),
            forall|j: int| 0 <= j < i ==> (#[trigger] operators(actions@)[j]).state != state,
        decreases actions.len() - i,
    {
        if actions[i].state == state {
            assert(operators(actions@)[i as int].state == state);
            return false;
        }
        i += 1;
    }
    true
}

/// Whether `steps` names the place `index`.
fn names(steps: &Vec<usize>, index: usize) -> (yes: bool)
    ensures
        yes == steps@.contains(index),
{
    let mut i: usize = 0;
    while i < steps.len()
        invariant
            i <= steps.len(),
            forall|j: int| 0 <= j < i ==> steps[j] != index,
        decreases steps.len() - i,
    {
        if steps[i] == index {
            return true;
        }
        i += 1;
    }
    false
}

impl Actor {
    /// An agent that performs a plan has a step under way, and every step
    /// names one of its actions; any other agent holds no plan.
    #[verifier::type_invariant]
    spec fn in_order(self) -> bool {
        self@.wf()
    }

    /// Every agent that the machine holds is finite.
    pub proof fn lemma_finite(&self)
        ensures
            self@.finite(),
    {
        crate::planning::lemma_finitary(&self.current, &self.actions);
    }

    /// An agent that believes nothing, wants nothing, can do nothing, and
    /// wants a plan.
    pub fn build(id: u64) -> (actor: Actor)
        ensures
            actor@.wf(),
            actor@ == (Agent {
                id,
                state: ActorState::RequiresPlan,
                current: Map::empty(),
                goal: Map::empty(),
                actions: Seq::empty(),
                steps: Seq::empty(),
                cost: 0,
                cursor: 0,
            }),
    {
        let actions: Vec<Action> = Vec::new();
        assert(operators(actions@) =~= Seq::empty());
        Actor {
            id,
            state: ActorState::RequiresPlan,
            current: WorldState::new(),
            goal: WorldState::new(),
            actions,
            plan: Plan { steps: Vec::new(), cost: 0 },
            cursor: 0,
        }
    }

    /// Takes the agent out of `self` and leaves a new-built one in its place.
    fn take(&mut self) -> (actor: Actor)
        ensures
            actor == *old(self),
    {
        let mut actor = Actor::build(0);
        std::mem::swap(self, &mut actor);
        actor
    }

    /// The agent, which now believes that `condition` has the value `value`.
    pub fn with_initial_condition(self, condition: Condition, value: bool) -> (actor: Actor)
        ensures
            actor@.wf(),
            actor@ == (Agent { current: self@.current.insert(condition, value), ..self@ }),
    {
        proof {
            use_type_invariant(&self);
        }
        let Actor { id, state, mut current, goal, actions, plan, cursor } = self;
        current.set(condition, value);
        Actor { id, state, current, goal, actions, plan, cursor }
    }

    /// The agent, which now wants `condition` to have the value `value`.
    pub fn with_goal(self, condition: Condition, value: bool) -> (actor: Actor)
        ensures
            actor@.wf(),
            actor@ == (Agent { goal: self@.goal.insert(condition, value), ..self@ }),
    {
        proof {
            use_type_invariant(&self);
        }
        let Actor { id, state, current, mut goal, actions, plan, cursor } = self;
        goal.set(condition, value);
        Actor { id, state, current, goal, actions, plan, cursor }
    }

    /// The agent, which can now also do `action`. The action enters at rest,
    /// behind the actions that the agent had.
    pub fn with_action(self, action: Action) -> (actor: Actor)
        ensures
            actor@.wf(),
            actor@ == (Agent {
                actions: self@.actions.push(action@.with_state(ActionState::Idle)),
                ..self@
            }),
    {
        proof {
            use_type_invariant(&self);
        }
        let Actor { id, state, current, goal, mut actions, plan, cursor } = self;
        let mut action = action;
        action.state = ActionState::Idle;
        let ghost before = actions@;
        actions.push(action);
        assert(actions@.len() == actions.len());
        assert(operators(actions@) =~= operators(before).push(action@));
        Actor { id, state, current, goal, actions, plan, cursor }
    }

    /// Who the agent is.
    pub fn id(&self) -> (id: u64)
        ensures
            id == self@.id,
    {
        self.id
    }

    /// Where the agent stands.
    pub fn state(&self) -> (state: ActorState)
        ensures
            state == self@.state,
            self@.wf(),
    {
        proof {
            use_type_invariant(self);
        }
        self.state
    }

    /// What the agent believes.
    pub fn current_state(&self) -> (current: &WorldState)
        ensures
            current@ == self@.current,
    {
        &self.current
    }

    /// What the agent wants.
    pub fn goal(&self) -> (goal: &WorldState)
        ensures
            goal@ == self@.goal,
    {
        &self.goal
    }

    /// What the agent can do.
    pub fn actions(&self) -> (actions: &Vec<Action>)
        ensures
            operators(actions@) == self@.actions,
    {
        &self.actions
    }

    /// The plan that the agent walks; it has no steps unless the agent
    /// performs a plan.
    pub fn plan(&self) -> (plan: &Plan)
        ensures
            plan.steps@ == self@.steps,
            plan.cost == self@.cost,
    {
        &self.plan
    }

    /// The place in the agent's actions of the step under way, if the agent
    /// performs a plan.
    pub fn current_step(&self) -> (step: Option<usize>)
        ensures
            step == (if self@.state == ActorState::PerformingPlan {
                Some(self@.steps[self@.cursor as int])
            } else {
                None
            }),
    {
        proof {
            use_type_invariant(self);
        }
        if self.state == ActorState::PerformingPlan {
            Some(self.plan.steps[self.cursor])
        } else {
            None
        }
    }

    /// Makes the agent believe that `condition` has the value `value`.
    pub fn update_current_state(&mut self, condition: Condition, value: bool)
        ensures
            final(self)@.wf(),
            final(self)@ == (Agent {
                current: old(self)@.current.insert(condition, value),
                ..old(self)@
            }),
    {
        *self = self.take().with_initial_condition(condition, value);
    }

    /// Makes the agent want `condition` to have the value `value`.
    pub fn update_goal(&mut self, condition: Condition, value: bool)
        ensures
            final(self)@.wf(),
            final(self)@ == (Agent {
                goal: old(self)@.goal.insert(condition, value),
                ..old(self)@
            }),
    {
        *self = self.take().with_goal(condition, value);
    }

    /// Sets what the action at place `index` costs from now on; says whether
    /// there is such an action.
    pub fn update_cost(&mut self, index: usize, cost: u64) -> (done: bool)
        ensures
            final(self)@.wf(),
            done == (index < old(self)@.actions.len()),
            final(self)@ == (if done {
                Agent {
                    actions: old(self)@.actions.update(
                        index as int,
                        Operator { cost: cost as nat, ..old(self)@.actions[index as int] },
                    ),
                    ..old(self)@
                }
            } else {
                old(self)@
            }),
    {
        proof {
            use_type_invariant(&*self);
        }
        let Actor { id, state, current, goal, mut actions, plan, cursor } = self.take();
        let done = index < actions.len();
        if done {
            actions[index].update_cost(cost);
            assert(operators(actions@) =~= old(self)@.actions.update(
                index as int,
                Operator { cost: cost as nat, ..old(self)@.actions[index as int] },
            ));
        }
        *self = Actor { id, state, current, goal, actions, plan, cursor };
        done
    }

    /// Moves the action at place `index` to `next` on behalf of the logic
    /// behind it, if there is such an action and that logic may make this
    /// move; says whether it did.
    pub fn report(&mut self, index: usize, next: ActionState) -> (moved: bool)
        ensures
            final(self)@.wf(),
            moved == (index < old(self)@.actions.len()
                && old(self)@.actions[index as int].state.host_may(next)),
            final(self)@ == (if moved {
                Agent {
                    actions: old(self)@.actions.update(
                        index as int,
                        old(self)@.actions[index as int].with_state(next),
                    ),
                    ..old(self)@
                }
            } else {
                old(self)@
            }),
    {
        proof {
            use_type_invariant(&*self);
        }
        let Actor { id, state, current, goal, mut actions, plan, cursor } = self.take();
        let mut moved = false;
        if index < actions.len() {
            moved = actions[index].report(next);
        }
        proof {
            if moved {
                assert(operators(actions@) =~= old(self)@.actions.update(
                    index as int,
                    old(self)@.actions[index as int].with_state(next),
                ));
            } else {
                assert(operators(actions@) =~= old(self)@.actions);
            }
        }
        *self = Actor { id, state, current, goal, actions, plan, cursor };
        moved
    }

    /// Sends the agent back to want a plan, from wherever it stands. Its plan
    /// is dropped. Every action that was being evaluated, was evaluated or
    /// was under way is told that it is in no plan, so that it can give back
    /// what it holds; every finished action comes to rest.
    pub fn reset(&mut self)
        ensures
            final(self)@.wf(),
            final(self)@ == old(self)@.reset(),
    {
        proof {
            use_type_invariant(&*self);
        }
        let Actor { id, state: _, current, goal, mut actions, plan: _, cursor: _ } = self.take();
        drive_all(&mut actions, Drive::Cancel);
        *self = Actor {
            id,
            state: ActorState::RequiresPlan,
            current,
            goal,
            actions,
            plan: Plan { steps: Vec::new(), cost: 0 },
            cursor: 0,
        };
    }

    /// Takes up the agent's wish for a plan, if it has one and all its
    /// actions rest: every action is asked to evaluate, and the agent waits
    /// for its plan. Says whether it did.
    pub fn request(&mut self) -> (asked: bool)
        ensures
            final(self)@.wf(),
            asked == old(self)@.can_request(),
            final(self)@ == old(self)@.requested(),
    {
        proof {
            use_type_invariant(&*self);
        }
        if !(self.state == ActorState::RequiresPlan && all_in(&self.actions, ActionState::Idle)) {
            return false;
        }
        let Actor { id, state: _, current, goal, mut actions, plan, cursor } = self.take();
        drive_all(&mut actions, Drive::Consider);
        *self = Actor { id, state: ActorState::Planning, current, goal, actions, plan, cursor };
        true
    }

    /// Plans for the agent, if it waits for a plan and every action was
    /// evaluated. Says whether it did.
    pub fn make_plan(&mut self) -> (planned: bool)
        ensures
            final(self)@.wf(),
            planned == old(self)@.can_plan(),
            final(self)@ == old(self)@.planned(),
    {
        proof {
            use_type_invariant(&*self);
        }
        if !(self.state == ActorState::Planning && none_in(&self.actions, ActionState::Evaluate)) {
            return false;
        }
        let Actor { id, state: _, current, goal, mut actions, plan: _, cursor: _ } = self.take();
        let found = find_plan(&current, &goal, &actions);
        assert(answer_of(found) == search(old(self)@.current, old(self)@.goal, old(self)@.actions));
        let ghost before = actions@;
        match found {
            Some(plan) if plan.steps.len() > 0 => {
                proof {
                    lemma_executable_names(current@, operators(before), plan.steps@);
                }
                let first = plan.steps[0];
                let mut i: usize = 0;
                while i < actions.len()
                    invariant
                        i <= actions.len(),
                        actions.len() == before.len(),
                        operators(before) == old(self)@.actions,
                        plan.steps.len() > 0,
                        first == plan.steps[0],
                        forall|j: int|
                            0 <= j < i ==> (#[trigger] actions[j])@ == old(self)@.chosen(
                                plan.steps@,
                            )[j],
                        forall|j: int|
                            i <= j < actions.len() ==> (#[trigger] actions[j])@ == before[j]@,
                    decreases actions.len() - i,
                {
                    if i == first {
                        actions[i].drive(Drive::Start);
                    } else if !names(&plan.steps, i) {
                        actions[i].drive(Drive::Reject);
                    }
                    i += 1;
                }
                assert(operators(actions@) =~= old(self)@.chosen(plan.steps@));
                *self = Actor {
                    id,
                    state: ActorState::PerformingPlan,
                    current,
                    goal,
                    actions,
                    plan,
                    cursor: 0,
                };
            },
            Some(_) => {
                drive_all(&mut actions, Drive::Reject);
                *self = Actor {
                    id,
                    state: ActorState::CompletedPlan,
                    current,
                    goal,
                    actions,
                    plan: Plan { steps: Vec::new(), cost: 0 },
                    cursor: 0,
                };
            },
            None => {
                drive_all(&mut actions, Drive::Reject);
                *self = Actor {
                    id,
                    state: ActorState::Infeasible,
                    current,
                    goal,
                    actions,
                    plan: Plan { steps: Vec::new(), cost: 0 },
                    cursor: 0,
                };
            },
        }
        true
    }

    /// Looks at the agent's actions and follows the plan; see
    /// [`Agent::observed`].
    pub fn observe(&mut self)
        ensures
            final(self)@.wf(),
            final(self)@ == old(self)@.observed(),
    {
        proof {
            use_type_invariant(&*self);
        }
        let Actor { id, state, mut current, goal, mut actions, plan, cursor } = self.take();
        drive_all(&mut actions, Drive::Release);
        let ghost rested = operators(actions@);
        if state != ActorState::PerformingPlan {
            *self = Actor { id, state, current, goal, actions, plan, cursor };
            return ;
        }
        let at = plan.steps[cursor];
        match actions[at].state {
            ActionState::Complete => {
                current.apply(&actions[at].postconditions);
                let count = plan.steps.len();
                if cursor + 1 == count {
                    *self = Actor {
                        id,
                        state: ActorState::CompletedPlan,
                        current,
                        goal,
                        actions,
                        plan: Plan { steps: Vec::new(), cost: 0 },
                        cursor: 0,
                    };
                } else {
                    let next = plan.steps[cursor + 1];
                    actions[next].drive(Drive::Start);
                    assert(operators(actions@) =~= rested.update(
                        next as int,
                        rested[next as int].after(Drive::Start),
                    ));
                    *self = Actor { id, state, current, goal, actions, plan, cursor: cursor + 1 };
                }
            },
            ActionState::Failure => {
                drive_all(&mut actions, Drive::Reject);
                *self = Actor {
                    id,
                    state: ActorState::PlanFailed,
                    current,
                    goal,
                    actions,
                    plan: Plan { steps: Vec::new(), cost: 0 },
                    cursor: 0,
                };
            },
            _ => {
                *self = Actor { id, state, current, goal, actions, plan, cursor };
            },
        }
    }
}

} // verus!
