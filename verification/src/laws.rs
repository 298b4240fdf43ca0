//! What holds of the planner and of the two state machines, whatever the
//! agent, its goal and its actions are.
use vstd::prelude::*;
use crate::action::{operators, Action, ActionState, Drive, Operator};
use crate::actor::{ActorState, Agent};
use crate::model::{achieves, outcome, path_cost};
use crate::optimality::{
    lemma_bounded_expand, lemma_bounded_skip, lemma_search_right, lemma_search_satisfied,
    lemma_search_starts,
};
use crate::planning::lemma_finitary;
use crate::search::{
    bounded, cheapest, children, explore, lemma_cheapest, lemma_room, root, search, touched,
    universe, visited, Answer, Node,
};
use crate::resources::{gives_back, handed_back, Claim};
use crate::state::{holds, Condition, Facts, WorldState};

verus! {

/// Two lists of operators offer the planner the same: at each place both are
/// eligible or neither is, and two eligible ones need, change and cost the
/// same.
pub open spec fn same_offer(a: Seq<Operator>, b: Seq<Operator>) -> bool {
    &&& a.len() == b.len()
    &&& forall|i: int|
        0 <= i < a.len() ==> {
            &&& (#[trigger] a[i]).eligible() == b[i].eligible()
            &&& a[i].eligible() ==> a[i].pre == b[i].pre && a[i].post == b[i].post && a[i].cost
                == b[i].cost
        }
}

/// Two lists that offer the same lead to the same nodes.
proof fn lemma_children_same(node: Node, a: Seq<Operator>, b: Seq<Operator>, upto: int)
    requires
        same_offer(a, b),
        0 <= upto <= a.len(),
    ensures
        children(node, a, upto) == children(node, b, upto),
    decreases upto,
{
    if upto > 0 {
        lemma_children_same(node, a, b, upto - 1);
        assert(a[upto - 1].eligible() == b[upto - 1].eligible());
    }
}

/// Two lists that offer the same give the same search, step for step.
proof fn lemma_explore_same(
    frontier: Seq<Node>,
    closed: Seq<Node>,
    goal: Facts,
    a: Seq<Operator>,
    keys_a: Set<Condition>,
    b: Seq<Operator>,
    keys_b: Set<Condition>,
)
    requires
        bounded(frontier, closed, a, keys_a),
        bounded(frontier, closed, b, keys_b),
        same_offer(a, b),
    ensures
        explore(frontier, closed, goal, a, keys_a) == explore(frontier, closed, goal, b, keys_b),
    decreases universe(keys_a).len() - closed.len(), frontier.len(),
{
    if frontier.len() > 0 {
        lemma_cheapest(frontier);
        let at = cheapest(frontier);
        let node = frontier[at];
        let rest = frontier.remove(at);
        if visited(closed, node.state) {
            lemma_bounded_skip(frontier, closed, a, keys_a, at);
            lemma_bounded_skip(frontier, closed, b, keys_b, at);
            lemma_explore_same(rest, closed, goal, a, keys_a, b, keys_b);
        } else if !holds(node.state, goal) {
            lemma_children_same(node, a, b, a.len() as int);
            lemma_room(closed, node, keys_a);
            lemma_bounded_expand(frontier, closed, a, keys_a, at);
            lemma_bounded_expand(frontier, closed, b, keys_b, at);
            lemma_explore_same(
                rest + children(node, a, a.len() as int),
                closed.push(node),
                goal,
                a,
                keys_a,
                b,
                keys_b,
            );
        }
    }
}

/// Planning is deterministic. The plan is a function of what the agent
/// believes, what it wants, and what its eligible actions need, change and
/// cost: two planning problems that agree on these have the same answer, step
/// for step and at the same cost. What an action that is not eligible needs,
/// changes or costs has no part in it.
pub proof fn lemma_same_problem_same_plan(
    current_a: &WorldState,
    goal_a: &WorldState,
    actions_a: &Vec<Action>,
    current_b: &WorldState,
    goal_b: &WorldState,
    actions_b: &Vec<Action>,
)
    requires
        current_a@ == current_b@,
        goal_a@ == goal_b@,
        same_offer(operators(actions_a@), operators(actions_b@)),
    ensures
        search(current_a@, goal_a@, operators(actions_a@)) == search(
            current_b@,
            goal_b@,
            operators(actions_b@),
        ),
{
    let a = operators(actions_a@);
    let b = operators(actions_b@);
    lemma_finitary(current_a, actions_a);
    lemma_finitary(current_b, actions_b);
    lemma_search_starts(current_a@, goal_a@, a);
    lemma_search_starts(current_b@, goal_b@, b);
    lemma_explore_same(
        seq![root(current_a@)],
        Seq::empty(),
        goal_a@,
        a,
        current_a@.dom().union(touched(a)),
        b,
        current_b@.dom().union(touched(b)),
    );
}

/// The plan is a cheapest one: whenever the planner answers with a plan, no
/// sequence of actions that reaches the goal costs less.
pub proof fn lemma_plan_is_cheapest(
    current: &WorldState,
    goal: &WorldState,
    actions: &Vec<Action>,
    other: Seq<usize>,
)
    requires
        achieves(current@, goal@, operators(actions@), other),
    ensures
        match search(current@, goal@, operators(actions@)) {
            Answer::Found { path, cost } => {
                &&& achieves(current@, goal@, operators(actions@), path)
                &&& cost == path_cost(operators(actions@), path)
                &&& cost <= path_cost(operators(actions@), other)
            },
            Answer::Infeasible => path_cost(operators(actions@), other) > u64::MAX,
        },
{
    lemma_finitary(current, actions);
    lemma_search_right(current@, goal@, operators(actions@));
}

/// Where no sequence of eligible actions reaches the goal, the planner says
/// so: it never answers with a plan that does not reach the goal.
pub proof fn lemma_no_way_no_plan(current: &WorldState, goal: &WorldState, actions: &Vec<Action>)
    requires
        forall|path: Seq<usize>| !achieves(current@, goal@, operators(actions@), path),
    ensures
        search(current@, goal@, operators(actions@)) == Answer::Infeasible,
{
    lemma_finitary(current, actions);
    lemma_search_right(current@, goal@, operators(actions@));
}

/// Where what the agent believes satisfies its goal already, the plan is the
/// empty one, at no cost.
pub proof fn lemma_goal_held_empty_plan(
    current: &WorldState,
    goal: &WorldState,
    actions: &Vec<Action>,
)
    requires
        holds(current@, goal@),
    ensures
        search(current@, goal@, operators(actions@)) == (Answer::Found {
            path: Seq::empty(),
            cost: 0,
        }),
{
    lemma_finitary(current, actions);
    lemma_search_satisfied(current@, goal@, operators(actions@));
}

/// An evaluated action that planning leaves out of the plan is told so: it is
/// in `NotInPlan`, marked as evaluated, when planning is over. This holds
/// whether a plan was found or not.
pub proof fn lemma_left_out_is_told(agent: Agent, i: int)
    requires
        agent.can_plan(),
        0 <= i < agent.actions.len(),
        agent.actions[i].state is EvaluationComplete,
        !agent.planned().steps.contains(i as usize),
    ensures
        agent.planned().actions[i].state == ActionState::NotInPlan(true),
{
    match search(agent.current, agent.goal, agent.actions) {
        Answer::Found { path, cost } => {
            if path.len() > 0 {
                assert(path.contains(path[0]));
            }
        },
        Answer::Infeasible => {},
    }
}

/// What an evaluated action reserved goes back when planning leaves the
/// action out: the engine's next look at the actions frees the slot.
pub proof fn lemma_reservation_goes_back(
    agent: Agent,
    i: usize,
    slots: Seq<Option<Claim>>,
    slot: int,
)
    requires
        agent.can_plan(),
        i < agent.actions.len(),
        agent.actions[i as int].state is EvaluationComplete,
        !agent.planned().steps.contains(i),
        0 <= slot < slots.len(),
        slots[slot] == Some(Claim { actor: agent.id, action: i }),
    ensures
        handed_back(slots, seq![agent.planned()])[slot] is None,
{
    lemma_left_out_is_told(agent, i as int);
    let after = seq![agent.planned()];
    assert(gives_back(after[0], Claim { actor: agent.id, action: i }));
}

/// No planning pass begins for an agent while one of its actions is still in
/// `NotInPlan`: the wish for a plan waits until the action has come to rest.
pub proof fn lemma_no_pass_before_release(agent: Agent, i: int)
    requires
        0 <= i < agent.actions.len(),
        agent.actions[i].state is NotInPlan,
    ensures
        !agent.can_request(),
        agent.requested() == agent,
{
}

/// The engine's look at the actions, which follows the host's systems behind
/// the actions, brings every action that was in `NotInPlan` to rest.
pub proof fn lemma_release_follows(agent: Agent, i: int)
    requires
        agent.wf(),
        0 <= i < agent.actions.len(),
        agent.actions[i].state is NotInPlan,
    ensures
        agent.observed().actions[i].state == ActionState::Idle,
{
}

/// Whether the engine ever takes an agent from `from` to `to`.
pub open spec fn agent_may(from: ActorState, to: ActorState) -> bool {
    match (from, to) {
        (_, ActorState::RequiresPlan) => true,
        (ActorState::RequiresPlan, ActorState::Planning) => true,
        (ActorState::Planning, ActorState::PerformingPlan) => true,
        (ActorState::Planning, ActorState::CompletedPlan) => true,
        (ActorState::Planning, ActorState::Infeasible) => true,
        (ActorState::PerformingPlan, ActorState::CompletedPlan) => true,
        (ActorState::PerformingPlan, ActorState::PlanFailed) => true,
        _ => false,
    }
}

/// Whether `after` is `before` with nothing changed but states, the agent's
/// by a step of its state machine and each action's by one move of the
/// engine, and possibly the beliefs and the plan.
pub open spec fn engine_step(before: Agent, after: Agent) -> bool {
    &&& after.id == before.id
    &&& after.goal == before.goal
    &&& after.state == before.state || agent_may(before.state, after.state)
    &&& after.actions.len() == before.actions.len()
    &&& forall|i: int|
        0 <= i < before.actions.len() ==> {
            &&& (#[trigger] after.actions[i]) == before.actions[i].with_state(
                after.actions[i].state,
            )
            &&& after.actions[i].state == before.actions[i].state
                || before.actions[i].state.engine_may(after.actions[i].state)
        }
}

/// One move of the engine, if it changes the state, is a move that the
/// engine may make.
pub proof fn lemma_drive_is_engine_move(state: ActionState, drive: Drive)
    ensures
        state.after(drive) == state || state.engine_may(state.after(drive)),
{
}

/// The engine changes states only by the steps of the two state machines:
/// taking up a wish for a plan, planning, looking at the actions and sending
/// an agent back each move the agent by a step of its machine and each
/// action by at most one move of the engine, and touch nothing else of an
/// action.
pub proof fn lemma_engine_steps(agent: Agent)
    requires
        agent.wf(),
    ensures
        engine_step(agent, agent.requested()),
        engine_step(agent, agent.planned()),
        engine_step(agent, agent.observed()),
        engine_step(agent, agent.reset()),
{
    assert(engine_step(agent, agent.requested())) by {
        assert forall|i: int| 0 <= i < agent.actions.len() implies {
            &&& (#[trigger] agent.requested().actions[i]) == agent.actions[i].with_state(
                agent.requested().actions[i].state,
            )
            &&& agent.requested().actions[i].state == agent.actions[i].state
                || agent.actions[i].state.engine_may(agent.requested().actions[i].state)
        } by {
            lemma_drive_is_engine_move(agent.actions[i].state, Drive::Consider);
        }
    }
    assert(engine_step(agent, agent.planned())) by {
        assert forall|i: int| 0 <= i < agent.actions.len() implies {
            &&& (#[trigger] agent.planned().actions[i]) == agent.actions[i].with_state(
                agent.planned().actions[i].state,
            )
            &&& agent.planned().actions[i].state == agent.actions[i].state
                || agent.actions[i].state.engine_may(agent.planned().actions[i].state)
        } by {
            lemma_drive_is_engine_move(agent.actions[i].state, Drive::Reject);
            lemma_drive_is_engine_move(agent.actions[i].state, Drive::Start);
        }
    }
    assert(engine_step(agent, agent.reset())) by {
        assert forall|i: int| 0 <= i < agent.actions.len() implies {
            &&& (#[trigger] agent.reset().actions[i]) == agent.actions[i].with_state(
                agent.reset().actions[i].state,
            )
            &&& agent.reset().actions[i].state == agent.actions[i].state
                || agent.actions[i].state.engine_may(agent.reset().actions[i].state)
        } by {
            lemma_drive_is_engine_move(agent.actions[i].state, Drive::Cancel);
        }
    }
    assert(engine_step(agent, agent.observed())) by {
        assert forall|i: int| 0 <= i < agent.actions.len() implies {
            &&& (#[trigger] agent.observed().actions[i]) == agent.actions[i].with_state(
                agent.observed().actions[i].state,
            )
            &&& agent.observed().actions[i].state == agent.actions[i].state
                || agent.actions[i].state.engine_may(agent.observed().actions[i].state)
        } by {
            lemma_drive_is_engine_move(agent.actions[i].state, Drive::Release);
            lemma_drive_is_engine_move(agent.actions[i].state, Drive::Reject);
            lemma_drive_is_engine_move(agent.actions[i].state, Drive::Start);
        }
    }
}

/// Whether an agent that performs a plan is where the plan wants it: the plan
/// leads from `start` to the agent's goal by the operators `ops`, the agent's
/// actions still change what those operators change, and the agent believes
/// what the steps completed so far make of `start`.
pub open spec fn on_track(agent: Agent, start: Facts, ops: Seq<Operator>) -> bool {
    agent.state == ActorState::PerformingPlan ==> {
        &&& achieves(start, agent.goal, ops, agent.steps)
        &&& agent.current == outcome(start, ops, agent.steps.take(agent.cursor as int))
        &&& agent.actions.len() == ops.len()
        &&& forall|i: int|
            0 <= i < ops.len() ==> (#[trigger] agent.actions[i]).post == ops[i].post
    }
}

/// A plan starts on track: it leads from what the agent believes when the
/// plan is made to the agent's goal.
pub proof fn lemma_plan_starts_on_track(agent: Agent)
    requires
        agent.can_plan(),
        agent.finite(),
    ensures
        on_track(agent.planned(), agent.current, agent.actions),
{
    lemma_search_right(agent.current, agent.goal, agent.actions);
    let after = agent.planned();
    if after.state == ActorState::PerformingPlan {
        assert(after.steps.take(0) =~= Seq::empty());
        assert forall|i: int| 0 <= i < agent.actions.len() implies (
        #[trigger] after.actions[i]).post == agent.actions[i].post by {
            assert(after.actions[i] == agent.chosen(after.steps)[i]);
        }
    }
}

/// The engine's look at the actions keeps a plan on track, and a plan that is
/// on track when its last step completes leaves the agent's goal satisfied.
pub proof fn lemma_walk_reaches_goal(agent: Agent, start: Facts, ops: Seq<Operator>)
    requires
        agent.wf(),
        on_track(agent, start, ops),
    ensures
        on_track(agent.observed(), start, ops),
        agent.state == ActorState::PerformingPlan && agent.observed().state
            == ActorState::CompletedPlan ==> holds(agent.observed().current, agent.goal),
{
    if agent.state == ActorState::PerformingPlan {
        let at = agent.steps[agent.cursor as int] as int;
        let done = agent.steps.take(agent.cursor as int + 1);
        assert(done.drop_last() =~= agent.steps.take(agent.cursor as int));
        assert(done.last() == agent.steps[agent.cursor as int]);
        assert(agent.driven(Drive::Release).actions[at].post == ops[at].post);
        if agent.cursor + 1 == agent.steps.len() {
            assert(done =~= agent.steps);
        }
    }
}

/// What the logic behind the actions and the host may do to an agent between
/// two looks of the engine without taking a plan off its track: move actions
/// from state to state, and change what actions cost.
pub proof fn lemma_reports_keep_track(
    agent: Agent,
    after: Agent,
    start: Facts,
    ops: Seq<Operator>,
)
    requires
        on_track(agent, start, ops),
        after.state == agent.state,
        after.current == agent.current,
        after.goal == agent.goal,
        after.steps == agent.steps,
        after.cursor == agent.cursor,
        after.actions.len() == agent.actions.len(),
        forall|i: int|
            0 <= i < agent.actions.len() ==> (#[trigger] after.actions[i]).post
                == agent.actions[i].post,
    ensures
        on_track(after, start, ops),
{
    if agent.state == ActorState::PerformingPlan {
        assert forall|i: int| 0 <= i < ops.len() implies (#[trigger] after.actions[i]).post
            == ops[i].post by {
            assert(agent.actions[i].post == ops[i].post);
        }
    }
}

} // verus!
