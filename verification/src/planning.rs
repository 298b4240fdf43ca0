//! The planner: the search, run on an agent's state, goal and actions.
use vstd::prelude::*;
use crate::action::{operators, Action, ActionState, EvaluationResult};
use crate::model::{achieves, path_cost};
use crate::optimality::{
    finitary, lemma_bounded_expand, lemma_bounded_skip, lemma_search_right,
    lemma_search_satisfied, lemma_search_starts, right,
};
use crate::search::{
    bounded, cheapest, child, children, explore, lemma_cheapest, lemma_room, root, search, touched,
    universe, visited, Answer, Node,
};
use crate::state::{holds, WorldState};

verus! {

/// An ordered sequence of actions, each named by its place in the agent's
/// list of actions, and what the sequence costs.
#[derive(Debug)]
pub struct Plan {
    pub steps: Vec<usize>,
    pub cost: u64,
}

/// What a planner's result says, as an answer of the search.
pub open spec fn answer_of(plan: Option<Plan>) -> Answer {
    match plan {
        Some(p) => Answer::Found { path: p.steps@, cost: p.cost as nat },
        None => Answer::Infeasible,
    }
}

/// A node of the search as the machine holds it.
struct Candidate {
    state: WorldState,
    cost: u64,
    path: Vec<usize>,
}

impl View for Candidate {
    type V = Node;

    closed spec fn view(&self) -> Node {
        Node { state: self.state@, cost: self.cost as nat, path: self.path@ }
    }
}

/// The candidates of a list, each as a node of the search.
spec fn nodes(candidates: Seq<Candidate>) -> Seq<Node> {
    candidates.map_values(|c: Candidate| c@)
}

/// The place of the cheapest candidate; of several, the one that came first.
fn pick(frontier: &Vec<Candidate>) -> (at: usize)
    requires
        frontier.len() > 0,
    ensures
        at == cheapest(nodes(frontier@)),
        at < frontier.len(),
{
    let mut at: usize = 0;
    let mut i: usize = 1;
    assert(nodes(frontier@).take(1).len() == 1);
    while i < frontier.len()
        invariant
            1 <= i <= frontier.len(),
            at < i,
            at == cheapest(nodes(frontier@).take(i as int)),
        decreases frontier.len() - i,
    {
        proof {
            let now = nodes(frontier@).take(i + 1);
            assert(now.drop_last() =~= nodes(frontier@).take(i as int));
            assert(now.last() == frontier[i as int]@);
            assert(now[at as int] == frontier[at as int]@);
        }
        if frontier[i].cost < frontier[at].cost {
            at = i;
        }
        i += 1;
    }
    assert(nodes(frontier@).take(i as int) =~= nodes(frontier@));
    at
}

/// Whether `state` is the state of one of the expanded candidates.
fn seen(closed: &Vec<Candidate>, state: &WorldState) -> (yes: bool)
    ensures
        yes == visited(nodes(closed@), state@),
{
    let mut i: usize = 0;
    while i < closed.len()
        invariant
            i <= closed.len(),
            forall|j: int| 0 <= j < i ==> (#[trigger] nodes(closed@)[j]).state != state@,
        decreases closed.len() - i,
    {
        if closed[i].state.same_as(state) {
            assert(nodes(closed@)[i as int].state == state@);
            return true;
        }
        i += 1;
    }
    false
}

/// A copy of `path`.
fn copy_path(path: &Vec<usize>) -> (copy: Vec<usize>)
    ensures
        copy@ == path@,
{
    let mut copy: Vec<usize> = Vec::new();
    let mut i: usize = 0;
    while i < path.len()
        invariant
            i <= path.len(),
            copy@ == path@.take(i as int),
        decreases path.len() - i,
    {
        copy.push(path[i]);
        assert(copy@ =~= path@.take(i + 1));
        i += 1;
    }
    assert(path@.take(i as int) =~= path@);
    copy
}

/// Whether the action's evaluation ended in success.
fn eligible(action: &Action) -> (yes: bool)
    ensures
        yes == action@.eligible(),
{
    match action.state {
        ActionState::EvaluationComplete(EvaluationResult::Success) => true,
        _ => false,
    }
}

/// Puts on the frontier what the actions lead to from `node`.
fn expand(node: &Candidate, actions: &Vec<Action>, frontier: &mut Vec<Candidate>)
    ensures
        nodes(final(frontier)@) == nodes(old(frontier)@) + children(
            node@,
            operators(actions@),
            actions.len() as int,
        ),
{
    let ghost ops = operators(actions@);
    let mut i: usize = 0;
    assert(nodes(frontier@) =~= nodes(old(frontier)@) + children(node@, ops, 0));
    while i < actions.len()
        invariant
            i <= actions.len(),
            ops == operators(actions@),
            nodes(frontier@) == nodes(old(frontier)@) + children(node@, ops, i as int),
        decreases actions.len() - i,
    {
        let action = &actions[i];
        assert(ops[i as int] == action@);
        if eligible(action) && node.state.satisfies(&action.preconditions) && action.cost
            <= u64::MAX - node.cost {
            let mut state = node.state.clone();
            state.apply(&action.postconditions);
            let mut path = copy_path(&node.path);
            path.push(i);
            let ghost before = frontier@;
            let next = Candidate { state, cost: node.cost + action.cost, path };
            assert(next@ == child(node@, ops[i as int], i as int));
            frontier.push(next);
            assert(nodes(frontier@) =~= nodes(before).push(next@));
            assert(nodes(frontier@) =~= nodes(old(frontier)@) + children(node@, ops, i + 1));
        }
        i += 1;
    }
}

/// What the machine holds is a planning problem of finitely many conditions.
pub proof fn lemma_finitary(current: &WorldState, actions: &Vec<Action>)
    ensures
        finitary(current@, operators(actions@)),
{
    current.lemma_finite();
    assert(actions.len() == actions@.len());
    assert forall|i: int| 0 <= i < operators(actions@).len() implies (#[trigger] operators(
        actions@,
    )[i]).post.dom().finite() by {
        actions@[i].postconditions.lemma_finite();
    }
}

/// Finds the cheapest sequence of actions that leads from `current` to a
/// state that satisfies `goal`.
///
/// Only actions whose evaluation ended in success take part. Each costs what
/// its `cost` says now. The result names actions by their place in `actions`.
/// `None` says that no sequence whose cost a `u64` can hold reaches the goal.
/// Of several cheapest sequences, the one that the search meets first wins:
/// the search takes the cheapest state it knows, the earliest of equally cheap
/// ones, and follows the actions in the order of `actions`.
pub fn find_plan(
    current: &WorldState,
    goal: &WorldState,
    actions: &Vec<Action>,
) -> (plan: Option<Plan>)
    ensures
        answer_of(plan) == search(current@, goal@, operators(actions@)),
        match plan {
            Some(p) => {
                &&& achieves(current@, goal@, operators(actions@), p.steps@)
                &&& p.cost == path_cost(operators(actions@), p.steps@)
                &&& forall|other: Seq<usize>| #[trigger]
                    achieves(current@, goal@, operators(actions@), other) ==> p.cost <= path_cost(
                        operators(actions@),
                        other,
                    )
            },
            None => forall|other: Seq<usize>| #[trigger]
                achieves(current@, goal@, operators(actions@), other) ==> path_cost(
                    operators(actions@),
                    other,
                ) > u64::MAX,
        },
        plan is Some <==> exists|other: Seq<usize>| #[trigger]
            achieves(current@, goal@, operators(actions@), other) && path_cost(
                operators(actions@),
                other,
            ) <= u64::MAX,
        holds(current@, goal@) ==> (plan matches Some(p) && p.steps@.len() == 0 && p.cost == 0),
{
    let ghost ops = operators(actions@);
    let ghost keys = current@.dom().union(touched(ops));
    proof {
        lemma_finitary(current, actions);
        lemma_search_starts(current@, goal@, ops);
        lemma_search_right(current@, goal@, ops);
        if holds(current@, goal@) {
            lemma_search_satisfied(current@, goal@, ops);
        }
    }
    let mut frontier: Vec<Candidate> = Vec::new();
    let mut closed: Vec<Candidate> = Vec::new();
    let first = Candidate { state: current.clone(), cost: 0, path: Vec::new() };
    assert(first@ == root(current@));
    frontier.push(first);
    assert(nodes(frontier@) =~= seq![root(current@)]);
    assert(nodes(closed@) =~= Seq::empty());
    loop
        invariant
            ops == operators(actions@),
            right(search(current@, goal@, ops), current@, goal@, ops),
            holds(current@, goal@) ==> search(current@, goal@, ops) == (Answer::Found {
                path: Seq::empty(),
                cost: 0,
            }),
            bounded(nodes(frontier@), nodes(closed@), ops, keys),
            explore(nodes(frontier@), nodes(closed@), goal@, ops, keys) == search(
                current@,
                goal@,
                ops,
            ),
        decreases universe(keys).len() - closed.len(), frontier.len(),
    {
        if frontier.len() == 0 {
            return None;
        }
        let ghost open = nodes(frontier@);
        let ghost done = nodes(closed@);
        let at = pick(&frontier);
        let node = frontier.remove(at);
        proof {
            lemma_cheapest(open);
            assert(node@ == open[at as int]);
            assert(nodes(frontier@) =~= open.remove(at as int));
        }
        if seen(&closed, &node.state) {
            proof {
                lemma_bounded_skip(open, done, ops, keys, at as int);
            }
            continue ;
        }
        if node.state.satisfies(goal) {
            return Some(Plan { steps: node.path, cost: node.cost });
        }
        expand(&node, actions, &mut frontier);
        proof {
            lemma_room(done, node@, keys);
            lemma_bounded_expand(open, done, ops, keys, at as int);
        }
        closed.push(node);
        assert(nodes(closed@) =~= done.push(node@));
    }
}

} // verus!
