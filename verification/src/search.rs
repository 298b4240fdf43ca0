//! The search itself, as mathematics: a cheapest-first walk through the states
//! that the operators can reach, which never expands a state twice.
use vstd::prelude::*;
use vstd::set_lib::*;
use crate::action::Operator;
use crate::state::{holds, overlay, Condition, Facts};
use crate::model::usable;

verus! {

/// A state that the search has reached, with the way that led there.
pub struct Node {
    pub state: Facts,
    /// The cost of `path`.
    pub cost: nat,
    /// The operators that lead from the start to `state`, in order.
    pub path: Seq<usize>,
}

/// What a search ends with.
pub enum Answer {
    /// The path to take and what it costs.
    Found { path: Seq<usize>, cost: nat },
    /// No path of a cost that a `u64` can hold leads to the goal.
    Infeasible,
}

/// The place in `frontier` of its cheapest node; of several equally cheap
/// ones, the one that entered first.
pub open spec fn cheapest(frontier: Seq<Node>) -> int
    decreases frontier.len(),
{
    if frontier.len() <= 1 {
        0
    } else {
        let best = cheapest(frontier.drop_last());
        if frontier.last().cost < frontier[best].cost {
            frontier.len() - 1
        } else {
            best
        }
    }
}

/// The node that operator `op`, at place `index`, leads to from `node`.
pub open spec fn child(node: Node, op: Operator, index: int) -> Node {
    Node {
        state: overlay(node.state, op.post),
        cost: node.cost + op.cost,
        path: node.path.push(index as usize),
    }
}

/// Whether the search follows operator `op` from `node`: it must be able to
/// run there, and the cost so far must stay within a `u64`.
pub open spec fn extends(node: Node, op: Operator) -> bool {
    usable(op, node.state) && node.cost + op.cost <= u64::MAX
}

/// The nodes that the first `upto` operators lead to from `node`, in the
/// order of the operators.
pub open spec fn children(node: Node, ops: Seq<Operator>, upto: int) -> Seq<Node>
    decreases upto,
{
    if upto <= 0 {
        Seq::empty()
    } else if extends(node, ops[upto - 1]) {
        children(node, ops, upto - 1).push(child(node, ops[upto - 1], upto - 1))
    } else {
        children(node, ops, upto - 1)
    }
}

/// Whether `state` is among the expanded nodes.
pub open spec fn visited(closed: Seq<Node>, state: Facts) -> bool {
    exists|i: int| 0 <= i < closed.len() && (#[trigger] closed[i]).state == state
}

/// Every state that mentions no condition outside `keys`.
pub open spec fn universe(keys: Set<Condition>) -> Set<Facts> {
    Set::new(|state: Facts| state.dom().subset_of(keys))
}

/// The conditions that the postconditions of `ops` mention.
pub open spec fn touched(ops: Seq<Operator>) -> Set<Condition>
    decreases ops.len(),
{
    if ops.len() == 0 {
        Set::empty()
    } else {
        touched(ops.drop_last()).union(ops.last().post.dom())
    }
}

/// What keeps a search finite: all its states lie in the universe of finitely
/// many conditions, the operators cannot leave it, and no state was expanded
/// twice.
pub open spec fn bounded(
    frontier: Seq<Node>,
    closed: Seq<Node>,
    ops: Seq<Operator>,
    keys: Set<Condition>,
) -> bool {
    &&& keys.finite()
    &&& ops.len() <= usize::MAX
    &&& forall|i: int| 0 <= i < ops.len() ==> (#[trigger] ops[i]).post.dom().subset_of(keys)
    &&& forall|i: int|
        0 <= i < frontier.len() ==> (#[trigger] frontier[i]).state.dom().subset_of(keys)
    &&& forall|i: int| 0 <= i < closed.len() ==> (#[trigger] closed[i]).state.dom().subset_of(keys)
    &&& forall|i: int, j: int|
        0 <= i < j < closed.len() ==> (#[trigger] closed[i]).state != (#[trigger] closed[j]).state
}

/// The search from a frontier and a list of expanded nodes: take the cheapest
/// node off the frontier; drop it if its state was expanded before; stop if it
/// satisfies the goal; else expand it, and go on.
pub open spec fn explore(
    frontier: Seq<Node>,
    closed: Seq<Node>,
    goal: Facts,
    ops: Seq<Operator>,
    keys: Set<Condition>,
) -> Answer
    decreases universe(keys).len() - closed.len(), frontier.len(),
    when bounded(frontier, closed, ops, keys)
    via explore_ends
{
    if frontier.len() == 0 {
        Answer::Infeasible
    } else {
        let at = cheapest(frontier);
        let node = frontier[at];
        let rest = frontier.remove(at);
        if visited(closed, node.state) {
            explore(rest, closed, goal, ops, keys)
        } else if holds(node.state, goal) {
            Answer::Found { path: node.path, cost: node.cost }
        } else {
            explore(
                rest + children(node, ops, ops.len() as int),
                closed.push(node),
                goal,
                ops,
                keys,
            )
        }
    }
}

/// The node that a search starts from.
pub open spec fn root(start: Facts) -> Node {
    Node { state: start, cost: 0, path: Seq::empty() }
}

/// The search for a cheapest way from `start` to `goal` with the operators
/// `ops`.
pub open spec fn search(start: Facts, goal: Facts, ops: Seq<Operator>) -> Answer {
    explore(seq![root(start)], Seq::empty(), goal, ops, start.dom().union(touched(ops)))
}

/// The cheapest node is a node of the frontier, none is cheaper, and none
/// before it is as cheap.
pub proof fn lemma_cheapest(frontier: Seq<Node>)
    requires
        frontier.len() > 0,
    ensures
        0 <= cheapest(frontier) < frontier.len(),
        forall|i: int|
            0 <= i < frontier.len() ==> frontier[cheapest(frontier)].cost <= (
            #[trigger] frontier[i]).cost,
        forall|i: int|
            0 <= i < cheapest(frontier) ==> frontier[cheapest(frontier)].cost < (
            #[trigger] frontier[i]).cost,
    decreases frontier.len(),
{
    if frontier.len() > 1 {
        let front = frontier.drop_last();
        lemma_cheapest(front);
        assert forall|i: int| 0 <= i < frontier.len() implies frontier[cheapest(frontier)].cost
            <= (#[trigger] frontier[i]).cost by {
            if i < front.len() {
                assert(front[i] == frontier[i]);
            }
        }
        assert forall|i: int| 0 <= i < cheapest(frontier) implies frontier[cheapest(
            frontier,
        )].cost < (#[trigger] frontier[i]).cost by {
            assert(front[i] == frontier[i]);
        }
    }
}

/// Finitely many conditions allow finitely many states.
pub proof fn lemma_universe_finite(keys: Set<Condition>)
    requires
        keys.finite(),
    ensures
        universe(keys).finite(),
    decreases keys.len(),
{
    if keys.is_empty() {
        assert forall|state: Facts| universe(keys).contains(state) implies state
            == Facts::empty() by {
            assert(state.dom() =~= Set::empty());
            assert(state =~= Facts::empty());
        }
        assert(universe(keys) =~= set![Facts::empty()]);
    } else {
        let k = keys.choose();
        let fewer = keys.remove(k);
        lemma_universe_finite(fewer);
        let without = universe(fewer);
        let with_true = without.map(|state: Facts| state.insert(k, true));
        let with_false = without.map(|state: Facts| state.insert(k, false));
        without.lemma_map_finite(|state: Facts| state.insert(k, true));
        without.lemma_map_finite(|state: Facts| state.insert(k, false));
        let all = without.union(with_true).union(with_false);
        assert forall|state: Facts| universe(keys).contains(state) implies all.contains(
            state,
        ) by {
            if state.contains_key(k) {
                let less = state.remove(k);
                assert(less.dom().subset_of(fewer));
                assert(without.contains(less));
                if state[k] {
                    assert(state =~= less.insert(k, true));
                    assert(with_true.contains(state));
                } else {
                    assert(state =~= less.insert(k, false));
                    assert(with_false.contains(state));
                }
            } else {
                assert(state.dom().subset_of(fewer));
            }
        }
        lemma_len_subset(universe(keys), all);
    }
}

/// A state of the universe that was not expanded yet leaves room for one more.
pub proof fn lemma_room(closed: Seq<Node>, node: Node, keys: Set<Condition>)
    requires
        keys.finite(),
        forall|i: int| 0 <= i < closed.len() ==> (#[trigger] closed[i]).state.dom().subset_of(keys),
        forall|i: int, j: int|
            0 <= i < j < closed.len() ==> (#[trigger] closed[i]).state != (
            #[trigger] closed[j]).state,
        node.state.dom().subset_of(keys),
        !visited(closed, node.state),
    ensures
        closed.len() < universe(keys).len(),
{
    let states = closed.push(node).map_values(|n: Node| n.state);
    assert forall|i: int, j: int|
        0 <= i < states.len() && 0 <= j < states.len() && i != j implies states[i]
        != states[j] by {
        if i < closed.len() {
            assert(closed[i].state == states[i]);
        }
        if j < closed.len() {
            assert(closed[j].state == states[j]);
        }
    }
    states.unique_seq_to_set();
    lemma_universe_finite(keys);
    assert forall|state: Facts| states.to_set().contains(state) implies universe(
        keys,
    ).contains(state) by {
        let i = choose|i: int| 0 <= i < states.len() && states[i] == state;
        if i < closed.len() {
            assert(closed[i].state == states[i]);
        }
    }
    lemma_len_subset(states.to_set(), universe(keys));
}

/// Why `explore` ends: dropping a node shortens the frontier, and expanding
/// one uses up a state of the universe.
#[via_fn]
proof fn explore_ends(
    frontier: Seq<Node>,
    closed: Seq<Node>,
    goal: Facts,
    ops: Seq<Operator>,
    keys: Set<Condition>,
) {
    if frontier.len() > 0 {
        lemma_cheapest(frontier);
        let node = frontier[cheapest(frontier)];
        if !visited(closed, node.state) {
            lemma_room(closed, node, keys);
        }
    }
}

} // verus!
