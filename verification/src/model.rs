//! What a plan is: a sequence of actions that can run one after the other from
//! the current state and ends in a state that satisfies the goal.
use vstd::prelude::*;
use crate::action::Operator;
use crate::state::{holds, overlay, Facts};

verus! {

/// Whether operator `op` can run in `state`.
pub open spec fn usable(op: Operator, state: Facts) -> bool {
    op.eligible() && holds(state, op.pre)
}

/// The state after the operators named by `path` ran from `start`, in order.
pub open spec fn outcome(start: Facts, ops: Seq<Operator>, path: Seq<usize>) -> Facts
    decreases path.len(),
{
    if path.len() == 0 {
        start
    } else {
        overlay(outcome(start, ops, path.drop_last()), ops[path.last() as int].post)
    }
}

/// Whether each operator named by `path` exists and can run in the state that
/// its predecessors leave.
pub open spec fn executable(start: Facts, ops: Seq<Operator>, path: Seq<usize>) -> bool
    decreases path.len(),
{
    path.len() == 0 || {
        &&& executable(start, ops, path.drop_last())
        &&& path.last() < ops.len()
        &&& usable(ops[path.last() as int], outcome(start, ops, path.drop_last()))
    }
}

/// The sum of the costs of the operators named by `path`.
pub open spec fn path_cost(ops: Seq<Operator>, path: Seq<usize>) -> nat
    decreases path.len(),
{
    if path.len() == 0 {
        0
    } else {
        path_cost(ops, path.drop_last()) + ops[path.last() as int].cost
    }
}

/// Whether `path` leads from `start` to a state that satisfies `goal`.
pub open spec fn achieves(
    start: Facts,
    goal: Facts,
    ops: Seq<Operator>,
    path: Seq<usize>,
) -> bool {
    executable(start, ops, path) && holds(outcome(start, ops, path), goal)
}

/// Every step of a path that can run names an operator.
pub proof fn lemma_executable_names(start: Facts, ops: Seq<Operator>, path: Seq<usize>)
    requires
        executable(start, ops, path),
    ensures
        forall|k: int| 0 <= k < path.len() ==> #[trigger] path[k] < ops.len(),
    decreases path.len(),
{
    if path.len() > 0 {
        lemma_executable_names(start, ops, path.drop_last());
        assert forall|k: int| 0 <= k < path.len() implies #[trigger] path[k] < ops.len() by {
            if k < path.len() - 1 {
                assert(path.drop_last()[k] == path[k]);
            }
        }
    }
}

} // verus!
