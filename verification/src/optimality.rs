//! Why the search is right: what holds of its frontier and of its expanded
//! nodes at every step, and what follows for the answer.
use vstd::prelude::*;
use crate::action::Operator;
use crate::model::{achieves, executable, outcome, path_cost};
use crate::search::{
    bounded, cheapest, child, children, explore, extends, lemma_cheapest, root, search, touched,
    universe, visited, Answer, Node,
};
use crate::state::{holds, overlay, Condition, Facts};

verus! {

/// The node tells the truth: its path can run from `start`, ends in its state,
/// and costs what the node says.
pub open spec fn traced(node: Node, start: Facts, ops: Seq<Operator>) -> bool {
    &&& executable(start, ops, node.path)
    &&& outcome(start, ops, node.path) == node.state
    &&& path_cost(ops, node.path) == node.cost
    &&& node.cost <= u64::MAX
}

/// No path from `start` to the node's state is cheaper than the node.
pub open spec fn settled(node: Node, start: Facts, ops: Seq<Operator>) -> bool {
    forall|q: Seq<usize>|
        #[trigger] executable(start, ops, q) && outcome(start, ops, q) == node.state
            ==> node.cost <= path_cost(ops, q)
}

/// `state` was expanded, or waits on the frontier at a cost of at most `cost`.
pub open spec fn covered(
    frontier: Seq<Node>,
    closed: Seq<Node>,
    state: Facts,
    cost: nat,
) -> bool {
    visited(closed, state) || exists|j: int|
        0 <= j < frontier.len() && (#[trigger] frontier[j]).state == state && frontier[j].cost
            <= cost
}

/// Every operator that the search follows from `node` leads to a covered state.
pub open spec fn expanded(
    node: Node,
    frontier: Seq<Node>,
    closed: Seq<Node>,
    ops: Seq<Operator>,
) -> bool {
    forall|a: int|
        0 <= a < ops.len() && extends(node, #[trigger] ops[a]) ==> covered(
            frontier,
            closed,
            overlay(node.state, ops[a].post),
            node.cost + ops[a].cost,
        )
}

/// What holds at every step of a search from `start`.
pub open spec fn sound(
    frontier: Seq<Node>,
    closed: Seq<Node>,
    start: Facts,
    goal: Facts,
    ops: Seq<Operator>,
) -> bool {
    &&& forall|i: int| 0 <= i < frontier.len() ==> traced(#[trigger] frontier[i], start, ops)
    &&& forall|i: int|
        0 <= i < closed.len() ==> {
            &&& traced(#[trigger] closed[i], start, ops)
            &&& settled(closed[i], start, ops)
            &&& !holds(closed[i].state, goal)
            &&& expanded(closed[i], frontier, closed, ops)
        }
    &&& covered(frontier, closed, start, 0)
}

/// Where a path of representable cost ends was expanded, or a state not yet
/// expanded waits on the frontier at no more than the path's cost.
pub proof fn lemma_reach(
    frontier: Seq<Node>,
    closed: Seq<Node>,
    start: Facts,
    goal: Facts,
    ops: Seq<Operator>,
    q: Seq<usize>,
)
    requires
        sound(frontier, closed, start, goal, ops),
        executable(start, ops, q),
        path_cost(ops, q) <= u64::MAX,
    ensures
        visited(closed, outcome(start, ops, q)) || exists|j: int|
            0 <= j < frontier.len() && !visited(closed, (#[trigger] frontier[j]).state)
                && frontier[j].cost <= path_cost(ops, q),
    decreases q.len(),
{
    if q.len() == 0 {
        if !visited(closed, start) {
            let j = choose|j: int|
                0 <= j < frontier.len() && (#[trigger] frontier[j]).state == start
                    && frontier[j].cost <= 0;
            assert(!visited(closed, frontier[j].state));
        }
    } else {
        let p = q.drop_last();
        let a = q.last() as int;
        assert(executable(start, ops, p));
        lemma_reach(frontier, closed, start, goal, ops, p);
        let mid = outcome(start, ops, p);
        if visited(closed, mid) {
            let i = choose|i: int| 0 <= i < closed.len() && (#[trigger] closed[i]).state == mid;
            let c = closed[i];
            assert(settled(c, start, ops));
            assert(c.cost <= path_cost(ops, p));
            assert(expanded(c, frontier, closed, ops));
            assert(extends(c, ops[a]));
            let end = overlay(c.state, ops[a].post);
            assert(end == outcome(start, ops, q));
            assert(covered(frontier, closed, end, c.cost + ops[a].cost));
            if !visited(closed, end) {
                let j = choose|j: int|
                    0 <= j < frontier.len() && (#[trigger] frontier[j]).state == end
                        && frontier[j].cost <= c.cost + ops[a].cost;
                assert(!visited(closed, frontier[j].state));
            }
        } else {
            let j = choose|j: int|
                0 <= j < frontier.len() && !visited(closed, (#[trigger] frontier[j]).state)
                    && frontier[j].cost <= path_cost(ops, p);
            assert(!visited(closed, frontier[j].state) && frontier[j].cost <= path_cost(ops, q));
        }
    }
}

/// Whether `kid` is what one of the first `upto` operators leads to from
/// `node`, the search following it.
pub open spec fn born(node: Node, ops: Seq<Operator>, upto: int, kid: Node) -> bool {
    exists|a: int|
        0 <= a < upto && extends(node, #[trigger] ops[a]) && kid == child(node, ops[a], a)
}

/// What `children` holds: one node for each operator that the search follows,
/// and nothing else.
pub proof fn lemma_children(node: Node, ops: Seq<Operator>, upto: int)
    requires
        0 <= upto <= ops.len(),
    ensures
        forall|k: int|
            0 <= k < children(node, ops, upto).len() ==> born(
                node,
                ops,
                upto,
                #[trigger] children(node, ops, upto)[k],
            ),
        forall|a: int|
            0 <= a < upto && extends(node, #[trigger] ops[a]) ==> children(
                node,
                ops,
                upto,
            ).contains(child(node, ops[a], a)),
    decreases upto,
{
    if upto > 0 {
        lemma_children(node, ops, upto - 1);
        let before = children(node, ops, upto - 1);
        let now = children(node, ops, upto);
        assert forall|k: int| 0 <= k < now.len() implies born(
            node,
            ops,
            upto,
            #[trigger] now[k],
        ) by {
            if k < before.len() {
                assert(now[k] == before[k]);
                assert(born(node, ops, upto - 1, before[k]));
                let a = choose|a: int|
                    0 <= a < upto - 1 && extends(node, #[trigger] ops[a]) && before[k] == child(
                        node,
                        ops[a],
                        a,
                    );
                assert(0 <= a < upto && extends(node, ops[a]) && now[k] == child(node, ops[a], a));
            } else {
                let a = upto - 1;
                assert(0 <= a < upto && extends(node, ops[a]) && now[k] == child(node, ops[a], a));
            }
        }
        assert forall|a: int|
            0 <= a < upto && extends(node, #[trigger] ops[a]) implies now.contains(
            child(node, ops[a], a),
        ) by {
            if a < upto - 1 {
                let k = choose|k: int|
                    0 <= k < before.len() && before[k] == child(node, ops[a], a);
                assert(now[k] == child(node, ops[a], a));
            } else {
                assert(now[now.len() - 1] == child(node, ops[a], a));
            }
        }
    }
}

/// A child of a truthful node is truthful.
pub proof fn lemma_child_traced(
    node: Node,
    start: Facts,
    ops: Seq<Operator>,
    a: int,
)
    requires
        traced(node, start, ops),
        0 <= a < ops.len() <= usize::MAX,
        extends(node, ops[a]),
    ensures
        traced(child(node, ops[a], a), start, ops),
{
    let path = node.path.push(a as usize);
    assert(path.drop_last() =~= node.path);
    assert(path.last() == a);
}

/// Dropping a frontier node whose state was expanded keeps the search bounded.
pub proof fn lemma_bounded_skip(
    frontier: Seq<Node>,
    closed: Seq<Node>,
    ops: Seq<Operator>,
    keys: Set<Condition>,
    at: int,
)
    requires
        bounded(frontier, closed, ops, keys),
        0 <= at < frontier.len(),
    ensures
        bounded(frontier.remove(at), closed, ops, keys),
{
    let rest = frontier.remove(at);
    assert forall|i: int| 0 <= i < rest.len() implies (#[trigger] rest[i]).state.dom().subset_of(
        keys,
    ) by {
        if i < at {
            assert(rest[i] == frontier[i]);
        } else {
            assert(rest[i] == frontier[i + 1]);
        }
    }
}

/// Expanding a frontier node whose state is new keeps the search bounded.
pub proof fn lemma_bounded_expand(
    frontier: Seq<Node>,
    closed: Seq<Node>,
    ops: Seq<Operator>,
    keys: Set<Condition>,
    at: int,
)
    requires
        bounded(frontier, closed, ops, keys),
        0 <= at < frontier.len(),
        !visited(closed, frontier[at].state),
    ensures
        bounded(
            frontier.remove(at) + children(frontier[at], ops, ops.len() as int),
            closed.push(frontier[at]),
            ops,
            keys,
        ),
{
    let node = frontier[at];
    let rest = frontier.remove(at);
    let kids = children(node, ops, ops.len() as int);
    let next = rest + kids;
    let done = closed.push(node);
    lemma_bounded_skip(frontier, closed, ops, keys, at);
    lemma_children(node, ops, ops.len() as int);
    assert forall|i: int| 0 <= i < next.len() implies (#[trigger] next[i]).state.dom().subset_of(
        keys,
    ) by {
        if i < rest.len() {
            assert(next[i] == rest[i]);
        } else {
            let k = i - rest.len();
            assert(next[i] == kids[k]);
            assert(born(node, ops, ops.len() as int, kids[k]));
            let a = choose|a: int|
                0 <= a < ops.len() && extends(node, #[trigger] ops[a]) && kids[k] == child(
                    node,
                    ops[a],
                    a,
                );
            assert(ops[a].post.dom().subset_of(keys));
            assert(node.state.dom().subset_of(keys));
        }
    }
    assert forall|i: int| 0 <= i < done.len() implies (#[trigger] done[i]).state.dom().subset_of(
        keys,
    ) by {
        if i < closed.len() {
            assert(done[i] == closed[i]);
        }
    }
    assert forall|i: int, j: int| 0 <= i < j < done.len() implies (#[trigger] done[i]).state != (
    #[trigger] done[j]).state by {
        assert(done[i] == closed[i]);
        if j < closed.len() {
            assert(done[j] == closed[j]);
        }
    }
}

/// Covered stays covered when a frontier node leaves whose state was expanded.
proof fn lemma_covered_skip(
    frontier: Seq<Node>,
    closed: Seq<Node>,
    at: int,
    state: Facts,
    cost: nat,
)
    requires
        0 <= at < frontier.len(),
        visited(closed, frontier[at].state),
        covered(frontier, closed, state, cost),
    ensures
        covered(frontier.remove(at), closed, state, cost),
{
    if !visited(closed, state) {
        let rest = frontier.remove(at);
        let j = choose|j: int|
            0 <= j < frontier.len() && (#[trigger] frontier[j]).state == state && frontier[j].cost
                <= cost;
        if j < at {
            assert(rest[j] == frontier[j]);
        } else {
            assert(rest[j - 1] == frontier[j]);
        }
    }
}

/// Covered stays covered when a frontier node is expanded.
proof fn lemma_covered_expand(
    frontier: Seq<Node>,
    closed: Seq<Node>,
    at: int,
    more: Seq<Node>,
    state: Facts,
    cost: nat,
)
    requires
        0 <= at < frontier.len(),
        covered(frontier, closed, state, cost),
    ensures
        covered(frontier.remove(at) + more, closed.push(frontier[at]), state, cost),
{
    let rest = frontier.remove(at);
    let done = closed.push(frontier[at]);
    if visited(closed, state) {
        let i = choose|i: int| 0 <= i < closed.len() && (#[trigger] closed[i]).state == state;
        assert(done[i] == closed[i]);
    } else {
        let j = choose|j: int|
            0 <= j < frontier.len() && (#[trigger] frontier[j]).state == state && frontier[j].cost
                <= cost;
        if j == at {
            assert(done[closed.len() as int] == frontier[at]);
        } else if j < at {
            assert((rest + more)[j] == frontier[j]);
        } else {
            assert((rest + more)[j - 1] == frontier[j]);
        }
    }
}

/// Dropping a frontier node whose state was expanded keeps the search sound.
pub proof fn lemma_sound_skip(
    frontier: Seq<Node>,
    closed: Seq<Node>,
    start: Facts,
    goal: Facts,
    ops: Seq<Operator>,
    at: int,
)
    requires
        sound(frontier, closed, start, goal, ops),
        0 <= at < frontier.len(),
        visited(closed, frontier[at].state),
    ensures
        sound(frontier.remove(at), closed, start, goal, ops),
{
    let rest = frontier.remove(at);
    assert forall|i: int| 0 <= i < rest.len() implies traced(#[trigger] rest[i], start, ops) by {
        if i < at {
            assert(rest[i] == frontier[i]);
        } else {
            assert(rest[i] == frontier[i + 1]);
        }
    }
    assert forall|i: int| 0 <= i < closed.len() implies expanded(
        #[trigger] closed[i],
        rest,
        closed,
        ops,
    ) by {
        let c = closed[i];
        assert(expanded(c, frontier, closed, ops));
        assert forall|a: int| 0 <= a < ops.len() && extends(c, #[trigger] ops[a]) implies covered(
            rest,
            closed,
            overlay(c.state, ops[a].post),
            c.cost + ops[a].cost,
        ) by {
            lemma_covered_skip(
                frontier,
                closed,
                at,
                overlay(c.state, ops[a].post),
                c.cost + ops[a].cost,
            );
        }
    }
    lemma_covered_skip(frontier, closed, at, start, 0);
}

/// Expanding the cheapest frontier node, if its state is new and misses the
/// goal, keeps the search sound.
pub proof fn lemma_sound_expand(
    frontier: Seq<Node>,
    closed: Seq<Node>,
    start: Facts,
    goal: Facts,
    ops: Seq<Operator>,
)
    requires
        sound(frontier, closed, start, goal, ops),
        frontier.len() > 0,
        ops.len() <= usize::MAX,
        !visited(closed, frontier[cheapest(frontier)].state),
        !holds(frontier[cheapest(frontier)].state, goal),
    ensures
        sound(
            frontier.remove(cheapest(frontier)) + children(
                frontier[cheapest(frontier)],
                ops,
                ops.len() as int,
            ),
            closed.push(frontier[cheapest(frontier)]),
            start,
            goal,
            ops,
        ),
{
    lemma_cheapest(frontier);
    let at = cheapest(frontier);
    let node = frontier[at];
    let rest = frontier.remove(at);
    let kids = children(node, ops, ops.len() as int);
    let next = rest + kids;
    let done = closed.push(node);
    lemma_children(node, ops, ops.len() as int);
    assert(traced(node, start, ops));
    assert forall|i: int| 0 <= i < next.len() implies traced(#[trigger] next[i], start, ops) by {
        if i < at {
            assert(next[i] == frontier[i]);
        } else if i < rest.len() {
            assert(next[i] == frontier[i + 1]);
        } else {
            let k = i - rest.len();
            assert(next[i] == kids[k]);
            assert(born(node, ops, ops.len() as int, kids[k]));
            let a = choose|a: int|
                0 <= a < ops.len() && extends(node, #[trigger] ops[a]) && kids[k] == child(
                    node,
                    ops[a],
                    a,
                );
            lemma_child_traced(node, start, ops, a);
        }
    }
    assert(settled(node, start, ops)) by {
        assert forall|q: Seq<usize>| #[trigger]
            executable(start, ops, q) && outcome(start, ops, q) == node.state implies node.cost
            <= path_cost(ops, q) by {
            if path_cost(ops, q) <= u64::MAX {
                lemma_reach(frontier, closed, start, goal, ops, q);
                let j = choose|j: int|
                    0 <= j < frontier.len() && !visited(closed, (#[trigger] frontier[j]).state)
                        && frontier[j].cost <= path_cost(ops, q);
                assert(node.cost <= frontier[j].cost);
            }
        }
    }
    assert(expanded(node, next, done, ops)) by {
        assert forall|a: int|
            0 <= a < ops.len() && extends(node, #[trigger] ops[a]) implies covered(
            next,
            done,
            overlay(node.state, ops[a].post),
            node.cost + ops[a].cost,
        ) by {
            let k = choose|k: int| 0 <= k < kids.len() && kids[k] == child(node, ops[a], a);
            assert(next[rest.len() + k] == kids[k]);
        }
    }
    assert forall|i: int| 0 <= i < done.len() implies {
        &&& traced(#[trigger] done[i], start, ops)
        &&& settled(done[i], start, ops)
        &&& !holds(done[i].state, goal)
        &&& expanded(done[i], next, done, ops)
    } by {
        if i < closed.len() {
            let c = closed[i];
            assert(done[i] == c);
            assert(expanded(c, frontier, closed, ops));
            assert forall|a: int|
                0 <= a < ops.len() && extends(c, #[trigger] ops[a]) implies covered(
                next,
                done,
                overlay(c.state, ops[a].post),
                c.cost + ops[a].cost,
            ) by {
                lemma_covered_expand(
                    frontier,
                    closed,
                    at,
                    kids,
                    overlay(c.state, ops[a].post),
                    c.cost + ops[a].cost,
                );
            }
        } else {
            assert(done[i] == node);
        }
    }
    lemma_covered_expand(frontier, closed, at, kids, start, 0);
}

/// The answer of a search in a sound state: a found path achieves the goal at
/// the least cost that any path has; without a found path, none of
/// representable cost achieves the goal.
pub open spec fn right(
    answer: Answer,
    start: Facts,
    goal: Facts,
    ops: Seq<Operator>,
) -> bool {
    match answer {
        Answer::Found { path, cost } => {
            &&& achieves(start, goal, ops, path)
            &&& cost == path_cost(ops, path)
            &&& cost <= u64::MAX
            &&& forall|q: Seq<usize>| #[trigger]
                achieves(start, goal, ops, q) ==> cost <= path_cost(ops, q)
        },
        Answer::Infeasible => forall|q: Seq<usize>| #[trigger]
            achieves(start, goal, ops, q) ==> path_cost(ops, q) > u64::MAX,
    }
}

/// A search that is bounded and sound ends with the right answer.
pub proof fn lemma_explore(
    frontier: Seq<Node>,
    closed: Seq<Node>,
    start: Facts,
    goal: Facts,
    ops: Seq<Operator>,
    keys: Set<Condition>,
)
    requires
        bounded(frontier, closed, ops, keys),
        sound(frontier, closed, start, goal, ops),
    ensures
        right(explore(frontier, closed, goal, ops, keys), start, goal, ops),
    decreases universe(keys).len() - closed.len(), frontier.len(),
{
    if frontier.len() == 0 {
        assert forall|q: Seq<usize>| #[trigger] achieves(start, goal, ops, q) implies path_cost(
            ops,
            q,
        ) > u64::MAX by {
            if path_cost(ops, q) <= u64::MAX {
                lemma_reach(frontier, closed, start, goal, ops, q);
                let i = choose|i: int|
                    0 <= i < closed.len() && (#[trigger] closed[i]).state == outcome(start, ops, q);
                assert(!holds(closed[i].state, goal));
            }
        }
    } else {
        lemma_cheapest(frontier);
        let at = cheapest(frontier);
        let node = frontier[at];
        let rest = frontier.remove(at);
        if visited(closed, node.state) {
            lemma_bounded_skip(frontier, closed, ops, keys, at);
            lemma_sound_skip(frontier, closed, start, goal, ops, at);
            lemma_explore(rest, closed, start, goal, ops, keys);
        } else if holds(node.state, goal) {
            assert(traced(node, start, ops));
            assert forall|q: Seq<usize>| #[trigger] achieves(start, goal, ops, q) implies node.cost
                <= path_cost(ops, q) by {
                if path_cost(ops, q) <= u64::MAX {
                    lemma_reach(frontier, closed, start, goal, ops, q);
                    if visited(closed, outcome(start, ops, q)) {
                        let i = choose|i: int|
                            0 <= i < closed.len() && (#[trigger] closed[i]).state == outcome(
                                start,
                                ops,
                                q,
                            );
                        assert(!holds(closed[i].state, goal));
                    } else {
                        let j = choose|j: int|
                            0 <= j < frontier.len() && !visited(
                                closed,
                                (#[trigger] frontier[j]).state,
                            ) && frontier[j].cost <= path_cost(ops, q);
                        assert(node.cost <= frontier[j].cost);
                    }
                }
            }
        } else {
            crate::search::lemma_room(closed, node, keys);
            lemma_bounded_expand(frontier, closed, ops, keys, at);
            lemma_sound_expand(frontier, closed, start, goal, ops);
            lemma_explore(
                rest + children(node, ops, ops.len() as int),
                closed.push(node),
                start,
                goal,
                ops,
                keys,
            );
        }
    }
}

/// The conditions that the operators touch are finitely many, and hold each
/// operator's postconditions.
pub proof fn lemma_touched(ops: Seq<Operator>)
    requires
        forall|i: int| 0 <= i < ops.len() ==> (#[trigger] ops[i]).post.dom().finite(),
    ensures
        touched(ops).finite(),
        forall|i: int|
            0 <= i < ops.len() ==> (#[trigger] ops[i]).post.dom().subset_of(touched(ops)),
    decreases ops.len(),
{
    if ops.len() > 0 {
        let front = ops.drop_last();
        assert forall|i: int| 0 <= i < front.len() implies (
        #[trigger] front[i]).post.dom().finite() by {
            assert(front[i] == ops[i]);
        }
        lemma_touched(front);
        assert forall|i: int| 0 <= i < ops.len() implies (#[trigger] ops[i]).post.dom().subset_of(
            touched(ops),
        ) by {
            if i < front.len() {
                assert(front[i] == ops[i]);
            }
        }
    }
}

/// Whether a planning problem is one that a machine can hold: finitely many
/// conditions, and no more operators than a `usize` counts.
pub open spec fn finitary(start: Facts, ops: Seq<Operator>) -> bool {
    &&& start.dom().finite()
    &&& ops.len() <= usize::MAX
    &&& forall|i: int| 0 <= i < ops.len() ==> (#[trigger] ops[i]).post.dom().finite()
}

/// A search starts bounded and sound.
pub proof fn lemma_search_starts(start: Facts, goal: Facts, ops: Seq<Operator>)
    requires
        finitary(start, ops),
    ensures
        bounded(seq![root(start)], Seq::empty(), ops, start.dom().union(touched(ops))),
        sound(seq![root(start)], Seq::empty(), start, goal, ops),
{
    lemma_touched(ops);
    let frontier = seq![root(start)];
    assert(frontier[0] == root(start));
}

/// The search finds a cheapest path to the goal whenever some path of
/// representable cost leads there, and reports that there is none otherwise.
pub proof fn lemma_search_right(start: Facts, goal: Facts, ops: Seq<Operator>)
    requires
        finitary(start, ops),
    ensures
        right(search(start, goal, ops), start, goal, ops),
{
    lemma_search_starts(start, goal, ops);
    lemma_explore(
        seq![root(start)],
        Seq::empty(),
        start,
        goal,
        ops,
        start.dom().union(touched(ops)),
    );
}

/// Where the start satisfies the goal, the search answers with the empty path
/// at no cost.
pub proof fn lemma_search_satisfied(start: Facts, goal: Facts, ops: Seq<Operator>)
    requires
        finitary(start, ops),
        holds(start, goal),
    ensures
        search(start, goal, ops) == (Answer::Found { path: Seq::empty(), cost: 0 }),
{
    lemma_search_starts(start, goal, ops);
    let frontier = seq![root(start)];
    assert(frontier[0] == root(start));
    assert(cheapest(frontier) == 0);
}

} // verus!
