//! A goal-oriented action planner with machine-checked contracts.
//!
//! An agent tracks a set of boolean facts, wants some of them to hold, and owns
//! actions that change facts at a cost. The planner finds the cheapest order of
//! actions that reaches the goal; two small state machines, one per action and
//! one per agent, walk the plan step by step and ask for a new plan when a step
//! fails.
use vstd::prelude::*;

pub mod action;
pub mod actor;
pub mod dispatcher;
pub mod laws;
pub mod model;
pub mod optimality;
pub mod planning;
pub mod resources;
pub mod search;
pub mod state;

pub use action::{Action, ActionState, EvaluationResult};
pub use actor::{Actor, ActorState};
pub use state::{Condition, WorldState};

use dispatcher::PlanDispatcher;
use resources::{any_gives_back, gives_back, handed_back, Claim, ResourcePool};

verus! {

/// The two places in a tick where the host runs systems of its own.
#[derive(Clone, Copy, Debug, Hash, PartialEq, Eq, Structural)]
pub enum GoapSet {
    /// The systems behind the actions: they evaluate actions, reserve what
    /// the actions need, and carry the actions out.
    Actions,
    /// The systems behind the agents: they react to a plan that was completed
    /// or that failed.
    Actors,
}

/// The engine. A host plugs it into its loop: in each tick it runs its own
/// systems of each [`GoapSet`], in the order `Actions`, `Actors`, and after
/// each of them lets the engine do its part with [`GoapPlugin::run`].
#[derive(Clone, Copy, Debug)]
pub struct GoapPlugin;

/// The agents of a list, each as mathematics.
pub open spec fn agents(actors: Seq<Actor>) -> Seq<actor::Agent> {
    actors.map_values(|a: Actor| a@)
}

/// Taking back for one agent after the other is taking back for all.
proof fn lemma_handed_back_one_more(
    slots: Seq<Option<Claim>>,
    all: Seq<actor::Agent>,
    upto: int,
)
    requires
        0 <= upto < all.len(),
    ensures
        handed_back(handed_back(slots, all.take(upto)), seq![all[upto]]) == handed_back(
            slots,
            all.take(upto + 1),
        ),
{
    let before = all.take(upto);
    let one = seq![all[upto]];
    let now = all.take(upto + 1);
    assert forall|claim: Claim|
        any_gives_back(now, claim) == (any_gives_back(before, claim) || any_gives_back(
            one,
            claim,
        )) by {
        if any_gives_back(before, claim) {
            let i = choose|i: int| 0 <= i < before.len() && gives_back(#[trigger] before[i], claim);
            assert(gives_back(now[i], claim));
        }
        if any_gives_back(one, claim) {
            let i = choose|i: int| 0 <= i < one.len() && gives_back(#[trigger] one[i], claim);
            assert(gives_back(now[upto], claim));
        }
        if any_gives_back(now, claim) {
            let i = choose|i: int| 0 <= i < now.len() && gives_back(#[trigger] now[i], claim);
            if i < upto {
                assert(gives_back(before[i], claim));
            } else {
                assert(gives_back(one[0], claim));
            }
        }
    }
    assert(handed_back(handed_back(slots, before), one) =~= handed_back(slots, now));
}

impl GoapPlugin {
    /// The state of an agent after the engine's part that follows the host's
    /// systems of `set`. After the actions' systems the engine looks at the
    /// actions and follows the plans. After the agents' systems it takes up
    /// wishes for a plan and plans for every agent that waits for a plan with
    /// all its actions evaluated.
    pub open spec fn follows(set: GoapSet, agent: actor::Agent) -> actor::Agent {
        match set {
            GoapSet::Actions => agent.observed(),
            GoapSet::Actors => agent.requested().planned(),
        }
    }

    /// The slots of the pool after the engine's part that follows the host's
    /// systems of `set`. After the actions' systems, whatever an action holds
    /// that was evaluated and left out of the plan is free again.
    pub open spec fn frees(
        set: GoapSet,
        slots: Seq<Option<Claim>>,
        all: Seq<actor::Agent>,
    ) -> Seq<Option<Claim>> {
        match set {
            GoapSet::Actions => handed_back(slots, all),
            GoapSet::Actors => slots,
        }
    }

    /// Does the engine's part of a tick that follows the host's systems of
    /// `set`, for every agent. Returns the places of the agents whose state
    /// changed, in rising order, so that the host can react to them.
    pub fn run(
        &self,
        set: GoapSet,
        actors: &mut Vec<Actor>,
        pool: &mut ResourcePool,
    ) -> (changed: Vec<usize>)
        ensures
            final(actors).len() == old(actors).len(),
            forall|i: int|
                0 <= i < final(actors).len() ==> (#[trigger] final(actors)[i])@ == Self::follows(
                    set,
                    old(actors)[i]@,
                ),
            final(pool)@ == Self::frees(set, old(pool)@, agents(old(actors)@)),
            forall|i: int|
                0 <= i < final(actors).len() ==> (changed@.contains(i as usize) <==> (
                #[trigger] final(actors)[i])@.state != old(actors)[i]@.state),
            forall|k: int| 0 <= k < changed@.len() ==> #[trigger] changed@[k] < final(actors).len(),
            forall|k: int, l: int| 0 <= k < l < changed@.len() ==> changed@[k] < changed@[l],
    {
        let before = states_of(actors);
        match set {
            GoapSet::Actions => {
                let mut i: usize = 0;
                assert(pool@ =~= handed_back(old(pool)@, agents(old(actors)@).take(0)));
                while i < actors.len()
                    invariant
                        i <= actors.len(),
                        actors.len() == old(actors).len(),
                        forall|j: int|
                            0 <= j < i ==> (#[trigger] actors[j])@ == old(actors)[j]@.observed(),
                        forall|j: int|
                            i <= j < actors.len() ==> (#[trigger] actors[j]) == old(actors)[j],
                        pool@ == handed_back(old(pool)@, agents(old(actors)@).take(i as int)),
                    decreases actors.len() - i,
                {
                    proof {
                        lemma_handed_back_one_more(old(pool)@, agents(old(actors)@), i as int);
                    }
                    pool.take_back(&actors[i]);
                    actors[i].observe();
                    i += 1;
                }
                assert(agents(old(actors)@).take(i as int) =~= agents(old(actors)@));
            },
            GoapSet::Actors => {
                let dispatcher = PlanDispatcher::collect(actors);
                dispatcher.dispatch(actors);
            },
        }
        moved_from(&before, actors)
    }
}

/// The state of each agent of the list, in order.
fn states_of(actors: &Vec<Actor>) -> (states: Vec<ActorState>)
    ensures
        states@.len() == actors@.len(),
        forall|i: int| 0 <= i < actors@.len() ==> #[trigger] states@[i] == actors@[i]@.state,
{
    let mut states: Vec<ActorState> = Vec::new();
    let mut i: usize = 0;
    while i < actors.len()
        invariant
            i <= actors.len(),
            states@.len() == i,
            forall|j: int| 0 <= j < i ==> #[trigger] states@[j] == actors@[j]@.state,
        decreases actors.len() - i,
    {
        states.push(actors[i].state());
        i += 1;
    }
    states
}

/// The places, in rising order, of the agents that are no longer in the state
/// that `before` has for them.
fn moved_from(before: &Vec<ActorState>, actors: &Vec<Actor>) -> (changed: Vec<usize>)
    requires
        before@.len() == actors@.len(),
    ensures
        forall|i: int|
            0 <= i < actors@.len() ==> (changed@.contains(i as usize) <==> (
            #[trigger] actors@[i])@.state != before@[i]),
        forall|k: int| 0 <= k < changed@.len() ==> #[trigger] changed@[k] < actors@.len(),
        forall|k: int, l: int| 0 <= k < l < changed@.len() ==> changed@[k] < changed@[l],
{
    let mut changed: Vec<usize> = Vec::new();
    let mut i: usize = 0;
    while i < actors.len()
        invariant
            i <= actors.len(),
            before@.len() == actors@.len(),
            forall|j: int|
                0 <= j < i ==> (changed@.contains(j as usize) <==> (#[trigger] actors@[j])@.state
                    != before@[j]),
            forall|k: int| 0 <= k < changed@.len() ==> #[trigger] changed@[k] < i,
            forall|k: int, l: int| 0 <= k < l < changed@.len() ==> changed@[k] < changed@[l],
        decreases actors.len() - i,
    {
        let ghost so_far = changed@;
        if actors[i].state() != before[i] {
            changed.push(i);
            assert(changed@[so_far.len() as int] == i);
        }
        proof {
            assert forall|j: int| 0 <= j < i + 1 implies (changed@.contains(j as usize) <==> (
            #[trigger] actors@[j])@.state != before@[j]) by {
                if so_far.contains(j as usize) {
                    let k = choose|k: int| 0 <= k < so_far.len() && so_far[k] == j as usize;
                    assert(changed@[k] == j as usize);
                }
                if changed@.contains(j as usize) && j < i {
                    let k = choose|k: int| 0 <= k < changed@.len() && changed@[k] == j as usize;
                    assert(so_far[k] == j as usize);
                }
                if changed@.contains(j as usize) && j == i {
                    let k = choose|k: int| 0 <= k < changed@.len() && changed@[k] == j as usize;
                    if k < so_far.len() {
                        assert(so_far[k] < i);
                    }
                }
            }
        }
        i += 1;
    }
    changed
}

} // verus!
