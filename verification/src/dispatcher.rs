//! The plan dispatcher: it gathers the wishes for a plan of one tick and
//! answers each with a run of the planner.
use vstd::prelude::*;
use crate::actor::{Actor, ActorState, Agent};

verus! {

/// A wish for a plan. It names the agent by its place in the host's list.
#[derive(Clone, Copy, Debug, PartialEq, Eq, Structural)]
pub struct RequestPlanEvent {
    pub actor: usize,
}

/// The wishes for a plan that one tick brought. A dispatcher is made anew in
/// each tick and used up when it has answered them.
#[derive(Debug)]
pub struct PlanDispatcher {
    requests: Vec<RequestPlanEvent>,
}

impl View for PlanDispatcher {
    type V = Seq<RequestPlanEvent>;

    closed spec fn view(&self) -> Seq<RequestPlanEvent> {
        self.requests@
    }
}

/// Whether one of `requests` names the agent at place `actor`.
pub open spec fn asked_for(requests: Seq<RequestPlanEvent>, actor: int) -> bool {
    exists|k: int| 0 <= k < requests.len() && (#[trigger] requests[k]).actor == actor
}

/// Planning twice in a row is planning once.
pub proof fn lemma_planned_once(agent: Agent)
    ensures
        agent.planned().planned() == agent.planned(),
{
}

impl PlanDispatcher {
    /// A dispatcher that holds no wish.
    pub fn new() -> (dispatcher: PlanDispatcher)
        ensures
            dispatcher@ == Seq::<RequestPlanEvent>::empty(),
    {
        PlanDispatcher { requests: Vec::new() }
    }

    /// Adds a wish, behind those that came before.
    pub fn submit(&mut self, event: RequestPlanEvent)
        ensures
            final(self)@ == old(self)@.push(event),
    {
        self.requests.push(event);
    }

    /// The wishes held, in the order in which they came.
    pub fn pending(&self) -> (requests: &Vec<RequestPlanEvent>)
        ensures
            requests@ == self@,
    {
        &self.requests
    }

    /// Takes up the wish for a plan of every agent that has one and whose
    /// actions all rest, and returns a dispatcher with one wish for each
    /// agent that now waits for a plan, in the order of the agents.
    pub fn collect(actors: &mut Vec<Actor>) -> (dispatcher: PlanDispatcher)
        ensures
            final(actors).len() == old(actors).len(),
            forall|i: int|
                0 <= i < final(actors).len() ==> (#[trigger] final(actors)[i])@ == old(
                    actors)[i]@.requested(),
            forall|i: int|
                0 <= i < final(actors).len() ==> (asked_for(dispatcher@, i) <==> (
                #[trigger] final(actors)[i])@.state == ActorState::Planning),
            forall|k: int|
                0 <= k < dispatcher@.len() ==> (#[trigger] dispatcher@[k]).actor < final(
                    actors).len(),
            forall|k: int, l: int|
                0 <= k < l < dispatcher@.len() ==> (#[trigger] dispatcher@[k]).actor < (
                #[trigger] dispatcher@[l]).actor,
    {
        let mut requests: Vec<RequestPlanEvent> = Vec::new();
        let mut i: usize = 0;
        while i < actors.len()
            invariant
                i <= actors.len(),
                actors.len() == old(actors).len(),
                forall|j: int|
                    0 <= j < i ==> (#[trigger] actors[j])@ == old(actors)[j]@.requested(),
                forall|j: int| i <= j < actors.len() ==> (#[trigger] actors[j]) == old(actors)[j],
                forall|j: int|
                    0 <= j < i ==> (asked_for(requests@, j) <==> (#[trigger] actors[j])@.state
                        == ActorState::Planning),
                forall|k: int| 0 <= k < requests@.len() ==> (#[trigger] requests@[k]).actor < i,
                forall|k: int, l: int|
                    0 <= k < l < requests@.len() ==> (#[trigger] requests@[k]).actor < (
                    #[trigger] requests@[l]).actor,
            decreases actors.len() - i,
        {
            actors[i].request();
            let ghost before = requests@;
            if actors[i].state() == ActorState::Planning {
                requests.push(RequestPlanEvent { actor: i });
                assert(requests@[before.len() as int].actor == i);
            }
            proof {
                assert forall|j: int| 0 <= j < i + 1 implies (asked_for(requests@, j) <==> (
                #[trigger] actors[j])@.state == ActorState::Planning) by {
                    if j < i {
                        if asked_for(before, j) {
                            let k = choose|k: int|
                                0 <= k < before.len() && (#[trigger] before[k]).actor == j;
                            assert(requests@[k].actor == j);
                        }
                        if asked_for(requests@, j) {
                            let k = choose|k: int|
                                0 <= k < requests@.len() && (#[trigger] requests@[k]).actor == j;
                            assert(before[k].actor == j);
                        }
                    } else if asked_for(requests@, j) {
                        let k = choose|k: int|
                            0 <= k < requests@.len() && (#[trigger] requests@[k]).actor == j;
                        if k < before.len() {
                            assert(before[k].actor < i);
                        }
                    }
                }
            }
            i += 1;
        }
        PlanDispatcher { requests }
    }

    /// Answers every wish: plans for each agent that a wish names, and
    /// leaves the other agents alone. A wish that names no agent is dropped.
    pub fn dispatch(self, actors: &mut Vec<Actor>)
        ensures
            final(actors).len() == old(actors).len(),
            forall|i: int|
                0 <= i < final(actors).len() ==> (#[trigger] final(actors)[i])@ == (if asked_for(
                    self@,
                    i,
                ) {
                    old(actors)[i]@.planned()
                } else {
                    old(actors)[i]@
                }),
    {
        let mut k: usize = 0;
        assert(self.requests@.take(0).len() == 0);
        while k < self.requests.len()
            invariant
                k <= self.requests.len(),
                actors.len() == old(actors).len(),
                forall|i: int|
                    0 <= i < actors.len() ==> (#[trigger] actors[i])@ == (
                    if asked_for(self.requests@.take(k as int), i) {
                        old(actors)[i]@.planned()
                    } else {
                        old(actors)[i]@
                    }),
            decreases self.requests.len() - k,
        {
            let at = self.requests[k].actor;
            let ghost before = self.requests@.take(k as int);
            let ghost now = self.requests@.take(k + 1);
            let ghost prior = actors@;
            if at < actors.len() {
                actors[at].make_plan();
            }
            proof {
                assert(now[k as int].actor == at);
                assert forall|i: int| 0 <= i < actors.len() implies actors[i]@ == (if asked_for(
                    now,
                    i,
                ) {
                    old(actors)[i]@.planned()
                } else {
                    old(actors)[i]@
                }) by {
                    if asked_for(before, i) {
                        let j = choose|j: int|
                            0 <= j < before.len() && (#[trigger] before[j]).actor == i;
                        assert(now[j].actor == i);
                    }
                    if asked_for(now, i) && i != at {
                        let j = choose|j: int| 0 <= j < now.len() && (#[trigger] now[j]).actor == i;
                        assert(before[j].actor == i);
                    }
                    if i == at {
                        lemma_planned_once(old(actors)[i]@);
                    } else {
                        assert(actors[i] == prior[i]);
                    }
                }
            }
            k += 1;
        }
        assert(self.requests@.take(k as int) =~= self.requests@);
    }
}

} // verus!
