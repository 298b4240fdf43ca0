//! Things that agents compete for: a pool of slots, each free or reserved by
//! one action of one agent.
use vstd::prelude::*;
use crate::action::ActionState;
use crate::actor::{Actor, Agent};

verus! {

/// Who holds a slot: an action, by its place among the actions of its agent.
#[derive(Clone, Copy, Debug, PartialEq, Eq, Structural)]
pub struct Claim {
    /// The agent's id.
    pub actor: u64,
    /// The place of the action in the agent's list.
    pub action: usize,
}

/// Whether `agent` has told the action behind `claim` that it was evaluated
/// and left out of the plan, so that what it reserved goes back.
pub open spec fn gives_back(agent: Agent, claim: Claim) -> bool {
    &&& claim.actor == agent.id
    &&& claim.action < agent.actions.len()
    &&& agent.actions[claim.action as int].state == ActionState::NotInPlan(true)
}

/// Whether one of `agents` gives back what `claim` holds.
pub open spec fn any_gives_back(agents: Seq<Agent>, claim: Claim) -> bool {
    exists|i: int| 0 <= i < agents.len() && gives_back(#[trigger] agents[i], claim)
}

/// The slots after each of `agents` gave back what its left-out actions held.
pub open spec fn handed_back(slots: Seq<Option<Claim>>, agents: Seq<Agent>) -> Seq<Option<Claim>> {
    slots.map_values(
        |slot: Option<Claim>|
            match slot {
                Some(claim) => if any_gives_back(agents, claim) {
                    None
                } else {
                    slot
                },
                None => None,
            },
    )
}

/// A pool of slots. The logic behind an action reserves a slot while it
/// evaluates; the engine frees the slot when the action is left out of the
/// plan.
#[derive(Debug)]
pub struct ResourcePool {
    slots: Vec<Option<Claim>>,
}

impl View for ResourcePool {
    type V = Seq<Option<Claim>>;

    closed spec fn view(&self) -> Seq<Option<Claim>> {
        self.slots@
    }
}

impl ResourcePool {
    /// A pool without slots.
    pub fn new() -> (pool: ResourcePool)
        ensures
            pool@ == Seq::<Option<Claim>>::empty(),
    {
        ResourcePool { slots: Vec::new() }
    }

    /// How many slots the pool has.
    pub fn len(&self) -> (count: usize)
        ensures
            count == self@.len(),
    {
        self.slots.len()
    }

    /// Adds a free slot and returns its place.
    pub fn add(&mut self) -> (slot: usize)
        ensures
            slot == old(self)@.len(),
            final(self)@ == old(self)@.push(None),
    {
        let slot = self.slots.len();
        self.slots.push(None);
        slot
    }

    /// Who holds the slot at place `slot`; nobody, if there is no such slot.
    pub fn owner(&self, slot: usize) -> (owner: Option<Claim>)
        ensures
            owner == (if slot < self@.len() {
                self@[slot as int]
            } else {
                None
            }),
    {
        if slot < self.slots.len() {
            self.slots[slot]
        } else {
            None
        }
    }

    /// Reserves the slot at place `slot` for `by`, if it is there and free;
    /// says whether it did.
    pub fn claim(&mut self, slot: usize, by: Claim) -> (won: bool)
        ensures
            won == (slot < old(self)@.len() && old(self)@[slot as int] is None),
            final(self)@ == (if won {
                old(self)@.update(slot as int, Some(by))
            } else {
                old(self)@
            }),
    {
        if slot < self.slots.len() && self.slots[slot].is_none() {
            self.slots.set(slot, Some(by));
            true
        } else {
            false
        }
    }

    /// Reserves the first free slot for `by` and returns its place, if a slot
    /// is free.
    pub fn claim_any(&mut self, by: Claim) -> (slot: Option<usize>)
        ensures
            match slot {
                Some(at) => {
                    &&& at < old(self)@.len()
                    &&& old(self)@[at as int] is None
                    &&& forall|j: int| 0 <= j < at ==> (#[trigger] old(self)@[j]) is Some
                    &&& final(self)@ == old(self)@.update(at as int, Some(by))
                },
                None => {
                    &&& forall|j: int|
                        0 <= j < old(self)@.len() ==> (#[trigger] old(self)@[j]) is Some
                    &&& final(self)@ == old(self)@
                },
            },
    {
        let mut i: usize = 0;
        while i < self.slots.len()
            invariant
                i <= self.slots.len(),
                self.slots@ == old(self).slots@,
                forall|j: int| 0 <= j < i ==> (#[trigger] self.slots@[j]) is Some,
            decreases self.slots.len() - i,
        {
            if self.slots[i].is_none() {
                self.slots.set(i, Some(by));
                return Some(i);
            }
            i += 1;
        }
        None
    }

    /// Frees the slot at place `slot`, whoever held it.
    pub fn release(&mut self, slot: usize)
        ensures
            final(self)@ == (if slot < old(self)@.len() {
                old(self)@.update(slot as int, None)
            } else {
                old(self)@
            }),
    {
        if slot < self.slots.len() {
            self.slots.set(slot, None);
        }
    }

    /// Frees every slot that is held by an action of `actor` which was
    /// evaluated and left out of the plan.
    pub fn take_back(&mut self, actor: &Actor)
        ensures
            final(self)@ == handed_back(old(self)@, seq![actor@]),
    {
        let id = actor.id();
        let actions = actor.actions();
        let ghost agents = seq![actor@];
        let mut i: usize = 0;
        while i < self.slots.len()
            invariant
                i <= self.slots.len(),
                self.slots.len() == old(self).slots.len(),
                id == actor@.id,
                crate::action::operators(actions@) == actor@.actions,
                agents == seq![actor@],
                forall|j: int|
                    0 <= j < i ==> (#[trigger] self.slots@[j]) == handed_back(
                        old(self).slots@,
                        agents,
                    )[j],
                forall|j: int| i <= j < self.slots.len() ==> (#[trigger] self.slots@[j]) == old(
                    self,
                ).slots@[j],
            decreases self.slots.len() - i,
        {
            let ghost slot = self.slots@[i as int];
            let mut free = false;
            match self.slots[i] {
                Some(claim) => {
                    if claim.actor == id && claim.action < actions.len() {
                        assert(crate::action::operators(actions@)[claim.action as int].state
                            == actions[claim.action as int].state);
                        if actions[claim.action].state == ActionState::NotInPlan(true) {
                            free = true;
                        }
                    }
                    proof {
                        assert(agents[0] == actor@);
                        assert(free == any_gives_back(agents, claim));
                    }
                },
                None => {},
            }
            if free {
                self.slots.set(i, None);
            }
            i += 1;
        }
        assert(self.slots@ =~= handed_back(old(self).slots@, agents));
    }
}

} // verus!
