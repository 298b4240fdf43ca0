//! Conditions and world states: partial assignments of booleans to conditions.
use vstd::prelude::*;

verus! {

/// The identity of a boolean fact about an agent's world. Two conditions are
/// the same condition if and only if they have the same id.
#[derive(Clone, Copy, Debug, Hash, PartialEq, Eq, Structural)]
pub struct Condition {
    pub id: u64,
}

/// What is known of a world: a value for some conditions, nothing for the
/// others.
pub type Facts = Map<Condition, bool>;

/// `state` gives every condition of `required` the value that `required` asks for.
/// Conditions that `required` does not mention are free.
pub open spec fn holds(state: Facts, required: Facts) -> bool {
    forall|condition: Condition| #[trigger]
        required.contains_key(condition) ==> state.contains_key(condition) && state[condition]
            == required[condition]
}

/// `state` after `effects` took place: the effects win, the rest stays.
pub open spec fn overlay(state: Facts, effects: Facts) -> Facts {
    state.union_prefer_right(effects)
}

/// The assignment that a list of conditions with their values stands for. A
/// later entry for the same condition overrides an earlier one.
pub open spec fn facts_of(entries: Seq<(Condition, bool)>) -> Facts
    decreases entries.len(),
{
    if entries.len() == 0 {
        Map::empty()
    } else {
        facts_of(entries.drop_last()).insert(entries.last().0, entries.last().1)
    }
}

/// One entry more is one insertion more.
proof fn lemma_facts_of_prefix(entries: Seq<(Condition, bool)>, n: int)
    requires
        0 <= n < entries.len(),
    ensures
        facts_of(entries.take(n + 1)) == facts_of(entries.take(n)).insert(
            entries[n].0,
            entries[n].1,
        ),
{
    assert(entries.take(n + 1).drop_last() =~= entries.take(n));
}

/// No condition occurs twice in the list.
spec fn distinct(entries: Seq<(Condition, bool)>) -> bool {
    forall|i: int, j: int|
        0 <= i < j < entries.len() ==> (#[trigger] entries[i]).0 != (#[trigger] entries[j]).0
}

/// The conditions of the assignment are those of the entries, and there are
/// finitely many.
proof fn lemma_facts_of_ids(entries: Seq<(Condition, bool)>)
    ensures
        facts_of(entries).dom().finite(),
        forall|condition: Condition|
            facts_of(entries).contains_key(condition) <==> exists|n: int|
                0 <= n < entries.len() && (#[trigger] entries[n]).0 == condition,
    decreases entries.len(),
{
    if entries.len() > 0 {
        let front = entries.drop_last();
        lemma_facts_of_ids(front);
        assert forall|condition: Condition|
            facts_of(entries).contains_key(condition) <==> exists|n: int|
                0 <= n < entries.len() && (#[trigger] entries[n]).0 == condition by {
            if facts_of(entries).contains_key(condition) {
                if entries.last().0 == condition {
                    assert(entries[entries.len() - 1].0 == condition);
                } else {
                    let n = choose|n: int|
                        0 <= n < front.len() && (#[trigger] front[n]).0 == condition;
                    assert(entries[n].0 == condition);
                }
            }
            if exists|n: int| 0 <= n < entries.len() && (#[trigger] entries[n]).0 == condition {
                let n = choose|n: int|
                    0 <= n < entries.len() && (#[trigger] entries[n]).0 == condition;
                if n < front.len() {
                    assert(front[n].0 == condition);
                }
            }
        }
    }
}

/// In a list without a repeated condition, each entry gives its condition
/// its value.
proof fn lemma_facts_of_values(entries: Seq<(Condition, bool)>)
    requires
        distinct(entries),
    ensures
        forall|n: int|
            0 <= n < entries.len() ==> facts_of(entries).contains_key((#[trigger] entries[n]).0)
                && facts_of(entries)[entries[n].0] == entries[n].1,
    decreases entries.len(),
{
    if entries.len() > 0 {
        let front = entries.drop_last();
        assert(distinct(front)) by {
            assert forall|i: int, j: int| 0 <= i < j < front.len() implies (#[trigger] front[i]).0
                != (#[trigger] front[j]).0 by {
                assert(front[i] == entries[i] && front[j] == entries[j]);
            }
        }
        lemma_facts_of_values(front);
        assert forall|n: int| 0 <= n < entries.len() implies facts_of(entries).contains_key(
            (#[trigger] entries[n]).0,
        ) && facts_of(entries)[entries[n].0] == entries[n].1 by {
            if n < front.len() {
                assert(front[n] == entries[n]);
                assert(entries[n].0 != entries[entries.len() - 1].0);
            }
        }
    }
}

/// In a list without a repeated condition there are as many conditions as
/// entries.
proof fn lemma_facts_of_count(entries: Seq<(Condition, bool)>)
    requires
        distinct(entries),
    ensures
        facts_of(entries).dom().len() == entries.len(),
    decreases entries.len(),
{
    if entries.len() > 0 {
        let front = entries.drop_last();
        assert(distinct(front)) by {
            assert forall|i: int, j: int| 0 <= i < j < front.len() implies (#[trigger] front[i]).0
                != (#[trigger] front[j]).0 by {
                assert(front[i] == entries[i] && front[j] == entries[j]);
            }
        }
        lemma_facts_of_count(front);
        lemma_facts_of_ids(front);
        if facts_of(front).contains_key(entries.last().0) {
            let n = choose|n: int|
                0 <= n < front.len() && (#[trigger] front[n]).0 == entries.last().0;
            assert(front[n] == entries[n]);
            assert(entries[n].0 != entries[entries.len() - 1].0);
        }
    }
}

/// A partial snapshot of the world: a value for some conditions, nothing for
/// the others. It serves as an agent's tracked state, as its goal, and as the
/// preconditions and postconditions of an action.
#[derive(Debug)]
pub struct WorldState {
    entries: Vec<(Condition, bool)>,
}

impl View for WorldState {
    type V = Facts;

    closed spec fn view(&self) -> Facts {
        facts_of(self.entries@)
    }
}

impl WorldState {
    /// No condition has two entries.
    #[verifier::type_invariant]
    spec fn in_order(self) -> bool {
        distinct(self.entries@)
    }

    /// The snapshot that says nothing.
    pub fn new() -> (state: WorldState)
        ensures
            state@ == Facts::empty(),
    {
        WorldState { entries: Vec::new() }
    }

    /// The snapshot that a list of conditions stands for; of two entries for
    /// one condition the later counts.
    pub fn from_conditions(conditions: &Vec<(Condition, bool)>) -> (state: WorldState)
        ensures
            state@ == facts_of(conditions@),
    {
        let mut state = WorldState::new();
        let mut i: usize = 0;
        assert(conditions@.take(0) =~= Seq::empty());
        while i < conditions.len()
            invariant
                i <= conditions.len(),
                state@ == facts_of(conditions@.take(i as int)),
            decreases conditions.len() - i,
        {
            proof {
                lemma_facts_of_prefix(conditions@, i as int);
            }
            state.set(conditions[i].0, conditions[i].1);
            i += 1;
        }
        assert(conditions@.take(i as int) =~= conditions@);
        state
    }

    /// The conditions of the snapshot, each once, as a list that stands for
    /// it.
    pub fn conditions(&self) -> (conditions: Vec<(Condition, bool)>)
        ensures
            facts_of(conditions@) == self@,
            conditions@.len() == self@.dom().len(),
            forall|i: int, j: int|
                0 <= i < j < conditions@.len() ==> (#[trigger] conditions@[i]).0 != (
                #[trigger] conditions@[j]).0,
    {
        let mut conditions: Vec<(Condition, bool)> = Vec::new();
        let mut i: usize = 0;
        while i < self.entries.len()
            invariant
                i <= self.entries.len(),
                conditions@ == self.entries@.take(i as int),
            decreases self.entries.len() - i,
        {
            conditions.push(self.entries[i]);
            assert(conditions@ =~= self.entries@.take(i + 1));
            i += 1;
        }
        proof {
            use_type_invariant(self);
            assert(self.entries@.take(i as int) =~= self.entries@);
            lemma_facts_of_count(self.entries@);
        }
        conditions
    }

    /// Every snapshot mentions finitely many conditions.
    pub proof fn lemma_finite(&self)
        ensures
            self@.dom().finite(),
    {
        lemma_facts_of_ids(self.entries@);
    }

    /// How many conditions the snapshot mentions.
    pub fn len(&self) -> (count: usize)
        ensures
            count == self@.dom().len(),
    {
        proof {
            use_type_invariant(self);
            lemma_facts_of_count(self.entries@);
        }
        self.entries.len()
    }

    /// Where the entry for `condition` stands, if there is one.
    fn find(&self, condition: Condition) -> (place: Option<usize>)
        ensures
            match place {
                Some(n) => n < self.entries@.len() && self.entries@[n as int].0 == condition,
                None => forall|n: int|
                    0 <= n < self.entries@.len() ==> (#[trigger] self.entries@[n]).0 != condition,
            },
    {
        let mut i: usize = 0;
        while i < self.entries.len()
            invariant
                i <= self.entries.len(),
                forall|n: int| 0 <= n < i ==> (#[trigger] self.entries@[n]).0 != condition,
            decreases self.entries.len() - i,
        {
            if self.entries[i].0 == condition {
                return Some(i);
            }
            i += 1;
        }
        None
    }

    /// The value of `condition`, if the snapshot has one.
    pub fn get(&self, condition: Condition) -> (value: Option<bool>)
        ensures
            value == (if self@.contains_key(condition) {
                Some(self@[condition])
            } else {
                None
            }),
    {
        proof {
            use_type_invariant(self);
            lemma_facts_of_ids(self.entries@);
            lemma_facts_of_values(self.entries@);
        }
        match self.find(condition) {
            Some(n) => Some(self.entries[n].1),
            None => None,
        }
    }

    /// Gives `condition` the value `value`, whether or not it had one.
    pub fn set(&mut self, condition: Condition, value: bool)
        ensures
            final(self)@ == old(self)@.insert(condition, value),
    {
        proof {
            use_type_invariant(&*self);
        }
        let ghost before = self.entries@;
        let place = self.find(condition);
        let mut entries: Vec<(Condition, bool)> = Vec::new();
        std::mem::swap(&mut entries, &mut self.entries);
        match place {
            Some(n) => {
                entries.set(n, (condition, value));
                proof {
                    let after = entries@;
                    lemma_facts_of_ids(before);
                    lemma_facts_of_values(before);
                    lemma_facts_of_ids(after);
                    lemma_facts_of_values(after);
                    assert forall|k: Condition|
                        facts_of(after).contains_key(k) <==> #[trigger] facts_of(before).insert(
                            condition,
                            value,
                        ).contains_key(k) by {
                        if facts_of(after).contains_key(k) {
                            let m = choose|m: int|
                                0 <= m < after.len() && (#[trigger] after[m]).0 == k;
                            assert(before[m].0 == k);
                        }
                        if facts_of(before).contains_key(k) {
                            let m = choose|m: int|
                                0 <= m < before.len() && (#[trigger] before[m]).0 == k;
                            assert(after[m].0 == k);
                        }
                        if k == condition {
                            assert(after[n as int].0 == k);
                        }
                    }
                    assert forall|k: Condition| #[trigger]
                        facts_of(after).contains_key(k) implies facts_of(after)[k] == facts_of(
                        before,
                    ).insert(condition, value)[k] by {
                        let m = choose|m: int| 0 <= m < after.len() && (#[trigger] after[m]).0 == k;
                        if m != n {
                            assert(before[m] == after[m]);
                        }
                    }
                    assert(facts_of(after) =~= facts_of(before).insert(condition, value));
                }
            },
            None => {
                entries.push((condition, value));
                assert(entries@.drop_last() =~= before);
            },
        }
        self.entries = entries;
    }

    /// Whether this snapshot gives every condition of `required` the value asked for.
    pub fn satisfies(&self, required: &WorldState) -> (yes: bool)
        ensures
            yes == holds(self@, required@),
    {
        proof {
            use_type_invariant(required);
            lemma_facts_of_ids(required.entries@);
            lemma_facts_of_values(required.entries@);
        }
        let mut i: usize = 0;
        while i < required.entries.len()
            invariant
                i <= required.entries.len(),
                forall|n: int|
                    0 <= n < required.entries@.len() ==> required@.contains_key(
                        (#[trigger] required.entries@[n]).0,
                    ) && required@[required.entries@[n].0] == required.entries@[n].1,
                forall|n: int|
                    0 <= n < i ==> self@.contains_key((#[trigger] required.entries@[n]).0)
                        && self@[required.entries@[n].0] == required.entries@[n].1,
            decreases required.entries.len() - i,
        {
            let wanted = required.entries[i];
            match self.get(wanted.0) {
                Some(actual) => {
                    if actual != wanted.1 {
                        return false;
                    }
                },
                None => {
                    return false;
                },
            }
            i += 1;
        }
        proof {
            assert forall|condition: Condition| #[trigger]
                required@.contains_key(condition) implies self@.contains_key(condition)
                && self@[condition] == required@[condition] by {
                let n = choose|n: int|
                    0 <= n < required.entries@.len() && (#[trigger] required.entries@[n]).0
                        == condition;
                assert(self@.contains_key(required.entries@[n].0));
            }
        }
        true
    }

    /// Lets `effects` take place: each of its conditions gets its value here.
    pub fn apply(&mut self, effects: &WorldState)
        ensures
            final(self)@ == overlay(old(self)@, effects@),
    {
        let mut i: usize = 0;
        assert(self@ =~= overlay(old(self)@, facts_of(effects.entries@.take(0))));
        while i < effects.entries.len()
            invariant
                i <= effects.entries.len(),
                self@ == overlay(old(self)@, facts_of(effects.entries@.take(i as int))),
            decreases effects.entries.len() - i,
        {
            proof {
                lemma_facts_of_prefix(effects.entries@, i as int);
            }
            let ghost so_far = facts_of(effects.entries@.take(i as int));
            let entry = effects.entries[i];
            self.set(entry.0, entry.1);
            assert(overlay(old(self)@, so_far).insert(entry.0, entry.1) =~= overlay(
                old(self)@,
                so_far.insert(entry.0, entry.1),
            ));
            i += 1;
        }
        assert(effects.entries@.take(i as int) =~= effects.entries@);
    }

    /// Whether two snapshots say the same of every condition.
    pub fn same_as(&self, other: &WorldState) -> (yes: bool)
        ensures
            yes == (self@ == other@),
    {
        let yes = self.satisfies(other) && other.satisfies(self);
        proof {
            if yes {
                assert(self@ =~= other@);
            }
        }
        yes
    }
}

impl Clone for WorldState {
    fn clone(&self) -> (copy: WorldState)
        ensures
            copy@ == self@,
    {
        let entries = self.conditions();
        WorldState { entries }
    }
}

} // verus!
