//! The relations that there are, by identity and by name.

use crate::kernel::metadata::RelationId;
use crate::kernel::relation::{RelationState, RelationView};
use crate::value::{Identity, Symbol};
use vstd::prelude::*;

verus! {

/// Whether numbers stand in strictly increasing order.
pub open spec fn ascending(ids: Seq<u64>) -> bool {
    forall|i: int, j: int| 0 <= i < j < ids.len() ==> (#[trigger] ids[i]) < (#[trigger] ids[j])
}

/// Whether `ids` holds the members of a set, in increasing order.
pub open spec fn lists_ids(ids: Seq<u64>, set: Set<u64>) -> bool {
    ascending(ids) && ids.to_set() == set
}

/// The members of a set, in increasing order.
pub open spec fn id_listing(set: Set<u64>) -> Seq<u64> {
    choose|ids: Seq<u64>| lists_ids(ids, set)
}

/// The listing of numbers with one more.
proof fn lemma_ids_with(ids: Seq<u64>, set: Set<u64>, id: u64) -> (all: Seq<u64>)
    requires
        lists_ids(ids, set),
        !set.contains(id),
    ensures
        lists_ids(all, set.insert(id)),
    decreases ids.len(),
{
    if ids.len() == 0 || ids.last() < id {
        let all = ids.push(id);
        assert forall|x: u64| all.to_set().contains(x) == set.insert(id).contains(x) by {
            if set.contains(x) {
                assert(ids.to_set().contains(x));
                let i = choose|i: int| 0 <= i < ids.len() && ids[i] == x;
                assert(all[i] == x);
            }
            if x == id {
                assert(all[ids.len() as int] == id);
            }
            if all.contains(x) && x != id {
                let i = choose|i: int| 0 <= i < all.len() && all[i] == x;
                assert(ids[i] == x);
                assert(ids.to_set().contains(x));
            }
        }
        assert(all.to_set() =~= set.insert(id));
        all
    } else {
        let last = ids.last();
        let less = ids.drop_last();
        assert(ids.to_set().contains(ids[ids.len() - 1]));
        lemma_without_last(ids, set);
        let before = lemma_ids_with(less, set.remove(last), id);
        let all = before.push(last);
        assert forall|i: int| 0 <= i < before.len() implies (#[trigger] before[i]) < last by {
            assert(before.to_set().contains(before[i]));
            if before[i] != id {
                assert(less.to_set().contains(before[i]));
                let k = choose|k: int| 0 <= k < less.len() && less[k] == before[i];
                assert(ids[k] < ids[ids.len() - 1]);
            }
        }
        assert forall|x: u64| all.to_set().contains(x) == set.insert(id).contains(x) by {
            if set.remove(last).insert(id).contains(x) {
                assert(before.to_set().contains(x));
                let i = choose|i: int| 0 <= i < before.len() && before[i] == x;
                assert(all[i] == x);
            }
            if x == last {
                assert(all[before.len() as int] == last);
            }
            if all.contains(x) && x != last {
                let i = choose|i: int| 0 <= i < all.len() && all[i] == x;
                assert(before[i] == x);
                assert(before.to_set().contains(x));
            }
        }
        assert(all.to_set() =~= set.insert(id));
        all
    }
}

/// Finitely many numbers can be listed.
pub proof fn lemma_ids_listed(set: Set<u64>) -> (ids: Seq<u64>)
    requires
        set.finite(),
    ensures
        lists_ids(ids, set),
        lists_ids(id_listing(set), set),
    decreases set.len(),
{
    if set.len() == 0 {
        let none = Seq::<u64>::empty();
        assert(none.to_set() =~= set);
        assert(lists_ids(none, set));
        none
    } else {
        let id = set.choose();
        let before = lemma_ids_listed(set.remove(id));
        let all = lemma_ids_with(before, set.remove(id), id);
        assert(set.remove(id).insert(id) =~= set);
        assert(lists_ids(all, set));
        all
    }
}

/// There is only one way to list numbers in increasing order.
pub proof fn lemma_ids_unique(a: Seq<u64>, b: Seq<u64>, set: Set<u64>)
    requires
        lists_ids(a, set),
        lists_ids(b, set),
    ensures
        a == b,
    decreases a.len(),
{
    if a.len() == 0 {
        if b.len() > 0 {
            assert(b.to_set().contains(b[0]));
            assert(a.to_set().contains(b[0]));
        }
        assert(a =~= b);
    } else {
        assert(a.to_set().contains(a.last()));
        assert(b.contains(a.last()));
        let i = choose|i: int| 0 <= i < b.len() && b[i] == a.last();
        assert(b.to_set().contains(b.last()));
        assert(a.contains(b.last()));
        let j = choose|j: int| 0 <= j < a.len() && a[j] == b.last();
        if i < b.len() - 1 {
            assert(b[i] < b[b.len() - 1]);
            if j < a.len() - 1 {
                assert(a[j] < a[a.len() - 1]);
            }
        }
        assert(a.last() == b.last());
        let rest = set.remove(a.last());
        lemma_without_last(a, set);
        lemma_without_last(b, set);
        lemma_ids_unique(a.drop_last(), b.drop_last(), rest);
        assert(a =~= a.drop_last().push(a.last()));
        assert(b =~= b.drop_last().push(b.last()));
    }
}

proof fn lemma_without_last(a: Seq<u64>, set: Set<u64>)
    requires
        lists_ids(a, set),
        a.len() > 0,
    ensures
        lists_ids(a.drop_last(), set.remove(a.last())),
{
    let rest = a.drop_last();
    assert forall|v: u64| rest.to_set().contains(v) == set.remove(a.last()).contains(v) by {
        if rest.contains(v) {
            let k = choose|k: int| 0 <= k < rest.len() && rest[k] == v;
            assert(a[k] == v);
            assert(a.to_set().contains(v));
            assert(a[k] < a[a.len() - 1]);
        }
        if set.remove(a.last()).contains(v) {
            assert(a.to_set().contains(v));
            let k = choose|k: int| 0 <= k < a.len() && a[k] == v;
            assert(rest[k] == v);
        }
    }
    assert(rest.to_set() =~= set.remove(a.last()));
    assert forall|i: int, j: int| 0 <= i < j < rest.len() implies rest[i] < rest[j] by {
        assert(a[i] < a[j]);
    }
}

/// The raw numbers of identities.
pub open spec fn raw_ids(ids: Seq<Identity>) -> Seq<u64> {
    ids.map_values(|id: Identity| id@)
}

/// The identities of relations.
pub open spec fn state_ids(states: Seq<RelationState>) -> Seq<u64> {
    states.map_values(|state: RelationState| state@.metadata.id)
}

/// The relations that there are, by identity.
pub struct RelationStates {
    states: Vec<RelationState>,
}

spec fn place(states: Seq<RelationState>, id: u64) -> int {
    choose|i: int| 0 <= i < states.len() && state_ids(states)[i] == id
}

impl View for RelationStates {
    type V = Map<u64, RelationView>;

    closed spec fn view(&self) -> Map<u64, RelationView> {
        Map::new(
            |id: u64| state_ids(self.states@).contains(id),
            |id: u64| self.states@[place(self.states@, id)]@,
        )
    }
}

proof fn lemma_place(states: Seq<RelationState>, i: int)
    requires
        ascending(state_ids(states)),
        0 <= i < states.len(),
    ensures
        state_ids(states)[i] == states[i]@.metadata.id,
        place(states, states[i]@.metadata.id) == i,
        state_ids(states).contains(states[i]@.metadata.id),
{
    let id = states[i]@.metadata.id;
    assert(state_ids(states)[i] == id);
    let j = place(states, id);
    assert(0 <= j < states.len() && state_ids(states)[j] == id);
    if j < i {
        assert(state_ids(states)[j] < state_ids(states)[i]);
    }
    if i < j {
        assert(state_ids(states)[i] < state_ids(states)[j]);
    }
}

impl RelationStates {
    #[verifier::type_invariant]
    spec fn wf(self) -> bool {
        ascending(state_ids(self.states@))
    }

    /// Whether the rows of a relation are held in a radix tree.
    pub closed spec fn is_radix(self, id: u64) -> bool {
        self.states@[place(self.states@, id)].is_radix()
    }

    /// No relations.
    pub fn new() -> (states: RelationStates)
        ensures
            states@ == Map::<u64, RelationView>::empty(),
    {
        let states = RelationStates { states: Vec::new() };
        assert(states@ =~= Map::<u64, RelationView>::empty());
        states
    }

    /// Where a relation is, or the first place behind all with a lower identity.
    fn find(&self, id: RelationId) -> (place: usize)
        ensures
            place <= self.states@.len(),
            forall|i: int| 0 <= i < place ==> (#[trigger] self.states@[i])@.metadata.id < id@,
            forall|i: int|
                place <= i < self.states@.len() ==> (#[trigger] self.states@[i])@.metadata.id >= id@,
    {
        proof {
            use_type_invariant(self);
        }
        let mut low: usize = 0;
        let mut high: usize = self.states.len();
        while low < high
            invariant
                low <= high <= self.states@.len(),
                ascending(state_ids(self.states@)),
                forall|i: int| 0 <= i < low ==> (#[trigger] self.states@[i])@.metadata.id < id@,
                forall|i: int|
                    high <= i < self.states@.len() ==> (#[trigger] self.states@[i])@.metadata.id
                        >= id@,
            decreases high - low,
        {
            let middle: usize = low + (high - low) / 2;
            let there: u64 = self.states[middle].metadata().id().raw();
            proof {
                let ids = state_ids(self.states@);
                assert(ids[middle as int] == there);
                assert forall|i: int| 0 <= i < self.states@.len() implies ids[i]
                    == (#[trigger] self.states@[i])@.metadata.id by {}
            }
            if there < id.raw() {
                assert forall|i: int| 0 <= i < middle + 1 implies (
                #[trigger] self.states@[i])@.metadata.id < id@ by {
                    if i < middle {
                        assert(state_ids(self.states@)[i] < state_ids(self.states@)[middle as int]);
                    }
                }
                low = middle + 1;
            } else {
                assert forall|i: int| middle <= i < self.states@.len() implies (
                #[trigger] self.states@[i])@.metadata.id >= id@ by {
                    if middle < i {
                        assert(state_ids(self.states@)[middle as int] < state_ids(self.states@)[i]);
                    }
                }
                high = middle;
            }
        }
        low
    }

    /// The relation with the given identity.
    pub fn get(&self, id: RelationId) -> (found: Option<&RelationState>)
        ensures
            found is Some == self@.contains_key(id@),
            found matches Some(state) ==> state@ == self@[id@] && state@.metadata.id == id@
                && state.is_radix() == self.is_radix(id@) && state@.wf(),
    {
        proof {
            use_type_invariant(self);
        }
        let place: usize = self.find(id);
        if place < self.states.len() && self.states[place].metadata().id().same(&id) {
            proof {
                lemma_place(self.states@, place as int);
            }
            Some(&self.states[place])
        } else {
            proof {
                if state_ids(self.states@).contains(id@) {
                    let i = choose|i: int|
                        0 <= i < self.states@.len() && state_ids(self.states@)[i] == id@;
                    assert(self.states@[i]@.metadata.id == id@);
                    if place < i {
                        assert(state_ids(self.states@)[place as int] < state_ids(self.states@)[i]);
                    }
                    assert(i == place);
                }
            }
            None
        }
    }

    /// Whether there is a relation with the given identity.
    pub fn contains_key(&self, id: RelationId) -> (result: bool)
        ensures
            result == self@.contains_key(id@),
    {
        self.get(id).is_some()
    }

    /// Adds a relation, in place of the one with its identity.
    pub fn insert(&mut self, state: RelationState)
        ensures
            final(self)@ == old(self)@.insert(state@.metadata.id, state@),
            forall|id: u64|
                #![trigger final(self).is_radix(id)]
                old(self)@.contains_key(id) && id != state@.metadata.id ==> final(self).is_radix(id)
                    == old(self).is_radix(id),
            final(self).is_radix(state@.metadata.id) == state.is_radix(),
    {
        let ghost before = *self;
        proof {
            use_type_invariant(&*self);
        }
        let id = state.metadata().id();
        let at: usize = self.find(id);
        let ghost new = state;
        let mut states: Vec<RelationState> = Vec::new();
        std::mem::swap(&mut self.states, &mut states);
        let ghost old_states = states@;
        if at < states.len() && states[at].metadata().id().same(&id) {
            states.set(at, state);
            proof {
                assert(state_ids(states@) =~= state_ids(old_states));
            }
        } else {
            states.insert(at, state);
            proof {
                assert forall|i: int, j: int| 0 <= i < j < states@.len() implies state_ids(
                    states@,
                )[i] < state_ids(states@)[j] by {
                    let a = if i < at {
                        i
                    } else {
                        i - 1
                    };
                    let b = if j < at {
                        j
                    } else {
                        j - 1
                    };
                    if i != at && j != at {
                        assert(state_ids(old_states)[a] < state_ids(old_states)[b]);
                        assert(states@[i] == old_states[a]);
                        assert(states@[j] == old_states[b]);
                    } else if i == at {
                        assert(states@[j] == old_states[b]);
                        assert(old_states[b]@.metadata.id >= id@);
                        assert(old_states[at as int]@.metadata.id != id@);
                        if at < b {
                            assert(state_ids(old_states)[at as int] < state_ids(old_states)[b]);
                        }
                    } else {
                        assert(states@[i] == old_states[a]);
                    }
                }
            }
        }
        self.states = states;
        proof {
            let after = self.states@;
            assert(after[at as int] == new);
            lemma_place(after, at as int);
            assert forall|id: u64| id != new@.metadata.id implies (#[trigger] state_ids(
                after,
            ).contains(id)) == state_ids(old_states).contains(id) && (state_ids(old_states).contains(
                id,
            ) ==> after[place(after, id)] == old_states[place(old_states, id)]) by {
                if state_ids(old_states).contains(id) {
                    let i = place(old_states, id);
                    let c = choose|i: int|
                        0 <= i < old_states.len() && state_ids(old_states)[i] == id;
                    assert(0 <= i < old_states.len() && state_ids(old_states)[i] == id);
                    let j = if after.len() == old_states.len() || i < at {
                        i
                    } else {
                        i + 1
                    };
                    assert(after[j] == old_states[i]);
                    lemma_place(after, j);
                }
                if state_ids(after).contains(id) {
                    let j = place(after, id);
                    let c = choose|i: int| 0 <= i < after.len() && state_ids(after)[i] == id;
                    assert(0 <= j < after.len() && state_ids(after)[j] == id);
                    assert(j != at);
                    let i = if after.len() == old_states.len() || j < at {
                        j
                    } else {
                        j - 1
                    };
                    assert(after[j] == old_states[i]);
                    lemma_place(old_states, i);
                }
            }
            assert(self@ =~= before@.insert(new@.metadata.id, new@));
            assert forall|id: u64|
                before@.contains_key(id) && id != new@.metadata.id implies #[trigger] self.is_radix(id)
                == before.is_radix(id) by {
                assert(state_ids(after).contains(id));
            }
        }
    }

    /// Takes a relation out.
    pub fn remove(&mut self, id: RelationId) -> (removed: Option<RelationState>)
        ensures
            removed is Some == old(self)@.contains_key(id@),
            removed matches Some(state) ==> state@ == old(self)@[id@] && state@.metadata.id == id@
                && state@.wf(),
            final(self)@ == old(self)@.remove(id@),
    {
        let ghost before = *self;
        proof {
            use_type_invariant(&*self);
        }
        if self.get(id).is_none() {
            assert(self@ =~= before@.remove(id@));
            return None;
        }
        let at: usize = self.find(id);
        proof {
            let i = place(self.states@, id@);
            assert(0 <= i < self.states@.len() && state_ids(self.states@)[i] == id@);
            assert(self.states@[i]@.metadata.id == id@);
            if at < i {
                assert(state_ids(self.states@)[at as int] < state_ids(self.states@)[i]);
                assert(self.states@[at as int]@.metadata.id >= id@);
                assert(state_ids(self.states@)[at as int] == self.states@[at as int]@.metadata.id);
            }
            assert(i == at);
            lemma_place(self.states@, at as int);
        }
        let mut states: Vec<RelationState> = Vec::new();
        std::mem::swap(&mut self.states, &mut states);
        let ghost old_states = states@;
        let state = states.remove(at);
        let _ = state.metadata();
        proof {
            assert forall|i: int, j: int| 0 <= i < j < states@.len() implies state_ids(states@)[i]
                < state_ids(states@)[j] by {
                let a = if i < at {
                    i
                } else {
                    i + 1
                };
                let b = if j < at {
                    j
                } else {
                    j + 1
                };
                assert(state_ids(old_states)[a] < state_ids(old_states)[b]);
                assert(states@[i] == old_states[a]);
                assert(states@[j] == old_states[b]);
            }
        }
        self.states = states;
        proof {
            let after = self.states@;
            assert forall|other: u64| other != id@ implies (#[trigger] state_ids(after).contains(
                other,
            )) == state_ids(old_states).contains(other) && (state_ids(old_states).contains(other)
                ==> after[place(after, other)] == old_states[place(old_states, other)]) by {
                if state_ids(old_states).contains(other) {
                    let i = place(old_states, other);
                    assert(0 <= i < old_states.len() && state_ids(old_states)[i] == other);
                    assert(i != at);
                    let j = if i < at {
                        i
                    } else {
                        i - 1
                    };
                    assert(after[j] == old_states[i]);
                    lemma_place(after, j);
                }
                if state_ids(after).contains(other) {
                    let j = place(after, other);
                    assert(0 <= j < after.len() && state_ids(after)[j] == other);
                    let i = if j < at {
                        j
                    } else {
                        j + 1
                    };
                    assert(after[j] == old_states[i]);
                    lemma_place(old_states, i);
                }
            }
            if state_ids(after).contains(id@) {
                let j = place(after, id@);
                assert(0 <= j < after.len() && state_ids(after)[j] == id@);
                let i = if j < at {
                    j
                } else {
                    j + 1
                };
                assert(after[j] == old_states[i]);
                lemma_place(old_states, i);
            }
            assert(self@ =~= before@.remove(id@));
        }
        Some(state)
    }

    /// The identities of the relations, in increasing order.
    pub fn ids(&self) -> (ids: Vec<RelationId>)
        ensures
            lists_ids(raw_ids(ids@), self@.dom()),
            raw_ids(ids@) == id_listing(self@.dom()),
            ids@.len() == raw_ids(ids@).len(),
    {
        proof {
            use_type_invariant(self);
        }
        let mut ids: Vec<RelationId> = Vec::new();
        let mut i: usize = 0;
        while i < self.states.len()
            invariant
                i <= self.states@.len(),
                ids@.len() == i,
                forall|j: int| 0 <= j < i ==> (#[trigger] ids@[j])@ == self.states@[j]@.metadata.id,
            decreases self.states@.len() - i,
        {
            ids.push(self.states[i].metadata().id());
            i = i + 1;
        }
        assert(raw_ids(ids@) =~= state_ids(self.states@));
        assert(raw_ids(ids@).to_set() =~= self@.dom());
        proof {
            lemma_ids_unique(raw_ids(ids@), id_listing(self@.dom()), self@.dom());
        }
        ids
    }

    /// A copy of the relations.
    pub fn copy(&self) -> (copy: RelationStates)
        ensures
            copy@ == self@,
            forall|id: u64|
                self@.contains_key(id) ==> #[trigger] copy.is_radix(id) == self.is_radix(id),
    {
        proof {
            use_type_invariant(self);
        }
        let mut states: Vec<RelationState> = Vec::new();
        let mut i: usize = 0;
        while i < self.states.len()
            invariant
                i <= self.states@.len(),
                states@.len() == i,
                forall|j: int|
                    0 <= j < i ==> (#[trigger] states@[j])@ == self.states@[j]@
                        && states@[j].is_radix() == self.states@[j].is_radix(),
            decreases self.states@.len() - i,
        {
            states.push(self.states[i].snapshot());
            i = i + 1;
        }
        assert(state_ids(states@) =~= state_ids(self.states@));
        let copy = RelationStates { states };
        proof {
            assert forall|id: u64| state_ids(self.states@).contains(id) implies place(
                copy.states@,
                id,
            ) == place(self.states@, id) && 0 <= #[trigger] place(self.states@, id)
                < self.states@.len() by {
                let i = choose|i: int|
                    0 <= i < self.states@.len() && state_ids(self.states@)[i] == id;
                lemma_place(self.states@, i);
                lemma_place(copy.states@, i);
            }
            assert(copy@ =~= self@);
        }
        copy
    }

    /// The first relation with the given name, in the order of identities.
    pub fn get_named(&self, name: &Symbol) -> (found: Option<&RelationState>)
        ensures
            match found {
                Some(state) => {
                    &&& first_named(self@, name@, state@.metadata.id)
                    &&& state@ == self@[state@.metadata.id]
                },
                None => forall|id: u64| #[trigger]
                    self@.contains_key(id) ==> self@[id].metadata.name != name@,
            },
    {
        proof {
            use_type_invariant(self);
        }
        let mut i: usize = 0;
        while i < self.states.len()
            invariant
                i <= self.states@.len(),
                ascending(state_ids(self.states@)),
                forall|j: int|
                    0 <= j < i ==> (#[trigger] self.states@[j])@.metadata.name != name@,
            decreases self.states@.len() - i,
        {
            if self.states[i].metadata().name().same(name) {
                proof {
                    lemma_place(self.states@, i as int);
                    assert forall|id: u64| #[trigger]
                        self@.contains_key(id) && self@[id].metadata.name
                            == name@ implies self.states@[i as int]@.metadata.id <= id by {
                        let j = choose|j: int|
                            0 <= j < self.states@.len() && state_ids(self.states@)[j] == id;
                        lemma_place(self.states@, j);
                        assert(j >= i);
                        if i < j {
                            assert(state_ids(self.states@)[i as int] < state_ids(self.states@)[j]);
                        }
                    }
                }
                return Some(&self.states[i]);
            }
            i = i + 1;
        }
        proof {
            assert forall|id: u64| #[trigger] self@.contains_key(id) implies self@[id].metadata.name
                != name@ by {
                let j = choose|j: int|
                    0 <= j < self.states@.len() && state_ids(self.states@)[j] == id;
                lemma_place(self.states@, j);
            }
        }
        None
    }
}

/// Whether a relation is the one with the lowest identity among those with a name.
pub open spec fn first_named(relations: Map<u64, RelationView>, name: Seq<char>, id: u64) -> bool {
    &&& relations.contains_key(id)
    &&& relations[id].metadata.name == name
    &&& forall|other: u64| #[trigger]
        relations.contains_key(other) && relations[other].metadata.name == name ==> id <= other
}

} // verus!
