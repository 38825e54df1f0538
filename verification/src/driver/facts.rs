//! Named facts and sets of them.

use crate::bytes::Standing;
use crate::table::{entry_keys, entry_map, lemma_entry_map, Keyed, Table};
use crate::tuple::{lemma_row_order_total, lemma_row_order_transitive, row_less, Tuple};
use crate::value::{same_value, Symbol, Value, ValueView};
use vstd::prelude::*;

verus! {

/// A row of a relation that is known by its name.
#[derive(Debug)]
pub struct Fact {
    pub relation: Symbol,
    pub tuple: Tuple,
}

/// What a fact says: the relation's name and the row.
pub type FactView = (Seq<char>, Seq<ValueView>);

impl View for Fact {
    type V = FactView;

    open spec fn view(&self) -> FactView {
        (self.relation@, self.tuple@)
    }
}

impl Keyed for Fact {
    fn same_key(&self, other: &Fact) -> (result: bool) {
        self.relation.same(&other.relation) && self.tuple.same(&other.tuple)
    }

    fn copy_key(&self) -> (copy: Fact) {
        Fact { relation: self.relation.clone(), tuple: self.tuple.clone() }
    }
}

impl Keyed for Value {
    fn same_key(&self, other: &Value) -> (result: bool) {
        same_value(self, other)
    }

    fn copy_key(&self) -> (copy: Value) {
        self.clone()
    }
}

/// A set of facts.
pub type FactSet = Table<Fact, ()>;

/// The facts of a list.
pub open spec fn fact_views(facts: Seq<Fact>) -> Seq<FactView> {
    facts.map_values(|fact: Fact| fact@)
}

/// The set of the facts of a list.
pub fn fact_set(facts: &[Fact]) -> (set: FactSet)
    ensures
        set@.dom() == fact_views(facts@).to_set(),
{
    let mut set: FactSet = Table::new();
    let mut i: usize = 0;
    assert(set@.dom() =~= fact_views(facts@.take(0)).to_set());
    while i < facts.len()
        invariant
            i <= facts@.len(),
            set@.dom() == fact_views(facts@.take(i as int)).to_set(),
        decreases facts@.len() - i,
    {
        let ghost seen = fact_views(facts@.take(i as int));
        let fact = facts[i].copy_key();
        let _ = set.insert(fact, ());
        i = i + 1;
        proof {
            let next = fact_views(facts@.take(i as int));
            assert(next =~= seen.push(facts@[i - 1]@));
            assert(next.to_set() =~= seen.to_set().insert(facts@[i - 1]@)) by {
                lemma_push_to_set(seen, facts@[i - 1]@);
            }
            assert(set@.dom() =~= next.to_set());
        }
    }
    assert(facts@.take(i as int) =~= facts@);
    set
}

/// Whether a fact is the first that a set lacks: of the relation that the first such fact of the
/// list names, the one whose row comes first.
pub open spec fn first_lacking(list: Seq<FactView>, set: Set<FactView>, fact: FactView) -> bool {
    &&& list.contains(fact)
    &&& !set.contains(fact)
    &&& exists|k: int|
        {
            &&& 0 <= k < list.len()
            &&& (#[trigger] list[k]).0 == fact.0
            &&& !set.contains(list[k])
            &&& forall|i: int| 0 <= i < k ==> set.contains(#[trigger] list[i])
        }
    &&& forall|i: int|
        0 <= i < list.len() && (#[trigger] list[i]).0 == fact.0 && !set.contains(list[i]) ==> list[i]
            == fact || row_less(fact.1, list[i].1)
}

/// The first fact that a set lacks.
pub fn find_lacking(facts: &[Fact], set: &FactSet) -> (found: Option<Fact>)
    ensures
        match found {
            Some(fact) => first_lacking(fact_views(facts@), set@.dom(), fact@),
            None => fact_views(facts@).to_set().subset_of(set@.dom()),
        },
{
    let ghost list = fact_views(facts@);
    let mut best: Option<usize> = None;
    let ghost mut first: int = 0;
    let mut i: usize = 0;
    while i < facts.len()
        invariant
            i <= facts@.len(),
            list == fact_views(facts@),
            match best {
                None => forall|j: int| 0 <= j < i ==> set@.dom().contains(#[trigger] list[j]),
                Some(b) => {
                    &&& b < i
                    &&& 0 <= first < i
                    &&& list[first].0 == list[b as int].0
                    &&& !set@.dom().contains(list[first])
                    &&& !set@.dom().contains(list[b as int])
                    &&& forall|j: int| 0 <= j < first ==> set@.dom().contains(#[trigger] list[j])
                    &&& forall|j: int|
                        0 <= j < i && (#[trigger] list[j]).0 == list[b as int].0
                            && !set@.dom().contains(list[j]) ==> list[j] == list[b as int]
                            || row_less(list[b as int].1, list[j].1)
                },
            },
        decreases facts@.len() - i,
    {
        let fact = &facts[i];
        assert(list[i as int] == fact@);
        if !set.contains(fact) {
            match best {
                None => {
                    best = Some(i);
                    proof {
                        first = i as int;
                    }
                },
                Some(b) => {
                    assert(list[b as int] == facts@[b as int]@);
                    if fact.relation.same(&facts[b].relation) {
                        proof {
                            lemma_row_order_total(fact@.1, list[b as int].1);
                        }
                        match facts[b].tuple.compare(&fact.tuple) {
                            Standing::After => {
                                proof {
                                    assert forall|j: int|
                                        0 <= j < i && (#[trigger] list[j]).0 == fact@.0
                                            && !set@.dom().contains(list[j]) implies row_less(
                                        fact@.1,
                                        list[j].1,
                                    ) by {
                                        if list[j] != list[b as int] {
                                            lemma_row_order_transitive(
                                                fact@.1,
                                                list[b as int].1,
                                                list[j].1,
                                            );
                                        }
                                    }
                                }
                                best = Some(i);
                            },
                            _ => {},
                        }
                    }
                },
            }
        }
        i = i + 1;
    }
    match best {
        None => {
            assert forall|f: FactView| list.to_set().contains(f) implies set@.dom().contains(f) by {
                let j = choose|j: int| 0 <= j < list.len() && list[j] == f;
            }
            None
        },
        Some(b) => {
            assert(list[b as int] == facts@[b as int]@);
            assert(list[first].0 == list[b as int].0);
            Some(facts[b].copy_key())
        },
    }
}

/// Pushing an element adds it to the set of elements.
pub proof fn lemma_push_to_set<A>(s: Seq<A>, a: A)
    ensures
        s.push(a).to_set() == s.to_set().insert(a),
{
    assert forall|x: A| #[trigger] s.push(a).to_set().contains(x) <==> s.to_set().insert(
        a,
    ).contains(x) by {
        if s.contains(x) {
            let i = choose|i: int| 0 <= i < s.len() && s[i] == x;
            assert(s.push(a)[i] == x);
        }
        if x == a {
            assert(s.push(a)[s.len() as int] == x);
        }
        if s.push(a).contains(x) {
            let i = choose|i: int| 0 <= i < s.push(a).len() && s.push(a)[i] == x;
            if i < s.len() {
                assert(s[i] == x);
            }
        }
    }
    assert(s.push(a).to_set() =~= s.to_set().insert(a));
}

/// The facts of the first `n` entries.
pub open spec fn first_facts<V>(entries: Seq<(Fact, V)>, n: int) -> Set<FactView> {
    entry_keys(entries).take(n).to_set()
}

/// Going one entry further adds one fact that was not there.
pub proof fn lemma_first_facts<V>(entries: Seq<(Fact, V)>, n: int)
    requires
        entry_keys(entries).no_duplicates(),
        0 <= n < entries.len(),
    ensures
        first_facts(entries, n + 1) == first_facts(entries, n).insert(entries[n].0@),
        !first_facts(entries, n).contains(entries[n].0@),
        entry_map(entries).contains_key(entries[n].0@),
        entry_map(entries)[entries[n].0@] == entries[n].1,
{
    let keys = entry_keys(entries);
    assert(keys.take(n + 1) =~= keys.take(n).push(keys[n]));
    lemma_push_to_set(keys.take(n), keys[n]);
    if keys.take(n).contains(keys[n]) {
        let i = choose|i: int| 0 <= i < n && keys.take(n)[i] == keys[n];
        assert(keys[i] == keys[n]);
    }
    lemma_entry_map(entries);
}

/// The first no entries hold no facts, and all of them hold all.
pub proof fn lemma_all_facts<V>(entries: Seq<(Fact, V)>)
    requires
        entry_keys(entries).no_duplicates(),
    ensures
        first_facts(entries, 0) == Set::<FactView>::empty(),
        first_facts(entries, entries.len() as int) == entry_map(entries).dom(),
{
    let keys = entry_keys(entries);
    assert(first_facts(entries, 0) =~= Set::<FactView>::empty());
    assert(keys.take(entries.len() as int) =~= keys);
    assert(first_facts(entries, entries.len() as int) =~= entry_map(entries).dom());
}

/// A copy of a set of facts.
pub fn copy_facts(set: &FactSet) -> (copy: FactSet)
    ensures
        copy@.dom() == set@.dom(),
{
    let mut copy: FactSet = Table::new();
    add_facts(&mut copy, set);
    assert(copy@.dom() =~= set@.dom());
    copy
}

/// Adds the facts of one set to another.
pub fn add_facts(set: &mut FactSet, more: &FactSet)
    ensures
        final(set)@.dom() == old(set)@.dom().union(more@.dom()),
{
    let entries = more.entries();
    let mut i: usize = 0;
    proof {
        lemma_all_facts(entries@);
        assert(set@.dom() =~= old(set)@.dom().union(first_facts(entries@, 0)));
    }
    while i < entries.len()
        invariant
            entry_keys(entries@).no_duplicates(),
            i <= entries@.len(),
            set@.dom() == old(set)@.dom().union(first_facts(entries@, i as int)),
        decreases entries@.len() - i,
    {
        proof {
            lemma_first_facts(entries@, i as int);
        }
        let fact = entries[i].0.copy_key();
        let _ = set.insert(fact, ());
        i = i + 1;
        assert(set@.dom() =~= old(set)@.dom().union(first_facts(entries@, i as int)));
    }
    proof {
        lemma_all_facts(entries@);
    }
}

/// The facts of one set that another lacks.
pub fn without(set: &FactSet, other: &FactSet) -> (rest: FactSet)
    ensures
        rest@.dom() == set@.dom().difference(other@.dom()),
{
    let entries = set.entries();
    let mut rest: FactSet = Table::new();
    let mut i: usize = 0;
    proof {
        lemma_all_facts(entries@);
        assert(rest@.dom() =~= first_facts(entries@, 0).difference(other@.dom()));
    }
    while i < entries.len()
        invariant
            entry_keys(entries@).no_duplicates(),
            i <= entries@.len(),
            rest@.dom() == first_facts(entries@, i as int).difference(other@.dom()),
        decreases entries@.len() - i,
    {
        proof {
            lemma_first_facts(entries@, i as int);
        }
        if !other.contains(&entries[i].0) {
            let fact = entries[i].0.copy_key();
            let _ = rest.insert(fact, ());
        }
        i = i + 1;
        assert(rest@.dom() =~= first_facts(entries@, i as int).difference(other@.dom()));
    }
    proof {
        lemma_all_facts(entries@);
    }
    rest
}

} // verus!
