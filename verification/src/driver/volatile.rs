//! Facts that endpoints hold for as long as they are open.
//!
//! A fact may be held by several endpoints, and by several scopes of one. The
//! driver asserts a fact for its first holder unless it was there before, and
//! retracts it with the last holder only where the driver had asserted it.

use crate::driver::facts::{add_facts, copy_facts, first_facts, lemma_all_facts, lemma_first_facts,
    without, Fact, FactSet, FactView};
use crate::table::{entry_keys, entry_map, lemma_entry_map, Keyed, Table};
use crate::value::{Identity, Symbol, Value, ValueView};
use vstd::prelude::*;

verus! {

/// How many endpoints hold a fact, and whether the driver asserted it.
#[derive(Clone, Copy, Debug, PartialEq, Eq, Structural)]
pub struct VolatileFactOwnership {
    pub owners: usize,
    pub asserted_by_driver: bool,
}

/// Who holds which facts.
pub type Owners = Map<FactView, VolatileFactOwnership>;

/// The owners after one more endpoint comes to hold `facts`; those that nobody held
/// are asserted by the driver where `asserted` has them.
pub open spec fn gain(owners: Owners, facts: Set<FactView>, asserted: Set<FactView>) -> Owners {
    Map::new(
        |f: FactView| owners.contains_key(f) || facts.contains(f),
        |f: FactView|
            if !facts.contains(f) {
                owners[f]
            } else if owners.contains_key(f) {
                VolatileFactOwnership { owners: (owners[f].owners + 1) as usize, ..owners[f] }
            } else {
                VolatileFactOwnership { owners: 1, asserted_by_driver: asserted.contains(f) }
            },
    )
}

/// The owners after one endpoint ceases to hold `facts`.
pub open spec fn lose(owners: Owners, facts: Set<FactView>) -> Owners {
    Map::new(
        |f: FactView| owners.contains_key(f) && !(facts.contains(f) && owners[f].owners <= 1),
        |f: FactView|
            if facts.contains(f) {
                VolatileFactOwnership { owners: (owners[f].owners - 1) as usize, ..owners[f] }
            } else {
                owners[f]
            },
    )
}

/// The facts among `facts` that go with their last holder.
pub open spec fn last_held(owners: Owners, facts: Set<FactView>) -> Set<FactView> {
    facts.filter(
        |f: FactView|
            owners.contains_key(f) && owners[f].owners == 1 && owners[f].asserted_by_driver,
    )
}

/// The facts among `facts` that nobody holds yet.
pub open spec fn unheld(owners: Owners, facts: Set<FactView>) -> Set<FactView> {
    facts.filter(|f: FactView| !owners.contains_key(f))
}

/// Notes one more holder of each of `facts`.
fn gain_facts(
    owners: &mut Table<Fact, VolatileFactOwnership>,
    facts: &FactSet,
    asserted: &FactSet,
)
    requires
        forall|f: FactView| #[trigger]
            facts@.contains_key(f) && old(owners)@.contains_key(f) ==> old(owners)@[f].owners
                < usize::MAX,
    ensures
        final(owners)@ == gain(old(owners)@, facts@.dom(), asserted@.dom()),
{
    let entries = facts.entries();
    let ghost start = owners@;
    let mut i: usize = 0;
    proof {
        lemma_all_facts(entries@);
        assert(owners@ =~= gain(start, first_facts(entries@, 0), asserted@.dom()));
    }
    while i < entries.len()
        invariant
            entry_keys(entries@).no_duplicates(),
            i <= entries@.len(),
            facts@ == entry_map(entries@),
            forall|f: FactView| #[trigger]
                facts@.contains_key(f) && start.contains_key(f) ==> start[f].owners < usize::MAX,
            owners@ == gain(start, first_facts(entries@, i as int), asserted@.dom()),
        decreases entries@.len() - i,
    {
        proof {
            lemma_first_facts(entries@, i as int);
        }
        let fact = &entries[i].0;
        let known: Option<VolatileFactOwnership> = match owners.get(fact) {
            Some(owner) => Some(*owner),
            None => None,
        };
        let next: VolatileFactOwnership = match known {
            Some(owner) => VolatileFactOwnership {
                owners: owner.owners + 1,
                asserted_by_driver: owner.asserted_by_driver,
            },
            None => VolatileFactOwnership {
                owners: 1,
                asserted_by_driver: asserted.contains(fact),
            },
        };
        let key = fact.copy_key();
        let _ = owners.insert(key, next);
        i = i + 1;
        assert(owners@ =~= gain(start, first_facts(entries@, i as int), asserted@.dom()));
    }
    proof {
        lemma_all_facts(entries@);
    }
}

/// Notes one holder less of each of `facts`.
fn lose_facts(owners: &mut Table<Fact, VolatileFactOwnership>, facts: &FactSet)
    requires
        forall|f: FactView| #[trigger]
            old(owners)@.contains_key(f) ==> old(owners)@[f].owners > 0,
    ensures
        final(owners)@ == lose(old(owners)@, facts@.dom()),
{
    let entries = facts.entries();
    let ghost start = owners@;
    let mut i: usize = 0;
    proof {
        lemma_all_facts(entries@);
        assert(owners@ =~= lose(start, first_facts(entries@, 0)));
    }
    while i < entries.len()
        invariant
            entry_keys(entries@).no_duplicates(),
            i <= entries@.len(),
            forall|f: FactView| #[trigger] start.contains_key(f) ==> start[f].owners > 0,
            owners@ == lose(start, first_facts(entries@, i as int)),
        decreases entries@.len() - i,
    {
        proof {
            lemma_first_facts(entries@, i as int);
        }
        let fact = &entries[i].0;
        let known: Option<VolatileFactOwnership> = match owners.get(fact) {
            Some(owner) => Some(*owner),
            None => None,
        };
        match known {
            None => {},
            Some(owner) => {
                if owner.owners == 1 {
                    let _ = owners.remove(fact);
                } else {
                    let key = fact.copy_key();
                    let _ = owners.insert(
                        key,
                        VolatileFactOwnership {
                            owners: owner.owners - 1,
                            asserted_by_driver: owner.asserted_by_driver,
                        },
                    );
                }
            },
        }
        i = i + 1;
        assert(owners@ =~= lose(start, first_facts(entries@, i as int)));
    }
    proof {
        lemma_all_facts(entries@);
    }
}

/// The facts of a set that go with their last holder.
fn last_held_facts(owners: &Table<Fact, VolatileFactOwnership>, facts: &FactSet) -> (gone: FactSet)
    ensures
        gone@.dom() == last_held(owners@, facts@.dom()),
{
    let entries = facts.entries();
    let mut gone: FactSet = Table::new();
    let mut i: usize = 0;
    proof {
        lemma_all_facts(entries@);
        assert(gone@.dom() =~= last_held(owners@, first_facts(entries@, 0)));
    }
    while i < entries.len()
        invariant
            entry_keys(entries@).no_duplicates(),
            i <= entries@.len(),
            gone@.dom() == last_held(owners@, first_facts(entries@, i as int)),
        decreases entries@.len() - i,
    {
        proof {
            lemma_first_facts(entries@, i as int);
        }
        let fact = &entries[i].0;
        let last: bool = match owners.get(fact) {
            Some(owner) => owner.owners == 1 && owner.asserted_by_driver,
            None => false,
        };
        if last {
            let key = fact.copy_key();
            let _ = gone.insert(key, ());
        }
        i = i + 1;
        assert(gone@.dom() =~= last_held(owners@, first_facts(entries@, i as int)));
    }
    proof {
        lemma_all_facts(entries@);
    }
    gone
}

/// The facts of a set that nobody holds yet.
fn unheld_facts(owners: &Table<Fact, VolatileFactOwnership>, facts: &FactSet) -> (rest: FactSet)
    ensures
        rest@.dom() == unheld(owners@, facts@.dom()),
{
    let entries = facts.entries();
    let mut rest: FactSet = Table::new();
    let mut i: usize = 0;
    proof {
        lemma_all_facts(entries@);
        assert(rest@.dom() =~= unheld(owners@, first_facts(entries@, 0)));
    }
    while i < entries.len()
        invariant
            entry_keys(entries@).no_duplicates(),
            i <= entries@.len(),
            rest@.dom() == unheld(owners@, first_facts(entries@, i as int)),
        decreases entries@.len() - i,
    {
        proof {
            lemma_first_facts(entries@, i as int);
        }
        let fact = &entries[i].0;
        if !owners.contains(fact) {
            let key = fact.copy_key();
            let _ = rest.insert(key, ());
        }
        i = i + 1;
        assert(rest@.dom() =~= unheld(owners@, first_facts(entries@, i as int)));
    }
    proof {
        lemma_all_facts(entries@);
    }
    rest
}

/// What an open endpoint holds.
#[derive(Debug)]
pub struct EndpointResources {
    scopes: Table<Symbol, FactSet>,
    subscriptions: Table<Value, ()>,
}

/// What an open endpoint holds: facts by scope, and subscriptions.
pub struct EndpointView {
    pub scopes: Map<Seq<char>, Set<FactView>>,
    pub subscriptions: Set<ValueView>,
}

impl EndpointView {
    /// The facts that the endpoint holds in some scope.
    pub open spec fn owned(self) -> Set<FactView> {
        Set::new(
            |f: FactView|
                exists|s: Seq<char>| #[trigger]
                    self.scopes.contains_key(s) && self.scopes[s].contains(f),
        )
    }

    /// The facts that the endpoint holds in scopes other than `scope`.
    pub open spec fn owned_elsewhere(self, scope: Seq<char>) -> Set<FactView> {
        Set::new(
            |f: FactView|
                exists|s: Seq<char>| #[trigger]
                    self.scopes.contains_key(s) && s != scope && self.scopes[s].contains(f),
        )
    }

    /// The facts that the endpoint holds in `scope`.
    pub open spec fn in_scope(self, scope: Seq<char>) -> Set<FactView> {
        if self.scopes.contains_key(scope) {
            self.scopes[scope]
        } else {
            Set::empty()
        }
    }

    /// The endpoint with the facts of one scope replaced.
    pub open spec fn with_scope(self, scope: Seq<char>, facts: Set<FactView>) -> EndpointView {
        EndpointView { scopes: self.scopes.insert(scope, facts), ..self }
    }
}

impl View for EndpointResources {
    type V = EndpointView;

    closed spec fn view(&self) -> EndpointView {
        EndpointView {
            scopes: self.scopes@.map_values(|facts: FactSet| facts@.dom()),
            subscriptions: self.subscriptions@.dom(),
        }
    }
}

/// Open endpoints and the facts that they hold.
pub struct HeldView {
    pub endpoints: Map<u64, EndpointView>,
    pub owners: Owners,
}

impl HeldView {
    /// The endpoints that hold a fact.
    pub open spec fn holders(self, fact: FactView) -> Set<u64> {
        self.endpoints.dom().filter(|e: u64| self.endpoints[e].owned().contains(fact))
    }

    /// Whether each fact has as many owners on record as endpoints hold it.
    pub open spec fn wf(self) -> bool {
        &&& self.endpoints.dom().finite()
        &&& forall|f: FactView| #[trigger]
            self.owners.contains_key(f) <==> self.holders(f).len() > 0
        &&& forall|f: FactView| #[trigger]
            self.owners.contains_key(f) ==> self.owners[f].owners == self.holders(f).len()
    }

    /// What an endpoint holds, also where it is not open.
    pub open spec fn held_by(self, endpoint: u64) -> Set<FactView> {
        if self.endpoints.contains_key(endpoint) {
            self.endpoints[endpoint].owned()
        } else {
            Set::empty()
        }
    }
}

proof fn lemma_holders_bound(held: HeldView, fact: FactView)
    requires
        held.endpoints.dom().finite(),
    ensures
        held.holders(fact).finite(),
        held.holders(fact).len() <= held.endpoints.dom().len(),
        forall|e: u64|
            held.endpoints.contains_key(e) && !held.holders(fact).contains(e)
                ==> held.holders(fact).len() < held.endpoints.dom().len(),
        forall|e: u64| #[trigger] held.holders(fact).contains(e) ==> held.holders(fact).len() > 0,
        held.holders(fact).len() > 0 ==> exists|e: u64| held.holders(fact).contains(e),
{
    let holders = held.holders(fact);
    let dom = held.endpoints.dom();
    dom.lemma_len_filter(|e: u64| held.endpoints[e].owned().contains(fact));
    assert forall|e: u64|
        held.endpoints.contains_key(e) && !holders.contains(e) implies holders.len() < dom.len() by {
        vstd::set_lib::lemma_len_subset(holders, dom.remove(e));
    }
    assert forall|e: u64| #[trigger] holders.contains(e) implies holders.len() > 0 by {
        if holders.len() == 0 {
            assert(holders =~= Set::empty());
        }
    }
    if holders.len() > 0 {
        assert(holders.contains(holders.choose()));
    }
}

/// Letting an endpoint hold other facts than before keeps the record right.
proof fn lemma_endpoint_set(
    held: HeldView,
    endpoint: u64,
    next: EndpointView,
    asserted: Set<FactView>,
)
    requires
        held.wf(),
        held.endpoints.dom().len() < usize::MAX || held.endpoints.contains_key(endpoint),
        held.endpoints.dom().len() <= usize::MAX,
    ensures
        ({
            let lost = held.held_by(endpoint).difference(next.owned());
            let gained = next.owned().difference(held.held_by(endpoint));
            HeldView {
                endpoints: held.endpoints.insert(endpoint, next),
                owners: gain(lose(held.owners, lost), gained, asserted),
            }.wf()
        }),
{
    let before = held.held_by(endpoint);
    let after = next.owned();
    let lost = before.difference(after);
    let gained = after.difference(before);
    let reduced = lose(held.owners, lost);
    let new = HeldView {
        endpoints: held.endpoints.insert(endpoint, next),
        owners: gain(reduced, gained, asserted),
    };
    assert(new.endpoints.dom() =~= held.endpoints.dom().insert(endpoint));
    assert forall|f: FactView|
        (#[trigger] new.owners.contains_key(f) <==> new.holders(f).len() > 0) && (
        new.owners.contains_key(f) ==> new.owners[f].owners == new.holders(f).len()) by {
        lemma_holders_bound(held, f);
        lemma_holders_bound(new, f);
        let old_holders = held.holders(f);
        let new_holders = new.holders(f);
        assert(held.owners.contains_key(f) <==> old_holders.len() > 0);
        assert(old_holders.contains(endpoint) <==> before.contains(f));
        assert(new_holders.contains(endpoint) <==> after.contains(f));
        if lost.contains(f) {
            assert(new_holders =~= old_holders.remove(endpoint));
        } else if gained.contains(f) {
            assert(new_holders =~= old_holders.insert(endpoint));
        } else {
            assert(new_holders =~= old_holders);
        }
    }
}

/// Closing an endpoint keeps the record right.
proof fn lemma_endpoint_removed(held: HeldView, endpoint: u64)
    requires
        held.wf(),
    ensures
        ({
            HeldView {
                endpoints: held.endpoints.remove(endpoint),
                owners: lose(held.owners, held.held_by(endpoint)),
            }.wf()
        }),
{
    let before = held.held_by(endpoint);
    let new = HeldView {
        endpoints: held.endpoints.remove(endpoint),
        owners: lose(held.owners, before),
    };
    assert(new.endpoints.dom() =~= held.endpoints.dom().remove(endpoint));
    assert forall|f: FactView|
        (#[trigger] new.owners.contains_key(f) <==> new.holders(f).len() > 0) && (
        new.owners.contains_key(f) ==> new.owners[f].owners == new.holders(f).len()) by {
        lemma_holders_bound(held, f);
        lemma_holders_bound(new, f);
        let old_holders = held.holders(f);
        let new_holders = new.holders(f);
        assert(held.owners.contains_key(f) <==> old_holders.len() > 0);
        assert(old_holders.contains(endpoint) <==> before.contains(f));
        if before.contains(f) {
            assert(new_holders =~= old_holders.remove(endpoint));
        } else {
            assert(new_holders =~= old_holders);
        }
    }
}

/// Whether one of the first `n` scopes that `keep` admits holds `fact`.
spec fn in_first_scopes(
    scopes: Seq<(Symbol, FactSet)>,
    n: int,
    skipped: Option<Seq<char>>,
    fact: FactView,
) -> bool {
    exists|j: int|
        0 <= j < n && skipped != Some((#[trigger] scopes[j]).0@) && scopes[j].1@.dom().contains(fact)
}

fn scope_union(scopes: &Table<Symbol, FactSet>, skipped: Option<&Symbol>) -> (facts: FactSet)
    ensures
        facts@.dom() == Set::new(
            |f: FactView|
                exists|s: Seq<char>| #[trigger]
                    scopes@.contains_key(s) && skipped_name(skipped) != Some(s)
                        && scopes@[s]@.dom().contains(f),
        ),
{
    let entries = scopes.entries();
    let ghost skip = skipped_name(skipped);
    let mut facts: FactSet = Table::new();
    let mut i: usize = 0;
    while i < entries.len()
        invariant
            i <= entries@.len(),
            skip == skipped_name(skipped),
            forall|f: FactView| #[trigger]
                facts@.dom().contains(f) <==> in_first_scopes(entries@, i as int, skip, f),
        decreases entries@.len() - i,
    {
        let ghost before = facts@.dom();
        let skip_this: bool = match skipped {
            Some(name) => name.same(&entries[i].0),
            None => false,
        };
        if !skip_this {
            add_facts(&mut facts, &entries[i].1);
        }
        i = i + 1;
        assert forall|f: FactView| #[trigger]
            facts@.dom().contains(f) <==> in_first_scopes(entries@, i as int, skip, f) by {
            assert(before.contains(f) <==> in_first_scopes(entries@, i - 1, skip, f));
            if in_first_scopes(entries@, i - 1, skip, f) {
                let j = choose|j: int|
                    0 <= j < i - 1 && skip != Some((#[trigger] entries@[j]).0@)
                        && entries@[j].1@.dom().contains(f);
                assert(skip != Some(entries@[j].0@));
            }
            if !skip_this && entries@[i - 1].1@.dom().contains(f) {
                assert(skip != Some(entries@[i - 1].0@));
            }
        }
    }
    proof {
        lemma_entry_map(entries@);
        let all = Set::new(
            |f: FactView|
                exists|s: Seq<char>| #[trigger]
                    scopes@.contains_key(s) && skip != Some(s) && scopes@[s]@.dom().contains(f),
        );
        assert forall|f: FactView| #[trigger] facts@.dom().contains(f) <==> all.contains(f) by {
            if in_first_scopes(entries@, i as int, skip, f) {
                let j = choose|j: int|
                    0 <= j < i && skip != Some((#[trigger] entries@[j]).0@)
                        && entries@[j].1@.dom().contains(f);
                assert(scopes@.contains_key(entries@[j].0@));
            }
            if all.contains(f) {
                let s = choose|s: Seq<char>| #[trigger]
                    scopes@.contains_key(s) && skip != Some(s) && scopes@[s]@.dom().contains(f);
                let j = choose|j: int| 0 <= j < entries@.len() && (#[trigger] entries@[j]).0@ == s;
                assert(skip != Some(entries@[j].0@));
                assert(in_first_scopes(entries@, i as int, skip, f));
            }
        }
        assert(facts@.dom() =~= all);
    }
    facts
}

/// The name of a scope that is left out.
pub open spec fn skipped_name(skipped: Option<&Symbol>) -> Option<Seq<char>> {
    match skipped {
        Some(name) => Some(name@),
        None => None,
    }
}

impl EndpointResources {
    /// Resources that hold `facts` in the scope `scope`.
    pub fn with_facts(scope: &str, facts: FactSet) -> (resources: EndpointResources)
        ensures
            resources@ == (EndpointView {
                scopes: Map::empty().insert(scope@, facts@.dom()),
                subscriptions: Set::empty(),
            }),
    {
        let mut scopes: Table<Symbol, FactSet> = Table::new();
        let _ = scopes.insert(Symbol::intern(scope), facts);
        let resources = EndpointResources { scopes, subscriptions: Table::new() };
        assert(resources@.scopes =~= Map::empty().insert(scope@, facts@.dom()));
        assert(resources@.subscriptions =~= Set::empty());
        resources
    }

    /// The facts held in some scope.
    pub fn owned(&self) -> (facts: FactSet)
        ensures
            facts@.dom() == self@.owned(),
    {
        let facts = scope_union(&self.scopes, None);
        proof {
            assert forall|f: FactView| #[trigger] facts@.dom().contains(f) <==> self@.owned().contains(
                f,
            ) by {
                if facts@.dom().contains(f) {
                    let s = choose|s: Seq<char>| #[trigger]
                        self.scopes@.contains_key(s) && self.scopes@[s]@.dom().contains(f);
                    assert(self@.scopes.contains_key(s) && self@.scopes[s].contains(f));
                }
                if self@.owned().contains(f) {
                    let s = choose|s: Seq<char>| #[trigger]
                        self@.scopes.contains_key(s) && self@.scopes[s].contains(f);
                    assert(self.scopes@.contains_key(s) && self.scopes@[s]@.dom().contains(f));
                }
            }
            assert(facts@.dom() =~= self@.owned());
        }
        facts
    }

    /// The facts held in scopes other than `scope`.
    pub fn owned_elsewhere(&self, scope: &Symbol) -> (facts: FactSet)
        ensures
            facts@.dom() == self@.owned_elsewhere(scope@),
    {
        let facts = scope_union(&self.scopes, Some(scope));
        proof {
            assert forall|f: FactView| #[trigger] facts@.dom().contains(f)
                <==> self@.owned_elsewhere(scope@).contains(f) by {
                if facts@.dom().contains(f) {
                    let s = choose|s: Seq<char>| #[trigger]
                        self.scopes@.contains_key(s) && Some(scope@) != Some(s)
                            && self.scopes@[s]@.dom().contains(f);
                    assert(self@.scopes.contains_key(s) && self@.scopes[s].contains(f));
                }
                if self@.owned_elsewhere(scope@).contains(f) {
                    let s = choose|s: Seq<char>| #[trigger]
                        self@.scopes.contains_key(s) && s != scope@ && self@.scopes[s].contains(f);
                    assert(self.scopes@.contains_key(s) && self.scopes@[s]@.dom().contains(f));
                }
            }
            assert(facts@.dom() =~= self@.owned_elsewhere(scope@));
        }
        facts
    }

    /// The facts held in `scope`.
    pub fn in_scope(&self, scope: &Symbol) -> (facts: FactSet)
        ensures
            facts@.dom() == self@.in_scope(scope@),
    {
        match self.scopes.get(scope) {
            Some(facts) => copy_facts(facts),
            None => {
                let facts: FactSet = Table::new();
                assert(facts@.dom() =~= Set::empty());
                facts
            },
        }
    }

    /// Replaces the facts of a scope.
    pub fn set_scope(&mut self, scope: Symbol, facts: FactSet)
        ensures
            final(self)@ == old(self)@.with_scope(scope@, facts@.dom()),
    {
        let _ = self.scopes.insert(scope, facts);
        assert(self@.scopes =~= old(self)@.scopes.insert(scope@, facts@.dom()));
    }

    /// Notes a subscription.
    pub fn add_subscription(&mut self, subscription: Value)
        ensures
            final(self)@ == (EndpointView {
                subscriptions: old(self)@.subscriptions.insert(subscription@),
                ..old(self)@
            }),
    {
        let _ = self.subscriptions.insert(subscription, ());
        assert(self@.subscriptions =~= old(self)@.subscriptions.insert(subscription@));
    }

    /// Forgets a subscription.
    pub fn drop_subscription(&mut self, subscription: &Value)
        ensures
            final(self)@ == (EndpointView {
                subscriptions: old(self)@.subscriptions.remove(subscription@),
                ..old(self)@
            }),
    {
        let _ = self.subscriptions.remove(subscription);
        assert(self@.subscriptions =~= old(self)@.subscriptions.remove(subscription@));
    }

    /// The subscriptions.
    pub fn subscriptions(&self) -> (table: &Table<Value, ()>)
        ensures
            table@.dom() == self@.subscriptions,
    {
        &self.subscriptions
    }
}

/// With one scope's facts replaced, an endpoint holds those and the facts of its
/// other scopes.
pub proof fn lemma_owned_with_scope(resources: EndpointView, scope: Seq<char>, facts: Set<FactView>)
    ensures
        resources.with_scope(scope, facts).owned() == facts.union(resources.owned_elsewhere(scope)),
        resources.owned() == resources.in_scope(scope).union(resources.owned_elsewhere(scope)),
{
    let next = resources.with_scope(scope, facts);
    assert forall|f: FactView| #[trigger] next.owned().contains(f) <==> facts.union(
        resources.owned_elsewhere(scope),
    ).contains(f) by {
        if next.owned().contains(f) {
            let s = choose|s: Seq<char>| #[trigger]
                next.scopes.contains_key(s) && next.scopes[s].contains(f);
            if s != scope {
                assert(resources.scopes.contains_key(s) && s != scope && resources.scopes[s].contains(
                    f,
                ));
            }
        }
        if facts.contains(f) {
            assert(next.scopes.contains_key(scope) && next.scopes[scope].contains(f));
        }
        if resources.owned_elsewhere(scope).contains(f) {
            let s = choose|s: Seq<char>| #[trigger]
                resources.scopes.contains_key(s) && s != scope && resources.scopes[s].contains(f);
            assert(next.scopes.contains_key(s) && next.scopes[s].contains(f));
        }
    }
    assert(next.owned() =~= facts.union(resources.owned_elsewhere(scope)));
    assert forall|f: FactView| #[trigger] resources.owned().contains(f) <==> resources.in_scope(
        scope,
    ).union(resources.owned_elsewhere(scope)).contains(f) by {
        if resources.owned().contains(f) {
            let s = choose|s: Seq<char>| #[trigger]
                resources.scopes.contains_key(s) && resources.scopes[s].contains(f);
            if s != scope {
                assert(resources.scopes.contains_key(s) && s != scope && resources.scopes[s].contains(
                    f,
                ));
            }
        }
        if resources.in_scope(scope).contains(f) {
            assert(resources.scopes.contains_key(scope) && resources.scopes[scope].contains(f));
        }
        if resources.owned_elsewhere(scope).contains(f) {
            let s = choose|s: Seq<char>| #[trigger]
                resources.scopes.contains_key(s) && s != scope && resources.scopes[s].contains(f);
            assert(resources.scopes.contains_key(s) && resources.scopes[s].contains(f));
        }
    }
    assert(resources.owned() =~= resources.in_scope(scope).union(resources.owned_elsewhere(scope)));
}

/// The raw numbers of identities.
pub open spec fn identity_views(identities: Seq<Identity>) -> Seq<u64> {
    identities.map_values(|identity: Identity| identity@)
}

/// Open endpoints and the record of who holds which fact.
#[derive(Debug)]
pub struct VolatileFacts {
    endpoints: Table<Identity, EndpointResources>,
    owners: Table<Fact, VolatileFactOwnership>,
}

impl View for VolatileFacts {
    type V = HeldView;

    closed spec fn view(&self) -> HeldView {
        HeldView {
            endpoints: self.endpoints@.map_values(|resources: EndpointResources| resources@),
            owners: self.owners@,
        }
    }
}

/// What replacing the facts of a scope comes to: the facts to retract, and those
/// that nobody holds yet, of which the absent ones are to be asserted.
#[derive(Debug)]
pub struct ScopeChange {
    pub retract: FactSet,
    pub unheld: FactSet,
}

/// The facts that an endpoint ceases to hold when `scope` comes to hold `next`.
pub open spec fn scope_lost(
    resources: EndpointView,
    scope: Seq<char>,
    next: Set<FactView>,
) -> Set<FactView> {
    resources.owned().difference(resources.with_scope(scope, next).owned())
}

/// The facts that an endpoint comes to hold when `scope` comes to hold `next`.
pub open spec fn scope_gained(
    resources: EndpointView,
    scope: Seq<char>,
    next: Set<FactView>,
) -> Set<FactView> {
    resources.with_scope(scope, next).owned().difference(resources.owned())
}

/// The facts of `unheld` for which `present` says that they are not there.
pub fn absent_facts(unheld: &FactSet, present: &[bool]) -> (absent: FactSet)
    requires
        present@.len() == unheld.listing().len(),
    ensures
        forall|f: FactView| #[trigger]
            absent@.contains_key(f) <==> exists|i: int|
                0 <= i < present@.len() && (#[trigger] unheld.listing()[i]).0@ == f && !present@[i],
{
    let entries = unheld.entries();
    let mut absent: FactSet = Table::new();
    let mut i: usize = 0;
    while i < entries.len()
        invariant
            entries@ == unheld.listing(),
            present@.len() == entries@.len(),
            i <= entries@.len(),
            forall|f: FactView| #[trigger]
                absent@.contains_key(f) <==> exists|j: int|
                    0 <= j < i && (#[trigger] entries@[j]).0@ == f && !present@[j],
        decreases entries@.len() - i,
    {
        let ghost before = absent@;
        if !present[i] {
            let fact = entries[i].0.copy_key();
            let _ = absent.insert(fact, ());
        }
        i = i + 1;
        assert forall|f: FactView| #[trigger]
            absent@.contains_key(f) <==> exists|j: int|
                0 <= j < i && (#[trigger] entries@[j]).0@ == f && !present@[j] by {
            assert(before.contains_key(f) <==> exists|j: int|
                0 <= j < i - 1 && (#[trigger] entries@[j]).0@ == f && !present@[j]);
            if absent@.contains_key(f) && !before.contains_key(f) {
                assert(entries@[i - 1].0@ == f);
            }
        }
    }
    absent
}

impl VolatileFacts {
    /// No endpoint open and no fact held.
    pub fn new() -> (held: VolatileFacts)
        ensures
            held@ == (HeldView { endpoints: Map::empty(), owners: Map::empty() }),
            held@.wf(),
    {
        let held = VolatileFacts { endpoints: Table::new(), owners: Table::new() };
        proof {
            assert(held@.endpoints =~= Map::<u64, EndpointView>::empty());
            assert forall|f: FactView| held@.holders(f).len() == 0 by {
                assert(held@.holders(f) =~= Set::empty());
            }
        }
        held
    }

    /// The number of open endpoints.
    pub fn open_count(&self) -> (count: usize)
        ensures
            count == self@.endpoints.dom().len(),
            self@.endpoints.dom().finite(),
    {
        assert(self@.endpoints.dom() =~= self.endpoints@.dom());
        self.endpoints.len()
    }

    /// Whether an endpoint is open.
    pub fn is_open(&self, endpoint: &Identity) -> (open: bool)
        ensures
            open == self@.endpoints.contains_key(endpoint@),
    {
        self.endpoints.contains(endpoint)
    }

    /// The facts among `facts` that nobody holds yet.
    pub fn unheld(&self, facts: &FactSet) -> (rest: FactSet)
        ensures
            rest@.dom() == unheld(self@.owners, facts@.dom()),
    {
        unheld_facts(&self.owners, facts)
    }

    /// Opens an endpoint that holds `facts`; those that nobody held and that
    /// `asserted` has are asserted by the driver.
    pub fn open(&mut self, endpoint: Identity, facts: FactSet, asserted: &FactSet)
        requires
            old(self)@.wf(),
            !old(self)@.endpoints.contains_key(endpoint@),
            old(self)@.endpoints.dom().len() < usize::MAX,
        ensures
            final(self)@.wf(),
            final(self)@.endpoints == old(self)@.endpoints.insert(
                endpoint@,
                EndpointView {
                    scopes: Map::empty().insert("endpoint"@, facts@.dom()),
                    subscriptions: Set::empty(),
                },
            ),
            final(self)@.owners == gain(old(self)@.owners, facts@.dom(), asserted@.dom()),
    {
        let ghost before = self@;
        let ghost held = facts@.dom();
        let ghost next = EndpointView {
            scopes: Map::empty().insert("endpoint"@, held),
            subscriptions: Set::empty(),
        };
        proof {
            assert forall|f: FactView| #[trigger] next.owned().contains(f) <==> held.contains(f) by {
                if held.contains(f) {
                    assert(next.scopes.contains_key("endpoint"@) && next.scopes["endpoint"@].contains(
                        f,
                    ));
                }
            }
            assert(next.owned() =~= held);
            assert(before.held_by(endpoint@) =~= Set::empty());
            let lost = before.held_by(endpoint@).difference(next.owned());
            assert(lost =~= Set::empty());
            assert(lose(before.owners, lost) =~= before.owners);
            assert(next.owned().difference(before.held_by(endpoint@)) =~= held);
            lemma_endpoint_set(before, endpoint@, next, asserted@.dom());
            assert forall|f: FactView| #[trigger]
                facts@.contains_key(f) && before.owners.contains_key(f) implies before.owners[f].owners
                < usize::MAX by {
                lemma_holders_bound(before, f);
            }
        }
        gain_facts(&mut self.owners, &facts, asserted);
        let resources = EndpointResources::with_facts("endpoint", facts);
        let _ = self.endpoints.insert(endpoint, resources);
        assert(self@.endpoints =~= before.endpoints.insert(endpoint@, next));
    }

    /// What replacing the facts of a scope of an open endpoint comes to.
    pub fn plan_scope(&self, endpoint: &Identity, scope: &Symbol, next: &FactSet) -> (change:
        ScopeChange)
        requires
            self@.wf(),
            self@.endpoints.contains_key(endpoint@),
        ensures
            ({
                let resources = self@.endpoints[endpoint@];
                &&& change.retract@.dom() == last_held(
                    self@.owners,
                    scope_lost(resources, scope@, next@.dom()),
                )
                &&& change.unheld@.dom() == unheld(
                    self@.owners,
                    scope_gained(resources, scope@, next@.dom()),
                )
            }),
    {
        let (lost, gained) = self.scope_difference(endpoint, scope, next);
        ScopeChange {
            retract: last_held_facts(&self.owners, &lost),
            unheld: unheld_facts(&self.owners, &gained),
        }
    }

    fn scope_difference(&self, endpoint: &Identity, scope: &Symbol, next: &FactSet) -> (result: (
        FactSet,
        FactSet,
    ))
        requires
            self@.endpoints.contains_key(endpoint@),
        ensures
            result.0@.dom() == scope_lost(self@.endpoints[endpoint@], scope@, next@.dom()),
            result.1@.dom() == scope_gained(self@.endpoints[endpoint@], scope@, next@.dom()),
    {
        let resources = match self.endpoints.get(endpoint) {
            Some(resources) => resources,
            None => {
                assert(false);
                return (Table::new(), Table::new());
            },
        };
        proof {
            lemma_owned_with_scope(resources@, scope@, next@.dom());
        }
        let other = resources.owned_elsewhere(scope);
        let mut next_owned = copy_facts(next);
        add_facts(&mut next_owned, &other);
        let previous_owned = resources.owned();
        let lost = without(&previous_owned, &next_owned);
        let gained = without(&next_owned, &previous_owned);
        (lost, gained)
    }

    /// The facts that an open endpoint holds in a scope.
    pub fn in_scope(&self, endpoint: &Identity, scope: &Symbol) -> (facts: FactSet)
        requires
            self@.endpoints.contains_key(endpoint@),
        ensures
            facts@.dom() == self@.endpoints[endpoint@].in_scope(scope@),
    {
        match self.endpoints.get(endpoint) {
            Some(resources) => resources.in_scope(scope),
            None => {
                assert(false);
                Table::new()
            },
        }
    }

    /// Replaces the facts of a scope of an open endpoint.
    pub fn replace_scope(
        &mut self,
        endpoint: Identity,
        scope: Symbol,
        next: FactSet,
        asserted: &FactSet,
    )
        requires
            old(self)@.wf(),
            old(self)@.endpoints.contains_key(endpoint@),
        ensures
            final(self)@.wf(),
            ({
                let resources = old(self)@.endpoints[endpoint@];
                &&& final(self)@.endpoints == old(self)@.endpoints.insert(
                    endpoint@,
                    resources.with_scope(scope@, next@.dom()),
                )
                &&& final(self)@.owners == gain(
                    lose(old(self)@.owners, scope_lost(resources, scope@, next@.dom())),
                    scope_gained(resources, scope@, next@.dom()),
                    asserted@.dom(),
                )
            }),
    {
        let ghost before = self@;
        let ghost resources_before = before.endpoints[endpoint@];
        let (lost, gained) = self.scope_difference(&endpoint, &scope, &next);
        let ghost target = resources_before.with_scope(scope@, next@.dom());
        let count = self.open_count();
        proof {
            assert(before.held_by(endpoint@) == resources_before.owned());
            lemma_endpoint_set(before, endpoint@, target, asserted@.dom());
            assert forall|f: FactView| #[trigger]
                before.owners.contains_key(f) implies before.owners[f].owners > 0 by {
                lemma_holders_bound(before, f);
            }
        }
        lose_facts(&mut self.owners, &lost);
        proof {
            let reduced = lose(before.owners, lost@.dom());
            assert forall|f: FactView| #[trigger]
                gained@.contains_key(f) && reduced.contains_key(f) implies reduced[f].owners
                < usize::MAX by {
                lemma_holders_bound(before, f);
                assert(gained@.dom().contains(f));
                assert(!lost@.dom().contains(f));
                assert(!before.holders(f).contains(endpoint@));
            }
        }
        gain_facts(&mut self.owners, &gained, asserted);
        match self.endpoints.remove(&endpoint) {
            Some(mut resources) => {
                resources.set_scope(scope, next);
                let _ = self.endpoints.insert(endpoint, resources);
                assert(self@.endpoints =~= before.endpoints.insert(endpoint@, target));
            },
            None => {
                assert(false);
            },
        }
    }

    /// The facts to retract when an endpoint closes.
    pub fn plan_close(&self, endpoint: &Identity) -> (retract: FactSet)
        ensures
            retract@.dom() == last_held(self@.owners, self@.held_by(endpoint@)),
    {
        match self.endpoints.get(endpoint) {
            Some(resources) => {
                let owned = resources.owned();
                last_held_facts(&self.owners, &owned)
            },
            None => {
                let none: FactSet = Table::new();
                assert(none@.dom() =~= last_held(self@.owners, self@.held_by(endpoint@)));
                none
            },
        }
    }

    /// Closes an endpoint and hands back what it held.
    pub fn close(&mut self, endpoint: &Identity) -> (resources: Option<EndpointResources>)
        requires
            old(self)@.wf(),
        ensures
            final(self)@.wf(),
            final(self)@.endpoints == old(self)@.endpoints.remove(endpoint@),
            final(self)@.owners == lose(old(self)@.owners, old(self)@.held_by(endpoint@)),
            resources is Some == old(self)@.endpoints.contains_key(endpoint@),
            resources matches Some(found) ==> found@ == old(self)@.endpoints[endpoint@],
    {
        let ghost before = self@;
        proof {
            lemma_endpoint_removed(before, endpoint@);
            assert forall|f: FactView| #[trigger]
                before.owners.contains_key(f) implies before.owners[f].owners > 0 by {
                lemma_holders_bound(before, f);
            }
        }
        match self.endpoints.remove(endpoint) {
            Some(resources) => {
                let owned = resources.owned();
                lose_facts(&mut self.owners, &owned);
                assert(self@.endpoints =~= before.endpoints.remove(endpoint@));
                Some(resources)
            },
            None => {
                assert(self@.endpoints =~= before.endpoints.remove(endpoint@));
                assert(lose(before.owners, before.held_by(endpoint@)) =~= before.owners);
                None
            },
        }
    }

    /// Notes a subscription of an open endpoint.
    pub fn add_subscription(&mut self, endpoint: &Identity, subscription: Value)
        requires
            old(self)@.wf(),
            old(self)@.endpoints.contains_key(endpoint@),
        ensures
            final(self)@.wf(),
            final(self)@ == old(self)@.with_subscriptions(
                endpoint@,
                old(self)@.endpoints[endpoint@].subscriptions.insert(subscription@),
            ),
    {
        let ghost before = self@;
        match self.endpoints.remove(endpoint) {
            Some(mut resources) => {
                resources.add_subscription(subscription);
                let _ = self.endpoints.insert(*endpoint, resources);
                proof {
                    let subscriptions = before.endpoints[endpoint@].subscriptions.insert(
                        subscription@,
                    );
                    assert(self@.endpoints =~= before.with_subscriptions(
                        endpoint@,
                        subscriptions,
                    ).endpoints);
                    lemma_subscriptions_keep(before, endpoint@, subscriptions);
                }
            },
            None => {
                assert(false);
            },
        }
    }

    /// Forgets a subscription of an endpoint, where it is open.
    pub fn drop_subscription(&mut self, endpoint: &Identity, subscription: &Value)
        requires
            old(self)@.wf(),
        ensures
            final(self)@.wf(),
            final(self)@ == if old(self)@.endpoints.contains_key(endpoint@) {
                old(self)@.with_subscriptions(
                    endpoint@,
                    old(self)@.endpoints[endpoint@].subscriptions.remove(subscription@),
                )
            } else {
                old(self)@
            },
    {
        let ghost before = self@;
        match self.endpoints.remove(endpoint) {
            Some(mut resources) => {
                resources.drop_subscription(subscription);
                let _ = self.endpoints.insert(*endpoint, resources);
                proof {
                    let subscriptions = before.endpoints[endpoint@].subscriptions.remove(
                        subscription@,
                    );
                    assert(self@.endpoints =~= before.with_subscriptions(
                        endpoint@,
                        subscriptions,
                    ).endpoints);
                    lemma_subscriptions_keep(before, endpoint@, subscriptions);
                }
            },
            None => {
                assert(self@.endpoints =~= before.endpoints);
            },
        }
    }

    /// Closes every endpoint and hands back which they were, and the facts that the
    /// driver had asserted.
    pub fn drain(&mut self) -> (drained: (Vec<Identity>, FactSet))
        ensures
            final(self)@ == (HeldView { endpoints: Map::empty(), owners: Map::empty() }),
            final(self)@.wf(),
            identity_views(drained.0@).to_set() == old(self)@.endpoints.dom(),
            identity_views(drained.0@).no_duplicates(),
            drained.1@.dom() == old(self)@.owners.dom().filter(
                |f: FactView| old(self)@.owners[f].asserted_by_driver,
            ),
    {
        let ghost before = self@;
        let entries = self.endpoints.entries();
        let mut open: Vec<Identity> = Vec::new();
        let mut i: usize = 0;
        while i < entries.len()
            invariant
                i <= entries@.len(),
                open@.len() == i,
                forall|j: int| 0 <= j < i ==> (#[trigger] open@[j])@ == entries@[j].0@,
            decreases entries@.len() - i,
        {
            open.push(entries[i].0);
            i = i + 1;
        }
        proof {
            assert(identity_views(open@) =~= entry_keys(entries@));
            assert(before.endpoints.dom() =~= identity_views(open@).to_set());
        }
        let records = self.owners.entries();
        let mut asserted: FactSet = Table::new();
        let mut n: usize = 0;
        proof {
            lemma_all_facts(records@);
            assert(asserted@.dom() =~= first_facts(records@, 0).filter(
                |f: FactView| before.owners[f].asserted_by_driver,
            ));
        }
        while n < records.len()
            invariant
                entry_keys(records@).no_duplicates(),
                before.owners == entry_map(records@),
                n <= records@.len(),
                asserted@.dom() == first_facts(records@, n as int).filter(
                    |f: FactView| before.owners[f].asserted_by_driver,
                ),
            decreases records@.len() - n,
        {
            proof {
                lemma_first_facts(records@, n as int);
            }
            if records[n].1.asserted_by_driver {
                let fact = records[n].0.copy_key();
                let _ = asserted.insert(fact, ());
            }
            n = n + 1;
            assert(asserted@.dom() =~= first_facts(records@, n as int).filter(
                |f: FactView| before.owners[f].asserted_by_driver,
            ));
        }
        proof {
            lemma_all_facts(records@);
        }
        self.endpoints = Table::new();
        self.owners = Table::new();
        proof {
            assert(self@.endpoints =~= Map::<u64, EndpointView>::empty());
            assert forall|f: FactView| self@.holders(f).len() == 0 by {
                assert(self@.holders(f) =~= Set::empty());
            }
        }
        (open, asserted)
    }
}

impl HeldView {
    /// The state with the subscriptions of one endpoint replaced.
    pub open spec fn with_subscriptions(
        self,
        endpoint: u64,
        subscriptions: Set<ValueView>,
    ) -> HeldView {
        HeldView {
            endpoints: self.endpoints.insert(
                endpoint,
                EndpointView { subscriptions, ..self.endpoints[endpoint] },
            ),
            owners: self.owners,
        }
    }
}

proof fn lemma_subscriptions_keep(held: HeldView, endpoint: u64, subscriptions: Set<ValueView>)
    requires
        held.wf(),
        held.endpoints.contains_key(endpoint),
    ensures
        held.with_subscriptions(endpoint, subscriptions).wf(),
{
    let next = held.with_subscriptions(endpoint, subscriptions);
    assert(next.endpoints.dom() =~= held.endpoints.dom());
    assert forall|f: FactView| next.holders(f) == held.holders(f) by {
        assert forall|e: u64| #[trigger] next.holders(f).contains(e) <==> held.holders(f).contains(
            e,
        ) by {
            assert(next.endpoints[endpoint].owned() =~= held.endpoints[endpoint].owned());
        }
        assert(next.holders(f) =~= held.holders(f));
    }
}

/// A fact that two endpoints hold stays when one of them closes, and the record keeps
/// saying whether the driver asserted it.
pub proof fn law_shared_fact_outlives_a_holder(held: HeldView, closing: u64, fact: FactView)
    requires
        held.wf(),
        held.holders(fact).len() >= 2,
    ensures
        !last_held(held.owners, held.held_by(closing)).contains(fact),
        lose(held.owners, held.held_by(closing)).contains_key(fact),
        lose(held.owners, held.held_by(closing))[fact].asserted_by_driver
            == held.owners[fact].asserted_by_driver,
{
    assert(held.owners.contains_key(fact));
}

/// A fact that was there before the driver first held it is never retracted.
pub proof fn law_preexisting_fact_is_never_retracted(
    held: HeldView,
    facts: Set<FactView>,
    fact: FactView,
)
    requires
        held.owners.contains_key(fact),
        !held.owners[fact].asserted_by_driver,
    ensures
        !last_held(held.owners, facts).contains(fact),
{
}

/// A fact that the driver asserted is retracted when its only holder closes.
pub proof fn law_asserted_fact_goes_with_its_last_holder(held: HeldView, endpoint: u64, fact: FactView)
    requires
        held.wf(),
        held.holders(fact) == set![endpoint],
        held.owners[fact].asserted_by_driver,
    ensures
        last_held(held.owners, held.held_by(endpoint)).contains(fact),
        !lose(held.owners, held.held_by(endpoint)).contains_key(fact),
{
    assert(held.holders(fact).contains(endpoint));
    assert(held.holders(fact).len() == 1);
    assert(held.owners.contains_key(fact));
}

} // verus!
