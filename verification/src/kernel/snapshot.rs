//! What the kernel holds at one version.

use crate::kernel::algebra::{finish_tuple_rows, lists, matching, of_arity, union_ordered_tuple_rows,
    Row};
use crate::kernel::catalog::{catalog_facts, catalog_said, said, CatalogFact};
use crate::kernel::commit::{commit_views, since, Commit, CommitHistory, CommitView};
use crate::kernel::computed::{given, ComputedRelationRegistry, RegistryView};
use crate::kernel::dispatch::{applicable_method_calls_uncached, ApplicableMethodCall, DispatchRead,
    DispatchRelations, PrimitivePrototypes};
use crate::kernel::error::{FaultView, KernelError};
use crate::kernel::metadata::{natural_positions, MetadataView, RelationId, RelationMetadata,
    Version};
use crate::kernel::read::{answers, fact_less, fact_views, facts_increase, lists_facts,
    metadata_views, scanned, CatalogView, ComputedRelationRead, RelationRead,
    ShownView, Visible};
use crate::kernel::relation::{RelationState, RelationView};
use crate::kernel::rules::{copy_definitions, definition_views, derives,
    relation_has_active_rule_head, DefinitionView, RuleDefinition};
use crate::kernel::states::{first_named, id_listing, lists_ids, raw_ids, RelationStates};
use crate::tuple::{copy_tuples, increasing, row_less, row_matches, rows, Tuple};
use crate::value::{copy_value, option_view, option_views, views, Symbol, Value, ValueView};
use vstd::prelude::*;

verus! {

/// The rows that rules derive, as far as they are known.
pub enum DerivedRelations {
    Unevaluated,
    Evaluated(RelationStates),
    Failed(KernelError),
}

/// The rows that rules derive, apart from how they are stored.
pub enum DerivedView {
    Unevaluated,
    Evaluated(Map<u64, RelationView>),
    Failed(FaultView),
}

impl View for DerivedRelations {
    type V = DerivedView;

    open spec fn view(&self) -> DerivedView {
        match self {
            DerivedRelations::Unevaluated => DerivedView::Unevaluated,
            DerivedRelations::Evaluated(states) => DerivedView::Evaluated(states@),
            DerivedRelations::Failed(error) => DerivedView::Failed(error@),
        }
    }
}

impl DerivedRelations {
    /// A copy.
    pub fn copy(&self) -> (copy: DerivedRelations)
        ensures
            copy@ == self@,
    {
        match self {
            DerivedRelations::Unevaluated => DerivedRelations::Unevaluated,
            DerivedRelations::Evaluated(states) => DerivedRelations::Evaluated(states.copy()),
            DerivedRelations::Failed(error) => DerivedRelations::Failed(error.clone()),
        }
    }
}

/// The rows that rules derive for a relation.
pub open spec fn derived_rows(derived: DerivedView, relation: u64) -> Result<Set<Row>, FaultView> {
    match derived {
        DerivedView::Unevaluated => Err(FaultView::RulesUnevaluated(relation)),
        DerivedView::Failed(fault) => Err(fault),
        DerivedView::Evaluated(states) => Ok(
            if states.contains_key(relation) {
                states[relation].rows
            } else {
                Set::empty()
            },
        ),
    }
}

/// Whether reading a computed relation ends as it should, where it gave `answer`: with its
/// rows as they came, or, where rules derive rows too, in order with those.
pub open spec fn completes(
    answer: Result<Seq<Row>, FaultView>,
    derived: Option<Result<Set<Row>, FaultView>>,
    bindings: Seq<Option<ValueView>>,
    result: Result<Seq<Row>, FaultView>,
) -> bool {
    match (answer, derived) {
        (Err(fault), _) => result == Err::<Seq<Row>, FaultView>(fault),
        (Ok(found), None) => result == Ok::<Seq<Row>, FaultView>(found),
        (Ok(_), Some(Err(fault))) => result == Err::<Seq<Row>, FaultView>(fault),
        (Ok(found), Some(Ok(more))) => result matches Ok(all) && lists(
            all,
            found.to_set().union(matching(more, bindings)),
        ),
    }
}

/// Whether derived rows are of relations that there are.
pub open spec fn derived_of(derived: DerivedView, relations: Map<u64, RelationView>) -> bool {
    match derived {
        DerivedView::Evaluated(states) => forall|id: u64| #[trigger]
            states.contains_key(id) ==> relations.contains_key(id) && states[id].metadata
                == relations[id].metadata,
        _ => true,
    }
}

/// What the kernel holds at one version.
pub struct Snapshot {
    parts: Parts,
}

struct Parts {
    version: Version,
    relations: RelationStates,
    rules: Vec<RuleDefinition>,
    computed_relations: ComputedRelationRegistry,
    derived: DerivedRelations,
    maintained: Option<Vec<RelationId>>,
    commits: CommitHistory,
}

/// A snapshot, apart from how it is stored. `maintained` names the relations whose derived
/// rows are kept up to date, where any are.
pub struct SnapshotView {
    pub version: Version,
    pub relations: Map<u64, RelationView>,
    pub rules: Seq<DefinitionView>,
    pub computed: RegistryView,
    pub derived: DerivedView,
    pub maintained: Option<Seq<u64>>,
    pub commits: Seq<CommitView>,
}

impl SnapshotView {
    /// Whether every relation stands under its identity and is well formed, and derived
    /// rows are of relations that there are.
    pub open spec fn wf(self) -> bool {
        &&& forall|id: u64| #[trigger]
            self.relations.contains_key(id) ==> self.relations[id].metadata.id == id
                && self.relations[id].wf()
        &&& derived_of(self.derived, self.relations)
    }

    /// Whether a relation's rows are computed.
    pub open spec fn computes(self, relation: u64) -> bool {
        self.relations.contains_key(relation) && self.computed.computes(
            self.relations[relation].metadata,
        )
    }

    /// What is seen of a relation without the rows that rules derive.
    pub open spec fn stored(self, relation: u64) -> Visible {
        if !self.relations.contains_key(relation) {
            Visible::Unknown
        } else if self.computes(relation) {
            Visible::Computed
        } else {
            Visible::Stored(
                self.relations[relation].metadata.arity,
                Ok(self.relations[relation].rows),
            )
        }
    }

    /// What is seen of a relation.
    pub open spec fn visible(self, relation: u64) -> Visible {
        match self.stored(relation) {
            Visible::Stored(arity, Ok(base)) => if derives(self.rules, relation) {
                Visible::Stored(
                    arity,
                    match derived_rows(self.derived, relation) {
                        Ok(derived) => Ok(base.union(derived)),
                        Err(fault) => Err(fault),
                    },
                )
            } else {
                Visible::Stored(arity, Ok(base))
            },
            other => other,
        }
    }

    /// Whether reading a computed relation may end so, by a reader that shows this and where
    /// the rows that rules derive are given.
    pub open spec fn may_read(
        self,
        shown: ShownView,
        relation: u64,
        derived: DerivedView,
        bindings: Seq<Option<ValueView>>,
        result: Result<Seq<Row>, FaultView>,
    ) -> bool {
        exists|answer: Result<Seq<Row>, FaultView>|
            {
                &&& #[trigger] self.computed.may_give(
                    shown,
                    self.relations[relation].metadata,
                    bindings,
                    answer,
                )
                &&& completes(
                    answer,
                    if derives(self.rules, relation) {
                        Some(derived_rows(derived, relation))
                    } else {
                        None
                    },
                    bindings,
                    result,
                )
            }
    }

    /// Whether a scan may end so, of which `seen` is what is seen of the relation.
    pub open spec fn may_scan(
        self,
        shown: ShownView,
        seen: Visible,
        relation: u64,
        derived: DerivedView,
        bindings: Seq<Option<ValueView>>,
        result: Result<Seq<Row>, FaultView>,
    ) -> bool {
        match scanned(seen, relation, bindings) {
            Some(Ok(set)) => result matches Ok(found) && lists(found, set),
            Some(Err(fault)) => result == Err::<Seq<Row>, FaultView>(fault),
            None => self.may_read(shown, relation, derived, bindings, result),
        }
    }

    /// The rows that are stored.
    pub open spec fn facts(self) -> Set<(u64, Row)> {
        Set::new(
            |fact: (u64, Row)|
                self.relations.contains_key(fact.0) && self.relations[fact.0].rows.contains(fact.1),
        )
    }
}

spec fn parts_view(parts: Parts) -> SnapshotView {
    SnapshotView {
        version: parts.version,
        relations: parts.relations@,
        rules: definition_views(parts.rules@),
        computed: parts.computed_relations@,
        derived: parts.derived@,
        maintained: match parts.maintained {
            Some(targets) => Some(raw_ids(targets@)),
            None => None,
        },
        commits: parts.commits@,
    }
}

impl View for Snapshot {
    type V = SnapshotView;

    closed spec fn view(&self) -> SnapshotView {
        parts_view(self.parts)
    }
}

impl Snapshot {
    #[verifier::type_invariant]
    spec fn inv(self) -> bool {
        derived_of(self.parts.derived@, self.parts.relations@)
    }

    /// Whether the rows of a relation are held in a radix tree.
    pub closed spec fn is_radix(self, relation: u64) -> bool {
        self.parts.relations.is_radix(relation)
    }

    /// A snapshot whose derived rows are not known yet.
    pub fn new(
        version: Version,
        relations: RelationStates,
        rules: Vec<RuleDefinition>,
        computed_relations: ComputedRelationRegistry,
        commits: CommitHistory,
    ) -> (snapshot: Snapshot)
        ensures
            snapshot@ == (SnapshotView {
                version,
                relations: relations@,
                rules: definition_views(rules@),
                computed: computed_relations@,
                derived: DerivedView::Unevaluated,
                maintained: None,
                commits: commits@,
            }),
    {
        Snapshot {
            parts: Parts {
                version,
                relations,
                rules,
                computed_relations,
                derived: DerivedRelations::Unevaluated,
                maintained: None,
                commits,
            },
        }
    }

    /// A copy of the snapshot.
    pub fn copy(&self) -> (copy: Snapshot)
        ensures
            copy@ == self@,
    {
        proof {
            use_type_invariant(self);
        }
        let maintained = match &self.parts.maintained {
            Some(targets) => Some(copy_ids(targets)),
            None => None,
        };
        Snapshot {
            parts: Parts {
                version: self.parts.version,
                relations: self.parts.relations.copy(),
                rules: copy_definitions(&self.parts.rules),
                computed_relations: self.parts.computed_relations.copy(),
                derived: self.parts.derived.copy(),
                maintained,
                commits: self.parts.commits.copy(),
            },
        }
    }

    /// The version.
    pub fn version(&self) -> (version: Version)
        ensures
            version == self@.version,
    {
        self.parts.version
    }

    /// The relations.
    pub fn relations(&self) -> (relations: &RelationStates)
        ensures
            relations@ == self@.relations,
    {
        &self.parts.relations
    }

    /// The rules.
    pub fn rules(&self) -> (rules: &[RuleDefinition])
        ensures
            definition_views(rules@) == self@.rules,
            rules@.len() == self@.rules.len(),
    {
        self.parts.rules.as_slice()
    }

    /// What computes relations.
    pub fn computed_relations(&self) -> (computed: &ComputedRelationRegistry)
        ensures
            computed@ == self@.computed,
    {
        &self.parts.computed_relations
    }

    /// The commits that led here.
    pub fn history(&self) -> (commits: &CommitHistory)
        ensures
            commits@ == self@.commits,
    {
        &self.parts.commits
    }

    /// The relations whose derived rows are kept up to date.
    pub fn maintained(&self) -> (maintained: &Option<Vec<RelationId>>)
        ensures
            match maintained {
                Some(targets) => self@.maintained == Some(raw_ids(targets@)),
                None => self@.maintained is None,
            },
    {
        &self.parts.maintained
    }

    /// The commits after a version, oldest first.
    pub fn commits_since(&self, version: Version) -> (commits: Vec<Commit>)
        ensures
            commit_views(commits@) == since(self@.commits, version),
    {
        self.parts.commits.since(version)
    }

    /// The relation with the given identity.
    pub fn relation(&self, relation: RelationId) -> (result: Result<&RelationState, KernelError>)
        ensures
            match result {
                Ok(state) => self@.relations.contains_key(relation@) && state@
                    == self@.relations[relation@] && state@.metadata.id == relation@ && state@.wf(),
                Err(error) => !self@.relations.contains_key(relation@) && error@
                    == FaultView::UnknownRelation(relation@),
            },
    {
        match self.parts.relations.get(relation) {
            Some(state) => Ok(state),
            None => Err(KernelError::UnknownRelation(relation)),
        }
    }

    /// The rows of a relation that agree with the bindings, in order, without those that
    /// rules derive.
    pub fn scan_facts(&self, relation: RelationId, bindings: &[Option<Value>]) -> (result: Result<
        Vec<Tuple>,
        KernelError,
    >)
        ensures
            answers(
                result,
                scanned(self@.stored(relation@), relation@, option_views(bindings@)),
            ),
            scanned(
                self@.stored(relation@),
                relation@,
                option_views(bindings@),
            ) matches Some(Ok(set)) ==> of_arity(set, bindings@.len()),
            self@.stored(relation@) is Computed ==> self@.computed.may_give(
                self.shown(),
                self@.relations[relation@].metadata,
                option_views(bindings@),
                given(result),
            ),
    {
        let state = match self.relation(relation) {
            Err(error) => {
                return Err(error);
            },
            Ok(state) => state,
        };
        match self.parts.computed_relations.provider(state.metadata(), bindings) {
            Some(Ok(provider)) => provider.scan(self, state.metadata(), bindings),
            Some(Err(error)) => Err(error),
            None => state.scan(bindings),
        }
    }

    /// The rows of a relation that agree with the bindings, in order.
    pub fn scan(&self, relation: RelationId, bindings: &[Option<Value>]) -> (result: Result<
        Vec<Tuple>,
        KernelError,
    >)
        ensures
            answers(
                result,
                scanned(self@.visible(relation@), relation@, option_views(bindings@)),
            ),
            scanned(
                self@.visible(relation@),
                relation@,
                option_views(bindings@),
            ) matches Some(Ok(set)) ==> of_arity(set, bindings@.len()),
            self@.visible(relation@) is Computed ==> self@.may_read(
                self.shown(),
                relation@,
                self@.derived,
                option_views(bindings@),
                given(result),
            ),
    {
        proof {
            use_type_invariant(self);
        }
        let stored = match self.scan_facts(relation, bindings) {
            Err(error) => {
                return Err(error);
            },
            Ok(rows) => rows,
        };
        if !relation_has_active_rule_head(&self.parts.rules, relation) {
            return Ok(stored);
        }
        proof {
            let bound = option_views(bindings@);
            if let Ok(derived) = derived_rows(self@.derived, relation@) {
                let base = self@.relations[relation@].rows;
                assert(matching(base.union(derived), bound) =~= matching(base, bound).union(
                    matching(derived, bound),
                ));
            }
        }
        let state = match self.relation(relation) {
            Err(error) => {
                return Err(error);
            },
            Ok(state) => state,
        };
        if self.parts.computed_relations.is_computed_relation(state.metadata()) {
            return self.with_derived_rows(relation, bindings, finish_tuple_rows(stored));
        }
        self.with_derived_rows(relation, bindings, stored)
    }

    /// Adds the rows that rules derive for a relation.
    fn with_derived_rows(
        &self,
        relation: RelationId,
        bindings: &[Option<Value>],
        stored: Vec<Tuple>,
    ) -> (result: Result<Vec<Tuple>, KernelError>)
        requires
            increasing(rows(stored@)),
        ensures
            self@.relations.contains_key(relation@) && self@.relations[relation@].metadata.arity
                == bindings@.len() ==> match derived_rows(self@.derived, relation@) {
                Err(fault) => result matches Err(error) && error@ == fault,
                Ok(derived) => {
                    &&& of_arity(derived, bindings@.len())
                    &&& result matches Ok(found) && lists(
                        rows(found@),
                        rows(stored@).to_set().union(matching(derived, option_views(bindings@))),
                    )
                },
            },
    {
        proof {
            use_type_invariant(self);
        }
        match &self.parts.derived {
            DerivedRelations::Unevaluated => Err(KernelError::RulesUnevaluated(relation)),
            DerivedRelations::Failed(error) => Err(error.clone()),
            DerivedRelations::Evaluated(states) => match states.get(relation) {
                None => {
                    proof {
                        assert(rows(stored@).to_set().union(
                            matching(Set::<Row>::empty(), option_views(bindings@)),
                        ) =~= rows(stored@).to_set());
                    }
                    Ok(stored)
                },
                Some(state) => match state.scan(bindings) {
                    Err(error) => Err(error),
                    Ok(derived) => Ok(union_ordered_tuple_rows(stored, derived)),
                },
            },
        }
    }

    /// Whether a row is seen in a relation.
    pub fn contains(&self, relation: RelationId, tuple: &Tuple) -> (result: Result<
        bool,
        KernelError,
    >)
        ensures
            match self@.visible(relation@) {
                Visible::Unknown => result matches Err(error) && error@
                    == FaultView::UnknownRelation(relation@),
                Visible::Computed => exists|reading: Result<Seq<Row>, FaultView>|
                    {
                        &&& #[trigger] self@.may_read(
                            self.shown(),
                            relation@,
                            self@.derived,
                            exactly(tuple@),
                            reading,
                        )
                        &&& match reading {
                            Ok(found) => result matches Ok(held) && held == (found.len() > 0),
                            Err(fault) => result matches Err(error) && error@ == fault,
                        }
                    },
                Visible::Stored(arity, seen) => if tuple@.len() != arity {
                    result matches Err(error) && error@ == FaultView::ArityMismatch(
                        relation@,
                        arity,
                        tuple@.len(),
                    )
                } else {
                    match seen {
                        Err(fault) => result matches Err(error) && error@ == fault,
                        Ok(set) => result matches Ok(found) && found == set.contains(tuple@),
                    }
                },
            },
    {
        let bindings = bound_bindings(tuple);
        match self.scan(relation, &bindings) {
            Err(error) => Err(error),
            Ok(found) => {
                proof {
                    if let Visible::Stored(arity, Ok(set)) = self@.visible(relation@) {
                        let bound = option_views(bindings@);
                        let expected = matching(set, bound);
                        if set.contains(tuple@) {
                            assert(row_matches(tuple@, bound));
                            assert(expected.contains(tuple@));
                            assert(rows(found@).contains(tuple@));
                        }
                        if found@.len() > 0 {
                            let row = rows(found@)[0];
                            assert(rows(found@).to_set().contains(row));
                            assert(row_matches(row, bound));
                            assert(row.len() == bound.len());
                            assert forall|i: int| 0 <= i < row.len() implies row[i] == tuple@[i] by {
                                assert(bound[i] is Some);
                            }
                            assert(row =~= tuple@);
                        }
                    }
                }
                Ok(found.len() > 0)
            },
        }
    }
}

/// A copy of identities.
pub fn copy_ids(ids: &[RelationId]) -> (copy: Vec<RelationId>)
    ensures
        raw_ids(copy@) == raw_ids(ids@),
{
    let mut copy: Vec<RelationId> = Vec::new();
    let mut i: usize = 0;
    while i < ids.len()
        invariant
            i <= ids@.len(),
            copy@ == ids@.take(i as int),
        decreases ids@.len() - i,
    {
        copy.push(ids[i]);
        i = i + 1;
        assert(copy@ =~= ids@.take(i as int));
    }
    assert(copy@ =~= ids@);
    copy
}

/// Bindings to the values of a row.
pub open spec fn exactly(row: Row) -> Seq<Option<ValueView>> {
    Seq::new(row.len(), |i: int| Some(row[i]))
}

/// Bindings to the values of a row.
pub fn bound_bindings(tuple: &Tuple) -> (bindings: Vec<Option<Value>>)
    ensures
        option_views(bindings@) == exactly(tuple@),
        bindings@.len() == tuple@.len(),
{
    let values = tuple.values();
    let mut bindings: Vec<Option<Value>> = Vec::new();
    let mut i: usize = 0;
    while i < values.len()
        invariant
            i <= values@.len() == tuple@.len(),
            views(values@) == tuple@,
            forall|j: int| 0 <= j < values@.len() ==> (#[trigger] values@[j])@ == tuple@[j],
            bindings@.len() == i,
            forall|j: int| 0 <= j < i ==> option_view(#[trigger] bindings@[j]) == Some(tuple@[j]),
        decreases values@.len() - i,
    {
        bindings.push(Some(copy_value(&values[i])));
        i = i + 1;
    }
    assert(option_views(bindings@) =~= exactly(tuple@));
    bindings
}

/// Bindings that leave every column open.
pub fn free_bindings(arity: u16) -> (bindings: Vec<Option<Value>>)
    ensures
        option_views(bindings@) == Seq::new(arity as nat, |i: int| None::<ValueView>),
        bindings@.len() == arity,
{
    let mut bindings: Vec<Option<Value>> = Vec::new();
    let mut i: u16 = 0;
    while i < arity
        invariant
            i <= arity,
            bindings@.len() == i,
            forall|j: int| 0 <= j < i ==> (#[trigger] bindings@[j]) is None,
        decreases arity - i,
    {
        bindings.push(None);
        i = i + 1;
    }
    assert(option_views(bindings@) =~= Seq::new(arity as nat, |i: int| None::<ValueView>));
    bindings
}

/// Open bindings agree with every row.
pub proof fn lemma_free_matching(set: Set<Row>, arity: nat)
    ensures
        matching(set, Seq::new(arity, |i: int| None::<ValueView>)) == set,
{
    assert(matching(set, Seq::new(arity, |i: int| None::<ValueView>)) =~= set);
}

impl DispatchRead for Snapshot {
    open spec fn lookup_fault(&self, relations: DispatchRelations) -> Option<FaultView> {
        None
    }

    fn looked_up_method_calls(
        &self,
        relations: DispatchRelations,
        prototypes: &PrimitivePrototypes,
        selector: &Value,
        roles: &[(Value, Value)],
    ) -> (result: Result<Vec<ApplicableMethodCall>, KernelError>) {
        applicable_method_calls_uncached(self, relations, prototypes, selector, roles)
    }
}

impl RelationRead for Snapshot {
    open spec fn visible(&self, relation: u64) -> Visible {
        self@.visible(relation)
    }

    open spec fn may_show(
        &self,
        relation: u64,
        bindings: Seq<Option<ValueView>>,
        result: Result<Seq<Row>, FaultView>,
    ) -> bool {
        self@.may_read(self.shown(), relation, self@.derived, bindings, result)
    }

    fn scan_relation(&self, relation: RelationId, bindings: &[Option<Value>]) -> (result: Result<
        Vec<Tuple>,
        KernelError,
    >) {
        self.scan(relation, bindings)
    }
}

/// The relations, in the order of their identities.
pub open spec fn listed_metadata(relations: Map<u64, RelationView>) -> Seq<MetadataView> {
    id_listing(relations.dom()).map_values(|id: u64| relations[id].metadata)
}

/// How the indexes of the relations that are stored are stored.
pub open spec fn kinds_stored(snapshot: Snapshot) -> Map<(u64, int), Seq<char>> {
    let view = snapshot@;
    Map::new(
        |key: (u64, int)|
            view.relations.contains_key(key.0) && !view.computes(key.0) && 0 <= key.1
                < view.relations[key.0].metadata.indexes.len(),
        |key: (u64, int)|
            {
                let metadata = view.relations[key.0].metadata;
                if metadata.indexes[key.1] == natural_positions(metadata.arity) && !snapshot.is_radix(
                    key.0,
                ) {
                    "btree"@
                } else {
                    "radix"@
                }
            },
    )
}

/// Adds rows of a relation to facts of relations before it.
pub fn push_facts(facts: &mut Vec<(RelationId, Tuple)>, relation: RelationId, found: Vec<Tuple>)
    requires
        facts_increase(fact_views(old(facts)@)),
        forall|i: int|
            0 <= i < old(facts)@.len() ==> (#[trigger] old(facts)@[i]).0@ < relation@,
        increasing(rows(found@)),
    ensures
        facts_increase(fact_views(final(facts)@)),
        fact_views(final(facts)@).to_set() == fact_views(old(facts)@).to_set().union(
            Set::new(
                |fact: (u64, Row)|
                    fact.0 == relation@ && rows(found@).to_set().contains(fact.1),
            ),
        ),
        forall|i: int|
            0 <= i < final(facts)@.len() ==> (#[trigger] final(facts)@[i]).0@ <= relation@,
{
    let ghost before = fact_views(facts@);
    let ghost all = rows(found@);
    let mut i: usize = 0;
    assert(before + Seq::<(u64, Row)>::empty() =~= before);
    while i < found.len()
        invariant
            i <= found@.len(),
            all == rows(found@),
            increasing(all),
            facts_increase(before),
            forall|j: int| 0 <= j < before.len() ==> (#[trigger] before[j]).0 < relation@,
            fact_views(facts@) == before + Seq::new(i as nat, |j: int| (relation@, all[j])),
        decreases found@.len() - i,
    {
        let ghost now = fact_views(facts@);
        facts.push((relation, found[i].clone()));
        proof {
            assert(fact_views(facts@) =~= now.push((relation@, all[i as int])));
            assert(fact_views(facts@) =~= before + Seq::new(
                (i + 1) as nat,
                |j: int| (relation@, all[j]),
            ));
        }
        i = i + 1;
    }
    proof {
        let after = fact_views(facts@);
        let added = Seq::new(all.len(), |j: int| (relation@, all[j]));
        assert(after =~= before + added);
        assert forall|i: int, j: int| 0 <= i < j < after.len() implies fact_less(
            #[trigger] after[i],
            #[trigger] after[j],
        ) by {
            if j < before.len() {
                assert(fact_less(before[i], before[j]));
            } else if i >= before.len() {
                assert(row_less(all[i - before.len()], all[j - before.len()]));
            }
        }
        let own = Set::new(
            |fact: (u64, Row)| fact.0 == relation@ && rows(found@).to_set().contains(fact.1),
        );
        assert forall|fact: (u64, Row)|
            after.to_set().contains(fact) == before.to_set().union(own).contains(fact) by {
            if after.contains(fact) {
                let k = choose|k: int| 0 <= k < after.len() && after[k] == fact;
                if k < before.len() {
                    assert(before[k] == fact);
                } else {
                    assert(all[k - before.len()] == fact.1);
                    assert(all.contains(fact.1));
                }
            }
            if before.contains(fact) {
                let k = choose|k: int| 0 <= k < before.len() && before[k] == fact;
                assert(after[k] == fact);
            }
            if own.contains(fact) {
                let k = choose|k: int| 0 <= k < all.len() && all[k] == fact.1;
                assert(after[before.len() + k] == fact);
            }
        }
        assert(after.to_set() =~= before.to_set().union(own));
        assert forall|i: int| 0 <= i < facts@.len() implies (#[trigger] facts@[i]).0@
            <= relation@ by {
            assert(after[i] == (facts@[i].0@, facts@[i].1@));
        }
    }
}

impl Snapshot {
    /// The relations, in the order of their identities.
    pub fn relation_metadata(&self) -> (relations: Vec<RelationMetadata>)
        ensures
            metadata_views(relations@) == listed_metadata(self@.relations),
            relations@.len() == metadata_views(relations@).len(),
    {
        let ids = self.parts.relations.ids();
        let mut relations: Vec<RelationMetadata> = Vec::new();
        let mut i: usize = 0;
        while i < ids.len()
            invariant
                i <= ids@.len(),
                raw_ids(ids@) == id_listing(self@.relations.dom()),
                raw_ids(ids@).len() == ids@.len(),
                raw_ids(ids@).to_set() == self@.relations.dom(),
                self@.relations == self.parts.relations@,
                relations@.len() == i,
                forall|j: int|
                    0 <= j < i ==> (#[trigger] relations@[j])@
                        == self@.relations[raw_ids(ids@)[j]].metadata,
            decreases ids@.len() - i,
        {
            proof {
                assert(raw_ids(ids@)[i as int] == ids@[i as int]@);
                assert(raw_ids(ids@).to_set().contains(ids@[i as int]@));
            }
            match self.parts.relations.get(ids[i]) {
                Some(state) => {
                    relations.push(state.metadata().clone());
                },
                None => {},
            }
            i = i + 1;
        }
        assert(metadata_views(relations@) =~= listed_metadata(self@.relations));
        relations
    }

    /// The relation with the given name and the lowest identity.
    pub fn relation_metadata_named(&self, name: &Symbol) -> (found: Option<&RelationMetadata>)
        ensures
            match found {
                Some(metadata) => {
                    &&& first_named(self@.relations, name@, metadata@.id)
                    &&& metadata@ == self@.relations[metadata@.id].metadata
                },
                None => forall|id: u64| #[trigger]
                    self@.relations.contains_key(id) ==> self@.relations[id].metadata.name != name@,
            },
    {
        match self.parts.relations.get_named(name) {
            Some(state) => Some(state.metadata()),
            None => None,
        }
    }

    /// The rows that are stored, by relation and row.
    pub fn extensional_facts(&self) -> (facts: Vec<(RelationId, Tuple)>)
        ensures
            lists_facts(fact_views(facts@), self@.facts()),
    {
        let ids = self.parts.relations.ids();
        let mut facts: Vec<(RelationId, Tuple)> = Vec::new();
        let mut i: usize = 0;
        let ghost listed = raw_ids(ids@);
        assert(fact_views(facts@) =~= Seq::empty());
        while i < ids.len()
            invariant
                i <= ids@.len(),
                listed == raw_ids(ids@),
                lists_ids(listed, self@.relations.dom()),
                self@.relations == self.parts.relations@,
                facts_increase(fact_views(facts@)),
                forall|j: int, k: int|
                    0 <= j < facts@.len() && i <= k < listed.len() ==> (#[trigger] facts@[j]).0@
                        < #[trigger] listed[k],
                forall|fact: (u64, Row)| #[trigger]
                    fact_views(facts@).contains(fact) == (self@.facts().contains(fact)
                        && listed.take(i as int).contains(fact.0)),
            decreases ids@.len() - i,
        {
            let id = ids[i];
            proof {
                assert(listed[i as int] == id@);
                assert(listed.to_set().contains(id@));
            }
            let ghost before = fact_views(facts@);
            let ghost taken = listed.take(i as int);
            match self.parts.relations.get(id) {
                None => {},
                Some(state) => {
                    let bindings = free_bindings(state.metadata().arity());
                    match state.scan(&bindings) {
                        Err(_) => {},
                        Ok(found) => {
                            proof {
                                lemma_free_matching(state@.rows, state@.metadata.arity as nat);
                            }
                            push_facts(&mut facts, id, found);
                            proof {
                                let after = fact_views(facts@);
                                assert(listed.take(i + 1) =~= taken.push(id@));
                                assert forall|fact: (u64, Row)| #[trigger]
                                    after.contains(fact) == (self@.facts().contains(fact)
                                        && listed.take(i + 1).contains(fact.0)) by {
                                    assert(after.to_set().contains(fact) == after.contains(fact));
                                    assert(before.to_set().contains(fact) == before.contains(fact));
                                    assert(before.contains(fact) == (self@.facts().contains(fact)
                                        && taken.contains(fact.0)));
                                    if fact.0 == id@ {
                                        assert(listed.take(i + 1)[i as int] == id@);
                                        if taken.contains(fact.0) {
                                            let k = choose|k: int|
                                                0 <= k < taken.len() && taken[k] == fact.0;
                                            assert(listed[k] < listed[i as int]);
                                        }
                                    } else {
                                        if taken.contains(fact.0) {
                                            let k = choose|k: int|
                                                0 <= k < taken.len() && taken[k] == fact.0;
                                            assert(listed.take(i + 1)[k] == fact.0);
                                        }
                                        if listed.take(i + 1).contains(fact.0) {
                                            let more = listed.take(i + 1);
                                            let k = choose|k: int|
                                                0 <= k < more.len() && more[k] == fact.0;
                                            assert(taken[k] == fact.0);
                                        }
                                    }
                                }
                                assert forall|j: int, k: int|
                                    0 <= j < facts@.len() && i + 1 <= k < listed.len() implies (
                                #[trigger] facts@[j]).0@ < #[trigger] listed[k] by {
                                    assert(listed[i as int] < listed[k]);
                                }
                            }
                        },
                    }
                },
            }
            i = i + 1;
        }
        proof {
            assert(listed.take(i as int) =~= listed);
            assert forall|fact: (u64, Row)|
                fact_views(facts@).to_set().contains(fact) == self@.facts().contains(fact) by {
                assert(fact_views(facts@).contains(fact) == (self@.facts().contains(fact)
                    && listed.take(i as int).contains(fact.0)));
                if self@.facts().contains(fact) {
                    assert(listed.to_set().contains(fact.0));
                }
            }
            assert(fact_views(facts@).to_set() =~= self@.facts());
        }
        facts
    }

    /// What there is to say of the relations and rules.
    pub fn catalog_facts(&self) -> (facts: Vec<CatalogFact>)
        ensures
            said(facts@) == catalog_said(
                CatalogView { relations: listed_metadata(self@.relations), rules: self@.rules },
                kinds_stored(*self),
            ),
    {
        catalog_facts(self)
    }
}

impl ComputedRelationRead for Snapshot {
    open spec fn shown(&self) -> ShownView {
        ShownView {
            version: self@.version,
            visible: Map::new(|relation: u64| true, |relation: u64| self@.visible(relation)),
            catalog: CatalogView {
                relations: listed_metadata(self@.relations),
                rules: self@.rules,
            },
            kinds: kinds_stored(*self),
            facts: self@.facts(),
        }
    }

    fn read_relation(&self, relation: RelationId, bindings: &[Option<Value>]) -> (result: Result<
        Vec<Tuple>,
        KernelError,
    >) {
        self.scan(relation, bindings)
    }

    fn version(&self) -> (version: Version) {
        self.parts.version
    }

    fn relation_metadata_vec(&self) -> (relations: Vec<RelationMetadata>) {
        self.relation_metadata()
    }

    fn rules_vec(&self) -> (rules: Vec<RuleDefinition>) {
        copy_definitions(&self.parts.rules)
    }

    fn index_storage_kind(&self, relation: RelationId, ordinal: usize) -> (kind: Option<Symbol>) {
        match self.parts.relations.get(relation) {
            None => None,
            Some(state) => {
                if self.parts.computed_relations.is_computed_relation(state.metadata()) {
                    return None;
                }
                match state.index_storage_kind(ordinal) {
                    None => None,
                    Some(name) => Some(Symbol::intern(name)),
                }
            },
        }
    }

    fn extensional_facts(&self) -> (facts: Vec<(RelationId, Tuple)>) {
        Snapshot::extensional_facts(self)
    }
}

/// How many values the first row has that has not as many as it should.
pub open spec fn first_misfit(found: Seq<Row>, arity: u16) -> Option<nat>
    decreases found.len(),
{
    if found.len() == 0 {
        None
    } else {
        match first_misfit(found.drop_last(), arity) {
            Some(len) => Some(len),
            None => if found.last().len() != arity {
                Some(found.last().len())
            } else {
                None
            },
        }
    }
}

fn find_misfit(found: &[Tuple], arity: u16) -> (misfit: Option<usize>)
    ensures
        match misfit {
            Some(len) => first_misfit(rows(found@), arity) == Some(len as nat),
            None => first_misfit(rows(found@), arity) is None && forall|i: int|
                0 <= i < found@.len() ==> (#[trigger] found@[i])@.len() == arity,
        },
{
    let ghost all = rows(found@);
    let mut i: usize = 0;
    assert(all.take(0) =~= Seq::empty());
    while i < found.len()
        invariant
            i <= found@.len(),
            all == rows(found@),
            first_misfit(all.take(i as int), arity) is None,
            forall|j: int| 0 <= j < i ==> (#[trigger] found@[j])@.len() == arity,
        decreases found@.len() - i,
    {
        proof {
            assert(all.take(i + 1).drop_last() =~= all.take(i as int));
            assert(all.take(i + 1).last() == found@[i as int]@);
        }
        if found[i].arity() != arity as usize {
            proof {
                lemma_misfit_early(all, arity, i + 1);
            }
            return Some(found[i].arity());
        }
        i = i + 1;
    }
    assert(all.take(i as int) =~= all);
    None
}

proof fn lemma_misfit_early(found: Seq<Row>, arity: u16, n: int)
    requires
        0 <= n <= found.len(),
        first_misfit(found.take(n), arity) is Some,
    ensures
        first_misfit(found, arity) == first_misfit(found.take(n), arity),
    decreases found.len(),
{
    if n == found.len() {
        assert(found.take(n) =~= found);
    } else {
        assert(found.drop_last().take(n) =~= found.take(n));
        lemma_misfit_early(found.drop_last(), arity, n);
    }
}

/// Relations and the rows that rules derive for them.
pub open spec fn derived_views(derived: Seq<(RelationId, Vec<Tuple>)>) -> Seq<(u64, Seq<Row>)> {
    derived.map_values(|entry: (RelationId, Vec<Tuple>)| (entry.0@, rows(entry.1@)))
}

/// The derived rows by relation, where the relations are there and the rows fit.
pub open spec fn derived_map(
    relations: Map<u64, RelationView>,
    derived: Seq<(u64, Seq<Row>)>,
) -> Result<Map<u64, RelationView>, FaultView>
    decreases derived.len(),
{
    if derived.len() == 0 {
        Ok(Map::empty())
    } else {
        match derived_map(relations, derived.drop_last()) {
            Err(fault) => Err(fault),
            Ok(before) => {
                let (id, found) = derived.last();
                if !relations.contains_key(id) {
                    Err(FaultView::UnknownRelation(id))
                } else {
                    let metadata = relations[id].metadata;
                    match first_misfit(found, metadata.arity) {
                        Some(len) => Err(FaultView::ArityMismatch(id, metadata.arity, len)),
                        None => Ok(
                            before.insert(id, RelationView { metadata, rows: found.to_set() }),
                        ),
                    }
                }
            },
        }
    }
}

proof fn lemma_derived_fails(
    relations: Map<u64, RelationView>,
    derived: Seq<(u64, Seq<Row>)>,
    n: int,
)
    requires
        0 <= n <= derived.len(),
        derived_map(relations, derived.take(n)) is Err,
    ensures
        derived_map(relations, derived) == derived_map(relations, derived.take(n)),
    decreases derived.len(),
{
    if n == derived.len() {
        assert(derived.take(n) =~= derived);
    } else {
        assert(derived.drop_last().take(n) =~= derived.take(n));
        lemma_derived_fails(relations, derived.drop_last(), n);
    }
}

/// The derived rows by relation.
pub fn build_derived_relations(
    relations: &RelationStates,
    derived: &[(RelationId, Vec<Tuple>)],
) -> (result: Result<RelationStates, KernelError>)
    ensures
        match (result, derived_map(relations@, derived_views(derived@))) {
            (Ok(states), Ok(expected)) => states@ == expected && derived_of(
                DerivedView::Evaluated(states@),
                relations@,
            ),
            (Err(error), Err(fault)) => error@ == fault,
            _ => false,
        },
{
    let ghost all = derived_views(derived@);
    let mut states = RelationStates::new();
    let mut i: usize = 0;
    assert(all.take(0) =~= Seq::empty());
    while i < derived.len()
        invariant
            i <= derived@.len(),
            all == derived_views(derived@),
            derived_map(relations@, all.take(i as int)) == Ok::<_, FaultView>(states@),
            derived_of(DerivedView::Evaluated(states@), relations@),
        decreases derived@.len() - i,
    {
        let id = derived[i].0;
        proof {
            assert(all.take(i + 1).drop_last() =~= all.take(i as int));
            assert(all.take(i + 1).last() == (id@, rows(derived@[i as int].1@)));
        }
        let state = match relations.get(id) {
            None => {
                proof {
                    lemma_derived_fails(relations@, all, i + 1);
                }
                return Err(KernelError::UnknownRelation(id));
            },
            Some(state) => state,
        };
        let arity: u16 = state.metadata().arity();
        match find_misfit(&derived[i].1, arity) {
            Some(actual) => {
                proof {
                    lemma_derived_fails(relations@, all, i + 1);
                }
                return Err(KernelError::ArityMismatch { relation: id, expected: arity, actual });
            },
            None => {},
        }
        let found = finish_tuple_rows(copy_tuples(&derived[i].1));
        match RelationState::empty(state.metadata().clone()) {
            Err(_) => {},
            Ok(mut own) => {
                proof {
                    assert forall|j: int| 0 <= j < found@.len() implies (#[trigger] found@[j])@.len()
                        == arity by {
                        assert(rows(found@)[j] == found@[j]@);
                        assert(rows(found@).to_set().contains(found@[j]@));
                        let given = rows(derived@[i as int].1@);
                        assert(given.contains(found@[j]@));
                        let k = choose|k: int| 0 <= k < given.len() && given[k] == found@[j]@;
                        assert(derived@[i as int].1@[k]@ == given[k]);
                    }
                }
                own.apply_ordered_asserts_to_empty(&found);
                states.insert(own);
            },
        }
        i = i + 1;
    }
    assert(all.take(i as int) =~= all);
    Ok(states)
}

/// What evaluating rules gave.
pub open spec fn derived_outcome(
    relations: Map<u64, RelationView>,
    outcome: Result<Vec<(RelationId, Vec<Tuple>)>, KernelError>,
) -> DerivedView {
    match outcome {
        Err(error) => DerivedView::Failed(error@),
        Ok(derived) => match derived_map(relations, derived_views(derived@)) {
            Err(fault) => DerivedView::Failed(fault),
            Ok(states) => DerivedView::Evaluated(states),
        },
    }
}

impl Snapshot {
    /// The snapshot with what evaluating its rules gave, and the relations whose derived
    /// rows are kept up to date.
    pub fn with_derived(
        self,
        outcome: Result<Vec<(RelationId, Vec<Tuple>)>, KernelError>,
        maintained: Option<Vec<RelationId>>,
    ) -> (snapshot: Snapshot)
        ensures
            snapshot@ == (SnapshotView {
                derived: derived_outcome(self@.relations, outcome),
                maintained: match maintained {
                    Some(targets) => Some(raw_ids(targets@)),
                    None => None,
                },
                ..self@
            }),
    {
        let derived = match outcome {
            Err(error) => DerivedRelations::Failed(error),
            Ok(derived) => match build_derived_relations(&self.parts.relations, &derived) {
                Err(error) => DerivedRelations::Failed(error),
                Ok(states) => DerivedRelations::Evaluated(states),
            },
        };
        let parts = self.parts;
        Snapshot {
            parts: Parts {
                version: parts.version,
                relations: parts.relations,
                rules: parts.rules,
                computed_relations: parts.computed_relations,
                derived,
                maintained,
                commits: parts.commits,
            },
        }
    }

    /// The snapshot with other commits that led to it.
    pub fn with_history(self, commits: CommitHistory) -> (snapshot: Snapshot)
        ensures
            snapshot@ == (SnapshotView { commits: commits@, ..self@ }),
    {
        proof {
            use_type_invariant(&self);
        }
        let parts = self.parts;
        Snapshot {
            parts: Parts {
                version: parts.version,
                relations: parts.relations,
                rules: parts.rules,
                computed_relations: parts.computed_relations,
                derived: parts.derived,
                maintained: parts.maintained,
                commits,
            },
        }
    }

    /// The rows that rules derive, as far as they are known.
    pub fn derived(&self) -> (derived: &DerivedRelations)
        ensures
            derived@ == self@.derived,
    {
        &self.parts.derived
    }

    /// The rows that rules derive for a relation.
    pub fn derived_state(&self, relation: RelationId) -> (result: Result<
        Option<&RelationState>,
        KernelError,
    >)
        ensures
            match self@.derived {
                DerivedView::Unevaluated => result matches Err(error) && error@
                    == FaultView::RulesUnevaluated(relation@),
                DerivedView::Failed(fault) => result matches Err(error) && error@ == fault,
                DerivedView::Evaluated(states) => match result {
                    Ok(Some(state)) => states.contains_key(relation@) && state@ == states[relation@]
                        && self@.relations.contains_key(relation@) && state@.metadata
                        == self@.relations[relation@].metadata && state@.wf(),
                    Ok(None) => !states.contains_key(relation@),
                    Err(_) => false,
                },
            },
    {
        proof {
            use_type_invariant(self);
        }
        match &self.parts.derived {
            DerivedRelations::Unevaluated => Err(KernelError::RulesUnevaluated(relation)),
            DerivedRelations::Failed(error) => Err(error.clone()),
            DerivedRelations::Evaluated(states) => Ok(states.get(relation)),
        }
    }

    /// Whether the rows that rules derive for a relation have to be evaluated before the
    /// relation can be read.
    pub fn needs_evaluation(&self, relation: RelationId) -> (result: bool)
        ensures
            result == (derives(self@.rules, relation@) && self@.derived is Unevaluated),
    {
        relation_has_active_rule_head(&self.parts.rules, relation) && matches!(
            self.parts.derived,
            DerivedRelations::Unevaluated
        )
    }
}

} // verus!
