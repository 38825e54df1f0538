//! Building a snapshot from what was stored.

use crate::kernel::commit::{catalog_change_views, commit_views, fact_change_views, CatalogChange,
    CatalogChangeView, Commit, CommitHistory, CommitView, FactChangeKind, FactChangeView};
use crate::kernel::computed::{ComputedRelation, ComputedRelationRegistry, RegistryView};
use crate::kernel::error::{FaultView, KernelError, RuleError};
use crate::kernel::metadata::{MetadataView, RelationDurability, RelationId, RelationMetadata,
    Version};
use crate::kernel::read::{fact_views, metadata_views};
use crate::kernel::relation::{metadata_fault, RelationState, RelationView};
use crate::kernel::rules::{active_rule_views, copy_definitions, definition_views, DefinitionView,
    RuleDefinition};
use crate::kernel::ruling::{disable_rule_in, disabling, rule_fault, validate_installed,
    validate_rule_definition_against_relations};
use crate::kernel::snapshot::{listed_metadata, DerivedView, Snapshot, SnapshotView};
use crate::kernel::states::{id_listing, raw_ids, RelationStates};
use crate::kernel::strata::stratified;
use crate::kernel::algebra::Row;
use crate::tuple::Tuple;
use std::sync::Arc;
use vstd::prelude::*;

verus! {

/// What a store holds: the relations, the rules and the rows at a version.
pub struct PersistedKernelState {
    pub version: Version,
    pub relations: Vec<RelationMetadata>,
    pub rules: Vec<RuleDefinition>,
    pub facts: Vec<(RelationId, Tuple)>,
}

/// Relations and rules while they are built.
pub struct LoadView {
    pub relations: Map<u64, RelationView>,
    pub rules: Seq<DefinitionView>,
}

struct Loading {
    relations: RelationStates,
    rules: Vec<RuleDefinition>,
}

impl View for Loading {
    type V = LoadView;

    closed spec fn view(&self) -> LoadView {
        LoadView { relations: self.relations@, rules: definition_views(self.rules@) }
    }
}

/// The relations with one more, which has no rows.
pub open spec fn with_relation(relations: Map<u64, RelationView>, metadata: MetadataView) -> Result<
    Map<u64, RelationView>,
    FaultView,
> {
    match metadata_fault(metadata) {
        Some(fault) => Err(fault),
        None => Ok(
            relations.insert(metadata.id, RelationView { metadata, rows: Set::empty() }),
        ),
    }
}

/// The relations with more, which have no rows.
pub open spec fn with_relations(
    relations: Map<u64, RelationView>,
    metadata: Seq<MetadataView>,
) -> Result<Map<u64, RelationView>, FaultView>
    decreases metadata.len(),
{
    if metadata.len() == 0 {
        Ok(relations)
    } else {
        match with_relations(relations, metadata.drop_last()) {
            Err(fault) => Err(fault),
            Ok(before) => with_relation(before, metadata.last()),
        }
    }
}

/// The rules with one more.
pub open spec fn with_rule(loaded: LoadView, rule: DefinitionView) -> Result<LoadView, FaultView> {
    match rule_fault(loaded.relations, rule.rule) {
        Some(fault) => Err(fault),
        None => if stratified(active_rule_views(loaded.rules.push(rule))) {
            Ok(LoadView { rules: loaded.rules.push(rule), ..loaded })
        } else {
            Err(FaultView::Rule(RuleError::Unstratified))
        },
    }
}

/// What a change to the catalog does. Relations are created where `creates` says so; where
/// not, they are there from the start.
pub open spec fn with_catalog_change(
    loaded: LoadView,
    change: CatalogChangeView,
    creates: bool,
) -> Result<LoadView, FaultView> {
    match change {
        CatalogChangeView::RelationCreated(metadata) => if !creates {
            Ok(loaded)
        } else {
            match with_relation(loaded.relations, metadata) {
                Err(fault) => Err(fault),
                Ok(relations) => Ok(LoadView { relations, ..loaded }),
            }
        },
        CatalogChangeView::RuleInstalled(rule) => with_rule(loaded, rule),
        CatalogChangeView::RuleDisabled(id) => match disabling(loaded.rules, id) {
            Err(fault) => Err(fault),
            Ok(rules) => Ok(LoadView { rules, ..loaded }),
        },
    }
}

/// What changes to the catalog do.
pub open spec fn with_catalog_changes(
    loaded: LoadView,
    changes: Seq<CatalogChangeView>,
    creates: bool,
) -> Result<LoadView, FaultView>
    decreases changes.len(),
{
    if changes.len() == 0 {
        Ok(loaded)
    } else {
        match with_catalog_changes(loaded, changes.drop_last(), creates) {
            Err(fault) => Err(fault),
            Ok(before) => with_catalog_change(before, changes.last(), creates),
        }
    }
}

/// What a change to a row does. Rows of volatile relations are not taken from a store.
pub open spec fn with_fact_change(
    relations: Map<u64, RelationView>,
    change: FactChangeView,
) -> Result<Map<u64, RelationView>, FaultView> {
    let id = change.relation;
    if !relations.contains_key(id) {
        Err(FaultView::UnknownRelation(id))
    } else if relations[id].metadata.durability is Volatile {
        Ok(relations)
    } else if relations[id].metadata.arity != change.row.len() {
        Err(FaultView::ArityMismatch(id, relations[id].metadata.arity, change.row.len()))
    } else {
        Ok(
            relations.insert(
                id,
                RelationView {
                    metadata: relations[id].metadata,
                    rows: match change.kind {
                        FactChangeKind::Assert => relations[id].rows.insert(change.row),
                        FactChangeKind::Retract => relations[id].rows.remove(change.row),
                    },
                },
            ),
        )
    }
}

/// What changes to rows do.
pub open spec fn with_fact_changes(
    relations: Map<u64, RelationView>,
    changes: Seq<FactChangeView>,
) -> Result<Map<u64, RelationView>, FaultView>
    decreases changes.len(),
{
    if changes.len() == 0 {
        Ok(relations)
    } else {
        match with_fact_changes(relations, changes.drop_last()) {
            Err(fault) => Err(fault),
            Ok(before) => with_fact_change(before, changes.last()),
        }
    }
}

/// What a commit does.
pub open spec fn with_commit(loaded: LoadView, commit: CommitView, creates: bool) -> Result<
    LoadView,
    FaultView,
> {
    match with_catalog_changes(loaded, commit.catalog_changes, creates) {
        Err(fault) => Err(fault),
        Ok(before) => match with_fact_changes(before.relations, commit.changes) {
            Err(fault) => Err(fault),
            Ok(relations) => Ok(LoadView { relations, ..before }),
        },
    }
}

/// What commits do, oldest first.
pub open spec fn with_commits(loaded: LoadView, commits: Seq<CommitView>, creates: bool) -> Result<
    LoadView,
    FaultView,
>
    decreases commits.len(),
{
    if commits.len() == 0 {
        Ok(loaded)
    } else {
        match with_commits(loaded, commits.drop_last(), creates) {
            Err(fault) => Err(fault),
            Ok(before) => with_commit(before, commits.last(), creates),
        }
    }
}

/// How many changes to rows commits hold.
pub open spec fn change_count(commits: Seq<CommitView>) -> nat
    decreases commits.len(),
{
    if commits.len() == 0 {
        0
    } else {
        change_count(commits.drop_last()) + commits.last().changes.len()
    }
}

/// Whether no relation has more rows than `count`.
spec fn at_most(relations: Map<u64, RelationView>, count: nat) -> bool {
    forall|id: u64| #[trigger]
        relations.contains_key(id) ==> relations[id].rows.finite() && relations[id].rows.len()
            <= count
}

proof fn lemma_relations_early(
    relations: Map<u64, RelationView>,
    metadata: Seq<MetadataView>,
    n: int,
)
    requires
        0 <= n <= metadata.len(),
        with_relations(relations, metadata.take(n)) is Err,
    ensures
        with_relations(relations, metadata) == with_relations(relations, metadata.take(n)),
    decreases metadata.len(),
{
    if n == metadata.len() {
        assert(metadata.take(n) =~= metadata);
    } else {
        assert(metadata.drop_last().take(n) =~= metadata.take(n));
        lemma_relations_early(relations, metadata.drop_last(), n);
    }
}

proof fn lemma_catalog_early(
    loaded: LoadView,
    changes: Seq<CatalogChangeView>,
    creates: bool,
    n: int,
)
    requires
        0 <= n <= changes.len(),
        with_catalog_changes(loaded, changes.take(n), creates) is Err,
    ensures
        with_catalog_changes(loaded, changes, creates) == with_catalog_changes(
            loaded,
            changes.take(n),
            creates,
        ),
    decreases changes.len(),
{
    if n == changes.len() {
        assert(changes.take(n) =~= changes);
    } else {
        assert(changes.drop_last().take(n) =~= changes.take(n));
        lemma_catalog_early(loaded, changes.drop_last(), creates, n);
    }
}

proof fn lemma_facts_early(relations: Map<u64, RelationView>, changes: Seq<FactChangeView>, n: int)
    requires
        0 <= n <= changes.len(),
        with_fact_changes(relations, changes.take(n)) is Err,
    ensures
        with_fact_changes(relations, changes) == with_fact_changes(relations, changes.take(n)),
    decreases changes.len(),
{
    if n == changes.len() {
        assert(changes.take(n) =~= changes);
    } else {
        assert(changes.drop_last().take(n) =~= changes.take(n));
        lemma_facts_early(relations, changes.drop_last(), n);
    }
}

proof fn lemma_commits_early(loaded: LoadView, commits: Seq<CommitView>, creates: bool, n: int)
    requires
        0 <= n <= commits.len(),
        with_commits(loaded, commits.take(n), creates) is Err,
    ensures
        with_commits(loaded, commits, creates) == with_commits(loaded, commits.take(n), creates),
    decreases commits.len(),
{
    if n == commits.len() {
        assert(commits.take(n) =~= commits);
    } else {
        assert(commits.drop_last().take(n) =~= commits.take(n));
        lemma_commits_early(loaded, commits.drop_last(), creates, n);
    }
}

proof fn lemma_change_count(commits: Seq<CommitView>, n: int)
    requires
        0 <= n <= commits.len(),
    ensures
        change_count(commits.take(n)) <= change_count(commits),
    decreases commits.len(),
{
    if n == commits.len() {
        assert(commits.take(n) =~= commits);
    } else {
        assert(commits.drop_last().take(n) =~= commits.take(n));
        lemma_change_count(commits.drop_last(), n);
    }
}

impl Loading {
    fn create(&mut self, metadata: RelationMetadata) -> (result: Result<(), KernelError>)
        ensures
            final(self)@.rules == old(self)@.rules,
            match (result, with_relation(old(self)@.relations, metadata@)) {
                (Ok(()), Ok(relations)) => final(self)@.relations == relations,
                (Err(error), Err(fault)) => error@ == fault && final(self)@ == old(self)@,
                _ => false,
            },
    {
        match RelationState::empty(metadata) {
            Err(error) => Err(error),
            Ok(state) => {
                self.relations.insert(state);
                Ok(())
            },
        }
    }

    fn change_catalog(&mut self, change: &CatalogChange, creates: bool) -> (result: Result<
        (),
        KernelError,
    >)
        ensures
            match (result, with_catalog_change(old(self)@, change@, creates)) {
                (Ok(()), Ok(loaded)) => final(self)@ == loaded,
                (Err(error), Err(fault)) => error@ == fault,
                _ => false,
            },
            forall|count: nat| #[trigger]
                at_most(old(self)@.relations, count) ==> at_most(final(self)@.relations, count),
    {
        match change {
            CatalogChange::RelationCreated(metadata) => {
                if !creates {
                    return Ok(());
                }
                self.create(metadata.clone())
            },
            CatalogChange::RuleInstalled(rule) => {
                match validate_rule_definition_against_relations(&self.relations, rule) {
                    Err(error) => {
                        return Err(error);
                    },
                    Ok(()) => {},
                }
                let mut rules = copy_definitions(&self.rules);
                let ghost before = rules@;
                rules.push(rule.clone());
                assert(definition_views(rules@) =~= definition_views(before).push(rule@));
                match validate_installed(&rules) {
                    Err(error) => Err(error),
                    Ok(()) => {
                        self.rules = rules;
                        Ok(())
                    },
                }
            },
            CatalogChange::RuleDisabled(rule) => disable_rule_in(&mut self.rules, *rule),
        }
    }

    fn change_fact(
        &mut self,
        relation: RelationId,
        tuple: &Tuple,
        kind: FactChangeKind,
        Ghost(count): Ghost<nat>,
    ) -> (result: Result<(), KernelError>)
        requires
            at_most(old(self)@.relations, count),
            count < usize::MAX,
        ensures
            final(self)@.rules == old(self)@.rules,
            match (
                result,
                with_fact_change(
                    old(self)@.relations,
                    (FactChangeView { relation: relation@, row: tuple@, kind }),
                ),
            ) {
                (Ok(()), Ok(relations)) => final(self)@.relations == relations && at_most(
                    final(self)@.relations,
                    count + 1,
                ),
                (Err(error), Err(fault)) => error@ == fault,
                _ => false,
            },
    {
        match self.relations.get(relation) {
            None => {
                return Err(KernelError::UnknownRelation(relation));
            },
            Some(state) => {
                if matches!(state.metadata().durability(), RelationDurability::Volatile) {
                    return Ok(());
                }
                let expected: u16 = state.metadata().arity();
                if expected as usize != tuple.arity() {
                    return Err(
                        KernelError::ArityMismatch { relation, expected, actual: tuple.arity() },
                    );
                }
            },
        }
        let ghost before = self@.relations;
        match self.relations.remove(relation) {
            None => {},
            Some(mut state) => {
                match kind {
                    FactChangeKind::Assert => {
                        let _ = state.insert(tuple.clone());
                    },
                    FactChangeKind::Retract => {
                        let _ = state.remove(tuple);
                    },
                }
                self.relations.insert(state);
                proof {
                    assert(self@.relations =~= with_fact_change(
                        before,
                        (FactChangeView { relation: relation@, row: tuple@, kind }),
                    )->Ok_0);
                }
            },
        }
        Ok(())
    }

    fn apply_commit(&mut self, commit: &Commit, creates: bool, Ghost(count): Ghost<nat>) -> (result:
        Result<(), KernelError>)
        requires
            at_most(old(self)@.relations, count),
            count + commit@.changes.len() <= usize::MAX,
        ensures
            match (result, with_commit(old(self)@, commit@, creates)) {
                (Ok(()), Ok(loaded)) => final(self)@ == loaded && at_most(
                    loaded.relations,
                    count + commit@.changes.len(),
                ),
                (Err(error), Err(fault)) => error@ == fault,
                _ => false,
            },
    {
        let ghost start = self@;
        let catalog = commit.catalog_changes();
        let ghost listed = catalog_change_views(catalog@);
        let mut i: usize = 0;
        assert(listed.take(0) =~= Seq::empty());
        while i < catalog.len()
            invariant
                i <= catalog@.len(),
                start == old(self)@,
                listed == catalog_change_views(catalog@),
                listed == commit@.catalog_changes,
                with_catalog_changes(start, listed.take(i as int), creates) == Ok::<_, FaultView>(
                    self@,
                ),
                at_most(self@.relations, count),
            decreases catalog@.len() - i,
        {
            proof {
                assert(listed.take(i + 1).drop_last() =~= listed.take(i as int));
                assert(listed.take(i + 1).last() == catalog@[i as int]@);
                if with_catalog_changes(start, listed.take(i + 1), creates) is Err {
                    lemma_catalog_early(start, listed, creates, i + 1);
                }
            }
            match self.change_catalog(&catalog[i], creates) {
                Err(error) => {
                    return Err(error);
                },
                Ok(()) => {},
            }
            i = i + 1;
        }
        assert(listed.take(i as int) =~= listed);
        let ghost middle = self@;
        let changes = commit.changes();
        let ghost all = fact_change_views(changes@);
        let mut k: usize = 0;
        assert(all.take(0) =~= Seq::empty());
        while k < changes.len()
            invariant
                k <= changes@.len(),
                start == old(self)@,
                with_catalog_changes(start, commit@.catalog_changes, creates) == Ok::<_, FaultView>(
                    middle,
                ),
                all == fact_change_views(changes@),
                all == commit@.changes,
                self@.rules == middle.rules,
                with_fact_changes(middle.relations, all.take(k as int)) == Ok::<_, FaultView>(
                    self@.relations,
                ),
                at_most(self@.relations, count + k as nat),
                count + all.len() <= usize::MAX,
            decreases changes@.len() - k,
        {
            proof {
                assert(all.take(k + 1).drop_last() =~= all.take(k as int));
                assert(all.take(k + 1).last() == changes@[k as int]@);
                if with_fact_changes(middle.relations, all.take(k + 1)) is Err {
                    lemma_facts_early(middle.relations, all, k + 1);
                }
            }
            let change = &changes[k];
            match self.change_fact(
                change.relation,
                &change.tuple,
                change.kind,
                Ghost(count + k as nat),
            ) {
                Err(error) => {
                    return Err(error);
                },
                Ok(()) => {},
            }
            k = k + 1;
        }
        assert(all.take(k as int) =~= all);
        Ok(())
    }

    fn apply_commits(&mut self, commits: &[Commit], creates: bool) -> (result: Result<
        (),
        KernelError,
    >)
        requires
            at_most(old(self)@.relations, 0),
            change_count(commit_views(commits@)) <= usize::MAX,
        ensures
            match (result, with_commits(old(self)@, commit_views(commits@), creates)) {
                (Ok(()), Ok(loaded)) => final(self)@ == loaded,
                (Err(error), Err(fault)) => error@ == fault,
                _ => false,
            },
    {
        let ghost start = self@;
        let ghost all = commit_views(commits@);
        let mut i: usize = 0;
        assert(all.take(0) =~= Seq::empty());
        while i < commits.len()
            invariant
                i <= commits@.len(),
                start == old(self)@,
                all == commit_views(commits@),
                change_count(all) <= usize::MAX,
                with_commits(start, all.take(i as int), creates) == Ok::<_, FaultView>(self@),
                at_most(self@.relations, change_count(all.take(i as int))),
            decreases commits@.len() - i,
        {
            proof {
                assert(all.take(i + 1).drop_last() =~= all.take(i as int));
                assert(all.take(i + 1).last() == commits@[i as int]@);
                lemma_change_count(all, i + 1);
                if with_commits(start, all.take(i + 1), creates) is Err {
                    lemma_commits_early(start, all, creates, i + 1);
                }
            }
            match self.apply_commit(
                &commits[i],
                creates,
                Ghost(change_count(all.take(i as int))),
            ) {
                Err(error) => {
                    return Err(error);
                },
                Ok(()) => {},
            }
            i = i + 1;
        }
        assert(all.take(i as int) =~= all);
        Ok(())
    }
}

/// The relations of a catalog, in the order of their identities.
fn all_metadata(relations: &RelationStates) -> (metadata: Vec<RelationMetadata>)
    ensures
        metadata_views(metadata@) == listed_metadata(relations@),
{
    let ids = relations.ids();
    let ghost listed = raw_ids(ids@);
    let mut metadata: Vec<RelationMetadata> = Vec::new();
    let mut i: usize = 0;
    while i < ids.len()
        invariant
            i <= ids@.len(),
            listed == raw_ids(ids@),
            listed == id_listing(relations@.dom()),
            listed.to_set() == relations@.dom(),
            metadata@.len() == i,
            forall|j: int|
                0 <= j < i ==> (#[trigger] metadata@[j])@ == relations@[listed[j]].metadata,
        decreases ids@.len() - i,
    {
        proof {
            assert(listed[i as int] == ids@[i as int]@);
            assert(listed.to_set().contains(ids@[i as int]@));
        }
        match relations.get(ids[i]) {
            None => {},
            Some(state) => {
                metadata.push(state.metadata().clone());
            },
        }
        i = i + 1;
    }
    assert(metadata_views(metadata@) =~= listed_metadata(relations@));
    metadata
}

/// The snapshot that is built from relations, rules and commits.
pub open spec fn loaded_snapshot(
    version: Version,
    loaded: LoadView,
    computed: Seq<Arc<dyn ComputedRelation>>,
    commits: Seq<CommitView>,
) -> SnapshotView {
    SnapshotView {
        version,
        relations: loaded.relations,
        rules: loaded.rules,
        computed: (RegistryView { relations: computed, bindings: Map::empty() }).bound_all(
            listed_metadata(loaded.relations),
        ),
        derived: DerivedView::Unevaluated,
        maintained: None,
        commits,
    }
}

fn finish(
    version: Version,
    loaded: Loading,
    computed_relations: Vec<Arc<dyn ComputedRelation>>,
    commits: CommitHistory,
) -> (snapshot: Snapshot)
    ensures
        snapshot@ == loaded_snapshot(version, loaded@, computed_relations@, commits@),
{
    let metadata = all_metadata(&loaded.relations);
    let computed = ComputedRelationRegistry::new(computed_relations).bind_relations(&metadata);
    Snapshot::new(version, loaded.relations, loaded.rules, computed, commits)
}

/// The version of the last commit.
pub open spec fn last_version(commits: Seq<CommitView>) -> Version {
    if commits.len() == 0 {
        0
    } else {
        commits.last().version
    }
}

fn newest(commits: &[Commit]) -> (version: Version)
    ensures
        version == last_version(commit_views(commits@)),
{
    if commits.len() == 0 {
        0
    } else {
        assert(commit_views(commits@).last() == commits@[commits@.len() - 1]@);
        commits[commits.len() - 1].version()
    }
}

/// No relations and no rules.
pub open spec fn nothing_loaded() -> LoadView {
    LoadView { relations: Map::empty(), rules: Seq::empty() }
}

fn nothing() -> (loaded: Loading)
    ensures
        loaded@ == nothing_loaded(),
        at_most(loaded@.relations, 0),
{
    let rules: Vec<RuleDefinition> = Vec::new();
    assert(definition_views(rules@) =~= Seq::empty());
    Loading { relations: RelationStates::new(), rules }
}

fn create_all(relations: Vec<RelationMetadata>) -> (result: Result<Loading, KernelError>)
    ensures
        match (result, with_relations(Map::empty(), metadata_views(relations@))) {
            (Ok(loaded), Ok(expected)) => loaded@ == (LoadView {
                relations: expected,
                rules: Seq::empty(),
            }) && at_most(expected, 0),
            (Err(error), Err(fault)) => error@ == fault,
            _ => false,
        },
{
    let mut loaded = nothing();
    let ghost all = metadata_views(relations@);
    let mut i: usize = 0;
    assert(all.take(0) =~= Seq::empty());
    while i < relations.len()
        invariant
            i <= relations@.len(),
            all == metadata_views(relations@),
            loaded@.rules == Seq::<DefinitionView>::empty(),
            with_relations(Map::empty(), all.take(i as int)) == Ok::<_, FaultView>(
                loaded@.relations,
            ),
            at_most(loaded@.relations, 0),
        decreases relations@.len() - i,
    {
        proof {
            assert(all.take(i + 1).drop_last() =~= all.take(i as int));
            assert(all.take(i + 1).last() == relations@[i as int]@);
            if with_relations(Map::empty(), all.take(i + 1)) is Err {
                lemma_relations_early(Map::empty(), all, i + 1);
            }
        }
        match loaded.create(relations[i].clone()) {
            Err(error) => {
                return Err(error);
            },
            Ok(()) => {},
        }
        i = i + 1;
    }
    assert(all.take(i as int) =~= all);
    Ok(loaded)
}

/// What relations that are there from the start and commits come to.
pub open spec fn commits_loaded(
    relations: Seq<MetadataView>,
    commits: Seq<CommitView>,
) -> Result<LoadView, FaultView> {
    match with_relations(Map::empty(), relations) {
        Err(fault) => Err(fault),
        Ok(start) => with_commits(
            LoadView { relations: start, rules: Seq::empty() },
            commits,
            false,
        ),
    }
}

/// Builds a snapshot from relations and commits.
pub fn snapshot_from_commits(
    relations: Vec<RelationMetadata>,
    commits: Vec<Commit>,
    computed_relations: Vec<Arc<dyn ComputedRelation>>,
) -> (result: Result<Snapshot, KernelError>)
    requires
        change_count(commit_views(commits@)) <= usize::MAX,
    ensures
        match (result, commits_loaded(metadata_views(relations@), commit_views(commits@))) {
            (Ok(snapshot), Ok(loaded)) => snapshot@ == loaded_snapshot(
                last_version(commit_views(commits@)),
                loaded,
                computed_relations@,
                commit_views(commits@),
            ),
            (Err(error), Err(fault)) => error@ == fault,
            _ => false,
        },
{
    let mut loaded = match create_all(relations) {
        Err(error) => {
            return Err(error);
        },
        Ok(loaded) => loaded,
    };
    match loaded.apply_commits(&commits, false) {
        Err(error) => {
            return Err(error);
        },
        Ok(()) => {},
    }
    let version = newest(&commits);
    Ok(finish(version, loaded, computed_relations, CommitHistory::from_commits(commits)))
}

/// Builds a snapshot from commits alone.
pub fn snapshot_from_commit_log(
    commits: Vec<Commit>,
    computed_relations: Vec<Arc<dyn ComputedRelation>>,
) -> (result: Result<Snapshot, KernelError>)
    requires
        change_count(commit_views(commits@)) <= usize::MAX,
    ensures
        match (result, with_commits(nothing_loaded(), commit_views(commits@), true)) {
            (Ok(snapshot), Ok(loaded)) => snapshot@ == loaded_snapshot(
                last_version(commit_views(commits@)),
                loaded,
                computed_relations@,
                commit_views(commits@),
            ),
            (Err(error), Err(fault)) => error@ == fault,
            _ => false,
        },
{
    let mut loaded = nothing();
    match loaded.apply_commits(&commits, true) {
        Err(error) => {
            return Err(error);
        },
        Ok(()) => {},
    }
    let version = newest(&commits);
    Ok(finish(version, loaded, computed_relations, CommitHistory::from_commits(commits)))
}

/// What is wrong with the first rule that names a relation wrongly.
pub open spec fn rules_fault(
    relations: Map<u64, RelationView>,
    rules: Seq<DefinitionView>,
) -> Option<FaultView>
    decreases rules.len(),
{
    if rules.len() == 0 {
        None
    } else {
        match rules_fault(relations, rules.drop_last()) {
            Some(fault) => Some(fault),
            None => rule_fault(relations, rules.last().rule),
        }
    }
}

proof fn lemma_rules_early(
    relations: Map<u64, RelationView>,
    rules: Seq<DefinitionView>,
    n: int,
)
    requires
        0 <= n <= rules.len(),
        rules_fault(relations, rules.take(n)) is Some,
    ensures
        rules_fault(relations, rules) == rules_fault(relations, rules.take(n)),
    decreases rules.len(),
{
    if n == rules.len() {
        assert(rules.take(n) =~= rules);
    } else {
        assert(rules.drop_last().take(n) =~= rules.take(n));
        lemma_rules_early(relations, rules.drop_last(), n);
    }
}

fn check_rules(relations: &RelationStates, rules: &[RuleDefinition]) -> (result: Result<
    (),
    KernelError,
>)
    ensures
        match result {
            Ok(()) => rules_fault(relations@, definition_views(rules@)) is None,
            Err(error) => rules_fault(relations@, definition_views(rules@)) == Some(error@),
        },
{
    let ghost all = definition_views(rules@);
    let mut i: usize = 0;
    assert(all.take(0) =~= Seq::empty());
    while i < rules.len()
        invariant
            i <= rules@.len(),
            all == definition_views(rules@),
            rules_fault(relations@, all.take(i as int)) is None,
        decreases rules@.len() - i,
    {
        proof {
            assert(all.take(i + 1).drop_last() =~= all.take(i as int));
            assert(all.take(i + 1).last() == rules@[i as int]@);
            if rules_fault(relations@, all.take(i + 1)) is Some {
                lemma_rules_early(relations@, all, i + 1);
            }
        }
        match validate_rule_definition_against_relations(relations, &rules[i]) {
            Err(error) => {
                return Err(error);
            },
            Ok(()) => {},
        }
        i = i + 1;
    }
    assert(all.take(i as int) =~= all);
    Ok(())
}

/// Rows that are stored, as changes.
pub open spec fn as_asserts(facts: Seq<(u64, Row)>) -> Seq<FactChangeView> {
    facts.map_values(
        |fact: (u64, Row)|
            FactChangeView { relation: fact.0, row: fact.1, kind: FactChangeKind::Assert },
    )
}

/// What a store comes to: its relations, its rules, where they are right, and its rows.
pub open spec fn state_loaded(
    relations: Seq<MetadataView>,
    rules: Seq<DefinitionView>,
    facts: Seq<(u64, Row)>,
) -> Result<LoadView, FaultView> {
    match with_relations(Map::empty(), relations) {
        Err(fault) => Err(fault),
        Ok(start) => match rules_fault(start, rules) {
            Some(fault) => Err(fault),
            None => if !stratified(active_rule_views(rules)) {
                Err(FaultView::Rule(RuleError::Unstratified))
            } else {
                match with_fact_changes(start, as_asserts(facts)) {
                    Err(fault) => Err(fault),
                    Ok(relations) => Ok(LoadView { relations, rules }),
                }
            },
        },
    }
}

/// Builds a snapshot from what a store holds.
pub fn snapshot_from_state(
    state: PersistedKernelState,
    computed_relations: Vec<Arc<dyn ComputedRelation>>,
) -> (result: Result<Snapshot, KernelError>)
    ensures
        match (
            result,
            state_loaded(
                metadata_views(state.relations@),
                definition_views(state.rules@),
                fact_views(state.facts@),
            ),
        ) {
            (Ok(snapshot), Ok(loaded)) => snapshot@ == loaded_snapshot(
                state.version,
                loaded,
                computed_relations@,
                Seq::empty(),
            ),
            (Err(error), Err(fault)) => error@ == fault,
            _ => false,
        },
{
    let ghost given = definition_views(state.rules@);
    let mut loaded = match create_all(state.relations) {
        Err(error) => {
            return Err(error);
        },
        Ok(loaded) => loaded,
    };
    let ghost start = loaded@.relations;
    match check_rules(&loaded.relations, &state.rules) {
        Err(error) => {
            return Err(error);
        },
        Ok(()) => {},
    }
    match validate_installed(&state.rules) {
        Err(error) => {
            return Err(error);
        },
        Ok(()) => {},
    }
    let facts = state.facts;
    let ghost all = as_asserts(fact_views(facts@));
    let mut i: usize = 0;
    assert(all.take(0) =~= Seq::empty());
    while i < facts.len()
        invariant
            i <= facts@.len(),
            facts == state.facts,
            given == definition_views(state.rules@),
            all == as_asserts(fact_views(facts@)),
            with_relations(Map::empty(), metadata_views(state.relations@)) == Ok::<_, FaultView>(
                start,
            ),
            rules_fault(start, given) is None,
            stratified(active_rule_views(given)),
            with_fact_changes(start, all.take(i as int)) == Ok::<_, FaultView>(loaded@.relations),
            at_most(loaded@.relations, i as nat),
        decreases facts@.len() - i,
    {
        proof {
            assert(all.take(i + 1).drop_last() =~= all.take(i as int));
            assert(all.take(i + 1).last() == (FactChangeView {
                relation: facts@[i as int].0@,
                row: facts@[i as int].1@,
                kind: FactChangeKind::Assert,
            }));
            if with_fact_changes(start, all.take(i + 1)) is Err {
                lemma_facts_early(start, all, i + 1);
            }
        }
        match loaded.change_fact(facts[i].0, &facts[i].1, FactChangeKind::Assert, Ghost(i as nat)) {
            Err(error) => {
                return Err(error);
            },
            Ok(()) => {},
        }
        i = i + 1;
    }
    assert(all.take(i as int) =~= all);
    loaded.rules = state.rules;
    Ok(finish(state.version, loaded, computed_relations, CommitHistory::empty()))
}

} // verus!
