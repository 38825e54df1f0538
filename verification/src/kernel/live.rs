//! The kernel: the newest snapshot, and what makes newer ones of it.

use crate::kernel::commit::{catalog_change_views, commit_views, copy_catalog_changes,
    fact_change_views, CatalogChange, CatalogChangeView, Commit, CommitHistory, CommitView,
    FactChange, FactChangeView};
use crate::kernel::committing::{commit_catalog, commit_rows, fails, leads_to, record_commit,
    recorded, records, rows_committed, CommitResult, Evaluation};
use crate::kernel::computed::{ComputedRelation, ComputedRelationRegistry, RegistryView};
use crate::kernel::dispatch::PrimitivePrototypes;
use crate::kernel::error::{FaultView, KernelError, RuleError};
use crate::kernel::forking::{catalog_difference, in_order, plan_staged, plans_staged,
    staged_fault, staged_next, StagedPlan};
use crate::kernel::loading::{change_count, commits_loaded, last_version, loaded_snapshot,
    nothing_loaded, snapshot_from_commit_log, snapshot_from_commits, snapshot_from_state,
    state_loaded, with_commits, PersistedKernelState};
use crate::kernel::metadata::{MetadataView, RelationDurability, RelationId, RelationMetadata,
    Version};
use crate::kernel::read::{fact_views, metadata_views};
use crate::kernel::relation::{metadata_fault, RelationState, RelationView};
use crate::kernel::rules::{active_rule_views, copy_definitions, definition_views, DefinitionView,
    Rule, RuleDefinition, RuleView};
use crate::kernel::ruling::{disable_rule_in, disabling, first_free_rule_id, is_rule_id,
    next_rule_id, rule_fault, tried_rule_id, validate_installed, validate_rule_against_relations};
use crate::kernel::snapshot::{derived_outcome, DerivedView, Snapshot, SnapshotView};
use crate::kernel::staging::{effects, has_room, kept, misplaced, refused, unopposed};
use crate::kernel::states::{raw_ids, RelationStates};
use crate::kernel::strata::stratified;
use crate::kernel::transaction::{Transaction, TransactionView};
use crate::tuple::Tuple;
use crate::value::{Identity, IDENTITY_MAX};
use std::sync::Arc;
use vstd::prelude::*;

verus! {

/// What a provider answered.
pub open spec fn answer_view(answer: Result<(), String>) -> Result<(), Seq<char>> {
    match answer {
        Ok(()) => Ok(()),
        Err(text) => Err(text@),
    }
}

/// Something that keeps commits.
pub trait CommitProvider: Send + Sync {
    /// Whether the provider may answer so, when it is asked to keep a commit.
    open spec fn may_answer(&self, commit: CommitView, answer: Result<(), Seq<char>>) -> bool {
        true
    }

    /// Keeps a commit.
    fn persist_commit(&self, commit: &Commit) -> (result: Result<(), String>)
        ensures
            self.may_answer(commit@, answer_view(result)),
    ;

    /// Waits until every commit that was handed over is kept.
    fn flush(&self) -> (result: Result<(), String>)
        default_ensures
            result is Ok,
    {
        Ok(())
    }
}

/// A provider that keeps nothing beyond what the kernel holds.
pub struct InMemoryCommitProvider {}

impl CommitProvider for InMemoryCommitProvider {
    open spec fn may_answer(&self, commit: CommitView, answer: Result<(), Seq<char>>) -> bool {
        answer is Ok
    }

    fn persist_commit(&self, _commit: &Commit) -> (result: Result<(), String>) {
        Ok(())
    }
}

/// The changes to rows of relations that are kept.
pub open spec fn durable_changes(
    relations: Map<u64, RelationView>,
    changes: Seq<FactChangeView>,
) -> Result<Seq<FactChangeView>, FaultView>
    decreases changes.len(),
{
    if changes.len() == 0 {
        Ok(Seq::empty())
    } else {
        match durable_changes(relations, changes.drop_last()) {
            Err(fault) => Err(fault),
            Ok(before) => {
                let change = changes.last();
                if !relations.contains_key(change.relation) {
                    Err(FaultView::UnknownRelation(change.relation))
                } else if relations[change.relation].metadata.durability is Durable {
                    Ok(before.push(change))
                } else {
                    Ok(before)
                }
            },
        }
    }
}

/// What of a commit is kept: the changes to the catalog and to rows of durable relations,
/// and nothing where there are none of these.
pub open spec fn persistable(relations: Map<u64, RelationView>, commit: CommitView) -> Result<
    Option<CommitView>,
    FaultView,
> {
    match durable_changes(relations, commit.changes) {
        Err(fault) => Err(fault),
        Ok(changes) => Ok(
            if commit.catalog_changes.len() == 0 && changes.len() == 0 {
                None
            } else {
                Some(
                    CommitView {
                        version: commit.version,
                        catalog_changes: commit.catalog_changes,
                        changes,
                        relation_changes: Seq::empty(),
                        settled_relation_changes_available: false,
                    },
                )
            },
        ),
    }
}

/// Whether handing what is kept of a commit to a provider may end so: with nothing wrong, or
/// with a reason. A provider is asked where something is to be kept, and its answer decides.
pub open spec fn may_be_kept<P: CommitProvider>(
    provider: P,
    relations: Map<u64, RelationView>,
    commit: CommitView,
    outcome: Result<(), FaultView>,
) -> bool {
    match persistable(relations, commit) {
        Err(fault) => outcome == Err::<(), FaultView>(fault),
        Ok(None) => outcome is Ok,
        Ok(Some(kept)) => match outcome {
            Ok(()) => provider.may_answer(kept, Ok(())),
            Err(fault) => fault matches FaultView::Persistence(text) && provider.may_answer(
                kept,
                Err(text),
            ),
        },
    }
}

proof fn lemma_durable_early(
    relations: Map<u64, RelationView>,
    changes: Seq<FactChangeView>,
    n: int,
)
    requires
        0 <= n <= changes.len(),
        durable_changes(relations, changes.take(n)) is Err,
    ensures
        durable_changes(relations, changes) == durable_changes(relations, changes.take(n)),
    decreases changes.len(),
{
    if n == changes.len() {
        assert(changes.take(n) =~= changes);
    } else {
        assert(changes.drop_last().take(n) =~= changes.take(n));
        lemma_durable_early(relations, changes.drop_last(), n);
    }
}

proof fn lemma_durable_known(relations: Map<u64, RelationView>, changes: Seq<FactChangeView>)
    requires
        forall|i: int|
            0 <= i < changes.len() ==> relations.contains_key((#[trigger] changes[i]).relation),
    ensures
        durable_changes(relations, changes) is Ok,
        (forall|i: int|
            0 <= i < changes.len() ==> !(relations[(
            #[trigger] changes[i]).relation].metadata.durability is Durable)) ==> durable_changes(
            relations,
            changes,
        )->Ok_0.len() == 0,
    decreases changes.len(),
{
    if changes.len() > 0 {
        let less = changes.drop_last();
        assert forall|i: int| 0 <= i < less.len() implies relations.contains_key(
            (#[trigger] less[i]).relation,
        ) by {
            assert(less[i] == changes[i]);
        }
        lemma_durable_known(relations, less);
        assert(changes[changes.len() - 1] == changes.last());
        if forall|i: int|
            0 <= i < changes.len() ==> !(relations[(
            #[trigger] changes[i]).relation].metadata.durability is Durable) {
            assert forall|i: int| 0 <= i < less.len() implies !(relations[(
            #[trigger] less[i]).relation].metadata.durability is Durable) by {
                assert(less[i] == changes[i]);
            }
        }
    }
}

/// What of a commit is kept.
pub fn persistent_commit(snapshot: &Snapshot, commit: &Commit) -> (result: Result<
    Option<Commit>,
    KernelError,
>)
    ensures
        match (result, persistable(snapshot@.relations, commit@)) {
            (Ok(None), Ok(None)) => true,
            (Ok(Some(persistent)), Ok(Some(expected))) => persistent@ == expected,
            (Err(error), Err(fault)) => error@ == fault,
            _ => false,
        },
{
    let given = commit.changes();
    let ghost all = fact_change_views(given@);
    let mut changes: Vec<FactChange> = Vec::new();
    let mut i: usize = 0;
    proof {
        assert(all.take(0) =~= Seq::empty());
        assert(fact_change_views(changes@) =~= Seq::empty());
    }
    while i < given.len()
        invariant
            i <= given@.len(),
            all == fact_change_views(given@),
            all == commit@.changes,
            durable_changes(snapshot@.relations, all.take(i as int)) == Ok::<_, FaultView>(
                fact_change_views(changes@),
            ),
        decreases given@.len() - i,
    {
        let ghost before = changes@;
        proof {
            assert(all.take(i + 1).drop_last() =~= all.take(i as int));
            assert(all.take(i + 1).last() == given@[i as int]@);
            if durable_changes(snapshot@.relations, all.take(i + 1)) is Err {
                lemma_durable_early(snapshot@.relations, all, i + 1);
            }
        }
        match snapshot.relation(given[i].relation) {
            Err(error) => {
                return Err(error);
            },
            Ok(state) => {
                if matches!(state.metadata().durability(), RelationDurability::Durable) {
                    changes.push(given[i].clone());
                    assert(fact_change_views(changes@) =~= fact_change_views(before).push(
                        given@[i as int]@,
                    ));
                }
            },
        }
        i = i + 1;
    }
    assert(all.take(i as int) =~= all);
    if commit.catalog_changes().len() == 0 && changes.len() == 0 {
        return Ok(None);
    }
    let relation_changes: Vec<FactChange> = Vec::new();
    assert(fact_change_views(relation_changes@) =~= Seq::empty());
    Ok(
        Some(
            Commit {
                version: commit.version(),
                catalog_changes: copy_catalog_changes(commit.catalog_changes()),
                changes,
                relation_changes,
                settled_relation_changes_available: false,
            },
        ),
    )
}

/// The snapshot with one more relation, before it is committed.
pub open spec fn creating(current: SnapshotView, metadata: MetadataView) -> Result<
    SnapshotView,
    FaultView,
> {
    match metadata_fault(metadata) {
        Some(fault) => Err(fault),
        None => if current.relations.contains_key(metadata.id) {
            Err(FaultView::RelationAlreadyExists(metadata.id))
        } else {
            Ok(
                SnapshotView {
                    version: (current.version + 1) as u64,
                    relations: current.relations.insert(
                        metadata.id,
                        RelationView { metadata, rows: Set::empty() },
                    ),
                    computed: current.computed.bound(metadata),
                    derived: DerivedView::Unevaluated,
                    maintained: None,
                    ..current
                },
            )
        },
    }
}

/// The snapshot with one more relation, before it is committed.
pub fn plan_relation(current: &Snapshot, metadata: &RelationMetadata) -> (result: Result<
    Snapshot,
    KernelError,
>)
    requires
        current@.version < u64::MAX,
    ensures
        match (result, creating(current@, metadata@)) {
            (Ok(next), Ok(expected)) => next@ == expected,
            (Err(error), Err(fault)) => error@ == fault,
            _ => false,
        },
{
    let state = match RelationState::empty(metadata.clone()) {
        Err(error) => {
            return Err(error);
        },
        Ok(state) => state,
    };
    if current.relations().contains_key(metadata.id()) {
        return Err(KernelError::RelationAlreadyExists(metadata.id()));
    }
    let mut relations = current.relations().copy();
    relations.insert(state);
    Ok(
        Snapshot::new(
            current.version() + 1,
            relations,
            copy_definitions(current.rules()),
            current.computed_relations().with_relation(metadata),
            current.history().copy(),
        ),
    )
}

/// The snapshot with other rules, before it is committed and its rules are evaluated.
pub open spec fn with_rules(current: SnapshotView, rules: Seq<DefinitionView>) -> SnapshotView {
    SnapshotView {
        version: (current.version + 1) as u64,
        rules,
        derived: DerivedView::Unevaluated,
        maintained: None,
        ..current
    }
}

fn plan_rules(current: &Snapshot, rules: Vec<RuleDefinition>) -> (next: Snapshot)
    requires
        current@.version < u64::MAX,
    ensures
        next@ == with_rules(current@, definition_views(rules@)),
{
    Snapshot::new(
        current.version() + 1,
        current.relations().copy(),
        rules,
        current.computed_relations().copy(),
        current.history().copy(),
    )
}

/// The identity for the next rule.
pub open spec fn new_rule_id(rules: Seq<DefinitionView>) -> u64 {
    choose|id: u64| first_free_rule_id(rules, id)
}

proof fn lemma_new_rule_id(rules: Seq<DefinitionView>, id: u64)
    requires
        first_free_rule_id(rules, id),
    ensures
        new_rule_id(rules) == id,
{
    let other = new_rule_id(rules);
    assert(first_free_rule_id(rules, other));
    let n = rules.len();
    let k = choose|k: nat| #[trigger]
        tried_rule_id(n, k) == id && !is_rule_id(rules, id as int) && forall|j: nat|
            j < k ==> is_rule_id(rules, #[trigger] tried_rule_id(n, j));
    let m = choose|k: nat| #[trigger]
        tried_rule_id(n, k) == other && !is_rule_id(rules, other as int) && forall|j: nat|
            j < k ==> is_rule_id(rules, #[trigger] tried_rule_id(n, j));
    if k < m {
        assert(is_rule_id(rules, tried_rule_id(n, k)));
    }
    if m < k {
        assert(is_rule_id(rules, tried_rule_id(n, m)));
    }
}

/// The rule that installing a rule makes.
pub open spec fn new_definition(
    rules: Seq<DefinitionView>,
    rule: RuleView,
    source: Seq<char>,
) -> DefinitionView {
    DefinitionView { id: new_rule_id(rules), rule, source, active: true }
}

/// The snapshot with one more rule, before it is committed and its rules are evaluated.
pub open spec fn installing(
    current: SnapshotView,
    rule: RuleView,
    source: Seq<char>,
) -> Result<SnapshotView, FaultView> {
    match rule_fault(current.relations, rule) {
        Some(fault) => Err(fault),
        None => {
            let rules = current.rules.push(new_definition(current.rules, rule, source));
            if stratified(active_rule_views(rules)) {
                Ok(with_rules(current, rules))
            } else {
                Err(FaultView::Rule(RuleError::Unstratified))
            }
        },
    }
}

/// The snapshot with one more rule, before it is committed and its rules are evaluated, and
/// the rule.
pub fn plan_rule(current: &Snapshot, rule: &Rule, source: String) -> (result: Result<
    (Snapshot, RuleDefinition),
    KernelError,
>)
    requires
        current@.version < u64::MAX,
        current@.rules.len() <= IDENTITY_MAX,
    ensures
        match (result, installing(current@, rule@, source@)) {
            (Ok((next, definition)), Ok(expected)) => next@ == expected && definition@
                == new_definition(current@.rules, rule@, source@),
            (Err(error), Err(fault)) => error@ == fault,
            _ => false,
        },
{
    match validate_rule_against_relations(current.relations(), rule) {
        Err(error) => {
            return Err(error);
        },
        Ok(()) => {},
    }
    let known = current.rules();
    let id = next_rule_id(known);
    proof {
        lemma_new_rule_id(current@.rules, id@);
    }
    let definition = RuleDefinition::new(id, rule.copy(), source);
    let mut rules = copy_definitions(known);
    let ghost before = rules@;
    rules.push(definition.clone());
    assert(definition_views(rules@) =~= definition_views(before).push(definition@));
    match validate_installed(&rules) {
        Err(error) => {
            return Err(error);
        },
        Ok(()) => {},
    }
    Ok((plan_rules(current, rules), definition))
}

/// The snapshot with a rule disabled, before it is committed and its rules are evaluated.
pub open spec fn retiring(current: SnapshotView, id: u64) -> Result<SnapshotView, FaultView> {
    match disabling(current.rules, id) {
        Err(fault) => Err(fault),
        Ok(rules) => if stratified(active_rule_views(rules)) {
            Ok(with_rules(current, rules))
        } else {
            Err(FaultView::Rule(RuleError::Unstratified))
        },
    }
}

/// The snapshot with a rule disabled, before it is committed and its rules are evaluated.
pub fn plan_rule_disabled(current: &Snapshot, rule_id: Identity) -> (result: Result<
    Snapshot,
    KernelError,
>)
    requires
        current@.version < u64::MAX,
    ensures
        match (result, retiring(current@, rule_id@)) {
            (Ok(next), Ok(expected)) => next@ == expected,
            (Err(error), Err(fault)) => error@ == fault,
            _ => false,
        },
{
    let mut rules = copy_definitions(current.rules());
    match disable_rule_in(&mut rules, rule_id) {
        Err(error) => {
            return Err(error);
        },
        Ok(()) => {},
    }
    match validate_installed(&rules) {
        Err(error) => {
            return Err(error);
        },
        Ok(()) => {},
    }
    Ok(plan_rules(current, rules))
}

/// Whether the writes of a transaction may be brought to a snapshot.
pub open spec fn acceptable(view: TransactionView, current: SnapshotView) -> bool {
    forall|id: u64| #[trigger]
        view.writes.contains_key(id) ==> if current.version != view.base.version {
            unopposed(view, current, id)
        } else {
            kept(view, current, id)
        }
}

/// Whether the writes of a transaction are refused for a reason.
pub open spec fn turned_away(
    transaction: Transaction,
    current: SnapshotView,
    fault: FaultView,
) -> bool {
    if current.version != transaction@.base.version {
        exists|id: u64| #[trigger]
            transaction@.writes.contains_key(id) && refused(transaction, current, id, fault)
    } else {
        misplaced(transaction@, current, fault)
    }
}

/// Whether a transaction was committed as it should be.
pub open spec fn committed_as(
    result: Result<CommitResult, KernelError>,
    transaction: Transaction,
    current: SnapshotView,
    evaluated: Option<Result<Evaluation, KernelError>>,
) -> bool {
    if acceptable(transaction@, current) {
        rows_committed(
            result,
            current,
            leads_to(transaction@, current),
            in_order(effects(transaction@, current)),
            evaluated,
        )
    } else {
        result matches Err(error) && turned_away(transaction, current, error@)
    }
}

/// Whether a transaction changes rows of durable relations.
pub open spec fn changes_durable(view: TransactionView, current: SnapshotView) -> bool {
    exists|fact: (u64, crate::kernel::algebra::Row)| #[trigger]
        effects(view, current).contains_key(fact)
            && current.relations[fact.0].metadata.durability is Durable
}

/// What a kernel starts with.
pub open spec fn empty_kernel(computed: Seq<Arc<dyn ComputedRelation>>) -> SnapshotView {
    SnapshotView {
        version: 0,
        relations: Map::empty(),
        rules: Seq::empty(),
        computed: RegistryView { relations: computed, bindings: Map::empty() },
        derived: DerivedView::Unevaluated,
        maintained: None,
        commits: Seq::empty(),
    }
}

/// The newest snapshot, and what keeps the commits that lead to newer ones.
pub struct RelationKernel<P: CommitProvider> {
    root: Arc<Snapshot>,
    provider: P,
}

impl<P: CommitProvider> View for RelationKernel<P> {
    type V = SnapshotView;

    closed spec fn view(&self) -> SnapshotView {
        self.root@
    }
}

impl<P: CommitProvider> RelationKernel<P> {
    /// What keeps the commits.
    pub closed spec fn keeper(&self) -> P {
        self.provider
    }
}

impl RelationKernel<InMemoryCommitProvider> {
    /// A kernel without relations that keeps its commits in memory alone.
    pub fn new() -> (kernel: RelationKernel<InMemoryCommitProvider>)
        ensures
            kernel@ == empty_kernel(Seq::empty()),
    {
        RelationKernel::with_provider(InMemoryCommitProvider {  })
    }
}

impl<P: CommitProvider> RelationKernel<P> {
    /// A kernel without relations.
    pub fn with_provider_and_computed_relations(
        provider: P,
        computed_relations: Vec<Arc<dyn ComputedRelation>>,
    ) -> (kernel: RelationKernel<P>)
        ensures
            kernel@ == empty_kernel(computed_relations@),
            kernel.keeper() == provider,
    {
        let rules: Vec<RuleDefinition> = Vec::new();
        assert(definition_views(rules@) =~= Seq::empty());
        let root = Arc::new(
            Snapshot::new(
                0,
                RelationStates::new(),
                rules,
                ComputedRelationRegistry::new(computed_relations),
                CommitHistory::empty(),
            ),
        );
        RelationKernel { root, provider }
    }

    /// A kernel without relations.
    pub fn with_provider(provider: P) -> (kernel: RelationKernel<P>)
        ensures
            kernel@ == empty_kernel(Seq::empty()),
            kernel.keeper() == provider,
    {
        RelationKernel::with_provider_and_computed_relations(provider, Vec::new())
    }

    /// A kernel with relations that are there from the start, and what commits made of them.
    pub fn load_from_commits_and_computed_relations(
        relations: Vec<RelationMetadata>,
        commits: Vec<Commit>,
        provider: P,
        computed_relations: Vec<Arc<dyn ComputedRelation>>,
    ) -> (result: Result<RelationKernel<P>, KernelError>)
        requires
            change_count(commit_views(commits@)) <= usize::MAX,
        ensures
            match (result, commits_loaded(metadata_views(relations@), commit_views(commits@))) {
                (Ok(kernel), Ok(loaded)) => kernel.keeper() == provider && kernel@ == loaded_snapshot(
                    last_version(commit_views(commits@)),
                    loaded,
                    computed_relations@,
                    commit_views(commits@),
                ),
                (Err(error), Err(fault)) => error@ == fault,
                _ => false,
            },
    {
        match snapshot_from_commits(relations, commits, computed_relations) {
            Err(error) => Err(error),
            Ok(snapshot) => Ok(RelationKernel { root: Arc::new(snapshot), provider }),
        }
    }

    /// A kernel with relations that are there from the start, and what commits made of them.
    pub fn load_from_commits(
        relations: Vec<RelationMetadata>,
        commits: Vec<Commit>,
        provider: P,
    ) -> (result: Result<RelationKernel<P>, KernelError>)
        requires
            change_count(commit_views(commits@)) <= usize::MAX,
        ensures
            match (result, commits_loaded(metadata_views(relations@), commit_views(commits@))) {
                (Ok(kernel), Ok(loaded)) => kernel.keeper() == provider && kernel@ == loaded_snapshot(
                    last_version(commit_views(commits@)),
                    loaded,
                    Seq::empty(),
                    commit_views(commits@),
                ),
                (Err(error), Err(fault)) => error@ == fault,
                _ => false,
            },
    {
        RelationKernel::load_from_commits_and_computed_relations(
            relations,
            commits,
            provider,
            Vec::new(),
        )
    }

    /// A kernel with what commits made.
    pub fn load_from_commit_log_and_computed_relations(
        commits: Vec<Commit>,
        provider: P,
        computed_relations: Vec<Arc<dyn ComputedRelation>>,
    ) -> (result: Result<RelationKernel<P>, KernelError>)
        requires
            change_count(commit_views(commits@)) <= usize::MAX,
        ensures
            match (result, with_commits(nothing_loaded(), commit_views(commits@), true)) {
                (Ok(kernel), Ok(loaded)) => kernel.keeper() == provider && kernel@ == loaded_snapshot(
                    last_version(commit_views(commits@)),
                    loaded,
                    computed_relations@,
                    commit_views(commits@),
                ),
                (Err(error), Err(fault)) => error@ == fault,
                _ => false,
            },
    {
        match snapshot_from_commit_log(commits, computed_relations) {
            Err(error) => Err(error),
            Ok(snapshot) => Ok(RelationKernel { root: Arc::new(snapshot), provider }),
        }
    }

    /// A kernel with what commits made.
    pub fn load_from_commit_log(commits: Vec<Commit>, provider: P) -> (result:
        Result<RelationKernel<P>, KernelError>)
        requires
            change_count(commit_views(commits@)) <= usize::MAX,
        ensures
            match (result, with_commits(nothing_loaded(), commit_views(commits@), true)) {
                (Ok(kernel), Ok(loaded)) => kernel.keeper() == provider && kernel@ == loaded_snapshot(
                    last_version(commit_views(commits@)),
                    loaded,
                    Seq::empty(),
                    commit_views(commits@),
                ),
                (Err(error), Err(fault)) => error@ == fault,
                _ => false,
            },
    {
        RelationKernel::load_from_commit_log_and_computed_relations(commits, provider, Vec::new())
    }

    /// A kernel with what a store holds.
    pub fn load_from_state_and_computed_relations(
        state: PersistedKernelState,
        provider: P,
        computed_relations: Vec<Arc<dyn ComputedRelation>>,
    ) -> (result: Result<RelationKernel<P>, KernelError>)
        ensures
            match (
                result,
                state_loaded(
                    metadata_views(state.relations@),
                    definition_views(state.rules@),
                    fact_views(state.facts@),
                ),
            ) {
                (Ok(kernel), Ok(loaded)) => kernel.keeper() == provider && kernel@ == loaded_snapshot(
                    state.version,
                    loaded,
                    computed_relations@,
                    Seq::empty(),
                ),
                (Err(error), Err(fault)) => error@ == fault,
                _ => false,
            },
    {
        match snapshot_from_state(state, computed_relations) {
            Err(error) => Err(error),
            Ok(snapshot) => Ok(RelationKernel { root: Arc::new(snapshot), provider }),
        }
    }

    /// A kernel with what a store holds.
    pub fn load_from_state(state: PersistedKernelState, provider: P) -> (result:
        Result<RelationKernel<P>, KernelError>)
        ensures
            match (
                result,
                state_loaded(
                    metadata_views(state.relations@),
                    definition_views(state.rules@),
                    fact_views(state.facts@),
                ),
            ) {
                (Ok(kernel), Ok(loaded)) => kernel.keeper() == provider && kernel@ == loaded_snapshot(
                    state.version,
                    loaded,
                    Seq::empty(),
                    Seq::empty(),
                ),
                (Err(error), Err(fault)) => error@ == fault,
                _ => false,
            },
    {
        RelationKernel::load_from_state_and_computed_relations(state, provider, Vec::new())
    }

    /// The newest snapshot.
    pub fn snapshot(&self) -> (snapshot: Arc<Snapshot>)
        ensures
            snapshot@ == self@,
    {
        self.root.clone()
    }

    /// A kernel of its own that starts from the newest snapshot.
    pub fn fork_in_memory(&self) -> (fork: RelationKernel<InMemoryCommitProvider>)
        ensures
            fork@ == self@,
    {
        RelationKernel { root: self.root.clone(), provider: InMemoryCommitProvider {  } }
    }

    /// Keeps what evaluating the rules of the newest snapshot gave, and which relations'
    /// derived rows are to be kept up to date.
    pub fn keep_evaluation(
        &mut self,
        outcome: Result<Vec<(RelationId, Vec<Tuple>)>, KernelError>,
        maintained: Option<Vec<RelationId>>,
    )
        ensures
            final(self)@ == (SnapshotView {
                derived: derived_outcome(old(self)@.relations, outcome),
                maintained: match maintained {
                    Some(targets) => Some(raw_ids(targets@)),
                    None => None,
                },
                ..old(self)@
            }),
            final(self).keeper() == old(self).keeper(),
    {
        self.root = Arc::new(self.root.copy().with_derived(outcome, maintained));
    }

    /// Reads and writes on top of the newest snapshot.
    pub fn begin(&self, prototypes: PrimitivePrototypes) -> (transaction: Transaction)
        ensures
            transaction@ == (TransactionView {
                base: self@,
                writes: Map::empty(),
                derived: DerivedView::Unevaluated,
            }),
            transaction.prototypes_used() == prototypes,
    {
        Transaction::new(self.root.clone(), prototypes)
    }

    /// Puts a snapshot in place of the newest, where that has the version that it should.
    pub fn try_publish(&mut self, expected_version: Version, next: Arc<Snapshot>) -> (published: bool)
        ensures
            published == (old(self)@.version == expected_version),
            final(self)@ == if published {
                next@
            } else {
                old(self)@
            },
            final(self).keeper() == old(self).keeper(),
    {
        if self.root.version() == expected_version {
            self.root = next;
            true
        } else {
            false
        }
    }

    /// Hands what is kept of a commit to the provider.
    fn persist_commit_against(&self, snapshot: &Snapshot, commit: &Commit) -> (result: Result<
        (),
        KernelError,
    >)
        ensures
            may_be_kept(
                self.keeper(),
                snapshot@.relations,
                commit@,
                match result {
                    Ok(()) => Ok(()),
                    Err(error) => Err(error@),
                },
            ),
    {
        match persistent_commit(snapshot, commit) {
            Err(error) => Err(error),
            Ok(None) => Ok(()),
            Ok(Some(persistent)) => persist_outcome(self.provider.persist_commit(&persistent)),
        }
    }

    /// Publishes a commit where it was kept.
    pub fn conclude(
        &mut self,
        expected_version: Version,
        done: CommitResult,
        persisted: Result<(), KernelError>,
        complaint: &str,
    ) -> (result: Result<CommitResult, KernelError>)
        ensures
            match persisted {
                Err(failure) => final(self)@ == old(self)@ && (result matches Err(error) && error@
                    == failure@),
                Ok(()) => if old(self)@.version == expected_version {
                    final(self)@ == done.snapshot@ && (result matches Ok(published)
                        && published.snapshot@ == done.snapshot@ && published.commit@
                        == done.commit@)
                } else {
                    final(self)@ == old(self)@ && (result matches Err(error) && error@
                        == FaultView::Persistence(complaint@))
                },
            },
            final(self).keeper() == old(self).keeper(),
    {
        match persisted {
            Err(failure) => Err(failure),
            Ok(()) => {
                if self.try_publish(expected_version, done.snapshot.clone()) {
                    Ok(done)
                } else {
                    Err(KernelError::Persistence(complaint.to_owned()))
                }
            },
        }
    }

    /// Creates a relation.
    pub fn create_relation(&mut self, metadata: RelationMetadata) -> (result: Result<
        Arc<Snapshot>,
        KernelError,
    >)
        requires
            old(self)@.version < u64::MAX,
        ensures
            match creating(old(self)@, metadata@) {
                Err(fault) => final(self)@ == old(self)@ && (result matches Err(error) && error@
                    == fault),
                Ok(next) => {
                    let after = recorded(
                        old(self)@,
                        next,
                        seq![CatalogChangeView::RelationCreated(metadata@)],
                        Seq::empty(),
                        Seq::empty(),
                    );
                    match result {
                        Ok(snapshot) => {
                            &&& snapshot@ == final(self)@
                            &&& final(self)@ == after
                            &&& may_be_kept(
                                old(self).keeper(),
                                old(self)@.relations,
                                after.commits.last(),
                                Ok(()),
                            )
                        },
                        Err(error) => {
                            &&& final(self)@ == old(self)@
                            &&& may_be_kept(
                                old(self).keeper(),
                                old(self)@.relations,
                                after.commits.last(),
                                Err(error@),
                            )
                        },
                    }
                },
            },
            final(self).keeper() == old(self).keeper(),
    {
        let current = self.root.clone();
        let next = match plan_relation(&current, &metadata) {
            Err(error) => {
                return Err(error);
            },
            Ok(next) => next,
        };
        let ghost kind = metadata@;
        let mut catalog_changes: Vec<CatalogChange> = Vec::new();
        catalog_changes.push(CatalogChange::RelationCreated(metadata));
        proof {
            assert(catalog_change_views(catalog_changes@) =~= seq![
                CatalogChangeView::RelationCreated(kind),
            ]);
            assert(fact_change_views(Seq::empty()) =~= Seq::empty());
        }
        let done = record_commit(&current, next, catalog_changes, Vec::new(), Vec::new());
        let persisted = self.persist_commit_against(&current, &done.commit);
        match self.conclude(
            current.version(),
            done,
            persisted,
            "commit publish failed after serialized persistence",
        ) {
            Err(error) => Err(error),
            Ok(done) => Ok(done.snapshot),
        }
    }

    /// Installs a rule. Where derived rows are kept up to date, `evaluated` is what
    /// evaluating the rules with the new one gave.
    pub fn install_rule(
        &mut self,
        rule: Rule,
        source: String,
        evaluated: Option<Result<Evaluation, KernelError>>,
    ) -> (result: Result<RuleDefinition, KernelError>)
        requires
            old(self)@.version < u64::MAX,
            old(self)@.rules.len() <= IDENTITY_MAX,
            old(self)@.maintained is Some ==> evaluated is Some,
        ensures
            match installing(old(self)@, rule@, source@) {
                Err(fault) => final(self)@ == old(self)@ && (result matches Err(error) && error@
                    == fault),
                Ok(next) => match result {
                    Ok(definition) => {
                        &&& definition@ == new_definition(old(self)@.rules, rule@, source@)
                        &&& records(
                            old(self)@,
                            next,
                            seq![CatalogChangeView::RuleInstalled(definition@)],
                            Seq::empty(),
                            evaluated,
                            final(self)@,
                        )
                        &&& may_be_kept(
                            old(self).keeper(),
                            old(self)@.relations,
                            final(self)@.commits.last(),
                            Ok(()),
                        )
                    },
                    Err(error) => {
                        &&& final(self)@ == old(self)@
                        &&& fails(old(self)@, next, evaluated, error@) || exists|after: SnapshotView|
                            {
                                &&& #[trigger] records(
                                    old(self)@,
                                    next,
                                    seq![
                                        CatalogChangeView::RuleInstalled(
                                            new_definition(old(self)@.rules, rule@, source@),
                                        ),
                                    ],
                                    Seq::empty(),
                                    evaluated,
                                    after,
                                )
                                &&& may_be_kept(
                                    old(self).keeper(),
                                    old(self)@.relations,
                                    after.commits.last(),
                                    Err(error@),
                                )
                            }
                    },
                },
            },
            final(self).keeper() == old(self).keeper(),
    {
        let current = self.root.clone();
        let (next, definition) = match plan_rule(&current, &rule, source) {
            Err(error) => {
                return Err(error);
            },
            Ok(planned) => planned,
        };
        let mut catalog_changes: Vec<CatalogChange> = Vec::new();
        catalog_changes.push(CatalogChange::RuleInstalled(definition.clone()));
        proof {
            assert(catalog_change_views(catalog_changes@) =~= seq![
                CatalogChangeView::RuleInstalled(definition@),
            ]);
            assert(fact_change_views(Seq::empty()) =~= Seq::empty());
        }
        let done = match commit_catalog(&current, next, catalog_changes, Vec::new(), evaluated) {
            Err(error) => {
                return Err(error);
            },
            Ok(done) => done,
        };
        let persisted = self.persist_commit_against(&current, &done.commit);
        match self.conclude(
            current.version(),
            done,
            persisted,
            "commit publish failed after serialized persistence",
        ) {
            Err(error) => Err(error),
            Ok(_) => Ok(definition),
        }
    }

    /// Disables a rule. Where derived rows are kept up to date, `evaluated` is what
    /// evaluating the other rules gave.
    pub fn disable_rule(
        &mut self,
        rule_id: Identity,
        evaluated: Option<Result<Evaluation, KernelError>>,
    ) -> (result: Result<Arc<Snapshot>, KernelError>)
        requires
            old(self)@.version < u64::MAX,
            old(self)@.maintained is Some ==> evaluated is Some,
        ensures
            match retiring(old(self)@, rule_id@) {
                Err(fault) => final(self)@ == old(self)@ && (result matches Err(error) && error@
                    == fault),
                Ok(next) => match result {
                    Ok(snapshot) => {
                        &&& snapshot@ == final(self)@
                        &&& records(
                            old(self)@,
                            next,
                            seq![CatalogChangeView::RuleDisabled(rule_id@)],
                            Seq::empty(),
                            evaluated,
                            final(self)@,
                        )
                        &&& may_be_kept(
                            old(self).keeper(),
                            old(self)@.relations,
                            final(self)@.commits.last(),
                            Ok(()),
                        )
                    },
                    Err(error) => {
                        &&& final(self)@ == old(self)@
                        &&& fails(old(self)@, next, evaluated, error@) || exists|after: SnapshotView|
                            {
                                &&& #[trigger] records(
                                    old(self)@,
                                    next,
                                    seq![CatalogChangeView::RuleDisabled(rule_id@)],
                                    Seq::empty(),
                                    evaluated,
                                    after,
                                )
                                &&& may_be_kept(
                                    old(self).keeper(),
                                    old(self)@.relations,
                                    after.commits.last(),
                                    Err(error@),
                                )
                            }
                    },
                },
            },
            final(self).keeper() == old(self).keeper(),
    {
        let current = self.root.clone();
        let next = match plan_rule_disabled(&current, rule_id) {
            Err(error) => {
                return Err(error);
            },
            Ok(next) => next,
        };
        let mut catalog_changes: Vec<CatalogChange> = Vec::new();
        catalog_changes.push(CatalogChange::RuleDisabled(rule_id));
        proof {
            assert(catalog_change_views(catalog_changes@) =~= seq![
                CatalogChangeView::RuleDisabled(rule_id@),
            ]);
            assert(fact_change_views(Seq::empty()) =~= Seq::empty());
        }
        let done = match commit_catalog(&current, next, catalog_changes, Vec::new(), evaluated) {
            Err(error) => {
                return Err(error);
            },
            Ok(done) => done,
        };
        let persisted = self.persist_commit_against(&current, &done.commit);
        match self.conclude(
            current.version(),
            done,
            persisted,
            "commit publish failed after serialized persistence",
        ) {
            Err(error) => Err(error),
            Ok(done) => Ok(done.snapshot),
        }
    }

    /// Publishes what was done on a fork as one commit. Where derived rows are kept up to
    /// date, `evaluated` is what evaluating the rules of the fork gave.
    pub fn commit_staged_snapshot(
        &mut self,
        expected_version: Version,
        staged: &Snapshot,
        evaluated: Option<Result<Evaluation, KernelError>>,
    ) -> (result: Result<CommitResult, KernelError>)
        requires
            old(self)@.version < u64::MAX,
            old(self)@.maintained is Some ==> evaluated is Some,
        ensures
            match result {
                Ok(done) => {
                    &&& old(self)@.version == expected_version
                    &&& staged_fault(old(self)@, staged@) is None
                    &&& final(self)@ == done.snapshot@
                    &&& done.commit@ == done.snapshot@.commits.last()
                    &&& exists|plan: StagedPlan|
                        {
                            &&& #[trigger] plans_staged(
                                Ok(plan),
                                old(self)@,
                                expected_version,
                                staged@,
                            )
                            &&& records(
                                old(self)@,
                                staged_next(old(self)@, staged@),
                                catalog_difference(old(self)@, staged@),
                                fact_change_views(plan.changes@),
                                evaluated,
                                done.snapshot@,
                            )
                        }
                    &&& may_be_kept(
                        old(self).keeper(),
                        done.snapshot@.relations,
                        done.commit@,
                        Ok(()),
                    )
                },
                Err(error) => {
                    &&& final(self)@ == old(self)@
                    &&& {
                        ||| plans_staged(Err(error), old(self)@, expected_version, staged@)
                        ||| staged_fault(old(self)@, staged@) is None && fails(
                            old(self)@,
                            staged_next(old(self)@, staged@),
                            evaluated,
                            error@,
                        )
                        ||| exists|plan: StagedPlan, after: SnapshotView|
                            {
                                &&& #[trigger] plans_staged(
                                    Ok(plan),
                                    old(self)@,
                                    expected_version,
                                    staged@,
                                )
                                &&& #[trigger] records(
                                    old(self)@,
                                    staged_next(old(self)@, staged@),
                                    catalog_difference(old(self)@, staged@),
                                    fact_change_views(plan.changes@),
                                    evaluated,
                                    after,
                                )
                                &&& may_be_kept(
                                    old(self).keeper(),
                                    after.relations,
                                    after.commits.last(),
                                    Err(error@),
                                )
                            }
                    }
                },
            },
            final(self).keeper() == old(self).keeper(),
            old(self)@.version != expected_version ==> (result matches Err(error) && error@
                == FaultView::StaleStagedSnapshot(expected_version, old(self)@.version)),
    {
        let current = self.root.clone();
        let plan = match plan_staged(&current, expected_version, staged) {
            Err(error) => {
                return Err(error);
            },
            Ok(plan) => plan,
        };
        let ghost planned = plan;
        let done = match commit_catalog(
            &current,
            plan.next,
            plan.catalog_changes,
            plan.changes,
            evaluated,
        ) {
            Err(error) => {
                return Err(error);
            },
            Ok(done) => done,
        };
        proof {
            assert(plans_staged(Ok(planned), old(self)@, expected_version, staged@));
        }
        let ghost made = done;
        let persisted = self.persist_commit_against(&done.snapshot, &done.commit);
        proof {
            if persisted is Err {
                assert(records(
                    old(self)@,
                    staged_next(old(self)@, staged@),
                    catalog_difference(old(self)@, staged@),
                    fact_change_views(planned.changes@),
                    evaluated,
                    made.snapshot@,
                ));
            }
        }
        self.conclude(
            current.version(),
            done,
            persisted,
            "staged commit publish failed after serialized persistence",
        )
    }

    /// Commits the writes of a transaction. Where derived rows are kept up to date,
    /// `evaluated` is what evaluating the rules of the next snapshot gave.
    pub fn commit(
        &mut self,
        transaction: &Transaction,
        evaluated: Option<Result<Evaluation, KernelError>>,
    ) -> (result: Result<CommitResult, KernelError>)
        requires
            has_room(transaction@, old(self)@),
            old(self)@.version < u64::MAX,
            old(self)@.maintained is Some ==> evaluated is Some,
        ensures
            match result {
                Ok(done) => {
                    &&& final(self)@ == done.snapshot@
                    &&& committed_as(result, *transaction, old(self)@, evaluated)
                    &&& may_be_kept(
                        old(self).keeper(),
                        old(self)@.relations,
                        done.commit@,
                        Ok(()),
                    )
                },
                Err(error) => {
                    &&& final(self)@ == old(self)@
                    &&& {
                        ||| committed_as(result, *transaction, old(self)@, evaluated)
                        ||| {
                            &&& acceptable(transaction@, old(self)@)
                            &&& changes_durable(transaction@, old(self)@)
                            &&& exists|done: CommitResult|
                                {
                                    &&& #[trigger] committed_as(
                                        Ok(done),
                                        *transaction,
                                        old(self)@,
                                        evaluated,
                                    )
                                    &&& may_be_kept(
                                        old(self).keeper(),
                                        old(self)@.relations,
                                        done.commit@,
                                        Err(error@),
                                    )
                                }
                        }
                    }
                },
            },
            final(self).keeper() == old(self).keeper(),
    {
        let current = self.root.clone();
        let (next, changes) = match transaction.next_snapshot(&current) {
            Err(error) => {
                proof {
                    lemma_not_acceptable(*transaction, current@, error@);
                }
                return Err(error);
            },
            Ok(staged) => staged,
        };
        let ghost listed = fact_change_views(changes@);
        let ghost kinds = effects(transaction@, current@);
        proof {
            assert(acceptable(transaction@, current@));
            crate::kernel::changes::lemma_listing_unique(listed, in_order(kinds), kinds);
            assert forall|i: int| 0 <= i < listed.len() implies current@.relations.contains_key(
                (#[trigger] listed[i]).relation,
            ) && (current@.relations[listed[i].relation].metadata.durability is Durable
                ==> changes_durable(transaction@, current@)) by {
                let fact = (listed[i].relation, listed[i].row);
                assert(kinds.contains_key(fact));
                assert(transaction@.writes.contains_key(fact.0));
            }
            lemma_durable_known(current@.relations, listed);
        }
        let done = match commit_rows(&current, next, changes, evaluated) {
            Err(error) => {
                return Err(error);
            },
            Ok(done) => done,
        };
        let ghost made = done;
        assert(committed_as(Ok(made), *transaction, old(self)@, evaluated));
        let persisted = self.persist_commit_against(&current, &done.commit);
        self.conclude(
            current.version(),
            done,
            persisted,
            "commit publish failed after serialized persistence",
        )
    }
}

/// What a provider's answer comes to.
pub fn persist_outcome(outcome: Result<(), String>) -> (result: Result<(), KernelError>)
    ensures
        match outcome {
            Ok(()) => result is Ok,
            Err(text) => result matches Err(error) && error@ == FaultView::Persistence(text@),
        },
{
    match outcome {
        Ok(()) => Ok(()),
        Err(text) => Err(KernelError::Persistence(text)),
    }
}

/// Writes that are refused are not acceptable.
proof fn lemma_not_acceptable(transaction: Transaction, current: SnapshotView, fault: FaultView)
    requires
        turned_away(transaction, current, fault),
    ensures
        !acceptable(transaction@, current),
{
    let view = transaction@;
    if current.version != view.base.version {
        let id = choose|id: u64| #[trigger]
            view.writes.contains_key(id) && refused(transaction, current, id, fault);
        assert(!unopposed(view, current, id));
    } else {
        let id = choose|id: u64| #[trigger]
            view.writes.contains_key(id) && !kept(view, current, id);
        assert(!kept(view, current, id));
    }
}

} // verus!
