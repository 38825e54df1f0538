//! From the changes of a commit to the snapshot that it leads to.

use crate::kernel::algebra::{difference_ordered_tuple_rows, finish_tuple_rows, Row};
use crate::kernel::changes::{change_facts, last_kinds, lists_changes, merge_fact_changes,
    place_change};
use crate::kernel::commit::{catalog_change_views, fact_change_views, CatalogChange,
    CatalogChangeView, Commit, CommitView, FactChange, FactChangeKind, FactChangeView};
use crate::kernel::error::{FaultView, KernelError};
use crate::kernel::metadata::RelationId;
use crate::kernel::read::{scanned, Visible};
use crate::kernel::rules::{copy_definitions, derives, relation_has_active_rule_head};
use crate::kernel::snapshot::{derived_map, derived_views, free_bindings, DerivedRelations,
    DerivedView, Snapshot, SnapshotView};
use crate::kernel::staging::{brought, effects, has_room, kept, misplaced, refused, unopposed};
use crate::kernel::states::raw_ids;
use crate::kernel::transaction::{Transaction, TransactionView};
use crate::tuple::{copy_tuples, rows, Tuple};
use crate::value::ValueView;
use std::sync::Arc;
use vstd::prelude::*;

verus! {

/// A commit and the snapshot that it led to.
pub struct CommitResult {
    pub snapshot: Arc<Snapshot>,
    pub commit: Commit,
}

impl CommitResult {
    /// The snapshot that the commit led to.
    pub fn snapshot(&self) -> (snapshot: &Arc<Snapshot>)
        ensures
            *snapshot == self.snapshot,
    {
        &self.snapshot
    }

    /// The commit.
    pub fn commit(&self) -> (commit: &Commit)
        ensures
            *commit == self.commit,
    {
        &self.commit
    }

    /// The snapshot that the commit led to.
    pub fn into_snapshot(self) -> (snapshot: Arc<Snapshot>)
        ensures
            snapshot == self.snapshot,
    {
        self.snapshot
    }
}

/// What evaluating the rules of the next snapshot gave: the derived rows, the changes to
/// them that are seen, and the relations whose derived rows are kept up to date.
pub struct Evaluation {
    pub derived: Vec<(RelationId, Vec<Tuple>)>,
    pub visible_changes: Vec<FactChange>,
    pub maintained: Vec<RelationId>,
}

/// A snapshot with what evaluating its rules gave, or why there is none.
pub open spec fn settled(next: SnapshotView, evaluated: Result<Evaluation, KernelError>) -> Result<
    SnapshotView,
    FaultView,
> {
    match evaluated {
        Err(error) => Err(error@),
        Ok(evaluation) => match derived_map(next.relations, derived_views(evaluation.derived@)) {
            Err(fault) => Err(fault),
            Ok(states) => Ok(
                SnapshotView {
                    derived: DerivedView::Evaluated(states),
                    maintained: Some(raw_ids(evaluation.maintained@)),
                    ..next
                },
            ),
        },
    }
}

/// The snapshot with what evaluating its rules gave, and the changes to derived rows that are
/// seen.
pub fn settle(next: Snapshot, evaluated: Result<Evaluation, KernelError>) -> (result: Result<
    (Snapshot, Vec<FactChange>),
    KernelError,
>)
    ensures
        match (result, settled(next@, evaluated)) {
            (Ok((snapshot, visible)), Ok(expected)) => snapshot@ == expected && evaluated is Ok
                && visible@ == evaluated->Ok_0.visible_changes@,
            (Err(error), Err(fault)) => error@ == fault,
            _ => false,
        },
{
    let evaluation = match evaluated {
        Err(error) => {
            return Err(error);
        },
        Ok(evaluation) => evaluation,
    };
    let snapshot = next.with_derived(Ok(evaluation.derived), Some(evaluation.maintained));
    match snapshot.derived() {
        DerivedRelations::Failed(error) => {
            return Err(error.clone());
        },
        _ => {},
    }
    Ok((snapshot, evaluation.visible_changes))
}

/// Whether the derived rows of a relation are kept up to date.
pub open spec fn serves(maintained: Option<Seq<u64>>, relation: u64) -> bool {
    match maintained {
        Some(targets) => targets.contains(relation),
        None => false,
    }
}

fn is_served(maintained: &Option<Vec<RelationId>>, relation: RelationId) -> (result: bool)
    ensures
        result == match maintained {
            Some(targets) => serves(Some(raw_ids(targets@)), relation@),
            None => false,
        },
{
    match maintained {
        None => false,
        Some(targets) => {
            let mut i: usize = 0;
            while i < targets.len()
                invariant
                    i <= targets@.len(),
                    *maintained == Some(*targets),
                    forall|j: int| 0 <= j < i ==> (#[trigger] targets@[j])@ != relation@,
                decreases targets@.len() - i,
            {
                if targets[i].same(&relation) {
                    assert(raw_ids(targets@)[i as int] == relation@);
                    return true;
                }
                i = i + 1;
            }
            proof {
                if raw_ids(targets@).contains(relation@) {
                    let j = choose|j: int|
                        0 <= j < raw_ids(targets@).len() && raw_ids(targets@)[j] == relation@;
                    assert(targets@[j]@ == relation@);
                }
            }
            false
        },
    }
}

/// Whether a row is seen in a relation, where no computed relation decides.
pub open spec fn seen(snapshot: SnapshotView, relation: u64, row: Row) -> Option<
    Result<bool, FaultView>,
> {
    match snapshot.visible(relation) {
        Visible::Unknown => Some(Err(FaultView::UnknownRelation(relation))),
        Visible::Computed => None,
        Visible::Stored(arity, found) => Some(
            if row.len() != arity {
                Err(FaultView::ArityMismatch(relation, arity, row.len()))
            } else {
                match found {
                    Err(fault) => Err(fault),
                    Ok(set) => Ok(set.contains(row)),
                }
            },
        ),
    }
}

/// What can be told of the changes that are seen.
pub enum Shown {
    /// A computed relation decides.
    Open,
    Failed(FaultView),
    Told(Seq<FactChangeView>),
}

/// What is seen of a change to a stored row: of a relation without rules, the change
/// itself; of one with rules, whether the row is seen now and was not, or the other way
/// round, where its derived rows are kept up to date.
pub open spec fn shown_of(
    current: SnapshotView,
    next: SnapshotView,
    change: FactChangeView,
) -> Shown {
    if !derives(current.rules, change.relation) {
        Shown::Told(seq![change])
    } else if !serves(current.maintained, change.relation) {
        Shown::Told(Seq::empty())
    } else {
        match seen(current, change.relation, change.row) {
            None => Shown::Open,
            Some(Err(fault)) => Shown::Failed(fault),
            Some(Ok(before)) => match seen(next, change.relation, change.row) {
                None => Shown::Open,
                Some(Err(fault)) => Shown::Failed(fault),
                Some(Ok(after)) => Shown::Told(
                    if before == after {
                        Seq::empty()
                    } else {
                        seq![
                            FactChangeView {
                                relation: change.relation,
                                row: change.row,
                                kind: if after {
                                    FactChangeKind::Assert
                                } else {
                                    FactChangeKind::Retract
                                },
                            },
                        ]
                    },
                ),
            },
        }
    }
}

/// What is seen of changes to stored rows.
pub open spec fn shown(
    current: SnapshotView,
    next: SnapshotView,
    changes: Seq<FactChangeView>,
) -> Shown
    decreases changes.len(),
{
    if changes.len() == 0 {
        Shown::Told(Seq::empty())
    } else {
        match shown(current, next, changes.drop_last()) {
            Shown::Told(before) => match shown_of(current, next, changes.last()) {
                Shown::Told(more) => Shown::Told(before + more),
                other => other,
            },
            other => other,
        }
    }
}

proof fn lemma_shown_early(
    current: SnapshotView,
    next: SnapshotView,
    changes: Seq<FactChangeView>,
    n: int,
)
    requires
        0 <= n <= changes.len(),
        !(shown(current, next, changes.take(n)) is Told),
    ensures
        shown(current, next, changes) == shown(current, next, changes.take(n)),
    decreases changes.len(),
{
    if n == changes.len() {
        assert(changes.take(n) =~= changes);
    } else {
        assert(changes.drop_last().take(n) =~= changes.take(n));
        lemma_shown_early(current, next, changes.drop_last(), n);
    }
}

/// Whether a result is what can be told of the changes that are seen.
pub open spec fn tells_shown(
    result: Result<Vec<FactChange>, KernelError>,
    expected: Shown,
) -> bool {
    match expected {
        Shown::Open => true,
        Shown::Failed(fault) => result matches Err(error) && error@ == fault,
        Shown::Told(changes) => result matches Ok(told) && fact_change_views(told@) == changes,
    }
}

/// What is seen of changes to stored rows.
pub fn public_fact_changes(
    current: &Snapshot,
    next: &Snapshot,
    changes: &[FactChange],
) -> (result: Result<Vec<FactChange>, KernelError>)
    ensures
        tells_shown(result, shown(current@, next@, fact_change_views(changes@))),
{
    let ghost all = fact_change_views(changes@);
    let mut visible: Vec<FactChange> = Vec::new();
    let mut i: usize = 0;
    proof {
        assert(all.take(0) =~= Seq::empty());
        assert(fact_change_views(visible@) =~= Seq::empty());
    }
    while i < changes.len()
        invariant
            i <= changes@.len(),
            all == fact_change_views(changes@),
            match shown(current@, next@, all.take(i as int)) {
                Shown::Open => true,
                Shown::Failed(_) => false,
                Shown::Told(told) => fact_change_views(visible@) == told,
            },
        decreases changes@.len() - i,
    {
        let ghost so_far = fact_change_views(visible@);
        let relation = changes[i].relation;
        proof {
            assert(all.take(i + 1).drop_last() =~= all.take(i as int));
            assert(all.take(i + 1).last() == changes@[i as int]@);
            if !(shown(current@, next@, all.take(i + 1)) is Told) {
                lemma_shown_early(current@, next@, all, i + 1);
            }
        }
        if !relation_has_active_rule_head(current.rules(), relation) {
            visible.push(changes[i].clone());
            proof {
                assert(fact_change_views(visible@) =~= so_far + seq![changes@[i as int]@]);
            }
        } else if is_served(current.maintained(), relation) {
            let before = match current.contains(relation, &changes[i].tuple) {
                Err(error) => {
                    return Err(error);
                },
                Ok(before) => before,
            };
            let after = match next.contains(relation, &changes[i].tuple) {
                Err(error) => {
                    return Err(error);
                },
                Ok(after) => after,
            };
            if before != after {
                let kind = if after {
                    FactChangeKind::Assert
                } else {
                    FactChangeKind::Retract
                };
                visible.push(FactChange { relation, tuple: changes[i].tuple.clone(), kind });
                proof {
                    assert(fact_change_views(visible@) =~= so_far + seq![
                        visible@[visible@.len() - 1]@,
                    ]);
                }
            } else {
                assert(so_far + Seq::<FactChangeView>::empty() =~= so_far);
            }
        } else {
            assert(so_far + Seq::<FactChangeView>::empty() =~= so_far);
        }
        i = i + 1;
    }
    assert(all.take(i as int) =~= all);
    Ok(visible)
}

/// A commit that leads to a snapshot.
pub open spec fn commit_to(
    next: SnapshotView,
    catalog_changes: Seq<CatalogChangeView>,
    changes: Seq<FactChangeView>,
    relation_changes: Seq<FactChangeView>,
) -> CommitView {
    CommitView {
        version: next.version,
        catalog_changes,
        changes,
        relation_changes,
        settled_relation_changes_available: true,
    }
}

/// Records a commit in the snapshot that it leads to.
pub fn record_commit(
    current: &Snapshot,
    next: Snapshot,
    catalog_changes: Vec<CatalogChange>,
    changes: Vec<FactChange>,
    relation_changes: Vec<FactChange>,
) -> (result: CommitResult)
    ensures
        result.commit@ == commit_to(
            next@,
            catalog_change_views(catalog_changes@),
            fact_change_views(changes@),
            fact_change_views(relation_changes@),
        ),
        result.snapshot@ == (SnapshotView {
            commits: current@.commits.push(result.commit@),
            ..next@
        }),
{
    let commit = Commit {
        version: next.version(),
        catalog_changes,
        changes,
        relation_changes,
        settled_relation_changes_available: true,
    };
    let commits = current.history().append(commit.clone());
    let snapshot = Arc::new(next.with_history(commits));
    CommitResult { snapshot, commit }
}

/// The snapshot that the writes of a transaction lead to, before its rules are evaluated.
pub open spec fn leads_to(view: TransactionView, current: SnapshotView) -> SnapshotView {
    SnapshotView {
        version: (current.version + 1) as u64,
        relations: brought(view, current),
        derived: DerivedView::Unevaluated,
        maintained: None,
        ..current
    }
}

impl Transaction {
    /// The snapshot that the writes lead to, before its rules are evaluated, and the changes
    /// to stored rows. Writes that get in the way of what was committed since the
    /// transaction began are refused.
    pub fn next_snapshot(&self, current: &Snapshot) -> (result: Result<
        (Snapshot, Vec<FactChange>),
        KernelError,
    >)
        requires
            has_room(self@, current@),
            current@.version < u64::MAX,
        ensures
            match result {
                Ok((next, changes)) => {
                    &&& current@.version != self@.base.version ==> forall|id: u64| #[trigger]
                        self@.writes.contains_key(id) ==> unopposed(self@, current@, id)
                    &&& forall|id: u64| #[trigger]
                        self@.writes.contains_key(id) ==> kept(self@, current@, id)
                    &&& next@ == leads_to(self@, current@)
                    &&& lists_changes(fact_change_views(changes@), effects(self@, current@))
                },
                Err(error) => if current@.version != self@.base.version {
                    exists|id: u64| #[trigger]
                        self@.writes.contains_key(id) && refused(*self, current@, id, error@)
                } else {
                    misplaced(self@, current@, error@)
                },
            },
    {
        if current.version() != self.base_version() {
            match self.validate_conflicts(current) {
                Err(error) => {
                    return Err(error);
                },
                Ok(()) => {},
            }
        }
        let (relations, changes) = match self.stage(current) {
            Err(error) => {
                proof {
                    if current@.version != self@.base.version {
                        let id = choose|id: u64| #[trigger]
                            self@.writes.contains_key(id) && !kept(
                                self@,
                                current@,
                                id,
                            );
                        assert(unopposed(self@, current@, id));
                    }
                }
                return Err(error);
            },
            Ok(staged) => staged,
        };
        let next = Snapshot::new(
            current.version() + 1,
            relations,
            copy_definitions(current.rules()),
            current.computed_relations().copy(),
            current.history().copy(),
        );
        Ok((next, changes))
    }
}

/// Whether a commit of changes to stored rows went as it should, where `next` is the
/// snapshot with its rules evaluated as far as is needed.
pub open spec fn commits_rows(
    result: Result<CommitResult, KernelError>,
    current: SnapshotView,
    next: SnapshotView,
    changes: Seq<FactChangeView>,
    visible: Option<Seq<FactChangeView>>,
) -> bool {
    match (shown(current, next, changes), result) {
        (Shown::Open, Err(_)) => true,
        (Shown::Failed(fault), Err(error)) => error@ == fault,
        (Shown::Failed(_), Ok(_)) => false,
        (Shown::Told(_), Err(_)) => false,
        (told, Ok(done)) => {
            &&& done.commit@ == commit_to(
                next,
                Seq::empty(),
                changes,
                done.commit@.relation_changes,
            )
            &&& done.snapshot@ == (SnapshotView {
                commits: current.commits.push(done.commit@),
                ..next
            })
            &&& told matches Shown::Told(shown) ==> match visible {
                None => done.commit@.relation_changes == shown,
                Some(more) => lists_changes(
                    done.commit@.relation_changes,
                    last_kinds(shown + more),
                ),
            }
        },
    }
}

/// Whether a commit of changes to stored rows went as it should, where `next` is the
/// snapshot before its rules are evaluated.
pub open spec fn rows_committed(
    result: Result<CommitResult, KernelError>,
    current: SnapshotView,
    next: SnapshotView,
    changes: Seq<FactChangeView>,
    evaluated: Option<Result<Evaluation, KernelError>>,
) -> bool {
    match current.maintained {
        None => commits_rows(result, current, next, changes, None),
        Some(_) => match settled(next, evaluated->0) {
            Err(fault) => result matches Err(error) && error@ == fault,
            Ok(after) => commits_rows(
                result,
                current,
                after,
                changes,
                Some(fact_change_views(evaluated->0->Ok_0.visible_changes@)),
            ),
        },
    }
}

/// Commits changes to stored rows. Where derived rows are kept up to date, `evaluated` is
/// what evaluating the rules of the next snapshot gave.
pub fn commit_rows(
    current: &Snapshot,
    next: Snapshot,
    changes: Vec<FactChange>,
    evaluated: Option<Result<Evaluation, KernelError>>,
) -> (result: Result<CommitResult, KernelError>)
    requires
        current@.maintained is Some ==> evaluated is Some,
    ensures
        rows_committed(result, current@, next@, fact_change_views(changes@), evaluated),
{
    match (current.maintained(), evaluated) {
        (Some(_), Some(evaluated)) => {
            let (next, visible) = match settle(next, evaluated) {
                Err(error) => {
                    return Err(error);
                },
                Ok(settled) => settled,
            };
            match public_fact_changes(current, &next, &changes) {
                Err(error) => Err(error),
                Ok(told) => {
                    let merged = merge_fact_changes(told, &visible);
                    let none: Vec<CatalogChange> = Vec::new();
                    assert(catalog_change_views(none@) =~= Seq::empty());
                    Ok(record_commit(current, next, none, changes, merged))
                },
            }
        },
        _ => match public_fact_changes(current, &next, &changes) {
            Err(error) => Err(error),
            Ok(told) => {
                let none: Vec<CatalogChange> = Vec::new();
                assert(catalog_change_views(none@) =~= Seq::empty());
                Ok(record_commit(current, next, none, changes, told))
            },
        },
    }
}

/// What can be told of how what is seen differs.
pub enum Differs {
    /// A computed relation decides.
    Open,
    Failed(FaultView),
    Kinds(Map<(u64, Row), FactChangeKind>),
}

/// The rows of a relation that came or went.
pub open spec fn turned(relation: u64, before: Set<Row>, after: Set<Row>) -> Map<
    (u64, Row),
    FactChangeKind,
> {
    Map::new(
        |fact: (u64, Row)|
            fact.0 == relation && before.contains(fact.1) != after.contains(fact.1),
        |fact: (u64, Row)|
            if after.contains(fact.1) {
                FactChangeKind::Assert
            } else {
                FactChangeKind::Retract
            },
    )
}

/// How what is seen of a relation differs between two snapshots.
pub open spec fn differs_in(current: SnapshotView, next: SnapshotView, relation: u64) -> Differs {
    if !current.relations.contains_key(relation) {
        Differs::Failed(FaultView::UnknownRelation(relation))
    } else {
        let free = Seq::new(
            current.relations[relation].metadata.arity as nat,
            |i: int| None::<ValueView>,
        );
        match scanned(current.visible(relation), relation, free) {
            None => Differs::Open,
            Some(Err(fault)) => Differs::Failed(fault),
            Some(Ok(before)) => match scanned(next.visible(relation), relation, free) {
                None => Differs::Open,
                Some(Err(fault)) => Differs::Failed(fault),
                Some(Ok(after)) => Differs::Kinds(turned(relation, before, after)),
            },
        }
    }
}

/// How what is seen of relations differs between two snapshots.
pub open spec fn differs(
    current: SnapshotView,
    next: SnapshotView,
    relations: Seq<u64>,
) -> Differs
    decreases relations.len(),
{
    if relations.len() == 0 {
        Differs::Kinds(Map::empty())
    } else {
        match differs(current, next, relations.drop_last()) {
            Differs::Kinds(before) => match differs_in(current, next, relations.last()) {
                Differs::Kinds(more) => Differs::Kinds(before.union_prefer_right(more)),
                other => other,
            },
            other => other,
        }
    }
}

proof fn lemma_differs_early(
    current: SnapshotView,
    next: SnapshotView,
    relations: Seq<u64>,
    n: int,
)
    requires
        0 <= n <= relations.len(),
        !(differs(current, next, relations.take(n)) is Kinds),
    ensures
        differs(current, next, relations) == differs(current, next, relations.take(n)),
    decreases relations.len(),
{
    if n == relations.len() {
        assert(relations.take(n) =~= relations);
    } else {
        assert(relations.drop_last().take(n) =~= relations.take(n));
        lemma_differs_early(current, next, relations.drop_last(), n);
    }
}

/// What became of the rows of a relation.
spec fn became(relation: u64, set: Set<Row>, kind: FactChangeKind) -> Map<
    (u64, Row),
    FactChangeKind,
> {
    Map::new(
        |fact: (u64, Row)| fact.0 == relation && set.contains(fact.1),
        |fact: (u64, Row)| kind,
    )
}

fn record_rows(
    changes: &mut Vec<FactChange>,
    relation: RelationId,
    found: &[Tuple],
    kind: FactChangeKind,
    Ghost(kinds): Ghost<Map<(u64, Row), FactChangeKind>>,
)
    requires
        lists_changes(fact_change_views(old(changes)@), kinds),
    ensures
        lists_changes(
            fact_change_views(final(changes)@),
            kinds.union_prefer_right(became(relation@, rows(found@).to_set(), kind)),
        ),
{
    let ghost all = rows(found@);
    let mut i: usize = 0;
    proof {
        assert(kinds.union_prefer_right(became(relation@, all.take(0).to_set(), kind)) =~= kinds);
    }
    while i < found.len()
        invariant
            i <= found@.len(),
            all == rows(found@),
            lists_changes(
                fact_change_views(changes@),
                kinds.union_prefer_right(became(relation@, all.take(i as int).to_set(), kind)),
            ),
        decreases found@.len() - i,
    {
        let ghost before = kinds.union_prefer_right(
            became(relation@, all.take(i as int).to_set(), kind),
        );
        place_change(
            changes,
            FactChange { relation, tuple: found[i].clone(), kind },
            Ghost(before),
        );
        proof {
            let row = all[i as int];
            let set = all.take(i as int).to_set();
            let more = all.take(i + 1).to_set();
            assert(all.take(i + 1) =~= all.take(i as int).push(row));
            crate::kernel::algebra::lemma_to_set_push(all.take(i as int), row);
            assert(more =~= set.insert(row));
            assert(kinds.union_prefer_right(became(relation@, more, kind)) =~= before.insert(
                (relation@, row),
                kind,
            ));
        }
        i = i + 1;
    }
    assert(all.take(i as int) =~= all);
}

/// How what is seen of the relations whose derived rows are kept up to date differs between
/// two snapshots.
pub fn settled_snapshot_relation_changes(current: &Snapshot, next: &Snapshot) -> (result: Result<
    Vec<FactChange>,
    KernelError,
>)
    ensures
        match current@.maintained {
            None => result matches Ok(changes) && changes@ == Seq::<FactChange>::empty(),
            Some(targets) => match differs(current@, next@, targets) {
                Differs::Open => true,
                Differs::Failed(fault) => result matches Err(error) && error@ == fault,
                Differs::Kinds(kinds) => result matches Ok(changes) && lists_changes(
                    fact_change_views(changes@),
                    kinds,
                ),
            },
        },
{
    let mut changes: Vec<FactChange> = Vec::new();
    let targets = match current.maintained() {
        None => {
            return Ok(changes);
        },
        Some(targets) => targets,
    };
    let ghost all = raw_ids(targets@);
    let ghost mut kinds = Map::<(u64, Row), FactChangeKind>::empty();
    let mut i: usize = 0;
    proof {
        assert(all.take(0) =~= Seq::empty());
        assert(change_facts(fact_change_views(changes@)).to_set() =~= Set::empty());
    }
    while i < targets.len()
        invariant
            i <= targets@.len(),
            all == raw_ids(targets@),
            current@.maintained == Some(all),
            lists_changes(fact_change_views(changes@), kinds),
            match differs(current@, next@, all.take(i as int)) {
                Differs::Open => true,
                Differs::Failed(_) => false,
                Differs::Kinds(expected) => expected == kinds,
            },
        decreases targets@.len() - i,
    {
        let relation = targets[i];
        proof {
            assert(all.take(i + 1).drop_last() =~= all.take(i as int));
            assert(all.take(i + 1).last() == relation@);
            if !(differs(current@, next@, all.take(i + 1)) is Kinds) {
                lemma_differs_early(current@, next@, all, i + 1);
            }
        }
        let arity: u16 = match current.relation(relation) {
            Err(error) => {
                return Err(error);
            },
            Ok(state) => state.metadata().arity(),
        };
        let bindings = free_bindings(arity);
        let before = match current.scan(relation, &bindings) {
            Err(error) => {
                return Err(error);
            },
            Ok(found) => finish_tuple_rows(found),
        };
        let after = match next.scan(relation, &bindings) {
            Err(error) => {
                return Err(error);
            },
            Ok(found) => finish_tuple_rows(found),
        };
        let ghost was = rows(before@).to_set();
        let ghost will = rows(after@).to_set();
        let gone = difference_ordered_tuple_rows(copy_tuples(&before), copy_tuples(&after));
        let came = difference_ordered_tuple_rows(after, before);
        record_rows(&mut changes, relation, &gone, FactChangeKind::Retract, Ghost(kinds));
        let ghost half = kinds.union_prefer_right(
            became(relation@, was.difference(will), FactChangeKind::Retract),
        );
        record_rows(&mut changes, relation, &came, FactChangeKind::Assert, Ghost(half));
        proof {
            let full = half.union_prefer_right(
                became(relation@, will.difference(was), FactChangeKind::Assert),
            );
            assert(full =~= kinds.union_prefer_right(turned(relation@, was, will)));
            kinds = full;
        }
        i = i + 1;
    }
    assert(all.take(i as int) =~= all);
    Ok(changes)
}

/// Where what is seen of a relation is the same in two snapshots, nothing is told of it.
pub proof fn law_nothing_is_told_of_what_stays(relation: u64, set: Set<Row>)
    ensures
        turned(relation, set, set) == Map::<(u64, Row), FactChangeKind>::empty(),
{
    assert(turned(relation, set, set) =~= Map::<(u64, Row), FactChangeKind>::empty());
}

/// A snapshot with the commit that led to it.
pub open spec fn recorded(
    current: SnapshotView,
    next: SnapshotView,
    catalog_changes: Seq<CatalogChangeView>,
    changes: Seq<FactChangeView>,
    relation_changes: Seq<FactChangeView>,
) -> SnapshotView {
    SnapshotView {
        commits: current.commits.push(commit_to(next, catalog_changes, changes, relation_changes)),
        ..next
    }
}

/// Whether a snapshot is what a change to the catalog leads to, where `next` is the snapshot
/// before its rules are evaluated.
pub open spec fn records(
    current: SnapshotView,
    next: SnapshotView,
    catalog_changes: Seq<CatalogChangeView>,
    changes: Seq<FactChangeView>,
    evaluated: Option<Result<Evaluation, KernelError>>,
    after: SnapshotView,
) -> bool {
    let told = after.commits.last().relation_changes;
    match current.maintained {
        None => after == recorded(current, next, catalog_changes, changes, Seq::empty()),
        Some(targets) => {
            &&& settled(next, evaluated->0) matches Ok(settled)
            &&& after == recorded(current, settled, catalog_changes, changes, told)
            &&& match differs(current, settled, targets) {
                Differs::Open => true,
                Differs::Failed(_) => false,
                Differs::Kinds(kinds) => lists_changes(told, kinds),
            }
        },
    }
}

/// Whether a change to the catalog fails for a reason.
pub open spec fn fails(
    current: SnapshotView,
    next: SnapshotView,
    evaluated: Option<Result<Evaluation, KernelError>>,
    fault: FaultView,
) -> bool {
    match current.maintained {
        None => false,
        Some(targets) => match settled(next, evaluated->0) {
            Err(reason) => fault == reason,
            Ok(settled) => match differs(current, settled, targets) {
                Differs::Open => true,
                Differs::Failed(reason) => fault == reason,
                Differs::Kinds(_) => false,
            },
        },
    }
}

/// Commits a change to the catalog. Where derived rows are kept up to date, `evaluated` is
/// what evaluating the rules of the next snapshot gave.
pub fn commit_catalog(
    current: &Snapshot,
    next: Snapshot,
    catalog_changes: Vec<CatalogChange>,
    changes: Vec<FactChange>,
    evaluated: Option<Result<Evaluation, KernelError>>,
) -> (result: Result<CommitResult, KernelError>)
    requires
        current@.maintained is Some ==> evaluated is Some,
    ensures
        match result {
            Ok(done) => records(
                current@,
                next@,
                catalog_change_views(catalog_changes@),
                fact_change_views(changes@),
                evaluated,
                done.snapshot@,
            ) && done.commit@ == done.snapshot@.commits.last(),
            Err(error) => fails(current@, next@, evaluated, error@),
        },
{
    match (current.maintained(), evaluated) {
        (Some(_), Some(evaluated)) => {
            let (next, _visible) = match settle(next, evaluated) {
                Err(error) => {
                    return Err(error);
                },
                Ok(settled) => settled,
            };
            match settled_snapshot_relation_changes(current, &next) {
                Err(error) => Err(error),
                Ok(told) => Ok(record_commit(current, next, catalog_changes, changes, told)),
            }
        },
        _ => {
            let none: Vec<FactChange> = Vec::new();
            assert(fact_change_views(none@) =~= Seq::empty());
            Ok(record_commit(current, next, catalog_changes, changes, none))
        },
    }
}

} // verus!
