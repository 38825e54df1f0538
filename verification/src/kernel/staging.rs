//! Bringing the writes of a transaction to the newest snapshot.

use crate::kernel::algebra::{within, Row};
use crate::kernel::changes::{change_facts, lists_changes, place_change};
use crate::kernel::commit::{fact_change_views, FactChange, FactChangeKind};
use crate::kernel::error::{Conflict, ConflictKind, FaultView, KernelError};
use crate::kernel::metadata::{ConflictPolicy, PolicyView, RelationId};
use crate::kernel::overlay::{lists_writes, overlaid, RelationWriteOverlay};
use crate::kernel::relation::{change_rows, changed, changed_by_all, finds_first, is_first_with,
    lemma_metadata_in_order, takes_effect, RelationMutationKind, RelationState, RelationView,
    RowChange};
use crate::kernel::snapshot::{Snapshot, SnapshotView};
use crate::kernel::states::{lists_ids, raw_ids, RelationStates};
use crate::kernel::transaction::{first_with_key, keys_apart, lemma_first_with_key, lemma_keys_apart,
    writes_fit, Transaction, TransactionView};
use crate::tuple::{increasing, lemma_row_order_total, project, row_less, Tuple};
use vstd::prelude::*;

verus! {

/// How a write gets in the way of what was committed since.
pub open spec fn conflicting(
    view: TransactionView,
    current: SnapshotView,
    relation: u64,
    row: Row,
) -> Option<ConflictKind> {
    let base = view.base.relations[relation];
    let now = current.relations[relation];
    match base.metadata.conflict_policy {
        PolicyView::SetOfRows => if view.written_to(relation)[row] is Assert && base.rows.contains(row)
            && !now.rows.contains(row) {
            Some(ConflictKind::AssertRetract)
        } else {
            None
        },
        PolicyView::Functional(key) => if first_with_key(base.rows, key, project(row, key))
            != first_with_key(now.rows, key, project(row, key)) {
            Some(ConflictKind::FunctionalKeyChanged)
        } else {
            None
        },
        PolicyView::EventAppend => None,
    }
}

/// The row that a conflict is told with: the one that was written; for a key, where the
/// holder of a key was looked up, the row that holds it now, or the one that held it, or
/// the key.
pub open spec fn told(view: TransactionView, relation: u64, row: Row, looked_up: bool) -> Row {
    match view.base.relations[relation].metadata.conflict_policy {
        PolicyView::Functional(key) => if looked_up {
            match view.holder(relation, row) {
                Some(found) => found,
                None => match first_with_key(
                    view.base.relations[relation].rows,
                    key,
                    project(row, key),
                ) {
                    Some(found) => found,
                    None => project(row, key),
                },
            }
        } else {
            row
        },
        _ => row,
    }
}

/// Whether a relation that was written to is still what it was.
pub open spec fn kept(view: TransactionView, current: SnapshotView, relation: u64) -> bool {
    current.relations.contains_key(relation) && view.base.relations.contains_key(relation)
        && current.relations[relation].metadata == view.base.relations[relation].metadata
}

/// Whether the writes to a relation do not get in the way of what was committed since.
pub open spec fn unopposed(view: TransactionView, current: SnapshotView, relation: u64) -> bool {
    &&& kept(view, current, relation)
    &&& forall|row: Row| #[trigger]
        view.written_to(relation).contains_key(row) ==> conflicting(view, current, relation, row) is None
}

/// Whether the writes to a relation are refused for a reason.
pub open spec fn refused(
    transaction: Transaction,
    current: SnapshotView,
    relation: u64,
    fault: FaultView,
) -> bool {
    let view = transaction@;
    ||| !current.relations.contains_key(relation) && fault == FaultView::UnknownRelation(relation)
    ||| current.relations.contains_key(relation) && !kept(view, current, relation) && fault
        == FaultView::RelationAlreadyExists(relation)
    ||| kept(view, current, relation) && exists|row: Row| #[trigger]
        view.written_to(relation).contains_key(row) && (conflicting(
            view,
            current,
            relation,
            row,
        ) matches Some(kind) && fault == FaultView::Conflict(
            relation,
            told(view, relation, row, transaction.looks_up_keys(relation)),
            kind,
        ))
}

proof fn lemma_finds_first(set: Set<Row>, positions: Seq<u16>, key: Row, found: Option<Tuple>)
    requires
        finds_first(set, positions, key, found),
    ensures
        match found {
            Some(tuple) => first_with_key(set, positions, key) == Some(tuple@),
            None => first_with_key(set, positions, key) is None,
        },
{
    match found {
        Some(tuple) => {
            lemma_first_with_key(set, positions, key, tuple@);
        },
        None => {
            if exists|row: Row| is_first_with(set, positions, key, row) {
                let row = choose|row: Row| is_first_with(set, positions, key, row);
                assert(set.contains(row));
            }
        },
    }
}

fn same_found(a: &Option<Tuple>, b: &Option<Tuple>) -> (result: bool)
    ensures
        result == match (*a, *b) {
            (Some(x), Some(y)) => x@ == y@,
            (None, None) => true,
            _ => false,
        },
{
    match (a, b) {
        (Some(x), Some(y)) => x.same(y),
        (None, None) => true,
        _ => false,
    }
}

impl Transaction {
    /// Whether the writes to a relation do not get in the way of what was committed since.
    fn validate_relation(
        &self,
        relation: RelationId,
        writes: &RelationWriteOverlay,
        base: &RelationState,
        current: &RelationState,
        Ghost(now): Ghost<SnapshotView>,
    ) -> (result: Result<(), KernelError>)
        requires
            self@.writes.contains_key(relation@),
            writes@ == self@.writes[relation@],
            writes_fit(self@.writes, self@.base),
            kept(self@, now, relation@),
            base@ == self@.base.relations[relation@],
            base@.metadata.id == relation@,
            current@ == now.relations[relation@],
            base@.wf(),
            current@.wf(),
        ensures
            match result {
                Ok(()) => unopposed(self@, now, relation@),
                Err(error) => refused(*self, now, relation@, error@),
            },
    {
        let changes = writes.listing();
        let ghost listed = change_rows(changes@);
        let ghost touched = listed.map_values(|change: RowChange| change.row);
        let mut i: usize = 0;
        while i < changes.len()
            invariant
                i <= changes@.len(),
                self@.writes.contains_key(relation@),
                writes@ == self@.writes[relation@],
                writes@ == self@.written_to(relation@),
                writes_fit(self@.writes, self@.base),
                kept(self@, now, relation@),
                base@ == self@.base.relations[relation@],
                base@.metadata.id == relation@,
                current@ == now.relations[relation@],
                base@.wf(),
                current@.wf(),
                listed == change_rows(changes@),
                lists_writes(listed, writes@),
                forall|j: int|
                    0 <= j < i ==> conflicting(self@, now, relation@, (#[trigger] listed[j]).row) is None,
            decreases changes@.len() - i,
        {
            let ghost row = changes@[i as int].0@;
            proof {
                assert(listed[i as int] == (RowChange { row, kind: changes@[i as int].1 }));
                assert(writes@.contains_key(row));
                assert(self@.writes.contains_key(relation@) && self@.writes[relation@].contains_key(
                    row,
                ));
                lemma_metadata_in_order(base@.metadata);
            }
            match base.metadata().conflict_policy() {
                ConflictPolicy::EventAppend => {},
                ConflictPolicy::SetOfRows => {
                    if matches!(changes[i].1, RelationMutationKind::Assert) && base.contains_tuple(
                        &changes[i].0,
                    ) && !current.contains_tuple(&changes[i].0) {
                        return Err(
                            KernelError::Conflict(
                                Conflict {
                                    relation,
                                    tuple: changes[i].0.clone(),
                                    kind: ConflictKind::AssertRetract,
                                },
                            ),
                        );
                    }
                },
                ConflictPolicy::Functional { key_positions } => {
                    let before = base.tuple_for_key(key_positions, &changes[i].0);
                    let after = current.tuple_for_key(key_positions, &changes[i].0);
                    proof {
                        lemma_finds_first(
                            base@.rows,
                            key_positions@,
                            project(row, key_positions@),
                            before,
                        );
                        lemma_finds_first(
                            current@.rows,
                            key_positions@,
                            project(row, key_positions@),
                            after,
                        );
                    }
                    if !same_found(&before, &after) {
                        let tuple = self.conflict_row(
                            relation,
                            &changes[i].0,
                            key_positions,
                            before,
                        );
                        return Err(
                            KernelError::Conflict(
                                Conflict {
                                    relation,
                                    tuple,
                                    kind: ConflictKind::FunctionalKeyChanged,
                                },
                            ),
                        );
                    }
                },
            }
            i = i + 1;
        }
        proof {
            assert forall|row: Row| #[trigger]
                self@.written_to(relation@).contains_key(row) implies conflicting(
                self@,
                now,
                relation@,
                row,
            ) is None by {
                assert(touched.to_set().contains(row));
                let j = choose|j: int| 0 <= j < touched.len() && touched[j] == row;
                assert(listed[j].row == row);
            }
        }
        Ok(())
    }

    /// The row that a conflict over a key is told with.
    fn conflict_row(
        &self,
        relation: RelationId,
        tuple: &Tuple,
        key_positions: &[u16],
        before: Option<Tuple>,
    ) -> (row: Tuple)
        requires
            self@.base.relations.contains_key(relation@),
            self@.base.relations[relation@].metadata.conflict_policy == PolicyView::Functional(
                key_positions@,
            ),
            within(key_positions@, tuple@.len()),
            match before {
                Some(found) => first_with_key(
                    self@.base.relations[relation@].rows,
                    key_positions@,
                    project(tuple@, key_positions@),
                ) == Some(found@),
                None => first_with_key(
                    self@.base.relations[relation@].rows,
                    key_positions@,
                    project(tuple@, key_positions@),
                ) is None,
            },
            tuple@.len() == self@.base.relations[relation@].metadata.arity,
        ensures
            row@ == told(self@, relation@, tuple@, self.looks_up_keys(relation@)),
    {
        if !self.looked_up_keys(relation) {
            return tuple.clone();
        }
        match self.key_holder(relation, tuple) {
            Some(found) => found,
            None => match before {
                Some(found) => found,
                None => Tuple::new(tuple.project(key_positions)),
            },
        }
    }

    /// Whether the writes do not get in the way of what was committed since.
    pub fn validate_conflicts(&self, current: &Snapshot) -> (result: Result<(), KernelError>)
        ensures
            match result {
                Ok(()) => forall|id: u64| #[trigger]
                    self@.writes.contains_key(id) ==> unopposed(self@, current@, id),
                Err(error) => exists|id: u64| #[trigger]
                    self@.writes.contains_key(id) && refused(*self, current@, id, error@),
            },
    {
        let ids = self.written_ids();
        let ghost listed = raw_ids(ids@);
        let mut i: usize = 0;
        while i < ids.len()
            invariant
                i <= ids@.len(),
                listed == raw_ids(ids@),
                lists_ids(listed, self@.writes.dom()),
                forall|j: int| 0 <= j < i ==> unopposed(self@, current@, #[trigger] listed[j]),
            decreases ids@.len() - i,
        {
            let id = ids[i];
            proof {
                assert(listed[i as int] == id@);
                assert(listed.to_set().contains(id@));
            }
            let now = match current.relation(id) {
                Err(error) => {
                    assert(refused(*self, current@, id@, error@));
                    return Err(error);
                },
                Ok(state) => state,
            };
            let base = match self.base().relation(id) {
                Err(_) => {
                    let error = KernelError::RelationAlreadyExists(id);
                    assert(refused(*self, current@, id@, error@));
                    return Err(error);
                },
                Ok(state) => state,
            };
            if !now.metadata().same(base.metadata()) {
                let error = KernelError::RelationAlreadyExists(id);
                assert(refused(*self, current@, id@, error@));
                return Err(error);
            }
            match self.writes_to(id) {
                None => {},
                Some(writes) => match self.validate_relation(id, writes, base, now, Ghost(current@)) {
                    Err(error) => {
                        return Err(error);
                    },
                    Ok(()) => {},
                },
            }
            i = i + 1;
        }
        proof {
            assert forall|id: u64| #[trigger] self@.writes.contains_key(id) implies unopposed(
                self@,
                current@,
                id,
            ) by {
                assert(listed.to_set().contains(id));
                let j = choose|j: int| 0 <= j < listed.len() && listed[j] == id;
                assert(unopposed(self@, current@, listed[j]));
            }
        }
        Ok(())
    }
}

/// The rows of a relation once writes that were made on `base` are brought to it: what was
/// asserted is there, and of what was retracted only that stays which is newer than `base`.
pub open spec fn committed(
    now: Set<Row>,
    base: Set<Row>,
    writes: Map<Row, RelationMutationKind>,
) -> Set<Row> {
    Set::new(
        |row: Row|
            if !writes.contains_key(row) {
                now.contains(row)
            } else if writes[row] is Assert {
                true
            } else {
                now.contains(row) && !base.contains(row)
            },
    )
}

/// The relations once the writes of a transaction are brought to a snapshot.
pub open spec fn brought(view: TransactionView, current: SnapshotView) -> Map<u64, RelationView> {
    Map::new(
        |id: u64| current.relations.contains_key(id),
        |id: u64|
            RelationView {
                metadata: current.relations[id].metadata,
                rows: committed(
                    current.relations[id].rows,
                    view.base.relations[id].rows,
                    view.written_to(id),
                ),
            },
    )
}

/// A change to a row, as commits tell it.
pub open spec fn told_kind(kind: RelationMutationKind) -> FactChangeKind {
    match kind {
        RelationMutationKind::Assert => FactChangeKind::Assert,
        RelationMutationKind::Retract => FactChangeKind::Retract,
    }
}

/// What the writes of a transaction change in a snapshot.
pub open spec fn effects(view: TransactionView, current: SnapshotView) -> Map<
    (u64, Row),
    FactChangeKind,
> {
    Map::new(
        |fact: (u64, Row)|
            view.writes.contains_key(fact.0) && view.writes[fact.0].contains_key(fact.1)
                && takes_effect(
                current.relations[fact.0].rows,
                view.base.relations[fact.0].rows,
                (RowChange { row: fact.1, kind: view.writes[fact.0][fact.1] }),
            ),
        |fact: (u64, Row)| told_kind(view.writes[fact.0][fact.1]),
    )
}

/// Whether the rows that there are and those that are written can be counted.
pub open spec fn has_room(view: TransactionView, current: SnapshotView) -> bool {
    forall|id: u64| #[trigger]
        view.writes.contains_key(id) && current.relations.contains_key(id)
            ==> current.relations[id].rows.len() + view.writes[id].dom().len() <= usize::MAX
}

/// Whether the first relation that was written to and is not what it was is refused for a
/// reason.
pub open spec fn misplaced(view: TransactionView, current: SnapshotView, fault: FaultView) -> bool {
    exists|id: u64| #[trigger]
        view.writes.contains_key(id) && !kept(view, current, id) && (forall|other: u64| #[trigger]
            view.writes.contains_key(other) && other < id ==> kept(view, current, other)) && fault
            == if current.relations.contains_key(id) {
            FaultView::RelationAlreadyExists(id)
        } else {
            FaultView::UnknownRelation(id)
        }
}

/// What changes of different rows come to.
proof fn lemma_changed_by_all(now: Set<Row>, base: Set<Row>, changes: Seq<RowChange>)
    requires
        increasing(changes.map_values(|change: RowChange| change.row)),
    ensures
        forall|change: RowChange| #[trigger]
            changed_by_all(now, base, changes).1.contains(change) <==> changes.contains(change)
                && takes_effect(now, base, change),
        forall|row: Row|
            (forall|i: int| 0 <= i < changes.len() ==> (#[trigger] changes[i]).row != row)
                ==> #[trigger] changed_by_all(now, base, changes).0.contains(row) == now.contains(row),
        forall|i: int|
            0 <= i < changes.len() ==> changed_by_all(now, base, changes).0.contains(
                (#[trigger] changes[i]).row,
            ) == changed(now, base, changes[i]).contains(changes[i].row),
    decreases changes.len(),
{
    if changes.len() > 0 {
        let less = changes.drop_last();
        let last = changes.last();
        let touched = changes.map_values(|change: RowChange| change.row);
        assert(less.map_values(|change: RowChange| change.row) =~= touched.drop_last());
        assert forall|i: int| 0 <= i < less.len() implies (#[trigger] less[i]).row != last.row by {
            assert(row_less(touched[i], touched[changes.len() - 1]));
            lemma_row_order_total(last.row, last.row);
        }
        lemma_changed_by_all(now, base, less);
        let (before, applied) = changed_by_all(now, base, less);
        let (after, effective) = changed_by_all(now, base, changes);
        assert(before.contains(last.row) == now.contains(last.row));
        assert(takes_effect(before, base, last) == takes_effect(now, base, last));
        assert forall|change: RowChange| #[trigger] effective.contains(change) <==> (
        changes.contains(change) && takes_effect(now, base, change)) by {
            if effective.contains(change) {
                let i = choose|i: int| 0 <= i < effective.len() && effective[i] == change;
                if i < applied.len() {
                    assert(applied[i] == change);
                    assert(applied.contains(change));
                    let k = choose|k: int| 0 <= k < less.len() && less[k] == change;
                    assert(changes[k] == change);
                } else {
                    assert(changes[changes.len() - 1] == change);
                }
            }
            if changes.contains(change) && takes_effect(now, base, change) {
                let k = choose|k: int| 0 <= k < changes.len() && changes[k] == change;
                if k < less.len() {
                    assert(less[k] == change);
                    assert(applied.contains(change));
                    let i = choose|i: int| 0 <= i < applied.len() && applied[i] == change;
                    assert(effective[i] == change);
                } else {
                    assert(effective[applied.len() as int] == change);
                }
            }
        }
        assert forall|row: Row|
            (forall|i: int| 0 <= i < changes.len() ==> (#[trigger] changes[i]).row != row) implies
            #[trigger] after.contains(row) == now.contains(row) by {
            assert forall|i: int| 0 <= i < less.len() implies (#[trigger] less[i]).row != row by {
                assert(changes[i].row != row);
            }
            assert(changes[changes.len() - 1].row != row);
            assert(before.contains(row) == now.contains(row));
        }
        assert forall|i: int| 0 <= i < changes.len() implies after.contains(
            (#[trigger] changes[i]).row,
        ) == changed(now, base, changes[i]).contains(changes[i].row) by {
            if i < less.len() {
                assert(less[i] == changes[i]);
                assert(before.contains(less[i].row) == changed(now, base, less[i]).contains(
                    less[i].row,
                ));
            }
        }
    }
}

proof fn lemma_committed(
    now: Set<Row>,
    base: Set<Row>,
    changes: Seq<RowChange>,
    writes: Map<Row, RelationMutationKind>,
)
    requires
        lists_writes(changes, writes),
    ensures
        changed_by_all(now, base, changes).0 == committed(now, base, writes),
        forall|change: RowChange| #[trigger]
            changed_by_all(now, base, changes).1.contains(change) <==> writes.contains_key(
                change.row,
            ) && writes[change.row] == change.kind && takes_effect(now, base, change),
{
    lemma_changed_by_all(now, base, changes);
    let after = changed_by_all(now, base, changes).0;
    let touched = changes.map_values(|change: RowChange| change.row);
    assert forall|row: Row| #[trigger] after.contains(row) == committed(now, base, writes).contains(
        row,
    ) by {
        if writes.contains_key(row) {
            assert(touched.to_set().contains(row));
            let i = choose|i: int| 0 <= i < touched.len() && touched[i] == row;
            assert(changes[i].row == row);
            assert(after.contains(changes[i].row) == changed(now, base, changes[i]).contains(
                changes[i].row,
            ));
        } else {
            assert forall|i: int| 0 <= i < changes.len() implies (#[trigger] changes[i]).row
                != row by {}
        }
    }
    assert(after =~= committed(now, base, writes));
    assert forall|change: RowChange| #[trigger] changed_by_all(now, base, changes).1.contains(
        change,
    ) <==> (writes.contains_key(change.row) && writes[change.row] == change.kind && takes_effect(
        now,
        base,
        change,
    )) by {
        if changes.contains(change) {
            let i = choose|i: int| 0 <= i < changes.len() && changes[i] == change;
            assert(writes[changes[i].row] == changes[i].kind);
        }
        if writes.contains_key(change.row) && writes[change.row] == change.kind {
            assert(touched.to_set().contains(change.row));
            let i = choose|i: int| 0 <= i < touched.len() && touched[i] == change.row;
            assert(changes[i].row == change.row);
            assert(changes[i] == change);
            assert(changes.contains(change));
        }
    }
}

/// What is told of changes to a relation, on top of what is told already.
spec fn with_effects(
    kinds: Map<(u64, Row), FactChangeKind>,
    relation: u64,
    applied: Seq<RowChange>,
) -> Map<(u64, Row), FactChangeKind>
    decreases applied.len(),
{
    if applied.len() == 0 {
        kinds
    } else {
        with_effects(kinds, relation, applied.drop_last()).insert(
            (relation, applied.last().row),
            told_kind(applied.last().kind),
        )
    }
}

proof fn lemma_with_effects(
    kinds: Map<(u64, Row), FactChangeKind>,
    relation: u64,
    applied: Seq<RowChange>,
    writes: Map<Row, RelationMutationKind>,
)
    requires
        forall|change: RowChange| #[trigger]
            applied.contains(change) ==> writes.contains_key(change.row) && writes[change.row]
                == change.kind,
    ensures
        forall|fact: (u64, Row)| #[trigger]
            with_effects(kinds, relation, applied).contains_key(fact) <==> kinds.contains_key(fact)
                || (fact.0 == relation && applied.contains(
                (RowChange { row: fact.1, kind: writes[fact.1] }),
            )),
        forall|fact: (u64, Row)| #[trigger]
            with_effects(kinds, relation, applied).contains_key(fact) ==> with_effects(
                kinds,
                relation,
                applied,
            )[fact] == if fact.0 == relation && applied.contains(
                (RowChange { row: fact.1, kind: writes[fact.1] }),
            ) {
                told_kind(writes[fact.1])
            } else {
                kinds[fact]
            },
    decreases applied.len(),
{
    if applied.len() > 0 {
        let less = applied.drop_last();
        let last = applied.last();
        assert forall|change: RowChange| #[trigger] less.contains(change) implies
            writes.contains_key(change.row) && writes[change.row] == change.kind by {
            let i = choose|i: int| 0 <= i < less.len() && less[i] == change;
            assert(applied[i] == change);
            assert(applied.contains(change));
        }
        lemma_with_effects(kinds, relation, less, writes);
        assert(applied[applied.len() - 1] == last);
        assert(applied.contains(last));
        assert forall|change: RowChange| #[trigger] applied.contains(change) <==> (less.contains(
            change,
        ) || change == last) by {
            if applied.contains(change) {
                let i = choose|i: int| 0 <= i < applied.len() && applied[i] == change;
                if i < less.len() {
                    assert(less[i] == change);
                }
            }
            if less.contains(change) {
                let i = choose|i: int| 0 <= i < less.len() && less[i] == change;
                assert(applied[i] == change);
            }
        }
        assert forall|fact: (u64, Row)| #[trigger]
            with_effects(kinds, relation, applied).contains_key(fact) <==> (kinds.contains_key(fact)
                || (fact.0 == relation && applied.contains(
                (RowChange { row: fact.1, kind: writes[fact.1] }),
            ))) by {
            assert(with_effects(kinds, relation, less).contains_key(fact) <==> (kinds.contains_key(
                fact,
            ) || (fact.0 == relation && less.contains(
                (RowChange { row: fact.1, kind: writes[fact.1] }),
            ))));
        }
    }
}

fn record_effects(
    changes: &mut Vec<FactChange>,
    relation: RelationId,
    applied: &[(Tuple, RelationMutationKind)],
    Ghost(kinds): Ghost<Map<(u64, Row), FactChangeKind>>,
)
    requires
        lists_changes(fact_change_views(old(changes)@), kinds),
    ensures
        lists_changes(
            fact_change_views(final(changes)@),
            with_effects(kinds, relation@, change_rows(applied@)),
        ),
{
    let ghost all = change_rows(applied@);
    let mut i: usize = 0;
    assert(all.take(0) =~= Seq::empty());
    while i < applied.len()
        invariant
            i <= applied@.len(),
            all == change_rows(applied@),
            lists_changes(
                fact_change_views(changes@),
                with_effects(kinds, relation@, all.take(i as int)),
            ),
        decreases applied@.len() - i,
    {
        proof {
            assert(all.take(i + 1).drop_last() =~= all.take(i as int));
            assert(all.take(i + 1).last() == (RowChange {
                row: applied@[i as int].0@,
                kind: applied@[i as int].1,
            }));
        }
        let kind = match applied[i].1 {
            RelationMutationKind::Assert => FactChangeKind::Assert,
            RelationMutationKind::Retract => FactChangeKind::Retract,
        };
        place_change(
            changes,
            FactChange { relation, tuple: applied[i].0.clone(), kind },
            Ghost(with_effects(kinds, relation@, all.take(i as int))),
        );
        i = i + 1;
    }
    assert(all.take(i as int) =~= all);
}

impl Transaction {
    /// Whether the rows that there are and those that are written can be counted.
    pub fn has_room(&self, current: &Snapshot) -> (result: bool)
        ensures
            result == has_room(self@, current@),
    {
        let ids = self.written_ids();
        let ghost listed = raw_ids(ids@);
        let mut i: usize = 0;
        while i < ids.len()
            invariant
                i <= ids@.len(),
                listed == raw_ids(ids@),
                lists_ids(listed, self@.writes.dom()),
                forall|j: int|
                    0 <= j < i && current@.relations.contains_key(#[trigger] listed[j])
                        ==> current@.relations[listed[j]].rows.len()
                        + self@.writes[listed[j]].dom().len() <= usize::MAX,
            decreases ids@.len() - i,
        {
            proof {
                assert(listed[i as int] == ids@[i as int]@);
                assert(listed.to_set().contains(listed[i as int]));
            }
            match (current.relation(ids[i]), self.writes_to(ids[i])) {
                (Ok(state), Some(writes)) => {
                    if state.cardinality() > usize::MAX - writes.len() {
                        assert(self@.writes.contains_key(listed[i as int]));
                        return false;
                    }
                },
                _ => {},
            }
            i = i + 1;
        }
        proof {
            assert forall|id: u64| #[trigger] self@.writes.contains_key(id)
                && current@.relations.contains_key(id) implies current@.relations[id].rows.len()
                + self@.writes[id].dom().len() <= usize::MAX by {
                assert(listed.to_set().contains(id));
                let j = choose|j: int| 0 <= j < listed.len() && listed[j] == id;
                assert(current@.relations.contains_key(listed[j]));
            }
        }
        true
    }

    /// Brings the writes to a snapshot: its relations then, and what changed.
    pub fn stage(&self, current: &Snapshot) -> (result: Result<
        (RelationStates, Vec<FactChange>),
        KernelError,
    >)
        requires
            has_room(self@, current@),
        ensures
            match result {
                Ok((relations, changes)) => {
                    &&& forall|id: u64| #[trigger]
                        self@.writes.contains_key(id) ==> kept(self@, current@, id)
                    &&& relations@ == brought(self@, current@)
                    &&& lists_changes(
                        fact_change_views(changes@),
                        effects(self@, current@),
                    )
                },
                Err(error) => misplaced(self@, current@, error@),
            },
    {
        let ids = self.written_ids();
        let ghost listed = raw_ids(ids@);
        let mut relations = current.relations().copy();
        let mut changes: Vec<FactChange> = Vec::new();
        let ghost mut kinds = Map::<(u64, Row), FactChangeKind>::empty();
        let mut i: usize = 0;
        proof {
            assert(change_facts(fact_change_views(changes@)).to_set() =~= Set::empty());
        }
        while i < ids.len()
            invariant
                i <= ids@.len(),
                listed == raw_ids(ids@),
                lists_ids(listed, self@.writes.dom()),
                has_room(self@, current@),
                forall|j: int| 0 <= j < i ==> kept(self@, current@, #[trigger] listed[j]),
                lists_changes(fact_change_views(changes@), kinds),
                relations@.dom() == current@.relations.dom(),
                forall|id: u64| #[trigger]
                    relations@.contains_key(id) ==> relations@[id] == if listed.take(
                        i as int,
                    ).contains(id) {
                        brought(self@, current@)[id]
                    } else {
                        current@.relations[id]
                    },
                forall|fact: (u64, Row)| #[trigger]
                    kinds.contains_key(fact) <==> listed.take(i as int).contains(fact.0) && effects(
                        self@,
                        current@,
                    ).contains_key(fact),
                forall|fact: (u64, Row)| #[trigger]
                    kinds.contains_key(fact) ==> kinds[fact] == effects(self@, current@)[fact],
            decreases ids@.len() - i,
        {
            let id = ids[i];
            let ghost taken = listed.take(i as int);
            let ghost more = listed.take(i + 1);
            proof {
                assert(listed[i as int] == id@);
                assert(listed.to_set().contains(id@));
                assert(more =~= taken.push(id@));
                assert forall|other: u64| #[trigger] self@.writes.contains_key(other) && other
                    < id@ implies kept(self@, current@, other) by {
                    assert(listed.to_set().contains(other));
                    let j = choose|j: int| 0 <= j < listed.len() && listed[j] == other;
                    if j > i {
                        assert(listed[i as int] < listed[j]);
                    }
                    assert(kept(self@, current@, listed[j]));
                }
                assert forall|other: u64| #[trigger] more.contains(other) <==> (taken.contains(other)
                    || other == id@) by {
                    if taken.contains(other) {
                        let k = choose|k: int| 0 <= k < taken.len() && taken[k] == other;
                        assert(more[k] == other);
                    }
                    if more.contains(other) {
                        let k = choose|k: int| 0 <= k < more.len() && more[k] == other;
                        if k < taken.len() {
                            assert(taken[k] == other);
                        }
                    }
                    assert(more[i as int] == id@);
                }
                if taken.contains(id@) {
                    let k = choose|k: int| 0 <= k < taken.len() && taken[k] == id@;
                    assert(listed[k] < listed[i as int]);
                }
            }
            let now = match current.relation(id) {
                Err(error) => {
                    assert(self@.writes.contains_key(id@) && !kept(self@, current@, id@));
                    return Err(error);
                },
                Ok(state) => state,
            };
            let base = match self.base().relation(id) {
                Err(_) => {
                    assert(self@.writes.contains_key(id@) && !kept(self@, current@, id@));
                    return Err(KernelError::RelationAlreadyExists(id));
                },
                Ok(state) => state,
            };
            if !now.metadata().same(base.metadata()) {
                assert(self@.writes.contains_key(id@) && !kept(self@, current@, id@));
                return Err(KernelError::RelationAlreadyExists(id));
            }
            match self.writes_to(id) {
                None => {},
                Some(writes) => {
                    let listing = writes.listing();
                    proof {
                        let all = change_rows(listing@);
                        assert forall|k: int| 0 <= k < listing@.len() implies (
                        #[trigger] listing@[k]).0@.len() == now@.metadata.arity by {
                            assert(all[k].row == listing@[k].0@);
                            assert(writes@.contains_key(all[k].row));
                            assert(self@.writes.contains_key(id@)
                                && self@.writes[id@].contains_key(all[k].row));
                        }
                        lemma_committed(now@.rows, base@.rows, all, writes@);
                    }
                    let mut state = now.snapshot();
                    let applied = state.apply_ordered_changes(listing, base);
                    let ghost done = change_rows(applied@);
                    record_effects(&mut changes, id, &applied, Ghost(kinds));
                    proof {
                        lemma_with_effects(kinds, id@, done, writes@);
                        let next = with_effects(kinds, id@, done);
                        let expected = effects(self@, current@);
                        assert(self@.written_to(id@) == writes@);
                        assert(state@ == brought(self@, current@)[id@]);
                        assert forall|fact: (u64, Row)| #[trigger] next.contains_key(fact) <==> (
                        more.contains(fact.0) && expected.contains_key(fact)) by {
                            assert(kinds.contains_key(fact) <==> (taken.contains(fact.0)
                                && expected.contains_key(fact)));
                            let change = RowChange { row: fact.1, kind: writes@[fact.1] };
                            if fact.0 == id@ {
                                assert(done.contains(change) <==> (writes@.contains_key(change.row)
                                    && writes@[change.row] == change.kind && takes_effect(
                                    now@.rows,
                                    base@.rows,
                                    change,
                                )));
                                assert(expected.contains_key(fact) == done.contains(change));
                            }
                            assert(more.contains(fact.0) <==> (taken.contains(fact.0) || fact.0
                                == id@));
                        }
                        assert forall|fact: (u64, Row)| #[trigger]
                            next.contains_key(fact) implies next[fact] == expected[fact] by {
                            if fact.0 == id@ {
                                assert(!kinds.contains_key(fact));
                            }
                        }
                        kinds = next;
                    }
                    relations.insert(state);
                    assert(relations@.dom() =~= current@.relations.dom());
                },
            }
            i = i + 1;
        }
        proof {
            assert(listed.take(i as int) =~= listed);
            let expected = brought(self@, current@);
            assert forall|id: u64| #[trigger] relations@.contains_key(id) implies relations@[id]
                == expected[id] by {
                if !listed.contains(id) {
                    if self@.writes.contains_key(id) {
                        assert(listed.to_set().contains(id));
                    }
                    assert(expected[id].rows =~= current@.relations[id].rows);
                }
            }
            assert(relations@ =~= expected);
            assert forall|id: u64| #[trigger] self@.writes.contains_key(id) implies kept(
                self@,
                current@,
                id,
            ) by {
                assert(listed.to_set().contains(id));
                let j = choose|j: int| 0 <= j < listed.len() && listed[j] == id;
                assert(kept(self@, current@, listed[j]));
            }
            assert forall|fact: (u64, Row)| #[trigger] effects(self@, current@).contains_key(
                fact,
            ) implies kinds.contains_key(fact) by {
                assert(listed.to_set().contains(fact.0));
            }
            assert(kinds =~= effects(self@, current@));
        }
        Ok((relations, changes))
    }
}

/// Brought to the rows that they were made on, writes leave the rows that the transaction
/// saw.
pub proof fn law_writes_on_what_they_were_made_on(
    base: Set<Row>,
    writes: Map<Row, RelationMutationKind>,
)
    ensures
        committed(base, base, writes) == overlaid(base, writes),
{
    assert(committed(base, base, writes) =~= overlaid(base, writes));
}

/// Writes without a conflict are all seen in the snapshot that they lead to: what was
/// asserted is there, and what was retracted and was there at the start is not.
pub proof fn law_writes_are_seen(
    view: TransactionView,
    current: SnapshotView,
    relation: u64,
    row: Row,
)
    requires
        current.relations.contains_key(relation),
        view.written_to(relation).contains_key(row),
    ensures
        view.written_to(relation)[row] is Assert ==> brought(
            view,
            current,
        )[relation].rows.contains(row),
        view.written_to(relation)[row] is Retract && view.base.relations[relation].rows.contains(
            row,
        ) ==> !brought(view, current)[relation].rows.contains(row),
{
}

/// Rows that were not written, and relations that were not written to, stay as they are.
pub proof fn law_other_rows_are_kept(
    view: TransactionView,
    current: SnapshotView,
    relation: u64,
    row: Row,
)
    requires
        current.relations.contains_key(relation),
        !view.written_to(relation).contains_key(row),
    ensures
        brought(view, current)[relation].rows.contains(row)
            == current.relations[relation].rows.contains(row),
{
}

/// The changes that are told are exactly the rows that differ between the two snapshots.
pub proof fn law_changes_tell_what_differs(
    view: TransactionView,
    current: SnapshotView,
    fact: (u64, Row),
)
    requires
        current.relations.contains_key(fact.0),
    ensures
        effects(view, current).contains_key(fact) <==> brought(
            view,
            current,
        )[fact.0].rows.contains(fact.1) != current.relations[fact.0].rows.contains(fact.1),
        effects(view, current).contains_key(fact) ==> (effects(view, current)[fact] is Assert
            <==> brought(view, current)[fact.0].rows.contains(fact.1)),
{
}

/// Of a relation that allows one row for each key, a commit without a conflict leaves no
/// two rows with the same key, whatever was committed since.
pub proof fn law_commits_keep_keys_apart(
    view: TransactionView,
    current: SnapshotView,
    relation: u64,
    key: Seq<u16>,
)
    requires
        unopposed(view, current, relation),
        view.base.relations[relation].metadata.conflict_policy == PolicyView::Functional(key),
        keys_apart(
            overlaid(view.base.relations[relation].rows, view.written_to(relation)),
            key,
        ),
        keys_apart(current.relations[relation].rows, key),
    ensures
        keys_apart(brought(view, current)[relation].rows, key),
{
    let base = view.base.relations[relation].rows;
    let now = current.relations[relation].rows;
    let writes = view.written_to(relation);
    let seen = overlaid(base, writes);
    let after = brought(view, current)[relation].rows;
    assert forall|row: Row, other: Row|
        #![trigger writes.contains_key(row), now.contains(other)]
        writes.contains_key(row) && now.contains(other) && project(row, key) == project(
            other,
            key,
        ) implies base.contains(other) by {
        lemma_keys_apart(now, key, other);
        assert(conflicting(view, current, relation, row) is None);
        assert(first_with_key(base, key, project(other, key)) == Some(other));
    }
    assert forall|a: Row, b: Row|
        #![trigger after.contains(a), after.contains(b)]
        after.contains(a) && after.contains(b) && project(a, key) == project(b, key) implies a
        == b by {
        if writes.contains_key(a) && now.contains(a) {
            assert(base.contains(a));
        }
        if writes.contains_key(b) && now.contains(b) {
            assert(base.contains(b));
        }
        if writes.contains_key(a) && now.contains(b) {
            assert(base.contains(b));
        }
        if writes.contains_key(b) && now.contains(a) {
            assert(base.contains(a));
        }
        if writes.contains_key(a) || writes.contains_key(b) {
            assert(seen.contains(a) && seen.contains(b));
        }
    }
}

} // verus!
