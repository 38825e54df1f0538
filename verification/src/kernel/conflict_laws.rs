//! What holds of the commits that are accepted and of those that are refused.

use crate::kernel::algebra::Row;
use crate::kernel::committing::{leads_to, CommitResult, Evaluation};
use crate::kernel::error::{ConflictKind, FaultView, KernelError};
use crate::kernel::live::{acceptable, committed_as};
use crate::kernel::metadata::PolicyView;
use crate::kernel::relation::is_first_with;
use crate::kernel::snapshot::SnapshotView;
use crate::kernel::staging::{brought, conflicting, kept, refused, told, unopposed};
use crate::kernel::transaction::{first_with_key, lemma_first_with_key, Transaction, TransactionView};
use crate::tuple::project;
use vstd::prelude::*;

verus! {

/// Whether two rows agree at some positions.
pub open spec fn agree_at(a: Row, b: Row, positions: Seq<u16>) -> bool {
    forall|i: int| #![trigger positions[i]]
        0 <= i < positions.len() ==> a[positions[i] as int] == b[positions[i] as int]
}

/// Whether a row is in two sets, or in neither.
pub open spec fn in_both_or_neither(a: Set<Row>, b: Set<Row>, row: Row) -> bool {
    a.contains(row) <==> b.contains(row)
}

/// Whether the rows with the key of a row are the same in two sets.
pub open spec fn key_untouched(before: Set<Row>, after: Set<Row>, key: Seq<u16>, row: Row) -> bool {
    forall|other: Row| #[trigger]
        in_both_or_neither(before, after, other) || !agree_at(row, other, key)
}

/// Whether a set holds at most one row for each key.
pub open spec fn one_for_each_key(set: Set<Row>, key: Seq<u16>) -> bool {
    forall|a: Row, b: Row|
        #![trigger set.contains(a), set.contains(b)]
        set.contains(a) && set.contains(b) && agree_at(a, b, key) ==> a == b
}

proof fn lemma_agree(a: Row, b: Row, key: Seq<u16>)
    ensures
        agree_at(a, b, key) <==> project(a, key) == project(b, key),
{
    if agree_at(a, b, key) {
        assert forall|i: int| 0 <= i < key.len() implies project(a, key)[i] == project(b, key)[i] by {
            assert(a[key[i] as int] == b[key[i] as int]);
        }
        assert(project(a, key) =~= project(b, key));
    }
    if project(a, key) == project(b, key) {
        assert forall|i: int| #![trigger key[i]] 0 <= i < key.len() implies a[key[i] as int]
            == b[key[i] as int] by {
            assert(project(a, key)[i] == project(b, key)[i]);
        }
    }
}

proof fn lemma_same_first(before: Set<Row>, after: Set<Row>, key: Seq<u16>, row: Row)
    requires
        key_untouched(before, after, key, row),
    ensures
        first_with_key(before, key, project(row, key)) == first_with_key(
            after,
            key,
            project(row, key),
        ),
{
    let wanted = project(row, key);
    assert forall|found: Row| is_first_with(before, key, wanted, found) == is_first_with(
        after,
        key,
        wanted,
        found,
    ) by {
        assert forall|other: Row| project(other, key) == wanted implies before.contains(other)
            == after.contains(other) by {
            lemma_agree(row, other, key);
            assert(in_both_or_neither(before, after, other));
        }
    }
    if exists|found: Row| is_first_with(before, key, wanted, found) {
        let found = choose|found: Row| is_first_with(before, key, wanted, found);
        lemma_first_with_key(before, key, wanted, found);
        assert(is_first_with(after, key, wanted, found));
        lemma_first_with_key(after, key, wanted, found);
    }
}

proof fn lemma_only_is_first(set: Set<Row>, key: Seq<u16>, row: Row, other: Row)
    requires
        one_for_each_key(set, key),
        agree_at(row, other, key),
    ensures
        set.contains(other) <==> first_with_key(set, key, project(row, key)) == Some(other),
{
    let wanted = project(row, key);
    lemma_agree(row, other, key);
    if set.contains(other) {
        assert forall|third: Row| set.contains(third) && project(third, key) == wanted implies third
            == other by {
            lemma_agree(third, other, key);
        }
        assert(is_first_with(set, key, wanted, other));
        lemma_first_with_key(set, key, wanted, other);
    }
}

/// A commit that is accepted found every key that it touches as it was, whether it asserts or
/// retracts: of a relation that allows one row for each key, the row that holds the key of a
/// written row is the same in the snapshot that the transaction began with and in the one that it
/// is brought to.
pub proof fn law_an_accepted_commit_found_its_keys_untouched(
    view: TransactionView,
    current: SnapshotView,
    relation: u64,
    key: Seq<u16>,
    row: Row,
)
    requires
        unopposed(view, current, relation),
        view.base.relations[relation].metadata.conflict_policy == PolicyView::Functional(key),
        view.writes.contains_key(relation),
        view.writes[relation].contains_key(row),
        one_for_each_key(view.base.relations[relation].rows, key),
        one_for_each_key(current.relations[relation].rows, key),
    ensures
        forall|other: Row|
            agree_at(row, other, key) ==> #[trigger] in_both_or_neither(
                view.base.relations[relation].rows,
                current.relations[relation].rows,
                other,
            ),
{
    let before = view.base.relations[relation].rows;
    let after = current.relations[relation].rows;
    assert(view.written_to(relation).contains_key(row));
    assert(conflicting(view, current, relation, row) is None);
    assert forall|other: Row| agree_at(row, other, key) implies #[trigger] in_both_or_neither(
        before,
        after,
        other,
    ) by {
        lemma_only_is_first(before, key, row, other);
        lemma_only_is_first(after, key, row, other);
    }
}

/// Writes to a relation that allows one row for each key are not opposed where the relation is what
/// it was and no touched key changed hands.
pub proof fn law_untouched_keys_oppose_nothing(
    view: TransactionView,
    current: SnapshotView,
    relation: u64,
    key: Seq<u16>,
)
    requires
        view.base.relations.contains_key(relation),
        current.relations.contains_key(relation),
        view.base.relations[relation].metadata == current.relations[relation].metadata,
        view.base.relations[relation].metadata.conflict_policy == PolicyView::Functional(key),
        view.writes.contains_key(relation),
        forall|row: Row| #[trigger]
            view.writes[relation].contains_key(row) ==> key_untouched(
                view.base.relations[relation].rows,
                current.relations[relation].rows,
                key,
                row,
            ),
    ensures
        unopposed(view, current, relation),
{
    assert forall|row: Row| #[trigger] view.written_to(relation).contains_key(
        row,
    ) implies conflicting(view, current, relation, row) is None by {
        lemma_same_first(
            view.base.relations[relation].rows,
            current.relations[relation].rows,
            key,
            row,
        );
    }
}

/// Writes to a set of rows are opposed just where a row that the transaction asserts was there when
/// it began and is gone; where it appends events, by nothing. Either way the relation has to be
/// what it was.
pub proof fn law_what_opposes_other_writes(
    view: TransactionView,
    current: SnapshotView,
    relation: u64,
)
    requires
        view.writes.contains_key(relation),
    ensures
        unopposed(view, current, relation) ==> view.base.relations.contains_key(relation)
            && current.relations.contains_key(relation)
            && view.base.relations[relation].metadata == current.relations[relation].metadata,
        view.base.relations.contains_key(relation) && current.relations.contains_key(relation)
            && view.base.relations[relation].metadata == current.relations[relation].metadata ==> {
            &&& view.base.relations[relation].metadata.conflict_policy is SetOfRows ==> (unopposed(
                view,
                current,
                relation,
            ) <==> forall|row: Row| #[trigger]
                view.writes[relation].contains_key(row) && view.writes[relation][row] is Assert
                    && view.base.relations[relation].rows.contains(row)
                    ==> current.relations[relation].rows.contains(row))
            &&& view.base.relations[relation].metadata.conflict_policy is EventAppend ==> unopposed(
                view,
                current,
                relation,
            )
        },
{
    let base = view.base.relations[relation];
    let now = current.relations[relation];
    if kept(view, current, relation) && base.metadata.conflict_policy is SetOfRows {
        assert forall|row: Row| #[trigger] view.writes[relation].contains_key(row) implies (
        conflicting(view, current, relation, row) is None <==> !(view.writes[relation][row]
            is Assert && base.rows.contains(row) && !now.rows.contains(row))) by {}
        if unopposed(view, current, relation) {
            assert forall|row: Row| #[trigger]
                view.writes[relation].contains_key(row) && view.writes[relation][row] is Assert
                    && base.rows.contains(row) implies now.rows.contains(row) by {
                assert(view.written_to(relation).contains_key(row));
            }
        }
    }
}

/// A commit is refused over a conflict for a reason that can be seen: a row that it asserts was
/// there when it began and is gone, or the rows with a key that it touches changed. The row that is
/// told is the asserted one, or one with that key, or the key.
pub proof fn law_a_refused_commit_was_opposed(
    transaction: Transaction,
    current: SnapshotView,
    relation: u64,
    tuple: Row,
    kind: ConflictKind,
)
    requires
        transaction@.writes.contains_key(relation),
        refused(transaction, current, relation, FaultView::Conflict(relation, tuple, kind)),
    ensures
        ({
            let writes = transaction@.writes[relation];
            let before = transaction@.base.relations[relation];
            let after = current.relations[relation].rows;
            match kind {
                ConflictKind::AssertRetract => {
                    &&& before.metadata.conflict_policy is SetOfRows
                    &&& writes.contains_key(tuple) && writes[tuple] is Assert
                    &&& before.rows.contains(tuple) && !after.contains(tuple)
                },
                ConflictKind::FunctionalKeyChanged => {
                    &&& before.metadata.conflict_policy is Functional
                    &&& exists|row: Row| #[trigger]
                        writes.contains_key(row) && !key_untouched(
                            before.rows,
                            after,
                            before.metadata.conflict_policy->Functional_0,
                            row,
                        ) && (agree_at(
                            row,
                            tuple,
                            before.metadata.conflict_policy->Functional_0,
                        ) || tuple == project(row, before.metadata.conflict_policy->Functional_0))
                },
            }
        }),
{
    let view = transaction@;
    let before = view.base.relations[relation];
    let looked_up = transaction.looks_up_keys(relation);
    let row = choose|row: Row| #[trigger]
        view.written_to(relation).contains_key(row) && (conflicting(
            view,
            current,
            relation,
            row,
        ) matches Some(kind) && FaultView::Conflict(relation, tuple, kind) == FaultView::Conflict(
            relation,
            told(view, relation, row, looked_up),
            kind,
        ));
    assert(view.writes[relation].contains_key(row));
    if let PolicyView::Functional(key) = before.metadata.conflict_policy {
        if key_untouched(before.rows, current.relations[relation].rows, key, row) {
            lemma_same_first(before.rows, current.relations[relation].rows, key, row);
        }
        lemma_agree(row, tuple, key);
    }
}

/// What a transaction retracts of rows that it never saw is left to whoever put them there: a row
/// that came after it began stays.
pub proof fn law_newer_rows_outlive_a_retraction(
    view: TransactionView,
    current: SnapshotView,
    relation: u64,
    row: Row,
)
    requires
        current.relations.contains_key(relation),
        view.writes.contains_key(relation),
        view.writes[relation].contains_key(row),
        view.writes[relation][row] is Retract,
        !view.base.relations[relation].rows.contains(row),
    ensures
        brought(view, current)[relation].rows.contains(row)
            == current.relations[relation].rows.contains(row),
{
}

/// A commit leads to the version after the newest one, and leaves the rules, the computed relations
/// and what relations there are as they were.
pub proof fn law_a_commit_moves_one_version_on(view: TransactionView, current: SnapshotView)
    requires
        current.version < u64::MAX,
    ensures
        leads_to(view, current).version == current.version + 1,
        leads_to(view, current).rules == current.rules,
        leads_to(view, current).computed == current.computed,
        leads_to(view, current).commits == current.commits,
        forall|id: u64| #[trigger]
            leads_to(view, current).relations.contains_key(id)
                <==> current.relations.contains_key(id),
        forall|id: u64| #[trigger]
            current.relations.contains_key(id) ==> leads_to(view, current).relations[id].metadata
                == current.relations[id].metadata,
{
}

/// A commit that went through found every key that it touched as it was when the transaction began,
/// unless nothing was committed since.
pub proof fn law_a_commit_that_went_through_found_its_keys_untouched(
    done: CommitResult,
    transaction: Transaction,
    current: SnapshotView,
    evaluated: Option<Result<Evaluation, KernelError>>,
    relation: u64,
    key: Seq<u16>,
    row: Row,
)
    requires
        committed_as(Ok(done), transaction, current, evaluated),
        current.version != transaction@.base.version,
        transaction@.base.relations[relation].metadata.conflict_policy == PolicyView::Functional(
            key,
        ),
        transaction@.writes.contains_key(relation),
        transaction@.writes[relation].contains_key(row),
        one_for_each_key(transaction@.base.relations[relation].rows, key),
        one_for_each_key(current.relations[relation].rows, key),
    ensures
        forall|other: Row|
            agree_at(row, other, key) ==> #[trigger] in_both_or_neither(
                transaction@.base.relations[relation].rows,
                current.relations[relation].rows,
                other,
            ),
{
    assert(acceptable(transaction@, current));
    law_an_accepted_commit_found_its_keys_untouched(
        transaction@,
        current,
        relation,
        key,
        row,
    );
}

/// A commit that went through, of a set of rows, asserts no row that was there when the transaction
/// began and is gone since, unless nothing was committed since.
pub proof fn law_a_commit_that_went_through_revives_nothing(
    done: CommitResult,
    transaction: Transaction,
    current: SnapshotView,
    evaluated: Option<Result<Evaluation, KernelError>>,
    relation: u64,
    row: Row,
)
    requires
        committed_as(Ok(done), transaction, current, evaluated),
        current.version != transaction@.base.version,
        transaction@.base.relations[relation].metadata.conflict_policy is SetOfRows,
        transaction@.writes.contains_key(relation),
        transaction@.writes[relation].contains_key(row),
        transaction@.writes[relation][row] is Assert,
        transaction@.base.relations[relation].rows.contains(row),
    ensures
        current.relations[relation].rows.contains(row),
{
    assert(acceptable(transaction@, current));
    law_what_opposes_other_writes(transaction@, current, relation);
}

/// The snapshot that a commit leads to shows what the transaction wrote and is otherwise the one
/// before it: an asserted row is there, a retracted row that was there when the transaction began
/// is not, and every other row is as it was.
pub proof fn law_a_commit_shows_its_writes(
    done: CommitResult,
    transaction: Transaction,
    current: SnapshotView,
    evaluated: Option<Result<Evaluation, KernelError>>,
    relation: u64,
    row: Row,
)
    requires
        committed_as(Ok(done), transaction, current, evaluated),
        current.relations.contains_key(relation),
        current.version < u64::MAX,
    ensures
        done.snapshot@.version == current.version + 1,
        done.commit@.version == current.version + 1,
        done.snapshot@.rules == current.rules,
        done.snapshot@.commits == current.commits.push(done.commit@),
        done.snapshot@.relations.contains_key(relation),
        done.snapshot@.relations[relation].metadata == current.relations[relation].metadata,
        ({
            let after = done.snapshot@.relations[relation].rows;
            if !transaction@.writes.contains_key(relation)
                || !transaction@.writes[relation].contains_key(row) {
                after.contains(row) == current.relations[relation].rows.contains(row)
            } else if transaction@.writes[relation][row] is Assert {
                after.contains(row)
            } else if transaction@.base.relations[relation].rows.contains(row) {
                !after.contains(row)
            } else {
                after.contains(row) == current.relations[relation].rows.contains(row)
            }
        }),
{
    assert(acceptable(transaction@, current));
}

} // verus!
