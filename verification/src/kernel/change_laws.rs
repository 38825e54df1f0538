//! What holds of what is written, kept and told.

use crate::kernel::algebra::Row;
use crate::kernel::changes::last_kinds;
use crate::kernel::commit::{catalog_change_views, CatalogChangeView, CommitView, FactChangeKind,
    FactChangeView};
use crate::kernel::committing::{differs, differs_in, records, settled, shown_of, turned, Differs,
    Evaluation, Shown};
use crate::kernel::error::{FaultView, KernelError};
use crate::kernel::forking::{catalog_difference, created, fact_difference, held, last_rule,
    plans_staged, relations_kept_fault, rule_kept, ruled, rules_kept_fault, staged_fault,
    StagedPlan};
use crate::kernel::live::{changes_durable, creating, durable_changes, may_be_kept, new_rule_id,
    persistable, CommitProvider};
use crate::kernel::metadata::{MetadataView, Version};
use crate::kernel::persistence::{format_of, newer, FormatView};
use crate::kernel::read::{relation_named, scanned, Visible};
use crate::kernel::relation::{changed, changed_by_all, metadata_fault, takes_effect, RelationView,
    RowChange};
use crate::kernel::rules::{BodyItemView, DefinitionView, RuleView};
use crate::kernel::ruling::{body_fault, first_free_rule_id, is_rule_id, rule_fault, tried_rule_id,
    GENERATED_RULE_ID_START};
use crate::kernel::snapshot::{derived_map, derived_views, SnapshotView};
use crate::kernel::staging::{effects, misplaced};
use crate::kernel::states::{id_listing, lemma_ids_listed};
use crate::kernel::transaction::TransactionView;
use crate::value::{ValueView, IDENTITY_MAX};
use vstd::prelude::*;

verus! {

/// Whether a relation is there and has as many columns as there are terms.
pub open spec fn takes_terms(relations: Map<u64, RelationView>, relation: u64, terms: nat) -> bool {
    relations.contains_key(relation) && relations[relation].metadata.arity == terms
}

/// Whether a rule's condition is on a relation that takes its terms.
pub open spec fn item_fits(relations: Map<u64, RelationView>, item: BodyItemView) -> bool {
    match item {
        BodyItemView::Atom(atom) => takes_terms(relations, atom.relation, atom.terms.len()),
        BodyItemView::Guard(_, _, _) => true,
    }
}

/// Whether a fault says of a relation that it is not there, or that it does not take some terms.
pub open spec fn says_unfit(
    relations: Map<u64, RelationView>,
    relation: u64,
    terms: nat,
    fault: FaultView,
) -> bool {
    &&& !takes_terms(relations, relation, terms)
    &&& fault == if relations.contains_key(relation) {
        FaultView::ArityMismatch(relation, relations[relation].metadata.arity, terms)
    } else {
        FaultView::UnknownRelation(relation)
    }
}

/// Whether a fault says that some condition's relation does not take its terms.
pub open spec fn says_item_unfit(
    relations: Map<u64, RelationView>,
    item: BodyItemView,
    fault: FaultView,
) -> bool {
    item matches BodyItemView::Atom(atom) && says_unfit(
        relations,
        atom.relation,
        atom.terms.len(),
        fault,
    )
}

proof fn lemma_body(relations: Map<u64, RelationView>, body: Seq<BodyItemView>)
    ensures
        body_fault(relations, body) is None <==> forall|k: int|
            0 <= k < body.len() ==> item_fits(relations, #[trigger] body[k]),
        body_fault(relations, body) matches Some(fault) ==> exists|k: int|
            0 <= k < body.len() && says_item_unfit(relations, #[trigger] body[k], fault),
    decreases body.len(),
{
    if body.len() > 0 {
        let before = body.drop_last();
        lemma_body(relations, before);
        assert(body.last() == body[body.len() - 1]);
        assert forall|k: int| 0 <= k < before.len() implies #[trigger] body[k] == before[k] by {}
        if let Some(fault) = body_fault(relations, before) {
            let k = choose|k: int|
                0 <= k < before.len() && says_item_unfit(relations, #[trigger] before[k], fault);
            assert(says_item_unfit(relations, body[k], fault));
            assert(!item_fits(relations, body[k]));
        } else {
            assert forall|k: int| 0 <= k < body.len() - 1 implies item_fits(
                relations,
                #[trigger] body[k],
            ) by {
                assert(item_fits(relations, before[k]));
            }
            if let Some(fault) = body_fault(relations, body) {
                assert(says_item_unfit(relations, body[body.len() - 1], fault));
                assert(!item_fits(relations, body[body.len() - 1]));
            }
        }
    }
}

/// A rule is taken where its head and each of its conditions is on a relation that is there and has
/// as many columns as there are terms. The fault otherwise says of one of them why not.
pub proof fn law_which_rules_fit_the_relations(relations: Map<u64, RelationView>, rule: RuleView)
    ensures
        rule_fault(relations, rule) is None <==> takes_terms(
            relations,
            rule.head_relation,
            rule.head_terms.len(),
        ) && forall|k: int|
            0 <= k < rule.body.len() ==> item_fits(relations, #[trigger] rule.body[k]),
        rule_fault(relations, rule) matches Some(fault) ==> says_unfit(
            relations,
            rule.head_relation,
            rule.head_terms.len(),
            fault,
        ) || exists|k: int|
            0 <= k < rule.body.len() && says_item_unfit(relations, #[trigger] rule.body[k], fault),
{
    lemma_body(relations, rule.body);
}

/// A relation is created where it is in order and no other has its identity. It is empty then, every
/// other relation and every rule stays, and the version moves one on.
pub proof fn law_a_created_relation_is_empty(current: SnapshotView, metadata: MetadataView, other: u64)
    requires
        current.version < u64::MAX,
        other != metadata.id,
    ensures
        match creating(current, metadata) {
            Ok(next) => {
                &&& metadata_fault(metadata) is None
                &&& !current.relations.contains_key(metadata.id)
                &&& next.relations.contains_key(metadata.id)
                &&& next.relations[metadata.id].metadata == metadata
                &&& forall|row: Row| !#[trigger] next.relations[metadata.id].rows.contains(row)
                &&& next.relations.contains_key(other) == current.relations.contains_key(other)
                &&& current.relations.contains_key(other) ==> next.relations[other]
                    == current.relations[other]
                &&& next.rules == current.rules
                &&& next.version == current.version + 1
                &&& next.commits == current.commits
                &&& !(next.derived is Evaluated)
            },
            Err(fault) => if metadata_fault(metadata) is Some {
                Some(fault) == metadata_fault(metadata)
            } else {
                current.relations.contains_key(metadata.id) && fault
                    == FaultView::RelationAlreadyExists(metadata.id)
            },
        },
{
}

/// What is kept of some changes, with one more: that one too where its relation is durable.
pub proof fn law_changes_of_durable_relations_are_kept(
    relations: Map<u64, RelationView>,
    changes: Seq<FactChangeView>,
    change: FactChangeView,
)
    ensures
        durable_changes(relations, Seq::empty()) == Ok::<Seq<FactChangeView>, FaultView>(Seq::empty()),
        durable_changes(relations, changes) matches Ok(before) ==> (relations.contains_key(
            change.relation,
        ) ==> durable_changes(relations, changes.push(change)) == Ok::<Seq<FactChangeView>, FaultView>(
            if relations[change.relation].metadata.durability is Durable {
                before.push(change)
            } else {
                before
            },
        )),
        durable_changes(relations, changes) is Ok && !relations.contains_key(change.relation)
            ==> durable_changes(relations, changes.push(change)) == Err::<Seq<FactChangeView>, FaultView>(
            FaultView::UnknownRelation(change.relation),
        ),
        durable_changes(relations, changes) matches Err(fault) ==> durable_changes(
            relations,
            changes.push(change),
        ) == Err::<Seq<FactChangeView>, FaultView>(fault),
{
    assert(changes.push(change).drop_last() =~= changes);
    assert(changes.push(change).last() == change);
}

/// The changes that are kept are those to rows of durable relations, each of them.
pub proof fn law_just_the_durable_changes_are_kept(
    relations: Map<u64, RelationView>,
    changes: Seq<FactChangeView>,
    kept: Seq<FactChangeView>,
    change: FactChangeView,
)
    requires
        durable_changes(relations, changes) == Ok::<Seq<FactChangeView>, FaultView>(kept),
    ensures
        kept.contains(change) <==> changes.contains(change)
            && relations[change.relation].metadata.durability is Durable,
        changes.contains(change) ==> relations.contains_key(change.relation),
    decreases changes.len(),
{
    if changes.len() > 0 {
        let before = changes.drop_last();
        let last = changes.last();
        let some = durable_changes(relations, before)->Ok_0;
        law_just_the_durable_changes_are_kept(relations, before, some, change);
        lemma_in_pushed(before, last, change);
        assert(before.push(last) =~= changes);
        lemma_in_pushed(some, last, change);
    }
}

proof fn lemma_in_pushed<T>(before: Seq<T>, last: T, item: T)
    ensures
        before.push(last).contains(item) <==> before.contains(item) || item == last,
{
    let all = before.push(last);
    if before.contains(item) {
        let i = choose|i: int| 0 <= i < before.len() && before[i] == item;
        assert(all[i] == item);
    }
    if item == last {
        assert(all[all.len() - 1] == item);
    }
    if all.contains(item) && item != last {
        let i = choose|i: int| 0 <= i < all.len() && all[i] == item;
        assert(before[i] == item);
    }
}

/// A commit is kept unless it changes neither the catalog nor a durable relation. What is kept has
/// its version, its changes to the catalog and its changes to durable relations.
pub proof fn law_what_is_kept_of_a_commit(
    relations: Map<u64, RelationView>,
    commit: CommitView,
    changes: Seq<FactChangeView>,
)
    requires
        durable_changes(relations, commit.changes) == Ok::<Seq<FactChangeView>, FaultView>(changes),
    ensures
        persistable(relations, commit) is Ok,
        persistable(relations, commit)->Ok_0 is None <==> commit.catalog_changes.len() == 0
            && changes.len() == 0,
        persistable(relations, commit)->Ok_0 matches Some(kept) ==> {
            &&& kept.version == commit.version
            &&& kept.catalog_changes == commit.catalog_changes
            &&& kept.changes == changes
        },
{
}

/// The kind that is left of the changes to a row is that of the last of them, and there is none
/// where the row was not changed.
pub proof fn law_the_last_change_of_a_row_counts(changes: Seq<FactChangeView>, k: int)
    requires
        0 <= k < changes.len(),
        forall|j: int|
            k < j < changes.len() ==> ((#[trigger] changes[j]).relation, changes[j].row) != (
                changes[k].relation,
                changes[k].row,
            ),
    ensures
        last_kinds(changes).contains_key((changes[k].relation, changes[k].row)),
        last_kinds(changes)[(changes[k].relation, changes[k].row)] == changes[k].kind,
    decreases changes.len(),
{
    let before = changes.drop_last();
    assert(changes.last() == changes[changes.len() - 1]);
    if k < before.len() {
        assert forall|j: int| k < j < before.len() implies ((#[trigger] before[j]).relation, before[j].row)
            != (before[k].relation, before[k].row) by {
            assert(before[j] == changes[j]);
        }
        law_the_last_change_of_a_row_counts(before, k);
    }
}

/// Only rows that were changed have a kind.
pub proof fn law_only_changed_rows_have_a_kind(changes: Seq<FactChangeView>, relation: u64, row: Row)
    requires
        last_kinds(changes).contains_key((relation, row)),
    ensures
        exists|k: int|
            0 <= k < changes.len() && (#[trigger] changes[k]).relation == relation && changes[k].row
                == row,
    decreases changes.len(),
{
    assert(changes.len() > 0);
    let before = changes.drop_last();
    let last = changes.last();
    assert(last == changes[changes.len() - 1]);
    if !(last.relation == relation && last.row == row) {
        law_only_changed_rows_have_a_kind(before, relation, row);
        let k = choose|k: int|
            0 <= k < before.len() && (#[trigger] before[k]).relation == relation && before[k].row
                == row;
        assert(changes[k].relation == relation && changes[k].row == row);
    }
}

/// What is told of a change to a stored row: of a relation without active rules, the change; of one
/// with rules that are not kept up, nothing; of another, that the row came or went, just where it is
/// seen in one of the two states only.
pub proof fn law_a_change_is_told_where_it_shows(
    current: SnapshotView,
    next: SnapshotView,
    change: FactChangeView,
    arity: u16,
    before: Set<Row>,
    after: Set<Row>,
    targets: Seq<u64>,
)
    requires
        current.visible(change.relation) == Visible::Stored(arity, Ok::<Set<Row>, FaultView>(before)),
        next.visible(change.relation) == Visible::Stored(arity, Ok::<Set<Row>, FaultView>(after)),
        change.row.len() == arity,
        current.maintained == Some(targets),
    ensures
        shown_of(current, next, change) matches Shown::Told(told) && {
            let ruled = exists|i: int|
                0 <= i < current.rules.len() && (#[trigger] current.rules[i]).active
                    && current.rules[i].rule.head_relation == change.relation;
            &&& !ruled ==> told.len() == 1 && told[0] == change
            &&& ruled && !targets.contains(change.relation) ==> told.len() == 0
            &&& ruled && targets.contains(change.relation) ==> {
                &&& told.len() == 0 <==> before.contains(change.row) == after.contains(change.row)
                &&& told.len() <= 1
                &&& told.len() == 1 ==> told[0].relation == change.relation && told[0].row
                    == change.row && (told[0].kind is Assert <==> after.contains(change.row))
            }
        },
{
}

/// The rows that came or went are those in just one of two sets, and they came where they are in the
/// second.
pub proof fn law_what_turned_is_in_one_set_only(
    relation: u64,
    before: Set<Row>,
    after: Set<Row>,
    other: u64,
    row: Row,
)
    ensures
        turned(relation, before, after).contains_key((relation, row)) <==> before.contains(row)
            != after.contains(row),
        before.contains(row) && !after.contains(row) ==> turned(relation, before, after)[(
            relation,
            row,
        )] is Retract,
        !before.contains(row) && after.contains(row) ==> turned(relation, before, after)[(
            relation,
            row,
        )] is Assert,
        other != relation ==> !turned(relation, before, after).contains_key((other, row)),
{
}

/// Whether a row is seen.
pub open spec fn sees(snapshot: SnapshotView, relation: u64, row: Row) -> bool {
    snapshot.visible(relation) matches Visible::Stored(_, Ok(set)) && set.contains(row)
}

/// What is told of relations that are kept up: of each of them, the rows that are seen in one of the
/// two states only, and of no other.
pub proof fn law_what_is_told_of_kept_up_relations(
    current: SnapshotView,
    next: SnapshotView,
    relations: Seq<u64>,
    kinds: Map<(u64, Row), FactChangeKind>,
    relation: u64,
    row: Row,
)
    requires
        differs(current, next, relations) == Differs::Kinds(kinds),
    ensures
        kinds.contains_key((relation, row)) <==> relations.contains(relation) && sees(
            current,
            relation,
            row,
        ) != sees(next, relation, row),
        kinds.contains_key((relation, row)) ==> (kinds[(relation, row)] is Assert <==> sees(
            next,
            relation,
            row,
        )),
    decreases relations.len(),
{
    if relations.len() > 0 {
        let earlier = relations.drop_last();
        let last = relations.last();
        let before = differs(current, next, earlier)->Kinds_0;
        law_what_is_told_of_kept_up_relations(current, next, earlier, before, relation, row);
        assert(earlier.push(last) =~= relations);
        lemma_in_pushed(earlier, last, relation);
        let more = differs_in(current, next, last)->Kinds_0;
        let free = Seq::new(
            current.relations[last].metadata.arity as nat,
            |i: int| None::<ValueView>,
        );
        let old_rows = scanned(current.visible(last), last, free)->0->Ok_0;
        let new_rows = scanned(next.visible(last), last, free)->0->Ok_0;
        lemma_free(current.visible(last), last, free, row);
        lemma_free(next.visible(last), last, free, row);
        assert(more == turned(last, old_rows, new_rows));
        if relation == last {
            assert(more.contains_key((relation, row)) <==> sees(current, last, row) != sees(
                next,
                last,
                row,
            ));
        }
    }
}

proof fn lemma_free(visible: Visible, relation: u64, free: Seq<Option<ValueView>>, row: Row)
    requires
        scanned(visible, relation, free) matches Some(Ok(_)),
        forall|i: int| 0 <= i < free.len() ==> (#[trigger] free[i]) is None,
    ensures
        visible is Stored,
        visible->Stored_1 is Ok,
        scanned(visible, relation, free)->0->Ok_0.contains(row) <==> visible->Stored_1->Ok_0.contains(
            row,
        ),
{
}

/// Whether a row is stored.
pub open spec fn holds(snapshot: SnapshotView, relation: u64, row: Row) -> bool {
    snapshot.relations.contains_key(relation) && snapshot.relations[relation].rows.contains(row)
}

/// What publishing tells of rows that a fork changed: those that are stored in one of the two states
/// only, that they came where the fork holds them.
pub proof fn law_what_a_fork_tells_of_rows(
    current: SnapshotView,
    staged: SnapshotView,
    changed: Seq<FactChangeView>,
    kinds: Map<(u64, Row), FactChangeKind>,
    relation: u64,
    row: Row,
)
    requires
        fact_difference(current, staged, changed) == Differs::Kinds(kinds),
    ensures
        kinds.contains_key((relation, row)) <==> holds(current, relation, row) != holds(
            staged,
            relation,
            row,
        ) && exists|k: int|
            0 <= k < changed.len() && (#[trigger] changed[k]).relation == relation && changed[k].row
                == row,
        kinds.contains_key((relation, row)) ==> (kinds[(relation, row)] is Assert <==> holds(
            staged,
            relation,
            row,
        )),
    decreases changed.len(),
{
    if changed.len() > 0 {
        let earlier = changed.drop_last();
        let last = changed.last();
        let before = fact_difference(current, staged, earlier)->Kinds_0;
        law_what_a_fork_tells_of_rows(current, staged, earlier, before, relation, row);
        assert(last == changed[changed.len() - 1]);
        assert(held(current, last.relation, last.row) == Some(
            Ok::<bool, FaultView>(holds(current, last.relation, last.row)),
        ));
        assert(held(staged, last.relation, last.row) == Some(
            Ok::<bool, FaultView>(holds(staged, last.relation, last.row)),
        ));
        if exists|k: int|
            0 <= k < earlier.len() && (#[trigger] earlier[k]).relation == relation && earlier[k].row
                == row {
            let k = choose|k: int|
                0 <= k < earlier.len() && (#[trigger] earlier[k]).relation == relation
                    && earlier[k].row == row;
            assert(changed[k].relation == relation && changed[k].row == row);
        }
        if exists|k: int|
            0 <= k < changed.len() && (#[trigger] changed[k]).relation == relation && changed[k].row
                == row {
            let k = choose|k: int|
                0 <= k < changed.len() && (#[trigger] changed[k]).relation == relation
                    && changed[k].row == row;
            if k < earlier.len() {
                assert(earlier[k].relation == relation && earlier[k].row == row);
            }
        }
    }
}

/// The definition that a fork holds for a rule is the last with its identity.
pub proof fn law_the_last_rule_with_an_identity_is_meant(rules: Seq<DefinitionView>, id: u64)
    ensures
        match last_rule(rules, id) {
            Some(found) => exists|k: int|
                0 <= k < rules.len() && #[trigger] rules[k] == found && found.id == id
                    && forall|j: int| k < j < rules.len() ==> (#[trigger] rules[j]).id != id,
            None => forall|k: int| 0 <= k < rules.len() ==> (#[trigger] rules[k]).id != id,
        },
    decreases rules.len(),
{
    if rules.len() > 0 {
        let before = rules.drop_last();
        law_the_last_rule_with_an_identity_is_meant(before, id);
        assert(rules.last() == rules[rules.len() - 1]);
        if rules.last().id != id {
            assert forall|k: int| 0 <= k < before.len() implies #[trigger] rules[k] == before[k] by {}
            if let Some(found) = last_rule(before, id) {
                let k = choose|k: int|
                    0 <= k < before.len() && #[trigger] before[k] == found && found.id == id
                        && forall|j: int| k < j < before.len() ==> (#[trigger] before[j]).id != id;
                assert(rules[k] == found);
                assert forall|j: int| k < j < rules.len() implies (#[trigger] rules[j]).id != id by {
                    if j < before.len() {
                        assert(rules[j] == before[j]);
                    }
                }
            }
        }
    }
}

/// A fork keeps a rule where it still has it with the same text and meaning, and did not make it
/// active again.
pub proof fn law_what_keeping_a_rule_asks_for(staged: Seq<DefinitionView>, rule: DefinitionView, k: int)
    requires
        0 <= k < staged.len(),
        staged[k].id == rule.id,
        forall|j: int| 0 <= j < staged.len() && j != k ==> (#[trigger] staged[j]).id != rule.id,
    ensures
        rule_kept(staged, rule) <==> staged[k].rule == rule.rule && staged[k].source == rule.source
            && !(staged[k].active && !rule.active),
{
    law_the_last_rule_with_an_identity_is_meant(staged, rule.id);
}

proof fn lemma_rules_kept(current: Seq<DefinitionView>, staged: Seq<DefinitionView>)
    ensures
        rules_kept_fault(current, staged) is None <==> forall|k: int|
            0 <= k < current.len() ==> rule_kept(staged, #[trigger] current[k]),
        rules_kept_fault(current, staged) matches Some(fault) ==> exists|k: int|
            0 <= k < current.len() && !rule_kept(staged, #[trigger] current[k]) && fault
                == FaultView::UnknownRule(current[k].id),
    decreases current.len(),
{
    if current.len() > 0 {
        let before = current.drop_last();
        lemma_rules_kept(before, staged);
        assert(current.last() == current[current.len() - 1]);
        assert forall|k: int| 0 <= k < before.len() implies #[trigger] current[k] == before[k] by {}
        if let Some(fault) = rules_kept_fault(before, staged) {
            let k = choose|k: int|
                0 <= k < before.len() && !rule_kept(staged, #[trigger] before[k]) && fault
                    == FaultView::UnknownRule(before[k].id);
            assert(!rule_kept(staged, current[k]) && fault == FaultView::UnknownRule(current[k].id));
        } else {
            assert forall|k: int| 0 <= k < current.len() - 1 implies rule_kept(
                staged,
                #[trigger] current[k],
            ) by {
                assert(rule_kept(staged, before[k]));
            }
            assert(rules_kept_fault(current, staged) is Some ==> !rule_kept(
                staged,
                current[current.len() - 1],
            ));
        }
    }
}

/// Whether a fault says of a relation that a fork does not keep it.
pub open spec fn says_not_kept(
    current: Map<u64, RelationView>,
    staged: Map<u64, RelationView>,
    id: u64,
    fault: FaultView,
) -> bool {
    if staged.contains_key(id) {
        staged[id].metadata != current[id].metadata && fault == FaultView::RelationAlreadyExists(id)
    } else {
        fault == FaultView::UnknownRelation(id)
    }
}

proof fn lemma_relations_kept(
    current: Map<u64, RelationView>,
    staged: Map<u64, RelationView>,
    ids: Seq<u64>,
)
    ensures
        relations_kept_fault(current, staged, ids) is None <==> forall|k: int|
            0 <= k < ids.len() ==> staged.contains_key(#[trigger] ids[k]) && staged[ids[k]].metadata
                == current[ids[k]].metadata,
        relations_kept_fault(current, staged, ids) matches Some(fault) ==> exists|k: int|
            0 <= k < ids.len() && says_not_kept(current, staged, #[trigger] ids[k], fault),
    decreases ids.len(),
{
    if ids.len() > 0 {
        let before = ids.drop_last();
        lemma_relations_kept(current, staged, before);
        assert(ids.last() == ids[ids.len() - 1]);
        assert forall|k: int| 0 <= k < before.len() implies #[trigger] ids[k] == before[k] by {}
        if relations_kept_fault(current, staged, before) is None {
            assert forall|k: int| 0 <= k < ids.len() - 1 implies staged.contains_key(
                #[trigger] ids[k],
            ) && staged[ids[k]].metadata == current[ids[k]].metadata by {
                assert(staged.contains_key(before[k]));
            }
            if let Some(fault) = relations_kept_fault(current, staged, ids) {
                assert(says_not_kept(current, staged, ids[ids.len() - 1], fault));
            }
        } else {
            let fault = relations_kept_fault(current, staged, before)->0;
            let k = choose|k: int|
                0 <= k < before.len() && says_not_kept(current, staged, #[trigger] before[k], fault);
            assert(says_not_kept(current, staged, ids[k], fault));
        }
    }
}

/// A fork may be published where it keeps each relation as it is declared and each rule. The fault
/// otherwise names a relation or a rule that it does not keep.
pub proof fn law_what_publishing_a_fork_asks_for(current: SnapshotView, staged: SnapshotView)
    requires
        current.relations.dom().finite(),
    ensures
        staged_fault(current, staged) is None <==> (forall|id: u64| #[trigger]
            current.relations.contains_key(id) ==> staged.relations.contains_key(id)
                && staged.relations[id].metadata == current.relations[id].metadata) && forall|k: int|
            0 <= k < current.rules.len() ==> rule_kept(staged.rules, #[trigger] current.rules[k]),
        match staged_fault(current, staged) {
            None => true,
            Some(FaultView::UnknownRelation(id)) => current.relations.contains_key(id)
                && !staged.relations.contains_key(id),
            Some(FaultView::RelationAlreadyExists(id)) => current.relations.contains_key(id)
                && staged.relations.contains_key(id) && staged.relations[id].metadata
                != current.relations[id].metadata,
            Some(fault) => exists|k: int|
                0 <= k < current.rules.len() && !rule_kept(staged.rules, #[trigger] current.rules[k])
                    && fault == FaultView::UnknownRule(current.rules[k].id),
        },
{
    let ids = id_listing(current.relations.dom());
    lemma_ids_listed(current.relations.dom());
    lemma_relations_kept(current.relations, staged.relations, ids);
    lemma_rules_kept(current.rules, staged.rules);
    assert forall|id: u64| #[trigger] current.relations.contains_key(id) implies exists|k: int|
        0 <= k < ids.len() && ids[k] == id by {
        assert(ids.to_set().contains(id));
    }
    assert forall|k: int| 0 <= k < ids.len() implies current.relations.contains_key(
        #[trigger] ids[k],
    ) by {
        assert(ids.to_set().contains(ids[k]));
    }
}

/// What publishing tells of relations: that each that was not there is created.
pub proof fn law_what_a_fork_tells_of_relations(
    current: Map<u64, RelationView>,
    staged: Map<u64, RelationView>,
    ids: Seq<u64>,
    change: CatalogChangeView,
)
    ensures
        created(current, staged, ids).contains(change) <==> exists|k: int|
            0 <= k < ids.len() && !current.contains_key(#[trigger] ids[k]) && change
                == CatalogChangeView::RelationCreated(staged[ids[k]].metadata),
    decreases ids.len(),
{
    if ids.len() > 0 {
        let before = ids.drop_last();
        let last = ids.last();
        law_what_a_fork_tells_of_relations(current, staged, before, change);
        lemma_in_pushed(
            created(current, staged, before),
            CatalogChangeView::RelationCreated(staged[last].metadata),
            change,
        );
        assert(ids[ids.len() - 1] == last);
        if exists|k: int|
            0 <= k < before.len() && !current.contains_key(#[trigger] before[k]) && change
                == CatalogChangeView::RelationCreated(staged[before[k]].metadata) {
            let k = choose|k: int|
                0 <= k < before.len() && !current.contains_key(#[trigger] before[k]) && change
                    == CatalogChangeView::RelationCreated(staged[before[k]].metadata);
            assert(!current.contains_key(ids[k]));
        }
        if exists|k: int|
            0 <= k < ids.len() && !current.contains_key(#[trigger] ids[k]) && change
                == CatalogChangeView::RelationCreated(staged[ids[k]].metadata) {
            let k = choose|k: int|
                0 <= k < ids.len() && !current.contains_key(#[trigger] ids[k]) && change
                    == CatalogChangeView::RelationCreated(staged[ids[k]].metadata);
            if k < before.len() {
                assert(!current.contains_key(before[k]));
            }
        }
    }
}

/// Whether a rule of a fork is told of by a change: it is installed where there was none with its
/// identity, and disabled where it was active and is no more.
pub open spec fn tells_of_rule_change(
    current: Seq<DefinitionView>,
    rule: DefinitionView,
    change: CatalogChangeView,
) -> bool {
    match change {
        CatalogChangeView::RelationCreated(_) => false,
        CatalogChangeView::RuleInstalled(installed) => installed == rule && forall|k: int|
            0 <= k < current.len() ==> (#[trigger] current[k]).id != rule.id,
        CatalogChangeView::RuleDisabled(id) => id == rule.id && !rule.active && exists|k: int|
            0 <= k < current.len() && (#[trigger] current[k]).id == id && current[k].active,
    }
}

/// What publishing tells of rules, where those there were have different identities.
pub proof fn law_what_a_fork_tells_of_rules(
    current: Seq<DefinitionView>,
    staged: Seq<DefinitionView>,
    change: CatalogChangeView,
)
    requires
        forall|i: int, j: int|
            0 <= i < j < current.len() ==> (#[trigger] current[i]).id != (#[trigger] current[j]).id,
    ensures
        ruled(current, staged).contains(change) <==> exists|k: int|
            0 <= k < staged.len() && tells_of_rule_change(current, #[trigger] staged[k], change),
    decreases staged.len(),
{
    if staged.len() > 0 {
        let before = staged.drop_last();
        let last = staged.last();
        law_what_a_fork_tells_of_rules(current, before, change);
        law_the_last_rule_with_an_identity_is_meant(current, last.id);
        lemma_in_pushed(ruled(current, before), CatalogChangeView::RuleInstalled(last), change);
        lemma_in_pushed(ruled(current, before), CatalogChangeView::RuleDisabled(last.id), change);
        assert(staged[staged.len() - 1] == last);
        assert(tells_of_rule_change(current, last, change) <==> match last_rule(current, last.id) {
            None => change == CatalogChangeView::RuleInstalled(last),
            Some(known) => known.active && !last.active && change == CatalogChangeView::RuleDisabled(
                last.id,
            ),
        });
        if exists|k: int|
            0 <= k < before.len() && tells_of_rule_change(current, #[trigger] before[k], change) {
            let k = choose|k: int|
                0 <= k < before.len() && tells_of_rule_change(current, #[trigger] before[k], change);
            assert(tells_of_rule_change(current, staged[k], change));
        }
        if exists|k: int|
            0 <= k < staged.len() && tells_of_rule_change(current, #[trigger] staged[k], change) {
            let k = choose|k: int|
                0 <= k < staged.len() && tells_of_rule_change(current, #[trigger] staged[k], change);
            if k < before.len() {
                assert(tells_of_rule_change(current, before[k], change));
            }
        }
    }
}

/// A store that is there and says nothing of its format is to be set up. One whose version and shape
/// are both the current ones is used as it is, and any other has to be migrated.
pub proof fn law_which_stores_are_used_as_they_are(
    exists: bool,
    stored_version: Option<u64>,
    stored_shape: Option<Seq<char>>,
    current_version: u64,
    current_shape: Seq<char>,
)
    ensures
        ({
            let found = format_of(exists, stored_version, stored_shape, current_version, current_shape);
            &&& found is Fresh <==> !exists
            &&& found is Uninitialized <==> exists && stored_version is None && stored_shape is None
            &&& found is Current <==> exists && stored_version == Some(current_version)
                && stored_shape == Some(current_shape)
            &&& found matches FormatView::MigrationRequired(version, shape, wanted, form) ==> {
                &&& version == stored_version
                &&& shape == stored_shape
                &&& wanted == current_version
                &&& form == current_shape
            }
        }),
{
}

/// The newer of two versions is one of them and not below the other.
pub proof fn law_the_newer_version_is_the_larger(a: u64, b: u64)
    ensures
        newer(a, b) == a || newer(a, b) == b,
        newer(a, b) >= a,
        newer(a, b) >= b,
{
}

/// A relation is found by its name and number of columns: the first that has both.
pub proof fn law_relations_are_found_by_name_and_columns(
    relations: Seq<MetadataView>,
    name: Seq<char>,
    arity: u16,
)
    ensures
        match relation_named(relations, name, arity) {
            Some(id) => exists|k: int|
                {
                    &&& 0 <= k < relations.len()
                    &&& (#[trigger] relations[k]).id == id
                    &&& relations[k].name == name
                    &&& relations[k].arity == arity
                    &&& forall|j: int|
                        0 <= j < k ==> (#[trigger] relations[j]).name != name || relations[j].arity
                            != arity
                },
            None => forall|k: int|
                0 <= k < relations.len() ==> (#[trigger] relations[k]).name != name
                    || relations[k].arity != arity,
        },
    decreases relations.len(),
{
    if relations.len() > 0 {
        let before = relations.drop_last();
        law_relations_are_found_by_name_and_columns(before, name, arity);
        assert(relations.last() == relations[relations.len() - 1]);
        assert forall|k: int| 0 <= k < before.len() implies #[trigger] relations[k] == before[k] by {}
        if let Some(id) = relation_named(before, name, arity) {
            let k = choose|k: int|
                {
                    &&& 0 <= k < before.len()
                    &&& (#[trigger] before[k]).id == id
                    &&& before[k].name == name
                    &&& before[k].arity == arity
                    &&& forall|j: int|
                        0 <= j < k ==> (#[trigger] before[j]).name != name || before[j].arity
                            != arity
                };
            assert(relations[k].id == id);
        } else {
            assert forall|k: int| 0 <= k < before.len() implies (#[trigger] relations[k]).name != name
                || relations[k].arity != arity by {
                assert(before[k].name != name || before[k].arity != arity);
            }
        }
    }
}

/// A change to the catalog is recorded behind the earlier commits, with the version that it leads to
/// and the changes that it made.
pub proof fn law_a_catalog_change_is_recorded(
    current: SnapshotView,
    next: SnapshotView,
    catalog_changes: Seq<CatalogChangeView>,
    changes: Seq<FactChangeView>,
    evaluated: Option<Result<Evaluation, KernelError>>,
    after: SnapshotView,
    i: int,
)
    requires
        records(current, next, catalog_changes, changes, evaluated, after),
        0 <= i < current.commits.len(),
    ensures
        after.commits.len() == current.commits.len() + 1,
        after.commits[i] == current.commits[i],
        after.commits.last().version == next.version,
        after.commits.last().catalog_changes == catalog_changes,
        after.commits.last().changes == changes,
        after.version == next.version,
        after.relations == next.relations,
        after.rules == next.rules,
        current.maintained is None ==> after.commits.last().relation_changes.len() == 0,
{
}

/// Where rules were evaluated, what they derived is what they show, and the relations that are kept
/// up are those that were evaluated for it. Nothing else changes.
pub proof fn law_evaluated_rules_are_taken(
    next: SnapshotView,
    evaluation: Evaluation,
    after: SnapshotView,
)
    requires
        settled(next, Ok(evaluation)) == Ok::<SnapshotView, FaultView>(after),
    ensures
        after.relations == next.relations,
        after.rules == next.rules,
        after.version == next.version,
        after.commits == next.commits,
        after.derived is Evaluated,
        derived_map(next.relations, derived_views(evaluation.derived@)) == Ok::<
            Map<u64, RelationView>,
            FaultView,
        >(after.derived->Evaluated_0),
        after.maintained matches Some(targets) && targets.len() == evaluation.maintained@.len()
            && forall|i: int|
            0 <= i < targets.len() ==> #[trigger] targets[i] == evaluation.maintained@[i]@,
{
}

/// Rules whose evaluation failed settle nothing.
pub proof fn law_failed_rules_settle_nothing(next: SnapshotView, error: KernelError)
    ensures
        settled(next, Err(error)) == Err::<SnapshotView, FaultView>(error@),
{
}

/// A change to a set of rows adds its row, or takes it away where it was stored when the changes
/// began. It takes effect just where the set is another then, and touches no other row.
pub proof fn law_a_change_changes_its_row_only(
    set: Set<Row>,
    base: Set<Row>,
    change: RowChange,
    other: Row,
)
    requires
        other != change.row,
    ensures
        change.kind is Assert ==> changed(set, base, change).contains(change.row),
        change.kind is Retract && base.contains(change.row) ==> !changed(set, base, change).contains(
            change.row,
        ),
        change.kind is Retract && !base.contains(change.row) ==> changed(set, base, change) == set,
        changed(set, base, change).contains(other) == set.contains(other),
        takes_effect(set, base, change) <==> changed(set, base, change).contains(change.row)
            != set.contains(change.row),
{
}

/// Changes are made one after another, and those that took effect are told in the same order.
pub proof fn law_changes_are_made_in_order(
    set: Set<Row>,
    base: Set<Row>,
    changes: Seq<RowChange>,
    change: RowChange,
)
    ensures
        changed_by_all(set, base, Seq::empty()).0 == set,
        changed_by_all(set, base, Seq::empty()).1.len() == 0,
        ({
            let (before, told) = changed_by_all(set, base, changes);
            let (after, more) = changed_by_all(set, base, changes.push(change));
            &&& after == changed(before, base, change)
            &&& before.contains(change.row) != after.contains(change.row) ==> more == told.push(change)
            &&& before.contains(change.row) == after.contains(change.row) ==> more == told
        }),
{
    assert(changes.push(change).drop_last() =~= changes);
    assert(changes.push(change).last() == change);
}

/// A commit on the state that it began with is turned away only for a relation that it wrote to and
/// that is not there, or is declared otherwise, and the fault says which.
pub proof fn law_what_turns_a_commit_away(
    view: TransactionView,
    current: SnapshotView,
    fault: FaultView,
)
    requires
        misplaced(view, current, fault),
    ensures
        match fault {
            FaultView::UnknownRelation(id) => view.writes.contains_key(id)
                && !current.relations.contains_key(id),
            FaultView::RelationAlreadyExists(id) => view.writes.contains_key(id)
                && current.relations.contains_key(id) && (!view.base.relations.contains_key(id)
                || current.relations[id].metadata != view.base.relations[id].metadata),
            _ => false,
        },
{
}

/// A commit that changes nothing durable is kept without asking the provider. Any other is kept where
/// the provider keeps it, and is refused with the provider's text where that refuses.
pub proof fn law_the_provider_decides_what_is_kept<P: CommitProvider>(
    provider: P,
    relations: Map<u64, RelationView>,
    commit: CommitView,
    outcome: Result<(), FaultView>,
    changes: Seq<FactChangeView>,
)
    requires
        may_be_kept(provider, relations, commit, outcome),
        durable_changes(relations, commit.changes) == Ok::<Seq<FactChangeView>, FaultView>(changes),
    ensures
        commit.catalog_changes.len() == 0 && changes.len() == 0 ==> outcome is Ok,
        outcome matches Err(fault) ==> fault is Persistence && (commit.catalog_changes.len() > 0
            || changes.len() > 0),
        outcome is Ok && (commit.catalog_changes.len() > 0 || changes.len() > 0) ==> exists|kept:
            CommitView| #[trigger]
            provider.may_answer(kept, Ok(())) && kept.version == commit.version && kept.changes
                == changes && kept.catalog_changes == commit.catalog_changes,
{
    if outcome is Ok && (commit.catalog_changes.len() > 0 || changes.len() > 0) {
        let kept = persistable(relations, commit)->Ok_0->0;
        assert(provider.may_answer(kept, Ok(())));
    }
}

/// A transaction has something to keep just where it changes a row of a durable relation.
pub proof fn law_which_transactions_have_something_to_keep(
    view: TransactionView,
    current: SnapshotView,
    fact: (u64, Row),
)
    ensures
        effects(view, current).contains_key(fact)
            && current.relations[fact.0].metadata.durability is Durable ==> changes_durable(
            view,
            current,
        ),
        (forall|id: u64| #[trigger]
            current.relations.contains_key(id) ==> current.relations[id].metadata.durability
                is Volatile) && (forall|other: (u64, Row)| #[trigger]
            effects(view, current).contains_key(other) ==> current.relations.contains_key(other.0))
            ==> !changes_durable(view, current),
{
}

/// A new rule takes the identity that its number gives it, where no rule has that yet.
pub proof fn law_a_new_rule_takes_the_next_identity(rules: Seq<DefinitionView>, id: u64)
    requires
        id == (GENERATED_RULE_ID_START + rules.len()) % (IDENTITY_MAX + 1),
        forall|i: int| 0 <= i < rules.len() ==> (#[trigger] rules[i]).id != id,
    ensures
        new_rule_id(rules) == id,
{
    assert(tried_rule_id(rules.len(), 0) == id);
    assert(!is_rule_id(rules, id as int));
    assert(first_free_rule_id(rules, id));
    let found = new_rule_id(rules);
    assert(first_free_rule_id(rules, found));
    let k = choose|k: nat| #[trigger]
        tried_rule_id(rules.len(), k) == found && !is_rule_id(rules, found as int) && forall|j: nat|
            j < k ==> is_rule_id(rules, #[trigger] tried_rule_id(rules.len(), j));
    if k > 0 {
        assert(is_rule_id(rules, tried_rule_id(rules.len(), 0)));
    }
}

/// A fork is published on the state that it was made from only. What is published has the fork's
/// relations and rules, one version on, behind the commits that were there.
pub proof fn law_a_fork_is_published_where_it_was_made(
    result: Result<StagedPlan, KernelError>,
    current: SnapshotView,
    expected: Version,
    staged: SnapshotView,
)
    requires
        plans_staged(result, current, expected, staged),
        current.version < u64::MAX,
    ensures
        current.version != expected ==> (result matches Err(error) && error@
            == FaultView::StaleStagedSnapshot(expected, current.version)),
        current.version == expected && staged_fault(current, staged) is Some ==> (result matches Err(
            error,
        ) && staged_fault(current, staged) == Some(error@)),
        result matches Ok(plan) ==> {
            &&& current.version == expected
            &&& plan.next@.version == current.version + 1
            &&& plan.next@.relations == staged.relations
            &&& plan.next@.rules == staged.rules
            &&& plan.next@.commits == current.commits
            &&& plan.next@.derived is Unevaluated
            &&& catalog_change_views(plan.catalog_changes@) == catalog_difference(current, staged)
        },
{
}

} // verus!
