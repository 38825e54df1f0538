//! What holds of what a transaction writes and sees.

use crate::kernel::algebra::{lists, Row};
use crate::kernel::conflict_laws::agree_at;
use crate::kernel::dispatch::DispatchRelations;
use crate::kernel::error::FaultView;
use crate::kernel::inline_cache::{first_call, first_program, is_call, CallView, ProgramView};
use crate::kernel::metadata::PolicyView;
use crate::kernel::overlay::overlaid;
use crate::kernel::read::{scanned, ShownView, Visible};
use crate::kernel::relation::{is_first_with, RelationMutationKind, RelationView};
use crate::kernel::rules::{derives, BodyItemView, RuleView};
use crate::kernel::snapshot::{listed_metadata, DerivedView};
use crate::kernel::staging::told;
use crate::kernel::states::{id_listing, lemma_ids_listed};
use crate::kernel::strata::{is_ranking, item_ranked, rule_ranked, stratified};
use crate::kernel::transaction::{first_with_key, is_first_misfit, keys_apart, lemma_keys_apart,
    reconciles, TransactionView};
use crate::tuple::project;
use crate::value::ValueView;
use vstd::prelude::*;

verus! {

/// Whether a transaction holds a row in a stored relation, by its own writes or else by the
/// snapshot.
pub open spec fn holds_row(view: TransactionView, relation: u64, row: Row) -> bool {
    if view.writes.contains_key(relation) && view.writes[relation].contains_key(row) {
        view.writes[relation][row] is Assert
    } else {
        view.base.relations[relation].rows.contains(row)
    }
}

/// A transaction sees the rows that it asserted or that were stored and that it did not retract,
/// and, where active rules derive rows for the relation, those too.
pub proof fn law_what_a_transaction_shows(view: TransactionView, relation: u64, row: Row)
    requires
        view.base.relations.contains_key(relation),
        !view.base.computes(relation),
    ensures
        ({
            let seen = view.visible(relation);
            let ruled = exists|i: int|
                0 <= i < view.base.rules.len() && (#[trigger] view.base.rules[i]).active
                    && view.base.rules[i].rule.head_relation == relation;
            let unwritten = forall|id: u64| !#[trigger] view.writes.contains_key(id);
            &&& seen is Stored && seen->Stored_0 == view.base.relations[relation].metadata.arity
            &&& !ruled ==> seen->Stored_1 is Ok && (seen->Stored_1->Ok_0.contains(row)
                <==> holds_row(view, relation, row))
            &&& ruled ==> match if unwritten {
                view.base.derived
            } else {
                view.derived
            } {
                DerivedView::Unevaluated => seen->Stored_1 is Err && seen->Stored_1->Err_0
                    == FaultView::RulesUnevaluated(relation),
                DerivedView::Failed(fault) => seen->Stored_1 is Err && seen->Stored_1->Err_0
                    == fault,
                DerivedView::Evaluated(states) => seen->Stored_1 is Ok && (
                seen->Stored_1->Ok_0.contains(row) <==> holds_row(view, relation, row) || (
                states.contains_key(relation) && states[relation].rows.contains(row))),
            }
        }),
{
    if forall|id: u64| !#[trigger] view.writes.contains_key(id) {
        assert(view.writes.dom() =~= Set::<u64>::empty());
    } else {
        let id = choose|id: u64| #[trigger] view.writes.contains_key(id);
        assert(view.writes.dom().contains(id));
    }
}

/// Whether a transaction holds, for the key of a row, another row.
pub open spec fn key_taken(view: TransactionView, relation: u64, row: Row, other: Row) -> bool {
    &&& view.base.relations[relation].metadata.conflict_policy matches PolicyView::Functional(key)
        && agree_at(row, other, key)
    &&& holds_row(view, relation, other)
    &&& other != row
}

proof fn lemma_agreeing(a: Row, b: Row, key: Seq<u16>)
    ensures
        agree_at(a, b, key) <==> project(a, key) == project(b, key),
{
    if agree_at(a, b, key) {
        assert forall|i: int| 0 <= i < key.len() implies project(a, key)[i] == project(b, key)[i] by {
            assert(a[key[i] as int] == b[key[i] as int]);
        }
        assert(project(a, key) =~= project(b, key));
    } else {
        let i = choose|i: int| #![trigger key[i]]
            0 <= i < key.len() && a[key[i] as int] != b[key[i] as int];
        assert(project(a, key)[i] != project(b, key)[i]);
    }
}

/// A row may be written to a relation that is there and is not computed where it fits the relation.
/// To assert it, no other row may hold its key; to retract it nothing more is asked for.
pub proof fn law_which_writes_are_taken(
    view: TransactionView,
    relation: u64,
    row: Row,
    kind: RelationMutationKind,
    other: Row,
)
    requires
        view.base.relations.contains_key(relation)
            ==> (view.base.relations[relation].metadata.conflict_policy matches PolicyView::Functional(
            key,
        ) ==> keys_apart(
            overlaid(view.base.relations[relation].rows, view.written_to(relation)),
            key,
        )),
    ensures
        ({
            let fault = view.write_fault(relation, row, kind);
            let there = view.base.relations.contains_key(relation);
            let computed = view.base.computes(relation);
            let fits = view.base.relations[relation].tuple_fault(row);
            &&& !there ==> fault == Some(FaultView::UnknownRelation(relation))
            &&& there && computed ==> fault == Some(FaultView::ReadOnlyRelation(relation))
            &&& there && !computed && fits is Some ==> fault == fits
            &&& there && !computed && fits is None && kind is Retract ==> fault is None
            &&& there && !computed && fits is None && kind is Assert && key_taken(
                view,
                relation,
                row,
                other,
            ) ==> fault == Some(FaultView::FunctionalKeyViolation(relation, other, row))
            &&& there && !computed && fits is None && fault is Some ==> kind is Assert && (
            fault->0 matches FaultView::FunctionalKeyViolation(id, taken, given) && id == relation
                && given == row && key_taken(view, relation, row, taken))
        }),
{
    let state = view.base.relations[relation];
    let set = overlaid(state.rows, view.written_to(relation));
    assert forall|r: Row| set.contains(r) == #[trigger] holds_row(view, relation, r) by {}
    if let PolicyView::Functional(key) = state.metadata.conflict_policy {
        let wanted = project(row, key);
        lemma_agreeing(row, other, key);
        if view.base.relations.contains_key(relation) && key_taken(view, relation, row, other) {
            assert(set.contains(other));
            lemma_keys_apart(set, key, other);
        }
        if let Some(found) = view.holder(relation, row) {
            assert(is_first_with(set, key, wanted, found));
            lemma_agreeing(row, found, key);
        }
    }
}

proof fn lemma_written(
    view: TransactionView,
    relation: u64,
    rows: Seq<Row>,
    kind: RelationMutationKind,
)
    ensures
        ({
            let (fault, after) = view.writing(relation, rows, kind);
            &&& after.base == view.base
            &&& forall|other: u64|
                other != relation ==> #[trigger] after.written_to(other) == view.written_to(other)
            &&& fault is None ==> forall|row: Row| #[trigger]
                holds_row(after, relation, row) <==> if rows.contains(row) {
                    kind is Assert
                } else {
                    holds_row(view, relation, row)
                }
        }),
    decreases rows.len(),
{
    if rows.len() > 0 {
        let before = rows.drop_last();
        let last = rows.last();
        lemma_written(view, relation, before, kind);
        let (fault, between) = view.writing(relation, before, kind);
        let after = view.writing(relation, rows, kind).1;
        assert(after == between || after == between.wrote(relation, last, kind));
        assert forall|other: u64| other != relation implies #[trigger] after.written_to(other)
            == view.written_to(other) by {
            assert(between.written_to(other) == view.written_to(other));
        }
        if view.writing(relation, rows, kind).0 is None {
            assert(fault is None);
            assert(after == between.wrote(relation, last, kind));
            assert forall|row: Row| #[trigger]
                holds_row(after, relation, row) <==> if rows.contains(row) {
                    kind is Assert
                } else {
                    holds_row(view, relation, row)
                } by {
                assert(holds_row(between, relation, row) <==> if before.contains(row) {
                    kind is Assert
                } else {
                    holds_row(view, relation, row)
                });
                assert(rows.contains(row) <==> before.contains(row) || row == last) by {
                    if before.contains(row) {
                        let i = choose|i: int| 0 <= i < before.len() && before[i] == row;
                        assert(rows[i] == row);
                    }
                    if row == last {
                        assert(rows[rows.len() - 1] == row);
                    }
                    if rows.contains(row) && row != last {
                        let i = choose|i: int| 0 <= i < rows.len() && rows[i] == row;
                        assert(before[i] == row);
                    }
                }
            }
        }
    }
}

/// Once rows are written, the transaction holds each of them, or none of them where they were
/// retracted, and every other row as before. Other relations stay as they were.
pub proof fn law_rows_are_written_alike(
    view: TransactionView,
    relation: u64,
    rows: Seq<Row>,
    kind: RelationMutationKind,
    row: Row,
    other: u64,
)
    requires
        view.writing(relation, rows, kind).0 is None,
        other != relation,
    ensures
        ({
            let after = view.writing(relation, rows, kind).1;
            &&& rows.contains(row) ==> (holds_row(after, relation, row) <==> kind is Assert)
            &&& !rows.contains(row) ==> holds_row(after, relation, row) == holds_row(
                view,
                relation,
                row,
            )
            &&& after.base == view.base
            &&& after.stored(other) == view.stored(other)
        }),
{
    lemma_written(view, relation, rows, kind);
    assert(view.writing(relation, rows, kind).1.written_to(other) == view.written_to(other));
}

/// Once a stored relation without active rules is reconciled with some rows, it shows just these.
/// Other relations show what they did.
pub proof fn law_a_reconciled_relation_shows_what_was_wanted(
    before: TransactionView,
    shown: ShownView,
    relation: u64,
    wanted: Set<Row>,
    after: TransactionView,
    row: Row,
    other: u64,
)
    requires
        reconciles(before, shown, relation, wanted, Ok(()), after),
        !before.base.computes(relation),
        !derives(before.base.rules, relation),
        other != relation,
    ensures
        before.base.relations.contains_key(relation),
        after.visible(relation) matches Visible::Stored(_, Ok(set)) && (set.contains(row)
            <==> wanted.contains(row)),
        after.stored(other) == before.stored(other),
{
    let arity = before.base.relations[relation].metadata.arity;
    let free = Seq::new(arity as nat, |i: int| None::<ValueView>);
    let seen = scanned(before.visible(relation), relation, free)->0->Ok_0;
    let (gone, added) = choose|gone: Seq<Row>, added: Seq<Row>|
        {
            &&& #[trigger] lists(gone, seen.difference(wanted))
            &&& #[trigger] lists(added, wanted.difference(seen))
            &&& Ok::<(), FaultView>(()) == match before.exchanging(relation, gone, added).0 {
                Some(fault) => Err::<(), _>(fault),
                None => Ok(()),
            }
            &&& after == before.exchanging(relation, gone, added).1
        };
    let between = before.writing(relation, gone, RelationMutationKind::Retract).1;
    lemma_written(before, relation, gone, RelationMutationKind::Retract);
    lemma_written(between, relation, added, RelationMutationKind::Assert);
    assert(seen.contains(row) <==> holds_row(before, relation, row));
    assert(gone.to_set().contains(row) <==> gone.contains(row));
    assert(added.to_set().contains(row) <==> added.contains(row));
    assert(seen.difference(wanted).contains(row) <==> gone.contains(row));
    assert(wanted.difference(seen).contains(row) <==> added.contains(row));
    assert(holds_row(between, relation, row) <==> holds_row(before, relation, row)
        && !gone.contains(row));
    assert(holds_row(after, relation, row) <==> added.contains(row) || holds_row(
        between,
        relation,
        row,
    ));
    assert(after.written_to(other) == before.written_to(other));
}

/// A relation that is not there is not reconciled, nor with rows of another number of columns.
pub proof fn law_what_a_relation_cannot_be_reconciled_with(
    before: TransactionView,
    shown: ShownView,
    relation: u64,
    wanted: Set<Row>,
    outcome: Result<(), FaultView>,
    after: TransactionView,
    row: Row,
)
    requires
        reconciles(before, shown, relation, wanted, outcome, after),
    ensures
        !before.base.relations.contains_key(relation) ==> outcome == Err::<(), FaultView>(
            FaultView::UnknownRelation(relation),
        ) && after == before,
        before.base.relations.contains_key(relation) && is_first_misfit(
            wanted,
            before.base.relations[relation].metadata.arity,
            row,
        ) ==> (outcome matches Err(FaultView::ArityMismatch(id, arity, len)) && id == relation && arity
            == before.base.relations[relation].metadata.arity && len != arity && after == before),
{
}

/// Methods are looked for wherever nothing was written and wherever the relations that tell of them
/// are there. A fault names one of them that is not.
pub proof fn law_when_methods_are_not_looked_for(view: TransactionView, relations: DispatchRelations)
    ensures
        (forall|id: u64| !#[trigger] view.writes.contains_key(id)) ==> view.dispatch_fault(
            relations,
        ) is None,
        view.base.relations.contains_key(relations.method_selector@)
            && view.base.relations.contains_key(relations.param@) && view.base.relations.contains_key(
            relations.delegates@,
        ) ==> view.dispatch_fault(relations) is None,
        view.dispatch_fault(relations) matches Some(fault) ==> (fault matches FaultView::UnknownRelation(
            id,
        ) && !view.base.relations.contains_key(id) && (id == relations.method_selector@ || id
            == relations.param@ || id == relations.delegates@)),
        (exists|id: u64| #[trigger] view.writes.contains_key(id)) && !view.writes.contains_key(
            relations.method_selector@,
        ) && !derives(view.base.rules, relations.method_selector@)
            && !view.base.relations.contains_key(relations.method_selector@) ==> view.dispatch_fault(
            relations,
        ) == Some(FaultView::UnknownRelation(relations.method_selector@)),
{
    if forall|id: u64| !#[trigger] view.writes.contains_key(id) {
        assert(view.writes.dom() =~= Set::<u64>::empty());
    } else {
        let id = choose|id: u64| #[trigger] view.writes.contains_key(id);
        assert(view.writes.dom().contains(id));
    }
}

/// The row that a conflict over a key is told with is the row that the transaction holds for the
/// key, else the row that was stored for it, else the key. Without a key, or where keys were not
/// looked up, it is the row itself.
pub proof fn law_which_row_a_conflict_is_told_with(
    view: TransactionView,
    relation: u64,
    row: Row,
    other: Row,
    key: Seq<u16>,
)
    requires
        view.base.relations[relation].metadata.conflict_policy == PolicyView::Functional(key),
        keys_apart(overlaid(view.base.relations[relation].rows, view.written_to(relation)), key),
        keys_apart(view.base.relations[relation].rows, key),
    ensures
        told(view, relation, row, false) == row,
        holds_row(view, relation, other) && agree_at(row, other, key) ==> told(
            view,
            relation,
            row,
            true,
        ) == other,
        (forall|r: Row| #[trigger] holds_row(view, relation, r) ==> !agree_at(row, r, key))
            && view.base.relations[relation].rows.contains(other) && agree_at(row, other, key) ==> told(
            view,
            relation,
            row,
            true,
        ) == other,
        (forall|r: Row| #[trigger] holds_row(view, relation, r) ==> !agree_at(row, r, key)) && (
        forall|r: Row| #[trigger] view.base.relations[relation].rows.contains(r) ==> !agree_at(
            row,
            r,
            key,
        )) ==> told(view, relation, row, true) == project(row, key),
{
    let base = view.base.relations[relation].rows;
    let set = overlaid(base, view.written_to(relation));
    let wanted = project(row, key);
    assert forall|r: Row| set.contains(r) == #[trigger] holds_row(view, relation, r) by {}
    assert forall|r: Row| agree_at(row, r, key) <==> #[trigger] project(r, key) == wanted by {
        lemma_agreeing(row, r, key);
    }
    assert(project(other, key) == wanted <==> agree_at(row, other, key));
    if set.contains(other) && agree_at(row, other, key) {
        lemma_keys_apart(set, key, other);
    }
    if forall|r: Row| #[trigger] holds_row(view, relation, r) ==> !agree_at(row, r, key) {
        if let Some(found) = first_with_key(set, key, wanted) {
            assert(is_first_with(set, key, wanted, found));
            assert(holds_row(view, relation, found));
            assert(project(found, key) == wanted);
        }
    }
    if base.contains(other) && agree_at(row, other, key) {
        lemma_keys_apart(base, key, other);
    }
    if forall|r: Row| #[trigger] base.contains(r) ==> !agree_at(row, r, key) {
        if let Some(found) = first_with_key(base, key, wanted) {
            assert(is_first_with(base, key, wanted, found));
            assert(project(found, key) == wanted);
        }
    }
}

/// A conflict over a relation without a key is told with the row itself.
pub proof fn law_a_conflict_without_a_key_is_told_with_the_row(
    view: TransactionView,
    relation: u64,
    row: Row,
    looked_up: bool,
)
    requires
        !(view.base.relations[relation].metadata.conflict_policy is Functional),
    ensures
        told(view, relation, row, looked_up) == row,
{
}

/// A call that was remembered is found again where relations, selector and arguments are the same,
/// the first such one, and no other is.
pub proof fn law_a_remembered_call_is_found_again(
    calls: Seq<CallView>,
    relations: DispatchRelations,
    selector: ValueView,
    args: Seq<ValueView>,
    k: int,
)
    requires
        0 <= k < calls.len(),
    ensures
        first_call(calls, relations, selector, args) == Some(k) <==> (calls[k].relations == relations
            && calls[k].selector == selector && calls[k].args == args && forall|j: int|
            0 <= j < k ==> !((#[trigger] calls[j]).relations == relations && calls[j].selector
                == selector && calls[j].args == args)),
        calls[k].relations == relations && calls[k].selector == selector && calls[k].args == args
            ==> first_call(calls, relations, selector, args) is Some,
        first_call(calls, relations, selector, args) matches Some(i) ==> 0 <= i < calls.len(),
    decreases calls.len(),
{
    let before = calls.drop_last();
    assert(calls.last() == calls[calls.len() - 1]);
    lemma_call_found(before, relations, selector, args);
    assert forall|j: int| 0 <= j < before.len() implies #[trigger] calls[j] == before[j] by {}
    if k < before.len() {
        law_a_remembered_call_is_found_again(before, relations, selector, args, k);
        if forall|j: int|
            0 <= j < k ==> !((#[trigger] calls[j]).relations == relations && calls[j].selector
                == selector && calls[j].args == args) {
            assert forall|j: int| 0 <= j < k implies !((#[trigger] before[j]).relations == relations
                && before[j].selector == selector && before[j].args == args) by {
                assert(calls[j] == before[j]);
            }
        }
        if first_call(before, relations, selector, args) == Some(k) {
            assert forall|j: int| 0 <= j < k implies !((#[trigger] calls[j]).relations == relations
                && calls[j].selector == selector && calls[j].args == args) by {
                assert(calls[j] == before[j]);
            }
        }
    } else {
        if let Some(i) = first_call(before, relations, selector, args) {
            assert(calls[i] == before[i]);
        } else {
            assert forall|j: int| 0 <= j < k implies !((#[trigger] calls[j]).relations == relations
                && calls[j].selector == selector && calls[j].args == args) by {
                assert(calls[j] == before[j]);
            }
        }
    }
}

proof fn lemma_call_found(
    calls: Seq<CallView>,
    relations: DispatchRelations,
    selector: ValueView,
    args: Seq<ValueView>,
)
    ensures
        match first_call(calls, relations, selector, args) {
            Some(i) => 0 <= i < calls.len() && is_call(calls[i], relations, selector, args),
            None => forall|j: int|
                0 <= j < calls.len() ==> !is_call(#[trigger] calls[j], relations, selector, args),
        },
    decreases calls.len(),
{
    if calls.len() > 0 {
        let before = calls.drop_last();
        lemma_call_found(before, relations, selector, args);
        assert(calls.last() == calls[calls.len() - 1]);
        assert forall|j: int| 0 <= j < before.len() implies #[trigger] calls[j] == before[j] by {}
        if first_call(before, relations, selector, args) is None {
            assert forall|j: int| 0 <= j < before.len() implies !is_call(
                #[trigger] calls[j],
                relations,
                selector,
                args,
            ) by {
                assert(!is_call(before[j], relations, selector, args));
            }
        }
    }
}

/// A method's remembered program is found again where relation and method are the same, and no
/// other is.
pub proof fn law_a_remembered_program_is_found_again(
    programs: Seq<ProgramView>,
    relation: u64,
    method: ValueView,
)
    ensures
        match first_program(programs, relation, method) {
            Some(i) => 0 <= i < programs.len() && programs[i].relation == relation && programs[i].method
                == method && forall|j: int|
                0 <= j < i ==> (#[trigger] programs[j]).relation != relation || programs[j].method
                    != method,
            None => forall|j: int|
                0 <= j < programs.len() ==> (#[trigger] programs[j]).relation != relation
                    || programs[j].method != method,
        },
    decreases programs.len(),
{
    if programs.len() > 0 {
        let before = programs.drop_last();
        law_a_remembered_program_is_found_again(before, relation, method);
        assert(programs.last() == programs[programs.len() - 1]);
        assert forall|j: int| 0 <= j < before.len() implies #[trigger] programs[j] == before[j] by {}
        assert forall|j: int| 0 <= j < before.len() && ((#[trigger] before[j]).relation != relation
            || before[j].method != method) implies programs[j].relation != relation
            || programs[j].method != method by {}
    }
}

/// Two rules, of which one asks that a row of the other's head is absent and the other has a
/// condition on the first one's head, are never stratified.
pub proof fn law_a_cycle_through_absence_is_not_stratified(
    rules: Seq<RuleView>,
    i: int,
    k: int,
    j: int,
    l: int,
)
    requires
        0 <= i < rules.len(),
        0 <= j < rules.len(),
        0 <= k < rules[i].body.len(),
        0 <= l < rules[j].body.len(),
        rules[i].body[k] matches BodyItemView::Atom(atom) && atom.negated && atom.relation
            == rules[j].head_relation,
        rules[j].body[l] matches BodyItemView::Atom(atom) && atom.relation == rules[i].head_relation,
    ensures
        !stratified(rules),
{
    if stratified(rules) {
        let rank = choose|rank: spec_fn(u64) -> nat| is_ranking(rules, rank);
        assert(rule_ranked(rules[i], rank));
        assert(rule_ranked(rules[j], rank));
        assert(item_ranked(rules[i].head_relation, rules[i].body[k], rank));
        assert(item_ranked(rules[j].head_relation, rules[j].body[l], rank));
    }
}

/// Rules whose conditions on the absence of rows are all on relations that no rule derives are
/// stratified.
pub proof fn law_absence_of_stored_rows_is_stratified(rules: Seq<RuleView>)
    requires
        forall|i: int, k: int, j: int|
            0 <= i < rules.len() && 0 <= k < rules[i].body.len() && 0 <= j < rules.len() ==> ((
            #[trigger] rules[i].body[k]) matches BodyItemView::Atom(atom) ==> (atom.negated
                ==> atom.relation != (#[trigger] rules[j]).head_relation)),
    ensures
        stratified(rules),
{
    let rank = |relation: u64|
        if exists|j: int| 0 <= j < rules.len() && (#[trigger] rules[j]).head_relation == relation {
            1nat
        } else {
            0nat
        };
    assert forall|i: int| 0 <= i < rules.len() implies rule_ranked(#[trigger] rules[i], rank) by {
        assert(rank(rules[i].head_relation) == 1);
        assert forall|k: int| 0 <= k < rules[i].body.len() implies item_ranked(
            rules[i].head_relation,
            #[trigger] rules[i].body[k],
            rank,
        ) by {
            if let BodyItemView::Atom(atom) = rules[i].body[k] {
                if atom.negated && rank(atom.relation) == 1 {
                    let j = choose|j: int|
                        0 <= j < rules.len() && (#[trigger] rules[j]).head_relation == atom.relation;
                    assert(rules[i].body[k] == BodyItemView::Atom(atom));
                    assert(rules[j].head_relation == atom.relation);
                }
            }
        }
    }
    assert(is_ranking(rules, rank));
}

/// The relations that a snapshot lists are those that are there, in the order of their identities.
pub proof fn law_every_relation_is_listed(relations: Map<u64, RelationView>, id: u64)
    requires
        relations.dom().finite(),
        forall|other: u64| #[trigger]
            relations.contains_key(other) ==> relations[other].metadata.id == other,
    ensures
        relations.contains_key(id) <==> exists|k: int|
            0 <= k < listed_metadata(relations).len() && (#[trigger] listed_metadata(relations)[k]).id
                == id,
        relations.contains_key(id) ==> listed_metadata(relations).contains(relations[id].metadata),
        forall|i: int, j: int|
            0 <= i < j < listed_metadata(relations).len() ==> (#[trigger] listed_metadata(
                relations,
            )[i]).id < (#[trigger] listed_metadata(relations)[j]).id,
{
    let ids = id_listing(relations.dom());
    let all = listed_metadata(relations);
    lemma_ids_listed(relations.dom());
    assert forall|k: int| 0 <= k < ids.len() implies relations.contains_key(#[trigger] ids[k])
        && all[k] == relations[ids[k]].metadata && all[k].id == ids[k] by {
        assert(ids.to_set().contains(ids[k]));
    }
    if relations.contains_key(id) {
        assert(ids.to_set().contains(id));
        let k = choose|k: int| 0 <= k < ids.len() && ids[k] == id;
        assert(all[k].id == id);
        assert(all[k] == relations[id].metadata);
    }
    if exists|k: int| 0 <= k < all.len() && (#[trigger] all[k]).id == id {
        let k = choose|k: int| 0 <= k < all.len() && (#[trigger] all[k]).id == id;
        assert(ids[k] == id);
    }
    assert forall|i: int, j: int| 0 <= i < j < all.len() implies (#[trigger] all[i]).id < (
    #[trigger] all[j]).id by {
        assert(ids[i] < ids[j]);
    }
}

/// Once a row has replaced the one with its key, every row with another key is held as before, and so
/// is every other relation. Without a key the row is just added.
pub proof fn law_replacing_a_row_leaves_other_keys(
    view: TransactionView,
    relation: u64,
    row: Row,
    other: Row,
    elsewhere: u64,
)
    requires
        view.replacing(relation, row).0 is None,
        elsewhere != relation,
        other != row,
        view.base.relations[relation].metadata.conflict_policy matches PolicyView::Functional(key)
            ==> !agree_at(row, other, key),
    ensures
        ({
            let after = view.replacing(relation, row).1;
            &&& holds_row(after, relation, row)
            &&& holds_row(after, relation, other) == holds_row(view, relation, other)
            &&& after.base == view.base
            &&& after.stored(elsewhere) == view.stored(elsewhere)
        }),
{
    let after = view.replacing(relation, row).1;
    let state = view.base.relations[relation];
    let set = overlaid(state.rows, view.written_to(relation));
    if let PolicyView::Functional(key) = state.metadata.conflict_policy {
        if let Some(found) = view.holder(relation, row) {
            assert(is_first_with(set, key, project(row, key), found));
            lemma_agreeing(row, found, key);
            assert(found != other);
            let between = view.wrote(relation, found, RelationMutationKind::Retract);
            assert(between.written_to(elsewhere) == view.written_to(elsewhere));
            assert(after == between.wrote(relation, row, RelationMutationKind::Assert));
        } else {
            assert(after == view.wrote(relation, row, RelationMutationKind::Assert));
        }
    } else {
        assert(after == view.wrote(relation, row, RelationMutationKind::Assert));
    }
    assert(after.written_to(elsewhere) == view.written_to(elsewhere));
}

/// A row replaces another where the relation is there, is not computed, and the row fits it. Where it
/// does not, nothing is written.
pub proof fn law_which_rows_may_replace_others(view: TransactionView, relation: u64, row: Row)
    ensures
        ({
            let (fault, after) = view.replacing(relation, row);
            let there = view.base.relations.contains_key(relation);
            let fits = view.base.relations[relation].tuple_fault(row);
            &&& !there ==> fault == Some(FaultView::UnknownRelation(relation)) && after == view
            &&& there && fits is Some ==> fault == fits && after == view
            &&& there && fits is None && view.base.computes(relation) ==> fault == Some(
                FaultView::ReadOnlyRelation(relation),
            ) && after == view
        }),
{
}

} // verus!
