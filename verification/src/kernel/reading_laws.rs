//! What holds of what a relation's readers find, and of how they find it.

use crate::kernel::access::{all_immediate, combined_domain, combined_domains, domains_of,
    full_capabilities, joined_by, joins, overlay_capabilities, saturating_sum, stored_capabilities,
    CapabilitiesView};
use crate::kernel::algebra::{joined_rows, lists, within, Row};
use crate::kernel::computed::{first_wanting, is_first_wanting, missing_positions, request_fault,
    RegistryView};
use crate::kernel::error::{FaultView, KernelError};
use crate::kernel::index::{agrees, leading_bound};
use crate::kernel::metadata::{natural_positions, plain_metadata, MetadataView, PolicyView, RelationId};
use crate::kernel::read::{answers, scanned, ShownView, Visible};
use crate::kernel::relation::{all_bound, best_access, best_index, bound_row, domain_of, estimated,
    first_bad_index, first_outside, heap_rows, leading_some, metadata_fault, RelationView, ScanAccess,
    ScanEstimate, ValueDomain};
use crate::kernel::rules::{active_rule_views, derives, DefinitionView, RuleView};
use crate::kernel::snapshot::{completes, derived_map, derived_outcome, derived_rows, derived_views,
    first_misfit, kinds_stored, DerivedView, Snapshot, SnapshotView};
use crate::tuple::{increasing, lemma_row_order_total, project, row_less, row_matches, rows,
    Tuple};
use crate::value::{immediate, persistable, ValueView};
use vstd::prelude::*;

verus! {

/// Whether a column stands outside a relation: some index, or the key that decides conflicts, is
/// over it and the relation does not have it.
pub open spec fn stands_outside(metadata: MetadataView, position: u16) -> bool {
    &&& position >= metadata.arity
    &&& {
        ||| exists|i: int|
            0 <= i < metadata.indexes.len() && (#[trigger] metadata.indexes[i]).contains(position)
        ||| metadata.conflict_policy matches PolicyView::Functional(key) && key.contains(position)
    }
}

proof fn lemma_outside(positions: Seq<u16>, arity: u16)
    ensures
        first_outside(positions, arity) matches Some(position) ==> position >= arity
            && positions.contains(position),
        first_outside(positions, arity) is None ==> forall|position: u16| #[trigger]
            positions.contains(position) ==> position < arity,
    decreases positions.len(),
{
    if positions.len() > 0 {
        let rest = positions.drop_first();
        lemma_outside(rest, arity);
        assert(positions[0] >= arity ==> positions.contains(positions[0]));
        assert forall|position: u16| #[trigger] rest.contains(position) implies positions.contains(
            position,
        ) by {
            let i = choose|i: int| 0 <= i < rest.len() && rest[i] == position;
            assert(positions[i + 1] == position);
        }
        assert forall|position: u16| #[trigger] positions.contains(position) implies position
            == positions[0] || rest.contains(position) by {
            let i = choose|i: int| 0 <= i < positions.len() && positions[i] == position;
            if i > 0 {
                assert(rest[i - 1] == position);
            }
        }
    }
}

proof fn lemma_bad_index(indexes: Seq<Seq<u16>>, arity: u16)
    ensures
        first_bad_index(indexes, arity) matches Some(position) ==> position >= arity && exists|i: int|
            0 <= i < indexes.len() && (#[trigger] indexes[i]).contains(position),
        first_bad_index(indexes, arity) is None ==> forall|i: int, position: u16|
            0 <= i < indexes.len() && #[trigger] indexes[i].contains(position) ==> position < arity,
    decreases indexes.len(),
{
    if indexes.len() > 0 {
        let rest = indexes.drop_first();
        lemma_outside(indexes[0], arity);
        lemma_bad_index(rest, arity);
        assert forall|i: int| 0 < i < indexes.len() implies #[trigger] indexes[i] == rest[i - 1] by {}
        if let Some(position) = first_bad_index(indexes, arity) {
            if first_outside(indexes[0], arity) is Some {
                assert(indexes[0].contains(position));
            } else {
                let i = choose|i: int| 0 <= i < rest.len() && (#[trigger] rest[i]).contains(position);
                assert(indexes[i + 1].contains(position));
            }
        }
    }
}

/// A relation is out of order just where an index, or the key that decides conflicts, is over a
/// column that it does not have, and what is told is such a column.
pub proof fn law_a_relation_has_the_columns_it_speaks_of(metadata: MetadataView)
    ensures
        metadata_fault(metadata) is None <==> forall|position: u16| !#[trigger] stands_outside(
            metadata,
            position,
        ),
        metadata_fault(metadata) matches Some(fault) ==> fault matches FaultView::InvalidIndex(
            relation,
            position,
            arity,
        ) && relation == metadata.id && arity == metadata.arity && stands_outside(metadata, position),
{
    lemma_bad_index(metadata.indexes, metadata.arity);
    if let PolicyView::Functional(key) = metadata.conflict_policy {
        lemma_outside(key, metadata.arity);
    }
    if let Some(fault) = metadata_fault(metadata) {
        assert(stands_outside(metadata, fault->InvalidIndex_1));
    }
}

/// A row may be stored just where it has a value for each column and none of them holds a
/// capability, and a scan is of a relation just where it has as many bindings as columns.
pub proof fn law_what_fits_a_relation(
    relation: RelationView,
    row: Row,
    bindings: Seq<Option<ValueView>>,
)
    ensures
        relation.tuple_fault(row) is None <==> row.len() == relation.metadata.arity && forall|i: int|
            0 <= i < row.len() ==> persistable(#[trigger] row[i]),
        relation.tuple_fault(row) matches Some(fault) ==> if row.len() != relation.metadata.arity {
            fault == FaultView::ArityMismatch(relation.metadata.id, relation.metadata.arity, row.len())
        } else {
            fault == FaultView::NonPersistentValue(relation.metadata.id, row)
        },
        relation.bindings_fault(bindings) is None <==> bindings.len() == relation.metadata.arity,
        relation.bindings_fault(bindings) matches Some(fault) ==> fault == FaultView::ArityMismatch(
            relation.metadata.id,
            relation.metadata.arity,
            bindings.len(),
        ),
{
}

/// A capability is never stored. What holds other values is stored where each of them may be.
pub proof fn law_only_capabilities_are_not_stored(value: ValueView)
    ensures
        value is Capability ==> !persistable(value),
        immediate(value) && !(value is Capability) ==> persistable(value),
        value is String || value is Bytes ==> persistable(value),
        value matches ValueView::List(items) ==> (persistable(value) <==> forall|i: int|
            0 <= i < items.len() ==> persistable(#[trigger] items[i])),
        value matches ValueView::Mapping(entries) ==> (persistable(value) <==> forall|i: int|
            0 <= i < entries.len() ==> persistable((#[trigger] entries[i]).0) && persistable(
                entries[i].1,
            )),
        value matches ValueView::Relation(names, tuples) ==> (persistable(value) <==> (forall|i: int|
            0 <= i < names.len() ==> persistable(#[trigger] names[i])) && forall|i: int|
            0 <= i < tuples.len() ==> persistable(#[trigger] tuples[i])),
        value matches ValueView::OptionSome(held) ==> persistable(value) == persistable(*held),
        value matches ValueView::Frob(_, held) ==> persistable(value) == persistable(*held),
        value matches ValueView::Error(_, _, held) ==> persistable(value) == persistable(*held),
{
}

/// A scan finds the visible rows that have the bound values, and no others. It is refused where the
/// relation is not known, and where there are not as many bindings as columns.
pub proof fn law_a_scan_finds_what_is_asked_for(
    visible: Visible,
    relation: u64,
    bindings: Seq<Option<ValueView>>,
    row: Row,
)
    ensures
        visible is Unknown ==> scanned(visible, relation, bindings) == Some(
            Err::<Set<Row>, FaultView>(FaultView::UnknownRelation(relation)),
        ),
        visible is Computed <==> scanned(visible, relation, bindings) is None,
        visible matches Visible::Stored(arity, seen) ==> {
            let found = scanned(visible, relation, bindings)->0;
            &&& bindings.len() != arity ==> found == Err::<Set<Row>, FaultView>(
                FaultView::ArityMismatch(relation, arity, bindings.len()),
            )
            &&& bindings.len() == arity && seen is Err ==> found is Err && found->Err_0
                == seen->Err_0
            &&& bindings.len() == arity && seen is Ok && row.len() == arity ==> found is Ok && (
            found->Ok_0.contains(row) <==> seen->Ok_0.contains(row) && forall|i: int|
                0 <= i < row.len() ==> (#[trigger] bindings[i]) is None || bindings[i] == Some(
                    row[i],
                ))
        },
{
    if let Visible::Stored(arity, seen) = visible {
        if bindings.len() == arity && seen is Ok && row.len() == arity {
            let found = scanned(visible, relation, bindings)->0->Ok_0;
            if found.contains(row) {
                assert forall|i: int| 0 <= i < row.len() implies (#[trigger] bindings[i]) is None
                    || bindings[i] == Some(row[i]) by {}
            }
        }
    }
}

/// The rows of a relation are those that are stored and, where active rules derive rows for it,
/// those that they derive. A relation without such rules shows its stored rows whatever became of
/// the rules.
pub proof fn law_what_a_snapshot_shows(snapshot: SnapshotView, relation: u64, row: Row)
    requires
        snapshot.relations.contains_key(relation),
        !snapshot.computes(relation),
    ensures
        ({
            let seen = snapshot.visible(relation);
            let ruled = exists|i: int|
                0 <= i < snapshot.rules.len() && (#[trigger] snapshot.rules[i]).active
                    && snapshot.rules[i].rule.head_relation == relation;
            let stored = snapshot.relations[relation].rows.contains(row);
            &&& seen is Stored && seen->Stored_0 == snapshot.relations[relation].metadata.arity
            &&& !ruled ==> seen->Stored_1 is Ok && (seen->Stored_1->Ok_0.contains(row) <==> stored)
            &&& ruled ==> match snapshot.derived {
                DerivedView::Unevaluated => seen->Stored_1 is Err && seen->Stored_1->Err_0
                    == FaultView::RulesUnevaluated(relation),
                DerivedView::Failed(fault) => seen->Stored_1 is Err && seen->Stored_1->Err_0
                    == fault,
                DerivedView::Evaluated(states) => seen->Stored_1 is Ok && (
                seen->Stored_1->Ok_0.contains(row) <==> stored || (states.contains_key(relation)
                    && states[relation].rows.contains(row))),
            }
        }),
{
}

/// A relation that is not there is not known, whatever the rules, and one that is computed is read
/// from what computes it.
pub proof fn law_which_relations_show_no_stored_rows(snapshot: SnapshotView, relation: u64)
    ensures
        snapshot.visible(relation) is Unknown <==> !snapshot.relations.contains_key(relation),
        snapshot.visible(relation) is Computed <==> snapshot.relations.contains_key(relation)
            && snapshot.computed.finds(snapshot.relations[relation].metadata) is Some,
{
}

proof fn lemma_fits(found: Seq<Row>, arity: u16)
    ensures
        first_misfit(found, arity) is None <==> forall|i: int|
            0 <= i < found.len() ==> (#[trigger] found[i]).len() == arity,
        first_misfit(found, arity) matches Some(len) ==> len != arity && exists|i: int|
            0 <= i < found.len() && (#[trigger] found[i]).len() == len,
    decreases found.len(),
{
    if found.len() > 0 {
        let before = found.drop_last();
        lemma_fits(before, arity);
        assert forall|i: int| 0 <= i < before.len() implies #[trigger] found[i] == before[i] by {}
        assert(found.last() == found[found.len() - 1]);
        if let Some(len) = first_misfit(before, arity) {
            let i = choose|i: int| 0 <= i < before.len() && (#[trigger] before[i]).len() == len;
            assert(found[i].len() == len);
            assert(found[i].len() != arity);
        } else {
            assert forall|i: int| 0 <= i < found.len() - 1 implies (#[trigger] found[i]).len()
                == arity by {
                assert(before[i].len() == arity);
            }
        }
    }
}

/// What rules derived is taken where each relation is known and each row fits it. Then a relation
/// has just the rows that were derived for it last.
pub proof fn law_derived_rows_are_taken_as_they_are(
    relations: Map<u64, RelationView>,
    derived: Seq<(u64, Seq<Row>)>,
    k: int,
)
    requires
        0 <= k < derived.len(),
        forall|j: int| k < j < derived.len() ==> (#[trigger] derived[j]).0 != derived[k].0,
    ensures
        derived_map(relations, derived) matches Ok(states) ==> {
            &&& relations.contains_key(derived[k].0)
            &&& forall|i: int|
                0 <= i < derived[k].1.len() ==> (#[trigger] derived[k].1[i]).len()
                    == relations[derived[k].0].metadata.arity
            &&& states.contains_key(derived[k].0)
            &&& states[derived[k].0].metadata == relations[derived[k].0].metadata
            &&& forall|row: Row| #[trigger]
                states[derived[k].0].rows.contains(row) <==> derived[k].1.contains(row)
        },
    decreases derived.len(),
{
    let before = derived.drop_last();
    let last = derived.last();
    if relations.contains_key(last.0) {
        lemma_fits(last.1, relations[last.0].metadata.arity);
    }
    if k < before.len() {
        assert(derived[derived.len() - 1] == last);
        assert forall|j: int| k < j < before.len() implies (#[trigger] before[j]).0 != before[k].0 by {
            assert(before[j] == derived[j]);
        }
        assert(before[k] == derived[k]);
        law_derived_rows_are_taken_as_they_are(relations, before, k);
    } else {
        assert(last == derived[k]);
    }
}

/// What rules derived is taken where each relation is known and each row fits it, and gives rows to
/// no other relation.
pub proof fn law_fitting_derived_rows_are_taken(
    relations: Map<u64, RelationView>,
    derived: Seq<(u64, Seq<Row>)>,
)
    requires
        forall|k: int| #![trigger derived[k]]
            0 <= k < derived.len() ==> relations.contains_key(derived[k].0) && forall|i: int|
                0 <= i < derived[k].1.len() ==> (#[trigger] derived[k].1[i]).len()
                    == relations[derived[k].0].metadata.arity,
    ensures
        derived_map(relations, derived) is Ok,
        forall|id: u64| #[trigger]
            derived_map(relations, derived)->Ok_0.contains_key(id) ==> exists|k: int|
                0 <= k < derived.len() && (#[trigger] derived[k]).0 == id,
    decreases derived.len(),
{
    if derived.len() > 0 {
        let before = derived.drop_last();
        let last = derived.last();
        assert(last == derived[derived.len() - 1]);
        assert forall|k: int| #![trigger before[k]] 0 <= k < before.len() implies
            relations.contains_key(before[k].0) && forall|i: int|
            0 <= i < before[k].1.len() ==> (#[trigger] before[k].1[i]).len()
                == relations[before[k].0].metadata.arity by {
            assert(before[k] == derived[k]);
        }
        law_fitting_derived_rows_are_taken(relations, before);
        lemma_fits(last.1, relations[last.0].metadata.arity);
        assert forall|id: u64| #[trigger]
            derived_map(relations, derived)->Ok_0.contains_key(id) implies exists|k: int|
            0 <= k < derived.len() && (#[trigger] derived[k]).0 == id by {
            if id == last.0 {
                assert(derived[derived.len() - 1].0 == id);
            } else {
                let k = choose|k: int| 0 <= k < before.len() && (#[trigger] before[k]).0 == id;
                assert(derived[k].0 == id);
            }
        }
    }
}

/// Whether a column is bound.
pub open spec fn is_bound(bindings: Seq<Option<ValueView>>, position: u16) -> bool {
    position < bindings.len() && bindings[position as int] is Some
}

/// Whether just the first `count` of some columns are bound before one that is not.
pub open spec fn bound_up_to(
    positions: Seq<u16>,
    bindings: Seq<Option<ValueView>>,
    count: nat,
) -> bool {
    &&& count <= positions.len()
    &&& forall|i: int| 0 <= i < count ==> is_bound(bindings, #[trigger] positions[i])
    &&& count < positions.len() ==> !is_bound(bindings, positions[count as int])
}

proof fn lemma_bound_up_to(positions: Seq<u16>, bindings: Seq<Option<ValueView>>)
    ensures
        bound_up_to(positions, bindings, leading_bound(positions, bindings)),
    decreases positions.len(),
{
    if positions.len() > 0 && is_bound(bindings, positions[0]) {
        let rest = positions.drop_first();
        lemma_bound_up_to(rest, bindings);
        let count = leading_bound(positions, bindings);
        assert forall|i: int| 0 <= i < count implies is_bound(bindings, #[trigger] positions[i]) by {
            if i > 0 {
                assert(rest[i - 1] == positions[i]);
            }
        }
        if count < positions.len() {
            assert(rest[count - 1] == positions[count as int]);
        }
    }
}

proof fn lemma_some_up_to(bindings: Seq<Option<ValueView>>)
    ensures
        leading_some(bindings) <= bindings.len(),
        forall|i: int| 0 <= i < leading_some(bindings) ==> (#[trigger] bindings[i]) is Some,
        leading_some(bindings) < bindings.len() ==> bindings[leading_some(bindings) as int] is None,
    decreases bindings.len(),
{
    if bindings.len() > 0 && bindings[0] is Some {
        let rest = bindings.drop_first();
        lemma_some_up_to(rest);
        let count = leading_some(bindings);
        assert forall|i: int| 0 <= i < count implies (#[trigger] bindings[i]) is Some by {
            if i > 0 {
                assert(rest[i - 1] == bindings[i]);
            }
        }
        if count < bindings.len() {
            assert(rest[count - 1] == bindings[count as int]);
        }
    }
}

proof fn lemma_best(columns: Seq<Seq<u16>>, bindings: Seq<Option<ValueView>>)
    ensures
        best_index(columns, bindings) matches Some((place, count)) ==> 0 <= place < columns.len()
            && count > 0 && count == leading_bound(columns[place], bindings) && forall|i: int|
            0 <= i < columns.len() ==> leading_bound(#[trigger] columns[i], bindings) <= count,
        best_index(columns, bindings) is None ==> forall|i: int|
            0 <= i < columns.len() ==> leading_bound(#[trigger] columns[i], bindings) == 0,
    decreases columns.len(),
{
    if columns.len() > 0 {
        let before = columns.drop_last();
        lemma_best(before, bindings);
        assert(columns.last() == columns[columns.len() - 1]);
        assert forall|i: int| 0 <= i < before.len() implies #[trigger] columns[i] == before[i] by {}
    }
}

/// A scan goes by the index with the most leading columns bound, or by the rows' own order where
/// that has more, and looks at every row only where neither helps.
pub proof fn law_a_scan_goes_by_the_most_bound_columns(
    columns: Seq<Seq<u16>>,
    bindings: Seq<Option<ValueView>>,
    i: int,
    n: nat,
)
    requires
        bindings.len() <= usize::MAX,
        columns.len() <= usize::MAX,
        forall|k: int| 0 <= k < columns.len() ==> (#[trigger] columns[k]).len() <= usize::MAX,
        0 <= i < columns.len(),
        bound_up_to(columns[i], bindings, n),
    ensures
        match best_access(columns, bindings) {
            ScanAccess::Everything => n == 0 && (bindings.len() > 0 ==> bindings[0] is None),
            ScanAccess::Store(count) => {
                &&& n < count <= bindings.len()
                &&& forall|k: int| 0 <= k < count ==> (#[trigger] bindings[k]) is Some
                &&& count < bindings.len() ==> bindings[count as int] is None
            },
            ScanAccess::Index(place, count) => {
                &&& place < columns.len()
                &&& 0 < count
                &&& n <= count
                &&& bound_up_to(columns[place as int], bindings, count as nat)
                &&& count < bindings.len() ==> exists|k: int|
                    0 <= k <= count && (#[trigger] bindings[k]) is None
            },
        },
{
    lemma_best(columns, bindings);
    lemma_some_up_to(bindings);
    lemma_bound_up_to(columns[i], bindings);
    lemma_same_bound(columns[i], bindings, n);
    let natural = leading_some(bindings);
    if let Some((place, count)) = best_index(columns, bindings) {
        lemma_bound_up_to(columns[place], bindings);
        assert(count <= columns[place].len());
        assert(columns[place].len() <= usize::MAX);
        if natural <= count && natural < bindings.len() {
            assert(bindings[natural as int] is None);
        }
    }
}

proof fn lemma_same_bound(positions: Seq<u16>, bindings: Seq<Option<ValueView>>, n: nat)
    requires
        bound_up_to(positions, bindings, n),
    ensures
        n == leading_bound(positions, bindings),
{
    lemma_bound_up_to(positions, bindings);
    let count = leading_bound(positions, bindings);
    if n < count {
        assert(is_bound(bindings, positions[n as int]));
    }
    if count < n {
        assert(is_bound(bindings, positions[count as int]));
    }
}

/// The estimate of a scan is the number of rows that it finds where every column is bound, of all
/// rows where it must look at every row, and of the rows that agree in the bound columns of its index
/// where it goes by one.
pub proof fn law_how_many_rows_a_scan_expects(
    relation: RelationView,
    bindings: Seq<Option<ValueView>>,
    row: Row,
)
    requires
        relation.rows.finite(),
        relation.rows.len() <= usize::MAX,
        bindings.len() == relation.metadata.arity,
        row.len() == relation.metadata.arity,
    ensures
        ({
            let guess = estimated(relation, bindings);
            let whole = forall|i: int|
                0 <= i < bindings.len() ==> #[trigger] bindings[i] == Some(row[i]);
            let access = best_access(relation.extra_indexes(), bindings);
            let open = exists|i: int| 0 <= i < bindings.len() && (#[trigger] bindings[i]) is None;
            &&& whole && relation.rows.contains(row) ==> guess == ScanEstimate::Exactly(1)
            &&& whole && !relation.rows.contains(row) ==> guess == ScanEstimate::Exactly(0)
            &&& open && access is Everything ==> guess == ScanEstimate::Exactly(
                relation.rows.len() as usize,
            )
            &&& open && access is Store ==> guess is Spread && guess->rows == relation.rows.len()
                && guess->bound == access->Store_0 && guess->columns == bindings.len()
            &&& open && access is Index ==> guess is Exactly && guess->Exactly_0
                <= relation.rows.len() && ((forall|other: Row| #[trigger]
                relation.rows.contains(other) ==> agrees(
                    other,
                    relation.extra_indexes()[access->Index_0 as int],
                    bindings,
                    access->Index_1 as int,
                )) ==> guess->Exactly_0 == relation.rows.len()) && ((forall|other: Row| #[trigger]
                relation.rows.contains(other) ==> !agrees(
                    other,
                    relation.extra_indexes()[access->Index_0 as int],
                    bindings,
                    access->Index_1 as int,
                )) ==> guess->Exactly_0 == 0)
        }),
{
    let whole = forall|i: int| 0 <= i < bindings.len() ==> #[trigger] bindings[i] == Some(row[i]);
    if whole {
        assert(all_bound(bindings));
        assert(bound_row(bindings) =~= row);
    }
    let access = best_access(relation.extra_indexes(), bindings);
    if let ScanAccess::Index(place, count) = access {
        let positions = relation.extra_indexes()[place as int];
        let found = relation.rows.filter(|r: Row| agrees(r, positions, bindings, count as int));
        assert(found.subset_of(relation.rows));
        vstd::set_lib::lemma_len_subset(found, relation.rows);
        if forall|other: Row| #[trigger]
            relation.rows.contains(other) ==> agrees(other, positions, bindings, count as int) {
            assert(found =~= relation.rows);
        }
        if forall|other: Row| #[trigger]
            relation.rows.contains(other) ==> !agrees(other, positions, bindings, count as int) {
            assert(found =~= Set::<Row>::empty());
        }
    }
}

/// A row agrees with the bound columns of an index just where it has their values.
pub proof fn law_agreeing_rows_have_the_bound_values(
    row: Row,
    positions: Seq<u16>,
    bindings: Seq<Option<ValueView>>,
    count: nat,
)
    requires
        bound_up_to(positions, bindings, count),
        forall|i: int| 0 <= i < count ==> (#[trigger] positions[i]) < row.len(),
    ensures
        agrees(row, positions, bindings, count as int) <==> forall|i: int|
            0 <= i < count ==> bindings[(#[trigger] positions[i]) as int] == Some(
                row[positions[i] as int],
            ),
{
    assert forall|i: int| 0 <= i < count implies is_bound(bindings, #[trigger] positions[i]) by {}
}

/// The values of a column are said to be held in place where all are, on the heap where none is and
/// there are some, and mixed otherwise.
pub proof fn law_how_a_columns_values_are_held(set: Set<Row>, position: int)
    requires
        set.finite(),
    ensures
        domain_of(set, position) == ValueDomain::Immediate <==> forall|row: Row| #[trigger]
            set.contains(row) ==> immediate(row[position]),
        domain_of(set, position) == ValueDomain::Heap <==> (forall|row: Row| #[trigger]
            set.contains(row) ==> !immediate(row[position])) && exists|row: Row|
            #[trigger] set.contains(row),
        domain_of(set, position) != ValueDomain::Unknown,
{
    let heap = heap_rows(set, position);
    assert(heap.subset_of(set));
    vstd::set_lib::lemma_len_subset(heap, set);
    if heap.len() == 0 {
        assert(heap =~= Set::<Row>::empty());
        assert forall|row: Row| #[trigger] set.contains(row) implies immediate(row[position]) by {
            assert(!heap.contains(row));
        }
    } else {
        let held = heap.choose();
        assert(heap.contains(held));
        assert(set.contains(held) && !immediate(held[position]));
        if heap.len() == set.len() {
            vstd::set_lib::lemma_subset_equality(heap, set);
            assert forall|row: Row| #[trigger] set.contains(row) implies !immediate(row[position]) by {
                assert(heap.contains(row));
            }
        } else if forall|row: Row| #[trigger] set.contains(row) ==> !immediate(row[position]) {
            assert(heap =~= set);
        }
    }
}

/// Two sources of a column's values hold them as both do where they hold them alike, in a mixed way
/// where they differ, and in an unknown way where one of them is not known.
pub proof fn law_sources_of_values_come_together(left: ValueDomain, right: ValueDomain)
    ensures
        combined_domain(left, right) == combined_domain(right, left),
        combined_domain(left, left) == left,
        combined_domain(left, right) == ValueDomain::Unknown <==> left == ValueDomain::Unknown
            || right == ValueDomain::Unknown,
        left != right && left != ValueDomain::Unknown && right != ValueDomain::Unknown
            ==> combined_domain(left, right) == ValueDomain::Mixed,
{
}

/// How the values of two sources are held is decided column by column, and a source without rows has
/// no say.
pub proof fn law_a_source_without_rows_has_no_say(
    left: Seq<ValueDomain>,
    left_rows: nat,
    right: Seq<ValueDomain>,
    right_rows: nat,
    p: int,
)
    requires
        left.len() == right.len(),
        0 <= p < left.len(),
    ensures
        ({
            let all = combined_domains(left, left_rows, right, right_rows);
            &&& all.len() == left.len()
            &&& left_rows == 0 ==> all[p] == right[p]
            &&& left_rows > 0 && right_rows == 0 ==> all[p] == left[p]
            &&& left_rows > 0 && right_rows > 0 ==> all[p] == combined_domain(left[p], right[p])
        }),
{
}

/// A stored relation tells how many rows it has and how their values are held. A computed one tells
/// neither, and is not exported in batches.
pub proof fn law_what_a_relation_can_do(snapshot: SnapshotView, relation: u64, p: int)
    requires
        snapshot.relations.contains_key(relation),
        snapshot.relations[relation].rows.len() <= usize::MAX,
        0 <= p < snapshot.relations[relation].metadata.arity,
    ensures
        ({
            let found = stored_capabilities(snapshot, relation);
            let state = snapshot.relations[relation];
            &&& found.exact_indexes == state.metadata.indexes
            &&& found.value_domains.len() == state.metadata.arity
            &&& found.supports_streaming
            &&& found.supports_batch_export <==> !snapshot.computes(relation)
            &&& found.cardinality is Some <==> !snapshot.computes(relation)
            &&& snapshot.computes(relation) ==> found.source is Computed && found.value_domains[p]
                == ValueDomain::Unknown
            &&& !snapshot.computes(relation) ==> found.source is Snapshot && found.cardinality->0
                == state.rows.len() && found.value_domains[p] == domain_of(state.rows, p)
        }),
{
}

/// A sum of two numbers of rows is that sum, or the largest number where it does not fit.
pub proof fn law_numbers_of_rows_add_up(a: nat, b: nat)
    ensures
        a + b <= usize::MAX ==> saturating_sum(a, b) == a + b,
        a + b > usize::MAX ==> saturating_sum(a, b) == usize::MAX,
{
}

/// Where rules derived rows for a relation, there are as many rows as are stored and derived
/// together. Nothing else changes but how the values are held.
pub proof fn law_derived_rows_are_counted(
    snapshot: SnapshotView,
    relation: u64,
    states: Map<u64, RelationView>,
)
    requires
        snapshot.relations.contains_key(relation),
        !snapshot.computes(relation),
        snapshot.derived == DerivedView::Evaluated(states),
        derives(snapshot.rules, relation),
        states.contains_key(relation),
        snapshot.relations[relation].rows.len() + states[relation].rows.len() <= usize::MAX,
    ensures
        full_capabilities(snapshot, relation) matches Ok(found) && {
            let state = snapshot.relations[relation];
            &&& found.cardinality == Some(
                (state.rows.len() + states[relation].rows.len()) as usize,
            )
            &&& found.source is Snapshot
            &&& found.exact_indexes == state.metadata.indexes
            &&& found.supports_streaming && found.supports_batch_export
            &&& state.rows.len() == 0 ==> found.value_domains == domains_of(states[relation])
        },
{
}

/// What a relation can do is told of any relation that is there, but for one whose rows active rules
/// derive where these were not evaluated.
pub proof fn law_when_a_relation_tells_what_it_can_do(snapshot: SnapshotView, relation: u64)
    ensures
        !snapshot.relations.contains_key(relation) ==> full_capabilities(snapshot, relation)
            == Err::<CapabilitiesView, FaultView>(FaultView::UnknownRelation(relation)),
        snapshot.relations.contains_key(relation) ==> match full_capabilities(snapshot, relation) {
            Ok(_) => true,
            Err(fault) => match snapshot.derived {
                DerivedView::Evaluated(_) => false,
                DerivedView::Failed(cause) => fault == cause,
                DerivedView::Unevaluated => fault == FaultView::RulesUnevaluated(relation),
            },
        },
        snapshot.relations.contains_key(relation) && (snapshot.computes(relation) || !derives(
            snapshot.rules,
            relation,
        )) ==> full_capabilities(snapshot, relation) is Ok,
        snapshot.relations.contains_key(relation) && !snapshot.computes(relation) && derives(
            snapshot.rules,
            relation,
        ) ==> (full_capabilities(snapshot, relation) is Ok <==> snapshot.derived is Evaluated),
{
}

/// A relation that a transaction wrote to has no exact indexes, may have as many rows more as were
/// written, holds its values in an unknown way and is not exported in batches.
pub proof fn law_what_a_written_relation_can_do(base: CapabilitiesView, arity: u16, writes: nat, p: int)
    requires
        0 <= p < arity,
    ensures
        ({
            let found = overlay_capabilities(base, arity, writes);
            &&& found.source is TransactionOverlay
            &&& found.exact_indexes.len() == 0
            &&& found.value_domains.len() == arity
            &&& found.value_domains[p] == ValueDomain::Unknown
            &&& !found.supports_batch_export
            &&& found.supports_streaming == base.supports_streaming
            &&& found.cardinality is Some <==> base.cardinality is Some
            &&& base.cardinality is Some && base.cardinality->0 + writes <= usize::MAX
                ==> found.cardinality->0 == base.cardinality->0 + writes
        }),
{
}

proof fn lemma_missing(needed: Seq<u16>, bindings: Seq<Option<ValueView>>)
    ensures
        forall|position: u16| #[trigger]
            missing_positions(needed, bindings).contains(position) <==> needed.contains(position)
                && !is_bound(bindings, position),
    decreases needed.len(),
{
    reveal(Seq::filter);
    if needed.len() > 0 {
        let before = needed.drop_last();
        let last = needed.last();
        let found = missing_positions(before, bindings);
        lemma_missing(before, bindings);
        assert(missing_positions(needed, bindings) == if is_bound(bindings, last) {
            found
        } else {
            found.push(last)
        });
        assert forall|position: u16| #[trigger]
            needed.contains(position) <==> before.contains(position) || position == last by {
            if before.contains(position) {
                let i = choose|i: int| 0 <= i < before.len() && before[i] == position;
                assert(needed[i] == position);
            }
            if position == last {
                assert(needed[needed.len() - 1] == position);
            }
            if needed.contains(position) && position != last {
                let i = choose|i: int| 0 <= i < needed.len() && needed[i] == position;
                assert(before[i] == position);
            }
        }
        assert forall|position: u16| #[trigger]
            found.push(last).contains(position) <==> found.contains(position) || position == last by {
            let more = found.push(last);
            if found.contains(position) {
                let i = choose|i: int| 0 <= i < found.len() && found[i] == position;
                assert(more[i] == position);
            }
            if position == last {
                assert(more[more.len() - 1] == position);
            }
            if more.contains(position) && position != last {
                let i = choose|i: int| 0 <= i < more.len() && more[i] == position;
                assert(found[i] == position);
            }
        }
        assert forall|position: u16| #[trigger]
            missing_positions(needed, bindings).contains(position) <==> needed.contains(position)
                && !is_bound(bindings, position) by {
            assert(found.contains(position) <==> before.contains(position) && !is_bound(
                bindings,
                position,
            ));
            assert(needed.contains(position) <==> before.contains(position) || position == last);
        }
    }
}

/// A request to what computes a relation is refused for its number of bindings, or for the needed
/// columns that it leaves open: all of them, and no others.
pub proof fn law_what_a_computed_relation_asks_for(
    needed: Seq<u16>,
    metadata: MetadataView,
    bindings: Seq<Option<ValueView>>,
    position: u16,
)
    ensures
        bindings.len() != metadata.arity ==> request_fault(needed, metadata, bindings) == Some(
            FaultView::ArityMismatch(metadata.id, metadata.arity, bindings.len()),
        ),
        bindings.len() == metadata.arity && needed.contains(position) && !is_bound(bindings, position)
            ==> (request_fault(needed, metadata, bindings) matches Some(
            FaultView::MissingRequiredBindings(relation, missing),
        ) && relation == metadata.id && missing.contains(position)),
        request_fault(needed, metadata, bindings) matches Some(
            FaultView::MissingRequiredBindings(_, missing),
        ) ==> missing.len() > 0 && (missing.contains(position) ==> needed.contains(position)
            && !is_bound(bindings, position)),
        request_fault(needed, metadata, bindings) is None <==> bindings.len() == metadata.arity
            && forall|i: int| 0 <= i < needed.len() ==> is_bound(bindings, #[trigger] needed[i]),
{
    let missing = missing_positions(needed, bindings);
    lemma_missing(needed, bindings);
    assert forall|i: int| 0 <= i < needed.len() && !is_bound(bindings, #[trigger] needed[i]) implies
        missing.contains(needed[i]) by {
        assert(needed.contains(needed[i]));
    }
    if missing.len() > 0 {
        let p = missing[0];
        assert(missing.contains(p));
        let i = choose|i: int| 0 <= i < needed.len() && needed[i] == p;
        assert(!is_bound(bindings, needed[i]));
    }
    if needed.contains(position) && !is_bound(bindings, position) {
        let i = choose|i: int| 0 <= i < needed.len() && needed[i] == position;
        assert(missing.contains(needed[i]));
    }
}

/// What computes a relation is the first that wants it, whether it was looked for when the relation
/// was made or is looked for now, and making one relation changes nothing for another.
pub proof fn law_the_first_that_wants_a_relation_computes_it(
    registry: RegistryView,
    metadata: MetadataView,
    other: MetadataView,
    i: int,
)
    requires
        registry.relations.len() <= usize::MAX,
        !registry.bindings.contains_key(metadata.id),
        other.id != metadata.id,
        0 <= i < registry.relations.len(),
    ensures
        registry.bound(metadata).finds(metadata) == registry.finds(metadata),
        registry.bound(metadata).finds(other) == registry.finds(other),
        registry.bound(metadata).relations == registry.relations,
        registry.finds(metadata) == Some(i) <==> registry.relations[i].wants(metadata) && forall|j: int|
            0 <= j < i ==> !(#[trigger] registry.relations[j]).wants(metadata),
        registry.relations[i].wants(metadata) ==> registry.finds(metadata) is Some,
        registry.finds(metadata) matches Some(k) ==> 0 <= k < registry.relations.len(),
{
    let all = registry.relations;
    if first_wanting(all, metadata) is Some {
        let k = first_wanting(all, metadata)->0;
        assert(is_first_wanting(all, metadata, k));
        assert(k as usize as int == k);
        if is_first_wanting(all, metadata, i) && k != i {
            if k < i {
                assert(!all[k].wants(metadata));
            } else {
                assert(!all[i].wants(metadata));
            }
        }
    } else {
        assert(!is_first_wanting(all, metadata, i));
    }
    if all[i].wants(metadata) {
        lemma_first_exists(registry, metadata, i);
    }
}

proof fn lemma_first_exists(registry: RegistryView, metadata: MetadataView, i: int)
    requires
        0 <= i < registry.relations.len(),
        registry.relations[i].wants(metadata),
    ensures
        first_wanting(registry.relations, metadata) is Some,
    decreases i,
{
    let all = registry.relations;
    if exists|j: int| 0 <= j < i && (#[trigger] all[j]).wants(metadata) {
        let j = choose|j: int| 0 <= j < i && (#[trigger] all[j]).wants(metadata);
        lemma_first_exists(registry, metadata, j);
    } else {
        assert(is_first_wanting(all, metadata, i));
    }
}

/// Rows of two relations are joined end to end just where they agree at the given columns.
pub proof fn law_joined_rows_agree_where_they_meet(
    left: Set<Row>,
    right: Set<Row>,
    left_positions: Seq<u16>,
    right_positions: Seq<u16>,
    arity: nat,
    a: Row,
    b: Row,
)
    requires
        forall|row: Row| #[trigger] left.contains(row) ==> row.len() == arity,
        a.len() == arity,
        left_positions.len() == right_positions.len(),
    ensures
        joined_rows(left, right, left_positions, right_positions).contains(a + b) <==> left.contains(a)
            && right.contains(b) && forall|i: int| #![trigger left_positions[i]]
            0 <= i < left_positions.len() ==> a[left_positions[i] as int]
                == b[right_positions[i] as int],
{
    let all = joined_rows(left, right, left_positions, right_positions);
    let l = project(a, left_positions);
    let r = project(b, right_positions);
    if l == r {
        assert forall|i: int| #![trigger left_positions[i]] 0 <= i < left_positions.len() implies a[
            left_positions[i] as int
        ] == b[right_positions[i] as int] by {
            assert(l[i] == r[i]);
        }
    }
    if forall|i: int| #![trigger left_positions[i]]
        0 <= i < left_positions.len() ==> a[left_positions[i] as int]
            == b[right_positions[i] as int] {
        assert forall|i: int| 0 <= i < l.len() implies l[i] == r[i] by {
            assert(a[left_positions[i] as int] == b[right_positions[i] as int]);
        }
        assert(l =~= r);
    }
    if all.contains(a + b) {
        let (c, d) = choose|c: Row, d: Row|
            #![trigger left.contains(c), right.contains(d)]
            left.contains(c) && right.contains(d) && project(c, left_positions) == project(
                d,
                right_positions,
            ) && a + b == c + d;
        assert(c.len() == arity);
        assert((a + b).take(arity as int) =~= a);
        assert((c + d).take(arity as int) =~= c);
        assert((a + b).skip(arity as int) =~= b);
        assert((c + d).skip(arity as int) =~= d);
    }
}

/// What is joined is made of a row of each side.
pub proof fn law_what_is_joined_comes_from_both_sides(
    left: Set<Row>,
    right: Set<Row>,
    left_positions: Seq<u16>,
    right_positions: Seq<u16>,
    row: Row,
)
    requires
        joined_rows(left, right, left_positions, right_positions).contains(row),
    ensures
        exists|n: int|
            0 <= n <= row.len() && left.contains(#[trigger] row.take(n)) && right.contains(
                row.skip(n),
            ),
{
    let (a, b) = choose|a: Row, b: Row|
        #![trigger left.contains(a), right.contains(b)]
        left.contains(a) && right.contains(b) && project(a, left_positions) == project(
            b,
            right_positions,
        ) && row == a + b;
    let n = a.len() as int;
    assert(row.take(n) =~= a);
    assert(row.skip(n) =~= b);
}

/// A listing holds each row of its set once, each before the next.
pub proof fn law_a_listing_holds_each_row_once(listed: Seq<Row>, set: Set<Row>, row: Row, i: int, j: int)
    requires
        lists(listed, set),
        0 <= i < j < listed.len(),
    ensures
        listed.contains(row) <==> set.contains(row),
        row_less(listed[i], listed[j]),
        listed[i] != listed[j],
{
    assert(listed.to_set().contains(row) <==> listed.contains(row));
    lemma_row_order_total(listed[i], listed[j]);
}

/// A relation of which no more was said is durable, a set of rows, in order, with unnamed columns and
/// one index over all of them.
pub proof fn law_a_plain_relation_is_a_durable_set(id: u64, name: Seq<char>, arity: u16, p: u16)
    requires
        p < arity,
    ensures
        ({
            let made = plain_metadata(id, name, arity);
            &&& made.id == id && made.name == name && made.arity == arity
            &&& made.durability is Durable
            &&& made.conflict_policy is SetOfRows
            &&& made.argument_names.len() == arity && made.argument_names[p as int] is None
            &&& made.indexes.len() == 1 && made.indexes[0].len() == arity
            &&& made.indexes[0][p as int] == p
            &&& metadata_fault(made) is None
        }),
{
    let made = plain_metadata(id, name, arity);
    law_a_relation_has_the_columns_it_speaks_of(made);
    if exists|position: u16| #[trigger] stands_outside(made, position) {
        let position = choose|position: u16| #[trigger] stands_outside(made, position);
        let i = choose|i: int|
            0 <= i < made.indexes.len() && (#[trigger] made.indexes[i]).contains(position);
        let k = choose|k: int| 0 <= k < made.indexes[0].len() && made.indexes[0][k] == position;
        assert(made.indexes[0][k] == k as u16);
    }
}

/// The rules that count are the active ones.
pub proof fn law_only_active_rules_count(rules: Seq<DefinitionView>, rule: RuleView)
    ensures
        active_rule_views(rules).contains(rule) <==> exists|i: int|
            0 <= i < rules.len() && (#[trigger] rules[i]).active && rules[i].rule == rule,
    decreases rules.len(),
{
    reveal(Seq::filter);
    if rules.len() > 0 {
        let before = rules.drop_last();
        let last = rules.last();
        law_only_active_rules_count(before, rule);
        let found = active_rule_views(before);
        assert(active_rule_views(rules) =~= if last.active {
            found.push(last.rule)
        } else {
            found
        });
        assert(last == rules[rules.len() - 1]);
        if found.contains(rule) {
            let k = choose|k: int| 0 <= k < found.len() && found[k] == rule;
            assert(found.push(last.rule)[k] == rule);
            let i = choose|i: int|
                0 <= i < before.len() && (#[trigger] before[i]).active && before[i].rule == rule;
            assert(rules[i].active && rules[i].rule == rule);
        }
        if last.active && last.rule == rule {
            assert(found.push(last.rule)[found.len() as int] == rule);
        }
        if active_rule_views(rules).contains(rule) && !found.contains(rule) {
            let all = active_rule_views(rules);
            let k = choose|k: int| 0 <= k < all.len() && all[k] == rule;
            if k < found.len() {
                assert(found[k] == rule);
            }
        }
        if exists|i: int|
            0 <= i < rules.len() && (#[trigger] rules[i]).active && rules[i].rule == rule {
            let i = choose|i: int|
                0 <= i < rules.len() && (#[trigger] rules[i]).active && rules[i].rule == rule;
            if i < before.len() {
                assert(before[i].active && before[i].rule == rule);
            }
        }
    }
}

/// Only relations whose values are all held in place are exported in batches.
pub proof fn law_one_value_on_the_heap_stops_an_export(domains: Seq<ValueDomain>, i: int)
    requires
        0 <= i < domains.len(),
    ensures
        domains[i] != ValueDomain::Immediate ==> !all_immediate(domains),
        (forall|p: int| 0 <= p < domains.len() ==> (#[trigger] domains[p]) is Immediate)
            ==> all_immediate(domains),
{
}

/// A scan that went through handed out the rows that were asked for, each once and in order.
pub proof fn law_a_scan_hands_out_what_was_found(
    visible: Visible,
    relation: u64,
    bindings: Seq<Option<ValueView>>,
    result: Result<Vec<Tuple>, KernelError>,
    seen: Set<Row>,
    row: Row,
)
    requires
        visible == Visible::Stored(bindings.len() as u16, Ok::<Set<Row>, FaultView>(seen)),
        bindings.len() <= u16::MAX,
        row.len() == bindings.len(),
        answers(result, scanned(visible, relation, bindings)),
    ensures
        result matches Ok(found) && increasing(rows(found@)) && (rows(found@).contains(row)
            <==> seen.contains(row) && forall|i: int|
            0 <= i < row.len() ==> (#[trigger] bindings[i]) is None || bindings[i] == Some(row[i])),
{
    law_a_scan_finds_what_is_asked_for(visible, relation, bindings, row);
    let found = result->Ok_0;
    assert(rows(found@).to_set().contains(row) <==> rows(found@).contains(row));
}

/// Rules that failed leave their fault, and rules that were evaluated leave what they derived, where it
/// fits the relations.
pub proof fn law_what_becomes_of_evaluated_rules(
    relations: Map<u64, RelationView>,
    outcome: Result<Vec<(RelationId, Vec<Tuple>)>, KernelError>,
)
    ensures
        outcome matches Err(error) ==> derived_outcome(relations, outcome) == DerivedView::Failed(
            error@,
        ),
        outcome matches Ok(derived) ==> match derived_map(relations, derived_views(derived@)) {
            Ok(states) => derived_outcome(relations, outcome) == DerivedView::Evaluated(states),
            Err(fault) => derived_outcome(relations, outcome) == DerivedView::Failed(fault),
        },
{
}

/// A join fails for its left side first, then for its right, and otherwise gives the joined rows, each
/// once and in order.
pub proof fn law_a_join_fails_for_its_left_side_first(
    left: Result<Set<Row>, FaultView>,
    right: Result<Set<Row>, FaultView>,
    left_positions: Seq<u16>,
    right_positions: Seq<u16>,
    result: Result<Vec<Tuple>, KernelError>,
)
    requires
        joins(Some(left), Some(right), left_positions, right_positions, result),
    ensures
        match result {
            Err(error) => if left is Err {
                left->Err_0 == error@
            } else {
                right is Err && right->Err_0 == error@
            },
            Ok(found) => left is Ok && right is Ok && lists(
                rows(found@),
                joined_rows(left->Ok_0, right->Ok_0, left_positions, right_positions),
            ),
        },
{
}

/// A join of rows that were computed fails for its left side first. Rows that lack a joined column are
/// refused, and it is told whose they are.
pub proof fn law_computed_rows_reach_the_joined_columns(
    left_relation: u64,
    left: Seq<Row>,
    left_positions: Seq<u16>,
    right_relation: u64,
    right: Seq<Row>,
    right_positions: Seq<u16>,
    result: Result<Vec<Tuple>, KernelError>,
    i: int,
    k: int,
)
    requires
        joined_by(
            left_relation,
            Ok(left),
            left_positions,
            right_relation,
            Ok(right),
            right_positions,
            result,
        ),
        0 <= i < left.len(),
        0 <= k < left_positions.len(),
    ensures
        left_positions[k] >= left[i].len() ==> (result matches Err(error) && error@
            == FaultView::InvalidComputedRelation(left_relation, "computed row has too few values"@)),
        result matches Ok(found) ==> lists(
            rows(found@),
            joined_rows(left.to_set(), right.to_set(), left_positions, right_positions),
        ),
        result matches Err(error) ==> (error@ matches FaultView::InvalidComputedRelation(id, _) && (id
            == left_relation || id == right_relation)),
{
    if left_positions[k] >= left[i].len() {
        assert(!within(left_positions, left[i].len()));
    }
}

/// A computed relation is read through the first that wants it: a request that leaves out what this
/// needs is refused, and otherwise its answer is what is read, with the rows that rules derive where
/// active rules do.
pub proof fn law_a_computed_relation_is_read_through_its_source(
    snapshot: SnapshotView,
    shown: ShownView,
    relation: u64,
    derived: DerivedView,
    bindings: Seq<Option<ValueView>>,
    result: Result<Seq<Row>, FaultView>,
    k: int,
    row: Row,
)
    requires
        snapshot.may_read(shown, relation, derived, bindings, result),
        snapshot.computed.finds(snapshot.relations[relation].metadata) == Some(k),
    ensures
        ({
            let metadata = snapshot.relations[relation].metadata;
            let source = snapshot.computed.relations[k];
            let refused = request_fault(source.needs(metadata), metadata, bindings);
            &&& refused matches Some(fault) ==> result == Err::<Seq<Row>, FaultView>(fault)
            &&& refused is None && !derives(snapshot.rules, relation) ==> source.may_give(
                shown,
                metadata,
                bindings,
                result,
            )
            &&& refused is None && derives(snapshot.rules, relation) ==> exists|answer:
                Result<Seq<Row>, FaultView>| #[trigger]
                source.may_give(shown, metadata, bindings, answer) && match (answer, result) {
                    (Err(fault), _) => result == Err::<Seq<Row>, FaultView>(fault),
                    (Ok(found), Ok(all)) => derived matches DerivedView::Evaluated(states) && (
                    all.contains(row) <==> found.contains(row) || (states.contains_key(relation)
                        && states[relation].rows.contains(row) && row_matches(row, bindings))),
                    (Ok(_), Err(_)) => !(derived is Evaluated),
                }
        }),
{
    let metadata = snapshot.relations[relation].metadata;
    let source = snapshot.computed.relations[k];
    let answer = choose|answer: Result<Seq<Row>, FaultView>|
        {
            &&& #[trigger] snapshot.computed.may_give(shown, metadata, bindings, answer)
            &&& completes(
                answer,
                if derives(snapshot.rules, relation) {
                    Some(derived_rows(derived, relation))
                } else {
                    None
                },
                bindings,
                result,
            )
        };
    if request_fault(source.needs(metadata), metadata, bindings) is None {
        assert(source.may_give(shown, metadata, bindings, answer));
        if derives(snapshot.rules, relation) && answer is Ok && result is Ok {
            let all = result->Ok_0;
            let found = answer->Ok_0;
            assert(all.to_set().contains(row) <==> all.contains(row));
            assert(found.to_set().contains(row) <==> found.contains(row));
        }
    }
}

/// The index over all columns in their order is kept in the rows' own store, and every other in a
/// radix tree. Nothing is stored of a computed relation.
pub proof fn law_how_an_index_is_stored(snapshot: Snapshot, relation: u64, k: int)
    requires
        snapshot@.relations.contains_key(relation),
        0 <= k < snapshot@.relations[relation].metadata.indexes.len(),
    ensures
        ({
            let kinds = kinds_stored(snapshot);
            let metadata = snapshot@.relations[relation].metadata;
            let positions = metadata.indexes[k];
            let natural = positions.len() == metadata.arity && forall|i: int|
                0 <= i < positions.len() ==> #[trigger] positions[i] == i;
            &&& kinds.contains_key((relation, k)) <==> !snapshot@.computes(relation)
            &&& !snapshot@.computes(relation) && !natural ==> kinds[(relation, k)] == "radix"@
            &&& !snapshot@.computes(relation) && natural ==> kinds[(relation, k)]
                == if snapshot.is_radix(relation) {
                "radix"@
            } else {
                "btree"@
            }
            &&& !kinds.contains_key((relation, metadata.indexes.len() as int))
        }),
{
    let metadata = snapshot@.relations[relation].metadata;
    let positions = metadata.indexes[k];
    let whole = natural_positions(metadata.arity);
    if positions.len() == metadata.arity && forall|i: int|
        0 <= i < positions.len() ==> #[trigger] positions[i] == i {
        assert(positions =~= whole);
    }
    if positions == whole {
        assert forall|i: int| 0 <= i < positions.len() implies #[trigger] positions[i] == i by {
            assert(whole[i] == i as u16);
        }
    }
}

} // verus!
