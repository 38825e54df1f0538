//! A relation: its rows, and the indexes over them.

use crate::kernel::algebra::{equality_join_tuple_rows, finish_tuple_rows, joined_rows,
    lemma_to_set_push, lists, matching, of_arity, within, Row};
use crate::kernel::error::{step_view, FaultView, KernelError};
use crate::kernel::index::{agrees, leading_bound, TupleIndex};
use crate::kernel::metadata::{copy_positions, natural_positions, same_positions, ConflictPolicy,
    MetadataView, PolicyView, RelationMetadata};
use crate::kernel::store::{leads, TupleStore};
use crate::tuple::{increasing, project, row_less, row_matches, row_persistable, rows, Tuple};
use crate::value::{copy_value, copy_values, immediate, option_view, option_views, views, Identity,
    Symbol, Value, ValueView};
use vstd::prelude::*;

verus! {

/// The first position that is no column.
pub open spec fn first_outside(positions: Seq<u16>, arity: u16) -> Option<u16>
    decreases positions.len(),
{
    if positions.len() == 0 {
        None
    } else if positions[0] >= arity {
        Some(positions[0])
    } else {
        first_outside(positions.drop_first(), arity)
    }
}

/// The first position of the first index that is no column.
pub open spec fn first_bad_index(indexes: Seq<Seq<u16>>, arity: u16) -> Option<u16>
    decreases indexes.len(),
{
    if indexes.len() == 0 {
        None
    } else {
        match first_outside(indexes[0], arity) {
            Some(position) => Some(position),
            None => first_bad_index(indexes.drop_first(), arity),
        }
    }
}

/// What is wrong with a relation, if anything is.
pub open spec fn metadata_fault(metadata: MetadataView) -> Option<FaultView> {
    let bad = match first_bad_index(metadata.indexes, metadata.arity) {
        Some(position) => Some(position),
        None => match metadata.conflict_policy {
            PolicyView::Functional(key) => first_outside(key, metadata.arity),
            _ => None,
        },
    };
    match bad {
        Some(position) => Some(FaultView::InvalidIndex(metadata.id, position, metadata.arity)),
        None => None,
    }
}

fn find_outside(positions: &[u16], arity: u16) -> (bad: Option<u16>)
    ensures
        bad == first_outside(positions@, arity),
        bad is None ==> within(positions@, arity as nat),
{
    let ghost all = positions@;
    let mut i: usize = 0;
    assert(all.skip(0) =~= all);
    while i < positions.len()
        invariant
            i <= positions@.len(),
            all == positions@,
            first_outside(all, arity) == first_outside(all.skip(i as int), arity),
            forall|j: int| 0 <= j < i ==> (#[trigger] all[j]) < arity,
        decreases positions@.len() - i,
    {
        proof {
            assert(all.skip(i as int)[0] == all[i as int]);
            assert(all.skip(i as int).drop_first() =~= all.skip(i + 1));
        }
        if positions[i] >= arity {
            return Some(positions[i]);
        }
        i = i + 1;
    }
    None
}

proof fn lemma_inside(positions: Seq<u16>, arity: u16)
    requires
        first_outside(positions, arity) is None,
    ensures
        within(positions, arity as nat),
    decreases positions.len(),
{
    if positions.len() > 0 {
        lemma_inside(positions.drop_first(), arity);
        assert forall|i: int| 0 <= i < positions.len() implies (#[trigger] positions[i]) < arity by {
            if i > 0 {
                assert(positions.drop_first()[i - 1] == positions[i]);
            }
        }
    }
}

/// A relation in order has indexes over its own columns, and its key among them.
pub proof fn lemma_metadata_in_order(metadata: MetadataView)
    requires
        metadata_fault(metadata) is None,
    ensures
        forall|i: int|
            0 <= i < metadata.indexes.len() ==> within(
                #[trigger] metadata.indexes[i],
                metadata.arity as nat,
            ),
        metadata.conflict_policy matches PolicyView::Functional(key) ==> within(
            key,
            metadata.arity as nat,
        ),
{
    lemma_good_indexes(metadata.indexes, metadata.arity);
    if let PolicyView::Functional(key) = metadata.conflict_policy {
        lemma_inside(key, metadata.arity);
    }
}

proof fn lemma_good_indexes(indexes: Seq<Seq<u16>>, arity: u16)
    requires
        first_bad_index(indexes, arity) is None,
    ensures
        forall|i: int| 0 <= i < indexes.len() ==> within(#[trigger] indexes[i], arity as nat),
    decreases indexes.len(),
{
    if indexes.len() > 0 {
        lemma_inside(indexes[0], arity);
        lemma_good_indexes(indexes.drop_first(), arity);
        assert forall|i: int| 0 <= i < indexes.len() implies within(
            #[trigger] indexes[i],
            arity as nat,
        ) by {
            if i > 0 {
                assert(indexes.drop_first()[i - 1] == indexes[i]);
            }
        }
    }
}

/// Whether the indexes and the key of a relation are over its columns.
pub fn validate_metadata(metadata: &RelationMetadata) -> (result: Result<(), KernelError>)
    ensures
        step_view(result) == match metadata_fault(metadata@) {
            Some(fault) => Err::<(), _>(fault),
            None => Ok(()),
        },
{
    let arity: u16 = metadata.arity();
    let indexes = metadata.indexes();
    let ghost all = metadata@.indexes;
    let mut i: usize = 0;
    assert(all.skip(0) =~= all);
    while i < indexes.len()
        invariant
            i <= indexes@.len(),
            indexes@.len() == all.len(),
            arity == metadata@.arity,
            all == metadata@.indexes,
            forall|k: int| 0 <= k < indexes@.len() ==> (#[trigger] indexes@[k]).positions@ == all[k],
            first_bad_index(all, arity) == first_bad_index(all.skip(i as int), arity),
        decreases indexes@.len() - i,
    {
        proof {
            assert(all.skip(i as int)[0] == all[i as int]);
            assert(all.skip(i as int).drop_first() =~= all.skip(i + 1));
            assert(indexes@[i as int].positions@ == all[i as int]);
        }
        match find_outside(&indexes[i].positions, arity) {
            Some(position) => {
                return Err(KernelError::InvalidIndex { relation: metadata.id(), position, arity });
            },
            None => {},
        }
        i = i + 1;
    }
    match metadata.conflict_policy() {
        ConflictPolicy::Functional { key_positions } => match find_outside(key_positions, arity) {
            Some(position) => Err(
                KernelError::InvalidIndex { relation: metadata.id(), position, arity },
            ),
            None => Ok(()),
        },
        _ => Ok(()),
    }
}

/// Whether positions are all columns, from the left.
pub fn is_natural_full_tuple_positions(positions: &[u16], arity: u16) -> (result: bool)
    ensures
        result == (positions@ == natural_positions(arity)),
{
    if positions.len() != arity as usize {
        return false;
    }
    let mut i: usize = 0;
    while i < positions.len()
        invariant
            i <= positions@.len(),
            positions@.len() == arity,
            forall|j: int| 0 <= j < i ==> (#[trigger] positions@[j]) == j,
        decreases positions@.len() - i,
    {
        if positions[i] as usize != i {
            assert(positions@[i as int] != natural_positions(arity)[i as int]);
            return false;
        }
        i = i + 1;
    }
    assert(positions@ =~= natural_positions(arity));
    true
}

/// Whether an index is over all columns, from the left.
pub fn is_natural_full_tuple_index(positions: &[u16], arity: u16) -> (result: bool)
    ensures
        result == (positions@ == natural_positions(arity)),
{
    is_natural_full_tuple_positions(positions, arity)
}

/// How many columns are bound before the first that is not.
pub open spec fn leading_some(bindings: Seq<Option<ValueView>>) -> nat
    decreases bindings.len(),
{
    if bindings.len() == 0 || bindings[0] is None {
        0
    } else {
        1 + leading_some(bindings.drop_first())
    }
}

/// How many columns are bound before the first that is not.
pub fn natural_leading_bound_count(bindings: &[Option<Value>]) -> (count: usize)
    ensures
        count == leading_some(option_views(bindings@)),
        leads(option_views(bindings@), count as int),
{
    let ghost bound = option_views(bindings@);
    let mut i: usize = 0;
    assert(bound.skip(0) =~= bound);
    while i < bindings.len()
        invariant
            i <= bindings@.len(),
            bound == option_views(bindings@),
            leading_some(bound) == i + leading_some(bound.skip(i as int)),
            forall|j: int| 0 <= j < i ==> (#[trigger] bound[j]) is Some,
        decreases bindings@.len() - i,
    {
        proof {
            assert(bound[i as int] is Some == bindings@[i as int] is Some);
            assert(bound.skip(i as int)[0] == bound[i as int]);
            assert(bound.skip(i as int).drop_first() =~= bound.skip(i + 1));
        }
        if bindings[i].is_none() {
            return i;
        }
        i = i + 1;
    }
    i
}

/// Whether every column is bound.
pub open spec fn all_bound(bindings: Seq<Option<ValueView>>) -> bool {
    forall|i: int| 0 <= i < bindings.len() ==> (#[trigger] bindings[i]) is Some
}

/// The values of bindings where every column is bound.
pub open spec fn bound_row(bindings: Seq<Option<ValueView>>) -> Row {
    bindings.map_values(|binding: Option<ValueView>| binding->0)
}

/// The values of bindings, where every column is bound.
pub fn full_tuple_binding_values(bindings: &[Option<Value>]) -> (values: Option<Vec<Value>>)
    ensures
        values is Some == all_bound(option_views(bindings@)),
        values matches Some(found) ==> views(found@) == bound_row(option_views(bindings@)),
{
    let ghost bound = option_views(bindings@);
    let mut values: Vec<Value> = Vec::new();
    let mut i: usize = 0;
    while i < bindings.len()
        invariant
            i <= bindings@.len(),
            bound == option_views(bindings@),
            values@.len() == i,
            forall|j: int|
                0 <= j < i ==> (#[trigger] bound[j]) is Some && bound[j]->0 == values@[j]@,
        decreases bindings@.len() - i,
    {
        assert(bound[i as int] == option_view(bindings@[i as int]));
        match &bindings[i] {
            Some(value) => {
                values.push(copy_value(value));
            },
            None => {
                return None;
            },
        }
        i = i + 1;
    }
    assert(views(values@) =~= bound_row(bound));
    Some(values)
}

proof fn lemma_full_match(set: Set<Row>, bindings: Seq<Option<ValueView>>)
    requires
        all_bound(bindings),
        of_arity(set, bindings.len()),
    ensures
        matching(set, bindings) == set.intersect(set![bound_row(bindings)]),
{
    let row = bound_row(bindings);
    assert forall|r: Row| #[trigger] matching(set, bindings).contains(r) <==> set.intersect(
        set![row],
    ).contains(r) by {
        if set.contains(r) && row_matches(r, bindings) {
            assert forall|i: int| 0 <= i < r.len() implies r[i] == row[i] by {
                assert(bindings[i] is Some);
            }
            assert(r =~= row);
        }
        if set.contains(r) && r == row {
            assert(row_matches(r, bindings));
        }
    }
    assert(matching(set, bindings) =~= set.intersect(set![row]));
}

/// How a column's values are held.
#[derive(Clone, Copy, Debug, PartialEq, Eq, Structural)]
pub enum ValueDomain {
    Unknown,
    Immediate,
    Heap,
    Mixed,
}

/// The rows whose value in a column is not held in place.
pub open spec fn heap_rows(set: Set<Row>, position: int) -> Set<Row> {
    set.filter(|row: Row| !immediate(row[position]))
}

/// How the values of a column are held.
pub open spec fn domain_of(set: Set<Row>, position: int) -> ValueDomain {
    let heap = heap_rows(set, position).len();
    if heap == 0 {
        ValueDomain::Immediate
    } else if heap == set.len() {
        ValueDomain::Heap
    } else {
        ValueDomain::Mixed
    }
}

/// How a scan finds its rows.
#[derive(Clone, Copy, Debug, PartialEq, Eq, Structural)]
pub enum ScanAccess {
    /// It looks at every row.
    Everything,
    /// It goes by the first columns, as many as are bound.
    Store(usize),
    /// It goes by an index, as many of whose columns are bound.
    Index(usize, usize),
}

/// The index with the most leading columns bound, the last of several, and how many.
pub open spec fn best_index(
    columns: Seq<Seq<u16>>,
    bindings: Seq<Option<ValueView>>,
) -> Option<(int, nat)>
    decreases columns.len(),
{
    if columns.len() == 0 {
        None
    } else {
        let before = best_index(columns.drop_last(), bindings);
        let count = leading_bound(columns.last(), bindings);
        let better = match before {
            None => true,
            Some((_, most)) => count >= most,
        };
        if count > 0 && better {
            Some((columns.len() - 1, count))
        } else {
            before
        }
    }
}

/// How a scan finds its rows: by the index unless more of the first columns are bound.
pub open spec fn best_access(
    columns: Seq<Seq<u16>>,
    bindings: Seq<Option<ValueView>>,
) -> ScanAccess {
    let natural = leading_some(bindings);
    match best_index(columns, bindings) {
        None => if natural == 0 {
            ScanAccess::Everything
        } else {
            ScanAccess::Store(natural as usize)
        },
        Some((place, count)) => if natural > count {
            ScanAccess::Store(natural as usize)
        } else {
            ScanAccess::Index(place as usize, count as usize)
        },
    }
}

/// How many rows a scan will find.
#[derive(Clone, Copy, Debug, PartialEq, Eq, Structural)]
pub enum ScanEstimate {
    /// This many.
    Exactly(usize),
    /// Those of `rows` that agree in the first `bound` of `columns` columns.
    Spread { rows: usize, bound: usize, columns: usize },
}

/// About how many rows of a relation agree with bindings.
pub open spec fn estimated(relation: RelationView, bound: Seq<Option<ValueView>>) -> ScanEstimate {
    if all_bound(bound) {
        ScanEstimate::Exactly(
            if relation.rows.contains(bound_row(bound)) {
                1
            } else {
                0
            },
        )
    } else {
        match best_access(relation.extra_indexes(), bound) {
            ScanAccess::Everything => ScanEstimate::Exactly(relation.rows.len() as usize),
            ScanAccess::Store(count) => ScanEstimate::Spread {
                rows: relation.rows.len() as usize,
                bound: count,
                columns: bound.len() as usize,
            },
            ScanAccess::Index(place, count) => ScanEstimate::Exactly(
                relation.rows.filter(
                    |row: Row|
                        agrees(
                            row,
                            relation.extra_indexes()[place as int],
                            bound,
                            count as int,
                        ),
                ).len() as usize,
            ),
        }
    }
}

/// What happened to a row.
#[derive(Clone, Copy, Debug, PartialEq, Eq, Structural)]
pub enum RelationMutationKind {
    Assert,
    Retract,
}

/// A change to a row.
pub struct RowChange {
    pub row: Row,
    pub kind: RelationMutationKind,
}

/// The views of changes.
pub open spec fn change_rows(changes: Seq<(Tuple, RelationMutationKind)>) -> Seq<RowChange> {
    changes.map_values(
        |change: (Tuple, RelationMutationKind)| RowChange { row: change.0@, kind: change.1 },
    )
}

/// Whether a change has an effect: an asserted row is new, a retracted one was in the
/// rows at the start of the transaction and still is.
pub open spec fn takes_effect(set: Set<Row>, base: Set<Row>, change: RowChange) -> bool {
    match change.kind {
        RelationMutationKind::Assert => !set.contains(change.row),
        RelationMutationKind::Retract => base.contains(change.row) && set.contains(change.row),
    }
}

/// The rows after a change.
pub open spec fn changed(set: Set<Row>, base: Set<Row>, change: RowChange) -> Set<Row> {
    if !takes_effect(set, base, change) {
        set
    } else {
        match change.kind {
            RelationMutationKind::Assert => set.insert(change.row),
            RelationMutationKind::Retract => set.remove(change.row),
        }
    }
}

/// The rows after changes, and the changes that had an effect.
pub open spec fn changed_by_all(set: Set<Row>, base: Set<Row>, changes: Seq<RowChange>) -> (
    Set<Row>,
    Seq<RowChange>,
)
    decreases changes.len(),
{
    if changes.len() == 0 {
        (set, Seq::empty())
    } else {
        let (before, applied) = changed_by_all(set, base, changes.drop_last());
        (
            changed(before, base, changes.last()),
            if takes_effect(before, base, changes.last()) {
                applied.push(changes.last())
            } else {
                applied
            },
        )
    }
}

/// Whether a row is the first of a set with the given values at some positions.
pub open spec fn is_first_with(set: Set<Row>, positions: Seq<u16>, key: Row, row: Row) -> bool {
    &&& set.contains(row)
    &&& project(row, positions) == key
    &&& forall|other: Row| #[trigger]
        set.contains(other) && project(other, positions) == key ==> other == row || row_less(
            row,
            other,
        )
}

/// Whether a result is the first row with the given values at some positions, if there
/// is one.
pub open spec fn finds_first(
    set: Set<Row>,
    positions: Seq<u16>,
    key: Row,
    found: Option<Tuple>,
) -> bool {
    match found {
        Some(tuple) => is_first_with(set, positions, key, tuple@),
        None => forall|other: Row| #[trigger] set.contains(other) ==> project(other, positions) != key,
    }
}

struct Parts {
    metadata: RelationMetadata,
    tuples: TupleStore,
    indexes: Vec<TupleIndex>,
    non_immediate_counts: Vec<usize>,
}

/// A relation.
pub struct RelationState {
    parts: Parts,
}

/// A relation: what it is, and its rows.
pub struct RelationView {
    pub metadata: MetadataView,
    pub rows: Set<Row>,
}

impl RelationView {
    /// What holds of every relation.
    pub open spec fn wf(self) -> bool {
        &&& metadata_fault(self.metadata) is None
        &&& of_arity(self.rows, self.metadata.arity as nat)
        &&& self.rows.finite()
        &&& self.metadata.argument_names.len() == self.metadata.arity
    }

    /// The columns of the indexes that are kept beside the rows.
    pub open spec fn extra_indexes(self) -> Seq<Seq<u16>> {
        self.metadata.indexes.filter(
            |positions: Seq<u16>| positions != natural_positions(self.metadata.arity),
        )
    }

    /// What is said of bindings that do not fit the relation.
    pub open spec fn bindings_fault(self, bindings: Seq<Option<ValueView>>) -> Option<FaultView> {
        if bindings.len() != self.metadata.arity {
            Some(
                FaultView::ArityMismatch(
                    self.metadata.id,
                    self.metadata.arity,
                    bindings.len(),
                ),
            )
        } else {
            None
        }
    }

    /// What is wrong with a row, if anything is.
    pub open spec fn tuple_fault(self, row: Row) -> Option<FaultView> {
        if row.len() != self.metadata.arity {
            Some(FaultView::ArityMismatch(self.metadata.id, self.metadata.arity, row.len()))
        } else if !row_persistable(row) {
            Some(FaultView::NonPersistentValue(self.metadata.id, row))
        } else {
            None
        }
    }
}

spec fn columns_of(indexes: Seq<TupleIndex>) -> Seq<Seq<u16>> {
    indexes.map_values(|index: TupleIndex| index.columns())
}

spec fn all_hold(indexes: Seq<TupleIndex>, set: Set<Row>, arity: u16) -> bool {
    forall|i: int|
        0 <= i < indexes.len() ==> (#[trigger] indexes[i])@ == set && indexes[i].width() == arity
}

spec fn counted(counts: Seq<usize>, set: Set<Row>) -> bool {
    forall|p: int| 0 <= p < counts.len() ==> (#[trigger] counts[p]) == heap_rows(set, p).len()
}

spec fn parts_view(parts: Parts) -> RelationView {
    RelationView { metadata: parts.metadata@, rows: parts.tuples@ }
}

spec fn parts_wf(parts: Parts) -> bool {
    &&& parts_view(parts).wf()
    &&& columns_of(parts.indexes@) == parts_view(parts).extra_indexes()
    &&& all_hold(parts.indexes@, parts.tuples@, parts.metadata@.arity)
    &&& parts.non_immediate_counts@.len() == parts.metadata@.arity
    &&& counted(parts.non_immediate_counts@, parts.tuples@)
}

impl View for RelationState {
    type V = RelationView;

    closed spec fn view(&self) -> RelationView {
        parts_view(self.parts)
    }
}

impl RelationState {
    #[verifier::type_invariant]
    spec fn wf(self) -> bool {
        parts_wf(self.parts)
    }

    /// Whether the rows are kept in a tree.
    pub closed spec fn is_radix(self) -> bool {
        self.parts.tuples.is_radix()
    }

    /// A relation without rows.
    pub fn empty(metadata: RelationMetadata) -> (result: Result<RelationState, KernelError>)
        ensures
            match result {
                Ok(state) => {
                    &&& metadata_fault(metadata@) is None
                    &&& state@ == (RelationView { metadata: metadata@, rows: Set::empty() })
                    &&& !state.is_radix()
                },
                Err(error) => metadata_fault(metadata@) == Some(error@),
            },
    {
        match validate_metadata(&metadata) {
            Err(error) => {
                return Err(error);
            },
            Ok(()) => {},
        }
        let arity: u16 = metadata.arity();
        let specs = metadata.indexes();
        let ghost all = metadata@.indexes;
        let ghost wanted = |positions: Seq<u16>| positions != natural_positions(arity);
        let mut indexes: Vec<TupleIndex> = Vec::new();
        let mut i: usize = 0;
        proof {
            lemma_metadata_in_order(metadata@);
            reveal(Seq::filter);
            assert(all.take(0) =~= Seq::empty());
            assert(columns_of(indexes@) =~= all.take(0).filter(wanted));
        }
        while i < specs.len()
            invariant
                i <= specs@.len(),
                specs@.len() == all.len(),
                forall|k: int| 0 <= k < specs@.len() ==> (#[trigger] specs@[k]).positions@ == all[k],
                forall|k: int| 0 <= k < all.len() ==> within(#[trigger] all[k], arity as nat),
                wanted == (|positions: Seq<u16>| positions != natural_positions(arity)),
                columns_of(indexes@) == all.take(i as int).filter(wanted),
                all_hold(indexes@, Set::empty(), arity),
            decreases specs@.len() - i,
        {
            let ghost before = indexes@;
            proof {
                reveal(Seq::filter);
                assert(all.take(i + 1).drop_last() =~= all.take(i as int));
                assert(all.take(i + 1).last() == all[i as int]);
                assert(specs@[i as int].positions@ == all[i as int]);
                assert(within(all[i as int], arity as nat));
            }
            if !is_natural_full_tuple_index(&specs[i].positions, arity) {
                indexes.push(TupleIndex::empty(copy_positions(&specs[i].positions), arity));
                assert(columns_of(indexes@) =~= columns_of(before).push(all[i as int]));
            }
            i = i + 1;
        }
        assert(all.take(i as int) =~= all);
        let mut counts: Vec<usize> = Vec::new();
        let mut n: u16 = 0;
        while n < arity
            invariant
                n <= arity,
                counts@.len() == n,
                counted(counts@, Set::empty()),
            decreases arity - n,
        {
            counts.push(0);
            assert(heap_rows(Set::<Row>::empty(), n as int) =~= Set::<Row>::empty());
            n = n + 1;
        }
        let tuples = TupleStore::empty();
        Ok(RelationState { parts: Parts { metadata, tuples, indexes, non_immediate_counts: counts } })
    }

    /// A copy of the relation.
    pub fn snapshot(&self) -> (copy: RelationState)
        ensures
            copy@ == self@,
            copy.is_radix() == self.is_radix(),
    {
        proof {
            use_type_invariant(self);
        }
        let mut indexes: Vec<TupleIndex> = Vec::new();
        let mut i: usize = 0;
        while i < self.parts.indexes.len()
            invariant
                i <= self.parts.indexes@.len(),
                indexes@.len() == i,
                forall|j: int|
                    0 <= j < i ==> (#[trigger] indexes@[j])@ == self.parts.indexes@[j]@
                        && indexes@[j].columns() == self.parts.indexes@[j].columns()
                        && indexes@[j].width() == self.parts.indexes@[j].width(),
            decreases self.parts.indexes@.len() - i,
        {
            indexes.push(self.parts.indexes[i].snapshot());
            i = i + 1;
        }
        let mut counts: Vec<usize> = Vec::new();
        let mut n: usize = 0;
        while n < self.parts.non_immediate_counts.len()
            invariant
                n <= self.parts.non_immediate_counts@.len(),
                counts@ == self.parts.non_immediate_counts@.take(n as int),
            decreases self.parts.non_immediate_counts@.len() - n,
        {
            counts.push(self.parts.non_immediate_counts[n]);
            n = n + 1;
            assert(counts@ =~= self.parts.non_immediate_counts@.take(n as int));
        }
        proof {
            assert(counts@ =~= self.parts.non_immediate_counts@);
            assert(columns_of(indexes@) =~= columns_of(self.parts.indexes@));
            assert(all_hold(indexes@, self.parts.tuples@, self.parts.metadata@.arity)) by {
                assert forall|j: int| 0 <= j < indexes@.len() implies (#[trigger] indexes@[j])@
                    == self.parts.tuples@ && indexes@[j].width() == self.parts.metadata@.arity by {
                    assert(self.parts.indexes@[j]@ == self.parts.tuples@);
                }
            }
        }
        RelationState {
            parts: Parts {
                metadata: self.parts.metadata.clone(),
                tuples: self.parts.tuples.snapshot(),
                indexes,
                non_immediate_counts: counts,
            },
        }
    }

    /// What the relation is.
    pub fn metadata(&self) -> (metadata: &RelationMetadata)
        ensures
            metadata@ == self@.metadata,
            self@.wf(),
    {
        proof {
            use_type_invariant(self);
        }
        &self.parts.metadata
    }

    /// How an index is kept: one over all columns as the rows are, others in trees.
    pub fn index_storage_kind(&self, ordinal: usize) -> (kind: Option<&'static str>)
        ensures
            kind is Some == (ordinal < self@.metadata.indexes.len()),
            kind matches Some(name) ==> name@ == if self@.metadata.indexes[ordinal as int]
                == natural_positions(self@.metadata.arity) && !self.is_radix() {
                "btree"@
            } else {
                "radix"@
            },
    {
        let indexes = self.parts.metadata.indexes();
        if ordinal >= indexes.len() {
            return None;
        }
        assert(indexes@[ordinal as int].positions@ == self@.metadata.indexes[ordinal as int]);
        if is_natural_full_tuple_index(&indexes[ordinal].positions, self.parts.metadata.arity()) {
            Some(self.parts.tuples.storage_kind())
        } else {
            Some("radix")
        }
    }

    /// The number of rows.
    pub fn cardinality(&self) -> (count: usize)
        ensures
            count == self@.rows.len(),
    {
        self.parts.tuples.len()
    }

    /// Whether there are no rows.
    pub fn is_empty(&self) -> (result: bool)
        ensures
            result == (self@.rows == Set::<Row>::empty()),
    {
        self.parts.tuples.is_empty()
    }

    /// How the values of each column are held.
    pub fn value_domains(&self) -> (domains: Vec<ValueDomain>)
        ensures
            domains@ == Seq::new(
                self@.metadata.arity as nat,
                |p: int| domain_of(self@.rows, p),
            ),
    {
        proof {
            use_type_invariant(self);
        }
        let total: usize = self.cardinality();
        let mut domains: Vec<ValueDomain> = Vec::new();
        let mut i: usize = 0;
        while i < self.parts.non_immediate_counts.len()
            invariant
                i <= self.parts.non_immediate_counts@.len(),
                total == self.parts.tuples@.len(),
                counted(self.parts.non_immediate_counts@, self.parts.tuples@),
                domains@.len() == i,
                forall|p: int| 0 <= p < i ==> (#[trigger] domains@[p]) == domain_of(self.parts.tuples@, p),
            decreases self.parts.non_immediate_counts@.len() - i,
        {
            let heap: usize = self.parts.non_immediate_counts[i];
            assert(heap == heap_rows(self.parts.tuples@, i as int).len());
            domains.push(
                if heap == 0 {
                    ValueDomain::Immediate
                } else if heap == total {
                    ValueDomain::Heap
                } else {
                    ValueDomain::Mixed
                },
            );
            i = i + 1;
        }
        assert(domains@ =~= Seq::new(
            self@.metadata.arity as nat,
            |p: int| domain_of(self@.rows, p),
        ));
        domains
    }

    /// Whether a row is there.
    pub fn contains_tuple(&self, tuple: &Tuple) -> (result: bool)
        ensures
            result == self@.rows.contains(tuple@),
    {
        self.parts.tuples.contains(tuple)
    }

    /// Whether a row fits the relation and may be stored.
    pub fn validate_tuple(&self, tuple: &Tuple) -> (result: Result<(), KernelError>)
        ensures
            step_view(result) == match self@.tuple_fault(tuple@) {
                Some(fault) => Err::<(), _>(fault),
                None => Ok(()),
            },
    {
        if self.parts.metadata.arity() as usize != tuple.arity() {
            return Err(
                KernelError::ArityMismatch {
                    relation: self.parts.metadata.id(),
                    expected: self.parts.metadata.arity(),
                    actual: tuple.arity(),
                },
            );
        }
        if !tuple.is_persistable() {
            return Err(
                KernelError::NonPersistentValue {
                    relation: self.parts.metadata.id(),
                    tuple: tuple.clone(),
                },
            );
        }
        Ok(())
    }

    /// Whether there is a binding for each column.
    pub fn validate_bindings(&self, bindings: &[Option<Value>]) -> (result: Result<
        (),
        KernelError,
    >)
        ensures
            step_view(result) == match self@.bindings_fault(option_views(bindings@)) {
                Some(fault) => Err::<(), _>(fault),
                None => Ok(()),
            },
    {
        if bindings.len() != self.parts.metadata.arity() as usize {
            return Err(
                KernelError::ArityMismatch {
                    relation: self.parts.metadata.id(),
                    expected: self.parts.metadata.arity(),
                    actual: bindings.len(),
                },
            );
        }
        Ok(())
    }

    /// How a scan finds its rows.
    pub fn best_access(&self, bindings: &[Option<Value>]) -> (access: ScanAccess)
        ensures
            access == best_access(self@.extra_indexes(), option_views(bindings@)),
            access matches ScanAccess::Store(count) ==> leads(
                option_views(bindings@),
                count as int,
            ) && count > 0,
            access matches ScanAccess::Index(place, count) ==> place < self@.extra_indexes().len()
                && count == leading_bound(
                self@.extra_indexes()[place as int],
                option_views(bindings@),
            ),
    {
        proof {
            use_type_invariant(self);
        }
        let ghost bound = option_views(bindings@);
        let ghost columns = columns_of(self.parts.indexes@);
        let natural: usize = natural_leading_bound_count(bindings);
        let mut best: Option<(usize, usize)> = None;
        let mut i: usize = 0;
        assert(columns.take(0) =~= Seq::empty());
        while i < self.parts.indexes.len()
            invariant
                i <= self.parts.indexes@.len(),
                columns == columns_of(self.parts.indexes@),
                bound == option_views(bindings@),
                match best_index(columns.take(i as int), bound) {
                    None => best is None,
                    Some((place, count)) => best matches Some((p, c)) && p == place && c == count
                        && p < i && c == leading_bound(columns[p as int], bound),
                },
            decreases self.parts.indexes@.len() - i,
        {
            proof {
                assert(columns.take(i + 1).drop_last() =~= columns.take(i as int));
                assert(columns.take(i + 1).last() == self.parts.indexes@[i as int].columns());
                assert(columns[i as int] == self.parts.indexes@[i as int].columns());
            }
            let count: usize = self.parts.indexes[i].leading_bound_count(bindings);
            let better: bool = match best {
                None => true,
                Some((_, most)) => count >= most,
            };
            if count > 0 && better {
                best = Some((i, count));
            }
            i = i + 1;
        }
        assert(columns.take(i as int) =~= columns);
        match best {
            None => if natural == 0 {
                ScanAccess::Everything
            } else {
                ScanAccess::Store(natural)
            },
            Some((place, count)) => if natural > count {
                ScanAccess::Store(natural)
            } else {
                ScanAccess::Index(place, count)
            },
        }
    }

    /// How many rows a scan will find, as far as that is told without a scan.
    pub fn estimate_scan_count(&self, bindings: &[Option<Value>]) -> (result: Result<
        ScanEstimate,
        KernelError,
    >)
        ensures
            match result {
                Err(error) => self@.bindings_fault(option_views(bindings@)) == Some(error@),
                Ok(estimate) => {
                    let bound = option_views(bindings@);
                    &&& self@.bindings_fault(bound) is None
                    &&& estimate == estimated(self@, bound)
                },
            },
    {
        match self.validate_bindings(bindings) {
            Err(error) => {
                return Err(error);
            },
            Ok(()) => {},
        }
        match full_tuple_binding_values(bindings) {
            Some(values) => {
                let found: bool = self.parts.tuples.tuple_for_values(&values).is_some();
                return Ok(
                    ScanEstimate::Exactly(
                        if found {
                            1
                        } else {
                            0
                        },
                    ),
                );
            },
            None => {},
        }
        match self.best_access(bindings) {
            ScanAccess::Everything => Ok(ScanEstimate::Exactly(self.cardinality())),
            ScanAccess::Store(count) => Ok(
                ScanEstimate::Spread {
                    rows: self.cardinality(),
                    bound: count,
                    columns: bindings.len(),
                },
            ),
            ScanAccess::Index(place, count) => {
                proof {
                    use_type_invariant(self);
                    assert(columns_of(self.parts.indexes@)[place as int]
                        == self.parts.indexes@[place as int].columns());
                    assert(self.parts.indexes@[place as int]@ == self.parts.tuples@);
                }
                Ok(ScanEstimate::Exactly(self.parts.indexes[place].estimate_prefix_count(bindings, count)))
            },
        }
    }

    /// The rows that match bindings, in order.
    pub fn scan(&self, bindings: &[Option<Value>]) -> (result: Result<Vec<Tuple>, KernelError>)
        ensures
            match result {
                Err(error) => self@.bindings_fault(option_views(bindings@)) == Some(error@),
                Ok(found) => {
                    &&& self@.bindings_fault(option_views(bindings@)) is None
                    &&& lists(rows(found@), matching(self@.rows, option_views(bindings@)))
                },
            },
    {
        proof {
            use_type_invariant(self);
        }
        let ghost bound = option_views(bindings@);
        match self.validate_bindings(bindings) {
            Err(error) => {
                return Err(error);
            },
            Ok(()) => {},
        }
        match full_tuple_binding_values(bindings) {
            Some(values) => {
                proof {
                    lemma_full_match(self@.rows, bound);
                }
                let mut found: Vec<Tuple> = Vec::new();
                match self.parts.tuples.tuple_for_values(&values) {
                    Some(tuple) => {
                        found.push(tuple);
                        assert(rows(found@)[0] == bound_row(bound));
                    },
                    None => {},
                }
                assert(rows(found@).to_set() =~= matching(self@.rows, bound)) by {
                    assert(self@.rows.contains(bound_row(bound)) ==> rows(found@).contains(
                        bound_row(bound),
                    ));
                }
                return Ok(found);
            },
            None => {},
        }
        match self.best_access(bindings) {
            ScanAccess::Everything => Ok(self.parts.tuples.matching(bindings)),
            ScanAccess::Store(count) => Ok(self.parts.tuples.scan_prefix(bindings, count)),
            ScanAccess::Index(place, count) => {
                proof {
                    assert(columns_of(self.parts.indexes@)[place as int]
                        == self.parts.indexes@[place as int].columns());
                    assert(self.parts.indexes@[place as int]@ == self.parts.tuples@);
                }
                Ok(self.parts.indexes[place].scan_prefix(bindings, count))
            },
        }
    }

    /// Whether some rows can be found by exactly the given columns.
    pub fn has_exact_index(&self, positions: &[u16]) -> (result: bool)
        ensures
            result == (positions@ == natural_positions(self@.metadata.arity)
                || self@.extra_indexes().contains(positions@)),
    {
        is_natural_full_tuple_positions(positions, self.parts.metadata.arity()) || self.has_extra_index(
            positions,
        )
    }

    fn has_extra_index(&self, positions: &[u16]) -> (result: bool)
        ensures
            result == self@.extra_indexes().contains(positions@),
    {
        proof {
            use_type_invariant(self);
        }
        let ghost columns = columns_of(self.parts.indexes@);
        let mut i: usize = 0;
        while i < self.parts.indexes.len()
            invariant
                i <= self.parts.indexes@.len(),
                columns == columns_of(self.parts.indexes@),
                columns == self@.extra_indexes(),
                forall|j: int| 0 <= j < i ==> (#[trigger] columns[j]) != positions@,
            decreases self.parts.indexes@.len() - i,
        {
            assert(columns[i as int] == self.parts.indexes@[i as int].columns());
            if same_positions(self.parts.indexes[i].positions(), positions) {
                return true;
            }
            i = i + 1;
        }
        false
    }

    /// Joins the rows of two relations that match bindings and agree at the given
    /// positions, where both can be found by exactly these.
    pub fn join_eq(
        &self,
        left_bindings: &[Option<Value>],
        left_positions: &[u16],
        right: &RelationState,
        right_bindings: &[Option<Value>],
        right_positions: &[u16],
    ) -> (result: Result<Option<Vec<Tuple>>, KernelError>)
        ensures
            ({
                let lb = option_views(left_bindings@);
                let rb = option_views(right_bindings@);
                let natural = left_positions@ == natural_positions(self@.metadata.arity)
                    && right_positions@ == natural_positions(right@.metadata.arity);
                let indexed = self@.extra_indexes().contains(left_positions@)
                    && right@.extra_indexes().contains(right_positions@);
                match result {
                    Err(error) => Some(error@) == match self@.bindings_fault(lb) {
                        Some(fault) => Some(fault),
                        None => right@.bindings_fault(rb),
                    },
                    Ok(joined) => {
                        &&& self@.bindings_fault(lb) is None
                        &&& right@.bindings_fault(rb) is None
                        &&& joined is Some == (natural || indexed)
                        &&& joined matches Some(found) ==> lists(
                            rows(found@),
                            joined_rows(
                                matching(self@.rows, lb),
                                matching(right@.rows, rb),
                                left_positions@,
                                right_positions@,
                            ),
                        )
                    },
                }
            }),
    {
        let ghost lb = option_views(left_bindings@);
        let ghost rb = option_views(right_bindings@);
        match self.validate_bindings(left_bindings) {
            Err(error) => {
                return Err(error);
            },
            Ok(()) => {},
        }
        match right.validate_bindings(right_bindings) {
            Err(error) => {
                return Err(error);
            },
            Ok(()) => {},
        }
        if is_natural_full_tuple_positions(left_positions, self.parts.metadata.arity())
            && is_natural_full_tuple_positions(right_positions, right.parts.metadata.arity()) {
            return Ok(Some(self.natural_full_tuple_join(left_bindings, right, right_bindings)));
        }
        if !self.has_extra_index(left_positions) || !right.has_extra_index(right_positions) {
            return Ok(None);
        }
        let left_rows = match self.scan(left_bindings) {
            Ok(found) => found,
            Err(error) => {
                return Err(error);
            },
        };
        let right_rows = match right.scan(right_bindings) {
            Ok(found) => found,
            Err(error) => {
                return Err(error);
            },
        };
        proof {
            use_type_invariant(self);
            use_type_invariant(right);
            lemma_extra_within(self@, left_positions@);
            lemma_extra_within(right@, right_positions@);
            assert forall|i: int| 0 <= i < left_rows@.len() implies within(
                left_positions@,
                (#[trigger] left_rows@[i])@.len(),
            ) by {
                assert(rows(left_rows@).to_set().contains(rows(left_rows@)[i]));
            }
            assert forall|i: int| 0 <= i < right_rows@.len() implies within(
                right_positions@,
                (#[trigger] right_rows@[i])@.len(),
            ) by {
                assert(rows(right_rows@).to_set().contains(rows(right_rows@)[i]));
            }
        }
        Ok(
            Some(
                equality_join_tuple_rows(
                    &left_rows,
                    &right_rows,
                    left_positions,
                    right_positions,
                ),
            ),
        )
    }

    fn natural_full_tuple_join(
        &self,
        left_bindings: &[Option<Value>],
        right: &RelationState,
        right_bindings: &[Option<Value>],
    ) -> (joined: Vec<Tuple>)
        ensures
            lists(
                rows(joined@),
                joined_rows(
                    matching(self@.rows, option_views(left_bindings@)),
                    matching(right@.rows, option_views(right_bindings@)),
                    natural_positions(self@.metadata.arity),
                    natural_positions(right@.metadata.arity),
                ),
            ),
    {
        proof {
            use_type_invariant(self);
            use_type_invariant(right);
        }
        let ghost l = matching(self@.rows, option_views(left_bindings@));
        let ghost r = matching(right@.rows, option_views(right_bindings@));
        let ghost lp = natural_positions(self@.metadata.arity);
        let ghost rp = natural_positions(right@.metadata.arity);
        let pairs = self.parts.tuples.matching_row_pairs(&right.parts.tuples);
        let mut joined: Vec<Tuple> = Vec::new();
        let mut i: usize = 0;
        while i < pairs.len()
            invariant
                i <= pairs@.len(),
                l == matching(self@.rows, option_views(left_bindings@)),
                r == matching(right@.rows, option_views(right_bindings@)),
                lp == natural_positions(self@.metadata.arity),
                rp == natural_positions(right@.metadata.arity),
                of_arity(self@.rows, self@.metadata.arity as nat),
                of_arity(right@.rows, right@.metadata.arity as nat),
                forall|k: int|
                    0 <= k < pairs@.len() ==> (#[trigger] pairs@[k]).0@ == pairs@[k].1@
                        && self@.rows.contains(pairs@[k].0@) && right@.rows.contains(pairs@[k].0@),
                forall|k: int|
                    0 <= k < joined@.len() ==> joined_rows(l, r, lp, rp).contains(
                        (#[trigger] joined@[k])@,
                    ),
                forall|k: int|
                    0 <= k < i && l.contains((#[trigger] pairs@[k]).0@) && r.contains(pairs@[k].0@)
                        ==> rows(joined@).contains(pairs@[k].0@ + pairs@[k].0@),
            decreases pairs@.len() - i,
        {
            let ghost before = rows(joined@);
            let ghost row = pairs@[i as int].0@;
            assert(pairs@[i as int].1@ == row);
            if pairs[i].0.matches_bindings(left_bindings) && pairs[i].1.matches_bindings(
                right_bindings,
            ) {
                joined.push(pairs[i].0.concat(&pairs[i].1));
                proof {
                    assert(rows(joined@) =~= before.push(row + row));
                    lemma_to_set_push(before, row + row);
                    assert(l.contains(row) && r.contains(row));
                    lemma_natural_project(row, self@.metadata.arity);
                    lemma_natural_project(row, right@.metadata.arity);
                    assert(joined_rows(l, r, lp, rp).contains(row + row));
                    assert(rows(joined@)[joined@.len() - 1] == row + row);
                    assert forall|k: int|
                        0 <= k < i && l.contains((#[trigger] pairs@[k]).0@) && r.contains(
                            pairs@[k].0@,
                        ) implies rows(joined@).contains(pairs@[k].0@ + pairs@[k].0@) by {
                        assert(before.contains(pairs@[k].0@ + pairs@[k].0@));
                        assert(rows(joined@).to_set().contains(pairs@[k].0@ + pairs@[k].0@));
                    }
                }
            }
            i = i + 1;
        }
        proof {
            let want = joined_rows(l, r, lp, rp);
            let have = rows(joined@);
            assert forall|row: Row| #[trigger] have.to_set().contains(row) <==> want.contains(row) by {
                if have.contains(row) {
                    let k = choose|k: int| 0 <= k < have.len() && have[k] == row;
                    assert(joined@[k]@ == row);
                }
                if want.contains(row) {
                    let (a, b) = choose|a: Row, b: Row|
                        #![trigger l.contains(a), r.contains(b)]
                        l.contains(a) && r.contains(b) && project(a, lp) == project(b, rp) && row
                            == a + b;
                    lemma_natural_project(a, self@.metadata.arity);
                    lemma_natural_project(b, right@.metadata.arity);
                    assert(a == b);
                    assert(self.parts.tuples@.contains(a) && right.parts.tuples@.contains(a));
                    let k = choose|k: int| 0 <= k < pairs@.len() && (#[trigger] pairs@[k]).0@ == a;
                    assert(have.contains(pairs@[k].0@ + pairs@[k].0@));
                }
            }
            assert(have.to_set() =~= want);
        }
        finish_tuple_rows(joined)
    }
}

proof fn lemma_natural_project(row: Row, arity: u16)
    requires
        row.len() == arity,
    ensures
        project(row, natural_positions(arity)) == row,
{
    assert(project(row, natural_positions(arity)) =~= row);
}

proof fn lemma_extra_within(relation: RelationView, positions: Seq<u16>)
    requires
        relation.wf(),
        relation.extra_indexes().contains(positions),
    ensures
        within(positions, relation.metadata.arity as nat),
{
    lemma_metadata_in_order(relation.metadata);
    relation.metadata.indexes.lemma_filter_contains_rev(
        |p: Seq<u16>| p != natural_positions(relation.metadata.arity),
        positions,
    );
    let k = choose|k: int|
        0 <= k < relation.metadata.indexes.len() && relation.metadata.indexes[k] == positions;
    assert(within(relation.metadata.indexes[k], relation.metadata.arity as nat));
}

proof fn lemma_heap_insert(set: Set<Row>, row: Row, position: int)
    requires
        set.finite(),
        !set.contains(row),
    ensures
        heap_rows(set.insert(row), position).len() == heap_rows(set, position).len() + if immediate(
            row[position],
        ) {
            0int
        } else {
            1int
        },
        heap_rows(set, position).len() <= set.len(),
{
    let before = heap_rows(set, position);
    set.lemma_len_filter(|r: Row| !immediate(r[position]));
    if immediate(row[position]) {
        assert(heap_rows(set.insert(row), position) =~= before);
    } else {
        assert(heap_rows(set.insert(row), position) =~= before.insert(row));
    }
}

proof fn lemma_heap_remove(set: Set<Row>, row: Row, position: int)
    requires
        set.finite(),
        set.contains(row),
    ensures
        heap_rows(set.remove(row), position).len() == heap_rows(set, position).len() - if immediate(
            row[position],
        ) {
            0int
        } else {
            1int
        },
{
    let rest = set.remove(row);
    lemma_heap_insert(rest, row, position);
    assert(rest.insert(row) =~= set);
}

/// Parts of a relation without columns and rows.
fn vacant(id: Identity) -> (parts: Parts)
    ensures
        parts_wf(parts),
{
    let metadata = RelationMetadata::new(id, Symbol::intern(""), 0).without_indexes();
    let _ = metadata.arity();
    let indexes: Vec<TupleIndex> = Vec::new();
    let parts = Parts {
        metadata,
        tuples: TupleStore::empty(),
        indexes,
        non_immediate_counts: Vec::new(),
    };
    proof {
        reveal(Seq::filter);
        assert(columns_of(indexes@) =~= parts_view(parts).extra_indexes());
    }
    parts
}

/// Notes how the values of a row that comes or goes are held.
fn record_value_domains(counts: &mut Vec<usize>, tuple: &Tuple, inserted: bool, Ghost(set): Ghost<
    Set<Row>,
>)
    requires
        tuple@.len() == old(counts)@.len(),
        set.finite(),
        set.len() < usize::MAX || !inserted,
        counted(old(counts)@, set),
        inserted == !set.contains(tuple@),
    ensures
        final(counts)@.len() == old(counts)@.len(),
        counted(
            final(counts)@,
            if inserted {
                set.insert(tuple@)
            } else {
                set.remove(tuple@)
            },
        ),
{
    let ghost after = if inserted {
        set.insert(tuple@)
    } else {
        set.remove(tuple@)
    };
    let ghost before = counts@;
    let mut i: usize = 0;
    while i < counts.len()
        invariant
            i <= counts@.len(),
            counts@.len() == before.len(),
            tuple@.len() == before.len(),
            set.finite(),
            set.len() < usize::MAX || !inserted,
            inserted == !set.contains(tuple@),
            counted(before, set),
            after == if inserted {
                set.insert(tuple@)
            } else {
                set.remove(tuple@)
            },
            forall|p: int| 0 <= p < i ==> (#[trigger] counts@[p]) == heap_rows(after, p).len(),
            forall|p: int| i <= p < counts@.len() ==> (#[trigger] counts@[p]) == before[p],
        decreases counts@.len() - i,
    {
        proof {
            assert(before[i as int] == heap_rows(set, i as int).len());
            if inserted {
                lemma_heap_insert(set, tuple@, i as int);
            } else {
                lemma_heap_remove(set, tuple@, i as int);
            }
        }
        assert(tuple@[i as int] == tuple@[i as int]);
        let values = tuple.values();
        if !values[i].is_immediate() {
            let count: usize = counts[i];
            if inserted {
                counts.set(i, count + 1);
            } else {
                counts.set(i, count.saturating_sub(1));
            }
        }
        i = i + 1;
    }
}

impl RelationState {
    /// Adds a row, and says whether it is new.
    pub fn insert(&mut self, tuple: Tuple) -> (inserted: bool)
        requires
            tuple@.len() == old(self)@.metadata.arity,
            old(self)@.rows.len() < usize::MAX,
        ensures
            inserted == !old(self)@.rows.contains(tuple@),
            final(self)@ == (RelationView {
                rows: old(self)@.rows.insert(tuple@),
                ..old(self)@
            }),
    {
        let mut parts = vacant(self.parts.metadata.id());
        proof {
            use_type_invariant(&*self);
        }
        std::mem::swap(&mut parts, &mut self.parts);
        let ghost set = parts.tuples@;
        let ghost row = tuple@;
        let ghost arity = parts.metadata@.arity;
        if !parts.tuples.insert(tuple.clone()) {
            proof {
                assert(set.insert(row) =~= set);
            }
            self.parts = parts;
            return false;
        }
        insert_everywhere(&mut parts.indexes, &tuple, Ghost(set), Ghost(arity));
        record_value_domains(&mut parts.non_immediate_counts, &tuple, true, Ghost(set));
        self.parts = parts;
        true
    }

    /// Takes a row out, and says whether it was there.
    pub fn remove(&mut self, tuple: &Tuple) -> (removed: bool)
        ensures
            removed == old(self)@.rows.contains(tuple@),
            final(self)@ == (RelationView {
                rows: old(self)@.rows.remove(tuple@),
                ..old(self)@
            }),
    {
        let mut parts = vacant(self.parts.metadata.id());
        proof {
            use_type_invariant(&*self);
        }
        std::mem::swap(&mut parts, &mut self.parts);
        let ghost set = parts.tuples@;
        let ghost row = tuple@;
        let ghost arity = parts.metadata@.arity;
        if !parts.tuples.remove(tuple) {
            proof {
                assert(set.remove(row) =~= set);
            }
            self.parts = parts;
            return false;
        }
        remove_everywhere(&mut parts.indexes, tuple, Ghost(set), Ghost(arity));
        record_value_domains(&mut parts.non_immediate_counts, tuple, false, Ghost(set));
        self.parts = parts;
        true
    }
}

fn insert_everywhere(
    indexes: &mut Vec<TupleIndex>,
    tuple: &Tuple,
    Ghost(set): Ghost<Set<Row>>,
    Ghost(arity): Ghost<u16>,
)
    requires
        all_hold(old(indexes)@, set, arity),
        tuple@.len() == arity,
    ensures
        all_hold(final(indexes)@, set.insert(tuple@), arity),
        columns_of(final(indexes)@) == columns_of(old(indexes)@),
{
    let ghost before = indexes@;
    let mut done: Vec<TupleIndex> = Vec::new();
    let mut rest: Vec<TupleIndex> = Vec::new();
    std::mem::swap(&mut rest, indexes);
    let len: usize = rest.len();
    let mut i: usize = 0;
    assert(rest@ =~= before.skip(0));
    while i < len
        invariant
            i <= len == before.len(),
            rest@ == before.skip(i as int),
            all_hold(before, set, arity),
            tuple@.len() == arity,
            done@.len() == i,
            all_hold(done@, set.insert(tuple@), arity),
            forall|j: int| 0 <= j < i ==> (#[trigger] done@[j]).columns() == before[j].columns(),
        decreases len - i,
    {
        let mut index = rest.remove(0);
        assert(index == before[i as int]);
        index.insert(tuple.clone());
        done.push(index);
        i = i + 1;
        assert(rest@ =~= before.skip(i as int));
    }
    *indexes = done;
    assert(columns_of(indexes@) =~= columns_of(before));
}

fn remove_everywhere(
    indexes: &mut Vec<TupleIndex>,
    tuple: &Tuple,
    Ghost(set): Ghost<Set<Row>>,
    Ghost(arity): Ghost<u16>,
)
    requires
        all_hold(old(indexes)@, set, arity),
        tuple@.len() == arity,
    ensures
        all_hold(final(indexes)@, set.remove(tuple@), arity),
        columns_of(final(indexes)@) == columns_of(old(indexes)@),
{
    let ghost before = indexes@;
    let mut done: Vec<TupleIndex> = Vec::new();
    let mut rest: Vec<TupleIndex> = Vec::new();
    std::mem::swap(&mut rest, indexes);
    let len: usize = rest.len();
    let mut i: usize = 0;
    assert(rest@ =~= before.skip(0));
    while i < len
        invariant
            i <= len == before.len(),
            rest@ == before.skip(i as int),
            all_hold(before, set, arity),
            tuple@.len() == arity,
            done@.len() == i,
            all_hold(done@, set.remove(tuple@), arity),
            forall|j: int| 0 <= j < i ==> (#[trigger] done@[j]).columns() == before[j].columns(),
        decreases len - i,
    {
        let mut index = rest.remove(0);
        assert(index == before[i as int]);
        index.remove(tuple);
        done.push(index);
        i = i + 1;
        assert(rest@ =~= before.skip(i as int));
    }
    *indexes = done;
    assert(columns_of(indexes@) =~= columns_of(before));
}

/// How many rows there are at most after changes.
proof fn lemma_changed_len(set: Set<Row>, base: Set<Row>, changes: Seq<RowChange>)
    requires
        set.finite(),
    ensures
        changed_by_all(set, base, changes).0.finite(),
        changed_by_all(set, base, changes).0.len() <= set.len() + changes.len(),
    decreases changes.len(),
{
    if changes.len() > 0 {
        lemma_changed_len(set, base, changes.drop_last());
    }
}

impl RelationState {
    /// Applies changes in order, and hands back those that had an effect.
    pub fn apply_ordered_changes(
        &mut self,
        changes: &[(Tuple, RelationMutationKind)],
        base: &RelationState,
    ) -> (applied: Vec<(Tuple, RelationMutationKind)>)
        requires
            forall|i: int|
                0 <= i < changes@.len() ==> (#[trigger] changes@[i]).0@.len()
                    == old(self)@.metadata.arity,
            old(self)@.rows.len() + changes@.len() <= usize::MAX,
        ensures
            ({
                let (after, effects) = changed_by_all(
                    old(self)@.rows,
                    base@.rows,
                    change_rows(changes@),
                );
                &&& final(self)@ == (RelationView { rows: after, ..old(self)@ })
                &&& change_rows(applied@) == effects
            }),
    {
        let _ = self.metadata();
        let ghost start = self@;
        let ghost all = change_rows(changes@);
        let mut applied: Vec<(Tuple, RelationMutationKind)> = Vec::new();
        let mut i: usize = 0;
        proof {
            assert(all.take(0) =~= Seq::empty());
            assert(change_rows(applied@) =~= Seq::empty());
        }
        while i < changes.len()
            invariant
                i <= changes@.len(),
                all == change_rows(changes@),
                start.rows.finite(),
                start.rows.len() + changes@.len() <= usize::MAX,
                forall|k: int|
                    0 <= k < changes@.len() ==> (#[trigger] changes@[k]).0@.len()
                        == start.metadata.arity,
                self@ == (RelationView {
                    rows: changed_by_all(start.rows, base@.rows, all.take(i as int)).0,
                    ..start
                }),
                change_rows(applied@) == changed_by_all(
                    start.rows,
                    base@.rows,
                    all.take(i as int),
                ).1,
            decreases changes@.len() - i,
        {
            let ghost before = self@.rows;
            let ghost so_far = applied@;
            let ghost change = all[i as int];
            proof {
                assert(all.take(i + 1).drop_last() =~= all.take(i as int));
                assert(all.take(i + 1).last() == change);
                lemma_changed_len(start.rows, base@.rows, all.take(i as int));
                assert(change == (RowChange { row: changes@[i as int].0@, kind: changes@[i as int].1 }));
            }
            let effect: bool = match changes[i].1 {
                RelationMutationKind::Assert => self.insert(changes[i].0.clone()),
                RelationMutationKind::Retract => base.contains_tuple(&changes[i].0) && self.remove(
                    &changes[i].0,
                ),
            };
            proof {
                assert(effect == takes_effect(before, base@.rows, change));
                assert(self@.rows =~= changed(before, base@.rows, change));
            }
            if effect {
                applied.push((changes[i].0.clone(), changes[i].1));
                assert(change_rows(applied@) =~= change_rows(so_far).push(change));
            }
            i = i + 1;
        }
        assert(all.take(i as int) =~= all);
        applied
    }

    /// Fills an empty relation with rows.
    pub fn apply_ordered_asserts_to_empty(&mut self, tuples: &[Tuple])
        requires
            forall|i: int|
                0 <= i < tuples@.len() ==> (#[trigger] tuples@[i])@.len()
                    == old(self)@.metadata.arity,
            old(self)@.rows == Set::<Row>::empty(),
        ensures
            final(self)@ == (RelationView { rows: rows(tuples@).to_set(), ..old(self)@ }),
    {
        let ghost all = rows(tuples@);
        let mut i: usize = 0;
        proof {
            assert(all.take(0).to_set() =~= Set::empty());
            all.take(0).lemma_cardinality_of_set();
        }
        while i < tuples.len()
            invariant
                i <= tuples@.len(),
                all == rows(tuples@),
                forall|k: int|
                    0 <= k < tuples@.len() ==> (#[trigger] tuples@[k])@.len()
                        == self@.metadata.arity,
                self@ == (RelationView { rows: all.take(i as int).to_set(), ..old(self)@ }),
            decreases tuples@.len() - i,
        {
            proof {
                all.take(i as int).lemma_cardinality_of_set();
                assert(all.take(i + 1) =~= all.take(i as int).push(all[i as int]));
                lemma_to_set_push(all.take(i as int), all[i as int]);
                assert(all[i as int] == tuples@[i as int]@);
            }
            let _ = self.insert(tuples[i].clone());
            i = i + 1;
        }
        assert(all.take(i as int) =~= all);
    }

    /// The first row that has the values of another at the given positions.
    pub fn tuple_for_key(&self, positions: &[u16], key_tuple: &Tuple) -> (found: Option<Tuple>)
        requires
            within(positions@, self@.metadata.arity as nat),
            key_tuple@.len() == self@.metadata.arity,
        ensures
            finds_first(self@.rows, positions@, project(key_tuple@, positions@), found),
    {
        let values = key_tuple.project(positions);
        self.tuple_for_projected_values(positions, &values)
    }

    /// The first row that has the given values at the given positions.
    pub fn tuple_for_projected_values(&self, positions: &[u16], key_values: &[Value]) -> (found:
        Option<Tuple>)
        requires
            within(positions@, self@.metadata.arity as nat),
            key_values@.len() == positions@.len(),
        ensures
            finds_first(self@.rows, positions@, views(key_values@), found),
    {
        proof {
            use_type_invariant(self);
        }
        let ghost key = views(key_values@);
        let arity: usize = self.parts.metadata.arity() as usize;
        let bindings = bindings_for_key(arity, positions, key_values);
        let ghost bound = option_views(bindings@);
        let near = match self.scan(&bindings) {
            Ok(found) => found,
            Err(_) => {
                assert(false);
                return None;
            },
        };
        let ghost listed = rows(near@);
        let wanted = Tuple::new(copy_values(key_values));
        proof {
            assert forall|row: Row| #[trigger] self@.rows.contains(row) && project(row, positions@)
                == key implies listed.contains(row) by {
                lemma_key_bindings(row, positions@, key, bound, arity as int);
                assert(matching(self@.rows, bound).contains(row));
                assert(listed.to_set().contains(row));
            }
        }
        let mut i: usize = 0;
        while i < near.len()
            invariant
                i <= near@.len(),
                listed == rows(near@),
                increasing(listed),
                listed.to_set() == matching(self@.rows, bound),
                of_arity(self@.rows, self@.metadata.arity as nat),
                within(positions@, self@.metadata.arity as nat),
                key == views(key_values@),
                wanted@ == key,
                forall|row: Row| #[trigger]
                    self@.rows.contains(row) && project(row, positions@) == key ==> listed.contains(
                        row,
                    ),
                forall|k: int| 0 <= k < i ==> project(#[trigger] listed[k], positions@) != key,
            decreases near@.len() - i,
        {
            proof {
                assert(listed.to_set().contains(listed[i as int]));
                assert(listed[i as int] == near@[i as int]@);
            }
            let values = Tuple::new(near[i].project(positions));
            if values.same(&wanted) {
                proof {
                    assert forall|other: Row| #[trigger] self@.rows.contains(other) && project(
                        other,
                        positions@,
                    ) == key implies other == listed[i as int] || row_less(
                        listed[i as int],
                        other,
                    ) by {
                        assert(listed.contains(other));
                        let k = choose|k: int| 0 <= k < listed.len() && listed[k] == other;
                        assert(k >= i);
                    }
                }
                return Some(near[i].clone());
            }
            i = i + 1;
        }
        proof {
            assert forall|other: Row| #[trigger] self@.rows.contains(other) implies project(
                other,
                positions@,
            ) != key by {
                if project(other, positions@) == key {
                    assert(listed.contains(other));
                    let k = choose|k: int| 0 <= k < listed.len() && listed[k] == other;
                    assert(project(listed[k], positions@) != key);
                }
            }
        }
        None
    }
}

/// Whether bindings hold, in each bound column, a value that a key has for it.
spec fn bound_by_key(bindings: Seq<Option<ValueView>>, positions: Seq<u16>, key: Row) -> bool {
    forall|c: int|
        0 <= c < bindings.len() && (#[trigger] bindings[c]) is Some ==> exists|k: int|
            0 <= k < positions.len() && #[trigger] positions[k] == c && key[k] == bindings[c]->0
}

proof fn lemma_key_bindings(
    row: Row,
    positions: Seq<u16>,
    key: Row,
    bindings: Seq<Option<ValueView>>,
    arity: int,
)
    requires
        bound_by_key(bindings, positions, key),
        bindings.len() == arity,
        row.len() == arity,
        project(row, positions) == key,
    ensures
        row_matches(row, bindings),
{
    assert forall|c: int| 0 <= c < bindings.len() && (#[trigger] bindings[c]) is Some implies c
        < row.len() && row[c] == bindings[c]->0 by {
        let k = choose|k: int|
            0 <= k < positions.len() && #[trigger] positions[k] == c && key[k] == bindings[c]->0;
        assert(project(row, positions)[k] == row[positions[k] as int]);
    }
}

/// Bindings of the columns of a key.
fn bindings_for_key(arity: usize, positions: &[u16], key_values: &[Value]) -> (bindings: Vec<
    Option<Value>,
>)
    requires
        within(positions@, arity as nat),
        key_values@.len() == positions@.len(),
    ensures
        bindings@.len() == arity,
        bound_by_key(option_views(bindings@), positions@, views(key_values@)),
{
    let mut bindings: Vec<Option<Value>> = Vec::new();
    let mut i: usize = 0;
    while i < arity
        invariant
            i <= arity,
            bindings@.len() == i,
            forall|c: int| 0 <= c < i ==> (#[trigger] bindings@[c]) is None,
        decreases arity - i,
    {
        bindings.push(None);
        i = i + 1;
    }
    let mut n: usize = 0;
    while n < positions.len()
        invariant
            n <= positions@.len(),
            key_values@.len() == positions@.len(),
            within(positions@, arity as nat),
            bindings@.len() == arity,
            forall|c: int|
                0 <= c < bindings@.len() && (#[trigger] bindings@[c]) is Some ==> exists|k: int|
                    0 <= k < positions@.len() && #[trigger] positions@[k] == c && views(
                        key_values@,
                    )[k] == bindings@[c]->0@,
        decreases positions@.len() - n,
    {
        let at: usize = positions[n] as usize;
        let ghost before = bindings@;
        assert(positions@[n as int] == at);
        bindings.set(at, Some(copy_value(&key_values[n])));
        proof {
            assert forall|c: int|
                0 <= c < bindings@.len() && (#[trigger] bindings@[c]) is Some implies exists|k: int|
                0 <= k < positions@.len() && #[trigger] positions@[k] == c && views(key_values@)[k]
                    == bindings@[c]->0@ by {
                if c == at {
                    assert(views(key_values@)[n as int] == key_values@[n as int]@);
                } else {
                    assert(before[c] == bindings@[c]);
                }
            }
        }
        n = n + 1;
    }
    proof {
        let bound = option_views(bindings@);
        assert forall|c: int| 0 <= c < bound.len() && (#[trigger] bound[c]) is Some implies exists|
            k: int,
        |
            0 <= k < positions@.len() && #[trigger] positions@[k] == c && views(key_values@)[k]
                == bound[c]->0 by {
            assert(bindings@[c] is Some);
        }
    }
    bindings
}

} // verus!
