//! Reading and writing on top of a snapshot.

use crate::kernel::algebra::{difference_ordered_tuple_rows, finish_tuple_rows, lists, matching,
    of_arity, union_ordered_tuple_rows, within, Row};
use crate::kernel::computed::given;
use crate::kernel::dispatch::{applicable, applicable_method_calls, applicable_method_calls_normalized,
    applicable_method_calls_uncached, applicable_positional_methods, dispatch_seen, fails_rightly,
    fault_of, finds_names, finds_program, listing, lists_values, looks_up_calls, may_be,
    method_program_id, of_key, role_views, seen_rows, ApplicableMethodCall, DispatchFacts,
    DispatchRead, DispatchRelations, DispatchSeen, Offer, PrimitivePrototypes};
use crate::kernel::error::{step_view, FaultView, KernelError};
use crate::kernel::inline_cache::{copy_program, first_call, first_program, is_call, CallView,
    ProgramView, TransactionDispatchCache, METHOD_PROGRAM_CACHED, METHOD_PROGRAM_ENABLED,
    POSITIONAL_DISPATCH_CACHED, POSITIONAL_DISPATCH_SEEN};
use crate::kernel::metadata::{ConflictPolicy, PolicyView, RelationId, RelationMetadata, Version};
use crate::kernel::overlay::{lemma_overlaid_matching, overlaid, written, RelationWriteOverlay};
use crate::kernel::read::{answers, fact_views, facts_increase, lists_facts, scanned, seen_as,
    CatalogView, ComputedRelationRead, RelationRead, ShownView, Visible};
use crate::kernel::relation::{is_first_with, lemma_metadata_in_order, RelationMutationKind,
    RelationState, RelationView};
use crate::kernel::rules::{copy_definitions, derives, relation_has_active_rule_head, RuleDefinition};
use crate::kernel::snapshot::{build_derived_relations, derived_of, derived_outcome, derived_rows,
    free_bindings, kinds_stored, lemma_free_matching, listed_metadata, push_facts, DerivedRelations, DerivedView,
    Snapshot, SnapshotView};
use crate::kernel::states::{ascending, lists_ids, raw_ids};
use crate::table::{entry_keys, lemma_entry_map, Table};
use crate::tuple::{copy_tuples, lemma_row_order_total, project, row_less, row_matches, rows, Tuple};
use crate::value::{copy_value, option_view, option_views, views, Identity, Symbol, Value, ValueView};
use std::sync::Arc;
use vstd::prelude::*;

verus! {

/// What was done to each row of each relation.
pub open spec fn write_views(writes: Map<u64, RelationWriteOverlay>) -> Map<
    u64,
    Map<Row, RelationMutationKind>,
> {
    Map::new(|id: u64| writes.contains_key(id), |id: u64| writes[id]@)
}

/// A transaction, apart from how it is stored.
pub struct TransactionView {
    pub base: SnapshotView,
    pub writes: Map<u64, Map<Row, RelationMutationKind>>,
    pub derived: DerivedView,
}

impl TransactionView {
    /// What was done to the rows of a relation.
    pub open spec fn written_to(self, relation: u64) -> Map<Row, RelationMutationKind> {
        if self.writes.contains_key(relation) {
            self.writes[relation]
        } else {
            Map::empty()
        }
    }

    /// What is seen of a relation without the rows that rules derive.
    pub open spec fn stored(self, relation: u64) -> Visible {
        match self.base.stored(relation) {
            Visible::Stored(arity, Ok(base)) => Visible::Stored(
                arity,
                Ok(overlaid(base, self.written_to(relation))),
            ),
            other => other,
        }
    }

    /// The rows that rules derive: those of the snapshot until something is written.
    pub open spec fn derived_now(self) -> DerivedView {
        if self.writes.dom() == Set::<u64>::empty() {
            self.base.derived
        } else {
            self.derived
        }
    }

    /// What is seen of a relation.
    pub open spec fn visible(self, relation: u64) -> Visible {
        match self.stored(relation) {
            Visible::Stored(arity, Ok(base)) => if derives(self.base.rules, relation) {
                Visible::Stored(
                    arity,
                    match derived_rows(self.derived_now(), relation) {
                        Ok(derived) => Ok(base.union(derived)),
                        Err(fault) => Err(fault),
                    },
                )
            } else {
                Visible::Stored(arity, Ok(base))
            },
            other => other,
        }
    }

    /// The transaction once a row has been written.
    pub open spec fn wrote(self, relation: u64, row: Row, kind: RelationMutationKind) -> TransactionView {
        TransactionView {
            writes: self.writes.insert(relation, self.written_to(relation).insert(row, kind)),
            derived: DerivedView::Unevaluated,
            ..self
        }
    }

    /// The rows that are stored, with what was written.
    pub open spec fn facts(self) -> Set<(u64, Row)> {
        Set::new(
            |fact: (u64, Row)|
                self.stored(fact.0) is Stored && overlaid(
                    self.base.relations[fact.0].rows,
                    self.written_to(fact.0),
                ).contains(fact.1),
        )
    }

    /// The row that holds a row's key, where the relation has one.
    pub open spec fn holder(self, relation: u64, row: Row) -> Option<Row> {
        match self.base.relations[relation].metadata.conflict_policy {
            PolicyView::Functional(key) => first_with_key(
                overlaid(self.base.relations[relation].rows, self.written_to(relation)),
                key,
                project(row, key),
            ),
            _ => None,
        }
    }

    /// Why a row cannot be written.
    pub open spec fn write_fault(
        self,
        relation: u64,
        row: Row,
        kind: RelationMutationKind,
    ) -> Option<FaultView> {
        if !self.base.relations.contains_key(relation) {
            Some(FaultView::UnknownRelation(relation))
        } else if self.base.computes(relation) {
            Some(FaultView::ReadOnlyRelation(relation))
        } else {
            match self.base.relations[relation].tuple_fault(row) {
                Some(fault) => Some(fault),
                None => match (kind, self.holder(relation, row)) {
                    (RelationMutationKind::Assert, Some(existing)) => if existing != row {
                        Some(FaultView::FunctionalKeyViolation(relation, existing, row))
                    } else {
                        None
                    },
                    _ => None,
                },
            }
        }
    }
}

impl TransactionView {
    /// What putting a row in place of the one that holds its key does: why it fails, and
    /// what is written by then.
    pub open spec fn replacing(self, relation: u64, row: Row) -> (
        Option<FaultView>,
        TransactionView,
    ) {
        if !self.base.relations.contains_key(relation) {
            (Some(FaultView::UnknownRelation(relation)), self)
        } else {
            match self.base.relations[relation].tuple_fault(row) {
                Some(fault) => (Some(fault), self),
                None => if self.base.computes(relation) {
                    (Some(FaultView::ReadOnlyRelation(relation)), self)
                } else {
                    match self.holder(relation, row) {
                        None => self.asserting(relation, row),
                        Some(existing) => match self.write_fault(
                            relation,
                            existing,
                            RelationMutationKind::Retract,
                        ) {
                            Some(fault) => (Some(fault), self),
                            None => self.wrote(
                                relation,
                                existing,
                                RelationMutationKind::Retract,
                            ).asserting(relation, row),
                        },
                    }
                },
            }
        }
    }

    /// What adding a row does.
    pub open spec fn asserting(self, relation: u64, row: Row) -> (
        Option<FaultView>,
        TransactionView,
    ) {
        match self.write_fault(relation, row, RelationMutationKind::Assert) {
            Some(fault) => (Some(fault), self),
            None => (None, self.wrote(relation, row, RelationMutationKind::Assert)),
        }
    }
}

impl TransactionView {
    /// What writing rows one after another does: why it stops, and what is written by
    /// then.
    pub open spec fn writing(self, relation: u64, rows: Seq<Row>, kind: RelationMutationKind) -> (
        Option<FaultView>,
        TransactionView,
    )
        decreases rows.len(),
    {
        if rows.len() == 0 {
            (None, self)
        } else {
            let (fault, before) = self.writing(relation, rows.drop_last(), kind);
            match fault {
                Some(fault) => (Some(fault), before),
                None => match before.write_fault(relation, rows.last(), kind) {
                    Some(fault) => (Some(fault), before),
                    None => (None, before.wrote(relation, rows.last(), kind)),
                },
            }
        }
    }

    /// What taking rows away and then adding others does.
    pub open spec fn exchanging(self, relation: u64, gone: Seq<Row>, added: Seq<Row>) -> (
        Option<FaultView>,
        TransactionView,
    ) {
        let (fault, between) = self.writing(relation, gone, RelationMutationKind::Retract);
        match fault {
            Some(fault) => (Some(fault), between),
            None => between.writing(relation, added, RelationMutationKind::Assert),
        }
    }
}

/// The first of the wanted rows that does not have as many values as it should.
pub open spec fn is_first_misfit(wanted: Set<Row>, arity: u16, row: Row) -> bool {
    &&& wanted.contains(row)
    &&& row.len() != arity
    &&& forall|other: Row|
        wanted.contains(other) && #[trigger] row_less(other, row) ==> other.len() == arity
}

/// Whether some reading of a computed relation, by a reader that shows this, came to the outcome:
/// it failed, or it gave just the wanted rows, or the relation takes no writes.
pub open spec fn reading_decides(
    before: TransactionView,
    shown: ShownView,
    relation: u64,
    bindings: Seq<Option<ValueView>>,
    wanted: Set<Row>,
    outcome: Result<(), FaultView>,
) -> bool {
    exists|reading: Result<Seq<Row>, FaultView>|
        {
            &&& #[trigger] before.base.may_read(
                shown,
                relation,
                before.derived_now(),
                bindings,
                reading,
            )
            &&& outcome == match reading {
                Err(fault) => Err::<(), _>(fault),
                Ok(found) => if found.to_set() == wanted {
                    Ok(())
                } else {
                    Err(FaultView::ReadOnlyRelation(relation))
                },
            }
        }
}

/// Whether making the rows of a relation those that are wanted came out as it should: the
/// rows that are seen and not wanted are taken away, then those that are wanted and not
/// seen are added, each in order, up to the first that cannot be. Of a computed relation a reading
/// decides.
pub open spec fn reconciles(
    before: TransactionView,
    shown: ShownView,
    relation: u64,
    wanted: Set<Row>,
    outcome: Result<(), FaultView>,
    after: TransactionView,
) -> bool {
    let arity = before.base.relations[relation].metadata.arity;
    if !before.base.relations.contains_key(relation) {
        outcome == Err::<(), _>(FaultView::UnknownRelation(relation)) && after == before
    } else if exists|row: Row| #[trigger] is_first_misfit(wanted, arity, row) {
        &&& exists|row: Row| #[trigger]
            is_first_misfit(wanted, arity, row) && outcome == Err::<(), _>(
                FaultView::ArityMismatch(relation, arity, row.len()),
            )
        &&& after == before
    } else {
        match scanned(
            before.visible(relation),
            relation,
            Seq::new(arity as nat, |i: int| None::<ValueView>),
        ) {
            None => after == before && reading_decides(
                before,
                shown,
                relation,
                Seq::new(arity as nat, |i: int| None::<ValueView>),
                wanted,
                outcome,
            ),
            Some(Err(fault)) => outcome == Err::<(), _>(fault) && after == before,
            Some(Ok(seen)) => exists|gone: Seq<Row>, added: Seq<Row>|
                {
                    &&& #[trigger] lists(gone, seen.difference(wanted))
                    &&& #[trigger] lists(added, wanted.difference(seen))
                    &&& outcome == match before.exchanging(relation, gone, added).0 {
                        Some(fault) => Err::<(), _>(fault),
                        None => Ok(()),
                    }
                    &&& after == before.exchanging(relation, gone, added).1
                },
        }
    }
}

/// The first row with a key.
pub open spec fn first_with_key(set: Set<Row>, positions: Seq<u16>, key: Row) -> Option<Row> {
    if exists|row: Row| is_first_with(set, positions, key, row) {
        Some(choose|row: Row| is_first_with(set, positions, key, row))
    } else {
        None
    }
}

/// There is only one first row with a key.
pub proof fn lemma_first_with_key(set: Set<Row>, positions: Seq<u16>, key: Row, row: Row)
    requires
        is_first_with(set, positions, key, row),
    ensures
        first_with_key(set, positions, key) == Some(row),
{
    let other = choose|row: Row| is_first_with(set, positions, key, row);
    assert(is_first_with(set, positions, key, other));
    lemma_row_order_total(row, other);
}

/// Whether every row that was written fits the relation that it was written to.
pub open spec fn writes_fit(
    writes: Map<u64, Map<Row, RelationMutationKind>>,
    base: SnapshotView,
) -> bool {
    forall|id: u64, row: Row| #[trigger]
        writes.contains_key(id) && #[trigger] writes[id].contains_key(row)
            ==> base.relations.contains_key(id) && row.len() == base.relations[id].metadata.arity
            && !base.computes(id)
}

/// A snapshot, what was written on top of it, and the rows that rules derive then.
struct Ground {
    base: Arc<Snapshot>,
    writes: Table<Identity, RelationWriteOverlay>,
    derived: DerivedRelations,
}

impl Ground {
    #[verifier::type_invariant]
    spec fn wf(self) -> bool {
        &&& derived_of(self.derived@, self.base@.relations)
        &&& writes_fit(write_views(self.writes@), self.base@)
    }
}

/// Reads and writes on top of a snapshot, not committed yet.
pub struct Transaction {
    ground: Ground,
    /// The relations for which the holder of a key was looked up.
    looked_up: Table<Identity, bool>,
    prototypes: PrimitivePrototypes,
    cache: TransactionDispatchCache,
}

impl View for Transaction {
    type V = TransactionView;

    closed spec fn view(&self) -> TransactionView {
        TransactionView {
            base: self.ground.base@,
            writes: write_views(self.ground.writes@),
            derived: self.ground.derived@,
        }
    }
}

/// Bindings of the key of a row.
spec fn key_bound(row: Row, positions: Seq<u16>, arity: nat) -> Seq<Option<ValueView>> {
    Seq::new(
        arity,
        |i: int|
            if positions.contains(i as u16) {
                Some(row[i])
            } else {
                None
            },
    )
}

fn key_bindings(tuple: &Tuple, positions: &[u16]) -> (bindings: Vec<Option<Value>>)
    requires
        within(positions@, tuple@.len()),
        tuple@.len() <= u16::MAX,
    ensures
        option_views(bindings@) == key_bound(tuple@, positions@, tuple@.len()),
        bindings@.len() == tuple@.len(),
{
    let values = tuple.values();
    let mut bindings: Vec<Option<Value>> = Vec::new();
    let mut i: usize = 0;
    while i < values.len()
        invariant
            i <= values@.len() == tuple@.len() <= u16::MAX,
            forall|j: int| 0 <= j < values@.len() ==> (#[trigger] values@[j])@ == tuple@[j],
            bindings@.len() == i,
            forall|j: int|
                0 <= j < i ==> option_view(#[trigger] bindings@[j]) == key_bound(
                    tuple@,
                    positions@,
                    tuple@.len(),
                )[j],
        decreases values@.len() - i,
    {
        if has_position(positions, i as u16) {
            bindings.push(Some(copy_value(&values[i])));
        } else {
            bindings.push(None);
        }
        i = i + 1;
    }
    assert(option_views(bindings@) =~= key_bound(tuple@, positions@, tuple@.len()));
    bindings
}

fn has_position(positions: &[u16], position: u16) -> (result: bool)
    ensures
        result == positions@.contains(position),
{
    let mut i: usize = 0;
    while i < positions.len()
        invariant
            i <= positions@.len(),
            forall|j: int| 0 <= j < i ==> (#[trigger] positions@[j]) != position,
        decreases positions@.len() - i,
    {
        if positions[i] == position {
            return true;
        }
        i = i + 1;
    }
    false
}

/// Binding the key of a row finds the rows with its key.
proof fn lemma_key_bound(set: Set<Row>, row: Row, positions: Seq<u16>)
    requires
        of_arity(set, row.len()),
        within(positions, row.len()),
        row.len() <= u16::MAX,
    ensures
        matching(set, key_bound(row, positions, row.len())) == set.filter(
            |other: Row| project(other, positions) == project(row, positions),
        ),
{
    let bound = key_bound(row, positions, row.len());
    let by_key = set.filter(|other: Row| project(other, positions) == project(row, positions));
    assert forall|other: Row| matching(set, bound).contains(other) == by_key.contains(other) by {
        if set.contains(other) {
            if row_matches(other, bound) {
                assert forall|k: int| 0 <= k < positions.len() implies project(other, positions)[k]
                    == project(row, positions)[k] by {
                    let p = positions[k] as int;
                    assert(positions.contains(p as u16));
                    assert(bound[p] is Some);
                }
                assert(project(other, positions) =~= project(row, positions));
            }
            if project(other, positions) == project(row, positions) {
                assert forall|i: int| 0 <= i < bound.len() && (#[trigger] bound[i]) is Some implies i
                    < other.len() && other[i] == bound[i]->0 by {
                    let k = choose|k: int| 0 <= k < positions.len() && positions[k] == i as u16;
                    assert(project(other, positions)[k] == project(row, positions)[k]);
                }
            }
        }
    }
    assert(matching(set, bound) =~= by_key);
}

impl Transaction {
    /// A transaction on a snapshot, with nothing written.
    pub fn new(base: Arc<Snapshot>, prototypes: PrimitivePrototypes) -> (transaction: Transaction)
        ensures
            transaction@ == (TransactionView {
                base: base@,
                writes: Map::empty(),
                derived: DerivedView::Unevaluated,
            }),
            transaction.remembered().0 == Seq::<CallView>::empty(),
            transaction.remembered().1 == Seq::<ProgramView>::empty(),
            transaction.prototypes_used() == prototypes,
    {
        let writes: Table<Identity, RelationWriteOverlay> = Table::new();
        assert(write_views(writes@) =~= Map::empty());
        let transaction = Transaction {
            ground: Ground { base, writes, derived: DerivedRelations::Unevaluated },
            looked_up: Table::new(),
            prototypes,
            cache: TransactionDispatchCache::new(),
        };
        assert(transaction@.writes =~= Map::empty());
        transaction
    }

    /// The calls and programs that are remembered.
    pub closed spec fn remembered(self) -> (Seq<CallView>, Seq<ProgramView>) {
        (self.cache@.calls + self.cache@.shared, self.cache@.programs)
    }

    /// Who answers for values that are no identities.
    pub closed spec fn prototypes_used(self) -> PrimitivePrototypes {
        self.prototypes
    }

    /// Whether the holder of a key was looked up in a relation.
    pub closed spec fn looks_up_keys(self, relation: u64) -> bool {
        self.looked_up@.contains_key(relation)
    }

    /// The snapshot that the transaction stands on.
    pub fn base(&self) -> (base: &Snapshot)
        ensures
            base@ == self@.base,
    {
        &self.ground.base
    }

    /// The version that the transaction stands on.
    pub fn base_version(&self) -> (version: Version)
        ensures
            version == self@.base.version,
    {
        self.ground.base.version()
    }

    /// Whether nothing was written.
    pub fn is_read_only(&self) -> (result: bool)
        ensures
            result == (self@.writes.dom() == Set::<u64>::empty()),
    {
        let n: usize = self.ground.writes.len();
        proof {
            assert(self@.writes.dom() =~= self.ground.writes@.dom());
            if n == 0 {
                assert(self.ground.writes@.dom() =~= Set::<u64>::empty());
            }
        }
        n == 0
    }

    /// Whether a relation was written to.
    pub fn has_local_writes(&self, relation: RelationId) -> (result: bool)
        ensures
            result == self@.writes.contains_key(relation@),
    {
        self.ground.writes.contains(&relation)
    }

    /// What was written to a relation.
    pub fn writes_to(&self, relation: RelationId) -> (found: Option<&RelationWriteOverlay>)
        ensures
            found is Some == self@.writes.contains_key(relation@),
            found matches Some(writes) ==> writes@ == self@.writes[relation@],
            writes_fit(self@.writes, self@.base),
    {
        proof {
            use_type_invariant(&self.ground);
        }
        self.ground.writes.get(&relation)
    }

    /// The relations that were written to, in the order of their identities.
    pub fn written_ids(&self) -> (ids: Vec<RelationId>)
        ensures
            lists_ids(raw_ids(ids@), self@.writes.dom()),
    {
        let entries = self.ground.writes.entries();
        let mut ids: Vec<RelationId> = Vec::new();
        let mut i: usize = 0;
        proof {
            lemma_entry_map(entries@);
            assert(raw_ids(ids@) =~= Seq::empty());
        }
        while i < entries.len()
            invariant
                i <= entries@.len(),
                ascending(raw_ids(ids@)),
                forall|id: u64| #[trigger]
                    raw_ids(ids@).contains(id) == exists|j: int|
                        0 <= j < i && (#[trigger] entries@[j]).0@ == id,
            decreases entries@.len() - i,
        {
            let ghost before = raw_ids(ids@);
            place_id(&mut ids, entries[i].0);
            proof {
                let after = raw_ids(ids@);
                assert forall|id: u64| #[trigger] after.contains(id) == exists|j: int|
                    0 <= j < i + 1 && (#[trigger] entries@[j]).0@ == id by {
                    assert(after.to_set().contains(id) == after.contains(id));
                    assert(before.to_set().contains(id) == before.contains(id));
                    if before.contains(id) {
                        let j = choose|j: int| 0 <= j < i && (#[trigger] entries@[j]).0@ == id;
                        assert(entries@[j].0@ == id);
                    }
                    if id == entries@[i as int].0@ {
                        assert(entries@[i as int].0@ == id);
                    }
                }
            }
            i = i + 1;
        }
        proof {
            let listed = raw_ids(ids@);
            assert forall|id: u64| listed.to_set().contains(id) == self@.writes.dom().contains(id) by {
                let keys = entry_keys(entries@);
                assert(listed.contains(id) == exists|j: int|
                    0 <= j < i && (#[trigger] entries@[j]).0@ == id);
                if listed.contains(id) {
                    let j = choose|j: int| 0 <= j < i && (#[trigger] entries@[j]).0@ == id;
                    assert(self.ground.writes@.contains_key(entries@[j].0@));
                }
                if self.ground.writes@.contains_key(id) {
                    let j = choose|j: int| 0 <= j < keys.len() && keys[j] == id;
                    assert(entries@[j].0@ == id);
                }
            }
            assert(listed.to_set() =~= self@.writes.dom());
        }
        ids
    }

    /// How many rows of a relation were written.
    pub fn local_write_count(&self, relation: RelationId) -> (count: usize)
        ensures
            count == self@.written_to(relation@).dom().len(),
    {
        match self.ground.writes.get(&relation) {
            None => 0,
            Some(writes) => writes.len(),
        }
    }

    /// What a relation is.
    pub fn relation_metadata(&self, relation: RelationId) -> (found: Option<RelationMetadata>)
        ensures
            found is Some == self@.base.relations.contains_key(relation@),
            found matches Some(metadata) ==> metadata@
                == self@.base.relations[relation@].metadata,
    {
        match self.ground.base.relation(relation) {
            Ok(state) => Some(state.metadata().clone()),
            Err(_) => None,
        }
    }

    /// The rows of a relation that agree with the bindings, in order, without those that
    /// rules derive.
    pub fn scan_extensional(&self, relation: RelationId, bindings: &[Option<Value>]) -> (result:
        Result<Vec<Tuple>, KernelError>)
        ensures
            answers(
                result,
                scanned(self@.stored(relation@), relation@, option_views(bindings@)),
            ),
            scanned(
                self@.stored(relation@),
                relation@,
                option_views(bindings@),
            ) matches Some(Ok(set)) ==> of_arity(set, bindings@.len()),
            self@.stored(relation@) matches Visible::Stored(arity, Ok(set)) ==> of_arity(
                set,
                arity as nat,
            ),
            self@.stored(relation@) is Computed ==> self@.base.computed.may_give(
                self.shown(),
                self@.base.relations[relation@].metadata,
                option_views(bindings@),
                given(result),
            ),
    {
        proof {
            use_type_invariant(&self.ground);
        }
        let state = match self.ground.base.relation(relation) {
            Err(error) => {
                return Err(error);
            },
            Ok(state) => state,
        };
        match self.ground.base.computed_relations().provider(state.metadata(), bindings) {
            Some(Ok(provider)) => {
                return provider.scan(self, state.metadata(), bindings);
            },
            Some(Err(error)) => {
                return Err(error);
            },
            None => {},
        }
        self.overlay_rows(relation, state, bindings)
    }

    /// The stored rows of a relation that agree with the bindings, with what was written.
    fn overlay_rows(
        &self,
        relation: RelationId,
        state: &RelationState,
        bindings: &[Option<Value>],
    ) -> (result: Result<Vec<Tuple>, KernelError>)
        requires
            self@.base.relations.contains_key(relation@),
            state@ == self@.base.relations[relation@],
        ensures
            match result {
                Err(error) => state@.bindings_fault(option_views(bindings@)) == Some(error@),
                Ok(found) => {
                    &&& state@.bindings_fault(option_views(bindings@)) is None
                    &&& lists(
                        rows(found@),
                        matching(
                            overlaid(state@.rows, self@.written_to(relation@)),
                            option_views(bindings@),
                        ),
                    )
                },
            },
            of_arity(
                overlaid(state@.rows, self@.written_to(relation@)),
                state@.metadata.arity as nat,
            ),
    {
        proof {
            use_type_invariant(&self.ground);
        }
        let metadata = state.metadata();
        let base = match state.scan(bindings) {
            Err(error) => {
                return Err(error);
            },
            Ok(found) => found,
        };
        let ghost bound = option_views(bindings@);
        match self.ground.writes.get(&relation) {
            None => {
                proof {
                    assert(overlaid(state@.rows, Map::empty()) =~= state@.rows);
                }
                Ok(base)
            },
            Some(writes) => {
                let asserted = writes.matching(RelationMutationKind::Assert, bindings);
                let retracted = writes.matching(RelationMutationKind::Retract, bindings);
                let more = union_ordered_tuple_rows(base, asserted);
                let found = difference_ordered_tuple_rows(more, retracted);
                proof {
                    lemma_overlaid_matching(state@.rows, writes@, bound);
                }
                Ok(found)
            },
        }
    }

    /// The rows of a relation that agree with the bindings, in order.
    pub fn scan(&self, relation: RelationId, bindings: &[Option<Value>]) -> (result: Result<
        Vec<Tuple>,
        KernelError,
    >)
        ensures
            answers(
                result,
                scanned(self@.visible(relation@), relation@, option_views(bindings@)),
            ),
            scanned(
                self@.visible(relation@),
                relation@,
                option_views(bindings@),
            ) matches Some(Ok(set)) ==> of_arity(set, bindings@.len()),
            self@.visible(relation@) is Computed ==> self@.base.may_read(
                self.shown(),
                relation@,
                self@.derived_now(),
                option_views(bindings@),
                given(result),
            ),
    {
        let stored = match self.scan_extensional(relation, bindings) {
            Err(error) => {
                return Err(error);
            },
            Ok(found) => found,
        };
        if !relation_has_active_rule_head(self.ground.base.rules(), relation) {
            return Ok(stored);
        }
        proof {
            let bound = option_views(bindings@);
            if let Ok(derived) = derived_rows(self@.derived_now(), relation@) {
                let base = overlaid(
                    self@.base.relations[relation@].rows,
                    self@.written_to(relation@),
                );
                assert(matching(base.union(derived), bound) =~= matching(base, bound).union(
                    matching(derived, bound),
                ));
            }
        }
        let ordered = match self.ground.base.relation(relation) {
            Err(error) => {
                return Err(error);
            },
            Ok(state) => if self.ground.base.computed_relations().is_computed_relation(
                state.metadata(),
            ) {
                finish_tuple_rows(stored)
            } else {
                stored
            },
        };
        match self.derived_state(relation) {
            Err(error) => Err(error),
            Ok(None) => {
                proof {
                    assert(rows(ordered@).to_set().union(
                        matching(Set::<Row>::empty(), option_views(bindings@)),
                    ) =~= rows(ordered@).to_set());
                }
                Ok(ordered)
            },
            Ok(Some(state)) => match state.scan(bindings) {
                Err(error) => Err(error),
                Ok(derived) => Ok(union_ordered_tuple_rows(ordered, derived)),
            },
        }
    }

    /// The rows that rules derive for a relation.
    pub fn derived_state(&self, relation: RelationId) -> (result: Result<
        Option<&RelationState>,
        KernelError,
    >)
        ensures
            match self@.derived_now() {
                DerivedView::Unevaluated => result matches Err(error) && error@
                    == FaultView::RulesUnevaluated(relation@),
                DerivedView::Failed(fault) => result matches Err(error) && error@ == fault,
                DerivedView::Evaluated(states) => match result {
                    Ok(Some(state)) => states.contains_key(relation@) && state@ == states[relation@]
                        && self@.base.relations.contains_key(relation@) && state@.metadata
                        == self@.base.relations[relation@].metadata && state@.wf(),
                    Ok(None) => !states.contains_key(relation@),
                    Err(_) => false,
                },
            },
    {
        if self.is_read_only() {
            return self.ground.base.derived_state(relation);
        }
        proof {
            use_type_invariant(&self.ground);
        }
        match &self.ground.derived {
            DerivedRelations::Unevaluated => Err(KernelError::RulesUnevaluated(relation)),
            DerivedRelations::Failed(error) => Err(error.clone()),
            DerivedRelations::Evaluated(states) => Ok(states.get(relation)),
        }
    }

    /// Whether the holder of a key was looked up in a relation.
    pub fn looked_up_keys(&self, relation: RelationId) -> (result: bool)
        ensures
            result == self.looks_up_keys(relation@),
    {
        self.looked_up.contains(&relation)
    }

    /// The row that holds a row's key.
    pub fn key_holder(&self, relation: RelationId, tuple: &Tuple) -> (result: Option<Tuple>)
        requires
            self@.base.relations.contains_key(relation@),
            self@.base.relations[relation@].metadata.conflict_policy is Functional,
            tuple@.len() == self@.base.relations[relation@].metadata.arity,
        ensures
            match result {
                Some(found) => self@.holder(relation@, tuple@) == Some(found@),
                None => self@.holder(relation@, tuple@) is None,
            },
    {
        proof {
            use_type_invariant(&self.ground);
        }
        let ghost state = self@.base.relations[relation@];
        let state_now = match self.ground.base.relation(relation) {
            Err(_) => {
                return None;
            },
            Ok(state) => state,
        };
        proof {
            lemma_metadata_in_order(state.metadata);
        }
        let bindings = match state_now.metadata().conflict_policy() {
            ConflictPolicy::Functional { key_positions } => key_bindings(tuple, key_positions),
            _ => {
                return None;
            },
        };
        let ghost key = state.metadata.conflict_policy->Functional_0;
        match self.overlay_rows(relation, state_now, &bindings) {
            Err(_) => None,
            Ok(found) => {
                proof {
                    lemma_holder(
                        state,
                        self@.written_to(relation@),
                        tuple@,
                        key,
                        rows(found@),
                    );
                    if found@.len() > 0 {
                        assert(rows(found@)[0] == found@[0]@);
                    }
                }
                if found.len() == 0 {
                    None
                } else {
                    Some(found[0].clone())
                }
            },
        }
    }

    /// The row that holds a row's key, and that it was looked up.
    fn visible_tuple_for_key(&mut self, relation: RelationId, tuple: &Tuple) -> (result: Option<
        Tuple,
    >)
        requires
            old(self)@.base.relations.contains_key(relation@),
            old(self)@.base.relations[relation@].metadata.conflict_policy is Functional,
            tuple@.len() == old(self)@.base.relations[relation@].metadata.arity,
        ensures
            final(self)@ == old(self)@,
            final(self).remembered() == old(self).remembered(),
            final(self).prototypes_used() == old(self).prototypes_used(),
            match result {
                Some(found) => old(self)@.holder(relation@, tuple@) == Some(found@),
                None => old(self)@.holder(relation@, tuple@) is None,
            },
            final(self).looks_up_keys(relation@),
            forall|id: u64|
                id != relation@ ==> #[trigger] final(self).looks_up_keys(id) == old(
                    self,
                ).looks_up_keys(id),
    {
        self.looked_up.insert(relation, true);
        self.key_holder(relation, tuple)
    }

    /// Writes a row.
    fn apply_local_change(
        &mut self,
        relation: RelationId,
        tuple: Tuple,
        kind: RelationMutationKind,
    ) -> (result: Result<(), KernelError>)
        ensures
            match old(self)@.write_fault(relation@, tuple@, kind) {
                Some(fault) => {
                    &&& result matches Err(error) && error@ == fault
                    &&& final(self)@ == old(self)@
                    &&& final(self).remembered() == old(self).remembered()
                },
                None => {
                    &&& result is Ok
                    &&& final(self)@ == old(self)@.wrote(relation@, tuple@, kind)
                    &&& final(self).remembered().0 == Seq::<CallView>::empty()
                    &&& final(self).remembered().1 == Seq::<ProgramView>::empty()
                },
            },
            final(self).prototypes_used() == old(self).prototypes_used(),
    {
        let (fault, functional): (Option<KernelError>, bool) = match self.ground.base.relation(
            relation,
        ) {
            Err(error) => (Some(error), false),
            Ok(state) => if self.ground.base.computed_relations().is_computed_relation(
                state.metadata(),
            ) {
                (Some(KernelError::ReadOnlyRelation(relation)), false)
            } else {
                match state.validate_tuple(&tuple) {
                    Err(error) => (Some(error), false),
                    Ok(()) => (
                        None,
                        matches!(
                            state.metadata().conflict_policy(),
                            ConflictPolicy::Functional { .. }
                        ),
                    ),
                }
            },
        };
        if let Some(error) = fault {
            return Err(error);
        }
        if functional && matches!(kind, RelationMutationKind::Assert) {
            match self.visible_tuple_for_key(relation, &tuple) {
                Some(existing) => {
                    if !existing.same(&tuple) {
                        return Err(
                            KernelError::FunctionalKeyViolation {
                                relation,
                                existing,
                                attempted: tuple,
                            },
                        );
                    }
                },
                None => {},
            }
        }
        let ghost before = self@;
        let ghost row = tuple@;
        proof {
            use_type_invariant(&self.ground);
        }
        let mut all: Table<Identity, RelationWriteOverlay> = Table::new();
        proof {
            assert(write_views(all@) =~= Map::empty());
        }
        std::mem::swap(&mut self.ground.writes, &mut all);
        let mut writes = match all.remove(&relation) {
            Some(writes) => writes,
            None => RelationWriteOverlay::new(),
        };
        assert(writes@ =~= before.written_to(relation@));
        writes.insert(tuple, kind);
        all.insert(relation, writes);
        let base = self.ground.base.clone();
        proof {
            let after = before.wrote(relation@, row, kind).writes;
            assert(write_views(all@) =~= after);
            assert forall|id: u64, other: Row| #[trigger]
                after.contains_key(id) && #[trigger] after[id].contains_key(
                    other,
                ) implies before.base.relations.contains_key(id) && other.len()
                == before.base.relations[id].metadata.arity by {
                if id == relation@ {
                    if other != row {
                        assert(before.written_to(relation@).contains_key(other));
                        assert(before.writes.contains_key(id) && before.writes[id].contains_key(other));
                    }
                } else {
                    assert(before.writes.contains_key(id) && before.writes[id].contains_key(other));
                }
            }
        }
        self.ground = Ground { base, writes: all, derived: DerivedRelations::Unevaluated };
        self.cache.clear();
        assert(self@.writes =~= before.wrote(relation@, row, kind).writes);
        Ok(())
    }

    /// Adds a row.
    pub fn assert_tuple(&mut self, relation: RelationId, tuple: Tuple) -> (result: Result<
        (),
        KernelError,
    >)
        ensures
            match old(self)@.write_fault(relation@, tuple@, RelationMutationKind::Assert) {
                Some(fault) => {
                    &&& result matches Err(error) && error@ == fault
                    &&& final(self)@ == old(self)@
                    &&& final(self).remembered() == old(self).remembered()
                },
                None => {
                    &&& result is Ok
                    &&& final(self)@ == old(self)@.wrote(
                        relation@,
                        tuple@,
                        RelationMutationKind::Assert,
                    )
                    &&& final(self).remembered().0 == Seq::<CallView>::empty()
                    &&& final(self).remembered().1 == Seq::<ProgramView>::empty()
                },
            },
            final(self).prototypes_used() == old(self).prototypes_used(),
    {
        self.apply_local_change(relation, tuple, RelationMutationKind::Assert)
    }

    /// Takes a row away.
    pub fn retract_tuple(&mut self, relation: RelationId, tuple: Tuple) -> (result: Result<
        (),
        KernelError,
    >)
        ensures
            match old(self)@.write_fault(relation@, tuple@, RelationMutationKind::Retract) {
                Some(fault) => {
                    &&& result matches Err(error) && error@ == fault
                    &&& final(self)@ == old(self)@
                    &&& final(self).remembered() == old(self).remembered()
                },
                None => {
                    &&& result is Ok
                    &&& final(self)@ == old(self)@.wrote(
                        relation@,
                        tuple@,
                        RelationMutationKind::Retract,
                    )
                    &&& final(self).remembered().0 == Seq::<CallView>::empty()
                    &&& final(self).remembered().1 == Seq::<ProgramView>::empty()
                },
            },
            final(self).prototypes_used() == old(self).prototypes_used(),
    {
        self.apply_local_change(relation, tuple, RelationMutationKind::Retract)
    }
}

/// The first of the rows that were found is the one that holds the key.
proof fn lemma_holder(
    state: RelationView,
    writes: Map<Row, RelationMutationKind>,
    row: Row,
    key: Seq<u16>,
    found: Seq<Row>,
)
    requires
        row.len() == state.metadata.arity,
        within(key, row.len()),
        of_arity(overlaid(state.rows, writes), row.len()),
        lists(found, matching(overlaid(state.rows, writes), key_bound(row, key, row.len()))),
    ensures
        first_with_key(overlaid(state.rows, writes), key, project(row, key)) == if found.len() == 0 {
            None
        } else {
            Some(found[0])
        },
{
    let set = overlaid(state.rows, writes);
    let wanted = project(row, key);
    lemma_key_bound(set, row, key);
    let by_key = set.filter(|other: Row| project(other, key) == wanted);
    if found.len() > 0 {
        assert(found.to_set().contains(found[0]));
        assert(by_key.contains(found[0]));
        assert forall|other: Row| #[trigger] set.contains(other) && project(other, key) == wanted implies
            other == found[0] || row_less(found[0], other) by {
            assert(by_key.contains(other));
            assert(found.to_set().contains(other));
            let k = choose|k: int| 0 <= k < found.len() && found[k] == other;
            if k > 0 {
                assert(row_less(found[0], found[k]));
            }
        }
        lemma_first_with_key(set, key, wanted, found[0]);
    } else {
        if exists|other: Row| is_first_with(set, key, wanted, other) {
            let other = choose|other: Row| is_first_with(set, key, wanted, other);
            assert(by_key.contains(other));
            assert(found.to_set().contains(other));
        }
    }
}

impl RelationRead for Transaction {
    open spec fn visible(&self, relation: u64) -> Visible {
        self@.visible(relation)
    }

    open spec fn may_show(
        &self,
        relation: u64,
        bindings: Seq<Option<ValueView>>,
        result: Result<Seq<Row>, FaultView>,
    ) -> bool {
        self@.base.may_read(self.shown(), relation, self@.derived_now(), bindings, result)
    }

    fn scan_relation(&self, relation: RelationId, bindings: &[Option<Value>]) -> (result: Result<
        Vec<Tuple>,
        KernelError,
    >) {
        self.scan(relation, bindings)
    }
}

impl Transaction {
    /// The rows that are stored, with what was written, by relation and row.
    fn extensional_facts_with_local_writes(&self) -> (facts: Vec<(RelationId, Tuple)>)
        ensures
            lists_facts(fact_views(facts@), self@.facts()),
    {
        let ids = self.ground.base.relations().ids();
        let mut facts: Vec<(RelationId, Tuple)> = Vec::new();
        let mut i: usize = 0;
        let ghost listed = raw_ids(ids@);
        assert(fact_views(facts@) =~= Seq::empty());
        while i < ids.len()
            invariant
                i <= ids@.len(),
                listed == raw_ids(ids@),
                lists_ids(listed, self@.base.relations.dom()),
                facts_increase(fact_views(facts@)),
                forall|j: int, k: int|
                    0 <= j < facts@.len() && i <= k < listed.len() ==> (#[trigger] facts@[j]).0@
                        < #[trigger] listed[k],
                forall|fact: (u64, Row)| #[trigger]
                    fact_views(facts@).contains(fact) == (self@.facts().contains(fact)
                        && listed.take(i as int).contains(fact.0)),
            decreases ids@.len() - i,
        {
            let id = ids[i];
            proof {
                assert(listed[i as int] == id@);
                assert(listed.to_set().contains(id@));
                assert(listed.take(i + 1) =~= listed.take(i as int).push(id@));
            }
            let ghost before = fact_views(facts@);
            let ghost taken = listed.take(i as int);
            let ghost mut added: Set<Row> = Set::empty();
            match self.ground.base.relation(id) {
                Err(_) => {},
                Ok(state) => {
                    if !self.ground.base.computed_relations().is_computed_relation(
                        state.metadata(),
                    ) {
                        let bindings = free_bindings(state.metadata().arity());
                        match self.scan_extensional(id, &bindings) {
                            Err(_) => {},
                            Ok(found) => {
                                proof {
                                    lemma_free_matching(
                                        overlaid(state@.rows, self@.written_to(id@)),
                                        state@.metadata.arity as nat,
                                    );
                                    added = rows(found@).to_set();
                                }
                                push_facts(&mut facts, id, found);
                            },
                        }
                    } else {
                        proof {
                            assert(before.to_set().union(
                                Set::new(
                                    |fact: (u64, Row)| fact.0 == id@ && added.contains(fact.1),
                                ),
                            ) =~= before.to_set());
                        }
                    }
                },
            }
            proof {
                let after = fact_views(facts@);
                assert forall|fact: (u64, Row)| #[trigger]
                    after.contains(fact) == (self@.facts().contains(fact) && listed.take(
                        i + 1,
                    ).contains(fact.0)) by {
                    assert(after.to_set().contains(fact) == after.contains(fact));
                    assert(before.to_set().contains(fact) == before.contains(fact));
                    assert(before.contains(fact) == (self@.facts().contains(fact)
                        && taken.contains(fact.0)));
                    let more = listed.take(i + 1);
                    if fact.0 == id@ {
                        assert(more[i as int] == id@);
                        if taken.contains(fact.0) {
                            let k = choose|k: int| 0 <= k < taken.len() && taken[k] == fact.0;
                            assert(listed[k] < listed[i as int]);
                        }
                    } else {
                        if taken.contains(fact.0) {
                            let k = choose|k: int| 0 <= k < taken.len() && taken[k] == fact.0;
                            assert(more[k] == fact.0);
                        }
                        if more.contains(fact.0) {
                            let k = choose|k: int| 0 <= k < more.len() && more[k] == fact.0;
                            assert(taken[k] == fact.0);
                        }
                    }
                }
                assert forall|j: int, k: int|
                    0 <= j < facts@.len() && i + 1 <= k < listed.len() implies (
                #[trigger] facts@[j]).0@ < #[trigger] listed[k] by {
                    assert(listed[i as int] < listed[k]);
                }
            }
            i = i + 1;
        }
        proof {
            assert(listed.take(i as int) =~= listed);
            assert forall|fact: (u64, Row)|
                fact_views(facts@).to_set().contains(fact) == self@.facts().contains(fact) by {
                assert(fact_views(facts@).contains(fact) == (self@.facts().contains(fact)
                    && listed.take(i as int).contains(fact.0)));
                if self@.facts().contains(fact) {
                    assert(self@.base.relations.contains_key(fact.0));
                    assert(listed.to_set().contains(fact.0));
                }
            }
            assert(fact_views(facts@).to_set() =~= self@.facts());
        }
        facts
    }

    /// How the indexes of the relations that are stored are stored.
    pub closed spec fn base_kinds(self) -> Map<(u64, int), Seq<char>> {
        kinds_stored(*self.ground.base)
    }
}

impl ComputedRelationRead for Transaction {
    open spec fn shown(&self) -> ShownView {
        ShownView {
            version: self@.base.version,
            visible: Map::new(|relation: u64| true, |relation: u64| self@.visible(relation)),
            catalog: CatalogView {
                relations: listed_metadata(self@.base.relations),
                rules: self@.base.rules,
            },
            kinds: self.base_kinds(),
            facts: self@.facts(),
        }
    }

    fn read_relation(&self, relation: RelationId, bindings: &[Option<Value>]) -> (result: Result<
        Vec<Tuple>,
        KernelError,
    >) {
        self.scan(relation, bindings)
    }

    fn version(&self) -> (version: Version) {
        self.ground.base.version()
    }

    fn relation_metadata_vec(&self) -> (relations: Vec<RelationMetadata>) {
        self.ground.base.relation_metadata()
    }

    fn rules_vec(&self) -> (rules: Vec<RuleDefinition>) {
        copy_definitions(self.ground.base.rules())
    }

    fn index_storage_kind(&self, relation: RelationId, ordinal: usize) -> (kind: Option<Symbol>) {
        self.ground.base.index_storage_kind(relation, ordinal)
    }

    fn extensional_facts(&self) -> (facts: Vec<(RelationId, Tuple)>) {
        self.extensional_facts_with_local_writes()
    }
}

/// Writing a row over others adds it or takes it away.
pub proof fn lemma_overlaid_write(
    base: Set<Row>,
    writes: Map<Row, RelationMutationKind>,
    row: Row,
    kind: RelationMutationKind,
)
    ensures
        overlaid(base, writes.insert(row, kind)) == if kind is Assert {
            overlaid(base, writes).insert(row)
        } else {
            overlaid(base, writes).remove(row)
        },
{
    if kind is Assert {
        assert(overlaid(base, writes.insert(row, kind)) =~= overlaid(base, writes).insert(row));
    } else {
        assert(overlaid(base, writes.insert(row, kind)) =~= overlaid(base, writes).remove(row));
    }
}

/// Once a row cannot be written, the rows after it are not.
proof fn lemma_writing_stops(
    view: TransactionView,
    relation: u64,
    rows: Seq<Row>,
    n: int,
    kind: RelationMutationKind,
)
    requires
        0 <= n <= rows.len(),
    ensures
        view.writing(relation, rows.take(n), kind).0 is Some ==> view.writing(relation, rows, kind)
            == view.writing(relation, rows.take(n), kind),
    decreases rows.len() - n,
{
    if n < rows.len() {
        assert(rows.take(n + 1).drop_last() =~= rows.take(n));
        lemma_writing_stops(view, relation, rows, n + 1, kind);
    } else {
        assert(rows.take(n) =~= rows);
    }
}

/// Rows that a computed relation gives are not written.
proof fn lemma_computed_is_not_written(
    view: TransactionView,
    relation: u64,
    rows: Seq<Row>,
    kind: RelationMutationKind,
)
    requires
        view.base.relations.contains_key(relation),
        view.base.computes(relation),
    ensures
        view.writing(relation, rows, kind).1 == view,
        view.writing(relation, rows, kind).0 == if rows.len() == 0 {
            None
        } else {
            Some(FaultView::ReadOnlyRelation(relation))
        },
    decreases rows.len(),
{
    if rows.len() > 0 {
        lemma_computed_is_not_written(view, relation, rows.drop_last(), kind);
    }
}

impl Transaction {
    /// Puts a row in place of the one that holds its key.
    pub fn replace_functional(&mut self, relation: RelationId, tuple: Tuple) -> (result: Result<
        (),
        KernelError,
    >)
        ensures
            ({
                let (fault, after) = old(self)@.replacing(relation@, tuple@);
                &&& step_view(result) == match fault {
                    Some(fault) => Err::<(), _>(fault),
                    None => Ok(()),
                }
                &&& final(self)@ == after
                &&& final(self)@ == old(self)@ ==> final(self).remembered()
                    == old(self).remembered() || (final(self).remembered().0.len() == 0
                    && final(self).remembered().1.len() == 0)
                &&& final(self)@ != old(self)@ ==> final(self).remembered().0.len() == 0
                    && final(self).remembered().1.len() == 0
            }),
            final(self).prototypes_used() == old(self).prototypes_used(),
    {
        let (fault, functional): (Option<KernelError>, bool) = match self.ground.base.relation(
            relation,
        ) {
            Err(error) => (Some(error), false),
            Ok(state) => match state.validate_tuple(&tuple) {
                Err(error) => (Some(error), false),
                Ok(()) => if self.ground.base.computed_relations().is_computed_relation(
                    state.metadata(),
                ) {
                    (Some(KernelError::ReadOnlyRelation(relation)), false)
                } else {
                    (
                        None,
                        matches!(
                            state.metadata().conflict_policy(),
                            ConflictPolicy::Functional { .. }
                        ),
                    )
                },
            },
        };
        if let Some(error) = fault {
            return Err(error);
        }
        if functional {
            match self.visible_tuple_for_key(relation, &tuple) {
                None => {},
                Some(existing) => match self.apply_local_change(
                    relation,
                    existing,
                    RelationMutationKind::Retract,
                ) {
                    Err(error) => {
                        return Err(error);
                    },
                    Ok(()) => {},
                },
            }
        }
        self.apply_local_change(relation, tuple, RelationMutationKind::Assert)
    }

    /// Takes rows away.
    fn retract_all(&mut self, relation: RelationId, gone: Vec<Tuple>) -> (result: Result<
        (),
        KernelError,
    >)
        ensures
            old(self)@.writing(relation@, rows(gone@), RelationMutationKind::Retract) == (
                match result {
                    Ok(()) => None::<FaultView>,
                    Err(error) => Some(error@),
                },
                final(self)@,
            ),
            final(self)@.base == old(self)@.base,
            final(self).prototypes_used() == old(self).prototypes_used(),
            only_writes_to(old(self)@, final(self)@, relation@),
            result is Ok && old(self)@.base.relations.contains_key(relation@) ==> overlaid(
                final(self)@.base.relations[relation@].rows,
                final(self)@.written_to(relation@),
            ) == overlaid(
                old(self)@.base.relations[relation@].rows,
                old(self)@.written_to(relation@),
            ).difference(rows(gone@).to_set()),
            old(self)@.base.relations.contains_key(relation@) && !old(self)@.base.computes(
                relation@,
            ) && (forall|i: int|
                0 <= i < gone@.len() ==> old(self)@.base.relations[relation@].tuple_fault(
                    (#[trigger] gone@[i])@,
                ) is None) ==> result is Ok,
            final(self).is_fresh_since(*old(self)),
    {
        let ghost first = *self;
        let ghost base = self@.base.relations[relation@].rows;
        let ghost all = rows(gone@);
        let mut i: usize = 0;
        proof {
            assert(all.take(0).to_set() =~= Set::empty());
            assert(overlaid(base, self@.written_to(relation@)).difference(Set::empty())
                =~= overlaid(base, self@.written_to(relation@)));
        }
        while i < gone.len()
            invariant
                i <= gone@.len(),
                all == rows(gone@),
                first == *old(self),
                self@.base == first@.base,
                base == first@.base.relations[relation@].rows,
                self.prototypes_used() == first.prototypes_used(),
                only_writes_to(first@, self@, relation@),
                overlaid(base, self@.written_to(relation@)) == overlaid(
                    base,
                    first@.written_to(relation@),
                ).difference(all.take(i as int).to_set()),
                first@.writing(relation@, all.take(i as int), RelationMutationKind::Retract) == (
                    None::<FaultView>,
                    self@,
                ),
                self.is_fresh_since(first),
            decreases gone@.len() - i,
        {
            let ghost before = self@;
            let ghost row = gone@[i as int]@;
            proof {
                assert(all.take(i + 1).drop_last() =~= all.take(i as int));
                assert(all.take(i + 1).last() == row);
                lemma_writing_stops(
                    first@,
                    relation@,
                    all,
                    i + 1,
                    RelationMutationKind::Retract,
                );
            }
            match self.apply_local_change(
                relation,
                gone[i].clone(),
                RelationMutationKind::Retract,
            ) {
                Err(error) => {
                    return Err(error);
                },
                Ok(()) => {
                    proof {
                        lemma_wrote(before, relation@, row, self@.written_to(relation@)[row]);
                        lemma_overlaid_write(
                            base,
                            before.written_to(relation@),
                            row,
                            RelationMutationKind::Retract,
                        );
                        assert(all.take(i + 1) =~= all.take(i as int).push(row));
                        crate::kernel::algebra::lemma_to_set_push(all.take(i as int), row);
                        let start = overlaid(base, first@.written_to(relation@));
                        assert(start.difference(all.take(i as int).to_set()).remove(row)
                            =~= start.difference(all.take(i + 1).to_set()));
                    }
                },
            }
            i = i + 1;
        }
        assert(all.take(i as int) =~= all);
        Ok(())
    }

    /// Adds rows.
    fn assert_all(&mut self, relation: RelationId, added: Vec<Tuple>) -> (result: Result<
        (),
        KernelError,
    >)
        ensures
            old(self)@.writing(relation@, rows(added@), RelationMutationKind::Assert) == (
                match result {
                    Ok(()) => None::<FaultView>,
                    Err(error) => Some(error@),
                },
                final(self)@,
            ),
            final(self)@.base == old(self)@.base,
            final(self).prototypes_used() == old(self).prototypes_used(),
            only_writes_to(old(self)@, final(self)@, relation@),
            result is Ok && old(self)@.base.relations.contains_key(relation@) ==> overlaid(
                final(self)@.base.relations[relation@].rows,
                final(self)@.written_to(relation@),
            ) == overlaid(
                old(self)@.base.relations[relation@].rows,
                old(self)@.written_to(relation@),
            ).union(rows(added@).to_set()),
            old(self)@.base.relations.contains_key(relation@) && !old(self)@.base.computes(
                relation@,
            ) && !(old(self)@.base.relations[relation@].metadata.conflict_policy is Functional) && (
            forall|i: int|
                0 <= i < added@.len() ==> old(self)@.base.relations[relation@].tuple_fault(
                    (#[trigger] added@[i])@,
                ) is None) ==> result is Ok,
            final(self).is_fresh_since(*old(self)),
    {
        let ghost first = *self;
        let ghost base = self@.base.relations[relation@].rows;
        let ghost all = rows(added@);
        let mut i: usize = 0;
        proof {
            assert(all.take(0).to_set() =~= Set::empty());
            assert(overlaid(base, self@.written_to(relation@)).union(Set::empty()) =~= overlaid(
                base,
                self@.written_to(relation@),
            ));
        }
        while i < added.len()
            invariant
                i <= added@.len(),
                all == rows(added@),
                first == *old(self),
                self@.base == first@.base,
                base == first@.base.relations[relation@].rows,
                self.prototypes_used() == first.prototypes_used(),
                only_writes_to(first@, self@, relation@),
                overlaid(base, self@.written_to(relation@)) == overlaid(
                    base,
                    first@.written_to(relation@),
                ).union(all.take(i as int).to_set()),
                first@.writing(relation@, all.take(i as int), RelationMutationKind::Assert) == (
                    None::<FaultView>,
                    self@,
                ),
                self.is_fresh_since(first),
            decreases added@.len() - i,
        {
            let ghost before = self@;
            let ghost row = added@[i as int]@;
            proof {
                assert(all.take(i + 1).drop_last() =~= all.take(i as int));
                assert(all.take(i + 1).last() == row);
                lemma_writing_stops(
                    first@,
                    relation@,
                    all,
                    i + 1,
                    RelationMutationKind::Assert,
                );
            }
            match self.apply_local_change(
                relation,
                added[i].clone(),
                RelationMutationKind::Assert,
            ) {
                Err(error) => {
                    return Err(error);
                },
                Ok(()) => {
                    proof {
                        lemma_wrote(before, relation@, row, self@.written_to(relation@)[row]);
                        lemma_overlaid_write(
                            base,
                            before.written_to(relation@),
                            row,
                            RelationMutationKind::Assert,
                        );
                        assert(all.take(i + 1) =~= all.take(i as int).push(row));
                        crate::kernel::algebra::lemma_to_set_push(all.take(i as int), row);
                        let start = overlaid(base, first@.written_to(relation@));
                        assert(start.union(all.take(i as int).to_set()).insert(row) =~= start.union(
                            all.take(i + 1).to_set(),
                        ));
                    }
                },
            }
            i = i + 1;
        }
        assert(all.take(i as int) =~= all);
        Ok(())
    }

    /// Whether nothing was written since, or nothing is remembered.
    pub open spec fn is_fresh_since(self, before: Transaction) -> bool {
        (self@ == before@ && self.remembered() == before.remembered()) || (
        self.remembered().0.len() == 0 && self.remembered().1.len() == 0)
    }

    /// Makes the rows of a relation those that are wanted.
    pub fn reconcile_relation(&mut self, relation: RelationId, desired: Vec<Tuple>) -> (result:
        Result<(), KernelError>)
        ensures
            reconciles(
                old(self)@,
                old(self).shown(),
                relation@,
                rows(desired@).to_set(),
                step_view(result),
                final(self)@,
            ),
            final(self)@.base == old(self)@.base,
            final(self).prototypes_used() == old(self).prototypes_used(),
            only_writes_to(old(self)@, final(self)@, relation@),
            final(self).is_fresh_since(*old(self)),
            ({
                let state = old(self)@.base.relations[relation@];
                let wanted = rows(desired@).to_set();
                let now = overlaid(state.rows, old(self)@.written_to(relation@));
                &&& old(self)@.stored(relation@) is Stored && !derives(
                    old(self)@.base.rules,
                    relation@,
                ) ==> {
                    &&& result is Ok ==> overlaid(
                        state.rows,
                        final(self)@.written_to(relation@),
                    ) == wanted
                    &&& !(state.metadata.conflict_policy is Functional) && (forall|row: Row|
                        now.contains(row) || wanted.contains(row) ==> #[trigger] state.tuple_fault(
                            row,
                        ) is None) ==> result is Ok
                }
            }),
    {
        let arity: u16 = match self.ground.base.relation(relation) {
            Err(error) => {
                return Err(error);
            },
            Ok(state) => state.metadata().arity(),
        };
        let ghost wanted_set = rows(desired@).to_set();
        let wanted = finish_tuple_rows(desired);
        let mut i: usize = 0;
        while i < wanted.len()
            invariant
                i <= wanted@.len(),
                *self == *old(self),
                self@.base.relations.contains_key(relation@),
                arity == self@.base.relations[relation@].metadata.arity,
                lists(rows(wanted@), wanted_set),
                wanted_set == rows(desired@).to_set(),
                forall|j: int| 0 <= j < i ==> (#[trigger] wanted@[j])@.len() == arity,
            decreases wanted@.len() - i,
        {
            if wanted[i].arity() != arity as usize {
                proof {
                    let state = old(self)@.base.relations[relation@];
                    assert(rows(wanted@)[i as int] == wanted@[i as int]@);
                    assert(rows(wanted@).to_set().contains(wanted@[i as int]@));
                    assert(state.tuple_fault(wanted@[i as int]@) is Some);
                    let listed = rows(wanted@);
                    assert forall|other: Row|
                        wanted_set.contains(other) && #[trigger] row_less(
                            other,
                            listed[i as int],
                        ) implies other.len() == arity by {
                        let k = choose|k: int| 0 <= k < listed.len() && listed[k] == other;
                        lemma_row_order_total(other, listed[i as int]);
                        if k > i {
                            assert(row_less(listed[i as int], listed[k]));
                        }
                        assert(wanted@[k]@ == other);
                    }
                    assert(is_first_misfit(wanted_set, arity, listed[i as int]));
                }
                return Err(
                    KernelError::ArityMismatch {
                        relation,
                        expected: arity,
                        actual: wanted[i].arity(),
                    },
                );
            }
            i = i + 1;
        }
        proof {
            assert forall|row: Row| wanted_set.contains(row) implies #[trigger] row.len() == arity by {
                assert(rows(wanted@).to_set().contains(row));
                let k = choose|k: int| 0 <= k < rows(wanted@).len() && rows(wanted@)[k] == row;
                assert(wanted@[k]@ == row);
            }
        }
        let bindings = free_bindings(arity);
        let found = match self.scan(relation, &bindings) {
            Err(error) => {
                return Err(error);
            },
            Ok(found) => found,
        };
        let ghost now = overlaid(
            self@.base.relations[relation@].rows,
            self@.written_to(relation@),
        );
        proof {
            lemma_free_matching(now, arity as nat);
        }
        let ghost read = rows(found@);
        let current = finish_tuple_rows(found);
        let ghost seen = rows(current@).to_set();
        let gone = difference_ordered_tuple_rows(copy_tuples(&current), copy_tuples(&wanted));
        let added = difference_ordered_tuple_rows(wanted, current);
        proof {
            let state = self@.base.relations[relation@];
            assert forall|j: int| 0 <= j < gone@.len() implies seen.contains(
                (#[trigger] gone@[j])@,
            ) by {
                assert(rows(gone@)[j] == gone@[j]@);
                assert(rows(gone@).to_set().contains(gone@[j]@));
            }
            assert forall|j: int| 0 <= j < added@.len() implies wanted_set.contains(
                (#[trigger] added@[j])@,
            ) by {
                assert(rows(added@)[j] == added@[j]@);
                assert(rows(added@).to_set().contains(added@[j]@));
            }
            if seen == now {
                assert(now.difference(rows(gone@).to_set()).union(rows(added@).to_set())
                    =~= wanted_set);
            }
        }
        proof {
            if self@.base.computes(relation@) {
                lemma_computed_is_not_written(
                    self@,
                    relation@,
                    rows(gone@),
                    RelationMutationKind::Retract,
                );
                lemma_computed_is_not_written(
                    self@,
                    relation@,
                    rows(added@),
                    RelationMutationKind::Assert,
                );
            }
            assert(lists(rows(gone@), seen.difference(wanted_set)));
            assert(lists(rows(added@), wanted_set.difference(seen)));
            if self@.base.computes(relation@) {
                assert(seen == read.to_set());
                if rows(gone@).len() == 0 && rows(added@).len() == 0 {
                    assert(rows(gone@).to_set() =~= Set::empty());
                    assert(rows(added@).to_set() =~= Set::empty());
                    assert forall|row: Row| seen.contains(row) == wanted_set.contains(row) by {
                        assert(!seen.difference(wanted_set).contains(row));
                        assert(!wanted_set.difference(seen).contains(row));
                    }
                    assert(seen =~= wanted_set);
                }
                if rows(gone@).len() > 0 {
                    assert(rows(gone@).to_set().contains(rows(gone@)[0]));
                }
                if rows(added@).len() > 0 {
                    assert(rows(added@).to_set().contains(rows(added@)[0]));
                }
                assert(self@.base.may_read(
                    self.shown(),
                    relation@,
                    self@.derived_now(),
                    option_views(bindings@),
                    Ok(read),
                ));
            }
        }
        match self.retract_all(relation, gone) {
            Err(error) => {
                return Err(error);
            },
            Ok(()) => {},
        }
        self.assert_all(relation, added)
    }

    /// Takes what evaluating the rules on top of the writes gave.
    pub fn with_derived(
        &mut self,
        outcome: Result<Vec<(RelationId, Vec<Tuple>)>, KernelError>,
    )
        ensures
            final(self)@ == (TransactionView {
                derived: derived_outcome(old(self)@.base.relations, outcome),
                ..old(self)@
            }),
            final(self).remembered().0 == Seq::<CallView>::empty(),
            final(self).remembered().1 == Seq::<ProgramView>::empty(),
            final(self).prototypes_used() == old(self).prototypes_used(),
    {
        proof {
            use_type_invariant(&self.ground);
        }
        let derived = match outcome {
            Err(error) => DerivedRelations::Failed(error),
            Ok(derived) => match build_derived_relations(
                self.ground.base.relations(),
                &derived,
            ) {
                Err(error) => DerivedRelations::Failed(error),
                Ok(states) => DerivedRelations::Evaluated(states),
            },
        };
        self.ground.derived = derived;
        self.cache.clear();
    }

    /// Whether the rows that rules derive for a relation have to be evaluated before the
    /// relation can be read.
    pub fn needs_evaluation(&self, relation: RelationId) -> (result: bool)
        ensures
            result == (derives(self@.base.rules, relation@)
                && self@.derived_now() is Unevaluated),
    {
        if !relation_has_active_rule_head(self.ground.base.rules(), relation) {
            return false;
        }
        if self.is_read_only() {
            self.ground.base.needs_evaluation(relation)
        } else {
            matches!(self.ground.derived, DerivedRelations::Unevaluated)
        }
    }
}

/// Writing a row changes what was done to that row only.
pub proof fn lemma_wrote(
    before: TransactionView,
    relation: u64,
    row: Row,
    kind: RelationMutationKind,
)
    ensures
        only_writes_to(before, before.wrote(relation, row, kind), relation),
        before.wrote(relation, row, kind).written_to(relation) == before.written_to(
            relation,
        ).insert(row, kind),
{
    let after = before.wrote(relation, row, kind);
    assert forall|other: u64| other != relation implies #[trigger] after.written_to(other)
        == before.written_to(other) by {}
}

/// Puts an identity in its place among ordered ones.
pub fn place_id(ids: &mut Vec<RelationId>, id: RelationId)
    requires
        ascending(raw_ids(old(ids)@)),
    ensures
        ascending(raw_ids(final(ids)@)),
        raw_ids(final(ids)@).to_set() == raw_ids(old(ids)@).to_set().insert(id@),
{
    let ghost before = raw_ids(ids@);
    let own: u64 = id.raw();
    let mut at: usize = 0;
    while at < ids.len() && ids[at].raw() < own
        invariant
            at <= ids@.len(),
            before == raw_ids(ids@),
            own == id@,
            forall|j: int| 0 <= j < at ==> (#[trigger] before[j]) < own,
        decreases ids@.len() - at,
    {
        assert(before[at as int] == ids@[at as int]@);
        at = at + 1;
    }
    if at < ids.len() && ids[at].raw() == own {
        proof {
            assert(before[at as int] == ids@[at as int]@);
            assert(before.to_set().contains(own));
            assert(before.to_set().insert(own) =~= before.to_set());
        }
        return ;
    }
    proof {
        if at < ids@.len() {
            assert(before[at as int] == ids@[at as int]@);
        }
    }
    ids.insert(at, id);
    proof {
        let after = raw_ids(ids@);
        assert(after =~= before.insert(at as int, own));
        assert forall|i: int, j: int| 0 <= i < j < after.len() implies after[i] < after[j] by {
            let a = if i < at {
                i
            } else {
                i - 1
            };
            let b = if j < at {
                j
            } else {
                j - 1
            };
            if i == at {
                assert(after[j] == before[b]);
                if b > at {
                    assert(before[at as int] < before[b]);
                }
            } else if j == at {
                assert(after[i] == before[a]);
            } else {
                assert(after[i] == before[a]);
                assert(after[j] == before[b]);
            }
        }
        before.insert_ensures(at as int, own);
        assert forall|v: u64| after.to_set().contains(v) == before.to_set().insert(own).contains(
            v,
        ) by {
            if after.contains(v) {
                let k = choose|k: int| 0 <= k < after.len() && after[k] == v;
                if k < at {
                    assert(before[k] == v);
                } else if k > at {
                    assert(before[k - 1] == v);
                }
            }
            if before.contains(v) {
                let k = choose|k: int| 0 <= k < before.len() && before[k] == v;
                if k < at {
                    assert(after[k] == v);
                } else {
                    assert(after[k + 1] == v);
                }
            }
            assert(after[at as int] == own);
        }
        assert(after.to_set() =~= before.to_set().insert(own));
    }
}

/// Whether only one relation was written to.
pub open spec fn only_writes_to(before: TransactionView, after: TransactionView, relation: u64) -> bool {
    &&& before.base == after.base
    &&& forall|other: u64|
        other != relation ==> #[trigger] after.written_to(other) == before.written_to(other)
}

/// What a transaction sees of the relations that methods are found in.
pub open spec fn view_seen(view: TransactionView, relations: DispatchRelations) -> DispatchSeen {
    DispatchSeen {
        selectors: view.visible(relations.method_selector@),
        params: view.visible(relations.param@),
        delegates: view.visible(relations.delegates@),
    }
}

/// How what a transaction sees of a relation stands to what its snapshot shows of it.
pub enum BaseStanding {
    /// The snapshot shows no such relation.
    Unknown,
    /// The transaction sees what the snapshot shows.
    Same,
    /// The transaction may see something else.
    Other,
}

impl TransactionView {
    /// How what is seen of a relation stands to what the snapshot shows of it, once something was
    /// written.
    pub open spec fn standing(self, relation: u64) -> BaseStanding {
        if self.writes.contains_key(relation) || derives(self.base.rules, relation) {
            BaseStanding::Other
        } else if !self.base.relations.contains_key(relation) {
            BaseStanding::Unknown
        } else if self.base.computes(relation) {
            BaseStanding::Other
        } else {
            BaseStanding::Same
        }
    }

    /// The same of the relations that methods are found in: the first that is not the same.
    pub open spec fn dispatch_standing(self, relations: DispatchRelations) -> (BaseStanding, u64) {
        if self.writes.dom() == Set::<u64>::empty() {
            (BaseStanding::Same, relations.method_selector@)
        } else if !(self.standing(relations.method_selector@) is Same) {
            (self.standing(relations.method_selector@), relations.method_selector@)
        } else if !(self.standing(relations.param@) is Same) {
            (self.standing(relations.param@), relations.param@)
        } else {
            (self.standing(relations.delegates@), relations.delegates@)
        }
    }

    /// Why a remembered lookup of methods fails before anything is read, where it does: a relation
    /// that they are found in does not exist, and nothing before it differs from the snapshot.
    pub open spec fn dispatch_fault(self, relations: DispatchRelations) -> Option<FaultView> {
        match self.dispatch_standing(relations) {
            (BaseStanding::Unknown, relation) => Some(FaultView::UnknownRelation(relation)),
            _ => None,
        }
    }
}

/// Whether the methods that are remembered for a call are those that apply.
pub open spec fn call_right(
    view: TransactionView,
    prototypes: PrimitivePrototypes,
    call: CallView,
) -> bool {
    &&& forall|facts: DispatchFacts| #[trigger]
        may_be(view_seen(view, call.relations), facts) ==> lists_values(
            call.methods,
            applicable(facts, prototypes, call.selector, Offer::Positional(call.args)),
        )
    &&& fails_rightly(view_seen(view, call.relations), call.relations, call.selector, None)
    &&& view.dispatch_fault(call.relations) is None
}

/// The program of a method among rows of methods and programs.
pub open spec fn program_of(programs: Set<Row>, method: ValueView) -> Option<ValueView> {
    let listed = listing(matching(programs, of_key(method)));
    if listed.len() > 0 {
        Some(listed[0][1])
    } else {
        None
    }
}

/// Whether the program that is remembered for a method is its program.
pub open spec fn program_right(view: TransactionView, program: ProgramView) -> bool {
    &&& seen_rows(view.visible(program.relation), 2) matches Some(programs) ==> program.program
        == program_of(programs, program.method)
    &&& scanned(view.visible(program.relation), program.relation, of_key(program.method)) matches Some(
        seen,
    ) ==> seen is Ok
}

/// A result whose value is not shared.
pub open spec fn unshared(result: Result<Arc<Vec<Value>>, KernelError>) -> Result<
    Vec<Value>,
    KernelError,
> {
    match result {
        Ok(found) => Ok(*found),
        Err(error) => Err(error),
    }
}

/// Whether a call was answered with what is remembered for it.
pub open spec fn recalls_call(
    calls: Seq<CallView>,
    relations: DispatchRelations,
    selector: ValueView,
    args: Seq<ValueView>,
    result: Result<Vec<Value>, KernelError>,
) -> bool {
    exists|i: int|
        0 <= i < calls.len() && is_call(#[trigger] calls[i], relations, selector, args) && (
        result matches Ok(found) && views(found@) == calls[i].methods)
}

/// Whether a program was answered with what is remembered for its method.
pub open spec fn recalls_program(
    programs: Seq<ProgramView>,
    relation: u64,
    method: ValueView,
    result: Result<Option<Value>, KernelError>,
) -> bool {
    exists|i: int|
        0 <= i < programs.len() && (#[trigger] programs[i]).relation == relation
            && programs[i].method == method && (result matches Ok(found) && option_view(found)
            == programs[i].program)
}

impl Transaction {
    /// Whether everything that is remembered is so.
    pub open spec fn coherent(self) -> bool {
        &&& forall|i: int|
            0 <= i < self.remembered().0.len() ==> call_right(
                self@,
                self.prototypes_used(),
                #[trigger] self.remembered().0[i],
            )
        &&& forall|i: int|
            0 <= i < self.remembered().1.len() ==> program_right(
                self@,
                #[trigger] self.remembered().1[i],
            )
    }

    fn relation_standing(&self, relation: RelationId) -> (standing: BaseStanding)
        ensures
            standing == self@.standing(relation@),
    {
        if self.has_local_writes(relation) || relation_has_active_rule_head(
            self.ground.base.rules(),
            relation,
        ) {
            return BaseStanding::Other;
        }
        match self.ground.base.relation(relation) {
            Err(_) => BaseStanding::Unknown,
            Ok(state) => if self.ground.base.computed_relations().is_computed_relation(
                state.metadata(),
            ) {
                BaseStanding::Other
            } else {
                BaseStanding::Same
            },
        }
    }

    /// Whether the transaction sees what its snapshot shows of the relations that methods are found
    /// in.
    pub fn dispatch_view_matches_base(&self, relations: DispatchRelations) -> (result: Result<
        bool,
        KernelError,
    >)
        ensures
            match self@.dispatch_standing(relations) {
                (BaseStanding::Same, _) => result == Ok::<bool, KernelError>(true),
                (BaseStanding::Other, _) => result == Ok::<bool, KernelError>(false),
                (BaseStanding::Unknown, relation) => result matches Err(error) && error@
                    == FaultView::UnknownRelation(relation),
            },
    {
        if self.is_read_only() {
            return Ok(true);
        }
        match self.relation_standing(relations.method_selector) {
            BaseStanding::Unknown => {
                return Err(KernelError::UnknownRelation(relations.method_selector));
            },
            BaseStanding::Other => {
                return Ok(false);
            },
            BaseStanding::Same => {},
        }
        match self.relation_standing(relations.param) {
            BaseStanding::Unknown => {
                return Err(KernelError::UnknownRelation(relations.param));
            },
            BaseStanding::Other => {
                return Ok(false);
            },
            BaseStanding::Same => {},
        }
        match self.relation_standing(relations.delegates) {
            BaseStanding::Unknown => Err(KernelError::UnknownRelation(relations.delegates)),
            BaseStanding::Other => Ok(false),
            BaseStanding::Same => Ok(true),
        }
    }

    /// The methods that apply to a call with arguments in order. While the transaction sees what its
    /// snapshot shows of them, calls that are the same share one list.
    pub fn cached_applicable_positional_methods(
        &mut self,
        relations: DispatchRelations,
        selector: &Value,
        args: &[Value],
    ) -> (result: Result<Arc<Vec<Value>>, KernelError>)
        requires
            old(self).coherent(),
        ensures
            final(self).coherent(),
            final(self)@ == old(self)@,
            final(self).prototypes_used() == old(self).prototypes_used(),
            match old(self)@.dispatch_fault(relations) {
                Some(fault) => fault_of(result) == Some(fault),
                None => fails_rightly(
                    view_seen(old(self)@, relations),
                    relations,
                    selector@,
                    fault_of(result),
                ),
            },
            result matches Ok(found) ==> forall|facts: DispatchFacts| #[trigger]
                may_be(view_seen(old(self)@, relations), facts) ==> lists_values(
                    views(found@),
                    applicable(
                        facts,
                        old(self).prototypes_used(),
                        selector@,
                        Offer::Positional(views(args@)),
                    ),
                ),
            recalls_call(
                old(self).remembered().0,
                relations,
                selector@,
                views(args@),
                unshared(result),
            ) || old(self)@.dispatch_fault(relations) is Some || finds_names(
                &*old(self),
                relations,
                old(self).prototypes_used(),
                selector@,
                Offer::Positional(views(args@)),
                unshared(result),
            ),
    {
        let state: u8 = self.cache.state();
        let ghost before = *self;
        if state & POSITIONAL_DISPATCH_CACHED != 0 {
            match self.cache.positional(relations, selector, args, state) {
                Some(methods) => {
                    proof {
                        let i = first_call(
                            before.cache@.calls,
                            relations,
                            selector@,
                            views(args@),
                        )->0;
                        assert(before.remembered().0[i] == before.cache@.calls[i]);
                        assert(call_right(
                            before@,
                            before.prototypes_used(),
                            before.remembered().0[i],
                        ));
                    }
                    return Ok(methods);
                },
                None => {},
            }
        }
        let shares: bool = match self.dispatch_view_matches_base(relations) {
            Err(error) => {
                return Err(error);
            },
            Ok(matches) => matches,
        };
        let known = if shares {
            self.cache.shared_positional(relations, selector, args)
        } else {
            None
        };
        let methods = match known {
            Some(methods) => {
                proof {
                    let n = before.cache@.calls.len();
                    let i = first_call(before.cache@.shared, relations, selector@, views(args@))->0;
                    assert(before.remembered().0[n + i] == before.cache@.shared[i]);
                }
                methods
            },
            None => {
                let prototypes = self.prototypes;
                let names = match applicable_positional_methods(
                    self,
                    relations,
                    &prototypes,
                    selector,
                    args,
                ) {
                    Err(error) => {
                        return Err(error);
                    },
                    Ok(names) => names,
                };
                let methods = Arc::new(names);
                if shares {
                    self.cache.share_positional(relations, selector, args, methods.clone());
                }
                methods
            },
        };
        if state & POSITIONAL_DISPATCH_CACHED != 0 {
            self.cache.remember_positional(relations, selector, args, methods.clone());
        } else if state & POSITIONAL_DISPATCH_SEEN == 0 {
            self.cache.mark_positional_seen(state);
        } else {
            self.cache.promote_positional(relations, selector, args, methods.clone(), state);
        }
        proof {
            assert forall|facts: DispatchFacts| #[trigger]
                may_be(view_seen(before@, relations), facts) implies may_be(
                dispatch_seen(&before, relations),
                facts,
            ) by {}
            let added = CallView {
                relations,
                selector: selector@,
                args: views(args@),
                methods: views(methods@),
            };
            assert(call_right(before@, before.prototypes_used(), added));
            assert forall|i: int| 0 <= i < self.remembered().0.len() implies call_right(
                self@,
                self.prototypes_used(),
                #[trigger] self.remembered().0[i],
            ) by {
                let call = self.remembered().0[i];
                let inner = self.cache@.calls.len() as int;
                let were = before.cache@.calls.len() as int;
                if i < inner {
                    assert(call == self.cache@.calls[i]);
                    if i < were {
                        assert(call == before.cache@.calls[i]);
                        assert(before.remembered().0[i] == call);
                    } else {
                        assert(call == added);
                    }
                } else {
                    assert(call == self.cache@.shared[i - inner]);
                    if i - inner < before.cache@.shared.len() {
                        assert(call == before.cache@.shared[i - inner]);
                        assert(before.remembered().0[were + (i - inner)] == call);
                    } else {
                        assert(call == added);
                    }
                }
            }
            assert(self.remembered().1 == before.remembered().1);
            assert forall|i: int| 0 <= i < self.remembered().1.len() implies program_right(
                self@,
                #[trigger] self.remembered().1[i],
            ) by {
                assert(program_right(before@, before.remembered().1[i]));
            }
        }
        Ok(methods)
    }

    /// The program of a method, remembered where it was asked for before.
    pub fn cached_method_program(&mut self, relation: RelationId, method: &Value) -> (result: Result<
        Option<Value>,
        KernelError,
    >)
        requires
            old(self).coherent(),
        ensures
            final(self).coherent(),
            final(self)@ == old(self)@,
            final(self).prototypes_used() == old(self).prototypes_used(),
            finds_program(old(self)@.visible(relation@), relation@, method@, result),
            recalls_program(old(self).remembered().1, relation@, method@, result)
                || finds_program(seen_as(&*old(self), relation@, 2), relation@, method@, result),
    {
        let state: u8 = self.cache.state();
        let ghost before = *self;
        if state & METHOD_PROGRAM_ENABLED == 0 {
            return method_program_id(self, relation, method);
        }
        if state & METHOD_PROGRAM_CACHED != 0 {
            match self.cache.method_program(relation, method) {
                Some(program) => {
                    proof {
                        let i = first_program(self.remembered().1, relation@, method@)->0;
                        assert(program_right(self@, self.remembered().1[i]));
                    }
                    return Ok(program);
                },
                None => {},
            }
        }
        let program = match method_program_id(self, relation, method) {
            Err(error) => {
                return Err(error);
            },
            Ok(program) => program,
        };
        self.cache.consider_method_program(relation, method, copy_program(&program), state);
        proof {
            let added = ProgramView {
                relation: relation@,
                method: method@,
                program: option_view(program),
            };
            assert(program_right(before@, added));
            assert forall|i: int| 0 <= i < self.remembered().1.len() implies program_right(
                self@,
                #[trigger] self.remembered().1[i],
            ) by {
                if i < before.remembered().1.len() {
                    assert(self.remembered().1[i] == before.remembered().1[i]);
                } else {
                    assert(self.remembered().1[i] == added);
                }
            }
            assert(self.remembered().0 == before.remembered().0);
            assert forall|i: int| 0 <= i < self.remembered().0.len() implies call_right(
                self@,
                self.prototypes_used(),
                #[trigger] self.remembered().0[i],
            ) by {
                assert(call_right(before@, before.prototypes_used(), before.remembered().0[i]));
            }
        }
        Ok(program)
    }

    /// The calls that apply, with their arguments, in the order of the methods.
    pub fn cached_applicable_method_calls(
        &self,
        relations: DispatchRelations,
        selector: &Value,
        roles: &[(Value, Value)],
    ) -> (result: Result<Vec<ApplicableMethodCall>, KernelError>)
        ensures
            looks_up_calls(
                self@.dispatch_fault(relations),
                self,
                relations,
                self.prototypes_used(),
                selector@,
                role_views(roles@),
                result,
            ),
    {
        applicable_method_calls(self, relations, &self.prototypes, selector, roles)
    }

    /// The same for roles that are in order already.
    pub fn cached_applicable_method_calls_normalized(
        &self,
        relations: DispatchRelations,
        selector: &Value,
        roles: &[(Value, Value)],
    ) -> (result: Result<Vec<ApplicableMethodCall>, KernelError>)
        ensures
            looks_up_calls(
                self@.dispatch_fault(relations),
                self,
                relations,
                self.prototypes_used(),
                selector@,
                role_views(roles@),
                result,
            ),
    {
        applicable_method_calls_normalized(self, relations, &self.prototypes, selector, roles)
    }
}

/// The methods that apply to a call with arguments in order, as the transaction remembers them.
pub fn applicable_positional_methods_cached(
    transaction: &mut Transaction,
    relations: DispatchRelations,
    selector: &Value,
    args: &[Value],
) -> (result: Result<Arc<Vec<Value>>, KernelError>)
    requires
        old(transaction).coherent(),
    ensures
        final(transaction).coherent(),
        final(transaction)@ == old(transaction)@,
        final(transaction).prototypes_used() == old(transaction).prototypes_used(),
        match old(transaction)@.dispatch_fault(relations) {
            Some(fault) => fault_of(result) == Some(fault),
            None => fails_rightly(
                view_seen(old(transaction)@, relations),
                relations,
                selector@,
                fault_of(result),
            ),
        },
        result matches Ok(found) ==> forall|facts: DispatchFacts| #[trigger]
            may_be(view_seen(old(transaction)@, relations), facts) ==> lists_values(
                views(found@),
                applicable(
                    facts,
                    old(transaction).prototypes_used(),
                    selector@,
                    Offer::Positional(views(args@)),
                ),
            ),
        recalls_call(
            old(transaction).remembered().0,
            relations,
            selector@,
            views(args@),
            unshared(result),
        ) || old(transaction)@.dispatch_fault(relations) is Some || finds_names(
            &*old(transaction),
            relations,
            old(transaction).prototypes_used(),
            selector@,
            Offer::Positional(views(args@)),
            unshared(result),
        ),
{
    transaction.cached_applicable_positional_methods(relations, selector, args)
}

impl DispatchRead for Transaction {
    open spec fn lookup_fault(&self, relations: DispatchRelations) -> Option<FaultView> {
        self@.dispatch_fault(relations)
    }

    fn looked_up_method_calls(
        &self,
        relations: DispatchRelations,
        prototypes: &PrimitivePrototypes,
        selector: &Value,
        roles: &[(Value, Value)],
    ) -> (result: Result<Vec<ApplicableMethodCall>, KernelError>) {
        match self.dispatch_view_matches_base(relations) {
            Err(error) => Err(error),
            Ok(_) => applicable_method_calls_uncached(
                self,
                relations,
                prototypes,
                selector,
                roles,
            ),
        }
    }
}

/// A transaction that has written nothing sees what its snapshot shows.
pub proof fn law_a_fresh_transaction_sees_its_snapshot(view: TransactionView, relation: u64)
    requires
        view.writes.dom() == Set::<u64>::empty(),
    ensures
        view.stored(relation) == view.base.stored(relation),
        view.visible(relation) == view.base.visible(relation),
{
    assert(!view.writes.contains_key(relation)) by {
        assert(!view.writes.dom().contains(relation));
    }
    let rows = view.base.relations[relation].rows;
    assert(overlaid(rows, Map::empty()) =~= rows);
}

/// A transaction sees what it wrote, at once, and all else as before.
pub proof fn law_a_transaction_sees_its_writes(
    view: TransactionView,
    relation: u64,
    row: Row,
    kind: RelationMutationKind,
)
    requires
        view.write_fault(relation, row, kind) is None,
    ensures
        ({
            let after = view.wrote(relation, row, kind);
            &&& view.stored(relation) matches Visible::Stored(arity, Ok(before))
            &&& after.stored(relation) == Visible::Stored(
                arity,
                Ok(
                    if kind is Assert {
                        before.insert(row)
                    } else {
                        before.remove(row)
                    },
                ),
            )
            &&& forall|other: u64|
                other != relation ==> #[trigger] after.stored(other) == view.stored(other)
        }),
{
    let base = view.base.relations[relation].rows;
    lemma_wrote(view, relation, row, kind);
    lemma_overlaid_write(base, view.written_to(relation), row, kind);
    let after = view.wrote(relation, row, kind);
    assert forall|other: u64| other != relation implies #[trigger] after.stored(other)
        == view.stored(other) by {
        assert(after.written_to(other) == view.written_to(other));
    }
}

/// Whether no two rows of a set have the same key.
pub open spec fn keys_apart(set: Set<Row>, key: Seq<u16>) -> bool {
    forall|a: Row, b: Row|
        #![trigger set.contains(a), set.contains(b)]
        set.contains(a) && set.contains(b) && project(a, key) == project(b, key) ==> a == b
}

/// Where keys are apart, the row with a key is the first with it.
pub proof fn lemma_keys_apart(set: Set<Row>, key: Seq<u16>, row: Row)
    requires
        keys_apart(set, key),
        set.contains(row),
    ensures
        first_with_key(set, key, project(row, key)) == Some(row),
{
    assert(is_first_with(set, key, project(row, key), row));
    lemma_first_with_key(set, key, project(row, key), row);
}

/// Of a relation that allows one row for each key, a transaction never sees two rows with
/// the same key because of a row that it wrote.
pub proof fn law_writes_keep_keys_apart(
    view: TransactionView,
    relation: u64,
    row: Row,
    kind: RelationMutationKind,
    key: Seq<u16>,
)
    requires
        view.write_fault(relation, row, kind) is None,
        view.base.relations[relation].metadata.conflict_policy == PolicyView::Functional(key),
        keys_apart(
            overlaid(view.base.relations[relation].rows, view.written_to(relation)),
            key,
        ),
    ensures
        keys_apart(
            overlaid(
                view.base.relations[relation].rows,
                view.wrote(relation, row, kind).written_to(relation),
            ),
            key,
        ),
{
    let base = view.base.relations[relation].rows;
    let before = overlaid(base, view.written_to(relation));
    lemma_wrote(view, relation, row, kind);
    lemma_overlaid_write(base, view.written_to(relation), row, kind);
    let after = overlaid(base, view.wrote(relation, row, kind).written_to(relation));
    assert forall|a: Row, b: Row|
        #![trigger after.contains(a), after.contains(b)]
        after.contains(a) && after.contains(b) && project(a, key) == project(b, key) implies a
        == b by {
        if before.contains(a) && before.contains(b) {
        } else if before.contains(a) {
            lemma_keys_apart(before, key, a);
        } else if before.contains(b) {
            lemma_keys_apart(before, key, b);
        }
    }
}

/// Putting a row in place of the one that holds its key leaves it as the only row with
/// that key.
pub proof fn law_a_replaced_row_gives_way(
    view: TransactionView,
    relation: u64,
    row: Row,
    key: Seq<u16>,
)
    requires
        view.replacing(relation, row).0 is None,
        view.base.relations[relation].metadata.conflict_policy == PolicyView::Functional(key),
        keys_apart(
            overlaid(view.base.relations[relation].rows, view.written_to(relation)),
            key,
        ),
    ensures
        ({
            let after = view.replacing(relation, row).1;
            let seen = overlaid(
                view.base.relations[relation].rows,
                after.written_to(relation),
            );
            &&& keys_apart(seen, key)
            &&& seen.contains(row)
            &&& after.holder(relation, row) == Some(row)
        }),
{
    let base = view.base.relations[relation].rows;
    let between = match view.holder(relation, row) {
        None => view,
        Some(existing) => {
            law_writes_keep_keys_apart(
                view,
                relation,
                existing,
                RelationMutationKind::Retract,
                key,
            );
            view.wrote(relation, existing, RelationMutationKind::Retract)
        },
    };
    law_writes_keep_keys_apart(between, relation, row, RelationMutationKind::Assert, key);
    lemma_wrote(between, relation, row, RelationMutationKind::Assert);
    lemma_overlaid_write(
        base,
        between.written_to(relation),
        row,
        RelationMutationKind::Assert,
    );
    let after = between.wrote(relation, row, RelationMutationKind::Assert);
    lemma_keys_apart(overlaid(base, after.written_to(relation)), key, row);
}

} // verus!
