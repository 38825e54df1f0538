//! What a snapshot's relations can do, and what reading them costs.

use crate::kernel::algebra::{equality_join_tuple_rows, joined_rows, lists, matching, of_arity,
    within, Row};
use crate::kernel::computed::{given, given_count};
use crate::kernel::error::{too_narrow, FaultView, KernelError};
use crate::kernel::metadata::{copy_positions, natural_positions, RelationId};
use crate::kernel::read::{scanned, ComputedRelationRead, Visible};
use crate::kernel::relation::{domain_of, estimated, RelationState, RelationView, ScanEstimate,
    ValueDomain};
use crate::kernel::rules::{derives, relation_has_active_rule_head};
use crate::kernel::snapshot::{DerivedView, Snapshot, SnapshotView};
use crate::kernel::transaction::Transaction;
use crate::tuple::{rows, Tuple};
use crate::value::{option_views, Value};
use vstd::prelude::*;

verus! {

/// Where a relation's rows come from.
#[derive(Clone, Copy, Debug, PartialEq, Eq, Structural)]
pub enum RelationSource {
    Snapshot,
    Computed,
    TransactionOverlay,
}

/// What can be done with a relation.
#[derive(Debug, PartialEq)]
pub struct RelationCapabilities {
    pub source: RelationSource,
    pub cardinality: Option<usize>,
    pub exact_indexes: Vec<Vec<u16>>,
    pub value_domains: Vec<ValueDomain>,
    pub supports_streaming: bool,
    pub supports_batch_export: bool,
}

/// What can be done with a relation, apart from how that is stored.
pub struct CapabilitiesView {
    pub source: RelationSource,
    pub cardinality: Option<usize>,
    pub exact_indexes: Seq<Seq<u16>>,
    pub value_domains: Seq<ValueDomain>,
    pub supports_streaming: bool,
    pub supports_batch_export: bool,
}

impl View for RelationCapabilities {
    type V = CapabilitiesView;

    open spec fn view(&self) -> CapabilitiesView {
        CapabilitiesView {
            source: self.source,
            cardinality: self.cardinality,
            exact_indexes: self.exact_indexes@.map_values(|index: Vec<u16>| index@),
            value_domains: self.value_domains@,
            supports_streaming: self.supports_streaming,
            supports_batch_export: self.supports_batch_export,
        }
    }
}

/// Whether all values are held in place.
pub open spec fn all_immediate(domains: Seq<ValueDomain>) -> bool {
    forall|i: int| 0 <= i < domains.len() ==> (#[trigger] domains[i]) == ValueDomain::Immediate
}

impl RelationCapabilities {
    /// Whether all values are held in place.
    pub fn immediate_only(&self) -> (result: bool)
        ensures
            result == all_immediate(self.value_domains@),
    {
        let mut i: usize = 0;
        while i < self.value_domains.len()
            invariant
                i <= self.value_domains@.len(),
                forall|j: int|
                    0 <= j < i ==> (#[trigger] self.value_domains@[j]) == ValueDomain::Immediate,
            decreases self.value_domains@.len() - i,
        {
            match self.value_domains[i] {
                ValueDomain::Immediate => {},
                _ => {
                    return false;
                },
            }
            i = i + 1;
        }
        true
    }
}

/// What is known of the values of a column of two relations together.
pub open spec fn combined_domain(left: ValueDomain, right: ValueDomain) -> ValueDomain {
    match (left, right) {
        (ValueDomain::Unknown, _) | (_, ValueDomain::Unknown) => ValueDomain::Unknown,
        (ValueDomain::Immediate, ValueDomain::Immediate) => ValueDomain::Immediate,
        (ValueDomain::Heap, ValueDomain::Heap) => ValueDomain::Heap,
        _ => ValueDomain::Mixed,
    }
}

/// What is known of the values of two relations together, each counting only where it has
/// rows.
pub open spec fn combined_domains(
    left: Seq<ValueDomain>,
    left_rows: nat,
    right: Seq<ValueDomain>,
    right_rows: nat,
) -> Seq<ValueDomain> {
    if left_rows == 0 {
        right
    } else if right_rows == 0 {
        left
    } else {
        Seq::new(
            if left.len() <= right.len() {
                left.len()
            } else {
                right.len()
            },
            |i: int| combined_domain(left[i], right[i]),
        )
    }
}

fn copy_domains(domains: &[ValueDomain]) -> (copy: Vec<ValueDomain>)
    ensures
        copy@ == domains@,
{
    let mut copy: Vec<ValueDomain> = Vec::new();
    let mut i: usize = 0;
    while i < domains.len()
        invariant
            i <= domains@.len(),
            copy@ == domains@.take(i as int),
        decreases domains@.len() - i,
    {
        copy.push(domains[i]);
        i = i + 1;
        assert(copy@ =~= domains@.take(i as int));
    }
    assert(copy@ =~= domains@);
    copy
}

/// What is known of the values of two relations together.
pub fn combine_value_domains(
    left: &[ValueDomain],
    left_rows: usize,
    right: &[ValueDomain],
    right_rows: usize,
) -> (combined: Vec<ValueDomain>)
    ensures
        combined@ == combined_domains(left@, left_rows as nat, right@, right_rows as nat),
{
    if left_rows == 0 {
        return copy_domains(right);
    }
    if right_rows == 0 {
        return copy_domains(left);
    }
    let mut combined: Vec<ValueDomain> = Vec::new();
    let mut i: usize = 0;
    while i < left.len() && i < right.len()
        invariant
            i <= left@.len(),
            i <= right@.len(),
            combined@.len() == i,
            forall|j: int|
                0 <= j < i ==> (#[trigger] combined@[j]) == combined_domain(left@[j], right@[j]),
        decreases left@.len() - i,
    {
        let domain = match (left[i], right[i]) {
            (ValueDomain::Unknown, _) | (_, ValueDomain::Unknown) => ValueDomain::Unknown,
            (ValueDomain::Immediate, ValueDomain::Immediate) => ValueDomain::Immediate,
            (ValueDomain::Heap, ValueDomain::Heap) => ValueDomain::Heap,
            _ => ValueDomain::Mixed,
        };
        combined.push(domain);
        i = i + 1;
    }
    assert(combined@ =~= combined_domains(left@, left_rows as nat, right@, right_rows as nat));
    combined
}

/// What is known of the values of a relation's columns.
pub open spec fn domains_of(relation: RelationView) -> Seq<ValueDomain> {
    Seq::new(relation.metadata.arity as nat, |p: int| domain_of(relation.rows, p))
}

/// What can be done with a relation, without the rows that rules derive.
pub open spec fn stored_capabilities(snapshot: SnapshotView, relation: u64) -> CapabilitiesView {
    let computed = snapshot.computes(relation);
    let state = snapshot.relations[relation];
    CapabilitiesView {
        source: if computed {
            RelationSource::Computed
        } else {
            RelationSource::Snapshot
        },
        cardinality: if computed {
            None
        } else {
            Some(state.rows.len() as usize)
        },
        exact_indexes: state.metadata.indexes,
        value_domains: if computed {
            Seq::new(state.metadata.arity as nat, |p: int| ValueDomain::Unknown)
        } else {
            domains_of(state)
        },
        supports_streaming: true,
        supports_batch_export: !computed,
    }
}

/// The sum of two numbers, or the greatest number where that is less.
pub open spec fn saturating_sum(a: nat, b: nat) -> usize {
    if a + b > usize::MAX {
        usize::MAX
    } else {
        (a + b) as usize
    }
}

/// What can be done with a relation, with the rows that rules derive.
pub open spec fn capabilities_with(
    base: CapabilitiesView,
    derived: RelationView,
) -> CapabilitiesView {
    let base_rows = match base.cardinality {
        Some(count) => count as nat,
        None => 0,
    };
    CapabilitiesView {
        cardinality: Some(saturating_sum(base_rows, derived.rows.len())),
        value_domains: combined_domains(
            base.value_domains,
            base_rows,
            domains_of(derived),
            derived.rows.len(),
        ),
        ..base
    }
}

/// What can be done with a relation, with the rows that rules derive, as far as they are
/// known.
pub open spec fn full_capabilities(snapshot: SnapshotView, relation: u64) -> Result<
    CapabilitiesView,
    FaultView,
> {
    if !snapshot.relations.contains_key(relation) {
        Err(FaultView::UnknownRelation(relation))
    } else if snapshot.computes(relation) || !derives(snapshot.rules, relation) {
        Ok(stored_capabilities(snapshot, relation))
    } else {
        match snapshot.derived {
            DerivedView::Evaluated(states) => Ok(
                if states.contains_key(relation) {
                    capabilities_with(stored_capabilities(snapshot, relation), states[relation])
                } else {
                    stored_capabilities(snapshot, relation)
                },
            ),
            DerivedView::Failed(fault) => Err(fault),
            DerivedView::Unevaluated => Err(FaultView::RulesUnevaluated(relation)),
        }
    }
}

/// Whether what can be done with a relation is as expected.
pub open spec fn tells_capabilities(
    result: Result<RelationCapabilities, KernelError>,
    expected: Result<CapabilitiesView, FaultView>,
) -> bool {
    match (result, expected) {
        (Ok(found), Ok(view)) => found@ == view,
        (Err(error), Err(fault)) => error@ == fault,
        _ => false,
    }
}

fn unknown_domains(arity: u16) -> (domains: Vec<ValueDomain>)
    ensures
        domains@ == Seq::new(arity as nat, |p: int| ValueDomain::Unknown),
{
    let mut domains: Vec<ValueDomain> = Vec::new();
    let mut i: u16 = 0;
    while i < arity
        invariant
            i <= arity,
            domains@ == Seq::new(i as nat, |p: int| ValueDomain::Unknown),
        decreases arity - i,
    {
        domains.push(ValueDomain::Unknown);
        i = i + 1;
        assert(domains@ =~= Seq::new(i as nat, |p: int| ValueDomain::Unknown));
    }
    domains
}

fn copy_indexes(state: &RelationState) -> (indexes: Vec<Vec<u16>>)
    ensures
        indexes@.map_values(|index: Vec<u16>| index@) == state@.metadata.indexes,
{
    let own = state.metadata().indexes();
    let mut indexes: Vec<Vec<u16>> = Vec::new();
    let mut i: usize = 0;
    while i < own.len()
        invariant
            i <= own@.len() == state@.metadata.indexes.len(),
            forall|j: int|
                0 <= j < own@.len() ==> (#[trigger] own@[j]).positions@ == state@.metadata.indexes[j],
            indexes@.len() == i,
            forall|j: int| 0 <= j < i ==> (#[trigger] indexes@[j])@ == state@.metadata.indexes[j],
        decreases own@.len() - i,
    {
        indexes.push(copy_positions(own[i].positions()));
        i = i + 1;
    }
    assert(indexes@.map_values(|index: Vec<u16>| index@) =~= state@.metadata.indexes);
    indexes
}

impl Snapshot {
    /// What can be done with a relation, without the rows that rules derive.
    pub fn extensional_relation_capabilities(&self, relation: RelationId) -> (result: Result<
        RelationCapabilities,
        KernelError,
    >)
        ensures
            match result {
                Ok(found) => self@.relations.contains_key(relation@) && found@
                    == stored_capabilities(self@, relation@),
                Err(error) => !self@.relations.contains_key(relation@) && error@
                    == FaultView::UnknownRelation(relation@),
            },
    {
        let state = match self.relation(relation) {
            Err(error) => {
                return Err(error);
            },
            Ok(state) => state,
        };
        let computed: bool = self.computed_relations().is_computed_relation(state.metadata());
        let found = RelationCapabilities {
            source: if computed {
                RelationSource::Computed
            } else {
                RelationSource::Snapshot
            },
            cardinality: if computed {
                None
            } else {
                Some(state.cardinality())
            },
            exact_indexes: copy_indexes(state),
            value_domains: if computed {
                unknown_domains(state.metadata().arity())
            } else {
                state.value_domains()
            },
            supports_streaming: true,
            supports_batch_export: !computed,
        };
        assert(found@.exact_indexes =~= stored_capabilities(self@, relation@).exact_indexes);
        assert(found@.value_domains =~= stored_capabilities(self@, relation@).value_domains);
        Ok(found)
    }

    /// What can be done with a relation.
    pub fn relation_capabilities(&self, relation: RelationId) -> (result: Result<
        RelationCapabilities,
        KernelError,
    >)
        ensures
            tells_capabilities(result, full_capabilities(self@, relation@)),
    {
        let base = match self.extensional_relation_capabilities(relation) {
            Err(error) => {
                return Err(error);
            },
            Ok(base) => base,
        };
        if base.source == RelationSource::Computed || !relation_has_active_rule_head(
            self.rules(),
            relation,
        ) {
            return Ok(base);
        }
        match self.derived_state(relation) {
            Err(error) => Err(error),
            Ok(None) => Ok(base),
            Ok(Some(derived)) => {
                let base_rows: usize = match base.cardinality {
                    Some(count) => count,
                    None => 0,
                };
                let domains = derived.value_domains();
                let value_domains = combine_value_domains(
                    &base.value_domains,
                    base_rows,
                    &domains,
                    derived.cardinality(),
                );
                let found = RelationCapabilities {
                    source: base.source,
                    cardinality: Some(base_rows.saturating_add(derived.cardinality())),
                    exact_indexes: base.exact_indexes,
                    value_domains,
                    supports_streaming: base.supports_streaming,
                    supports_batch_export: base.supports_batch_export,
                };
                assert(domains@ =~= domains_of(derived@));
                Ok(found)
            },
        }
    }

    /// Whether a relation has an index over exactly the given columns.
    pub fn relation_has_exact_index(&self, relation: RelationId, positions: &[u16]) -> (result:
        Result<bool, KernelError>)
        ensures
            match result {
                Ok(found) => self@.relations.contains_key(relation@) && found == (!self@.computes(
                    relation@,
                ) && (positions@ == natural_positions(self@.relations[relation@].metadata.arity)
                    || self@.relations[relation@].extra_indexes().contains(positions@))),
                Err(error) => !self@.relations.contains_key(relation@) && error@
                    == FaultView::UnknownRelation(relation@),
            },
    {
        let state = match self.relation(relation) {
            Err(error) => {
                return Err(error);
            },
            Ok(state) => state,
        };
        if self.computed_relations().is_computed_relation(state.metadata()) {
            return Ok(false);
        }
        Ok(state.has_exact_index(positions))
    }

    /// About how many rows agree with the bindings: numbers to be added up, those of the
    /// rows that rules derive among them.
    pub fn estimate_scan(&self, relation: RelationId, bindings: &[Option<Value>]) -> (result:
        Result<Vec<ScanEstimate>, KernelError>)
        ensures
            ({
                let bound = option_views(bindings@);
                if !self@.relations.contains_key(relation@) {
                    result matches Err(error) && error@ == FaultView::UnknownRelation(relation@)
                } else {
                    let state = self@.relations[relation@];
                    match state.bindings_fault(bound) {
                        Some(fault) => result matches Err(error) && error@ == fault,
                        None => if !derives(self@.rules, relation@) {
                            result matches Ok(found) && found@ == seq![estimated(state, bound)]
                        } else {
                            match self@.derived {
                                DerivedView::Unevaluated => result matches Err(error) && error@
                                    == FaultView::RulesUnevaluated(relation@),
                                DerivedView::Failed(fault) => result matches Err(error) && error@
                                    == fault,
                                DerivedView::Evaluated(states) => result matches Ok(found) && found@
                                    == if states.contains_key(relation@) {
                                    seq![
                                        estimated(state, bound),
                                        estimated(states[relation@], bound),
                                    ]
                                } else {
                                    seq![estimated(state, bound)]
                                },
                            }
                        },
                    }
                }
            }),
    {
        let state = match self.relation(relation) {
            Err(error) => {
                return Err(error);
            },
            Ok(state) => state,
        };
        let mut found: Vec<ScanEstimate> = Vec::new();
        match state.estimate_scan_count(bindings) {
            Err(error) => {
                return Err(error);
            },
            Ok(estimate) => {
                found.push(estimate);
            },
        }
        assert(found@ =~= seq![estimated(state@, option_views(bindings@))]);
        if !relation_has_active_rule_head(self.rules(), relation) {
            return Ok(found);
        }
        match self.derived_state(relation) {
            Err(error) => Err(error),
            Ok(None) => Ok(found),
            Ok(Some(derived)) => match derived.estimate_scan_count(bindings) {
                Err(error) => Err(error),
                Ok(estimate) => {
                    found.push(estimate);
                    assert(found@ =~= seq![
                        estimated(state@, option_views(bindings@)),
                        estimated(derived@, option_views(bindings@)),
                    ]);
                    Ok(found)
                },
            },
        }
    }

    /// About how many stored rows agree with the bindings.
    pub fn estimate_extensional_scan(
        &self,
        relation: RelationId,
        bindings: &[Option<Value>],
    ) -> (result: Result<ScanEstimate, KernelError>)
        ensures
            match self@.stored(relation@) {
                Visible::Unknown => result matches Err(error) && error@
                    == FaultView::UnknownRelation(relation@),
                Visible::Computed => exists|answer: Result<usize, FaultView>|
                    {
                        &&& #[trigger] self@.computed.may_count(
                            self.shown(),
                            self@.relations[relation@].metadata,
                            option_views(bindings@),
                            answer,
                        )
                        &&& match answer {
                            Ok(count) => result matches Ok(found) && found
                                == ScanEstimate::Exactly(count),
                            Err(fault) => result matches Err(error) && error@ == fault,
                        }
                    },
                Visible::Stored(_, _) => {
                    let state = self@.relations[relation@];
                    match state.bindings_fault(option_views(bindings@)) {
                        Some(fault) => result matches Err(error) && error@ == fault,
                        None => result matches Ok(found) && found == estimated(
                            state,
                            option_views(bindings@),
                        ),
                    }
                },
            },
    {
        let state = match self.relation(relation) {
            Err(error) => {
                return Err(error);
            },
            Ok(state) => state,
        };
        match self.computed_relations().provider(state.metadata(), bindings) {
            Some(Ok(provider)) => {
                let answer = provider.estimate(self, state.metadata(), bindings);
                assert(self@.computed.may_count(
                    self.shown(),
                    state@.metadata,
                    option_views(bindings@),
                    given_count(answer),
                ));
                match answer {
                    Ok(count) => Ok(ScanEstimate::Exactly(count)),
                    Err(error) => Err(error),
                }
            },
            Some(Err(error)) => {
                assert(self@.computed.may_count(
                    self.shown(),
                    state@.metadata,
                    option_views(bindings@),
                    Err(error@),
                ));
                Err(error)
            },
            None => state.estimate_scan_count(bindings),
        }
    }

    /// The rows of two relations that agree on some columns, where indexes give them and
    /// neither relation is computed.
    pub fn join_extensional_relation_scans(
        &self,
        left_relation: RelationId,
        left_bindings: &[Option<Value>],
        left_positions: &[u16],
        right_relation: RelationId,
        right_bindings: &[Option<Value>],
        right_positions: &[u16],
    ) -> (result: Result<Option<Vec<Tuple>>, KernelError>)
        ensures
            ({
                let lb = option_views(left_bindings@);
                let rb = option_views(right_bindings@);
                let left = self@.relations[left_relation@];
                let right = self@.relations[right_relation@];
                if !self@.relations.contains_key(left_relation@) {
                    result matches Err(error) && error@ == FaultView::UnknownRelation(
                        left_relation@,
                    )
                } else if !self@.relations.contains_key(right_relation@) {
                    result matches Err(error) && error@ == FaultView::UnknownRelation(
                        right_relation@,
                    )
                } else if self@.computes(left_relation@) || self@.computes(right_relation@) {
                    result matches Ok(None)
                } else {
                    match (left.bindings_fault(lb), right.bindings_fault(rb)) {
                        (Some(fault), _) => result matches Err(error) && error@ == fault,
                        (None, Some(fault)) => result matches Err(error) && error@ == fault,
                        (None, None) => match result {
                            Err(_) => false,
                            Ok(None) => !(left_positions@ == natural_positions(left.metadata.arity)
                                && right_positions@ == natural_positions(right.metadata.arity)) && !(
                            left.extra_indexes().contains(left_positions@)
                                && right.extra_indexes().contains(right_positions@)),
                            Ok(Some(found)) => lists(
                                rows(found@),
                                joined_rows(
                                    matching(left.rows, lb),
                                    matching(right.rows, rb),
                                    left_positions@,
                                    right_positions@,
                                ),
                            ),
                        },
                    }
                }
            }),
    {
        let left = match self.relation(left_relation) {
            Err(error) => {
                return Err(error);
            },
            Ok(state) => state,
        };
        let right = match self.relation(right_relation) {
            Err(error) => {
                return Err(error);
            },
            Ok(state) => state,
        };
        if self.computed_relations().is_computed_relation(left.metadata())
            || self.computed_relations().is_computed_relation(right.metadata()) {
            return Ok(None);
        }
        left.join_eq(left_bindings, left_positions, right, right_bindings, right_positions)
    }

    /// The rows of two relations that agree on some columns.
    pub fn join_relation_scans(
        &self,
        left_relation: RelationId,
        left_bindings: &[Option<Value>],
        left_positions: &[u16],
        right_relation: RelationId,
        right_bindings: &[Option<Value>],
        right_positions: &[u16],
    ) -> (result: Result<Vec<Tuple>, KernelError>)
        requires
            within(left_positions@, left_bindings@.len()),
            within(right_positions@, right_bindings@.len()),
        ensures
            joins(
                scanned(self@.visible(left_relation@), left_relation@, option_views(left_bindings@)),
                scanned(
                    self@.visible(right_relation@),
                    right_relation@,
                    option_views(right_bindings@),
                ),
                left_positions@,
                right_positions@,
                result,
            ),
            self@.visible(left_relation@) is Computed || self@.visible(right_relation@) is Computed
                ==> exists|left: Result<Seq<Row>, FaultView>, right: Result<Seq<Row>, FaultView>|
                {
                    &&& #[trigger] self@.may_scan(
                        self.shown(),
                        self@.visible(left_relation@),
                        left_relation@,
                        self@.derived,
                        option_views(left_bindings@),
                        left,
                    )
                    &&& left is Err || self@.may_scan(
                        self.shown(),
                        self@.visible(right_relation@),
                        right_relation@,
                        self@.derived,
                        option_views(right_bindings@),
                        right,
                    )
                    &&& #[trigger] joined_by(
                        left_relation@,
                        left,
                        left_positions@,
                        right_relation@,
                        right,
                        right_positions@,
                        result,
                    )
                },
    {
        if !relation_has_active_rule_head(self.rules(), left_relation)
            && !relation_has_active_rule_head(self.rules(), right_relation) {
            if self.relation(left_relation).is_ok() && self.relation(right_relation).is_ok() {
                match self.join_extensional_relation_scans(
                    left_relation,
                    left_bindings,
                    left_positions,
                    right_relation,
                    right_bindings,
                    right_positions,
                ) {
                    Err(error) => {
                        return Err(error);
                    },
                    Ok(Some(found)) => {
                        return Ok(found);
                    },
                    Ok(None) => {},
                }
            }
        }
        let found_left = self.scan(left_relation, left_bindings);
        let ghost left_given = given(found_left);
        assert(self@.may_scan(
            self.shown(),
            self@.visible(left_relation@),
            left_relation@,
            self@.derived,
            option_views(left_bindings@),
            left_given,
        ));
        let left = match found_left {
            Err(error) => {
                assert(joined_by(
                    left_relation@,
                    left_given,
                    left_positions@,
                    right_relation@,
                    left_given,
                    right_positions@,
                    Err(error),
                ));
                return Err(error);
            },
            Ok(found) => found,
        };
        let found_right = self.scan(right_relation, right_bindings);
        let ghost right_given = given(found_right);
        let right = match found_right {
            Err(error) => {
                assert(joined_by(
                    left_relation@,
                    left_given,
                    left_positions@,
                    right_relation@,
                    right_given,
                    right_positions@,
                    Err(error),
                ));
                return Err(error);
            },
            Ok(found) => found,
        };
        proof {
            lemma_width_reaches(rows(left@), left_bindings@.len(), left_positions@);
            lemma_width_reaches(rows(right@), right_bindings@.len(), right_positions@);
        }
        join_found(
            left_relation,
            left,
            left_positions,
            right_relation,
            right,
            right_positions,
        )
    }

    /// The rows to export as a batch, where the relation can be exported and all its values
    /// are held in place.
    pub fn export_relation_rows(&self, relation: RelationId, bindings: &[Option<Value>]) -> (result:
        Result<Option<Vec<Tuple>>, KernelError>)
        ensures
            match full_capabilities(self@, relation@) {
                Err(fault) => result matches Err(error) && error@ == fault,
                Ok(capabilities) => if !capabilities.supports_batch_export || !all_immediate(
                    capabilities.value_domains,
                ) {
                    result matches Ok(None)
                } else {
                    match scanned(
                        self@.visible(relation@),
                        relation@,
                        option_views(bindings@),
                    ) {
                        Some(Ok(set)) => result matches Ok(Some(found)) && lists(
                            rows(found@),
                            set,
                        ),
                        Some(Err(fault)) => result matches Err(error) && error@ == fault,
                        None => true,
                    }
                },
            },
    {
        let capabilities = match self.relation_capabilities(relation) {
            Err(error) => {
                return Err(error);
            },
            Ok(capabilities) => capabilities,
        };
        if !capabilities.supports_batch_export || !capabilities.immediate_only() {
            return Ok(None);
        }
        match self.scan(relation, bindings) {
            Err(error) => Err(error),
            Ok(found) => Ok(Some(found)),
        }
    }
}

/// Whether two scans were joined.
pub open spec fn joins(
    left: Option<Result<Set<Row>, FaultView>>,
    right: Option<Result<Set<Row>, FaultView>>,
    left_positions: Seq<u16>,
    right_positions: Seq<u16>,
    result: Result<Vec<Tuple>, KernelError>,
) -> bool {
    match (left, right) {
        (Some(Err(fault)), _) => result matches Err(error) && error@ == fault,
        (Some(Ok(_)), Some(Err(fault))) => result matches Err(error) && error@ == fault,
        (Some(Ok(l)), Some(Ok(r))) => result matches Ok(found) && lists(
            rows(found@),
            joined_rows(l, r, left_positions, right_positions),
        ),
        _ => true,
    }
}

/// Whether what two scans gave was joined: the rows that agree, where every row has values
/// at the positions.
pub open spec fn joined_by(
    left_relation: u64,
    left: Result<Seq<Row>, FaultView>,
    left_positions: Seq<u16>,
    right_relation: u64,
    right: Result<Seq<Row>, FaultView>,
    right_positions: Seq<u16>,
    result: Result<Vec<Tuple>, KernelError>,
) -> bool {
    match (left, right) {
        (Err(fault), _) => result matches Err(error) && error@ == fault,
        (Ok(_), Err(fault)) => result matches Err(error) && error@ == fault,
        (Ok(l), Ok(r)) => {
            let left_reaches = reaching(l, left_positions);
            let right_reaches = reaching(r, right_positions);
            if left_reaches && right_reaches {
                result matches Ok(found) && lists(
                    rows(found@),
                    joined_rows(l.to_set(), r.to_set(), left_positions, right_positions),
                )
            } else {
                result matches Err(error) && error@ == FaultView::InvalidComputedRelation(
                    if left_reaches {
                        right_relation
                    } else {
                        left_relation
                    },
                    "computed row has too few values"@,
                )
            }
        },
    }
}

/// Whether every row has values at the given positions.
pub open spec fn reaching(found: Seq<Row>, positions: Seq<u16>) -> bool {
    forall|i: int| 0 <= i < found.len() ==> within(positions, (#[trigger] found[i]).len())
}

proof fn lemma_width_reaches(found: Seq<Row>, width: nat, positions: Seq<u16>)
    requires
        within(positions, width),
    ensures
        of_arity(found.to_set(), width) ==> reaching(found, positions),
{
    if of_arity(found.to_set(), width) {
        assert forall|i: int| 0 <= i < found.len() implies within(
            positions,
            (#[trigger] found[i]).len(),
        ) by {
            assert(found.to_set().contains(found[i]));
        }
    }
}

fn all_reach(found: &[Tuple], positions: &[u16]) -> (result: bool)
    ensures
        result == reaching(rows(found@), positions@),
{
    let mut i: usize = 0;
    while i < found.len()
        invariant
            i <= found@.len(),
            forall|j: int| 0 <= j < i ==> within(positions@, (#[trigger] rows(found@)[j]).len()),
        decreases found@.len() - i,
    {
        let ghost row = rows(found@)[i as int];
        let mut k: usize = 0;
        while k < positions.len()
            invariant
                i < found@.len(),
                k <= positions@.len(),
                row == rows(found@)[i as int],
                row == found@[i as int]@,
                forall|j: int| 0 <= j < k ==> (#[trigger] positions@[j]) < row.len(),
            decreases positions@.len() - k,
        {
            if positions[k] as usize >= found[i].arity() {
                assert(!within(positions@, row.len()));
                return false;
            }
            k = k + 1;
        }
        i = i + 1;
    }
    true
}

/// Joins rows that were found in two relations.
pub fn join_found(
    left_relation: RelationId,
    left: Vec<Tuple>,
    left_positions: &[u16],
    right_relation: RelationId,
    right: Vec<Tuple>,
    right_positions: &[u16],
) -> (result: Result<Vec<Tuple>, KernelError>)
    ensures
        joined_by(
            left_relation@,
            Ok(rows(left@)),
            left_positions@,
            right_relation@,
            Ok(rows(right@)),
            right_positions@,
            result,
        ),
{
    if !all_reach(&left, left_positions) {
        return Err(too_narrow(left_relation));
    }
    if !all_reach(&right, right_positions) {
        return Err(too_narrow(right_relation));
    }
    proof {
        assert forall|i: int| 0 <= i < left@.len() implies within(
            left_positions@,
            (#[trigger] left@[i])@.len(),
        ) by {
            assert(rows(left@)[i] == left@[i]@);
        }
        assert forall|i: int| 0 <= i < right@.len() implies within(
            right_positions@,
            (#[trigger] right@[i])@.len(),
        ) by {
            assert(rows(right@)[i] == right@[i]@);
        }
    }
    Ok(equality_join_tuple_rows(&left, &right, left_positions, right_positions))
}

/// What can be done with a relation that a transaction wrote to.
pub open spec fn overlay_capabilities(base: CapabilitiesView, arity: u16, writes: nat) -> CapabilitiesView {
    CapabilitiesView {
        source: RelationSource::TransactionOverlay,
        cardinality: match base.cardinality {
            Some(count) => Some(saturating_sum(count as nat, writes)),
            None => None,
        },
        exact_indexes: Seq::empty(),
        value_domains: Seq::new(arity as nat, |p: int| ValueDomain::Unknown),
        supports_batch_export: false,
        ..base
    }
}

impl Transaction {
    /// What can be done with a relation, without the rows that rules derive.
    pub fn extensional_relation_capabilities(&self, relation: RelationId) -> (result: Result<
        RelationCapabilities,
        KernelError,
    >)
        ensures
            match result {
                Err(error) => !self@.base.relations.contains_key(relation@) && error@
                    == FaultView::UnknownRelation(relation@),
                Ok(found) => self@.base.relations.contains_key(relation@) && found@
                    == if self@.writes.contains_key(relation@) {
                    overlay_capabilities(
                        stored_capabilities(self@.base, relation@),
                        self@.base.relations[relation@].metadata.arity,
                        self@.written_to(relation@).dom().len(),
                    )
                } else {
                    stored_capabilities(self@.base, relation@)
                },
            },
    {
        let base = match self.base().extensional_relation_capabilities(relation) {
            Err(error) => {
                return Err(error);
            },
            Ok(base) => base,
        };
        if !self.has_local_writes(relation) {
            return Ok(base);
        }
        let arity: u16 = match self.base().relation(relation) {
            Err(error) => {
                return Err(error);
            },
            Ok(state) => state.metadata().arity(),
        };
        let cardinality: Option<usize> = match base.cardinality {
            Some(count) => Some(count.saturating_add(self.local_write_count(relation))),
            None => None,
        };
        let found = RelationCapabilities {
            source: RelationSource::TransactionOverlay,
            cardinality,
            exact_indexes: Vec::new(),
            value_domains: unknown_domains(arity),
            supports_streaming: base.supports_streaming,
            supports_batch_export: false,
        };
        assert(found@.exact_indexes =~= Seq::empty());
        Ok(found)
    }

    /// What can be done with a relation.
    pub fn relation_capabilities(&self, relation: RelationId) -> (result: Result<
        RelationCapabilities,
        KernelError,
    >)
        ensures
            tells_capabilities(
                result,
                if self@.writes.contains_key(relation@) && self@.base.relations.contains_key(
                    relation@,
                ) {
                    Ok(
                        overlay_capabilities(
                            stored_capabilities(self@.base, relation@),
                            self@.base.relations[relation@].metadata.arity,
                            self@.written_to(relation@).dom().len(),
                        ),
                    )
                } else {
                    full_capabilities(self@.base, relation@)
                },
            ),
    {
        if !self.has_local_writes(relation) {
            return self.base().relation_capabilities(relation);
        }
        self.extensional_relation_capabilities(relation)
    }

    /// Whether a relation has an index over exactly the given columns that what was written
    /// did not outdate.
    pub fn has_exact_relation_index(&self, relation: RelationId, positions: &[u16]) -> (result:
        Result<bool, KernelError>)
        ensures
            self@.writes.contains_key(relation@) ==> (result matches Ok(false)),
            !self@.writes.contains_key(relation@) ==> match result {
                Ok(found) => self@.base.relations.contains_key(relation@) && found == (
                !self@.base.computes(relation@) && (positions@ == natural_positions(
                    self@.base.relations[relation@].metadata.arity,
                ) || self@.base.relations[relation@].extra_indexes().contains(positions@))),
                Err(error) => !self@.base.relations.contains_key(relation@) && error@
                    == FaultView::UnknownRelation(relation@),
            },
    {
        if self.has_local_writes(relation) {
            return Ok(false);
        }
        self.base().relation_has_exact_index(relation, positions)
    }

    /// About how many stored rows agree with the bindings, and how many more were written:
    /// numbers to be added up.
    pub fn estimate_extensional_scan(
        &self,
        relation: RelationId,
        bindings: &[Option<Value>],
    ) -> (result: Result<Vec<ScanEstimate>, KernelError>)
        ensures
            match self@.base.stored(relation@) {
                Visible::Unknown => result matches Err(error) && error@
                    == FaultView::UnknownRelation(relation@),
                Visible::Computed => exists|answer: Result<usize, FaultView>|
                    {
                        &&& #[trigger] self@.base.computed.may_count(
                            self.shown(),
                            self@.base.relations[relation@].metadata,
                            option_views(bindings@),
                            answer,
                        )
                        &&& match answer {
                            Ok(count) => result matches Ok(found) && found@ == seq![
                                ScanEstimate::Exactly(count),
                            ],
                            Err(fault) => result matches Err(error) && error@ == fault,
                        }
                    },
                Visible::Stored(_, _) => {
                    let state = self@.base.relations[relation@];
                    match state.bindings_fault(option_views(bindings@)) {
                        Some(fault) => result matches Err(error) && error@ == fault,
                        None => result matches Ok(found) && found@ == if self@.writes.contains_key(
                            relation@,
                        ) {
                            seq![
                                estimated(state, option_views(bindings@)),
                                ScanEstimate::Exactly(
                                    self@.written_to(relation@).dom().len() as usize,
                                ),
                            ]
                        } else {
                            seq![estimated(state, option_views(bindings@))]
                        },
                    }
                },
            },
    {
        let state = match self.base().relation(relation) {
            Err(error) => {
                return Err(error);
            },
            Ok(state) => state,
        };
        let mut found: Vec<ScanEstimate> = Vec::new();
        match self.base().computed_relations().provider(state.metadata(), bindings) {
            Some(Ok(provider)) => {
                let answer = provider.estimate(self, state.metadata(), bindings);
                assert(self@.base.computed.may_count(
                    self.shown(),
                    state@.metadata,
                    option_views(bindings@),
                    given_count(answer),
                ));
                let count: usize = match answer {
                    Err(error) => {
                        return Err(error);
                    },
                    Ok(count) => count,
                };
                found.push(ScanEstimate::Exactly(count));
                return Ok(found);
            },
            Some(Err(error)) => {
                assert(self@.base.computed.may_count(
                    self.shown(),
                    state@.metadata,
                    option_views(bindings@),
                    Err(error@),
                ));
                return Err(error);
            },
            None => {},
        }
        match state.estimate_scan_count(bindings) {
            Err(error) => {
                return Err(error);
            },
            Ok(estimate) => {
                found.push(estimate);
            },
        }
        assert(found@ =~= seq![estimated(state@, option_views(bindings@))]);
        if self.has_local_writes(relation) {
            found.push(ScanEstimate::Exactly(self.local_write_count(relation)));
            assert(found@ =~= seq![
                estimated(state@, option_views(bindings@)),
                ScanEstimate::Exactly(self@.written_to(relation@).dom().len() as usize),
            ]);
        }
        Ok(found)
    }

    /// About how many rows agree with the bindings: numbers to be added up, those of the
    /// rows that rules derive among them.
    pub fn estimate_scan(&self, relation: RelationId, bindings: &[Option<Value>]) -> (result:
        Result<Vec<ScanEstimate>, KernelError>)
        ensures
            self@.base.stored(relation@) is Stored ==> {
                let bound = option_views(bindings@);
                let state = self@.base.relations[relation@];
                let own = if self@.writes.contains_key(relation@) {
                    seq![
                        estimated(state, bound),
                        ScanEstimate::Exactly(self@.written_to(relation@).dom().len() as usize),
                    ]
                } else {
                    seq![estimated(state, bound)]
                };
                match state.bindings_fault(bound) {
                    Some(fault) => result matches Err(error) && error@ == fault,
                    None => if !derives(self@.base.rules, relation@) {
                        result matches Ok(found) && found@ == own
                    } else {
                        match self@.derived_now() {
                            DerivedView::Unevaluated => result matches Err(error) && error@
                                == FaultView::RulesUnevaluated(relation@),
                            DerivedView::Failed(fault) => result matches Err(error) && error@ == fault,
                            DerivedView::Evaluated(states) => result matches Ok(found) && found@
                                == if states.contains_key(relation@) {
                                own.push(estimated(states[relation@], bound))
                            } else {
                                own
                            },
                        }
                    },
                }
            },
            self@.base.stored(relation@) is Unknown ==> (result matches Err(error) && error@
                == FaultView::UnknownRelation(relation@)),
            self@.base.stored(relation@) is Computed ==> exists|answer: Result<usize, FaultView>|
                {
                    let bound = option_views(bindings@);
                    &&& #[trigger] self@.base.computed.may_count(
                        self.shown(),
                        self@.base.relations[relation@].metadata,
                        option_views(bindings@),
                        answer,
                    )
                    &&& match answer {
                        Err(fault) => result matches Err(error) && error@ == fault,
                        Ok(count) => if !derives(self@.base.rules, relation@) {
                            result matches Ok(found) && found@ == seq![ScanEstimate::Exactly(count)]
                        } else {
                            match self@.derived_now() {
                                DerivedView::Unevaluated => result matches Err(error) && error@
                                    == FaultView::RulesUnevaluated(relation@),
                                DerivedView::Failed(fault) => result matches Err(error) && error@
                                    == fault,
                                DerivedView::Evaluated(states) => if states.contains_key(
                                    relation@,
                                ) {
                                    match states[relation@].bindings_fault(bound) {
                                        Some(fault) => result matches Err(error) && error@
                                            == fault,
                                        None => result matches Ok(found) && found@ == seq![
                                            ScanEstimate::Exactly(count),
                                            estimated(states[relation@], bound),
                                        ],
                                    }
                                } else {
                                    result matches Ok(found) && found@ == seq![
                                        ScanEstimate::Exactly(count),
                                    ]
                                },
                            }
                        },
                    }
                },
    {
        let mut found = match self.estimate_extensional_scan(relation, bindings) {
            Err(error) => {
                return Err(error);
            },
            Ok(found) => found,
        };
        if !relation_has_active_rule_head(self.base().rules(), relation) {
            return Ok(found);
        }
        match self.derived_state(relation) {
            Err(error) => Err(error),
            Ok(None) => Ok(found),
            Ok(Some(derived)) => match derived.estimate_scan_count(bindings) {
                Err(error) => Err(error),
                Ok(estimate) => {
                    let ghost before = found@;
                    found.push(estimate);
                    proof {
                        if before.len() == 1 {
                            assert(found@ =~= seq![before[0], estimate]);
                        }
                    }
                    Ok(found)
                },
            },
        }
    }

    /// The rows of two relations that agree on some columns.
    pub fn join_relation_scans(
        &self,
        left_relation: RelationId,
        left_bindings: &[Option<Value>],
        left_positions: &[u16],
        right_relation: RelationId,
        right_bindings: &[Option<Value>],
        right_positions: &[u16],
    ) -> (result: Result<Vec<Tuple>, KernelError>)
        requires
            within(left_positions@, left_bindings@.len()),
            within(right_positions@, right_bindings@.len()),
        ensures
            joins(
                scanned(self@.visible(left_relation@), left_relation@, option_views(left_bindings@)),
                scanned(
                    self@.visible(right_relation@),
                    right_relation@,
                    option_views(right_bindings@),
                ),
                left_positions@,
                right_positions@,
                result,
            ),
            self@.visible(left_relation@) is Computed || self@.visible(right_relation@) is Computed
                ==> exists|left: Result<Seq<Row>, FaultView>, right: Result<Seq<Row>, FaultView>|
                {
                    &&& #[trigger] self@.base.may_scan(
                        self.shown(),
                        self@.visible(left_relation@),
                        left_relation@,
                        self@.derived_now(),
                        option_views(left_bindings@),
                        left,
                    )
                    &&& left is Err || self@.base.may_scan(
                        self.shown(),
                        self@.visible(right_relation@),
                        right_relation@,
                        self@.derived_now(),
                        option_views(right_bindings@),
                        right,
                    )
                    &&& #[trigger] joined_by(
                        left_relation@,
                        left,
                        left_positions@,
                        right_relation@,
                        right,
                        right_positions@,
                        result,
                    )
                },
    {
        let found_left = self.scan(left_relation, left_bindings);
        let ghost left_given = given(found_left);
        assert(self@.base.may_scan(
            self.shown(),
            self@.visible(left_relation@),
            left_relation@,
            self@.derived_now(),
            option_views(left_bindings@),
            left_given,
        ));
        let left = match found_left {
            Err(error) => {
                assert(joined_by(
                    left_relation@,
                    left_given,
                    left_positions@,
                    right_relation@,
                    left_given,
                    right_positions@,
                    Err(error),
                ));
                return Err(error);
            },
            Ok(found) => found,
        };
        let found_right = self.scan(right_relation, right_bindings);
        let ghost right_given = given(found_right);
        let right = match found_right {
            Err(error) => {
                assert(joined_by(
                    left_relation@,
                    left_given,
                    left_positions@,
                    right_relation@,
                    right_given,
                    right_positions@,
                    Err(error),
                ));
                return Err(error);
            },
            Ok(found) => found,
        };
        proof {
            lemma_width_reaches(rows(left@), left_bindings@.len(), left_positions@);
            lemma_width_reaches(rows(right@), right_bindings@.len(), right_positions@);
        }
        join_found(
            left_relation,
            left,
            left_positions,
            right_relation,
            right,
            right_positions,
        )
    }
}

} // verus!
