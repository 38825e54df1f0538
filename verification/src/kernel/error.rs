//! What can go wrong in the kernel.

use crate::kernel::algebra::Row;
use crate::kernel::metadata::{copy_positions, RelationId, Version};
use crate::tuple::Tuple;
use crate::value::Identity;
use vstd::prelude::*;

verus! {

/// Two transactions wrote what cannot stand together.
#[derive(Debug, PartialEq)]
pub struct Conflict {
    pub relation: RelationId,
    pub tuple: Tuple,
    pub kind: ConflictKind,
}

/// How two transactions got in each other's way.
#[derive(Clone, Copy, Debug, PartialEq, Eq, Structural)]
pub enum ConflictKind {
    AssertRetract,
    FunctionalKeyChanged,
}

/// What is wrong with rules.
#[derive(Clone, Copy, Debug, PartialEq, Eq, Structural)]
pub enum RuleError {
    /// A relation depends on its own absence.
    Unstratified,
}

/// What can go wrong in the kernel.
#[derive(Debug, PartialEq)]
#[allow(inconsistent_fields)]
pub enum KernelError {
    UnknownRelation(RelationId),
    UnknownRule(Identity),
    RelationAlreadyExists(RelationId),
    ReadOnlyRelation(RelationId),
    MissingRequiredBindings { relation: RelationId, positions: Vec<u16> },
    ArityMismatch { relation: RelationId, expected: u16, actual: usize },
    InvalidComputedRelation { relation: RelationId, message: String },
    NonPersistentValue { relation: RelationId, tuple: Tuple },
    InvalidIndex { relation: RelationId, position: u16, arity: u16 },
    FunctionalKeyViolation { relation: RelationId, existing: Tuple, attempted: Tuple },
    StaleStagedSnapshot { expected: Version, actual: Version },
    Persistence(String),
    Rule(RuleError),
    /// The rows that rules derive for the relation are not known yet.
    RulesUnevaluated(RelationId),
    Conflict(Conflict),
}

/// What went wrong, apart from how that is stored.
pub enum FaultView {
    UnknownRelation(u64),
    UnknownRule(u64),
    RelationAlreadyExists(u64),
    ReadOnlyRelation(u64),
    MissingRequiredBindings(u64, Seq<u16>),
    ArityMismatch(u64, u16, nat),
    InvalidComputedRelation(u64, Seq<char>),
    NonPersistentValue(u64, Row),
    InvalidIndex(u64, u16, u16),
    FunctionalKeyViolation(u64, Row, Row),
    StaleStagedSnapshot(Version, Version),
    Persistence(Seq<char>),
    Rule(RuleError),
    RulesUnevaluated(u64),
    Conflict(u64, Row, ConflictKind),
}

impl View for KernelError {
    type V = FaultView;

    open spec fn view(&self) -> FaultView {
        match self {
            KernelError::UnknownRelation(relation) => FaultView::UnknownRelation(relation@),
            KernelError::UnknownRule(rule) => FaultView::UnknownRule(rule@),
            KernelError::RelationAlreadyExists(relation) => FaultView::RelationAlreadyExists(
                relation@,
            ),
            KernelError::ReadOnlyRelation(relation) => FaultView::ReadOnlyRelation(relation@),
            KernelError::MissingRequiredBindings { relation, positions } =>
            FaultView::MissingRequiredBindings(relation@, positions@),
            KernelError::ArityMismatch { relation, expected, actual } => FaultView::ArityMismatch(
                relation@,
                *expected,
                *actual as nat,
            ),
            KernelError::InvalidComputedRelation { relation, message } =>
            FaultView::InvalidComputedRelation(relation@, message@),
            KernelError::NonPersistentValue { relation, tuple } => FaultView::NonPersistentValue(
                relation@,
                tuple@,
            ),
            KernelError::InvalidIndex { relation, position, arity } => FaultView::InvalidIndex(
                relation@,
                *position,
                *arity,
            ),
            KernelError::FunctionalKeyViolation { relation, existing, attempted } =>
            FaultView::FunctionalKeyViolation(relation@, existing@, attempted@),
            KernelError::StaleStagedSnapshot { expected, actual } =>
            FaultView::StaleStagedSnapshot(*expected, *actual),
            KernelError::Persistence(text) => FaultView::Persistence(text@),
            KernelError::Rule(error) => FaultView::Rule(*error),
            KernelError::RulesUnevaluated(relation) => FaultView::RulesUnevaluated(relation@),
            KernelError::Conflict(conflict) => FaultView::Conflict(
                conflict.relation@,
                conflict.tuple@,
                conflict.kind,
            ),
        }
    }
}

impl Clone for KernelError {
    fn clone(&self) -> (copy: KernelError)
        ensures
            copy@ == self@,
    {
        match self {
            KernelError::UnknownRelation(relation) => KernelError::UnknownRelation(*relation),
            KernelError::UnknownRule(rule) => KernelError::UnknownRule(*rule),
            KernelError::RelationAlreadyExists(relation) => KernelError::RelationAlreadyExists(
                *relation,
            ),
            KernelError::ReadOnlyRelation(relation) => KernelError::ReadOnlyRelation(*relation),
            KernelError::MissingRequiredBindings { relation, positions } =>
            KernelError::MissingRequiredBindings {
                relation: *relation,
                positions: copy_positions(positions),
            },
            KernelError::ArityMismatch { relation, expected, actual } => KernelError::ArityMismatch {
                relation: *relation,
                expected: *expected,
                actual: *actual,
            },
            KernelError::InvalidComputedRelation { relation, message } =>
            KernelError::InvalidComputedRelation {
                relation: *relation,
                message: message.as_str().to_owned(),
            },
            KernelError::NonPersistentValue { relation, tuple } => KernelError::NonPersistentValue {
                relation: *relation,
                tuple: tuple.clone(),
            },
            KernelError::InvalidIndex { relation, position, arity } => KernelError::InvalidIndex {
                relation: *relation,
                position: *position,
                arity: *arity,
            },
            KernelError::FunctionalKeyViolation { relation, existing, attempted } =>
            KernelError::FunctionalKeyViolation {
                relation: *relation,
                existing: existing.clone(),
                attempted: attempted.clone(),
            },
            KernelError::StaleStagedSnapshot { expected, actual } =>
            KernelError::StaleStagedSnapshot { expected: *expected, actual: *actual },
            KernelError::Persistence(text) => KernelError::Persistence(text.as_str().to_owned()),
            KernelError::Rule(error) => KernelError::Rule(*error),
            KernelError::RulesUnevaluated(relation) => KernelError::RulesUnevaluated(*relation),
            KernelError::Conflict(conflict) => KernelError::Conflict(
                Conflict {
                    relation: conflict.relation,
                    tuple: conflict.tuple.clone(),
                    kind: conflict.kind,
                },
            ),
        }
    }
}

/// The outcome of a step that may fail, without a result.
pub open spec fn step_view(result: Result<(), KernelError>) -> Result<(), FaultView> {
    match result {
        Ok(()) => Ok(()),
        Err(error) => Err(error@),
    }
}

/// The failure to read a row of a computed relation that has too few values.
pub fn too_narrow(relation: RelationId) -> (error: KernelError)
    ensures
        error@ == FaultView::InvalidComputedRelation(
            relation@,
            "computed row has too few values"@,
        ),
{
    KernelError::InvalidComputedRelation {
        relation,
        message: "computed row has too few values".to_owned(),
    }
}

} // verus!
