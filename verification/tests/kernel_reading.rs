use mica::kernel::access::combine_value_domains;
use mica::kernel::algebra::{
    difference_ordered_tuple_rows, equality_join_tuple_rows, finish_tuple_rows,
};
use mica::kernel::catalog::system_row_source_relation;
use mica::kernel::changes::merge_fact_changes;
use mica::kernel::commit::{FactChange, FactChangeKind};
use mica::kernel::computed::{unbound_positions, ComputedRelation};
use mica::kernel::dispatch::{
    applicable_method_entries, applicable_methods, normalize_dispatch_roles,
    positional_method_args, ApplicableMethodCall, DispatchRelations, PrimitivePrototypes,
};
use mica::kernel::error::KernelError;
use mica::kernel::live::{CommitProvider, InMemoryCommitProvider, RelationKernel};
use mica::kernel::metadata::{ConflictPolicy, RelationMetadata};
use mica::kernel::read::ComputedRelationRead;
use mica::kernel::relation::{RelationState, ScanEstimate, ValueDomain};
use mica::kernel::rules::{Atom, Rule, RuleBodyItem, Term};
use mica::tuple::Tuple;
use mica::value::{Identity, Symbol, Value};
use std::sync::Arc;

fn rel(id: u64) -> Identity {
    Identity::new(id).unwrap()
}

fn num(value: i64) -> Value {
    Value::integer(value).unwrap()
}

fn sym(name: &str) -> Value {
    Value::symbol(Symbol::intern(name))
}

fn row(values: &[i64]) -> Tuple {
    Tuple::new(values.iter().map(|value| num(*value)).collect())
}

fn relation(id: u64, name: &str, arity: u16) -> RelationMetadata {
    RelationMetadata::new(rel(id), Symbol::intern(name), arity)
}

fn prototypes() -> PrimitivePrototypes {
    PrimitivePrototypes {
        nothing: rel(901),
        boolean: rel(902),
        integer: rel(903),
        identity: rel(904),
        symbol: rel(905),
        string: rel(906),
        list: rel(907),
        mapping: rel(908),
        option: rel(909),
        frob: rel(910),
        error: rel(911),
        capability: rel(912),
        float: rel(913),
        bytes: rel(914),
        relation: rel(915),
    }
}

fn change(relation: u64, tuple: Tuple, kind: FactChangeKind) -> FactChange {
    FactChange {
        relation: rel(relation),
        tuple,
        kind,
    }
}

fn holding(rows: &[&[i64]]) -> RelationKernel<InMemoryCommitProvider> {
    let mut kernel = RelationKernel::new();
    kernel
        .create_relation(relation(1, "Edge", 2).with_index(vec![1]))
        .unwrap();
    let mut tx = kernel.begin(prototypes());
    for values in rows {
        tx.assert_tuple(rel(1), row(values)).unwrap();
    }
    kernel.commit(&tx, None).unwrap();
    kernel
}

#[test]
fn rows_are_put_in_order_once_each() {
    assert_eq!(
        finish_tuple_rows(vec![row(&[3]), row(&[1]), row(&[3]), row(&[2])]),
        vec![row(&[1]), row(&[2]), row(&[3])]
    );
    assert_eq!(
        difference_ordered_tuple_rows(
            vec![row(&[1]), row(&[2]), row(&[3])],
            vec![row(&[0]), row(&[2])]
        ),
        vec![row(&[1]), row(&[3])]
    );
}

#[test]
fn rows_that_agree_are_joined() {
    assert_eq!(
        equality_join_tuple_rows(
            &[row(&[1, 7]), row(&[2, 8])],
            &[row(&[7, 5]), row(&[7, 4]), row(&[9, 9])],
            &[1],
            &[0]
        ),
        vec![row(&[1, 7, 7, 4]), row(&[1, 7, 7, 5])]
    );
}

#[test]
fn the_last_change_to_a_row_stands() {
    assert_eq!(
        merge_fact_changes(
            vec![
                change(2, row(&[1]), FactChangeKind::Assert),
                change(1, row(&[5]), FactChangeKind::Assert),
            ],
            &[
                change(1, row(&[5]), FactChangeKind::Retract),
                change(1, row(&[4]), FactChangeKind::Assert),
            ]
        ),
        vec![
            change(1, row(&[4]), FactChangeKind::Assert),
            change(1, row(&[5]), FactChangeKind::Retract),
            change(2, row(&[1]), FactChangeKind::Assert),
        ]
    );
}

#[test]
fn nothing_to_merge_changes_nothing() {
    let changes = vec![
        change(1, row(&[4]), FactChangeKind::Assert),
        change(1, row(&[5]), FactChangeKind::Retract),
    ];
    assert_eq!(merge_fact_changes(changes.clone(), &[]), changes);
}

#[test]
fn rows_of_plain_values_are_exported() {
    let kernel = holding(&[&[2, 1], &[1, 1], &[1, 2]]);
    let snapshot = kernel.snapshot();
    assert_eq!(
        snapshot
            .export_relation_rows(rel(1), &[None, Some(num(1))])
            .unwrap(),
        Some(vec![row(&[1, 1]), row(&[2, 1])])
    );
    assert!(matches!(
        snapshot.export_relation_rows(rel(9), &[None]),
        Err(KernelError::UnknownRelation(id)) if id == rel(9)
    ));
    let mut texts = RelationKernel::new();
    texts.create_relation(relation(2, "Text", 1)).unwrap();
    let mut tx = texts.begin(prototypes());
    tx.assert_tuple(rel(2), Tuple::new(vec![Value::string("long text")]))
        .unwrap();
    texts.commit(&tx, None).unwrap();
    assert_eq!(
        texts.snapshot().export_relation_rows(rel(2), &[None]).unwrap(),
        None
    );
}

#[test]
fn an_index_serves_until_something_is_written() {
    let kernel = holding(&[&[1, 1]]);
    let mut tx = kernel.begin(prototypes());
    assert!(tx.has_exact_relation_index(rel(1), &[1]).unwrap());
    assert!(tx.has_exact_relation_index(rel(1), &[0, 1]).unwrap());
    assert!(!tx.has_exact_relation_index(rel(1), &[1, 0]).unwrap());
    assert!(tx.has_exact_relation_index(rel(9), &[0]).is_err());
    tx.assert_tuple(rel(1), row(&[1, 2])).unwrap();
    assert!(!tx.has_exact_relation_index(rel(1), &[1]).unwrap());
}

#[test]
fn estimates_follow_the_rows_and_the_writes() {
    let kernel = holding(&[&[1, 1], &[2, 1], &[3, 2]]);
    let snapshot = kernel.snapshot();
    assert_eq!(
        snapshot
            .estimate_extensional_scan(rel(1), &[None, None])
            .unwrap(),
        ScanEstimate::Exactly(3)
    );
    assert_eq!(
        snapshot
            .estimate_extensional_scan(rel(1), &[None, Some(num(1))])
            .unwrap(),
        ScanEstimate::Exactly(2)
    );
    assert_eq!(
        snapshot
            .estimate_extensional_scan(rel(1), &[Some(num(3)), Some(num(1))])
            .unwrap(),
        ScanEstimate::Exactly(0)
    );
    assert_eq!(
        snapshot.estimate_scan(rel(1), &[Some(num(3)), None]).unwrap(),
        vec![ScanEstimate::Spread {
            rows: 3,
            bound: 1,
            columns: 2
        }]
    );
    let mut tx = kernel.begin(prototypes());
    tx.assert_tuple(rel(1), row(&[4, 4])).unwrap();
    assert_eq!(
        tx.estimate_scan(rel(1), &[None, None]).unwrap(),
        vec![ScanEstimate::Exactly(3), ScanEstimate::Exactly(1)]
    );
    assert!(matches!(
        tx.estimate_scan(rel(1), &[None]),
        Err(KernelError::ArityMismatch { .. })
    ));
}

#[test]
fn domains_of_two_lots_of_rows_are_combined() {
    assert_eq!(
        combine_value_domains(&[ValueDomain::Immediate], 0, &[ValueDomain::Heap], 3),
        vec![ValueDomain::Heap]
    );
    assert_eq!(
        combine_value_domains(&[ValueDomain::Immediate], 2, &[ValueDomain::Heap], 0),
        vec![ValueDomain::Immediate]
    );
    assert_eq!(
        combine_value_domains(&[ValueDomain::Immediate], 2, &[ValueDomain::Heap], 3),
        vec![ValueDomain::Mixed]
    );
}

#[test]
fn rows_in_order_fill_an_empty_relation() {
    let mut state = RelationState::empty(relation(1, "Edge", 2)).unwrap();
    state.apply_ordered_asserts_to_empty(&[row(&[1, 1]), row(&[1, 2])]);
    assert_eq!(
        state.scan(&[None, None]).unwrap(),
        vec![row(&[1, 1]), row(&[1, 2])]
    );
    assert_eq!(
        state.estimate_scan_count(&[None, None]).unwrap(),
        ScanEstimate::Exactly(2)
    );
}

#[test]
fn relations_are_found_by_name() {
    let mut kernel = RelationKernel::new();
    kernel.create_relation(relation(3, "Edge", 2)).unwrap();
    kernel.create_relation(relation(2, "Edge", 3)).unwrap();
    let snapshot = kernel.snapshot();
    assert_eq!(
        snapshot
            .relation_metadata_named(&Symbol::intern("Edge"))
            .unwrap()
            .id(),
        rel(2)
    );
    assert!(snapshot
        .relation_metadata_named(&Symbol::intern("Other"))
        .is_none());
    assert_eq!(
        snapshot.relation_id(&Symbol::intern("Edge"), 2),
        Some(rel(3))
    );
    assert_eq!(snapshot.relation_id(&Symbol::intern("Edge"), 4), None);
}

#[test]
fn a_row_about_a_row_tells_where_it_comes_from() {
    let told = Tuple::new(vec![num(1), Value::identity(rel(7)), num(2)]);
    assert_eq!(
        system_row_source_relation(&relation(5, "SubjectFact", 3), &told),
        Some(rel(7))
    );
    assert_eq!(
        system_row_source_relation(&relation(5, "Arity", 2), &told),
        None
    );
    assert_eq!(
        system_row_source_relation(&relation(5, "MentionedFact", 3), &row(&[1, 2, 3])),
        None
    );
}

#[test]
fn columns_that_are_needed_and_not_bound_are_listed() {
    assert_eq!(
        unbound_positions(&[2, 0, 5], &[Some(num(1)), None, None]),
        vec![2, 5]
    );
}

#[test]
fn a_row_that_holds_a_key_gives_way() {
    let mut kernel = RelationKernel::new();
    let mut keyed = relation(1, "Location", 2);
    keyed = keyed.with_conflict_policy(ConflictPolicy::Functional {
        key_positions: vec![0],
    });
    kernel.create_relation(keyed).unwrap();
    let mut tx = kernel.begin(prototypes());
    tx.replace_functional(rel(1), row(&[1, 10])).unwrap();
    tx.replace_functional(rel(1), row(&[2, 10])).unwrap();
    tx.replace_functional(rel(1), row(&[1, 20])).unwrap();
    assert_eq!(
        tx.scan(rel(1), &[None, None]).unwrap(),
        vec![row(&[1, 20]), row(&[2, 10])]
    );
    kernel.commit(&tx, None).unwrap();
    assert_eq!(
        kernel.snapshot().scan(rel(1), &[None, None]).unwrap(),
        vec![row(&[1, 20]), row(&[2, 10])]
    );
}

/// Gives its rows as they are, or complains.
struct Given {
    rows: Vec<Tuple>,
    complains: bool,
}

impl ComputedRelation for Given {
    fn name(&self) -> &'static str {
        "given"
    }

    fn matches(&self, metadata: &RelationMetadata) -> bool {
        metadata.id() == rel(5)
    }

    fn required_bound_positions(&self, _metadata: &RelationMetadata) -> Vec<u16> {
        Vec::new()
    }

    fn scan(
        &self,
        _reader: &dyn ComputedRelationRead,
        _metadata: &RelationMetadata,
        _bindings: &[Option<Value>],
    ) -> Result<Vec<Tuple>, KernelError> {
        if self.complains {
            return Err(KernelError::InvalidComputedRelation {
                relation: rel(5),
                message: "out of reach".to_owned(),
            });
        }
        Ok(self.rows.clone())
    }

    fn estimate(
        &self,
        _reader: &dyn ComputedRelationRead,
        _metadata: &RelationMetadata,
        _bindings: &[Option<Value>],
    ) -> Result<usize, KernelError> {
        Ok(42)
    }
}

fn computing(given: Given) -> RelationKernel<InMemoryCommitProvider> {
    let mut kernel = RelationKernel::with_provider_and_computed_relations(
        InMemoryCommitProvider {},
        vec![Arc::new(given)],
    );
    kernel.create_relation(relation(5, "Given", 1)).unwrap();
    kernel.create_relation(relation(6, "Source", 1)).unwrap();
    kernel
}

#[test]
fn computed_rows_come_as_they_are_given() {
    let mut kernel = computing(Given {
        rows: vec![row(&[3]), row(&[1]), row(&[3])],
        complains: false,
    });
    let snapshot = kernel.snapshot();
    assert_eq!(
        snapshot.scan(rel(5), &[None]).unwrap(),
        vec![row(&[3]), row(&[1]), row(&[3])]
    );
    assert_eq!(
        snapshot.estimate_extensional_scan(rel(5), &[None]).unwrap(),
        ScanEstimate::Exactly(42)
    );
    assert!(snapshot.contains(rel(5), &row(&[8])).unwrap());
    assert!(matches!(
        snapshot.scan(rel(5), &[]),
        Err(KernelError::ArityMismatch { .. })
    ));
    let rule = Rule::new(
        rel(5),
        vec![Term::Var(Symbol::intern("x"))],
        vec![RuleBodyItem::Atom(Atom::positive(
            rel(6),
            vec![Term::Var(Symbol::intern("x"))],
        ))],
    );
    kernel.install_rule(rule, "given".to_owned(), None).unwrap();
    kernel.keep_evaluation(Ok(vec![(rel(5), vec![row(&[2])])]), None);
    assert_eq!(
        kernel.snapshot().scan(rel(5), &[None]).unwrap(),
        vec![row(&[1]), row(&[2]), row(&[3])]
    );
}

#[test]
fn a_complaint_of_a_computed_relation_is_handed_on() {
    let kernel = computing(Given {
        rows: Vec::new(),
        complains: true,
    });
    assert!(matches!(
        kernel.snapshot().scan(rel(5), &[None]),
        Err(KernelError::InvalidComputedRelation { message, .. }) if message == "out of reach"
    ));
    assert!(matches!(
        kernel.snapshot().contains(rel(5), &row(&[1])),
        Err(KernelError::InvalidComputedRelation { message, .. }) if message == "out of reach"
    ));
}

#[test]
fn a_provider_has_nothing_to_wait_for_unless_it_says_so() {
    assert_eq!(InMemoryCommitProvider {}.flush(), Ok(()));
}

fn dispatching() -> (RelationKernel<InMemoryCommitProvider>, DispatchRelations) {
    let mut kernel = RelationKernel::new();
    kernel.create_relation(relation(40, "MethodSelector", 2)).unwrap();
    kernel.create_relation(relation(41, "Param", 4)).unwrap();
    kernel.create_relation(relation(42, "Delegates", 3)).unwrap();
    let relations = DispatchRelations {
        method_selector: rel(40),
        param: rel(41),
        delegates: rel(42),
    };
    let mut tx = kernel.begin(prototypes());
    tx.assert_tuple(rel(40), Tuple::new(vec![num(100), sym("look")]))
        .unwrap();
    tx.assert_tuple(
        rel(41),
        Tuple::new(vec![num(100), sym("at"), num(11), num(1)]),
    )
    .unwrap();
    tx.assert_tuple(
        rel(41),
        Tuple::new(vec![num(100), sym("who"), num(12), num(0)]),
    )
    .unwrap();
    kernel.commit(&tx, None).unwrap();
    (kernel, relations)
}

#[test]
fn methods_come_with_their_parameters() {
    let (kernel, relations) = dispatching();
    let snapshot = kernel.snapshot();
    let roles = [(sym("who"), num(12)), (sym("at"), num(11))];
    let found =
        applicable_method_entries(&*snapshot, relations, &prototypes(), &sym("look"), &roles)
            .unwrap();
    assert_eq!(found.len(), 1);
    assert_eq!(found[0].method, num(100));
    assert_eq!(found[0].params.len(), 2);
    assert_eq!(
        positional_method_args(&found[0].params, &[num(1), num(2)]),
        Some(vec![(sym("who"), num(1)), (sym("at"), num(2))])
    );
    assert_eq!(positional_method_args(&found[0].params, &[num(1)]), None);
    let tx = kernel.begin(prototypes());
    assert_eq!(
        tx.cached_applicable_method_calls(relations, &sym("look"), &roles)
            .unwrap(),
        vec![ApplicableMethodCall {
            method: num(100),
            args: Some(vec![num(12), num(11)])
        }]
    );
}

#[test]
fn dispatch_fails_where_a_relation_it_needs_is_missing() {
    let (kernel, relations) = dispatching();
    let snapshot = kernel.snapshot();
    let missing = DispatchRelations {
        param: rel(77),
        ..relations
    };
    assert!(matches!(
        applicable_methods(&*snapshot, missing, &prototypes(), &sym("look"), &[]),
        Err(KernelError::UnknownRelation(id)) if id == rel(77)
    ));
    assert_eq!(
        applicable_methods(&*snapshot, missing, &prototypes(), &sym("jump"), &[]).unwrap(),
        vec![]
    );
    let unselected = DispatchRelations {
        method_selector: rel(78),
        ..relations
    };
    assert!(matches!(
        applicable_methods(&*snapshot, unselected, &prototypes(), &sym("jump"), &[]),
        Err(KernelError::UnknownRelation(id)) if id == rel(78)
    ));
}

#[test]
fn roles_are_put_in_order() {
    let pairs = vec![(num(3), num(1)), (num(1), num(2)), (num(2), num(3))];
    assert_eq!(
        normalize_dispatch_roles(pairs),
        vec![(num(1), num(2)), (num(2), num(3)), (num(3), num(1))]
    );
}
