use mica::kernel::algebra::union_ordered_tuple_rows;
use mica::kernel::catalog::{is_system_relation, system_computed_relations};
use mica::kernel::computed::ComputedRelation;
use mica::kernel::dispatch::PrimitivePrototypes;
use mica::kernel::live::{InMemoryCommitProvider, RelationKernel};
use mica::kernel::metadata::RelationMetadata;
use mica::kernel::relation::{RelationMutationKind, RelationState, ScanAccess, ValueDomain};
use mica::kernel::store::{TupleStore, TUPLE_STORE_RADIX_THRESHOLD};
use mica::tuple::Tuple;
use mica::value::{Identity, Symbol, Value};
use std::sync::Arc;

fn rel(id: u64) -> Identity {
    Identity::new(id).unwrap()
}

fn num(value: i64) -> Value {
    Value::integer(value).unwrap()
}

fn row(values: &[i64]) -> Tuple {
    Tuple::new(values.iter().map(|value| num(*value)).collect())
}

fn relation(id: u64, name: &str, arity: u16) -> RelationMetadata {
    RelationMetadata::new(rel(id), Symbol::intern(name), arity)
}

fn edges() -> RelationState {
    RelationState::empty(relation(1, "Edge", 2).with_index(vec![1])).unwrap()
}

#[test]
fn an_index_finds_rows_by_its_columns() {
    let mut state = edges();
    for (a, b) in [(3, 1), (1, 2), (2, 1), (1, 1)] {
        assert!(state.insert(row(&[a, b])));
    }
    assert!(!state.insert(row(&[1, 1])));
    assert_eq!(state.cardinality(), 4);
    assert_eq!(
        state.scan(&[None, Some(num(1))]).unwrap(),
        vec![row(&[1, 1]), row(&[2, 1]), row(&[3, 1])]
    );
    assert_eq!(
        state.scan(&[Some(num(1)), None]).unwrap(),
        vec![row(&[1, 1]), row(&[1, 2])]
    );
    assert!(matches!(
        state.best_access(&[None, Some(num(1))]),
        ScanAccess::Index { .. }
    ));
    assert!(state.remove(&row(&[2, 1])));
    assert!(!state.remove(&row(&[2, 1])));
    assert_eq!(
        state.scan(&[None, Some(num(1))]).unwrap(),
        vec![row(&[1, 1]), row(&[3, 1])]
    );
    assert!(state.has_exact_index(&[1]));
    assert!(!state.has_exact_index(&[1, 0]));
}

#[test]
fn a_copy_does_not_see_later_changes() {
    let mut state = edges();
    state.insert(row(&[1, 2]));
    let copy = state.snapshot();
    state.insert(row(&[2, 2]));
    state.remove(&row(&[1, 2]));
    assert_eq!(
        copy.scan(&[None, Some(num(2))]).unwrap(),
        vec![row(&[1, 2])]
    );
    assert_eq!(
        state.scan(&[None, Some(num(2))]).unwrap(),
        vec![row(&[2, 2])]
    );
}

#[test]
fn many_rows_move_to_a_tree_and_stay_in_order() {
    let mut state = RelationState::empty(relation(1, "Number", 1)).unwrap();
    let total: i64 = 5_000;
    for value in 0..total {
        state.insert(row(&[(value * 7_919) % total]));
    }
    assert_eq!(state.cardinality(), total as usize);
    assert_eq!(state.index_storage_kind(0), Some("radix"));
    let all = state.scan(&[None]).unwrap();
    assert_eq!(all.len(), total as usize);
    assert_eq!(all[0], row(&[0]));
    assert_eq!(all[4_999], row(&[4_999]));
    assert!(all.windows(2).all(|pair| pair[0].key() < pair[1].key()));
    assert!(state.contains_tuple(&row(&[4_321])));
    assert_eq!(state.scan(&[Some(num(17))]).unwrap(), vec![row(&[17])]);
    assert!(state.remove(&row(&[17])));
    assert!(!state.contains_tuple(&row(&[17])));
    assert_eq!(state.scan(&[Some(num(17))]).unwrap(), vec![]);
}

#[test]
fn few_rows_are_kept_in_a_list() {
    let mut state = RelationState::empty(relation(1, "Number", 1)).unwrap();
    state.insert(row(&[1]));
    assert_eq!(state.index_storage_kind(0), Some("btree"));
    assert_eq!(state.index_storage_kind(1), None);
}

#[test]
fn large_relations_are_joined_on_whole_rows() {
    let mut left = RelationState::empty(relation(1, "Left", 1)).unwrap();
    let mut right = RelationState::empty(relation(2, "Right", 1)).unwrap();
    for value in 0..5_000 {
        left.insert(row(&[value * 2]));
        right.insert(row(&[value * 3]));
    }
    let joined = left
        .join_eq(&[None], &[0], &right, &[None], &[0])
        .unwrap()
        .unwrap();
    assert_eq!(joined.len(), 1_667);
    assert!(joined.contains(&row(&[6, 6])));
    assert!(!joined.contains(&row(&[4, 4])));
}

#[test]
fn relations_are_joined_on_an_index() {
    let mut left = edges();
    let mut right = edges();
    left.insert(row(&[1, 5]));
    left.insert(row(&[2, 6]));
    right.insert(row(&[7, 5]));
    right.insert(row(&[8, 5]));
    let mut joined = left
        .join_eq(&[None, None], &[1], &right, &[None, None], &[1])
        .unwrap()
        .unwrap();
    joined.sort_by(|a, b| a.key().cmp(b.key()));
    assert_eq!(joined, vec![row(&[1, 5, 7, 5]), row(&[1, 5, 8, 5])]);
    assert_eq!(
        left.join_eq(&[None, None], &[0], &right, &[None, None], &[1])
            .unwrap(),
        None
    );
}

#[test]
fn value_domains_follow_the_rows() {
    let mut state = RelationState::empty(relation(1, "Mixed", 2)).unwrap();
    assert_eq!(state.value_domains()[0], ValueDomain::Immediate);
    let text = Tuple::new(vec![num(1), Value::string("x")]);
    state.insert(text.clone());
    assert_eq!(
        state.value_domains(),
        vec![ValueDomain::Immediate, ValueDomain::Heap]
    );
    state.insert(row(&[2, 2]));
    assert_eq!(
        state.value_domains(),
        vec![ValueDomain::Immediate, ValueDomain::Mixed]
    );
    state.remove(&text);
    assert_eq!(
        state.value_domains(),
        vec![ValueDomain::Immediate, ValueDomain::Immediate]
    );
}

#[test]
fn changes_that_have_no_effect_are_not_told() {
    let mut base = edges();
    base.insert(row(&[1, 1]));
    let mut now = base.snapshot();
    now.insert(row(&[2, 2]));
    let applied = now.apply_ordered_changes(
        &[
            (row(&[1, 1]), RelationMutationKind::Retract),
            (row(&[2, 2]), RelationMutationKind::Retract),
            (row(&[3, 3]), RelationMutationKind::Assert),
        ],
        &base,
    );
    assert_eq!(applied.len(), 2);
    assert_eq!(
        now.scan(&[None, None]).unwrap(),
        vec![row(&[2, 2]), row(&[3, 3])]
    );
}

#[test]
fn rows_of_two_lists_are_merged_in_order() {
    let merged = union_ordered_tuple_rows(
        vec![row(&[1]), row(&[3])],
        vec![row(&[2]), row(&[3]), row(&[4])],
    );
    assert_eq!(merged, vec![row(&[1]), row(&[2]), row(&[3]), row(&[4])]);
}

#[test]
fn values_of_all_kinds_have_an_order() {
    let ordered = [
        num(-5),
        num(0),
        num(300),
    ];
    for pair in ordered.windows(2) {
        let a = Tuple::new(vec![pair[0].clone()]);
        let b = Tuple::new(vec![pair[1].clone()]);
        assert!(a.key() < b.key());
    }
    assert!(Value::integer(1 << 60).is_none());
    assert!(Identity::new(1 << 60).is_none());
}

fn reflecting() -> RelationKernel<InMemoryCommitProvider> {
    let computed = system_computed_relations()
        .into_iter()
        .map(|relation| Arc::new(relation) as Arc<dyn ComputedRelation>)
        .collect();
    RelationKernel::with_provider_and_computed_relations(InMemoryCommitProvider {}, computed)
}

fn prototypes() -> PrimitivePrototypes {
    PrimitivePrototypes {
        nothing: rel(901),
        boolean: rel(902),
        integer: rel(903),
        identity: rel(904),
        symbol: rel(905),
        string: rel(906),
        list: rel(907),
        mapping: rel(908),
        option: rel(909),
        frob: rel(910),
        error: rel(911),
        capability: rel(912),
        float: rel(913),
        bytes: rel(914),
        relation: rel(915),
    }
}

#[test]
fn the_catalog_is_a_relation_like_others() {
    let mut kernel = reflecting();
    let system = relation(5, "RelationName", 2);
    assert!(is_system_relation(&system));
    assert!(!is_system_relation(&relation(5, "RelationName", 3)));
    kernel.create_relation(system).unwrap();
    kernel.create_relation(relation(6, "Room", 1)).unwrap();
    let found = kernel
        .snapshot()
        .scan(rel(5), &[Some(Value::identity(rel(6))), None])
        .unwrap();
    assert_eq!(
        found,
        vec![Tuple::new(vec![
            Value::identity(rel(6)),
            Value::named("Room")
        ])]
    );
    let mut tx = kernel.begin(prototypes());
    assert!(tx
        .assert_tuple(
            rel(5),
            Tuple::new(vec![Value::identity(rel(6)), Value::named("Hall")])
        )
        .is_err());
}

#[test]
fn capabilities_tell_how_many_rows_there_are() {
    let mut kernel = RelationKernel::new();
    kernel
        .create_relation(relation(1, "Edge", 2).with_index(vec![1]))
        .unwrap();
    let mut tx = kernel.begin(prototypes());
    tx.assert_tuple(rel(1), row(&[1, 2])).unwrap();
    tx.assert_tuple(rel(1), row(&[2, 2])).unwrap();
    kernel.commit(&tx, None).unwrap();
    let snapshot = kernel.snapshot();
    let capabilities = snapshot.relation_capabilities(rel(1)).unwrap();
    assert_eq!(capabilities.cardinality, Some(2));
    assert!(capabilities.immediate_only());
    assert!(snapshot.relation_has_exact_index(rel(1), &[1]).unwrap());
    assert_eq!(
        snapshot
            .join_relation_scans(rel(1), &[None, None], &[1], rel(1), &[None, None], &[1])
            .unwrap()
            .len(),
        4
    );
    assert_eq!(snapshot.extensional_facts().len(), 2);
}

#[test]
fn a_store_of_rows_in_order_holds_them() {
    for count in [0, 3, TUPLE_STORE_RADIX_THRESHOLD, TUPLE_STORE_RADIX_THRESHOLD + 1] {
        let rows: Vec<Tuple> = (0..count).map(|value| row(&[value as i64, 1])).collect();
        let store = TupleStore::from_sorted_unique(&rows);
        assert_eq!(store.len(), count);
        assert_eq!(store.all_tuples(), rows);
        let mut grown = TupleStore::empty();
        for row in &rows {
            assert!(grown.insert(row.clone()));
        }
        assert_eq!(store.storage_kind(), grown.storage_kind());
        assert!(!store.contains(&row(&[-1, 1])));
    }
}
