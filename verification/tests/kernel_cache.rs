use mica::kernel::dispatch::DispatchRelations;
use mica::kernel::inline_cache::{
    TransactionDispatchCache, INLINE_DISPATCH_CACHE_CAPACITY, METHOD_PROGRAM_ENABLED,
    POSITIONAL_DISPATCH_CACHED,
};
use mica::kernel::metadata::RelationId;
use mica::value::{Identity, Symbol, Value};
use std::sync::Arc;

fn rel(id: u64) -> RelationId {
    Identity::new(id).unwrap()
}

#[test]
fn full_positional_inline_cache_does_not_displace_existing_entries() {
    let mut cache = TransactionDispatchCache::new();
    let relations = DispatchRelations {
        method_selector: rel(1),
        param: rel(2),
        delegates: rel(3),
    };
    let selectors = [
        Value::symbol(Symbol::intern("first")),
        Value::symbol(Symbol::intern("second")),
        Value::symbol(Symbol::intern("third")),
    ];
    let methods = [
        Arc::new(vec![Value::identity(rel(11))]),
        Arc::new(vec![Value::identity(rel(12))]),
        Arc::new(vec![Value::identity(rel(13))]),
    ];

    for index in 0..INLINE_DISPATCH_CACHE_CAPACITY {
        cache.remember_positional(
            relations,
            &selectors[index],
            &[],
            Arc::clone(&methods[index]),
        );
    }
    for _ in 0..3 {
        cache.remember_positional(relations, &selectors[2], &[], Arc::clone(&methods[2]));
    }

    for index in 0..INLINE_DISPATCH_CACHE_CAPACITY {
        let cached = cache
            .positional(
                relations,
                &selectors[index],
                &[],
                POSITIONAL_DISPATCH_CACHED,
            )
            .unwrap();
        assert!(Arc::ptr_eq(&cached, &methods[index]));
    }
    assert!(cache
        .positional(relations, &selectors[2], &[], POSITIONAL_DISPATCH_CACHED)
        .is_none());
}

#[test]
fn programs_are_remembered_once_calls_were() {
    let mut cache = TransactionDispatchCache::new();
    let method = Value::identity(rel(5));
    let program = Value::identity(rel(6));
    cache.consider_method_program(rel(1), &method, Some(program.clone()), 0);
    assert_eq!(cache.method_program(rel(1), &method), None);
    cache.consider_method_program(
        rel(1),
        &method,
        Some(program.clone()),
        METHOD_PROGRAM_ENABLED,
    );
    assert_eq!(cache.method_program(rel(1), &method), Some(Some(program)));
    assert_eq!(cache.method_program(rel(2), &method), None);
    cache.clear();
    assert_eq!(cache.method_program(rel(1), &method), None);
}
