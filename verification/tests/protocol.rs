use mica::protocol::view_dependency::{
    decode_sync_view_dependencies, SyncViewDependency, SyncViewDependencySubject, SyncViewRelation,
};
use mica::value::{Identity, Symbol, Value};

fn sym(name: &str) -> Value {
    Value::symbol(Symbol::intern(name))
}

#[test]
fn decodes_relation_dependency_with_bound_columns() {
    let actor = Identity::new(7).unwrap();
    let value = Value::list(vec![Value::map(vec![
        (sym("subject"), sym("relation")),
        (sym("relation"), sym("VisibleObject")),
        (
            sym("bindings"),
            Value::list(vec![
                Value::OptionSome(Box::new(Value::identity(actor))),
                Value::OptionNone,
            ]),
        ),
    ])]);

    assert_eq!(
        decode_sync_view_dependencies(&value).unwrap(),
        vec![SyncViewDependency {
            subject: SyncViewDependencySubject::Relation,
            relation: SyncViewRelation::Name(Symbol::intern("VisibleObject")),
            bindings: vec![Some(Value::identity(actor)), None],
        }]
    );
}

#[test]
fn rejects_catalogue_dependencies() {
    let value = Value::list(vec![Value::map(vec![
        (sym("subject"), sym("catalogue")),
        (sym("relation"), Value::OptionNone),
        (sym("bindings"), Value::list(vec![])),
    ])]);

    assert_eq!(
        decode_sync_view_dependencies(&value).unwrap_err(),
        "sync view dependency 0: subject must be :facts or :relation"
    );
}

#[test]
fn the_place_of_a_wrong_dependency_is_told() {
    let good = Value::map(vec![
        (sym("subject"), sym("facts")),
        (sym("relation"), sym("Room")),
        (sym("bindings"), Value::list(vec![])),
    ]);
    let bad = Value::map(vec![(sym("relation"), sym("Room"))]);
    let error = decode_sync_view_dependencies(&Value::list(vec![good, bad])).unwrap_err();
    assert!(error.starts_with("sync view dependency 1: "), "{error}");
    assert!(decode_sync_view_dependencies(&Value::string("x")).is_err());
}
