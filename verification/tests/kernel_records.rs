use mica::bytes::Standing;
use mica::kernel::codec::{
    encode_commit, encode_relation_metadata_record, encode_rule_definition_record,
    encode_tuple_record, fact_key,
};
use mica::kernel::commit::{CatalogChange, Commit, FactChange, FactChangeKind};
use mica::kernel::decode::{
    decode_commit, decode_fact_relation, decode_number, decode_relation_metadata,
    decode_rule_definition, decode_tuple,
};
use mica::kernel::metadata::{ConflictPolicy, RelationDurability, RelationMetadata};
use mica::kernel::persistence::{
    format_status, plan_commit, rules_to_read, write_failure, FjallDurabilityMode,
    FjallFormatStatus, Keyspace, StoreError, StoreWrite, WriterState,
};
use mica::kernel::rules::{
    Atom, Rule, RuleBodyItem, RuleComparisonOp, RuleDefinition, RuleGuard, Term,
};
use mica::tuple::Tuple;
use mica::value::{Identity, Symbol, Value};
use mica::value_codec::{push_stored_form, read_stored_value};

fn rel(id: u64) -> Identity {
    Identity::new(id).unwrap()
}

fn num(value: i64) -> Value {
    Value::integer(value).unwrap()
}

fn var(name: &str) -> Term {
    Term::Var(Symbol::intern(name))
}

fn rule() -> RuleDefinition {
    RuleDefinition::new(
        rel(50),
        Rule::new(
            rel(2),
            vec![var("x"), Term::Value(Value::string("constant"))],
            vec![
                RuleBodyItem::Atom(Atom::positive(rel(1), vec![var("x"), var("y")])),
                RuleBodyItem::Atom(Atom::negated(rel(3), vec![var("y")])),
                RuleBodyItem::Guard(RuleGuard {
                    op: RuleComparisonOp::Ge,
                    left: var("y"),
                    right: Term::Value(num(-3)),
                }),
            ],
        ),
        "r(x, \"constant\") :- p(x, y), !q(y), y >= -3".to_owned(),
    )
}

fn mixed() -> Tuple {
    Tuple::new(vec![
        Value::Nothing,
        Value::Bool(true),
        num(-5),
        Value::identity(rel(9)),
        Value::named("sym"),
        Value::string("täxt \u{1f600}"),
        Value::list(vec![num(1), Value::OptionNone]),
        Value::map(vec![(Value::named("k"), num(2))]),
        Value::OptionSome(Box::new(Value::string("in"))),
        Value::frob(rel(4), Value::list(vec![])),
        Value::error(Symbol::intern("E"), "message"),
        Value::float(1 << 63),
        Value::bytes(&[0, 255, 7]),
        pairs(vec![(2, "b"), (1, "a")]).unwrap(),
    ])
}

fn pairs(rows: Vec<(i64, &str)>) -> Option<Value> {
    Value::relation(
        vec![Symbol::intern("number"), Symbol::intern("text")],
        rows.into_iter()
            .map(|(number, text)| Tuple::new(vec![num(number), Value::string(text)]))
            .collect(),
    )
}

#[test]
fn relation_metadata_round_trip_preserves_declared_indexes() {
    let metadata = RelationMetadata::new(Identity::new(1).unwrap(), Symbol::intern("Reading"), 2);
    for metadata in [
        metadata.clone(),
        metadata.clone().without_indexes(),
        metadata
            .without_indexes()
            .with_index(vec![1])
            .with_index(vec![1, 0]),
    ] {
        let encoded = encode_relation_metadata_record(&metadata).unwrap();
        assert_eq!(decode_relation_metadata(&encoded).unwrap(), metadata);
    }
}

#[test]
fn everything_about_a_relation_is_read_back() {
    let metadata = RelationMetadata::new(rel(3), Symbol::intern("Location"), 3)
        .with_durability(RelationDurability::Volatile)
        .with_conflict_policy(ConflictPolicy::Functional {
            key_positions: vec![0, 2],
        })
        .with_argument_name(1, Symbol::intern("place"));
    let record = encode_relation_metadata_record(&metadata).unwrap();
    assert_eq!(decode_relation_metadata(&record).unwrap(), metadata);
}

#[test]
fn a_rule_is_read_back() {
    let mut rule = rule();
    let record = encode_rule_definition_record(&rule).unwrap();
    assert_eq!(decode_rule_definition(&record).unwrap(), rule);
    rule.deactivate();
    let record = encode_rule_definition_record(&rule).unwrap();
    assert_eq!(decode_rule_definition(&record).unwrap(), rule);
}

#[test]
fn a_row_is_read_back_whatever_its_values() {
    let record = encode_tuple_record(&mixed()).unwrap();
    assert_eq!(decode_tuple(&record).unwrap(), mixed());
    assert_eq!(
        encode_tuple_record(&Tuple::new(vec![num(7)])).unwrap()[..4],
        [0, 0, 0, 1]
    );
    assert_eq!(
        encode_tuple_record(&Tuple::new(vec![Value::Capability(1)])).unwrap_err(),
        "value cannot be stored"
    );
}

#[test]
fn a_number_is_stored_in_a_word() {
    for (number, bytes) in [
        (7, [7, 0, 0, 0, 0, 0, 0, 2]),
        (0x0102, [2, 1, 0, 0, 0, 0, 0, 2]),
        (-1, [255, 255, 255, 255, 255, 255, 255, 2]),
        (-(1 << 55), [0, 0, 0, 0, 0, 0, 128, 2]),
    ] {
        let mut out = Vec::new();
        push_stored_form(&mut out, &num(number));
        assert_eq!(out, bytes);
        assert_eq!(read_stored_value(&out, 0), Some((num(number), 8)));
        assert_eq!(read_stored_value(&out[..7], 0), None);
    }
    assert_eq!(
        encode_tuple_record(&Tuple::new(vec![Value::Int(1 << 55)])).unwrap_err(),
        "value cannot be stored"
    );
}

#[test]
fn bytes_and_floats_stand_in_order() {
    let before = |first: Value, second: Value| {
        let (first, second) = (Tuple::new(vec![first]), Tuple::new(vec![second]));
        assert_eq!(first.compare(&second), Standing::Before);
        assert_eq!(second.compare(&first), Standing::After);
    };
    before(Value::bytes(&[]), Value::bytes(&[0]));
    before(Value::bytes(&[0, 9]), Value::bytes(&[1]));
    before(Value::bytes(&[127]), Value::bytes(&[128]));
    before(Value::float(3), Value::float(4));
    before(Value::float(255), Value::float(256));
}

#[test]
fn a_relation_value_is_its_columns_and_rows() {
    let value = pairs(vec![(2, "b"), (1, "a"), (2, "b")]).unwrap();
    assert_eq!(Some(value.clone()), pairs(vec![(1, "a"), (2, "b")]));
    assert_ne!(Some(value), pairs(vec![(1, "a")]));
    let names = || vec![Symbol::intern("number")];
    assert_eq!(
        Value::relation(names(), vec![Tuple::new(vec![num(1), num(2)])]),
        None
    );
    assert_eq!(
        Value::relation(
            vec![Symbol::intern("number"), Symbol::intern("number")],
            vec![]
        ),
        None
    );
    assert_eq!(
        Value::relation(names(), vec![Tuple::new(vec![num(2)]), Tuple::new(vec![num(1)])]),
        Some(Value::Relation(
            vec![Value::named("number")],
            vec![Value::list(vec![num(1)]), Value::list(vec![num(2)])]
        ))
    );
}

#[test]
fn the_key_of_a_row_starts_with_its_relation() {
    let key = fact_key(rel(0x0102), &Tuple::new(vec![num(1)])).unwrap();
    assert_eq!(key[..8], [0, 0, 0, 0, 0, 0, 1, 2]);
    let other = fact_key(rel(0x0103), &Tuple::new(vec![num(1)])).unwrap();
    assert_ne!(key, other);
}

fn commit() -> Commit {
    Commit {
        version: 77,
        catalog_changes: vec![
            CatalogChange::RelationCreated(RelationMetadata::new(
                rel(1),
                Symbol::intern("Member"),
                14,
            )),
            CatalogChange::RuleInstalled(rule()),
            CatalogChange::RuleDisabled(rel(49)),
        ],
        changes: vec![
            FactChange {
                relation: rel(1),
                tuple: mixed(),
                kind: FactChangeKind::Assert,
            },
            FactChange {
                relation: rel(2),
                tuple: Tuple::new(vec![num(1)]),
                kind: FactChangeKind::Retract,
            },
        ],
        relation_changes: vec![],
        settled_relation_changes_available: false,
    }
}

#[test]
fn a_commit_is_read_back() {
    let record = encode_commit(&commit()).unwrap();
    assert_eq!(decode_commit(&record).unwrap(), commit());
}

#[test]
fn broken_records_are_refused() {
    let record = encode_commit(&commit()).unwrap();
    for cut in [0, 3, 8, 20, record.len() - 1] {
        assert!(decode_commit(&record[..cut]).is_err());
    }
    let mut longer = record.clone();
    longer.push(0);
    assert_eq!(
        decode_commit(&longer).unwrap_err(),
        "trailing bytes in mica commit record: 1"
    );
    let mut text = encode_rule_definition_record(&rule()).unwrap();
    let at = 8 + 1 + 4;
    text[at] = 0xff;
    assert!(decode_rule_definition(&text).is_err());
}

#[test]
fn a_commit_is_planned_for_a_store() {
    let commit = commit();
    let ids = rules_to_read(&commit);
    assert_eq!(ids, vec![rel(49)]);
    let stored = encode_rule_definition_record(&RuleDefinition::new(
        rel(49),
        Rule::new(rel(2), vec![], vec![]),
        "old".to_owned(),
    ))
    .unwrap();
    let writes = plan_commit(&commit, &[Some(stored.clone())], b"version".to_vec()).unwrap();
    assert_eq!(writes.len(), 7);
    assert!(matches!(
        &writes[0],
        StoreWrite::Put(Keyspace::Commits, key, value)
            if key[..] == 77u64.to_be_bytes() && *value == encode_commit(&commit).unwrap()
    ));
    assert!(matches!(
        &writes[1],
        StoreWrite::Put(Keyspace::Relations, key, _) if key[..] == 1u64.to_be_bytes()
    ));
    assert!(matches!(
        &writes[2],
        StoreWrite::Put(Keyspace::Rules, key, _) if key[..] == 50u64.to_be_bytes()
    ));
    match &writes[3] {
        StoreWrite::Put(Keyspace::Rules, key, value) => {
            assert_eq!(key[..], 49u64.to_be_bytes());
            let rule = decode_rule_definition(value).unwrap();
            assert!(!rule.active());
            assert_eq!(rule.source(), "old");
        }
        other => panic!("{other:?}"),
    }
    assert!(matches!(
        &writes[4],
        StoreWrite::Put(Keyspace::Facts, key, value)
            if *key == fact_key(rel(1), &mixed()).unwrap()
                && *value == encode_tuple_record(&mixed()).unwrap()
    ));
    assert!(matches!(&writes[5], StoreWrite::Remove(Keyspace::Facts, _)));
    assert!(matches!(
        &writes[6],
        StoreWrite::Put(Keyspace::Metadata, key, value)
            if key[..] == b"version"[..] && value[..] == 77u64.to_be_bytes()
    ));

    assert!(matches!(
        plan_commit(&commit, &[None], b"version".to_vec()),
        Err(StoreError::MissingRule(id)) if id == rel(49)
    ));
    assert!(matches!(
        plan_commit(&commit, &[Some(vec![1, 2])], b"version".to_vec()),
        Err(StoreError::Record(_))
    ));
}

#[test]
fn a_writer_stops_after_a_failure() {
    let mut state = WriterState::new(3, FjallDurabilityMode::Relaxed);
    assert!(state.check_writer_error().is_ok());
    assert!(!state.queued(5));
    assert!(!state.queued(4));
    assert_eq!(state.queued_version(), 5);
    state.written(5, &Ok(()));
    assert_eq!(state.completed_version(), 5);
    let failure = write_failure(6, "disk full");
    assert_eq!(failure, "failed to persist fjall commit 6: disk full");
    state.written(6, &Err(failure.clone()));
    assert_eq!(state.completed_version(), 5);
    assert_eq!(state.last_write_error(), Some(failure));
    assert_eq!(
        state.check_writer_error().unwrap_err(),
        "fjall commit writer failed: failed to persist fjall commit 6: disk full"
    );
    let mut strict = WriterState::new(0, FjallDurabilityMode::Strict);
    assert!(strict.queued(1));
}

#[test]
fn the_key_of_a_row_names_its_relation() {
    let key = fact_key(rel(300), &Tuple::new(vec![num(1), Value::string("a")])).unwrap();
    assert_eq!(decode_fact_relation(&key), Ok(rel(300)));
    assert_eq!(
        decode_fact_relation(&key[..7]),
        Err("commit record ended early: need 8 bytes at offset 0, len 7".to_owned())
    );
    assert_eq!(
        decode_fact_relation(&[255; 9]),
        Err("identity 18446744073709551615 is out of range".to_owned())
    );
}

#[test]
fn a_number_is_read_back() {
    assert_eq!(decode_number(&0x0102_0304_0506_0708u64.to_be_bytes()), Ok(0x0102_0304_0506_0708));
    assert_eq!(
        decode_number(&[0; 9]),
        Err("trailing bytes in mica commit record: 1".to_owned())
    );
    assert!(decode_number(&[0; 7]).is_err());
}

#[test]
fn a_store_of_another_format_is_not_opened() {
    let shape = || Some("rows".to_owned());
    assert!(matches!(
        format_status(false, None, None, 3, "rows"),
        FjallFormatStatus::Fresh
    ));
    assert!(matches!(
        format_status(true, None, None, 3, "rows"),
        FjallFormatStatus::Uninitialized
    ));
    assert!(matches!(
        format_status(true, Some(3), shape(), 3, "rows"),
        FjallFormatStatus::Current
    ));
    for (version, stored) in [
        (Some(2), shape()),
        (Some(3), Some("columns".to_owned())),
        (Some(3), None),
        (None, shape()),
    ] {
        match format_status(true, version, stored.clone(), 3, "rows") {
            FjallFormatStatus::MigrationRequired {
                stored_version,
                stored_shape,
                current_version,
                current_shape,
            } => {
                assert_eq!(stored_version, version);
                assert_eq!(stored_shape, stored);
                assert_eq!(current_version, 3);
                assert_eq!(current_shape, "rows");
            }
            other => panic!("{other:?}"),
        }
    }
}
