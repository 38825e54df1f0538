use mica::kernel::computed::ComputedRelation;
use mica::kernel::dispatch::{
    applicable_method_calls, applicable_method_calls_normalized, applicable_methods,
    applicable_positional_methods, frob_only_dispatch_restriction, matches_restriction, method_program_id, named_method_args,
    unrestricted_dispatch_restriction, ApplicableMethodCall, DispatchRelations,
    PrimitivePrototypes,
};
use mica::kernel::error::KernelError;
use mica::kernel::live::{InMemoryCommitProvider, RelationKernel};
use mica::kernel::metadata::{RelationId, RelationMetadata};
use mica::kernel::read::ComputedRelationRead;
use mica::kernel::rules::{Atom, Rule, RuleBodyItem, RuleDefinition, Term};
use mica::kernel::transaction::{applicable_positional_methods_cached, Transaction};
use mica::tuple::Tuple;
use mica::value::{Identity, Symbol, Value};
use std::sync::Arc;

fn rel(id: u64) -> RelationId {
    Identity::new(id).unwrap()
}

fn num(value: i64) -> Value {
    Value::integer(value).unwrap()
}

fn sym(name: &str) -> Value {
    Value::symbol(Symbol::intern(name))
}

fn prototypes() -> PrimitivePrototypes {
    let base = 0x00f0_0000_0000_0000;
    PrimitivePrototypes {
        nothing: rel(base),
        boolean: rel(base + 1),
        integer: rel(base + 2),
        identity: rel(base + 3),
        symbol: rel(base + 4),
        string: rel(base + 5),
        list: rel(base + 6),
        mapping: rel(base + 7),
        option: rel(base + 8),
        frob: rel(base + 9),
        error: rel(base + 10),
        capability: rel(base + 11),
        float: rel(base + 12),
        bytes: rel(base + 13),
        relation: rel(base + 14),
    }
}

fn kernel_with_dispatch_relations() -> RelationKernel<InMemoryCommitProvider> {
    let mut kernel = RelationKernel::new();
    kernel
        .create_relation(
            RelationMetadata::new(rel(40), Symbol::intern("MethodSelector"), 2)
                .with_index(vec![1, 0]),
        )
        .unwrap();
    kernel
        .create_relation(
            RelationMetadata::new(rel(41), Symbol::intern("Param"), 4).with_index(vec![0, 1]),
        )
        .unwrap();
    kernel
        .create_relation(
            RelationMetadata::new(rel(42), Symbol::intern("Delegates"), 3)
                .with_index(vec![0, 2, 1]),
        )
        .unwrap();
    kernel
}

fn dispatch_relations() -> DispatchRelations {
    DispatchRelations {
        method_selector: rel(40),
        param: rel(41),
        delegates: rel(42),
    }
}

#[test]
fn dispatch_matches_method_params_through_delegation() {
    let kernel = kernel_with_dispatch_relations();
    let mut tx = kernel.begin(prototypes());
    tx.assert_tuple(rel(40), Tuple::new(vec![num(100), sym("take")]))
        .unwrap();
    tx.assert_tuple(
        rel(41),
        Tuple::new(vec![num(100), sym("actor"), num(11), num(0)]),
    )
    .unwrap();
    tx.assert_tuple(
        rel(41),
        Tuple::new(vec![num(100), sym("item"), num(2), num(1)]),
    )
    .unwrap();
    tx.assert_tuple(rel(42), Tuple::new(vec![num(10), num(11), num(0)]))
        .unwrap();
    tx.assert_tuple(rel(42), Tuple::new(vec![num(1), num(2), num(0)]))
        .unwrap();

    assert_eq!(
        applicable_methods(
            &tx,
            dispatch_relations(), &prototypes(), &sym("take"), &[(sym("actor"), num(10)), (sym("item"), num(1))]
        )
        .unwrap(),
        vec![num(100)]
    );
}

#[test]
fn dispatch_rejects_missing_roles() {
    let kernel = kernel_with_dispatch_relations();
    let mut tx = kernel.begin(prototypes());
    tx.assert_tuple(rel(40), Tuple::new(vec![num(100), sym("take")]))
        .unwrap();
    tx.assert_tuple(
        rel(41),
        Tuple::new(vec![num(100), sym("actor"), num(11), num(0)]),
    )
    .unwrap();

    assert!(
        applicable_methods(
            &tx,
            dispatch_relations(), &prototypes(), &sym("take"), &[(sym("item"), num(1))]
        )
        .unwrap()
        .is_empty()
    );
}

#[test]
fn dispatch_requires_unrestricted_params_without_matching_them() {
    let kernel = kernel_with_dispatch_relations();
    let mut tx = kernel.begin(prototypes());
    tx.assert_tuple(rel(40), Tuple::new(vec![num(100), sym("say")]))
        .unwrap();
    tx.assert_tuple(
        rel(41),
        Tuple::new(vec![num(100), sym("actor"), num(11), num(0)]),
    )
    .unwrap();
    tx.assert_tuple(
        rel(41),
        Tuple::new(vec![
            num(100),
            sym("message"),
            unrestricted_dispatch_restriction(),
            num(1),
        ]),
    )
    .unwrap();
    tx.assert_tuple(rel(42), Tuple::new(vec![num(10), num(11), num(0)]))
        .unwrap();

    assert_eq!(
        applicable_methods(
            &tx,
            dispatch_relations(), &prototypes(), &sym("say"), &[
                (sym("actor"), num(10)),
                (sym("message"), Value::string("hi"))
            ]
        )
        .unwrap(),
        vec![num(100)]
    );
    assert!(
        applicable_methods(
            &tx,
            dispatch_relations(), &prototypes(), &sym("say"), &[(sym("actor"), num(10))]
        )
        .unwrap()
        .is_empty()
    );
}

#[test]
fn positional_dispatch_matches_primitive_restrictions() {
    let kernel = kernel_with_dispatch_relations();
    let mut tx = kernel.begin(prototypes());
    tx.assert_tuple(rel(40), Tuple::new(vec![num(100), sym("split")]))
        .unwrap();
    tx.assert_tuple(
        rel(41),
        Tuple::new(vec![
            num(100),
            sym("text"),
            Value::identity(prototypes().string),
            num(0),
        ]),
    )
    .unwrap();

    assert_eq!(
        applicable_positional_methods(
            &tx,
            dispatch_relations(), &prototypes(), &sym("split"), &[Value::string("a b")]
        )
        .unwrap(),
        vec![num(100)]
    );
    assert!(
        applicable_positional_methods(&tx, dispatch_relations(), &prototypes(), &sym("split"), &[num(1)])
            .unwrap()
            .is_empty()
    );
}

#[test]
fn dispatch_matches_frob_delegate_through_delegation() {
    let kernel = kernel_with_dispatch_relations();
    let mut tx = kernel.begin(prototypes());
    let event = Value::identity(Identity::new(200).unwrap());
    let take_event = Value::identity(Identity::new(201).unwrap());
    let event_value = Value::frob(take_event.as_identity().unwrap(), Value::string("payload"));

    tx.assert_tuple(rel(40), Tuple::new(vec![num(100), sym("render")]))
        .unwrap();
    tx.assert_tuple(
        rel(41),
        Tuple::new(vec![num(100), sym("event"), event.clone(), num(0)]),
    )
    .unwrap();
    tx.assert_tuple(rel(42), Tuple::new(vec![take_event, event, num(0)]))
        .unwrap();

    assert_eq!(
        applicable_methods(
            &tx,
            dispatch_relations(), &prototypes(), &sym("render"), &[(sym("event"), event_value)]
        )
        .unwrap(),
        vec![num(100)]
    );
}

#[test]
fn dispatch_frob_only_restriction_rejects_bare_identity() {
    let kernel = kernel_with_dispatch_relations();
    let mut tx = kernel.begin(prototypes());
    let event_identity = Identity::new(200).unwrap();
    let event = Value::identity(event_identity);
    let take_event_identity = Identity::new(201).unwrap();
    let take_event = Value::identity(take_event_identity);
    let frob_only = frob_only_dispatch_restriction(event_identity);

    tx.assert_tuple(rel(40), Tuple::new(vec![num(100), sym("render")]))
        .unwrap();
    tx.assert_tuple(
        rel(41),
        Tuple::new(vec![num(100), sym("event"), frob_only, num(0)]),
    )
    .unwrap();
    tx.assert_tuple(rel(42), Tuple::new(vec![take_event.clone(), event, num(0)]))
        .unwrap();

    assert!(
        applicable_methods(
            &tx,
            dispatch_relations(), &prototypes(), &sym("render"), &[(sym("event"), take_event)]
        )
        .unwrap()
        .is_empty()
    );
    assert_eq!(
        applicable_methods(
            &tx,
            dispatch_relations(), &prototypes(), &sym("render"), &[(
                sym("event"),
                Value::frob(take_event_identity, Value::string("payload"))
            )]
        )
        .unwrap(),
        vec![num(100)]
    );
}

#[test]
fn dispatch_selects_most_specific_named_method() {
    let kernel = kernel_with_dispatch_relations();
    let mut tx = kernel.begin(prototypes());
    let event = Value::identity(Identity::new(200).unwrap());
    let movement_event = Value::identity(Identity::new(201).unwrap());

    tx.assert_tuple(rel(40), Tuple::new(vec![num(100), sym("label")]))
        .unwrap();
    tx.assert_tuple(
        rel(41),
        Tuple::new(vec![
            num(100),
            sym("kind"),
            unrestricted_dispatch_restriction(),
            num(0),
        ]),
    )
    .unwrap();
    tx.assert_tuple(rel(40), Tuple::new(vec![num(101), sym("label")]))
        .unwrap();
    tx.assert_tuple(
        rel(41),
        Tuple::new(vec![num(101), sym("kind"), event.clone(), num(0)]),
    )
    .unwrap();
    tx.assert_tuple(rel(40), Tuple::new(vec![num(102), sym("label")]))
        .unwrap();
    tx.assert_tuple(
        rel(41),
        Tuple::new(vec![num(102), sym("kind"), movement_event.clone(), num(0)]),
    )
    .unwrap();
    tx.assert_tuple(
        rel(42),
        Tuple::new(vec![movement_event.clone(), event, num(0)]),
    )
    .unwrap();

    assert_eq!(
        applicable_methods(
            &tx,
            dispatch_relations(), &prototypes(), &sym("label"), &[(sym("kind"), movement_event)]
        )
        .unwrap(),
        vec![num(102)]
    );
}

#[test]
fn dispatch_keeps_incomparable_named_methods() {
    let kernel = kernel_with_dispatch_relations();
    let mut tx = kernel.begin(prototypes());
    let player = Value::identity(Identity::new(200).unwrap());
    let portable = Value::identity(Identity::new(201).unwrap());
    let alice = Value::identity(Identity::new(202).unwrap());
    let coin = Value::identity(Identity::new(203).unwrap());

    tx.assert_tuple(rel(40), Tuple::new(vec![num(100), sym("act")]))
        .unwrap();
    tx.assert_tuple(
        rel(41),
        Tuple::new(vec![num(100), sym("actor"), player.clone(), num(0)]),
    )
    .unwrap();
    tx.assert_tuple(
        rel(41),
        Tuple::new(vec![
            num(100),
            sym("item"),
            unrestricted_dispatch_restriction(),
            num(1),
        ]),
    )
    .unwrap();
    tx.assert_tuple(rel(40), Tuple::new(vec![num(101), sym("act")]))
        .unwrap();
    tx.assert_tuple(
        rel(41),
        Tuple::new(vec![
            num(101),
            sym("actor"),
            unrestricted_dispatch_restriction(),
            num(0),
        ]),
    )
    .unwrap();
    tx.assert_tuple(
        rel(41),
        Tuple::new(vec![num(101), sym("item"), portable.clone(), num(1)]),
    )
    .unwrap();
    tx.assert_tuple(rel(42), Tuple::new(vec![alice.clone(), player, num(0)]))
        .unwrap();
    tx.assert_tuple(rel(42), Tuple::new(vec![coin.clone(), portable, num(0)]))
        .unwrap();

    assert_eq!(
        applicable_methods(
            &tx,
            dispatch_relations(), &prototypes(), &sym("act"), &[(sym("actor"), alice), (sym("item"), coin)]
        )
        .unwrap(),
        vec![num(100), num(101)]
    );
}

#[test]
fn dispatch_selects_most_specific_frob_delegate_method() {
    let kernel = kernel_with_dispatch_relations();
    let mut tx = kernel.begin(prototypes());
    let event = Value::identity(Identity::new(200).unwrap());
    let take_event_identity = Identity::new(201).unwrap();
    let take_event = Value::identity(take_event_identity);
    let event_value = Value::frob(take_event_identity, Value::string("payload"));

    tx.assert_tuple(rel(40), Tuple::new(vec![num(100), sym("render")]))
        .unwrap();
    tx.assert_tuple(
        rel(41),
        Tuple::new(vec![num(100), sym("event"), event.clone(), num(0)]),
    )
    .unwrap();
    tx.assert_tuple(rel(40), Tuple::new(vec![num(101), sym("render")]))
        .unwrap();
    tx.assert_tuple(
        rel(41),
        Tuple::new(vec![num(101), sym("event"), take_event.clone(), num(0)]),
    )
    .unwrap();
    tx.assert_tuple(rel(42), Tuple::new(vec![take_event, event, num(0)]))
        .unwrap();

    assert_eq!(
        applicable_methods(
            &tx,
            dispatch_relations(), &prototypes(), &sym("render"), &[(sym("event"), event_value)]
        )
        .unwrap(),
        vec![num(101)]
    );
}

#[test]
fn positional_dispatch_selects_most_specific_method() {
    let kernel = kernel_with_dispatch_relations();
    let mut tx = kernel.begin(prototypes());

    tx.assert_tuple(rel(40), Tuple::new(vec![num(100), sym("describe")]))
        .unwrap();
    tx.assert_tuple(
        rel(41),
        Tuple::new(vec![
            num(100),
            sym("value"),
            unrestricted_dispatch_restriction(),
            num(0),
        ]),
    )
    .unwrap();
    tx.assert_tuple(rel(40), Tuple::new(vec![num(101), sym("describe")]))
        .unwrap();
    tx.assert_tuple(
        rel(41),
        Tuple::new(vec![
            num(101),
            sym("value"),
            Value::identity(prototypes().string),
            num(0),
        ]),
    )
    .unwrap();

    assert_eq!(
        applicable_positional_methods(
            &tx,
            dispatch_relations(), &prototypes(), &sym("describe"), &[Value::string("hello")],
        )
        .unwrap(),
        vec![num(101)]
    );
}

#[test]
fn snapshot_dispatch_cache_is_scoped_to_snapshot_version() {
    let mut kernel = kernel_with_dispatch_relations();
    let snapshot = kernel.snapshot();
    assert!(
        applicable_method_calls(&*snapshot, dispatch_relations(), &prototypes(), &sym("look"), &[])
            .unwrap()
            .is_empty()
    );

    let mut tx = kernel.begin(prototypes());
    tx.assert_tuple(rel(40), Tuple::new(vec![num(100), sym("look")]))
        .unwrap();
    let next = kernel.commit(&tx, None).unwrap().into_snapshot();

    assert_eq!(
        applicable_method_calls(&*next, dispatch_relations(), &prototypes(), &sym("look"), &[]).unwrap(),
        vec![ApplicableMethodCall {
            method: num(100),
            args: Some(Vec::new())
        }]
    );
}

#[test]
fn transaction_dispatch_bypasses_snapshot_cache_after_local_writes() {
    let mut kernel = kernel_with_dispatch_relations();
    let snapshot = kernel.snapshot();
    assert!(
        applicable_method_calls(&*snapshot, dispatch_relations(), &prototypes(), &sym("look"), &[])
            .unwrap()
            .is_empty()
    );

    let mut tx = kernel.begin(prototypes());
    tx.assert_tuple(rel(40), Tuple::new(vec![num(100), sym("look")]))
        .unwrap();

    assert_eq!(
        applicable_method_calls(&tx, dispatch_relations(), &prototypes(), &sym("look"), &[]).unwrap(),
        vec![ApplicableMethodCall {
            method: num(100),
            args: Some(Vec::new())
        }]
    );
}

#[test]
fn transaction_positional_inline_cache_invalidates_after_dispatch_writes() {
    let kernel = kernel_with_dispatch_relations();
    let mut tx = kernel.begin(prototypes());
    let binding = Tuple::new(vec![num(100), sym("look")]);

    for _ in 0..3 {
        assert!(
            tx.cached_applicable_positional_methods(dispatch_relations(), &sym("look"), &[])
                .unwrap()
                .is_empty()
        );
    }

    tx.assert_tuple(rel(40), binding.clone()).unwrap();

    let first =
        tx.cached_applicable_positional_methods(dispatch_relations(), &sym("look"), &[])
            .unwrap();
    assert_eq!(first.as_slice(), &[num(100)]);
    let second =
        tx.cached_applicable_positional_methods(dispatch_relations(), &sym("look"), &[])
            .unwrap();
    let third =
        tx.cached_applicable_positional_methods(dispatch_relations(), &sym("look"), &[])
            .unwrap();
    assert!(Arc::ptr_eq(&second, &third));

    tx.retract_tuple(rel(40), binding).unwrap();
    assert!(
        tx.cached_applicable_positional_methods(dispatch_relations(), &sym("look"), &[])
            .unwrap()
            .is_empty()
    );
}

/// What rules of positive atoms derive from rows, one step deep.
fn evaluated(
    rules: &[RuleDefinition],
    rows: impl Fn(Identity, usize) -> Vec<Tuple>,
) -> Vec<(Identity, Vec<Tuple>)> {
    let matched = |bound: &[(Symbol, Value)], terms: &[Term], row: &Tuple| {
        let mut bound = bound.to_vec();
        for (term, value) in terms.iter().zip(row.values()) {
            let agrees = match term {
                Term::Value(wanted) => wanted == value,
                Term::Var(name) => match bound.iter().find(|(known, _)| known == name) {
                    Some((_, there)) => there == value,
                    None => {
                        bound.push((name.clone(), value.clone()));
                        true
                    }
                },
            };
            if !agrees {
                return None;
            }
        }
        Some(bound)
    };
    let mut derived = Vec::new();
    for definition in rules.iter().filter(|definition| definition.active()) {
        let rule = definition.rule();
        let mut found: Vec<Vec<(Symbol, Value)>> = vec![Vec::new()];
        for item in &rule.body {
            let atom = match item {
                RuleBodyItem::Atom(atom) if !atom.negated => atom,
                other => panic!("{other:?}"),
            };
            let known = rows(atom.relation, atom.terms.len());
            found = found
                .iter()
                .flat_map(|bound| {
                    known
                        .iter()
                        .filter_map(|row| matched(bound, &atom.terms, row))
                        .collect::<Vec<_>>()
                })
                .collect();
        }
        let heads = found
            .iter()
            .map(|bound| {
                let value = |term: &Term| match term {
                    Term::Value(value) => value.clone(),
                    Term::Var(name) => {
                        let (_, value) = bound.iter().find(|(known, _)| known == name).unwrap();
                        value.clone()
                    }
                };
                Tuple::new(rule.head_terms.iter().map(value).collect())
            })
            .collect();
        derived.push((rule.head_relation, heads));
    }
    derived
}

/// Evaluates the rules on top of the writes of a transaction where a read needs it.
fn settle(tx: &mut Transaction, relation: Identity) {
    if tx.needs_evaluation(relation) {
        let derived = evaluated(tx.base().rules(), |from, arity| {
            tx.scan(from, &vec![None; arity]).unwrap()
        });
        tx.with_derived(Ok(derived));
    }
}

#[test]
fn transaction_positional_inline_cache_invalidates_for_derived_dispatch_relation() {
    let mut kernel = kernel_with_dispatch_relations();
    kernel
        .create_relation(RelationMetadata::new(
            rel(43),
            Symbol::intern("PendingMethodSelector"),
            2,
        ))
        .unwrap();

    let method = Term::Var(Symbol::intern("method"));
    let selector = Term::Var(Symbol::intern("selector"));
    kernel
        .install_rule(
            Rule::new(
                rel(40),
                vec![method.copy(), selector.copy()],
                vec![RuleBodyItem::Atom(Atom::positive(
                    rel(43),
                    vec![method, selector],
                ))],
            ),
            "MethodSelector(method, selector) :- PendingMethodSelector(method, selector)".to_owned(),
            None,
        )
        .unwrap();
    let newest = kernel.snapshot();
    let derived = evaluated(newest.rules(), |from, arity| {
        newest.scan(from, &vec![None; arity]).unwrap()
    });
    kernel.keep_evaluation(Ok(derived), None);

    let mut tx = kernel.begin(prototypes());
    for _ in 0..3 {
        assert!(
            tx.cached_applicable_positional_methods(dispatch_relations(), &sym("look"), &[])
                .unwrap()
                .is_empty()
        );
    }

    tx.assert_tuple(rel(43), Tuple::new(vec![num(100), sym("look")]))
        .unwrap();
    settle(&mut tx, rel(40));

    assert_eq!(
        tx.cached_applicable_positional_methods(dispatch_relations(), &sym("look"), &[])
            .unwrap()
            .as_slice(),
        &[num(100)]
    );
}

#[test]
fn transaction_method_program_inline_cache_invalidates_after_relation_writes() {
    let mut kernel = kernel_with_dispatch_relations();
    kernel
        .create_relation(
            RelationMetadata::new(rel(43), Symbol::intern("MethodProgram"), 2).with_index(vec![0]),
        )
        .unwrap();
    let method = num(100);
    let program = num(101);
    let selector_binding = Tuple::new(vec![method.clone(), sym("look")]);
    let program_binding = Tuple::new(vec![method.clone(), program.clone()]);
    let mut seed = kernel.begin(prototypes());
    seed.assert_tuple(rel(40), selector_binding).unwrap();
    seed.assert_tuple(rel(43), program_binding.clone()).unwrap();
    kernel.commit(&seed, None).unwrap();

    let mut tx = kernel.begin(prototypes());
    for _ in 0..3 {
        assert_eq!(
            tx.cached_applicable_positional_methods(dispatch_relations(), &sym("look"), &[])
                .unwrap()
                .as_ref(),
            std::slice::from_ref(&method)
        );
    }
    for _ in 0..2 {
        assert_eq!(
            tx.cached_method_program(rel(43), &method).unwrap(),
            Some(program.clone())
        );
    }

    tx.retract_tuple(rel(43), program_binding).unwrap();

    assert_eq!(tx.cached_method_program(rel(43), &method).unwrap(), None);
}

#[test]
fn transaction_dispatch_uses_snapshot_cache_after_unrelated_local_writes() {
    let mut kernel = kernel_with_dispatch_relations();
    kernel
        .create_relation(RelationMetadata::new(rel(43), Symbol::intern("Event"), 2))
        .unwrap();
    let mut seed = kernel.begin(prototypes());
    seed.assert_tuple(rel(40), Tuple::new(vec![num(100), sym("look")]))
        .unwrap();
    kernel.commit(&seed, None).unwrap();

    let mut tx = kernel.begin(prototypes());
    tx.assert_tuple(rel(43), Tuple::new(vec![num(1), num(2)])).unwrap();

    assert_eq!(
        applicable_method_calls(&tx, dispatch_relations(), &prototypes(), &sym("look"), &[]).unwrap(),
        vec![ApplicableMethodCall {
            method: num(100),
            args: Some(Vec::new())
        }]
    );
}

#[test]
fn transaction_positional_dispatch_uses_snapshot_cache_after_unrelated_local_writes() {
    let mut kernel = kernel_with_dispatch_relations();
    kernel
        .create_relation(RelationMetadata::new(rel(43), Symbol::intern("Event"), 2))
        .unwrap();
    let mut seed = kernel.begin(prototypes());
    seed.assert_tuple(rel(40), Tuple::new(vec![num(100), sym("look")]))
        .unwrap();
    kernel.commit(&seed, None).unwrap();

    let mut tx = kernel.begin(prototypes());
    tx.assert_tuple(rel(43), Tuple::new(vec![num(1), num(2)])).unwrap();

    assert_eq!(
        applicable_positional_methods(&tx, dispatch_relations(), &prototypes(), &sym("look"), &[]).unwrap(),
        vec![num(100)]
    );
    let methods =
        tx.cached_applicable_positional_methods(dispatch_relations(), &sym("look"), &[])
            .unwrap();
    assert_eq!(methods.as_slice(), &[num(100)]);
}

#[test]
fn positional_dispatch_shares_snapshot_cache_results() {
    let mut kernel = kernel_with_dispatch_relations();
    let mut seed = kernel.begin(prototypes());
    seed.assert_tuple(rel(40), Tuple::new(vec![num(100), sym("look")]))
        .unwrap();
    kernel.commit(&seed, None).unwrap();

    let mut tx = kernel.begin(prototypes());
    let first = tx
        .cached_applicable_positional_methods(dispatch_relations(), &sym("look"), &[])
        .unwrap();
    let second = tx
        .cached_applicable_positional_methods(dispatch_relations(), &sym("look"), &[])
        .unwrap();
    assert!(Arc::ptr_eq(&first, &second));
    assert_eq!(first.as_slice(), &[num(100)]);
    let third =
        applicable_positional_methods_cached(&mut tx, dispatch_relations(), &sym("look"), &[])
            .unwrap();
    assert!(Arc::ptr_eq(&first, &third));
}

#[test]
fn calls_with_other_arguments_are_not_shared() {
    let mut kernel = kernel_with_dispatch_relations();
    let mut seed = kernel.begin(prototypes());
    seed.assert_tuple(rel(40), Tuple::new(vec![num(100), sym("look")]))
        .unwrap();
    seed.assert_tuple(
        rel(41),
        Tuple::new(vec![
            num(100),
            sym("item"),
            unrestricted_dispatch_restriction(),
            num(0),
        ]),
    )
    .unwrap();
    kernel.commit(&seed, None).unwrap();

    let mut tx = kernel.begin(prototypes());
    let mut found = |args: &[Value]| {
        applicable_positional_methods_cached(&mut tx, dispatch_relations(), &sym("look"), args)
            .unwrap()
            .as_slice()
            .to_vec()
    };
    for _ in 0..3 {
        assert_eq!(found(&[]), vec![]);
        assert_eq!(found(&[num(7)]), vec![num(100)]);
        assert_eq!(found(&[num(7), num(8)]), vec![]);
    }
}

#[test]
fn calls_with_roles_in_order_are_found() {
    let kernel = kernel_with_dispatch_relations();
    let mut tx = kernel.begin(prototypes());
    tx.assert_tuple(rel(40), Tuple::new(vec![num(100), sym("take")]))
        .unwrap();
    for (role, position) in [("actor", 1), ("item", 0)] {
        tx.assert_tuple(
            rel(41),
            Tuple::new(vec![
                num(100),
                sym(role),
                unrestricted_dispatch_restriction(),
                num(position),
            ]),
        )
        .unwrap();
    }
    let roles = [(sym("actor"), num(10)), (sym("item"), num(1))];
    let found =
        applicable_method_calls_normalized(&tx, dispatch_relations(), &prototypes(), &sym("take"), &roles);
    assert_eq!(
        found,
        Ok(vec![ApplicableMethodCall {
            method: num(100),
            args: Some(vec![num(1), num(10)])
        }])
    );
    assert_eq!(
        found,
        tx.cached_applicable_method_calls(dispatch_relations(), &sym("take"), &roles)
    );
    assert_eq!(
        found,
        applicable_method_calls(&tx, dispatch_relations(), &prototypes(), &sym("take"), &roles)
    );
    assert_eq!(
        applicable_method_calls_normalized(
            &*kernel.snapshot(),
            dispatch_relations(),
            &prototypes(),
            &sym("take"),
            &roles
        ),
        Ok(vec![])
    );
}

#[test]
fn a_remembered_lookup_needs_every_relation_once_something_is_written() {
    let mut kernel = RelationKernel::new();
    for (id, name, arity) in [(40, "MethodSelector", 2), (41, "Param", 4), (44, "Other", 1)] {
        kernel
            .create_relation(RelationMetadata::new(rel(id), Symbol::intern(name), arity))
            .unwrap();
    }
    let mut tx = kernel.begin(prototypes());
    assert_eq!(
        applicable_method_calls_normalized(&tx, dispatch_relations(), &prototypes(), &sym("look"), &[]),
        Ok(vec![])
    );
    tx.assert_tuple(rel(44), Tuple::new(vec![num(1)])).unwrap();
    assert_eq!(
        applicable_method_calls(&tx, dispatch_relations(), &prototypes(), &sym("look"), &[]),
        Err(KernelError::UnknownRelation(rel(42)))
    );
    assert_eq!(
        applicable_method_calls_normalized(&tx, dispatch_relations(), &prototypes(), &sym("look"), &[]),
        Err(KernelError::UnknownRelation(rel(42)))
    );
    tx.assert_tuple(rel(40), Tuple::new(vec![num(100), sym("look")]))
        .unwrap();
    assert_eq!(
        applicable_method_calls_normalized(&tx, dispatch_relations(), &prototypes(), &sym("look"), &[]),
        Ok(vec![ApplicableMethodCall {
            method: num(100),
            args: Some(Vec::new())
        }])
    );
}

#[test]
fn some_restrictions_are_met_at_sight() {
    let kernel: RelationKernel<InMemoryCommitProvider> = RelationKernel::new();
    let tx = kernel.begin(prototypes());
    let meets = |value: &Value, restriction: &Value| {
        matches_restriction(&tx, rel(42), &prototypes(), value, restriction)
    };
    assert_eq!(
        meets(&num(1), &unrestricted_dispatch_restriction()),
        Ok(true)
    );
    assert_eq!(meets(&num(1), &num(1)), Ok(true));
    assert_eq!(
        meets(&num(1), &frob_only_dispatch_restriction(rel(200))),
        Ok(false)
    );
    assert_eq!(
        meets(&num(1), &num(2)),
        Err(KernelError::UnknownRelation(rel(42)))
    );
}

#[test]
fn named_method_args_follow_param_positions() {
    let params = vec![
        Tuple::new(vec![
            num(100),
            sym("item"),
            unrestricted_dispatch_restriction(),
            num(1),
        ]),
        Tuple::new(vec![
            num(100),
            sym("actor"),
            unrestricted_dispatch_restriction(),
            num(0),
        ]),
    ];

    assert_eq!(
        named_method_args(&params, &[(sym("actor"), num(10)), (sym("item"), num(1))]).unwrap(),
        vec![num(10), num(1)]
    );
}

#[test]
fn a_method_without_a_program_has_none() {
    let mut kernel = kernel_with_dispatch_relations();
    kernel
        .create_relation(RelationMetadata::new(
            rel(43),
            Symbol::intern("MethodProgram"),
            2,
        ))
        .unwrap();
    let tx = kernel.begin(prototypes());
    assert_eq!(method_program_id(&tx, rel(43), &num(100)).unwrap(), None);
}

/// Delegates from each number to the next.
struct NextDelegates;

impl ComputedRelation for NextDelegates {
    fn name(&self) -> &'static str {
        "next-delegates"
    }

    fn matches(&self, metadata: &RelationMetadata) -> bool {
        metadata.name().name() == "Delegates"
    }

    fn required_bound_positions(&self, _metadata: &RelationMetadata) -> Vec<u16> {
        Vec::new()
    }

    fn scan(
        &self,
        _reader: &dyn ComputedRelationRead,
        _metadata: &RelationMetadata,
        bindings: &[Option<Value>],
    ) -> Result<Vec<Tuple>, KernelError> {
        Ok((0..20)
            .map(|value| Tuple::new(vec![num(value), num(value + 1), num(0)]))
            .filter(|row| row.matches_bindings(bindings))
            .collect())
    }

    fn estimate(
        &self,
        _reader: &dyn ComputedRelationRead,
        _metadata: &RelationMetadata,
        _bindings: &[Option<Value>],
    ) -> Result<usize, KernelError> {
        Ok(1)
    }
}

#[test]
fn dispatch_follows_computed_delegates() {
    let mut kernel = RelationKernel::with_provider_and_computed_relations(
        InMemoryCommitProvider {},
        vec![Arc::new(NextDelegates) as Arc<dyn ComputedRelation>],
    );
    for (id, name, arity) in [(40, "MethodSelector", 2), (41, "Param", 4), (42, "Delegates", 3)] {
        kernel
            .create_relation(RelationMetadata::new(rel(id), Symbol::intern(name), arity))
            .unwrap();
    }
    let found = |tx: &Transaction, value: i64| {
        applicable_methods(
            tx,
            dispatch_relations(),
            &prototypes(),
            &sym("take"),
            &[(sym("actor"), num(value))],
        )
    };
    let mut tx = kernel.begin(prototypes());
    assert_eq!(found(&tx, 3), Ok(vec![]));

    tx.assert_tuple(rel(40), Tuple::new(vec![num(100), sym("take")]))
        .unwrap();
    tx.assert_tuple(
        rel(41),
        Tuple::new(vec![num(100), sym("actor"), num(5), num(0)]),
    )
    .unwrap();
    assert_eq!(found(&tx, 3), Ok(vec![num(100)]));
    assert_eq!(found(&tx, 5), Ok(vec![num(100)]));
    assert_eq!(found(&tx, 6), Ok(vec![]));
}

/// Delegates from each number to the next, in rows of another width.
struct OddDelegates {
    width: usize,
}

impl ComputedRelation for OddDelegates {
    fn name(&self) -> &'static str {
        "odd-delegates"
    }

    fn matches(&self, metadata: &RelationMetadata) -> bool {
        metadata.name().name() == "Delegates"
    }

    fn required_bound_positions(&self, _metadata: &RelationMetadata) -> Vec<u16> {
        Vec::new()
    }

    fn scan(
        &self,
        _reader: &dyn ComputedRelationRead,
        _metadata: &RelationMetadata,
        bindings: &[Option<Value>],
    ) -> Result<Vec<Tuple>, KernelError> {
        Ok((0..20)
            .map(|value| (value..).take(self.width).map(num).collect::<Vec<_>>())
            .map(Tuple::new)
            .filter(|row| row.matches_bindings(bindings))
            .collect())
    }

    fn estimate(
        &self,
        _reader: &dyn ComputedRelationRead,
        _metadata: &RelationMetadata,
        _bindings: &[Option<Value>],
    ) -> Result<usize, KernelError> {
        Ok(1)
    }
}

#[test]
fn computed_delegates_of_another_width_are_handed_on() {
    for (width, met) in [(1, false), (2, true), (5, true)] {
        let mut kernel = RelationKernel::with_provider_and_computed_relations(
            InMemoryCommitProvider {},
            vec![Arc::new(OddDelegates { width }) as Arc<dyn ComputedRelation>],
        );
        kernel
            .create_relation(RelationMetadata::new(
                rel(42),
                Symbol::intern("Delegates"),
                3,
            ))
            .unwrap();
        let tx = kernel.begin(prototypes());
        assert_eq!(
            matches_restriction(&tx, rel(42), &prototypes(), &num(3), &num(6)),
            Ok(met)
        );
    }
}
