use mica::kernel::computed::{ComputedRelation, ComputedRelationRegistry};
use mica::kernel::dispatch::PrimitivePrototypes;
use mica::kernel::error::KernelError;
use mica::kernel::live::{InMemoryCommitProvider, RelationKernel};
use mica::kernel::metadata::RelationMetadata;
use mica::kernel::read::ComputedRelationRead;
use mica::kernel::relation::ScanEstimate;
use mica::kernel::rules::{Atom, Rule, RuleBodyItem, RuleDefinition, Term};
use mica::kernel::transaction::Transaction;
use mica::tuple::Tuple;
use mica::value::{Identity, Symbol, Value};
use std::sync::atomic::{AtomicUsize, Ordering};
use std::sync::Arc;

struct CountingRelation {
    name: Symbol,
    matches: Arc<AtomicUsize>,
}

impl ComputedRelation for CountingRelation {
    fn name(&self) -> &'static str {
        "counting"
    }

    fn matches(&self, metadata: &RelationMetadata) -> bool {
        self.matches.fetch_add(1, Ordering::Relaxed);
        metadata.name() == &self.name
    }

    fn required_bound_positions(&self, _metadata: &RelationMetadata) -> Vec<u16> {
        Vec::new()
    }

    fn scan(
        &self,
        _reader: &dyn ComputedRelationRead,
        _metadata: &RelationMetadata,
        _bindings: &[Option<Value>],
    ) -> Result<Vec<Tuple>, KernelError> {
        Ok(Vec::new())
    }

    fn estimate(
        &self,
        _reader: &dyn ComputedRelationRead,
        _metadata: &RelationMetadata,
        _bindings: &[Option<Value>],
    ) -> Result<usize, KernelError> {
        Ok(0)
    }
}

fn rel(id: u64) -> Identity {
    Identity::new(id).unwrap()
}

fn num(value: i64) -> Value {
    Value::integer(value).unwrap()
}

fn prototypes() -> PrimitivePrototypes {
    PrimitivePrototypes {
        nothing: rel(1),
        boolean: rel(2),
        integer: rel(3),
        identity: rel(4),
        symbol: rel(5),
        string: rel(6),
        list: rel(7),
        mapping: rel(8),
        option: rel(9),
        frob: rel(10),
        error: rel(11),
        capability: rel(12),
        float: rel(13),
        bytes: rel(14),
        relation: rel(15),
    }
}

fn relation(id: u64, name: &str) -> RelationMetadata {
    RelationMetadata::new(
        Identity::new(id).expect("test relation identities must be valid"),
        Symbol::intern(name),
        1,
    )
}

#[test]
fn bound_relations_do_not_repeat_provider_matching() {
    let matches = Arc::new(AtomicUsize::new(0));
    let provider: Arc<dyn ComputedRelation> = Arc::new(CountingRelation {
        name: Symbol::intern("Computed"),
        matches: matches.clone(),
    });
    let computed = relation(1, "Computed");
    let ordinary = relation(2, "Ordinary");

    let registry = ComputedRelationRegistry::new(vec![provider])
        .bind_relations(&[computed.clone(), ordinary.clone()]);
    assert_eq!(matches.load(Ordering::Relaxed), 2);

    for _ in 0..4 {
        assert!(registry.is_computed_relation(&computed));
        assert!(!registry.is_computed_relation(&ordinary));
    }
    assert_eq!(matches.load(Ordering::Relaxed), 2);
}

#[test]
fn newly_bound_relation_uses_cached_provider_match() {
    let matches = Arc::new(AtomicUsize::new(0));
    let provider: Arc<dyn ComputedRelation> = Arc::new(CountingRelation {
        name: Symbol::intern("Computed"),
        matches: matches.clone(),
    });
    let metadata = relation(3, "Computed");
    let registry = ComputedRelationRegistry::new(vec![provider]).with_relation(&metadata);
    assert_eq!(matches.load(Ordering::Relaxed), 1);

    assert!(registry.is_computed_relation(&metadata));
    assert_eq!(matches.load(Ordering::Relaxed), 1);
}

#[test]
fn unbound_registry_matches_relations_dynamically() {
    let matches = Arc::new(AtomicUsize::new(0));
    let provider: Arc<dyn ComputedRelation> = Arc::new(CountingRelation {
        name: Symbol::intern("Computed"),
        matches: matches.clone(),
    });
    let metadata = relation(4, "Computed");
    let registry = ComputedRelationRegistry::new(vec![provider]);

    assert!(registry.is_computed_relation(&metadata));
    assert!(registry.is_computed_relation(&metadata));
    assert_eq!(matches.load(Ordering::Relaxed), 2);
}

struct ConstantComputed;

impl ComputedRelation for ConstantComputed {
    fn name(&self) -> &'static str {
        "transaction-test-constant"
    }

    fn matches(&self, metadata: &RelationMetadata) -> bool {
        metadata.name().name() == "Computed"
    }

    fn required_bound_positions(&self, _metadata: &RelationMetadata) -> Vec<u16> {
        Vec::new()
    }

    fn scan(
        &self,
        _reader: &dyn ComputedRelationRead,
        _metadata: &RelationMetadata,
        _bindings: &[Option<Value>],
    ) -> Result<Vec<Tuple>, KernelError> {
        Ok(vec![Tuple::new(vec![num(7)])])
    }

    fn estimate(
        &self,
        _reader: &dyn ComputedRelationRead,
        _metadata: &RelationMetadata,
        _bindings: &[Option<Value>],
    ) -> Result<usize, KernelError> {
        Ok(1)
    }
}

/// What rules of positive atoms derive from rows, one step deep.
fn evaluated(
    rules: &[RuleDefinition],
    rows: impl Fn(Identity, usize) -> Vec<Tuple>,
) -> Vec<(Identity, Vec<Tuple>)> {
    let matched = |bound: &[(Symbol, Value)], terms: &[Term], row: &Tuple| {
        let mut bound = bound.to_vec();
        for (term, value) in terms.iter().zip(row.values()) {
            let agrees = match term {
                Term::Value(wanted) => wanted == value,
                Term::Var(name) => match bound.iter().find(|(known, _)| known == name) {
                    Some((_, there)) => there == value,
                    None => {
                        bound.push((name.clone(), value.clone()));
                        true
                    }
                },
            };
            if !agrees {
                return None;
            }
        }
        Some(bound)
    };
    let mut derived = Vec::new();
    for definition in rules.iter().filter(|definition| definition.active()) {
        let rule = definition.rule();
        let mut found: Vec<Vec<(Symbol, Value)>> = vec![Vec::new()];
        for item in &rule.body {
            let atom = match item {
                RuleBodyItem::Atom(atom) if !atom.negated => atom,
                other => panic!("{other:?}"),
            };
            let known = rows(atom.relation, atom.terms.len());
            found = found
                .iter()
                .flat_map(|bound| {
                    known
                        .iter()
                        .filter_map(|row| matched(bound, &atom.terms, row))
                        .collect::<Vec<_>>()
                })
                .collect();
        }
        let heads = found
            .iter()
            .map(|bound| {
                let value = |term: &Term| match term {
                    Term::Value(value) => value.clone(),
                    Term::Var(name) => {
                        let (_, value) = bound.iter().find(|(known, _)| known == name).unwrap();
                        value.clone()
                    }
                };
                Tuple::new(rule.head_terms.iter().map(value).collect())
            })
            .collect();
        derived.push((rule.head_relation, heads));
    }
    derived
}

/// Evaluates the rules on top of the writes of a transaction where a read needs it.
fn settle(tx: &mut Transaction, relation: Identity) {
    if tx.needs_evaluation(relation) {
        let derived = evaluated(tx.base().rules(), |from, arity| {
            tx.scan(from, &vec![None; arity]).unwrap()
        });
        tx.with_derived(Ok(derived));
    }
}

#[test]
fn transaction_overlay_preserves_computed_relation_fallback() {
    let mut kernel = RelationKernel::with_provider_and_computed_relations(
        InMemoryCommitProvider {},
        vec![Arc::new(ConstantComputed) as Arc<dyn ComputedRelation>],
    );
    for (id, name) in [(111, "Computed"), (112, "Copy"), (113, "Local")] {
        kernel.create_relation(relation(id, name)).unwrap();
    }
    let var = || Term::Var(Symbol::intern("value"));
    kernel
        .install_rule(
            Rule::new(
                rel(112),
                vec![var()],
                vec![RuleBodyItem::Atom(Atom::positive(rel(111), vec![var()]))],
            ),
            "Copy(value) :- Computed(value)".to_owned(),
            None,
        )
        .unwrap();

    let mut tx = kernel.begin(prototypes());
    tx.assert_tuple(rel(113), Tuple::new(vec![num(1)])).unwrap();
    settle(&mut tx, rel(112));
    assert_eq!(
        tx.scan(rel(112), &[None]).unwrap(),
        vec![Tuple::new(vec![num(7)])]
    );
    assert!(kernel.snapshot().maintained().is_none());
}

#[test]
fn a_computed_relation_takes_no_writes() {
    let mut kernel = RelationKernel::with_provider_and_computed_relations(
        InMemoryCommitProvider {},
        vec![Arc::new(ConstantComputed) as Arc<dyn ComputedRelation>],
    );
    kernel.create_relation(relation(111, "Computed")).unwrap();
    let mut tx = kernel.begin(prototypes());
    assert_eq!(
        tx.assert_tuple(rel(111), Tuple::new(vec![num(1)])),
        Err(KernelError::ReadOnlyRelation(rel(111)))
    );
}

#[test]
fn a_computed_relation_is_reconciled_with_what_it_shows() {
    let mut kernel = RelationKernel::with_provider_and_computed_relations(
        InMemoryCommitProvider {},
        vec![
            Arc::new(ConstantComputed) as Arc<dyn ComputedRelation>,
            Arc::new(Picky) as Arc<dyn ComputedRelation>,
        ],
    );
    kernel.create_relation(relation(111, "Computed")).unwrap();
    kernel.create_relation(relation(112, "Echo")).unwrap();
    let mut tx = kernel.begin(prototypes());
    let row = |value: i64| Tuple::new(vec![num(value)]);
    assert_eq!(tx.reconcile_relation(rel(111), vec![row(7)]), Ok(()));
    assert_eq!(
        tx.reconcile_relation(rel(111), vec![row(7), row(8)]),
        Err(KernelError::ReadOnlyRelation(rel(111)))
    );
    assert_eq!(
        tx.reconcile_relation(rel(111), vec![]),
        Err(KernelError::ReadOnlyRelation(rel(111)))
    );
    assert_eq!(
        tx.reconcile_relation(rel(112), vec![]),
        Err(KernelError::MissingRequiredBindings {
            relation: rel(112),
            positions: vec![0],
        })
    );
}

/// Rows of two values where one is declared.
struct WideComputed;

impl ComputedRelation for WideComputed {
    fn name(&self) -> &'static str {
        "wide"
    }

    fn matches(&self, metadata: &RelationMetadata) -> bool {
        metadata.name().name() == "Wide"
    }

    fn required_bound_positions(&self, _metadata: &RelationMetadata) -> Vec<u16> {
        Vec::new()
    }

    fn scan(
        &self,
        _reader: &dyn ComputedRelationRead,
        metadata: &RelationMetadata,
        _bindings: &[Option<Value>],
    ) -> Result<Vec<Tuple>, KernelError> {
        Ok(match metadata.id().raw() {
            1 => vec![Tuple::new(vec![num(7), num(1)])],
            _ => vec![Tuple::new(vec![])],
        })
    }

    fn estimate(
        &self,
        _reader: &dyn ComputedRelationRead,
        _metadata: &RelationMetadata,
        _bindings: &[Option<Value>],
    ) -> Result<usize, KernelError> {
        Ok(1)
    }
}

#[test]
fn computed_rows_of_another_width_are_joined_where_they_reach() {
    let mut kernel = RelationKernel::with_provider_and_computed_relations(
        InMemoryCommitProvider {},
        vec![
            Arc::new(ConstantComputed) as Arc<dyn ComputedRelation>,
            Arc::new(WideComputed) as Arc<dyn ComputedRelation>,
        ],
    );
    kernel.create_relation(relation(1, "Wide")).unwrap();
    kernel.create_relation(relation(2, "Wide")).unwrap();
    kernel.create_relation(relation(3, "Computed")).unwrap();
    let tx = kernel.begin(prototypes());
    let snapshot = kernel.snapshot();
    let wide = Ok(vec![Tuple::new(vec![num(7), num(1), num(7)])]);
    assert_eq!(
        snapshot.join_relation_scans(rel(1), &[None], &[0], rel(3), &[None], &[0]),
        wide
    );
    assert_eq!(
        tx.join_relation_scans(rel(1), &[None], &[0], rel(3), &[None], &[0]),
        wide
    );
    assert_eq!(
        tx.join_relation_scans(rel(3), &[None], &[0], rel(2), &[None], &[0]),
        Err(KernelError::InvalidComputedRelation {
            relation: rel(2),
            message: "computed row has too few values".to_owned(),
        })
    );
}

struct Picky;

impl ComputedRelation for Picky {
    fn name(&self) -> &'static str {
        "picky"
    }

    fn matches(&self, _metadata: &RelationMetadata) -> bool {
        true
    }

    fn required_bound_positions(&self, _metadata: &RelationMetadata) -> Vec<u16> {
        vec![0]
    }

    fn scan(
        &self,
        _reader: &dyn ComputedRelationRead,
        _metadata: &RelationMetadata,
        bindings: &[Option<Value>],
    ) -> Result<Vec<Tuple>, KernelError> {
        Ok(vec![Tuple::new(vec![bindings[0].clone().unwrap()])])
    }

    fn estimate(
        &self,
        _reader: &dyn ComputedRelationRead,
        _metadata: &RelationMetadata,
        _bindings: &[Option<Value>],
    ) -> Result<usize, KernelError> {
        Ok(1)
    }
}

#[test]
fn columns_that_have_to_be_bound_are_named() {
    let mut kernel = RelationKernel::with_provider_and_computed_relations(
        InMemoryCommitProvider {},
        vec![Arc::new(Picky) as Arc<dyn ComputedRelation>],
    );
    kernel.create_relation(relation(20, "Echo")).unwrap();
    let snapshot = kernel.snapshot();
    assert_eq!(
        snapshot.scan(rel(20), &[None]),
        Err(KernelError::MissingRequiredBindings {
            relation: rel(20),
            positions: vec![0],
        })
    );
    assert_eq!(
        snapshot.scan(rel(20), &[Some(num(3))]),
        Ok(vec![Tuple::new(vec![num(3)])])
    );
}

#[test]
fn rules_that_wait_to_be_evaluated_are_named() {
    let mut kernel = RelationKernel::with_provider_and_computed_relations(
        InMemoryCommitProvider {},
        vec![Arc::new(ConstantComputed) as Arc<dyn ComputedRelation>],
    );
    for (id, name) in [(111, "Computed"), (112, "Copy")] {
        kernel.create_relation(relation(id, name)).unwrap();
    }
    let var = || Term::Var(Symbol::intern("value"));
    kernel
        .install_rule(
            Rule::new(
                rel(112),
                vec![var()],
                vec![RuleBodyItem::Atom(Atom::positive(rel(111), vec![var()]))],
            ),
            "Copy(value) :- Computed(value)".to_owned(),
            None,
        )
        .unwrap();
    let tx = kernel.begin(prototypes());
    assert!(tx.needs_evaluation(rel(112)));
    assert!(matches!(
        tx.scan(rel(112), &[None]),
        Err(KernelError::RulesUnevaluated(_))
    ));
}

/// Shows the rows of the relation with the number 30.
struct Mirror;

impl ComputedRelation for Mirror {
    fn name(&self) -> &'static str {
        "mirror"
    }

    fn matches(&self, metadata: &RelationMetadata) -> bool {
        metadata.name().name() == "Mirror"
    }

    fn required_bound_positions(&self, _metadata: &RelationMetadata) -> Vec<u16> {
        Vec::new()
    }

    fn scan(
        &self,
        reader: &dyn ComputedRelationRead,
        _metadata: &RelationMetadata,
        bindings: &[Option<Value>],
    ) -> Result<Vec<Tuple>, KernelError> {
        reader.read_relation(rel(30), bindings)
    }

    fn estimate(
        &self,
        reader: &dyn ComputedRelationRead,
        _metadata: &RelationMetadata,
        bindings: &[Option<Value>],
    ) -> Result<usize, KernelError> {
        Ok(reader.read_relation(rel(30), bindings)?.len())
    }
}

#[test]
fn a_computed_relation_is_computed_of_what_its_reader_sees() {
    let mut kernel = RelationKernel::with_provider_and_computed_relations(
        InMemoryCommitProvider {},
        vec![Arc::new(Mirror) as Arc<dyn ComputedRelation>],
    );
    kernel.create_relation(relation(30, "Plain")).unwrap();
    kernel.create_relation(relation(31, "Mirror")).unwrap();
    let row = |value: i64| Tuple::new(vec![num(value)]);
    let mut seed = kernel.begin(prototypes());
    seed.assert_tuple(rel(30), row(1)).unwrap();
    kernel.commit(&seed, None).unwrap();
    let before = kernel.snapshot();

    let mut tx = kernel.begin(prototypes());
    tx.assert_tuple(rel(30), row(2)).unwrap();
    tx.retract_tuple(rel(30), row(1)).unwrap();
    assert_eq!(tx.scan(rel(31), &[None]), Ok(vec![row(2)]));
    assert_eq!(
        tx.estimate_scan(rel(31), &[None]),
        Ok(vec![ScanEstimate::Exactly(1)])
    );
    assert_eq!(before.scan(rel(31), &[None]), Ok(vec![row(1)]));

    kernel.commit(&tx, None).unwrap();
    assert_eq!(kernel.snapshot().scan(rel(31), &[None]), Ok(vec![row(2)]));
    assert_eq!(before.scan(rel(31), &[None]), Ok(vec![row(1)]));
}
