use mica::kernel::commit::{CatalogChange, Commit, FactChange, FactChangeKind};
use mica::kernel::committing::Evaluation;
use mica::kernel::dispatch::PrimitivePrototypes;
use mica::kernel::error::{Conflict, ConflictKind, KernelError, RuleError};
use mica::kernel::live::{CommitProvider, InMemoryCommitProvider, RelationKernel};
use mica::kernel::loading::PersistedKernelState;
use mica::kernel::metadata::{ConflictPolicy, RelationDurability, RelationMetadata};
use mica::kernel::rules::{Atom, Rule, RuleBodyItem, RuleDefinition, Term};
use mica::kernel::ruling::GENERATED_RULE_ID_START;
use mica::kernel::transaction::Transaction;
use mica::tuple::Tuple;
use mica::value::{Identity, Symbol, Value};
use std::sync::{Arc, Mutex};

fn rel(id: u64) -> Identity {
    Identity::new(id).unwrap()
}

fn num(value: i64) -> Value {
    Value::integer(value).unwrap()
}

fn row(values: &[i64]) -> Tuple {
    Tuple::new(values.iter().map(|value| num(*value)).collect())
}

fn var(name: &str) -> Term {
    Term::Var(Symbol::intern(name))
}

fn prototypes() -> PrimitivePrototypes {
    PrimitivePrototypes {
        nothing: rel(901),
        boolean: rel(902),
        integer: rel(903),
        identity: rel(904),
        symbol: rel(905),
        string: rel(906),
        list: rel(907),
        mapping: rel(908),
        option: rel(909),
        frob: rel(910),
        error: rel(911),
        capability: rel(912),
        float: rel(913),
        bytes: rel(914),
        relation: rel(915),
    }
}

fn relation(id: u64, name: &str, arity: u16) -> RelationMetadata {
    RelationMetadata::new(rel(id), Symbol::intern(name), arity)
}

fn begin<P: CommitProvider>(kernel: &RelationKernel<P>) -> Transaction {
    kernel.begin(prototypes())
}

fn change(relation: u64, tuple: Tuple, kind: FactChangeKind) -> FactChange {
    FactChange {
        relation: rel(relation),
        tuple,
        kind,
    }
}

/// A provider that keeps what it is handed, or refuses it.
struct Recorder {
    kept: Arc<Mutex<Vec<Commit>>>,
    refuses: Arc<Mutex<bool>>,
}

impl CommitProvider for Recorder {
    fn persist_commit(&self, commit: &Commit) -> Result<(), String> {
        if *self.refuses.lock().unwrap() {
            return Err("disk full".to_owned());
        }
        self.kept.lock().unwrap().push(commit.clone());
        Ok(())
    }
}

fn recording() -> (
    RelationKernel<Recorder>,
    Arc<Mutex<Vec<Commit>>>,
    Arc<Mutex<bool>>,
) {
    let kept = Arc::new(Mutex::new(Vec::new()));
    let refuses = Arc::new(Mutex::new(false));
    let kernel = RelationKernel::with_provider(Recorder {
        kept: kept.clone(),
        refuses: refuses.clone(),
    });
    (kernel, kept, refuses)
}

#[test]
fn a_relation_is_created_once() {
    let mut kernel = RelationKernel::new();
    let snapshot = kernel.create_relation(relation(1, "Edge", 2)).unwrap();
    assert_eq!(snapshot.version(), 1);
    assert!(matches!(
        kernel.create_relation(relation(1, "Other", 3)),
        Err(KernelError::RelationAlreadyExists(id)) if id == rel(1)
    ));
    assert!(matches!(
        kernel.create_relation(relation(2, "Wrong", 2).with_index(vec![0, 5])),
        Err(KernelError::InvalidIndex { position: 5, arity: 2, .. })
    ));
    assert_eq!(kernel.snapshot().version(), 1);
    assert_eq!(
        kernel.snapshot().commits_since(0)[0].catalog_changes(),
        &[CatalogChange::RelationCreated(relation(1, "Edge", 2))]
    );
}

#[test]
fn a_commit_shows_in_the_next_snapshot_alone() {
    let mut kernel = RelationKernel::new();
    kernel.create_relation(relation(1, "Edge", 2)).unwrap();
    let before = kernel.snapshot();
    let mut tx = begin(&kernel);
    tx.assert_tuple(rel(1), row(&[2, 3])).unwrap();
    tx.assert_tuple(rel(1), row(&[1, 2])).unwrap();
    tx.retract_tuple(rel(1), row(&[9, 9])).unwrap();
    assert_eq!(
        tx.scan(rel(1), &[None, None]).unwrap(),
        vec![row(&[1, 2]), row(&[2, 3])]
    );
    let done = kernel.commit(&tx, None).unwrap();
    assert_eq!(done.snapshot().version(), 2);
    assert_eq!(
        done.commit().changes(),
        &[
            change(1, row(&[1, 2]), FactChangeKind::Assert),
            change(1, row(&[2, 3]), FactChangeKind::Assert),
        ]
    );
    assert_eq!(done.commit().relation_changes(), done.commit().changes());
    assert!(done.commit().settled_relation_changes_available());
    assert_eq!(before.scan(rel(1), &[None, None]).unwrap(), vec![]);
    assert_eq!(
        kernel.snapshot().scan(rel(1), &[Some(num(2)), None]).unwrap(),
        vec![row(&[2, 3])]
    );
    assert!(kernel.snapshot().contains(rel(1), &row(&[1, 2])).unwrap());
    assert!(!kernel.snapshot().contains(rel(1), &row(&[1, 3])).unwrap());
}

#[test]
fn asserting_what_was_retracted_meanwhile_is_a_conflict() {
    let mut kernel = RelationKernel::new();
    kernel.create_relation(relation(1, "Member", 1)).unwrap();
    let mut seed = begin(&kernel);
    seed.assert_tuple(rel(1), row(&[7])).unwrap();
    kernel.commit(&seed, None).unwrap();

    let mut first = begin(&kernel);
    first.assert_tuple(rel(1), row(&[7])).unwrap();
    let mut second = begin(&kernel);
    second.retract_tuple(rel(1), row(&[7])).unwrap();
    kernel.commit(&second, None).unwrap();

    let version = kernel.snapshot().version();
    let refused = kernel.commit(&first, None);
    assert!(matches!(
        refused,
        Err(KernelError::Conflict(Conflict {
            kind: ConflictKind::AssertRetract,
            ref tuple,
            ..
        })) if *tuple == row(&[7])
    ));
    assert_eq!(kernel.snapshot().version(), version);
}

#[test]
fn writes_to_different_rows_meet_in_the_next_snapshot() {
    let mut kernel = RelationKernel::new();
    kernel.create_relation(relation(1, "Member", 1)).unwrap();
    let mut first = begin(&kernel);
    first.assert_tuple(rel(1), row(&[1])).unwrap();
    first.retract_tuple(rel(1), row(&[2])).unwrap();
    let mut second = begin(&kernel);
    second.assert_tuple(rel(1), row(&[2])).unwrap();
    kernel.commit(&second, None).unwrap();
    let done = kernel.commit(&first, None).unwrap();
    assert_eq!(
        done.snapshot().scan(rel(1), &[None]).unwrap(),
        vec![row(&[1]), row(&[2])]
    );
    assert_eq!(
        done.commit().changes(),
        &[change(1, row(&[1]), FactChangeKind::Assert)]
    );
}

fn functional(id: u64) -> RelationMetadata {
    relation(id, "Location", 2).with_conflict_policy(ConflictPolicy::Functional {
        key_positions: vec![0],
    })
}

#[test]
fn a_key_has_one_holder() {
    let mut kernel = RelationKernel::new();
    kernel.create_relation(functional(1)).unwrap();
    let mut tx = begin(&kernel);
    tx.assert_tuple(rel(1), row(&[1, 10])).unwrap();
    assert!(matches!(
        tx.assert_tuple(rel(1), row(&[1, 11])),
        Err(KernelError::FunctionalKeyViolation { ref existing, ref attempted, .. })
            if *existing == row(&[1, 10]) && *attempted == row(&[1, 11])
    ));
    tx.replace_functional(rel(1), row(&[1, 12])).unwrap();
    assert_eq!(
        tx.scan(rel(1), &[None, None]).unwrap(),
        vec![row(&[1, 12])]
    );
}

#[test]
fn a_key_that_changed_meanwhile_is_a_conflict() {
    let mut kernel = RelationKernel::new();
    kernel.create_relation(functional(1)).unwrap();
    let mut seed = begin(&kernel);
    seed.assert_tuple(rel(1), row(&[1, 10])).unwrap();
    kernel.commit(&seed, None).unwrap();

    let mut first = begin(&kernel);
    first.replace_functional(rel(1), row(&[1, 11])).unwrap();
    let mut second = begin(&kernel);
    second.replace_functional(rel(1), row(&[1, 12])).unwrap();
    let mut third = begin(&kernel);
    third.assert_tuple(rel(1), row(&[2, 20])).unwrap();
    kernel.commit(&second, None).unwrap();

    assert!(matches!(
        kernel.commit(&first, None),
        Err(KernelError::Conflict(Conflict {
            kind: ConflictKind::FunctionalKeyChanged,
            ref tuple,
            ..
        })) if *tuple == row(&[1, 11])
    ));
    kernel.commit(&third, None).unwrap();
    assert_eq!(
        kernel.snapshot().scan(rel(1), &[None, None]).unwrap(),
        vec![row(&[1, 12]), row(&[2, 20])]
    );
}

#[test]
fn events_never_conflict() {
    let mut kernel = RelationKernel::new();
    kernel
        .create_relation(
            relation(1, "Event", 1).with_conflict_policy(ConflictPolicy::EventAppend),
        )
        .unwrap();
    let mut seed = begin(&kernel);
    seed.assert_tuple(rel(1), row(&[1])).unwrap();
    kernel.commit(&seed, None).unwrap();
    let mut first = begin(&kernel);
    first.assert_tuple(rel(1), row(&[1])).unwrap();
    let mut second = begin(&kernel);
    second.retract_tuple(rel(1), row(&[1])).unwrap();
    kernel.commit(&second, None).unwrap();
    let done = kernel.commit(&first, None).unwrap();
    assert!(done.snapshot().contains(rel(1), &row(&[1])).unwrap());
}

#[test]
fn writes_that_do_not_fit_are_refused() {
    let mut kernel = RelationKernel::new();
    kernel.create_relation(relation(1, "Member", 1)).unwrap();
    let mut tx = begin(&kernel);
    assert_eq!(
        tx.assert_tuple(rel(2), row(&[1])),
        Err(KernelError::UnknownRelation(rel(2)))
    );
    assert_eq!(
        tx.assert_tuple(rel(1), row(&[1, 2])),
        Err(KernelError::ArityMismatch {
            relation: rel(1),
            expected: 1,
            actual: 2,
        })
    );
    let secret = Tuple::new(vec![Value::Capability(4)]);
    assert_eq!(
        tx.assert_tuple(rel(1), secret.clone()),
        Err(KernelError::NonPersistentValue {
            relation: rel(1),
            tuple: secret,
        })
    );
    assert!(tx.is_read_only());
    assert_eq!(
        kernel.snapshot().scan(rel(1), &[]),
        Err(KernelError::ArityMismatch {
            relation: rel(1),
            expected: 1,
            actual: 0,
        })
    );
}

#[test]
fn reconciling_leaves_the_rows_that_are_wanted() {
    let mut kernel = RelationKernel::new();
    kernel.create_relation(relation(1, "Member", 1)).unwrap();
    let mut seed = begin(&kernel);
    for value in 0..4 {
        seed.assert_tuple(rel(1), row(&[value])).unwrap();
    }
    kernel.commit(&seed, None).unwrap();
    let mut tx = begin(&kernel);
    tx.reconcile_relation(rel(1), vec![row(&[3]), row(&[5]), row(&[1])])
        .unwrap();
    let done = kernel.commit(&tx, None).unwrap();
    assert_eq!(
        done.snapshot().scan(rel(1), &[None]).unwrap(),
        vec![row(&[1]), row(&[3]), row(&[5])]
    );
    assert_eq!(done.commit().changes().len(), 3);
}

fn copy_rule(head: u64, body: u64) -> Rule {
    Rule::new(
        rel(head),
        vec![var("item")],
        vec![RuleBodyItem::Atom(Atom::positive(
            rel(body),
            vec![var("item")],
        ))],
    )
}

fn absent_rule(head: u64, body: u64) -> Rule {
    Rule::new(
        rel(head),
        vec![var("item")],
        vec![RuleBodyItem::Atom(Atom::negated(
            rel(body),
            vec![var("item")],
        ))],
    )
}

#[test]
fn rules_are_checked_named_and_disabled() {
    let mut kernel = RelationKernel::new();
    kernel.create_relation(relation(1, "Base", 1)).unwrap();
    kernel.create_relation(relation(2, "Derived", 1)).unwrap();
    assert!(matches!(
        kernel.install_rule(copy_rule(3, 1), "x".to_owned(), None),
        Err(KernelError::UnknownRelation(id)) if id == rel(3)
    ));
    let wide = Rule::new(rel(2), vec![var("a"), var("b")], vec![]);
    assert!(matches!(
        kernel.install_rule(wide, "x".to_owned(), None),
        Err(KernelError::ArityMismatch { expected: 1, actual: 2, .. })
    ));
    let first = kernel
        .install_rule(copy_rule(2, 1), "Derived(item) :- Base(item)".to_owned(), None)
        .unwrap();
    assert_eq!(first.id().raw(), GENERATED_RULE_ID_START);
    let second = kernel
        .install_rule(copy_rule(2, 2), "Derived(item) :- Derived(item)".to_owned(), None)
        .unwrap();
    assert_eq!(second.id().raw(), GENERATED_RULE_ID_START + 1);
    assert!(matches!(
        kernel.install_rule(absent_rule(1, 2), "circle".to_owned(), None),
        Err(KernelError::Rule(RuleError::Unstratified))
    ));
    let version = kernel.snapshot().version();
    let after = kernel.disable_rule(second.id(), None).unwrap();
    assert_eq!(after.version(), version + 1);
    assert!(!after.rules()[1].active());
    assert!(matches!(
        kernel.disable_rule(rel(77), None),
        Err(KernelError::UnknownRule(id)) if id == rel(77)
    ));
}

#[test]
fn negation_in_layers_is_stratified_and_in_a_circle_is_not() {
    let mut kernel = RelationKernel::new();
    for id in 1..5 {
        kernel.create_relation(relation(id, "R", 1)).unwrap();
    }
    kernel
        .install_rule(absent_rule(2, 1), "2".to_owned(), None)
        .unwrap();
    kernel
        .install_rule(absent_rule(3, 2), "3".to_owned(), None)
        .unwrap();
    kernel
        .install_rule(copy_rule(4, 3), "4".to_owned(), None)
        .unwrap();
    assert!(matches!(
        kernel.install_rule(copy_rule(2, 4), "2".to_owned(), None),
        Err(KernelError::Rule(RuleError::Unstratified))
    ));
    assert!(matches!(
        kernel.install_rule(absent_rule(1, 1), "1".to_owned(), None),
        Err(KernelError::Rule(RuleError::Unstratified))
    ));
}

#[test]
fn maintained_rows_are_told_with_the_commit() {
    let mut kernel = RelationKernel::new();
    kernel.create_relation(relation(1, "Base", 1)).unwrap();
    kernel.create_relation(relation(2, "Derived", 1)).unwrap();
    kernel
        .install_rule(copy_rule(2, 1), "Derived(item) :- Base(item)".to_owned(), None)
        .unwrap();
    assert!(matches!(
        kernel.snapshot().scan(rel(2), &[None]),
        Err(KernelError::RulesUnevaluated(id)) if id == rel(2)
    ));
    kernel.keep_evaluation(Ok(vec![(rel(2), vec![])]), Some(vec![rel(2)]));
    assert_eq!(kernel.snapshot().scan(rel(2), &[None]).unwrap(), vec![]);

    let mut tx = begin(&kernel);
    tx.assert_tuple(rel(1), row(&[4])).unwrap();
    tx.assert_tuple(rel(2), row(&[5])).unwrap();
    let done = kernel
        .commit(
            &tx,
            Some(Ok(Evaluation {
                derived: vec![(rel(2), vec![row(&[4])])],
                visible_changes: vec![change(2, row(&[4]), FactChangeKind::Assert)],
                maintained: vec![rel(2)],
            })),
        )
        .unwrap();
    assert_eq!(
        done.commit().relation_changes(),
        &[
            change(1, row(&[4]), FactChangeKind::Assert),
            change(2, row(&[4]), FactChangeKind::Assert),
            change(2, row(&[5]), FactChangeKind::Assert),
        ]
    );
    assert_eq!(
        done.snapshot().scan(rel(2), &[None]).unwrap(),
        vec![row(&[4]), row(&[5])]
    );

    let definition = kernel.snapshot().rules()[0].id();
    let after = kernel
        .disable_rule(
            definition,
            Some(Ok(Evaluation {
                derived: vec![],
                visible_changes: vec![],
                maintained: vec![rel(2)],
            })),
        )
        .unwrap();
    let told = after.commits_since(after.version() - 1);
    assert_eq!(
        told[0].relation_changes(),
        &[change(2, row(&[4]), FactChangeKind::Retract)]
    );

    let mut failing = begin(&kernel);
    failing.assert_tuple(rel(1), row(&[6])).unwrap();
    let version = kernel.snapshot().version();
    assert!(matches!(
        kernel.commit(&failing, Some(Err(KernelError::UnknownRelation(rel(2))))),
        Err(KernelError::UnknownRelation(_))
    ));
    assert_eq!(kernel.snapshot().version(), version);
}

#[test]
fn a_fork_is_published_as_one_commit() {
    let mut kernel = RelationKernel::new();
    kernel.create_relation(relation(1, "Member", 1)).unwrap();
    let mut seed = begin(&kernel);
    seed.assert_tuple(rel(1), row(&[1])).unwrap();
    kernel.commit(&seed, None).unwrap();
    let start = kernel.snapshot().version();

    let mut fork = kernel.fork_in_memory();
    fork.create_relation(relation(2, "New", 1)).unwrap();
    let mut tx = begin(&fork);
    tx.assert_tuple(rel(2), row(&[2])).unwrap();
    tx.assert_tuple(rel(1), row(&[3])).unwrap();
    fork.commit(&tx, None).unwrap();
    let mut tx = begin(&fork);
    tx.retract_tuple(rel(1), row(&[1])).unwrap();
    tx.retract_tuple(rel(1), row(&[3])).unwrap();
    fork.commit(&tx, None).unwrap();
    let rule = fork
        .install_rule(copy_rule(2, 1), "New(item) :- Member(item)".to_owned(), None)
        .unwrap();

    assert_eq!(kernel.snapshot().version(), start);
    let done = kernel
        .commit_staged_snapshot(start, &fork.snapshot(), None)
        .unwrap();
    assert_eq!(done.commit().version(), start + 1);
    assert_eq!(
        done.commit().catalog_changes(),
        &[
            CatalogChange::RelationCreated(relation(2, "New", 1)),
            CatalogChange::RuleInstalled(rule),
        ]
    );
    assert_eq!(
        done.commit().changes(),
        &[
            change(1, row(&[1]), FactChangeKind::Retract),
            change(2, row(&[2]), FactChangeKind::Assert),
        ]
    );
    assert_eq!(kernel.snapshot().commits_since(start).len(), 1);

    assert!(matches!(
        kernel.commit_staged_snapshot(start, &fork.snapshot(), None),
        Err(KernelError::StaleStagedSnapshot { expected, actual })
            if expected == start && actual == start + 1
    ));
}

#[test]
fn a_fork_may_not_lose_relations_or_rules() {
    let mut kernel = RelationKernel::new();
    let empty = kernel.snapshot();
    kernel.create_relation(relation(1, "Member", 1)).unwrap();
    let bare = kernel.snapshot();
    assert!(matches!(
        kernel.commit_staged_snapshot(1, &empty, None),
        Err(KernelError::UnknownRelation(id)) if id == rel(1)
    ));
    let rule = kernel
        .install_rule(copy_rule(1, 1), "x".to_owned(), None)
        .unwrap();
    assert!(matches!(
        kernel.commit_staged_snapshot(2, &bare, None),
        Err(KernelError::UnknownRule(id)) if id == rule.id()
    ));
    let mut other = RelationKernel::new();
    other.create_relation(relation(1, "Else", 1)).unwrap();
    assert!(matches!(
        kernel.commit_staged_snapshot(2, &other.snapshot(), None),
        Err(KernelError::RelationAlreadyExists(id)) if id == rel(1)
    ));
}

#[test]
fn a_provider_gets_what_is_kept() {
    let (mut kernel, kept, refuses) = recording();
    kernel.create_relation(relation(1, "Kept", 1)).unwrap();
    kernel
        .create_relation(relation(2, "Seen", 1).with_durability(RelationDurability::Volatile))
        .unwrap();
    let mut tx = begin(&kernel);
    tx.assert_tuple(rel(1), row(&[1])).unwrap();
    tx.assert_tuple(rel(2), row(&[2])).unwrap();
    kernel.commit(&tx, None).unwrap();
    assert_eq!(kept.lock().unwrap().len(), 3);
    {
        let kept = kept.lock().unwrap();
        assert_eq!(
            kept[2].changes(),
            &[change(1, row(&[1]), FactChangeKind::Assert)]
        );
        assert_eq!(kept[2].relation_changes(), &[]);
        assert!(!kept[2].settled_relation_changes_available());
    }

    let mut volatile = begin(&kernel);
    volatile.assert_tuple(rel(2), row(&[3])).unwrap();
    *refuses.lock().unwrap() = true;
    kernel.commit(&volatile, None).unwrap();
    assert_eq!(kept.lock().unwrap().len(), 3);

    let mut lost = begin(&kernel);
    lost.assert_tuple(rel(1), row(&[9])).unwrap();
    let version = kernel.snapshot().version();
    assert!(matches!(
        kernel.commit(&lost, None),
        Err(KernelError::Persistence(text)) if text == "disk full"
    ));
    assert!(matches!(
        kernel.create_relation(relation(3, "Lost", 1)),
        Err(KernelError::Persistence(_))
    ));
    assert_eq!(kernel.snapshot().version(), version);
}

#[test]
fn what_was_kept_loads_again() {
    let (mut kernel, kept, _) = recording();
    kernel.create_relation(relation(1, "Kept", 2)).unwrap();
    kernel
        .create_relation(relation(2, "Seen", 1).with_durability(RelationDurability::Volatile))
        .unwrap();
    kernel.create_relation(relation(3, "Derived", 2)).unwrap();
    let rule = kernel
        .install_rule(
            Rule::new(
                rel(3),
                vec![var("a"), var("b")],
                vec![RuleBodyItem::Atom(Atom::positive(
                    rel(1),
                    vec![var("a"), var("b")],
                ))],
            ),
            "Derived(a, b) :- Kept(a, b)".to_owned(),
            None,
        )
        .unwrap();
    for step in 0..5 {
        let mut tx = begin(&kernel);
        tx.assert_tuple(rel(1), row(&[step, step * step])).unwrap();
        tx.assert_tuple(rel(2), row(&[step])).unwrap();
        if step > 2 {
            tx.retract_tuple(rel(1), row(&[step - 1, (step - 1) * (step - 1)]))
                .unwrap();
        }
        kernel.commit(&tx, None).unwrap();
    }
    kernel.disable_rule(rule.id(), None).unwrap();

    let now = kernel.snapshot();
    let log: Vec<Commit> = kept.lock().unwrap().clone();
    let loaded = RelationKernel::load_from_commit_log(log, InMemoryCommitProvider {}).unwrap();
    let then = loaded.snapshot();
    assert_eq!(then.version(), now.version());
    assert_eq!(then.relation_metadata(), now.relation_metadata());
    assert_eq!(then.rules(), now.rules());
    assert_eq!(
        then.scan(rel(1), &[None, None]).unwrap(),
        now.scan(rel(1), &[None, None]).unwrap()
    );
    assert_eq!(then.scan(rel(2), &[None]).unwrap(), vec![]);
    assert_eq!(now.scan(rel(2), &[None]).unwrap().len(), 5);

    let whole = RelationKernel::load_from_commit_log(
        now.commits_since(0),
        InMemoryCommitProvider {},
    )
    .unwrap();
    assert_eq!(
        whole.snapshot().scan(rel(1), &[None, None]).unwrap(),
        now.scan(rel(1), &[None, None]).unwrap()
    );
}

#[test]
fn relations_that_are_there_from_the_start_take_commits() {
    let commits = vec![Commit {
        version: 9,
        catalog_changes: vec![],
        changes: vec![
            change(1, row(&[1]), FactChangeKind::Assert),
            change(1, row(&[2]), FactChangeKind::Assert),
            change(1, row(&[1]), FactChangeKind::Retract),
        ],
        relation_changes: vec![],
        settled_relation_changes_available: false,
    }];
    let kernel = RelationKernel::load_from_commits(
        vec![relation(1, "Member", 1)],
        commits,
        InMemoryCommitProvider {},
    )
    .unwrap();
    assert_eq!(kernel.snapshot().version(), 9);
    assert_eq!(
        kernel.snapshot().scan(rel(1), &[None]).unwrap(),
        vec![row(&[2])]
    );
}

#[test]
fn a_store_that_does_not_fit_is_refused() {
    let state = |facts: Vec<(Identity, Tuple)>, rules: Vec<RuleDefinition>| PersistedKernelState {
        version: 4,
        relations: vec![relation(1, "Member", 1), relation(2, "Other", 1)],
        rules,
        facts,
    };
    let load = |state: PersistedKernelState| {
        RelationKernel::load_from_state(state, InMemoryCommitProvider {})
    };
    let kernel = load(state(vec![(rel(1), row(&[3]))], vec![])).unwrap();
    assert_eq!(kernel.snapshot().version(), 4);
    assert!(kernel.snapshot().contains(rel(1), &row(&[3])).unwrap());

    assert!(matches!(
        load(state(vec![(rel(8), row(&[3]))], vec![])),
        Err(KernelError::UnknownRelation(id)) if id == rel(8)
    ));
    assert!(matches!(
        load(state(vec![(rel(1), row(&[3, 4]))], vec![])),
        Err(KernelError::ArityMismatch { expected: 1, actual: 2, .. })
    ));
    let definition =
        |id: u64, rule: Rule| RuleDefinition::new(rel(id), rule, "text".to_owned());
    assert!(matches!(
        load(state(vec![], vec![definition(50, copy_rule(9, 1))])),
        Err(KernelError::UnknownRelation(id)) if id == rel(9)
    ));
    assert!(matches!(
        load(state(
            vec![],
            vec![
                definition(50, absent_rule(1, 2)),
                definition(51, copy_rule(2, 1)),
            ]
        )),
        Err(KernelError::Rule(RuleError::Unstratified))
    ));
}

#[test]
fn publishing_asks_for_the_version_that_was_read() {
    let mut kernel = RelationKernel::new();
    let old = kernel.snapshot();
    kernel.create_relation(relation(1, "Member", 1)).unwrap();
    assert!(!kernel.try_publish(0, old.clone()));
    assert_eq!(kernel.snapshot().version(), 1);
    assert!(kernel.try_publish(1, old));
    assert_eq!(kernel.snapshot().version(), 0);
}

#[test]
fn a_published_fork_loads_again() {
    let (mut kernel, kept, _) = recording();
    kernel.create_relation(relation(5, "Member", 1)).unwrap();
    let old = kernel
        .install_rule(copy_rule(5, 5), "Member(item) :- Member(item)".to_owned(), None)
        .unwrap();
    let mut seed = begin(&kernel);
    seed.assert_tuple(rel(5), row(&[1])).unwrap();
    seed.assert_tuple(rel(5), row(&[2])).unwrap();
    kernel.commit(&seed, None).unwrap();
    let start = kernel.snapshot().version();

    let mut fork = kernel.fork_in_memory();
    fork.create_relation(relation(3, "First", 1)).unwrap();
    fork.create_relation(relation(7, "Last", 1)).unwrap();
    fork.disable_rule(old.id(), None).unwrap();
    fork.install_rule(absent_rule(7, 5), "Last(item) :- not Member(item)".to_owned(), None)
        .unwrap();
    let short = fork
        .install_rule(copy_rule(3, 7), "First(item) :- Last(item)".to_owned(), None)
        .unwrap();
    fork.disable_rule(short.id(), None).unwrap();
    let mut tx = begin(&fork);
    tx.retract_tuple(rel(5), row(&[1])).unwrap();
    tx.assert_tuple(rel(3), row(&[4])).unwrap();
    fork.commit(&tx, None).unwrap();
    let mut tx = begin(&fork);
    tx.assert_tuple(rel(5), row(&[1])).unwrap();
    tx.assert_tuple(rel(7), row(&[6])).unwrap();
    fork.commit(&tx, None).unwrap();

    kernel
        .commit_staged_snapshot(start, &fork.snapshot(), None)
        .unwrap();
    let now = kernel.snapshot();
    let log: Vec<Commit> = kept.lock().unwrap().clone();
    let loaded = RelationKernel::load_from_commit_log(log, InMemoryCommitProvider {}).unwrap();
    let then = loaded.snapshot();
    assert_eq!(then.version(), now.version());
    assert_eq!(then.relation_metadata(), now.relation_metadata());
    assert_eq!(then.rules(), now.rules());
    assert_eq!(then.extensional_facts(), now.extensional_facts());
    assert_eq!(
        now.extensional_facts(),
        vec![
            (rel(3), row(&[4])),
            (rel(5), row(&[1])),
            (rel(5), row(&[2])),
            (rel(7), row(&[6])),
        ]
    );
}
