//! What holds of the relations that reflect what there is.

use crate::kernel::algebra::Row;
use crate::kernel::catalog::{all_index_facts, all_relation_facts, all_rule_facts, argument_facts,
    catalog_said, index_facts, index_id, mentioned_row, policy_facts, predicate_named,
    reflects_rows, relation_facts, rule_facts, slot_facts, slot_row, subject_row, system_scanned,
    CatalogPredicate};
use crate::kernel::error::FaultView;
use crate::kernel::live::{installing, new_definition, retiring};
use crate::kernel::metadata::{MetadataView, PolicyView, RelationDurability};
use crate::kernel::read::CatalogView;
use crate::kernel::rules::{DefinitionView, RuleView};
use crate::kernel::ruling::rule_place;
use crate::kernel::snapshot::SnapshotView;
use crate::tuple::row_matches;
use crate::value::ValueView;
use vstd::prelude::*;

verus! {

/// Whether a row has the bound values.
pub open spec fn has_bound(row: Row, bound: Seq<Option<ValueView>>) -> bool {
    forall|i: int|
        0 <= i < bound.len() && (#[trigger] bound[i]) is Some ==> i < row.len() && row[i]
            == bound[i]->0
}

/// Whether a scan found a row.
pub open spec fn finds_row(scan: Result<Set<Row>, FaultView>, row: Row) -> bool {
    scan matches Ok(set) && set.contains(row)
}

proof fn lemma_all_rules(rules: Seq<DefinitionView>, fact: (CatalogPredicate, Row))
    ensures
        all_rule_facts(rules).contains(fact) <==> exists|i: int|
            0 <= i < rules.len() && rule_facts(#[trigger] rules[i]).contains(fact),
    decreases rules.len(),
{
    if rules.len() > 0 {
        let less = rules.drop_last();
        lemma_all_rules(less, fact);
        lemma_in_sum(all_rule_facts(less), rule_facts(rules.last()), fact);
        if all_rule_facts(less).contains(fact) {
            let i = choose|i: int|
                0 <= i < less.len() && rule_facts(#[trigger] less[i]).contains(fact);
            assert(rules[i] == less[i]);
        }
        if exists|i: int| 0 <= i < rules.len() && rule_facts(#[trigger] rules[i]).contains(fact) {
            let i = choose|i: int|
                0 <= i < rules.len() && rule_facts(#[trigger] rules[i]).contains(fact);
            if i < less.len() {
                assert(less[i] == rules[i]);
            }
        }
        assert(rules[rules.len() - 1] == rules.last());
    }
}

proof fn lemma_all_relations(
    relations: Seq<MetadataView>,
    kinds: Map<(u64, int), Seq<char>>,
    fact: (CatalogPredicate, Row),
)
    ensures
        all_relation_facts(relations, kinds).contains(fact) <==> exists|i: int|
            0 <= i < relations.len() && relation_facts(#[trigger] relations[i], kinds).contains(
                fact,
            ),
    decreases relations.len(),
{
    if relations.len() > 0 {
        let less = relations.drop_last();
        lemma_all_relations(less, kinds, fact);
        lemma_in_sum(
            all_relation_facts(less, kinds),
            relation_facts(relations.last(), kinds),
            fact,
        );
        if all_relation_facts(less, kinds).contains(fact) {
            let i = choose|i: int|
                0 <= i < less.len() && relation_facts(#[trigger] less[i], kinds).contains(fact);
            assert(relations[i] == less[i]);
        }
        if exists|i: int|
            0 <= i < relations.len() && relation_facts(#[trigger] relations[i], kinds).contains(
                fact,
            ) {
            let i = choose|i: int|
                0 <= i < relations.len() && relation_facts(#[trigger] relations[i], kinds).contains(
                    fact,
                );
            if i < less.len() {
                assert(less[i] == relations[i]);
            }
        }
        assert(relations[relations.len() - 1] == relations.last());
    }
}

proof fn lemma_in_sum<A>(a: Seq<A>, b: Seq<A>, x: A)
    ensures
        (a + b).contains(x) <==> a.contains(x) || b.contains(x),
{
    let whole = a + b;
    if a.contains(x) {
        let i = choose|i: int| 0 <= i < a.len() && a[i] == x;
        assert(whole[i] == x);
    }
    if b.contains(x) {
        let i = choose|i: int| 0 <= i < b.len() && b[i] == x;
        assert(whole[a.len() + i] == x);
    }
    if whole.contains(x) {
        let i = choose|i: int| 0 <= i < whole.len() && whole[i] == x;
        if i < a.len() {
            assert(a[i] == x);
        } else {
            assert(b[i - a.len()] == x);
        }
    }
}

/// The row that names a column.
pub open spec fn column_row(metadata: MetadataView, n: int, name: Seq<char>) -> Row {
    seq![ValueView::Identity(metadata.id), ValueView::Int(n as i64), ValueView::Symbol(name)]
}

proof fn lemma_arguments(metadata: MetadataView, n: nat, fact: (CatalogPredicate, Row))
    ensures
        argument_facts(metadata, n).contains(fact) <==> fact.0 is ArgumentName && exists|i: int|
            0 <= i < n && (#[trigger] metadata.argument_names[i]) is Some && fact.1 == column_row(
                metadata,
                i,
                metadata.argument_names[i]->0,
            ),
    decreases n,
{
    if n > 0 {
        let before = argument_facts(metadata, (n - 1) as nat);
        lemma_arguments(metadata, (n - 1) as nat, fact);
        match metadata.argument_names[n - 1] {
            None => {},
            Some(name) => {
                let last = (CatalogPredicate::ArgumentName, column_row(metadata, n - 1, name));
                assert(argument_facts(metadata, n) =~= before + seq![last]);
                lemma_in_sum(before, seq![last], fact);
                assert(seq![last].contains(fact) <==> fact == last) by {
                    if fact == last {
                        assert(seq![last][0] == fact);
                    }
                }
            },
        }
    }
}

/// The row that says that a position stands at a place.
pub open spec fn place_row(subject: u64, place: int, position: u16) -> Row {
    seq![
        ValueView::Identity(subject),
        ValueView::Int(place as i64),
        ValueView::Int(position as i64),
    ]
}

proof fn lemma_slots(
    predicate: CatalogPredicate,
    subject: u64,
    positions: Seq<u16>,
    fact: (CatalogPredicate, Row),
)
    requires
        positions.len() <= u32::MAX,
    ensures
        slot_facts(predicate, subject, positions, positions.len()).contains(fact) <==> fact.0
            == predicate && exists|i: int|
            0 <= i < positions.len() && fact.1 == place_row(subject, i, #[trigger] positions[i]),
{
    let all = slot_facts(predicate, subject, positions, positions.len());
    assert forall|i: int| 0 <= i < positions.len() implies slot_row(subject, i, positions[i])
        == place_row(subject, i, #[trigger] positions[i]) by {
        assert((i as usize) as i64 == i as i64);
    }
    if all.contains(fact) {
        let i = choose|i: int| 0 <= i < all.len() && all[i] == fact;
        assert(fact.1 == place_row(subject, i, positions[i]));
    }
    if fact.0 == predicate && exists|i: int|
        0 <= i < positions.len() && fact.1 == place_row(subject, i, #[trigger] positions[i]) {
        let i = choose|i: int|
            0 <= i < positions.len() && fact.1 == place_row(subject, i, #[trigger] positions[i]);
        assert(all[i] == fact);
    }
}

/// The identity of an index: the relation's, times a fixed number, and the place of the index, cut to
/// the width of an identity.
pub open spec fn index_identity_of(relation: u64, ordinal: int) -> int {
    (relation * 65_537 + ordinal) % 0x0100_0000_0000_0000
}

/// Whether a fact is told of the index at a place.
pub open spec fn tells_of_index(
    metadata: MetadataView,
    n: int,
    kinds: Map<(u64, int), Seq<char>>,
    fact: (CatalogPredicate, Row),
) -> bool {
    let id = index_identity_of(metadata.id, n) as u64;
    match fact.0 {
        CatalogPredicate::Index => fact.1 == seq![
            ValueView::Identity(metadata.id),
            ValueView::Identity(id),
        ],
        CatalogPredicate::IndexStorageKind => kinds.contains_key((metadata.id, n)) && fact.1
            == seq![ValueView::Identity(id), ValueView::Symbol(kinds[(metadata.id, n)])],
        CatalogPredicate::IndexPosition => exists|i: int|
            0 <= i < metadata.indexes[n].len() && fact.1 == place_row(
                id,
                i,
                #[trigger] metadata.indexes[n][i],
            ),
        _ => false,
    }
}

/// Whether the indexes of a relation are of a size that can be told of.
pub open spec fn of_telling_size(metadata: MetadataView) -> bool {
    &&& metadata.indexes.len() <= u16::MAX
    &&& forall|n: int|
        0 <= n < metadata.indexes.len() ==> (#[trigger] metadata.indexes[n]).len() <= u32::MAX
    &&& metadata.conflict_policy matches PolicyView::Functional(key) ==> key.len() <= u32::MAX
    &&& metadata.argument_names.len() == metadata.arity
}

proof fn lemma_index(
    metadata: MetadataView,
    n: int,
    kinds: Map<(u64, int), Seq<char>>,
    fact: (CatalogPredicate, Row),
)
    requires
        of_telling_size(metadata),
        0 <= n < metadata.indexes.len(),
    ensures
        index_facts(
            metadata,
            n,
            if kinds.contains_key((metadata.id, n)) {
                Some(kinds[(metadata.id, n)])
            } else {
                None
            },
        ).contains(fact) <==> tells_of_index(metadata, n, kinds, fact),
{
    let id = index_identity_of(metadata.id, n) as u64;
    assert((n as usize) as u16 == n);
    assert(index_id(metadata.id, n as u16) == id);
    let positions = metadata.indexes[n];
    let slots = slot_facts(CatalogPredicate::IndexPosition, id, positions, positions.len());
    lemma_slots(CatalogPredicate::IndexPosition, id, positions, fact);
    let first = (
        CatalogPredicate::Index,
        seq![ValueView::Identity(metadata.id), ValueView::Identity(id)],
    );
    if kinds.contains_key((metadata.id, n)) {
        let second = (
            CatalogPredicate::IndexStorageKind,
            seq![ValueView::Identity(id), ValueView::Symbol(kinds[(metadata.id, n)])],
        );
        let head = seq![first, second];
        lemma_in_sum(head, slots, fact);
        assert(head[0] == first && head[1] == second);
        assert(head.contains(fact) <==> fact == first || fact == second) by {
            if head.contains(fact) {
                let i = choose|i: int| 0 <= i < head.len() && head[i] == fact;
            }
        }
    } else {
        let head = seq![first];
        lemma_in_sum(head, slots, fact);
        assert(head[0] == first);
        assert(head.contains(fact) <==> fact == first);
    }
}

proof fn lemma_indexes(
    metadata: MetadataView,
    n: nat,
    kinds: Map<(u64, int), Seq<char>>,
    fact: (CatalogPredicate, Row),
)
    requires
        of_telling_size(metadata),
        n <= metadata.indexes.len(),
    ensures
        all_index_facts(metadata, n, kinds).contains(fact) <==> exists|k: int|
            0 <= k < n && #[trigger] tells_of_index(metadata, k, kinds, fact),
    decreases n,
{
    if n > 0 {
        lemma_indexes(metadata, (n - 1) as nat, kinds, fact);
        lemma_index(metadata, n - 1, kinds, fact);
        let last = index_facts(
            metadata,
            n - 1,
            if kinds.contains_key((metadata.id, n - 1)) {
                Some(kinds[(metadata.id, n - 1)])
            } else {
                None
            },
        );
        lemma_in_sum(all_index_facts(metadata, (n - 1) as nat, kinds), last, fact);
        if all_index_facts(metadata, (n - 1) as nat, kinds).contains(fact) {
            let k = choose|k: int|
                0 <= k < n - 1 && #[trigger] tells_of_index(metadata, k, kinds, fact);
            assert(tells_of_index(metadata, k, kinds, fact));
        }
    }
}

/// Whether a fact tells when writes to a relation get in each other's way.
pub open spec fn tells_of_policy(metadata: MetadataView, fact: (CatalogPredicate, Row)) -> bool {
    match fact.0 {
        CatalogPredicate::ConflictPolicy => fact.1 == seq![
            ValueView::Identity(metadata.id),
            ValueView::Symbol(
                match metadata.conflict_policy {
                    PolicyView::SetOfRows => "set"@,
                    PolicyView::EventAppend => "event_append"@,
                    PolicyView::Functional(_) => "functional"@,
                },
            ),
        ],
        CatalogPredicate::FunctionalKey => metadata.conflict_policy is Functional && exists|i: int|
            0 <= i < metadata.conflict_policy->Functional_0.len() && fact.1 == place_row(
                metadata.id,
                i,
                #[trigger] metadata.conflict_policy->Functional_0[i],
            ),
        _ => false,
    }
}

proof fn lemma_policy(metadata: MetadataView, fact: (CatalogPredicate, Row))
    requires
        of_telling_size(metadata),
    ensures
        policy_facts(metadata).contains(fact) <==> tells_of_policy(metadata, fact),
{
    let id = ValueView::Identity(metadata.id);
    match metadata.conflict_policy {
        PolicyView::SetOfRows => {
            let first = (CatalogPredicate::ConflictPolicy, seq![id, ValueView::Symbol("set"@)]);
            assert(policy_facts(metadata)[0] == first);
        },
        PolicyView::EventAppend => {
            let first = (
                CatalogPredicate::ConflictPolicy,
                seq![id, ValueView::Symbol("event_append"@)],
            );
            assert(policy_facts(metadata)[0] == first);
        },
        PolicyView::Functional(key) => {
            let first = (
                CatalogPredicate::ConflictPolicy,
                seq![id, ValueView::Symbol("functional"@)],
            );
            let slots = slot_facts(CatalogPredicate::FunctionalKey, metadata.id, key, key.len());
            lemma_slots(CatalogPredicate::FunctionalKey, metadata.id, key, fact);
            lemma_in_sum(seq![first], slots, fact);
            assert(seq![first][0] == first);
            assert(seq![first].contains(fact) <==> fact == first);
            assert(policy_facts(metadata) == seq![first] + slots);
        },
    }
}

/// Whether a fact is told of a relation.
pub open spec fn tells_of_relation(
    metadata: MetadataView,
    kinds: Map<(u64, int), Seq<char>>,
    fact: (CatalogPredicate, Row),
) -> bool {
    let id = ValueView::Identity(metadata.id);
    match fact.0 {
        CatalogPredicate::Relation => fact.1 == seq![id],
        CatalogPredicate::RelationName => fact.1 == seq![id, ValueView::Symbol(metadata.name)],
        CatalogPredicate::Arity => fact.1 == seq![id, ValueView::Int(metadata.arity as i64)],
        CatalogPredicate::RelationDurability => fact.1 == seq![
            id,
            ValueView::Symbol(
                match metadata.durability {
                    RelationDurability::Durable => "durable"@,
                    RelationDurability::Volatile => "volatile"@,
                },
            ),
        ],
        CatalogPredicate::ArgumentName => exists|i: int|
            0 <= i < metadata.arity && (#[trigger] metadata.argument_names[i]) is Some && fact.1
                == column_row(metadata, i, metadata.argument_names[i]->0),
        CatalogPredicate::ConflictPolicy | CatalogPredicate::FunctionalKey => tells_of_policy(
            metadata,
            fact,
        ),
        CatalogPredicate::Index | CatalogPredicate::IndexStorageKind
        | CatalogPredicate::IndexPosition => exists|k: int|
            0 <= k < metadata.indexes.len() && #[trigger] tells_of_index(metadata, k, kinds, fact),
        _ => false,
    }
}

proof fn lemma_relation(
    metadata: MetadataView,
    kinds: Map<(u64, int), Seq<char>>,
    fact: (CatalogPredicate, Row),
)
    requires
        of_telling_size(metadata),
    ensures
        relation_facts(metadata, kinds).contains(fact) <==> tells_of_relation(
            metadata,
            kinds,
            fact,
        ),
{
    let id = ValueView::Identity(metadata.id);
    let head = seq![
        (CatalogPredicate::Relation, seq![id]),
        (CatalogPredicate::RelationName, seq![id, ValueView::Symbol(metadata.name)]),
        (CatalogPredicate::Arity, seq![id, ValueView::Int(metadata.arity as i64)]),
        (
            CatalogPredicate::RelationDurability,
            seq![id, ValueView::Symbol(metadata.durability.name())],
        ),
    ];
    let arguments = argument_facts(metadata, metadata.arity as nat);
    let policy = policy_facts(metadata);
    let indexes = all_index_facts(metadata, metadata.indexes.len(), kinds);
    lemma_arguments(metadata, metadata.arity as nat, fact);
    lemma_policy(metadata, fact);
    lemma_indexes(metadata, metadata.indexes.len(), kinds, fact);
    lemma_in_sum(head, arguments, fact);
    lemma_in_sum(head + arguments, policy, fact);
    lemma_in_sum(head + arguments + policy, indexes, fact);
    assert(head.contains(fact) <==> fact == head[0] || fact == head[1] || fact == head[2] || fact
        == head[3]);
    assert(relation_facts(metadata, kinds) == head + arguments + policy + indexes);
}

/// Whether a fact is told of a rule.
pub open spec fn tells_of_rule(rule: DefinitionView, fact: (CatalogPredicate, Row)) -> bool {
    let id = ValueView::Identity(rule.id);
    match fact.0 {
        CatalogPredicate::Rule => fact.1 == seq![id],
        CatalogPredicate::RuleHead => fact.1 == seq![
            id,
            ValueView::Identity(rule.rule.head_relation),
        ],
        CatalogPredicate::RuleSource => fact.1 == seq![id, ValueView::String(rule.source)],
        CatalogPredicate::ActiveRule => fact.1 == seq![id, ValueView::Bool(rule.active)],
        _ => false,
    }
}

proof fn lemma_rule(rule: DefinitionView, fact: (CatalogPredicate, Row))
    ensures
        rule_facts(rule).contains(fact) <==> tells_of_rule(rule, fact),
{
    let all = rule_facts(rule);
    assert(all.contains(fact) <==> fact == all[0] || fact == all[1] || fact == all[2] || fact
        == all[3]);
}

proof fn lemma_said(
    catalog: CatalogView,
    kinds: Map<(u64, int), Seq<char>>,
    fact: (CatalogPredicate, Row),
)
    requires
        forall|i: int|
            0 <= i < catalog.relations.len() ==> of_telling_size(#[trigger] catalog.relations[i]),
    ensures
        catalog_said(catalog, kinds).contains(fact) <==> {
            ||| exists|i: int|
                0 <= i < catalog.relations.len() && tells_of_relation(
                    #[trigger] catalog.relations[i],
                    kinds,
                    fact,
                )
            ||| exists|i: int|
                0 <= i < catalog.rules.len() && tells_of_rule(#[trigger] catalog.rules[i], fact)
        },
{
    lemma_in_sum(
        all_relation_facts(catalog.relations, kinds),
        all_rule_facts(catalog.rules),
        fact,
    );
    lemma_all_relations(catalog.relations, kinds, fact);
    lemma_all_rules(catalog.rules, fact);
    assert forall|i: int| 0 <= i < catalog.relations.len() implies relation_facts(
        #[trigger] catalog.relations[i],
        kinds,
    ).contains(fact) == tells_of_relation(catalog.relations[i], kinds, fact) by {
        lemma_relation(catalog.relations[i], kinds, fact);
    }
    assert forall|i: int| 0 <= i < catalog.rules.len() implies rule_facts(
        #[trigger] catalog.rules[i],
    ).contains(fact) == tells_of_rule(catalog.rules[i], fact) by {
        lemma_rule(catalog.rules[i], fact);
    }
}

proof fn lemma_names()
    ensures
        predicate_named("Relation"@) == Some(CatalogPredicate::Relation),
        predicate_named("RelationName"@) == Some(CatalogPredicate::RelationName),
        predicate_named("Arity"@) == Some(CatalogPredicate::Arity),
        predicate_named("RelationDurability"@) == Some(CatalogPredicate::RelationDurability),
        predicate_named("Rule"@) == Some(CatalogPredicate::Rule),
        predicate_named("RuleHead"@) == Some(CatalogPredicate::RuleHead),
        predicate_named("RuleSource"@) == Some(CatalogPredicate::RuleSource),
        predicate_named("ActiveRule"@) == Some(CatalogPredicate::ActiveRule),
        predicate_named("ArgumentName"@) == Some(CatalogPredicate::ArgumentName),
        predicate_named("ConflictPolicy"@) == Some(CatalogPredicate::ConflictPolicy),
        predicate_named("FunctionalKey"@) == Some(CatalogPredicate::FunctionalKey),
        predicate_named("Index"@) == Some(CatalogPredicate::Index),
        predicate_named("IndexPosition"@) == Some(CatalogPredicate::IndexPosition),
        predicate_named("IndexStorageKind"@) == Some(CatalogPredicate::IndexStorageKind),
        predicate_named("SubjectFact"@) is None,
        predicate_named("MentionedFact"@) is None,
        predicate_named("ExtensionalMentionedFact"@) is None,
        "SubjectFact"@ != "MentionedFact"@,
        "SubjectFact"@ != "ExtensionalMentionedFact"@,
{
    reveal_strlit("Relation");
    reveal_strlit("RelationName");
    reveal_strlit("Arity");
    reveal_strlit("RelationDurability");
    reveal_strlit("Rule");
    reveal_strlit("RuleHead");
    reveal_strlit("RuleSource");
    reveal_strlit("ActiveRule");
    reveal_strlit("ArgumentName");
    reveal_strlit("ConflictPolicy");
    reveal_strlit("FunctionalKey");
    reveal_strlit("Index");
    reveal_strlit("IndexPosition");
    reveal_strlit("IndexStorageKind");
    reveal_strlit("SubjectFact");
    reveal_strlit("MentionedFact");
    reveal_strlit("ExtensionalMentionedFact");
    assert("Relation"@.len() == 8);
    assert("RelationName"@.len() == 12);
    assert("Arity"@.len() == 5);
    assert("RelationDurability"@.len() == 18);
    assert("Rule"@.len() == 4);
    assert("RuleHead"@.len() == 8);
    assert("RuleSource"@.len() == 10);
    assert("ActiveRule"@.len() == 10);
    assert("ArgumentName"@.len() == 12);
    assert("ConflictPolicy"@.len() == 14);
    assert("FunctionalKey"@.len() == 13);
    assert("Index"@.len() == 5);
    assert("IndexPosition"@.len() == 13);
    assert("IndexStorageKind"@.len() == 16);
    assert("SubjectFact"@.len() == 11);
    assert("MentionedFact"@.len() == 13);
    assert("ExtensionalMentionedFact"@.len() == 24);
    assert("Relation"@[1] != "RuleHead"@[1]);
    assert("RelationName"@[0] != "ArgumentName"@[0]);
    assert("Arity"@[0] != "Index"@[0]);
    assert("RuleSource"@[0] != "ActiveRule"@[0]);
    assert("FunctionalKey"@[0] != "IndexPosition"@[0]);
    assert("FunctionalKey"@[0] != "MentionedFact"@[0]);
    assert("IndexPosition"@[0] != "MentionedFact"@[0]);
}

/// A catalog predicate has a name of its own, under which the relation that shows it is found.
pub proof fn law_predicates_are_found_by_their_names(predicate: CatalogPredicate)
    ensures
        predicate_named(predicate.name()) == Some(predicate),
{
    lemma_names();
}

/// What the relations show that reflect rules: a row for each rule, with its head, its source, and
/// true or false as it is active or disabled, and no other row.
pub proof fn law_rules_are_shown_as_they_are(
    catalog: CatalogView,
    kinds: Map<(u64, int), Seq<char>>,
    stored: Set<(u64, Row)>,
    metadata: MetadataView,
    bound: Seq<Option<ValueView>>,
    row: Row,
)
    requires
        forall|i: int|
            0 <= i < catalog.relations.len() ==> of_telling_size(#[trigger] catalog.relations[i]),
        bound.len() == metadata.arity,
    ensures
        ({
            let scan = system_scanned(catalog, kinds, stored, metadata, bound);
            &&& metadata.name == "Rule"@ && metadata.arity == 1 ==> scan is Ok && (finds_row(
                scan,
                row,
            ) <==> has_bound(row, bound) && exists|i: int|
                0 <= i < catalog.rules.len() && row == seq![
                    ValueView::Identity((#[trigger] catalog.rules[i]).id),
                ])
            &&& metadata.name == "RuleHead"@ && metadata.arity == 2 ==> scan is Ok && (finds_row(
                scan,
                row,
            ) <==> has_bound(row, bound) && exists|i: int|
                0 <= i < catalog.rules.len() && row == seq![
                    ValueView::Identity((#[trigger] catalog.rules[i]).id),
                    ValueView::Identity(catalog.rules[i].rule.head_relation),
                ])
            &&& metadata.name == "RuleSource"@ && metadata.arity == 2 ==> scan is Ok && (finds_row(
                scan,
                row,
            ) <==> has_bound(row, bound) && exists|i: int|
                0 <= i < catalog.rules.len() && row == seq![
                    ValueView::Identity((#[trigger] catalog.rules[i]).id),
                    ValueView::String(catalog.rules[i].source),
                ])
            &&& metadata.name == "ActiveRule"@ && metadata.arity == 2 ==> scan is Ok && (finds_row(
                scan,
                row,
            ) <==> has_bound(row, bound) && exists|i: int|
                0 <= i < catalog.rules.len() && row == seq![
                    ValueView::Identity((#[trigger] catalog.rules[i]).id),
                    ValueView::Bool(catalog.rules[i].active),
                ])
        }),
{
    lemma_names();
    if let Some(predicate) = predicate_named(metadata.name) {
        lemma_said(catalog, kinds, (predicate, row));
        assert(row_matches(row, bound) == has_bound(row, bound));
    }
}

/// What the relations show that reflect relations: of each relation its name, how many columns it
/// has, whether it is durable, the names of its columns, when writes get in each other's way, and
/// its key and indexes place by place, and no other row.
pub proof fn law_relations_are_shown_as_they_are(
    catalog: CatalogView,
    kinds: Map<(u64, int), Seq<char>>,
    stored: Set<(u64, Row)>,
    metadata: MetadataView,
    bound: Seq<Option<ValueView>>,
    row: Row,
)
    requires
        forall|i: int|
            0 <= i < catalog.relations.len() ==> of_telling_size(#[trigger] catalog.relations[i]),
        bound.len() == metadata.arity,
    ensures
        ({
            let scan = system_scanned(catalog, kinds, stored, metadata, bound);
            let all = catalog.relations;
            &&& metadata.name == "Relation"@ && metadata.arity == 1 ==> scan is Ok && (finds_row(
                scan,
                row,
            ) <==> has_bound(row, bound) && exists|i: int|
                0 <= i < all.len() && row == seq![ValueView::Identity((#[trigger] all[i]).id)])
            &&& metadata.name == "RelationName"@ && metadata.arity == 2 ==> scan is Ok && (
            finds_row(scan, row) <==> has_bound(row, bound) && exists|i: int|
                0 <= i < all.len() && row == seq![
                    ValueView::Identity((#[trigger] all[i]).id),
                    ValueView::Symbol(all[i].name),
                ])
            &&& metadata.name == "Arity"@ && metadata.arity == 2 ==> scan is Ok && (finds_row(
                scan,
                row,
            ) <==> has_bound(row, bound) && exists|i: int|
                0 <= i < all.len() && row == seq![
                    ValueView::Identity((#[trigger] all[i]).id),
                    ValueView::Int(all[i].arity as i64),
                ])
            &&& metadata.name == "RelationDurability"@ && metadata.arity == 2 ==> scan is Ok && (
            finds_row(scan, row) <==> has_bound(row, bound) && exists|i: int|
                0 <= i < all.len() && row == seq![
                    ValueView::Identity((#[trigger] all[i]).id),
                    ValueView::Symbol(
                        if all[i].durability is Durable {
                            "durable"@
                        } else {
                            "volatile"@
                        },
                    ),
                ])
            &&& metadata.name == "ArgumentName"@ && metadata.arity == 3 ==> scan is Ok && (
            finds_row(scan, row) <==> has_bound(row, bound) && exists|i: int, n: int|
                #![trigger all[i].argument_names[n]]
                0 <= i < all.len() && 0 <= n < all[i].arity && all[i].argument_names[n] is Some
                    && row == seq![
                    ValueView::Identity(all[i].id),
                    ValueView::Int(n as i64),
                    ValueView::Symbol(all[i].argument_names[n]->0),
                ])
            &&& metadata.name == "ConflictPolicy"@ && metadata.arity == 2 ==> scan is Ok && (
            finds_row(scan, row) <==> has_bound(row, bound) && exists|i: int|
                0 <= i < all.len() && tells_of_policy(
                    #[trigger] all[i],
                    (CatalogPredicate::ConflictPolicy, row),
                ))
            &&& metadata.name == "FunctionalKey"@ && metadata.arity == 3 ==> scan is Ok && (
            finds_row(scan, row) <==> has_bound(row, bound) && exists|i: int|
                0 <= i < all.len() && tells_of_policy(
                    #[trigger] all[i],
                    (CatalogPredicate::FunctionalKey, row),
                ))
            &&& metadata.name == "Index"@ && metadata.arity == 2 ==> scan is Ok && (finds_row(
                scan,
                row,
            ) <==> has_bound(row, bound) && exists|i: int, k: int|
                0 <= i < all.len() && 0 <= k < all[i].indexes.len() && #[trigger] tells_of_index(
                    all[i],
                    k,
                    kinds,
                    (CatalogPredicate::Index, row),
                ))
            &&& metadata.name == "IndexStorageKind"@ && metadata.arity == 2 ==> scan is Ok && (
            finds_row(scan, row) <==> has_bound(row, bound) && exists|i: int, k: int|
                0 <= i < all.len() && 0 <= k < all[i].indexes.len() && #[trigger] tells_of_index(
                    all[i],
                    k,
                    kinds,
                    (CatalogPredicate::IndexStorageKind, row),
                ))
            &&& metadata.name == "IndexPosition"@ && metadata.arity == 3 ==> scan is Ok && (
            finds_row(scan, row) <==> has_bound(row, bound) && exists|i: int, k: int|
                0 <= i < all.len() && 0 <= k < all[i].indexes.len() && #[trigger] tells_of_index(
                    all[i],
                    k,
                    kinds,
                    (CatalogPredicate::IndexPosition, row),
                ))
        }),
{
    lemma_names();
    let all = catalog.relations;
    if let Some(predicate) = predicate_named(metadata.name) {
        let fact = (predicate, row);
        lemma_said(catalog, kinds, fact);
        assert(row_matches(row, bound) == has_bound(row, bound));
        if predicate is ArgumentName && exists|i: int, n: int|
            #![trigger all[i].argument_names[n]]
            0 <= i < all.len() && 0 <= n < all[i].arity && all[i].argument_names[n] is Some && row
                == column_row(all[i], n, all[i].argument_names[n]->0) {
            let (i, n) = choose|i: int, n: int|
                #![trigger all[i].argument_names[n]]
                0 <= i < all.len() && 0 <= n < all[i].arity && all[i].argument_names[n] is Some
                    && row == column_row(all[i], n, all[i].argument_names[n]->0);
            assert(tells_of_relation(all[i], kinds, fact));
        }
        if exists|i: int, k: int|
            0 <= i < all.len() && 0 <= k < all[i].indexes.len() && #[trigger] tells_of_index(
                all[i],
                k,
                kinds,
                fact,
            ) {
            let (i, k) = choose|i: int, k: int|
                0 <= i < all.len() && 0 <= k < all[i].indexes.len() && #[trigger] tells_of_index(
                    all[i],
                    k,
                    kinds,
                    fact,
                );
            assert(tells_of_relation(all[i], kinds, fact));
        }
    }
}

/// What the relations show that reflect stored rows: under the first value of a row the relation and
/// the row; under every value of a row the relation, the place of the value and the row; and nothing
/// else.
pub proof fn law_stored_rows_are_shown_by_their_values(
    catalog: CatalogView,
    kinds: Map<(u64, int), Seq<char>>,
    stored: Set<(u64, Row)>,
    metadata: MetadataView,
    bound: Seq<Option<ValueView>>,
    fact: (u64, Row),
    place: int,
    row: Row,
)
    requires
        bound.len() == metadata.arity,
        stored.contains(fact),
        0 <= place < fact.1.len() <= u16::MAX,
    ensures
        ({
            let scan = system_scanned(catalog, kinds, stored, metadata, bound);
            let subject = seq![fact.1[0], ValueView::Identity(fact.0), ValueView::List(fact.1)];
            let mention = seq![
                fact.1[place],
                ValueView::Identity(fact.0),
                ValueView::Int(place as i64),
                ValueView::List(fact.1),
            ];
            &&& metadata.name == "SubjectFact"@ && metadata.arity == 3 ==> {
                &&& scan is Ok
                &&& finds_row(scan, subject) <==> has_bound(subject, bound)
                &&& finds_row(scan, row) ==> row.len() == 3 && row[1] is Identity && row[2] is List
                    && stored.contains((row[1]->Identity_0, row[2]->List_0)) && row[2]->List_0.len()
                    > 0 && row[0] == row[2]->List_0[0]
            }
            &&& (metadata.name == "MentionedFact"@ || metadata.name
                == "ExtensionalMentionedFact"@) && metadata.arity == 4 ==> {
                &&& scan is Ok
                &&& finds_row(scan, mention) <==> has_bound(mention, bound)
                &&& finds_row(scan, row) ==> row.len() == 4 && row[1] is Identity && row[3] is List
                    && stored.contains((row[1]->Identity_0, row[3]->List_0))
                    && row[3]->List_0.contains(row[0])
            }
        }),
{
    lemma_names();
    assert(subject_row(fact) == seq![
        fact.1[0],
        ValueView::Identity(fact.0),
        ValueView::List(fact.1),
    ]);
    assert(((place as usize) as u16) as i64 == place as i64);
    assert(mentioned_row(fact, place) == seq![
        fact.1[place],
        ValueView::Identity(fact.0),
        ValueView::Int(place as i64),
        ValueView::List(fact.1),
    ]);
    let scan = system_scanned(catalog, kinds, stored, metadata, bound);
    assert(forall|other: Row| row_matches(other, bound) == #[trigger] has_bound(other, bound));
    if (metadata.name == "MentionedFact"@ || metadata.name == "ExtensionalMentionedFact"@)
        && metadata.arity == 4 && finds_row(scan, row) {
        let (from, at) = choose|from: (u64, Row), at: int| #[trigger]
            stored.contains(from) && 0 <= at < from.1.len() && row == #[trigger] mentioned_row(
                from,
                at,
            );
        assert(from.1[at] == row[0]);
    }
}

/// A rule that is installed is one more rule, active, with the text that it was given, under an
/// identity that no rule had; the others stay as they are.
pub proof fn law_an_installed_rule_is_active(
    current: SnapshotView,
    rule: RuleView,
    source: Seq<char>,
    next: SnapshotView,
)
    requires
        installing(current, rule, source) == Ok::<SnapshotView, FaultView>(next),
        current.rules.len() <= crate::value::IDENTITY_MAX,
    ensures
        next.rules.len() == current.rules.len() + 1,
        forall|i: int| 0 <= i < current.rules.len() ==> #[trigger] next.rules[i] == current.rules[i],
        next.rules.last().active,
        next.rules.last().rule == rule,
        next.rules.last().source == source,
        forall|i: int|
            0 <= i < current.rules.len() ==> (#[trigger] current.rules[i]).id
                != next.rules.last().id,
        next.relations == current.relations,
        next.version == (current.version + 1) as u64,
{
    let id = crate::kernel::ruling::lemma_free_rule_id(current.rules);
    let chosen = new_definition(current.rules, rule, source).id;
    assert(crate::kernel::ruling::first_free_rule_id(current.rules, chosen));
}

/// Disabling a rule disables the first rule with the identity and changes nothing else of any rule;
/// there is nothing to disable just where no rule has it.
pub proof fn law_a_disabled_rule_is_not_active(
    current: SnapshotView,
    id: u64,
)
    ensures
        match retiring(current, id) {
            Ok(next) => {
                &&& next.rules.len() == current.rules.len()
                &&& next.relations == current.relations
                &&& next.version == (current.version + 1) as u64
                &&& exists|k: int|
                    {
                        &&& 0 <= k < current.rules.len()
                        &&& (#[trigger] current.rules[k]).id == id
                        &&& !next.rules[k].active
                        &&& next.rules[k].id == id
                        &&& next.rules[k].rule == current.rules[k].rule
                        &&& next.rules[k].source == current.rules[k].source
                        &&& forall|i: int|
                            0 <= i < k ==> (#[trigger] current.rules[i]).id != id
                        &&& forall|i: int|
                            0 <= i < current.rules.len() && i != k ==> #[trigger] next.rules[i]
                                == current.rules[i]
                    }
            },
            Err(fault) => {
                ||| fault == FaultView::UnknownRule(id) && forall|i: int|
                    0 <= i < current.rules.len() ==> (#[trigger] current.rules[i]).id != id
                ||| fault is Rule && exists|i: int|
                    0 <= i < current.rules.len() && (#[trigger] current.rules[i]).id == id
            },
        },
{
    lemma_rule_place(current.rules, id);
    if let Some(k) = rule_place(current.rules, id) {
        assert(current.rules[k].id == id);
    }
}

proof fn lemma_rule_place(rules: Seq<DefinitionView>, id: u64)
    ensures
        match rule_place(rules, id) {
            Some(k) => 0 <= k < rules.len() && rules[k].id == id && forall|i: int|
                0 <= i < k ==> (#[trigger] rules[i]).id != id,
            None => forall|i: int| 0 <= i < rules.len() ==> (#[trigger] rules[i]).id != id,
        },
    decreases rules.len(),
{
    if rules.len() > 0 {
        let less = rules.drop_last();
        lemma_rule_place(less, id);
        assert forall|i: int| 0 <= i < less.len() implies #[trigger] rules[i] == less[i] by {}
    }
}

/// Which relations reflect the stored rows is told by their names.
pub proof fn law_which_relations_reflect_rows(metadata: MetadataView)
    ensures
        metadata.name == "SubjectFact"@ ==> reflects_rows(metadata),
        metadata.name == "MentionedFact"@ ==> reflects_rows(metadata),
        metadata.name == "ExtensionalMentionedFact"@ ==> reflects_rows(metadata),
        reflects_rows(metadata) ==> metadata.name == "SubjectFact"@ || metadata.name
            == "MentionedFact"@ || metadata.name == "ExtensionalMentionedFact"@,
{
}

} // verus!
