//! Relations that reflect the relations, rules and rows that there are.

use crate::kernel::algebra::{finish_tuple_rows, lemma_increasing_distinct, lists, matching, of_arity,
    Row};
use crate::kernel::computed::{missing_positions, ComputedRelation, RegistryView};
use crate::kernel::error::{FaultView, KernelError};
use crate::kernel::metadata::{ConflictPolicy, MetadataView, PolicyView, RelationId, RelationMetadata};
use crate::kernel::read::{answers, fact_views, metadata_views, settled_on, CatalogView,
    ComputedRelationRead, RelationRead, ShownView};
use crate::kernel::rules::{definition_views, derives, DefinitionView, RuleDefinition};
use crate::kernel::snapshot::completes;
use crate::kernel::transaction::Transaction;
use crate::tuple::{row_matches, rows, Tuple};
use crate::value::{copy_value, copy_values, option_views, views, Identity, Symbol, Value, ValueView,
    IDENTITY_MAX};
use vstd::prelude::*;

verus! {

/// What a catalog fact says.
#[derive(Clone, Copy, Debug, PartialEq, Eq, Structural)]
pub enum CatalogPredicate {
    Relation,
    RelationName,
    Arity,
    RelationDurability,
    Rule,
    RuleHead,
    RuleSource,
    ActiveRule,
    ArgumentName,
    ConflictPolicy,
    FunctionalKey,
    Index,
    IndexPosition,
    IndexStorageKind,
}

impl CatalogPredicate {
    /// The name of the relation that holds such facts.
    pub open spec fn name(self) -> Seq<char> {
        match self {
            CatalogPredicate::Relation => "Relation"@,
            CatalogPredicate::RelationName => "RelationName"@,
            CatalogPredicate::Arity => "Arity"@,
            CatalogPredicate::RelationDurability => "RelationDurability"@,
            CatalogPredicate::Rule => "Rule"@,
            CatalogPredicate::RuleHead => "RuleHead"@,
            CatalogPredicate::RuleSource => "RuleSource"@,
            CatalogPredicate::ActiveRule => "ActiveRule"@,
            CatalogPredicate::ArgumentName => "ArgumentName"@,
            CatalogPredicate::ConflictPolicy => "ConflictPolicy"@,
            CatalogPredicate::FunctionalKey => "FunctionalKey"@,
            CatalogPredicate::Index => "Index"@,
            CatalogPredicate::IndexPosition => "IndexPosition"@,
            CatalogPredicate::IndexStorageKind => "IndexStorageKind"@,
        }
    }

    /// How many values such a fact has.
    pub open spec fn width(self) -> u16 {
        match self {
            CatalogPredicate::Relation | CatalogPredicate::Rule => 1,
            CatalogPredicate::ArgumentName | CatalogPredicate::FunctionalKey
            | CatalogPredicate::IndexPosition => 3,
            _ => 2,
        }
    }

    /// The name of the relation that holds such facts, as a symbol.
    pub fn symbol(self) -> (symbol: Symbol)
        ensures
            symbol@ == self.name(),
    {
        Symbol::intern(self.text())
    }

    fn text(self) -> (text: &'static str)
        ensures
            text@ == self.name(),
    {
        match self {
            CatalogPredicate::Relation => "Relation",
            CatalogPredicate::RelationName => "RelationName",
            CatalogPredicate::Arity => "Arity",
            CatalogPredicate::RelationDurability => "RelationDurability",
            CatalogPredicate::Rule => "Rule",
            CatalogPredicate::RuleHead => "RuleHead",
            CatalogPredicate::RuleSource => "RuleSource",
            CatalogPredicate::ActiveRule => "ActiveRule",
            CatalogPredicate::ArgumentName => "ArgumentName",
            CatalogPredicate::ConflictPolicy => "ConflictPolicy",
            CatalogPredicate::FunctionalKey => "FunctionalKey",
            CatalogPredicate::Index => "Index",
            CatalogPredicate::IndexPosition => "IndexPosition",
            CatalogPredicate::IndexStorageKind => "IndexStorageKind",
        }
    }
}

/// A fact about the relations and rules that there are.
#[derive(Debug, PartialEq)]
pub struct CatalogFact {
    pub predicate: CatalogPredicate,
    pub tuple: Tuple,
}

/// What facts say, and their values.
pub open spec fn said(facts: Seq<CatalogFact>) -> Seq<(CatalogPredicate, Row)> {
    facts.map_values(|fact: CatalogFact| (fact.predicate, fact.tuple@))
}

/// The identity of an index of a relation.
pub open spec fn index_id(relation: u64, ordinal: u16) -> u64 {
    ((relation * 65_537 + ordinal) % (IDENTITY_MAX + 1)) as u64
}

/// The names of the first `n` columns.
pub open spec fn argument_facts(metadata: MetadataView, n: nat) -> Seq<(CatalogPredicate, Row)>
    decreases n,
{
    if n == 0 {
        Seq::empty()
    } else {
        let before = argument_facts(metadata, (n - 1) as nat);
        match metadata.argument_names[n - 1] {
            Some(name) => before.push(
                (
                    CatalogPredicate::ArgumentName,
                    seq![
                        ValueView::Identity(metadata.id),
                        ValueView::Int((n - 1) as i64),
                        ValueView::Symbol(name),
                    ],
                ),
            ),
            None => before,
        }
    }
}

/// A place and the position that stands there.
pub open spec fn slot_row(subject: u64, slot: int, position: u16) -> Row {
    seq![
        ValueView::Identity(subject),
        ValueView::Int((slot as usize) as i64),
        ValueView::Int(position as i64),
    ]
}

/// The first `n` of some positions.
pub open spec fn slot_facts(
    predicate: CatalogPredicate,
    subject: u64,
    positions: Seq<u16>,
    n: nat,
) -> Seq<(CatalogPredicate, Row)> {
    Seq::new(n, |i: int| (predicate, slot_row(subject, i, positions[i])))
}

/// When writes to a relation get in each other's way.
pub open spec fn policy_facts(metadata: MetadataView) -> Seq<(CatalogPredicate, Row)> {
    let policy = |name: Seq<char>|
        (
            CatalogPredicate::ConflictPolicy,
            seq![ValueView::Identity(metadata.id), ValueView::Symbol(name)],
        );
    match metadata.conflict_policy {
        PolicyView::SetOfRows => seq![policy("set"@)],
        PolicyView::EventAppend => seq![policy("event_append"@)],
        PolicyView::Functional(key) => seq![policy("functional"@)] + slot_facts(
            CatalogPredicate::FunctionalKey,
            metadata.id,
            key,
            key.len(),
        ),
    }
}

/// An index of a relation.
pub open spec fn index_facts(
    metadata: MetadataView,
    ordinal: int,
    kind: Option<Seq<char>>,
) -> Seq<(CatalogPredicate, Row)> {
    let id = index_id(metadata.id, (ordinal as usize) as u16);
    let positions = metadata.indexes[ordinal];
    let first = (
        CatalogPredicate::Index,
        seq![ValueView::Identity(metadata.id), ValueView::Identity(id)],
    );
    let head = match kind {
        Some(name) => seq![
            first,
            (
                CatalogPredicate::IndexStorageKind,
                seq![ValueView::Identity(id), ValueView::Symbol(name)],
            ),
        ],
        None => seq![first],
    };
    head + slot_facts(CatalogPredicate::IndexPosition, id, positions, positions.len())
}

/// The first `n` indexes of a relation.
pub open spec fn all_index_facts(
    metadata: MetadataView,
    n: nat,
    kinds: Map<(u64, int), Seq<char>>,
) -> Seq<(CatalogPredicate, Row)>
    decreases n,
{
    if n == 0 {
        Seq::empty()
    } else {
        all_index_facts(metadata, (n - 1) as nat, kinds) + index_facts(
            metadata,
            n - 1,
            if kinds.contains_key((metadata.id, n - 1)) {
                Some(kinds[(metadata.id, n - 1)])
            } else {
                None
            },
        )
    }
}

/// What there is to say of a relation.
pub open spec fn relation_facts(
    metadata: MetadataView,
    kinds: Map<(u64, int), Seq<char>>,
) -> Seq<(CatalogPredicate, Row)> {
    let id = ValueView::Identity(metadata.id);
    seq![
        (CatalogPredicate::Relation, seq![id]),
        (CatalogPredicate::RelationName, seq![id, ValueView::Symbol(metadata.name)]),
        (CatalogPredicate::Arity, seq![id, ValueView::Int(metadata.arity as i64)]),
        (
            CatalogPredicate::RelationDurability,
            seq![id, ValueView::Symbol(metadata.durability.name())],
        ),
    ] + argument_facts(metadata, metadata.arity as nat) + policy_facts(metadata) + all_index_facts(
        metadata,
        metadata.indexes.len(),
        kinds,
    )
}

/// What there is to say of a rule.
pub open spec fn rule_facts(rule: DefinitionView) -> Seq<(CatalogPredicate, Row)> {
    let id = ValueView::Identity(rule.id);
    seq![
        (CatalogPredicate::Rule, seq![id]),
        (CatalogPredicate::RuleHead, seq![id, ValueView::Identity(rule.rule.head_relation)]),
        (CatalogPredicate::RuleSource, seq![id, ValueView::String(rule.source)]),
        (CatalogPredicate::ActiveRule, seq![id, ValueView::Bool(rule.active)]),
    ]
}

/// What there is to say of relations, one after the other.
pub open spec fn all_relation_facts(
    relations: Seq<MetadataView>,
    kinds: Map<(u64, int), Seq<char>>,
) -> Seq<(CatalogPredicate, Row)>
    decreases relations.len(),
{
    if relations.len() == 0 {
        Seq::empty()
    } else {
        all_relation_facts(relations.drop_last(), kinds) + relation_facts(relations.last(), kinds)
    }
}

/// What there is to say of rules, one after the other.
pub open spec fn all_rule_facts(rules: Seq<DefinitionView>) -> Seq<(CatalogPredicate, Row)>
    decreases rules.len(),
{
    if rules.len() == 0 {
        Seq::empty()
    } else {
        all_rule_facts(rules.drop_last()) + rule_facts(rules.last())
    }
}

/// What there is to say of the relations and rules.
pub open spec fn catalog_said(
    catalog: CatalogView,
    kinds: Map<(u64, int), Seq<char>>,
) -> Seq<(CatalogPredicate, Row)> {
    all_relation_facts(catalog.relations, kinds) + all_rule_facts(catalog.rules)
}

fn say(facts: &mut Vec<CatalogFact>, predicate: CatalogPredicate, values: Vec<Value>)
    ensures
        said(final(facts)@) == said(old(facts)@).push((predicate, views(values@))),
{
    facts.push(CatalogFact { predicate, tuple: Tuple::new(values) });
    assert(said(facts@) =~= said(old(facts)@).push((predicate, views(values@))));
}

fn one(a: Value) -> (values: Vec<Value>)
    ensures
        views(values@) == seq![a@],
{
    let mut values: Vec<Value> = Vec::new();
    values.push(a);
    assert(views(values@) =~= seq![a@]);
    values
}

fn two(a: Value, b: Value) -> (values: Vec<Value>)
    ensures
        views(values@) == seq![a@, b@],
{
    let mut values: Vec<Value> = Vec::new();
    values.push(a);
    values.push(b);
    assert(views(values@) =~= seq![a@, b@]);
    values
}

fn three(a: Value, b: Value, c: Value) -> (values: Vec<Value>)
    ensures
        views(values@) == seq![a@, b@, c@],
{
    let mut values: Vec<Value> = Vec::new();
    values.push(a);
    values.push(b);
    values.push(c);
    assert(views(values@) =~= seq![a@, b@, c@]);
    values
}

fn index_identity(relation: Identity, ordinal: u16) -> (id: Identity)
    ensures
        id@ == index_id(relation@, ordinal),
{
    let raw: u64 = relation.raw().wrapping_mul(65_537).wrapping_add(ordinal as u64) & IDENTITY_MAX;
    proof {
        let whole = relation@ * 65_537;
        let low = relation@.wrapping_mul(65_537);
        let sum = low.wrapping_add(ordinal as u64);
        assert(sum & 0x00ff_ffff_ffff_ffff == sum % 0x0100_0000_0000_0000) by (bit_vector);
        assert(low as int == whole % 0x1_0000_0000_0000_0000);
        assert(sum as int == (low + ordinal) % 0x1_0000_0000_0000_0000);
        assert(sum as int % 0x0100_0000_0000_0000 == (whole + ordinal) % 0x0100_0000_0000_0000);
    }
    match Identity::new(raw) {
        Some(id) => id,
        None => relation,
    }
}

fn say_slots(
    facts: &mut Vec<CatalogFact>,
    predicate: CatalogPredicate,
    subject: Identity,
    positions: &[u16],
)
    ensures
        said(final(facts)@) == said(old(facts)@) + slot_facts(
            predicate,
            subject@,
            positions@,
            positions@.len(),
        ),
{
    let ghost before = said(facts@);
    let mut slot: usize = 0;
    assert(before =~= before + slot_facts(predicate, subject@, positions@, 0));
    while slot < positions.len()
        invariant
            slot <= positions@.len(),
            said(facts@) == before + slot_facts(predicate, subject@, positions@, slot as nat),
        decreases positions@.len() - slot,
    {
        say(
            facts,
            predicate,
            three(
                Value::identity(subject),
                Value::Int(slot as i64),
                Value::Int(positions[slot] as i64),
            ),
        );
        slot = slot + 1;
        assert(said(facts@) =~= before + slot_facts(predicate, subject@, positions@, slot as nat));
    }
}

fn push_conflict_policy_facts(facts: &mut Vec<CatalogFact>, metadata: &RelationMetadata)
    ensures
        said(final(facts)@) == said(old(facts)@) + policy_facts(metadata@),
{
    let ghost before = said(facts@);
    let id = metadata.id();
    match metadata.conflict_policy() {
        ConflictPolicy::SetOfRows => {
            say(
                facts,
                CatalogPredicate::ConflictPolicy,
                two(Value::identity(id), Value::named("set")),
            );
        },
        ConflictPolicy::EventAppend => {
            say(
                facts,
                CatalogPredicate::ConflictPolicy,
                two(Value::identity(id), Value::named("event_append")),
            );
        },
        ConflictPolicy::Functional { key_positions } => {
            say(
                facts,
                CatalogPredicate::ConflictPolicy,
                two(Value::identity(id), Value::named("functional")),
            );
            say_slots(facts, CatalogPredicate::FunctionalKey, id, key_positions);
        },
    }
    assert(said(facts@) =~= before + policy_facts(metadata@));
}

fn say_arguments(facts: &mut Vec<CatalogFact>, metadata: &RelationMetadata)
    ensures
        said(final(facts)@) == said(old(facts)@) + argument_facts(
            metadata@,
            metadata@.arity as nat,
        ),
{
    let ghost before = said(facts@);
    let id = metadata.id();
    let arity: u16 = metadata.arity();
    let mut position: u16 = 0;
    assert(before =~= before + argument_facts(metadata@, 0));
    while position < arity
        invariant
            position <= arity == metadata@.arity,
            metadata@.argument_names.len() == arity,
            id@ == metadata@.id,
            said(facts@) == before + argument_facts(metadata@, position as nat),
        decreases arity - position,
    {
        match metadata.argument_name(position) {
            Some(name) => {
                say(
                    facts,
                    CatalogPredicate::ArgumentName,
                    three(
                        Value::identity(id),
                        Value::Int(position as i64),
                        Value::symbol(name.clone()),
                    ),
                );
            },
            None => {},
        }
        position = position + 1;
        assert(said(facts@) =~= before + argument_facts(metadata@, position as nat));
    }
}

fn say_index(
    facts: &mut Vec<CatalogFact>,
    metadata: &RelationMetadata,
    ordinal: usize,
    kind: Option<Symbol>,
)
    requires
        ordinal < metadata@.indexes.len(),
    ensures
        said(final(facts)@) == said(old(facts)@) + index_facts(
            metadata@,
            ordinal as int,
            match kind {
                Some(name) => Some(name@),
                None => None,
            },
        ),
{
    let ghost before = said(facts@);
    let id = index_identity(metadata.id(), ordinal as u16);
    say(
        facts,
        CatalogPredicate::Index,
        two(Value::identity(metadata.id()), Value::identity(id)),
    );
    match kind {
        Some(name) => {
            say(
                facts,
                CatalogPredicate::IndexStorageKind,
                two(Value::identity(id), Value::symbol(name)),
            );
        },
        None => {},
    }
    let indexes = metadata.indexes();
    say_slots(facts, CatalogPredicate::IndexPosition, id, indexes[ordinal].positions());
    assert(said(facts@) =~= before + index_facts(
        metadata@,
        ordinal as int,
        match kind {
            Some(name) => Some(name@),
            None => None,
        },
    ));
}

fn say_relation<R: ComputedRelationRead + ?Sized>(
    facts: &mut Vec<CatalogFact>,
    reader: &R,
    metadata: &RelationMetadata,
)
    ensures
        said(final(facts)@) == said(old(facts)@) + relation_facts(metadata@, reader.shown().kinds),
{
    let ghost before = said(facts@);
    let ghost kinds = reader.shown().kinds;
    let id = metadata.id();
    say(facts, CatalogPredicate::Relation, one(Value::identity(id)));
    say(
        facts,
        CatalogPredicate::RelationName,
        two(Value::identity(id), Value::symbol(metadata.name().clone())),
    );
    say(
        facts,
        CatalogPredicate::Arity,
        two(Value::identity(id), Value::Int(metadata.arity() as i64)),
    );
    say(
        facts,
        CatalogPredicate::RelationDurability,
        two(Value::identity(id), Value::symbol(metadata.durability().symbol())),
    );
    say_arguments(facts, metadata);
    push_conflict_policy_facts(facts, metadata);
    let ghost middle = said(facts@);
    let mut ordinal: usize = 0;
    assert(middle =~= middle + all_index_facts(metadata@, 0, kinds));
    while ordinal < metadata.indexes().len()
        invariant
            ordinal <= metadata@.indexes.len(),
            kinds == reader.shown().kinds,
            id@ == metadata@.id,
            said(facts@) == middle + all_index_facts(metadata@, ordinal as nat, kinds),
        decreases metadata@.indexes.len() - ordinal,
    {
        let kind = reader.index_storage_kind(id, ordinal);
        say_index(facts, metadata, ordinal, kind);
        ordinal = ordinal + 1;
        assert(said(facts@) =~= middle + all_index_facts(metadata@, ordinal as nat, kinds));
    }
    assert(said(facts@) =~= before + relation_facts(metadata@, kinds));
}

fn say_rule(facts: &mut Vec<CatalogFact>, rule: &RuleDefinition)
    ensures
        said(final(facts)@) == said(old(facts)@) + rule_facts(rule@),
{
    let ghost before = said(facts@);
    let id = rule.id();
    say(facts, CatalogPredicate::Rule, one(Value::identity(id)));
    say(
        facts,
        CatalogPredicate::RuleHead,
        two(Value::identity(id), Value::identity(rule.rule().head_relation)),
    );
    say(
        facts,
        CatalogPredicate::RuleSource,
        two(Value::identity(id), Value::string(rule.source())),
    );
    say(
        facts,
        CatalogPredicate::ActiveRule,
        two(Value::identity(id), Value::Bool(rule.active())),
    );
    assert(said(facts@) =~= before + rule_facts(rule@));
}

/// What there is to say of the relations and rules that a reader sees.
pub fn catalog_facts<R: ComputedRelationRead + ?Sized>(reader: &R) -> (facts: Vec<CatalogFact>)
    ensures
        said(facts@) == catalog_said(reader.shown().catalog, reader.shown().kinds),
{
    let mut facts: Vec<CatalogFact> = Vec::new();
    let ghost kinds = reader.shown().kinds;
    let relations = reader.relation_metadata_vec();
    let ghost all = metadata_views(relations@);
    let mut i: usize = 0;
    proof {
        assert(all.take(0) =~= Seq::empty());
        assert(said(facts@) =~= Seq::empty());
    }
    while i < relations.len()
        invariant
            i <= relations@.len(),
            kinds == reader.shown().kinds,
            all == metadata_views(relations@),
            said(facts@) == all_relation_facts(all.take(i as int), kinds),
        decreases relations@.len() - i,
    {
        proof {
            assert(all.take(i + 1).drop_last() =~= all.take(i as int));
            assert(all.take(i + 1).last() == relations@[i as int]@);
        }
        say_relation(&mut facts, reader, &relations[i]);
        i = i + 1;
    }
    assert(all.take(i as int) =~= all);
    let ghost before = said(facts@);
    let rules = reader.rules_vec();
    let ghost every = definition_views(rules@);
    let mut i: usize = 0;
    proof {
        assert(every.take(0) =~= Seq::empty());
        assert(before =~= before + all_rule_facts(every.take(0)));
    }
    while i < rules.len()
        invariant
            i <= rules@.len(),
            every == definition_views(rules@),
            said(facts@) == before + all_rule_facts(every.take(i as int)),
        decreases rules@.len() - i,
    {
        proof {
            assert(every.take(i + 1).drop_last() =~= every.take(i as int));
            assert(every.take(i + 1).last() == rules@[i as int]@);
        }
        let ghost now = said(facts@);
        say_rule(&mut facts, &rules[i]);
        assert(said(facts@) =~= before + (all_rule_facts(every.take(i as int)) + rule_facts(
            rules@[i as int]@,
        )));
        i = i + 1;
    }
    assert(every.take(i as int) =~= every);
    facts
}

/// What the relation with a name holds.
pub open spec fn predicate_named(name: Seq<char>) -> Option<CatalogPredicate> {
    if name == "Relation"@ {
        Some(CatalogPredicate::Relation)
    } else if name == "RelationName"@ {
        Some(CatalogPredicate::RelationName)
    } else if name == "Arity"@ {
        Some(CatalogPredicate::Arity)
    } else if name == "RelationDurability"@ {
        Some(CatalogPredicate::RelationDurability)
    } else if name == "Rule"@ {
        Some(CatalogPredicate::Rule)
    } else if name == "RuleHead"@ {
        Some(CatalogPredicate::RuleHead)
    } else if name == "RuleSource"@ {
        Some(CatalogPredicate::RuleSource)
    } else if name == "ActiveRule"@ {
        Some(CatalogPredicate::ActiveRule)
    } else if name == "ArgumentName"@ {
        Some(CatalogPredicate::ArgumentName)
    } else if name == "ConflictPolicy"@ {
        Some(CatalogPredicate::ConflictPolicy)
    } else if name == "FunctionalKey"@ {
        Some(CatalogPredicate::FunctionalKey)
    } else if name == "Index"@ {
        Some(CatalogPredicate::Index)
    } else if name == "IndexPosition"@ {
        Some(CatalogPredicate::IndexPosition)
    } else if name == "IndexStorageKind"@ {
        Some(CatalogPredicate::IndexStorageKind)
    } else {
        None
    }
}

/// What the rows of a relation reflect, where they reflect the relations or rules.
pub open spec fn reflected(metadata: MetadataView) -> Option<CatalogPredicate> {
    match predicate_named(metadata.name) {
        Some(predicate) => if metadata.arity == predicate.width() {
            Some(predicate)
        } else {
            None
        },
        None => None,
    }
}

/// Whether a relation reflects rows that are stored.
pub open spec fn reflects_rows(metadata: MetadataView) -> bool {
    metadata.name == "SubjectFact"@ || metadata.name == "MentionedFact"@ || metadata.name
        == "ExtensionalMentionedFact"@
}

fn system_catalog_predicate(metadata: &RelationMetadata) -> (found: Option<CatalogPredicate>)
    ensures
        found == reflected(metadata@),
{
    let name = metadata.name();
    let found: CatalogPredicate = if name.is_named("Relation") {
        CatalogPredicate::Relation
    } else if name.is_named("RelationName") {
        CatalogPredicate::RelationName
    } else if name.is_named("Arity") {
        CatalogPredicate::Arity
    } else if name.is_named("RelationDurability") {
        CatalogPredicate::RelationDurability
    } else if name.is_named("Rule") {
        CatalogPredicate::Rule
    } else if name.is_named("RuleHead") {
        CatalogPredicate::RuleHead
    } else if name.is_named("RuleSource") {
        CatalogPredicate::RuleSource
    } else if name.is_named("ActiveRule") {
        CatalogPredicate::ActiveRule
    } else if name.is_named("ArgumentName") {
        CatalogPredicate::ArgumentName
    } else if name.is_named("ConflictPolicy") {
        CatalogPredicate::ConflictPolicy
    } else if name.is_named("FunctionalKey") {
        CatalogPredicate::FunctionalKey
    } else if name.is_named("Index") {
        CatalogPredicate::Index
    } else if name.is_named("IndexPosition") {
        CatalogPredicate::IndexPosition
    } else if name.is_named("IndexStorageKind") {
        CatalogPredicate::IndexStorageKind
    } else {
        return None;
    };
    if metadata.arity() == width_of(found) {
        Some(found)
    } else {
        None
    }
}

fn width_of(predicate: CatalogPredicate) -> (width: u16)
    ensures
        width == predicate.width(),
{
    match predicate {
        CatalogPredicate::Relation | CatalogPredicate::Rule => 1,
        CatalogPredicate::ArgumentName | CatalogPredicate::FunctionalKey
        | CatalogPredicate::IndexPosition => 3,
        _ => 2,
    }
}

/// Whether a relation's rows reflect what there is.
pub fn is_system_relation(metadata: &RelationMetadata) -> (result: bool)
    ensures
        result == (reflected(metadata@) is Some || reflects_rows(metadata@)),
{
    let name = metadata.name();
    system_catalog_predicate(metadata).is_some() || name.is_named("SubjectFact") || name.is_named(
        "MentionedFact",
    ) || name.is_named("ExtensionalMentionedFact")
}

/// The relation whose row a row of a reflecting relation is about.
pub fn system_row_source_relation(metadata: &RelationMetadata, tuple: &Tuple) -> (source: Option<
    Identity,
>)
    ensures
        source is Some == (reflects_rows(metadata@) && tuple@.len() > 1 && tuple@[1] is Identity),
        source matches Some(relation) ==> tuple@[1] == ValueView::Identity(relation@),
{
    let name = metadata.name();
    if name.is_named("SubjectFact") || name.is_named("MentionedFact") || name.is_named(
        "ExtensionalMentionedFact",
    ) {
        let values = tuple.values();
        if values.len() > 1 {
            return values[1].as_identity();
        }
    }
    None
}

/// The rows of facts that say something.
pub open spec fn rows_saying(
    facts: Seq<(CatalogPredicate, Row)>,
    predicate: CatalogPredicate,
) -> Set<Row> {
    Set::new(|row: Row| facts.contains((predicate, row)))
}

/// A row that is about its first value: the value, the relation and the row.
pub open spec fn subject_row(fact: (u64, Row)) -> Row {
    seq![fact.1[0], ValueView::Identity(fact.0), ValueView::List(fact.1)]
}

/// The rows that are about their first values.
pub open spec fn subject_rows(facts: Set<(u64, Row)>) -> Set<Row> {
    Set::new(
        |row: Row|
            exists|fact: (u64, Row)| #[trigger]
                facts.contains(fact) && fact.1.len() > 0 && row == subject_row(fact),
    )
}

/// A row that mentions a value: the value, the relation, the place and the row.
pub open spec fn mentioned_row(fact: (u64, Row), position: int) -> Row {
    seq![
        fact.1[position],
        ValueView::Identity(fact.0),
        ValueView::Int(((position as usize) as u16) as i64),
        ValueView::List(fact.1),
    ]
}

/// The rows that mention values.
pub open spec fn mentioned_rows(facts: Set<(u64, Row)>) -> Set<Row> {
    Set::new(
        |row: Row|
            exists|fact: (u64, Row), position: int| #[trigger]
                facts.contains(fact) && 0 <= position < fact.1.len() && row == #[trigger] mentioned_row(
                    fact,
                    position,
                ),
    )
}

/// The rows of a reflecting relation, where its name and width are those of one.
pub open spec fn system_rows(
    metadata: MetadataView,
    facts: Seq<(CatalogPredicate, Row)>,
    stored: Set<(u64, Row)>,
) -> Option<Set<Row>> {
    match reflected(metadata) {
        Some(predicate) => Some(rows_saying(facts, predicate)),
        None => if metadata.name == "SubjectFact"@ && metadata.arity == 3 {
            Some(subject_rows(stored))
        } else if (metadata.name == "MentionedFact"@ || metadata.name
            == "ExtensionalMentionedFact"@) && metadata.arity == 4 {
            Some(mentioned_rows(stored))
        } else {
            None
        },
    }
}

fn rows_said(
    facts: &[CatalogFact],
    predicate: CatalogPredicate,
    bindings: &[Option<Value>],
) -> (found: Vec<Tuple>)
    ensures
        lists(
            rows(found@),
            matching(rows_saying(said(facts@), predicate), option_views(bindings@)),
        ),
{
    let ghost all = said(facts@);
    let ghost bound = option_views(bindings@);
    let mut found: Vec<Tuple> = Vec::new();
    let mut i: usize = 0;
    while i < facts.len()
        invariant
            i <= facts@.len(),
            all == said(facts@),
            bound == option_views(bindings@),
            forall|j: int|
                0 <= j < found@.len() ==> {
                    let row = (#[trigger] found@[j])@;
                    all.contains((predicate, row)) && row_matches(row, bound)
                },
            forall|j: int|
                0 <= j < i && (#[trigger] all[j]).0 == predicate && row_matches(all[j].1, bound)
                    ==> rows(found@).contains(all[j].1),
        decreases facts@.len() - i,
    {
        assert(all[i as int] == (facts@[i as int].predicate, facts@[i as int].tuple@));
        if facts[i].predicate == predicate && facts[i].tuple.matches_bindings(bindings) {
            let ghost before = rows(found@);
            let ghost row = facts@[i as int].tuple@;
            found.push(facts[i].tuple.clone());
            proof {
                assert(rows(found@) =~= before.push(row));
                assert(rows(found@)[found@.len() - 1] == row);
                assert forall|other: Row| before.contains(other) implies rows(found@).contains(
                    other,
                ) by {
                    let k = choose|k: int| 0 <= k < before.len() && before[k] == other;
                    assert(rows(found@)[k] == other);
                }
            }
        }
        i = i + 1;
    }
    let finished = finish_tuple_rows(found);
    proof {
        let expected = matching(rows_saying(all, predicate), bound);
        assert forall|row: Row| rows(found@).to_set().contains(row) == expected.contains(row) by {
            if rows(found@).contains(row) {
                let k = choose|k: int| 0 <= k < found@.len() && rows(found@)[k] == row;
                assert(found@[k]@ == row);
            }
            if expected.contains(row) {
                let k = choose|k: int| 0 <= k < all.len() && all[k] == (predicate, row);
                assert(all[k].0 == predicate);
            }
        }
        assert(rows(found@).to_set() =~= expected);
    }
    finished
}

fn subject_fact_tuple(relation: Identity, tuple: &Tuple) -> (row: Tuple)
    requires
        tuple@.len() > 0,
    ensures
        row@ == subject_row((relation@, tuple@)),
{
    let values = tuple.values();
    Tuple::new(
        three(
            copy_value(&values[0]),
            Value::identity(relation),
            Value::list(copy_values(values)),
        ),
    )
}

fn mentioned_fact_tuple(relation: Identity, position: usize, tuple: &Tuple) -> (row: Tuple)
    requires
        position < tuple@.len(),
    ensures
        row@ == mentioned_row((relation@, tuple@), position as int),
{
    let values = tuple.values();
    let mut row = three(
        copy_value(&values[position]),
        Value::identity(relation),
        Value::Int((position as u16) as i64),
    );
    let ghost head = views(row@);
    let last = Value::list(copy_values(values));
    row.push(last);
    proof {
        assert(views(row@) =~= head.push(last@));
        assert(views(row@) =~= mentioned_row((relation@, tuple@), position as int));
    }
    Tuple::new(row)
}

fn system_subject_facts(facts: &[(RelationId, Tuple)], bindings: &[Option<Value>]) -> (found: Vec<
    Tuple,
>)
    ensures
        lists(
            rows(found@),
            matching(subject_rows(fact_views(facts@).to_set()), option_views(bindings@)),
        ),
{
    let ghost all = fact_views(facts@);
    let ghost bound = option_views(bindings@);
    let mut found: Vec<Tuple> = Vec::new();
    let mut i: usize = 0;
    while i < facts.len()
        invariant
            i <= facts@.len(),
            all == fact_views(facts@),
            bound == option_views(bindings@),
            forall|j: int|
                0 <= j < found@.len() ==> {
                    let row = (#[trigger] found@[j])@;
                    subject_rows(all.to_set()).contains(row) && row_matches(row, bound)
                },
            forall|j: int|
                0 <= j < i && (#[trigger] all[j]).1.len() > 0 && row_matches(
                    subject_row(all[j]),
                    bound,
                ) ==> rows(found@).contains(subject_row(all[j])),
        decreases facts@.len() - i,
    {
        assert(all[i as int] == (facts@[i as int].0@, facts@[i as int].1@));
        if facts[i].1.arity() > 0 {
            let row = subject_fact_tuple(facts[i].0, &facts[i].1);
            if row.matches_bindings(bindings) {
                let ghost before = rows(found@);
                let ghost new = row@;
                found.push(row);
                proof {
                    assert(all.to_set().contains(all[i as int]));
                    assert(rows(found@) =~= before.push(new));
                    assert(rows(found@)[found@.len() - 1] == new);
                    assert forall|other: Row| before.contains(other) implies rows(found@).contains(
                        other,
                    ) by {
                        let k = choose|k: int| 0 <= k < before.len() && before[k] == other;
                        assert(rows(found@)[k] == other);
                    }
                }
            }
        }
        i = i + 1;
    }
    let finished = finish_tuple_rows(found);
    proof {
        let expected = matching(subject_rows(all.to_set()), bound);
        assert forall|row: Row| rows(found@).to_set().contains(row) == expected.contains(row) by {
            if rows(found@).contains(row) {
                let k = choose|k: int| 0 <= k < found@.len() && rows(found@)[k] == row;
                assert(found@[k]@ == row);
            }
            if expected.contains(row) {
                let fact = choose|fact: (u64, Row)| #[trigger]
                    all.to_set().contains(fact) && fact.1.len() > 0 && row == subject_row(fact);
                let k = choose|k: int| 0 <= k < all.len() && all[k] == fact;
                assert(all[k].1.len() > 0);
            }
        }
        assert(rows(found@).to_set() =~= expected);
    }
    finished
}

fn system_mentioned_facts(facts: &[(RelationId, Tuple)], bindings: &[Option<Value>]) -> (found: Vec<
    Tuple,
>)
    ensures
        lists(
            rows(found@),
            matching(mentioned_rows(fact_views(facts@).to_set()), option_views(bindings@)),
        ),
{
    let ghost all = fact_views(facts@);
    let ghost bound = option_views(bindings@);
    let ghost mentions = mentioned_rows(all.to_set());
    let mut found: Vec<Tuple> = Vec::new();
    let mut i: usize = 0;
    while i < facts.len()
        invariant
            i <= facts@.len(),
            all == fact_views(facts@),
            bound == option_views(bindings@),
            mentions == mentioned_rows(all.to_set()),
            forall|j: int|
                0 <= j < found@.len() ==> {
                    let row = (#[trigger] found@[j])@;
                    mentions.contains(row) && row_matches(row, bound)
                },
            forall|j: int, p: int|
                0 <= j < i && 0 <= p < (#[trigger] all[j]).1.len() && row_matches(
                    #[trigger] mentioned_row(all[j], p),
                    bound,
                ) ==> rows(found@).contains(mentioned_row(all[j], p)),
        decreases facts@.len() - i,
    {
        let ghost fact = all[i as int];
        assert(fact == (facts@[i as int].0@, facts@[i as int].1@));
        assert(all.to_set().contains(fact));
        let arity: usize = facts[i].1.arity();
        let mut position: usize = 0;
        while position < arity
            invariant
                i < facts@.len(),
                position <= arity == fact.1.len(),
                bound == option_views(bindings@),
                all == fact_views(facts@),
                fact == (facts@[i as int].0@, facts@[i as int].1@),
                fact == all[i as int],
                all.to_set().contains(fact),
                mentions == mentioned_rows(all.to_set()),
                forall|j: int|
                    0 <= j < found@.len() ==> {
                        let row = (#[trigger] found@[j])@;
                        mentions.contains(row) && row_matches(row, bound)
                    },
                forall|j: int, p: int|
                    0 <= j < i && 0 <= p < (#[trigger] all[j]).1.len() && row_matches(
                        #[trigger] mentioned_row(all[j], p),
                        bound,
                    ) ==> rows(found@).contains(mentioned_row(all[j], p)),
                forall|p: int|
                    0 <= p < position && row_matches(#[trigger] mentioned_row(fact, p), bound)
                        ==> rows(found@).contains(mentioned_row(fact, p)),
            decreases arity - position,
        {
            let row = mentioned_fact_tuple(facts[i].0, position, &facts[i].1);
            if row.matches_bindings(bindings) {
                let ghost before = rows(found@);
                let ghost new = row@;
                found.push(row);
                proof {
                    assert(new == mentioned_row(fact, position as int));
                    assert(mentions.contains(new));
                    assert(rows(found@) =~= before.push(new));
                    assert(rows(found@)[found@.len() - 1] == new);
                    assert forall|other: Row| before.contains(other) implies rows(found@).contains(
                        other,
                    ) by {
                        let k = choose|k: int| 0 <= k < before.len() && before[k] == other;
                        assert(rows(found@)[k] == other);
                    }
                }
            }
            position = position + 1;
        }
        i = i + 1;
    }
    let finished = finish_tuple_rows(found);
    proof {
        let expected = matching(mentions, bound);
        assert forall|row: Row| rows(found@).to_set().contains(row) == expected.contains(row) by {
            if rows(found@).contains(row) {
                let k = choose|k: int| 0 <= k < found@.len() && rows(found@)[k] == row;
                assert(found@[k]@ == row);
            }
            if expected.contains(row) {
                let (fact, p) = choose|fact: (u64, Row), p: int| #[trigger]
                    all.to_set().contains(fact) && 0 <= p < fact.1.len() && row
                        == #[trigger] mentioned_row(fact, p);
                let k = choose|k: int| 0 <= k < all.len() && all[k] == fact;
                assert(0 <= p < all[k].1.len());
                assert(row == mentioned_row(all[k], p));
            }
        }
        assert(rows(found@).to_set() =~= expected);
    }
    finished
}

/// The rows of a reflecting relation that agree with the bindings.
pub fn system_relation_rows<R: ComputedRelationRead + ?Sized>(
    reader: &R,
    metadata: &RelationMetadata,
    bindings: &[Option<Value>],
) -> (result: Option<Result<Vec<Tuple>, KernelError>>)
    ensures
        ({
            let bound = option_views(bindings@);
            let expected = system_rows(
                metadata@,
                catalog_said(reader.shown().catalog, reader.shown().kinds),
                reader.shown().facts,
            );
            if bound.len() != metadata@.arity {
                result matches Some(Err(error)) && error@ == FaultView::ArityMismatch(
                    metadata@.id,
                    metadata@.arity,
                    bound.len(),
                )
            } else {
                match expected {
                    Some(set) => result matches Some(Ok(found)) && lists(
                        rows(found@),
                        matching(set, bound),
                    ),
                    None => result is None,
                }
            }
        }),
{
    if bindings.len() != metadata.arity() as usize {
        return Some(
            Err(
                KernelError::ArityMismatch {
                    relation: metadata.id(),
                    expected: metadata.arity(),
                    actual: bindings.len(),
                },
            ),
        );
    }
    match system_catalog_predicate(metadata) {
        Some(predicate) => {
            let facts = catalog_facts(reader);
            return Some(Ok(rows_said(&facts, predicate, bindings)));
        },
        None => {},
    }
    let name = metadata.name();
    if name.is_named("SubjectFact") && metadata.arity() == 3 {
        let facts = reader.extensional_facts();
        Some(Ok(system_subject_facts(&facts, bindings)))
    } else if (name.is_named("MentionedFact") || name.is_named("ExtensionalMentionedFact"))
        && metadata.arity() == 4 {
        let facts = reader.extensional_facts();
        Some(Ok(system_mentioned_facts(&facts, bindings)))
    } else {
        None
    }
}

/// What a scan of a reflecting relation gives.
pub open spec fn system_scanned(
    catalog: CatalogView,
    kinds: Map<(u64, int), Seq<char>>,
    facts: Set<(u64, Row)>,
    metadata: MetadataView,
    bound: Seq<Option<ValueView>>,
) -> Result<Set<Row>, FaultView> {
    if bound.len() != metadata.arity {
        Err(FaultView::ArityMismatch(metadata.id, metadata.arity, bound.len()))
    } else {
        match system_rows(metadata, catalog_said(catalog, kinds), facts) {
            Some(set) => Ok(matching(set, bound)),
            None => Err(
                FaultView::InvalidComputedRelation(
                    metadata.id,
                    "system reflection relation did not produce rows"@,
                ),
            ),
        }
    }
}

/// Computes the relations that reflect what there is.
pub struct SystemComputedRelation;

impl ComputedRelation for SystemComputedRelation {
    open spec fn wants(&self, metadata: MetadataView) -> bool {
        reflected(metadata) is Some || reflects_rows(metadata)
    }

    open spec fn needs(&self, metadata: MetadataView) -> Seq<u16> {
        Seq::empty()
    }

    open spec fn may_give(
        &self,
        shown: ShownView,
        metadata: MetadataView,
        bindings: Seq<Option<ValueView>>,
        answer: Result<Seq<Row>, FaultView>,
    ) -> bool {
        match system_scanned(shown.catalog, shown.kinds, shown.facts, metadata, bindings) {
            Ok(set) => answer matches Ok(found) && lists(found, set),
            Err(fault) => answer == Err::<Seq<Row>, FaultView>(fault),
        }
    }

    open spec fn may_count(
        &self,
        shown: ShownView,
        metadata: MetadataView,
        bindings: Seq<Option<ValueView>>,
        answer: Result<usize, FaultView>,
    ) -> bool {
        match system_scanned(shown.catalog, shown.kinds, shown.facts, metadata, bindings) {
            Ok(set) => answer matches Ok(count) && count == set.len(),
            Err(fault) => answer == Err::<usize, FaultView>(fault),
        }
    }

    fn name(&self) -> (name: &'static str)
        ensures
            name@ == "system-reflection"@,
    {
        "system-reflection"
    }

    fn matches(&self, metadata: &RelationMetadata) -> (result: bool) {
        is_system_relation(metadata)
    }

    fn required_bound_positions(&self, metadata: &RelationMetadata) -> (positions: Vec<u16>) {
        Vec::new()
    }

    fn scan(
        &self,
        reader: &dyn ComputedRelationRead,
        metadata: &RelationMetadata,
        bindings: &[Option<Value>],
    ) -> (result: Result<Vec<Tuple>, KernelError>)
    {
        system_scan(reader, metadata, bindings)
    }

    fn estimate(
        &self,
        reader: &dyn ComputedRelationRead,
        metadata: &RelationMetadata,
        bindings: &[Option<Value>],
    ) -> (result: Result<usize, KernelError>)
    {
        match system_scan(reader, metadata, bindings) {
            Ok(found) => {
                proof {
                    lemma_increasing_distinct(rows(found@));
                }
                Ok(found.len())
            },
            Err(error) => Err(error),
        }
    }
}

/// The rows of a reflecting relation that agree with the bindings, or that there are none
/// to give.
pub fn system_scan<R: ComputedRelationRead + ?Sized>(
    reader: &R,
    metadata: &RelationMetadata,
    bindings: &[Option<Value>],
) -> (result: Result<Vec<Tuple>, KernelError>)
    ensures
        answers(
            result,
            Some(
                system_scanned(
                    reader.shown().catalog,
                    reader.shown().kinds,
                    reader.shown().facts,
                    metadata@,
                    option_views(bindings@),
                ),
            ),
        ),
{
    match system_relation_rows(reader, metadata, bindings) {
        Some(result) => result,
        None => Err(
            KernelError::InvalidComputedRelation {
                relation: metadata.id(),
                message: "system reflection relation did not produce rows".to_owned(),
            },
        ),
    }
}

/// What computes the relations that the kernel itself knows.
pub fn system_computed_relations() -> (relations: Vec<SystemComputedRelation>)
    ensures
        relations@ == seq![SystemComputedRelation],
{
    let mut relations: Vec<SystemComputedRelation> = Vec::new();
    relations.push(SystemComputedRelation);
    relations
}

/// Whether a computed relation is the one that reflects what there is.
pub open spec fn reflecting(registry: RegistryView, i: int) -> bool {
    &&& forall|metadata: MetadataView| #[trigger]
        registry.relations[i].needs(metadata) == SystemComputedRelation.needs(metadata)
    &&& forall|
        shown: ShownView,
        metadata: MetadataView,
        bindings: Seq<Option<ValueView>>,
        answer: Result<Seq<Row>, FaultView>,
    | #[trigger]
        registry.relations[i].may_give(shown, metadata, bindings, answer)
            == SystemComputedRelation.may_give(shown, metadata, bindings, answer)
}

/// A relation that reflects what there is shows exactly what its reader shows: the catalog that
/// the reader sees, and the rows that are stored as the reader sees them.
pub proof fn law_reflecting_relations_show_what_there_is(
    registry: RegistryView,
    shown: ShownView,
    metadata: MetadataView,
    bindings: Seq<Option<ValueView>>,
    answer: Result<Seq<Row>, FaultView>,
)
    requires
        registry.finds(metadata) is Some,
        reflecting(registry, registry.finds(metadata)->0),
        registry.may_give(shown, metadata, bindings, answer),
    ensures
        match system_scanned(shown.catalog, shown.kinds, shown.facts, metadata, bindings) {
            Ok(set) => answer matches Ok(found) && lists(found, set),
            Err(fault) => answer == Err::<Seq<Row>, FaultView>(fault),
        },
{
    let i = registry.finds(metadata)->0;
    reveal(Seq::filter);
    assert(registry.relations[i].needs(metadata) == Seq::<u16>::empty());
    assert(missing_positions(Seq::empty(), bindings).len() == 0);
    if bindings.len() == metadata.arity {
        assert(registry.relations[i].may_give(shown, metadata, bindings, answer));
    }
}

/// Whether facts are as wide as what they say asks for.
pub open spec fn all_of_width(facts: Seq<(CatalogPredicate, Row)>) -> bool {
    forall|i: int| 0 <= i < facts.len() ==> (#[trigger] facts[i]).1.len() == facts[i].0.width()
}

proof fn lemma_argument_widths(metadata: MetadataView, n: nat)
    ensures
        all_of_width(argument_facts(metadata, n)),
    decreases n,
{
    if n > 0 {
        lemma_argument_widths(metadata, (n - 1) as nat);
    }
}

proof fn lemma_index_widths(metadata: MetadataView, n: nat, kinds: Map<(u64, int), Seq<char>>)
    ensures
        all_of_width(all_index_facts(metadata, n, kinds)),
    decreases n,
{
    if n > 0 {
        lemma_index_widths(metadata, (n - 1) as nat, kinds);
    }
}

proof fn lemma_relation_widths(
    relations: Seq<MetadataView>,
    kinds: Map<(u64, int), Seq<char>>,
)
    ensures
        all_of_width(all_relation_facts(relations, kinds)),
    decreases relations.len(),
{
    if relations.len() > 0 {
        let last = relations.last();
        lemma_relation_widths(relations.drop_last(), kinds);
        lemma_argument_widths(last, last.arity as nat);
        lemma_index_widths(last, last.indexes.len(), kinds);
        assert(all_of_width(policy_facts(last)));
        assert(all_of_width(relation_facts(last, kinds)));
    }
}

proof fn lemma_rule_widths(rules: Seq<DefinitionView>)
    ensures
        all_of_width(all_rule_facts(rules)),
    decreases rules.len(),
{
    if rules.len() > 0 {
        lemma_rule_widths(rules.drop_last());
        assert(all_of_width(rule_facts(rules.last())));
    }
}

/// The rows of a reflecting relation have as many values as the relation has columns.
pub proof fn law_reflecting_rows_fit_their_relation(
    metadata: MetadataView,
    catalog: CatalogView,
    kinds: Map<(u64, int), Seq<char>>,
    stored: Set<(u64, Row)>,
)
    ensures
        system_rows(metadata, catalog_said(catalog, kinds), stored) matches Some(set) ==> of_arity(
            set,
            metadata.arity as nat,
        ),
{
    lemma_relation_widths(catalog.relations, kinds);
    lemma_rule_widths(catalog.rules);
    let facts = catalog_said(catalog, kinds);
    assert(all_of_width(facts));
    if let Some(set) = system_rows(metadata, facts, stored) {
        assert forall|row: Row| #[trigger] set.contains(row) implies row.len()
            == metadata.arity as nat by {
            if let Some(predicate) = reflected(metadata) {
                assert(facts.contains((predicate, row)));
                let i = choose|i: int| 0 <= i < facts.len() && facts[i] == (predicate, row);
                assert(facts[i].1.len() == facts[i].0.width());
            }
        }
    }
}

/// A relation that reflects what there is, and that no rule adds to, is settled on what its
/// transaction shows.
pub proof fn law_a_reflecting_relation_is_settled(
    transaction: &Transaction,
    relation: u64,
    set: Set<Row>,
)
    requires
        transaction@.visible(relation) is Computed,
        !derives(transaction@.base.rules, relation),
        transaction@.base.computed.finds(transaction@.base.relations[relation].metadata) is Some,
        reflecting(
            transaction@.base.computed,
            transaction@.base.computed.finds(transaction@.base.relations[relation].metadata)->0,
        ),
        system_rows(
            transaction@.base.relations[relation].metadata,
            catalog_said(transaction.shown().catalog, transaction.shown().kinds),
            transaction.shown().facts,
        ) == Some(set),
    ensures
        settled_on(
            transaction,
            relation,
            transaction@.base.relations[relation].metadata.arity,
            set,
        ),
{
    let shown = transaction.shown();
    let metadata = transaction@.base.relations[relation].metadata;
    law_reflecting_rows_fit_their_relation(metadata, shown.catalog, shown.kinds, shown.facts);
    assert forall|bindings: Seq<Option<ValueView>>, result: Result<Seq<Row>, FaultView>|
        bindings.len() == metadata.arity && #[trigger] transaction.may_show(
            relation,
            bindings,
            result,
        ) implies {
        &&& result matches Ok(found)
        &&& lists(found, matching(set, bindings))
    } by {
        let answer = choose|answer: Result<Seq<Row>, FaultView>|
            {
                &&& #[trigger] transaction@.base.computed.may_give(
                    shown,
                    metadata,
                    bindings,
                    answer,
                )
                &&& completes(answer, None, bindings, result)
            };
        law_reflecting_relations_show_what_there_is(
            transaction@.base.computed,
            shown,
            metadata,
            bindings,
            answer,
        );
    }
}

} // verus!
