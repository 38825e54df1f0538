//! A store follows the commits that are written to it.

use crate::bytes::{be_bytes, lemma_be_bytes_injective, lemma_be_bytes_len, lemma_pow256_values};
use crate::kernel::algebra::Row;
use crate::kernel::codec::{put_commit, put_definition, put_fact_key, put_metadata, put_row};
use crate::kernel::commit::{CatalogChangeView, CommitView, FactChangeKind, FactChangeView};
use crate::kernel::metadata::MetadataView;
use crate::kernel::persistence::{catalog_write, catalog_writes, commit_writes, disabled_rules,
    fact_write, fact_writes, Keyspace, WriteView};
use crate::kernel::round_trip::{law_row_record_is_read_back, law_rule_record_is_read_back,
    possible_definition};
use crate::kernel::rules::DefinitionView;
use crate::value_codec::all_storable;
use vstd::prelude::*;

verus! {

/// What a store holds, by part and key.
pub type Store = Map<(Keyspace, Seq<u8>), Seq<u8>>;

/// A store once a change is written.
pub open spec fn stored_after(store: Store, write: WriteView) -> Store {
    match write {
        WriteView::Put(keyspace, key, value) => store.insert((keyspace, key), value),
        WriteView::Remove(keyspace, key) => store.remove((keyspace, key)),
    }
}

/// A store once changes are written.
pub open spec fn stored_after_all(store: Store, writes: Seq<WriteView>) -> Store
    decreases writes.len(),
{
    if writes.len() == 0 {
        store
    } else {
        stored_after(stored_after_all(store, writes.drop_last()), writes.last())
    }
}

/// Whether a row can be stored.
pub open spec fn row_storable(row: Row) -> bool {
    all_storable(row) && (put_row(row) matches Ok(bytes) && bytes.len() <= usize::MAX)
}

/// Whether a rule can be stored.
pub open spec fn definition_storable(definition: DefinitionView) -> bool {
    possible_definition(definition) && (put_definition(definition) matches Ok(bytes) && bytes.len()
        <= usize::MAX)
}

/// What a store is to hold: relations and rules by identity, and rows.
pub struct ContentsView {
    pub relations: Map<u64, MetadataView>,
    pub rules: Map<u64, DefinitionView>,
    pub facts: Set<(u64, Row)>,
}

/// Whether a store holds exactly some relations, each under its identity.
pub open spec fn keeps_relations(store: Store, relations: Map<u64, MetadataView>) -> bool {
    &&& forall|id: u64| #[trigger]
        relations.contains_key(id) ==> put_metadata(relations[id]) is Ok && store.contains_key(
            (Keyspace::Relations, be_bytes(id as nat, 8)),
        ) && store[(Keyspace::Relations, be_bytes(id as nat, 8))] == put_metadata(
            relations[id],
        )->Ok_0
    &&& forall|key: Seq<u8>| #[trigger]
        store.contains_key((Keyspace::Relations, key)) ==> exists|id: u64| #[trigger]
            relations.contains_key(id) && be_bytes(id as nat, 8) == key
}

/// Whether a store holds exactly some rules, each under its identity.
pub open spec fn keeps_rules(store: Store, rules: Map<u64, DefinitionView>) -> bool {
    &&& forall|id: u64| #[trigger]
        rules.contains_key(id) ==> definition_storable(rules[id]) && store.contains_key(
            (Keyspace::Rules, be_bytes(id as nat, 8)),
        ) && store[(Keyspace::Rules, be_bytes(id as nat, 8))] == put_definition(rules[id])->Ok_0
    &&& forall|key: Seq<u8>| #[trigger]
        store.contains_key((Keyspace::Rules, key)) ==> exists|id: u64| #[trigger]
            rules.contains_key(id) && be_bytes(id as nat, 8) == key
}

/// Whether a store holds exactly some rows, each under its key.
pub open spec fn keeps_rows(store: Store, set: Set<(u64, Row)>) -> bool {
    &&& forall|fact: (u64, Row)| #[trigger]
        set.contains(fact) ==> row_storable(fact.1) && store.contains_key(
            (Keyspace::Facts, put_fact_key(fact.0, fact.1)->Ok_0),
        ) && store[(Keyspace::Facts, put_fact_key(fact.0, fact.1)->Ok_0)] == put_row(fact.1)->Ok_0
    &&& forall|key: Seq<u8>| #[trigger]
        store.contains_key((Keyspace::Facts, key)) ==> exists|fact: (u64, Row)| #[trigger]
            set.contains(fact) && put_fact_key(fact.0, fact.1)->Ok_0 == key
}

/// Whether a store holds exactly what it is to hold.
pub open spec fn keeps(store: Store, contents: ContentsView) -> bool {
    &&& keeps_relations(store, contents.relations)
    &&& keeps_rules(store, contents.rules)
    &&& keeps_rows(store, contents.facts)
}

/// What there is once the catalog changed.
pub open spec fn catalog_then(
    contents: ContentsView,
    changes: Seq<CatalogChangeView>,
) -> ContentsView
    decreases changes.len(),
{
    if changes.len() == 0 {
        contents
    } else {
        let before = catalog_then(contents, changes.drop_last());
        match changes.last() {
            CatalogChangeView::RelationCreated(metadata) => ContentsView {
                relations: before.relations.insert(metadata.id, metadata),
                ..before
            },
            CatalogChangeView::RuleInstalled(rule) => ContentsView {
                rules: before.rules.insert(rule.id, rule),
                ..before
            },
            CatalogChangeView::RuleDisabled(id) => ContentsView {
                rules: before.rules.insert(
                    id,
                    DefinitionView { active: false, ..before.rules[id] },
                ),
                ..before
            },
        }
    }
}

/// The rows that there are once rows came and went.
pub open spec fn rows_then(set: Set<(u64, Row)>, changes: Seq<FactChangeView>) -> Set<(u64, Row)>
    decreases changes.len(),
{
    if changes.len() == 0 {
        set
    } else {
        let before = rows_then(set, changes.drop_last());
        let fact = (changes.last().relation, changes.last().row);
        match changes.last().kind {
            FactChangeKind::Assert => before.insert(fact),
            FactChangeKind::Retract => before.remove(fact),
        }
    }
}

/// What there is after a commit.
pub open spec fn contents_then(contents: ContentsView, commit: CommitView) -> ContentsView {
    let catalog = catalog_then(contents, commit.catalog_changes);
    ContentsView { facts: rows_then(catalog.facts, commit.changes), ..catalog }
}

/// Whether changes to the catalog can be stored: what they name can, and the rules that they
/// disable are there before.
pub open spec fn catalog_storable(
    rules: Map<u64, DefinitionView>,
    changes: Seq<CatalogChangeView>,
) -> bool {
    &&& forall|i: int|
        0 <= i < changes.len() ==> match #[trigger] changes[i] {
            CatalogChangeView::RelationCreated(metadata) => put_metadata(metadata) is Ok,
            CatalogChangeView::RuleInstalled(rule) => definition_storable(rule),
            CatalogChangeView::RuleDisabled(id) => rules.contains_key(id),
        }
    &&& forall|i: int, j: int|
        #![trigger changes[i], changes[j]]
        0 <= i < changes.len() && 0 <= j < changes.len() ==> match (changes[i], changes[j]) {
            (CatalogChangeView::RuleInstalled(rule), CatalogChangeView::RuleDisabled(id)) => rule.id
                != id,
            _ => true,
        }
}

/// Whether the records that were found are those of the rules that are disabled.
pub open spec fn found_in(
    store: Store,
    changes: Seq<CatalogChangeView>,
    found: Seq<Option<Seq<u8>>>,
) -> bool {
    forall|i: int|
        0 <= i < disabled_rules(changes).len() ==> #[trigger] found[i] == Some(
            store[(Keyspace::Rules, be_bytes(disabled_rules(changes)[i] as nat, 8))],
        )
}

proof fn lemma_ids_differ(a: u64, b: u64)
    ensures
        be_bytes(a as nat, 8) == be_bytes(b as nat, 8) ==> a == b,
{
    if be_bytes(a as nat, 8) == be_bytes(b as nat, 8) {
        lemma_pow256_values();
        lemma_be_bytes_injective(a as nat, b as nat, 8);
    }
}

/// Rows of relations have keys of their own.
pub proof fn law_keys_of_rows_differ(a: (u64, Row), b: (u64, Row))
    requires
        row_storable(a.1),
        row_storable(b.1),
        put_fact_key(a.0, a.1) == put_fact_key(b.0, b.1),
    ensures
        a == b,
{
    let head_a = be_bytes(a.0 as nat, 8);
    let head_b = be_bytes(b.0 as nat, 8);
    let row_a = put_row(a.1)->Ok_0;
    let row_b = put_row(b.1)->Ok_0;
    lemma_be_bytes_len(a.0 as nat, 8);
    lemma_be_bytes_len(b.0 as nat, 8);
    assert(head_a + row_a == head_b + row_b);
    assert(head_a =~= (head_a + row_a).take(8));
    assert(head_b =~= (head_b + row_b).take(8));
    assert(row_a =~= (head_a + row_a).skip(8));
    assert(row_b =~= (head_b + row_b).skip(8));
    lemma_ids_differ(a.0, b.0);
    law_row_record_is_read_back(a.1, row_a);
    law_row_record_is_read_back(b.1, row_b);
}

/// A disabled rule can be stored where the rule can.
proof fn lemma_disabled_storable(definition: DefinitionView)
    requires
        definition_storable(definition),
    ensures
        definition_storable(DefinitionView { active: false, ..definition }),
{
    let disabled = DefinitionView { active: false, ..definition };
    assert(put_definition(disabled) is Ok);
    assert(put_definition(disabled)->Ok_0.len() == put_definition(definition)->Ok_0.len());
}

/// A rule that is not installed anew stays what it is, but for being disabled.
proof fn lemma_rule_stays(contents: ContentsView, changes: Seq<CatalogChangeView>, id: u64)
    requires
        contents.rules.contains_key(id),
        forall|i: int|
            0 <= i < changes.len() ==> ((#[trigger] changes[i]) matches
                CatalogChangeView::RuleInstalled(rule) ==> rule.id != id),
    ensures
        catalog_then(contents, changes).rules.contains_key(id),
        (DefinitionView { active: false, ..catalog_then(contents, changes).rules[id] }) == (
        DefinitionView { active: false, ..contents.rules[id] }),
    decreases changes.len(),
{
    if changes.len() > 0 {
        let less = changes.drop_last();
        assert forall|i: int| 0 <= i < less.len() implies ((#[trigger] less[i]) matches
            CatalogChangeView::RuleInstalled(rule) ==> rule.id != id) by {
            assert(less[i] == changes[i]);
        }
        lemma_rule_stays(contents, less, id);
        assert(changes[changes.len() - 1] == changes.last());
    }
}

proof fn lemma_relation_written(store: Store, contents: ContentsView, metadata: MetadataView)
    requires
        keeps(store, contents),
        put_metadata(metadata) is Ok,
    ensures
        keeps(
            store.insert(
                (Keyspace::Relations, be_bytes(metadata.id as nat, 8)),
                put_metadata(metadata)->Ok_0,
            ),
            ContentsView {
                relations: contents.relations.insert(metadata.id, metadata),
                ..contents
            },
        ),
{
    let key = be_bytes(metadata.id as nat, 8);
    let after = store.insert((Keyspace::Relations, key), put_metadata(metadata)->Ok_0);
    let relations = contents.relations.insert(metadata.id, metadata);
    assert forall|id: u64| #[trigger] relations.contains_key(id) implies put_metadata(
        relations[id],
    ) is Ok && after.contains_key((Keyspace::Relations, be_bytes(id as nat, 8))) && after[(
        Keyspace::Relations,
        be_bytes(id as nat, 8),
    )] == put_metadata(relations[id])->Ok_0 by {
        lemma_ids_differ(id, metadata.id);
        if id != metadata.id {
            assert(contents.relations.contains_key(id));
        }
    }
    assert forall|other: Seq<u8>| #[trigger]
        after.contains_key((Keyspace::Relations, other)) implies exists|id: u64| #[trigger]
        relations.contains_key(id) && be_bytes(id as nat, 8) == other by {
        if other == key {
            assert(relations.contains_key(metadata.id));
        } else {
            assert(store.contains_key((Keyspace::Relations, other)));
            let id = choose|id: u64| #[trigger]
                contents.relations.contains_key(id) && be_bytes(id as nat, 8) == other;
            assert(relations.contains_key(id));
        }
    }
    assert forall|other: Seq<u8>| #[trigger]
        after.contains_key((Keyspace::Rules, other)) implies store.contains_key(
        (Keyspace::Rules, other),
    ) by {}
    assert forall|other: Seq<u8>| #[trigger]
        after.contains_key((Keyspace::Facts, other)) implies store.contains_key(
        (Keyspace::Facts, other),
    ) by {}
}

proof fn lemma_rule_written(store: Store, contents: ContentsView, id: u64, rule: DefinitionView)
    requires
        keeps(store, contents),
        definition_storable(rule),
    ensures
        keeps(
            store.insert((Keyspace::Rules, be_bytes(id as nat, 8)), put_definition(rule)->Ok_0),
            ContentsView { rules: contents.rules.insert(id, rule), ..contents },
        ),
{
    let key = be_bytes(id as nat, 8);
    let after = store.insert((Keyspace::Rules, key), put_definition(rule)->Ok_0);
    let rules = contents.rules.insert(id, rule);
    assert forall|other: u64| #[trigger] rules.contains_key(other) implies definition_storable(
        rules[other],
    ) && after.contains_key((Keyspace::Rules, be_bytes(other as nat, 8))) && after[(
        Keyspace::Rules,
        be_bytes(other as nat, 8),
    )] == put_definition(rules[other])->Ok_0 by {
        lemma_ids_differ(other, id);
        if other != id {
            assert(contents.rules.contains_key(other));
        }
    }
    assert forall|other: Seq<u8>| #[trigger]
        after.contains_key((Keyspace::Rules, other)) implies exists|found: u64| #[trigger]
        rules.contains_key(found) && be_bytes(found as nat, 8) == other by {
        if other == key {
            assert(rules.contains_key(id));
        } else {
            assert(store.contains_key((Keyspace::Rules, other)));
            let found = choose|found: u64| #[trigger]
                contents.rules.contains_key(found) && be_bytes(found as nat, 8) == other;
            assert(rules.contains_key(found));
        }
    }
    assert forall|other: Seq<u8>| #[trigger]
        after.contains_key((Keyspace::Relations, other)) implies store.contains_key(
        (Keyspace::Relations, other),
    ) by {}
    assert forall|other: Seq<u8>| #[trigger]
        after.contains_key((Keyspace::Facts, other)) implies store.contains_key(
        (Keyspace::Facts, other),
    ) by {}
}

/// Writing changes in two lots does what writing one lot after the other does.
proof fn lemma_lots(store: Store, first: Seq<WriteView>, second: Seq<WriteView>)
    ensures
        stored_after_all(store, first + second) == stored_after_all(
            stored_after_all(store, first),
            second,
        ),
    decreases second.len(),
{
    if second.len() == 0 {
        assert(first + second =~= first);
    } else {
        assert((first + second).drop_last() =~= first + second.drop_last());
        assert((first + second).last() == second.last());
        lemma_lots(store, first, second.drop_last());
    }
}

/// A record elsewhere does not change what a store keeps.
proof fn lemma_elsewhere(
    store: Store,
    contents: ContentsView,
    keyspace: Keyspace,
    key: Seq<u8>,
    value: Seq<u8>,
)
    requires
        keeps(store, contents),
        keyspace is Commits || keyspace is Metadata,
    ensures
        keeps(store.insert((keyspace, key), value), contents),
{
    let after = store.insert((keyspace, key), value);
    assert forall|other: Seq<u8>| #[trigger]
        after.contains_key((Keyspace::Relations, other)) implies store.contains_key(
        (Keyspace::Relations, other),
    ) by {}
    assert forall|other: Seq<u8>| #[trigger]
        after.contains_key((Keyspace::Rules, other)) implies store.contains_key(
        (Keyspace::Rules, other),
    ) by {}
    assert forall|other: Seq<u8>| #[trigger]
        after.contains_key((Keyspace::Facts, other)) implies store.contains_key(
        (Keyspace::Facts, other),
    ) by {}
}

/// A store follows changes to the catalog. The records that were found are those of the store
/// before the changes.
proof fn lemma_catalog_followed(
    store: Store,
    contents: ContentsView,
    changes: Seq<CatalogChangeView>,
    found: Seq<Option<Seq<u8>>>,
)
    requires
        keeps(store, contents),
        catalog_storable(contents.rules, changes),
        found_in(store, changes, found),
    ensures
        catalog_writes(changes, found) is Ok,
        keeps(
            stored_after_all(store, catalog_writes(changes, found)->Ok_0),
            catalog_then(contents, changes),
        ),
    decreases changes.len(),
{
    if changes.len() > 0 {
        let less = changes.drop_last();
        let last = changes.last();
        assert(changes[changes.len() - 1] == last);
        assert(catalog_storable(contents.rules, less)) by {
            assert forall|i: int| 0 <= i < less.len() implies match #[trigger] less[i] {
                CatalogChangeView::RelationCreated(metadata) => put_metadata(metadata) is Ok,
                CatalogChangeView::RuleInstalled(rule) => definition_storable(rule),
                CatalogChangeView::RuleDisabled(id) => contents.rules.contains_key(id),
            } by {
                assert(less[i] == changes[i]);
            }
            assert forall|i: int, j: int|
                #![trigger less[i], less[j]]
                0 <= i < less.len() && 0 <= j < less.len() implies match (less[i], less[j]) {
                (CatalogChangeView::RuleInstalled(rule), CatalogChangeView::RuleDisabled(id)) =>
                rule.id != id,
                _ => true,
            } by {
                assert(less[i] == changes[i] && less[j] == changes[j]);
            }
        }
        let n = disabled_rules(less).len() as int;
        assert(found_in(store, less, found)) by {
            assert forall|i: int| 0 <= i < n implies #[trigger] found[i] == Some(
                store[(Keyspace::Rules, be_bytes(disabled_rules(less)[i] as nat, 8))],
            ) by {
                assert(disabled_rules(changes)[i] == disabled_rules(less)[i]);
            }
        }
        lemma_catalog_followed(store, contents, less, found);
        let writes = catalog_writes(less, found)->Ok_0;
        let before = stored_after_all(store, writes);
        let there = catalog_then(contents, less);
        match last {
            CatalogChangeView::RelationCreated(metadata) => {
                lemma_relation_written(before, there, metadata);
            },
            CatalogChangeView::RuleInstalled(rule) => {
                lemma_rule_written(before, there, rule.id, rule);
            },
            CatalogChangeView::RuleDisabled(id) => {
                assert(disabled_rules(changes)[n] == id);
                assert(contents.rules.contains_key(id));
                let record = put_definition(contents.rules[id])->Ok_0;
                assert(found[n] == Some(record));
                law_rule_record_is_read_back(contents.rules[id], record);
                assert forall|i: int| 0 <= i < less.len() implies ((#[trigger] less[i]) matches
                    CatalogChangeView::RuleInstalled(rule) ==> rule.id != id) by {
                    assert(less[i] == changes[i] && changes[changes.len() - 1] == last);
                }
                lemma_rule_stays(contents, less, id);
                lemma_disabled_storable(contents.rules[id]);
                lemma_rule_written(
                    before,
                    there,
                    id,
                    DefinitionView { active: false, ..contents.rules[id] },
                );
            },
        }
        let write = catalog_write(last, found[n])->Ok_0;
        assert(writes.push(write).drop_last() =~= writes);
    }
}

/// A store follows changes to rows.
proof fn lemma_rows_followed(store: Store, contents: ContentsView, changes: Seq<FactChangeView>)
    requires
        keeps(store, contents),
        forall|i: int| 0 <= i < changes.len() ==> row_storable((#[trigger] changes[i]).row),
    ensures
        fact_writes(changes) is Ok,
        keeps(
            stored_after_all(store, fact_writes(changes)->Ok_0),
            ContentsView { facts: rows_then(contents.facts, changes), ..contents },
        ),
    decreases changes.len(),
{
    if changes.len() > 0 {
        let less = changes.drop_last();
        let last = changes.last();
        assert forall|i: int| 0 <= i < less.len() implies row_storable((#[trigger] less[i]).row) by {
            assert(less[i] == changes[i]);
        }
        lemma_rows_followed(store, contents, less);
        assert(changes[changes.len() - 1] == last);
        assert(row_storable(last.row));
        let writes = fact_writes(less)->Ok_0;
        let write = fact_write(last)->Ok_0;
        assert(fact_writes(changes)->Ok_0 =~= writes.push(write));
        assert(writes.push(write).drop_last() =~= writes);
        let before = stored_after_all(store, writes);
        let there = rows_then(contents.facts, less);
        let after = stored_after(before, write);
        let then = rows_then(contents.facts, changes);
        let fact = (last.relation, last.row);
        let key = put_fact_key(last.relation, last.row)->Ok_0;
        assert forall|other: (u64, Row)| #[trigger] then.contains(other) implies row_storable(
            other.1,
        ) && after.contains_key((Keyspace::Facts, put_fact_key(other.0, other.1)->Ok_0)) && after[(
            Keyspace::Facts,
            put_fact_key(other.0, other.1)->Ok_0,
        )] == put_row(other.1)->Ok_0 by {
            if other != fact {
                assert(there.contains(other));
                if put_fact_key(other.0, other.1)->Ok_0 == key {
                    law_keys_of_rows_differ(other, fact);
                }
            }
        }
        assert forall|other: Seq<u8>| #[trigger]
            after.contains_key((Keyspace::Facts, other)) implies exists|fact: (u64, Row)| #[trigger]
            then.contains(fact) && put_fact_key(fact.0, fact.1)->Ok_0 == other by {
            if other == key && last.kind is Assert {
                assert(then.contains(fact));
            } else {
                assert(before.contains_key((Keyspace::Facts, other)));
                let found = choose|found: (u64, Row)| #[trigger]
                    there.contains(found) && put_fact_key(found.0, found.1)->Ok_0 == other;
                assert(then.contains(found));
            }
        }
        assert forall|other: Seq<u8>| #[trigger]
            after.contains_key((Keyspace::Relations, other)) implies before.contains_key(
            (Keyspace::Relations, other),
        ) by {}
        assert forall|other: Seq<u8>| #[trigger]
            after.contains_key((Keyspace::Rules, other)) implies before.contains_key(
            (Keyspace::Rules, other),
        ) by {}
    }
}

/// A store that holds exactly the relations, rules and rows that there are holds exactly those
/// that there are after a commit, once what is written for the commit is written. The records
/// of rules that the commit disables are those that the store held.
pub proof fn law_a_store_follows_commits(
    store: Store,
    contents: ContentsView,
    commit: CommitView,
    found: Seq<Option<Seq<u8>>>,
    version_key: Seq<u8>,
)
    requires
        keeps(store, contents),
        put_commit(commit) is Ok,
        catalog_storable(contents.rules, commit.catalog_changes),
        found_in(store, commit.catalog_changes, found),
        forall|i: int|
            0 <= i < commit.changes.len() ==> row_storable((#[trigger] commit.changes[i]).row),
    ensures
        commit_writes(commit, found, version_key) is Ok,
        keeps(
            stored_after_all(store, commit_writes(commit, found, version_key)->Ok_0),
            contents_then(contents, commit),
        ),
{
    let version = be_bytes(commit.version as nat, 8);
    let first = WriteView::Put(Keyspace::Commits, version, put_commit(commit)->Ok_0);
    let last = WriteView::Put(Keyspace::Metadata, version_key, version);
    let begun = stored_after(store, first);
    lemma_elsewhere(store, contents, Keyspace::Commits, version, put_commit(commit)->Ok_0);
    assert(found_in(begun, commit.catalog_changes, found)) by {
        let ids = disabled_rules(commit.catalog_changes);
        assert forall|i: int| 0 <= i < ids.len() implies #[trigger] found[i] == Some(
            begun[(Keyspace::Rules, be_bytes(ids[i] as nat, 8))],
        ) by {}
    }
    lemma_catalog_followed(begun, contents, commit.catalog_changes, found);
    let catalog = catalog_writes(commit.catalog_changes, found)->Ok_0;
    let between = stored_after_all(begun, catalog);
    let there = catalog_then(contents, commit.catalog_changes);
    lemma_rows_followed(between, there, commit.changes);
    let facts = fact_writes(commit.changes)->Ok_0;
    let done = stored_after_all(between, facts);
    lemma_elsewhere(done, contents_then(contents, commit), Keyspace::Metadata, version_key, version);
    let all = seq![first] + catalog + facts;
    assert(seq![first].drop_last() =~= Seq::empty());
    assert(stored_after_all(store, seq![first].drop_last()) == store);
    assert(stored_after_all(store, seq![first]) == begun);
    lemma_lots(store, seq![first], catalog);
    lemma_lots(store, seq![first] + catalog, facts);
    assert(all.push(last).drop_last() =~= all);
    assert(all.push(last).last() == last);
}

} // verus!
