//! What holds of what is loaded.

use crate::kernel::algebra::Row;
use crate::kernel::commit::{CatalogChangeView, CommitView, FactChangeKind, FactChangeView};
use crate::kernel::computed::{ComputedRelation, RegistryView};
use crate::kernel::error::FaultView;
use crate::kernel::loading::{as_asserts, change_count, commits_loaded, last_version,
    loaded_snapshot, rules_fault, state_loaded, with_catalog_change, with_commit, with_commits,
    with_fact_change, with_fact_changes, with_relations, LoadView};
use crate::kernel::metadata::{MetadataView, Version};
use crate::kernel::relation::{metadata_fault, RelationView};
use crate::kernel::rules::DefinitionView;
use crate::kernel::ruling::rule_fault;
use crate::kernel::snapshot::listed_metadata;
use std::sync::Arc;
use vstd::prelude::*;

verus! {

proof fn lemma_declared(metadata: Seq<MetadataView>, relations: Map<u64, RelationView>)
    requires
        with_relations(Map::empty(), metadata) == Ok::<Map<u64, RelationView>, FaultView>(relations),
    ensures
        forall|id: u64| #[trigger]
            relations.contains_key(id) ==> relations[id].metadata.id == id && relations[id].rows
                == Set::<Row>::empty() && metadata.contains(relations[id].metadata),
        forall|k: int| 0 <= k < metadata.len() ==> relations.contains_key((#[trigger] metadata[k]).id),
    decreases metadata.len(),
{
    if metadata.len() > 0 {
        let before = metadata.drop_last();
        let last = metadata.last();
        let earlier = with_relations(Map::empty(), before)->Ok_0;
        lemma_declared(before, earlier);
        assert(metadata[metadata.len() - 1] == last);
        assert forall|id: u64| #[trigger] relations.contains_key(id) implies relations[id].metadata.id
            == id && relations[id].rows == Set::<Row>::empty() && metadata.contains(
            relations[id].metadata,
        ) by {
            if id != last.id {
                assert(earlier.contains_key(id));
                let found = relations[id].metadata;
                let k = choose|k: int| 0 <= k < before.len() && before[k] == found;
                assert(metadata[k] == found);
            }
        }
        assert forall|k: int| 0 <= k < metadata.len() implies relations.contains_key(
            (#[trigger] metadata[k]).id,
        ) by {
            if k < before.len() {
                assert(before[k] == metadata[k]);
            }
        }
    }
}

proof fn lemma_filled(
    start: Map<u64, RelationView>,
    facts: Seq<(u64, Row)>,
    relations: Map<u64, RelationView>,
)
    requires
        with_fact_changes(start, as_asserts(facts)) == Ok::<Map<u64, RelationView>, FaultView>(
            relations,
        ),
    ensures
        forall|id: u64| #[trigger] relations.contains_key(id) <==> start.contains_key(id),
        forall|id: u64| #[trigger]
            relations.contains_key(id) ==> relations[id].metadata == start[id].metadata,
        forall|id: u64, row: Row|
            start.contains_key(id) ==> (#[trigger] relations[id].rows.contains(row)
                <==> start[id].rows.contains(row) || (!(start[id].metadata.durability is Volatile)
                && facts.contains((id, row)))),
    decreases facts.len(),
{
    let changes = as_asserts(facts);
    if facts.len() > 0 {
        let before = facts.drop_last();
        let last = facts.last();
        assert(changes.drop_last() =~= as_asserts(before));
        assert(changes.last() == FactChangeView {
            relation: last.0,
            row: last.1,
            kind: FactChangeKind::Assert,
        });
        let earlier = with_fact_changes(start, as_asserts(before))->Ok_0;
        lemma_filled(start, before, earlier);
        assert(with_fact_change(earlier, changes.last()) == Ok::<Map<u64, RelationView>, FaultView>(
            relations,
        ));
        assert(earlier.contains_key(last.0));
        assert forall|id: u64, row: Row| start.contains_key(id) implies (
        #[trigger] relations[id].rows.contains(row) <==> start[id].rows.contains(row) || (!(
        start[id].metadata.durability is Volatile) && facts.contains((id, row)))) by {
            assert(earlier.contains_key(id));
            assert(earlier[id].rows.contains(row) <==> start[id].rows.contains(row) || (!(
            start[id].metadata.durability is Volatile) && before.contains((id, row))));
            if before.contains((id, row)) {
                let k = choose|k: int| 0 <= k < before.len() && before[k] == (id, row);
                assert(facts[k] == (id, row));
            }
            if facts.contains((id, row)) && last != (id, row) {
                let k = choose|k: int| 0 <= k < facts.len() && facts[k] == (id, row);
                assert(before[k] == (id, row));
            }
            if last == (id, row) {
                assert(facts[facts.len() - 1] == (id, row));
            }
        }
    }
}

/// What is loaded from a stored state has its rules, the relations that it declares, and in each that
/// is not volatile just the rows that it holds for it.
pub proof fn law_a_stored_state_is_loaded_as_it_is(
    metadata: Seq<MetadataView>,
    rules: Seq<DefinitionView>,
    facts: Seq<(u64, Row)>,
    loaded: LoadView,
    k: int,
    id: u64,
    row: Row,
)
    requires
        state_loaded(metadata, rules, facts) == Ok::<LoadView, FaultView>(loaded),
        0 <= k < metadata.len(),
    ensures
        loaded.rules == rules,
        loaded.relations.contains_key(metadata[k].id),
        loaded.relations.contains_key(id) ==> {
            &&& metadata.contains(loaded.relations[id].metadata)
            &&& loaded.relations[id].metadata.id == id
            &&& loaded.relations[id].rows.contains(row) <==> loaded.relations[id].metadata.durability
                is Durable && facts.contains((id, row))
        },
{
    let start = with_relations(Map::empty(), metadata)->Ok_0;
    lemma_declared(metadata, start);
    lemma_filled(start, facts, loaded.relations);
    assert(start.contains_key(metadata[k].id));
    if loaded.relations.contains_key(id) {
        assert(start.contains_key(id));
        assert(start[id].rows == Set::<Row>::empty());
    }
}

proof fn lemma_rules(relations: Map<u64, RelationView>, rules: Seq<DefinitionView>)
    ensures
        rules_fault(relations, rules) is None <==> forall|k: int|
            0 <= k < rules.len() ==> rule_fault(relations, (#[trigger] rules[k]).rule) is None,
    decreases rules.len(),
{
    if rules.len() > 0 {
        let before = rules.drop_last();
        lemma_rules(relations, before);
        assert(rules.last() == rules[rules.len() - 1]);
        assert forall|k: int| 0 <= k < before.len() implies #[trigger] rules[k] == before[k] by {}
        if rules_fault(relations, before) is None {
            assert forall|k: int| 0 <= k < before.len() implies rule_fault(
                relations,
                (#[trigger] rules[k]).rule,
            ) is None by {
                assert(rule_fault(relations, before[k].rule) is None);
            }
        } else {
            let k = choose|k: int|
                0 <= k < before.len() && rule_fault(relations, (#[trigger] before[k]).rule) is Some;
            assert(rules[k] == before[k]);
        }
    }
}

/// No stored state is loaded with a relation out of order or with a rule that does not fit.
pub proof fn law_what_is_loaded_is_in_order(
    metadata: Seq<MetadataView>,
    rules: Seq<DefinitionView>,
    facts: Seq<(u64, Row)>,
    loaded: LoadView,
    k: int,
    i: int,
)
    requires
        state_loaded(metadata, rules, facts) == Ok::<LoadView, FaultView>(loaded),
        0 <= k < metadata.len(),
        0 <= i < rules.len(),
    ensures
        metadata_fault(metadata[k]) is None,
        with_relations(Map::empty(), metadata) matches Ok(start) && rule_fault(
            start,
            rules[i].rule,
        ) is None,
{
    lemma_in_order(metadata, k);
    lemma_rules(with_relations(Map::empty(), metadata)->Ok_0, rules);
}

proof fn lemma_in_order(metadata: Seq<MetadataView>, k: int)
    requires
        with_relations(Map::empty(), metadata) is Ok,
        0 <= k < metadata.len(),
    ensures
        metadata_fault(metadata[k]) is None,
    decreases metadata.len(),
{
    if k < metadata.len() - 1 {
        assert(metadata.drop_last()[k] == metadata[k]);
        lemma_in_order(metadata.drop_last(), k);
    }
}

/// A change that is loaded adds or takes away its row, where its relation is not volatile, and leaves
/// every other row and relation.
pub proof fn law_a_loaded_change_changes_its_row(
    relations: Map<u64, RelationView>,
    change: FactChangeView,
    after: Map<u64, RelationView>,
    id: u64,
    row: Row,
)
    requires
        with_fact_change(relations, change) == Ok::<Map<u64, RelationView>, FaultView>(after),
    ensures
        relations.contains_key(change.relation),
        after.contains_key(id) == relations.contains_key(id),
        relations.contains_key(id) ==> after[id].metadata == relations[id].metadata,
        relations.contains_key(id) && (id != change.relation || row != change.row
            || relations[id].metadata.durability is Volatile) ==> after[id].rows.contains(row)
            == relations[id].rows.contains(row),
        relations[change.relation].metadata.durability is Durable ==> (
        after[change.relation].rows.contains(change.row) <==> change.kind is Assert),
        relations[change.relation].metadata.durability is Durable ==> change.row.len()
            == relations[change.relation].metadata.arity,
{
}

/// A change is loaded wherever its relation is there and, unless that is volatile, its row fits.
pub proof fn law_which_changes_are_loaded(relations: Map<u64, RelationView>, change: FactChangeView)
    ensures
        with_fact_change(relations, change) is Ok <==> relations.contains_key(change.relation) && (
        relations[change.relation].metadata.durability is Volatile || change.row.len()
            == relations[change.relation].metadata.arity),
        with_fact_change(relations, change) matches Err(fault) ==> if relations.contains_key(
            change.relation,
        ) {
            fault == FaultView::ArityMismatch(
                change.relation,
                relations[change.relation].metadata.arity,
                change.row.len(),
            )
        } else {
            fault == FaultView::UnknownRelation(change.relation)
        },
{
}

/// Commits hold as many changes as each of them together, and their version is that of the last.
pub proof fn law_commits_are_counted_by_their_changes(commits: Seq<CommitView>, commit: CommitView)
    ensures
        change_count(Seq::empty()) == 0,
        change_count(commits.push(commit)) == change_count(commits) + commit.changes.len(),
        last_version(Seq::empty()) == 0,
        last_version(commits.push(commit)) == commit.version,
{
    assert(commits.push(commit).drop_last() =~= commits);
}

/// Commits are loaded one after another, and the first fault ends it.
pub proof fn law_commits_are_loaded_in_order(
    loaded: LoadView,
    commits: Seq<CommitView>,
    commit: CommitView,
    creates: bool,
)
    ensures
        with_commits(loaded, Seq::empty(), creates) == Ok::<LoadView, FaultView>(loaded),
        with_commits(loaded, commits, creates) matches Ok(before) ==> with_commits(
            loaded,
            commits.push(commit),
            creates,
        ) == with_commit(before, commit, creates),
        with_commits(loaded, commits, creates) matches Err(fault) ==> with_commits(
            loaded,
            commits.push(commit),
            creates,
        ) == Err::<LoadView, FaultView>(fault),
{
    assert(commits.push(commit).drop_last() =~= commits);
    assert(commits.push(commit).last() == commit);
}

/// A relation that a commit created is created, empty, where relations are loaded from commits, and is
/// left as it is where they were loaded before.
pub proof fn law_relations_are_created_where_they_are_not_loaded(
    loaded: LoadView,
    metadata: MetadataView,
    other: u64,
)
    requires
        other != metadata.id,
    ensures
        with_catalog_change(loaded, CatalogChangeView::RelationCreated(metadata), false) == Ok::<
            LoadView,
            FaultView,
        >(loaded),
        match with_catalog_change(loaded, CatalogChangeView::RelationCreated(metadata), true) {
            Ok(after) => {
                &&& metadata_fault(metadata) is None
                &&& after.rules == loaded.rules
                &&& after.relations.contains_key(metadata.id)
                &&& after.relations[metadata.id].metadata == metadata
                &&& forall|row: Row| !#[trigger] after.relations[metadata.id].rows.contains(row)
                &&& after.relations.contains_key(other) == loaded.relations.contains_key(other)
                &&& loaded.relations.contains_key(other) ==> after.relations[other]
                    == loaded.relations[other]
            },
            Err(fault) => metadata_fault(metadata) == Some(fault),
        },
{
}

/// What was loaded becomes a state with its relations, rules, version and commits, whose rules are
/// still to be evaluated.
pub proof fn law_what_was_loaded_is_the_state(
    version: Version,
    loaded: LoadView,
    computed: Seq<Arc<dyn ComputedRelation>>,
    commits: Seq<CommitView>,
)
    ensures
        ({
            let state = loaded_snapshot(version, loaded, computed, commits);
            &&& state.version == version
            &&& state.relations == loaded.relations
            &&& state.rules == loaded.rules
            &&& state.commits == commits
            &&& state.computed.relations == computed
            &&& state.derived is Unevaluated
            &&& state.maintained is None
        }),
{
    lemma_bound_all(
        RegistryView { relations: computed, bindings: Map::empty() },
        listed_metadata(loaded.relations),
    );
}

proof fn lemma_bound_all(registry: RegistryView, metadata: Seq<MetadataView>)
    ensures
        registry.bound_all(metadata).relations == registry.relations,
    decreases metadata.len(),
{
    if metadata.len() > 0 {
        lemma_bound_all(registry, metadata.drop_last());
    }
}

/// What is loaded from declared relations and commits begins with these relations, empty and without
/// rules, and goes on with one commit after another, none of which creates a relation.
pub proof fn law_commits_are_loaded_on_declared_relations(
    metadata: Seq<MetadataView>,
    commits: Seq<CommitView>,
    commit: CommitView,
    id: u64,
    k: int,
)
    requires
        commits_loaded(metadata, Seq::empty()) is Ok,
        0 <= k < metadata.len(),
    ensures
        ({
            let start = commits_loaded(metadata, Seq::empty())->Ok_0;
            &&& start.rules.len() == 0
            &&& start.relations.contains_key(metadata[k].id)
            &&& start.relations.contains_key(id) ==> start.relations[id].rows == Set::<Row>::empty()
                && start.relations[id].metadata.id == id && metadata.contains(
                start.relations[id].metadata,
            )
        }),
        commits_loaded(metadata, commits) matches Ok(before) ==> commits_loaded(
            metadata,
            commits.push(commit),
        ) == with_commit(before, commit, false),
{
    let start = with_relations(Map::empty(), metadata)->Ok_0;
    lemma_declared(metadata, start);
    assert(start.contains_key(metadata[k].id));
    law_commits_are_loaded_in_order(
        LoadView { relations: start, rules: Seq::empty() },
        commits,
        commit,
        false,
    );
}

} // verus!
