//! Loading what was committed gives back what there was.

use crate::kernel::algebra::Row;
use crate::kernel::changes::{lemma_listing_found, lemma_listing_shorter, lists_changes};
use crate::kernel::commit::{CatalogChangeView, CommitView, FactChangeKind, FactChangeView};
use crate::kernel::committing::{commit_to, leads_to, recorded, records, rows_committed,
    CommitResult, Evaluation};
use crate::kernel::error::{FaultView, KernelError};
use crate::kernel::live::{acceptable, creating, durable_changes, empty_kernel, installing,
    new_definition, persistable, retiring};
use crate::kernel::loading::{nothing_loaded, with_catalog_change, with_catalog_changes,
    with_commit, with_commits, with_fact_change, with_fact_changes, LoadView};
use crate::kernel::metadata::MetadataView;
use crate::kernel::relation::RelationView;
use crate::kernel::rules::RuleView;
use crate::kernel::ruling::rule_fault;
use crate::kernel::snapshot::SnapshotView;
use crate::kernel::staging::{brought, effects, kept, law_changes_tell_what_differs};
use crate::kernel::transaction::{writes_fit, TransactionView};
use vstd::prelude::*;

verus! {

/// The relations with the rows that are kept: volatile relations have none.
pub open spec fn durable_part(relations: Map<u64, RelationView>) -> Map<u64, RelationView> {
    Map::new(
        |id: u64| relations.contains_key(id),
        |id: u64|
            RelationView {
                metadata: relations[id].metadata,
                rows: if relations[id].metadata.durability is Volatile {
                    Set::empty()
                } else {
                    relations[id].rows
                },
            },
    )
}

/// Whether loading the commits of a snapshot gives back its relations, its rules and the
/// rows that are kept.
pub open spec fn replays(snapshot: SnapshotView) -> bool {
    with_commits(nothing_loaded(), snapshot.commits, true) == Ok::<LoadView, FaultView>(
        LoadView { relations: durable_part(snapshot.relations), rules: snapshot.rules },
    )
}

/// The relations once rows came and went.
pub open spec fn after_changes(
    relations: Map<u64, RelationView>,
    kinds: Map<(u64, Row), FactChangeKind>,
) -> Map<u64, RelationView> {
    Map::new(
        |id: u64| relations.contains_key(id),
        |id: u64|
            RelationView {
                metadata: relations[id].metadata,
                rows: if relations[id].metadata.durability is Volatile {
                    relations[id].rows
                } else {
                    Set::new(
                        |row: Row|
                            if kinds.contains_key((id, row)) {
                                kinds[(id, row)] is Assert
                            } else {
                                relations[id].rows.contains(row)
                            },
                    )
                },
            },
    )
}

/// Applying changes that tell of each row once does to each row what is told of it.
pub proof fn lemma_fact_changes(
    relations: Map<u64, RelationView>,
    changes: Seq<FactChangeView>,
    kinds: Map<(u64, Row), FactChangeKind>,
)
    requires
        lists_changes(changes, kinds),
        forall|i: int|
            0 <= i < changes.len() ==> relations.contains_key((#[trigger] changes[i]).relation)
                && relations[changes[i].relation].metadata.arity == changes[i].row.len(),
    ensures
        with_fact_changes(relations, changes) == Ok::<_, FaultView>(
            after_changes(relations, kinds),
        ),
    decreases changes.len(),
{
    if changes.len() == 0 {
        assert forall|fact: (u64, Row)| !kinds.contains_key(fact) by {
            if kinds.contains_key(fact) {
                let i = lemma_listing_found(changes, kinds, fact);
            }
        }
        assert forall|id: u64| relations.contains_key(id) implies #[trigger] after_changes(
            relations,
            kinds,
        )[id] == relations[id] by {
            assert(after_changes(relations, kinds)[id].rows =~= relations[id].rows);
        }
        assert(after_changes(relations, kinds) =~= relations);
    } else {
        let less = changes.drop_last();
        let last = changes.last();
        let fact = (last.relation, last.row);
        let rest = kinds.remove(fact);
        lemma_listing_shorter(changes, kinds);
        assert forall|i: int| 0 <= i < less.len() implies relations.contains_key(
            (#[trigger] less[i]).relation,
        ) && relations[less[i].relation].metadata.arity == less[i].row.len() by {
            assert(less[i] == changes[i]);
        }
        lemma_fact_changes(relations, less, rest);
        assert(changes[changes.len() - 1] == last);
        let before = after_changes(relations, rest);
        let after = after_changes(relations, kinds);
        assert(with_fact_changes(relations, changes) == with_fact_change(before, last));
        let done = with_fact_change(before, last)->Ok_0;
        assert forall|id: u64| relations.contains_key(id) implies #[trigger] after[id]
            == done[id] by {
            if relations[id].metadata.durability is Volatile {
            } else if id == last.relation {
                assert(after[id].rows =~= done[id].rows);
            } else {
                assert(after[id].rows =~= before[id].rows);
            }
        }
        assert(after =~= done);
    }
}

/// One more commit is loaded after the others.
pub proof fn lemma_one_commit(commits: Seq<CommitView>, commit: CommitView)
    ensures
        with_commits(nothing_loaded(), commits.push(commit), true) == match with_commits(
            nothing_loaded(),
            commits,
            true,
        ) {
            Err(fault) => Err(fault),
            Ok(before) => with_commit(before, commit, true),
        },
{
    assert(commits.push(commit).drop_last() =~= commits);
    assert(commits.push(commit).last() == commit);
}

proof fn lemma_one_catalog_change(loaded: LoadView, change: CatalogChangeView)
    ensures
        with_catalog_changes(loaded, seq![change], true) == with_catalog_change(
            loaded,
            change,
            true,
        ),
{
    let one = seq![change];
    assert(one.drop_last() =~= Seq::empty());
    assert(one.last() == change);
    assert(with_catalog_changes(loaded, one.drop_last(), true) == Ok::<_, FaultView>(loaded));
}

/// A kernel that starts without relations is given back by loading its commits.
pub proof fn law_an_empty_kernel_replays(snapshot: SnapshotView)
    requires
        snapshot == empty_kernel(snapshot.computed.relations),
    ensures
        replays(snapshot),
{
    assert(durable_part(snapshot.relations) =~= snapshot.relations);
}

/// Creating a relation keeps that loading the commits gives back what there is.
pub proof fn law_creating_a_relation_replays(current: SnapshotView, metadata: MetadataView)
    requires
        replays(current),
        creating(current, metadata) is Ok,
    ensures
        replays(
            recorded(
                current,
                creating(current, metadata)->Ok_0,
                seq![CatalogChangeView::RelationCreated(metadata)],
                Seq::empty(),
                Seq::empty(),
            ),
        ),
{
    let next = creating(current, metadata)->Ok_0;
    let change = CatalogChangeView::RelationCreated(metadata);
    let commit = commit_to(next, seq![change], Seq::empty(), Seq::empty());
    let start = LoadView { relations: durable_part(current.relations), rules: current.rules };
    lemma_one_commit(current.commits, commit);
    lemma_one_catalog_change(start, change);
    let made = start.relations.insert(
        metadata.id,
        RelationView { metadata, rows: Set::empty() },
    );
    assert(made =~= durable_part(next.relations));
}

/// Installing a rule keeps that loading the commits gives back what there is.
pub proof fn law_installing_a_rule_replays(
    current: SnapshotView,
    rule: RuleView,
    source: Seq<char>,
    evaluated: Option<Result<Evaluation, KernelError>>,
    after: SnapshotView,
)
    requires
        replays(current),
        installing(current, rule, source) is Ok,
        records(
            current,
            installing(current, rule, source)->Ok_0,
            seq![CatalogChangeView::RuleInstalled(new_definition(current.rules, rule, source))],
            Seq::empty(),
            evaluated,
            after,
        ),
    ensures
        replays(after),
{
    let definition = new_definition(current.rules, rule, source);
    let change = CatalogChangeView::RuleInstalled(definition);
    let start = LoadView { relations: durable_part(current.relations), rules: current.rules };
    lemma_one_commit(current.commits, after.commits.last());
    lemma_one_catalog_change(start, change);
    lemma_rule_fault_durable(current.relations, rule);
    assert(after.commits =~= current.commits.push(after.commits.last()));
}

/// What is wrong with a rule does not depend on the rows that there are.
proof fn lemma_rule_fault_durable(relations: Map<u64, RelationView>, rule: RuleView)
    ensures
        rule_fault(durable_part(relations), rule) == rule_fault(relations, rule),
{
    lemma_body_fault_durable(relations, rule.body);
}

proof fn lemma_body_fault_durable(
    relations: Map<u64, RelationView>,
    body: Seq<crate::kernel::rules::BodyItemView>,
)
    ensures
        crate::kernel::ruling::body_fault(durable_part(relations), body)
            == crate::kernel::ruling::body_fault(relations, body),
    decreases body.len(),
{
    if body.len() > 0 {
        lemma_body_fault_durable(relations, body.drop_last());
    }
}

/// Disabling a rule keeps that loading the commits gives back what there is.
pub proof fn law_disabling_a_rule_replays(
    current: SnapshotView,
    id: u64,
    evaluated: Option<Result<Evaluation, KernelError>>,
    after: SnapshotView,
)
    requires
        replays(current),
        retiring(current, id) is Ok,
        records(
            current,
            retiring(current, id)->Ok_0,
            seq![CatalogChangeView::RuleDisabled(id)],
            Seq::empty(),
            evaluated,
            after,
        ),
    ensures
        replays(after),
{
    let change = CatalogChangeView::RuleDisabled(id);
    let start = LoadView { relations: durable_part(current.relations), rules: current.rules };
    lemma_one_commit(current.commits, after.commits.last());
    lemma_one_catalog_change(start, change);
    assert(after.commits =~= current.commits.push(after.commits.last()));
}

/// Committing a transaction keeps that loading the commits gives back what there is.
pub proof fn law_committing_rows_replays(
    view: TransactionView,
    current: SnapshotView,
    evaluated: Option<Result<Evaluation, KernelError>>,
    result: Result<CommitResult, KernelError>,
    changes: Seq<FactChangeView>,
)
    requires
        replays(current),
        writes_fit(view.writes, view.base),
        acceptable(view, current),
        lists_changes(changes, effects(view, current)),
        rows_committed(result, current, leads_to(view, current), changes, evaluated),
        result is Ok,
    ensures
        replays(result->Ok_0.snapshot@),
{
    let after = result->Ok_0.snapshot@;
    let commit = result->Ok_0.commit@;
    let kinds = effects(view, current);
    let start = durable_part(current.relations);
    assert(after.commits == current.commits.push(commit));
    lemma_one_commit(current.commits, commit);
    assert(with_catalog_changes(
        (LoadView { relations: start, rules: current.rules }),
        Seq::empty(),
        true,
    ) == Ok::<_, FaultView>(LoadView { relations: start, rules: current.rules }));
    assert forall|i: int| 0 <= i < changes.len() implies start.contains_key(
        (#[trigger] changes[i]).relation,
    ) && start[changes[i].relation].metadata.arity == changes[i].row.len() by {
        let id = changes[i].relation;
        assert(kinds.contains_key((id, changes[i].row)));
        assert(view.writes.contains_key(id) && view.writes[id].contains_key(changes[i].row));
        assert(kept(view, current, id));
    }
    lemma_fact_changes(start, changes, kinds);
    let done = after_changes(start, kinds);
    let expected = durable_part(brought(view, current));
    assert forall|id: u64| current.relations.contains_key(id) implies #[trigger] done[id]
        == expected[id] by {
        if !(current.relations[id].metadata.durability is Volatile) {
            assert forall|row: Row| #[trigger] done[id].rows.contains(row)
                == expected[id].rows.contains(row) by {
                law_changes_tell_what_differs(view, current, (id, row));
            }
            assert(done[id].rows =~= expected[id].rows);
        }
    }
    assert(done =~= expected);
    assert(after.relations == brought(view, current));
    assert(after.rules == current.rules);
}

/// Whether two maps hold the same relations, whatever their rows.
pub open spec fn same_relations(a: Map<u64, RelationView>, b: Map<u64, RelationView>) -> bool {
    &&& a.dom() == b.dom()
    &&& forall|id: u64| #[trigger] a.contains_key(id) ==> a[id].metadata == b[id].metadata
}

proof fn lemma_kept_changes(
    relations: Map<u64, RelationView>,
    loaded: Map<u64, RelationView>,
    changes: Seq<FactChangeView>,
)
    requires
        same_relations(loaded, relations),
        durable_changes(relations, changes) is Ok,
    ensures
        with_fact_changes(loaded, durable_changes(relations, changes)->Ok_0) == with_fact_changes(
            loaded,
            changes,
        ),
        with_fact_changes(loaded, changes) matches Ok(after) ==> same_relations(after, relations),
    decreases changes.len(),
{
    if changes.len() > 0 {
        let less = changes.drop_last();
        let last = changes.last();
        lemma_kept_changes(relations, loaded, less);
        let some = durable_changes(relations, less)->Ok_0;
        let all = durable_changes(relations, changes)->Ok_0;
        match with_fact_changes(loaded, less) {
            Err(_) => {
                if relations[last.relation].metadata.durability is Durable {
                    assert(all.drop_last() =~= some);
                }
            },
            Ok(before) => {
                assert(before.contains_key(last.relation));
                if relations[last.relation].metadata.durability is Durable {
                    assert(all.drop_last() =~= some);
                    assert(all.last() == last);
                }
                if let Ok(after) = with_fact_change(before, last) {
                    assert(after.dom() =~= relations.dom());
                }
            },
        }
    }
}

/// What is kept of a commit loads like the commit itself, and where nothing is kept the
/// commit changes nothing that is loaded.
pub proof fn law_what_is_kept_loads_like_the_commit(
    relations: Map<u64, RelationView>,
    loaded: LoadView,
    commit: CommitView,
)
    requires
        with_catalog_changes(loaded, commit.catalog_changes, true) matches Ok(before)
            && same_relations(before.relations, relations),
        persistable(relations, commit) is Ok,
    ensures
        match persistable(relations, commit)->Ok_0 {
            Some(some) => with_commit(loaded, some, true) == with_commit(loaded, commit, true),
            None => with_commit(loaded, commit, true) == Ok::<_, FaultView>(loaded),
        },
{
    let before = with_catalog_changes(loaded, commit.catalog_changes, true)->Ok_0;
    lemma_kept_changes(relations, before.relations, commit.changes);
    if persistable(relations, commit)->Ok_0 is None {
        assert(commit.catalog_changes =~= Seq::empty());
        assert(durable_changes(relations, commit.changes)->Ok_0 =~= Seq::empty());
    }
}

} // verus!
