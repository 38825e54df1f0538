//! A fork tells what was done on it, and publishing it replays.

use crate::kernel::algebra::Row;
use crate::kernel::changes::{change_facts, last_kinds, lemma_last_kinds_listed,
    lemma_last_kinds_of, lemma_listing_found, lists_changes};
use crate::kernel::commit::{fact_change_views, since, CatalogChangeView, CommitView,
    FactChangeView};
use crate::kernel::committing::{leads_to, recorded, records, rows_committed, CommitResult,
    Differs, Evaluation};
use crate::kernel::error::{FaultView, KernelError};
use crate::kernel::forking::{catalog_difference, created, fact_difference, in_order, last_rule,
    plans_staged, relations_kept_fault, ruled, rules_kept_fault, staged_fault, staged_next, touched,
    StagedPlan};
use crate::kernel::live::{acceptable, creating, empty_kernel, installing, new_definition,
    new_rule_id, retiring};
use crate::kernel::loading::{with_catalog_changes, LoadView};
use crate::kernel::metadata::MetadataView;
use crate::kernel::relation::{metadata_fault, RelationView};
use crate::kernel::replay::{after_changes, durable_part, lemma_fact_changes, lemma_one_commit,
    replays};
use crate::kernel::rules::{active_rule_views, DefinitionView, RuleView};
use crate::kernel::ruling::{body_fault, first_free_rule_id, is_rule_id,
    lemma_free_rule_id, rule_fault, rule_place};
use crate::kernel::snapshot::SnapshotView;
use crate::kernel::staging::{brought, effects, kept, law_changes_tell_what_differs};
use crate::kernel::states::{id_listing, lemma_ids_listed};
use crate::kernel::strata::{law_fewer_rules_stay_stratified,
    law_rules_without_negation_are_stratified, stratified};
use crate::kernel::transaction::{writes_fit, TransactionView};
use crate::value::IDENTITY_MAX;
use vstd::prelude::*;

verus! {

/// Whether a row is stored.
pub open spec fn holds(snapshot: SnapshotView, fact: (u64, Row)) -> bool {
    snapshot.relations.contains_key(fact.0) && snapshot.relations[fact.0].rows.contains(fact.1)
}

/// Whether no two rules have the same identity.
pub open spec fn rules_apart(rules: Seq<DefinitionView>) -> bool {
    forall|i: int, j: int|
        0 <= i < j < rules.len() ==> (#[trigger] rules[i]).id != (#[trigger] rules[j]).id
}

/// Whether rules are others with more behind them, except that some may have been disabled.
pub open spec fn extends(rules: Seq<DefinitionView>, more: Seq<DefinitionView>) -> bool {
    &&& rules.len() <= more.len()
    &&& forall|i: int|
        0 <= i < rules.len() ==> {
            &&& (#[trigger] more[i]).id == rules[i].id
            &&& more[i].rule == rules[i].rule
            &&& more[i].source == rules[i].source
            &&& more[i].active ==> rules[i].active
        }
}

/// Whether a snapshot is one of those that a kernel holds: relations stand under their
/// identities, rules have identities of their own and layers, and no commit is newer than the
/// snapshot.
pub open spec fn sound(snapshot: SnapshotView) -> bool {
    &&& snapshot.relations.dom().finite()
    &&& forall|id: u64| #[trigger]
        snapshot.relations.contains_key(id) ==> snapshot.relations[id].metadata.id == id
    &&& rules_apart(snapshot.rules)
    &&& stratified(active_rule_views(snapshot.rules))
    &&& snapshot.commits.len() > 0 ==> snapshot.commits.last().version <= snapshot.version
}

/// What commits on a fork did to rows.
pub open spec fn done_since(from: SnapshotView, fork: SnapshotView) -> Seq<FactChangeView> {
    touched(since(fork.commits, from.version))
}

/// Whether a snapshot is what working on a fork of another leads to: relations and rules were
/// added and rules disabled, and each row that came or went is told by a commit on the fork.
pub open spec fn forks(from: SnapshotView, fork: SnapshotView) -> bool {
    &&& sound(fork)
    &&& from.version <= fork.version
    &&& forall|id: u64| #[trigger]
        from.relations.contains_key(id) ==> {
            &&& fork.relations.contains_key(id)
            &&& fork.relations[id].metadata == from.relations[id].metadata
            &&& fork.computes(id) == from.computes(id)
        }
    &&& forall|id: u64| #[trigger]
        fork.relations.contains_key(id) && !from.relations.contains_key(id) ==> metadata_fault(
            fork.relations[id].metadata,
        ) is None
    &&& extends(from.rules, fork.rules)
    &&& forall|i: int|
        from.rules.len() <= i < fork.rules.len() ==> rule_fault(
            fork.relations,
            (#[trigger] fork.rules[i]).rule,
        ) is None
    &&& forall|fact: (u64, Row)| #[trigger]
        holds(fork, fact) != holds(from, fact) ==> change_facts(done_since(from, fork)).contains(
            fact,
        )
    &&& forall|i: int|
        0 <= i < done_since(from, fork).len() ==> fits(fork, #[trigger] done_since(from, fork)[i])
}

/// Whether a change is to a row that the kernel stores.
pub open spec fn fits(snapshot: SnapshotView, change: FactChangeView) -> bool {
    &&& snapshot.relations.contains_key(change.relation)
    &&& snapshot.relations[change.relation].metadata.arity == change.row.len()
    &&& !snapshot.computes(change.relation)
}

/// A fork starts as what it was made of.
pub proof fn law_a_fork_starts_as_it_was_made(from: SnapshotView)
    requires
        sound(from),
    ensures
        forks(from, from),
{
    assert(since(from.commits, from.version) =~= Seq::empty());
}

/// One more commit is one of those since the fork was made.
proof fn lemma_one_more(from: SnapshotView, fork: SnapshotView, commit: CommitView)
    requires
        commit.version > from.version,
    ensures
        touched(since(fork.commits.push(commit), from.version)) == done_since(from, fork)
            + commit.changes,
{
    let all = fork.commits.push(commit);
    assert(all.drop_last() =~= fork.commits);
    let newer = since(fork.commits, from.version);
    assert(newer.push(commit).drop_last() =~= newer);
}

/// What is wrong with a rule does not depend on rows, and a rule that nothing is wrong with
/// stays so when relations are added.
proof fn lemma_rule_still_fits(
    relations: Map<u64, RelationView>,
    more: Map<u64, RelationView>,
    rule: RuleView,
)
    requires
        rule_fault(relations, rule) is None,
        forall|id: u64| #[trigger]
            relations.contains_key(id) ==> more.contains_key(id) && more[id].metadata
                == relations[id].metadata,
    ensures
        rule_fault(more, rule) is None,
{
    lemma_body_still_fits(relations, more, rule.body);
}

proof fn lemma_body_still_fits(
    relations: Map<u64, RelationView>,
    more: Map<u64, RelationView>,
    body: Seq<crate::kernel::rules::BodyItemView>,
)
    requires
        body_fault(relations, body) is None,
        forall|id: u64| #[trigger]
            relations.contains_key(id) ==> more.contains_key(id) && more[id].metadata
                == relations[id].metadata,
    ensures
        body_fault(more, body) is None,
    decreases body.len(),
{
    if body.len() > 0 {
        lemma_body_still_fits(relations, more, body.drop_last());
    }
}

/// Creating a relation on a fork keeps it a fork.
pub proof fn law_creating_on_a_fork(
    from: SnapshotView,
    fork: SnapshotView,
    metadata: MetadataView,
)
    requires
        forks(from, fork),
        fork.version < u64::MAX,
        creating(fork, metadata) is Ok,
    ensures
        forks(
            from,
            recorded(
                fork,
                creating(fork, metadata)->Ok_0,
                seq![CatalogChangeView::RelationCreated(metadata)],
                Seq::empty(),
                Seq::empty(),
            ),
        ),
{
    let next = creating(fork, metadata)->Ok_0;
    let after = recorded(
        fork,
        next,
        seq![CatalogChangeView::RelationCreated(metadata)],
        Seq::empty(),
        Seq::empty(),
    );
    lemma_one_more(from, fork, after.commits.last());
    let before = done_since(from, fork);
    assert(done_since(from, after) =~= before);
    assert forall|id: u64| fork.relations.contains_key(id) implies #[trigger] after.computes(id)
        == fork.computes(id) && after.relations[id] == fork.relations[id] by {
        assert(fork.relations[id].metadata.id == id);
    }
    assert forall|fact: (u64, Row)| #[trigger] holds(after, fact) == holds(fork, fact) by {}
    assert forall|i: int| from.rules.len() <= i < after.rules.len() implies rule_fault(
        after.relations,
        (#[trigger] after.rules[i]).rule,
    ) is None by {
        lemma_rule_still_fits(fork.relations, after.relations, fork.rules[i].rule);
    }
    assert forall|i: int| 0 <= i < done_since(from, after).len() implies fits(
        after,
        #[trigger] done_since(from, after)[i],
    ) by {
        assert(fits(fork, before[i]));
        assert(after.computes(before[i].relation) == fork.computes(before[i].relation));
    }
    assert forall|id: u64| #[trigger] from.relations.contains_key(id) implies {
        &&& after.relations.contains_key(id)
        &&& after.relations[id].metadata == from.relations[id].metadata
        &&& after.computes(id) == from.computes(id)
    } by {
        assert(fork.relations.contains_key(id));
    }
}

/// A commit that changes no rows and no relations keeps what a fork tells of rows.
proof fn lemma_only_rules(from: SnapshotView, fork: SnapshotView, after: SnapshotView)
    requires
        forks(from, fork),
        fork.version < u64::MAX,
        after.version == fork.version + 1,
        after.relations == fork.relations,
        after.computed == fork.computed,
        after.commits.len() > 0,
        after.commits == fork.commits.push(after.commits.last()),
        after.commits.last().version == after.version,
        after.commits.last().changes == Seq::<FactChangeView>::empty(),
        rules_apart(after.rules),
        stratified(active_rule_views(after.rules)),
        extends(from.rules, after.rules),
        forall|i: int|
            from.rules.len() <= i < after.rules.len() ==> rule_fault(
                after.relations,
                (#[trigger] after.rules[i]).rule,
            ) is None,
    ensures
        forks(from, after),
{
    lemma_one_more(from, fork, after.commits.last());
    let before = done_since(from, fork);
    assert(done_since(from, after) =~= before);
    assert forall|fact: (u64, Row)| #[trigger] holds(after, fact) == holds(fork, fact) by {}
    assert forall|i: int| 0 <= i < done_since(from, after).len() implies fits(
        after,
        #[trigger] done_since(from, after)[i],
    ) by {
        assert(fits(fork, before[i]));
        assert(after.computes(before[i].relation) == fork.computes(before[i].relation));
    }
    assert forall|id: u64| #[trigger] from.relations.contains_key(id) implies {
        &&& after.relations.contains_key(id)
        &&& after.relations[id].metadata == from.relations[id].metadata
        &&& after.computes(id) == from.computes(id)
    } by {
        assert(fork.relations.contains_key(id));
        assert(after.computes(id) == fork.computes(id));
    }
}

/// Installing a rule on a fork keeps it a fork.
pub proof fn law_installing_on_a_fork(
    from: SnapshotView,
    fork: SnapshotView,
    rule: RuleView,
    source: Seq<char>,
    evaluated: Option<Result<Evaluation, KernelError>>,
    after: SnapshotView,
)
    requires
        forks(from, fork),
        fork.version < u64::MAX,
        fork.rules.len() <= IDENTITY_MAX,
        installing(fork, rule, source) is Ok,
        records(
            fork,
            installing(fork, rule, source)->Ok_0,
            seq![CatalogChangeView::RuleInstalled(new_definition(fork.rules, rule, source))],
            Seq::empty(),
            evaluated,
            after,
        ),
    ensures
        forks(from, after),
{
    let found = lemma_free_rule_id(fork.rules);
    let definition = new_definition(fork.rules, rule, source);
    assert(first_free_rule_id(fork.rules, new_rule_id(fork.rules)));
    assert(!is_rule_id(fork.rules, definition.id as int));
    assert(after.rules == fork.rules.push(definition));
    assert forall|i: int, j: int| 0 <= i < j < after.rules.len() implies (
    #[trigger] after.rules[i]).id != (#[trigger] after.rules[j]).id by {
        assert(fork.rules[i].id != definition.id);
        if j < fork.rules.len() {
            assert(fork.rules[i].id != fork.rules[j].id);
        }
    }
    assert forall|i: int| from.rules.len() <= i < after.rules.len() implies rule_fault(
        after.relations,
        (#[trigger] after.rules[i]).rule,
    ) is None by {
        if i < fork.rules.len() {
            assert(after.rules[i] == fork.rules[i]);
        }
    }
    assert forall|i: int| 0 <= i < from.rules.len() implies {
        &&& (#[trigger] after.rules[i]).id == from.rules[i].id
        &&& after.rules[i].rule == from.rules[i].rule
        &&& after.rules[i].source == from.rules[i].source
        &&& after.rules[i].active ==> from.rules[i].active
    } by {
        assert(after.rules[i] == fork.rules[i]);
    }
    lemma_only_rules(from, fork, after);
}

proof fn lemma_place(rules: Seq<DefinitionView>, id: u64)
    ensures
        rule_place(rules, id) matches Some(i) ==> 0 <= i < rules.len() && rules[i].id == id,
        rule_place(rules, id) is None ==> forall|i: int|
            0 <= i < rules.len() ==> (#[trigger] rules[i]).id != id,
    decreases rules.len(),
{
    if rules.len() > 0 {
        lemma_place(rules.drop_last(), id);
        if rule_place(rules, id) is None {
            assert forall|i: int| 0 <= i < rules.len() implies (#[trigger] rules[i]).id != id by {
                if i < rules.len() - 1 {
                    assert(rules.drop_last()[i].id != id);
                }
            }
        }
    }
}

/// Disabling a rule on a fork keeps it a fork.
pub proof fn law_disabling_on_a_fork(
    from: SnapshotView,
    fork: SnapshotView,
    id: u64,
    evaluated: Option<Result<Evaluation, KernelError>>,
    after: SnapshotView,
)
    requires
        forks(from, fork),
        fork.version < u64::MAX,
        retiring(fork, id) is Ok,
        records(
            fork,
            retiring(fork, id)->Ok_0,
            seq![CatalogChangeView::RuleDisabled(id)],
            Seq::empty(),
            evaluated,
            after,
        ),
    ensures
        forks(from, after),
{
    lemma_place(fork.rules, id);
    let place = rule_place(fork.rules, id)->0;
    assert(after.rules == fork.rules.update(
        place,
        (DefinitionView { active: false, ..fork.rules[place] }),
    ));
    assert forall|i: int| 0 <= i < fork.rules.len() implies {
        &&& (#[trigger] after.rules[i]).id == fork.rules[i].id
        &&& after.rules[i].rule == fork.rules[i].rule
        &&& after.rules[i].source == fork.rules[i].source
        &&& after.rules[i].active ==> fork.rules[i].active
    } by {}
    assert forall|i: int, j: int| 0 <= i < j < after.rules.len() implies (
    #[trigger] after.rules[i]).id != (#[trigger] after.rules[j]).id by {
        assert(fork.rules[i].id != fork.rules[j].id);
    }
    assert forall|i: int| from.rules.len() <= i < after.rules.len() implies rule_fault(
        after.relations,
        (#[trigger] after.rules[i]).rule,
    ) is None by {
        assert(after.rules[i].rule == fork.rules[i].rule);
    }
    assert forall|i: int| 0 <= i < from.rules.len() implies {
        &&& (#[trigger] after.rules[i]).id == from.rules[i].id
        &&& after.rules[i].rule == from.rules[i].rule
        &&& after.rules[i].source == from.rules[i].source
        &&& after.rules[i].active ==> from.rules[i].active
    } by {
        assert(fork.rules[i].id == from.rules[i].id);
    }
    lemma_only_rules(from, fork, after);
}

/// Committing a transaction on a fork keeps it a fork. What the transaction wrote to is as
/// computed, or as stored, as it was when the transaction began.
pub proof fn law_committing_on_a_fork(
    from: SnapshotView,
    fork: SnapshotView,
    view: TransactionView,
    evaluated: Option<Result<Evaluation, KernelError>>,
    result: Result<CommitResult, KernelError>,
    changes: Seq<FactChangeView>,
)
    requires
        forks(from, fork),
        fork.version < u64::MAX,
        writes_fit(view.writes, view.base),
        forall|id: u64| #[trigger]
            view.writes.contains_key(id) ==> fork.computes(id) == view.base.computes(id),
        acceptable(view, fork),
        lists_changes(changes, effects(view, fork)),
        rows_committed(result, fork, leads_to(view, fork), changes, evaluated),
        result is Ok,
    ensures
        forks(from, result->Ok_0.snapshot@),
{
    let after = result->Ok_0.snapshot@;
    let commit = result->Ok_0.commit@;
    let kinds = effects(view, fork);
    assert(after.commits == fork.commits.push(commit));
    assert(commit.version == after.version);
    assert(commit.changes == changes);
    assert(after.relations == brought(view, fork));
    assert(after.relations.dom() =~= fork.relations.dom());
    lemma_one_more(from, fork, commit);
    let before = done_since(from, fork);
    let all = done_since(from, after);
    assert(all == before + changes);
    assert forall|id: u64| fork.relations.contains_key(id) implies #[trigger] after.computes(id)
        == fork.computes(id) && after.relations[id].metadata == fork.relations[id].metadata by {}
    assert forall|i: int| 0 <= i < all.len() implies fits(after, #[trigger] all[i]) by {
        if i < before.len() {
            assert(all[i] == before[i]);
            assert(fits(fork, before[i]));
            assert(after.computes(before[i].relation) == fork.computes(before[i].relation));
        } else {
            let change = changes[i - before.len()];
            assert(all[i] == change);
            let id = change.relation;
            assert(kinds.contains_key((id, change.row)));
            assert(view.writes.contains_key(id) && view.writes[id].contains_key(change.row));
            assert(kept(view, fork, id));
            assert(after.computes(id) == fork.computes(id));
        }
    }
    assert forall|fact: (u64, Row)| #[trigger]
        holds(after, fact) != holds(from, fact) implies change_facts(all).contains(fact) by {
        if holds(fork, fact) != holds(from, fact) {
            let i = choose|i: int| 0 <= i < before.len() && change_facts(before)[i] == fact;
            assert(change_facts(before).contains(fact));
            assert(all[i] == before[i]);
            assert(change_facts(all)[i] == fact);
        } else {
            law_changes_tell_what_differs(view, fork, fact);
            let i = lemma_listing_found(changes, kinds, fact);
            assert(all[before.len() + i] == changes[i]);
            assert(change_facts(all)[before.len() + i] == fact);
        }
    }
    assert forall|i: int| from.rules.len() <= i < after.rules.len() implies rule_fault(
        after.relations,
        (#[trigger] after.rules[i]).rule,
    ) is None by {
        lemma_rule_still_fits(fork.relations, after.relations, fork.rules[i].rule);
    }
    assert forall|id: u64| #[trigger] from.relations.contains_key(id) implies {
        &&& after.relations.contains_key(id)
        &&& after.relations[id].metadata == from.relations[id].metadata
        &&& after.computes(id) == from.computes(id)
    } by {
        assert(fork.relations.contains_key(id));
        assert(after.computes(id) == fork.computes(id));
    }
}

/// Changes to the catalog in two lots do what they do one lot after the other.
proof fn lemma_catalog_lots(
    loaded: LoadView,
    first: Seq<CatalogChangeView>,
    second: Seq<CatalogChangeView>,
)
    ensures
        with_catalog_changes(loaded, first + second, true) == match with_catalog_changes(
            loaded,
            first,
            true,
        ) {
            Err(fault) => Err(fault),
            Ok(before) => with_catalog_changes(before, second, true),
        },
    decreases second.len(),
{
    if second.len() == 0 {
        assert(first + second =~= first);
    } else {
        assert((first + second).drop_last() =~= first + second.drop_last());
        assert((first + second).last() == second.last());
        lemma_catalog_lots(loaded, first, second.drop_last());
    }
}

/// Relations with more, which have no rows.
spec fn grown(
    relations: Map<u64, RelationView>,
    more: Map<u64, RelationView>,
    ids: Seq<u64>,
) -> Map<u64, RelationView> {
    Map::new(
        |id: u64| relations.contains_key(id) || ids.contains(id),
        |id: u64|
            if relations.contains_key(id) {
                relations[id]
            } else {
                RelationView { metadata: more[id].metadata, rows: Set::empty() }
            },
    )
}

proof fn lemma_created(from: SnapshotView, fork: SnapshotView, loaded: LoadView, ids: Seq<u64>)
    requires
        forks(from, fork),
        loaded.relations.dom() == from.relations.dom(),
        forall|i: int| 0 <= i < ids.len() ==> fork.relations.contains_key(#[trigger] ids[i]),
    ensures
        with_catalog_changes(
            loaded,
            created(from.relations, fork.relations, ids),
            true,
        ) == Ok::<LoadView, FaultView>(
            LoadView { relations: grown(loaded.relations, fork.relations, ids), ..loaded },
        ),
    decreases ids.len(),
{
    if ids.len() == 0 {
        assert(grown(loaded.relations, fork.relations, ids) =~= loaded.relations);
    } else {
        let less = ids.drop_last();
        let id = ids.last();
        assert(fork.relations.contains_key(ids[ids.len() - 1]));
        assert forall|i: int| 0 <= i < less.len() implies fork.relations.contains_key(
            #[trigger] less[i],
        ) by {
            assert(less[i] == ids[i]);
        }
        lemma_created(from, fork, loaded, less);
        let before = grown(loaded.relations, fork.relations, less);
        let all = grown(loaded.relations, fork.relations, ids);
        assert forall|other: u64| ids.contains(other) == (less.contains(other) || other == id) by {
            if ids.contains(other) && other != id {
                let i = choose|i: int| 0 <= i < ids.len() && ids[i] == other;
                assert(less[i] == other);
            }
            if less.contains(other) {
                let i = choose|i: int| 0 <= i < less.len() && less[i] == other;
                assert(ids[i] == other);
            }
            if other == id {
                assert(ids[ids.len() - 1] == id);
            }
        }
        assert(loaded.relations.contains_key(id) == from.relations.contains_key(id));
        if from.relations.contains_key(id) {
            assert(all =~= before);
        } else {
            let metadata = fork.relations[id].metadata;
            let told = created(from.relations, fork.relations, less);
            assert(told.push(CatalogChangeView::RelationCreated(metadata)).drop_last() =~= told);
            assert(metadata.id == id);
            assert(all =~= before.insert(id, RelationView { metadata, rows: Set::empty() }));
        }
    }
}

proof fn lemma_last_rule(rules: Seq<DefinitionView>, id: u64)
    requires
        rules_apart(rules),
    ensures
        match last_rule(rules, id) {
            None => forall|i: int| 0 <= i < rules.len() ==> (#[trigger] rules[i]).id != id,
            Some(found) => exists|i: int| 0 <= i < rules.len() && #[trigger] rules[i] == found,
        },
        forall|i: int|
            0 <= i < rules.len() && (#[trigger] rules[i]).id == id ==> last_rule(rules, id) == Some(
                rules[i],
            ),
    decreases rules.len(),
{
    if rules.len() > 0 {
        let less = rules.drop_last();
        assert(rules_apart(less)) by {
            assert forall|i: int, j: int| 0 <= i < j < less.len() implies (#[trigger] less[i]).id
                != (#[trigger] less[j]).id by {
                assert(rules[i].id != rules[j].id);
            }
        }
        lemma_last_rule(less, id);
        assert(rules[rules.len() - 1] == rules.last());
        assert forall|i: int| 0 <= i < rules.len() && (#[trigger] rules[i]).id == id implies
            last_rule(rules, id) == Some(rules[i]) by {
            if i < less.len() {
                assert(less[i] == rules[i]);
                assert(rules[i].id != rules[rules.len() - 1].id);
            }
        }
        if last_rule(rules, id) is None {
            assert forall|i: int| 0 <= i < rules.len() implies (#[trigger] rules[i]).id != id by {
                if i < less.len() {
                    assert(less[i] == rules[i]);
                }
            }
        } else if rules.last().id != id {
            let i = choose|i: int| 0 <= i < less.len() && #[trigger] less[i] == last_rule(
                less,
                id,
            )->0;
            assert(rules[i] == less[i]);
        }
    }
}

/// The rules once the first `k` of a fork's are taken over.
spec fn taken_over(
    rules: Seq<DefinitionView>,
    more: Seq<DefinitionView>,
    k: int,
) -> Seq<DefinitionView> {
    Seq::new(
        if k < rules.len() {
            rules.len()
        } else {
            k as nat
        },
        |i: int|
            if i < k {
                more[i]
            } else {
                rules[i]
            },
    )
}

/// A rule is active among rules only if it is among them.
proof fn lemma_active_from(rules: Seq<DefinitionView>, more: Seq<DefinitionView>)
    requires
        forall|i: int| 0 <= i < rules.len() ==> more.contains(#[trigger] rules[i]),
    ensures
        forall|i: int|
            0 <= i < active_rule_views(rules).len() ==> active_rule_views(more).contains(
                #[trigger] active_rule_views(rules)[i],
            ),
{
    let active = |rule: DefinitionView| rule.active;
    assert forall|i: int| 0 <= i < active_rule_views(rules).len() implies active_rule_views(
        more,
    ).contains(#[trigger] active_rule_views(rules)[i]) by {
        let rule = rules.filter(active)[i];
        rules.lemma_filter_pred(active, i);
        assert(rules.filter(active).contains(rule));
        rules.lemma_filter_contains_rev(active, rule);
        let j = choose|j: int| 0 <= j < rules.len() && rules[j] == rule;
        assert(more.contains(rules[j]));
        let k = choose|k: int| 0 <= k < more.len() && more[k] == rule;
        more.lemma_filter_contains(active, k);
        let m = choose|m: int|
            0 <= m < more.filter(active).len() && more.filter(active)[m] == more[k];
        assert(active_rule_views(more)[m] == active_rule_views(rules)[i]);
    }
}

proof fn lemma_ruled(from: SnapshotView, fork: SnapshotView, loaded: LoadView, k: int)
    requires
        forks(from, fork),
        loaded.rules == from.rules,
        forall|id: u64| #[trigger]
            fork.relations.contains_key(id) ==> loaded.relations.contains_key(id)
                && loaded.relations[id].metadata == fork.relations[id].metadata,
        0 <= k <= fork.rules.len(),
    ensures
        with_catalog_changes(
            loaded,
            ruled(from.rules, fork.rules.take(k)),
            true,
        ) == Ok::<LoadView, FaultView>(
            LoadView { rules: taken_over(from.rules, fork.rules, k), ..loaded },
        ),
    decreases k,
{
    let n = from.rules.len();
    if k == 0 {
        assert(taken_over(from.rules, fork.rules, k) =~= from.rules);
    } else {
        lemma_ruled(from, fork, loaded, k - 1);
        let prefix = fork.rules.take(k);
        assert(prefix.drop_last() =~= fork.rules.take(k - 1));
        let rule = prefix.last();
        assert(rule == fork.rules[k - 1]);
        let before = taken_over(from.rules, fork.rules, k - 1);
        let after = taken_over(from.rules, fork.rules, k);
        let told = ruled(from.rules, fork.rules.take(k - 1));
        assert(rules_apart(from.rules)) by {
            assert forall|i: int, j: int| 0 <= i < j < n implies (#[trigger] from.rules[i]).id
                != (#[trigger] from.rules[j]).id by {
                assert(fork.rules[i].id != fork.rules[j].id);
            }
        }
        lemma_last_rule(from.rules, rule.id);
        if k <= n {
            let known = from.rules[k - 1];
            assert(fork.rules[k - 1].id == known.id);
            assert(last_rule(from.rules, rule.id) == Some(known));
            if known.active && !rule.active {
                let change = CatalogChangeView::RuleDisabled(rule.id);
                assert(told.push(change).drop_last() =~= told);
                lemma_place(before, rule.id);
                assert(before[k - 1].id == rule.id);
                let place = rule_place(before, rule.id)->0;
                assert(before[place].id == fork.rules[place].id);
                assert(after =~= before.update(
                    k - 1,
                    (DefinitionView { active: false, ..before[k - 1] }),
                ));
            } else {
                assert(after =~= before);
            }
        } else {
            assert(last_rule(from.rules, rule.id) is None) by {
                if last_rule(from.rules, rule.id) is Some {
                    let i = choose|i: int|
                        0 <= i < n && #[trigger] from.rules[i] == last_rule(
                            from.rules,
                            rule.id,
                        )->0;
                    lemma_last_rule_id(from.rules, rule.id);
                    assert(fork.rules[i].id == from.rules[i].id);
                    assert(fork.rules[i].id != fork.rules[k - 1].id);
                }
            }
            let change = CatalogChangeView::RuleInstalled(rule);
            assert(told.push(change).drop_last() =~= told);
            lemma_rule_still_fits(fork.relations, loaded.relations, rule.rule);
            assert(after =~= before.push(rule));
            assert forall|i: int| 0 <= i < after.len() implies fork.rules.contains(
                #[trigger] after[i],
            ) by {
                assert(after[i] == fork.rules[i]);
            }
            lemma_active_from(after, fork.rules);
            law_fewer_rules_stay_stratified(
                active_rule_views(fork.rules),
                active_rule_views(after),
            );
        }
    }
}

proof fn lemma_last_rule_id(rules: Seq<DefinitionView>, id: u64)
    ensures
        last_rule(rules, id) matches Some(found) ==> found.id == id,
    decreases rules.len(),
{
    if rules.len() > 0 {
        lemma_last_rule_id(rules.drop_last(), id);
    }
}

/// What became of the rows that were changed on a fork.
proof fn lemma_difference(from: SnapshotView, fork: SnapshotView, changed: Seq<FactChangeView>)
    requires
        forks(from, fork),
        forall|i: int| 0 <= i < changed.len() ==> fits(fork, #[trigger] changed[i]),
    ensures
        fact_difference(from, fork, changed) matches Differs::Kinds(kinds) && forall|
            fact: (u64, Row),
        |
            #![trigger kinds.contains_key(fact)]
            {
                &&& kinds.contains_key(fact) == (change_facts(changed).contains(fact) && holds(
                    from,
                    fact,
                ) != holds(fork, fact))
                &&& kinds.contains_key(fact) ==> (kinds[fact] is Assert) == holds(fork, fact)
            },
    decreases changed.len(),
{
    if changed.len() == 0 {
    } else {
        let less = changed.drop_last();
        let last = changed.last();
        let here = (last.relation, last.row);
        assert forall|i: int| 0 <= i < less.len() implies fits(fork, #[trigger] less[i]) by {
            assert(less[i] == changed[i]);
        }
        lemma_difference(from, fork, less);
        assert(fits(fork, changed[changed.len() - 1]));
        let before = fact_difference(from, fork, less)->Kinds_0;
        let kinds = fact_difference(from, fork, changed)->Kinds_0;
        assert(change_facts(changed)[changed.len() - 1] == here);
        assert forall|fact: (u64, Row)| #![trigger kinds.contains_key(fact)]
            {
                &&& kinds.contains_key(fact) == (change_facts(changed).contains(fact) && holds(
                    from,
                    fact,
                ) != holds(fork, fact))
                &&& kinds.contains_key(fact) ==> (kinds[fact] is Assert) == holds(fork, fact)
            } by {
            assert(before.contains_key(fact) == (change_facts(less).contains(fact) && holds(
                from,
                fact,
            ) != holds(fork, fact)));
            if change_facts(changed).contains(fact) && fact != here {
                let i = choose|i: int| 0 <= i < changed.len() && change_facts(changed)[i] == fact;
                assert(change_facts(less)[i] == fact);
            }
            if change_facts(less).contains(fact) {
                let i = choose|i: int| 0 <= i < less.len() && change_facts(less)[i] == fact;
                assert(change_facts(changed)[i] == fact);
            }
        }
    }
}

proof fn lemma_relations_stay(from: SnapshotView, fork: SnapshotView, ids: Seq<u64>)
    requires
        forks(from, fork),
        forall|i: int| 0 <= i < ids.len() ==> from.relations.contains_key(#[trigger] ids[i]),
    ensures
        relations_kept_fault(from.relations, fork.relations, ids) is None,
    decreases ids.len(),
{
    if ids.len() > 0 {
        let less = ids.drop_last();
        assert forall|i: int| 0 <= i < less.len() implies from.relations.contains_key(
            #[trigger] less[i],
        ) by {
            assert(less[i] == ids[i]);
        }
        lemma_relations_stay(from, fork, less);
        assert(from.relations.contains_key(ids[ids.len() - 1]));
    }
}

proof fn lemma_rules_stay(
    rules: Seq<DefinitionView>,
    more: Seq<DefinitionView>,
)
    requires
        extends(rules, more),
        rules_apart(more),
    ensures
        rules_kept_fault(rules, more) is None,
    decreases rules.len(),
{
    if rules.len() > 0 {
        let n = rules.len() - 1;
        assert forall|i: int| 0 <= i < rules.drop_last().len() implies {
            &&& (#[trigger] more[i]).id == rules.drop_last()[i].id
            &&& more[i].rule == rules.drop_last()[i].rule
            &&& more[i].source == rules.drop_last()[i].source
            &&& more[i].active ==> rules.drop_last()[i].active
        } by {
            assert(rules.drop_last()[i] == rules[i]);
        }
        lemma_rules_stay(rules.drop_last(), more);
        lemma_last_rule(more, rules.last().id);
        assert(more[n].id == rules[n].id);
    }
}

/// A fork may be published: nothing is wrong with it, and what differs is known.
pub proof fn law_a_fork_may_be_published(current: SnapshotView, fork: SnapshotView)
    requires
        current.relations.dom().finite(),
        forks(current, fork),
    ensures
        staged_fault(current, fork) is None,
        fact_difference(
            current,
            fork,
            in_order(last_kinds(touched(since(fork.commits, current.version)))),
        ) is Kinds,
{
    let ids = id_listing(current.relations.dom());
    let listed = lemma_ids_listed(current.relations.dom());
    assert forall|i: int| 0 <= i < ids.len() implies current.relations.contains_key(
        #[trigger] ids[i],
    ) by {
        assert(ids.to_set().contains(ids[i]));
    }
    lemma_relations_stay(current, fork, ids);
    lemma_rules_stay(current.rules, fork.rules);
    let changed = lemma_changed_fit(current, fork);
    lemma_difference(current, fork, changed);
}

/// What was changed on a fork, in order, is of rows that the kernel stores.
proof fn lemma_changed_fit(from: SnapshotView, fork: SnapshotView) -> (changed: Seq<FactChangeView>)
    requires
        forks(from, fork),
    ensures
        changed == in_order(last_kinds(done_since(from, fork))),
        lists_changes(changed, last_kinds(done_since(from, fork))),
        forall|i: int| 0 <= i < changed.len() ==> fits(fork, #[trigger] changed[i]),
{
    let done = done_since(from, fork);
    let all = last_kinds(done);
    let witness = lemma_last_kinds_listed(done);
    let changed = in_order(all);
    assert(lists_changes(changed, all));
    assert forall|i: int| 0 <= i < changed.len() implies fits(fork, #[trigger] changed[i]) by {
        let fact = (changed[i].relation, changed[i].row);
        lemma_last_kinds_of(done, fact);
        let j = choose|j: int| 0 <= j < done.len() && change_facts(done)[j] == fact;
        assert(fits(fork, done[j]));
    }
    changed
}

/// A kernel that starts without relations holds a sound snapshot.
pub proof fn law_an_empty_kernel_is_sound(snapshot: SnapshotView)
    requires
        snapshot == empty_kernel(snapshot.computed.relations),
    ensures
        sound(snapshot),
{
    reveal(Seq::filter);
    assert(active_rule_views(snapshot.rules) =~= Seq::empty());
    law_rules_without_negation_are_stratified(Seq::empty());
}

/// Publishing a fork keeps that loading the commits gives back what there is.
pub proof fn law_publishing_a_fork_replays(
    current: SnapshotView,
    fork: SnapshotView,
    plan: StagedPlan,
    evaluated: Option<Result<Evaluation, KernelError>>,
    after: SnapshotView,
)
    requires
        replays(current),
        forks(current, fork),
        plans_staged(Ok(plan), current, current.version, fork),
        records(
            current,
            staged_next(current, fork),
            catalog_difference(current, fork),
            fact_change_views(plan.changes@),
            evaluated,
            after,
        ),
    ensures
        replays(after),
{
    let commit = after.commits.last();
    let changes = fact_change_views(plan.changes@);
    let start = LoadView { relations: durable_part(current.relations), rules: current.rules };
    lemma_one_commit(current.commits, commit);
    assert(after.commits =~= current.commits.push(commit));

    let ids = id_listing(fork.relations.dom());
    let listed = lemma_ids_listed(fork.relations.dom());
    assert forall|id: u64| ids.contains(id) == fork.relations.contains_key(id) by {
        assert(ids.to_set().contains(id) == fork.relations.dom().contains(id));
    }
    assert forall|i: int| 0 <= i < ids.len() implies fork.relations.contains_key(
        #[trigger] ids[i],
    ) by {
        assert(ids.contains(ids[i]));
    }
    assert(start.relations.dom() =~= current.relations.dom());
    lemma_created(current, fork, start, ids);
    let grew = LoadView { relations: grown(start.relations, fork.relations, ids), ..start };
    assert forall|id: u64| #[trigger] fork.relations.contains_key(id) implies
        grew.relations.contains_key(id) && grew.relations[id].metadata
        == fork.relations[id].metadata by {
        assert(ids.contains(id));
    }
    lemma_ruled(current, fork, grew, fork.rules.len() as int);
    assert(fork.rules.take(fork.rules.len() as int) =~= fork.rules);
    assert(taken_over(current.rules, fork.rules, fork.rules.len() as int) =~= fork.rules);
    lemma_catalog_lots(
        start,
        created(current.relations, fork.relations, ids),
        ruled(current.rules, fork.rules),
    );

    let done = done_since(current, fork);
    let all = last_kinds(done);
    let changed = lemma_changed_fit(current, fork);
    lemma_difference(current, fork, changed);
    let kinds = fact_difference(current, fork, changed)->Kinds_0;
    assert(lists_changes(changes, kinds));
    assert forall|fact: (u64, Row)| change_facts(changed).contains(fact) == change_facts(
        done,
    ).contains(fact) by {
        lemma_last_kinds_of(done, fact);
        assert(change_facts(changed).to_set().contains(fact) == all.dom().contains(fact));
    }
    assert forall|i: int| 0 <= i < changes.len() implies grew.relations.contains_key(
        (#[trigger] changes[i]).relation,
    ) && grew.relations[changes[i].relation].metadata.arity == changes[i].row.len() by {
        let fact = (changes[i].relation, changes[i].row);
        assert(kinds.contains_key(fact));
        let j = choose|j: int| 0 <= j < done.len() && change_facts(done)[j] == fact;
        assert(change_facts(done).contains(fact));
        assert(fits(fork, done[j]));
        assert(fork.relations.contains_key(done[j].relation));
    }
    lemma_fact_changes(grew.relations, changes, kinds);
    let loaded = after_changes(grew.relations, kinds);
    let expected = durable_part(fork.relations);
    assert forall|id: u64| loaded.contains_key(id) == expected.contains_key(id) by {
        assert(ids.contains(id) == fork.relations.contains_key(id));
        if current.relations.contains_key(id) {
            assert(fork.relations.contains_key(id));
        }
    }
    assert forall|id: u64| fork.relations.contains_key(id) implies #[trigger] loaded[id]
        == expected[id] by {
        assert(grew.relations.contains_key(id));
        if fork.relations[id].metadata.durability is Volatile {
            assert(loaded[id].rows =~= expected[id].rows);
        } else {
            assert forall|row: Row| #[trigger] loaded[id].rows.contains(row)
                == expected[id].rows.contains(row) by {
                let fact = (id, row);
                assert(kinds.contains_key(fact) == (change_facts(changed).contains(fact) && holds(
                    current,
                    fact,
                ) != holds(fork, fact)));
                assert(holds(fork, fact) == fork.relations[id].rows.contains(row));
                assert(holds(current, fact) == grew.relations[id].rows.contains(row));
            }
            assert(loaded[id].rows =~= expected[id].rows);
        }
    }
    assert(loaded =~= expected);
    assert(after.relations == fork.relations);
    assert(after.rules == fork.rules);
}

} // verus!
