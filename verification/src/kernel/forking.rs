//! Publishing what was done on a copy of a snapshot as one commit.

use crate::kernel::algebra::Row;
use crate::kernel::changes::{change_facts, last_kinds, lemma_listing_unique, lists_changes,
    merge_fact_changes, place_change};
use crate::kernel::commit::{catalog_change_views, commit_views, copy_fact_changes,
    fact_change_views, since, CatalogChange, CatalogChangeView, Commit, CommitView, FactChange,
    FactChangeKind, FactChangeView};
use crate::kernel::committing::Differs;
use crate::kernel::computed::given;
use crate::kernel::error::{FaultView, KernelError};
use crate::kernel::metadata::{RelationId, Version};
use crate::kernel::read::{ComputedRelationRead, Visible};
use crate::kernel::relation::RelationView;
use crate::kernel::rules::{copy_definitions, definition_views, DefinitionView, RuleDefinition};
use crate::kernel::snapshot::{bound_bindings, exactly, DerivedView, Snapshot, SnapshotView};
use crate::kernel::states::{id_listing, raw_ids};
use crate::tuple::{rows, Tuple};
use crate::value::Identity;
use vstd::prelude::*;

verus! {

/// What is wrong with the first relation that is not kept.
pub open spec fn relations_kept_fault(
    current: Map<u64, RelationView>,
    staged: Map<u64, RelationView>,
    ids: Seq<u64>,
) -> Option<FaultView>
    decreases ids.len(),
{
    if ids.len() == 0 {
        None
    } else {
        match relations_kept_fault(current, staged, ids.drop_last()) {
            Some(fault) => Some(fault),
            None => {
                let id = ids.last();
                if !staged.contains_key(id) {
                    Some(FaultView::UnknownRelation(id))
                } else if staged[id].metadata != current[id].metadata {
                    Some(FaultView::RelationAlreadyExists(id))
                } else {
                    None
                }
            },
        }
    }
}

/// The last rule with an identity.
pub open spec fn last_rule(rules: Seq<DefinitionView>, id: u64) -> Option<DefinitionView>
    decreases rules.len(),
{
    if rules.len() == 0 {
        None
    } else if rules.last().id == id {
        Some(rules.last())
    } else {
        last_rule(rules.drop_last(), id)
    }
}

/// Whether a rule is kept: it is still there, the same, and not active again.
pub open spec fn rule_kept(staged: Seq<DefinitionView>, rule: DefinitionView) -> bool {
    match last_rule(staged, rule.id) {
        None => false,
        Some(found) => found.rule == rule.rule && found.source == rule.source && (found.active
            ==> rule.active),
    }
}

/// What is wrong with the first rule that is not kept.
pub open spec fn rules_kept_fault(
    current: Seq<DefinitionView>,
    staged: Seq<DefinitionView>,
) -> Option<FaultView>
    decreases current.len(),
{
    if current.len() == 0 {
        None
    } else {
        match rules_kept_fault(current.drop_last(), staged) {
            Some(fault) => Some(fault),
            None => if rule_kept(staged, current.last()) {
                None
            } else {
                Some(FaultView::UnknownRule(current.last().id))
            },
        }
    }
}

/// What is wrong with a copy that is to replace a snapshot, if anything is.
pub open spec fn staged_fault(current: SnapshotView, staged: SnapshotView) -> Option<FaultView> {
    match relations_kept_fault(
        current.relations,
        staged.relations,
        id_listing(current.relations.dom()),
    ) {
        Some(fault) => Some(fault),
        None => rules_kept_fault(current.rules, staged.rules),
    }
}

proof fn lemma_relations_kept_early(
    current: Map<u64, RelationView>,
    staged: Map<u64, RelationView>,
    ids: Seq<u64>,
    n: int,
)
    requires
        0 <= n <= ids.len(),
        relations_kept_fault(current, staged, ids.take(n)) is Some,
    ensures
        relations_kept_fault(current, staged, ids) == relations_kept_fault(
            current,
            staged,
            ids.take(n),
        ),
    decreases ids.len(),
{
    if n == ids.len() {
        assert(ids.take(n) =~= ids);
    } else {
        assert(ids.drop_last().take(n) =~= ids.take(n));
        lemma_relations_kept_early(current, staged, ids.drop_last(), n);
    }
}

proof fn lemma_rules_kept_early(
    current: Seq<DefinitionView>,
    staged: Seq<DefinitionView>,
    n: int,
)
    requires
        0 <= n <= current.len(),
        rules_kept_fault(current.take(n), staged) is Some,
    ensures
        rules_kept_fault(current, staged) == rules_kept_fault(current.take(n), staged),
    decreases current.len(),
{
    if n == current.len() {
        assert(current.take(n) =~= current);
    } else {
        assert(current.drop_last().take(n) =~= current.take(n));
        lemma_rules_kept_early(current.drop_last(), staged, n);
    }
}

fn find_last_rule(rules: &[RuleDefinition], id: Identity) -> (found: Option<usize>)
    ensures
        match found {
            Some(i) => i < rules@.len() && last_rule(definition_views(rules@), id@) == Some(
                rules@[i as int]@,
            ),
            None => last_rule(definition_views(rules@), id@) is None,
        },
{
    let ghost all = definition_views(rules@);
    let mut n: usize = rules.len();
    assert(all.take(n as int) =~= all);
    while n > 0
        invariant
            n <= rules@.len(),
            all == definition_views(rules@),
            last_rule(all, id@) == last_rule(all.take(n as int), id@),
        decreases n,
    {
        proof {
            assert(all.take(n as int).last() == rules@[n - 1]@);
            assert(all.take(n as int).drop_last() =~= all.take(n - 1));
        }
        if rules[n - 1].id().same(&id) {
            return Some(n - 1);
        }
        n = n - 1;
    }
    None
}

/// Whether a copy may replace a snapshot: it keeps the relations and the rules.
pub fn validate_staged_snapshot(current: &Snapshot, staged: &Snapshot) -> (result: Result<
    (),
    KernelError,
>)
    ensures
        match result {
            Ok(()) => staged_fault(current@, staged@) is None,
            Err(error) => staged_fault(current@, staged@) == Some(error@),
        },
{
    let ids = current.relations().ids();
    let ghost listed = raw_ids(ids@);
    let mut i: usize = 0;
    assert(listed.take(0) =~= Seq::empty());
    while i < ids.len()
        invariant
            i <= ids@.len(),
            listed == raw_ids(ids@),
            listed == id_listing(current@.relations.dom()),
            listed.to_set() == current@.relations.dom(),
            relations_kept_fault(
                current@.relations,
                staged@.relations,
                listed.take(i as int),
            ) is None,
        decreases ids@.len() - i,
    {
        let id = ids[i];
        proof {
            assert(listed[i as int] == id@);
            assert(listed.to_set().contains(id@));
            assert(listed.take(i + 1).drop_last() =~= listed.take(i as int));
            assert(listed.take(i + 1).last() == id@);
            if relations_kept_fault(
                current@.relations,
                staged@.relations,
                listed.take(i + 1),
            ) is Some {
                lemma_relations_kept_early(current@.relations, staged@.relations, listed, i + 1);
            }
        }
        match (current.relations().get(id), staged.relations().get(id)) {
            (Some(before), Some(after)) => {
                if !before.metadata().same(after.metadata()) {
                    return Err(KernelError::RelationAlreadyExists(id));
                }
            },
            (Some(_), None) => {
                return Err(KernelError::UnknownRelation(id));
            },
            (None, _) => {},
        }
        i = i + 1;
    }
    assert(listed.take(i as int) =~= listed);
    let rules = current.rules();
    let ghost all = definition_views(rules@);
    let mut k: usize = 0;
    assert(all.take(0) =~= Seq::empty());
    while k < rules.len()
        invariant
            k <= rules@.len(),
            all == definition_views(rules@),
            all == current@.rules,
            relations_kept_fault(
                current@.relations,
                staged@.relations,
                id_listing(current@.relations.dom()),
            ) is None,
            rules_kept_fault(all.take(k as int), staged@.rules) is None,
        decreases rules@.len() - k,
    {
        proof {
            assert(all.take(k + 1).drop_last() =~= all.take(k as int));
            assert(all.take(k + 1).last() == rules@[k as int]@);
            if rules_kept_fault(all.take(k + 1), staged@.rules) is Some {
                lemma_rules_kept_early(all, staged@.rules, k + 1);
            }
        }
        let rule = &rules[k];
        let staged_rules = staged.rules();
        match find_last_rule(staged_rules, rule.id()) {
            None => {
                return Err(KernelError::UnknownRule(rule.id()));
            },
            Some(at) => {
                let found = &staged_rules[at];
                if !found.rule().same(rule.rule()) || !found.same_source(rule) || (
                !rule.active() && found.active()) {
                    return Err(KernelError::UnknownRule(rule.id()));
                }
            },
        }
        k = k + 1;
    }
    assert(all.take(k as int) =~= all);
    Ok(())
}

/// The relations that are new, in the order of their identities.
pub open spec fn created(
    current: Map<u64, RelationView>,
    staged: Map<u64, RelationView>,
    ids: Seq<u64>,
) -> Seq<CatalogChangeView>
    decreases ids.len(),
{
    if ids.len() == 0 {
        Seq::empty()
    } else {
        let before = created(current, staged, ids.drop_last());
        if current.contains_key(ids.last()) {
            before
        } else {
            before.push(CatalogChangeView::RelationCreated(staged[ids.last()].metadata))
        }
    }
}

/// The rules that are new, and those that are not active any more.
pub open spec fn ruled(
    current: Seq<DefinitionView>,
    staged: Seq<DefinitionView>,
) -> Seq<CatalogChangeView>
    decreases staged.len(),
{
    if staged.len() == 0 {
        Seq::empty()
    } else {
        let before = ruled(current, staged.drop_last());
        let rule = staged.last();
        match last_rule(current, rule.id) {
            None => before.push(CatalogChangeView::RuleInstalled(rule)),
            Some(known) => if known.active && !rule.active {
                before.push(CatalogChangeView::RuleDisabled(rule.id))
            } else {
                before
            },
        }
    }
}

/// How the catalog of a copy differs from that of a snapshot.
pub open spec fn catalog_difference(current: SnapshotView, staged: SnapshotView) -> Seq<
    CatalogChangeView,
> {
    created(current.relations, staged.relations, id_listing(staged.relations.dom())) + ruled(
        current.rules,
        staged.rules,
    )
}

/// How the catalog of a copy differs from that of a snapshot.
pub fn staged_catalog_changes(current: &Snapshot, staged: &Snapshot) -> (changes: Vec<CatalogChange>)
    ensures
        catalog_change_views(changes@) == catalog_difference(current@, staged@),
{
    let mut changes: Vec<CatalogChange> = Vec::new();
    let ids = staged.relations().ids();
    let ghost listed = raw_ids(ids@);
    let mut i: usize = 0;
    proof {
        assert(listed.take(0) =~= Seq::empty());
        assert(catalog_change_views(changes@) =~= Seq::empty());
    }
    while i < ids.len()
        invariant
            i <= ids@.len(),
            listed == raw_ids(ids@),
            listed == id_listing(staged@.relations.dom()),
            listed.to_set() == staged@.relations.dom(),
            catalog_change_views(changes@) == created(
                current@.relations,
                staged@.relations,
                listed.take(i as int),
            ),
        decreases ids@.len() - i,
    {
        let id = ids[i];
        let ghost before = changes@;
        proof {
            assert(listed[i as int] == id@);
            assert(listed.to_set().contains(id@));
            assert(listed.take(i + 1).drop_last() =~= listed.take(i as int));
            assert(listed.take(i + 1).last() == id@);
        }
        if !current.relations().contains_key(id) {
            match staged.relations().get(id) {
                None => {},
                Some(state) => {
                    let metadata = state.metadata().clone();
                    let ghost kept = metadata@;
                    changes.push(CatalogChange::RelationCreated(metadata));
                    assert(catalog_change_views(changes@) =~= catalog_change_views(before).push(
                        CatalogChangeView::RelationCreated(kept),
                    ));
                },
            }
        }
        i = i + 1;
    }
    assert(listed.take(i as int) =~= listed);
    let ghost first = catalog_change_views(changes@);
    let rules = staged.rules();
    let ghost all = definition_views(rules@);
    let mut k: usize = 0;
    proof {
        assert(all.take(0) =~= Seq::empty());
        assert(first + Seq::<CatalogChangeView>::empty() =~= first);
    }
    while k < rules.len()
        invariant
            k <= rules@.len(),
            all == definition_views(rules@),
            all == staged@.rules,
            first == created(
                current@.relations,
                staged@.relations,
                id_listing(staged@.relations.dom()),
            ),
            catalog_change_views(changes@) == first + ruled(current@.rules, all.take(k as int)),
        decreases rules@.len() - k,
    {
        let ghost before = changes@;
        let rule = &rules[k];
        proof {
            assert(all.take(k + 1).drop_last() =~= all.take(k as int));
            assert(all.take(k + 1).last() == rule@);
        }
        let known = current.rules();
        match find_last_rule(known, rule.id()) {
            None => {
                let copy = rule.clone();
                let ghost kept = copy@;
                changes.push(CatalogChange::RuleInstalled(copy));
                assert(catalog_change_views(changes@) =~= catalog_change_views(before).push(
                    CatalogChangeView::RuleInstalled(kept),
                ));
                assert(catalog_change_views(changes@) =~= first + ruled(
                    current@.rules,
                    all.take(k as int),
                ).push(CatalogChangeView::RuleInstalled(kept)));
            },
            Some(at) => {
                if known[at].active() && !rule.active() {
                    let id = rule.id();
                    changes.push(CatalogChange::RuleDisabled(id));
                    assert(catalog_change_views(changes@) =~= catalog_change_views(before).push(
                        CatalogChangeView::RuleDisabled(id@),
                    ));
                    assert(catalog_change_views(changes@) =~= first + ruled(
                        current@.rules,
                        all.take(k as int),
                    ).push(CatalogChangeView::RuleDisabled(rule@.id)));
                }
            },
        }
        k = k + 1;
    }
    assert(all.take(k as int) =~= all);
    changes
}

/// Whether a row is stored, where no computed relation decides.
pub open spec fn held(snapshot: SnapshotView, relation: u64, row: Row) -> Option<
    Result<bool, FaultView>,
> {
    match snapshot.stored(relation) {
        Visible::Unknown => Some(Ok(false)),
        Visible::Computed => None,
        Visible::Stored(arity, found) => Some(
            if row.len() != arity {
                Err(FaultView::ArityMismatch(relation, arity, row.len()))
            } else {
                match found {
                    Err(fault) => Err(fault),
                    Ok(set) => Ok(set.contains(row)),
                }
            },
        ),
    }
}

/// Whether a row is stored. A relation that is not there holds none.
pub fn contains_extensional_fact(
    snapshot: &Snapshot,
    relation: RelationId,
    tuple: &Tuple,
) -> (result: Result<bool, KernelError>)
    ensures
        match held(snapshot@, relation@, tuple@) {
            None => exists|answer: Result<Seq<Row>, FaultView>|
                {
                    &&& #[trigger] snapshot@.computed.may_give(
                        snapshot.shown(),
                        snapshot@.relations[relation@].metadata,
                        exactly(tuple@),
                        answer,
                    )
                    &&& match answer {
                        Ok(found) => result matches Ok(told) && told == found.contains(tuple@),
                        Err(fault) => result matches Err(error) && error@ == fault,
                    }
                },
            Some(Ok(found)) => result matches Ok(told) && told == found,
            Some(Err(fault)) => result matches Err(error) && error@ == fault,
        },
{
    if !snapshot.relations().contains_key(relation) {
        return Ok(false);
    }
    let bindings = bound_bindings(tuple);
    let scanned = snapshot.scan_facts(relation, &bindings);
    let ghost answer = given(scanned);
    match scanned {
        Err(error) => Err(error),
        Ok(found) => {
            let ghost listed = rows(found@);
            let mut i: usize = 0;
            while i < found.len()
                invariant
                    i <= found@.len(),
                    listed == rows(found@),
                    answer == Ok::<Seq<Row>, FaultView>(listed),
                    forall|j: int| 0 <= j < i ==> (#[trigger] listed[j]) != tuple@,
                    held(snapshot@, relation@, tuple@) is None
                        ==> snapshot@.computed.may_give(
                        snapshot.shown(),
                        snapshot@.relations[relation@].metadata,
                        exactly(tuple@),
                        answer,
                    ),
                    held(snapshot@, relation@, tuple@) matches Some(Ok(there)) ==> there
                        == listed.to_set().contains(tuple@),
                    !(held(snapshot@, relation@, tuple@) matches Some(Err(_))),
                decreases found@.len() - i,
            {
                assert(listed[i as int] == found@[i as int]@);
                if found[i].same(tuple) {
                    assert(listed.contains(tuple@));
                    return Ok(true);
                }
                i = i + 1;
            }
            Ok(false)
        },
    }
}

/// The rows that commits changed, by relation and row.
pub open spec fn touched(commits: Seq<CommitView>) -> Seq<FactChangeView>
    decreases commits.len(),
{
    if commits.len() == 0 {
        Seq::empty()
    } else {
        touched(commits.drop_last()) + commits.last().changes
    }
}

/// Changes in the order of relations and rows, each row once.
pub open spec fn in_order(kinds: Map<(u64, Row), FactChangeKind>) -> Seq<FactChangeView> {
    choose|changes: Seq<FactChangeView>| lists_changes(changes, kinds)
}

/// What became of the rows that were changed, from a snapshot to a copy.
pub open spec fn fact_difference(
    current: SnapshotView,
    staged: SnapshotView,
    changed: Seq<FactChangeView>,
) -> Differs
    decreases changed.len(),
{
    if changed.len() == 0 {
        Differs::Kinds(Map::empty())
    } else {
        match fact_difference(current, staged, changed.drop_last()) {
            Differs::Kinds(before) => {
                let relation = changed.last().relation;
                let row = changed.last().row;
                match held(current, relation, row) {
                    None => Differs::Open,
                    Some(Err(fault)) => Differs::Failed(fault),
                    Some(Ok(was)) => match held(staged, relation, row) {
                        None => Differs::Open,
                        Some(Err(fault)) => Differs::Failed(fault),
                        Some(Ok(now)) => Differs::Kinds(
                            if was == now {
                                before
                            } else {
                                before.insert(
                                    (relation, row),
                                    if now {
                                        FactChangeKind::Assert
                                    } else {
                                        FactChangeKind::Retract
                                    },
                                )
                            },
                        ),
                    },
                }
            },
            other => other,
        }
    }
}

proof fn lemma_difference_early(
    current: SnapshotView,
    staged: SnapshotView,
    changed: Seq<FactChangeView>,
    n: int,
)
    requires
        0 <= n <= changed.len(),
        !(fact_difference(current, staged, changed.take(n)) is Kinds),
    ensures
        fact_difference(current, staged, changed) == fact_difference(
            current,
            staged,
            changed.take(n),
        ),
    decreases changed.len(),
{
    if n == changed.len() {
        assert(changed.take(n) =~= changed);
    } else {
        assert(changed.drop_last().take(n) =~= changed.take(n));
        lemma_difference_early(current, staged, changed.drop_last(), n);
    }
}

fn all_changes(commits: &[Commit]) -> (changes: Vec<FactChange>)
    ensures
        fact_change_views(changes@) == touched(commit_views(commits@)),
{
    let ghost all = commit_views(commits@);
    let mut changes: Vec<FactChange> = Vec::new();
    let mut i: usize = 0;
    proof {
        assert(all.take(0) =~= Seq::empty());
        assert(fact_change_views(changes@) =~= Seq::empty());
    }
    while i < commits.len()
        invariant
            i <= commits@.len(),
            all == commit_views(commits@),
            fact_change_views(changes@) == touched(all.take(i as int)),
        decreases commits@.len() - i,
    {
        let ghost before = changes@;
        proof {
            assert(all.take(i + 1).drop_last() =~= all.take(i as int));
            assert(all.take(i + 1).last() == commits@[i as int]@);
        }
        let mut more = copy_fact_changes(commits[i].changes());
        let ghost added = more@;
        changes.append(&mut more);
        assert(fact_change_views(changes@) =~= fact_change_views(before) + fact_change_views(added));
        i = i + 1;
    }
    assert(all.take(i as int) =~= all);
    changes
}

/// What became of the rows that commits changed, from a snapshot to a copy.
pub fn staged_fact_changes(
    current: &Snapshot,
    staged: &Snapshot,
    staged_commits: &[Commit],
) -> (result: Result<Vec<FactChange>, KernelError>)
    ensures
        match fact_difference(
            current@,
            staged@,
            in_order(last_kinds(touched(commit_views(staged_commits@)))),
        ) {
            Differs::Open => true,
            Differs::Failed(fault) => result matches Err(error) && error@ == fault,
            Differs::Kinds(kinds) => result matches Ok(changes) && lists_changes(
                fact_change_views(changes@),
                kinds,
            ),
        },
{
    let none: Vec<FactChange> = Vec::new();
    let raw = all_changes(staged_commits);
    assert(fact_change_views(none@) + fact_change_views(raw@) =~= fact_change_views(raw@));
    let changed = merge_fact_changes(none, &raw);
    let ghost all = fact_change_views(changed@);
    proof {
        let kinds = last_kinds(touched(commit_views(staged_commits@)));
        assert(lists_changes(all, kinds));
        lemma_listing_unique(all, in_order(kinds), kinds);
        assert(all == in_order(kinds));
    }
    let mut changes: Vec<FactChange> = Vec::new();
    let ghost mut kinds = Map::<(u64, Row), FactChangeKind>::empty();
    let mut i: usize = 0;
    proof {
        assert(all.take(0) =~= Seq::empty());
        assert(change_facts(fact_change_views(changes@)).to_set() =~= Set::empty());
    }
    while i < changed.len()
        invariant
            i <= changed@.len(),
            all == fact_change_views(changed@),
            all == in_order(last_kinds(touched(commit_views(staged_commits@)))),
            lists_changes(fact_change_views(changes@), kinds),
            match fact_difference(current@, staged@, all.take(i as int)) {
                Differs::Open => true,
                Differs::Failed(_) => false,
                Differs::Kinds(expected) => expected == kinds,
            },
        decreases changed@.len() - i,
    {
        let relation = changed[i].relation;
        proof {
            assert(all.take(i + 1).drop_last() =~= all.take(i as int));
            assert(all.take(i + 1).last() == changed@[i as int]@);
            if !(fact_difference(current@, staged@, all.take(i + 1)) is Kinds) {
                lemma_difference_early(current@, staged@, all, i + 1);
            }
        }
        let before = match contains_extensional_fact(current, relation, &changed[i].tuple) {
            Err(error) => {
                return Err(error);
            },
            Ok(before) => before,
        };
        let after = match contains_extensional_fact(staged, relation, &changed[i].tuple) {
            Err(error) => {
                return Err(error);
            },
            Ok(after) => after,
        };
        if before != after {
            let kind = if after {
                FactChangeKind::Assert
            } else {
                FactChangeKind::Retract
            };
            place_change(
                &mut changes,
                FactChange { relation, tuple: changed[i].tuple.clone(), kind },
                Ghost(kinds),
            );
            proof {
                kinds = kinds.insert((relation@, changed@[i as int]@.row), kind);
            }
        }
        i = i + 1;
    }
    assert(all.take(i as int) =~= all);
    Ok(changes)
}

/// The snapshot that a copy leads to, before its rules are evaluated.
pub open spec fn staged_next(current: SnapshotView, staged: SnapshotView) -> SnapshotView {
    SnapshotView {
        version: (current.version + 1) as u64,
        derived: DerivedView::Unevaluated,
        maintained: None,
        commits: current.commits,
        ..staged
    }
}

/// What publishing a copy is to do: the snapshot before its rules are evaluated, the changes
/// to the catalog and those to rows.
pub struct StagedPlan {
    pub next: Snapshot,
    pub catalog_changes: Vec<CatalogChange>,
    pub changes: Vec<FactChange>,
}

/// Whether a plan does what it should, for a copy that may replace a snapshot.
pub open spec fn plans_staged(
    result: Result<StagedPlan, KernelError>,
    current: SnapshotView,
    expected_version: Version,
    staged: SnapshotView,
) -> bool {
    if current.version != expected_version {
        result matches Err(error) && error@ == FaultView::StaleStagedSnapshot(
            expected_version,
            current.version,
        )
    } else {
        match staged_fault(current, staged) {
            Some(fault) => result matches Err(error) && error@ == fault,
            None => match (
                fact_difference(
                    current,
                    staged,
                    in_order(last_kinds(touched(since(staged.commits, expected_version)))),
                ),
                result,
            ) {
                (Differs::Open, Err(_)) => true,
                (Differs::Failed(fault), Err(error)) => error@ == fault,
                (Differs::Failed(_), Ok(_)) => false,
                (Differs::Kinds(_), Err(_)) => false,
                (told, Ok(plan)) => {
                    &&& plan.next@ == staged_next(current, staged)
                    &&& catalog_change_views(plan.catalog_changes@) == catalog_difference(
                        current,
                        staged,
                    )
                    &&& told matches Differs::Kinds(kinds) ==> lists_changes(
                        fact_change_views(plan.changes@),
                        kinds,
                    )
                },
            },
        }
    }
}

/// What publishing a copy of a snapshot is to do. A copy of an older snapshot is refused.
pub fn plan_staged(current: &Snapshot, expected_version: Version, staged: &Snapshot) -> (result:
    Result<StagedPlan, KernelError>)
    requires
        current@.version < u64::MAX,
    ensures
        plans_staged(result, current@, expected_version, staged@),
{
    if current.version() != expected_version {
        return Err(
            KernelError::StaleStagedSnapshot {
                expected: expected_version,
                actual: current.version(),
            },
        );
    }
    match validate_staged_snapshot(current, staged) {
        Err(error) => {
            return Err(error);
        },
        Ok(()) => {},
    }
    let staged_commits = staged.commits_since(expected_version);
    let catalog_changes = staged_catalog_changes(current, staged);
    let changes = match staged_fact_changes(current, staged, &staged_commits) {
        Err(error) => {
            return Err(error);
        },
        Ok(changes) => changes,
    };
    let next = Snapshot::new(
        current.version() + 1,
        staged.relations().copy(),
        copy_definitions(staged.rules()),
        staged.computed_relations().copy(),
        current.history().copy(),
    );
    Ok(StagedPlan { next, catalog_changes, changes })
}

} // verus!
