//! What commits change.

use crate::kernel::algebra::Row;
use crate::kernel::metadata::{MetadataView, RelationId, RelationMetadata, Version};
use crate::kernel::rules::{DefinitionView, RuleDefinition};
use crate::tuple::Tuple;
use crate::value::Identity;
use vstd::prelude::*;

verus! {

/// Whether a row came or went.
#[derive(Clone, Copy, Debug, PartialEq, Eq, Structural)]
pub enum FactChangeKind {
    Assert,
    Retract,
}

/// A row of a relation that came or went.
#[derive(Debug, PartialEq)]
pub struct FactChange {
    pub relation: RelationId,
    pub tuple: Tuple,
    pub kind: FactChangeKind,
}

/// A row that came or went, apart from how it is stored.
pub struct FactChangeView {
    pub relation: u64,
    pub row: Row,
    pub kind: FactChangeKind,
}

impl View for FactChange {
    type V = FactChangeView;

    open spec fn view(&self) -> FactChangeView {
        FactChangeView { relation: self.relation@, row: self.tuple@, kind: self.kind }
    }
}

impl Clone for FactChange {
    fn clone(&self) -> (copy: FactChange)
        ensures
            copy@ == self@,
    {
        FactChange { relation: self.relation, tuple: self.tuple.clone(), kind: self.kind }
    }
}

/// The views of changes.
pub open spec fn fact_change_views(changes: Seq<FactChange>) -> Seq<FactChangeView> {
    changes.map_values(|change: FactChange| change@)
}

/// A copy of changes.
pub fn copy_fact_changes(changes: &[FactChange]) -> (copy: Vec<FactChange>)
    ensures
        fact_change_views(copy@) == fact_change_views(changes@),
        copy@.len() == changes@.len(),
{
    let mut copy: Vec<FactChange> = Vec::new();
    let mut i: usize = 0;
    while i < changes.len()
        invariant
            i <= changes@.len(),
            copy@.len() == i,
            forall|j: int| 0 <= j < i ==> (#[trigger] copy@[j])@ == changes@[j]@,
        decreases changes@.len() - i,
    {
        copy.push(changes[i].clone());
        i = i + 1;
    }
    assert(fact_change_views(copy@) =~= fact_change_views(changes@));
    copy
}

/// A change to the relations and rules that there are.
#[derive(Debug, PartialEq)]
pub enum CatalogChange {
    RelationCreated(RelationMetadata),
    RuleInstalled(RuleDefinition),
    RuleDisabled(Identity),
}

/// A change to the catalog, apart from how it is stored.
pub enum CatalogChangeView {
    RelationCreated(MetadataView),
    RuleInstalled(DefinitionView),
    RuleDisabled(u64),
}

impl View for CatalogChange {
    type V = CatalogChangeView;

    open spec fn view(&self) -> CatalogChangeView {
        match self {
            CatalogChange::RelationCreated(metadata) => CatalogChangeView::RelationCreated(
                metadata@,
            ),
            CatalogChange::RuleInstalled(rule) => CatalogChangeView::RuleInstalled(rule@),
            CatalogChange::RuleDisabled(rule) => CatalogChangeView::RuleDisabled(rule@),
        }
    }
}

impl Clone for CatalogChange {
    fn clone(&self) -> (copy: CatalogChange)
        ensures
            copy@ == self@,
    {
        match self {
            CatalogChange::RelationCreated(metadata) => CatalogChange::RelationCreated(
                metadata.clone(),
            ),
            CatalogChange::RuleInstalled(rule) => CatalogChange::RuleInstalled(rule.clone()),
            CatalogChange::RuleDisabled(rule) => CatalogChange::RuleDisabled(*rule),
        }
    }
}

/// The views of catalog changes.
pub open spec fn catalog_change_views(changes: Seq<CatalogChange>) -> Seq<CatalogChangeView> {
    changes.map_values(|change: CatalogChange| change@)
}

/// A copy of catalog changes.
pub fn copy_catalog_changes(changes: &[CatalogChange]) -> (copy: Vec<CatalogChange>)
    ensures
        catalog_change_views(copy@) == catalog_change_views(changes@),
        copy@.len() == changes@.len(),
{
    let mut copy: Vec<CatalogChange> = Vec::new();
    let mut i: usize = 0;
    while i < changes.len()
        invariant
            i <= changes@.len(),
            copy@.len() == i,
            forall|j: int| 0 <= j < i ==> (#[trigger] copy@[j])@ == changes@[j]@,
        decreases changes@.len() - i,
    {
        copy.push(changes[i].clone());
        i = i + 1;
    }
    assert(catalog_change_views(copy@) =~= catalog_change_views(changes@));
    copy
}

/// What one commit changed.
#[derive(Debug, PartialEq)]
pub struct Commit {
    pub version: Version,
    pub catalog_changes: Vec<CatalogChange>,
    pub changes: Vec<FactChange>,
    pub relation_changes: Vec<FactChange>,
    pub settled_relation_changes_available: bool,
}

/// What one commit changed, apart from how it is stored.
pub struct CommitView {
    pub version: Version,
    pub catalog_changes: Seq<CatalogChangeView>,
    pub changes: Seq<FactChangeView>,
    pub relation_changes: Seq<FactChangeView>,
    pub settled_relation_changes_available: bool,
}

impl View for Commit {
    type V = CommitView;

    open spec fn view(&self) -> CommitView {
        CommitView {
            version: self.version,
            catalog_changes: catalog_change_views(self.catalog_changes@),
            changes: fact_change_views(self.changes@),
            relation_changes: fact_change_views(self.relation_changes@),
            settled_relation_changes_available: self.settled_relation_changes_available,
        }
    }
}

impl Clone for Commit {
    fn clone(&self) -> (copy: Commit)
        ensures
            copy@ == self@,
    {
        Commit {
            version: self.version,
            catalog_changes: copy_catalog_changes(&self.catalog_changes),
            changes: copy_fact_changes(&self.changes),
            relation_changes: copy_fact_changes(&self.relation_changes),
            settled_relation_changes_available: self.settled_relation_changes_available,
        }
    }
}

impl Commit {
    /// The number of the snapshot that the commit made.
    pub fn version(&self) -> (version: Version)
        ensures
            version == self@.version,
    {
        self.version
    }

    /// The changes to the catalog.
    pub fn catalog_changes(&self) -> (changes: &[CatalogChange])
        ensures
            changes@ == self.catalog_changes@,
    {
        self.catalog_changes.as_slice()
    }

    /// The changes to stored rows.
    pub fn changes(&self) -> (changes: &[FactChange])
        ensures
            changes@ == self.changes@,
    {
        self.changes.as_slice()
    }

    /// The changes to rows that are seen.
    pub fn relation_changes(&self) -> (changes: &[FactChange])
        ensures
            changes@ == self.relation_changes@,
    {
        self.relation_changes.as_slice()
    }

    /// Whether the changes to rows that are seen are known.
    pub fn settled_relation_changes_available(&self) -> (available: bool)
        ensures
            available == self@.settled_relation_changes_available,
    {
        self.settled_relation_changes_available
    }
}

/// The commits that led to a snapshot, oldest first.
#[derive(Debug)]
pub struct CommitHistory {
    commits: Vec<Commit>,
}

/// The views of commits.
pub open spec fn commit_views(commits: Seq<Commit>) -> Seq<CommitView> {
    commits.map_values(|commit: Commit| commit@)
}

impl View for CommitHistory {
    type V = Seq<CommitView>;

    closed spec fn view(&self) -> Seq<CommitView> {
        commit_views(self.commits@)
    }
}

/// The commits after the last that is not newer than `version`.
pub open spec fn since(commits: Seq<CommitView>, version: Version) -> Seq<CommitView>
    decreases commits.len(),
{
    if commits.len() == 0 || commits.last().version <= version {
        Seq::empty()
    } else {
        since(commits.drop_last(), version).push(commits.last())
    }
}

impl CommitHistory {
    /// No commits.
    pub fn empty() -> (history: CommitHistory)
        ensures
            history@ == Seq::<CommitView>::empty(),
    {
        let history = CommitHistory { commits: Vec::new() };
        assert(history@ =~= Seq::<CommitView>::empty());
        history
    }

    /// The given commits, oldest first.
    pub fn from_commits(commits: Vec<Commit>) -> (history: CommitHistory)
        ensures
            history@ == commit_views(commits@),
    {
        CommitHistory { commits }
    }

    /// The history with one more commit.
    pub fn append(&self, commit: Commit) -> (history: CommitHistory)
        ensures
            history@ == self@.push(commit@),
    {
        let mut commits = self.copy().commits;
        let ghost before = commits@;
        commits.push(commit);
        assert(commit_views(commits@) =~= commit_views(before).push(commit@));
        CommitHistory { commits }
    }

    /// A copy of the history.
    pub fn copy(&self) -> (copy: CommitHistory)
        ensures
            copy@ == self@,
    {
        let mut commits: Vec<Commit> = Vec::new();
        let mut i: usize = 0;
        while i < self.commits.len()
            invariant
                i <= self.commits@.len(),
                commits@.len() == i,
                forall|j: int| 0 <= j < i ==> (#[trigger] commits@[j])@ == self.commits@[j]@,
            decreases self.commits@.len() - i,
        {
            commits.push(self.commits[i].clone());
            i = i + 1;
        }
        assert(commit_views(commits@) =~= commit_views(self.commits@));
        CommitHistory { commits }
    }

    /// The number of commits.
    pub fn len(&self) -> (len: usize)
        ensures
            len == self@.len(),
    {
        self.commits.len()
    }

    /// The commits after `version`, oldest first.
    pub fn since(&self, version: Version) -> (commits: Vec<Commit>)
        ensures
            commit_views(commits@) == since(self@, version),
    {
        let ghost all = self@;
        let mut start: usize = self.commits.len();
        assert(all.skip(start as int) =~= Seq::empty());
        assert(all.take(start as int) =~= all);
        assert(since(all, version) =~= since(all.take(start as int), version) + all.skip(
            start as int,
        ));
        while start > 0 && self.commits[start - 1].version > version
            invariant
                start <= self.commits@.len(),
                all == self@,
                all.len() == self.commits@.len(),
                since(all, version) == since(all.take(start as int), version) + all.skip(
                    start as int,
                ),
            decreases start,
        {
            proof {
                let before = all.take(start as int);
                assert(before.last() == self.commits@[start - 1]@);
                assert(before.drop_last() =~= all.take(start - 1));
                assert(since(before, version) + all.skip(start as int) =~= since(
                    all.take(start - 1),
                    version,
                ) + all.skip(start - 1));
            }
            start = start - 1;
        }
        proof {
            if start > 0 {
                assert(all.take(start as int).last() == self.commits@[start - 1]@);
            }
            assert(since(all, version) =~= all.skip(start as int));
        }
        let mut commits: Vec<Commit> = Vec::new();
        let mut i: usize = start;
        while i < self.commits.len()
            invariant
                start <= i <= self.commits@.len(),
                commits@.len() == i - start,
                forall|j: int|
                    0 <= j < i - start ==> (#[trigger] commits@[j])@ == self.commits@[start + j]@,
            decreases self.commits@.len() - i,
        {
            commits.push(self.commits[i].clone());
            i = i + 1;
        }
        assert(commit_views(commits@) =~= all.skip(start as int));
        commits
    }
}

/// Where every commit is newer than the one before it, the commits after a version are
/// exactly those that are newer.
pub proof fn law_commits_since_are_the_newer_ones(
    commits: Seq<CommitView>,
    version: Version,
    commit: CommitView,
)
    requires
        forall|i: int, j: int|
            0 <= i < j < commits.len() ==> (#[trigger] commits[i]).version < (
            #[trigger] commits[j]).version,
    ensures
        since(commits, version).contains(commit) <==> commits.contains(commit) && commit.version
            > version,
    decreases commits.len(),
{
    let found = since(commits, version);
    if commits.len() == 0 {
    } else if commits.last().version <= version {
        if commits.contains(commit) {
            let i = choose|i: int| 0 <= i < commits.len() && commits[i] == commit;
            assert(commits[i].version <= commits.last().version);
        }
    } else {
        let before = commits.drop_last();
        law_commits_since_are_the_newer_ones(before, version, commit);
        let rest = since(before, version);
        if found.contains(commit) {
            let i = choose|i: int| 0 <= i < found.len() && found[i] == commit;
            if i < rest.len() {
                assert(rest[i] == commit);
                let k = choose|k: int| 0 <= k < before.len() && before[k] == commit;
                assert(commits[k] == commit);
            } else {
                assert(commits[commits.len() - 1] == commit);
            }
        }
        if commits.contains(commit) && commit.version > version {
            let i = choose|i: int| 0 <= i < commits.len() && commits[i] == commit;
            if i < before.len() {
                assert(before[i] == commit);
                let k = choose|k: int| 0 <= k < rest.len() && rest[k] == commit;
                assert(found[k] == commit);
            } else {
                assert(found[rest.len() as int] == commit);
            }
        }
    }
}

} // verus!
