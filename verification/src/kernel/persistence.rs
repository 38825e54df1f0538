//! What a store writes for a commit.

use crate::bytes::{be_bytes, push_be};
use crate::kernel::codec::{encode_commit, encode_relation_metadata_record,
    encode_rule_definition_record, encode_tuple_record, fact_key, put_commit, put_definition,
    put_fact_key, put_metadata, put_row, Encoded};
use crate::kernel::commit::{catalog_change_views, fact_change_views, CatalogChange,
    CatalogChangeView, Commit, CommitView, FactChange, FactChangeKind, FactChangeView};
use crate::kernel::decode::{decode_rule_definition, take_definition, whole};
use crate::kernel::metadata::Version;
use crate::kernel::rules::DefinitionView;
use crate::kernel::states::raw_ids;
use crate::text::{decimal, numbered};
use crate::value::Identity;
use vstd::prelude::*;

verus! {

/// Whether a commit counts as kept once it is queued, or once it is written.
#[derive(Clone, Copy, Debug, PartialEq, Eq, Structural)]
pub enum FjallDurabilityMode {
    Relaxed,
    Strict,
}

/// Whether a store can be opened as it stands.
#[derive(Debug)]
pub enum FjallFormatStatus {
    /// There is no store yet.
    Fresh,
    /// There is a store that nothing marks.
    Uninitialized,
    /// The store is marked as one of this format.
    Current,
    /// The store is marked as one of another format.
    MigrationRequired {
        stored_version: Option<u64>,
        stored_shape: Option<String>,
        current_version: u64,
        current_shape: String,
    },
}

/// Whether a store can be opened, apart from how that is stored.
pub enum FormatView {
    Fresh,
    Uninitialized,
    Current,
    MigrationRequired(Option<u64>, Option<Seq<char>>, u64, Seq<char>),
}

/// The text that there may be.
pub open spec fn text_view(text: Option<String>) -> Option<Seq<char>> {
    match text {
        Some(found) => Some(found@),
        None => None,
    }
}

impl View for FjallFormatStatus {
    type V = FormatView;

    open spec fn view(&self) -> FormatView {
        match self {
            FjallFormatStatus::Fresh => FormatView::Fresh,
            FjallFormatStatus::Uninitialized => FormatView::Uninitialized,
            FjallFormatStatus::Current => FormatView::Current,
            FjallFormatStatus::MigrationRequired {
                stored_version,
                stored_shape,
                current_version,
                current_shape,
            } => FormatView::MigrationRequired(
                *stored_version,
                text_view(*stored_shape),
                *current_version,
                current_shape@,
            ),
        }
    }
}

/// Whether a store can be opened: it must not be there yet, or bear no marks, or bear
/// both marks of this format.
pub open spec fn format_of(
    exists: bool,
    stored_version: Option<u64>,
    stored_shape: Option<Seq<char>>,
    current_version: u64,
    current_shape: Seq<char>,
) -> FormatView {
    if !exists {
        FormatView::Fresh
    } else if stored_version is None && stored_shape is None {
        FormatView::Uninitialized
    } else if stored_version == Some(current_version) && stored_shape == Some(current_shape) {
        FormatView::Current
    } else {
        FormatView::MigrationRequired(stored_version, stored_shape, current_version, current_shape)
    }
}

/// Whether a store can be opened, from the marks that it bears.
pub fn format_status(
    exists: bool,
    stored_version: Option<u64>,
    stored_shape: Option<String>,
    current_version: u64,
    current_shape: &str,
) -> (status: FjallFormatStatus)
    ensures
        status@ == format_of(
            exists,
            stored_version,
            text_view(stored_shape),
            current_version,
            current_shape@,
        ),
{
    if !exists {
        return FjallFormatStatus::Fresh;
    }
    if stored_version.is_none() && stored_shape.is_none() {
        return FjallFormatStatus::Uninitialized;
    }
    let current_shape = current_shape.to_owned();
    if let (Some(version), Some(shape)) = (&stored_version, &stored_shape) {
        if *version == current_version && *shape == current_shape {
            return FjallFormatStatus::Current;
        }
    }
    FjallFormatStatus::MigrationRequired {
        stored_version,
        stored_shape,
        current_version,
        current_shape,
    }
}

/// A part of a store.
#[derive(Clone, Copy, Debug, PartialEq, Eq, Structural)]
pub enum Keyspace {
    Commits,
    Relations,
    Rules,
    Facts,
    Metadata,
}

/// A change to a store.
#[derive(Debug)]
pub enum StoreWrite {
    Put(Keyspace, Vec<u8>, Vec<u8>),
    Remove(Keyspace, Vec<u8>),
}

/// A change to a store, apart from how it is stored.
pub enum WriteView {
    Put(Keyspace, Seq<u8>, Seq<u8>),
    Remove(Keyspace, Seq<u8>),
}

impl View for StoreWrite {
    type V = WriteView;

    open spec fn view(&self) -> WriteView {
        match self {
            StoreWrite::Put(keyspace, key, value) => WriteView::Put(*keyspace, key@, value@),
            StoreWrite::Remove(keyspace, key) => WriteView::Remove(*keyspace, key@),
        }
    }
}

/// The views of changes to a store.
pub open spec fn store_writes(writes: Seq<StoreWrite>) -> Seq<WriteView> {
    writes.map_values(|write: StoreWrite| write@)
}

/// Why a commit cannot be written.
#[derive(Debug)]
pub enum StoreError {
    /// A record cannot be written or read.
    Record(String),
    /// A rule is to be disabled that the store does not hold.
    MissingRule(Identity),
}

/// Why a commit cannot be written, apart from how that is stored.
pub enum StoreFault {
    Record(Seq<char>),
    MissingRule(u64),
}

impl View for StoreError {
    type V = StoreFault;

    open spec fn view(&self) -> StoreFault {
        match self {
            StoreError::Record(text) => StoreFault::Record(text@),
            StoreError::MissingRule(id) => StoreFault::MissingRule(id@),
        }
    }
}

/// A record under a key.
pub open spec fn put_under(keyspace: Keyspace, key: Seq<u8>, record: Encoded) -> Result<
    WriteView,
    StoreFault,
> {
    match record {
        Err(text) => Err(StoreFault::Record(text)),
        Ok(bytes) => Ok(WriteView::Put(keyspace, key, bytes)),
    }
}

/// The rules that are disabled, in order.
pub open spec fn disabled_rules(changes: Seq<CatalogChangeView>) -> Seq<u64>
    decreases changes.len(),
{
    if changes.len() == 0 {
        Seq::empty()
    } else {
        let before = disabled_rules(changes.drop_last());
        match changes.last() {
            CatalogChangeView::RuleDisabled(id) => before.push(id),
            _ => before,
        }
    }
}

/// What is written for a change to the catalog, where `found` is the record of a rule that
/// is disabled.
pub open spec fn catalog_write(change: CatalogChangeView, found: Option<Seq<u8>>) -> Result<
    WriteView,
    StoreFault,
> {
    match change {
        CatalogChangeView::RelationCreated(metadata) => put_under(
            Keyspace::Relations,
            be_bytes(metadata.id as nat, 8),
            put_metadata(metadata),
        ),
        CatalogChangeView::RuleInstalled(rule) => put_under(
            Keyspace::Rules,
            be_bytes(rule.id as nat, 8),
            put_definition(rule),
        ),
        CatalogChangeView::RuleDisabled(id) => match found {
            None => Err(StoreFault::MissingRule(id)),
            Some(bytes) => match whole(bytes, take_definition(bytes, 0)) {
                Err(text) => Err(StoreFault::Record(text)),
                Ok(rule) => put_under(
                    Keyspace::Rules,
                    be_bytes(id as nat, 8),
                    put_definition((DefinitionView { active: false, ..rule })),
                ),
            },
        },
    }
}

/// What is written for changes to the catalog.
pub open spec fn catalog_writes(
    changes: Seq<CatalogChangeView>,
    found: Seq<Option<Seq<u8>>>,
) -> Result<Seq<WriteView>, StoreFault>
    decreases changes.len(),
{
    if changes.len() == 0 {
        Ok(Seq::empty())
    } else {
        match catalog_writes(changes.drop_last(), found) {
            Err(fault) => Err(fault),
            Ok(before) => match catalog_write(
                changes.last(),
                found[disabled_rules(changes.drop_last()).len() as int],
            ) {
                Err(fault) => Err(fault),
                Ok(write) => Ok(before.push(write)),
            },
        }
    }
}

/// What is written for a change to a row.
pub open spec fn fact_write(change: FactChangeView) -> Result<WriteView, StoreFault> {
    match put_fact_key(change.relation, change.row) {
        Err(text) => Err(StoreFault::Record(text)),
        Ok(key) => match change.kind {
            FactChangeKind::Assert => put_under(Keyspace::Facts, key, put_row(change.row)),
            FactChangeKind::Retract => Ok(WriteView::Remove(Keyspace::Facts, key)),
        },
    }
}

/// What is written for changes to rows.
pub open spec fn fact_writes(changes: Seq<FactChangeView>) -> Result<Seq<WriteView>, StoreFault>
    decreases changes.len(),
{
    if changes.len() == 0 {
        Ok(Seq::empty())
    } else {
        match fact_writes(changes.drop_last()) {
            Err(fault) => Err(fault),
            Ok(before) => match fact_write(changes.last()) {
                Err(fault) => Err(fault),
                Ok(write) => Ok(before.push(write)),
            },
        }
    }
}

/// What is written for a commit: its record, what it does to the catalog and to rows, and
/// its version under the given key.
pub open spec fn commit_writes(
    commit: CommitView,
    found: Seq<Option<Seq<u8>>>,
    version_key: Seq<u8>,
) -> Result<Seq<WriteView>, StoreFault> {
    let version = be_bytes(commit.version as nat, 8);
    match put_under(Keyspace::Commits, version, put_commit(commit)) {
        Err(fault) => Err(fault),
        Ok(first) => match catalog_writes(commit.catalog_changes, found) {
            Err(fault) => Err(fault),
            Ok(catalog) => match fact_writes(commit.changes) {
                Err(fault) => Err(fault),
                Ok(facts) => Ok(
                    (seq![first] + catalog + facts).push(
                        WriteView::Put(Keyspace::Metadata, version_key, version),
                    ),
                ),
            },
        },
    }
}

proof fn lemma_catalog_writes_early(
    changes: Seq<CatalogChangeView>,
    found: Seq<Option<Seq<u8>>>,
    n: int,
)
    requires
        0 <= n <= changes.len(),
        catalog_writes(changes.take(n), found) is Err,
    ensures
        catalog_writes(changes, found) == catalog_writes(changes.take(n), found),
    decreases changes.len(),
{
    if n == changes.len() {
        assert(changes.take(n) =~= changes);
    } else {
        assert(changes.drop_last().take(n) =~= changes.take(n));
        lemma_catalog_writes_early(changes.drop_last(), found, n);
    }
}

proof fn lemma_disabled_bound(changes: Seq<CatalogChangeView>, n: int)
    requires
        0 <= n < changes.len(),
        changes[n] is RuleDisabled,
    ensures
        disabled_rules(changes.take(n)).len() < disabled_rules(changes).len(),
    decreases changes.len(),
{
    let less = changes.drop_last();
    if n == less.len() {
        assert(changes.take(n) =~= less);
    } else {
        assert(less.take(n) =~= changes.take(n));
        assert(less[n] == changes[n]);
        lemma_disabled_bound(less, n);
    }
}

proof fn lemma_fact_writes_early(changes: Seq<FactChangeView>, n: int)
    requires
        0 <= n <= changes.len(),
        fact_writes(changes.take(n)) is Err,
    ensures
        fact_writes(changes) == fact_writes(changes.take(n)),
    decreases changes.len(),
{
    if n == changes.len() {
        assert(changes.take(n) =~= changes);
    } else {
        assert(changes.drop_last().take(n) =~= changes.take(n));
        lemma_fact_writes_early(changes.drop_last(), n);
    }
}

/// The rules whose records have to be read before a commit can be written, in order.
pub fn rules_to_read(commit: &Commit) -> (ids: Vec<Identity>)
    ensures
        raw_ids(ids@) == disabled_rules(commit@.catalog_changes),
{
    let changes = commit.catalog_changes();
    let ghost all = catalog_change_views(changes@);
    let mut ids: Vec<Identity> = Vec::new();
    let mut i: usize = 0;
    proof {
        assert(all.take(0) =~= Seq::empty());
        assert(raw_ids(ids@) =~= Seq::empty());
    }
    while i < changes.len()
        invariant
            i <= changes@.len(),
            all == catalog_change_views(changes@),
            raw_ids(ids@) == disabled_rules(all.take(i as int)),
        decreases changes@.len() - i,
    {
        let ghost before = ids@;
        proof {
            assert(all.take(i + 1).drop_last() =~= all.take(i as int));
            assert(all.take(i + 1).last() == changes@[i as int]@);
        }
        match &changes[i] {
            CatalogChange::RuleDisabled(id) => {
                ids.push(*id);
                assert(raw_ids(ids@) =~= raw_ids(before).push(id@));
            },
            _ => {},
        }
        i = i + 1;
    }
    assert(all.take(i as int) =~= all);
    ids
}

/// Records that were read, or are not there.
pub open spec fn record_views(found: Seq<Option<Vec<u8>>>) -> Seq<Option<Seq<u8>>> {
    found.map_values(
        |record: Option<Vec<u8>>|
            match record {
                Some(bytes) => Some(bytes@),
                None => None,
            },
    )
}

fn number_key(n: u64) -> (key: Vec<u8>)
    ensures
        key@ == be_bytes(n as nat, 8),
{
    let mut key: Vec<u8> = Vec::new();
    push_be(&mut key, n, 8);
    assert(key@ =~= be_bytes(n as nat, 8));
    key
}

fn record_under(keyspace: Keyspace, key: Vec<u8>, record: Result<Vec<u8>, String>) -> (result: Result<
    StoreWrite,
    StoreError,
>)
    ensures
        match (result, record) {
            (Ok(write), Ok(bytes)) => write@ == WriteView::Put(keyspace, key@, bytes@),
            (Err(error), Err(text)) => error@ == StoreFault::Record(text@),
            _ => false,
        },
{
    match record {
        Err(text) => Err(StoreError::Record(text)),
        Ok(bytes) => Ok(StoreWrite::Put(keyspace, key, bytes)),
    }
}

/// Whether a result is a write, or why there is none.
pub open spec fn tells_write(
    result: Result<StoreWrite, StoreError>,
    expected: Result<WriteView, StoreFault>,
) -> bool {
    match (result, expected) {
        (Ok(write), Ok(view)) => write@ == view,
        (Err(error), Err(fault)) => error@ == fault,
        _ => false,
    }
}

/// What is written for a change to the catalog.
pub fn plan_catalog_change(change: &CatalogChange, found: Option<&Vec<u8>>) -> (result: Result<
    StoreWrite,
    StoreError,
>)
    ensures
        tells_write(
            result,
            catalog_write(
                change@,
                match found {
                    Some(bytes) => Some(bytes@),
                    None => None,
                },
            ),
        ),
{
    match change {
        CatalogChange::RelationCreated(metadata) => record_under(
            Keyspace::Relations,
            number_key(metadata.id().raw()),
            encode_relation_metadata_record(metadata),
        ),
        CatalogChange::RuleInstalled(rule) => record_under(
            Keyspace::Rules,
            number_key(rule.id().raw()),
            encode_rule_definition_record(rule),
        ),
        CatalogChange::RuleDisabled(id) => match found {
            None => Err(StoreError::MissingRule(*id)),
            Some(bytes) => match decode_rule_definition(bytes) {
                Err(text) => Err(StoreError::Record(text)),
                Ok(mut rule) => {
                    rule.deactivate();
                    record_under(
                        Keyspace::Rules,
                        number_key(id.raw()),
                        encode_rule_definition_record(&rule),
                    )
                },
            },
        },
    }
}

/// What is written for a change to a row.
pub fn plan_fact_change(change: &FactChange) -> (result: Result<StoreWrite, StoreError>)
    ensures
        tells_write(result, fact_write(change@)),
{
    let key = match fact_key(change.relation, &change.tuple) {
        Err(text) => {
            return Err(StoreError::Record(text));
        },
        Ok(key) => key,
    };
    match change.kind {
        FactChangeKind::Assert => record_under(
            Keyspace::Facts,
            key,
            encode_tuple_record(&change.tuple),
        ),
        FactChangeKind::Retract => Ok(StoreWrite::Remove(Keyspace::Facts, key)),
    }
}

/// What is written for a commit, where `found` holds the records of the rules that it
/// disables.
pub fn plan_commit(commit: &Commit, found: &[Option<Vec<u8>>], version_key: Vec<u8>) -> (result:
    Result<Vec<StoreWrite>, StoreError>)
    requires
        found@.len() == disabled_rules(commit@.catalog_changes).len(),
    ensures
        match (result, commit_writes(commit@, record_views(found@), version_key@)) {
            (Ok(writes), Ok(expected)) => store_writes(writes@) == expected,
            (Err(error), Err(fault)) => error@ == fault,
            _ => false,
        },
{
    let ghost records = record_views(found@);
    let ghost version = be_bytes(commit@.version as nat, 8);
    let mut writes: Vec<StoreWrite> = Vec::new();
    match record_under(Keyspace::Commits, number_key(commit.version()), encode_commit(commit)) {
        Err(error) => {
            return Err(error);
        },
        Ok(write) => {
            writes.push(write);
        },
    }
    let ghost first = writes@[0]@;
    let changes = commit.catalog_changes();
    let ghost all = catalog_change_views(changes@);
    let mut i: usize = 0;
    let mut read: usize = 0;
    proof {
        assert(all.take(0) =~= Seq::empty());
        assert(store_writes(writes@) =~= seq![first] + Seq::<WriteView>::empty());
    }
    while i < changes.len()
        invariant
            i <= changes@.len(),
            all == catalog_change_views(changes@),
            all == commit@.catalog_changes,
            records == record_views(found@),
            found@.len() == disabled_rules(all).len(),
            read == disabled_rules(all.take(i as int)).len(),
            read <= found@.len(),
            put_under(Keyspace::Commits, version, put_commit(commit@)) == Ok::<_, StoreFault>(first),
            version == be_bytes(commit@.version as nat, 8),
            catalog_writes(all.take(i as int), records) is Ok,
            store_writes(writes@) == seq![first] + catalog_writes(all.take(i as int), records)->Ok_0,
        decreases changes@.len() - i,
    {
        let ghost before = writes@;
        proof {
            assert(all.take(i + 1).drop_last() =~= all.take(i as int));
            assert(all.take(i + 1).last() == changes@[i as int]@);
            assert(all[i as int] == changes@[i as int]@);
            if all[i as int] is RuleDisabled {
                lemma_disabled_bound(all, i as int);
            }
            if catalog_writes(all.take(i + 1), records) is Err {
                lemma_catalog_writes_early(all, records, i + 1);
            }
        }
        let planned = match &changes[i] {
            CatalogChange::RuleDisabled(_) => {
                let record = found[read].as_ref();
                assert(records[read as int] == match record {
                    Some(bytes) => Some(bytes@),
                    None => None,
                });
                read = read + 1;
                plan_catalog_change(&changes[i], record)
            },
            _ => plan_catalog_change(&changes[i], None),
        };
        match planned {
            Err(error) => {
                return Err(error);
            },
            Ok(write) => {
                writes.push(write);
                assert(store_writes(writes@) =~= store_writes(before).push(write@));
                assert(store_writes(writes@) =~= seq![first] + catalog_writes(
                    all.take(i + 1),
                    records,
                )->Ok_0);
            },
        }
        i = i + 1;
    }
    assert(all.take(i as int) =~= all);
    let ghost catalog = catalog_writes(all, records)->Ok_0;
    let rows = commit.changes();
    let ghost told = fact_change_views(rows@);
    let mut k: usize = 0;
    proof {
        assert(told.take(0) =~= Seq::empty());
        assert(store_writes(writes@) =~= seq![first] + catalog + Seq::<WriteView>::empty());
    }
    while k < rows.len()
        invariant
            k <= rows@.len(),
            told == fact_change_views(rows@),
            told == commit@.changes,
            put_under(Keyspace::Commits, version, put_commit(commit@)) == Ok::<_, StoreFault>(first),
            version == be_bytes(commit@.version as nat, 8),
            records == record_views(found@),
            catalog_writes(commit@.catalog_changes, records) == Ok::<_, StoreFault>(catalog),
            fact_writes(told.take(k as int)) is Ok,
            store_writes(writes@) == seq![first] + catalog + fact_writes(told.take(k as int))->Ok_0,
        decreases rows@.len() - k,
    {
        let ghost before = writes@;
        proof {
            assert(told.take(k + 1).drop_last() =~= told.take(k as int));
            assert(told.take(k + 1).last() == rows@[k as int]@);
            if fact_writes(told.take(k + 1)) is Err {
                lemma_fact_writes_early(told, k + 1);
            }
        }
        match plan_fact_change(&rows[k]) {
            Err(error) => {
                return Err(error);
            },
            Ok(write) => {
                writes.push(write);
                assert(store_writes(writes@) =~= store_writes(before).push(write@));
                assert(store_writes(writes@) =~= seq![first] + catalog + fact_writes(
                    told.take(k + 1),
                )->Ok_0);
            },
        }
        k = k + 1;
    }
    assert(told.take(k as int) =~= told);
    let ghost before = writes@;
    writes.push(StoreWrite::Put(Keyspace::Metadata, version_key, number_key(commit.version())));
    assert(store_writes(writes@) =~= store_writes(before).push(
        WriteView::Put(Keyspace::Metadata, version_key@, version),
    ));
    Ok(writes)
}

/// How far a store has come with commits that were handed to it.
pub struct WriterState {
    durability: FjallDurabilityMode,
    queued_version: Version,
    completed_version: Version,
    write_error: Option<String>,
}

/// How far a store has come, apart from how that is stored.
pub struct WriterView {
    pub durability: FjallDurabilityMode,
    pub queued_version: Version,
    pub completed_version: Version,
    pub write_error: Option<Seq<char>>,
}

impl View for WriterState {
    type V = WriterView;

    closed spec fn view(&self) -> WriterView {
        WriterView {
            durability: self.durability,
            queued_version: self.queued_version,
            completed_version: self.completed_version,
            write_error: match self.write_error {
                Some(text) => Some(text@),
                None => None,
            },
        }
    }
}

/// The larger of two versions.
pub open spec fn newer(a: Version, b: Version) -> Version {
    if a < b {
        b
    } else {
        a
    }
}

impl WriterState {
    /// A store that holds everything up to a version.
    pub fn new(initial_version: Version, durability: FjallDurabilityMode) -> (state: WriterState)
        ensures
            state@ == (WriterView {
                durability,
                queued_version: initial_version,
                completed_version: initial_version,
                write_error: None,
            }),
    {
        WriterState {
            durability,
            queued_version: initial_version,
            completed_version: initial_version,
            write_error: None,
        }
    }

    /// Whether commits count as kept once they are queued.
    pub fn durability(&self) -> (durability: FjallDurabilityMode)
        ensures
            durability == self@.durability,
    {
        self.durability
    }

    /// The newest version that was queued.
    pub fn queued_version(&self) -> (version: Version)
        ensures
            version == self@.queued_version,
    {
        self.queued_version
    }

    /// The newest version that was written.
    pub fn completed_version(&self) -> (version: Version)
        ensures
            version == self@.completed_version,
    {
        self.completed_version
    }

    /// Why the last write that failed did.
    pub fn last_write_error(&self) -> (error: Option<String>)
        ensures
            match error {
                Some(text) => self@.write_error == Some(text@),
                None => self@.write_error is None,
            },
    {
        match &self.write_error {
            Some(text) => Some(text.clone()),
            None => None,
        }
    }

    /// Refuses once a write failed.
    pub fn check_writer_error(&self) -> (result: Result<(), String>)
        ensures
            match (result, self@.write_error) {
                (Ok(()), None) => true,
                (Err(text), Some(error)) => text@ == "fjall commit writer failed: "@ + error,
                _ => false,
            },
    {
        match &self.write_error {
            None => Ok(()),
            Some(error) => {
                let mut text = "fjall commit writer failed: ".to_owned();
                text.append(error.as_str());
                Err(text)
            },
        }
    }

    /// A commit was queued. Says whether its write is waited for.
    pub fn queued(&mut self, version: Version) -> (waits: bool)
        ensures
            waits == (old(self)@.durability == FjallDurabilityMode::Strict),
            final(self)@ == (WriterView {
                queued_version: newer(old(self)@.queued_version, version),
                ..old(self)@
            }),
    {
        if self.queued_version < version {
            self.queued_version = version;
        }
        match self.durability {
            FjallDurabilityMode::Relaxed => false,
            FjallDurabilityMode::Strict => true,
        }
    }

    /// A commit was written, or why it was not.
    pub fn written(&mut self, version: Version, result: &Result<(), String>)
        ensures
            final(self)@ == match *result {
                Ok(()) => WriterView {
                    completed_version: newer(old(self)@.completed_version, version),
                    ..old(self)@
                },
                Err(text) => WriterView { write_error: Some(text@), ..old(self)@ },
            },
    {
        match result {
            Ok(()) => {
                if self.completed_version < version {
                    self.completed_version = version;
                }
            },
            Err(text) => {
                self.write_error = Some(text.clone());
            },
        }
    }
}

/// What is said where a store fails to write a commit.
pub fn write_failure(version: Version, reason: &str) -> (text: String)
    ensures
        text@ == "failed to persist fjall commit "@ + decimal(version as nat) + ": "@ + reason@,
{
    let mut text = numbered("failed to persist fjall commit ", version, ": ");
    text.append(reason);
    text
}

} // verus!
