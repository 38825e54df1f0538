//! Relations whose rows are computed when they are read.

use crate::kernel::algebra::Row;
use crate::kernel::error::{step_view, FaultView, KernelError};
use crate::kernel::metadata::{MetadataView, RelationMetadata};
use crate::kernel::read::{metadata_views, ComputedRelationRead, ShownView};
use crate::table::{entry_map, lemma_entry_map, Table};
use crate::tuple::{rows, Tuple};
use crate::value::{option_views, Identity, Value, ValueView};
use std::sync::Arc;
use vstd::prelude::*;

verus! {

/// What a computed relation gave when it was asked for rows.
pub open spec fn given(answer: Result<Vec<Tuple>, KernelError>) -> Result<Seq<Row>, FaultView> {
    match answer {
        Ok(found) => Ok(rows(found@)),
        Err(error) => Err(error@),
    }
}

/// What a computed relation gave when it was asked how many rows it has.
pub open spec fn given_count(answer: Result<usize, KernelError>) -> Result<usize, FaultView> {
    match answer {
        Ok(count) => Ok(count),
        Err(error) => Err(error@),
    }
}

/// Something that computes the rows of relations. What it may answer is its own affair.
pub trait ComputedRelation: Send + Sync {
    /// Whether it computes the rows of a relation; none unless it says so.
    open spec fn wants(&self, metadata: MetadataView) -> bool {
        false
    }

    /// The columns that have to be bound; none unless it says so.
    open spec fn needs(&self, metadata: MetadataView) -> Seq<u16> {
        Seq::empty()
    }

    /// Whether it may answer so when it is asked for the rows that agree with bindings, by a
    /// reader that shows this.
    open spec fn may_give(
        &self,
        shown: ShownView,
        metadata: MetadataView,
        bindings: Seq<Option<ValueView>>,
        answer: Result<Seq<Row>, FaultView>,
    ) -> bool {
        true
    }

    /// Whether it may answer so when it is asked about how many rows agree with bindings, by
    /// a reader that shows this.
    open spec fn may_count(
        &self,
        shown: ShownView,
        metadata: MetadataView,
        bindings: Seq<Option<ValueView>>,
        answer: Result<usize, FaultView>,
    ) -> bool {
        true
    }

    /// What it is called.
    fn name(&self) -> (name: &'static str);

    /// Whether it computes the rows of a relation.
    fn matches(&self, metadata: &RelationMetadata) -> (result: bool)
        ensures
            result == self.wants(metadata@),
    ;

    /// The columns that have to be bound.
    fn required_bound_positions(&self, metadata: &RelationMetadata) -> (positions: Vec<u16>)
        ensures
            positions@ == self.needs(metadata@),
    ;

    /// The rows that agree with the bindings.
    fn scan(
        &self,
        reader: &dyn ComputedRelationRead,
        metadata: &RelationMetadata,
        bindings: &[Option<Value>],
    ) -> (result: Result<Vec<Tuple>, KernelError>)
        ensures
            self.may_give(reader.shown(), metadata@, option_views(bindings@), given(result)),
    ;

    /// About how many rows agree with the bindings.
    fn estimate(
        &self,
        reader: &dyn ComputedRelationRead,
        metadata: &RelationMetadata,
        bindings: &[Option<Value>],
    ) -> (result: Result<usize, KernelError>)
        ensures
            self.may_count(reader.shown(), metadata@, option_views(bindings@), given_count(result)),
    ;
}

/// The first that computes the rows of a relation.
pub open spec fn first_wanting(
    relations: Seq<Arc<dyn ComputedRelation>>,
    metadata: MetadataView,
) -> Option<int> {
    if exists|i: int| is_first_wanting(relations, metadata, i) {
        Some(choose|i: int| is_first_wanting(relations, metadata, i))
    } else {
        None
    }
}

/// Whether the one at `i` computes the rows of a relation and none before it does.
pub open spec fn is_first_wanting(
    relations: Seq<Arc<dyn ComputedRelation>>,
    metadata: MetadataView,
    i: int,
) -> bool {
    &&& 0 <= i < relations.len()
    &&& relations[i].wants(metadata)
    &&& forall|j: int| 0 <= j < i ==> !(#[trigger] relations[j]).wants(metadata)
}

/// What is missing from bindings: columns that have to be bound and are not.
pub open spec fn missing_positions(
    needed: Seq<u16>,
    bindings: Seq<Option<ValueView>>,
) -> Seq<u16> {
    needed.filter(|position: u16| position >= bindings.len() || bindings[position as int] is None)
}

/// Why bindings cannot be asked of a computed relation.
pub open spec fn request_fault(
    needed: Seq<u16>,
    metadata: MetadataView,
    bindings: Seq<Option<ValueView>>,
) -> Option<FaultView> {
    if bindings.len() != metadata.arity {
        Some(FaultView::ArityMismatch(metadata.id, metadata.arity, bindings.len()))
    } else if missing_positions(needed, bindings).len() > 0 {
        Some(
            FaultView::MissingRequiredBindings(metadata.id, missing_positions(needed, bindings)),
        )
    } else {
        None
    }
}

/// The computed relations, and which relations they were found to compute.
pub struct ComputedRelationRegistry {
    relations: Arc<Vec<Arc<dyn ComputedRelation>>>,
    bindings: Table<Identity, Option<usize>>,
}

/// A registry, apart from how it is stored.
pub struct RegistryView {
    pub relations: Seq<Arc<dyn ComputedRelation>>,
    pub bindings: Map<u64, Option<usize>>,
}

impl RegistryView {
    /// Which computed relation a relation's rows come from.
    pub open spec fn finds(self, metadata: MetadataView) -> Option<int> {
        if self.bindings.contains_key(metadata.id) {
            match self.bindings[metadata.id] {
                Some(i) => if i < self.relations.len() {
                    Some(i as int)
                } else {
                    None
                },
                None => None,
            }
        } else {
            first_wanting(self.relations, metadata)
        }
    }

    /// Whether a relation's rows are computed.
    pub open spec fn computes(self, metadata: MetadataView) -> bool {
        self.finds(metadata) is Some
    }

    /// Whether reading a relation whose rows are computed may end so. Bindings that lack
    /// what the computed relation needs are refused, and its own answer decides otherwise.
    pub open spec fn may_give(
        self,
        shown: ShownView,
        metadata: MetadataView,
        bindings: Seq<Option<ValueView>>,
        answer: Result<Seq<Row>, FaultView>,
    ) -> bool {
        let provider = self.relations[self.finds(metadata)->0];
        match request_fault(provider.needs(metadata), metadata, bindings) {
            Some(fault) => answer == Err::<Seq<Row>, FaultView>(fault),
            None => provider.may_give(shown, metadata, bindings, answer),
        }
    }

    /// Whether estimating a relation whose rows are computed may end so.
    pub open spec fn may_count(
        self,
        shown: ShownView,
        metadata: MetadataView,
        bindings: Seq<Option<ValueView>>,
        answer: Result<usize, FaultView>,
    ) -> bool {
        let provider = self.relations[self.finds(metadata)->0];
        match request_fault(provider.needs(metadata), metadata, bindings) {
            Some(fault) => answer == Err::<usize, FaultView>(fault),
            None => provider.may_count(shown, metadata, bindings, answer),
        }
    }

    /// The registry once it has looked for a relation.
    pub open spec fn bound(self, metadata: MetadataView) -> RegistryView {
        RegistryView {
            bindings: self.bindings.insert(
                metadata.id,
                match first_wanting(self.relations, metadata) {
                    Some(i) => Some(i as usize),
                    None => None,
                },
            ),
            ..self
        }
    }

    /// The registry once it has looked for several relations.
    pub open spec fn bound_all(self, relations: Seq<MetadataView>) -> RegistryView
        decreases relations.len(),
    {
        if relations.len() == 0 {
            self
        } else {
            self.bound_all(relations.drop_last()).bound(relations.last())
        }
    }
}

impl View for ComputedRelationRegistry {
    type V = RegistryView;

    closed spec fn view(&self) -> RegistryView {
        RegistryView { relations: self.relations@, bindings: self.bindings@ }
    }
}

proof fn lemma_first_wanting(
    relations: Seq<Arc<dyn ComputedRelation>>,
    metadata: MetadataView,
    i: int,
)
    requires
        is_first_wanting(relations, metadata, i),
    ensures
        first_wanting(relations, metadata) == Some(i),
{
    let j = choose|j: int| is_first_wanting(relations, metadata, j);
    assert(is_first_wanting(relations, metadata, j));
    if i < j {
        assert(!relations[i].wants(metadata));
    }
    if j < i {
        assert(!relations[j].wants(metadata));
    }
}

impl ComputedRelationRegistry {
    /// A registry that has not looked for any relation.
    pub fn new(relations: Vec<Arc<dyn ComputedRelation>>) -> (registry: ComputedRelationRegistry)
        ensures
            registry@ == (RegistryView { relations: relations@, bindings: Map::empty() }),
    {
        ComputedRelationRegistry { relations: Arc::new(relations), bindings: Table::new() }
    }

    /// Looks for each relation.
    pub fn bind_relations(self, metadata: &[RelationMetadata]) -> (registry:
        ComputedRelationRegistry)
        ensures
            registry@ == self@.bound_all(metadata_views(metadata@)),
    {
        let ghost first = self@;
        let ghost all = metadata_views(metadata@);
        let mut registry = self;
        let mut i: usize = 0;
        assert(all.take(0) =~= Seq::empty());
        while i < metadata.len()
            invariant
                i <= metadata@.len(),
                all == metadata_views(metadata@),
                registry@ == first.bound_all(all.take(i as int)),
            decreases metadata@.len() - i,
        {
            proof {
                assert(all.take(i + 1).drop_last() =~= all.take(i as int));
                assert(all.take(i + 1).last() == metadata@[i as int]@);
            }
            registry.bind_relation(&metadata[i]);
            i = i + 1;
        }
        assert(all.take(i as int) =~= all);
        registry
    }

    /// A registry that has also looked for a relation.
    pub fn with_relation(&self, metadata: &RelationMetadata) -> (registry: ComputedRelationRegistry)
        ensures
            registry@ == self@.bound(metadata@),
    {
        let mut registry = self.copy();
        registry.bind_relation(metadata);
        registry
    }

    /// A copy of the registry.
    pub fn copy(&self) -> (copy: ComputedRelationRegistry)
        ensures
            copy@ == self@,
    {
        let relations = self.relations.clone();
        let entries = self.bindings.entries();
        let mut bindings: Table<Identity, Option<usize>> = Table::new();
        let mut i: usize = 0;
        proof {
            lemma_entry_map(entries@);
        }
        while i < entries.len()
            invariant
                i <= entries@.len(),
                self.bindings@ == entry_map(entries@),
                forall|j: int|
                    0 <= j < entries@.len() ==> self.bindings@.contains_key(
                        (#[trigger] entries@[j]).0@,
                    ) && self.bindings@[entries@[j].0@] == entries@[j].1,
                forall|id: u64| #[trigger]
                    bindings@.contains_key(id) ==> self.bindings@.contains_key(id) && bindings@[id]
                        == self.bindings@[id],
                forall|j: int|
                    0 <= j < i ==> bindings@.contains_key((#[trigger] entries@[j]).0@),
            decreases entries@.len() - i,
        {
            bindings.insert(entries[i].0, entries[i].1);
            i = i + 1;
        }
        proof {
            assert forall|id: u64| self.bindings@.contains_key(id) implies bindings@.contains_key(
                id,
            ) by {
                let keys = crate::table::entry_keys(entries@);
                let j = choose|j: int| 0 <= j < keys.len() && keys[j] == id;
                assert(entries@[j].0@ == id);
            }
            assert(bindings@ =~= self.bindings@);
        }
        ComputedRelationRegistry { relations, bindings }
    }

    /// Whether a relation's rows are computed.
    pub fn is_computed_relation(&self, metadata: &RelationMetadata) -> (result: bool)
        ensures
            result == self@.computes(metadata@),
    {
        self.find(metadata).is_some()
    }

    /// What computes the rows of a relation, where that is nothing stored and the bindings are
    /// what it needs. The reader then asks it, and so shows it what there is.
    pub fn provider(&self, metadata: &RelationMetadata, bindings: &[Option<Value>]) -> (result:
        Option<Result<&Arc<dyn ComputedRelation>, KernelError>>)
        ensures
            result is Some == self@.computes(metadata@),
            result matches Some(found) ==> {
                let provider = self@.relations[self@.finds(metadata@)->0];
                match request_fault(provider.needs(metadata@), metadata@, option_views(bindings@)) {
                    Some(fault) => found matches Err(error) && error@ == fault,
                    None => found matches Ok(relation) && *relation == provider,
                }
            },
    {
        match self.find(metadata) {
            None => None,
            Some(i) => match validate_bindings(&self.relations[i], metadata, bindings) {
                Err(error) => Some(Err(error)),
                Ok(()) => Some(Ok(&self.relations[i])),
            },
        }
    }

    fn find(&self, metadata: &RelationMetadata) -> (found: Option<usize>)
        ensures
            match found {
                Some(i) => self@.finds(metadata@) == Some(i as int) && i < self.relations@.len(),
                None => self@.finds(metadata@) is None,
            },
    {
        match self.bindings.get(&metadata.id()) {
            Some(Some(i)) => if *i < self.relations.len() {
                Some(*i)
            } else {
                None
            },
            Some(None) => None,
            None => self.first_match(metadata),
        }
    }

    fn first_match(&self, metadata: &RelationMetadata) -> (found: Option<usize>)
        ensures
            match found {
                Some(i) => first_wanting(self.relations@, metadata@) == Some(i as int) && i
                    < self.relations@.len(),
                None => first_wanting(self.relations@, metadata@) is None,
            },
    {
        let mut i: usize = 0;
        while i < self.relations.len()
            invariant
                i <= self.relations@.len(),
                forall|j: int| 0 <= j < i ==> !(#[trigger] self.relations@[j]).wants(metadata@),
            decreases self.relations@.len() - i,
        {
            if self.relations[i].matches(metadata) {
                proof {
                    lemma_first_wanting(self.relations@, metadata@, i as int);
                }
                return Some(i);
            }
            i = i + 1;
        }
        None
    }

    fn bind_relation(&mut self, metadata: &RelationMetadata)
        ensures
            final(self)@ == old(self)@.bound(metadata@),
    {
        let index = self.first_match(metadata);
        self.bindings.insert(metadata.id(), index);
    }
}

/// Whether bindings can be asked of a computed relation.
fn validate_bindings(
    relation: &Arc<dyn ComputedRelation>,
    metadata: &RelationMetadata,
    bindings: &[Option<Value>],
) -> (result: Result<(), KernelError>)
    ensures
        step_view(result) == match request_fault(
            relation.needs(metadata@),
            metadata@,
            option_views(bindings@),
        ) {
            Some(fault) => Err::<(), _>(fault),
            None => Ok(()),
        },
{
    if bindings.len() != metadata.arity() as usize {
        return Err(
            KernelError::ArityMismatch {
                relation: metadata.id(),
                expected: metadata.arity(),
                actual: bindings.len(),
            },
        );
    }
    let needed = relation.required_bound_positions(metadata);
    let missing = unbound_positions(&needed, bindings);
    if missing.len() == 0 {
        return Ok(());
    }
    Err(KernelError::MissingRequiredBindings { relation: metadata.id(), positions: missing })
}

/// The columns that have to be bound and are not.
pub fn unbound_positions(needed: &[u16], bindings: &[Option<Value>]) -> (missing: Vec<u16>)
    ensures
        missing@ == missing_positions(needed@, option_views(bindings@)),
{
    let ghost bound = option_views(bindings@);
    let ghost unbound = |position: u16|
        position >= bound.len() || bound[position as int] is None;
    let mut missing: Vec<u16> = Vec::new();
    let mut i: usize = 0;
    proof {
        reveal(Seq::filter);
        assert(needed@.take(0) =~= Seq::empty());
    }
    while i < needed.len()
        invariant
            i <= needed@.len(),
            bound == option_views(bindings@),
            unbound == (|position: u16| position >= bound.len() || bound[position as int] is None),
            missing@ == needed@.take(i as int).filter(unbound),
        decreases needed@.len() - i,
    {
        proof {
            reveal(Seq::filter);
            assert(needed@.take(i + 1).drop_last() =~= needed@.take(i as int));
        }
        let position: u16 = needed[i];
        let free: bool = if (position as usize) < bindings.len() {
            bindings[position as usize].is_none()
        } else {
            true
        };
        if free {
            missing.push(position);
        }
        i = i + 1;
    }
    assert(needed@.take(i as int) =~= needed@);
    missing
}

} // verus!
