//! What a relation is called, how wide it is, and how it is kept.

use crate::value::{Identity, Symbol};
use vstd::prelude::*;

verus! {

/// The identity of a relation.
pub type RelationId = Identity;

/// The number of a snapshot.
pub type Version = u64;

/// Whether the rows of a relation outlive the process.
#[derive(Clone, Copy, Debug, PartialEq, Eq, Structural)]
pub enum RelationDurability {
    Durable,
    Volatile,
}

impl RelationDurability {
    /// The name of the durability.
    pub open spec fn name(self) -> Seq<char> {
        match self {
            RelationDurability::Durable => "durable"@,
            RelationDurability::Volatile => "volatile"@,
        }
    }

    /// The name of the durability, as a symbol.
    pub fn symbol(self) -> (symbol: Symbol)
        ensures
            symbol@ == self.name(),
    {
        match self {
            RelationDurability::Durable => Symbol::intern("durable"),
            RelationDurability::Volatile => Symbol::intern("volatile"),
        }
    }
}

/// When writes of two transactions to one relation get in each other's way.
#[derive(Debug, PartialEq)]
pub enum ConflictPolicy {
    SetOfRows,
    Functional { key_positions: Vec<u16> },
    EventAppend,
}

/// A conflict policy, apart from how it is stored.
pub enum PolicyView {
    SetOfRows,
    Functional(Seq<u16>),
    EventAppend,
}

impl View for ConflictPolicy {
    type V = PolicyView;

    open spec fn view(&self) -> PolicyView {
        match self {
            ConflictPolicy::SetOfRows => PolicyView::SetOfRows,
            ConflictPolicy::Functional { key_positions } => PolicyView::Functional(key_positions@),
            ConflictPolicy::EventAppend => PolicyView::EventAppend,
        }
    }
}

/// A copy of positions.
pub fn copy_positions(positions: &[u16]) -> (copy: Vec<u16>)
    ensures
        copy@ == positions@,
{
    let mut copy: Vec<u16> = Vec::new();
    let mut i: usize = 0;
    while i < positions.len()
        invariant
            i <= positions@.len(),
            copy@ == positions@.take(i as int),
        decreases positions@.len() - i,
    {
        copy.push(positions[i]);
        i = i + 1;
        assert(copy@ =~= positions@.take(i as int));
    }
    assert(copy@ =~= positions@);
    copy
}

/// Whether two lists of positions are the same.
pub fn same_positions(a: &[u16], b: &[u16]) -> (result: bool)
    ensures
        result == (a@ == b@),
{
    if a.len() != b.len() {
        return false;
    }
    let mut i: usize = 0;
    while i < a.len()
        invariant
            a@.len() == b@.len(),
            i <= a@.len(),
            forall|j: int| 0 <= j < i ==> a@[j] == b@[j],
        decreases a@.len() - i,
    {
        if a[i] != b[i] {
            return false;
        }
        i = i + 1;
    }
    assert(a@ =~= b@);
    true
}

impl Clone for ConflictPolicy {
    fn clone(&self) -> (copy: ConflictPolicy)
        ensures
            copy@ == self@,
    {
        match self {
            ConflictPolicy::SetOfRows => ConflictPolicy::SetOfRows,
            ConflictPolicy::Functional { key_positions } => ConflictPolicy::Functional {
                key_positions: copy_positions(key_positions),
            },
            ConflictPolicy::EventAppend => ConflictPolicy::EventAppend,
        }
    }
}

impl ConflictPolicy {
    /// Whether two policies are the same.
    pub fn same(&self, other: &ConflictPolicy) -> (result: bool)
        ensures
            result == (self@ == other@),
    {
        match (self, other) {
            (ConflictPolicy::SetOfRows, ConflictPolicy::SetOfRows) => true,
            (
                ConflictPolicy::Functional { key_positions: a },
                ConflictPolicy::Functional { key_positions: b },
            ) => same_positions(a, b),
            (ConflictPolicy::EventAppend, ConflictPolicy::EventAppend) => true,
            _ => false,
        }
    }
}

/// The columns that an index is over, in order.
#[derive(Debug, PartialEq)]
pub struct TupleIndexSpec {
    pub positions: Vec<u16>,
}

impl TupleIndexSpec {
    /// The columns that the index is over.
    pub fn positions(&self) -> (positions: &[u16])
        ensures
            positions@ == self.positions@,
    {
        self.positions.as_slice()
    }
}

/// The columns of indexes.
pub open spec fn index_views(indexes: Seq<TupleIndexSpec>) -> Seq<Seq<u16>> {
    indexes.map_values(|index: TupleIndexSpec| index.positions@)
}

/// The names of columns.
pub open spec fn name_views(names: Seq<Option<Symbol>>) -> Seq<Option<Seq<char>>> {
    names.map_values(|name: Option<Symbol>| name_view(name))
}

/// The name of a column that may have none.
pub open spec fn name_view(name: Option<Symbol>) -> Option<Seq<char>> {
    match name {
        Some(name) => Some(name@),
        None => None,
    }
}

/// What a relation is.
#[derive(Debug)]
pub struct RelationMetadata {
    id: RelationId,
    name: Symbol,
    arity: u16,
    durability: RelationDurability,
    argument_names: Vec<Option<Symbol>>,
    indexes: Vec<TupleIndexSpec>,
    conflict_policy: ConflictPolicy,
}

/// What a relation is, apart from how that is stored.
pub struct MetadataView {
    pub id: u64,
    pub name: Seq<char>,
    pub arity: u16,
    pub durability: RelationDurability,
    pub argument_names: Seq<Option<Seq<char>>>,
    pub indexes: Seq<Seq<u16>>,
    pub conflict_policy: PolicyView,
}

impl View for RelationMetadata {
    type V = MetadataView;

    closed spec fn view(&self) -> MetadataView {
        MetadataView {
            id: self.id@,
            name: self.name@,
            arity: self.arity,
            durability: self.durability,
            argument_names: name_views(self.argument_names@),
            indexes: index_views(self.indexes@),
            conflict_policy: self.conflict_policy@,
        }
    }
}

/// The positions of all columns, from the left.
pub open spec fn natural_positions(arity: u16) -> Seq<u16> {
    Seq::new(arity as nat, |i: int| i as u16)
}

/// A relation as it is before anything more is said of it: durable, a set, its columns
/// without names, with one index over all columns.
pub open spec fn plain_metadata(id: u64, name: Seq<char>, arity: u16) -> MetadataView {
    MetadataView {
        id,
        name,
        arity,
        durability: RelationDurability::Durable,
        argument_names: Seq::new(arity as nat, |i: int| None),
        indexes: seq![natural_positions(arity)],
        conflict_policy: PolicyView::SetOfRows,
    }
}

impl RelationMetadata {
    #[verifier::type_invariant]
    spec fn wf(self) -> bool {
        self.argument_names@.len() == self.arity
    }

    /// A relation with the given identity, name and number of columns.
    pub fn new(id: RelationId, name: Symbol, arity: u16) -> (metadata: RelationMetadata)
        ensures
            metadata@ == plain_metadata(id@, name@, arity),
    {
        let mut argument_names: Vec<Option<Symbol>> = Vec::new();
        let mut positions: Vec<u16> = Vec::new();
        let mut i: u16 = 0;
        while i < arity
            invariant
                i <= arity,
                argument_names@.len() == i,
                forall|j: int| 0 <= j < i ==> (#[trigger] argument_names@[j]) is None,
                positions@.len() == i,
                forall|j: int| 0 <= j < i ==> (#[trigger] positions@[j]) == j,
            decreases arity - i,
        {
            argument_names.push(None);
            positions.push(i);
            i = i + 1;
        }
        let mut indexes: Vec<TupleIndexSpec> = Vec::new();
        indexes.push(TupleIndexSpec { positions });
        let metadata = RelationMetadata {
            id,
            name,
            arity,
            durability: RelationDurability::Durable,
            argument_names,
            indexes,
            conflict_policy: ConflictPolicy::SetOfRows,
        };
        proof {
            let want = plain_metadata(id@, name@, arity);
            assert(metadata@.argument_names =~= want.argument_names);
            assert(positions@ =~= natural_positions(arity));
            assert(metadata@.indexes =~= want.indexes);
        }
        metadata
    }

    /// The relation without indexes.
    pub fn without_indexes(self) -> (metadata: RelationMetadata)
        ensures
            metadata@ == (MetadataView { indexes: Seq::empty(), ..self@ }),
    {
        proof {
            use_type_invariant(&self);
        }
        let metadata = RelationMetadata {
            id: self.id,
            name: self.name,
            arity: self.arity,
            durability: self.durability,
            argument_names: self.argument_names,
            indexes: Vec::new(),
            conflict_policy: self.conflict_policy,
        };
        assert(metadata@.indexes =~= Seq::empty());
        metadata
    }

    /// The relation with one more index.
    pub fn with_index(self, positions: Vec<u16>) -> (metadata: RelationMetadata)
        ensures
            metadata@ == (MetadataView { indexes: self@.indexes.push(positions@), ..self@ }),
    {
        proof {
            use_type_invariant(&self);
        }
        let ghost before = self@.indexes;
        let mut indexes = self.indexes;
        indexes.push(TupleIndexSpec { positions });
        assert(index_views(indexes@) =~= before.push(positions@));
        RelationMetadata {
            id: self.id,
            name: self.name,
            arity: self.arity,
            durability: self.durability,
            argument_names: self.argument_names,
            indexes,
            conflict_policy: self.conflict_policy,
        }
    }

    /// The relation with another durability.
    pub fn with_durability(self, durability: RelationDurability) -> (metadata: RelationMetadata)
        ensures
            metadata@ == (MetadataView { durability, ..self@ }),
    {
        proof {
            use_type_invariant(&self);
        }
        RelationMetadata {
            id: self.id,
            name: self.name,
            arity: self.arity,
            durability,
            argument_names: self.argument_names,
            indexes: self.indexes,
            conflict_policy: self.conflict_policy,
        }
    }

    /// The relation with another conflict policy.
    pub fn with_conflict_policy(self, conflict_policy: ConflictPolicy) -> (metadata:
        RelationMetadata)
        ensures
            metadata@ == (MetadataView { conflict_policy: conflict_policy@, ..self@ }),
    {
        proof {
            use_type_invariant(&self);
        }
        RelationMetadata {
            id: self.id,
            name: self.name,
            arity: self.arity,
            durability: self.durability,
            argument_names: self.argument_names,
            indexes: self.indexes,
            conflict_policy,
        }
    }

    /// The relation with a name for a column.
    pub fn with_argument_name(self, position: u16, name: Symbol) -> (metadata: RelationMetadata)
        requires
            position < self@.arity,
        ensures
            metadata@ == (MetadataView {
                argument_names: self@.argument_names.update(position as int, Some(name@)),
                ..self@
            }),
    {
        proof {
            use_type_invariant(&self);
        }
        let ghost before = self@.argument_names;
        let mut argument_names = self.argument_names;
        argument_names.set(position as usize, Some(name));
        assert(name_views(argument_names@) =~= before.update(position as int, Some(name@)));
        RelationMetadata {
            id: self.id,
            name: self.name,
            arity: self.arity,
            durability: self.durability,
            argument_names,
            indexes: self.indexes,
            conflict_policy: self.conflict_policy,
        }
    }

    /// The identity of the relation.
    pub fn id(&self) -> (id: RelationId)
        ensures
            id@ == self@.id,
    {
        self.id
    }

    /// The name of the relation.
    pub fn name(&self) -> (name: &Symbol)
        ensures
            name@ == self@.name,
    {
        &self.name
    }

    /// The number of columns.
    pub fn arity(&self) -> (arity: u16)
        ensures
            arity == self@.arity,
            self@.argument_names.len() == arity,
    {
        proof {
            use_type_invariant(self);
        }
        self.arity
    }

    /// Whether the rows outlive the process.
    pub fn durability(&self) -> (durability: RelationDurability)
        ensures
            durability == self@.durability,
    {
        self.durability
    }

    /// The name of a column, if there is such a column and it has one.
    pub fn argument_name(&self, position: u16) -> (name: Option<&Symbol>)
        ensures
            name is Some == (position < self@.arity && self@.argument_names[position as int] is Some),
            name matches Some(found) ==> self@.argument_names[position as int] == Some(found@),
    {
        proof {
            use_type_invariant(self);
        }
        if position >= self.arity {
            return None;
        }
        assert(self@.argument_names[position as int] == name_view(
            self.argument_names@[position as int],
        ));
        match &self.argument_names[position as usize] {
            Some(name) => Some(name),
            None => None,
        }
    }

    /// The indexes.
    pub fn indexes(&self) -> (indexes: &Vec<TupleIndexSpec>)
        ensures
            index_views(indexes@) == self@.indexes,
            indexes@.len() == self@.indexes.len(),
            forall|i: int|
                0 <= i < indexes@.len() ==> (#[trigger] indexes@[i]).positions@ == self@.indexes[i],
    {
        &self.indexes
    }

    /// When writes get in each other's way.
    pub fn conflict_policy(&self) -> (policy: &ConflictPolicy)
        ensures
            policy@ == self@.conflict_policy,
    {
        &self.conflict_policy
    }

    /// Whether two relations are the same in every respect.
    pub fn same(&self, other: &RelationMetadata) -> (result: bool)
        ensures
            result == (self@ == other@),
    {
        if !self.id.same(&other.id) || !self.name.same(&other.name) || self.arity != other.arity
            || self.durability != other.durability || !self.conflict_policy.same(
            &other.conflict_policy,
        ) {
            return false;
        }
        same_names(&self.argument_names, &other.argument_names) && same_indexes(
            &self.indexes,
            &other.indexes,
        )
    }
}

fn same_names(a: &[Option<Symbol>], b: &[Option<Symbol>]) -> (result: bool)
    ensures
        result == (name_views(a@) == name_views(b@)),
{
    if a.len() != b.len() {
        assert(name_views(a@).len() != name_views(b@).len());
        return false;
    }
    let mut i: usize = 0;
    while i < a.len()
        invariant
            a@.len() == b@.len(),
            i <= a@.len(),
            forall|j: int| 0 <= j < i ==> name_views(a@)[j] == #[trigger] name_views(b@)[j],
        decreases a@.len() - i,
    {
        assert(name_views(a@)[i as int] == name_view(a@[i as int]));
        assert(name_views(b@)[i as int] == name_view(b@[i as int]));
        let same: bool = match (&a[i], &b[i]) {
            (Some(x), Some(y)) => x.same(y),
            (None, None) => true,
            _ => false,
        };
        if !same {
            return false;
        }
        i = i + 1;
    }
    assert(name_views(a@) =~= name_views(b@));
    true
}

fn same_indexes(a: &[TupleIndexSpec], b: &[TupleIndexSpec]) -> (result: bool)
    ensures
        result == (index_views(a@) == index_views(b@)),
{
    if a.len() != b.len() {
        assert(index_views(a@).len() != index_views(b@).len());
        return false;
    }
    let mut i: usize = 0;
    while i < a.len()
        invariant
            a@.len() == b@.len(),
            i <= a@.len(),
            forall|j: int| 0 <= j < i ==> index_views(a@)[j] == #[trigger] index_views(b@)[j],
        decreases a@.len() - i,
    {
        assert(index_views(a@)[i as int] == a@[i as int].positions@);
        assert(index_views(b@)[i as int] == b@[i as int].positions@);
        if !same_positions(&a[i].positions, &b[i].positions) {
            return false;
        }
        i = i + 1;
    }
    assert(index_views(a@) =~= index_views(b@));
    true
}

impl Clone for RelationMetadata {
    fn clone(&self) -> (copy: RelationMetadata)
        ensures
            copy@ == self@,
    {
        proof {
            use_type_invariant(self);
        }
        let mut argument_names: Vec<Option<Symbol>> = Vec::new();
        let mut i: usize = 0;
        while i < self.argument_names.len()
            invariant
                i <= self.argument_names@.len(),
                argument_names@.len() == i,
                forall|j: int|
                    0 <= j < i ==> name_view(#[trigger] argument_names@[j]) == name_view(
                        self.argument_names@[j],
                    ),
            decreases self.argument_names@.len() - i,
        {
            let name = match &self.argument_names[i] {
                Some(name) => Some(name.clone()),
                None => None,
            };
            argument_names.push(name);
            i = i + 1;
        }
        let mut indexes: Vec<TupleIndexSpec> = Vec::new();
        let mut n: usize = 0;
        while n < self.indexes.len()
            invariant
                n <= self.indexes@.len(),
                indexes@.len() == n,
                forall|j: int|
                    0 <= j < n ==> (#[trigger] indexes@[j]).positions@
                        == self.indexes@[j].positions@,
            decreases self.indexes@.len() - n,
        {
            indexes.push(TupleIndexSpec { positions: copy_positions(&self.indexes[n].positions) });
            n = n + 1;
        }
        proof {
            assert(name_views(argument_names@) =~= name_views(self.argument_names@));
            assert(index_views(indexes@) =~= index_views(self.indexes@));
        }
        RelationMetadata {
            id: self.id,
            name: self.name.clone(),
            arity: self.arity,
            durability: self.durability,
            argument_names,
            indexes,
            conflict_policy: self.conflict_policy.clone(),
        }
    }
}

impl PartialEq for RelationMetadata {
    fn eq(&self, other: &RelationMetadata) -> (result: bool) {
        self.same(other)
    }
}

impl vstd::std_specs::cmp::PartialEqSpecImpl for RelationMetadata {
    open spec fn obeys_eq_spec() -> bool {
        true
    }

    open spec fn eq_spec(&self, other: &RelationMetadata) -> bool {
        self@ == other@
    }
}

} // verus!
