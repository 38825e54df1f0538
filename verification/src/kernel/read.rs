//! Reading relations.

use crate::kernel::algebra::{lists, matching, of_arity, Row};
use crate::kernel::computed::given;
use crate::kernel::error::{FaultView, KernelError};
use crate::kernel::metadata::{MetadataView, RelationId, RelationMetadata, Version};
use crate::kernel::rules::{definition_views, DefinitionView, RuleDefinition};
use crate::tuple::{row_less, rows, Tuple};
use crate::value::{option_views, Symbol, Value, ValueView};
use vstd::prelude::*;

verus! {

/// What a reader sees of a relation.
pub enum Visible {
    /// No such relation.
    Unknown,
    /// Rows that a computed relation gives.
    Computed,
    /// Rows that are there, or why they are not known.
    Stored(u16, Result<Set<Row>, FaultView>),
}

/// What a scan gives, where no computed relation decides.
pub open spec fn scanned(
    visible: Visible,
    relation: u64,
    bindings: Seq<Option<ValueView>>,
) -> Option<Result<Set<Row>, FaultView>> {
    match visible {
        Visible::Unknown => Some(Err(FaultView::UnknownRelation(relation))),
        Visible::Computed => None,
        Visible::Stored(arity, seen) => Some(
            if bindings.len() != arity {
                Err(FaultView::ArityMismatch(relation, arity, bindings.len()))
            } else {
                match seen {
                    Err(fault) => Err(fault),
                    Ok(set) => Ok(matching(set, bindings)),
                }
            },
        ),
    }
}

/// Whether a scan gave what was expected of it.
pub open spec fn answers(
    result: Result<Vec<Tuple>, KernelError>,
    expected: Option<Result<Set<Row>, FaultView>>,
) -> bool {
    match expected {
        None => true,
        Some(Err(fault)) => result matches Err(error) && error@ == fault,
        Some(Ok(set)) => result matches Ok(found) && lists(rows(found@), set),
    }
}

/// A reader of relations.
pub trait RelationRead {
    /// What the reader sees of a relation.
    spec fn visible(&self, relation: u64) -> Visible;

    /// Whether reading a computed relation may end so.
    open spec fn may_show(
        &self,
        relation: u64,
        bindings: Seq<Option<ValueView>>,
        result: Result<Seq<Row>, FaultView>,
    ) -> bool {
        true
    }

    /// The rows of a relation that agree with the bindings, in order.
    fn scan_relation(&self, relation: RelationId, bindings: &[Option<Value>]) -> (result: Result<
        Vec<Tuple>,
        KernelError,
    >)
        ensures
            answers(
                result,
                scanned(self.visible(relation@), relation@, option_views(bindings@)),
            ),
            scanned(
                self.visible(relation@),
                relation@,
                option_views(bindings@),
            ) matches Some(Ok(set)) ==> of_arity(set, bindings@.len()),
            self.visible(relation@) is Computed ==> self.may_show(
                relation@,
                option_views(bindings@),
                given(result),
            ),
    ;
}

/// Whether a computed relation is settled on some rows of the given width: each reading of it
/// gives those that agree with the bindings, in order.
pub open spec fn settled_on<R: RelationRead>(
    reader: &R,
    relation: u64,
    width: u16,
    set: Set<Row>,
) -> bool {
    &&& of_arity(set, width as nat)
    &&& forall|bindings: Seq<Option<ValueView>>, result: Result<Seq<Row>, FaultView>|
        bindings.len() == width && #[trigger] reader.may_show(relation, bindings, result) ==> {
            &&& result matches Ok(found)
            &&& lists(found, matching(set, bindings))
        }
}

/// What a reader sees of a relation of the given width: a computed relation that is settled on
/// some rows is seen as if it held them.
pub open spec fn seen_as<R: RelationRead>(reader: &R, relation: u64, width: u16) -> Visible {
    if reader.visible(relation) is Computed && exists|set: Set<Row>|
        settled_on(reader, relation, width, set) {
        Visible::Stored(
            width,
            Ok(choose|set: Set<Row>| settled_on(reader, relation, width, set)),
        )
    } else {
        reader.visible(relation)
    }
}

/// What there is to reflect on: the relations in the order of their identities, and the
/// rules.
pub struct CatalogView {
    pub relations: Seq<MetadataView>,
    pub rules: Seq<DefinitionView>,
}

/// What a reader shows: the version that is read, what is seen of each relation, the relations
/// and rules, how the indexes of relations that the kernel stores are stored, and the rows that
/// are stored.
pub struct ShownView {
    pub version: Version,
    pub visible: Map<u64, Visible>,
    pub catalog: CatalogView,
    pub kinds: Map<(u64, int), Seq<char>>,
    pub facts: Set<(u64, Row)>,
}

/// The views of relations.
pub open spec fn metadata_views(relations: Seq<RelationMetadata>) -> Seq<MetadataView> {
    relations.map_values(|metadata: RelationMetadata| metadata@)
}

/// The first relation with the given name and number of columns.
pub open spec fn relation_named(
    relations: Seq<MetadataView>,
    name: Seq<char>,
    arity: u16,
) -> Option<u64>
    decreases relations.len(),
{
    if relations.len() == 0 {
        None
    } else {
        match relation_named(relations.drop_last(), name, arity) {
            Some(id) => Some(id),
            None => {
                let last = relations.last();
                if last.name == name && last.arity == arity {
                    Some(last.id)
                } else {
                    None
                }
            },
        }
    }
}

/// Whether a row of a relation comes before another: by relation, then by row.
pub open spec fn fact_less(a: (u64, Row), b: (u64, Row)) -> bool {
    a.0 < b.0 || (a.0 == b.0 && row_less(a.1, b.1))
}

/// Whether facts stand in strictly increasing order.
pub open spec fn facts_increase(facts: Seq<(u64, Row)>) -> bool {
    forall|i: int, j: int|
        0 <= i < j < facts.len() ==> fact_less(#[trigger] facts[i], #[trigger] facts[j])
}

/// The relations and rows of facts.
pub open spec fn fact_views(facts: Seq<(RelationId, Tuple)>) -> Seq<(u64, Row)> {
    facts.map_values(|fact: (RelationId, Tuple)| (fact.0@, fact.1@))
}

/// Whether facts are the members of a set, in order.
pub open spec fn lists_facts(facts: Seq<(u64, Row)>, set: Set<(u64, Row)>) -> bool {
    facts_increase(facts) && facts.to_set() == set
}

/// A reader that tells what relations, rules and rows there are.
pub trait ComputedRelationRead {
    /// What the reader shows.
    spec fn shown(&self) -> ShownView;

    /// The rows of a relation that agree with the bindings, in order.
    fn read_relation(&self, relation: RelationId, bindings: &[Option<Value>]) -> (result: Result<
        Vec<Tuple>,
        KernelError,
    >)
        ensures
            answers(
                result,
                scanned(self.shown().visible[relation@], relation@, option_views(bindings@)),
            ),
    ;

    /// The version that is read.
    fn version(&self) -> (version: Version)
        ensures
            version == self.shown().version,
    ;

    /// The relations, in the order of their identities.
    fn relation_metadata_vec(&self) -> (relations: Vec<RelationMetadata>)
        ensures
            metadata_views(relations@) == self.shown().catalog.relations,
    ;

    /// The relation with the given name and number of columns.
    fn relation_id(&self, name: &Symbol, arity: u16) -> (found: Option<RelationId>)
        ensures
            match found {
                Some(id) => relation_named(self.shown().catalog.relations, name@, arity) == Some(id@),
                None => relation_named(self.shown().catalog.relations, name@, arity) is None,
            },
    {
        let relations = self.relation_metadata_vec();
        find_named(&relations, name, arity)
    }

    /// The rules.
    fn rules_vec(&self) -> (rules: Vec<RuleDefinition>)
        ensures
            definition_views(rules@) == self.shown().catalog.rules,
    ;

    /// How an index of a relation is stored, where the kernel stores the relation.
    fn index_storage_kind(&self, relation: RelationId, ordinal: usize) -> (kind: Option<Symbol>)
        ensures
            kind is Some == self.shown().kinds.contains_key((relation@, ordinal as int)),
            kind matches Some(name) ==> name@ == self.shown().kinds[(relation@, ordinal as int)],
    ;

    /// The rows that are stored, by relation and row.
    fn extensional_facts(&self) -> (facts: Vec<(RelationId, Tuple)>)
        ensures
            lists_facts(fact_views(facts@), self.shown().facts),
    ;
}

/// The first relation with the given name and number of columns.
pub fn find_named(relations: &[RelationMetadata], name: &Symbol, arity: u16) -> (found: Option<
    RelationId,
>)
    ensures
        match found {
            Some(id) => relation_named(metadata_views(relations@), name@, arity) == Some(id@),
            None => relation_named(metadata_views(relations@), name@, arity) is None,
        },
{
    let ghost all = metadata_views(relations@);
    let mut i: usize = 0;
    assert(all.take(0) =~= Seq::empty());
    while i < relations.len()
        invariant
            i <= relations@.len(),
            all == metadata_views(relations@),
            relation_named(all.take(i as int), name@, arity) is None,
        decreases relations@.len() - i,
    {
        proof {
            assert(all.take(i + 1).drop_last() =~= all.take(i as int));
            assert(all.take(i + 1).last() == relations@[i as int]@);
        }
        if relations[i].name().same(name) && relations[i].arity() == arity {
            proof {
                lemma_named_early(all, name@, arity, i + 1);
            }
            return Some(relations[i].id());
        }
        i = i + 1;
    }
    assert(all.take(i as int) =~= all);
    None
}

proof fn lemma_named_early(relations: Seq<MetadataView>, name: Seq<char>, arity: u16, n: int)
    requires
        0 <= n <= relations.len(),
        relation_named(relations.take(n), name, arity) is Some,
    ensures
        relation_named(relations, name, arity) == relation_named(relations.take(n), name, arity),
    decreases relations.len(),
{
    if n == relations.len() {
        assert(relations.take(n) =~= relations);
    } else {
        assert(relations.drop_last().take(n) =~= relations.take(n));
        lemma_named_early(relations.drop_last(), name, arity, n);
    }
}

} // verus!
