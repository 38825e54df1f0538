//! A radix tree that finds rows by byte strings.

use crate::bytes::{lex_less, starts_with};
use crate::kernel::algebra::Row;
use crate::tuple::{rows, Tuple};
use rart::keys::vector_key::VectorKey;
use rart::VersionedAdaptiveRadixTree;
use vstd::prelude::*;

verus! {

/// A tree from byte strings to rows, of which copies share what they have in common.
#[verifier::external_body]
pub struct RadixTree {
    tree: VersionedAdaptiveRadixTree<VectorKey, Tuple>,
}

/// The rows that a radix tree holds, by the byte strings that they are found by.
pub uninterp spec fn radix_contents(tree: RadixTree) -> Map<Seq<u8>, Row>;

impl View for RadixTree {
    type V = Map<Seq<u8>, Row>;

    open spec fn view(&self) -> Map<Seq<u8>, Row> {
        radix_contents(*self)
    }
}

/// Whether rows are those that stand under the byte strings `keys`, which are the ones
/// that start with `prefix`, in increasing order.
pub open spec fn walks(
    contents: Map<Seq<u8>, Row>,
    prefix: Seq<u8>,
    keys: Seq<Seq<u8>>,
    listed: Seq<Row>,
) -> bool {
    &&& keys.len() == listed.len()
    &&& forall|i: int, j: int|
        0 <= i < j < keys.len() ==> lex_less(#[trigger] keys[i], #[trigger] keys[j])
    &&& forall|key: Seq<u8>| #[trigger]
        keys.contains(key) <==> contents.contains_key(key) && starts_with(key, prefix)
    &&& forall|i: int| 0 <= i < keys.len() ==> listed[i] == contents[#[trigger] keys[i]]
}

/// Whether pairs of rows are those that stand under the byte strings `keys`, which are
/// the ones that two trees have in common, each once.
pub open spec fn meets(
    left: Map<Seq<u8>, Row>,
    right: Map<Seq<u8>, Row>,
    keys: Seq<Seq<u8>>,
    pairs: Seq<(Tuple, Tuple)>,
) -> bool {
    &&& keys.len() == pairs.len()
    &&& keys.no_duplicates()
    &&& forall|key: Seq<u8>| #[trigger]
        keys.contains(key) <==> left.contains_key(key) && right.contains_key(key)
    &&& forall|i: int|
        0 <= i < keys.len() ==> (#[trigger] pairs[i]).0@ == left[keys[i]] && pairs[i].1@
            == right[keys[i]]
}

impl RadixTree {
    /// A tree without rows: `VersionedAdaptiveRadixTree::new` makes a tree that holds
    /// nothing.
    #[verifier::external_body]
    pub(crate) fn new() -> (made: RadixTree)
        ensures
            radix_contents(made).dom() == Set::<Seq<u8>>::empty(),
    {
        RadixTree { tree: VersionedAdaptiveRadixTree::new() }
    }

    /// A copy: the `clone` of a `VersionedAdaptiveRadixTree` holds what the tree holds.
    /// Later changes to either do not show in the other.
    #[verifier::external_body]
    pub(crate) fn snapshot(&self) -> (copy: RadixTree)
        ensures
            radix_contents(copy) == radix_contents(*self),
    {
        RadixTree { tree: self.tree.clone() }
    }

    /// The row under a byte string: `VersionedAdaptiveRadixTree::get_k` finds exactly
    /// what was put under the key.
    #[verifier::external_body]
    pub(crate) fn get(&self, key: &[u8]) -> (found: Option<&Tuple>)
        ensures
            found is Some == radix_contents(*self).contains_key(key@),
            found matches Some(tuple) ==> tuple@ == radix_contents(*self)[key@],
    {
        self.tree.get_k(&VectorKey::new_from_vec(key.to_vec()))
    }

    /// Puts a row under a byte string: `VersionedAdaptiveRadixTree::insert_k` replaces
    /// what stood under the key and says whether anything did.
    #[verifier::external_body]
    pub(crate) fn insert(&mut self, key: &[u8], tuple: Tuple) -> (replaced: bool)
        ensures
            replaced == radix_contents(*old(self)).contains_key(key@),
            radix_contents(*final(self)) == radix_contents(*old(self)).insert(key@, tuple@),
    {
        self.tree.insert_k(&VectorKey::new_from_vec(key.to_vec()), tuple)
    }

    /// Takes out the row under a byte string: `VersionedAdaptiveRadixTree::delete_k`
    /// says whether there was one.
    #[verifier::external_body]
    pub(crate) fn delete(&mut self, key: &[u8]) -> (deleted: bool)
        ensures
            deleted == radix_contents(*old(self)).contains_key(key@),
            radix_contents(*final(self)) == radix_contents(*old(self)).remove(key@),
    {
        self.tree.delete_k(&VectorKey::new_from_vec(key.to_vec()))
    }

    /// All rows: `VersionedAdaptiveRadixTree::values_iter` walks the values in the order
    /// of their keys.
    #[verifier::external_body]
    pub(crate) fn values(&self) -> (found: Vec<Tuple>)
        ensures
            exists|keys: Seq<Seq<u8>>| #[trigger]
                walks(radix_contents(*self), Seq::<u8>::empty(), keys, rows(found@)),
    {
        self.tree.values_iter().cloned().collect()
    }

    /// The rows under byte strings that start with `prefix`:
    /// `VersionedAdaptiveRadixTree::prefix_values_for_each_k` visits the values whose
    /// keys start with a prefix, in the order of the keys.
    #[verifier::external_body]
    pub(crate) fn prefix_values(&self, prefix: &[u8]) -> (found: Vec<Tuple>)
        ensures
            exists|keys: Seq<Seq<u8>>| #[trigger] walks(radix_contents(*self), prefix@, keys, rows(found@)),
    {
        let mut found = Vec::new();
        let start = VectorKey::new_from_vec(prefix.to_vec());
        self.tree.prefix_values_for_each_k(&start, |tuple| found.push(tuple.clone()));
        found
    }

    /// The rows of two trees under the byte strings that they have in common:
    /// `VersionedAdaptiveRadixTree::intersect_values_with` visits each such pair once.
    /// In what order it does is left open.
    #[verifier::external_body]
    pub(crate) fn intersection(&self, other: &RadixTree) -> (pairs: Vec<(Tuple, Tuple)>)
        ensures
            exists|keys: Seq<Seq<u8>>| #[trigger] meets(radix_contents(*self), radix_contents(*other), keys, pairs@),
    {
        let mut pairs = Vec::new();
        self.tree.intersect_values_with(&other.tree, |left, right| {
            pairs.push((left.clone(), right.clone()))
        });
        pairs
    }
}

} // verus!
