//! An index over some columns of a relation.

use crate::bytes::{lemma_lex_irreflexive, lex_less, starts_with};
use crate::kernel::algebra::{finish_tuple_rows, lists, matching, matching_rows, within, Row};
use crate::kernel::radix::{walks, RadixTree};
use crate::kernel::store::lemma_starts_with;
use crate::tuple::{project, row_matches, rows, Tuple};
use crate::value::{copy_value, copy_values, key_from_values, lemma_values_key_injective,
    option_views, values_key, views, Value, ValueView};
use vstd::prelude::*;

verus! {

/// What a row is found by in an index: the values of the indexed columns, then all.
pub open spec fn index_entry(positions: Seq<u16>, row: Row) -> Row {
    project(row, positions) + row
}

/// Whether every row of a tree stands under its entry in an index.
pub open spec fn by_index_entry(contents: Map<Seq<u8>, Row>, positions: Seq<u16>) -> bool {
    forall|key: Seq<u8>| #[trigger]
        contents.contains_key(key) ==> values_key(index_entry(positions, contents[key])) == key
}

/// The rows that a tree holds under their entries in an index.
pub open spec fn indexed_rows(contents: Map<Seq<u8>, Row>, positions: Seq<u16>) -> Set<Row> {
    Set::new(
        |row: Row|
            contents.contains_key(values_key(index_entry(positions, row))) && contents[values_key(
                index_entry(positions, row),
            )] == row,
    )
}

/// Different rows have different entries.
proof fn lemma_entry_injective(positions: Seq<u16>, a: Row, b: Row)
    requires
        values_key(index_entry(positions, a)) == values_key(index_entry(positions, b)),
    ensures
        a == b,
{
    lemma_values_key_injective(index_entry(positions, a), index_entry(positions, b));
    let n = positions.len() as int;
    assert(index_entry(positions, a).skip(n) =~= a);
    assert(index_entry(positions, b).skip(n) =~= b);
}

/// How many of the leading indexed columns are bound.
pub open spec fn leading_bound(positions: Seq<u16>, bindings: Seq<Option<ValueView>>) -> nat
    decreases positions.len(),
{
    if positions.len() == 0 || positions[0] >= bindings.len() || bindings[positions[0] as int] is None {
        0
    } else {
        1 + leading_bound(positions.drop_first(), bindings)
    }
}

/// The leading indexed columns are bound.
pub proof fn lemma_leading_bound(positions: Seq<u16>, bindings: Seq<Option<ValueView>>)
    ensures
        leading_bound(positions, bindings) <= positions.len(),
        forall|i: int|
            0 <= i < leading_bound(positions, bindings) ==> (#[trigger] positions[i])
                < bindings.len() && bindings[positions[i] as int] is Some,
    decreases positions.len(),
{
    if positions.len() > 0 {
        let rest = positions.drop_first();
        lemma_leading_bound(rest, bindings);
        assert forall|i: int| 0 <= i < leading_bound(positions, bindings) implies (
        #[trigger] positions[i]) < bindings.len() && bindings[positions[i] as int] is Some by {
            if i > 0 {
                assert(rest[i - 1] == positions[i]);
            }
        }
    }
}

/// The bound values of the first `count` indexed columns.
pub open spec fn indexed_prefix(
    positions: Seq<u16>,
    bindings: Seq<Option<ValueView>>,
    count: int,
) -> Row {
    Seq::new(count as nat, |i: int| bindings[positions[i] as int]->0)
}

/// Whether a row has the bound values in the first `count` indexed columns.
pub open spec fn agrees(
    row: Row,
    positions: Seq<u16>,
    bindings: Seq<Option<ValueView>>,
    count: int,
) -> bool {
    forall|i: int|
        0 <= i < count ==> row[(#[trigger] positions[i]) as int] == bindings[positions[i] as int]->0
}

/// An index over some columns of a relation.
pub struct TupleIndex {
    positions: Vec<u16>,
    arity: u16,
    entries: RadixTree,
}

impl TupleIndex {
    #[verifier::type_invariant]
    spec fn wf(self) -> bool {
        &&& within(self.positions@, self.arity as nat)
        &&& by_index_entry(self.entries@, self.positions@)
        &&& forall|key: Seq<u8>| #[trigger]
            self.entries@.contains_key(key) ==> self.entries@[key].len() == self.arity
    }

    /// The columns that the index is over.
    pub closed spec fn columns(self) -> Seq<u16> {
        self.positions@
    }

    /// The number of columns of the relation.
    pub closed spec fn width(self) -> u16 {
        self.arity
    }
}

impl View for TupleIndex {
    type V = Set<Row>;

    closed spec fn view(&self) -> Set<Row> {
        indexed_rows(self.entries@, self.positions@)
    }
}

proof fn lemma_index_insert(contents: Map<Seq<u8>, Row>, positions: Seq<u16>, row: Row)
    requires
        by_index_entry(contents, positions),
    ensures
        ({
            let key = values_key(index_entry(positions, row));
            &&& by_index_entry(contents.insert(key, row), positions)
            &&& indexed_rows(contents.insert(key, row), positions) == indexed_rows(
                contents,
                positions,
            ).insert(row)
            &&& by_index_entry(contents.remove(key), positions)
            &&& indexed_rows(contents.remove(key), positions) == indexed_rows(
                contents,
                positions,
            ).remove(row)
        }),
{
    let key = values_key(index_entry(positions, row));
    let more = contents.insert(key, row);
    let less = contents.remove(key);
    assert forall|r: Row| #[trigger] indexed_rows(more, positions).contains(r) <==> indexed_rows(
        contents,
        positions,
    ).insert(row).contains(r) by {
        if values_key(index_entry(positions, r)) == key {
            lemma_entry_injective(positions, r, row);
        }
    }
    assert(indexed_rows(more, positions) =~= indexed_rows(contents, positions).insert(row));
    assert forall|r: Row| #[trigger] indexed_rows(less, positions).contains(r) <==> indexed_rows(
        contents,
        positions,
    ).remove(row).contains(r) by {
        if values_key(index_entry(positions, r)) == key {
            lemma_entry_injective(positions, r, row);
        }
    }
    assert(indexed_rows(less, positions) =~= indexed_rows(contents, positions).remove(row));
}

fn entry_key(tuple: &Tuple, positions: &[u16]) -> (key: Vec<u8>)
    requires
        within(positions@, tuple@.len()),
    ensures
        key@ == values_key(index_entry(positions@, tuple@)),
{
    let mut values = tuple.project(positions);
    let mut rest = copy_values(tuple.values());
    let ghost head = values@;
    let ghost tail = rest@;
    values.append(&mut rest);
    assert(views(values@) =~= views(head) + views(tail));
    key_from_values(&values)
}

impl TupleIndex {
    /// An index without rows.
    pub fn empty(positions: Vec<u16>, arity: u16) -> (index: TupleIndex)
        requires
            within(positions@, arity as nat),
        ensures
            index@ == Set::<Row>::empty(),
            index.columns() == positions@,
            index.width() == arity,
    {
        let index = TupleIndex { positions, arity, entries: RadixTree::new() };
        assert(index@ =~= Set::<Row>::empty());
        index
    }

    /// A copy of the index.
    pub fn snapshot(&self) -> (copy: TupleIndex)
        ensures
            copy@ == self@,
            copy.columns() == self.columns(),
            copy.width() == self.width(),
    {
        proof {
            use_type_invariant(self);
        }
        TupleIndex {
            positions: crate::kernel::metadata::copy_positions(&self.positions),
            arity: self.arity,
            entries: self.entries.snapshot(),
        }
    }

    /// The columns that the index is over.
    pub fn positions(&self) -> (positions: &[u16])
        ensures
            positions@ == self.columns(),
            within(positions@, self.width() as nat),
    {
        proof {
            use_type_invariant(self);
        }
        self.positions.as_slice()
    }

    /// Adds a row.
    pub fn insert(&mut self, tuple: Tuple)
        requires
            tuple@.len() == old(self).width(),
        ensures
            final(self)@ == old(self)@.insert(tuple@),
            final(self).columns() == old(self).columns(),
            final(self).width() == old(self).width(),
    {
        proof {
            use_type_invariant(&*self);
            lemma_index_insert(self.entries@, self.positions@, tuple@);
        }
        let key = entry_key(&tuple, &self.positions);
        let mut entries = RadixTree::new();
        let ghost positions = self.positions@;
        std::mem::swap(&mut entries, &mut self.entries);
        let _ = entries.insert(&key, tuple);
        self.entries = entries;
    }

    /// Takes a row out.
    pub fn remove(&mut self, tuple: &Tuple)
        requires
            tuple@.len() == old(self).width(),
        ensures
            final(self)@ == old(self)@.remove(tuple@),
            final(self).columns() == old(self).columns(),
            final(self).width() == old(self).width(),
    {
        proof {
            use_type_invariant(&*self);
            lemma_index_insert(self.entries@, self.positions@, tuple@);
        }
        let key = entry_key(tuple, &self.positions);
        let mut entries = RadixTree::new();
        std::mem::swap(&mut entries, &mut self.entries);
        let _ = entries.delete(&key);
        self.entries = entries;
    }

    /// How many of the leading indexed columns are bound.
    pub fn leading_bound_count(&self, bindings: &[Option<Value>]) -> (count: usize)
        ensures
            count == leading_bound(self.columns(), option_views(bindings@)),
    {
        let ghost bound = option_views(bindings@);
        let ghost all = self.positions@;
        let mut i: usize = 0;
        assert(all.skip(0) =~= all);
        while i < self.positions.len()
            invariant
                i <= self.positions@.len(),
                all == self.positions@,
                bound == option_views(bindings@),
                leading_bound(all, bound) == i + leading_bound(all.skip(i as int), bound),
            decreases self.positions@.len() - i,
        {
            let at: usize = self.positions[i] as usize;
            proof {
                assert(all.skip(i as int)[0] == at);
                assert(all.skip(i as int).drop_first() =~= all.skip(i + 1));
                if at < bound.len() {
                    assert(bound[at as int] is Some == bindings@[at as int] is Some);
                }
            }
            if at >= bindings.len() || bindings[at].is_none() {
                return i;
            }
            i = i + 1;
        }
        i
    }

    fn prefix_rows(&self, bindings: &[Option<Value>], count: usize) -> (found: Vec<Tuple>)
        requires
            count <= leading_bound(self.columns(), option_views(bindings@)),
        ensures
            rows(found@).no_duplicates(),
            rows(found@).to_set() == self@.filter(
                |row: Row| agrees(row, self.columns(), option_views(bindings@), count as int),
            ),
    {
        proof {
            use_type_invariant(self);
            lemma_leading_bound(self.positions@, option_views(bindings@));
        }
        let ghost bound = option_views(bindings@);
        let ghost columns = self.positions@;
        let mut values: Vec<Value> = Vec::new();
        let mut i: usize = 0;
        while i < count
            invariant
                i <= count <= columns.len(),
                columns == self.positions@,
                bound == option_views(bindings@),
                forall|k: int|
                    0 <= k < count ==> (#[trigger] columns[k]) < bound.len()
                        && bound[columns[k] as int] is Some,
                values@.len() == i,
                forall|k: int| 0 <= k < i ==> (#[trigger] values@[k])@ == bound[columns[k] as int]->0,
            decreases count - i,
        {
            let at: usize = self.positions[i] as usize;
            assert(columns[i as int] == at);
            assert(bound[at as int] is Some);
            match &bindings[at] {
                Some(value) => {
                    values.push(copy_value(value));
                },
                None => {
                    assert(false);
                },
            }
            i = i + 1;
        }
        let ghost prefix_row = indexed_prefix(columns, bound, count as int);
        assert(views(values@) =~= prefix_row);
        let prefix = key_from_values(&values);
        let found = self.entries.prefix_values(&prefix);
        proof {
            let contents = self.entries@;
            let keys = choose|keys: Seq<Seq<u8>>| #[trigger]
                walks(contents, prefix@, keys, rows(found@));
            let listed = rows(found@);
            let want = self@.filter(|row: Row| agrees(row, columns, bound, count as int));
            assert forall|k: int| 0 <= k < listed.len() implies #[trigger] want.contains(listed[k])
                && values_key(index_entry(columns, listed[k])) == keys[k] by {
                assert(keys.contains(keys[k]));
                lemma_agrees(listed[k], columns, bound, count as int, self.arity);
            }
            assert forall|a: int, b: int| 0 <= a < b < listed.len() implies listed[a] != listed[b] by {
                assert(want.contains(listed[a]) && want.contains(listed[b]));
                assert(lex_less(keys[a], keys[b]));
                lemma_lex_irreflexive(keys[a]);
            }
            assert forall|row: Row| #[trigger] listed.to_set().contains(row) <==> want.contains(
                row,
            ) by {
                if want.contains(row) {
                    let key = values_key(index_entry(columns, row));
                    assert(contents.contains_key(key));
                    lemma_agrees(row, columns, bound, count as int, self.arity);
                    assert(keys.contains(key));
                    let k = choose|k: int| 0 <= k < keys.len() && keys[k] == key;
                    assert(listed[k] == contents[keys[k]]);
                }
                if listed.contains(row) {
                    let k = choose|k: int| 0 <= k < listed.len() && listed[k] == row;
                    assert(want.contains(listed[k]));
                }
            }
            assert(listed.to_set() =~= want);
        }
        found
    }

    /// How many rows have the bound values in the first `count` indexed columns.
    pub fn estimate_prefix_count(&self, bindings: &[Option<Value>], count: usize) -> (estimate:
        usize)
        requires
            count <= leading_bound(self.columns(), option_views(bindings@)),
        ensures
            estimate == self@.filter(
                |row: Row| agrees(row, self.columns(), option_views(bindings@), count as int),
            ).len(),
    {
        let found = self.prefix_rows(bindings, count);
        proof {
            rows(found@).unique_seq_to_set();
        }
        found.len()
    }

    /// The rows that match bindings of which leading indexed columns are bound, in order.
    pub fn scan_prefix(&self, bindings: &[Option<Value>], count: usize) -> (found: Vec<Tuple>)
        requires
            count <= leading_bound(self.columns(), option_views(bindings@)),
        ensures
            lists(rows(found@), matching(self@, option_views(bindings@))),
    {
        let near = self.prefix_rows(bindings, count);
        let ordered = finish_tuple_rows(near);
        let ghost bound = option_views(bindings@);
        proof {
            let some = rows(ordered@).to_set();
            lemma_leading_bound(self.columns(), bound);
            assert forall|row: Row| #[trigger] matching(some, bound).contains(row) <==> matching(
                self@,
                bound,
            ).contains(row) by {
                if row_matches(row, bound) {
                    assert forall|i: int| 0 <= i < count implies row[(
                    #[trigger] self.columns()[i]) as int] == bound[self.columns()[i] as int]->0 by {
                        assert(bound[self.columns()[i] as int] is Some);
                    }
                }
            }
            assert(matching(some, bound) =~= matching(self@, bound));
        }
        matching_rows(&ordered, bindings)
    }
}

/// A row of the right width has the bound values in front of its entry exactly where it
/// has them in the indexed columns.
proof fn lemma_agrees(
    row: Row,
    positions: Seq<u16>,
    bindings: Seq<Option<ValueView>>,
    count: int,
    arity: u16,
)
    requires
        0 <= count <= positions.len(),
        row.len() == arity,
        within(positions, arity as nat),
    ensures
        starts_with(
            values_key(index_entry(positions, row)),
            values_key(indexed_prefix(positions, bindings, count)),
        ) <==> agrees(row, positions, bindings, count),
{
    let prefix = indexed_prefix(positions, bindings, count);
    let entry = index_entry(positions, row);
    lemma_starts_with(entry, prefix);
    assert forall|i: int| 0 <= i < count implies entry[i] == row[(#[trigger] positions[i]) as int] by {}
    if agrees(row, positions, bindings, count) {
        assert forall|i: int| 0 <= i < count implies entry.take(count)[i] == prefix[i] by {
            assert(positions[i] as int >= 0);
        }
        assert(entry.take(count) =~= prefix);
    }
    if entry.take(count) == prefix {
        assert forall|i: int| 0 <= i < count implies row[(#[trigger] positions[i]) as int]
            == bindings[positions[i] as int]->0 by {
            assert(entry.take(count)[i] == prefix[i]);
        }
    }
}

} // verus!
