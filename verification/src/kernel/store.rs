//! The rows of a relation.

use crate::bytes::{lex_less, starts_with};
use crate::kernel::algebra::{contains_row, insert_row, lemma_increasing_distinct, lemma_to_set_push,
    lists, matching, matching_rows, remove_row, Row};
use crate::kernel::radix::{meets, walks, RadixTree};
use crate::tuple::{copy_tuples, increasing, row_less, row_matches, rows, Tuple};
use crate::value::{copy_value, copy_values, key_from_values, lemma_values_key_concat,
    lemma_values_key_injective, lemma_values_key_prefix, option_views, values_key, views, Value,
    ValueView};
use vstd::prelude::*;

verus! {

/// How many rows are kept in a list. More are kept in a tree.
pub const TUPLE_STORE_RADIX_THRESHOLD: usize = 4096;

enum Repr {
    Small(Vec<Tuple>),
    Radix { entries: RadixTree, len: usize },
}

/// The rows of a relation.
pub struct TupleStore {
    repr: Repr,
}

/// Whether every row of a tree stands under its own sort key.
pub open spec fn by_sort_key(contents: Map<Seq<u8>, Row>) -> bool {
    forall|key: Seq<u8>| #[trigger]
        contents.contains_key(key) ==> values_key(contents[key]) == key
}

/// The rows that a tree holds under their sort keys.
pub open spec fn keyed_rows(contents: Map<Seq<u8>, Row>) -> Set<Row> {
    Set::new(
        |row: Row| contents.contains_key(values_key(row)) && contents[values_key(row)] == row,
    )
}

spec fn repr_rows(repr: Repr) -> Set<Row> {
    match repr {
        Repr::Small(tuples) => rows(tuples@).to_set(),
        Repr::Radix { entries, .. } => keyed_rows(entries@),
    }
}

spec fn repr_wf(repr: Repr) -> bool {
    match repr {
        Repr::Small(tuples) => increasing(rows(tuples@)) && tuples@.len()
            <= TUPLE_STORE_RADIX_THRESHOLD,
        Repr::Radix { entries, len } => by_sort_key(entries@) && entries@.dom().finite()
            && entries@.dom().len() == len,
    }
}

impl View for TupleStore {
    type V = Set<Row>;

    closed spec fn view(&self) -> Set<Row> {
        repr_rows(self.repr)
    }
}

proof fn lemma_keyed_rows(contents: Map<Seq<u8>, Row>)
    requires
        by_sort_key(contents),
        contents.dom().finite(),
    ensures
        keyed_rows(contents).finite(),
        keyed_rows(contents).len() == contents.dom().len(),
{
    let f = |key: Seq<u8>| contents[key];
    assert(vstd::relations::injective_on(f, contents.dom())) by {
        assert forall|a: Seq<u8>, b: Seq<u8>|
            #![trigger f(a), f(b)]
            contents.dom().contains(a) && contents.dom().contains(b) && f(a) == f(b) implies a
            == b by {
            assert(contents.contains_key(a) && contents.contains_key(b));
        }
    }
    assert(contents.dom().map(f) =~= keyed_rows(contents)) by {
        assert forall|row: Row| keyed_rows(contents).contains(row) implies #[trigger] contents.dom().map(
            f,
        ).contains(row) by {
            assert(contents.dom().contains(values_key(row)) && f(values_key(row)) == row);
        }
    }
    vstd::set_lib::lemma_map_size(contents.dom(), keyed_rows(contents), f);
}

/// A walk over a tree by sort keys lists rows in order.
pub proof fn lemma_walk_lists(
    contents: Map<Seq<u8>, Row>,
    prefix: Seq<u8>,
    keys: Seq<Seq<u8>>,
    listed: Seq<Row>,
)
    requires
        by_sort_key(contents),
        walks(contents, prefix, keys, listed),
    ensures
        lists(
            listed,
            keyed_rows(contents).filter(|row: Row| starts_with(values_key(row), prefix)),
        ),
{
    let want = keyed_rows(contents).filter(|row: Row| starts_with(values_key(row), prefix));
    assert forall|i: int| 0 <= i < keys.len() implies #[trigger] values_key(listed[i]) == keys[i]
        && contents.contains_key(keys[i]) && starts_with(keys[i], prefix) by {
        assert(keys.contains(keys[i]));
    }
    assert forall|i: int, j: int| 0 <= i < j < listed.len() implies row_less(
        #[trigger] listed[i],
        #[trigger] listed[j],
    ) by {
        assert(lex_less(keys[i], keys[j]));
        assert(values_key(listed[i]) == keys[i]);
        assert(values_key(listed[j]) == keys[j]);
    }
    assert forall|row: Row| #[trigger] listed.to_set().contains(row) <==> want.contains(row) by {
        if listed.contains(row) {
            let i = choose|i: int| 0 <= i < listed.len() && listed[i] == row;
            assert(values_key(listed[i]) == keys[i]);
            assert(listed[i] == contents[keys[i]]);
        }
        if want.contains(row) {
            assert(keys.contains(values_key(row)));
            let i = choose|i: int| 0 <= i < keys.len() && keys[i] == values_key(row);
            assert(listed[i] == contents[keys[i]]);
        }
    }
    assert(listed.to_set() =~= want);
}

/// Sort keys start alike exactly where rows do.
pub proof fn lemma_starts_with(row: Row, prefix: Row)
    ensures
        starts_with(values_key(row), values_key(prefix)) <==> (prefix.len() <= row.len()
            && row.take(prefix.len() as int) == prefix),
{
    if starts_with(values_key(row), values_key(prefix)) {
        let rest = values_key(row).skip(values_key(prefix).len() as int);
        assert(values_key(prefix) + rest =~= values_key(row));
        lemma_values_key_prefix(prefix, row, rest);
    }
    if prefix.len() <= row.len() && row.take(prefix.len() as int) == prefix {
        let rest = row.skip(prefix.len() as int);
        assert(prefix + rest =~= row);
        lemma_values_key_concat(prefix, rest);
        assert(values_key(row).take(values_key(prefix).len() as int) =~= values_key(prefix));
    }
}

proof fn lemma_everything_starts(contents: Map<Seq<u8>, Row>)
    ensures
        keyed_rows(contents).filter(|row: Row| starts_with(values_key(row), Seq::<u8>::empty()))
            == keyed_rows(contents),
{
    assert forall|key: Seq<u8>| #[trigger] starts_with(key, Seq::<u8>::empty()) by {
        assert(key.take(0) =~= Seq::<u8>::empty());
    }
    assert(keyed_rows(contents).filter(|row: Row| starts_with(values_key(row), Seq::<u8>::empty()))
        =~= keyed_rows(contents));
}

/// Puts rows into a tree.
fn fill_tree(tuples: &[Tuple]) -> (entries: RadixTree)
    requires
        increasing(rows(tuples@)),
    ensures
        by_sort_key(entries@),
        entries@.dom().finite(),
        entries@.dom().len() == tuples@.len(),
        keyed_rows(entries@) == rows(tuples@).to_set(),
{
    let ghost all = rows(tuples@);
    let mut entries = RadixTree::new();
    let mut i: usize = 0;
    proof {
        lemma_increasing_distinct(all);
        assert(keyed_rows(entries@) =~= all.take(0).to_set());
    }
    while i < tuples.len()
        invariant
            i <= tuples@.len(),
            all == rows(tuples@),
            all.no_duplicates(),
            by_sort_key(entries@),
            entries@.dom().finite(),
            entries@.dom().len() == i,
            keyed_rows(entries@) == all.take(i as int).to_set(),
        decreases tuples@.len() - i,
    {
        let ghost before = entries@;
        let ghost row = all[i as int];
        let _ = entries.insert(tuples[i].key(), tuples[i].clone());
        proof {
            assert(row == tuples@[i as int]@);
            lemma_insert_row(before, row);
            assert(all.take(i + 1) =~= all.take(i as int).push(row));
            lemma_to_set_push(all.take(i as int), row);
            if before.contains_key(values_key(row)) {
                lemma_values_key_injective(before[values_key(row)], row);
                assert(keyed_rows(before).contains(row));
                assert(all.take(i as int).contains(row));
                let k = choose|k: int| 0 <= k < i && all.take(i as int)[k] == row;
                assert(all[k] == all[i as int]);
            }
        }
        i = i + 1;
    }
    assert(all.take(i as int) =~= all);
    entries
}

proof fn lemma_insert_row(contents: Map<Seq<u8>, Row>, row: Row)
    requires
        by_sort_key(contents),
    ensures
        by_sort_key(contents.insert(values_key(row), row)),
        keyed_rows(contents.insert(values_key(row), row)) == keyed_rows(contents).insert(row),
        contents.contains_key(values_key(row)) == keyed_rows(contents).contains(row),
{
    let after = contents.insert(values_key(row), row);
    assert forall|r: Row| #[trigger] keyed_rows(after).contains(r) <==> keyed_rows(contents).insert(
        row,
    ).contains(r) by {
        if values_key(r) == values_key(row) {
            lemma_values_key_injective(r, row);
        }
    }
    assert(keyed_rows(after) =~= keyed_rows(contents).insert(row));
    if contents.contains_key(values_key(row)) {
        lemma_values_key_injective(contents[values_key(row)], row);
    }
}

proof fn lemma_remove_row(contents: Map<Seq<u8>, Row>, row: Row)
    requires
        by_sort_key(contents),
    ensures
        by_sort_key(contents.remove(values_key(row))),
        keyed_rows(contents.remove(values_key(row))) == keyed_rows(contents).remove(row),
        contents.contains_key(values_key(row)) == keyed_rows(contents).contains(row),
{
    let after = contents.remove(values_key(row));
    assert forall|r: Row| #[trigger] keyed_rows(after).contains(r) <==> keyed_rows(contents).remove(
        row,
    ).contains(r) by {
        if values_key(r) == values_key(row) {
            lemma_values_key_injective(r, row);
        }
    }
    assert(keyed_rows(after) =~= keyed_rows(contents).remove(row));
    if contents.contains_key(values_key(row)) {
        lemma_values_key_injective(contents[values_key(row)], row);
    }
}

/// The first values of bindings that are bound.
pub open spec fn bound_prefix(bindings: Seq<Option<ValueView>>, count: int) -> Row {
    Seq::new(count as nat, |i: int| bindings[i]->0)
}

/// Whether the first columns are bound.
pub open spec fn leads(bindings: Seq<Option<ValueView>>, count: int) -> bool {
    &&& 0 <= count <= bindings.len()
    &&& forall|i: int| 0 <= i < count ==> (#[trigger] bindings[i]) is Some
}

/// The first bound values.
pub fn prefix_values(bindings: &[Option<Value>], count: usize) -> (values: Vec<Value>)
    requires
        leads(option_views(bindings@), count as int),
    ensures
        views(values@) == bound_prefix(option_views(bindings@), count as int),
        values@.len() == count,
{
    let ghost bound = option_views(bindings@);
    let mut values: Vec<Value> = Vec::new();
    let mut i: usize = 0;
    while i < count
        invariant
            i <= count <= bindings@.len(),
            bound == option_views(bindings@),
            leads(bound, count as int),
            values@.len() == i,
            forall|j: int| 0 <= j < i ==> (#[trigger] values@[j])@ == bound[j]->0,
        decreases count - i,
    {
        assert(bound[i as int] is Some);
        match &bindings[i] {
            Some(value) => {
                values.push(copy_value(value));
            },
            None => {
                assert(false);
            },
        }
        i = i + 1;
    }
    assert(views(values@) =~= bound_prefix(bound, count as int));
    values
}

/// Whether no column from `count` on is bound.
pub open spec fn unbound_from(bindings: Seq<Option<ValueView>>, count: int) -> bool {
    forall|i: int| count <= i < bindings.len() ==> (#[trigger] bindings[i]) is None
}

/// Whether no column from `count` on is bound.
pub fn natural_prefix_covers_all_bindings(bindings: &[Option<Value>], count: usize) -> (result:
    bool)
    ensures
        result == unbound_from(option_views(bindings@), count as int),
{
    let ghost bound = option_views(bindings@);
    let mut i: usize = count;
    while i < bindings.len()
        invariant
            bound == option_views(bindings@),
            count <= i,
            forall|j: int| count <= j < i && j < bound.len() ==> (#[trigger] bound[j]) is None,
        decreases bindings@.len() - i,
    {
        assert(bound[i as int] is Some == bindings@[i as int] is Some);
        if bindings[i].is_some() {
            return false;
        }
        i = i + 1;
    }
    true
}

/// A row that has the bound values in front and matches where the other columns are
/// free; one that matches has them in front.
proof fn lemma_prefix_matches(row: Row, bindings: Seq<Option<ValueView>>, count: int)
    requires
        leads(bindings, count),
    ensures
        row_matches(row, bindings) ==> starts_with(
            values_key(row),
            values_key(bound_prefix(bindings, count)),
        ),
        unbound_from(bindings, count) && starts_with(
            values_key(row),
            values_key(bound_prefix(bindings, count)),
        ) ==> row_matches(row, bindings),
{
    let prefix = bound_prefix(bindings, count);
    lemma_starts_with(row, prefix);
    if row_matches(row, bindings) {
        if count > 0 {
            assert(bindings[count - 1] is Some);
        }
        assert forall|i: int| 0 <= i < count implies row[i] == prefix[i] by {
            assert(bindings[i] is Some);
        }
        assert(row.take(count) =~= prefix);
    }
    if unbound_from(bindings, count) && starts_with(values_key(row), values_key(prefix)) {
        assert forall|i: int| 0 <= i < bindings.len() && (#[trigger] bindings[i]) is Some implies i
            < row.len() && row[i] == bindings[i]->0 by {
            assert(i < count);
            assert(row.take(count)[i] == prefix[i]);
        }
    }
}

impl TupleStore {
    #[verifier::type_invariant]
    spec fn wf(self) -> bool {
        repr_wf(self.repr)
    }

    /// Whether the rows are kept in a tree.
    pub closed spec fn is_radix(self) -> bool {
        self.repr is Radix
    }

    /// No rows.
    pub fn empty() -> (store: TupleStore)
        ensures
            store@ == Set::<Row>::empty(),
            !store.is_radix(),
    {
        let tuples: Vec<Tuple> = Vec::new();
        assert(rows(tuples@).to_set() =~= Set::<Row>::empty());
        TupleStore { repr: Repr::Small(tuples) }
    }

    /// The given rows, which stand in increasing order.
    pub fn from_sorted_unique(tuples: &[Tuple]) -> (store: TupleStore)
        requires
            increasing(rows(tuples@)),
        ensures
            store@ == rows(tuples@).to_set(),
            store.is_radix() == (tuples@.len() > TUPLE_STORE_RADIX_THRESHOLD),
    {
        if tuples.len() <= TUPLE_STORE_RADIX_THRESHOLD {
            return TupleStore { repr: Repr::Small(copy_tuples(tuples)) };
        }
        let entries = fill_tree(tuples);
        TupleStore { repr: Repr::Radix { entries, len: tuples.len() } }
    }

    /// A copy of the rows.
    pub fn snapshot(&self) -> (copy: TupleStore)
        ensures
            copy@ == self@,
            copy.is_radix() == self.is_radix(),
    {
        proof {
            use_type_invariant(self);
        }
        match &self.repr {
            Repr::Small(tuples) => TupleStore { repr: Repr::Small(copy_tuples(tuples)) },
            Repr::Radix { entries, len } => TupleStore {
                repr: Repr::Radix { entries: entries.snapshot(), len: *len },
            },
        }
    }

    /// The number of rows.
    pub fn len(&self) -> (len: usize)
        ensures
            len == self@.len(),
            self@.finite(),
    {
        proof {
            use_type_invariant(self);
        }
        match &self.repr {
            Repr::Small(tuples) => {
                proof {
                    lemma_increasing_distinct(rows(tuples@));
                }
                tuples.len()
            },
            Repr::Radix { entries, len } => {
                proof {
                    lemma_keyed_rows(entries@);
                }
                *len
            },
        }
    }

    /// Whether there are no rows.
    pub fn is_empty(&self) -> (result: bool)
        ensures
            result == (self@ == Set::<Row>::empty()),
    {
        let len: usize = self.len();
        proof {
            if self@.len() == 0 {
                assert(self@ =~= Set::<Row>::empty());
            }
        }
        len == 0
    }

    /// How the rows are kept.
    pub fn storage_kind(&self) -> (kind: &'static str)
        ensures
            kind@ == if self.is_radix() {
                "radix"@
            } else {
                "btree"@
            },
    {
        match &self.repr {
            Repr::Small(_) => "btree",
            Repr::Radix { .. } => "radix",
        }
    }

    /// Whether a row is there.
    pub fn contains(&self, tuple: &Tuple) -> (result: bool)
        ensures
            result == self@.contains(tuple@),
    {
        proof {
            use_type_invariant(self);
        }
        match &self.repr {
            Repr::Small(tuples) => contains_row(tuples, tuple),
            Repr::Radix { entries, .. } => {
                proof {
                    lemma_insert_row(entries@, tuple@);
                }
                entries.get(tuple.key()).is_some()
            },
        }
    }

    /// The row with the given values, if it is there.
    pub fn tuple_for_values(&self, values: &[Value]) -> (found: Option<Tuple>)
        ensures
            found is Some == self@.contains(views(values@)),
            found matches Some(tuple) ==> tuple@ == views(values@),
    {
        let tuple = Tuple::new(copy_values(values));
        self.tuple_for_tuple(&tuple)
    }

    /// The row with the values of another, if it is there.
    pub fn tuple_for_tuple(&self, tuple: &Tuple) -> (found: Option<Tuple>)
        ensures
            found is Some == self@.contains(tuple@),
            found matches Some(same) ==> same@ == tuple@,
    {
        proof {
            use_type_invariant(self);
        }
        match &self.repr {
            Repr::Small(tuples) => if contains_row(tuples, tuple) {
                Some(tuple.clone())
            } else {
                None
            },
            Repr::Radix { entries, .. } => {
                proof {
                    lemma_insert_row(entries@, tuple@);
                    if entries@.contains_key(values_key(tuple@)) {
                        lemma_values_key_injective(entries@[values_key(tuple@)], tuple@);
                    }
                }
                match entries.get(tuple.key()) {
                    Some(found) => Some(found.clone()),
                    None => None,
                }
            },
        }
    }

    /// Adds a row, and says whether it is new. A list that grows too long becomes a
    /// tree.
    pub fn insert(&mut self, tuple: Tuple) -> (inserted: bool)
        requires
            old(self)@.len() < usize::MAX,
        ensures
            inserted == !old(self)@.contains(tuple@),
            final(self)@ == old(self)@.insert(tuple@),
            final(self).is_radix() == (old(self).is_radix() || final(self)@.len()
                > TUPLE_STORE_RADIX_THRESHOLD),
    {
        let held: usize = self.len();
        let ghost before = self@;
        let ghost was_radix = self.is_radix();
        let mut repr = Repr::Small(Vec::new());
        proof {
            use_type_invariant(&*self);
        }
        std::mem::swap(&mut repr, &mut self.repr);
        match repr {
            Repr::Small(tuples) => {
                let mut tuples = tuples;
                proof {
                    lemma_increasing_distinct(rows(tuples@));
                }
                let inserted = insert_row(&mut tuples, tuple);
                proof {
                    lemma_increasing_distinct(rows(tuples@));
                }
                if tuples.len() > TUPLE_STORE_RADIX_THRESHOLD {
                    let entries = fill_tree(&tuples);
                    self.repr = Repr::Radix { entries, len: tuples.len() };
                } else {
                    self.repr = Repr::Small(tuples);
                }
                inserted
            },
            Repr::Radix { entries, len } => {
                let mut entries = entries;
                proof {
                    lemma_insert_row(entries@, tuple@);
                    lemma_keyed_rows(entries@);
                }
                let key = key_from_values(tuple.values());
                let inserted: bool = !entries.insert(&key, tuple);
                if inserted {
                    self.repr = Repr::Radix { entries, len: len + 1 };
                } else {
                    self.repr = Repr::Radix { entries, len };
                }
                inserted
            },
        }
    }

    /// Takes a row out, and says whether it was there.
    pub fn remove(&mut self, tuple: &Tuple) -> (removed: bool)
        ensures
            removed == old(self)@.contains(tuple@),
            final(self)@ == old(self)@.remove(tuple@),
            final(self).is_radix() == old(self).is_radix(),
    {
        let mut repr = Repr::Small(Vec::new());
        proof {
            use_type_invariant(&*self);
        }
        std::mem::swap(&mut repr, &mut self.repr);
        match repr {
            Repr::Small(tuples) => {
                let mut tuples = tuples;
                let removed = remove_row(&mut tuples, tuple);
                self.repr = Repr::Small(tuples);
                removed
            },
            Repr::Radix { entries, len } => {
                let mut entries = entries;
                proof {
                    lemma_remove_row(entries@, tuple@);
                }
                let removed = entries.delete(tuple.key());
                if removed {
                    self.repr = Repr::Radix { entries, len: len - 1 };
                } else {
                    assert(entries@ =~= entries@.remove(values_key(tuple@)));
                    self.repr = Repr::Radix { entries, len };
                }
                removed
            },
        }
    }

    /// All rows, in order.
    pub fn all_tuples(&self) -> (found: Vec<Tuple>)
        ensures
            lists(rows(found@), self@),
    {
        proof {
            use_type_invariant(self);
        }
        match &self.repr {
            Repr::Small(tuples) => copy_tuples(tuples),
            Repr::Radix { entries, .. } => {
                let found = entries.values();
                proof {
                    let keys = choose|keys: Seq<Seq<u8>>| #[trigger]
                        walks(entries@, Seq::<u8>::empty(), keys, rows(found@));
                    lemma_walk_lists(entries@, Seq::<u8>::empty(), keys, rows(found@));
                    lemma_everything_starts(entries@);
                }
                found
            },
        }
    }

    /// The rows that match bindings, in order.
    pub fn matching(&self, bindings: &[Option<Value>]) -> (found: Vec<Tuple>)
        ensures
            lists(rows(found@), matching(self@, option_views(bindings@))),
    {
        let all = self.all_tuples();
        if natural_prefix_covers_all_bindings(bindings, 0) {
            assert(matching(self@, option_views(bindings@)) =~= self@);
            return all;
        }
        matching_rows(&all, bindings)
    }

    /// The rows that match bindings of which the first columns are bound, in order.
    pub fn scan_prefix(&self, bindings: &[Option<Value>], bound_count: usize) -> (found: Vec<Tuple>)
        requires
            leads(option_views(bindings@), bound_count as int),
        ensures
            lists(rows(found@), matching(self@, option_views(bindings@))),
    {
        proof {
            use_type_invariant(self);
        }
        let ghost bound = option_views(bindings@);
        match &self.repr {
            Repr::Small(tuples) => matching_rows(tuples, bindings),
            Repr::Radix { entries, .. } => {
                let prefix = key_from_values(&prefix_values(bindings, bound_count));
                let found = entries.prefix_values(&prefix);
                let ghost near = keyed_rows(entries@).filter(
                    |row: Row| starts_with(values_key(row), prefix@),
                );
                proof {
                    let keys = choose|keys: Seq<Seq<u8>>| #[trigger]
                        walks(entries@, prefix@, keys, rows(found@));
                    lemma_walk_lists(entries@, prefix@, keys, rows(found@));
                    assert forall|row: Row| #[trigger] matching(near, bound).contains(row) <==> matching(
                        self@,
                        bound,
                    ).contains(row) by {
                        lemma_prefix_matches(row, bound, bound_count as int);
                    }
                    assert(matching(near, bound) =~= matching(self@, bound));
                }
                if natural_prefix_covers_all_bindings(bindings, bound_count) {
                    proof {
                        assert forall|row: Row| #[trigger] near.contains(row) implies matching(
                            near,
                            bound,
                        ).contains(row) by {
                            lemma_prefix_matches(row, bound, bound_count as int);
                        }
                        assert(matching(near, bound) =~= near);
                    }
                    return found;
                }
                matching_rows(&found, bindings)
            },
        }
    }

    /// The rows that two stores have in common, in pairs.
    pub fn matching_row_pairs(&self, other: &TupleStore) -> (pairs: Vec<(Tuple, Tuple)>)
        ensures
            forall|i: int|
                0 <= i < pairs@.len() ==> (#[trigger] pairs@[i]).0@ == pairs@[i].1@ && self@.contains(
                    pairs@[i].0@,
                ) && other@.contains(pairs@[i].0@),
            forall|row: Row| #[trigger]
                self@.contains(row) && other@.contains(row) ==> exists|i: int|
                    0 <= i < pairs@.len() && (#[trigger] pairs@[i]).0@ == row,
    {
        proof {
            use_type_invariant(self);
            use_type_invariant(other);
        }
        match (&self.repr, &other.repr) {
            (Repr::Radix { entries: left, .. }, Repr::Radix { entries: right, .. }) => {
                let pairs = left.intersection(right);
                proof {
                    let keys = choose|keys: Seq<Seq<u8>>| #[trigger]
                        meets(left@, right@, keys, pairs@);
                    assert forall|i: int| 0 <= i < pairs@.len() implies (#[trigger] pairs@[i]).0@
                        == pairs@[i].1@ && self@.contains(pairs@[i].0@) && other@.contains(
                        pairs@[i].0@,
                    ) by {
                        assert(keys.contains(keys[i]));
                        lemma_values_key_injective(left@[keys[i]], right@[keys[i]]);
                    }
                    assert forall|row: Row| #[trigger]
                        self@.contains(row) && other@.contains(row) implies exists|i: int|
                        0 <= i < pairs@.len() && (#[trigger] pairs@[i]).0@ == row by {
                        assert(keys.contains(values_key(row)));
                        let i = choose|i: int| 0 <= i < keys.len() && keys[i] == values_key(row);
                        assert(pairs@[i].0@ == row);
                    }
                }
                pairs
            },
            (Repr::Radix { .. }, Repr::Small(right)) => {
                let kept = pairs_within(right, self);
                kept
            },
            (Repr::Small(left), _) => pairs_within(left, other),
        }
    }
}

/// The rows of a list that are in a store, in pairs.
fn pairs_within(tuples: &[Tuple], store: &TupleStore) -> (pairs: Vec<(Tuple, Tuple)>)
    ensures
        forall|i: int|
            0 <= i < pairs@.len() ==> (#[trigger] pairs@[i]).0@ == pairs@[i].1@ && rows(
                tuples@,
            ).contains(pairs@[i].0@) && store@.contains(pairs@[i].0@),
        forall|row: Row| #[trigger]
            rows(tuples@).contains(row) && store@.contains(row) ==> exists|i: int|
                0 <= i < pairs@.len() && (#[trigger] pairs@[i]).0@ == row,
{
    let ghost all = rows(tuples@);
    let mut pairs: Vec<(Tuple, Tuple)> = Vec::new();
    let mut n: usize = 0;
    while n < tuples.len()
        invariant
            n <= tuples@.len(),
            all == rows(tuples@),
            forall|i: int|
                0 <= i < pairs@.len() ==> (#[trigger] pairs@[i]).0@ == pairs@[i].1@
                    && all.contains(pairs@[i].0@) && store@.contains(pairs@[i].0@),
            forall|k: int|
                0 <= k < n && store@.contains(#[trigger] all[k]) ==> exists|i: int|
                    0 <= i < pairs@.len() && (#[trigger] pairs@[i]).0@ == all[k],
        decreases tuples@.len() - n,
    {
        let ghost before = pairs@;
        assert(all[n as int] == tuples@[n as int]@);
        match store.tuple_for_tuple(&tuples[n]) {
            Some(found) => {
                pairs.push((tuples[n].clone(), found));
                proof {
                    assert(all.contains(all[n as int]));
                    assert(pairs@[before.len() as int].0@ == all[n as int]);
                    assert forall|k: int|
                        0 <= k < n + 1 && store@.contains(#[trigger] all[k]) implies exists|i: int|
                        0 <= i < pairs@.len() && (#[trigger] pairs@[i]).0@ == all[k] by {
                        if k < n {
                            let i = choose|i: int|
                                0 <= i < before.len() && (#[trigger] before[i]).0@ == all[k];
                            assert(pairs@[i] == before[i]);
                        }
                    }
                }
            },
            None => {},
        }
        n = n + 1;
    }
    proof {
        assert forall|row: Row| #[trigger]
            all.contains(row) && store@.contains(row) implies exists|i: int|
            0 <= i < pairs@.len() && (#[trigger] pairs@[i]).0@ == row by {
            let k = choose|k: int| 0 <= k < all.len() && all[k] == row;
            assert(store@.contains(all[k]));
        }
    }
    pairs
}

} // verus!
