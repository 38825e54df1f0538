//! Tables that find an entry by a key, in the order in which keys came.

use crate::value::{Identity, Symbol};
use vstd::prelude::*;
use vstd::seq_lib::*;

verus! {

/// What a table finds entries by.
pub trait Keyed: View + Sized {
    /// Whether two keys are the same.
    fn same_key(&self, other: &Self) -> (result: bool)
        ensures
            result == (self@ == other@),
    ;

    /// A copy of a key.
    fn copy_key(&self) -> (copy: Self)
        ensures
            copy@ == self@,
    ;
}

impl Keyed for u64 {
    fn same_key(&self, other: &u64) -> (result: bool) {
        *self == *other
    }

    fn copy_key(&self) -> (copy: u64) {
        *self
    }
}

impl Keyed for Identity {
    fn same_key(&self, other: &Identity) -> (result: bool) {
        self.same(other)
    }

    fn copy_key(&self) -> (copy: Identity) {
        *self
    }
}

impl Keyed for Symbol {
    fn same_key(&self, other: &Symbol) -> (result: bool) {
        self.same(other)
    }

    fn copy_key(&self) -> (copy: Symbol) {
        self.clone()
    }
}

/// The keys of some entries.
pub open spec fn entry_keys<K: Keyed, V>(entries: Seq<(K, V)>) -> Seq<K::V> {
    entries.map_values(|entry: (K, V)| entry.0@)
}

/// The place of a key among some entries.
pub open spec fn place_of<K: Keyed, V>(entries: Seq<(K, V)>, key: K::V) -> int {
    choose|i: int| 0 <= i < entries.len() && (#[trigger] entries[i]).0@ == key
}

/// What some entries with different keys map keys to.
pub open spec fn entry_map<K: Keyed, V>(entries: Seq<(K, V)>) -> Map<K::V, V> {
    Map::new(
        |key: K::V| entry_keys(entries).contains(key),
        |key: K::V| entries[place_of(entries, key)].1,
    )
}

/// Every entry is found by its key, and every key that is found is an entry's.
pub proof fn lemma_entry_map<K: Keyed, V>(entries: Seq<(K, V)>)
    requires
        entry_keys(entries).no_duplicates(),
    ensures
        forall|i: int|
            0 <= i < entries.len() ==> entry_map(entries).contains_key((#[trigger] entries[i]).0@)
                && entry_map(entries)[entries[i].0@] == entries[i].1,
        forall|key: K::V| #[trigger]
            entry_map(entries).contains_key(key) ==> exists|i: int|
                0 <= i < entries.len() && (#[trigger] entries[i]).0@ == key,
        entry_map(entries).dom().finite(),
        entry_map(entries).dom().len() == entries.len(),
{
    let keys = entry_keys(entries);
    assert forall|i: int| 0 <= i < entries.len() implies entry_map(entries).contains_key(
        (#[trigger] entries[i]).0@,
    ) && entry_map(entries)[entries[i].0@] == entries[i].1 by {
        let key = entries[i].0@;
        assert(keys[i] == key);
        let p = place_of(entries, key);
        assert(0 <= p < entries.len() && entries[p].0@ == key);
        assert(keys[p] == key);
    }
    assert forall|key: K::V| #[trigger] entry_map(entries).contains_key(key) implies exists|i: int|
        0 <= i < entries.len() && (#[trigger] entries[i]).0@ == key by {
        let i = choose|i: int| 0 <= i < keys.len() && keys[i] == key;
        assert(entries[i].0@ == key);
    }
    assert(entry_map(entries).dom() =~= keys.to_set());
    keys.unique_seq_to_set();
}

/// A table.
#[derive(Debug)]
pub struct Table<K: Keyed, V> {
    entries: Vec<(K, V)>,
}

impl<K: Keyed, V> View for Table<K, V> {
    type V = Map<K::V, V>;

    closed spec fn view(&self) -> Map<K::V, V> {
        entry_map(self.entries@)
    }
}

impl<K: Keyed, V> Table<K, V> {
    #[verifier::type_invariant]
    spec fn distinct(self) -> bool {
        entry_keys(self.entries@).no_duplicates()
    }

    /// The entries, in the order in which their keys came.
    pub closed spec fn listing(&self) -> Seq<(K, V)> {
        self.entries@
    }

    /// A table without entries.
    pub fn new() -> (table: Table<K, V>)
        ensures
            table@ == Map::<K::V, V>::empty(),
            table.listing() == Seq::<(K, V)>::empty(),
    {
        let table = Table { entries: Vec::new() };
        assert(table@ =~= Map::<K::V, V>::empty());
        table
    }

    /// The number of entries.
    pub fn len(&self) -> (len: usize)
        ensures
            len == self@.dom().len(),
            self@.dom().finite(),
            len == self.listing().len(),
    {
        proof {
            use_type_invariant(self);
            lemma_entry_map(self.entries@);
        }
        self.entries.len()
    }

    /// The entries.
    pub fn entries(&self) -> (entries: &Vec<(K, V)>)
        ensures
            entries@ == self.listing(),
            entry_keys(entries@).no_duplicates(),
            self@ == entry_map(entries@),
    {
        proof {
            use_type_invariant(self);
        }
        &self.entries
    }

    fn place(&self, key: &K) -> (place: Option<usize>)
        ensures
            place is Some == self@.contains_key(key@),
            place matches Some(i) ==> i < self.listing().len() && self.listing()[i as int].0@ == key@
                && self.listing()[i as int].1 == self@[key@],
    {
        proof {
            use_type_invariant(self);
            lemma_entry_map(self.entries@);
        }
        let mut i: usize = 0;
        while i < self.entries.len()
            invariant
                i <= self.entries@.len(),
                forall|j: int| 0 <= j < i ==> (#[trigger] self.entries@[j]).0@ != key@,
            decreases self.entries@.len() - i,
        {
            if self.entries[i].0.same_key(key) {
                proof {
                    use_type_invariant(self);
                    lemma_entry_map(self.entries@);
                }
                return Some(i);
            }
            i = i + 1;
        }
        None
    }

    /// Whether the table has an entry for `key`.
    pub fn contains(&self, key: &K) -> (result: bool)
        ensures
            result == self@.contains_key(key@),
    {
        self.place(key).is_some()
    }

    /// What the table has for `key`.
    pub fn get(&self, key: &K) -> (found: Option<&V>)
        ensures
            found is Some == self@.contains_key(key@),
            found matches Some(value) ==> *value == self@[key@],
    {
        match self.place(key) {
            Some(i) => Some(&self.entries[i].1),
            None => None,
        }
    }

    /// Puts `value` under `key` and hands back what was there.
    pub fn insert(&mut self, key: K, value: V) -> (previous: Option<V>)
        ensures
            final(self)@ == old(self)@.insert(key@, value),
            previous == if old(self)@.contains_key(key@) {
                Some(old(self)@[key@])
            } else {
                None
            },
            !old(self)@.contains_key(key@) ==> final(self).listing() == old(self).listing().push(
                (key, value),
            ),
    {
        proof {
            use_type_invariant(&*self);
            lemma_entry_map(self.entries@);
        }
        let ghost before = self.entries@;
        let place = self.place(&key);
        let mut entries: Vec<(K, V)> = Vec::new();
        std::mem::swap(&mut entries, &mut self.entries);
        match place {
            Some(i) => {
                let (kept, old_value) = entries.remove(i);
                entries.insert(i, (kept, value));
                proof {
                    assert(entries@ =~= before.update(i as int, (kept, value)));
                    assert(entry_keys(entries@) =~= entry_keys(before));
                    lemma_entry_map(entries@);
                    assert(entry_map(entries@) =~= entry_map(before).insert(key@, value)) by {
                        lemma_map_update(before, i as int, (kept, value));
                    }
                }
                self.entries = entries;
                Some(old_value)
            },
            None => {
                entries.push((key, value));
                proof {
                    lemma_keys_push(before, (key, value));
                    lemma_map_push(before, (key, value));
                }
                self.entries = entries;
                None
            },
        }
    }

    /// Takes out what the table has for `key`.
    pub fn remove(&mut self, key: &K) -> (removed: Option<V>)
        ensures
            final(self)@ == old(self)@.remove(key@),
            removed == if old(self)@.contains_key(key@) {
                Some(old(self)@[key@])
            } else {
                None
            },
    {
        proof {
            use_type_invariant(&*self);
            lemma_entry_map(self.entries@);
        }
        let ghost before = self.entries@;
        let place = self.place(key);
        match place {
            Some(i) => {
                let mut entries: Vec<(K, V)> = Vec::new();
                std::mem::swap(&mut entries, &mut self.entries);
                let (_, value) = entries.remove(i);
                proof {
                    lemma_map_remove(before, i as int);
                }
                self.entries = entries;
                Some(value)
            },
            None => {
                assert(self@.remove(key@) =~= self@);
                None
            },
        }
    }
}

proof fn lemma_keys_push<K: Keyed, V>(entries: Seq<(K, V)>, entry: (K, V))
    requires
        entry_keys(entries).no_duplicates(),
        !entry_map(entries).contains_key(entry.0@),
    ensures
        entry_keys(entries.push(entry)) == entry_keys(entries).push(entry.0@),
        entry_keys(entries.push(entry)).no_duplicates(),
{
    let keys = entry_keys(entries);
    assert(entry_keys(entries.push(entry)) =~= keys.push(entry.0@));
    assert(!keys.contains(entry.0@));
}

proof fn lemma_map_push<K: Keyed, V>(entries: Seq<(K, V)>, entry: (K, V))
    requires
        entry_keys(entries).no_duplicates(),
        !entry_map(entries).contains_key(entry.0@),
    ensures
        entry_map(entries.push(entry)) == entry_map(entries).insert(entry.0@, entry.1),
{
    let after = entries.push(entry);
    lemma_keys_push(entries, entry);
    lemma_entry_map(entries);
    lemma_entry_map(after);
    assert forall|key: K::V| #[trigger] entry_map(after).contains_key(key) <==> entry_map(
        entries,
    ).insert(entry.0@, entry.1).contains_key(key) by {
        if entry_map(after).contains_key(key) {
            let i = choose|i: int| 0 <= i < after.len() && (#[trigger] after[i]).0@ == key;
            if i < entries.len() {
                assert(entries[i].0@ == key);
            }
        }
        if entry_map(entries).contains_key(key) {
            let i = choose|i: int| 0 <= i < entries.len() && (#[trigger] entries[i]).0@ == key;
            assert(after[i].0@ == key);
        }
        assert(after[entries.len() as int].0@ == entry.0@);
    }
    assert forall|key: K::V| #[trigger] entry_map(after).contains_key(key) implies entry_map(
        after,
    )[key] == entry_map(entries).insert(entry.0@, entry.1)[key] by {
        let i = choose|i: int| 0 <= i < after.len() && (#[trigger] after[i]).0@ == key;
        if i < entries.len() {
            assert(entries[i].0@ == key);
        }
    }
    assert(entry_map(after) =~= entry_map(entries).insert(entry.0@, entry.1));
}

proof fn lemma_map_update<K: Keyed, V>(entries: Seq<(K, V)>, at: int, entry: (K, V))
    requires
        entry_keys(entries).no_duplicates(),
        0 <= at < entries.len(),
        entries[at].0@ == entry.0@,
        entry_keys(entries.update(at, entry)).no_duplicates(),
    ensures
        entry_map(entries.update(at, entry)) == entry_map(entries).insert(entry.0@, entry.1),
{
    let after = entries.update(at, entry);
    lemma_entry_map(entries);
    lemma_entry_map(after);
    assert(entry_keys(after) =~= entry_keys(entries));
    assert(after[at].0@ == entry.0@);
    assert forall|key: K::V| #[trigger] entry_map(after).contains_key(key) implies entry_map(
        after,
    )[key] == entry_map(entries).insert(entry.0@, entry.1)[key] by {
        let i = choose|i: int| 0 <= i < after.len() && (#[trigger] after[i]).0@ == key;
        if i != at {
            assert(entries[i].0@ == key);
            assert(entry_keys(entries)[i] == key);
            assert(entry_keys(entries)[at] == entry.0@);
        }
    }
    assert(entry_map(after) =~= entry_map(entries).insert(entry.0@, entry.1));
}

proof fn lemma_map_remove<K: Keyed, V>(entries: Seq<(K, V)>, at: int)
    requires
        entry_keys(entries).no_duplicates(),
        0 <= at < entries.len(),
    ensures
        entry_keys(entries.remove(at)).no_duplicates(),
        entry_map(entries.remove(at)) == entry_map(entries).remove(entries[at].0@),
{
    let after = entries.remove(at);
    let keys = entry_keys(entries);
    assert(entry_keys(after) =~= keys.remove(at));
    assert(entry_keys(after).no_duplicates());
    lemma_entry_map(entries);
    lemma_entry_map(after);
    let gone = entries[at].0@;
    assert(keys[at] == gone);
    assert forall|key: K::V| #[trigger] entry_map(after).contains_key(key) <==> entry_map(
        entries,
    ).remove(gone).contains_key(key) by {
        if entry_map(after).contains_key(key) {
            let i = choose|i: int| 0 <= i < after.len() && (#[trigger] after[i]).0@ == key;
            let j = if i < at { i } else { i + 1 };
            assert(entries[j].0@ == key);
            assert(keys[j] == key);
        }
        if entry_map(entries).contains_key(key) && key != gone {
            let i = choose|i: int| 0 <= i < entries.len() && (#[trigger] entries[i]).0@ == key;
            let j = if i < at { i } else { i - 1 };
            assert(after[j].0@ == key);
        }
    }
    assert forall|key: K::V| #[trigger] entry_map(after).contains_key(key) implies entry_map(
        after,
    )[key] == entry_map(entries).remove(gone)[key] by {
        let i = choose|i: int| 0 <= i < after.len() && (#[trigger] after[i]).0@ == key;
        let j = if i < at { i } else { i + 1 };
        assert(entries[j].0@ == key);
    }
    assert(entry_map(after) =~= entry_map(entries).remove(gone));
}

} // verus!
