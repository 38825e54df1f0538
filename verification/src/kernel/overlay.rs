//! The writes of a transaction that are not committed yet.

use crate::bytes::Standing;
use crate::kernel::algebra::{lists, matching, Row};
use crate::kernel::relation::{change_rows, RelationMutationKind, RowChange};
use crate::tuple::{increasing, lemma_row_order_total, lemma_row_order_transitive, row_less,
    row_matches, rows, Tuple};
use crate::value::{option_views, Value, ValueView};
use vstd::prelude::*;

verus! {

/// The rows that changes are of.
pub open spec fn changed_rows(changes: Seq<(Tuple, RelationMutationKind)>) -> Seq<Row> {
    changes.map_values(|change: (Tuple, RelationMutationKind)| change.0@)
}

/// The last thing done to each row of a relation.
pub struct RelationWriteOverlay {
    changes: Vec<(Tuple, RelationMutationKind)>,
}

spec fn place_of(changes: Seq<(Tuple, RelationMutationKind)>, row: Row) -> int {
    choose|i: int| 0 <= i < changes.len() && changed_rows(changes)[i] == row
}

impl View for RelationWriteOverlay {
    type V = Map<Row, RelationMutationKind>;

    closed spec fn view(&self) -> Map<Row, RelationMutationKind> {
        Map::new(
            |row: Row| changed_rows(self.changes@).contains(row),
            |row: Row| self.changes@[place_of(self.changes@, row)].1,
        )
    }
}

proof fn lemma_place(changes: Seq<(Tuple, RelationMutationKind)>, i: int)
    requires
        increasing(changed_rows(changes)),
        0 <= i < changes.len(),
    ensures
        changed_rows(changes)[i] == changes[i].0@,
        changed_rows(changes).contains(changes[i].0@),
        place_of(changes, changes[i].0@) == i,
{
    let row = changes[i].0@;
    assert(changed_rows(changes)[i] == row);
    let j = place_of(changes, row);
    assert(0 <= j < changes.len() && changed_rows(changes)[j] == row);
    lemma_row_order_total(row, row);
    if i < j {
        assert(row_less(changed_rows(changes)[i], changed_rows(changes)[j]));
    }
    if j < i {
        assert(row_less(changed_rows(changes)[j], changed_rows(changes)[i]));
    }
}

/// The rows that are seen once writes are laid over stored rows.
pub open spec fn overlaid(base: Set<Row>, writes: Map<Row, RelationMutationKind>) -> Set<Row> {
    Set::new(
        |row: Row|
            if writes.contains_key(row) {
                writes[row] is Assert
            } else {
                base.contains(row)
            },
    )
}

/// The rows that were written in one way.
pub open spec fn written(
    writes: Map<Row, RelationMutationKind>,
    kind: RelationMutationKind,
) -> Set<Row> {
    Set::new(|row: Row| writes.contains_key(row) && writes[row] == kind)
}

impl RelationWriteOverlay {
    #[verifier::type_invariant]
    spec fn wf(self) -> bool {
        increasing(changed_rows(self.changes@))
    }

    /// No writes.
    pub fn new() -> (writes: RelationWriteOverlay)
        ensures
            writes@ == Map::<Row, RelationMutationKind>::empty(),
    {
        let writes = RelationWriteOverlay { changes: Vec::new() };
        assert(writes@ =~= Map::<Row, RelationMutationKind>::empty());
        writes
    }

    /// How many rows were written.
    pub fn len(&self) -> (len: usize)
        ensures
            len == self@.dom().len(),
            self@.dom().finite(),
    {
        proof {
            use_type_invariant(self);
            let listed = changed_rows(self.changes@);
            assert(listed.to_set() =~= self@.dom());
            crate::kernel::algebra::lemma_increasing_distinct(listed);
        }
        self.changes.len()
    }

    /// The writes, in the order of their rows.
    pub fn listing(&self) -> (changes: &Vec<(Tuple, RelationMutationKind)>)
        ensures
            lists_writes(change_rows(changes@), self@),
            changes@.len() == self@.dom().len(),
            self@.dom().finite(),
    {
        proof {
            use_type_invariant(self);
            let listed = change_rows(self.changes@);
            let touched = changed_rows(self.changes@);
            assert(listed.map_values(|change: RowChange| change.row) =~= touched);
            assert(touched.to_set() =~= self@.dom());
            crate::kernel::algebra::lemma_increasing_distinct(touched);
            assert forall|i: int| 0 <= i < listed.len() implies self@.contains_key(
                (#[trigger] listed[i]).row,
            ) && self@[listed[i].row] == listed[i].kind by {
                lemma_place(self.changes@, i);
                assert(listed[i].row == self.changes@[i].0@);
            }
        }
        &self.changes
    }

    /// Writes a row, in place of what was done to it before.
    pub fn insert(&mut self, tuple: Tuple, kind: RelationMutationKind)
        ensures
            final(self)@ == old(self)@.insert(tuple@, kind),
    {
        let ghost before = *self;
        proof {
            use_type_invariant(&*self);
        }
        let mut changes: Vec<(Tuple, RelationMutationKind)> = Vec::new();
        std::mem::swap(&mut self.changes, &mut changes);
        let ghost old_changes = changes@;
        let ghost touched = changed_rows(old_changes);
        let ghost row = tuple@;
        let mut at: usize = 0;
        let mut found: bool = false;
        while at < changes.len()
            invariant_except_break
                !found,
            invariant
                at <= changes@.len(),
                changes@ == old_changes,
                touched == changed_rows(old_changes),
                increasing(touched),
                row == tuple@,
                forall|j: int| 0 <= j < at ==> row_less(#[trigger] touched[j], row),
            ensures
                found ==> at < changes@.len() && touched[at as int] == row,
                !found && at < changes@.len() ==> row_less(row, touched[at as int]),
            decreases changes@.len() - at,
        {
            assert(touched[at as int] == changes@[at as int].0@);
            match changes[at].0.compare(&tuple) {
                Standing::Before => {
                    at = at + 1;
                },
                Standing::Same => {
                    found = true;
                    break;
                },
                Standing::After => {
                    break;
                },
            }
        }
        if found {
            changes.set(at, (tuple, kind));
            assert(changed_rows(changes@) =~= touched);
        } else {
            changes.insert(at, (tuple, kind));
            proof {
                let after = changed_rows(changes@);
                assert(after =~= touched.insert(at as int, row));
                assert forall|i: int, j: int| 0 <= i < j < after.len() implies row_less(
                    #[trigger] after[i],
                    #[trigger] after[j],
                ) by {
                    let a = if i < at {
                        i
                    } else {
                        i - 1
                    };
                    let b = if j < at {
                        j
                    } else {
                        j - 1
                    };
                    if i == at {
                        assert(after[j] == touched[b]);
                        if b > at {
                            lemma_row_order_transitive(row, touched[at as int], touched[b]);
                        }
                    } else if j == at {
                        assert(after[i] == touched[a]);
                    } else {
                        assert(after[i] == touched[a]);
                        assert(after[j] == touched[b]);
                    }
                }
            }
        }
        self.changes = changes;
        proof {
            let now = self.changes@;
            let after = changed_rows(now);
            lemma_place(now, at as int);
            assert forall|other: Row| other != row implies (#[trigger] after.contains(other))
                == touched.contains(other) && (touched.contains(other) ==> now[place_of(now, other)].1
                == old_changes[place_of(old_changes, other)].1) by {
                if touched.contains(other) {
                    let i = choose|i: int| 0 <= i < touched.len() && touched[i] == other;
                    let j = if found || i < at {
                        i
                    } else {
                        i + 1
                    };
                    assert(now[j] == old_changes[i]);
                    assert(old_changes[i].0@ == other);
                    lemma_place(now, j);
                    lemma_place(old_changes, i);
                }
                if after.contains(other) {
                    let j = choose|j: int| 0 <= j < after.len() && after[j] == other;
                    assert(j != at);
                    let i = if found || j < at {
                        j
                    } else {
                        j - 1
                    };
                    assert(now[j] == old_changes[i]);
                    assert(touched[i] == other);
                }
            }
            assert(self@ =~= before@.insert(row, kind));
        }
    }

    /// The rows that were written in one way and agree with the bindings, in order.
    pub fn matching(&self, kind: RelationMutationKind, bindings: &[Option<Value>]) -> (found: Vec<
        Tuple,
    >)
        ensures
            lists(rows(found@), matching(written(self@, kind), option_views(bindings@))),
    {
        proof {
            use_type_invariant(self);
        }
        let ghost bound = option_views(bindings@);
        let ghost touched = changed_rows(self.changes@);
        let mut found: Vec<Tuple> = Vec::new();
        let mut i: usize = 0;
        while i < self.changes.len()
            invariant
                i <= self.changes@.len(),
                bound == option_views(bindings@),
                touched == changed_rows(self.changes@),
                increasing(touched),
                increasing(rows(found@)),
                forall|j: int, k: int|
                    0 <= j < found@.len() && i <= k < touched.len() ==> row_less(
                        rows(found@)[j],
                        #[trigger] touched[k],
                    ) && (#[trigger] found@[j])@ == rows(found@)[j],
                forall|row: Row| #[trigger]
                    rows(found@).contains(row) ==> exists|k: int|
                        0 <= k < i && #[trigger] touched[k] == row && self.changes@[k].1 == kind
                            && row_matches(row, bound),
                forall|k: int|
                    0 <= k < i && self.changes@[k].1 == kind && row_matches(
                        #[trigger] touched[k],
                        bound,
                    ) ==> rows(found@).contains(touched[k]),
            decreases self.changes@.len() - i,
        {
            assert(touched[i as int] == self.changes@[i as int].0@);
            let ghost before = rows(found@);
            if self.changes[i].1 == kind && self.changes[i].0.matches_bindings(bindings) {
                let ghost row = self.changes@[i as int].0@;
                proof {
                    assert forall|j: int| 0 <= j < before.len() implies row_less(
                        #[trigger] before[j],
                        row,
                    ) by {
                        assert(found@[j]@ == before[j]);
                    }
                }
                found.push(self.changes[i].0.clone());
                proof {
                    let after = rows(found@);
                    assert(after =~= before.push(row));
                    crate::kernel::algebra::lemma_push_increasing(before, row);
                    assert forall|other: Row| #[trigger] after.contains(other) implies exists|k: int|
                        0 <= k < i + 1 && #[trigger] touched[k] == other && self.changes@[k].1 == kind
                            && row_matches(other, bound) by {
                        if other == row {
                            assert(touched[i as int] == other);
                        } else {
                            let m = choose|m: int| 0 <= m < after.len() && after[m] == other;
                            assert(before[m] == other);
                            assert(before.contains(other));
                        }
                    }
                    assert(after[before.len() as int] == row);
                    assert forall|k: int|
                        0 <= k < i + 1 && self.changes@[k].1 == kind && row_matches(
                            #[trigger] touched[k],
                            bound,
                        ) implies after.contains(touched[k]) by {
                        if k < i {
                            let m = choose|m: int| 0 <= m < before.len() && before[m] == touched[k];
                            assert(after[m] == touched[k]);
                        }
                    }
                }
            }
            proof {
                assert forall|j: int, k: int|
                    0 <= j < found@.len() && i + 1 <= k < touched.len() implies row_less(
                    rows(found@)[j],
                    #[trigger] touched[k],
                ) && (#[trigger] found@[j])@ == rows(found@)[j] by {
                    if j < before.len() {
                        assert(rows(found@)[j] == before[j]);
                    } else {
                        assert(row_less(touched[i as int], touched[k]));
                    }
                }
            }
            i = i + 1;
        }
        proof {
            let expected = matching(written(self@, kind), bound);
            assert forall|row: Row| rows(found@).to_set().contains(row) == expected.contains(row) by {
                if rows(found@).contains(row) {
                    let k = choose|k: int|
                        0 <= k < i && #[trigger] touched[k] == row && self.changes@[k].1 == kind
                            && row_matches(row, bound);
                    lemma_place(self.changes@, k);
                }
                if expected.contains(row) {
                    let k = choose|k: int| 0 <= k < touched.len() && touched[k] == row;
                    lemma_place(self.changes@, k);
                    assert(self.changes@[k].1 == kind);
                    assert(row_matches(touched[k], bound));
                }
            }
            assert(rows(found@).to_set() =~= expected);
        }
        found
    }
}

/// Whether changes are writes, in the order of their rows.
pub open spec fn lists_writes(
    changes: Seq<RowChange>,
    writes: Map<Row, RelationMutationKind>,
) -> bool {
    &&& increasing(changes.map_values(|change: RowChange| change.row))
    &&& changes.map_values(|change: RowChange| change.row).to_set() == writes.dom()
    &&& forall|i: int|
        0 <= i < changes.len() ==> writes.contains_key((#[trigger] changes[i]).row)
            && writes[changes[i].row] == changes[i].kind
}

/// Laying writes over rows is taking the retracted ones away and adding the asserted ones.
pub proof fn lemma_overlaid_matching(
    base: Set<Row>,
    writes: Map<Row, RelationMutationKind>,
    bound: Seq<Option<ValueView>>,
)
    ensures
        matching(overlaid(base, writes), bound) == matching(base, bound).union(
            matching(written(writes, RelationMutationKind::Assert), bound),
        ).difference(matching(written(writes, RelationMutationKind::Retract), bound)),
{
    assert(matching(overlaid(base, writes), bound) =~= matching(base, bound).union(
        matching(written(writes, RelationMutationKind::Assert), bound),
    ).difference(matching(written(writes, RelationMutationKind::Retract), bound)));
}

} // verus!
