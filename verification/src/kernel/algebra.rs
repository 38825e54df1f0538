//! Operations on rows that stand in order.

use crate::bytes::Standing;
use crate::tuple::{increasing, lemma_row_order_total, lemma_row_order_transitive, project,
    row_less, row_matches, rows, Tuple};
use crate::value::{option_views, Value, ValueView};
use vstd::prelude::*;

verus! {

/// A row as its values.
pub type Row = Seq<ValueView>;

/// Whether rows list a set of rows: each once, in increasing order.
pub open spec fn lists(listed: Seq<Row>, set: Set<Row>) -> bool {
    increasing(listed) && listed.to_set() == set
}

/// Whether every row comes before `bound`.
pub open spec fn all_before(listed: Seq<Row>, bound: Row) -> bool {
    forall|i: int| 0 <= i < listed.len() ==> row_less(#[trigger] listed[i], bound)
}

/// The rows of a set that match bindings.
pub open spec fn matching(set: Set<Row>, bindings: Seq<Option<ValueView>>) -> Set<Row> {
    set.filter(|row: Row| row_matches(row, bindings))
}

/// A set of rows is listed in one way only.
pub proof fn law_listing_is_unique(a: Seq<Row>, b: Seq<Row>, set: Set<Row>)
    requires
        lists(a, set),
        lists(b, set),
    ensures
        a == b,
    decreases a.len(),
{
    if a.len() == 0 {
        if b.len() > 0 {
            assert(b.to_set().contains(b[0]));
            assert(a.to_set().contains(b[0]));
        }
        assert(a =~= b);
    } else {
        assert(a.to_set().contains(a.last()));
        assert(b.contains(a.last()));
        let i = choose|i: int| 0 <= i < b.len() && b[i] == a.last();
        assert(b.to_set().contains(b.last()));
        assert(a.contains(b.last()));
        let j = choose|j: int| 0 <= j < a.len() && a[j] == b.last();
        lemma_row_order_total(a.last(), b.last());
        lemma_row_order_total(b.last(), a.last());
        assert(a.last() == b.last());
        let rest = set.remove(a.last());
        lemma_lists_drop_last(a, set);
        lemma_lists_drop_last(b, set);
        law_listing_is_unique(a.drop_last(), b.drop_last(), rest);
        assert(a =~= a.drop_last().push(a.last()));
        assert(b =~= b.drop_last().push(b.last()));
    }
}

proof fn lemma_lists_drop_last(a: Seq<Row>, set: Set<Row>)
    requires
        lists(a, set),
        a.len() > 0,
    ensures
        lists(a.drop_last(), set.remove(a.last())),
{
    let rest = a.drop_last();
    assert forall|r: Row| #[trigger] rest.to_set().contains(r) <==> set.remove(a.last()).contains(
        r,
    ) by {
        if rest.contains(r) {
            let i = choose|i: int| 0 <= i < rest.len() && rest[i] == r;
            assert(a[i] == r);
            lemma_row_order_total(a[i], a.last());
        }
        if set.contains(r) && r != a.last() {
            assert(a.contains(r));
            let i = choose|i: int| 0 <= i < a.len() && a[i] == r;
            assert(rest[i] == r);
        }
    }
    assert(rest.to_set() =~= set.remove(a.last()));
}

/// Rows in increasing order are different.
pub proof fn lemma_increasing_distinct(listed: Seq<Row>)
    requires
        increasing(listed),
    ensures
        listed.no_duplicates(),
        listed.to_set().finite(),
        listed.to_set().len() == listed.len(),
{
    assert forall|i: int, j: int| 0 <= i < j < listed.len() implies listed[i] != listed[j] by {
        lemma_row_order_total(listed[i], listed[j]);
    }
    listed.unique_seq_to_set();
}

/// What a sequence with one more element holds.
pub proof fn lemma_to_set_push<A>(s: Seq<A>, a: A)
    ensures
        s.push(a).to_set() == s.to_set().insert(a),
{
    crate::driver::facts::lemma_push_to_set(s, a);
}

/// Adding a row that comes after all others keeps the order.
pub proof fn lemma_push_increasing(listed: Seq<Row>, row: Row)
    requires
        increasing(listed),
        all_before(listed, row),
    ensures
        increasing(listed.push(row)),
{
}

/// Where a row stands, or would stand, among rows in increasing order.
fn find_row(tuples: &[Tuple], row: &Tuple) -> (found: (bool, usize))
    requires
        increasing(rows(tuples@)),
    ensures
        found.1 <= tuples@.len(),
        found.0 == rows(tuples@).contains(row@),
        found.0 ==> found.1 < tuples@.len() && tuples@[found.1 as int]@ == row@,
        all_before(rows(tuples@).take(found.1 as int), row@),
        !found.0 ==> forall|i: int|
            found.1 <= i < tuples@.len() ==> row_less(row@, #[trigger] tuples@[i]@),
{
    let ghost listed = rows(tuples@);
    let mut low: usize = 0;
    let mut high: usize = tuples.len();
    while low < high
        invariant
            low <= high <= tuples@.len(),
            listed == rows(tuples@),
            increasing(listed),
            forall|i: int| 0 <= i < low ==> row_less(#[trigger] listed[i], row@),
            forall|i: int| high <= i < listed.len() ==> row_less(row@, #[trigger] listed[i]),
        decreases high - low,
    {
        let middle: usize = low + (high - low) / 2;
        assert(listed[middle as int] == tuples@[middle as int]@);
        match tuples[middle].compare(row) {
            Standing::Before => {
                proof {
                    assert forall|i: int| 0 <= i < middle + 1 implies row_less(
                        #[trigger] listed[i],
                        row@,
                    ) by {
                        if i < middle {
                            lemma_row_order_transitive(listed[i], listed[middle as int], row@);
                        }
                    }
                }
                low = middle + 1;
            },
            Standing::Same => {
                return (true, middle);
            },
            Standing::After => {
                proof {
                    assert forall|i: int| middle <= i < listed.len() implies row_less(
                        row@,
                        #[trigger] listed[i],
                    ) by {
                        if i > middle {
                            lemma_row_order_transitive(row@, listed[middle as int], listed[i]);
                        }
                    }
                }
                high = middle;
            },
        }
    }
    proof {
        if listed.contains(row@) {
            let i = choose|i: int| 0 <= i < listed.len() && listed[i] == row@;
            lemma_row_order_total(listed[i], row@);
        }
        assert forall|i: int| low <= i < tuples@.len() implies row_less(
            row@,
            #[trigger] tuples@[i]@,
        ) by {
            assert(listed[i] == tuples@[i]@);
        }
    }
    (false, low)
}

/// Whether a row is among rows in increasing order.
pub fn contains_row(tuples: &[Tuple], row: &Tuple) -> (result: bool)
    requires
        increasing(rows(tuples@)),
    ensures
        result == rows(tuples@).to_set().contains(row@),
{
    find_row(tuples, row).0
}

/// Puts a row among rows in increasing order, and says whether it is new.
pub fn insert_row(tuples: &mut Vec<Tuple>, row: Tuple) -> (inserted: bool)
    requires
        increasing(rows(old(tuples)@)),
    ensures
        lists(rows(final(tuples)@), rows(old(tuples)@).to_set().insert(row@)),
        inserted == !rows(old(tuples)@).to_set().contains(row@),
        final(tuples)@.len() == old(tuples)@.len() + if inserted {
            1int
        } else {
            0int
        },
{
    let ghost before = rows(tuples@);
    let ghost new = row@;
    let (found, place) = find_row(tuples, &row);
    if found {
        assert(before.to_set() =~= before.to_set().insert(new));
        return false;
    }
    tuples.insert(place, row);
    proof {
        let after = rows(tuples@);
        assert(after =~= before.insert(place as int, new));
        assert forall|i: int, j: int| 0 <= i < j < after.len() implies row_less(
            #[trigger] after[i],
            #[trigger] after[j],
        ) by {
            if j == place {
                assert(before.take(place as int)[i] == before[i]);
            } else if i == place {
                assert(before[j - 1] == old(tuples)@[j - 1]@);
            } else {
                let p = if i < place { i } else { i - 1 };
                let q = if j < place { j } else { j - 1 };
                assert(before[p] == after[i]);
                assert(before[q] == after[j]);
            }
        }
        assert forall|r: Row| #[trigger] after.to_set().contains(r) <==> before.to_set().insert(
            new,
        ).contains(r) by {
            if after.contains(r) {
                let i = choose|i: int| 0 <= i < after.len() && after[i] == r;
                if i < place {
                    assert(before[i] == r);
                } else if i > place {
                    assert(before[i - 1] == r);
                }
            }
            if before.contains(r) {
                let i = choose|i: int| 0 <= i < before.len() && before[i] == r;
                if i < place {
                    assert(after[i] == r);
                } else {
                    assert(after[i + 1] == r);
                }
            }
            assert(after[place as int] == new);
        }
        assert(after.to_set() =~= before.to_set().insert(new));
    }
    true
}

/// Takes a row out of rows in increasing order, and says whether it was there.
pub fn remove_row(tuples: &mut Vec<Tuple>, row: &Tuple) -> (removed: bool)
    requires
        increasing(rows(old(tuples)@)),
    ensures
        lists(rows(final(tuples)@), rows(old(tuples)@).to_set().remove(row@)),
        removed == rows(old(tuples)@).to_set().contains(row@),
        final(tuples)@.len() == old(tuples)@.len() - if removed {
            1int
        } else {
            0int
        },
{
    let ghost before = rows(tuples@);
    let (found, place) = find_row(tuples, row);
    if !found {
        assert(before.to_set() =~= before.to_set().remove(row@));
        return false;
    }
    let _ = tuples.remove(place);
    proof {
        let after = rows(tuples@);
        assert(after =~= before.remove(place as int));
        assert forall|i: int, j: int| 0 <= i < j < after.len() implies row_less(
            #[trigger] after[i],
            #[trigger] after[j],
        ) by {
            let p = if i < place { i } else { i + 1 };
            let q = if j < place { j } else { j + 1 };
            assert(before[p] == after[i]);
            assert(before[q] == after[j]);
        }
        lemma_increasing_distinct(before);
        assert forall|r: Row| #[trigger] after.to_set().contains(r) <==> before.to_set().remove(
            row@,
        ).contains(r) by {
            if after.contains(r) {
                let i = choose|i: int| 0 <= i < after.len() && after[i] == r;
                let p = if i < place { i } else { i + 1 };
                assert(before[p] == r);
                assert(before[place as int] == row@);
            }
            if before.contains(r) && r != row@ {
                let i = choose|i: int| 0 <= i < before.len() && before[i] == r;
                let p = if i < place { i } else { i - 1 };
                assert(after[p] == r);
            }
        }
        assert(after.to_set() =~= before.to_set().remove(row@));
    }
    true
}

/// Rows in increasing order, each once.
pub fn finish_tuple_rows(tuples: Vec<Tuple>) -> (finished: Vec<Tuple>)
    ensures
        lists(rows(finished@), rows(tuples@).to_set()),
{
    let ghost all = rows(tuples@);
    let mut finished: Vec<Tuple> = Vec::new();
    let mut i: usize = 0;
    assert(rows(finished@).to_set() =~= all.take(0).to_set());
    while i < tuples.len()
        invariant
            i <= tuples@.len(),
            all == rows(tuples@),
            lists(rows(finished@), all.take(i as int).to_set()),
        decreases tuples@.len() - i,
    {
        let _ = insert_row(&mut finished, tuples[i].clone());
        proof {
            assert(all.take(i + 1) =~= all.take(i as int).push(all[i as int]));
            lemma_to_set_push(all.take(i as int), all[i as int]);
        }
        i = i + 1;
    }
    assert(all.take(i as int) =~= all);
    finished
}

/// The rows of either of two lists in increasing order.
pub fn union_ordered_tuple_rows(left: Vec<Tuple>, right: Vec<Tuple>) -> (union: Vec<Tuple>)
    requires
        increasing(rows(left@)),
        increasing(rows(right@)),
    ensures
        lists(rows(union@), rows(left@).to_set().union(rows(right@).to_set())),
{
    let ghost l = rows(left@);
    let ghost r = rows(right@);
    let mut union: Vec<Tuple> = Vec::new();
    let mut i: usize = 0;
    let mut j: usize = 0;
    assert(rows(union@).to_set() =~= l.take(0).to_set().union(r.take(0).to_set()));
    while i < left.len() || j < right.len()
        invariant
            i <= left@.len(),
            j <= right@.len(),
            l == rows(left@),
            r == rows(right@),
            increasing(l),
            increasing(r),
            lists(rows(union@), l.take(i as int).to_set().union(r.take(j as int).to_set())),
            i < l.len() ==> all_before(rows(union@), l[i as int]),
            j < r.len() ==> all_before(rows(union@), r[j as int]),
        decreases left@.len() - i + right@.len() - j,
    {
        let standing: Standing = if i >= left.len() {
            Standing::After
        } else if j >= right.len() {
            Standing::Before
        } else {
            left[i].compare(&right[j])
        };
        let ghost so_far = rows(union@);
        let ghost set = l.take(i as int).to_set().union(r.take(j as int).to_set());
        proof {
            if i < l.len() {
                assert(l.take(i + 1) =~= l.take(i as int).push(l[i as int]));
                lemma_to_set_push(l.take(i as int), l[i as int]);
            }
            if j < r.len() {
                assert(r.take(j + 1) =~= r.take(j as int).push(r[j as int]));
                lemma_to_set_push(r.take(j as int), r[j as int]);
            }
        }
        match standing {
            Standing::Before => {
                union.push(left[i].clone());
                proof {
                    let row = l[i as int];
                    assert(rows(union@) =~= so_far.push(row));
                    lemma_push_increasing(so_far, row);
                    lemma_to_set_push(so_far, row);
                    assert(set.insert(row) =~= l.take(i + 1).to_set().union(
                        r.take(j as int).to_set(),
                    ));
                    if i + 1 < l.len() {
                        lemma_all_before_next(so_far, row, l[i + 1]);
                    }
                    if j < r.len() {
                        lemma_all_before_next(so_far, row, r[j as int]);
                    }
                }
                i = i + 1;
            },
            Standing::Same => {
                union.push(left[i].clone());
                proof {
                    let row = l[i as int];
                    assert(rows(union@) =~= so_far.push(row));
                    lemma_push_increasing(so_far, row);
                    lemma_to_set_push(so_far, row);
                    assert(set.insert(row) =~= l.take(i + 1).to_set().union(
                        r.take(j + 1).to_set(),
                    ));
                    if i + 1 < l.len() {
                        lemma_all_before_next(so_far, row, l[i + 1]);
                    }
                    if j + 1 < r.len() {
                        assert(r[j as int] == row);
                        lemma_all_before_next(so_far, row, r[j + 1]);
                    }
                }
                i = i + 1;
                j = j + 1;
            },
            Standing::After => {
                union.push(right[j].clone());
                proof {
                    let row = r[j as int];
                    assert(rows(union@) =~= so_far.push(row));
                    lemma_push_increasing(so_far, row);
                    lemma_to_set_push(so_far, row);
                    assert(set.insert(row) =~= l.take(i as int).to_set().union(
                        r.take(j + 1).to_set(),
                    ));
                    if j + 1 < r.len() {
                        lemma_all_before_next(so_far, row, r[j + 1]);
                    }
                    if i < l.len() {
                        lemma_all_before_next(so_far, row, l[i as int]);
                    }
                }
                j = j + 1;
            },
        }
    }
    proof {
        assert(l.take(i as int) =~= l);
        assert(r.take(j as int) =~= r);
    }
    union
}

proof fn lemma_all_before_next(listed: Seq<Row>, row: Row, next: Row)
    requires
        all_before(listed, row),
        row_less(row, next),
    ensures
        all_before(listed.push(row), next),
{
    assert forall|i: int| 0 <= i < listed.push(row).len() implies row_less(
        #[trigger] listed.push(row)[i],
        next,
    ) by {
        if i < listed.len() {
            lemma_row_order_transitive(listed[i], row, next);
        }
    }
}

/// The rows of one list in increasing order that are not in another.
pub fn difference_ordered_tuple_rows(left: Vec<Tuple>, right: Vec<Tuple>) -> (rest: Vec<Tuple>)
    requires
        increasing(rows(left@)),
        increasing(rows(right@)),
    ensures
        lists(rows(rest@), rows(left@).to_set().difference(rows(right@).to_set())),
{
    let ghost l = rows(left@);
    let ghost gone = rows(right@).to_set();
    let mut rest: Vec<Tuple> = Vec::new();
    let mut i: usize = 0;
    assert(rows(rest@).to_set() =~= l.take(0).to_set().difference(gone));
    while i < left.len()
        invariant
            i <= left@.len(),
            l == rows(left@),
            gone == rows(right@).to_set(),
            increasing(l),
            increasing(rows(right@)),
            lists(rows(rest@), l.take(i as int).to_set().difference(gone)),
            i < l.len() ==> all_before(rows(rest@), l[i as int]),
        decreases left@.len() - i,
    {
        let ghost so_far = rows(rest@);
        let ghost row = l[i as int];
        proof {
            assert(l.take(i + 1) =~= l.take(i as int).push(row));
            lemma_to_set_push(l.take(i as int), row);
            assert(row == left@[i as int]@);
        }
        if contains_row(&right, &left[i]) {
            proof {
                assert(l.take(i + 1).to_set().difference(gone) =~= l.take(i as int).to_set().difference(
                    gone,
                ));
                if i + 1 < l.len() {
                    lemma_all_before_next(so_far, row, l[i + 1]);
                    assert(so_far.push(row).take(so_far.len() as int) =~= so_far);
                    assert forall|k: int| 0 <= k < so_far.len() implies row_less(
                        #[trigger] so_far[k],
                        l[i + 1],
                    ) by {
                        assert(so_far.push(row)[k] == so_far[k]);
                    }
                }
            }
        } else {
            rest.push(left[i].clone());
            proof {
                assert(rows(rest@) =~= so_far.push(row));
                lemma_push_increasing(so_far, row);
                lemma_to_set_push(so_far, row);
                assert(l.take(i + 1).to_set().difference(gone) =~= l.take(i as int).to_set().difference(
                    gone,
                ).insert(row));
                if i + 1 < l.len() {
                    lemma_all_before_next(so_far, row, l[i + 1]);
                }
            }
        }
        i = i + 1;
    }
    assert(l.take(i as int) =~= l);
    rest
}

/// The rows of a list in increasing order that match bindings.
pub fn matching_rows(tuples: &[Tuple], bindings: &[Option<Value>]) -> (found: Vec<Tuple>)
    requires
        increasing(rows(tuples@)),
    ensures
        lists(rows(found@), matching(rows(tuples@).to_set(), option_views(bindings@))),
{
    let ghost all = rows(tuples@);
    let ghost bound = option_views(bindings@);
    let mut found: Vec<Tuple> = Vec::new();
    let mut i: usize = 0;
    assert(rows(found@).to_set() =~= matching(all.take(0).to_set(), bound));
    while i < tuples.len()
        invariant
            i <= tuples@.len(),
            all == rows(tuples@),
            bound == option_views(bindings@),
            increasing(all),
            lists(rows(found@), matching(all.take(i as int).to_set(), bound)),
            forall|k: int, j: int|
                #![trigger rows(found@)[k], all[j]]
                0 <= k < found@.len() && i <= j < all.len() ==> row_less(rows(found@)[k], all[j]),
        decreases tuples@.len() - i,
    {
        let ghost so_far = rows(found@);
        let ghost row = all[i as int];
        proof {
            assert(all.take(i + 1) =~= all.take(i as int).push(row));
            lemma_to_set_push(all.take(i as int), row);
            assert(row == tuples@[i as int]@);
        }
        if tuples[i].matches_bindings(bindings) {
            found.push(tuples[i].clone());
            proof {
                assert(rows(found@) =~= so_far.push(row));
                lemma_push_increasing(so_far, row);
                lemma_to_set_push(so_far, row);
                assert(matching(all.take(i + 1).to_set(), bound) =~= matching(
                    all.take(i as int).to_set(),
                    bound,
                ).insert(row));
            }
        } else {
            assert(matching(all.take(i + 1).to_set(), bound) =~= matching(
                all.take(i as int).to_set(),
                bound,
            ));
        }
        i = i + 1;
    }
    assert(all.take(i as int) =~= all);
    found
}

/// Whether positions are all columns of a row.
pub open spec fn within(positions: Seq<u16>, arity: nat) -> bool {
    forall|i: int| 0 <= i < positions.len() ==> (#[trigger] positions[i]) < arity
}

/// Whether every row of a set has the given number of values.
pub open spec fn of_arity(set: Set<Row>, arity: nat) -> bool {
    forall|row: Row| #[trigger] set.contains(row) ==> row.len() == arity
}

/// The joined rows of two sets whose values agree at the given positions.
pub open spec fn joined_rows(
    left: Set<Row>,
    right: Set<Row>,
    left_positions: Seq<u16>,
    right_positions: Seq<u16>,
) -> Set<Row> {
    Set::new(
        |row: Row|
            exists|a: Row, b: Row|
                #![trigger left.contains(a), right.contains(b)]
                left.contains(a) && right.contains(b) && project(a, left_positions) == project(
                    b,
                    right_positions,
                ) && row == a + b,
    )
}

/// Joins rows whose values agree at the given positions.
pub fn equality_join_tuple_rows(
    left: &[Tuple],
    right: &[Tuple],
    left_positions: &[u16],
    right_positions: &[u16],
) -> (joined: Vec<Tuple>)
    requires
        forall|i: int|
            0 <= i < left@.len() ==> within(left_positions@, (#[trigger] left@[i])@.len()),
        forall|i: int|
            0 <= i < right@.len() ==> within(right_positions@, (#[trigger] right@[i])@.len()),
    ensures
        lists(
            rows(joined@),
            joined_rows(
                rows(left@).to_set(),
                rows(right@).to_set(),
                left_positions@,
                right_positions@,
            ),
        ),
{
    let ghost l = rows(left@);
    let ghost r = rows(right@);
    let ghost lp = left_positions@;
    let ghost rp = right_positions@;
    let mut pairs: Vec<Tuple> = Vec::new();
    let mut i: usize = 0;
    assert(rows(pairs@).to_set() =~= joined_rows(l.take(0).to_set(), r.to_set(), lp, rp));
    while i < left.len()
        invariant
            i <= left@.len(),
            l == rows(left@),
            r == rows(right@),
            lp == left_positions@,
            rp == right_positions@,
            forall|k: int| 0 <= k < left@.len() ==> within(lp, (#[trigger] left@[k])@.len()),
            forall|k: int| 0 <= k < right@.len() ==> within(rp, (#[trigger] right@[k])@.len()),
            rows(pairs@).to_set() == joined_rows(l.take(i as int).to_set(), r.to_set(), lp, rp),
        decreases left@.len() - i,
    {
        let ghost before = rows(pairs@).to_set();
        let ghost row = l[i as int];
        assert(row == left@[i as int]@);
        assert(within(lp, left@[i as int]@.len()));
        let left_key = Tuple::new(left[i].project(left_positions));
        let mut j: usize = 0;
        assert(before =~= before.union(joined_rows(set![row], r.take(0).to_set(), lp, rp)));
        while j < right.len()
            invariant
                i < left@.len(),
                j <= right@.len(),
                r == rows(right@),
                rp == right_positions@,
                row == left@[i as int]@,
                left_key@ == project(row, lp),
                forall|k: int| 0 <= k < right@.len() ==> within(rp, (#[trigger] right@[k])@.len()),
                rows(pairs@).to_set() == before.union(
                    joined_rows(set![row], r.take(j as int).to_set(), lp, rp),
                ),
            decreases right@.len() - j,
        {
            let ghost other = r[j as int];
            let ghost now = rows(pairs@);
            assert(other == right@[j as int]@);
            assert(within(rp, right@[j as int]@.len()));
            let right_key = Tuple::new(right[j].project(right_positions));
            proof {
                assert(r.take(j + 1) =~= r.take(j as int).push(other));
                lemma_to_set_push(r.take(j as int), other);
            }
            if left_key.same(&right_key) {
                pairs.push(left[i].concat(&right[j]));
                proof {
                    assert(rows(pairs@) =~= now.push(row + other));
                    lemma_to_set_push(now, row + other);
                    lemma_join_right(set![row], r.take(j as int).to_set(), other, lp, rp);
                    assert(joined_rows(set![row], set![other], lp, rp) =~= set![row + other]) by {
                        assert(set![row].contains(row) && set![other].contains(other));
                    }
                }
            } else {
                proof {
                    lemma_join_right(set![row], r.take(j as int).to_set(), other, lp, rp);
                    assert(joined_rows(set![row], set![other], lp, rp) =~= Set::empty());
                }
            }
            assert(rows(pairs@).to_set() =~= before.union(
                joined_rows(set![row], r.take(j + 1).to_set(), lp, rp),
            ));
            j = j + 1;
        }
        proof {
            assert(r.take(j as int) =~= r);
            assert(l.take(i + 1) =~= l.take(i as int).push(row));
            lemma_to_set_push(l.take(i as int), row);
            lemma_join_left(l.take(i as int).to_set(), row, r.to_set(), lp, rp);
        }
        i = i + 1;
    }
    assert(l.take(i as int) =~= l);
    finish_tuple_rows(pairs)
}

proof fn lemma_join_right(
    left: Set<Row>,
    right: Set<Row>,
    more: Row,
    left_positions: Seq<u16>,
    right_positions: Seq<u16>,
)
    ensures
        joined_rows(left, right.insert(more), left_positions, right_positions) == joined_rows(
            left,
            right,
            left_positions,
            right_positions,
        ).union(joined_rows(left, set![more], left_positions, right_positions)),
{
    let whole = joined_rows(left, right.insert(more), left_positions, right_positions);
    let one = joined_rows(left, right, left_positions, right_positions);
    let two = joined_rows(left, set![more], left_positions, right_positions);
    assert forall|row: Row| whole.contains(row) == one.union(two).contains(row) by {
        if whole.contains(row) {
            let (a, b) = choose|a: Row, b: Row|
                #![trigger left.contains(a), right.insert(more).contains(b)]
                left.contains(a) && right.insert(more).contains(b) && project(a, left_positions)
                    == project(b, right_positions) && row == a + b;
            if b == more {
                assert(left.contains(a) && set![more].contains(b));
            } else {
                assert(left.contains(a) && right.contains(b));
            }
        }
        if one.contains(row) {
            let (a, b) = choose|a: Row, b: Row|
                #![trigger left.contains(a), right.contains(b)]
                left.contains(a) && right.contains(b) && project(a, left_positions) == project(
                    b,
                    right_positions,
                ) && row == a + b;
            assert(left.contains(a) && right.insert(more).contains(b));
        }
        if two.contains(row) {
            let (a, b) = choose|a: Row, b: Row|
                #![trigger left.contains(a), set![more].contains(b)]
                left.contains(a) && set![more].contains(b) && project(a, left_positions) == project(
                    b,
                    right_positions,
                ) && row == a + b;
            assert(left.contains(a) && right.insert(more).contains(b));
        }
    }
    assert(whole =~= one.union(two));
}

proof fn lemma_join_left(
    left: Set<Row>,
    more: Row,
    right: Set<Row>,
    left_positions: Seq<u16>,
    right_positions: Seq<u16>,
)
    ensures
        joined_rows(left.insert(more), right, left_positions, right_positions) == joined_rows(
            left,
            right,
            left_positions,
            right_positions,
        ).union(joined_rows(set![more], right, left_positions, right_positions)),
{
    let whole = joined_rows(left.insert(more), right, left_positions, right_positions);
    let one = joined_rows(left, right, left_positions, right_positions);
    let two = joined_rows(set![more], right, left_positions, right_positions);
    assert forall|row: Row| whole.contains(row) == one.union(two).contains(row) by {
        if whole.contains(row) {
            let (a, b) = choose|a: Row, b: Row|
                #![trigger left.insert(more).contains(a), right.contains(b)]
                left.insert(more).contains(a) && right.contains(b) && project(a, left_positions)
                    == project(b, right_positions) && row == a + b;
            if a == more {
                assert(set![more].contains(a) && right.contains(b));
            } else {
                assert(left.contains(a) && right.contains(b));
            }
        }
        if one.contains(row) {
            let (a, b) = choose|a: Row, b: Row|
                #![trigger left.contains(a), right.contains(b)]
                left.contains(a) && right.contains(b) && project(a, left_positions) == project(
                    b,
                    right_positions,
                ) && row == a + b;
            assert(left.insert(more).contains(a) && right.contains(b));
        }
        if two.contains(row) {
            let (a, b) = choose|a: Row, b: Row|
                #![trigger set![more].contains(a), right.contains(b)]
                set![more].contains(a) && right.contains(b) && project(a, left_positions)
                    == project(b, right_positions) && row == a + b;
            assert(left.insert(more).contains(a) && right.contains(b));
        }
    }
    assert(whole =~= one.union(two));
}

} // verus!
