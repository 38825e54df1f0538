//! Changes to rows, in the order of relations and rows.

use crate::bytes::Standing;
use crate::kernel::algebra::Row;
use crate::kernel::commit::{fact_change_views, FactChange, FactChangeKind, FactChangeView};
use crate::kernel::read::{fact_less, facts_increase};
use crate::tuple::{lemma_row_order_total, lemma_row_order_transitive};
use vstd::prelude::*;

verus! {

/// The rows that changes are of.
pub open spec fn change_facts(changes: Seq<FactChangeView>) -> Seq<(u64, Row)> {
    changes.map_values(|change: FactChangeView| (change.relation, change.row))
}

/// Whether changes tell what became of each of some rows, by relation and row, and each row
/// once.
pub open spec fn lists_changes(
    changes: Seq<FactChangeView>,
    kinds: Map<(u64, Row), FactChangeKind>,
) -> bool {
    &&& facts_increase(change_facts(changes))
    &&& change_facts(changes).to_set() == kinds.dom()
    &&& forall|i: int|
        0 <= i < changes.len() ==> kinds.contains_key(
            ((#[trigger] changes[i]).relation, changes[i].row),
        ) && kinds[(changes[i].relation, changes[i].row)] == changes[i].kind
}

/// What became of each row in the end.
pub open spec fn last_kinds(changes: Seq<FactChangeView>) -> Map<(u64, Row), FactChangeKind>
    decreases changes.len(),
{
    if changes.len() == 0 {
        Map::empty()
    } else {
        last_kinds(changes.drop_last()).insert(
            (changes.last().relation, changes.last().row),
            changes.last().kind,
        )
    }
}

/// The order of two rows of relations.
pub fn compare_facts(a: &FactChange, b: &FactChange) -> (result: Standing)
    ensures
        match result {
            Standing::Before => fact_less((a@.relation, a@.row), (b@.relation, b@.row)),
            Standing::Same => a@.relation == b@.relation && a@.row == b@.row,
            Standing::After => fact_less((b@.relation, b@.row), (a@.relation, a@.row)),
        },
{
    let first: u64 = a.relation.raw();
    let second: u64 = b.relation.raw();
    proof {
        lemma_row_order_total(a@.row, b@.row);
    }
    if first < second {
        Standing::Before
    } else if first > second {
        Standing::After
    } else {
        a.tuple.compare(&b.tuple)
    }
}

proof fn lemma_fact_order_transitive(a: (u64, Row), b: (u64, Row), c: (u64, Row))
    requires
        fact_less(a, b),
        fact_less(b, c),
    ensures
        fact_less(a, c),
{
    if a.0 == b.0 && b.0 == c.0 {
        lemma_row_order_transitive(a.1, b.1, c.1);
    }
}

proof fn lemma_fact_order_strict(a: (u64, Row))
    ensures
        !fact_less(a, a),
{
    lemma_row_order_total(a.1, a.1);
}

/// Every row that became something is told of.
pub proof fn lemma_listing_found(
    changes: Seq<FactChangeView>,
    kinds: Map<(u64, Row), FactChangeKind>,
    fact: (u64, Row),
) -> (place: int)
    requires
        lists_changes(changes, kinds),
        kinds.contains_key(fact),
    ensures
        0 <= place < changes.len(),
        changes[place] == (FactChangeView { relation: fact.0, row: fact.1, kind: kinds[fact] }),
{
    assert(change_facts(changes).to_set().contains(fact));
    let place = choose|i: int| 0 <= i < changes.len() && change_facts(changes)[i] == fact;
    assert(change_facts(changes)[place] == fact);
    place
}

/// Two listings of the same changes are the same.
pub proof fn lemma_listing_unique(
    a: Seq<FactChangeView>,
    b: Seq<FactChangeView>,
    kinds: Map<(u64, Row), FactChangeKind>,
)
    requires
        lists_changes(a, kinds),
        lists_changes(b, kinds),
    ensures
        a == b,
    decreases a.len(),
{
    if a.len() == 0 {
        if b.len() > 0 {
            let fact = (b[0].relation, b[0].row);
            let place = lemma_listing_found(a, kinds, fact);
        }
        assert(a =~= b);
    } else if b.len() == 0 {
        let fact = (a[0].relation, a[0].row);
        let place = lemma_listing_found(b, kinds, fact);
    } else {
        let x = a.last();
        let y = b.last();
        let p = lemma_listing_found(b, kinds, (x.relation, x.row));
        let q = lemma_listing_found(a, kinds, (y.relation, y.row));
        let fa = change_facts(a);
        let fb = change_facts(b);
        if p < b.len() - 1 {
            assert(fact_less(fb[p], fb[b.len() - 1]));
            if q < a.len() - 1 {
                assert(fact_less(fa[q], fa[a.len() - 1]));
                lemma_fact_order_transitive(fb[p], fb[b.len() - 1], fb[p]);
                lemma_fact_order_strict(fb[p]);
            } else {
                lemma_fact_order_strict(fb[p]);
            }
        }
        assert(x == y);
        let rest = kinds.remove((x.relation, x.row));
        lemma_listing_shorter(a, kinds);
        lemma_listing_shorter(b, kinds);
        lemma_listing_unique(a.drop_last(), b.drop_last(), rest);
        assert(a =~= a.drop_last().push(x));
        assert(b =~= b.drop_last().push(y));
    }
}

/// Without its last change, a listing tells of the other rows.
pub proof fn lemma_listing_shorter(
    changes: Seq<FactChangeView>,
    kinds: Map<(u64, Row), FactChangeKind>,
)
    requires
        lists_changes(changes, kinds),
        changes.len() > 0,
    ensures
        lists_changes(
            changes.drop_last(),
            kinds.remove((changes.last().relation, changes.last().row)),
        ),
{
    let less = changes.drop_last();
    let last = (changes.last().relation, changes.last().row);
    let facts = change_facts(changes);
    let fewer = change_facts(less);
    assert(fewer =~= facts.drop_last());
    assert(facts[changes.len() - 1] == last);
    assert forall|fact: (u64, Row)| fewer.to_set().contains(fact) == kinds.remove(
        last,
    ).dom().contains(fact) by {
        lemma_fact_order_strict(last);
        if fewer.contains(fact) {
            let i = choose|i: int| 0 <= i < fewer.len() && fewer[i] == fact;
            assert(facts[i] == fact);
            assert(fact_less(facts[i], facts[changes.len() - 1]));
            assert(facts.to_set().contains(fact));
        }
        if kinds.contains_key(fact) && fact != last {
            let i = lemma_listing_found(changes, kinds, fact);
            assert(i < less.len());
            assert(fewer[i] == fact);
        }
    }
    assert(fewer.to_set() =~= kinds.remove(last).dom());
    assert forall|i: int| 0 <= i < less.len() implies kinds.remove(last).contains_key(
        ((#[trigger] less[i]).relation, less[i].row),
    ) && kinds.remove(last)[(less[i].relation, less[i].row)] == less[i].kind by {
        assert(less[i] == changes[i]);
        assert(fact_less(facts[i], facts[changes.len() - 1]));
        lemma_fact_order_strict(last);
    }
}

/// Records what became of a row, in place of what was recorded of it before.
pub(crate) fn place_change(
    changes: &mut Vec<FactChange>,
    change: FactChange,
    Ghost(kinds): Ghost<Map<(u64, Row), FactChangeKind>>,
)
    requires
        lists_changes(fact_change_views(old(changes)@), kinds),
    ensures
        lists_changes(
            fact_change_views(final(changes)@),
            kinds.insert((change@.relation, change@.row), change@.kind),
        ),
{
    let ghost before = changes@;
    let ghost views = fact_change_views(before);
    let ghost facts = change_facts(views);
    let ghost fact = (change@.relation, change@.row);
    let ghost added = change@;
    let mut at: usize = changes.len();
    let mut found: bool = false;
    while at > 0
        invariant_except_break
            !found,
            forall|j: int| at <= j < facts.len() ==> fact_less(fact, #[trigger] facts[j]),
        invariant
            at <= changes@.len(),
            changes@ == before,
            views == fact_change_views(before),
            facts == change_facts(views),
            facts_increase(facts),
            fact == (change@.relation, change@.row),
        ensures
            found ==> at < changes@.len() && facts[at as int] == fact,
            !found ==> forall|j: int| 0 <= j < at ==> fact_less(#[trigger] facts[j], fact),
            !found ==> forall|j: int| at <= j < facts.len() ==> fact_less(fact, #[trigger] facts[j]),
        decreases at,
    {
        assert(facts[at - 1] == (before[at - 1]@.relation, before[at - 1]@.row));
        match compare_facts(&changes[at - 1], &change) {
            Standing::Before => {
                proof {
                    assert forall|j: int| 0 <= j < at implies fact_less(
                        #[trigger] facts[j],
                        fact,
                    ) by {
                        if j < at - 1 {
                            assert(fact_less(facts[j], facts[at - 1]));
                            lemma_fact_order_transitive(facts[j], facts[at - 1], fact);
                        }
                    }
                }
                break;
            },
            Standing::Same => {
                at = at - 1;
                found = true;
                break;
            },
            Standing::After => {
                at = at - 1;
            },
        }
    }
    if found {
        changes.set(at, change);
        proof {
            assert(change_facts(fact_change_views(changes@)) =~= facts);
        }
    } else {
        changes.insert(at, change);
        proof {
            assert(change_facts(fact_change_views(changes@)) =~= facts.insert(at as int, fact));
        }
    }
    proof {
        let now = fact_change_views(changes@);
        let after = change_facts(now);
        let result = kinds.insert(fact, added.kind);
        assert(now[at as int] == added);
        assert forall|i: int, j: int| 0 <= i < j < after.len() implies fact_less(
            #[trigger] after[i],
            #[trigger] after[j],
        ) by {
            if !found {
                let a = if i < at {
                    i
                } else {
                    i - 1
                };
                let b = if j < at {
                    j
                } else {
                    j - 1
                };
                if i == at {
                    assert(after[j] == facts[b]);
                } else if j == at {
                    assert(after[i] == facts[a]);
                } else {
                    assert(after[i] == facts[a]);
                    assert(after[j] == facts[b]);
                }
            } else {
                assert(after[i] == facts[i]);
                assert(after[j] == facts[j]);
            }
        }
        assert forall|other: (u64, Row)| after.to_set().contains(other)
            == result.dom().contains(other) by {
            if after.contains(other) {
                let j = choose|j: int| 0 <= j < after.len() && after[j] == other;
                if j != at {
                    let i = if found || j < at {
                        j
                    } else {
                        j - 1
                    };
                    assert(facts[i] == other);
                    assert(facts.to_set().contains(other));
                }
            }
            if other == fact {
                assert(after[at as int] == fact);
            } else if kinds.contains_key(other) {
                let i = lemma_listing_found(views, kinds, other);
                assert(facts[i] == other);
                let j = if found || i < at {
                    i
                } else {
                    i + 1
                };
                assert(after[j] == other);
            }
        }
        assert(after.to_set() =~= result.dom());
        assert forall|j: int| 0 <= j < now.len() implies result.contains_key(
            ((#[trigger] now[j]).relation, now[j].row),
        ) && result[(now[j].relation, now[j].row)] == now[j].kind by {
            if j != at {
                let i = if found || j < at {
                    j
                } else {
                    j - 1
                };
                assert(now[j] == views[i]);
                lemma_fact_order_strict(fact);
                if (now[j].relation, now[j].row) == fact {
                    assert(facts[i] == fact);
                    if found {
                        if i < at {
                            assert(fact_less(facts[i], facts[at as int]));
                        } else {
                            assert(fact_less(facts[at as int], facts[i]));
                        }
                    }
                }
            }
        }
    }
}

/// Merges changes: sorted by relation and row, with what became of each row last.
pub fn merge_fact_changes(changes: Vec<FactChange>, additional: &[FactChange]) -> (merged: Vec<
    FactChange,
>)
    ensures
        lists_changes(
            fact_change_views(merged@),
            last_kinds(fact_change_views(changes@) + fact_change_views(additional@)),
        ),
{
    let mut merged: Vec<FactChange> = Vec::new();
    let ghost first = fact_change_views(changes@);
    let ghost second = fact_change_views(additional@);
    let ghost all = first + second;
    let mut i: usize = 0;
    proof {
        assert(all.take(0) =~= Seq::empty());
        assert(change_facts(fact_change_views(merged@)).to_set() =~= Set::empty());
    }
    while i < changes.len()
        invariant
            i <= changes@.len(),
            first == fact_change_views(changes@),
            all == first + second,
            lists_changes(fact_change_views(merged@), last_kinds(all.take(i as int))),
        decreases changes@.len() - i,
    {
        proof {
            assert(all.take(i + 1).drop_last() =~= all.take(i as int));
            assert(all.take(i + 1).last() == changes@[i as int]@);
        }
        place_change(&mut merged, changes[i].clone(), Ghost(last_kinds(all.take(i as int))));
        i = i + 1;
    }
    let mut j: usize = 0;
    while j < additional.len()
        invariant
            j <= additional@.len(),
            first == fact_change_views(changes@),
            second == fact_change_views(additional@),
            all == first + second,
            lists_changes(
                fact_change_views(merged@),
                last_kinds(all.take(changes@.len() as int + j as int)),
            ),
        decreases additional@.len() - j,
    {
        let ghost n = changes@.len() as int + j as int;
        proof {
            assert(all.take(n + 1).drop_last() =~= all.take(n));
            assert(all.take(n + 1).last() == additional@[j as int]@);
        }
        place_change(&mut merged, additional[j].clone(), Ghost(last_kinds(all.take(n))));
        j = j + 1;
    }
    assert(all.take(changes@.len() as int + j as int) =~= all);
    merged
}

/// Merging with nothing leaves changes that are in order, and tell of each row once, as they
/// are.
pub proof fn law_merging_nothing_changes_nothing(
    changes: Seq<FactChangeView>,
    merged: Seq<FactChangeView>,
    kinds: Map<(u64, Row), FactChangeKind>,
)
    requires
        lists_changes(changes, kinds),
        lists_changes(merged, last_kinds(changes)),
    ensures
        merged == changes,
{
    lemma_last_kinds(changes, kinds);
    lemma_listing_unique(changes, merged, kinds);
}

/// One more change, of a row that comes after the others, makes a longer listing.
proof fn lemma_listing_longer(
    changes: Seq<FactChangeView>,
    kinds: Map<(u64, Row), FactChangeKind>,
    change: FactChangeView,
)
    requires
        lists_changes(changes, kinds),
        forall|fact: (u64, Row)| #[trigger]
            kinds.contains_key(fact) ==> fact_less(fact, (change.relation, change.row)),
    ensures
        lists_changes(
            changes.push(change),
            kinds.insert((change.relation, change.row), change.kind),
        ),
{
    let last = (change.relation, change.row);
    let more = changes.push(change);
    let facts = change_facts(changes);
    lemma_fact_order_strict(last);
    assert(change_facts(more) =~= facts.push(last));
    assert forall|i: int, j: int| 0 <= i < j < change_facts(more).len() implies fact_less(
        #[trigger] change_facts(more)[i],
        #[trigger] change_facts(more)[j],
    ) by {
        assert(facts[i] == (changes[i].relation, changes[i].row));
        if j == changes.len() {
            assert(kinds.contains_key(facts[i]));
        } else {
            assert(fact_less(facts[i], facts[j]));
        }
    }
    assert forall|fact: (u64, Row)| change_facts(more).to_set().contains(fact)
        == kinds.insert(last, change.kind).dom().contains(fact) by {
        if kinds.contains_key(fact) {
            let i = lemma_listing_found(changes, kinds, fact);
            assert(change_facts(more)[i] == fact);
        }
        if fact == last {
            assert(change_facts(more)[changes.len() as int] == last);
        }
        if change_facts(more).contains(fact) {
            let i = choose|i: int| 0 <= i < more.len() && change_facts(more)[i] == fact;
            if i < changes.len() {
                assert(kinds.contains_key((changes[i].relation, changes[i].row)));
            }
        }
    }
    assert(change_facts(more).to_set() =~= kinds.insert(last, change.kind).dom());
}

/// The listing of changes with one more, which takes the place of a change of the same row.
proof fn lemma_listing_with(
    changes: Seq<FactChangeView>,
    kinds: Map<(u64, Row), FactChangeKind>,
    change: FactChangeView,
) -> (all: Seq<FactChangeView>)
    requires
        lists_changes(changes, kinds),
    ensures
        lists_changes(all, kinds.insert((change.relation, change.row), change.kind)),
    decreases changes.len(),
{
    let fact = (change.relation, change.row);
    if changes.len() == 0 {
        assert forall|other: (u64, Row)| #[trigger]
            kinds.contains_key(other) implies fact_less(other, fact) by {
            let i = lemma_listing_found(changes, kinds, other);
        }
        lemma_listing_longer(changes, kinds, change);
        changes.push(change)
    } else {
        let last = changes.last();
        let place = (last.relation, last.row);
        let rest = kinds.remove(place);
        lemma_listing_shorter(changes, kinds);
        lemma_row_order_total(change.row, last.row);
        assert(changes[changes.len() - 1] == last);
        assert forall|other: (u64, Row)| #[trigger] rest.contains_key(other) implies fact_less(
            other,
            place,
        ) by {
            let i = lemma_listing_found(changes, kinds, other);
            assert(change_facts(changes)[i] == other);
            assert(change_facts(changes)[changes.len() - 1] == place);
        }
        if fact == place {
            lemma_listing_longer(changes.drop_last(), rest, change);
            assert(rest.insert(fact, change.kind) =~= kinds.insert(fact, change.kind));
            changes.drop_last().push(change)
        } else if fact_less(place, fact) {
            assert forall|other: (u64, Row)| #[trigger]
                kinds.contains_key(other) implies fact_less(other, fact) by {
                if other != place {
                    assert(rest.contains_key(other));
                    lemma_fact_order_transitive(other, place, fact);
                }
            }
            lemma_listing_longer(changes, kinds, change);
            changes.push(change)
        } else {
            assert(fact_less(fact, place));
            let before = lemma_listing_with(changes.drop_last(), rest, change);
            lemma_listing_longer(before, rest.insert(fact, change.kind), last);
            assert(rest.insert(fact, change.kind).insert(place, last.kind) =~= kinds.insert(
                fact,
                change.kind,
            ));
            before.push(last)
        }
    }
}

/// What became of each row in the end can be listed.
pub proof fn lemma_last_kinds_listed(changes: Seq<FactChangeView>) -> (all: Seq<FactChangeView>)
    ensures
        lists_changes(all, last_kinds(changes)),
    decreases changes.len(),
{
    if changes.len() == 0 {
        let none = Seq::<FactChangeView>::empty();
        assert(change_facts(none).to_set() =~= last_kinds(changes).dom());
        none
    } else {
        let before = lemma_last_kinds_listed(changes.drop_last());
        lemma_listing_with(before, last_kinds(changes.drop_last()), changes.last())
    }
}

/// The rows that became something are those that changes are of.
pub proof fn lemma_last_kinds_of(changes: Seq<FactChangeView>, fact: (u64, Row))
    ensures
        last_kinds(changes).contains_key(fact) == change_facts(changes).contains(fact),
    decreases changes.len(),
{
    if changes.len() > 0 {
        let less = changes.drop_last();
        lemma_last_kinds_of(less, fact);
        assert(change_facts(less) =~= change_facts(changes).drop_last());
        assert(change_facts(changes)[changes.len() - 1] == (
            changes.last().relation,
            changes.last().row,
        ));
        if change_facts(changes).contains(fact) {
            let i = choose|i: int| 0 <= i < changes.len() && change_facts(changes)[i] == fact;
            if i < less.len() {
                assert(change_facts(less)[i] == fact);
            }
        }
        if change_facts(less).contains(fact) {
            let i = choose|i: int| 0 <= i < less.len() && change_facts(less)[i] == fact;
            assert(change_facts(changes)[i] == fact);
        }
    }
}

proof fn lemma_last_kinds(changes: Seq<FactChangeView>, kinds: Map<(u64, Row), FactChangeKind>)
    requires
        lists_changes(changes, kinds),
    ensures
        last_kinds(changes) == kinds,
    decreases changes.len(),
{
    if changes.len() == 0 {
        assert forall|fact: (u64, Row)| !kinds.contains_key(fact) by {
            if kinds.contains_key(fact) {
                let i = lemma_listing_found(changes, kinds, fact);
            }
        }
        assert(last_kinds(changes) =~= kinds);
    } else {
        let last = (changes.last().relation, changes.last().row);
        lemma_listing_shorter(changes, kinds);
        lemma_last_kinds(changes.drop_last(), kinds.remove(last));
        assert(changes[changes.len() - 1] == changes.last());
        assert(kinds.remove(last).insert(last, changes.last().kind) =~= kinds);
    }
}

} // verus!
