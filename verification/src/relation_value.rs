//! Relations as values.

use crate::kernel::algebra::{finish_tuple_rows, law_listing_is_unique, lists, Row};
use crate::tuple::{rows, Tuple};
use crate::value::{copy_values, Symbol, Value, ValueView};
use vstd::prelude::*;

verus! {

/// The names of columns, as values.
pub open spec fn heading(names: Seq<Symbol>) -> Seq<ValueView> {
    names.map_values(|name: Symbol| ValueView::Symbol(name@))
}

/// Rows as lists.
pub open spec fn row_lists(listed: Seq<Row>) -> Seq<ValueView> {
    listed.map_values(|row: Row| ValueView::List(row))
}

/// Whether a value is the relation with the given columns and rows: the rows stand in order, each
/// once.
pub open spec fn is_relation(value: ValueView, names: Seq<ValueView>, set: Set<Row>) -> bool {
    exists|listed: Seq<Row>| #[trigger]
        lists(listed, set) && value == ValueView::Relation(names, row_lists(listed))
}

/// Whether every row has as many values as there are columns.
pub open spec fn all_fit(listed: Seq<Row>, columns: nat) -> bool {
    forall|i: int| 0 <= i < listed.len() ==> (#[trigger] listed[i]).len() == columns
}

/// Whether names differ from one another.
fn names_differ(names: &[Symbol]) -> (result: bool)
    ensures
        result == heading(names@).no_duplicates(),
{
    let ghost all = heading(names@);
    let mut i: usize = 0;
    while i < names.len()
        invariant
            i <= names@.len(),
            all == heading(names@),
            forall|a: int, b: int| 0 <= a < b < i ==> all[a] != all[b],
        decreases names@.len() - i,
    {
        let mut k: usize = 0;
        while k < i
            invariant
                k <= i < names@.len(),
                all == heading(names@),
                forall|a: int| 0 <= a < k ==> all[a] != all[i as int],
            decreases i - k,
        {
            if names[k].same(&names[i]) {
                assert(all[k as int] == all[i as int]);
                return false;
            }
            k = k + 1;
        }
        i = i + 1;
    }
    true
}

impl Value {
    /// The relation with the given columns and rows. There is none where two columns have one name
    /// or a row has another number of values.
    pub fn relation(names: Vec<Symbol>, tuples: Vec<Tuple>) -> (value: Option<Value>)
        ensures
            value is Some <==> heading(names@).no_duplicates() && all_fit(
                rows(tuples@),
                names@.len(),
            ),
            value matches Some(found) ==> is_relation(
                found@,
                heading(names@),
                rows(tuples@).to_set(),
            ),
    {
        if !names_differ(&names) {
            return None;
        }
        let mut i: usize = 0;
        while i < tuples.len()
            invariant
                i <= tuples@.len(),
                forall|j: int| 0 <= j < i ==> (#[trigger] rows(tuples@)[j]).len() == names@.len(),
            decreases tuples@.len() - i,
        {
            assert(rows(tuples@)[i as int] == tuples@[i as int]@);
            if tuples[i].arity() != names.len() {
                return None;
            }
            i = i + 1;
        }
        let ordered = finish_tuple_rows(tuples);
        let mut columns: Vec<Value> = Vec::new();
        let mut k: usize = 0;
        while k < names.len()
            invariant
                k <= names@.len(),
                columns@.len() == k,
                forall|j: int| 0 <= j < k ==> (#[trigger] columns@[j])@ == heading(names@)[j],
            decreases names@.len() - k,
        {
            columns.push(Value::Symbol(names[k].clone()));
            k = k + 1;
        }
        let mut lines: Vec<Value> = Vec::new();
        let mut n: usize = 0;
        while n < ordered.len()
            invariant
                n <= ordered@.len(),
                lines@.len() == n,
                forall|j: int|
                    0 <= j < n ==> (#[trigger] lines@[j])@ == row_lists(rows(ordered@))[j],
            decreases ordered@.len() - n,
        {
            assert(rows(ordered@)[n as int] == ordered@[n as int]@);
            lines.push(Value::list(copy_values(ordered[n].values())));
            n = n + 1;
        }
        let value = Value::Relation(columns, lines);
        proof {
            assert(value@->Relation_0 =~= heading(names@));
            assert(value@->Relation_1 =~= row_lists(rows(ordered@)));
            assert(lists(rows(ordered@), rows(tuples@).to_set()));
        }
        Some(value)
    }
}

/// Two relations are one value just where they have the same columns and the same rows.
pub proof fn law_a_relation_value_is_its_columns_and_rows(
    a: ValueView,
    a_names: Seq<ValueView>,
    a_set: Set<Row>,
    b: ValueView,
    b_names: Seq<ValueView>,
    b_set: Set<Row>,
)
    requires
        is_relation(a, a_names, a_set),
        is_relation(b, b_names, b_set),
    ensures
        a == b <==> a_names == b_names && a_set == b_set,
{
    let x = choose|listed: Seq<Row>| #[trigger]
        lists(listed, a_set) && a == ValueView::Relation(a_names, row_lists(listed));
    let y = choose|listed: Seq<Row>| #[trigger]
        lists(listed, b_set) && b == ValueView::Relation(b_names, row_lists(listed));
    if a_names == b_names && a_set == b_set {
        law_listing_is_unique(x, y, a_set);
    }
    if a == b {
        assert(row_lists(x) == row_lists(y));
        assert(x.len() == row_lists(x).len());
        assert forall|i: int| 0 <= i < x.len() implies x[i] == y[i] by {
            assert(row_lists(x)[i] == ValueView::List(x[i]));
            assert(row_lists(y)[i] == ValueView::List(y[i]));
        }
        assert(x =~= y);
    }
}

} // verus!
