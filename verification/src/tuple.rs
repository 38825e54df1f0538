//! Rows of a relation, ordered by their sort keys.

use crate::bytes::{compare_bytes, lemma_lex_asymmetric, lemma_lex_total, lemma_lex_transitive,
    lex_less, Standing};
use crate::value::{copy_value, copy_values, is_persistable, key_from_values,
    lemma_values_key_injective, option_views, persistable, same_value, value_view, values_key, views,
    Value, ValueView};
use vstd::prelude::*;

verus! {

/// A row: some values and the sort key that orders them.
#[derive(Debug)]
pub struct Tuple {
    values: Vec<Value>,
    key: Vec<u8>,
}

impl View for Tuple {
    type V = Seq<ValueView>;

    closed spec fn view(&self) -> Seq<ValueView> {
        views(self.values@)
    }
}

/// Whether row `a` comes strictly before row `b`.
pub open spec fn row_less(a: Seq<ValueView>, b: Seq<ValueView>) -> bool {
    lex_less(values_key(a), values_key(b))
}

/// How row `a` stands to row `b`.
pub open spec fn row_standing(a: Seq<ValueView>, b: Seq<ValueView>) -> Standing {
    if row_less(a, b) {
        Standing::Before
    } else if a == b {
        Standing::Same
    } else {
        Standing::After
    }
}

/// Of two different rows exactly one comes before the other.
pub proof fn lemma_row_order_total(a: Seq<ValueView>, b: Seq<ValueView>)
    ensures
        a == b || row_less(a, b) || row_less(b, a),
        row_less(a, b) ==> a != b && !row_less(b, a),
{
    lemma_lex_total(values_key(a), values_key(b));
    if values_key(a) == values_key(b) {
        lemma_values_key_injective(a, b);
    }
    if row_less(a, b) {
        lemma_lex_asymmetric(values_key(a), values_key(b));
    }
}

/// The order of rows is transitive.
pub proof fn lemma_row_order_transitive(a: Seq<ValueView>, b: Seq<ValueView>, c: Seq<ValueView>)
    requires
        row_less(a, b),
        row_less(b, c),
    ensures
        row_less(a, c),
{
    lemma_lex_transitive(values_key(a), values_key(b), values_key(c));
}

/// Whether a row has the bound value in every bound column.
pub open spec fn row_matches(row: Seq<ValueView>, bindings: Seq<Option<ValueView>>) -> bool {
    forall|i: int|
        0 <= i < bindings.len() && (#[trigger] bindings[i]) is Some ==> i < row.len() && row[i]
            == bindings[i]->0
}

/// The values of a row at the given positions.
pub open spec fn project(row: Seq<ValueView>, positions: Seq<u16>) -> Seq<ValueView> {
    Seq::new(positions.len(), |i: int| row[positions[i] as int])
}

/// Whether every value of a row may be stored.
pub open spec fn row_persistable(row: Seq<ValueView>) -> bool {
    forall|i: int| 0 <= i < row.len() ==> persistable(#[trigger] row[i])
}

/// The rows that some tuples hold.
pub open spec fn rows(tuples: Seq<Tuple>) -> Seq<Seq<ValueView>> {
    Seq::new(tuples.len(), |i: int| tuples[i]@)
}

/// Whether rows stand in strictly increasing order.
pub open spec fn increasing(rows: Seq<Seq<ValueView>>) -> bool {
    forall|i: int, j: int| 0 <= i < j < rows.len() ==> row_less(#[trigger] rows[i], #[trigger] rows[j])
}

impl Tuple {
    #[verifier::type_invariant]
    spec fn keyed(self) -> bool {
        self.key@ == values_key(views(self.values@))
    }

    /// The row with the given values.
    pub fn new(values: Vec<Value>) -> (tuple: Tuple)
        ensures
            tuple@ == views(values@),
    {
        let key = key_from_values(&values);
        Tuple { values, key }
    }

    /// The values of the row.
    pub fn values(&self) -> (values: &Vec<Value>)
        ensures
            views(values@) == self@,
            values@.len() == self@.len(),
            forall|i: int| 0 <= i < values@.len() ==> value_view(#[trigger] values@[i]) == self@[i],
    {
        &self.values
    }

    /// The number of values.
    pub fn arity(&self) -> (arity: usize)
        ensures
            arity == self@.len(),
    {
        self.values.len()
    }

    /// The sort key.
    pub fn key(&self) -> (key: &Vec<u8>)
        ensures
            key@ == values_key(self@),
    {
        proof {
            use_type_invariant(self);
        }
        &self.key
    }

    /// How this row stands to another.
    pub fn compare(&self, other: &Tuple) -> (result: Standing)
        ensures
            result == row_standing(self@, other@),
            (result is After) == row_less(other@, self@),
    {
        proof {
            use_type_invariant(self);
            use_type_invariant(other);
            lemma_row_order_total(self@, other@);
            lemma_row_order_total(other@, self@);
        }
        compare_bytes(&self.key, &other.key)
    }

    /// Whether two rows hold the same values.
    pub fn same(&self, other: &Tuple) -> (result: bool)
        ensures
            result == (self@ == other@),
    {
        proof {
            lemma_row_order_total(self@, other@);
        }
        matches!(self.compare(other), Standing::Same)
    }

    /// Whether the row has the bound value in every bound column.
    pub fn matches_bindings(&self, bindings: &[Option<Value>]) -> (result: bool)
        ensures
            result == row_matches(self@, option_views(bindings@)),
    {
        let ghost bound = option_views(bindings@);
        let mut i: usize = 0;
        while i < bindings.len()
            invariant
                bound == option_views(bindings@),
                i <= bindings@.len(),
                forall|j: int|
                    0 <= j < i && (#[trigger] bound[j]) is Some ==> j < self@.len() && self@[j]
                        == bound[j]->0,
            decreases bindings@.len() - i,
        {
            match &bindings[i] {
                None => {
                    assert(bound[i as int] is None);
                },
                Some(value) => {
                    assert(bound[i as int] == Some(value@));
                    if i >= self.values.len() {
                        return false;
                    }
                    assert(self@[i as int] == self.values@[i as int]@);
                    if !same_value(&self.values[i], value) {
                        return false;
                    }
                },
            }
            i = i + 1;
        }
        true
    }

    /// Whether every value of the row may be stored.
    pub fn is_persistable(&self) -> (result: bool)
        ensures
            result == row_persistable(self@),
    {
        let mut i: usize = 0;
        while i < self.values.len()
            invariant
                i <= self.values@.len(),
                self@ == views(self.values@),
                forall|j: int| 0 <= j < i ==> persistable(#[trigger] self@[j]),
            decreases self.values@.len() - i,
        {
            assert(self@[i as int] == self.values@[i as int]@);
            if !is_persistable(&self.values[i]) {
                return false;
            }
            i = i + 1;
        }
        true
    }

    /// This row followed by another.
    pub fn concat(&self, other: &Tuple) -> (tuple: Tuple)
        ensures
            tuple@ == self@ + other@,
    {
        let mut values = copy_values(&self.values);
        let mut tail = copy_values(&other.values);
        let ghost head = values@;
        let ghost rest = tail@;
        values.append(&mut tail);
        assert(views(values@) =~= views(head) + views(rest));
        Tuple::new(values)
    }

    /// The values at the given positions.
    pub fn project(&self, positions: &[u16]) -> (values: Vec<Value>)
        requires
            forall|i: int| 0 <= i < positions@.len() ==> (#[trigger] positions@[i]) < self@.len(),
        ensures
            views(values@) == project(self@, positions@),
            values@.len() == positions@.len(),
    {
        let mut values: Vec<Value> = Vec::new();
        let mut i: usize = 0;
        while i < positions.len()
            invariant
                self@ == views(self.values@),
                forall|k: int| 0 <= k < positions@.len() ==> (#[trigger] positions@[k]) < self@.len(),
                i <= positions@.len(),
                values@.len() == i,
                forall|j: int|
                    0 <= j < i ==> value_view(#[trigger] values@[j]) == self@[positions@[j] as int],
            decreases positions@.len() - i,
        {
            let at: usize = positions[i] as usize;
            assert(self@[at as int] == self.values@[at as int]@);
            values.push(copy_value(&self.values[at]));
            i = i + 1;
        }
        assert(views(values@) =~= project(self@, positions@));
        values
    }
}

impl Clone for Tuple {
    fn clone(&self) -> (copy: Tuple)
        ensures
            copy@ == self@,
    {
        Tuple::new(copy_values(&self.values))
    }
}

/// A copy of several rows.
pub fn copy_tuples(tuples: &[Tuple]) -> (copy: Vec<Tuple>)
    ensures
        rows(copy@) == rows(tuples@),
        copy@.len() == tuples@.len(),
{
    let mut copy: Vec<Tuple> = Vec::new();
    let mut i: usize = 0;
    while i < tuples.len()
        invariant
            i <= tuples@.len(),
            copy@.len() == i,
            forall|j: int| 0 <= j < i ==> (#[trigger] copy@[j])@ == tuples@[j]@,
        decreases tuples@.len() - i,
    {
        copy.push(tuples[i].clone());
        i = i + 1;
    }
    assert(rows(copy@) =~= rows(tuples@));
    copy
}

impl PartialEq for Tuple {
    fn eq(&self, other: &Tuple) -> (result: bool) {
        self.same(other)
    }
}

impl vstd::std_specs::cmp::PartialEqSpecImpl for Tuple {
    open spec fn obeys_eq_spec() -> bool {
        true
    }

    open spec fn eq_spec(&self, other: &Tuple) -> bool {
        self@ == other@
    }
}

} // verus!
