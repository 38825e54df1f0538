//! Finding the methods that apply to a call.

use crate::bytes::Standing;
use crate::kernel::algebra::{finish_tuple_rows, law_listing_is_unique, lists, matching, of_arity,
    Row};
use crate::kernel::error::{too_narrow, FaultView, KernelError};
use crate::kernel::metadata::RelationId;
use crate::kernel::read::{answers, scanned, seen_as, RelationRead, Visible};
use crate::tuple::{copy_tuples, increasing, lemma_row_order_total, lemma_row_order_transitive, row_less,
    row_matches, rows, Tuple};
use crate::value::{copy_value, option_views, same_value, views, Identity, Symbol, Value, ValueView};
use vstd::prelude::*;

verus! {

/// The relations that methods are found in.
#[derive(Clone, Copy, Debug, PartialEq, Eq, Structural)]
pub struct DispatchRelations {
    pub method_selector: RelationId,
    pub param: RelationId,
    pub delegates: RelationId,
}

/// Who answers for values that are no identities.
#[derive(Clone, Copy, Debug, PartialEq, Eq, Structural)]
pub struct PrimitivePrototypes {
    pub nothing: Identity,
    pub boolean: Identity,
    pub integer: Identity,
    pub identity: Identity,
    pub symbol: Identity,
    pub string: Identity,
    pub list: Identity,
    pub mapping: Identity,
    pub option: Identity,
    pub frob: Identity,
    pub error: Identity,
    pub capability: Identity,
    pub float: Identity,
    pub bytes: Identity,
    pub relation: Identity,
}

impl PrimitivePrototypes {
    /// Who answers for a value of its kind.
    pub open spec fn answering(self, value: ValueView) -> u64 {
        match value {
            ValueView::Nothing => self.nothing@,
            ValueView::Bool(_) => self.boolean@,
            ValueView::Int(_) => self.integer@,
            ValueView::Identity(_) => self.identity@,
            ValueView::Symbol(_) => self.symbol@,
            ValueView::String(_) => self.string@,
            ValueView::List(_) => self.list@,
            ValueView::Mapping(_) => self.mapping@,
            ValueView::OptionNone | ValueView::OptionSome(_) => self.option@,
            ValueView::Frob(_, _) => self.frob@,
            ValueView::Error(_, _, _) => self.error@,
            ValueView::Capability(_) => self.capability@,
            ValueView::Float(_) => self.float@,
            ValueView::Bytes(_) => self.bytes@,
            ValueView::Relation(_, _) => self.relation@,
        }
    }

    /// Who answers for a value of its kind.
    pub fn prototype_for_value(&self, value: &Value) -> (prototype: Identity)
        ensures
            prototype@ == self.answering(value@),
    {
        match value {
            Value::Nothing => self.nothing,
            Value::Bool(_) => self.boolean,
            Value::Int(_) => self.integer,
            Value::Identity(_) => self.identity,
            Value::Symbol(_) => self.symbol,
            Value::String(_) => self.string,
            Value::List(_) => self.list,
            Value::Mapping(_) => self.mapping,
            Value::OptionNone | Value::OptionSome(_) => self.option,
            Value::Frob(_, _) => self.frob,
            Value::Error(_, _, _) => self.error,
            Value::Capability(_) => self.capability,
            Value::Float(_) => self.float,
            Value::Bytes(_) => self.bytes,
            Value::Relation(_, _) => self.relation,
        }
    }
}

/// The restriction that everything meets.
pub open spec fn unrestricted() -> ValueView {
    ValueView::Symbol("dispatch/unrestricted"@)
}

/// What a restriction to values with a delegate holds.
pub open spec fn frob_only_marker() -> ValueView {
    ValueView::Symbol("dispatch/frob_only"@)
}

/// The restriction that everything meets.
pub fn unrestricted_dispatch_restriction() -> (restriction: Value)
    ensures
        restriction@ == unrestricted(),
{
    Value::named("dispatch/unrestricted")
}

/// The restriction to values whose delegate leads to the given one.
pub fn frob_only_dispatch_restriction(delegate: Identity) -> (restriction: Value)
    ensures
        restriction@ == ValueView::Frob(delegate@, Box::new(frob_only_marker())),
{
    Value::frob(delegate, Value::named("dispatch/frob_only"))
}

/// Whether a value delegates to another.
pub open spec fn edge(delegates: Set<Row>, from: ValueView, to: ValueView) -> bool {
    exists|row: Row| #[trigger]
        delegates.contains(row) && row.len() >= 2 && row[0] == from && row[1] == to
}

/// Whether values delegate, each to the next.
pub open spec fn is_path(delegates: Set<Row>, path: Seq<ValueView>) -> bool {
    forall|i: int| 0 <= i < path.len() - 1 ==> edge(delegates, #[trigger] path[i], path[i + 1])
}

/// Whether a value delegates to another over one or more steps.
pub open spec fn reaches(delegates: Set<Row>, from: ValueView, to: ValueView) -> bool {
    exists|path: Seq<ValueView>| #[trigger]
        is_path(delegates, path) && path.len() >= 2 && path[0] == from && path.last() == to
}

/// Whether an identity is the restriction or delegates to it.
pub open spec fn identity_meets(
    delegates: Set<Row>,
    identity: u64,
    restriction: ValueView,
) -> bool {
    ValueView::Identity(identity) == restriction || reaches(
        delegates,
        ValueView::Identity(identity),
        restriction,
    )
}

/// The delegate that a restriction to values with a delegate asks for.
pub open spec fn required_delegate(restriction: ValueView) -> Option<u64> {
    match restriction {
        ValueView::Frob(delegate, payload) => if *payload == frob_only_marker() {
            Some(delegate)
        } else {
            None
        },
        _ => None,
    }
}

/// Whether a value meets a restriction.
pub open spec fn meets(
    prototypes: PrimitivePrototypes,
    delegates: Set<Row>,
    value: ValueView,
    restriction: ValueView,
) -> bool {
    if restriction == unrestricted() {
        true
    } else if let Some(delegate) = required_delegate(restriction) {
        value is Frob && identity_meets(delegates, value->Frob_0, ValueView::Identity(delegate))
    } else if value == restriction {
        true
    } else {
        match value {
            ValueView::Frob(delegate, _) => identity_meets(delegates, delegate, restriction)
                || identity_meets(delegates, prototypes.frob@, restriction),
            ValueView::Identity(identity) => identity_meets(delegates, identity, restriction)
                || identity_meets(delegates, prototypes.answering(value), restriction),
            _ => reaches(delegates, value, restriction) || identity_meets(
                delegates,
                prototypes.answering(value),
                restriction,
            ),
        }
    }
}

/// Whether what meets one restriction meets another.
pub open spec fn entails(
    prototypes: PrimitivePrototypes,
    delegates: Set<Row>,
    specific: ValueView,
    general: ValueView,
) -> bool {
    specific == general || general == unrestricted() || (specific != unrestricted() && meets(
        prototypes,
        delegates,
        specific,
        general,
    ))
}

/// Reads a relation. Rows that a computed relation gives may have any number of values.
fn read_rows<R: RelationRead>(reader: &R, relation: RelationId, bindings: &[Option<Value>]) -> (result:
    Result<Vec<Tuple>, KernelError>)
    requires
        bindings@.len() <= u16::MAX,
    ensures
        answers(
            result,
            scanned(
                seen_as(reader, relation@, bindings@.len() as u16),
                relation@,
                option_views(bindings@),
            ),
        ),
        scanned(
            seen_as(reader, relation@, bindings@.len() as u16),
            relation@,
            option_views(bindings@),
        ) matches Some(Ok(set)) ==> (result matches Ok(found) && of_arity(set, bindings@.len())
            && forall|i: int|
            0 <= i < found@.len() ==> (#[trigger] found@[i])@.len() == bindings@.len()),
{
    let result = reader.scan_relation(relation, bindings);
    proof {
        if let Some(Ok(set)) = scanned(
            seen_as(reader, relation@, bindings@.len() as u16),
            relation@,
            option_views(bindings@),
        ) {
            let found = result->Ok_0;
            assert forall|i: int| 0 <= i < found@.len() implies (#[trigger] found@[i])@.len()
                == bindings@.len() by {
                assert(rows(found@)[i] == found@[i]@);
                assert(rows(found@).to_set().contains(found@[i]@));
            }
        }
    }
    result
}

/// Whether a value is among others.
fn holds_value(values: &[Value], value: &Value) -> (result: bool)
    ensures
        result == views(values@).contains(value@),
{
    let mut i: usize = 0;
    while i < values.len()
        invariant
            i <= values@.len(),
            forall|j: int| 0 <= j < i ==> (#[trigger] views(values@)[j]) != value@,
        decreases values@.len() - i,
    {
        assert(views(values@)[i as int] == values@[i as int]@);
        if same_value(&values[i], value) {
            return true;
        }
        i = i + 1;
    }
    assert(views(values@).len() == values@.len());
    false
}

/// Where rows delegate to.
spec fn targets(edges: Seq<Row>) -> Seq<ValueView> {
    edges.map_values(|row: Row| row[1])
}

/// Whether everything that a value delegates to is among others.
spec fn followed(edges: Seq<Row>, from: ValueView, seen: Seq<ValueView>) -> bool {
    forall|k: int|
        0 <= k < edges.len() && (#[trigger] edges[k]).len() >= 2 && edges[k][0] == from
            ==> seen.contains(edges[k][1])
}

/// Adds what a value delegates to.
fn follow(edges: &[Tuple], from: &Value, seen: &mut Vec<Value>, Ghost(start): Ghost<ValueView>)
    requires
        views(old(seen)@).no_duplicates(),
        forall|j: int|
            0 <= j < old(seen)@.len() ==> reaches(
                rows(edges@).to_set(),
                start,
                #[trigger] views(old(seen)@)[j],
            ) && targets(rows(edges@)).contains(views(old(seen)@)[j]),
        from@ == start || reaches(rows(edges@).to_set(), start, from@),
    ensures
        views(final(seen)@).no_duplicates(),
        views(old(seen)@).is_prefix_of(views(final(seen)@)),
        forall|j: int|
            0 <= j < final(seen)@.len() ==> reaches(
                rows(edges@).to_set(),
                start,
                #[trigger] views(final(seen)@)[j],
            ) && targets(rows(edges@)).contains(views(final(seen)@)[j]),
        followed(rows(edges@), from@, views(final(seen)@)),
{
    let ghost before = views(seen@);
    let ghost all = rows(edges@);
    let mut k: usize = 0;
    while k < edges.len()
        invariant
            k <= edges@.len(),
            all == rows(edges@),
            views(seen@).no_duplicates(),
            before.is_prefix_of(views(seen@)),
            from@ == start || reaches(all.to_set(), start, from@),
            forall|j: int|
                0 <= j < seen@.len() ==> reaches(all.to_set(), start, #[trigger] views(seen@)[j])
                    && targets(all).contains(views(seen@)[j]),
            forall|j: int|
                0 <= j < k && (#[trigger] all[j]).len() >= 2 && all[j][0] == from@ ==> views(
                    seen@,
                ).contains(all[j][1]),
        decreases edges@.len() - k,
    {
        let values = edges[k].values();
        let ghost row = all[k as int];
        assert(row == edges@[k as int]@);
        if values.len() >= 2 && same_value(&values[0], from) && !holds_value(seen, &values[1]) {
            let ghost old_seen = views(seen@);
            let ghost target = values@[1]@;
            proof {
                assert(all.to_set().contains(row));
                assert(edge(all.to_set(), from@, target));
                lemma_one_more(all.to_set(), start, from@, target);
                assert(targets(all)[k as int] == target);
            }
            let value = copy_value(&values[1]);
            seen.push(value);
            proof {
                assert(views(seen@) =~= old_seen.push(target));
                assert(views(seen@).last() == target);
                assert forall|j: int| 0 <= j < seen@.len() implies reaches(
                    all.to_set(),
                    start,
                    #[trigger] views(seen@)[j],
                ) && targets(all).contains(views(seen@)[j]) by {
                    if j < old_seen.len() {
                        assert(views(seen@)[j] == old_seen[j]);
                    }
                }
                assert forall|j: int|
                    0 <= j < k && (#[trigger] all[j]).len() >= 2 && all[j][0] == from@ implies views(
                    seen@,
                ).contains(all[j][1]) by {
                    let m = choose|m: int| 0 <= m < old_seen.len() && old_seen[m] == all[j][1];
                    assert(views(seen@)[m] == all[j][1]);
                }
                assert(views(seen@)[old_seen.len() as int] == target);
            }
        }
        k = k + 1;
    }
}

proof fn lemma_one_more(delegates: Set<Row>, start: ValueView, middle: ValueView, end: ValueView)
    requires
        middle == start || reaches(delegates, start, middle),
        edge(delegates, middle, end),
    ensures
        reaches(delegates, start, end),
{
    let path = if middle == start {
        seq![start]
    } else {
        choose|path: Seq<ValueView>| #[trigger]
            is_path(delegates, path) && path.len() >= 2 && path[0] == start && path.last()
                == middle
    };
    let longer = path.push(end);
    assert forall|i: int| 0 <= i < longer.len() - 1 implies edge(
        delegates,
        #[trigger] longer[i],
        longer[i + 1],
    ) by {
        if i < path.len() - 1 {
            assert(longer[i] == path[i]);
            assert(longer[i + 1] == path[i + 1]);
        } else {
            assert(longer[i] == path.last());
        }
    }
    assert(is_path(delegates, longer));
    assert(longer.last() == end);
}

proof fn lemma_all_found(
    edges: Seq<Row>,
    start: ValueView,
    seen: Seq<ValueView>,
    path: Seq<ValueView>,
    n: int,
)
    requires
        followed(edges, start, seen),
        forall|j: int| 0 <= j < seen.len() ==> followed(edges, #[trigger] seen[j], seen),
        is_path(edges.to_set(), path),
        path[0] == start,
        1 <= n < path.len(),
    ensures
        seen.contains(path[n]),
    decreases n,
{
    assert(edge(edges.to_set(), path[n - 1], path[n - 1 + 1]));
    let row = choose|row: Row| #[trigger]
        edges.to_set().contains(row) && row.len() >= 2 && row[0] == path[n - 1] && row[1] == path[n];
    let k = choose|k: int| 0 <= k < edges.len() && edges[k] == row;
    assert(edges[k][0] == path[n - 1]);
    if n > 1 {
        lemma_all_found(edges, start, seen, path, n - 1);
        let j = choose|j: int| 0 <= j < seen.len() && seen[j] == path[n - 1];
        assert(followed(edges, seen[j], seen));
    }
}

/// Whether a value delegates to another over one or more of the given steps.
fn walk(edges: &[Tuple], from: &Value, to: &Value) -> (result: bool)
    ensures
        result == reaches(rows(edges@).to_set(), from@, to@),
{
    let ghost all = rows(edges@);
    let mut seen: Vec<Value> = Vec::new();
    follow(edges, from, &mut seen, Ghost(from@));
    let mut i: usize = 0;
    while i < seen.len()
        invariant
            i <= seen@.len(),
            all == rows(edges@),
            views(seen@).no_duplicates(),
            forall|j: int|
                0 <= j < seen@.len() ==> reaches(all.to_set(), from@, #[trigger] views(seen@)[j])
                    && targets(all).contains(views(seen@)[j]),
            followed(all, from@, views(seen@)),
            forall|j: int| 0 <= j < i ==> followed(all, #[trigger] views(seen@)[j], views(seen@)),
        decreases edges@.len() - i,
    {
        let ghost before = views(seen@);
        proof {
            before.unique_seq_to_set();
            targets(all).lemma_cardinality_of_set();
            assert(before.to_set().subset_of(targets(all).to_set())) by {
                assert forall|v: ValueView| before.to_set().contains(v) implies targets(
                    all,
                ).to_set().contains(v) by {
                    let j = choose|j: int| 0 <= j < before.len() && before[j] == v;
                    assert(targets(all).contains(before[j]));
                }
            }
            vstd::set_lib::lemma_len_subset(before.to_set(), targets(all).to_set());
        }
        let next = copy_value(&seen[i]);
        assert(next@ == before[i as int]);
        follow(edges, &next, &mut seen, Ghost(from@));
        proof {
            let after = views(seen@);
            assert forall|v: ValueView| followed(all, v, before) implies followed(all, v, after) by {
                assert forall|k: int|
                    0 <= k < all.len() && (#[trigger] all[k]).len() >= 2 && all[k][0]
                        == v implies after.contains(all[k][1]) by {
                    let j = choose|j: int| 0 <= j < before.len() && before[j] == all[k][1];
                    assert(after[j] == before[j]);
                }
            }
            assert forall|j: int| 0 <= j < i + 1 implies followed(all, #[trigger] after[j], after) by {
                assert(after[j] == before[j]);
            }
        }
        i = i + 1;
    }
    proof {
        if reaches(all.to_set(), from@, to@) {
            let path = choose|path: Seq<ValueView>| #[trigger]
                is_path(all.to_set(), path) && path.len() >= 2 && path[0] == from@ && path.last()
                    == to@;
            lemma_all_found(all, from@, views(seen@), path, path.len() - 1);
        }
        if views(seen@).contains(to@) {
            let j = choose|j: int| 0 <= j < views(seen@).len() && views(seen@)[j] == to@;
            assert(reaches(all.to_set(), from@, views(seen@)[j]));
        }
    }
    holds_value(&seen, to)
}

/// The rows of a relation of the given width, where they are known.
pub open spec fn seen_rows(visible: Visible, width: u16) -> Option<Set<Row>> {
    match visible {
        Visible::Stored(arity, Ok(set)) => if arity == width {
            Some(set)
        } else {
            None
        },
        _ => None,
    }
}

/// Whether a relation of the given width may hold some rows, going by what is seen of it:
/// one that is stored and cannot be read may hold any. Of a computed relation that is not settled
/// nothing is said here, since it may answer otherwise each time that it is read.
pub open spec fn may_hold(visible: Visible, width: u16, set: Set<Row>) -> bool {
    match visible {
        Visible::Computed => false,
        Visible::Stored(arity, Ok(seen)) => arity == width ==> set == seen,
        _ => true,
    }
}

/// Why a relation of the given width cannot be read.
pub open spec fn read_fault(visible: Visible, relation: u64, width: nat) -> Option<FaultView> {
    match scanned(visible, relation, Seq::new(width, |i: int| None::<ValueView>)) {
        Some(Err(fault)) => Some(fault),
        _ => None,
    }
}

/// Whether a question about delegation was answered: with what holds of whatever the
/// relation may hold, or with why that cannot be read.
pub open spec fn decided(
    visible: Visible,
    relation: u64,
    result: Result<bool, KernelError>,
    holds: spec_fn(Set<Row>) -> bool,
) -> bool {
    match result {
        Ok(found) => forall|delegates: Set<Row>| #[trigger]
            may_hold(visible, 3, delegates) ==> found == holds(delegates),
        Err(error) => visible is Computed || read_fault(visible, relation, 3) == Some(error@),
    }
}

/// Whether a reading of a relation of the given width may give some rows, going by what is
/// seen of it: of a computed relation that is not settled, or one that cannot be read, any.
pub open spec fn may_give_rows(visible: Visible, width: u16, set: Set<Row>) -> bool {
    visible is Computed || may_hold(visible, width, set)
}

/// Whether a question about delegation was answered, and by what some reading of the relation
/// gives, though it be computed.
pub open spec fn answered(
    visible: Visible,
    relation: u64,
    result: Result<bool, KernelError>,
    holds: spec_fn(Set<Row>) -> bool,
) -> bool {
    &&& decided(visible, relation, result, holds)
    &&& result matches Ok(found) ==> exists|delegates: Set<Row>| #[trigger]
        may_give_rows(visible, 3, delegates) && found == holds(delegates)
}

/// The rows that tell most about a relation without a reading of it: those that it holds, or
/// none.
spec fn least_rows(visible: Visible) -> Set<Row> {
    match visible {
        Visible::Stored(3, Ok(seen)) => seen,
        _ => Set::empty(),
    }
}

proof fn lemma_least_rows(visible: Visible)
    ensures
        may_give_rows(visible, 3, least_rows(visible)),
        visible !is Computed ==> may_hold(visible, 3, least_rows(visible)),
{
}

/// Without delegation nothing is reached.
proof fn lemma_nothing_reached(from: ValueView, to: ValueView)
    ensures
        !reaches(Set::empty(), from, to),
{
    if reaches(Set::empty(), from, to) {
        let path = choose|path: Seq<ValueView>| #[trigger]
            is_path(Set::<Row>::empty(), path) && path.len() >= 2 && path[0] == from && path.last()
                == to;
        assert(edge(Set::<Row>::empty(), path[0], path[1]));
    }
}

/// What is reached over some delegation is reached over more.
proof fn lemma_more_reached(some: Set<Row>, more: Set<Row>, from: ValueView, to: ValueView)
    requires
        some.subset_of(more),
    ensures
        reaches(some, from, to) ==> reaches(more, from, to),
{
    if reaches(some, from, to) {
        let path = choose|path: Seq<ValueView>| #[trigger]
            is_path(some, path) && path.len() >= 2 && path[0] == from && path.last() == to;
        assert forall|i: int| 0 <= i < path.len() - 1 implies edge(
            more,
            #[trigger] path[i],
            path[i + 1],
        ) by {
            assert(edge(some, path[i], path[i + 1]));
            let row = choose|row: Row| #[trigger]
                some.contains(row) && row.len() >= 2 && row[0] == path[i] && row[1] == path[i + 1];
            assert(more.contains(row));
        }
        assert(is_path(more, path));
    }
}

/// What meets a restriction over some delegation meets it over more.
proof fn lemma_more_meets(
    prototypes: PrimitivePrototypes,
    some: Set<Row>,
    more: Set<Row>,
    value: ValueView,
    restriction: ValueView,
)
    requires
        some.subset_of(more),
        meets(prototypes, some, value, restriction),
    ensures
        meets(prototypes, more, value, restriction),
{
    lemma_more_reached(some, more, value, restriction);
    lemma_more_reached(some, more, ValueView::Identity(prototypes.frob@), restriction);
    lemma_more_reached(
        some,
        more,
        ValueView::Identity(prototypes.answering(value)),
        restriction,
    );
    if let ValueView::Frob(delegate, _) = value {
        lemma_more_reached(some, more, ValueView::Identity(delegate), restriction);
        if let Some(required) = required_delegate(restriction) {
            lemma_more_reached(
                some,
                more,
                ValueView::Identity(delegate),
                ValueView::Identity(required),
            );
        }
    }
}

/// Bindings that leave everything open.
fn open_bindings(n: usize) -> (bindings: Vec<Option<Value>>)
    ensures
        option_views(bindings@) == Seq::new(n as nat, |i: int| None::<ValueView>),
        bindings@.len() == n,
{
    let mut bindings: Vec<Option<Value>> = Vec::new();
    let mut i: usize = 0;
    while i < n
        invariant
            i <= n,
            bindings@.len() == i,
            forall|j: int| 0 <= j < i ==> (#[trigger] bindings@[j]) is None,
        decreases n - i,
    {
        bindings.push(None);
        i = i + 1;
    }
    assert(option_views(bindings@) =~= Seq::new(n as nat, |i: int| None::<ValueView>));
    bindings
}

proof fn lemma_open_matching(set: Set<Row>, n: nat)
    ensures
        matching(set, Seq::new(n, |i: int| None::<ValueView>)) == set,
{
    assert(matching(set, Seq::new(n, |i: int| None::<ValueView>)) =~= set);
}

/// Whether a value delegates to another over one or more steps.
pub fn delegates_reaches<R: RelationRead>(
    reader: &R,
    relation: RelationId,
    from: &Value,
    to: &Value,
) -> (result: Result<bool, KernelError>)
    ensures
        answered(
            seen_as(reader, relation@, 3),
            relation@,
            result,
            |delegates: Set<Row>| reaches(delegates, from@, to@),
        ),
        read_fault(seen_as(reader, relation@, 3), relation@, 3) is Some ==> result is Err,
{
    let bindings = open_bindings(3);
    match read_rows(reader, relation, &bindings) {
        Err(error) => Err(error),
        Ok(edges) => {
            proof {
                if let Visible::Stored(_, Ok(delegates)) = seen_as(reader, relation@, 3) {
                    lemma_open_matching(delegates, 3);
                }
                assert(may_give_rows(seen_as(reader, relation@, 3), 3, rows(edges@).to_set()));
            }
            Ok(walk(&edges, from, to))
        },
    }
}

fn identity_matches<R: RelationRead>(
    reader: &R,
    relation: RelationId,
    identity: Identity,
    restriction: &Value,
) -> (result: Result<bool, KernelError>)
    ensures
        answered(
            seen_as(reader, relation@, 3),
            relation@,
            result,
            |delegates: Set<Row>| identity_meets(delegates, identity@, restriction@),
        ),
        ValueView::Identity(identity@) == restriction@ ==> result == Ok::<bool, KernelError>(true),
        ValueView::Identity(identity@) != restriction@ && read_fault(
            seen_as(reader, relation@, 3),
            relation@,
            3,
        ) is Some ==> result is Err,
{
    proof {
        lemma_least_rows(seen_as(reader, relation@, 3));
    }
    let prototype = Value::identity(identity);
    if same_value(&prototype, restriction) {
        return Ok(true);
    }
    delegates_reaches(reader, relation, &prototype, restriction)
}

fn frob_only_restriction(restriction: &Value) -> (delegate: Option<Identity>)
    ensures
        match delegate {
            Some(found) => required_delegate(restriction@) == Some(found@),
            None => required_delegate(restriction@) is None,
        },
{
    match restriction {
        Value::Frob(delegate, payload) => {
            let marker = Value::named("dispatch/frob_only");
            if same_value(payload, &marker) {
                Some(*delegate)
            } else {
                None
            }
        },
        _ => None,
    }
}

/// Whether a value meets a restriction, where that shows without asking what delegates to what.
pub open spec fn meets_at_sight(value: ValueView, restriction: ValueView) -> Option<bool> {
    if restriction == unrestricted() {
        Some(true)
    } else {
        match required_delegate(restriction) {
            Some(delegate) => match value {
                ValueView::Frob(own, _) => if own == delegate {
                    Some(true)
                } else {
                    None
                },
                _ => Some(false),
            },
            None => if value == restriction {
                Some(true)
            } else {
                match value {
                    ValueView::Frob(own, _) => if ValueView::Identity(own) == restriction {
                        Some(true)
                    } else {
                        None
                    },
                    _ => None,
                }
            },
        }
    }
}

/// Whether what meets one restriction meets another, where that shows without asking what delegates
/// to what.
pub open spec fn entails_at_sight(specific: ValueView, general: ValueView) -> Option<bool> {
    if specific == general || general == unrestricted() {
        Some(true)
    } else if specific == unrestricted() {
        Some(false)
    } else {
        meets_at_sight(specific, general)
    }
}

/// Whether a question about delegation was answered at sight where it could be, and failed where it
/// could not be and the relation cannot be read.
pub open spec fn reads_if_needed(
    visible: Visible,
    relation: u64,
    at_sight: Option<bool>,
    result: Result<bool, KernelError>,
) -> bool {
    match at_sight {
        Some(answer) => result == Ok::<bool, KernelError>(answer),
        None => read_fault(visible, relation, 3) is Some ==> result is Err,
    }
}

/// Whether a value meets a restriction.
pub fn matches_restriction<R: RelationRead>(
    reader: &R,
    relation: RelationId,
    prototypes: &PrimitivePrototypes,
    value: &Value,
    restriction: &Value,
) -> (result: Result<bool, KernelError>)
    ensures
        answered(
            seen_as(reader, relation@, 3),
            relation@,
            result,
            |delegates: Set<Row>| meets(*prototypes, delegates, value@, restriction@),
        ),
        reads_if_needed(
            seen_as(reader, relation@, 3),
            relation@,
            meets_at_sight(value@, restriction@),
            result,
        ),
{
    proof {
        lemma_least_rows(seen_as(reader, relation@, 3));
        lemma_nothing_reached(value@, restriction@);
        lemma_nothing_reached(ValueView::Identity(prototypes.frob@), restriction@);
        lemma_nothing_reached(ValueView::Identity(prototypes.answering(value@)), restriction@);
        if let ValueView::Frob(delegate, _) = value@ {
            lemma_nothing_reached(ValueView::Identity(delegate), restriction@);
        }
    }
    let anything = unrestricted_dispatch_restriction();
    if same_value(restriction, &anything) {
        return Ok(true);
    }
    if let Some(required) = frob_only_restriction(restriction) {
        return match value.frob_delegate() {
            None => Ok(false),
            Some(delegate) => identity_matches(
                reader,
                relation,
                delegate,
                &Value::identity(required),
            ),
        };
    }
    if same_value(value, restriction) {
        return Ok(true);
    }
    if let Some(delegate) = value.frob_delegate() {
        match identity_matches(reader, relation, delegate, restriction) {
            Err(error) => {
                return Err(error);
            },
            Ok(true) => {
                return Ok(true);
            },
            Ok(false) => {},
        }
        return identity_matches(reader, relation, prototypes.frob, restriction);
    }
    match delegates_reaches(reader, relation, value, restriction) {
        Err(error) => {
            return Err(error);
        },
        Ok(true) => {
            return Ok(true);
        },
        Ok(false) => {},
    }
    if let Some(identity) = value.as_identity() {
        match identity_matches(reader, relation, identity, restriction) {
            Err(error) => {
                return Err(error);
            },
            Ok(true) => {
                return Ok(true);
            },
            Ok(false) => {},
        }
    }
    identity_matches(reader, relation, prototypes.prototype_for_value(value), restriction)
}

/// Whether what meets one restriction meets another.
fn restriction_implies<R: RelationRead>(
    reader: &R,
    relation: RelationId,
    prototypes: &PrimitivePrototypes,
    specific: &Value,
    general: &Value,
) -> (result: Result<bool, KernelError>)
    ensures
        answered(
            seen_as(reader, relation@, 3),
            relation@,
            result,
            |delegates: Set<Row>| entails(*prototypes, delegates, specific@, general@),
        ),
        reads_if_needed(
            seen_as(reader, relation@, 3),
            relation@,
            entails_at_sight(specific@, general@),
            result,
        ),
{
    proof {
        lemma_least_rows(seen_as(reader, relation@, 3));
    }
    let anything = unrestricted_dispatch_restriction();
    if same_value(specific, general) || same_value(general, &anything) {
        return Ok(true);
    }
    if same_value(specific, &anything) {
        return Ok(false);
    }
    matches_restriction(reader, relation, prototypes, specific, general)
}

/// The pairs of values that roles are.
pub open spec fn role_views(roles: Seq<(Value, Value)>) -> Seq<(ValueView, ValueView)> {
    roles.map_values(|role: (Value, Value)| (role.0@, role.1@))
}

/// The value of the first pair with the given role.
pub open spec fn value_for(roles: Seq<(ValueView, ValueView)>, role: ValueView) -> Option<ValueView>
    decreases roles.len(),
{
    if roles.len() == 0 {
        None
    } else if roles[0].0 == role {
        Some(roles[0].1)
    } else {
        value_for(roles.skip(1), role)
    }
}

/// The value of the first pair with the given role.
pub fn role_value<'a>(roles: &'a [(Value, Value)], role: &Value) -> (found: Option<&'a Value>)
    ensures
        match found {
            Some(value) => value_for(role_views(roles@), role@) == Some(value@),
            None => value_for(role_views(roles@), role@) is None,
        },
{
    let ghost all = role_views(roles@);
    let mut i: usize = 0;
    assert(all.skip(0) =~= all);
    while i < roles.len()
        invariant
            i <= roles@.len(),
            all == role_views(roles@),
            value_for(all, role@) == value_for(all.skip(i as int), role@),
        decreases roles@.len() - i,
    {
        proof {
            assert(all.skip(i as int)[0] == (roles@[i as int].0@, roles@[i as int].1@));
            assert(all.skip(i as int).skip(1) =~= all.skip(i + 1));
        }
        if same_value(&roles[i].0, role) {
            return Some(&roles[i].1);
        }
        i = i + 1;
    }
    None
}

/// The place of a parameter among the arguments.
pub open spec fn position_of(param: Row) -> Option<u16> {
    if param.len() > 3 && param[3] is Int && 0 <= param[3]->Int_0 <= u16::MAX {
        Some(param[3]->Int_0 as u16)
    } else {
        None
    }
}

/// Whether every parameter has a place.
pub open spec fn all_placed(params: Seq<Row>) -> bool {
    forall|i: int| 0 <= i < params.len() ==> position_of(#[trigger] params[i]) is Some
}

/// Parameters in order, with one more put behind those that do not come after it.
pub open spec fn placed(params: Seq<Row>, param: Row) -> Seq<Row>
    decreases params.len(),
{
    if params.len() == 0 {
        seq![param]
    } else if position_of(params.last())->0 <= position_of(param)->0 {
        params.push(param)
    } else {
        placed(params.drop_last(), param).push(params.last())
    }
}

/// Parameters in the order of their places, those with one place as they came.
pub open spec fn in_order(params: Seq<Row>) -> Seq<Row>
    decreases params.len(),
{
    if params.len() == 0 {
        Seq::empty()
    } else {
        placed(in_order(params.drop_last()), params.last())
    }
}

/// Parameters in the order of their places, where all have one.
pub open spec fn ordered(params: Seq<Row>) -> Option<Seq<Row>> {
    if all_placed(params) {
        Some(in_order(params))
    } else {
        None
    }
}

fn param_position(param: &Tuple) -> (position: Option<u16>)
    ensures
        position == position_of(param@),
{
    let values = param.values();
    if values.len() > 3 {
        match values[3].as_int() {
            Some(raw) => if 0 <= raw && raw <= 65_535 {
                Some(raw as u16)
            } else {
                None
            },
            None => None,
        }
    } else {
        None
    }
}

/// Puts a parameter behind those that do not come after it.
fn place_param(params: &mut Vec<Tuple>, param: Tuple)
    requires
        all_placed(rows(old(params)@)),
        position_of(param@) is Some,
    ensures
        rows(final(params)@) == placed(rows(old(params)@), param@),
    decreases old(params)@.len(),
{
    let ghost before = rows(params@);
    let len: usize = params.len();
    if len == 0 {
        params.push(param);
        assert(rows(params@) =~= seq![param@]);
        return ;
    }
    assert(before.last() == params@[len - 1]@);
    let last: u16 = match param_position(&params[len - 1]) {
        Some(position) => position,
        None => 0,
    };
    let own: u16 = match param_position(&param) {
        Some(position) => position,
        None => 0,
    };
    if last <= own {
        params.push(param);
        assert(rows(params@) =~= before.push(param@));
        return ;
    }
    let end = params.pop();
    proof {
        assert(rows(params@) =~= before.drop_last());
    }
    let ghost rest = placed(before.drop_last(), param@);
    place_param(params, param);
    if let Some(tuple) = end {
        params.push(tuple);
        assert(rows(params@) =~= rest.push(before.last()));
    }
}

proof fn lemma_placed_keeps(params: Seq<Row>, param: Row)
    requires
        all_placed(params),
        position_of(param) is Some,
    ensures
        all_placed(placed(params, param)),
        placed(params, param).len() == params.len() + 1,
        forall|row: Row| #[trigger]
            placed(params, param).contains(row) ==> row == param || params.contains(row),
    decreases params.len(),
{
    let after = placed(params, param);
    if params.len() == 0 {
    } else if position_of(params.last())->0 <= position_of(param)->0 {
        assert(after == params.push(param));
    } else {
        let rest = params.drop_last();
        lemma_placed_keeps(rest, param);
        assert(after == placed(rest, param).push(params.last()));
        assert forall|row: Row| #[trigger] after.contains(row) implies row == param
            || params.contains(row) by {
            let i = choose|i: int| 0 <= i < after.len() && after[i] == row;
            if i < after.len() - 1 {
                assert(placed(rest, param)[i] == row);
                assert(placed(rest, param).contains(row));
                if row != param {
                    let j = choose|j: int| 0 <= j < rest.len() && rest[j] == row;
                    assert(params[j] == row);
                }
            } else {
                assert(params[params.len() - 1] == row);
            }
        }
    }
}

pub proof fn lemma_in_order_keeps(params: Seq<Row>)
    requires
        all_placed(params),
    ensures
        all_placed(in_order(params)),
        in_order(params).len() == params.len(),
        forall|row: Row| #[trigger] in_order(params).contains(row) ==> params.contains(row),
    decreases params.len(),
{
    if params.len() > 0 {
        let rest = params.drop_last();
        assert forall|i: int| 0 <= i < rest.len() implies position_of(#[trigger] rest[i]) is Some by {
            assert(rest[i] == params[i]);
        }
        lemma_in_order_keeps(rest);
        lemma_placed_keeps(in_order(rest), params.last());
        assert forall|row: Row| #[trigger] in_order(params).contains(row) implies params.contains(
            row,
        ) by {
            if row != params.last() {
                assert(in_order(rest).contains(row));
                let j = choose|j: int| 0 <= j < rest.len() && rest[j] == row;
                assert(params[j] == row);
            }
        }
    }
}

/// Parameters in the order of their places, where all have one.
pub fn ordered_params(params: &[Tuple]) -> (result: Option<Vec<Tuple>>)
    ensures
        match result {
            Some(found) => ordered(rows(params@)) == Some(rows(found@)),
            None => ordered(rows(params@)) is None,
        },
{
    let ghost all = rows(params@);
    let mut found: Vec<Tuple> = Vec::new();
    let mut i: usize = 0;
    proof {
        assert(all.take(0) =~= Seq::empty());
        assert(rows(found@) =~= Seq::empty());
    }
    while i < params.len()
        invariant
            i <= params@.len(),
            all == rows(params@),
            all_placed(all.take(i as int)),
            rows(found@) == in_order(all.take(i as int)),
        decreases params@.len() - i,
    {
        proof {
            assert(all.take(i + 1).drop_last() =~= all.take(i as int));
            assert(all.take(i + 1).last() == params@[i as int]@);
            lemma_in_order_keeps(all.take(i as int));
        }
        if param_position(&params[i]).is_none() {
            assert(position_of(all[i as int]) is None);
            return None;
        }
        place_param(&mut found, params[i].clone());
        proof {
            assert forall|j: int| 0 <= j < i + 1 implies position_of(
                #[trigger] all.take(i + 1)[j],
            ) is Some by {
                if j < i {
                    assert(all.take(i as int)[j] == all[j]);
                }
            }
        }
        i = i + 1;
    }
    assert(all.take(i as int) =~= all);
    Some(found)
}

/// A method that applies, with its parameters.
#[derive(Debug, PartialEq)]
pub struct ApplicableMethod {
    pub method: Value,
    pub params: Vec<Tuple>,
}

/// A method that applies, with the arguments that it is called with.
#[derive(Debug, PartialEq)]
pub struct ApplicableMethodCall {
    pub method: Value,
    pub args: Option<Vec<Value>>,
}

/// A method and its parameters, apart from how they are stored.
pub struct MethodView {
    pub method: ValueView,
    pub params: Seq<Row>,
}

impl View for ApplicableMethod {
    type V = MethodView;

    open spec fn view(&self) -> MethodView {
        MethodView { method: self.method@, params: rows(self.params@) }
    }
}

/// The views of methods.
pub open spec fn method_views(methods: Seq<ApplicableMethod>) -> Seq<MethodView> {
    methods.map_values(|method: ApplicableMethod| method@)
}

/// What is known of the relations that methods are found in.
pub struct DispatchFacts {
    pub selectors: Set<Row>,
    pub params: Set<Row>,
    pub delegates: Set<Row>,
}

/// What is seen of the relations that methods are found in.
pub struct DispatchSeen {
    pub selectors: Visible,
    pub params: Visible,
    pub delegates: Visible,
}

/// What a reader sees of the relations that methods are found in.
pub open spec fn dispatch_seen<R: RelationRead>(
    reader: &R,
    relations: DispatchRelations,
) -> DispatchSeen {
    DispatchSeen {
        selectors: seen_as(reader, relations.method_selector@, 2),
        params: seen_as(reader, relations.param@, 4),
        delegates: seen_as(reader, relations.delegates@, 3),
    }
}

/// Whether the relations that methods are found in may hold what `facts` says, going by
/// what is seen of them.
pub open spec fn may_be(seen: DispatchSeen, facts: DispatchFacts) -> bool {
    &&& may_hold(seen.selectors, 2, facts.selectors)
    &&& may_hold(seen.params, 4, facts.params)
    &&& may_hold(seen.delegates, 3, facts.delegates)
}

/// The rows of a set, in order.
pub open spec fn listing(set: Set<Row>) -> Seq<Row> {
    choose|listed: Seq<Row>| lists(listed, set)
}

/// Bindings of the first of four columns.
pub open spec fn of_method(method: ValueView) -> Seq<Option<ValueView>> {
    seq![Some(method), None, None, None]
}

/// The parameters of a method, in order.
pub open spec fn params_of(facts: DispatchFacts, method: ValueView) -> Seq<Row> {
    listing(matching(facts.params, of_method(method)))
}

/// What a call offers: values for roles, or values in order.
pub enum Offer {
    Named(Seq<(ValueView, ValueView)>),
    Positional(Seq<ValueView>),
}

/// Whether a call offers what the parameters of a method ask for.
pub open spec fn fits(
    prototypes: PrimitivePrototypes,
    delegates: Set<Row>,
    offer: Offer,
    params: Seq<Row>,
) -> bool {
    match offer {
        Offer::Named(roles) => forall|i: int|
            0 <= i < params.len() ==> {
                let value = value_for(roles, (#[trigger] params[i])[1]);
                value is Some && meets(prototypes, delegates, value->0, params[i][2])
            },
        Offer::Positional(args) => match ordered(params) {
            Some(placed) => placed.len() == args.len() && forall|i: int|
                0 <= i < placed.len() ==> meets(
                    prototypes,
                    delegates,
                    args[i],
                    (#[trigger] placed[i])[2],
                ),
            None => false,
        },
    }
}

/// The first parameter with a role.
pub open spec fn param_with_role(params: Seq<Row>, role: ValueView) -> Option<Row>
    decreases params.len(),
{
    if params.len() == 0 {
        None
    } else if params[0][1] == role {
        Some(params[0])
    } else {
        param_with_role(params.skip(1), role)
    }
}

/// Whether one method asks for more than another: at least as much of every argument, and
/// more of one.
pub open spec fn more_specific(
    prototypes: PrimitivePrototypes,
    delegates: Set<Row>,
    named: bool,
    left: Seq<Row>,
    right: Seq<Row>,
) -> bool {
    if named {
        &&& forall|i: int|
            0 <= i < right.len() ==> {
                let param = param_with_role(left, (#[trigger] right[i])[1]);
                param is Some && entails(prototypes, delegates, param->0[2], right[i][2])
            }
        &&& left.len() > right.len() || exists|i: int|
            0 <= i < right.len() && !entails(
                prototypes,
                delegates,
                right[i][2],
                param_with_role(left, (#[trigger] right[i])[1])->0[2],
            )
    } else {
        match (ordered(left), ordered(right)) {
            (Some(l), Some(r)) => {
                &&& l.len() == r.len()
                &&& forall|i: int|
                    0 <= i < r.len() ==> entails(
                        prototypes,
                        delegates,
                        l[i][2],
                        (#[trigger] r[i])[2],
                    )
                &&& exists|i: int|
                    0 <= i < r.len() && !entails(
                        prototypes,
                        delegates,
                        (#[trigger] r[i])[2],
                        l[i][2],
                    )
            },
            _ => false,
        }
    }
}

/// Whether a method has a selector.
pub open spec fn selects(selectors: Set<Row>, method: ValueView, selector: ValueView) -> bool {
    selectors.contains(seq![method, selector])
}

/// The methods with a selector.
pub open spec fn selected(facts: DispatchFacts, selector: ValueView) -> Set<ValueView> {
    Set::new(|method: ValueView| selects(facts.selectors, method, selector))
}

/// The methods with a selector that a call offers enough for.
pub open spec fn candidates(
    facts: DispatchFacts,
    prototypes: PrimitivePrototypes,
    selector: ValueView,
    offer: Offer,
) -> Set<ValueView> {
    selected(facts, selector).filter(
        |method: ValueView| fits(prototypes, facts.delegates, offer, params_of(facts, method)),
    )
}

/// The methods that apply to a call: those that it offers enough for and that no other of
/// them asks for more than.
pub open spec fn applicable(
    facts: DispatchFacts,
    prototypes: PrimitivePrototypes,
    selector: ValueView,
    offer: Offer,
) -> Set<ValueView> {
    let all = candidates(facts, prototypes, selector, offer);
    all.filter(|method: ValueView| !dominated(facts, prototypes, all, offer, method))
}

/// Whether another of some methods asks for more than a method.
pub open spec fn dominated(
    facts: DispatchFacts,
    prototypes: PrimitivePrototypes,
    all: Set<ValueView>,
    offer: Offer,
    method: ValueView,
) -> bool {
    exists|other: ValueView| #[trigger]
        all.contains(other) && other != method && more_specific(
            prototypes,
            facts.delegates,
            offer is Named,
            params_of(facts, other),
            params_of(facts, method),
        )
}

/// Rows of one value each.
pub open spec fn single_rows(values: Seq<ValueView>) -> Seq<Row> {
    values.map_values(|value: ValueView| seq![value])
}

/// Whether values are the members of a set, in order.
pub open spec fn lists_values(values: Seq<ValueView>, set: Set<ValueView>) -> bool {
    increasing(single_rows(values)) && values.to_set() == set
}

/// Whether methods are the members of a set, in order, each with its parameters.
pub open spec fn lists_methods(
    facts: DispatchFacts,
    methods: Seq<MethodView>,
    set: Set<ValueView>,
) -> bool {
    &&& lists_values(methods.map_values(|method: MethodView| method.method), set)
    &&& forall|i: int|
        0 <= i < methods.len() ==> (#[trigger] methods[i]).params == params_of(
            facts,
            methods[i].method,
        )
}

/// The first parameter with a role.
fn param_for_role<'a>(params: &'a [Tuple], role: &Value) -> (found: Option<&'a Tuple>)
    requires
        forall|i: int| 0 <= i < params@.len() ==> (#[trigger] params@[i])@.len() >= 3,
    ensures
        match found {
            Some(param) => param_with_role(rows(params@), role@) == Some(param@) && param@.len() >= 3,
            None => param_with_role(rows(params@), role@) is None,
        },
{
    let ghost all = rows(params@);
    let mut i: usize = 0;
    assert(all.skip(0) =~= all);
    while i < params.len()
        invariant
            i <= params@.len(),
            all == rows(params@),
            forall|i: int| 0 <= i < params@.len() ==> (#[trigger] params@[i])@.len() >= 3,
            param_with_role(all, role@) == param_with_role(all.skip(i as int), role@),
        decreases params@.len() - i,
    {
        proof {
            assert(all.skip(i as int)[0] == params@[i as int]@);
            assert(all.skip(i as int).skip(1) =~= all.skip(i + 1));
        }
        let values = params[i].values();
        if same_value(&values[1], role) {
            return Some(&params[i]);
        }
        i = i + 1;
    }
    None
}

/// Whether one method asks for more than another of the named arguments.
fn named_method_more_specific<R: RelationRead>(
    reader: &R,
    relation: RelationId,
    prototypes: &PrimitivePrototypes,
    left: &[Tuple],
    right: &[Tuple],
) -> (result: Result<bool, KernelError>)
    requires
        forall|i: int| 0 <= i < left@.len() ==> (#[trigger] left@[i])@.len() >= 3,
        forall|i: int| 0 <= i < right@.len() ==> (#[trigger] right@[i])@.len() >= 3,
    ensures
        decided(
            seen_as(reader, relation@, 3),
            relation@,
            result,
            |delegates: Set<Row>| more_specific(
            *prototypes,
            delegates,
            true,
            rows(left@),
            rows(right@),
        ),
        ),
{
    let ghost l = rows(left@);
    let ghost r = rows(right@);
    let ghost visible = seen_as(reader, relation@, 3);
    let mut stricter: bool = left.len() > right.len();
    let mut i: usize = 0;
    while i < right.len()
        invariant
            i <= right@.len(),
            l == rows(left@),
            r == rows(right@),
            visible == seen_as(reader, relation@, 3),
            forall|i: int| 0 <= i < left@.len() ==> (#[trigger] left@[i])@.len() >= 3,
            forall|i: int| 0 <= i < right@.len() ==> (#[trigger] right@[i])@.len() >= 3,
            forall|delegates: Set<Row>| #[trigger]
                may_hold(visible, 3, delegates) ==> (forall|j: int|
                0 <= j < i ==> {
                    let param = param_with_role(l, (#[trigger] r[j])[1]);
                    param is Some && entails(*prototypes, delegates, param->0[2], r[j][2])
                }),
            forall|delegates: Set<Row>| #[trigger]
                may_hold(visible, 3, delegates) ==> stricter == (l.len() > r.len() || exists|j: int|
                0 <= j < i && !entails(
                    *prototypes,
                    delegates,
                    r[j][2],
                    param_with_role(l, (#[trigger] r[j])[1])->0[2],
                )),
        decreases right@.len() - i,
    {
        assert(r[i as int] == right@[i as int]@);
        let theirs = right[i].values();
        let own = match param_for_role(left, &theirs[1]) {
            None => {
                return Ok(false);
            },
            Some(param) => param.values(),
        };
        match restriction_implies(reader, relation, prototypes, &own[2], &theirs[2]) {
            Err(error) => {
                return Err(error);
            },
            Ok(false) => {
                return Ok(false);
            },
            Ok(true) => {},
        }
        match restriction_implies(reader, relation, prototypes, &theirs[2], &own[2]) {
            Err(error) => {
                return Err(error);
            },
            Ok(true) => {},
            Ok(false) => {
                stricter = true;
                assert forall|delegates: Set<Row>| #[trigger]
                    may_hold(visible, 3, delegates) implies !entails(
                    *prototypes,
                    delegates,
                    r[i as int][2],
                    param_with_role(l, r[i as int][1])->0[2],
                ) by {}
            },
        }
        i = i + 1;
    }
    Ok(stricter)
}

/// Whether one method asks for more than another of the arguments in order.
fn positional_method_more_specific<R: RelationRead>(
    reader: &R,
    relation: RelationId,
    prototypes: &PrimitivePrototypes,
    left: &[Tuple],
    right: &[Tuple],
) -> (result: Result<bool, KernelError>)
    ensures
        decided(
            seen_as(reader, relation@, 3),
            relation@,
            result,
            |delegates: Set<Row>| more_specific(
            *prototypes,
            delegates,
            false,
            rows(left@),
            rows(right@),
        ),
        ),
{
    let ghost visible = seen_as(reader, relation@, 3);
    let own = match ordered_params(left) {
        None => {
            return Ok(false);
        },
        Some(params) => params,
    };
    let theirs = match ordered_params(right) {
        None => {
            return Ok(false);
        },
        Some(params) => params,
    };
    if own.len() != theirs.len() {
        return Ok(false);
    }
    let ghost l = rows(own@);
    let ghost r = rows(theirs@);
    proof {
        lemma_in_order_keeps(rows(left@));
        lemma_in_order_keeps(rows(right@));
    }
    let mut stricter: bool = false;
    let mut i: usize = 0;
    while i < theirs.len()
        invariant
            i <= theirs@.len() == own@.len(),
            l == rows(own@),
            r == rows(theirs@),
            ordered(rows(left@)) == Some(l),
            ordered(rows(right@)) == Some(r),
            all_placed(l),
            all_placed(r),
            visible == seen_as(reader, relation@, 3),
            forall|delegates: Set<Row>| #[trigger]
                may_hold(visible, 3, delegates) ==> (forall|j: int|
                0 <= j < i ==> entails(*prototypes, delegates, l[j][2], (#[trigger] r[j])[2])),
            forall|delegates: Set<Row>| #[trigger]
                may_hold(visible, 3, delegates) ==> stricter == (exists|j: int|
                0 <= j < i && !entails(*prototypes, delegates, (#[trigger] r[j])[2], l[j][2])),
        decreases theirs@.len() - i,
    {
        assert(r[i as int] == theirs@[i as int]@);
        assert(l[i as int] == own@[i as int]@);
        assert(position_of(r[i as int]) is Some);
        assert(position_of(l[i as int]) is Some);
        let a = own[i].values();
        let b = theirs[i].values();
        match restriction_implies(reader, relation, prototypes, &a[2], &b[2]) {
            Err(error) => {
                return Err(error);
            },
            Ok(false) => {
                return Ok(false);
            },
            Ok(true) => {},
        }
        match restriction_implies(reader, relation, prototypes, &b[2], &a[2]) {
            Err(error) => {
                return Err(error);
            },
            Ok(true) => {},
            Ok(false) => {
                stricter = true;
                assert forall|delegates: Set<Row>| #[trigger]
                    may_hold(visible, 3, delegates) implies !entails(
                    *prototypes,
                    delegates,
                    r[i as int][2],
                    l[i as int][2],
                ) by {}
            },
        }
        i = i + 1;
    }
    Ok(stricter)
}

/// What a call offers.
#[derive(Clone, Copy)]
pub enum CallOffer<'a> {
    Named(&'a [(Value, Value)]),
    Positional(&'a [Value]),
}

impl<'a> View for CallOffer<'a> {
    type V = Offer;

    open spec fn view(&self) -> Offer {
        match self {
            CallOffer::Named(roles) => Offer::Named(role_views(roles@)),
            CallOffer::Positional(args) => Offer::Positional(views(args@)),
        }
    }
}

/// Whether a call offers what named parameters ask for.
fn params_match<R: RelationRead>(
    reader: &R,
    relation: RelationId,
    prototypes: &PrimitivePrototypes,
    roles: &[(Value, Value)],
    params: &[Tuple],
    param_relation: RelationId,
) -> (result: Result<bool, KernelError>)
    ensures
        ({
            ||| answered(
                seen_as(reader, relation@, 3),
                relation@,
                result,
                |delegates: Set<Row>| fits(
                    *prototypes,
                    delegates,
                    Offer::Named(role_views(roles@)),
                    rows(params@),
                ),
            )
            ||| result is Err && exists|i: int|
                0 <= i < params@.len() && (#[trigger] params@[i])@.len() < 3
        }),
        result == Ok::<bool, KernelError>(true) ==> forall|i: int|
            0 <= i < params@.len() ==> (#[trigger] params@[i])@.len() >= 3,
{
    let ghost all = rows(params@);
    let ghost offered = role_views(roles@);
    let ghost visible = seen_as(reader, relation@, 3);
    let ghost mut shown: Set<Row> = least_rows(visible);
    proof {
        lemma_least_rows(visible);
    }
    let mut i: usize = 0;
    while i < params.len()
        invariant
            i <= params@.len(),
            all == rows(params@),
            offered == role_views(roles@),
            forall|j: int| 0 <= j < i ==> (#[trigger] params@[j])@.len() >= 3,
            visible == seen_as(reader, relation@, 3),
            may_give_rows(visible, 3, shown),
            visible !is Computed ==> may_hold(visible, 3, shown),
            forall|j: int|
                0 <= j < i ==> {
                    let value = value_for(offered, (#[trigger] all[j])[1]);
                    value is Some && meets(*prototypes, shown, value->0, all[j][2])
                },
            forall|delegates: Set<Row>| #[trigger]
                may_hold(visible, 3, delegates) ==> (forall|j: int|
                0 <= j < i ==> {
                    let value = value_for(offered, (#[trigger] all[j])[1]);
                    value is Some && meets(*prototypes, delegates, value->0, all[j][2])
                }),
        decreases params@.len() - i,
    {
        assert(all[i as int] == params@[i as int]@);
        let values = params[i].values();
        if values.len() < 3 {
            return Err(too_narrow(param_relation));
        }
        match role_value(roles, &values[1]) {
            None => {
                return Ok(false);
            },
            Some(value) => match matches_restriction(
                reader,
                relation,
                prototypes,
                value,
                &values[2],
            ) {
                Err(error) => {
                    return Err(error);
                },
                Ok(false) => {
                    return Ok(false);
                },
                Ok(true) => {
                    proof {
                        let given = choose|given: Set<Row>| #[trigger]
                            may_give_rows(visible, 3, given) && meets(
                                *prototypes,
                                given,
                                value@,
                                all[i as int][2],
                            );
                        if visible is Computed {
                            let both = shown.union(given);
                            assert forall|j: int| 0 <= j < i implies {
                                let value = value_for(offered, (#[trigger] all[j])[1]);
                                value is Some && meets(*prototypes, both, value->0, all[j][2])
                            } by {
                                lemma_more_meets(
                                    *prototypes,
                                    shown,
                                    both,
                                    value_for(offered, all[j][1])->0,
                                    all[j][2],
                                );
                            }
                            lemma_more_meets(*prototypes, given, both, value@, all[i as int][2]);
                            shown = both;
                        }
                    }
                },
            },
        }
        i = i + 1;
    }
    Ok(true)
}

/// Whether a call offers what parameters in order ask for.
fn positional_params_match<R: RelationRead>(
    reader: &R,
    relation: RelationId,
    prototypes: &PrimitivePrototypes,
    args: &[Value],
    params: &[Tuple],
) -> (result: Result<bool, KernelError>)
    ensures
        answered(
            seen_as(reader, relation@, 3),
            relation@,
            result,
            |delegates: Set<Row>| fits(
            *prototypes,
            delegates,
            Offer::Positional(views(args@)),
            rows(params@),
        ),
        ),
{
    let ghost visible = seen_as(reader, relation@, 3);
    let ghost mut shown: Set<Row> = least_rows(visible);
    proof {
        lemma_least_rows(visible);
    }
    let placed = match ordered_params(params) {
        None => {
            return Ok(false);
        },
        Some(placed) => placed,
    };
    if placed.len() != args.len() {
        return Ok(false);
    }
    let ghost all = rows(placed@);
    let ghost offered = views(args@);
    proof {
        lemma_in_order_keeps(rows(params@));
    }
    let mut i: usize = 0;
    while i < placed.len()
        invariant
            i <= placed@.len() == args@.len(),
            all == rows(placed@),
            offered == views(args@),
            ordered(rows(params@)) == Some(all),
            all_placed(all),
            visible == seen_as(reader, relation@, 3),
            may_give_rows(visible, 3, shown),
            visible !is Computed ==> may_hold(visible, 3, shown),
            forall|j: int|
                0 <= j < i ==> meets(*prototypes, shown, offered[j], (#[trigger] all[j])[2]),
            forall|delegates: Set<Row>| #[trigger]
                may_hold(visible, 3, delegates) ==> (forall|j: int|
                0 <= j < i ==> meets(*prototypes, delegates, offered[j], (#[trigger] all[j])[2])),
        decreases placed@.len() - i,
    {
        assert(all[i as int] == placed@[i as int]@);
        assert(offered[i as int] == args@[i as int]@);
        assert(position_of(all[i as int]) is Some);
        let values = placed[i].values();
        match matches_restriction(reader, relation, prototypes, &args[i], &values[2]) {
            Err(error) => {
                return Err(error);
            },
            Ok(false) => {
                return Ok(false);
            },
            Ok(true) => {
                proof {
                    let given = choose|given: Set<Row>| #[trigger]
                        may_give_rows(visible, 3, given) && meets(
                            *prototypes,
                            given,
                            offered[i as int],
                            all[i as int][2],
                        );
                    if visible is Computed {
                        let both = shown.union(given);
                        assert forall|j: int| 0 <= j < i implies meets(
                            *prototypes,
                            both,
                            offered[j],
                            (#[trigger] all[j])[2],
                        ) by {
                            lemma_more_meets(*prototypes, shown, both, offered[j], all[j][2]);
                        }
                        lemma_more_meets(
                            *prototypes,
                            given,
                            both,
                            offered[i as int],
                            all[i as int][2],
                        );
                        shown = both;
                    }
                }
            },
        }
        i = i + 1;
    }
    Ok(true)
}

/// The names of the methods with a selector, one to a row, in order.
fn selected_methods<R: RelationRead>(reader: &R, relation: RelationId, selector: &Value) -> (result:
    Result<Vec<Tuple>, KernelError>)
    ensures
        match scanned(seen_as(reader, relation@, 2), relation@, seq![None, Some(selector@)]) {
            Some(Ok(_)) => result is Ok,
            Some(Err(fault)) => result matches Err(error) && error@ == fault,
            None => true,
        },
        result matches Ok(found) ==> increasing(rows(found@)) && forall|i: int|
            0 <= i < found@.len() ==> (#[trigger] found@[i])@.len() == 1,
        seen_rows(seen_as(reader, relation@, 2), 2) matches Some(selectors) ==> (result matches Ok(found)
            && forall|method: ValueView|
            rows(found@).contains(seq![method]) == #[trigger] selects(
                selectors,
                method,
                selector@,
            )),
{
    let mut bindings: Vec<Option<Value>> = Vec::new();
    bindings.push(None);
    bindings.push(Some(copy_value(selector)));
    assert(option_views(bindings@) =~= seq![None, Some(selector@)]);
    let ghost bound = option_views(bindings@);
    let found = match read_rows(reader, relation, &bindings) {
        Err(error) => {
            return Err(error);
        },
        Ok(found) => found,
    };
    let ghost all = rows(found@);
    let mut names: Vec<Tuple> = Vec::new();
    let mut i: usize = 0;
    while i < found.len()
        invariant
            i <= found@.len(),
            all == rows(found@),
            names@.len() == i,
            scanned(seen_as(reader, relation@, 2), relation@, bound) is Some ==> (forall|j: int|
                0 <= j < found@.len() ==> (#[trigger] found@[j])@.len() == 2),
            forall|j: int| 0 <= j < i ==> (#[trigger] names@[j])@ == seq![all[j][0]],
        decreases found@.len() - i,
    {
        let values = found[i].values();
        if values.len() == 0 {
            return Err(too_narrow(relation));
        }
        let mut one: Vec<Value> = Vec::new();
        one.push(copy_value(&values[0]));
        assert(all[i as int] == found@[i as int]@);
        assert(views(one@) =~= seq![all[i as int][0]]);
        names.push(Tuple::new(one));
        i = i + 1;
    }
    let listed = finish_tuple_rows(names);
    proof {
        assert forall|j: int| 0 <= j < listed@.len() implies (#[trigger] listed@[j])@.len() == 1 by {
            assert(rows(listed@)[j] == listed@[j]@);
            assert(rows(listed@).to_set().contains(listed@[j]@));
            assert(rows(names@).contains(listed@[j]@));
            let k = choose|k: int| 0 <= k < rows(names@).len() && rows(names@)[k] == listed@[j]@;
            assert(names@[k]@ == seq![all[k][0]]);
        }
        if let Some(selectors) = seen_rows(seen_as(reader, relation@, 2), 2) {
            assert forall|method: ValueView|
                rows(listed@).contains(seq![method]) == #[trigger] selects(
                    selectors,
                    method,
                    selector@,
                ) by {
                let whole = seq![method, selector@];
                assert(rows(listed@).contains(seq![method]) == rows(listed@).to_set().contains(
                    seq![method],
                ));
                assert(rows(names@).contains(seq![method]) == rows(names@).to_set().contains(
                    seq![method],
                ));
                if rows(names@).contains(seq![method]) {
                    let k = choose|k: int|
                        0 <= k < rows(names@).len() && rows(names@)[k] == seq![method];
                    assert(names@[k]@ == seq![all[k][0]]);
                    assert(seq![method][0] == seq![all[k][0]][0]);
                    assert(found@[k]@ == all[k]);
                    assert(all.to_set().contains(all[k]));
                    assert(row_matches(all[k], bound));
                    assert(bound[1] is Some);
                    assert(all[k] =~= whole);
                }
                if selectors.contains(whole) {
                    assert(row_matches(whole, bound));
                    assert(all.to_set().contains(whole));
                    let k = choose|k: int| 0 <= k < all.len() && all[k] == whole;
                    assert(names@[k]@ == seq![all[k][0]]);
                    assert(rows(names@)[k] == seq![method]);
                }
            }
        }
    }
    Ok(listed)
}

/// The parameters of a method, in order.
fn method_params<R: RelationRead>(
    reader: &R,
    relation: RelationId,
    method: &Value,
) -> (result: Result<Vec<Tuple>, KernelError>)
    ensures
        seen_as(reader, relation@, 4) !is Computed ==> match read_fault(
            seen_as(reader, relation@, 4),
            relation@,
            4,
        ) {
            Some(fault) => result matches Err(error) && error@ == fault,
            None => result is Ok,
        },
        seen_as(reader, relation@, 4) !is Computed ==> (result matches Ok(found) ==> forall|i: int|
            0 <= i < found@.len() ==> (#[trigger] found@[i])@.len() == 4),
        seen_rows(seen_as(reader, relation@, 4), 4) matches Some(params) ==> (result matches Ok(found)
            && rows(found@) == listing(matching(params, of_method(method@)))),
{
    let mut bindings: Vec<Option<Value>> = Vec::new();
    bindings.push(Some(copy_value(method)));
    bindings.push(None);
    bindings.push(None);
    bindings.push(None);
    assert(option_views(bindings@) =~= of_method(method@));
    let result = read_rows(reader, relation, &bindings);
    proof {
        if let Some(params) = seen_rows(seen_as(reader, relation@, 4), 4) {
            let set = matching(params, of_method(method@));
            let found = result->Ok_0;
            assert(lists(rows(found@), set));
            assert(lists(listing(set), set));
            law_listing_is_unique(rows(found@), listing(set), set);
        }
    }
    result
}

/// Whether a method may rightly be found, though relations be computed: it has the selector, its
/// parameters are its own, and the call offers what they ask for by some reading of delegation.
pub open spec fn well_found(
    seen: DispatchSeen,
    prototypes: PrimitivePrototypes,
    selector: ValueView,
    offer: Offer,
    method: MethodView,
) -> bool {
    &&& seen_rows(seen.selectors, 2) matches Some(selectors) ==> selects(
        selectors,
        method.method,
        selector,
    )
    &&& seen_rows(seen.params, 4) matches Some(params) ==> method.params == listing(
        matching(params, of_method(method.method)),
    )
    &&& exists|delegates: Set<Row>| #[trigger]
        may_give_rows(seen.delegates, 3, delegates) && fits(
            prototypes,
            delegates,
            offer,
            method.params,
        )
}

/// Whether each of several methods may rightly be found.
pub open spec fn all_well_found(
    seen: DispatchSeen,
    prototypes: PrimitivePrototypes,
    selector: ValueView,
    offer: Offer,
    methods: Seq<MethodView>,
) -> bool {
    forall|i: int|
        0 <= i < methods.len() ==> well_found(
            seen,
            prototypes,
            selector,
            offer,
            #[trigger] methods[i],
        )
}

/// The methods with a selector that a call offers enough for, in order.
fn collect_methods<R: RelationRead>(
    reader: &R,
    relations: DispatchRelations,
    prototypes: &PrimitivePrototypes,
    selector: &Value,
    offer: CallOffer,
) -> (result: Result<Vec<ApplicableMethod>, KernelError>)
    ensures
        result matches Ok(found) ==> all_wide(offer@ is Named, found@),
        result matches Ok(found) ==> found@.len() == 0 || seen_as(
            reader,
            relations.param@,
            4,
        ) is Computed || read_fault(
            seen_as(reader, relations.param@, 4),
            relations.param@,
            4,
        ) is None,
        fails_rightly(dispatch_seen(reader, relations), relations, selector@, fault_of(result)),
        result matches Ok(found) ==> forall|facts: DispatchFacts| #[trigger]
            may_be(dispatch_seen(reader, relations), facts) ==> lists_methods(
                facts,
                method_views(found@),
                candidates(facts, *prototypes, selector@, offer@),
            ),
        result matches Ok(found) ==> all_well_found(
            dispatch_seen(reader, relations),
            *prototypes,
            selector@,
            offer@,
            method_views(found@),
        ),
{
    let names = match selected_methods(reader, relations.method_selector, selector) {
        Err(error) => {
            return Err(error);
        },
        Ok(names) => names,
    };
    let ghost all = rows(names@);
    let ghost selectors = seen_rows(seen_as(reader, relations.method_selector@, 2), 2);
    let mut found: Vec<ApplicableMethod> = Vec::new();
    let ghost mut kept: Seq<ValueView> = Seq::empty();
    let mut i: usize = 0;
    while i < names.len()
        invariant
            i <= names@.len(),
            all == rows(names@),
            increasing(all),
            forall|j: int| 0 <= j < names@.len() ==> (#[trigger] names@[j])@.len() == 1,
            scanned(
                seen_as(reader, relations.method_selector@, 2),
                relations.method_selector@,
                seq![None, Some(selector@)],
            ) matches Some(seen) ==> seen is Ok,
            selectors == seen_rows(seen_as(reader, relations.method_selector@, 2), 2),
            selectors is Some ==> (forall|method: ValueView|
                all.contains(seq![method]) == #[trigger] selects(
                    selectors->0,
                    method,
                    selector@,
                )),
            i > 0 ==> seen_as(reader, relations.param@, 4) is Computed || read_fault(
                seen_as(reader, relations.param@, 4),
                relations.param@,
                4,
            ) is None,
            found@.len() <= i,
            all_wide(offer@ is Named, found@),
            all_well_found(
                dispatch_seen(reader, relations),
                *prototypes,
                selector@,
                offer@,
                method_views(found@),
            ),
            kept.len() == found@.len(),
            forall|j: int| 0 <= j < found@.len() ==> (#[trigger] found@[j]).method@ == kept[j],
            increasing(single_rows(kept)),
            forall|j: int, k: int|
                0 <= j < kept.len() && i <= k < all.len() ==> row_less(
                    seq![#[trigger] kept[j]],
                    #[trigger] all[k],
                ),
            forall|facts: DispatchFacts| #[trigger]
                may_be(dispatch_seen(reader, relations), facts) ==> (forall|j: int|
                0 <= j < kept.len() ==> all.contains(seq![#[trigger] kept[j]]) && fits(
                    *prototypes,
                    facts.delegates,
                    offer@,
                    params_of(facts, kept[j]),
                )),
            forall|facts: DispatchFacts| #[trigger]
                may_be(dispatch_seen(reader, relations), facts) ==> (forall|j: int|
                0 <= j < found@.len() ==> rows((#[trigger] found@[j]).params@) == params_of(
                    facts,
                    kept[j],
                )),
            forall|facts: DispatchFacts| #[trigger]
                may_be(dispatch_seen(reader, relations), facts) ==> (forall|k: int|
                0 <= k < i && fits(
                    *prototypes,
                    facts.delegates,
                    offer@,
                    params_of(facts, (#[trigger] all[k])[0]),
                ) ==> kept.contains(all[k][0])),
        decreases names@.len() - i,
    {
        let values = names[i].values();
        let method = copy_value(&values[0]);
        let ghost name = method@;
        proof {
            assert(all[i as int] == names@[i as int]@);
            assert(all[i as int] =~= seq![name]);
            assert(all.contains(seq![name]));
            assert(selectors is Some ==> selects(selectors->0, name, selector@));
        }
        let params = match method_params(reader, relations.param, &method) {
            Err(error) => {
                return Err(error);
            },
            Ok(params) => params,
        };
        let matched = match offer {
            CallOffer::Named(roles) => params_match(
                reader,
                relations.delegates,
                prototypes,
                roles,
                &params,
                relations.param,
            ),
            CallOffer::Positional(args) => positional_params_match(
                reader,
                relations.delegates,
                prototypes,
                args,
                &params,
            ),
        };
        match matched {
            Err(error) => {
                return Err(error);
            },
            Ok(false) => {},
            Ok(true) => {
                let ghost before = kept;
                let ghost told = method_views(found@);
                let ghost one = MethodView { method: method@, params: rows(params@) };
                found.push(ApplicableMethod { method, params });
                proof {
                    assert(method_views(found@) =~= told.push(one));
                    let seen = dispatch_seen(reader, relations);
                    let given = choose|given: Set<Row>| #[trigger]
                        may_give_rows(seen.delegates, 3, given) && fits(
                            *prototypes,
                            given,
                            offer@,
                            one.params,
                        );
                    assert(may_give_rows(seen.delegates, 3, given));
                    assert(well_found(seen, *prototypes, selector@, offer@, one));
                    kept = before.push(name);
                    assert(single_rows(kept) =~= single_rows(before).push(seq![name]));
                    assert forall|a: int, b: int| 0 <= a < b < single_rows(kept).len() implies row_less(
                        #[trigger] single_rows(kept)[a],
                        #[trigger] single_rows(kept)[b],
                    ) by {
                        if b == before.len() {
                            assert(row_less(seq![before[a]], all[i as int]));
                        } else {
                            assert(single_rows(before)[a] == single_rows(kept)[a]);
                            assert(single_rows(before)[b] == single_rows(kept)[b]);
                        }
                    }
                    assert(kept[before.len() as int] == name);
                    assert forall|k: int|
                        0 <= k < before.len() implies #[trigger] kept[k] == before[k] by {}
                    assert forall|v: ValueView| before.contains(v) implies kept.contains(v) by {
                        let k = choose|k: int| 0 <= k < before.len() && before[k] == v;
                        assert(kept[k] == v);
                    }
                }
            },
        }
        proof {
            assert forall|j: int, k: int| 0 <= j < kept.len() && i + 1 <= k < all.len() implies row_less(
                seq![#[trigger] kept[j]],
                #[trigger] all[k],
            ) by {
                if kept[j] == name {
                    assert(row_less(all[i as int], all[k]));
                } else {
                    assert(row_less(seq![kept[j]], all[k]));
                }
            }
        }
        i = i + 1;
    }
    proof {
        assert forall|facts: DispatchFacts| #[trigger]
            may_be(dispatch_seen(reader, relations), facts) implies lists_methods(
            facts,
            method_views(found@),
            candidates(facts, *prototypes, selector@, offer@),
        ) by {
            let set = candidates(facts, *prototypes, selector@, offer@);
            let methods = method_views(found@);
            assert(selectors == Some(facts.selectors));
            assert(methods.map_values(|method: MethodView| method.method) =~= kept);
            assert forall|v: ValueView| kept.to_set().contains(v) == set.contains(v) by {
                assert(selectors->0 == facts.selectors);
                assert(all.contains(seq![v]) == selects(selectors->0, v, selector@));
                if kept.contains(v) {
                    let j = choose|j: int| 0 <= j < kept.len() && kept[j] == v;
                    assert(all.contains(seq![kept[j]]));
                }
                if set.contains(v) {
                    let k = choose|k: int| 0 <= k < all.len() && all[k] == seq![v];
                    assert(all[k][0] == v);
                }
            }
            assert(kept.to_set() =~= set);
            assert forall|j: int| 0 <= j < methods.len() implies (#[trigger] methods[j]).params
                == params_of(facts, methods[j].method) by {
                assert(methods[j] == found@[j]@);
            }
        }
    }
    Ok(found)
}

/// Whether every parameter of every method has a role and a restriction, where they are asked for
/// by role.
pub open spec fn all_wide(named: bool, methods: Seq<ApplicableMethod>) -> bool {
    forall|i: int, j: int|
        named && 0 <= i < methods.len() && 0 <= j < (#[trigger] methods[i]).params@.len() ==> (
        #[trigger] methods[i].params@[j])@.len() >= 3
}

/// Whether another of some methods asks for more than one of them.
fn is_dominated<R: RelationRead>(
    reader: &R,
    relation: RelationId,
    prototypes: &PrimitivePrototypes,
    named: bool,
    methods: &[ApplicableMethod],
    candidate: usize,
) -> (result: Result<bool, KernelError>)
    requires
        all_wide(named, methods@),
        candidate < methods@.len(),
    ensures
        decided(
            seen_as(reader, relation@, 3),
            relation@,
            result,
            |delegates: Set<Row>|
                beaten_among(*prototypes, delegates, named, methods@, candidate as int),
        ),
{
    let ghost visible = seen_as(reader, relation@, 3);
    let mut i: usize = 0;
    while i < methods.len()
        invariant
            i <= methods@.len(),
            all_wide(named, methods@),
            candidate < methods@.len(),
            visible == seen_as(reader, relation@, 3),
            forall|delegates: Set<Row>| #[trigger]
                may_hold(visible, 3, delegates) ==> (forall|j: int|
                0 <= j < i ==> !((#[trigger] methods@[j]).method@
                    != methods@[candidate as int].method@ && more_specific(
                    *prototypes,
                    delegates,
                    named,
                    rows(methods@[j].params@),
                    rows(methods@[candidate as int].params@),
                ))),
        decreases methods@.len() - i,
    {
        if !same_value(&methods[i].method, &methods[candidate].method) {
            let beaten = if named {
                named_method_more_specific(
                    reader,
                    relation,
                    prototypes,
                    &methods[i].params,
                    &methods[candidate].params,
                )
            } else {
                positional_method_more_specific(
                    reader,
                    relation,
                    prototypes,
                    &methods[i].params,
                    &methods[candidate].params,
                )
            };
            match beaten {
                Err(error) => {
                    return Err(error);
                },
                Ok(true) => {
                    return Ok(true);
                },
                Ok(false) => {},
            }
        }
        i = i + 1;
    }
    Ok(false)
}

fn copy_method(method: &ApplicableMethod) -> (copy: ApplicableMethod)
    ensures
        copy@ == method@,
{
    ApplicableMethod { method: copy_value(&method.method), params: copy_tuples(&method.params) }
}

/// The methods that no other of them asks for more than.
fn prune_methods<R: RelationRead>(
    reader: &R,
    relations: DispatchRelations,
    prototypes: &PrimitivePrototypes,
    offer: CallOffer,
    methods: Vec<ApplicableMethod>,
    Ghost(all): Ghost<Set<ValueView>>,
) -> (result: Result<Vec<ApplicableMethod>, KernelError>)
    requires
        all_wide(offer@ is Named, methods@),
        forall|facts: DispatchFacts| #[trigger]
            may_be(dispatch_seen(reader, relations), facts) ==> lists_methods(facts, method_views(methods@), all),
    ensures
        result matches Ok(found) ==> forall|facts: DispatchFacts| #[trigger]
            may_be(dispatch_seen(reader, relations), facts) ==> lists_methods(
                facts,
                method_views(found@),
                all.filter(
                    |method: ValueView| !dominated(facts, *prototypes, all, offer@, method),
                ),
            ),
        result matches Err(error) ==> methods@.len() > 0 && (seen_as(
            reader,
            relations.delegates@,
            3,
        ) is Computed || read_fault(
            seen_as(reader, relations.delegates@, 3),
            relations.delegates@,
            3,
        ) == Some(error@)),
        result matches Ok(found) ==> forall|k: int|
            0 <= k < found@.len() ==> method_views(methods@).contains((#[trigger] found@[k])@),
{
    let ghost names = method_views(methods@).map_values(|method: MethodView| method.method);
    let named: bool = matches!(offer, CallOffer::Named(_));
    let mut found: Vec<ApplicableMethod> = Vec::new();
    let ghost mut kept: Seq<ValueView> = Seq::empty();
    let mut i: usize = 0;
    proof {
        assert forall|j: int| 0 <= j < methods@.len() implies names[j]
            == (#[trigger] methods@[j]).method@ by {}
    }
    while i < methods.len()
        invariant
            i <= methods@.len(),
            all_wide(named, methods@),
            forall|k: int|
                0 <= k < found@.len() ==> method_views(methods@).contains((#[trigger] found@[k])@),
            named == (offer@ is Named),
            forall|facts: DispatchFacts| #[trigger]
                may_be(dispatch_seen(reader, relations), facts) ==> lists_methods(facts, method_views(methods@), all),
            names == method_views(methods@).map_values(|method: MethodView| method.method),
            names.len() == methods@.len(),
            forall|j: int| 0 <= j < methods@.len() ==> names[j] == (#[trigger] methods@[j]).method@,
            kept.len() == found@.len(),
            forall|j: int| 0 <= j < found@.len() ==> (#[trigger] found@[j]).method@ == kept[j],
            forall|facts: DispatchFacts| #[trigger]
                may_be(dispatch_seen(reader, relations), facts) ==> increasing(single_rows(kept)),
            forall|facts: DispatchFacts| #[trigger]
                may_be(dispatch_seen(reader, relations), facts) ==> (forall|j: int, k: int|
                0 <= j < kept.len() && i <= k < names.len() ==> row_less(
                    seq![#[trigger] kept[j]],
                    seq![#[trigger] names[k]],
                )),
            forall|facts: DispatchFacts| #[trigger]
                may_be(dispatch_seen(reader, relations), facts) ==> (forall|j: int|
                0 <= j < kept.len() ==> names.contains(#[trigger] kept[j]) && !dominated(
                    facts,
                    *prototypes,
                    all,
                    offer@,
                    kept[j],
                )),
            forall|facts: DispatchFacts| #[trigger]
                may_be(dispatch_seen(reader, relations), facts) ==> (forall|j: int|
                0 <= j < found@.len() ==> rows((#[trigger] found@[j]).params@) == params_of(
                    facts,
                    kept[j],
                )),
            forall|facts: DispatchFacts| #[trigger]
                may_be(dispatch_seen(reader, relations), facts) ==> (forall|k: int|
                0 <= k < i && !dominated(facts, *prototypes, all, offer@, #[trigger] names[k])
                    ==> kept.contains(names[k])),
        decreases methods@.len() - i,
    {
        let ghost name = names[i as int];
        match is_dominated(reader, relations.delegates, prototypes, named, &methods, i) {
            Err(error) => {
                return Err(error);
            },
            Ok(beaten) => {
                proof {
                    assert forall|facts: DispatchFacts| #[trigger]
                        may_be(dispatch_seen(reader, relations), facts) implies beaten == dominated(
                        facts,
                        *prototypes,
                        all,
                        offer@,
                        name,
                    ) by {
                        let said = method_views(methods@);
                        assert forall|j: int| 0 <= j < said.len() implies #[trigger] said[j]
                            == methods@[j]@ by {}
                        lemma_beaten(
                            *prototypes,
                            facts.delegates,
                            named,
                            methods@,
                            i as int,
                        );
                        lemma_dominated(
                            facts,
                            *prototypes,
                            all,
                            offer@,
                            said,
                            i as int,
                            beaten,
                        );
                    }
                }
                if !beaten {
                    let ghost before = kept;
                    found.push(copy_method(&methods[i]));
                    proof {
                        assert(method_views(methods@)[i as int] == methods@[i as int]@);
                        kept = before.push(name);
                        assert(single_rows(kept) =~= single_rows(before).push(seq![name]));
                        assert forall|facts: DispatchFacts| #[trigger]
                            may_be(dispatch_seen(reader, relations), facts) implies increasing(
                            single_rows(kept),
                        ) by {
                            assert forall|a: int, b: int|
                                0 <= a < b < single_rows(kept).len() implies row_less(
                                #[trigger] single_rows(kept)[a],
                                #[trigger] single_rows(kept)[b],
                            ) by {
                                if b == before.len() {
                                    assert(row_less(seq![before[a]], seq![names[i as int]]));
                                } else {
                                    assert(single_rows(before)[a] == single_rows(kept)[a]);
                                    assert(single_rows(before)[b] == single_rows(kept)[b]);
                                }
                            }
                        }
                        assert(method_views(methods@)[i as int] == methods@[i as int]@);
                        assert(kept[before.len() as int] == name);
                        assert forall|v: ValueView| before.contains(v) implies kept.contains(v) by {
                            let k = choose|k: int| 0 <= k < before.len() && before[k] == v;
                            assert(kept[k] == v);
                        }
                    }
                }
            },
        }
        proof {
            assert forall|facts: DispatchFacts| #[trigger]
                may_be(dispatch_seen(reader, relations), facts) implies (forall|j: int, k: int|
                0 <= j < kept.len() && i + 1 <= k < names.len() ==> row_less(
                    seq![#[trigger] kept[j]],
                    seq![#[trigger] names[k]],
                )) by {
                assert forall|j: int, k: int|
                    0 <= j < kept.len() && i + 1 <= k < names.len() implies row_less(
                    seq![#[trigger] kept[j]],
                    seq![#[trigger] names[k]],
                ) by {
                    if kept[j] == name {
                        assert(single_rows(names)[i as int] == seq![name]);
                        assert(single_rows(names)[k] == seq![names[k]]);
                    } else {
                        assert(row_less(seq![kept[j]], seq![names[k]]));
                    }
                }
            }
        }
        i = i + 1;
    }
    proof {
        assert forall|facts: DispatchFacts| #[trigger]
            may_be(dispatch_seen(reader, relations), facts) implies lists_methods(
            facts,
            method_views(found@),
            all.filter(
                |method: ValueView| !dominated(facts, *prototypes, all, offer@, method),
            ),
        ) by {
            let set = all.filter(
                |method: ValueView| !dominated(facts, *prototypes, all, offer@, method),
            );
            let views = method_views(found@);
            assert(views.map_values(|method: MethodView| method.method) =~= kept);
            assert forall|v: ValueView| kept.to_set().contains(v) == set.contains(v) by {
                if kept.contains(v) {
                    let j = choose|j: int| 0 <= j < kept.len() && kept[j] == v;
                    assert(names.contains(kept[j]));
                    assert(names.to_set().contains(v));
                }
                if set.contains(v) {
                    assert(names.to_set().contains(v));
                    let k = choose|k: int| 0 <= k < names.len() && names[k] == v;
                    assert(kept.contains(names[k]));
                }
            }
            assert(kept.to_set() =~= set);
            assert forall|j: int| 0 <= j < views.len() implies (#[trigger] views[j]).params
                == params_of(facts, views[j].method) by {
                assert(views[j] == found@[j]@);
            }
        }
    }
    Ok(found)
}

/// Whether another of some methods asks for more than the one at `candidate`.
spec fn beaten_among(
    prototypes: PrimitivePrototypes,
    delegates: Set<Row>,
    named: bool,
    methods: Seq<ApplicableMethod>,
    candidate: int,
) -> bool {
    exists|i: int|
        0 <= i < methods.len() && (#[trigger] methods[i]).method@ != methods[candidate].method@
            && more_specific(
            prototypes,
            delegates,
            named,
            rows(methods[i].params@),
            rows(methods[candidate].params@),
        )
}

proof fn lemma_beaten(
    prototypes: PrimitivePrototypes,
    delegates: Set<Row>,
    named: bool,
    methods: Seq<ApplicableMethod>,
    candidate: int,
)
    requires
        0 <= candidate < methods.len(),
    ensures
        beaten_among(prototypes, delegates, named, methods, candidate) == exists|i: int|
            0 <= i < methods.len() && (#[trigger] method_views(methods)[i]).method
                != method_views(methods)[candidate].method && more_specific(
                prototypes,
                delegates,
                named,
                method_views(methods)[i].params,
                method_views(methods)[candidate].params,
            ),
{
    let said = method_views(methods);
    if beaten_among(prototypes, delegates, named, methods, candidate) {
        let i = choose|i: int|
            0 <= i < methods.len() && (#[trigger] methods[i]).method@ != methods[candidate].method@
                && more_specific(
                prototypes,
                delegates,
                named,
                rows(methods[i].params@),
                rows(methods[candidate].params@),
            );
        assert(said[i] == methods[i]@);
    }
    if exists|i: int|
        0 <= i < methods.len() && (#[trigger] said[i]).method != said[candidate].method
            && more_specific(
            prototypes,
            delegates,
            named,
            said[i].params,
            said[candidate].params,
        ) {
        let i = choose|i: int|
            0 <= i < methods.len() && (#[trigger] said[i]).method != said[candidate].method
                && more_specific(
                prototypes,
                delegates,
                named,
                said[i].params,
                said[candidate].params,
            );
        assert(methods[i].method@ == said[i].method);
    }
}

proof fn lemma_dominated(
    facts: DispatchFacts,
    prototypes: PrimitivePrototypes,
    all: Set<ValueView>,
    offer: Offer,
    methods: Seq<MethodView>,
    candidate: int,
    beaten: bool,
)
    requires
        lists_methods(facts, methods, all),
        0 <= candidate < methods.len(),
        beaten == exists|i: int|
            0 <= i < methods.len() && (#[trigger] methods[i]).method != methods[candidate].method
                && more_specific(
                prototypes,
                facts.delegates,
                offer is Named,
                methods[i].params,
                methods[candidate].params,
            ),
    ensures
        beaten == dominated(facts, prototypes, all, offer, methods[candidate].method),
{
    let names = methods.map_values(|method: MethodView| method.method);
    let own = methods[candidate].method;
    assert(methods[candidate].params == params_of(facts, own));
    if beaten {
        let i = choose|i: int|
            0 <= i < methods.len() && (#[trigger] methods[i]).method != methods[candidate].method
                && more_specific(
                prototypes,
                facts.delegates,
                offer is Named,
                methods[i].params,
                methods[candidate].params,
            );
        assert(names[i] == methods[i].method);
        assert(names.to_set().contains(methods[i].method));
        assert(all.contains(methods[i].method));
        assert(methods[i].params == params_of(facts, methods[i].method));
    }
    if dominated(facts, prototypes, all, offer, own) {
        let other = choose|other: ValueView| #[trigger]
            all.contains(other) && other != own && more_specific(
                prototypes,
                facts.delegates,
                offer is Named,
                params_of(facts, other),
                params_of(facts, own),
            );
        assert(names.to_set().contains(other));
        let i = choose|i: int| 0 <= i < names.len() && names[i] == other;
        assert(methods[i].method == other);
        assert(methods[i].params == params_of(facts, other));
    }
}

/// The methods that apply to a call with named arguments, in order, with their parameters.
pub fn applicable_method_entries<R: RelationRead>(
    reader: &R,
    relations: DispatchRelations,
    prototypes: &PrimitivePrototypes,
    selector: &Value,
    roles: &[(Value, Value)],
) -> (result: Result<Vec<ApplicableMethod>, KernelError>)
    ensures
        finds_methods(
            reader,
            relations,
            *prototypes,
            selector@,
            Offer::Named(role_views(roles@)),
            result,
        ),
{
    find_methods(reader, relations, prototypes, selector, CallOffer::Named(roles))
}

/// Whether the methods that apply to a call were found.
pub open spec fn finds_methods<R: RelationRead>(
    reader: &R,
    relations: DispatchRelations,
    prototypes: PrimitivePrototypes,
    selector: ValueView,
    offer: Offer,
    result: Result<Vec<ApplicableMethod>, KernelError>,
) -> bool {
    &&& fails_rightly(dispatch_seen(reader, relations), relations, selector, fault_of(result))
    &&& result matches Ok(found) ==> all_well_found(
        dispatch_seen(reader, relations),
        prototypes,
        selector,
        offer,
        method_views(found@),
    )
    &&& result matches Ok(found) ==> forall|facts: DispatchFacts| #[trigger]
        may_be(dispatch_seen(reader, relations), facts) ==> lists_methods(
            facts,
            method_views(found@),
            applicable(facts, prototypes, selector, offer),
        )
}

/// Why the methods with a selector cannot be read.
pub open spec fn selection_fault(
    seen: DispatchSeen,
    relations: DispatchRelations,
    selector: ValueView,
) -> Option<FaultView> {
    match scanned(seen.selectors, relations.method_selector@, seq![None, Some(selector)]) {
        Some(Err(fault)) => Some(fault),
        _ => None,
    }
}

/// Why something failed, where it did.
pub open spec fn fault_of<T>(result: Result<T, KernelError>) -> Option<FaultView> {
    match result {
        Ok(_) => None,
        Err(error) => Some(error@),
    }
}

/// Whether looking for methods failed where it should and for the right reason: where the
/// methods with a selector cannot be read; where there are some whose parameters cannot be
/// read; and otherwise at most where there are some, and delegation cannot be read or a computed
/// relation decides.
pub open spec fn fails_rightly(
    seen: DispatchSeen,
    relations: DispatchRelations,
    selector: ValueView,
    failed: Option<FaultView>,
) -> bool {
    match selection_fault(seen, relations, selector) {
        Some(fault) => failed == Some(fault),
        None => match seen_rows(seen.selectors, 2) {
            None => true,
            Some(selectors) => match read_fault(seen.params, relations.param@, 4) {
                Some(fault) => failed == if exists|method: ValueView| #[trigger]
                    selects(selectors, method, selector) {
                    Some(fault)
                } else {
                    None
                },
                None => failed is None || (exists|method: ValueView| #[trigger]
                    selects(selectors, method, selector)) && (seen.params is Computed
                    || seen.delegates is Computed || failed == read_fault(
                    seen.delegates,
                    relations.delegates@,
                    3,
                )),
            },
        },
    }
}

fn find_methods<R: RelationRead>(
    reader: &R,
    relations: DispatchRelations,
    prototypes: &PrimitivePrototypes,
    selector: &Value,
    offer: CallOffer,
) -> (result: Result<Vec<ApplicableMethod>, KernelError>)
    ensures
        finds_methods(reader, relations, *prototypes, selector@, offer@, result),
{
    match collect_methods(reader, relations, prototypes, selector, offer) {
        Err(error) => Err(error),
        Ok(methods) => {
            let ghost all = method_views(methods@).map_values(
                |method: MethodView| method.method,
            ).to_set();
            let result = prune_methods(
                reader,
                relations,
                prototypes,
                offer,
                methods,
                Ghost(all),
            );
            proof {
                assert forall|facts: DispatchFacts| #[trigger]
                    may_be(dispatch_seen(reader, relations), facts) implies all.filter(
                    |method: ValueView| !dominated(facts, *prototypes, all, offer@, method),
                ) == applicable(facts, *prototypes, selector@, offer@) by {
                    assert(all == candidates(facts, *prototypes, selector@, offer@));
                }
                let told = method_views(methods@);
                if told.len() > 0 {
                    assert(well_found(
                        dispatch_seen(reader, relations),
                        *prototypes,
                        selector@,
                        offer@,
                        told[0],
                    ));
                }
                if result is Ok {
                    let found = result->Ok_0;
                    assert forall|i: int| 0 <= i < method_views(found@).len() implies well_found(
                        dispatch_seen(reader, relations),
                        *prototypes,
                        selector@,
                        offer@,
                        #[trigger] method_views(found@)[i],
                    ) by {
                        assert(told.contains(found@[i]@));
                        let k = choose|k: int| 0 <= k < told.len() && told[k] == found@[i]@;
                    }
                }
            }
            result
        },
    }
}

fn method_names(methods: &[ApplicableMethod]) -> (names: Vec<Value>)
    ensures
        views(names@) == method_views(methods@).map_values(|method: MethodView| method.method),
{
    let mut names: Vec<Value> = Vec::new();
    let mut i: usize = 0;
    while i < methods.len()
        invariant
            i <= methods@.len(),
            names@.len() == i,
            forall|j: int| 0 <= j < i ==> (#[trigger] names@[j])@ == methods@[j].method@,
        decreases methods@.len() - i,
    {
        names.push(copy_value(&methods[i].method));
        i = i + 1;
    }
    assert(views(names@) =~= method_views(methods@).map_values(
        |method: MethodView| method.method,
    ));
    names
}

/// Whether each of several names is that of a method that may rightly be found.
pub open spec fn all_well_named(
    seen: DispatchSeen,
    prototypes: PrimitivePrototypes,
    selector: ValueView,
    offer: Offer,
    names: Seq<ValueView>,
) -> bool {
    forall|i: int|
        0 <= i < names.len() ==> exists|params: Seq<Row>| #[trigger]
            well_found(
                seen,
                prototypes,
                selector,
                offer,
                MethodView { method: #[trigger] names[i], params },
            )
}

/// Whether the names of the methods that apply to a call were found.
pub open spec fn finds_names<R: RelationRead>(
    reader: &R,
    relations: DispatchRelations,
    prototypes: PrimitivePrototypes,
    selector: ValueView,
    offer: Offer,
    result: Result<Vec<Value>, KernelError>,
) -> bool {
    &&& fails_rightly(dispatch_seen(reader, relations), relations, selector, fault_of(result))
    &&& result matches Ok(found) ==> all_well_named(
        dispatch_seen(reader, relations),
        prototypes,
        selector,
        offer,
        views(found@),
    )
    &&& result matches Ok(found) ==> forall|facts: DispatchFacts| #[trigger]
        may_be(dispatch_seen(reader, relations), facts) ==> lists_values(
            views(found@),
            applicable(facts, prototypes, selector, offer),
        )
}

/// The methods that apply to a call with named arguments, in order.
pub fn applicable_methods<R: RelationRead>(
    reader: &R,
    relations: DispatchRelations,
    prototypes: &PrimitivePrototypes,
    selector: &Value,
    roles: &[(Value, Value)],
) -> (result: Result<Vec<Value>, KernelError>)
    ensures
        finds_names(
            reader,
            relations,
            *prototypes,
            selector@,
            Offer::Named(role_views(roles@)),
            result,
        ),
{
    match find_methods(reader, relations, prototypes, selector, CallOffer::Named(roles)) {
        Err(error) => Err(error),
        Ok(methods) => Ok(method_names(&methods)),
    }
}

/// The methods that apply to a call with arguments in order, in order.
pub fn applicable_positional_methods<R: RelationRead>(
    reader: &R,
    relations: DispatchRelations,
    prototypes: &PrimitivePrototypes,
    selector: &Value,
    args: &[Value],
) -> (result: Result<Vec<Value>, KernelError>)
    ensures
        finds_names(
            reader,
            relations,
            *prototypes,
            selector@,
            Offer::Positional(views(args@)),
            result,
        ),
{
    match find_methods(reader, relations, prototypes, selector, CallOffer::Positional(args)) {
        Err(error) => Err(error),
        Ok(methods) => Ok(method_names(&methods)),
    }
}

/// The values for the roles of parameters, where there is one for each.
pub open spec fn values_for(params: Seq<Row>, roles: Seq<(ValueView, ValueView)>) -> Option<
    Seq<ValueView>,
>
    decreases params.len(),
{
    if params.len() == 0 {
        Some(Seq::empty())
    } else {
        match (values_for(params.drop_last(), roles), value_for(roles, params.last()[1])) {
            (Some(before), Some(value)) => Some(before.push(value)),
            _ => None,
        }
    }
}

/// The values for the roles of parameters, without those that have none.
pub open spec fn values_given(params: Seq<Row>, roles: Seq<(ValueView, ValueView)>) -> Seq<ValueView>
    decreases params.len(),
{
    if params.len() == 0 {
        Seq::empty()
    } else {
        let before = values_given(params.drop_last(), roles);
        match value_for(roles, params.last()[1]) {
            Some(value) => before.push(value),
            None => before,
        }
    }
}

/// The arguments that a method is called with: a value for every parameter, in the order
/// of their places.
pub open spec fn call_args(params: Seq<Row>, roles: Seq<(ValueView, ValueView)>) -> Option<
    Seq<ValueView>,
> {
    match ordered(params) {
        Some(placed) => values_for(placed, roles),
        None => None,
    }
}

/// Whether optional values are as expected.
pub open spec fn gives(found: Option<Vec<Value>>, expected: Option<Seq<ValueView>>) -> bool {
    match (found, expected) {
        (Some(values), Some(views_expected)) => views(values@) == views_expected,
        (None, None) => true,
        _ => false,
    }
}

proof fn lemma_values_missing(params: Seq<Row>, roles: Seq<(ValueView, ValueView)>, n: int)
    requires
        0 <= n <= params.len(),
        values_for(params.take(n), roles) is None,
    ensures
        values_for(params, roles) is None,
    decreases params.len(),
{
    if n == params.len() {
        assert(params.take(n) =~= params);
    } else {
        assert(params.drop_last().take(n) =~= params.take(n));
        lemma_values_missing(params.drop_last(), roles, n);
    }
}

fn method_call_args_from_params(params: &[Tuple], roles: &[(Value, Value)]) -> (args: Option<
    Vec<Value>,
>)
    ensures
        gives(args, call_args(rows(params@), role_views(roles@))),
{
    let placed = match ordered_params(params) {
        None => {
            return None;
        },
        Some(placed) => placed,
    };
    let ghost all = rows(placed@);
    let ghost offered = role_views(roles@);
    proof {
        lemma_in_order_keeps(rows(params@));
        assert(all.take(0) =~= Seq::empty());
    }
    let mut args: Vec<Value> = Vec::new();
    let mut i: usize = 0;
    assert(views(args@) =~= Seq::empty());
    while i < placed.len()
        invariant
            i <= placed@.len(),
            all == rows(placed@),
            ordered(rows(params@)) == Some(all),
            all_placed(all),
            offered == role_views(roles@),
            values_for(all.take(i as int), offered) == Some(views(args@)),
        decreases placed@.len() - i,
    {
        proof {
            assert(all.take(i + 1).drop_last() =~= all.take(i as int));
            assert(all.take(i + 1).last() == placed@[i as int]@);
            assert(position_of(all[i as int]) is Some);
        }
        let values = placed[i].values();
        match role_value(roles, &values[1]) {
            None => {
                proof {
                    lemma_values_missing(all, offered, i + 1);
                }
                return None;
            },
            Some(value) => {
                let ghost before = views(args@);
                args.push(copy_value(value));
                assert(views(args@) =~= before.push(value@));
            },
        }
        i = i + 1;
    }
    assert(all.take(i as int) =~= all);
    Some(args)
}

/// The arguments for named parameters, in the order of their places, without those that
/// have none.
pub fn named_method_args(params: &[Tuple], roles: &[(Value, Value)]) -> (args: Option<Vec<Value>>)
    ensures
        gives(
            args,
            match ordered(rows(params@)) {
                Some(placed) => Some(values_given(placed, role_views(roles@))),
                None => None,
            },
        ),
{
    let placed = match ordered_params(params) {
        None => {
            return None;
        },
        Some(placed) => placed,
    };
    let ghost all = rows(placed@);
    let ghost offered = role_views(roles@);
    proof {
        lemma_in_order_keeps(rows(params@));
        assert(all.take(0) =~= Seq::empty());
    }
    let mut args: Vec<Value> = Vec::new();
    let mut i: usize = 0;
    assert(views(args@) =~= Seq::empty());
    while i < placed.len()
        invariant
            i <= placed@.len(),
            all == rows(placed@),
            all_placed(all),
            offered == role_views(roles@),
            values_given(all.take(i as int), offered) == views(args@),
        decreases placed@.len() - i,
    {
        proof {
            assert(all.take(i + 1).drop_last() =~= all.take(i as int));
            assert(all.take(i + 1).last() == placed@[i as int]@);
            assert(position_of(all[i as int]) is Some);
        }
        let values = placed[i].values();
        match role_value(roles, &values[1]) {
            None => {},
            Some(value) => {
                let ghost before = views(args@);
                args.push(copy_value(value));
                assert(views(args@) =~= before.push(value@));
            },
        }
        i = i + 1;
    }
    assert(all.take(i as int) =~= all);
    Some(args)
}

/// The roles and values that arguments in order stand for.
pub open spec fn args_by_role(params: Seq<Row>, args: Seq<ValueView>) -> Option<
    Seq<(ValueView, ValueView)>,
> {
    match ordered(params) {
        Some(placed) => if placed.len() == args.len() {
            Some(Seq::new(args.len(), |i: int| (placed[i][1], args[i])))
        } else {
            None
        },
        None => None,
    }
}

/// The roles and values that arguments in order stand for.
pub fn positional_method_args(params: &[Tuple], args: &[Value]) -> (result: Option<
    Vec<(Value, Value)>,
>)
    ensures
        match result {
            Some(pairs) => args_by_role(rows(params@), views(args@)) == Some(role_views(pairs@)),
            None => args_by_role(rows(params@), views(args@)) is None,
        },
{
    let placed = match ordered_params(params) {
        None => {
            return None;
        },
        Some(placed) => placed,
    };
    if placed.len() != args.len() {
        return None;
    }
    let ghost all = rows(placed@);
    proof {
        lemma_in_order_keeps(rows(params@));
    }
    let mut pairs: Vec<(Value, Value)> = Vec::new();
    let mut i: usize = 0;
    while i < placed.len()
        invariant
            i <= placed@.len() == args@.len(),
            all == rows(placed@),
            all_placed(all),
            pairs@.len() == i,
            forall|j: int|
                0 <= j < i ==> (#[trigger] pairs@[j]).0@ == all[j][1] && pairs@[j].1@ == args@[j]@,
        decreases placed@.len() - i,
    {
        proof {
            assert(all[i as int] == placed@[i as int]@);
            assert(position_of(all[i as int]) is Some);
        }
        let values = placed[i].values();
        pairs.push((copy_value(&values[1]), copy_value(&args[i])));
        i = i + 1;
    }
    assert(role_views(pairs@) =~= Seq::new(
        views(args@).len(),
        |i: int| (all[i][1], views(args@)[i]),
    ));
    Some(pairs)
}

/// Whether the calls that apply were found, with their arguments.
pub open spec fn finds_calls<R: RelationRead>(
    reader: &R,
    relations: DispatchRelations,
    prototypes: PrimitivePrototypes,
    selector: ValueView,
    roles: Seq<(ValueView, ValueView)>,
    result: Result<Vec<ApplicableMethodCall>, KernelError>,
) -> bool {
    &&& fails_rightly(dispatch_seen(reader, relations), relations, selector, fault_of(result))
    &&& result matches Ok(found) ==> forall|i: int|
        0 <= i < found@.len() ==> exists|params: Seq<Row>|
            {
                &&& #[trigger] well_found(
                    dispatch_seen(reader, relations),
                    prototypes,
                    selector,
                    Offer::Named(roles),
                    MethodView { method: (#[trigger] found@[i]).method@, params },
                )
                &&& gives(found@[i].args, call_args(params, roles))
            }
    &&& result matches Ok(found) ==> forall|facts: DispatchFacts| #[trigger]
        may_be(dispatch_seen(reader, relations), facts) ==> {
            &&& lists_values(
                found@.map_values(|call: ApplicableMethodCall| call.method@),
                applicable(facts, prototypes, selector, Offer::Named(roles)),
            )
            &&& forall|i: int|
                0 <= i < found@.len() ==> gives(
                    (#[trigger] found@[i]).args,
                    call_args(params_of(facts, found@[i].method@), roles),
                )
        }
}

/// Whether a lookup of calls ended as it should: with the reason why nothing was read, where
/// there is one, and else with the calls that apply.
pub open spec fn looks_up_calls<R: RelationRead>(
    fault: Option<FaultView>,
    reader: &R,
    relations: DispatchRelations,
    prototypes: PrimitivePrototypes,
    selector: ValueView,
    roles: Seq<(ValueView, ValueView)>,
    result: Result<Vec<ApplicableMethodCall>, KernelError>,
) -> bool {
    match fault {
        Some(fault) => result matches Err(error) && error@ == fault,
        None => finds_calls(reader, relations, prototypes, selector, roles, result),
    }
}

/// What methods are looked up in.
pub trait DispatchRead: RelationRead + Sized {
    /// Why a lookup of calls fails before anything is read, where it does.
    spec fn lookup_fault(&self, relations: DispatchRelations) -> Option<FaultView>;

    /// The calls that apply, with their arguments, where the reader knows them or finds them.
    fn looked_up_method_calls(
        &self,
        relations: DispatchRelations,
        prototypes: &PrimitivePrototypes,
        selector: &Value,
        roles: &[(Value, Value)],
    ) -> (result: Result<Vec<ApplicableMethodCall>, KernelError>)
        ensures
            looks_up_calls(
                self.lookup_fault(relations),
                self,
                relations,
                *prototypes,
                selector@,
                role_views(roles@),
                result,
            ),
    ;
}

/// The calls that apply, with their arguments, in the order of the methods.
pub fn applicable_method_calls<R: DispatchRead>(
    reader: &R,
    relations: DispatchRelations,
    prototypes: &PrimitivePrototypes,
    selector: &Value,
    roles: &[(Value, Value)],
) -> (result: Result<Vec<ApplicableMethodCall>, KernelError>)
    ensures
        looks_up_calls(
            reader.lookup_fault(relations),
            reader,
            relations,
            *prototypes,
            selector@,
            role_views(roles@),
            result,
        ),
{
    reader.looked_up_method_calls(relations, prototypes, selector, roles)
}

/// The same for roles that are in order already.
pub fn applicable_method_calls_normalized<R: DispatchRead>(
    reader: &R,
    relations: DispatchRelations,
    prototypes: &PrimitivePrototypes,
    selector: &Value,
    roles: &[(Value, Value)],
) -> (result: Result<Vec<ApplicableMethodCall>, KernelError>)
    ensures
        looks_up_calls(
            reader.lookup_fault(relations),
            reader,
            relations,
            *prototypes,
            selector@,
            role_views(roles@),
            result,
        ),
{
    reader.looked_up_method_calls(relations, prototypes, selector, roles)
}

/// The calls that apply, read out of the relations.
pub fn applicable_method_calls_uncached<R: RelationRead>(
    reader: &R,
    relations: DispatchRelations,
    prototypes: &PrimitivePrototypes,
    selector: &Value,
    roles: &[(Value, Value)],
) -> (result: Result<Vec<ApplicableMethodCall>, KernelError>)
    ensures
        finds_calls(reader, relations, *prototypes, selector@, role_views(roles@), result),
{
    let methods = match find_methods(
        reader,
        relations,
        prototypes,
        selector,
        CallOffer::Named(roles),
    ) {
        Err(error) => {
            return Err(error);
        },
        Ok(methods) => methods,
    };
    let mut calls: Vec<ApplicableMethodCall> = Vec::new();
    let mut i: usize = 0;
    while i < methods.len()
        invariant
            i <= methods@.len(),
            calls@.len() == i,
            forall|j: int|
                0 <= j < i ==> (#[trigger] calls@[j]).method@ == methods@[j].method@ && gives(
                    calls@[j].args,
                    call_args(rows(methods@[j].params@), role_views(roles@)),
                ),
        decreases methods@.len() - i,
    {
        let args = method_call_args_from_params(&methods[i].params, roles);
        calls.push(ApplicableMethodCall { method: copy_value(&methods[i].method), args });
        i = i + 1;
    }
    proof {
        let names = method_views(methods@).map_values(|method: MethodView| method.method);
        assert(calls@.map_values(|call: ApplicableMethodCall| call.method@) =~= names);
        assert forall|i: int| 0 <= i < calls@.len() implies exists|params: Seq<Row>|
            {
                &&& #[trigger] well_found(
                    dispatch_seen(reader, relations),
                    *prototypes,
                    selector@,
                    Offer::Named(role_views(roles@)),
                    MethodView { method: (#[trigger] calls@[i]).method@, params },
                )
                &&& gives(calls@[i].args, call_args(params, role_views(roles@)))
            } by {
            let told = method_views(methods@)[i];
            assert(told == methods@[i]@);
            assert(well_found(
                dispatch_seen(reader, relations),
                *prototypes,
                selector@,
                Offer::Named(role_views(roles@)),
                MethodView { method: calls@[i].method@, params: told.params },
            ));
        }
        assert forall|facts: DispatchFacts, i: int|
            #![trigger may_be(dispatch_seen(reader, relations), facts), calls@[i]]
            may_be(dispatch_seen(reader, relations), facts) && 0 <= i < calls@.len() implies gives(
            calls@[i].args,
            call_args(params_of(facts, calls@[i].method@), role_views(roles@)),
        ) by {
            assert(method_views(methods@)[i] == methods@[i]@);
        }
    }
    Ok(calls)
}

/// Bindings of the first of two columns.
pub open spec fn of_key(key: ValueView) -> Seq<Option<ValueView>> {
    seq![Some(key), None]
}

/// The program of a method: the second value of the first row with the method.
pub fn method_program_id<R: RelationRead>(reader: &R, relation: RelationId, method: &Value) -> (result:
    Result<Option<Value>, KernelError>)
    ensures
        finds_program(seen_as(reader, relation@, 2), relation@, method@, result),
{
    let mut bindings: Vec<Option<Value>> = Vec::new();
    bindings.push(Some(copy_value(method)));
    bindings.push(None);
    assert(option_views(bindings@) =~= of_key(method@));
    match read_rows(reader, relation, &bindings) {
        Err(error) => Err(error),
        Ok(found) => {
            proof {
                if let Some(programs) = seen_rows(seen_as(reader, relation@, 2), 2) {
                    let set = matching(programs, of_key(method@));
                    assert(lists(listing(set), set));
                    law_listing_is_unique(rows(found@), listing(set), set);
                }
            }
            if found.len() == 0 {
                Ok(None)
            } else {
                assert(rows(found@)[0] == found@[0]@);
                let values = found[0].values();
                if values.len() < 2 {
                    return Err(too_narrow(relation));
                }
                Ok(Some(copy_value(&values[1])))
            }
        },
    }
}

/// Whether the program of a method was found.
pub open spec fn finds_program(
    visible: Visible,
    relation: u64,
    method: ValueView,
    result: Result<Option<Value>, KernelError>,
) -> bool {
    &&& scanned(visible, relation, of_key(method)) matches Some(Err(fault)) ==> (result matches Err(
        error,
    ) && error@ == fault)
    &&& seen_rows(visible, 2) matches Some(programs) ==> {
        let listed = listing(matching(programs, of_key(method)));
        match result {
            Ok(Some(program)) => listed.len() > 0 && program@ == listed[0][1],
            Ok(None) => listed.len() == 0,
            Err(_) => false,
        }
    }
}

/// Whether pairs of values are in order: by role, then by value.
pub open spec fn pair_not_after(a: (ValueView, ValueView), b: (ValueView, ValueView)) -> bool {
    !row_less(seq![b.0, b.1], seq![a.0, a.1])
}

/// Whether roles are in order.
pub open spec fn roles_ordered(roles: Seq<(ValueView, ValueView)>) -> bool {
    forall|i: int, j: int|
        0 <= i < j < roles.len() ==> pair_not_after(#[trigger] roles[i], #[trigger] roles[j])
}

fn pair_row(pair: &(Value, Value)) -> (row: Tuple)
    ensures
        row@ == seq![pair.0@, pair.1@],
{
    let mut values: Vec<Value> = Vec::new();
    values.push(copy_value(&pair.0));
    values.push(copy_value(&pair.1));
    assert(views(values@) =~= seq![pair.0@, pair.1@]);
    Tuple::new(values)
}

/// Puts a pair in its place among ordered ones.
fn place_role(roles: &mut Vec<(Value, Value)>, pair: (Value, Value))
    requires
        roles_ordered(role_views(old(roles)@)),
    ensures
        roles_ordered(role_views(final(roles)@)),
        role_views(final(roles)@).to_multiset() == role_views(old(roles)@).to_multiset().insert(
            (pair.0@, pair.1@),
        ),
{
    let ghost before = role_views(roles@);
    let ghost new = (pair.0@, pair.1@);
    let own = pair_row(&pair);
    let mut at: usize = roles.len();
    while at > 0
        invariant
            at <= roles@.len(),
            before == role_views(roles@),
            own@ == seq![new.0, new.1],
            forall|j: int| at <= j < before.len() ==> pair_not_after(new, #[trigger] before[j]),
            forall|j: int|
                at <= j < before.len() ==> row_less(
                    own@,
                    seq![(#[trigger] before[j]).0, before[j].1],
                ),
            roles_ordered(before),
        ensures
            at <= roles@.len(),
            forall|j: int| at <= j < before.len() ==> pair_not_after(new, #[trigger] before[j]),
            at > 0 ==> pair_not_after(before[at - 1], new),
        decreases at,
    {
        let there = pair_row(&roles[at - 1]);
        proof {
            assert(before[at - 1] == (roles@[at - 1].0@, roles@[at - 1].1@));
            lemma_row_order_total(own@, there@);
        }
        match own.compare(&there) {
            Standing::Before => {
                at = at - 1;
            },
            _ => {
                break;
            },
        }
    }
    roles.insert(at, pair);
    proof {
        let after = role_views(roles@);
        assert(after =~= before.insert(at as int, new));
        assert forall|i: int, j: int| 0 <= i < j < after.len() implies pair_not_after(
            #[trigger] after[i],
            #[trigger] after[j],
        ) by {
            let a = if i < at {
                i
            } else {
                i - 1
            };
            let b = if j < at {
                j
            } else {
                j - 1
            };
            if i == at {
                assert(after[j] == before[b]);
            } else if j == at {
                assert(after[i] == before[a]);
                if a < at - 1 {
                    assert(pair_not_after(before[a], before[at - 1]));
                    lemma_not_after_trans(before[a], before[at - 1], new);
                }
            } else {
                assert(after[i] == before[a]);
                assert(after[j] == before[b]);
            }
        }
        before.insert_ensures(at as int, new);
        vstd::seq_lib::to_multiset_insert(before, at as int, new);
    }
}

proof fn lemma_not_after_trans(
    a: (ValueView, ValueView),
    b: (ValueView, ValueView),
    c: (ValueView, ValueView),
)
    requires
        pair_not_after(a, b),
        pair_not_after(b, c),
    ensures
        pair_not_after(a, c),
{
    let x = seq![a.0, a.1];
    let y = seq![b.0, b.1];
    let z = seq![c.0, c.1];
    lemma_row_order_total(x, y);
    lemma_row_order_total(y, z);
    if row_less(x, y) && row_less(y, z) {
        lemma_row_order_transitive(x, y, z);
        lemma_row_order_total(x, z);
    }
}

/// Puts roles in order: by role, then by value.
pub fn normalize_dispatch_roles(roles: Vec<(Value, Value)>) -> (ordered: Vec<(Value, Value)>)
    ensures
        roles_ordered(role_views(ordered@)),
        role_views(ordered@).to_multiset() == role_views(roles@).to_multiset(),
{
    let ghost all = role_views(roles@);
    let mut ordered: Vec<(Value, Value)> = Vec::new();
    let mut i: usize = 0;
    proof {
        assert(all.take(0) =~= Seq::empty());
        assert(role_views(ordered@) =~= Seq::empty());
    }
    while i < roles.len()
        invariant
            i <= roles@.len(),
            all == role_views(roles@),
            roles_ordered(role_views(ordered@)),
            role_views(ordered@).to_multiset() == all.take(i as int).to_multiset(),
        decreases roles@.len() - i,
    {
        let pair = (copy_value(&roles[i].0), copy_value(&roles[i].1));
        proof {
            assert(all.take(i + 1) =~= all.take(i as int).push(all[i as int]));
            assert(all[i as int] == (pair.0@, pair.1@));
            all.take(i as int).to_multiset_ensures();
        }
        place_role(&mut ordered, pair);
        i = i + 1;
    }
    assert(all.take(i as int) =~= all);
    ordered
}

/// Whether parameters are in the order of their places.
pub open spec fn by_place(params: Seq<Row>) -> bool {
    forall|i: int, j: int|
        0 <= i < j < params.len() ==> position_of(#[trigger] params[i])->0 <= position_of(
            #[trigger] params[j],
        )->0
}

proof fn lemma_placed_in_order(params: Seq<Row>, param: Row, place: u16)
    requires
        all_placed(params),
        position_of(param) is Some,
        by_place(params),
    ensures
        by_place(placed(params, param)),
        placed(params, param).filter(|row: Row| position_of(row) == Some(place)) == params.push(
            param,
        ).filter(|row: Row| position_of(row) == Some(place)),
    decreases params.len(),
{
    let there = |row: Row| position_of(row) == Some(place);
    let after = placed(params, param);
    if params.len() == 0 {
        assert(params.push(param) =~= seq![param]);
    } else if position_of(params.last())->0 <= position_of(param)->0 {
        assert forall|i: int, j: int| 0 <= i < j < after.len() implies position_of(
            #[trigger] after[i],
        )->0 <= position_of(#[trigger] after[j])->0 by {
            if j == params.len() && i < params.len() - 1 {
                assert(position_of(params[i])->0 <= position_of(params[params.len() - 1])->0);
            }
        }
    } else {
        let rest = params.drop_last();
        let last = params.last();
        assert(rest.push(last) =~= params);
        lemma_placed_in_order(rest, param, place);
        lemma_placed_keeps(rest, param);
        let inner = placed(rest, param);
        rest.lemma_filter_push(param, there);
        rest.lemma_filter_push(last, there);
        params.lemma_filter_push(param, there);
        inner.lemma_filter_push(last, there);
        assert forall|i: int, j: int| 0 <= i < j < after.len() implies position_of(
            #[trigger] after[i],
        )->0 <= position_of(#[trigger] after[j])->0 by {
            if j == inner.len() {
                assert(inner[i] == after[i]);
                assert(inner.contains(after[i]));
                if after[i] != param {
                    let k = choose|k: int| 0 <= k < rest.len() && rest[k] == after[i];
                    assert(position_of(params[k])->0 <= position_of(params[params.len() - 1])->0);
                }
            } else {
                assert(inner[i] == after[i]);
                assert(inner[j] == after[j]);
            }
        }
    }
}

/// Ordering parameters puts them in the order of their places, and leaves those with one
/// place as they came.
pub proof fn law_parameters_are_ordered_by_place(params: Seq<Row>, place: u16)
    requires
        all_placed(params),
    ensures
        by_place(in_order(params)),
        in_order(params).filter(|row: Row| position_of(row) == Some(place)) == params.filter(
            |row: Row| position_of(row) == Some(place),
        ),
        in_order(params).len() == params.len(),
    decreases params.len(),
{
    let there = |row: Row| position_of(row) == Some(place);
    lemma_in_order_keeps(params);
    if params.len() > 0 {
        let rest = params.drop_last();
        let last = params.last();
        assert forall|i: int| 0 <= i < rest.len() implies position_of(#[trigger] rest[i]) is Some by {
            assert(rest[i] == params[i]);
        }
        law_parameters_are_ordered_by_place(rest, place);
        lemma_in_order_keeps(rest);
        lemma_placed_in_order(in_order(rest), last, place);
        in_order(rest).lemma_filter_push(last, there);
        rest.lemma_filter_push(last, there);
        assert(rest.push(last) =~= params);
    }
}

/// A method that applies is not one that another applying method asks for more than.
pub proof fn law_applicable_methods_do_not_dominate(
    facts: DispatchFacts,
    prototypes: PrimitivePrototypes,
    selector: ValueView,
    offer: Offer,
    a: ValueView,
    b: ValueView,
)
    requires
        applicable(facts, prototypes, selector, offer).contains(a),
        applicable(facts, prototypes, selector, offer).contains(b),
        a != b,
    ensures
        !more_specific(
            prototypes,
            facts.delegates,
            offer is Named,
            params_of(facts, a),
            params_of(facts, b),
        ),
{
    let all = candidates(facts, prototypes, selector, offer);
    assert(all.contains(a));
    assert(!dominated(facts, prototypes, all, offer, b));
}

/// Delegation carries over: what a value reaches through one that it reaches, it reaches.
pub proof fn law_delegation_is_transitive(
    delegates: Set<Row>,
    a: ValueView,
    b: ValueView,
    c: ValueView,
)
    requires
        reaches(delegates, a, b),
        reaches(delegates, b, c),
    ensures
        reaches(delegates, a, c),
{
    let first = choose|path: Seq<ValueView>| #[trigger]
        is_path(delegates, path) && path.len() >= 2 && path[0] == a && path.last() == b;
    let second = choose|path: Seq<ValueView>| #[trigger]
        is_path(delegates, path) && path.len() >= 2 && path[0] == b && path.last() == c;
    let whole = first + second.skip(1);
    assert forall|i: int| 0 <= i < whole.len() - 1 implies edge(
        delegates,
        #[trigger] whole[i],
        whole[i + 1],
    ) by {
        if i < first.len() - 1 {
            assert(whole[i] == first[i]);
            assert(whole[i + 1] == first[i + 1]);
        } else {
            let j = i - first.len() + 1;
            assert(whole[i] == second[j]);
            assert(whole[i + 1] == second[j + 1]);
        }
    }
    assert(is_path(delegates, whole));
    assert(whole[0] == a);
    assert(whole.last() == c);
}

} // verus!
