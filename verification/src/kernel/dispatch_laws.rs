//! What holds of the methods that are found for a call.

use crate::kernel::algebra::{law_listing_is_unique, lists, matching, Row};
use crate::kernel::dispatch::{all_placed, answered, applicable, args_by_role, by_place, call_args,
    candidates, edge, entails, finds_program, fits, in_order, is_path, law_delegation_is_transitive,
    law_parameters_are_ordered_by_place, lemma_in_order_keeps, listing, may_hold, meets,
    more_specific, of_key, of_method, ordered, params_of, placed, position_of, reaches, read_fault,
    seen_rows, unrestricted, value_for, values_for, DispatchFacts, Offer, PrimitivePrototypes};
use crate::kernel::error::KernelError;
use crate::kernel::read::Visible;
use crate::tuple::{increasing, row_matches};
use crate::value::{Value, ValueView};
use vstd::prelude::*;

verus! {

/// Whether an identity is a value, or the delegate of a value.
pub open spec fn stands_for(identity: u64, value: ValueView) -> bool {
    value == ValueView::Identity(identity) || value is Frob && value->Frob_0 == identity
}

/// Whether no two kinds of values have one prototype.
pub open spec fn prototypes_differ(p: PrimitivePrototypes) -> bool {
    seq![
        p.nothing@,
        p.boolean@,
        p.integer@,
        p.identity@,
        p.symbol@,
        p.string@,
        p.list@,
        p.mapping@,
        p.option@,
        p.frob@,
        p.error@,
        p.capability@,
        p.float@,
        p.bytes@,
        p.relation@,
    ].no_duplicates()
}

/// Whether the value meets the restriction to one identity.
pub open spec fn meets_identity(
    prototypes: PrimitivePrototypes,
    delegates: Set<Row>,
    value: ValueView,
    identity: u64,
) -> bool {
    meets(prototypes, delegates, value, ValueView::Identity(identity))
}

/// A value meets the restriction to the prototype of its kind, whatever delegates to what.
pub proof fn law_a_value_meets_the_prototype_of_its_kind(
    p: PrimitivePrototypes,
    delegates: Set<Row>,
    value: ValueView,
)
    ensures
        value is Nothing ==> meets_identity(p, delegates, value, p.nothing@),
        value is Bool ==> meets_identity(p, delegates, value, p.boolean@),
        value is Int ==> meets_identity(p, delegates, value, p.integer@),
        value is Identity ==> meets_identity(p, delegates, value, p.identity@),
        value is Symbol ==> meets_identity(p, delegates, value, p.symbol@),
        value is String ==> meets_identity(p, delegates, value, p.string@),
        value is List ==> meets_identity(p, delegates, value, p.list@),
        value is Mapping ==> meets_identity(p, delegates, value, p.mapping@),
        value is OptionNone ==> meets_identity(p, delegates, value, p.option@),
        value is OptionSome ==> meets_identity(p, delegates, value, p.option@),
        value is Frob ==> meets_identity(p, delegates, value, p.frob@),
        value is Error ==> meets_identity(p, delegates, value, p.error@),
        value is Capability ==> meets_identity(p, delegates, value, p.capability@),
        value is Float ==> meets_identity(p, delegates, value, p.float@),
        value is Bytes ==> meets_identity(p, delegates, value, p.bytes@),
        value is Relation ==> meets_identity(p, delegates, value, p.relation@),
{
}

proof fn lemma_nothing_delegates(from: ValueView, to: ValueView)
    ensures
        !reaches(Set::<Row>::empty(), from, to),
{
    let none = Set::<Row>::empty();
    if reaches(none, from, to) {
        let path = choose|path: Seq<ValueView>| #[trigger]
            is_path(none, path) && path.len() >= 2 && path[0] == from
                && path.last() == to;
        assert(edge(none, path[0], path[0int + 1]));
    }
}

/// Where nothing delegates and the kinds have different prototypes, a value meets the prototype of
/// no kind but its own, unless the prototype is the value itself or its delegate.
pub proof fn law_without_delegation_a_value_meets_no_other_prototype(
    p: PrimitivePrototypes,
    value: ValueView,
)
    requires
        prototypes_differ(p),
    ensures
        ({
            let none = Set::<Row>::empty();
            &&& meets_identity(p, none, value, p.nothing@) ==> value is Nothing || stands_for(
                p.nothing@,
                value,
            )
            &&& meets_identity(p, none, value, p.boolean@) ==> value is Bool || stands_for(
                p.boolean@,
                value,
            )
            &&& meets_identity(p, none, value, p.integer@) ==> value is Int || stands_for(
                p.integer@,
                value,
            )
            &&& meets_identity(p, none, value, p.identity@) ==> value is Identity || stands_for(
                p.identity@,
                value,
            )
            &&& meets_identity(p, none, value, p.symbol@) ==> value is Symbol || stands_for(
                p.symbol@,
                value,
            )
            &&& meets_identity(p, none, value, p.string@) ==> value is String || stands_for(
                p.string@,
                value,
            )
            &&& meets_identity(p, none, value, p.list@) ==> value is List || stands_for(
                p.list@,
                value,
            )
            &&& meets_identity(p, none, value, p.mapping@) ==> value is Mapping || stands_for(
                p.mapping@,
                value,
            )
            &&& meets_identity(p, none, value, p.option@) ==> value is OptionNone
                || value is OptionSome || stands_for(p.option@, value)
            &&& meets_identity(p, none, value, p.frob@) ==> value is Frob || stands_for(
                p.frob@,
                value,
            )
            &&& meets_identity(p, none, value, p.error@) ==> value is Error || stands_for(
                p.error@,
                value,
            )
            &&& meets_identity(p, none, value, p.capability@) ==> value is Capability || stands_for(
                p.capability@,
                value,
            )
            &&& meets_identity(p, none, value, p.float@) ==> value is Float || stands_for(
                p.float@,
                value,
            )
            &&& meets_identity(p, none, value, p.bytes@) ==> value is Bytes || stands_for(
                p.bytes@,
                value,
            )
            &&& meets_identity(p, none, value, p.relation@) ==> value is Relation || stands_for(
                p.relation@,
                value,
            )
        }),
{
    let all = seq![
        p.nothing@,
        p.boolean@,
        p.integer@,
        p.identity@,
        p.symbol@,
        p.string@,
        p.list@,
        p.mapping@,
        p.option@,
        p.frob@,
        p.error@,
        p.capability@,
        p.float@,
        p.bytes@,
        p.relation@,
    ];
    assert forall|i: int, j: int| 0 <= i < all.len() && 0 <= j < all.len() && i != j implies #[trigger]
        all[i] != #[trigger] all[j] by {}
    assert forall|from: ValueView, to: ValueView| !#[trigger]
        reaches(Set::<Row>::empty(), from, to) by {
        lemma_nothing_delegates(from, to);
    }
    assert(all[0] == p.nothing@ && all[1] == p.boolean@ && all[2] == p.integer@ && all[3]
        == p.identity@ && all[4] == p.symbol@ && all[5] == p.string@ && all[6] == p.list@ && all[7]
        == p.mapping@ && all[8] == p.option@ && all[9] == p.frob@ && all[10] == p.error@ && all[11]
        == p.capability@ && all[12] == p.float@ && all[13] == p.bytes@ && all[14] == p.relation@);
}

/// Matching a restriction to the prototype of a value's kind says yes, wherever what delegates to
/// what is stored.
pub proof fn law_matching_the_own_prototype_says_yes(
    p: PrimitivePrototypes,
    visible: Visible,
    relation: u64,
    value: ValueView,
    prototype: u64,
    result: Result<bool, KernelError>,
    delegates: Set<Row>,
)
    requires
        visible == Visible::Stored(3, Ok(delegates)),
        answered(
            visible,
            relation,
            result,
            |edges: Set<Row>| meets(p, edges, value, ValueView::Identity(prototype)),
        ),
        match value {
            ValueView::Nothing => prototype == p.nothing@,
            ValueView::Bool(_) => prototype == p.boolean@,
            ValueView::Int(_) => prototype == p.integer@,
            ValueView::Identity(_) => prototype == p.identity@,
            ValueView::Symbol(_) => prototype == p.symbol@,
            ValueView::String(_) => prototype == p.string@,
            ValueView::List(_) => prototype == p.list@,
            ValueView::Mapping(_) => prototype == p.mapping@,
            ValueView::OptionNone | ValueView::OptionSome(_) => prototype == p.option@,
            ValueView::Frob(_, _) => prototype == p.frob@,
            ValueView::Error(_, _, _) => prototype == p.error@,
            ValueView::Capability(_) => prototype == p.capability@,
            ValueView::Float(_) => prototype == p.float@,
            ValueView::Bytes(_) => prototype == p.bytes@,
            ValueView::Relation(_, _) => prototype == p.relation@,
        },
    ensures
        result == Ok::<bool, KernelError>(true),
{
    law_a_value_meets_the_prototype_of_its_kind(p, delegates, value);
    assert(may_hold(visible, 3, delegates));
    assert(read_fault(visible, relation, 3) is None);
}

/// Everything meets the restriction of no restriction, and every value but the restriction to values
/// with a delegate meets itself.
pub proof fn law_what_is_met_without_delegation(
    p: PrimitivePrototypes,
    delegates: Set<Row>,
    value: ValueView,
)
    ensures
        meets(p, delegates, value, ValueView::Symbol("dispatch/unrestricted"@)),
        !(value is Frob && *value->Frob_1 == ValueView::Symbol("dispatch/frob_only"@)) ==> meets(
            p,
            delegates,
            value,
            value,
        ),
{
}

/// The restriction to values with a delegate is met just by values with that delegate or with one
/// that delegates to it, and never by an identity or a plain value.
pub proof fn law_only_values_with_a_delegate_meet_such_a_restriction(
    p: PrimitivePrototypes,
    delegates: Set<Row>,
    value: ValueView,
    wanted: u64,
)
    ensures
        meets(
            p,
            delegates,
            value,
            ValueView::Frob(wanted, Box::new(ValueView::Symbol("dispatch/frob_only"@))),
        ) <==> value is Frob && (value->Frob_0 == wanted || reaches(
            delegates,
            ValueView::Identity(value->Frob_0),
            ValueView::Identity(wanted),
        )),
{
}

/// Delegation carries restrictions on: a value that meets the restriction to an identity meets the
/// restriction to every identity that this one delegates to.
pub proof fn law_delegation_carries_restrictions_on(
    p: PrimitivePrototypes,
    delegates: Set<Row>,
    value: ValueView,
    a: u64,
    b: u64,
)
    requires
        meets_identity(p, delegates, value, a),
        reaches(delegates, ValueView::Identity(a), ValueView::Identity(b)),
    ensures
        meets_identity(p, delegates, value, b),
{
    let from = ValueView::Identity(a);
    let to = ValueView::Identity(b);
    if value is Frob {
        let own = ValueView::Identity(value->Frob_0);
        if reaches(delegates, own, from) {
            law_delegation_is_transitive(delegates, own, from, to);
        }
    }
    if reaches(delegates, value, from) {
        law_delegation_is_transitive(delegates, value, from, to);
    }
    let kind = ValueView::Identity(p.answering(value));
    if reaches(delegates, kind, from) {
        law_delegation_is_transitive(delegates, kind, from, to);
    }
}

/// A value that delegates to another, at once or over others, meets the restriction to it; a value
/// with a delegate does what its delegate does.
pub proof fn law_a_value_meets_what_it_delegates_to(
    p: PrimitivePrototypes,
    delegates: Set<Row>,
    value: ValueView,
    b: u64,
)
    ensures
        value !is Frob && reaches(delegates, value, ValueView::Identity(b)) ==> meets_identity(
            p,
            delegates,
            value,
            b,
        ),
        value is Frob && meets_identity(p, delegates, ValueView::Identity(value->Frob_0), b)
            && value->Frob_0 != b && !reaches(
            delegates,
            ValueView::Identity(p.identity@),
            ValueView::Identity(b),
        ) && p.identity@ != b ==> meets_identity(p, delegates, value, b),
        value is Frob && (value->Frob_0 == b || reaches(
            delegates,
            ValueView::Identity(value->Frob_0),
            ValueView::Identity(b),
        )) ==> meets_identity(p, delegates, value, b),
{
}

/// One restriction asks for at least as much as another where they are the same, where the other is
/// none, or where it delegates to the other; no restriction asks for less than any other.
pub proof fn law_which_restrictions_ask_for_more(
    p: PrimitivePrototypes,
    delegates: Set<Row>,
    a: ValueView,
    b: ValueView,
)
    ensures
        entails(p, delegates, a, a),
        entails(p, delegates, a, ValueView::Symbol("dispatch/unrestricted"@)),
        a != ValueView::Symbol("dispatch/unrestricted"@) ==> !entails(
            p,
            delegates,
            ValueView::Symbol("dispatch/unrestricted"@),
            a,
        ),
        a is Identity && b is Identity && reaches(delegates, a, b) ==> entails(p, delegates, a, b),
        delegates == Set::<Row>::empty() && a is Identity && b is Identity && a != b && b
            != ValueView::Identity(p.identity@) ==> !entails(p, delegates, a, b),
{
    if delegates == Set::<Row>::empty() {
        lemma_nothing_delegates(a, b);
        lemma_nothing_delegates(ValueView::Identity(p.identity@), b);
    }
}

/// Whether all parameters take anything.
pub open spec fn take_anything(params: Seq<Row>) -> bool {
    forall|i: int|
        0 <= i < params.len() ==> (#[trigger] params[i])[2] == ValueView::Symbol(
            "dispatch/unrestricted"@,
        )
}

/// Whether some parameter does not take anything.
pub open spec fn restricts(params: Seq<Row>) -> bool {
    exists|i: int|
        0 <= i < params.len() && (#[trigger] params[i])[2] != ValueView::Symbol(
            "dispatch/unrestricted"@,
        )
}

/// A method with arguments in order that restricts one of them asks for more than one with as many
/// arguments that restricts none, and not the other way round.
pub proof fn law_a_restricted_method_asks_for_more(
    p: PrimitivePrototypes,
    delegates: Set<Row>,
    left: Seq<Row>,
    right: Seq<Row>,
)
    requires
        all_placed(left),
        all_placed(right),
        left.len() == right.len(),
        restricts(left),
        take_anything(right),
    ensures
        more_specific(p, delegates, false, left, right),
        !more_specific(p, delegates, false, right, left),
{
    lemma_in_order_keeps(left);
    lemma_in_order_keeps(right);
    let l = in_order(left);
    let r = in_order(right);
    assert forall|i: int| 0 <= i < r.len() implies (#[trigger] r[i])[2] == unrestricted() by {
        assert(r.contains(r[i]));
        let k = choose|k: int| 0 <= k < right.len() && right[k] == r[i];
        assert(right[k][2] == unrestricted());
    }
    let n = choose|i: int| 0 <= i < left.len() && (#[trigger] left[i])[2] != unrestricted();
    assert(left.contains(left[n]));
    lemma_in_order_has(left, left[n]);
    let m = choose|m: int| 0 <= m < l.len() && l[m] == left[n];
    law_which_restrictions_ask_for_more(p, delegates, l[m][2], unrestricted());
    assert(!entails(p, delegates, r[m][2], l[m][2]));
    assert forall|i: int| 0 <= i < r.len() implies entails(
        p,
        delegates,
        l[i][2],
        (#[trigger] r[i])[2],
    ) by {}
}

/// Asking for more goes one way: of two methods with arguments in order, not each asks for more than
/// the other, and none asks for more than itself.
pub proof fn law_asking_for_more_goes_one_way(
    p: PrimitivePrototypes,
    delegates: Set<Row>,
    left: Seq<Row>,
    right: Seq<Row>,
)
    ensures
        !(more_specific(p, delegates, false, left, right) && more_specific(
            p,
            delegates,
            false,
            right,
            left,
        )),
        !more_specific(p, delegates, false, left, left),
{
    if let (Some(l), Some(r)) = (ordered(left), ordered(right)) {
        if more_specific(p, delegates, false, left, right) {
            let i = choose|i: int|
                0 <= i < r.len() && !entails(p, delegates, (#[trigger] r[i])[2], l[i][2]);
            assert(l[i] == l[i]);
            if more_specific(p, delegates, false, right, left) {
                assert(entails(p, delegates, r[i][2], (l[i])[2]));
            }
        }
    }
}

/// Whether rows are the parameters of a method: those of the relation that begin with it, in order.
pub open spec fn are_params(facts: DispatchFacts, method: ValueView, params: Seq<Row>) -> bool {
    &&& increasing(params)
    &&& forall|row: Row| #[trigger]
        params.contains(row) <==> facts.params.contains(row) && row.len() == 4 && row[0] == method
}

proof fn lemma_params(facts: DispatchFacts, method: ValueView, params: Seq<Row>)
    requires
        are_params(facts, method, params),
        forall|row: Row| #[trigger] facts.params.contains(row) ==> row.len() == 4,
    ensures
        params_of(facts, method) == params,
{
    let set = matching(facts.params, of_method(method));
    assert forall|row: Row| params.to_set().contains(row) <==> set.contains(row) by {
        if facts.params.contains(row) {
            let bindings = of_method(method);
            assert(bindings[0] is Some);
            if row[0] == method {
                assert forall|i: int|
                    0 <= i < bindings.len() && (#[trigger] bindings[i]) is Some implies i < row.len()
                    && row[i] == bindings[i]->0 by {}
                assert(row_matches(row, bindings));
            }
            if row_matches(row, bindings) {
                assert(row[0] == bindings[0]->0);
            }
        }
        assert(params.to_set().contains(row) <==> params.contains(row));
    }
    assert(params.to_set() =~= set);
    assert(lists(params, set));
    law_listing_is_unique(params, listing(set), set);
}

/// A method that applies to a call with roles has the selector, and every parameter of it has a role
/// that the call gives a value for, which meets the restriction.
pub proof fn law_a_found_method_takes_what_the_call_gives(
    facts: DispatchFacts,
    p: PrimitivePrototypes,
    selector: ValueView,
    roles: Seq<(ValueView, ValueView)>,
    method: ValueView,
    params: Seq<Row>,
    row: Row,
)
    requires
        applicable(facts, p, selector, Offer::Named(roles)).contains(method),
        are_params(facts, method, params),
        forall|other: Row| #[trigger] facts.params.contains(other) ==> other.len() == 4,
    ensures
        facts.selectors.contains(seq![method, selector]),
        facts.params.contains(row) && row[0] == method ==> exists|k: int|
            0 <= k < roles.len() && (#[trigger] roles[k]).0 == row[1] && meets(
                p,
                facts.delegates,
                roles[k].1,
                row[2],
            ) && forall|j: int| 0 <= j < k ==> (#[trigger] roles[j]).0 != row[1],
{
    lemma_params(facts, method, params);
    if facts.params.contains(row) && row[0] == method {
        assert(params.contains(row));
        let i = choose|i: int| 0 <= i < params.len() && params[i] == row;
        assert(fits(p, facts.delegates, Offer::Named(roles), params));
        assert(value_for(roles, params[i][1]) is Some);
        lemma_first_pair(roles, row[1]);
    }
}

proof fn lemma_first_pair(roles: Seq<(ValueView, ValueView)>, role: ValueView)
    ensures
        match value_for(roles, role) {
            Some(value) => exists|k: int|
                0 <= k < roles.len() && (#[trigger] roles[k]).0 == role && roles[k].1 == value
                    && forall|j: int| 0 <= j < k ==> (#[trigger] roles[j]).0 != role,
            None => forall|j: int| 0 <= j < roles.len() ==> (#[trigger] roles[j]).0 != role,
        },
    decreases roles.len(),
{
    if roles.len() > 0 {
        let rest = roles.skip(1);
        lemma_first_pair(rest, role);
        if roles[0].0 != role {
            match value_for(rest, role) {
                Some(value) => {
                    let k = choose|k: int|
                        0 <= k < rest.len() && (#[trigger] rest[k]).0 == role && rest[k].1 == value
                            && forall|j: int| 0 <= j < k ==> (#[trigger] rest[j]).0 != role;
                    assert(roles[k + 1] == rest[k]);
                    assert forall|j: int| 0 <= j < k + 1 implies (#[trigger] roles[j]).0 != role by {
                        if j > 0 {
                            assert(rest[j - 1] == roles[j]);
                        }
                    }
                },
                None => {
                    assert forall|j: int| 0 <= j < roles.len() implies (#[trigger] roles[j]).0
                        != role by {
                        if j > 0 {
                            assert(rest[j - 1] == roles[j]);
                        }
                    }
                },
            }
        }
    }
}

/// A role has the value of the first pair that names it, and none where no pair does.
pub proof fn law_a_role_has_its_first_value(roles: Seq<(ValueView, ValueView)>, role: ValueView)
    ensures
        match value_for(roles, role) {
            Some(value) => exists|k: int|
                0 <= k < roles.len() && (#[trigger] roles[k]).0 == role && roles[k].1 == value
                    && forall|j: int| 0 <= j < k ==> (#[trigger] roles[j]).0 != role,
            None => forall|j: int| 0 <= j < roles.len() ==> (#[trigger] roles[j]).0 != role,
        },
{
    lemma_first_pair(roles, role);
}

/// Whether the parameter at each place, counted from the first, is known: `placed[i]` is the one at
/// place `i`.
pub open spec fn in_places(placed: Seq<Row>) -> bool {
    forall|i: int|
        0 <= i < placed.len() ==> (#[trigger] placed[i]).len() == 4 && placed[i][3]
            == ValueView::Int(i as i64)
}

proof fn lemma_in_order_has(params: Seq<Row>, row: Row)
    requires
        all_placed(params),
        params.contains(row),
    ensures
        in_order(params).contains(row),
{
    broadcast use vstd::seq_lib::group_filter_ensures;

    let n = choose|n: int| 0 <= n < params.len() && params[n] == row;
    let place = position_of(params[n])->0;
    law_parameters_are_ordered_by_place(params, place);
    let there = |other: Row| position_of(other) == Some(place);
    assert(params.filter(there).contains(row));
    assert(in_order(params).filter(there).contains(row));
    in_order(params).lemma_filter_contains_rev(there, row);
}

proof fn lemma_places(params: Seq<Row>, placed: Seq<Row>)
    requires
        in_places(placed),
        placed.len() <= 0x1_0000,
        params.len() == placed.len(),
        forall|row: Row| #[trigger] params.contains(row) <==> placed.contains(row),
    ensures
        ordered(params) == Some(placed),
{
    assert forall|i: int| 0 <= i < params.len() implies position_of(#[trigger] params[i]) is Some by {
        assert(params.contains(params[i]));
        let k = choose|k: int| 0 <= k < placed.len() && placed[k] == params[i];
        assert(placed[k][3] == ValueView::Int(k as i64));
    }
    lemma_in_order_keeps(params);
    law_parameters_are_ordered_by_place(params, 0);
    let l = in_order(params);
    assert forall|row: Row| #[trigger] l.contains(row) <==> placed.contains(row) by {
        if placed.contains(row) {
            assert(params.contains(row));
            lemma_in_order_has(params, row);
        }
        if l.contains(row) {
            assert(params.contains(row));
        }
    }
    assert forall|i: int| 0 <= i < placed.len() implies l[i] == #[trigger] placed[i] by {
        lemma_place_at(l, placed, i);
    }
    assert(l =~= placed);
}

/// Rows in order of their places, that hold a row for each place, hold the row of a place there.
proof fn lemma_place_at(l: Seq<Row>, placed: Seq<Row>, n: int)
    requires
        in_places(placed),
        placed.len() <= 0x1_0000,
        l.len() == placed.len(),
        by_place(l),
        forall|row: Row| #[trigger] l.contains(row) <==> placed.contains(row),
        0 <= n < placed.len(),
    ensures
        l[n] == placed[n],
    decreases n,
{
    assert forall|i: int| 0 <= i < n implies l[i] == placed[i] by {
        lemma_place_at(l, placed, i);
    }
    assert(l.contains(l[n]));
    let k = choose|k: int| 0 <= k < placed.len() && placed[k] == l[n];
    assert(placed[k][3] == ValueView::Int(k as i64));
    assert(placed[n][3] == ValueView::Int(n as i64));
    assert(placed.contains(placed[n]));
    assert(l.contains(placed[n]));
    let m = choose|m: int| 0 <= m < l.len() && l[m] == placed[n];
    assert(position_of(l[n])->0 == k && position_of(l[m])->0 == n);
    if m < n {
        assert(l[m] == placed[m]);
        assert(placed[m][3] == ValueView::Int(m as i64));
    }
    if k > n {
        assert(m > n);
        assert(position_of(l[n])->0 <= position_of(l[m])->0);
    }
    if k < n {
        lemma_no_repeat(l, placed, n, k);
    }
}

proof fn lemma_no_repeat(l: Seq<Row>, placed: Seq<Row>, n: int, k: int)
    requires
        in_places(placed),
        placed.len() <= 0x1_0000,
        l.len() == placed.len(),
        forall|row: Row| #[trigger] l.contains(row) <==> placed.contains(row),
        0 <= k < n < l.len(),
        l[k] == placed[k],
    ensures
        l[n] != placed[k],
{
    assert forall|i: int, j: int| 0 <= i < placed.len() && 0 <= j < placed.len() && i != j implies
        placed[i] != placed[j] by {
        assert(placed[i][3] == ValueView::Int(i as i64));
        assert(placed[j][3] == ValueView::Int(j as i64));
    }
    assert(placed.no_duplicates());
    placed.unique_seq_to_set();
    let less = l.remove(n);
    assert(l.to_set() =~= placed.to_set());
    if l[n] == placed[k] {
        assert forall|row: Row| l.to_set().contains(row) implies less.to_set().contains(row) by {
            let i = choose|i: int| 0 <= i < l.len() && l[i] == row;
            if i < n {
                assert(less[i] == row);
            } else if i > n {
                assert(less[i - 1] == row);
            } else {
                assert(less[k] == row);
            }
        }
        less.lemma_cardinality_of_set();
        vstd::set_lib::lemma_len_subset(l.to_set(), less.to_set());
    }
}

/// A method with a parameter for each place applies to a call with arguments in order only where
/// there are as many arguments and each meets the restriction of the parameter at its place.
pub proof fn law_a_found_method_takes_each_argument_at_its_place(
    facts: DispatchFacts,
    p: PrimitivePrototypes,
    selector: ValueView,
    args: Seq<ValueView>,
    method: ValueView,
    params: Seq<Row>,
    placed: Seq<Row>,
)
    requires
        applicable(facts, p, selector, Offer::Positional(args)).contains(method),
        are_params(facts, method, params),
        forall|other: Row| #[trigger] facts.params.contains(other) ==> other.len() == 4,
        in_places(placed),
        placed.len() <= 0x1_0000,
        params.len() == placed.len(),
        forall|row: Row| #[trigger] params.contains(row) <==> placed.contains(row),
    ensures
        facts.selectors.contains(seq![method, selector]),
        args.len() == placed.len(),
        forall|i: int|
            0 <= i < args.len() ==> meets(
                p,
                facts.delegates,
                #[trigger] args[i],
                placed[i][2],
            ),
{
    lemma_params(facts, method, params);
    lemma_places(params, placed);
    assert(fits(p, facts.delegates, Offer::Positional(args), params));
    assert forall|i: int| 0 <= i < args.len() implies meets(
        p,
        facts.delegates,
        #[trigger] args[i],
        placed[i][2],
    ) by {
        assert(placed[i] == placed[i]);
    }
}

/// The only method with a selector applies where the call gives it what it takes.
pub proof fn law_the_only_method_applies_where_it_fits(
    facts: DispatchFacts,
    p: PrimitivePrototypes,
    selector: ValueView,
    args: Seq<ValueView>,
    method: ValueView,
    params: Seq<Row>,
    placed: Seq<Row>,
)
    requires
        facts.selectors.contains(seq![method, selector]),
        forall|row: Row| #[trigger]
            facts.selectors.contains(row) && row.len() == 2 && row[1] == selector ==> row[0]
                == method,
        are_params(facts, method, params),
        forall|other: Row| #[trigger] facts.params.contains(other) ==> other.len() == 4,
        in_places(placed),
        placed.len() <= 0x1_0000,
        params.len() == placed.len(),
        forall|row: Row| #[trigger] params.contains(row) <==> placed.contains(row),
        args.len() == placed.len(),
        forall|i: int|
            0 <= i < args.len() ==> meets(p, facts.delegates, #[trigger] args[i], placed[i][2]),
    ensures
        applicable(facts, p, selector, Offer::Positional(args)).contains(method),
        forall|other: ValueView| #[trigger]
            applicable(facts, p, selector, Offer::Positional(args)).contains(other) ==> other
                == method,
{
    lemma_params(facts, method, params);
    lemma_places(params, placed);
    assert forall|i: int| 0 <= i < placed.len() implies meets(
        p,
        facts.delegates,
        args[i],
        (#[trigger] placed[i])[2],
    ) by {
        assert(args[i] == args[i]);
    }
    assert(fits(p, facts.delegates, Offer::Positional(args), params));
    let all = candidates(facts, p, selector, Offer::Positional(args));
    assert(all.contains(method));
    assert forall|other: ValueView| #[trigger] all.contains(other) implies other == method by {
        let row = seq![other, selector];
        assert(facts.selectors.contains(row));
        assert(row[0] == other);
    }
}

/// A method with a list for its only parameter is found for a list, and so for every kind of value:
/// the only method with a selector, with one parameter that is restricted to the prototype of the
/// kind of the argument, applies.
pub proof fn law_a_method_for_a_kind_is_found(
    facts: DispatchFacts,
    p: PrimitivePrototypes,
    selector: ValueView,
    arg: ValueView,
    prototype: u64,
    method: ValueView,
    role: ValueView,
)
    requires
        facts.selectors.contains(seq![method, selector]),
        forall|row: Row| #[trigger]
            facts.selectors.contains(row) && row.len() == 2 && row[1] == selector ==> row[0]
                == method,
        forall|row: Row| #[trigger]
            facts.params.contains(row) <==> row == seq![
                method,
                role,
                ValueView::Identity(prototype),
                ValueView::Int(0),
            ],
        meets_identity(p, facts.delegates, arg, prototype),
    ensures
        applicable(facts, p, selector, Offer::Positional(seq![arg])).contains(method),
{
    let only = seq![method, role, ValueView::Identity(prototype), ValueView::Int(0)];
    let params = seq![only];
    assert forall|row: Row| #[trigger] params.contains(row) <==> facts.params.contains(row)
        && row.len() == 4 && row[0] == method by {
        if params.contains(row) {
            let k = choose|k: int| 0 <= k < params.len() && params[k] == row;
            assert(row == only);
        }
        if facts.params.contains(row) {
            assert(params[0] == row);
        }
    }
    law_the_only_method_applies_where_it_fits(
        facts,
        p,
        selector,
        seq![arg],
        method,
        params,
        params,
    );
}

proof fn lemma_values_for(params: Seq<Row>, roles: Seq<(ValueView, ValueView)>)
    ensures
        match values_for(params, roles) {
            Some(values) => values.len() == params.len() && forall|i: int|
                0 <= i < params.len() ==> value_for(roles, (#[trigger] params[i])[1]) == Some(
                    values[i],
                ),
            None => exists|i: int|
                0 <= i < params.len() && value_for(roles, (#[trigger] params[i])[1]) is None,
        },
    decreases params.len(),
{
    if params.len() > 0 {
        let less = params.drop_last();
        lemma_values_for(less, roles);
        match values_for(less, roles) {
            Some(_) => {
                assert forall|i: int| 0 <= i < less.len() implies #[trigger] params[i] == less[i] by {}
                if value_for(roles, params.last()[1]) is None {
                    assert(value_for(roles, params[params.len() - 1][1]) is None);
                }
            },
            None => {
                let i = choose|i: int|
                    0 <= i < less.len() && value_for(roles, (#[trigger] less[i])[1]) is None;
                assert(params[i] == less[i]);
            },
        }
    }
}

/// The arguments of a call with roles are the values of the roles of the parameters, in the order of
/// their places; there are none where some role has no value.
pub proof fn law_roles_become_arguments_in_place(
    params: Seq<Row>,
    placed: Seq<Row>,
    roles: Seq<(ValueView, ValueView)>,
)
    requires
        in_places(placed),
        placed.len() <= 0x1_0000,
        params.len() == placed.len(),
        forall|row: Row| #[trigger] params.contains(row) <==> placed.contains(row),
    ensures
        match call_args(params, roles) {
            Some(args) => args.len() == placed.len() && forall|i: int|
                0 <= i < placed.len() ==> value_for(roles, (#[trigger] placed[i])[1]) == Some(
                    args[i],
                ),
            None => exists|i: int|
                0 <= i < placed.len() && value_for(roles, (#[trigger] placed[i])[1]) is None,
        },
{
    lemma_places(params, placed);
    lemma_values_for(placed, roles);
}

/// Arguments in order that are turned into roles and back are the same arguments, where no two
/// parameters have one role.
pub proof fn law_arguments_survive_their_roles(params: Seq<Row>, args: Seq<ValueView>)
    requires
        args_by_role(params, args) is Some,
        forall|i: int, j: int|
            0 <= i < j < params.len() ==> (#[trigger] params[i])[1] != (#[trigger] params[j])[1],
    ensures
        call_args(params, args_by_role(params, args)->0) == Some(args),
{
    let placed = ordered(params)->0;
    let roles = args_by_role(params, args)->0;
    lemma_in_order_keeps(params);
    lemma_values_for(placed, roles);
    lemma_roles_differ(params, placed);
    assert forall|i: int| 0 <= i < placed.len() implies value_for(roles, (#[trigger] placed[i])[1])
        == Some(args[i]) by {
        let role = placed[i][1];
        lemma_first_pair(roles, role);
        assert(roles[i].0 == role);
        let value = value_for(roles, role)->0;
        let k = choose|k: int|
            0 <= k < roles.len() && (#[trigger] roles[k]).0 == role && roles[k].1 == value
                && forall|j: int| 0 <= j < k ==> (#[trigger] roles[j]).0 != role;
        assert(placed[k][1] == role);
        if k < i {
            assert(placed[k][1] != placed[i][1]);
        }
        if i < k {
            assert(roles[i].0 != role);
        }
    }
    assert(values_for(placed, roles) is Some);
    let values = values_for(placed, roles)->0;
    assert forall|i: int| 0 <= i < args.len() implies values[i] == args[i] by {
        assert(value_for(roles, placed[i][1]) == Some(args[i]));
    }
    assert(values =~= args);
}

proof fn lemma_roles_differ(params: Seq<Row>, placed: Seq<Row>)
    requires
        placed == in_order(params),
        all_placed(params),
        forall|i: int, j: int|
            0 <= i < j < params.len() ==> (#[trigger] params[i])[1] != (#[trigger] params[j])[1],
    ensures
        forall|i: int, j: int|
            0 <= i < j < placed.len() ==> (#[trigger] placed[i])[1] != (#[trigger] placed[j])[1],
    decreases params.len(),
{
    if params.len() > 0 {
        let less = params.drop_last();
        let last = params.last();
        assert forall|i: int| 0 <= i < less.len() implies position_of(#[trigger] less[i]) is Some by {
            assert(less[i] == params[i]);
        }
        lemma_roles_differ(less, in_order(less));
        lemma_in_order_keeps(less);
        assert forall|i: int| 0 <= i < in_order(less).len() implies (#[trigger] in_order(less)[i])[1]
            != last[1] by {
            assert(in_order(less).contains(in_order(less)[i]));
            let k = choose|k: int| 0 <= k < less.len() && less[k] == in_order(less)[i];
            assert(params[k] == less[k]);
            assert(params[params.len() - 1] == last);
        }
        lemma_placed_roles(in_order(less), last);
    }
}

proof fn lemma_placed_roles(params: Seq<Row>, param: Row)
    requires
        forall|i: int, j: int|
            0 <= i < j < params.len() ==> (#[trigger] params[i])[1] != (#[trigger] params[j])[1],
        forall|i: int| 0 <= i < params.len() ==> (#[trigger] params[i])[1] != param[1],
    ensures
        ({
            let after = placed(params, param);
            forall|i: int, j: int|
                0 <= i < j < after.len() ==> (#[trigger] after[i])[1] != (#[trigger] after[j])[1]
        }),
        forall|row: Row| #[trigger]
            placed(params, param).contains(row) ==> params.contains(row)
                || row == param,
    decreases params.len(),
{
    let after = placed(params, param);
    if params.len() > 0 && position_of(params.last())->0 > position_of(param)->0 {
        let less = params.drop_last();
        let inner = placed(less, param);
        assert forall|i: int| 0 <= i < less.len() implies (#[trigger] less[i])[1] != param[1] by {
            assert(less[i] == params[i]);
        }
        assert forall|i: int, j: int| 0 <= i < j < less.len() implies (#[trigger] less[i])[1]
            != (#[trigger] less[j])[1] by {
            assert(less[i] == params[i] && less[j] == params[j]);
        }
        lemma_placed_roles(less, param);
        assert(after == inner.push(params.last()));
        assert forall|i: int| 0 <= i < inner.len() implies (#[trigger] inner[i])[1]
            != params.last()[1] by {
            assert(inner.contains(inner[i]));
            if inner[i] != param {
                let k = choose|k: int| 0 <= k < less.len() && less[k] == inner[i];
                assert(params[k][1] != params[params.len() - 1][1]);
            }
        }
        assert forall|i: int, j: int| 0 <= i < j < after.len() implies (#[trigger] after[i])[1]
            != (#[trigger] after[j])[1] by {
            assert(after[i] == inner[i]);
            if j < inner.len() {
                assert(after[j] == inner[j]);
            }
        }
        assert forall|row: Row| #[trigger] after.contains(row) implies params.contains(row) || row
            == param by {
            let k = choose|k: int| 0 <= k < after.len() && after[k] == row;
            if k < inner.len() {
                assert(inner[k] == row);
                assert(inner.contains(row));
                if row != param {
                    let m = choose|m: int| 0 <= m < less.len() && less[m] == row;
                    assert(params[m] == row);
                }
            } else {
                assert(params[params.len() - 1] == row);
            }
        }
    } else {
        assert(after =~= params.push(param));
        assert forall|i: int, j: int| 0 <= i < j < after.len() implies (#[trigger] after[i])[1]
            != (#[trigger] after[j])[1] by {
            assert(after[i] == params[i]);
            if j < params.len() {
                assert(after[j] == params[j]);
            }
        }
        assert forall|row: Row| #[trigger] after.contains(row) implies params.contains(row) || row
            == param by {
            let k = choose|k: int| 0 <= k < after.len() && after[k] == row;
            if k < params.len() {
                assert(params[k] == row);
            }
        }
    }
}

/// The program that is found for a method stands beside it in the relation, and none is found just
/// where no row begins with the method.
pub proof fn law_a_found_program_stands_beside_its_method(
    visible: Visible,
    relation: u64,
    method: ValueView,
    programs: Set<Row>,
    listed: Seq<Row>,
    result: Result<Option<Value>, KernelError>,
)
    requires
        visible == Visible::Stored(2, Ok(programs)),
        forall|row: Row| #[trigger] programs.contains(row) ==> row.len() == 2,
        finds_program(visible, relation, method, result),
        increasing(listed),
        forall|row: Row| #[trigger]
            listed.contains(row) <==> programs.contains(row) && row[0] == method,
    ensures
        result is Ok,
        match result->Ok_0 {
            Some(program) => programs.contains(seq![method, program@]),
            None => forall|row: Row| #[trigger] programs.contains(row) ==> row[0] != method,
        },
{
    let bindings = of_key(method);
    let set = matching(programs, bindings);
    assert forall|row: Row| listed.to_set().contains(row) <==> set.contains(row) by {
        if programs.contains(row) {
            assert(bindings[0] is Some);
            if row[0] == method {
                assert(row_matches(row, bindings));
            }
            if row_matches(row, bindings) {
                assert(row[0] == bindings[0]->0);
            }
        }
        assert(listed.to_set().contains(row) <==> listed.contains(row));
    }
    assert(listed.to_set() =~= set);
    assert(lists(listed, set));
    law_listing_is_unique(listed, listing(set), set);
    assert(seen_rows(visible, 2) == Some(programs));
    if listed.len() > 0 {
        let row = listed[0];
        assert(listed.contains(row));
        assert(seq![row[0], row[1]] =~= row);
    } else {
        assert forall|row: Row| #[trigger] programs.contains(row) implies row[0] != method by {
            assert(!listed.contains(row));
        }
    }
}

} // verus!
