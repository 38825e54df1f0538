//! What holds of how methods are looked for, and of when that fails.

use crate::kernel::algebra::{law_listing_is_unique, lists, matching, Row};
use crate::kernel::dispatch::{all_well_found, applicable, call_args, dispatch_seen, entails,
    entails_at_sight, fails_rightly, finds_calls, finds_methods, finds_names, gives, listing,
    lists_methods, lists_values, may_be, meets, meets_at_sight, method_views, of_key, params_of,
    read_fault, seen_rows, selection_fault, selects, single_rows, well_found, ApplicableMethod,
    ApplicableMethodCall, DispatchFacts, DispatchRelations, DispatchSeen, MethodView, Offer,
    PrimitivePrototypes};
use crate::kernel::error::FaultView;
use crate::kernel::inline_cache::ProgramView;
use crate::kernel::read::{RelationRead, Visible};
use crate::kernel::transaction::{program_right, TransactionView};
use crate::tuple::{increasing, lemma_row_order_total, row_less, row_matches, row_standing};
use crate::value::{views, Value, ValueView};
use vstd::prelude::*;

verus! {

/// What is decided of a restriction without reading the delegates holds whatever these are.
pub proof fn law_what_is_decided_at_sight_holds(
    p: PrimitivePrototypes,
    delegates: Set<Row>,
    value: ValueView,
    restriction: ValueView,
)
    ensures
        meets_at_sight(value, restriction) matches Some(answer) ==> answer == meets(
            p,
            delegates,
            value,
            restriction,
        ),
        entails_at_sight(value, restriction) matches Some(answer) ==> answer == entails(
            p,
            delegates,
            value,
            restriction,
        ),
{
}

/// No delegates are read where there is no restriction, where the restriction is the value itself or
/// the value's own delegate, and where only values with a delegate meet it and the value has none.
pub proof fn law_when_no_delegates_are_read(value: ValueView, restriction: ValueView, own: u64)
    ensures
        meets_at_sight(value, ValueView::Symbol("dispatch/unrestricted"@)) == Some(true),
        !(value is Frob) ==> meets_at_sight(value, value) == Some(true),
        value is Frob && value->Frob_0 == own ==> meets_at_sight(value, ValueView::Identity(own))
            == Some(true),
        value is Frob && value->Frob_0 == own ==> meets_at_sight(
            value,
            ValueView::Frob(own, Box::new(ValueView::Symbol("dispatch/frob_only"@))),
        ) == Some(true),
        !(value is Frob) ==> meets_at_sight(
            value,
            ValueView::Frob(own, Box::new(ValueView::Symbol("dispatch/frob_only"@))),
        ) == Some(false),
        entails_at_sight(value, value) == Some(true),
        entails_at_sight(value, ValueView::Symbol("dispatch/unrestricted"@)) == Some(true),
        restriction != ValueView::Symbol("dispatch/unrestricted"@) ==> entails_at_sight(
            ValueView::Symbol("dispatch/unrestricted"@),
            restriction,
        ) == Some(false),
{
}

/// Looking for methods fails for a relation that is not there only where that relation is needed:
/// for that of selectors always, for that of parameters where some method has the selector. Where no
/// method has the selector, nothing fails.
pub proof fn law_when_looking_for_methods_fails(
    seen: DispatchSeen,
    relations: DispatchRelations,
    selector: ValueView,
    failed: Option<FaultView>,
    method: ValueView,
    selectors: Set<Row>,
)
    requires
        fails_rightly(seen, relations, selector, failed),
    ensures
        seen.selectors is Unknown ==> failed == Some(
            FaultView::UnknownRelation(relations.method_selector@),
        ),
        seen.selectors matches Visible::Stored(arity, _) && arity != 2 ==> failed == Some(
            FaultView::ArityMismatch(relations.method_selector@, seen.selectors->Stored_0, 2),
        ),
        seen.selectors == Visible::Stored(2, Ok::<Set<Row>, FaultView>(selectors)) && (
        forall|m: ValueView| !selectors.contains(#[trigger] method_row(m, selector))) ==> failed
            is None,
        seen.selectors == Visible::Stored(2, Ok::<Set<Row>, FaultView>(selectors))
            && selectors.contains(method_row(method, selector)) && seen.params is Unknown ==> failed
            == Some(FaultView::UnknownRelation(relations.param@)),
        seen.selectors == Visible::Stored(2, Ok::<Set<Row>, FaultView>(selectors))
            && seen.params is Stored && seen.params->Stored_0 == 4 && seen.params->Stored_1 is Ok
            && seen.delegates is Unknown && failed is Some ==> failed == Some(
            FaultView::UnknownRelation(relations.delegates@),
        ),
        seen.selectors == Visible::Stored(2, Ok::<Set<Row>, FaultView>(selectors))
            && seen.params is Stored && seen.params->Stored_0 == 4 && seen.params->Stored_1 is Ok
            && seen.delegates is Stored && seen.delegates->Stored_0 == 3
            && seen.delegates->Stored_1 is Ok ==> failed is None,
{
    let bindings = seq![None, Some(selector)];
    assert(bindings.len() == 2);
    assert(selects(selectors, method, selector) == selectors.contains(method_row(method, selector)));
    if seen.selectors == Visible::Stored(2, Ok::<Set<Row>, FaultView>(selectors))
        && selectors.contains(method_row(method, selector)) && seen.params is Unknown {
        assert(selects(selectors, method, selector));
        assert(seen_rows(seen.selectors, 2) == Some(selectors));
        assert(selection_fault(seen, relations, selector) is None);
        assert(read_fault(seen.params, relations.param@, 4) == Some(
            FaultView::UnknownRelation(relations.param@),
        ));
        lemma_params_needed(seen, relations, selector, failed, selectors, method);
    }
    if forall|m: ValueView| !selectors.contains(#[trigger] method_row(m, selector)) {
        assert forall|m: ValueView| !#[trigger] selects(selectors, m, selector) by {
            assert(!selectors.contains(method_row(m, selector)));
        }
    }
}

proof fn lemma_params_needed(
    seen: DispatchSeen,
    relations: DispatchRelations,
    selector: ValueView,
    failed: Option<FaultView>,
    selectors: Set<Row>,
    method: ValueView,
)
    requires
        fails_rightly(seen, relations, selector, failed),
        selection_fault(seen, relations, selector) is None,
        seen_rows(seen.selectors, 2) == Some(selectors),
        read_fault(seen.params, relations.param@, 4) is Some,
        selects(selectors, method, selector),
    ensures
        failed == read_fault(seen.params, relations.param@, 4),
{
    assert(selects(seen_rows(seen.selectors, 2)->0, method, selector));
    if failed is None {
        assert(exists|m: ValueView| #[trigger] selects(seen_rows(seen.selectors, 2)->0, m, selector));
        assert(false);
    }
}

/// The row that says that a method has a selector.
pub open spec fn method_row(method: ValueView, selector: ValueView) -> Row {
    seq![method, selector]
}

/// The methods that are found are just the applicable ones, each once and in the order of values.
pub proof fn law_just_the_applicable_methods_are_found<R: RelationRead>(
    reader: &R,
    relations: DispatchRelations,
    p: PrimitivePrototypes,
    selector: ValueView,
    offer: Offer,
    found: Vec<ApplicableMethod>,
    facts: DispatchFacts,
    method: ValueView,
    i: int,
    j: int,
)
    requires
        finds_methods(reader, relations, p, selector, offer, Ok(found)),
        may_be(dispatch_seen(reader, relations), facts),
        0 <= i < j < found@.len(),
    ensures
        applicable(facts, p, selector, offer).contains(method) <==> exists|k: int|
            0 <= k < found@.len() && (#[trigger] found@[k]).method@ == method,
        row_less(seq![found@[i].method@], seq![found@[j].method@]),
        found@[i].method@ != found@[j].method@,
{
    let views = method_views(found@);
    let set = applicable(facts, p, selector, offer);
    let names = views.map_values(|m: MethodView| m.method);
    assert(lists_methods(facts, views, set));
    assert(lists_values(names, set));
    assert(names.len() == found@.len());
    assert forall|k: int| 0 <= k < names.len() implies #[trigger] names[k] == found@[k].method@ by {
        assert(views[k] == found@[k]@);
    }
    assert(names.to_set().contains(method) <==> names.contains(method));
    if names.contains(method) {
        let k = choose|k: int| 0 <= k < names.len() && names[k] == method;
        assert(found@[k].method@ == method);
    }
    if exists|k: int| 0 <= k < found@.len() && (#[trigger] found@[k]).method@ == method {
        let k = choose|k: int| 0 <= k < found@.len() && (#[trigger] found@[k]).method@ == method;
        assert(names[k] == method);
    }
    let singles = single_rows(names);
    assert(singles[i] == seq![found@[i].method@]);
    assert(singles[j] == seq![found@[j].method@]);
    assert(row_less(singles[i], singles[j]));
    lemma_row_order_total(singles[i], singles[j]);
    assert(singles[i][0] == found@[i].method@);
    assert(singles[j][0] == found@[j].method@);
}

/// A found method has the selector, even where delegates or parameters are computed.
pub proof fn law_a_found_method_has_the_selector<R: RelationRead>(
    reader: &R,
    relations: DispatchRelations,
    p: PrimitivePrototypes,
    selector: ValueView,
    offer: Offer,
    found: Vec<ApplicableMethod>,
    selectors: Set<Row>,
    i: int,
)
    requires
        finds_methods(reader, relations, p, selector, offer, Ok(found)),
        dispatch_seen(reader, relations).selectors == Visible::Stored(
            2,
            Ok::<Set<Row>, FaultView>(selectors),
        ),
        0 <= i < found@.len(),
    ensures
        selectors.contains(method_row(found@[i].method@, selector)),
{
    let views = method_views(found@);
    let seen = dispatch_seen(reader, relations);
    assert(all_well_found(seen, p, selector, offer, views));
    assert(well_found(seen, p, selector, offer, views[i]));
    assert(views[i] == found@[i]@);
}

/// A remembered program stands beside its method in what the transaction sees, and none is remembered
/// just where no row begins with the method.
pub proof fn law_a_remembered_program_stands_beside_its_method(
    view: TransactionView,
    program: ProgramView,
    programs: Set<Row>,
    listed: Seq<Row>,
)
    requires
        view.visible(program.relation) == Visible::Stored(2, Ok::<Set<Row>, FaultView>(programs)),
        forall|row: Row| #[trigger] programs.contains(row) ==> row.len() == 2,
        program_right(view, program),
        increasing(listed),
        forall|row: Row| #[trigger]
            listed.contains(row) <==> programs.contains(row) && row[0] == program.method,
    ensures
        match program.program {
            Some(found) => programs.contains(seq![program.method, found]),
            None => forall|row: Row| #[trigger] programs.contains(row) ==> row[0] != program.method,
        },
{
    let bindings = of_key(program.method);
    let set = matching(programs, bindings);
    assert forall|row: Row| listed.to_set().contains(row) <==> set.contains(row) by {
        if programs.contains(row) {
            assert(bindings[0] is Some);
            if row[0] == program.method {
                assert(row_matches(row, bindings));
            }
            if row_matches(row, bindings) {
                assert(row[0] == bindings[0]->0);
            }
        }
        assert(listed.to_set().contains(row) <==> listed.contains(row));
    }
    assert(listed.to_set() =~= set);
    assert(lists(listed, set));
    law_listing_is_unique(listed, listing(set), set);
    if listed.len() > 0 {
        let row = listed[0];
        assert(listed.contains(row));
        assert(seq![row[0], row[1]] =~= row);
    } else {
        assert forall|row: Row| #[trigger] programs.contains(row) implies row[0] != program.method by {
            assert(!listed.contains(row));
        }
    }
}

/// How two rows stand to each other is told one way round and the other way round alike.
pub proof fn law_rows_stand_to_each_other_one_way(a: Row, b: Row)
    ensures
        row_standing(a, b) is Same <==> a == b,
        row_standing(a, b) is Before <==> row_standing(b, a) is After,
        row_standing(a, b) is Before <==> row_less(a, b),
{
    lemma_row_order_total(a, b);
}

/// The methods that are found by name are just the applicable ones, each once and in the order of
/// values.
pub proof fn law_just_the_applicable_methods_are_named<R: RelationRead>(
    reader: &R,
    relations: DispatchRelations,
    p: PrimitivePrototypes,
    selector: ValueView,
    offer: Offer,
    found: Vec<Value>,
    facts: DispatchFacts,
    method: ValueView,
)
    requires
        finds_names(reader, relations, p, selector, offer, Ok(found)),
        may_be(dispatch_seen(reader, relations), facts),
    ensures
        applicable(facts, p, selector, offer).contains(method) <==> views(found@).contains(method),
        increasing(single_rows(views(found@))),
{
    let names = views(found@);
    assert(lists_values(names, applicable(facts, p, selector, offer)));
    assert(names.to_set().contains(method) <==> names.contains(method));
}

/// The calls that are found by roles are of just the applicable methods, each with the arguments that
/// its parameters take from the roles.
pub proof fn law_calls_are_of_the_applicable_methods<R: RelationRead>(
    reader: &R,
    relations: DispatchRelations,
    p: PrimitivePrototypes,
    selector: ValueView,
    roles: Seq<(ValueView, ValueView)>,
    found: Vec<ApplicableMethodCall>,
    facts: DispatchFacts,
    method: ValueView,
    i: int,
)
    requires
        finds_calls(reader, relations, p, selector, roles, Ok(found)),
        may_be(dispatch_seen(reader, relations), facts),
        0 <= i < found@.len(),
    ensures
        applicable(facts, p, selector, Offer::Named(roles)).contains(method) <==> exists|k: int|
            0 <= k < found@.len() && (#[trigger] found@[k]).method@ == method,
        match (found@[i].args, call_args(params_of(facts, found@[i].method@), roles)) {
            (Some(given), Some(expected)) => views(given@) == expected,
            (None, None) => true,
            _ => false,
        },
{
    let set = applicable(facts, p, selector, Offer::Named(roles));
    let names = found@.map_values(|call: ApplicableMethodCall| call.method@);
    assert(lists_values(names, set));
    assert(names.to_set().contains(method) <==> names.contains(method));
    if names.contains(method) {
        let k = choose|k: int| 0 <= k < names.len() && names[k] == method;
        assert(found@[k].method@ == method);
    }
    if exists|k: int| 0 <= k < found@.len() && (#[trigger] found@[k]).method@ == method {
        let k = choose|k: int| 0 <= k < found@.len() && (#[trigger] found@[k]).method@ == method;
        assert(names[k] == method);
    }
    assert(gives(found@[i].args, call_args(params_of(facts, found@[i].method@), roles)));
}

} // verus!
