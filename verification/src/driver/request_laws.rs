//! What holds of the answers to requests and of the events that tell of tasks.

use crate::driver::embedding::{InvocationOutcomeView, RouterView};
use crate::driver::events::EventQueueView;
use crate::driver::external::{error_value, external_route, option_number, payload_options, query_error, query_fault,
    ready_groups, stream_error_notice, with_option, with_options, ExternalRouteView,
    ReadOnlySourceQueryOptions};
use crate::driver::types::{EventView, TaskContext, TaskId};
use crate::value::{field_of, first_entry, ValueView};
use vstd::prelude::*;

verus! {

/// A request that names a sender to stream to goes to the stream handler with that sender, or is
/// refused, to the sender and to the task alike, where there is none. Any other goes to the driver's
/// own queries where it is one, to the handler where there is one, and is refused otherwise. What
/// refuses a request is an error with one code.
pub proof fn law_who_answers_a_request(
    service: Seq<char>,
    payload: ValueView,
    has_handler: bool,
    has_stream_handler: bool,
)
    ensures
        ({
            let route = external_route(service, payload, has_handler, has_stream_handler);
            let sender = field_of(payload, "stream_to"@);
            &&& sender is Some && has_stream_handler ==> route == ExternalRouteView::Stream(
                sender->0,
            )
            &&& sender is Some && !has_stream_handler ==> route is StreamUnavailable
                && route->StreamUnavailable_0 == sender->0
            &&& sender is None && service == "mica_query"@ ==> route is Query
            &&& sender is None && service != "mica_query"@ && has_handler ==> route is Handler
            &&& sender is None && service != "mica_query"@ && !has_handler ==> route
                is Unavailable
            &&& route matches ExternalRouteView::Unavailable(answer) ==> answer is Error
                && answer->Error_0 == "ExternalUnavailable"@ && answer->Error_1 == Some(
                "no external request handler is configured"@,
            )
            &&& route matches ExternalRouteView::StreamUnavailable(_, notice, answer) ==> {
                &&& answer is Error && answer->Error_0 == "ExternalUnavailable"@
                &&& answer->Error_1 == Some("no external stream request handler is configured"@)
                &&& field_of(notice, "type"@) == Some(ValueView::Symbol("error"@))
                &&& field_of(notice, "message"@) == Some(ValueView::String(answer->Error_1->0))
            }
        }),
{
    reveal_strlit("type");
    reveal_strlit("message");
    assert("type"@.len() == 4);
    assert("message"@.len() == 7);
    reveal_with_fuel(first_entry, 3);
    let message = "no external stream request handler is configured"@;
    let entries = stream_error_notice(message)->Mapping_0;
    assert(entries.drop_first()[0] == entries[1]);
}

/// What an option is in the end: what the last entry that names it sets it to, or what it was.
pub open spec fn set_by_last(
    entries: Seq<(ValueView, ValueView)>,
    name: Seq<char>,
    before: usize,
    after: usize,
) -> bool {
    ||| after == before && forall|i: int|
        0 <= i < entries.len() ==> (#[trigger] entries[i]).0 != ValueView::Symbol(name)
    ||| exists|i: int|
        0 <= i < entries.len() && (#[trigger] entries[i]).0 == ValueView::Symbol(name)
            && entries[i].1 is Int && entries[i].1->Int_0 == after && forall|j: int|
            i < j < entries.len() ==> (#[trigger] entries[j]).0 != ValueView::Symbol(name)
}

proof fn lemma_set_by_last(
    entries: Seq<(ValueView, ValueView)>,
    name: Seq<char>,
    before: usize,
    between: usize,
    after: usize,
)
    requires
        entries.len() > 0,
        set_by_last(entries.drop_first(), name, between, after),
        if entries[0].0 == ValueView::Symbol(name) {
            entries[0].1 is Int && entries[0].1->Int_0 == between
        } else {
            between == before
        },
    ensures
        set_by_last(entries, name, before, after),
{
    let rest = entries.drop_first();
    if forall|i: int| 0 <= i < rest.len() ==> (#[trigger] rest[i]).0 != ValueView::Symbol(name) {
        assert forall|i: int| 0 < i < entries.len() implies (#[trigger] entries[i]).0
            != ValueView::Symbol(name) by {
            assert(rest[i - 1] == entries[i]);
        }
        if entries[0].0 == ValueView::Symbol(name) {
            assert(after == between) by {
                if after != between {
                    let k = choose|k: int|
                        0 <= k < rest.len() && (#[trigger] rest[k]).0 == ValueView::Symbol(name)
                            && rest[k].1 is Int && rest[k].1->Int_0 == after && forall|j: int|
                            k < j < rest.len() ==> (#[trigger] rest[j]).0 != ValueView::Symbol(
                                name,
                            );
                }
            }
            assert(entries[0].1->Int_0 == after);
        }
    } else {
        let k = choose|k: int|
            0 <= k < rest.len() && (#[trigger] rest[k]).0 == ValueView::Symbol(name)
                && rest[k].1 is Int && rest[k].1->Int_0 == after && forall|j: int|
                k < j < rest.len() ==> (#[trigger] rest[j]).0 != ValueView::Symbol(name);
        assert(entries[k + 1] == rest[k]);
        assert forall|j: int| k + 1 < j < entries.len() implies (#[trigger] entries[j]).0
            != ValueView::Symbol(name) by {
            assert(rest[j - 1] == entries[j]);
        }
    }
}

proof fn lemma_option_names_differ()
    ensures
        "max_output_chars"@ != "instruction_budget"@,
        "max_output_chars"@ != "max_call_depth"@,
        "instruction_budget"@ != "max_call_depth"@,
{
    reveal_strlit("max_output_chars");
    reveal_strlit("instruction_budget");
    reveal_strlit("max_call_depth");
    assert("max_output_chars"@.len() == 16);
    assert("instruction_budget"@.len() == 18);
    assert("max_call_depth"@.len() == 14);
}

/// Entries set the options that they name, the last one counting, to numbers that are not negative,
/// and leave the others as they were; an entry that names something else is refused.
pub proof fn law_options_are_what_the_entries_set(
    before: ReadOnlySourceQueryOptions,
    entries: Seq<(ValueView, ValueView)>,
    after: ReadOnlySourceQueryOptions,
)
    requires
        with_options(before, entries) == Ok::<_, Seq<char>>(after),
    ensures
        set_by_last(
            entries,
            "max_output_chars"@,
            before.max_output_chars,
            after.max_output_chars,
        ),
        set_by_last(
            entries,
            "instruction_budget"@,
            before.instruction_budget,
            after.instruction_budget,
        ),
        set_by_last(entries, "max_call_depth"@, before.max_call_depth, after.max_call_depth),
        forall|i: int|
            0 <= i < entries.len() ==> {
                &&& (#[trigger] entries[i]).1 is Int && entries[i].1->Int_0 >= 0
                &&& entries[i].0 == ValueView::Symbol("max_output_chars"@) || entries[i].0
                    == ValueView::Symbol("instruction_budget"@) || entries[i].0
                    == ValueView::Symbol("max_call_depth"@)
            },
    decreases entries.len(),
{
    lemma_option_names_differ();
    if entries.len() > 0 {
        let next = with_option(before, entries[0].0, entries[0].1)->Ok_0;
        let rest = entries.drop_first();
        law_options_are_what_the_entries_set(next, rest, after);
        lemma_set_by_last(
            entries,
            "max_output_chars"@,
            before.max_output_chars,
            next.max_output_chars,
            after.max_output_chars,
        );
        lemma_set_by_last(
            entries,
            "instruction_budget"@,
            before.instruction_budget,
            next.instruction_budget,
            after.instruction_budget,
        );
        lemma_set_by_last(
            entries,
            "max_call_depth"@,
            before.max_call_depth,
            next.max_call_depth,
            after.max_call_depth,
        );
        assert forall|i: int| 0 < i < entries.len() implies #[trigger] entries[i] == rest[i - 1] by {}
        assert(option_number(entries[0].0->Symbol_0, entries[0].1) is Ok);
    }
}

/// Entries that name options and set them to numbers that can be held are taken.
pub proof fn law_proper_options_are_taken(
    before: ReadOnlySourceQueryOptions,
    entries: Seq<(ValueView, ValueView)>,
)
    requires
        forall|i: int|
            0 <= i < entries.len() ==> {
                &&& (#[trigger] entries[i]).1 is Int && 0 <= entries[i].1->Int_0 <= usize::MAX
                &&& entries[i].0 == ValueView::Symbol("max_output_chars"@) || entries[i].0
                    == ValueView::Symbol("instruction_budget"@) || entries[i].0
                    == ValueView::Symbol("max_call_depth"@)
            },
    ensures
        with_options(before, entries) is Ok,
    decreases entries.len(),
{
    lemma_option_names_differ();
    if entries.len() > 0 {
        let rest = entries.drop_first();
        assert forall|i: int| 0 <= i < rest.len() implies #[trigger] rest[i] == entries[i + 1] by {}
        assert(option_number(entries[0].0->Symbol_0, entries[0].1) is Ok);
        law_proper_options_are_taken(
            with_option(before, entries[0].0, entries[0].1)->Ok_0,
            rest,
        );
    }
}

/// A query is run just where its task is known, the payload has a text to run, and its options are
/// none or are taken; a payload without options leaves them as they are.
pub proof fn law_which_queries_are_run(
    task: TaskId,
    context: Option<TaskContext>,
    payload: ValueView,
    defaults: ReadOnlySourceQueryOptions,
)
    ensures
        ({
            let options = field_of(payload, "options"@);
            let taken = options is None || options->0 is Nothing || options->0 is Mapping
                && with_options(defaults, options->0->Mapping_0) is Ok;
            &&& query_fault(task, context, payload, defaults) is None <==> context is Some
                && field_of(payload, "query"@) is Some && field_of(payload, "query"@)->0 is String
                && taken
            &&& options is None || options->0 is Nothing ==> payload_options(payload, defaults)
                == Ok::<_, Seq<char>>(defaults)
            &&& options is Some && options->0 is Mapping ==> payload_options(payload, defaults)
                == with_options(defaults, options->0->Mapping_0)
        }),
{
}

/// The answer to a query that was not run says so with the given status and one message, and has
/// nothing else to tell.
pub proof fn law_a_failed_query_is_answered_with_its_message(status: Seq<char>, message: Seq<char>)
    ensures
        ({
            let answer = query_error(status, message);
            &&& field_of(answer, "status"@) == Some(ValueView::String(status))
            &&& field_of(answer, "diagnostics"@) == Some(
                ValueView::List(seq![ValueView::String(message)]),
            )
            &&& field_of(answer, "task_id"@) == Some(ValueView::Nothing)
            &&& field_of(answer, "value"@) == Some(ValueView::Nothing)
            &&& field_of(answer, "error"@) == Some(ValueView::Nothing)
            &&& field_of(answer, "rendered"@) == Some(ValueView::String(""@))
            &&& field_of(answer, "rendered_truncated"@) == Some(ValueView::Bool(false))
        }),
{
    reveal_strlit("task_id");
    reveal_strlit("status");
    reveal_strlit("value");
    reveal_strlit("error");
    reveal_strlit("diagnostics");
    reveal_strlit("rendered");
    reveal_strlit("rendered_truncated");
    assert("task_id"@.len() == 7);
    assert("status"@.len() == 6);
    assert("value"@.len() == 5);
    assert("error"@.len() == 5);
    assert("value"@[0] != "error"@[0]);
    assert("diagnostics"@.len() == 11);
    assert("rendered"@.len() == 8);
    assert("rendered_truncated"@.len() == 18);
    reveal_with_fuel(first_entry, 8);
    let a = query_error(status, message)->Mapping_0;
    let b = a.drop_first();
    let c = b.drop_first();
    let d = c.drop_first();
    let e = d.drop_first();
    let f = e.drop_first();
    let g = f.drop_first();
    assert(b[0] == a[1] && c[0] == a[2] && d[0] == a[3] && e[0] == a[4] && f[0] == a[5] && g[0]
        == a[6]);
}

/// Messages are grouped receiver by receiver, in order: the groups of two lists of receivers are
/// those of the one and then those of the other.
pub proof fn law_groups_of_messages_add_up(
    receivers: Seq<(u64, ValueView)>,
    messages: Seq<Seq<ValueView>>,
    more: Seq<(u64, ValueView)>,
    other: Seq<Seq<ValueView>>,
)
    requires
        receivers.len() == messages.len(),
        more.len() == other.len(),
    ensures
        ready_groups(receivers + more, messages + other) == ready_groups(receivers, messages)
            + ready_groups(more, other),
    decreases more.len(),
{
    if more.len() == 0 {
        assert(receivers + more =~= receivers);
        assert(messages + other =~= messages);
        assert(ready_groups(receivers, messages) + ready_groups(more, other) =~= ready_groups(
            receivers,
            messages,
        ));
    } else {
        let all = receivers + more;
        let every = messages + other;
        assert(all.drop_last() =~= receivers + more.drop_last());
        assert(every.drop_last() =~= messages + other.drop_last());
        assert(all.last() == more.last());
        assert(every.last() == other.last());
        law_groups_of_messages_add_up(receivers, messages, more.drop_last(), other.drop_last());
        assert(ready_groups(all, every) =~= ready_groups(receivers, messages) + ready_groups(
            more,
            other,
        ));
    }
}

/// A receiver that had messages is told with all of them, in order; one that had none is left out.
pub proof fn law_a_receiver_is_told_with_its_messages(
    mailbox: u64,
    receiver: ValueView,
    messages: Seq<ValueView>,
)
    ensures
        ready_groups(seq![(mailbox, receiver)], seq![messages]) == if messages.len() == 0 {
            Seq::<ValueView>::empty()
        } else {
            seq![ValueView::List(seq![receiver, ValueView::List(messages)])]
        },
{
    let receivers = seq![(mailbox, receiver)];
    let all = seq![messages];
    assert(receivers.drop_last() =~= Seq::empty());
    assert(all.drop_last() =~= Seq::empty());
    reveal_with_fuel(ready_groups, 2);
    assert(receivers.last() == (mailbox, receiver));
    assert(all.last() == messages);
    if messages.len() > 0 {
        assert(ready_groups(receivers, all) =~= seq![
            ValueView::List(seq![receiver, ValueView::List(messages)]),
        ]);
    }
}

/// The event that tells of the end of a task is about that task, is of the kind of its end, and
/// carries what it came to.
pub proof fn law_the_event_tells_how_the_task_ended(outcome: InvocationOutcomeView, task: TaskId)
    ensures
        outcome matches InvocationOutcomeView::Completed(value) ==> outcome.event(task)
            == EventView::TaskCompleted(task, value),
        outcome matches InvocationOutcomeView::Aborted(error) ==> outcome.event(task)
            == EventView::TaskAborted(task, error),
        outcome matches InvocationOutcomeView::Cancelled(reason) ==> outcome.event(task)
            == EventView::TaskCancelled(task, reason),
        outcome matches InvocationOutcomeView::Failed(text) ==> outcome.event(task)
            == EventView::TaskFailed(task, text),
{
}

/// An event that is offered while there is room goes behind the others; but a suspension or a
/// readiness that is queued already is not queued again. A queue that is full, or that nobody
/// listens to, stays as it is.
pub proof fn law_an_offered_event_goes_behind_the_others(queue: EventQueueView, event: EventView)
    ensures
        ({
            let after = queue.offered(event);
            let tells_again = (event is TaskSuspended || event is SubscriptionReady)
                && queue.events.contains(event);
            &&& !queue.discarding && queue.events.len() < queue.capacity && !tells_again
                ==> after.events == queue.events.push(event)
            &&& queue.discarding || queue.events.len() >= queue.capacity || tells_again
                ==> after.events == queue.events
            &&& after.capacity == queue.capacity && after.discarding == queue.discarding
            &&& !queue.discarding && queue.events.len() < queue.capacity
                ==> after.events.contains(event)
        }),
{
    if queue.admits(event) {
        assert(queue.events.push(event).last() == event);
    }
}

/// An event that is routed reaches, behind what they have, just the handlers that are there and have
/// room; the others are gone.
pub proof fn law_an_event_reaches_the_handlers_with_room(router: RouterView, event: EventView, id: u64)
    ensures
        router.routed(event).contains_key(id) <==> router.sinks.contains_key(id)
            && !router.sinks[id].closed && router.sinks[id].events.len()
            < router.sinks[id].capacity,
        router.routed(event).contains_key(id) ==> router.routed(event)[id].events
            == router.sinks[id].events.push(event) && router.routed(event)[id].capacity
            == router.sinks[id].capacity && router.routed(event)[id].closed
            == router.sinks[id].closed,
{
}

/// A handler that registers gets an empty queue of the common size under a number of its own, and
/// the next one gets the next number; the other handlers keep theirs.
pub proof fn law_a_registered_handler_starts_empty(router: RouterView, other: u64)
    ensures
        ({
            let after = router.registered();
            let id = router.next_registration;
            &&& after.sinks.contains_key(id)
            &&& after.sinks[id].events.len() == 0 && !after.sinks[id].closed
                && after.sinks[id].capacity == router.sink_capacity
            &&& after.next_registration == if id == u64::MAX {
                0
            } else {
                id + 1
            }
            &&& other != id ==> (after.sinks.contains_key(other) <==> router.sinks.contains_key(
                other,
            )) && (router.sinks.contains_key(other) ==> after.sinks[other] == router.sinks[other])
            &&& after.watched == router.watched
        }),
{
}

/// A handler that is forgotten is gone, and the others keep what they have; a handler that asks gets
/// its oldest event, which is then gone from its queue, and nothing else is.
pub proof fn law_a_handler_takes_its_oldest_event(router: RouterView, id: u64, other: u64)
    ensures
        !router.unregistered(id).sinks.contains_key(id),
        other != id ==> (router.unregistered(id).sinks.contains_key(other)
            <==> router.sinks.contains_key(other)) && (router.sinks.contains_key(other)
            ==> router.unregistered(id).sinks[other] == router.sinks[other]),
        router.sinks.contains_key(id) && router.sinks[id].events.len() > 0 ==> {
            &&& router.next_for(id) == Some(router.sinks[id].events[0])
            &&& router.asked(id).sinks[id].events == router.sinks[id].events.skip(1)
        },
        !router.sinks.contains_key(id) || router.sinks[id].events.len() == 0 ==> router.next_for(id)
            is None && router.asked(id) == router,
        other != id && router.sinks.contains_key(other) ==> router.asked(id).sinks.contains_key(
            other,
        ) && router.asked(id).sinks[other] == router.sinks[other],
{
    if router.sinks.contains_key(id) && router.sinks[id].events.len() > 0 {
        assert(router.sinks[id].events.drop_first() =~= router.sinks[id].events.skip(1));
    }
}

/// A task is watched unless it is already or too many are.
pub proof fn law_which_tasks_are_watched(router: RouterView, task: TaskId)
    ensures
        router.watch_refusal(task) is None <==> !router.watched.contains(task)
            && router.watched.len() < router.sink_capacity,
{
}

/// What answers a request that went wrong is an error with the code and the message given.
pub proof fn law_an_error_answer_has_its_code_and_message(code: Seq<char>, message: Seq<char>)
    ensures
        error_value(code, message) is Error,
        error_value(code, message)->Error_0 == code,
        error_value(code, message)->Error_1 == Some(message),
        *error_value(code, message)->Error_2 is Nothing,
{
}

} // verus!
