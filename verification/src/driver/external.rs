//! Requests to services outside, read-only queries among them.

use crate::driver::types::{ExternalRequest, TaskContext, TaskId};
use crate::driver::waiters::receiver_views;
use crate::text::{decimal, numbered};
use crate::value::{copy_value, copy_values, field_of, pair_views, value_view, views, Identity,
    Symbol, Value, ValueView};
use vstd::prelude::*;

verus! {

/// Who answers an external request.
#[derive(Debug)]
pub enum ExternalRoute {
    /// The stream handler, which sends to `sender` as it goes.
    Stream { sender: Value },
    /// Nobody: `notice` goes to `sender`, and `answer` to the task.
    StreamUnavailable { sender: Value, notice: Value, answer: Value },
    /// The driver, by a read-only query.
    Query,
    /// The request handler.
    Handler,
    /// Nobody: `answer` goes to the task.
    Unavailable { answer: Value },
}

/// Who answers an external request, apart from how it is stored.
pub enum ExternalRouteView {
    Stream(ValueView),
    StreamUnavailable(ValueView, ValueView, ValueView),
    Query,
    Handler,
    Unavailable(ValueView),
}

impl View for ExternalRoute {
    type V = ExternalRouteView;

    open spec fn view(&self) -> ExternalRouteView {
        match self {
            ExternalRoute::Stream { sender } => ExternalRouteView::Stream(sender@),
            ExternalRoute::StreamUnavailable { sender, notice, answer } =>
                ExternalRouteView::StreamUnavailable(sender@, notice@, answer@),
            ExternalRoute::Query => ExternalRouteView::Query,
            ExternalRoute::Handler => ExternalRouteView::Handler,
            ExternalRoute::Unavailable { answer } => ExternalRouteView::Unavailable(answer@),
        }
    }
}

/// An error value with a code and a message.
pub open spec fn error_value(code: Seq<char>, message: Seq<char>) -> ValueView {
    ValueView::Error(code, Some(message), Box::new(ValueView::Nothing))
}

/// The notice that a stream ends in an error.
pub open spec fn stream_error_notice(message: Seq<char>) -> ValueView {
    ValueView::Mapping(
        seq![
            (ValueView::Symbol("type"@), ValueView::Symbol("error"@)),
            (ValueView::Symbol("message"@), ValueView::String(message)),
        ],
    )
}

/// Who answers an external request: a stream handler where the request names a sender
/// to stream to, the driver itself for its own queries, and otherwise the request
/// handler.
pub open spec fn external_route(
    service: Seq<char>,
    payload: ValueView,
    has_handler: bool,
    has_stream_handler: bool,
) -> ExternalRouteView {
    match field_of(payload, "stream_to"@) {
        Some(sender) => if has_stream_handler {
            ExternalRouteView::Stream(sender)
        } else {
            let message = "no external stream request handler is configured"@;
            ExternalRouteView::StreamUnavailable(
                sender,
                stream_error_notice(message),
                error_value("ExternalUnavailable"@, message),
            )
        },
        None => if service == "mica_query"@ {
            ExternalRouteView::Query
        } else if has_handler {
            ExternalRouteView::Handler
        } else {
            ExternalRouteView::Unavailable(
                error_value(
                    "ExternalUnavailable"@,
                    "no external request handler is configured"@,
                ),
            )
        },
    }
}

/// Decides who answers an external request.
pub fn route_external_request(
    request: &ExternalRequest,
    has_handler: bool,
    has_stream_handler: bool,
) -> (route: ExternalRoute)
    ensures
        route@ == external_route(
            request.service@,
            request.payload@,
            has_handler,
            has_stream_handler,
        ),
{
    match request.payload.map_get("stream_to") {
        Some(found) => {
            let sender = copy_value(found);
            if has_stream_handler {
                return ExternalRoute::Stream { sender };
            }
            let message: &str = "no external stream request handler is configured";
            let mut entries: Vec<(Value, Value)> = Vec::new();
            entries.push((Value::named("type"), Value::named("error")));
            entries.push((Value::named("message"), Value::string(message)));
            let ghost pairs = pair_views(entries@);
            let notice = Value::map(entries);
            assert(pairs =~= stream_error_notice(message@)->Mapping_0);
            ExternalRoute::StreamUnavailable {
                sender,
                notice,
                answer: Value::error(Symbol::intern("ExternalUnavailable"), message),
            }
        },
        None => {
            if request.service.is_named("mica_query") {
                ExternalRoute::Query
            } else if has_handler {
                ExternalRoute::Handler
            } else {
                ExternalRoute::Unavailable {
                    answer: Value::error(
                        Symbol::intern("ExternalUnavailable"),
                        "no external request handler is configured",
                    ),
                }
            }
        },
    }
}

/// What a task gets whose external request took too long.
pub fn external_timeout_answer() -> (answer: Value)
    ensures
        answer@ == error_value("ExternalTimeout"@, "external request timed out"@),
{
    Value::error(Symbol::intern("ExternalTimeout"), "external request timed out")
}

/// Refuses to stream on behalf of a cancelled request.
pub fn check_emit(cancelled: bool) -> (result: Result<(), String>)
    ensures
        result is Ok == !cancelled,
        result matches Err(text) ==> text@ == "external request was cancelled"@,
{
    if cancelled {
        Err("external request was cancelled".to_owned())
    } else {
        Ok(())
    }
}

/// How far a read-only query may go.
#[derive(Clone, Copy, Debug, PartialEq, Eq, Structural)]
pub struct ReadOnlySourceQueryOptions {
    pub max_output_chars: usize,
    pub instruction_budget: usize,
    pub max_call_depth: usize,
}

/// A text in backquotes, with what stands around it.
pub open spec fn quoted(before: Seq<char>, name: Seq<char>, after: Seq<char>) -> Seq<char> {
    before + name + after
}

/// The number that an option is set to.
pub open spec fn option_number(name: Seq<char>, value: ValueView) -> Result<usize, Seq<char>> {
    match value {
        ValueView::Int(number) => if 0 <= number <= usize::MAX {
            Ok(number as usize)
        } else {
            Err(quoted("mica_query option `"@, name, "` must be non-negative"@))
        },
        _ => Err(quoted("mica_query option `"@, name, "` must be an integer"@)),
    }
}

/// The options after one entry.
pub open spec fn with_option(
    options: ReadOnlySourceQueryOptions,
    key: ValueView,
    value: ValueView,
) -> Result<ReadOnlySourceQueryOptions, Seq<char>> {
    match key {
        ValueView::Symbol(name) => if name == "max_output_chars"@ {
            match option_number(name, value) {
                Ok(number) => Ok(
                    ReadOnlySourceQueryOptions { max_output_chars: number, ..options },
                ),
                Err(text) => Err(text),
            }
        } else if name == "instruction_budget"@ {
            match option_number(name, value) {
                Ok(number) => Ok(
                    ReadOnlySourceQueryOptions { instruction_budget: number, ..options },
                ),
                Err(text) => Err(text),
            }
        } else if name == "max_call_depth"@ {
            match option_number(name, value) {
                Ok(number) => Ok(ReadOnlySourceQueryOptions { max_call_depth: number, ..options }),
                Err(text) => Err(text),
            }
        } else {
            Err(quoted("unknown mica_query option `"@, name, "`"@))
        },
        _ => Err("mica_query option keys must be symbols"@),
    }
}

/// The options after several entries, the first error counting.
pub open spec fn with_options(
    options: ReadOnlySourceQueryOptions,
    entries: Seq<(ValueView, ValueView)>,
) -> Result<ReadOnlySourceQueryOptions, Seq<char>>
    decreases entries.len(),
{
    if entries.len() == 0 {
        Ok(options)
    } else {
        match with_option(options, entries[0].0, entries[0].1) {
            Ok(next) => with_options(next, entries.drop_first()),
            Err(text) => Err(text),
        }
    }
}

/// The options that a query's payload sets, starting from `defaults`.
pub open spec fn payload_options(
    payload: ValueView,
    defaults: ReadOnlySourceQueryOptions,
) -> Result<ReadOnlySourceQueryOptions, Seq<char>> {
    match field_of(payload, "options"@) {
        None => Ok(defaults),
        Some(value) => match value {
            ValueView::Nothing => Ok(defaults),
            ValueView::Mapping(entries) => with_options(defaults, entries),
            _ => Err("mica_query options must be a map"@),
        },
    }
}

/// A result whose error is a text.
pub open spec fn text_outcome<T>(result: Result<T, String>) -> Result<T, Seq<char>> {
    match result {
        Ok(value) => Ok(value),
        Err(text) => Err(text@),
    }
}

fn quote(before: &str, name: &str, after: &str) -> (text: String)
    ensures
        text@ == quoted(before@, name@, after@),
{
    let mut text = before.to_owned();
    text.append(name);
    text.append(after);
    text
}

/// The number that an option is set to.
pub fn usize_option(name: &str, value: &Value) -> (result: Result<usize, String>)
    ensures
        text_outcome(result) == option_number(name@, value@),
{
    match value.as_int() {
        None => Err(quote("mica_query option `", name, "` must be an integer")),
        Some(number) => if number >= 0 && number as u64 <= usize::MAX as u64 {
            Ok(number as usize)
        } else {
            Err(quote("mica_query option `", name, "` must be non-negative"))
        },
    }
}

fn set_option(options: ReadOnlySourceQueryOptions, key: &Value, value: &Value) -> (result: Result<
    ReadOnlySourceQueryOptions,
    String,
>)
    ensures
        text_outcome(result) == with_option(options, key@, value@),
{
    match key.as_symbol() {
        None => Err("mica_query option keys must be symbols".to_owned()),
        Some(symbol) => {
            let name: &str = symbol.name();
            if symbol.is_named("max_output_chars") {
                match usize_option(name, value) {
                    Ok(number) => Ok(
                        ReadOnlySourceQueryOptions { max_output_chars: number, ..options },
                    ),
                    Err(text) => Err(text),
                }
            } else if symbol.is_named("instruction_budget") {
                match usize_option(name, value) {
                    Ok(number) => Ok(
                        ReadOnlySourceQueryOptions { instruction_budget: number, ..options },
                    ),
                    Err(text) => Err(text),
                }
            } else if symbol.is_named("max_call_depth") {
                match usize_option(name, value) {
                    Ok(number) => Ok(
                        ReadOnlySourceQueryOptions { max_call_depth: number, ..options },
                    ),
                    Err(text) => Err(text),
                }
            } else {
                Err(quote("unknown mica_query option `", name, "`"))
            }
        },
    }
}

/// The options that a query's payload sets, starting from `defaults`.
pub fn read_only_query_options_from_payload(
    payload: &Value,
    defaults: ReadOnlySourceQueryOptions,
) -> (result: Result<ReadOnlySourceQueryOptions, String>)
    ensures
        text_outcome(result) == payload_options(payload@, defaults),
{
    match payload.map_get("options") {
        None => Ok(defaults),
        Some(Value::Nothing) => Ok(defaults),
        Some(Value::Mapping(entries)) => {
            let ghost all = pair_views(entries@);
            assert(ValueView::Mapping(all) == value_view(Value::Mapping(*entries))) by {
                assert(all =~= value_view(Value::Mapping(*entries))->Mapping_0);
            }
            let mut options = defaults;
            let mut i: usize = 0;
            assert(all.skip(0) =~= all);
            while i < entries.len()
                invariant
                    all == pair_views(entries@),
                    i <= entries@.len(),
                    payload_options(payload@, defaults) == with_options(defaults, all),
                    with_options(defaults, all) == with_options(options, all.skip(i as int)),
                decreases entries@.len() - i,
            {
                assert(all.skip(i as int)[0] == (entries@[i as int].0@, entries@[i as int].1@));
                assert(all.skip(i as int).drop_first() =~= all.skip(i + 1));
                match set_option(options, &entries[i].0, &entries[i].1) {
                    Ok(next) => {
                        options = next;
                    },
                    Err(text) => {
                        return Err(text);
                    },
                }
                i = i + 1;
            }
            Ok(options)
        },
        Some(_) => Err("mica_query options must be a map".to_owned()),
    }
}

/// The answer to a query that failed before it ran. `status` is the runtime's word
/// for an error.
pub open spec fn query_error(status: Seq<char>, message: Seq<char>) -> ValueView {
    ValueView::Mapping(
        seq![
            (ValueView::Symbol("task_id"@), ValueView::Nothing),
            (ValueView::Symbol("status"@), ValueView::String(status)),
            (ValueView::Symbol("value"@), ValueView::Nothing),
            (ValueView::Symbol("error"@), ValueView::Nothing),
            (
                ValueView::Symbol("diagnostics"@),
                ValueView::List(seq![ValueView::String(message)]),
            ),
            (ValueView::Symbol("rendered"@), ValueView::String(""@)),
            (ValueView::Symbol("rendered_truncated"@), ValueView::Bool(false)),
        ],
    )
}

/// The answer to a query that failed before it ran.
pub fn mica_query_error_value(status: &str, message: &str) -> (value: Value)
    ensures
        value@ == query_error(status@, message@),
{
    let mut diagnostics: Vec<Value> = Vec::new();
    diagnostics.push(Value::string(message));
    let ghost listed = views(diagnostics@);
    let diagnostics_value = Value::list(diagnostics);
    assert(listed =~= seq![ValueView::String(message@)]);
    let mut entries: Vec<(Value, Value)> = Vec::new();
    entries.push((Value::named("task_id"), Value::Nothing));
    entries.push((Value::named("status"), Value::string(status)));
    entries.push((Value::named("value"), Value::Nothing));
    entries.push((Value::named("error"), Value::Nothing));
    entries.push((Value::named("diagnostics"), diagnostics_value));
    entries.push((Value::named("rendered"), Value::string("")));
    entries.push((Value::named("rendered_truncated"), Value::Bool(false)));
    let ghost pairs = pair_views(entries@);
    let value = Value::map(entries);
    assert(pairs =~= query_error(status@, message@)->Mapping_0);
    value
}

/// A query that is to be run.
#[derive(Debug)]
pub struct QueryPlan {
    pub endpoint: Identity,
    pub query: String,
    pub options: ReadOnlySourceQueryOptions,
}

/// What keeps a task's query from being run, where something does.
pub open spec fn query_fault(
    task: TaskId,
    context: Option<TaskContext>,
    payload: ValueView,
    defaults: ReadOnlySourceQueryOptions,
) -> Option<Seq<char>> {
    if context is None {
        Some("missing task context for task "@ + decimal(task as nat))
    } else {
        match field_of(payload, "query"@) {
            Some(ValueView::String(_)) => match payload_options(payload, defaults) {
                Ok(_) => None,
                Err(text) => Some(text),
            },
            _ => Some("mica_query request missing query string"@),
        }
    }
}

/// Reads a query out of a task's external request, or answers it with what is wrong.
pub fn plan_query(
    task: TaskId,
    context: Option<TaskContext>,
    payload: &Value,
    defaults: ReadOnlySourceQueryOptions,
    status: &str,
) -> (result: Result<QueryPlan, Value>)
    ensures
        match result {
            Ok(plan) => {
                &&& query_fault(task, context, payload@, defaults) is None
                &&& plan.endpoint == context->0.endpoint
                &&& field_of(payload@, "query"@) == Some(ValueView::String(plan.query@))
                &&& payload_options(payload@, defaults) == Ok::<_, Seq<char>>(plan.options)
            },
            Err(answer) => {
                &&& query_fault(task, context, payload@, defaults) is Some
                &&& answer@ == query_error(
                    status@,
                    query_fault(task, context, payload@, defaults)->0,
                )
            },
        },
{
    let endpoint: Identity = match context {
        Some(context) => context.endpoint,
        None => {
            let text = numbered("missing task context for task ", task, "");
            proof {
                reveal_strlit("");
                assert(text@ =~= "missing task context for task "@ + decimal(task as nat));
            }
            return Err(mica_query_error_value(status, text.as_str()));
        },
    };
    let query: String = match payload.map_get("query") {
        Some(Value::String(text)) => text.clone(),
        _ => {
            return Err(
                mica_query_error_value(status, "mica_query request missing query string"),
            );
        },
    };
    match read_only_query_options_from_payload(payload, defaults) {
        Ok(options) => Ok(QueryPlan { endpoint, query, options }),
        Err(text) => Err(mica_query_error_value(status, text.as_str())),
    }
}

/// What a task gets that receives from mailboxes: each receiver that had messages,
/// with them.
pub open spec fn ready_groups(
    receivers: Seq<(u64, ValueView)>,
    messages: Seq<Seq<ValueView>>,
) -> Seq<ValueView>
    decreases receivers.len(),
{
    if receivers.len() == 0 || messages.len() == 0 {
        Seq::empty()
    } else {
        let rest = ready_groups(receivers.drop_last(), messages.drop_last());
        if messages.last().len() == 0 {
            rest
        } else {
            rest.push(
                ValueView::List(seq![receivers.last().1, ValueView::List(messages.last())]),
            )
        }
    }
}

/// The views of the messages of several mailboxes.
pub open spec fn message_views(messages: Seq<Vec<Value>>) -> Seq<Seq<ValueView>> {
    messages.map_values(|group: Vec<Value>| views(group@))
}

/// Groups the messages that were found by the receivers that had them.
pub fn group_ready_messages(receivers: &[(u64, Value)], messages: &[Vec<Value>]) -> (groups: Vec<
    Value,
>)
    requires
        receivers@.len() == messages@.len(),
    ensures
        views(groups@) == ready_groups(receiver_views(receivers@), message_views(messages@)),
{
    let ghost all_receivers = receiver_views(receivers@);
    let ghost all_messages = message_views(messages@);
    let mut groups: Vec<Value> = Vec::new();
    let mut i: usize = 0;
    assert(views(groups@) =~= ready_groups(all_receivers.take(0), all_messages.take(0)));
    while i < receivers.len()
        invariant
            receivers@.len() == messages@.len(),
            all_receivers == receiver_views(receivers@),
            all_messages == message_views(messages@),
            i <= receivers@.len(),
            views(groups@) == ready_groups(
                all_receivers.take(i as int),
                all_messages.take(i as int),
            ),
        decreases receivers@.len() - i,
    {
        let ghost before = groups@;
        proof {
            assert(all_receivers.take(i + 1).drop_last() =~= all_receivers.take(i as int));
            assert(all_messages.take(i + 1).drop_last() =~= all_messages.take(i as int));
            assert(all_messages.take(i + 1).last() == views(messages@[i as int]@));
            assert(all_receivers.take(i + 1).last().1 == receivers@[i as int].1@);
        }
        if messages[i].len() > 0 {
            let mut pair: Vec<Value> = Vec::new();
            pair.push(copy_value(&receivers[i].1));
            pair.push(Value::list(copy_values(&messages[i])));
            let ghost paired = views(pair@);
            let group = Value::list(pair);
            let ghost said = group@;
            groups.push(group);
            proof {
                assert(paired =~= seq![
                    receivers@[i as int].1@,
                    ValueView::List(views(messages@[i as int]@)),
                ]);
                assert(views(groups@) =~= views(before).push(said));
            }
        }
        i = i + 1;
    }
    assert(all_receivers.take(i as int) =~= all_receivers);
    assert(all_messages.take(i as int) =~= all_messages);
    groups
}

} // verus!
