//! What a synchronised view depends on.

use crate::text::{decimal, numbered};
use crate::value::{copy_value, field_of, first_entry, option_views, views, Identity, Symbol, Value,
    ValueView};
use vstd::prelude::*;

verus! {

/// Whether a view depends on stored facts or on all rows of a relation.
#[derive(Clone, Copy, Debug, PartialEq, Eq, Structural)]
pub enum SyncViewDependencySubject {
    Facts,
    Relation,
}

/// How a dependency names its relation.
#[derive(Debug, PartialEq)]
pub enum SyncViewRelation {
    Identity(Identity),
    Name(Symbol),
}

/// A relation that a view depends on, and the columns that are bound.
#[derive(Debug, PartialEq)]
pub struct SyncViewDependency {
    pub subject: SyncViewDependencySubject,
    pub relation: SyncViewRelation,
    pub bindings: Vec<Option<Value>>,
}

/// How a dependency names its relation, apart from how it is stored.
pub enum RelationNameView {
    Identity(u64),
    Name(Seq<char>),
}

impl View for SyncViewRelation {
    type V = RelationNameView;

    open spec fn view(&self) -> RelationNameView {
        match self {
            SyncViewRelation::Identity(identity) => RelationNameView::Identity(identity@),
            SyncViewRelation::Name(name) => RelationNameView::Name(name@),
        }
    }
}

/// A dependency, apart from how it is stored.
pub struct DependencyView {
    pub subject: SyncViewDependencySubject,
    pub relation: RelationNameView,
    pub bindings: Seq<Option<ValueView>>,
}

impl View for SyncViewDependency {
    type V = DependencyView;

    open spec fn view(&self) -> DependencyView {
        DependencyView {
            subject: self.subject,
            relation: self.relation@,
            bindings: option_views(self.bindings@),
        }
    }
}

/// The views of dependencies.
pub open spec fn dependency_views(dependencies: Seq<SyncViewDependency>) -> Seq<DependencyView> {
    dependencies.map_values(|dependency: SyncViewDependency| dependency@)
}

/// What is said of the dependency at `index` that cannot be read.
pub open spec fn complaint(index: nat, message: Seq<char>) -> Seq<char> {
    "sync view dependency "@ + decimal(index) + ": "@ + message
}

/// What a dependency is about.
pub open spec fn read_subject(value: ValueView) -> Option<SyncViewDependencySubject> {
    match field_of(value, "subject"@) {
        Some(ValueView::Symbol(name)) => if name == "facts"@ {
            Some(SyncViewDependencySubject::Facts)
        } else if name == "relation"@ {
            Some(SyncViewDependencySubject::Relation)
        } else {
            None
        },
        _ => None,
    }
}

/// The relation that a value names.
pub open spec fn read_relation(value: ValueView) -> Option<RelationNameView> {
    match value {
        ValueView::Identity(identity) => Some(RelationNameView::Identity(identity)),
        ValueView::Symbol(name) => Some(RelationNameView::Name(name)),
        _ => None,
    }
}

/// The bindings that option values stand for, if all are option values.
pub open spec fn read_bindings(items: Seq<ValueView>) -> Option<Seq<Option<ValueView>>>
    decreases items.len(),
{
    if items.len() == 0 {
        Some(Seq::empty())
    } else {
        match (read_bindings(items.drop_last()), items.last()) {
            (Some(before), ValueView::OptionNone) => Some(before.push(None)),
            (Some(before), ValueView::OptionSome(payload)) => Some(before.push(Some(*payload))),
            _ => None,
        }
    }
}

/// The dependency at `index` that a value describes, or what is wrong with it.
pub open spec fn read_dependency(index: nat, value: ValueView) -> Result<
    DependencyView,
    Seq<char>,
> {
    if value !is Mapping {
        Err(complaint(index, "entry must be a map"@))
    } else if read_subject(value) is None {
        Err(complaint(index, "subject must be :facts or :relation"@))
    } else if field_of(value, "relation"@) is None {
        Err(complaint(index, "relation is required"@))
    } else if read_relation(field_of(value, "relation"@)->0) is None {
        Err(complaint(index, "relation must be an identity or symbol"@))
    } else {
        match field_of(value, "bindings"@) {
            Some(ValueView::List(items)) => match read_bindings(items) {
                Some(bindings) => Ok(
                    DependencyView {
                        subject: read_subject(value)->0,
                        relation: read_relation(field_of(value, "relation"@)->0)->0,
                        bindings,
                    },
                ),
                None => Err(complaint(index, "bindings must contain option values"@)),
            },
            _ => Err(complaint(index, "bindings must be a list"@)),
        }
    }
}

/// The dependencies that values describe, or what is wrong with the first that cannot
/// be read.
pub open spec fn read_dependencies(items: Seq<ValueView>) -> Result<Seq<DependencyView>, Seq<char>>
    decreases items.len(),
{
    if items.len() == 0 {
        Ok(Seq::empty())
    } else {
        match read_dependencies(items.drop_last()) {
            Err(text) => Err(text),
            Ok(before) => match read_dependency((items.len() - 1) as nat, items.last()) {
                Err(text) => Err(text),
                Ok(last) => Ok(before.push(last)),
            },
        }
    }
}

fn dependency_error(index: usize, message: &str) -> (text: String)
    ensures
        text@ == complaint(index as nat, message@),
{
    let mut text = numbered("sync view dependency ", index as u64, ": ");
    text.append(message);
    text
}

fn decode_bindings(items: &[Value]) -> (bindings: Option<Vec<Option<Value>>>)
    ensures
        bindings is Some == read_bindings(views(items@)) is Some,
        bindings matches Some(read) ==> read_bindings(views(items@)) == Some(option_views(read@)),
{
    let ghost all = views(items@);
    let mut bindings: Vec<Option<Value>> = Vec::new();
    let mut i: usize = 0;
    proof {
        assert(all.take(0) =~= Seq::empty());
        assert(option_views(bindings@) =~= Seq::empty());
    }
    while i < items.len()
        invariant
            i <= items@.len(),
            all == views(items@),
            read_bindings(all.take(i as int)) == Some(option_views(bindings@)),
        decreases items@.len() - i,
    {
        proof {
            assert(all.take(i + 1).drop_last() =~= all.take(i as int));
            assert(all.take(i + 1).last() == items@[i as int]@);
        }
        let ghost before = bindings@;
        match &items[i] {
            Value::OptionNone => {
                bindings.push(None);
            },
            Value::OptionSome(payload) => {
                bindings.push(Some(copy_value(payload)));
            },
            _ => {
                proof {
                    lemma_bindings_prefix(all, i + 1);
                }
                return None;
            },
        }
        assert(option_views(bindings@) =~= option_views(before).push(
            crate::value::option_view(bindings@.last()),
        ));
        i = i + 1;
    }
    assert(all.take(i as int) =~= all);
    Some(bindings)
}

proof fn lemma_bindings_prefix(items: Seq<ValueView>, n: int)
    requires
        0 <= n <= items.len(),
        read_bindings(items.take(n)) is None,
    ensures
        read_bindings(items) is None,
    decreases items.len() - n,
{
    if n == items.len() {
        assert(items.take(n) =~= items);
    } else {
        assert(items.take(n + 1).drop_last() =~= items.take(n));
        lemma_bindings_prefix(items, n + 1);
    }
}

proof fn lemma_dependencies_prefix(items: Seq<ValueView>, n: int)
    requires
        0 <= n <= items.len(),
        read_dependencies(items.take(n)) is Err,
    ensures
        read_dependencies(items) == read_dependencies(items.take(n)),
    decreases items.len() - n,
{
    if n == items.len() {
        assert(items.take(n) =~= items);
    } else {
        assert(items.take(n + 1).drop_last() =~= items.take(n));
        lemma_dependencies_prefix(items, n + 1);
    }
}

fn decode_subject(value: &Value) -> (subject: Option<SyncViewDependencySubject>)
    ensures
        subject == read_subject(value@),
{
    match value.map_get("subject") {
        Some(Value::Symbol(name)) => if name.is_named("facts") {
            Some(SyncViewDependencySubject::Facts)
        } else if name.is_named("relation") {
            Some(SyncViewDependencySubject::Relation)
        } else {
            None
        },
        _ => None,
    }
}

fn decode_dependency(index: usize, value: &Value) -> (result: Result<SyncViewDependency, String>)
    ensures
        match result {
            Ok(dependency) => read_dependency(index as nat, value@) == Ok::<_, Seq<char>>(
                dependency@,
            ),
            Err(text) => read_dependency(index as nat, value@) == Err::<DependencyView, _>(text@),
        },
{
    if !matches!(value, Value::Mapping(_)) {
        return Err(dependency_error(index, "entry must be a map"));
    }
    let subject = match decode_subject(value) {
        Some(subject) => subject,
        None => {
            return Err(dependency_error(index, "subject must be :facts or :relation"));
        },
    };
    let relation = match value.map_get("relation") {
        None => {
            return Err(dependency_error(index, "relation is required"));
        },
        Some(Value::Identity(identity)) => SyncViewRelation::Identity(*identity),
        Some(Value::Symbol(name)) => SyncViewRelation::Name(name.clone()),
        Some(_) => {
            return Err(dependency_error(index, "relation must be an identity or symbol"));
        },
    };
    match value.map_get("bindings") {
        Some(Value::List(items)) => {
            assert(field_of(value@, "bindings"@)->0->List_0 =~= views(items@));
            match decode_bindings(items) {
                Some(bindings) => Ok(SyncViewDependency { subject, relation, bindings }),
                None => Err(dependency_error(index, "bindings must contain option values")),
            }
        },
        _ => Err(dependency_error(index, "bindings must be a list")),
    }
}

/// Reads what a view depends on from the value that its program returned.
pub fn decode_sync_view_dependencies(value: &Value) -> (result: Result<
    Vec<SyncViewDependency>,
    String,
>)
    ensures
        match result {
            Ok(dependencies) => value@ is List && read_dependencies(value@->List_0) == Ok::<
                _,
                Seq<char>,
            >(dependency_views(dependencies@)),
            Err(text) => if value@ is List {
                read_dependencies(value@->List_0) == Err::<Seq<DependencyView>, _>(text@)
            } else {
                text@ == "sync_view_dependencies must return a list"@
            },
        },
{
    let items = match value {
        Value::List(items) => items,
        _ => {
            return Err("sync_view_dependencies must return a list".to_owned());
        },
    };
    let ghost all = value@->List_0;
    let mut dependencies: Vec<SyncViewDependency> = Vec::new();
    let mut i: usize = 0;
    proof {
        assert(all =~= views(items@));
        assert(all.take(0) =~= Seq::empty());
        assert(dependency_views(dependencies@) =~= Seq::empty());
    }
    while i < items.len()
        invariant
            i <= items@.len(),
            value@ is List,
            all == value@->List_0,
            all == views(items@),
            read_dependencies(all.take(i as int)) == Ok::<_, Seq<char>>(
                dependency_views(dependencies@),
            ),
        decreases items@.len() - i,
    {
        proof {
            assert(all.take(i + 1).drop_last() =~= all.take(i as int));
            assert(all.take(i + 1).last() == items@[i as int]@);
        }
        match decode_dependency(i, &items[i]) {
            Ok(dependency) => {
                let ghost before = dependencies@;
                dependencies.push(dependency);
                assert(dependency_views(dependencies@) =~= dependency_views(before).push(
                    dependency@,
                ));
            },
            Err(text) => {
                proof {
                    lemma_dependencies_prefix(all, i + 1);
                }
                return Err(text);
            },
        }
        i = i + 1;
    }
    assert(all.take(i as int) =~= all);
    Ok(dependencies)
}

/// Dependencies come out one for each entry, in order, each as it would alone at its
/// place.
pub proof fn law_dependencies_keep_their_places(items: Seq<ValueView>, i: int)
    requires
        read_dependencies(items) is Ok,
        0 <= i < items.len(),
    ensures
        read_dependencies(items)->Ok_0.len() == items.len(),
        read_dependency(i as nat, items[i]) == Ok::<_, Seq<char>>(read_dependencies(items)->Ok_0[i]),
    decreases items.len(),
{
    let before = items.drop_last();
    if i < before.len() {
        law_dependencies_keep_their_places(before, i);
    } else if before.len() > 0 {
        law_dependencies_keep_their_places(before, 0);
    }
}

/// An optional value as a value.
pub open spec fn option_value(binding: Option<ValueView>) -> ValueView {
    match binding {
        None => ValueView::OptionNone,
        Some(payload) => ValueView::OptionSome(Box::new(payload)),
    }
}

/// A dependency written out as a value: a mapping with a subject, a relation and bindings.
pub open spec fn written_out(dependency: DependencyView) -> ValueView {
    ValueView::Mapping(
        seq![
            (
                ValueView::Symbol("subject"@),
                ValueView::Symbol(
                    match dependency.subject {
                        SyncViewDependencySubject::Facts => "facts"@,
                        SyncViewDependencySubject::Relation => "relation"@,
                    },
                ),
            ),
            (
                ValueView::Symbol("relation"@),
                match dependency.relation {
                    RelationNameView::Identity(identity) => ValueView::Identity(identity),
                    RelationNameView::Name(name) => ValueView::Symbol(name),
                },
            ),
            (
                ValueView::Symbol("bindings"@),
                ValueView::List(
                    dependency.bindings.map_values(
                        |binding: Option<ValueView>| option_value(binding),
                    ),
                ),
            ),
        ],
    )
}

proof fn lemma_bindings_read_back(bindings: Seq<Option<ValueView>>)
    ensures
        read_bindings(
            bindings.map_values(|binding: Option<ValueView>| option_value(binding)),
        ) == Some(bindings),
    decreases bindings.len(),
{
    let items = bindings.map_values(|binding: Option<ValueView>| option_value(binding));
    if bindings.len() == 0 {
        assert(bindings =~= Seq::empty());
    } else {
        let less = bindings.drop_last();
        lemma_bindings_read_back(less);
        assert(items.drop_last() =~= less.map_values(
            |binding: Option<ValueView>| option_value(binding),
        ));
        assert(items.last() == option_value(bindings.last()));
        assert(less.push(bindings.last()) =~= bindings);
    }
}

proof fn lemma_field_names_differ()
    ensures
        "subject"@ != "relation"@,
        "subject"@ != "bindings"@,
        "relation"@ != "bindings"@,
        "facts"@ != "relation"@,
{
    reveal_strlit("subject");
    reveal_strlit("relation");
    reveal_strlit("bindings");
    reveal_strlit("facts");
    assert("subject"@[0] != "relation"@[0]);
    assert("subject"@[0] != "bindings"@[0]);
    assert("relation"@[0] != "bindings"@[0]);
    assert("facts"@[0] != "relation"@[0]);
}

/// A dependency that is written out is read back, whatever it is about, however it names its
/// relation and whatever it binds.
pub proof fn law_a_dependency_is_read_back(index: nat, dependency: DependencyView)
    ensures
        read_dependency(index, written_out(dependency)) == Ok::<_, Seq<char>>(dependency),
{
    lemma_field_names_differ();
    lemma_bindings_read_back(dependency.bindings);
    reveal_with_fuel(first_entry, 4);
    let entries = written_out(dependency)->Mapping_0;
    let rest = entries.subrange(1, entries.len() as int);
    let last = rest.subrange(1, rest.len() as int);
    assert(rest[0] == entries[1]);
    assert(last[0] == entries[2]);
}

/// Dependencies that are written out one after another are read back, each in its place.
pub proof fn law_dependencies_are_read_back(dependencies: Seq<DependencyView>)
    ensures
        read_dependencies(
            dependencies.map_values(|dependency: DependencyView| written_out(dependency)),
        ) == Ok::<_, Seq<char>>(dependencies),
    decreases dependencies.len(),
{
    let items = dependencies.map_values(|dependency: DependencyView| written_out(dependency));
    if dependencies.len() == 0 {
        assert(dependencies =~= Seq::empty());
    } else {
        let less = dependencies.drop_last();
        law_dependencies_are_read_back(less);
        law_a_dependency_is_read_back((items.len() - 1) as nat, dependencies.last());
        assert(items.drop_last() =~= less.map_values(
            |dependency: DependencyView| written_out(dependency),
        ));
        assert(less.push(dependencies.last()) =~= dependencies);
    }
}

/// Whether a mapping holds a value under a name: the first entry with that name holds it.
pub open spec fn says(value: ValueView, name: Seq<char>, said: ValueView) -> bool {
    exists|i: int|
        0 <= i < value->Mapping_0.len() && #[trigger] value->Mapping_0[i] == (
            ValueView::Symbol(name),
            said,
        ) && forall|j: int|
            0 <= j < i ==> (#[trigger] value->Mapping_0[j]).0 != ValueView::Symbol(name)
}

proof fn lemma_first_entry_says(entries: Seq<(ValueView, ValueView)>, key: ValueView)
    ensures
        match first_entry(entries, key) {
            Some(found) => exists|i: int|
                0 <= i < entries.len() && #[trigger] entries[i] == (key, found) && forall|j: int|
                    0 <= j < i ==> (#[trigger] entries[j]).0 != key,
            None => forall|j: int| 0 <= j < entries.len() ==> (#[trigger] entries[j]).0 != key,
        },
    decreases entries.len(),
{
    if entries.len() > 0 {
        let rest = entries.subrange(1, entries.len() as int);
        lemma_first_entry_says(rest, key);
        if entries[0].0 == key {
            assert(entries[0] == (key, entries[0].1));
        } else {
            match first_entry(rest, key) {
                Some(found) => {
                    let i = choose|i: int|
                        0 <= i < rest.len() && #[trigger] rest[i] == (key, found) && forall|j: int|
                            0 <= j < i ==> (#[trigger] rest[j]).0 != key;
                    assert(entries[i + 1] == (key, found));
                    assert forall|j: int| 0 <= j < i + 1 implies (#[trigger] entries[j]).0 != key by {
                        if j > 0 {
                            assert(rest[j - 1] == entries[j]);
                        }
                    }
                },
                None => {
                    assert forall|j: int| 0 <= j < entries.len() implies (#[trigger] entries[j]).0
                        != key by {
                        if j > 0 {
                            assert(rest[j - 1] == entries[j]);
                        }
                    }
                },
            }
        }
    }
}

proof fn lemma_bindings_say(items: Seq<ValueView>, bindings: Seq<Option<ValueView>>)
    requires
        read_bindings(items) == Some(bindings),
    ensures
        items == bindings.map_values(|binding: Option<ValueView>| option_value(binding)),
    decreases items.len(),
{
    if items.len() > 0 {
        let before = read_bindings(items.drop_last())->0;
        lemma_bindings_say(items.drop_last(), before);
        let shown = bindings.map_values(|binding: Option<ValueView>| option_value(binding));
        assert forall|i: int| 0 <= i < items.len() implies items[i] == shown[i] by {
            if i < items.len() - 1 {
                assert(items.drop_last()[i] == items[i]);
                assert(before[i] == bindings[i]);
            } else {
                assert(items.last() == items[i]);
                assert(items[i] == option_value(bindings.last()));
            }
        }
        assert(items =~= shown);
    } else {
        assert(items =~= bindings.map_values(|binding: Option<ValueView>| option_value(binding)));
    }
}

/// A dependency that is read says what the mapping says under the three names, whatever else it
/// holds.
pub proof fn law_a_dependency_says_what_its_mapping_says(
    index: nat,
    value: ValueView,
    dependency: DependencyView,
)
    requires
        read_dependency(index, value) == Ok::<_, Seq<char>>(dependency),
    ensures
        value is Mapping,
        says(value, "subject"@, written_out(dependency)->Mapping_0[0].1),
        says(value, "relation"@, written_out(dependency)->Mapping_0[1].1),
        says(value, "bindings"@, written_out(dependency)->Mapping_0[2].1),
{
    let entries = value->Mapping_0;
    lemma_first_entry_says(entries, ValueView::Symbol("subject"@));
    lemma_first_entry_says(entries, ValueView::Symbol("relation"@));
    lemma_first_entry_says(entries, ValueView::Symbol("bindings"@));
    lemma_field_names_differ();
    lemma_bindings_say(field_of(value, "bindings"@)->0->List_0, dependency.bindings);
}

proof fn lemma_said_once(value: ValueView, name: Seq<char>, said: ValueView)
    requires
        value is Mapping,
        says(value, name, said),
    ensures
        field_of(value, name) == Some(said),
{
    let entries = value->Mapping_0;
    let key = ValueView::Symbol(name);
    lemma_first_entry_says(entries, key);
    let i = choose|i: int|
        0 <= i < entries.len() && #[trigger] entries[i] == (key, said) && forall|j: int|
            0 <= j < i ==> (#[trigger] entries[j]).0 != key;
    assert(entries[i].0 == key);
    let found = first_entry(entries, key)->0;
    let k = choose|k: int|
        0 <= k < entries.len() && #[trigger] entries[k] == (key, found) && forall|j: int|
            0 <= j < k ==> (#[trigger] entries[j]).0 != key;
    assert(entries[k].0 == key);
    assert(i == k);
}

/// A mapping that says all that makes a dependency is read as that dependency, in whatever order its
/// entries stand and whatever else it holds.
pub proof fn law_a_mapping_that_says_all_is_read(
    index: nat,
    value: ValueView,
    dependency: DependencyView,
)
    requires
        value is Mapping,
        says(value, "subject"@, written_out(dependency)->Mapping_0[0].1),
        says(value, "relation"@, written_out(dependency)->Mapping_0[1].1),
        says(value, "bindings"@, written_out(dependency)->Mapping_0[2].1),
    ensures
        read_dependency(index, value) == Ok::<_, Seq<char>>(dependency),
{
    lemma_field_names_differ();
    lemma_bindings_read_back(dependency.bindings);
    lemma_said_once(value, "subject"@, written_out(dependency)->Mapping_0[0].1);
    lemma_said_once(value, "relation"@, written_out(dependency)->Mapping_0[1].1);
    lemma_said_once(value, "bindings"@, written_out(dependency)->Mapping_0[2].1);
}

/// Whether a mapping holds nothing under a name.
pub open spec fn is_silent(value: ValueView, name: Seq<char>) -> bool {
    forall|i: int|
        0 <= i < value->Mapping_0.len() ==> (#[trigger] value->Mapping_0[i]).0 != ValueView::Symbol(
            name,
        )
}

/// Whether a value is not read, with what is said of it.
pub open spec fn is_refused(index: nat, value: ValueView, message: Seq<char>) -> bool {
    read_dependency(index, value) == Err::<DependencyView, Seq<char>>(
        "sync view dependency "@ + decimal(index) + ": "@ + message,
    )
}

/// What is said of a value that is no mapping, or that does not say what it is about.
pub proof fn law_a_dependency_says_what_it_is_about(index: nat, value: ValueView, said: ValueView)
    ensures
        !(value is Mapping) ==> is_refused(index, value, "entry must be a map"@),
        value is Mapping && is_silent(value, "subject"@) ==> is_refused(
            index,
            value,
            "subject must be :facts or :relation"@,
        ),
        value is Mapping && says(value, "subject"@, said) && said != ValueView::Symbol("facts"@) && said
            != ValueView::Symbol("relation"@) ==> is_refused(
            index,
            value,
            "subject must be :facts or :relation"@,
        ),
{
    if value is Mapping {
        lemma_first_entry_says(value->Mapping_0, ValueView::Symbol("subject"@));
        if says(value, "subject"@, said) {
            lemma_said_once(value, "subject"@, said);
        }
    }
}

/// What is said of a mapping that says what it is about and does not name a relation.
pub proof fn law_a_dependency_names_its_relation(
    index: nat,
    value: ValueView,
    subject: ValueView,
    said: ValueView,
)
    requires
        value is Mapping,
        says(value, "subject"@, subject),
        subject == ValueView::Symbol("facts"@) || subject == ValueView::Symbol("relation"@),
    ensures
        is_silent(value, "relation"@) ==> is_refused(index, value, "relation is required"@),
        says(value, "relation"@, said) && !(said is Identity) && !(said is Symbol) ==> is_refused(
            index,
            value,
            "relation must be an identity or symbol"@,
        ),
{
    lemma_said_once(value, "subject"@, subject);
    lemma_first_entry_says(value->Mapping_0, ValueView::Symbol("relation"@));
    if says(value, "relation"@, said) {
        lemma_said_once(value, "relation"@, said);
    }
}

proof fn lemma_no_option(items: Seq<ValueView>, i: int)
    requires
        0 <= i < items.len(),
        !(items[i] is OptionNone),
        !(items[i] is OptionSome),
    ensures
        read_bindings(items) is None,
    decreases items.len(),
{
    if i < items.len() - 1 {
        assert(items.drop_last()[i] == items[i]);
        lemma_no_option(items.drop_last(), i);
    }
}

/// What is said of a mapping that says what it is about, names a relation and does not list bindings.
pub proof fn law_a_dependency_lists_its_bindings(
    index: nat,
    value: ValueView,
    subject: ValueView,
    relation: ValueView,
    said: ValueView,
    i: int,
)
    requires
        value is Mapping,
        says(value, "subject"@, subject),
        subject == ValueView::Symbol("facts"@) || subject == ValueView::Symbol("relation"@),
        says(value, "relation"@, relation),
        relation is Identity || relation is Symbol,
    ensures
        is_silent(value, "bindings"@) ==> is_refused(index, value, "bindings must be a list"@),
        says(value, "bindings"@, said) && !(said is List) ==> is_refused(
            index,
            value,
            "bindings must be a list"@,
        ),
        says(value, "bindings"@, said) && said is List && 0 <= i < said->List_0.len() && !(
        said->List_0[i] is OptionNone) && !(said->List_0[i] is OptionSome) ==> is_refused(
            index,
            value,
            "bindings must contain option values"@,
        ),
{
    lemma_said_once(value, "subject"@, subject);
    lemma_said_once(value, "relation"@, relation);
    lemma_first_entry_says(value->Mapping_0, ValueView::Symbol("bindings"@));
    if says(value, "bindings"@, said) {
        lemma_said_once(value, "bindings"@, said);
        if said is List && 0 <= i < said->List_0.len() && !(said->List_0[i] is OptionNone) && !(
        said->List_0[i] is OptionSome) {
            lemma_no_option(said->List_0, i);
        }
    }
}

/// Where some dependency cannot be read, what is said is said of the first such one.
pub proof fn law_the_first_unreadable_dependency_is_told(items: Seq<ValueView>)
    ensures
        match read_dependencies(items) {
            Ok(_) => forall|i: int|
                0 <= i < items.len() ==> read_dependency(i as nat, #[trigger] items[i]) is Ok,
            Err(text) => exists|i: int|
                0 <= i < items.len() && read_dependency(i as nat, #[trigger] items[i]) == Err::<
                    DependencyView,
                    Seq<char>,
                >(text) && forall|j: int|
                    0 <= j < i ==> read_dependency(j as nat, #[trigger] items[j]) is Ok,
        },
    decreases items.len(),
{
    if items.len() > 0 {
        let before = items.drop_last();
        law_the_first_unreadable_dependency_is_told(before);
        assert(items.last() == items[items.len() - 1]);
        assert forall|i: int| 0 <= i < before.len() implies #[trigger] items[i] == before[i] by {}
        match read_dependencies(before) {
            Ok(_) => {
                assert forall|i: int| 0 <= i < before.len() implies read_dependency(
                    i as nat,
                    #[trigger] items[i],
                ) is Ok by {
                    assert(read_dependency(i as nat, before[i]) is Ok);
                }
            },
            Err(text) => {
                let i = choose|i: int|
                    0 <= i < before.len() && read_dependency(i as nat, #[trigger] before[i]) == Err::<
                        DependencyView,
                        Seq<char>,
                    >(text) && forall|j: int|
                        0 <= j < i ==> read_dependency(j as nat, #[trigger] before[j]) is Ok;
                assert(items[i] == before[i]);
                assert forall|j: int| 0 <= j < i implies read_dependency(
                    j as nat,
                    #[trigger] items[j],
                ) is Ok by {
                    assert(read_dependency(j as nat, before[j]) is Ok);
                }
            },
        }
    }
}

} // verus!
