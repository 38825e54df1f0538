//! What is written is read back.

use crate::bytes::{be_bytes, lemma_be_bytes_len, lemma_be_value_of_bytes, lemma_pow256_values};
use crate::kernel::algebra::Row;
use crate::kernel::codec::{magic, op_byte, put_all, put_body_item, put_catalog_change, put_commit,
    put_definition, put_each, put_fact_change, put_fact_key, put_len, put_metadata,
    put_optional_text, put_policy, put_positions, put_row, put_rule, put_term, put_terms, put_text,
    put_value, Encoded};
use crate::kernel::commit::{CatalogChangeView, CommitView, FactChangeView};
use crate::kernel::decode::{take_all, take_body_item, take_catalog_change, take_commit,
    take_definition, take_fact_change, take_identity, take_many, take_metadata, take_number,
    take_op, take_optional_text, take_plain, take_policy, take_position, take_positions, take_row,
    take_rule, take_term, take_terms, take_text, take_value, whole, Taken};
use crate::kernel::metadata::{MetadataView, PolicyView};
use crate::kernel::rules::{AtomView, BodyItemView, DefinitionView, RuleComparisonOp, RuleView,
    TermView};
use crate::value::{ValueView, IDENTITY_MAX};
use crate::value_codec::{all_storable, law_stored_value_is_read_back, storable, stored_form};
use vstd::prelude::*;
use vstd::utf8::{decode_utf8, encode_utf8, encode_utf8_decode_utf8, encode_utf8_valid_utf8,
    valid_utf8};

verus! {

/// Whether `part` stands in `bytes` from `at` on.
pub open spec fn holds(bytes: Seq<u8>, at: int, part: Seq<u8>) -> bool {
    &&& 0 <= at
    &&& at + part.len() <= bytes.len() <= usize::MAX
    &&& bytes.subrange(at, at + part.len()) == part
}

proof fn lemma_holds_split(bytes: Seq<u8>, at: int, a: Seq<u8>, b: Seq<u8>)
    requires
        holds(bytes, at, a + b),
    ensures
        holds(bytes, at, a),
        holds(bytes, at + a.len(), b),
{
    let both = bytes.subrange(at, at + (a + b).len());
    assert(bytes.subrange(at, at + a.len()) =~= both.take(a.len() as int));
    assert((a + b).take(a.len() as int) =~= a);
    assert(bytes.subrange(at + a.len(), at + a.len() + b.len()) =~= both.skip(a.len() as int));
    assert((a + b).skip(a.len() as int) =~= b);
}

proof fn lemma_number(bytes: Seq<u8>, at: int, n: nat, width: nat)
    requires
        0 < width <= 8,
        n < vstd::arithmetic::power::pow(256, width),
        holds(bytes, at, be_bytes(n, width)),
    ensures
        take_number(bytes, at, width) == Ok::<(nat, int), Seq<char>>((n, at + width)),
        be_bytes(n, width).len() == width,
{
    lemma_be_bytes_len(n, width);
    lemma_be_value_of_bytes(n, width);
}

proof fn lemma_byte(bytes: Seq<u8>, at: int, byte: u8)
    requires
        holds(bytes, at, seq![byte]),
    ensures
        take_number(bytes, at, 1) == Ok::<(nat, int), Seq<char>>((byte as nat, at + 1)),
{
    lemma_pow256_values();
    assert(be_bytes(byte as nat, 1) =~= seq![byte]) by {
        assert(be_bytes((byte as nat) / 256, 0) =~= Seq::<u8>::empty());
    }
    lemma_number(bytes, at, byte as nat, 1);
}

proof fn lemma_identity(bytes: Seq<u8>, at: int, id: u64)
    requires
        id <= IDENTITY_MAX,
        holds(bytes, at, be_bytes(id as nat, 8)),
    ensures
        take_identity(bytes, at) == Ok::<(u64, int), Seq<char>>((id, at + 8)),
        be_bytes(id as nat, 8).len() == 8,
{
    lemma_pow256_values();
    lemma_number(bytes, at, id as nat, 8);
}

/// The key of a row names the relation of the row.
pub proof fn law_a_fact_key_names_its_relation(relation: u64, row: Row, key: Seq<u8>)
    requires
        relation <= IDENTITY_MAX,
        put_fact_key(relation, row) == Ok::<Seq<u8>, Seq<char>>(key),
        key.len() <= usize::MAX,
    ensures
        take_identity(key, 0) == Ok::<(u64, int), Seq<char>>((relation, 8)),
{
    let head = be_bytes(relation as nat, 8);
    lemma_be_bytes_len(relation as nat, 8);
    assert(key.subrange(0, 8) =~= head);
    lemma_identity(key, 0, relation);
}

/// A number is read back from its record.
pub proof fn law_number_record_is_read_back(n: u64)
    ensures
        whole(be_bytes(n as nat, 8), take_number(be_bytes(n as nat, 8), 0, 8))
            == Ok::<nat, Seq<char>>(n as nat),
{
    let bytes = be_bytes(n as nat, 8);
    lemma_pow256_values();
    lemma_be_bytes_len(n as nat, 8);
    assert(bytes.subrange(0, 8) =~= bytes);
    lemma_number(bytes, 0, n as nat, 8);
}

proof fn lemma_len(bytes: Seq<u8>, at: int, len: nat)
    requires
        put_len(len) is Ok,
        holds(bytes, at, put_len(len)->Ok_0),
    ensures
        take_number(bytes, at, 4) == Ok::<(nat, int), Seq<char>>((len, at + 4)),
        put_len(len)->Ok_0.len() == 4,
{
    lemma_pow256_values();
    lemma_number(bytes, at, len, 4);
}

proof fn lemma_text(bytes: Seq<u8>, at: int, text: Seq<char>)
    requires
        put_text(text) is Ok,
        holds(bytes, at, put_text(text)->Ok_0),
    ensures
        take_text(bytes, at) == Ok::<(Seq<char>, int), Seq<char>>(
            (text, at + put_text(text)->Ok_0.len()),
        ),
{
    let raw = encode_utf8(text);
    let head = put_len(raw.len())->Ok_0;
    lemma_holds_split(bytes, at, head, raw);
    lemma_len(bytes, at, raw.len());
    encode_utf8_valid_utf8(text);
    encode_utf8_decode_utf8(text);
}

proof fn lemma_optional_text(bytes: Seq<u8>, at: int, text: Option<Seq<char>>)
    requires
        put_optional_text(text) is Ok,
        holds(bytes, at, put_optional_text(text)->Ok_0),
    ensures
        take_optional_text(bytes, at) == Ok::<(Option<Seq<char>>, int), Seq<char>>(
            (text, at + put_optional_text(text)->Ok_0.len()),
        ),
{
    match text {
        None => {
            lemma_byte(bytes, at, 0);
        },
        Some(t) => {
            lemma_holds_split(bytes, at, seq![1u8], put_text(t)->Ok_0);
            lemma_byte(bytes, at, 1);
            lemma_text(bytes, at + 1, t);
        },
    }
}

proof fn lemma_value(bytes: Seq<u8>, at: int, value: ValueView)
    requires
        storable(value),
        put_value(value) is Ok,
        holds(bytes, at, put_value(value)->Ok_0),
    ensures
        take_value(bytes, at) == Ok::<(ValueView, int), Seq<char>>(
            (value, at + put_value(value)->Ok_0.len()),
        ),
{
    let key = stored_form(value);
    assert(bytes.skip(at).take(key.len() as int) =~= bytes.subrange(at, at + key.len()));
    law_stored_value_is_read_back(bytes, at, value);
}

/// Whether an item is read back wherever it was written.
spec fn comes_back<T>(
    bytes: Seq<u8>,
    item: T,
    put: spec_fn(T) -> Encoded,
    take: spec_fn(int) -> Taken<T>,
) -> bool {
    forall|at: int|
        put(item) is Ok && #[trigger] holds(bytes, at, put(item)->Ok_0) ==> take(at) == Ok::<
            (T, int),
            Seq<char>,
        >((item, at + put(item)->Ok_0.len()))
}

proof fn lemma_each<T>(
    bytes: Seq<u8>,
    at: int,
    items: Seq<T>,
    put: spec_fn(T) -> Encoded,
    take: spec_fn(int) -> Taken<T>,
)
    requires
        put_each(items, put) is Ok,
        holds(bytes, at, put_each(items, put)->Ok_0),
        forall|i: int| 0 <= i < items.len() ==> comes_back(bytes, #[trigger] items[i], put, take),
    ensures
        take_many(at, items.len(), take) == Ok::<(Seq<T>, int), Seq<char>>(
            (items, at + put_each(items, put)->Ok_0.len()),
        ),
    decreases items.len(),
{
    if items.len() == 0 {
        assert(items =~= Seq::empty());
    } else {
        let before = items.drop_last();
        let a = put_each(before, put)->Ok_0;
        let b = put(items.last())->Ok_0;
        lemma_holds_split(bytes, at, a, b);
        assert forall|i: int| 0 <= i < before.len() implies comes_back(
            bytes,
            #[trigger] before[i],
            put,
            take,
        ) by {
            assert(before[i] == items[i]);
        }
        lemma_each(bytes, at, before, put, take);
        assert(items.last() == items[items.len() - 1]);
        assert(comes_back(bytes, items.last(), put, take));
        assert(before.push(items.last()) =~= items);
        assert(take_many(at, items.len(), take) == match take_many(
            at,
            (items.len() - 1) as nat,
            take,
        ) {
            Err(why) => Err(why),
            Ok((items, middle)) => match take(middle) {
                Err(why) => Err(why),
                Ok((item, end)) => Ok((items.push(item), end)),
            },
        });
    }
}

proof fn lemma_all<T>(
    bytes: Seq<u8>,
    at: int,
    items: Seq<T>,
    put: spec_fn(T) -> Encoded,
    take: spec_fn(int) -> Taken<T>,
)
    requires
        put_all(items, put) is Ok,
        holds(bytes, at, put_all(items, put)->Ok_0),
        forall|i: int| 0 <= i < items.len() ==> comes_back(bytes, #[trigger] items[i], put, take),
    ensures
        take_all(bytes, at, take) == Ok::<(Seq<T>, int), Seq<char>>(
            (items, at + put_all(items, put)->Ok_0.len()),
        ),
{
    let head = put_len(items.len())->Ok_0;
    lemma_holds_split(bytes, at, head, put_each(items, put)->Ok_0);
    lemma_len(bytes, at, items.len());
    lemma_each(bytes, at + 4, items, put, take);
}

proof fn lemma_row(bytes: Seq<u8>, at: int, row: Row)
    requires
        all_storable(row),
        put_row(row) is Ok,
        holds(bytes, at, put_row(row)->Ok_0),
    ensures
        take_row(bytes, at) == Ok::<(Row, int), Seq<char>>((row, at + put_row(row)->Ok_0.len())),
{
    let put = |value: ValueView| put_value(value);
    let take = |at: int| take_value(bytes, at);
    assert forall|i: int| 0 <= i < row.len() implies comes_back(
        bytes,
        #[trigger] row[i],
        put,
        take,
    ) by {
        assert forall|p: int|
            put(row[i]) is Ok && #[trigger] holds(bytes, p, put(row[i])->Ok_0) implies take(p)
            == Ok::<(ValueView, int), Seq<char>>((row[i], p + put(row[i])->Ok_0.len())) by {
            lemma_value(bytes, p, row[i]);
        }
    }
    lemma_all(bytes, at, row, put, take);
}

proof fn lemma_positions(bytes: Seq<u8>, at: int, positions: Seq<u16>)
    requires
        put_positions(positions) is Ok,
        holds(bytes, at, put_positions(positions)->Ok_0),
    ensures
        take_positions(bytes, at) == Ok::<(Seq<u16>, int), Seq<char>>(
            (positions, at + put_positions(positions)->Ok_0.len()),
        ),
{
    let put = |position: u16| Ok(be_bytes(position as nat, 2));
    let take = |at: int| take_position(bytes, at);
    assert forall|i: int| 0 <= i < positions.len() implies comes_back(
        bytes,
        #[trigger] positions[i],
        put,
        take,
    ) by {
        assert forall|p: int|
            put(positions[i]) is Ok && #[trigger] holds(
                bytes,
                p,
                put(positions[i])->Ok_0,
            ) implies take(p) == Ok::<(u16, int), Seq<char>>(
            (positions[i], p + put(positions[i])->Ok_0.len()),
        ) by {
            lemma_pow256_values();
            lemma_number(bytes, p, positions[i] as nat, 2);
        }
    }
    lemma_all(bytes, at, positions, put, take);
}

proof fn lemma_policy(bytes: Seq<u8>, at: int, policy: PolicyView)
    requires
        put_policy(policy) is Ok,
        holds(bytes, at, put_policy(policy)->Ok_0),
    ensures
        take_policy(bytes, at) == Ok::<(PolicyView, int), Seq<char>>(
            (policy, at + put_policy(policy)->Ok_0.len()),
        ),
{
    match policy {
        PolicyView::SetOfRows => {
            lemma_byte(bytes, at, 0);
        },
        PolicyView::EventAppend => {
            lemma_byte(bytes, at, 2);
        },
        PolicyView::Functional(key) => {
            lemma_holds_split(bytes, at, seq![1u8], put_positions(key)->Ok_0);
            lemma_byte(bytes, at, 1);
            lemma_positions(bytes, at + 1, key);
        },
    }
}

/// Whether a relation can be: its identity is in range and every column has a place for a
/// name.
pub open spec fn possible_metadata(metadata: MetadataView) -> bool {
    metadata.id <= IDENTITY_MAX && metadata.argument_names.len() == metadata.arity
}

proof fn lemma_metadata(bytes: Seq<u8>, at: int, metadata: MetadataView)
    requires
        possible_metadata(metadata),
        put_metadata(metadata) is Ok,
        holds(bytes, at, put_metadata(metadata)->Ok_0),
    ensures
        take_metadata(bytes, at) == Ok::<(MetadataView, int), Seq<char>>(
            (metadata, at + put_metadata(metadata)->Ok_0.len()),
        ),
{
    let m = metadata;
    let tag: u8 = if m.durability is Durable {
        0
    } else {
        1
    };
    let id = be_bytes(m.id as nat, 8);
    let name = put_text(m.name)->Ok_0;
    let width = be_bytes(m.arity as nat, 2);
    let put_name = |name: Option<Seq<char>>| put_optional_text(name);
    let put_index = |positions: Seq<u16>| put_positions(positions);
    let take_name = |at: int| take_optional_text(bytes, at);
    let take_index = |at: int| take_positions(bytes, at);
    let names = put_each(m.argument_names, put_name)->Ok_0;
    let indexes = put_all(m.indexes, put_index)->Ok_0;
    let policy = put_policy(m.conflict_policy)->Ok_0;
    lemma_holds_split(bytes, at, id + name + width.push(tag) + names, indexes + policy);
    lemma_holds_split(bytes, at, id + name + width.push(tag), names);
    lemma_holds_split(bytes, at, id + name, width.push(tag));
    lemma_holds_split(bytes, at, id, name);
    let p1 = at + id.len();
    let p2 = p1 + name.len();
    assert(width.push(tag) =~= width + seq![tag]);
    lemma_holds_split(bytes, p2, width, seq![tag]);
    lemma_identity(bytes, at, m.id);
    lemma_text(bytes, p1, m.name);
    lemma_pow256_values();
    lemma_number(bytes, p2, m.arity as nat, 2);
    lemma_byte(bytes, p2 + 2, tag);
    let p3 = p2 + 3;
    assert(take_plain(bytes, at)->Ok_0.1 == p3);
    assert forall|i: int| 0 <= i < m.argument_names.len() implies comes_back(
        bytes,
        #[trigger] m.argument_names[i],
        put_name,
        take_name,
    ) by {
        let item = m.argument_names[i];
        assert forall|p: int|
            put_name(item) is Ok && #[trigger] holds(bytes, p, put_name(item)->Ok_0) implies take_name(
            p,
        ) == Ok::<(Option<Seq<char>>, int), Seq<char>>((item, p + put_name(item)->Ok_0.len())) by {
            lemma_optional_text(bytes, p, item);
        }
    }
    lemma_each(bytes, p3, m.argument_names, put_name, take_name);
    let p4 = p3 + names.len();
    lemma_holds_split(bytes, p4, indexes, policy);
    assert forall|i: int| 0 <= i < m.indexes.len() implies comes_back(
        bytes,
        #[trigger] m.indexes[i],
        put_index,
        take_index,
    ) by {
        let item = m.indexes[i];
        assert forall|p: int|
            put_index(item) is Ok && #[trigger] holds(
                bytes,
                p,
                put_index(item)->Ok_0,
            ) implies take_index(p) == Ok::<(Seq<u16>, int), Seq<char>>(
            (item, p + put_index(item)->Ok_0.len()),
        ) by {
            lemma_positions(bytes, p, item);
        }
    }
    lemma_all(bytes, p4, m.indexes, put_index, take_index);
    let p5 = p4 + indexes.len();
    lemma_policy(bytes, p5, m.conflict_policy);
    let plain = take_plain(bytes, at)->Ok_0.0;
    assert(plain.arity == m.arity);
    assert((MetadataView {
        argument_names: m.argument_names,
        indexes: m.indexes,
        conflict_policy: m.conflict_policy,
        ..plain
    }) == m);
}

/// Whether a term can be stored.
pub open spec fn possible_term(term: TermView) -> bool {
    match term {
        TermView::Var(_) => true,
        TermView::Value(value) => storable(value),
    }
}

/// Whether every term can be stored.
pub open spec fn possible_terms(terms: Seq<TermView>) -> bool {
    forall|i: int| 0 <= i < terms.len() ==> possible_term(#[trigger] terms[i])
}

/// Whether a condition can be stored.
pub open spec fn possible_item(item: BodyItemView) -> bool {
    match item {
        BodyItemView::Atom(atom) => atom.relation <= IDENTITY_MAX && possible_terms(atom.terms),
        BodyItemView::Guard(_, left, right) => possible_term(left) && possible_term(right),
    }
}

/// Whether a rule can be stored.
pub open spec fn possible_rule(rule: RuleView) -> bool {
    &&& rule.head_relation <= IDENTITY_MAX
    &&& possible_terms(rule.head_terms)
    &&& forall|i: int| 0 <= i < rule.body.len() ==> possible_item(#[trigger] rule.body[i])
}

/// Whether an installed rule can be stored.
pub open spec fn possible_definition(definition: DefinitionView) -> bool {
    definition.id <= IDENTITY_MAX && possible_rule(definition.rule)
}

proof fn lemma_term(bytes: Seq<u8>, at: int, term: TermView)
    requires
        possible_term(term),
        put_term(term) is Ok,
        holds(bytes, at, put_term(term)->Ok_0),
    ensures
        take_term(bytes, at) == Ok::<(TermView, int), Seq<char>>(
            (term, at + put_term(term)->Ok_0.len()),
        ),
{
    match term {
        TermView::Var(name) => {
            lemma_holds_split(bytes, at, seq![0u8], put_text(name)->Ok_0);
            lemma_byte(bytes, at, 0);
            lemma_text(bytes, at + 1, name);
        },
        TermView::Value(value) => {
            lemma_holds_split(bytes, at, seq![1u8], put_value(value)->Ok_0);
            lemma_byte(bytes, at, 1);
            lemma_value(bytes, at + 1, value);
        },
    }
}

proof fn lemma_terms(bytes: Seq<u8>, at: int, terms: Seq<TermView>)
    requires
        possible_terms(terms),
        put_terms(terms) is Ok,
        holds(bytes, at, put_terms(terms)->Ok_0),
    ensures
        take_terms(bytes, at) == Ok::<(Seq<TermView>, int), Seq<char>>(
            (terms, at + put_terms(terms)->Ok_0.len()),
        ),
{
    let put = |term: TermView| put_term(term);
    let take = |at: int| take_term(bytes, at);
    assert forall|i: int| 0 <= i < terms.len() implies comes_back(
        bytes,
        #[trigger] terms[i],
        put,
        take,
    ) by {
        let item = terms[i];
        assert forall|p: int|
            put(item) is Ok && #[trigger] holds(bytes, p, put(item)->Ok_0) implies take(p) == Ok::<
            (TermView, int),
            Seq<char>,
        >((item, p + put(item)->Ok_0.len())) by {
            lemma_term(bytes, p, item);
        }
    }
    lemma_all(bytes, at, terms, put, take);
}

proof fn lemma_atom(bytes: Seq<u8>, at: int, atom: AtomView)
    requires
        possible_item(BodyItemView::Atom(atom)),
        put_body_item(BodyItemView::Atom(atom)) is Ok,
        holds(bytes, at, put_body_item(BodyItemView::Atom(atom))->Ok_0),
    ensures
        take_body_item(bytes, at) == Ok::<(BodyItemView, int), Seq<char>>(
            (
                BodyItemView::Atom(atom),
                at + put_body_item(BodyItemView::Atom(atom))->Ok_0.len(),
            ),
        ),
{
    let tag: u8 = if atom.negated {
        1
    } else {
        0
    };
    let id = be_bytes(atom.relation as nat, 8);
    let terms = put_terms(atom.terms)->Ok_0;
    lemma_holds_split(bytes, at, seq![tag] + id, terms);
    lemma_holds_split(bytes, at, seq![tag], id);
    lemma_byte(bytes, at, tag);
    lemma_identity(bytes, at + 1, atom.relation);
    lemma_terms(bytes, at + 9, atom.terms);
}

proof fn lemma_op(bytes: Seq<u8>, at: int, op: RuleComparisonOp)
    requires
        holds(bytes, at, seq![op_byte(op)]),
    ensures
        take_op(bytes, at) == Ok::<(RuleComparisonOp, int), Seq<char>>((op, at + 1)),
{
    lemma_byte(bytes, at, op_byte(op));
}

proof fn lemma_guard_parts(
    bytes: Seq<u8>,
    at: int,
    op: RuleComparisonOp,
    left: TermView,
    right: TermView,
)
    requires
        possible_term(left),
        possible_term(right),
        put_term(left) is Ok,
        put_term(right) is Ok,
        holds(
            bytes,
            at,
            seq![2u8, op_byte(op)] + put_term(left)->Ok_0 + put_term(right)->Ok_0,
        ),
    ensures
        take_number(bytes, at, 1) == Ok::<(nat, int), Seq<char>>((2, at + 1)),
        take_op(bytes, at + 1) == Ok::<(RuleComparisonOp, int), Seq<char>>((op, at + 2)),
        take_term(bytes, at + 2) == Ok::<(TermView, int), Seq<char>>(
            (left, at + 2 + put_term(left)->Ok_0.len()),
        ),
        take_term(bytes, at + 2 + put_term(left)->Ok_0.len()) == Ok::<(TermView, int), Seq<char>>(
            (right, at + 2 + put_term(left)->Ok_0.len() + put_term(right)->Ok_0.len()),
        ),
{
    let head = seq![2u8, op_byte(op)];
    let a = put_term(left)->Ok_0;
    let b = put_term(right)->Ok_0;
    lemma_holds_split(bytes, at, head + a, b);
    lemma_holds_split(bytes, at, head, a);
    assert(head =~= seq![2u8] + seq![op_byte(op)]);
    lemma_holds_split(bytes, at, seq![2u8], seq![op_byte(op)]);
    assert(take_number(bytes, at, 1) == Ok::<(nat, int), Seq<char>>((2, at + 1))) by {
        lemma_byte(bytes, at, 2);
    }
    assert(take_op(bytes, at + 1) == Ok::<(RuleComparisonOp, int), Seq<char>>((op, at + 2))) by {
        lemma_op(bytes, at + 1, op);
    }
    lemma_term(bytes, at + 2, left);
    lemma_term(bytes, at + 2 + a.len(), right);
}

proof fn lemma_guard(
    bytes: Seq<u8>,
    at: int,
    op: RuleComparisonOp,
    left: TermView,
    right: TermView,
)
    requires
        possible_term(left),
        possible_term(right),
        put_body_item(BodyItemView::Guard(op, left, right)) is Ok,
        holds(bytes, at, put_body_item(BodyItemView::Guard(op, left, right))->Ok_0),
    ensures
        take_body_item(bytes, at) == Ok::<(BodyItemView, int), Seq<char>>(
            (
                BodyItemView::Guard(op, left, right),
                at + put_body_item(BodyItemView::Guard(op, left, right))->Ok_0.len(),
            ),
        ),
{
    lemma_guard_parts(bytes, at, op, left, right);
}

proof fn lemma_item(bytes: Seq<u8>, at: int, item: BodyItemView)
    requires
        possible_item(item),
        put_body_item(item) is Ok,
        holds(bytes, at, put_body_item(item)->Ok_0),
    ensures
        take_body_item(bytes, at) == Ok::<(BodyItemView, int), Seq<char>>(
            (item, at + put_body_item(item)->Ok_0.len()),
        ),
{
    match item {
        BodyItemView::Atom(atom) => {
            lemma_atom(bytes, at, atom);
        },
        BodyItemView::Guard(op, left, right) => {
            lemma_guard(bytes, at, op, left, right);
        },
    }
}

proof fn lemma_rule(bytes: Seq<u8>, at: int, rule: RuleView)
    requires
        possible_rule(rule),
        put_rule(rule) is Ok,
        holds(bytes, at, put_rule(rule)->Ok_0),
    ensures
        take_rule(bytes, at) == Ok::<(RuleView, int), Seq<char>>(
            (rule, at + put_rule(rule)->Ok_0.len()),
        ),
{
    let put = |item: BodyItemView| put_body_item(item);
    let take = |at: int| take_body_item(bytes, at);
    let id = be_bytes(rule.head_relation as nat, 8);
    let terms = put_terms(rule.head_terms)->Ok_0;
    let body = put_all(rule.body, put)->Ok_0;
    lemma_holds_split(bytes, at, id + terms, body);
    lemma_holds_split(bytes, at, id, terms);
    lemma_identity(bytes, at, rule.head_relation);
    lemma_terms(bytes, at + 8, rule.head_terms);
    assert forall|i: int| 0 <= i < rule.body.len() implies comes_back(
        bytes,
        #[trigger] rule.body[i],
        put,
        take,
    ) by {
        let item = rule.body[i];
        assert forall|p: int|
            put(item) is Ok && #[trigger] holds(bytes, p, put(item)->Ok_0) implies take(p) == Ok::<
            (BodyItemView, int),
            Seq<char>,
        >((item, p + put(item)->Ok_0.len())) by {
            lemma_item(bytes, p, item);
        }
    }
    lemma_all(bytes, at + 8 + terms.len(), rule.body, put, take);
}

#[verifier::spinoff_prover]
#[verifier::rlimit(60)]
proof fn lemma_definition(bytes: Seq<u8>, at: int, definition: DefinitionView)
    requires
        possible_definition(definition),
        put_definition(definition) is Ok,
        holds(bytes, at, put_definition(definition)->Ok_0),
    ensures
        take_definition(bytes, at) == Ok::<(DefinitionView, int), Seq<char>>(
            (definition, at + put_definition(definition)->Ok_0.len()),
        ),
{
    let flag: u8 = if definition.active {
        1
    } else {
        0
    };
    let id = be_bytes(definition.id as nat, 8);
    let source = put_text(definition.source)->Ok_0;
    let rule = put_rule(definition.rule)->Ok_0;
    lemma_holds_split(bytes, at, id.push(flag) + source, rule);
    lemma_holds_split(bytes, at, id.push(flag), source);
    assert(id.push(flag) =~= id + seq![flag]);
    lemma_holds_split(bytes, at, id, seq![flag]);
    lemma_identity(bytes, at, definition.id);
    lemma_byte(bytes, at + 8, flag);
    lemma_text(bytes, at + 9, definition.source);
    lemma_rule(bytes, at + 9 + source.len(), definition.rule);
}

/// Whether a change to the catalog can be stored.
pub open spec fn possible_catalog_change(change: CatalogChangeView) -> bool {
    match change {
        CatalogChangeView::RelationCreated(metadata) => possible_metadata(metadata),
        CatalogChangeView::RuleInstalled(definition) => possible_definition(definition),
        CatalogChangeView::RuleDisabled(rule) => rule <= IDENTITY_MAX,
    }
}

/// Whether a row that came or went can be stored.
pub open spec fn possible_fact_change(change: FactChangeView) -> bool {
    change.relation <= IDENTITY_MAX && all_storable(change.row)
}

/// Whether a commit can be stored.
pub open spec fn possible_commit(commit: CommitView) -> bool {
    &&& forall|i: int|
        0 <= i < commit.catalog_changes.len() ==> possible_catalog_change(
            #[trigger] commit.catalog_changes[i],
        )
    &&& forall|i: int|
        0 <= i < commit.changes.len() ==> possible_fact_change(#[trigger] commit.changes[i])
}

#[verifier::spinoff_prover]
#[verifier::rlimit(60)]
proof fn lemma_catalog_change(bytes: Seq<u8>, at: int, change: CatalogChangeView)
    requires
        possible_catalog_change(change),
        put_catalog_change(change) is Ok,
        holds(bytes, at, put_catalog_change(change)->Ok_0),
    ensures
        take_catalog_change(bytes, at) == Ok::<(CatalogChangeView, int), Seq<char>>(
            (change, at + put_catalog_change(change)->Ok_0.len()),
        ),
{
    match change {
        CatalogChangeView::RelationCreated(metadata) => {
            lemma_holds_split(bytes, at, seq![0u8], put_metadata(metadata)->Ok_0);
            lemma_byte(bytes, at, 0);
            lemma_metadata(bytes, at + 1, metadata);
        },
        CatalogChangeView::RuleInstalled(definition) => {
            lemma_holds_split(bytes, at, seq![1u8], put_definition(definition)->Ok_0);
            lemma_byte(bytes, at, 1);
            lemma_definition(bytes, at + 1, definition);
        },
        CatalogChangeView::RuleDisabled(rule) => {
            lemma_holds_split(bytes, at, seq![2u8], be_bytes(rule as nat, 8));
            lemma_byte(bytes, at, 2);
            lemma_identity(bytes, at + 1, rule);
        },
    }
}

proof fn lemma_fact_change(bytes: Seq<u8>, at: int, change: FactChangeView)
    requires
        possible_fact_change(change),
        put_fact_change(change) is Ok,
        holds(bytes, at, put_fact_change(change)->Ok_0),
    ensures
        take_fact_change(bytes, at) == Ok::<(FactChangeView, int), Seq<char>>(
            (change, at + put_fact_change(change)->Ok_0.len()),
        ),
{
    let tag: u8 = if change.kind is Assert {
        0
    } else {
        1
    };
    let id = be_bytes(change.relation as nat, 8);
    let row = put_row(change.row)->Ok_0;
    lemma_holds_split(bytes, at, id + row, seq![tag]);
    lemma_holds_split(bytes, at, id, row);
    lemma_identity(bytes, at, change.relation);
    lemma_row(bytes, at + 8, change.row);
    lemma_byte(bytes, at + 8 + row.len(), tag);
}

#[verifier::spinoff_prover]
#[verifier::rlimit(60)]
proof fn lemma_commit(bytes: Seq<u8>, commit: CommitView)
    requires
        possible_commit(commit),
        put_commit(commit) is Ok,
        holds(bytes, 0, put_commit(commit)->Ok_0),
    ensures
        take_commit(bytes, 0) == Ok::<(CommitView, int), Seq<char>>(
            (
                CommitView {
                    relation_changes: Seq::empty(),
                    settled_relation_changes_available: false,
                    ..commit
                },
                put_commit(commit)->Ok_0.len() as int,
            ),
        ),
{
    let put_c = |change: CatalogChangeView| put_catalog_change(change);
    let put_f = |change: FactChangeView| put_fact_change(change);
    let take_c = |at: int| take_catalog_change(bytes, at);
    let take_f = |at: int| take_fact_change(bytes, at);
    let version = be_bytes(commit.version as nat, 8);
    let catalog = put_all(commit.catalog_changes, put_c)->Ok_0;
    let facts = put_all(commit.changes, put_f)->Ok_0;
    lemma_holds_split(bytes, 0, magic() + version + catalog, facts);
    lemma_holds_split(bytes, 0, magic() + version, catalog);
    lemma_holds_split(bytes, 0, magic(), version);
    lemma_pow256_values();
    lemma_number(bytes, 8, commit.version as nat, 8);
    assert forall|i: int| 0 <= i < commit.catalog_changes.len() implies comes_back(
        bytes,
        #[trigger] commit.catalog_changes[i],
        put_c,
        take_c,
    ) by {
        let item = commit.catalog_changes[i];
        assert forall|p: int|
            put_c(item) is Ok && #[trigger] holds(bytes, p, put_c(item)->Ok_0) implies take_c(p)
            == Ok::<(CatalogChangeView, int), Seq<char>>((item, p + put_c(item)->Ok_0.len())) by {
            lemma_catalog_change(bytes, p, item);
        }
    }
    lemma_all(bytes, 16, commit.catalog_changes, put_c, take_c);
    assert forall|i: int| 0 <= i < commit.changes.len() implies comes_back(
        bytes,
        #[trigger] commit.changes[i],
        put_f,
        take_f,
    ) by {
        let item = commit.changes[i];
        assert forall|p: int|
            put_f(item) is Ok && #[trigger] holds(bytes, p, put_f(item)->Ok_0) implies take_f(p)
            == Ok::<(FactChangeView, int), Seq<char>>((item, p + put_f(item)->Ok_0.len())) by {
            lemma_fact_change(bytes, p, item);
        }
    }
    lemma_all(bytes, 16int + catalog.len(), commit.changes, put_f, take_f);
}

/// A relation that was written to a record is read back from it.
pub proof fn law_relation_record_is_read_back(metadata: MetadataView, record: Seq<u8>)
    requires
        possible_metadata(metadata),
        record.len() <= usize::MAX,
        put_metadata(metadata) == Ok::<Seq<u8>, Seq<char>>(record),
    ensures
        whole(record, take_metadata(record, 0)) == Ok::<MetadataView, Seq<char>>(metadata),
{
    assert(record.subrange(0, record.len() as int) =~= record);
    lemma_metadata(record, 0, metadata);
}

/// An installed rule that was written to a record is read back from it.
pub proof fn law_rule_record_is_read_back(definition: DefinitionView, record: Seq<u8>)
    requires
        possible_definition(definition),
        record.len() <= usize::MAX,
        put_definition(definition) == Ok::<Seq<u8>, Seq<char>>(record),
    ensures
        whole(record, take_definition(record, 0)) == Ok::<DefinitionView, Seq<char>>(definition),
{
    assert(record.subrange(0, record.len() as int) =~= record);
    lemma_definition(record, 0, definition);
}

/// A row that was written to a record is read back from it.
pub proof fn law_row_record_is_read_back(row: Row, record: Seq<u8>)
    requires
        all_storable(row),
        record.len() <= usize::MAX,
        put_row(row) == Ok::<Seq<u8>, Seq<char>>(record),
    ensures
        whole(record, take_row(record, 0)) == Ok::<Row, Seq<char>>(row),
{
    assert(record.subrange(0, record.len() as int) =~= record);
    lemma_row(record, 0, row);
}

/// A commit that was written to a record is read back from it, but for the derived rows
/// that it announced.
pub proof fn law_commit_record_is_read_back(commit: CommitView, record: Seq<u8>)
    requires
        possible_commit(commit),
        record.len() <= usize::MAX,
        put_commit(commit) == Ok::<Seq<u8>, Seq<char>>(record),
    ensures
        whole(record, take_commit(record, 0)) == Ok::<CommitView, Seq<char>>(
            CommitView {
                relation_changes: Seq::empty(),
                settled_relation_changes_available: false,
                ..commit
            },
        ),
{
    assert(record.subrange(0, record.len() as int) =~= record);
    lemma_commit(record, commit);
}

} // verus!
