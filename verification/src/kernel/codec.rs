//! Commits, relations, rules and rows as bytes.

use crate::bytes::{be_bytes, push_all, push_be};
use crate::kernel::algebra::Row;
use crate::kernel::commit::{catalog_change_views, fact_change_views, CatalogChange,
    CatalogChangeView, Commit, CommitView, FactChange, FactChangeKind, FactChangeView};
use crate::kernel::metadata::{index_views, ConflictPolicy, MetadataView, PolicyView,
    RelationDurability, RelationId, RelationMetadata, TupleIndexSpec};
use crate::kernel::rules::{body_views, term_views, Atom, BodyItemView, DefinitionView, Rule,
    RuleBodyItem, RuleComparisonOp, RuleDefinition, RuleView, Term, TermView};
use crate::text::{decimal, numbered};
use crate::tuple::Tuple;
use crate::value::{is_persistable, persistable, Symbol, Value, ValueView};
use crate::value_codec::{fits_word, push_stored_form, stored_form, value_fits_word};
use vstd::prelude::*;
use vstd::utf8::{decode_utf8, encode_utf8, encode_utf8_decode_utf8, encode_utf8_valid_utf8,
    valid_utf8};

verus! {

/// Bytes to be written, or why they cannot be.
pub type Encoded = Result<Seq<u8>, Seq<char>>;

/// Bytes followed by others.
pub open spec fn followed_by(first: Encoded, second: Encoded) -> Encoded {
    match (first, second) {
        (Err(text), _) => Err(text),
        (_, Err(text)) => Err(text),
        (Ok(a), Ok(b)) => Ok(a + b),
    }
}

/// One byte.
pub open spec fn put_byte(byte: u8) -> Encoded {
    Ok(seq![byte])
}

/// A number of items.
pub open spec fn put_len(len: nat) -> Encoded {
    if len > u32::MAX {
        Err("length "@ + decimal(len) + " exceeds u32"@)
    } else {
        Ok(be_bytes(len, 4))
    }
}

/// A text.
pub open spec fn put_text(text: Seq<char>) -> Encoded {
    followed_by(put_len(encode_utf8(text).len()), Ok(encode_utf8(text)))
}

/// An optional text.
pub open spec fn put_optional_text(text: Option<Seq<char>>) -> Encoded {
    match text {
        None => put_byte(0),
        Some(text) => followed_by(put_byte(1), put_text(text)),
    }
}

/// A value.
pub open spec fn put_value(value: ValueView) -> Encoded {
    if persistable(value) && fits_word(value) {
        Ok(stored_form(value))
    } else {
        Err("value cannot be stored"@)
    }
}

/// Items, one after the other.
pub open spec fn put_each<T>(items: Seq<T>, one: spec_fn(T) -> Encoded) -> Encoded
    decreases items.len(),
{
    if items.len() == 0 {
        Ok(Seq::empty())
    } else {
        followed_by(put_each(items.drop_last(), one), one(items.last()))
    }
}

/// How many items there are, and the items.
pub open spec fn put_all<T>(items: Seq<T>, one: spec_fn(T) -> Encoded) -> Encoded {
    followed_by(put_len(items.len()), put_each(items, one))
}

/// A row.
pub open spec fn put_row(row: Row) -> Encoded {
    put_all(row, |value: ValueView| put_value(value))
}

/// Positions.
pub open spec fn put_positions(positions: Seq<u16>) -> Encoded {
    put_all(positions, |position: u16| Ok(be_bytes(position as nat, 2)))
}

/// A conflict policy.
pub open spec fn put_policy(policy: PolicyView) -> Encoded {
    match policy {
        PolicyView::SetOfRows => put_byte(0),
        PolicyView::Functional(key) => followed_by(put_byte(1), put_positions(key)),
        PolicyView::EventAppend => put_byte(2),
    }
}

/// What a relation is.
pub open spec fn put_metadata(metadata: MetadataView) -> Encoded {
    followed_by(
        followed_by(
            followed_by(
                followed_by(Ok(be_bytes(metadata.id as nat, 8)), put_text(metadata.name)),
                Ok(
                    be_bytes(metadata.arity as nat, 2).push(
                        if metadata.durability is Durable {
                            0
                        } else {
                            1
                        },
                    ),
                ),
            ),
            put_each(metadata.argument_names, |name: Option<Seq<char>>| put_optional_text(name)),
        ),
        followed_by(
            put_all(metadata.indexes, |positions: Seq<u16>| put_positions(positions)),
            put_policy(metadata.conflict_policy),
        ),
    )
}

/// A term.
pub open spec fn put_term(term: TermView) -> Encoded {
    match term {
        TermView::Var(name) => followed_by(put_byte(0), put_text(name)),
        TermView::Value(value) => followed_by(put_byte(1), put_value(value)),
    }
}

/// Terms.
pub open spec fn put_terms(terms: Seq<TermView>) -> Encoded {
    put_all(terms, |term: TermView| put_term(term))
}

/// The byte for a comparison.
pub open spec fn op_byte(op: RuleComparisonOp) -> u8 {
    match op {
        RuleComparisonOp::Eq => 0,
        RuleComparisonOp::Ne => 1,
        RuleComparisonOp::Lt => 2,
        RuleComparisonOp::Le => 3,
        RuleComparisonOp::Gt => 4,
        RuleComparisonOp::Ge => 5,
    }
}

/// A condition of a rule.
pub open spec fn put_body_item(item: BodyItemView) -> Encoded {
    match item {
        BodyItemView::Atom(atom) => followed_by(
            Ok(
                seq![
                    if atom.negated {
                        1u8
                    } else {
                        0u8
                    },
                ] + be_bytes(atom.relation as nat, 8),
            ),
            put_terms(atom.terms),
        ),
        BodyItemView::Guard(op, left, right) => followed_by(
            followed_by(Ok(seq![2u8, op_byte(op)]), put_term(left)),
            put_term(right),
        ),
    }
}

/// A rule.
pub open spec fn put_rule(rule: RuleView) -> Encoded {
    followed_by(
        followed_by(Ok(be_bytes(rule.head_relation as nat, 8)), put_terms(rule.head_terms)),
        put_all(rule.body, |item: BodyItemView| put_body_item(item)),
    )
}

/// An installed rule.
pub open spec fn put_definition(definition: DefinitionView) -> Encoded {
    followed_by(
        followed_by(
            Ok(
                be_bytes(definition.id as nat, 8).push(
                    if definition.active {
                        1
                    } else {
                        0
                    },
                ),
            ),
            put_text(definition.source),
        ),
        put_rule(definition.rule),
    )
}

/// A change to the catalog.
pub open spec fn put_catalog_change(change: CatalogChangeView) -> Encoded {
    match change {
        CatalogChangeView::RelationCreated(metadata) => followed_by(
            put_byte(0),
            put_metadata(metadata),
        ),
        CatalogChangeView::RuleInstalled(definition) => followed_by(
            put_byte(1),
            put_definition(definition),
        ),
        CatalogChangeView::RuleDisabled(rule) => Ok(seq![2u8] + be_bytes(rule as nat, 8)),
    }
}

/// A row that came or went.
pub open spec fn put_fact_change(change: FactChangeView) -> Encoded {
    followed_by(
        followed_by(Ok(be_bytes(change.relation as nat, 8)), put_row(change.row)),
        put_byte(
            if change.kind is Assert {
                0
            } else {
                1
            },
        ),
    )
}

/// The bytes that a commit record starts with.
pub open spec fn magic() -> Seq<u8> {
    seq![0x4du8, 0x49u8, 0x43u8, 0x41u8, 0x43u8, 0x4du8, 0x54u8, 0x32u8]
}

/// What a commit changed.
pub open spec fn put_commit(commit: CommitView) -> Encoded {
    followed_by(
        followed_by(
            Ok(magic() + be_bytes(commit.version as nat, 8)),
            put_all(
                commit.catalog_changes,
                |change: CatalogChangeView| put_catalog_change(change),
            ),
        ),
        put_all(commit.changes, |change: FactChangeView| put_fact_change(change)),
    )
}

/// The bytes under which a row of a relation is stored.
pub open spec fn put_fact_key(relation: u64, row: Row) -> Encoded {
    followed_by(Ok(be_bytes(relation as nat, 8)), put_row(row))
}

/// Whether writing had the outcome that `encoded` says.
pub open spec fn wrote(
    before: Seq<u8>,
    after: Seq<u8>,
    result: Result<(), String>,
    encoded: Encoded,
) -> bool {
    match (result, encoded) {
        (Ok(()), Ok(bytes)) => after == before + bytes,
        (Err(text), Err(why)) => text@ == why,
        _ => false,
    }
}

/// Whether a record is what `encoded` says.
pub open spec fn is_record(result: Result<Vec<u8>, String>, encoded: Encoded) -> bool {
    match (result, encoded) {
        (Ok(record), Ok(bytes)) => record@ == bytes,
        (Err(text), Err(why)) => text@ == why,
        _ => false,
    }
}

fn write_len(out: &mut Vec<u8>, len: usize) -> (result: Result<(), String>)
    ensures
        wrote(old(out)@, final(out)@, result, put_len(len as nat)),
{
    if len as u64 > u32::MAX as u64 {
        return Err(numbered("length ", len as u64, " exceeds u32"));
    }
    push_be(out, len as u64, 4);
    Ok(())
}

fn write_text(out: &mut Vec<u8>, text: &str) -> (result: Result<(), String>)
    ensures
        wrote(old(out)@, final(out)@, result, put_text(text@)),
{
    let bytes = text.as_bytes();
    match write_len(out, bytes.len()) {
        Err(why) => Err(why),
        Ok(()) => {
            push_all(out, bytes);
            assert(out@ =~= old(out)@ + (be_bytes(bytes@.len() as nat, 4) + bytes@));
            Ok(())
        },
    }
}

fn write_optional_text(out: &mut Vec<u8>, text: Option<&Symbol>) -> (result: Result<(), String>)
    ensures
        wrote(
            old(out)@,
            final(out)@,
            result,
            put_optional_text(
                match text {
                    Some(name) => Some(name@),
                    None => None,
                },
            ),
        ),
{
    match text {
        None => {
            out.push(0);
            assert(out@ =~= old(out)@ + seq![0u8]);
            Ok(())
        },
        Some(name) => {
            out.push(1);
            assert(out@ =~= old(out)@ + seq![1u8]);
            match write_text(out, name.name()) {
                Err(why) => Err(why),
                Ok(()) => {
                    proof {
                        let tail = put_text(name@)->Ok_0;
                        assert(out@ =~= old(out)@ + (seq![1u8] + tail));
                    }
                    Ok(())
                },
            }
        },
    }
}

fn write_value(out: &mut Vec<u8>, value: &Value) -> (result: Result<(), String>)
    ensures
        wrote(old(out)@, final(out)@, result, put_value(value@)),
{
    if !is_persistable(value) || !value_fits_word(value) {
        return Err("value cannot be stored".to_owned());
    }
    push_stored_form(out, value);
    Ok(())
}

proof fn lemma_wrote_next(start: Seq<u8>, a: Seq<u8>, b: Seq<u8>)
    ensures
        (start + a) + b == start + (a + b),
{
    assert((start + a) + b =~= start + (a + b));
}

fn write_row(out: &mut Vec<u8>, tuple: &Tuple) -> (result: Result<(), String>)
    ensures
        wrote(old(out)@, final(out)@, result, put_row(tuple@)),
{
    let ghost one = |value: ValueView| put_value(value);
    let ghost start = out@;
    let values = tuple.values();
    match write_len(out, values.len()) {
        Err(why) => {
            return Err(why);
        },
        Ok(()) => {},
    }
    let ghost head = be_bytes(values@.len() as nat, 4);
    let ghost all = tuple@;
    let mut i: usize = 0;
    proof {
        assert(all.take(0) =~= Seq::empty());
        assert(out@ =~= start + head + Seq::<u8>::empty());
    }
    while i < values.len()
        invariant
            i <= values@.len(),
            all == tuple@,
            values@.len() == all.len(),
            forall|k: int| 0 <= k < values@.len() ==> (#[trigger] values@[k])@ == all[k],
            one == (|value: ValueView| put_value(value)),
            put_len(all.len()) == Ok::<_, Seq<char>>(head),
            put_each(all.take(i as int), one) is Ok,
            out@ == start + head + put_each(all.take(i as int), one)->Ok_0,
        decreases values@.len() - i,
    {
        let ghost before = put_each(all.take(i as int), one)->Ok_0;
        proof {
            assert(all.take(i + 1).drop_last() =~= all.take(i as int));
            assert(all.take(i + 1).last() == values@[i as int]@);
        }
        match write_value(out, &values[i]) {
            Err(why) => {
                proof {
                    lemma_each_fails(all, one, i + 1);
                }
                return Err(why);
            },
            Ok(()) => {
                proof {
                    lemma_wrote_next(start + head, before, put_value(all[i as int])->Ok_0);
                }
            },
        }
        i = i + 1;
    }
    proof {
        assert(all.take(i as int) =~= all);
        lemma_wrote_next(start, head, put_each(all, one)->Ok_0);
    }
    Ok(())
}

/// Where some first items cannot be written, all cannot, for the same reason.
proof fn lemma_each_fails<T>(items: Seq<T>, one: spec_fn(T) -> Encoded, n: int)
    requires
        0 <= n <= items.len(),
        put_each(items.take(n), one) is Err,
    ensures
        put_each(items, one) == put_each(items.take(n), one),
    decreases items.len() - n,
{
    if n == items.len() {
        assert(items.take(n) =~= items);
    } else {
        assert(items.take(n + 1).drop_last() =~= items.take(n));
        lemma_each_fails(items, one, n + 1);
    }
}

fn write_positions(out: &mut Vec<u8>, positions: &[u16]) -> (result: Result<(), String>)
    ensures
        wrote(old(out)@, final(out)@, result, put_positions(positions@)),
{
    let ghost one = |position: u16| -> Encoded { Ok(be_bytes(position as nat, 2)) };
    let ghost start = out@;
    match write_len(out, positions.len()) {
        Err(why) => {
            return Err(why);
        },
        Ok(()) => {},
    }
    let ghost head = be_bytes(positions@.len() as nat, 4);
    let ghost all = positions@;
    let mut i: usize = 0;
    proof {
        assert(all.take(0) =~= Seq::empty());
        assert(out@ =~= start + head + Seq::<u8>::empty());
    }
    while i < positions.len()
        invariant
            i <= positions@.len(),
            all == positions@,
            one == (|position: u16| -> Encoded { Ok(be_bytes(position as nat, 2)) }),
            put_each(all.take(i as int), one) is Ok,
            out@ == start + head + put_each(all.take(i as int), one)->Ok_0,
        decreases positions@.len() - i,
    {
        let ghost before = put_each(all.take(i as int), one)->Ok_0;
        proof {
            assert(all.take(i + 1).drop_last() =~= all.take(i as int));
            lemma_wrote_next(start + head, before, be_bytes(all[i as int] as nat, 2));
        }
        push_be(out, positions[i] as u64, 2);
        i = i + 1;
    }
    proof {
        assert(all.take(i as int) =~= all);
        lemma_wrote_next(start, head, put_each(all, one)->Ok_0);
        assert(put_positions(all) == put_all(all, one));
    }
    Ok(())
}

fn write_policy(out: &mut Vec<u8>, policy: &ConflictPolicy) -> (result: Result<(), String>)
    ensures
        wrote(old(out)@, final(out)@, result, put_policy(policy@)),
{
    let ghost start = out@;
    match policy {
        ConflictPolicy::SetOfRows => {
            out.push(0);
            assert(out@ =~= start + seq![0u8]);
            Ok(())
        },
        ConflictPolicy::EventAppend => {
            out.push(2);
            assert(out@ =~= start + seq![2u8]);
            Ok(())
        },
        ConflictPolicy::Functional { key_positions } => {
            out.push(1);
            assert(out@ =~= start + seq![1u8]);
            match write_positions(out, key_positions) {
                Err(why) => Err(why),
                Ok(()) => {
                    proof {
                        lemma_wrote_next(start, seq![1u8], put_positions(key_positions@)->Ok_0);
                    }
                    Ok(())
                },
            }
        },
    }
}

fn write_indexes(out: &mut Vec<u8>, indexes: &[TupleIndexSpec]) -> (result: Result<(), String>)
    ensures
        wrote(
            old(out)@,
            final(out)@,
            result,
            put_all(index_views(indexes@), |positions: Seq<u16>| put_positions(positions)),
        ),
{
    let ghost one = |positions: Seq<u16>| put_positions(positions);
    let ghost start = out@;
    let ghost all = index_views(indexes@);
    match write_len(out, indexes.len()) {
        Err(why) => {
            return Err(why);
        },
        Ok(()) => {},
    }
    let ghost head = be_bytes(indexes@.len() as nat, 4);
    let mut i: usize = 0;
    proof {
        assert(all.take(0) =~= Seq::empty());
        assert(out@ =~= start + head + Seq::<u8>::empty());
    }
    while i < indexes.len()
        invariant
            i <= indexes@.len(),
            all == index_views(indexes@),
            one == (|positions: Seq<u16>| put_positions(positions)),
            put_len(all.len()) == Ok::<_, Seq<char>>(head),
            put_each(all.take(i as int), one) is Ok,
            out@ == start + head + put_each(all.take(i as int), one)->Ok_0,
        decreases indexes@.len() - i,
    {
        let ghost before = put_each(all.take(i as int), one)->Ok_0;
        proof {
            assert(all.take(i + 1).drop_last() =~= all.take(i as int));
            assert(all.take(i + 1).last() == indexes@[i as int].positions@);
        }
        match write_positions(out, &indexes[i].positions) {
            Err(why) => {
                proof {
                    lemma_each_fails(all, one, i + 1);
                }
                return Err(why);
            },
            Ok(()) => {
                proof {
                    lemma_wrote_next(start + head, before, put_positions(all[i as int])->Ok_0);
                }
            },
        }
        i = i + 1;
    }
    proof {
        assert(all.take(i as int) =~= all);
        lemma_wrote_next(start, head, put_each(all, one)->Ok_0);
    }
    Ok(())
}

fn write_argument_names(out: &mut Vec<u8>, metadata: &RelationMetadata) -> (result: Result<
    (),
    String,
>)
    ensures
        wrote(
            old(out)@,
            final(out)@,
            result,
            put_each(
                metadata@.argument_names,
                |name: Option<Seq<char>>| put_optional_text(name),
            ),
        ),
{
    let ghost one = |name: Option<Seq<char>>| put_optional_text(name);
    let ghost start = out@;
    let ghost all = metadata@.argument_names;
    let arity: u16 = metadata.arity();
    let mut i: u16 = 0;
    proof {
        assert(all.take(0) =~= Seq::empty());
        assert(out@ =~= start + Seq::<u8>::empty());
    }
    while i < arity
        invariant
            i <= arity,
            arity == metadata@.arity,
            all == metadata@.argument_names,
            all.len() == arity,
            one == (|name: Option<Seq<char>>| put_optional_text(name)),
            put_each(all.take(i as int), one) is Ok,
            out@ == start + put_each(all.take(i as int), one)->Ok_0,
        decreases arity - i,
    {
        let ghost before = put_each(all.take(i as int), one)->Ok_0;
        proof {
            assert(all.take(i + 1).drop_last() =~= all.take(i as int));
            assert(all.take(i + 1).last() == all[i as int]);
        }
        match write_optional_text(out, metadata.argument_name(i)) {
            Err(why) => {
                proof {
                    lemma_each_fails(all, one, i + 1);
                }
                return Err(why);
            },
            Ok(()) => {
                proof {
                    lemma_wrote_next(start, before, put_optional_text(all[i as int])->Ok_0);
                }
            },
        }
        i = i + 1;
    }
    assert(all.take(i as int) =~= all);
    Ok(())
}

fn write_metadata(out: &mut Vec<u8>, metadata: &RelationMetadata) -> (result: Result<(), String>)
    ensures
        wrote(old(out)@, final(out)@, result, put_metadata(metadata@)),
{
    let ghost start = out@;
    let ghost id = be_bytes(metadata@.id as nat, 8);
    push_be(out, metadata.id().raw(), 8);
    match write_text(out, metadata.name().name()) {
        Err(why) => {
            return Err(why);
        },
        Ok(()) => {},
    }
    let ghost one = id + put_text(metadata@.name)->Ok_0;
    proof {
        lemma_wrote_next(start, id, put_text(metadata@.name)->Ok_0);
    }
    push_be(out, metadata.arity() as u64, 2);
    let durability: u8 = match metadata.durability() {
        RelationDurability::Durable => 0,
        RelationDurability::Volatile => 1,
    };
    out.push(durability);
    let ghost width = be_bytes(metadata@.arity as nat, 2).push(durability);
    let ghost two = one + width;
    assert(out@ =~= start + two);
    match write_argument_names(out, metadata) {
        Err(why) => {
            return Err(why);
        },
        Ok(()) => {},
    }
    let ghost names = put_each(
        metadata@.argument_names,
        |name: Option<Seq<char>>| put_optional_text(name),
    )->Ok_0;
    let ghost three = two + names;
    proof {
        lemma_wrote_next(start, two, names);
    }
    match write_indexes(out, metadata.indexes()) {
        Err(why) => {
            return Err(why);
        },
        Ok(()) => {},
    }
    let ghost indexes = put_all(
        metadata@.indexes,
        |positions: Seq<u16>| put_positions(positions),
    )->Ok_0;
    match write_policy(out, metadata.conflict_policy()) {
        Err(why) => {
            return Err(why);
        },
        Ok(()) => {},
    }
    proof {
        let policy = put_policy(metadata@.conflict_policy)->Ok_0;
        lemma_wrote_next(start + three, indexes, policy);
        lemma_wrote_next(start, three, indexes + policy);
    }
    Ok(())
}

fn write_term(out: &mut Vec<u8>, term: &Term) -> (result: Result<(), String>)
    ensures
        wrote(old(out)@, final(out)@, result, put_term(term@)),
{
    let ghost start = out@;
    match term {
        Term::Var(name) => {
            out.push(0);
            assert(out@ =~= start + seq![0u8]);
            match write_text(out, name.name()) {
                Err(why) => Err(why),
                Ok(()) => {
                    proof {
                        lemma_wrote_next(start, seq![0u8], put_text(name@)->Ok_0);
                    }
                    Ok(())
                },
            }
        },
        Term::Value(value) => {
            out.push(1);
            assert(out@ =~= start + seq![1u8]);
            match write_value(out, value) {
                Err(why) => Err(why),
                Ok(()) => {
                    proof {
                        lemma_wrote_next(start, seq![1u8], put_value(value@)->Ok_0);
                    }
                    Ok(())
                },
            }
        },
    }
}

fn write_terms(out: &mut Vec<u8>, terms: &[Term]) -> (result: Result<(), String>)
    ensures
        wrote(old(out)@, final(out)@, result, put_terms(term_views(terms@))),
{
    let ghost one = |term: TermView| put_term(term);
    let ghost start = out@;
    let ghost all = term_views(terms@);
    match write_len(out, terms.len()) {
        Err(why) => {
            return Err(why);
        },
        Ok(()) => {},
    }
    let ghost head = be_bytes(terms@.len() as nat, 4);
    let mut i: usize = 0;
    proof {
        assert(all.take(0) =~= Seq::empty());
        assert(out@ =~= start + head + Seq::<u8>::empty());
    }
    while i < terms.len()
        invariant
            i <= terms@.len(),
            all == term_views(terms@),
            one == (|term: TermView| put_term(term)),
            put_len(all.len()) == Ok::<_, Seq<char>>(head),
            put_each(all.take(i as int), one) is Ok,
            out@ == start + head + put_each(all.take(i as int), one)->Ok_0,
        decreases terms@.len() - i,
    {
        let ghost before = put_each(all.take(i as int), one)->Ok_0;
        proof {
            assert(all.take(i + 1).drop_last() =~= all.take(i as int));
            assert(all.take(i + 1).last() == terms@[i as int]@);
        }
        match write_term(out, &terms[i]) {
            Err(why) => {
                proof {
                    lemma_each_fails(all, one, i + 1);
                }
                return Err(why);
            },
            Ok(()) => {
                proof {
                    lemma_wrote_next(start + head, before, put_term(all[i as int])->Ok_0);
                }
            },
        }
        i = i + 1;
    }
    proof {
        assert(all.take(i as int) =~= all);
        lemma_wrote_next(start, head, put_each(all, one)->Ok_0);
    }
    Ok(())
}

fn op_to_byte(op: RuleComparisonOp) -> (byte: u8)
    ensures
        byte == op_byte(op),
{
    match op {
        RuleComparisonOp::Eq => 0,
        RuleComparisonOp::Ne => 1,
        RuleComparisonOp::Lt => 2,
        RuleComparisonOp::Le => 3,
        RuleComparisonOp::Gt => 4,
        RuleComparisonOp::Ge => 5,
    }
}

fn write_body_item(out: &mut Vec<u8>, item: &RuleBodyItem) -> (result: Result<(), String>)
    ensures
        wrote(old(out)@, final(out)@, result, put_body_item(item@)),
{
    let ghost start = out@;
    match item {
        RuleBodyItem::Atom(atom) => {
            let tag: u8 = if atom.negated {
                1
            } else {
                0
            };
            out.push(tag);
            push_be(out, atom.relation.raw(), 8);
            let ghost head = seq![tag] + be_bytes(atom.relation@ as nat, 8);
            assert(out@ =~= start + head);
            match write_terms(out, &atom.terms) {
                Err(why) => Err(why),
                Ok(()) => {
                    proof {
                        lemma_wrote_next(start, head, put_terms(term_views(atom.terms@))->Ok_0);
                    }
                    Ok(())
                },
            }
        },
        RuleBodyItem::Guard(guard) => {
            out.push(2);
            out.push(op_to_byte(guard.op));
            let ghost head = seq![2u8, op_byte(guard.op)];
            assert(out@ =~= start + head);
            match write_term(out, &guard.left) {
                Err(why) => {
                    return Err(why);
                },
                Ok(()) => {},
            }
            let ghost left = put_term(guard.left@)->Ok_0;
            proof {
                lemma_wrote_next(start, head, left);
            }
            match write_term(out, &guard.right) {
                Err(why) => Err(why),
                Ok(()) => {
                    proof {
                        lemma_wrote_next(start, head + left, put_term(guard.right@)->Ok_0);
                    }
                    Ok(())
                },
            }
        },
    }
}

fn write_rule(out: &mut Vec<u8>, rule: &Rule) -> (result: Result<(), String>)
    ensures
        wrote(old(out)@, final(out)@, result, put_rule(rule@)),
{
    let ghost one = |item: BodyItemView| put_body_item(item);
    let ghost before_rule = out@;
    let ghost id = be_bytes(rule.head_relation@ as nat, 8);
    push_be(out, rule.head_relation.raw(), 8);
    match write_terms(out, &rule.head_terms) {
        Err(why) => {
            return Err(why);
        },
        Ok(()) => {},
    }
    let ghost top = id + put_terms(term_views(rule.head_terms@))->Ok_0;
    proof {
        lemma_wrote_next(before_rule, id, put_terms(term_views(rule.head_terms@))->Ok_0);
    }
    let ghost start = before_rule + top;
    let ghost all = body_views(rule.body@);
    match write_len(out, rule.body.len()) {
        Err(why) => {
            return Err(why);
        },
        Ok(()) => {},
    }
    let ghost head = be_bytes(rule.body@.len() as nat, 4);
    let mut i: usize = 0;
    proof {
        assert(all.take(0) =~= Seq::empty());
        assert(out@ =~= start + head + Seq::<u8>::empty());
    }
    while i < rule.body.len()
        invariant
            i <= rule.body@.len(),
            all == body_views(rule.body@),
            one == (|item: BodyItemView| put_body_item(item)),
            put_terms(term_views(rule.head_terms@)) is Ok,
            put_len(all.len()) == Ok::<_, Seq<char>>(head),
            put_each(all.take(i as int), one) is Ok,
            out@ == start + head + put_each(all.take(i as int), one)->Ok_0,
        decreases rule.body@.len() - i,
    {
        let ghost before = put_each(all.take(i as int), one)->Ok_0;
        proof {
            assert(all.take(i + 1).drop_last() =~= all.take(i as int));
            assert(all.take(i + 1).last() == rule.body@[i as int]@);
        }
        match write_body_item(out, &rule.body[i]) {
            Err(why) => {
                proof {
                    lemma_each_fails(all, one, i + 1);
                }
                return Err(why);
            },
            Ok(()) => {
                proof {
                    lemma_wrote_next(start + head, before, put_body_item(all[i as int])->Ok_0);
                }
            },
        }
        i = i + 1;
    }
    proof {
        assert(all.take(i as int) =~= all);
        let body = put_each(all, one)->Ok_0;
        lemma_wrote_next(start, head, body);
        lemma_wrote_next(before_rule, top, head + body);
    }
    Ok(())
}

fn write_definition(out: &mut Vec<u8>, definition: &RuleDefinition) -> (result: Result<(), String>)
    ensures
        wrote(old(out)@, final(out)@, result, put_definition(definition@)),
{
    let ghost start = out@;
    push_be(out, definition.id().raw(), 8);
    let active: u8 = if definition.active() {
        1
    } else {
        0
    };
    out.push(active);
    let ghost head = be_bytes(definition@.id as nat, 8).push(active);
    assert(out@ =~= start + head);
    match write_text(out, definition.source()) {
        Err(why) => {
            return Err(why);
        },
        Ok(()) => {},
    }
    let ghost source = put_text(definition@.source)->Ok_0;
    proof {
        lemma_wrote_next(start, head, source);
    }
    match write_rule(out, definition.rule()) {
        Err(why) => Err(why),
        Ok(()) => {
            proof {
                lemma_wrote_next(start, head + source, put_rule(definition@.rule)->Ok_0);
            }
            Ok(())
        },
    }
}

fn write_catalog_change(out: &mut Vec<u8>, change: &CatalogChange) -> (result: Result<(), String>)
    ensures
        wrote(old(out)@, final(out)@, result, put_catalog_change(change@)),
{
    let ghost start = out@;
    match change {
        CatalogChange::RelationCreated(metadata) => {
            out.push(0);
            assert(out@ =~= start + seq![0u8]);
            match write_metadata(out, metadata) {
                Err(why) => Err(why),
                Ok(()) => {
                    proof {
                        lemma_wrote_next(start, seq![0u8], put_metadata(metadata@)->Ok_0);
                    }
                    Ok(())
                },
            }
        },
        CatalogChange::RuleInstalled(definition) => {
            out.push(1);
            assert(out@ =~= start + seq![1u8]);
            match write_definition(out, definition) {
                Err(why) => Err(why),
                Ok(()) => {
                    proof {
                        lemma_wrote_next(start, seq![1u8], put_definition(definition@)->Ok_0);
                    }
                    Ok(())
                },
            }
        },
        CatalogChange::RuleDisabled(rule) => {
            out.push(2);
            push_be(out, rule.raw(), 8);
            assert(out@ =~= start + (seq![2u8] + be_bytes(rule@ as nat, 8)));
            Ok(())
        },
    }
}

fn write_fact_change(out: &mut Vec<u8>, change: &FactChange) -> (result: Result<(), String>)
    ensures
        wrote(old(out)@, final(out)@, result, put_fact_change(change@)),
{
    let ghost start = out@;
    let ghost id = be_bytes(change.relation@ as nat, 8);
    push_be(out, change.relation.raw(), 8);
    match write_row(out, &change.tuple) {
        Err(why) => {
            return Err(why);
        },
        Ok(()) => {},
    }
    let ghost row = put_row(change.tuple@)->Ok_0;
    let kind: u8 = match change.kind {
        FactChangeKind::Assert => 0,
        FactChangeKind::Retract => 1,
    };
    out.push(kind);
    assert(out@ =~= start + (id + row + seq![kind]));
    Ok(())
}

/// The bytes of a relation.
pub fn encode_relation_metadata_record(metadata: &RelationMetadata) -> (result: Result<
    Vec<u8>,
    String,
>)
    ensures
        is_record(result, put_metadata(metadata@)),
{
    let mut out: Vec<u8> = Vec::new();
    match write_metadata(&mut out, metadata) {
        Err(why) => Err(why),
        Ok(()) => {
            assert(out@ =~= put_metadata(metadata@)->Ok_0);
            Ok(out)
        },
    }
}

/// The bytes of an installed rule.
pub fn encode_rule_definition_record(rule: &RuleDefinition) -> (result: Result<Vec<u8>, String>)
    ensures
        is_record(result, put_definition(rule@)),
{
    let mut out: Vec<u8> = Vec::new();
    match write_definition(&mut out, rule) {
        Err(why) => Err(why),
        Ok(()) => {
            assert(out@ =~= put_definition(rule@)->Ok_0);
            Ok(out)
        },
    }
}

/// The bytes of a row.
pub fn encode_tuple_record(tuple: &Tuple) -> (result: Result<Vec<u8>, String>)
    ensures
        is_record(result, put_row(tuple@)),
{
    let mut out: Vec<u8> = Vec::new();
    match write_row(&mut out, tuple) {
        Err(why) => Err(why),
        Ok(()) => {
            assert(out@ =~= put_row(tuple@)->Ok_0);
            Ok(out)
        },
    }
}

/// The bytes under which a row of a relation is stored.
pub fn fact_key(relation: RelationId, tuple: &Tuple) -> (result: Result<Vec<u8>, String>)
    ensures
        is_record(result, put_fact_key(relation@, tuple@)),
{
    let mut out: Vec<u8> = Vec::new();
    push_be(&mut out, relation.raw(), 8);
    match write_row(&mut out, tuple) {
        Err(why) => Err(why),
        Ok(()) => {
            assert(out@ =~= be_bytes(relation@ as nat, 8) + put_row(tuple@)->Ok_0);
            Ok(out)
        },
    }
}

fn write_catalog_changes(out: &mut Vec<u8>, changes: &[CatalogChange]) -> (result: Result<
    (),
    String,
>)
    ensures
        wrote(
            old(out)@,
            final(out)@,
            result,
            put_all(
                catalog_change_views(changes@),
                |change: CatalogChangeView| put_catalog_change(change),
            ),
        ),
{
    let ghost one = |change: CatalogChangeView| put_catalog_change(change);
    let ghost start = out@;
    let ghost all = catalog_change_views(changes@);
    match write_len(out, changes.len()) {
        Err(why) => {
            return Err(why);
        },
        Ok(()) => {},
    }
    let ghost head = be_bytes(changes@.len() as nat, 4);
    let mut i: usize = 0;
    proof {
        assert(all.take(0) =~= Seq::empty());
        assert(out@ =~= start + head + Seq::<u8>::empty());
    }
    while i < changes.len()
        invariant
            i <= changes@.len(),
            all == catalog_change_views(changes@),
            one == (|change: CatalogChangeView| put_catalog_change(change)),
            put_len(all.len()) == Ok::<_, Seq<char>>(head),
            put_each(all.take(i as int), one) is Ok,
            out@ == start + head + put_each(all.take(i as int), one)->Ok_0,
        decreases changes@.len() - i,
    {
        let ghost before = put_each(all.take(i as int), one)->Ok_0;
        proof {
            assert(all.take(i + 1).drop_last() =~= all.take(i as int));
            assert(all.take(i + 1).last() == changes@[i as int]@);
        }
        match write_catalog_change(out, &changes[i]) {
            Err(why) => {
                proof {
                    lemma_each_fails(all, one, i + 1);
                }
                return Err(why);
            },
            Ok(()) => {
                proof {
                    lemma_wrote_next(start + head, before, put_catalog_change(all[i as int])->Ok_0);
                }
            },
        }
        i = i + 1;
    }
    proof {
        assert(all.take(i as int) =~= all);
        lemma_wrote_next(start, head, put_each(all, one)->Ok_0);
    }
    Ok(())
}

fn write_fact_changes(out: &mut Vec<u8>, changes: &[FactChange]) -> (result: Result<(), String>)
    ensures
        wrote(
            old(out)@,
            final(out)@,
            result,
            put_all(
                fact_change_views(changes@),
                |change: FactChangeView| put_fact_change(change),
            ),
        ),
{
    let ghost one = |change: FactChangeView| put_fact_change(change);
    let ghost start = out@;
    let ghost all = fact_change_views(changes@);
    match write_len(out, changes.len()) {
        Err(why) => {
            return Err(why);
        },
        Ok(()) => {},
    }
    let ghost head = be_bytes(changes@.len() as nat, 4);
    let mut i: usize = 0;
    proof {
        assert(all.take(0) =~= Seq::empty());
        assert(out@ =~= start + head + Seq::<u8>::empty());
    }
    while i < changes.len()
        invariant
            i <= changes@.len(),
            all == fact_change_views(changes@),
            one == (|change: FactChangeView| put_fact_change(change)),
            put_len(all.len()) == Ok::<_, Seq<char>>(head),
            put_each(all.take(i as int), one) is Ok,
            out@ == start + head + put_each(all.take(i as int), one)->Ok_0,
        decreases changes@.len() - i,
    {
        let ghost before = put_each(all.take(i as int), one)->Ok_0;
        proof {
            assert(all.take(i + 1).drop_last() =~= all.take(i as int));
            assert(all.take(i + 1).last() == changes@[i as int]@);
        }
        match write_fact_change(out, &changes[i]) {
            Err(why) => {
                proof {
                    lemma_each_fails(all, one, i + 1);
                }
                return Err(why);
            },
            Ok(()) => {
                proof {
                    lemma_wrote_next(start + head, before, put_fact_change(all[i as int])->Ok_0);
                }
            },
        }
        i = i + 1;
    }
    proof {
        assert(all.take(i as int) =~= all);
        lemma_wrote_next(start, head, put_each(all, one)->Ok_0);
    }
    Ok(())
}

fn write_magic(out: &mut Vec<u8>)
    ensures
        final(out)@ == old(out)@ + magic(),
{
    out.push(0x4d);
    out.push(0x49);
    out.push(0x43);
    out.push(0x41);
    out.push(0x43);
    out.push(0x4d);
    out.push(0x54);
    out.push(0x32);
    assert(out@ =~= old(out)@ + magic());
}

/// The bytes of a commit.
pub fn encode_commit(commit: &Commit) -> (result: Result<Vec<u8>, String>)
    ensures
        is_record(result, put_commit(commit@)),
{
    let mut out: Vec<u8> = Vec::new();
    write_magic(&mut out);
    push_be(&mut out, commit.version, 8);
    let ghost head = magic() + be_bytes(commit.version as nat, 8);
    assert(out@ =~= head);
    match write_catalog_changes(&mut out, &commit.catalog_changes) {
        Err(why) => {
            return Err(why);
        },
        Ok(()) => {},
    }
    match write_fact_changes(&mut out, &commit.changes) {
        Err(why) => {
            return Err(why);
        },
        Ok(()) => {},
    }
    Ok(out)
}

} // verus!
