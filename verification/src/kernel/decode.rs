//! Commits, relations, rules and rows read from bytes.

use crate::bytes::{be_value, lemma_be_value_bound, lemma_pow256_values, read_be};
use crate::kernel::algebra::Row;
use crate::kernel::codec::magic;
use crate::kernel::commit::{catalog_change_views, fact_change_views, CatalogChange,
    CatalogChangeView, Commit, CommitView, FactChange, FactChangeKind, FactChangeView};
use crate::kernel::metadata::{name_view, plain_metadata, ConflictPolicy, MetadataView, PolicyView,
    RelationDurability, RelationMetadata};
use crate::kernel::rules::{body_views, term_views, Atom, AtomView, BodyItemView, DefinitionView,
    Rule, RuleBodyItem, RuleComparisonOp, RuleDefinition, RuleGuard, RuleView, Term, TermView};
use crate::text::{decimal, numbered, push_decimal, text_from_utf8, utf8_complaint};
use crate::tuple::Tuple;
use crate::value::{views, Identity, Symbol, Value, ValueView, IDENTITY_MAX};
use crate::value_codec::{holds_value, law_stored_value_is_read_back, read_stored_value, stored_form,
    value_at};
use vstd::prelude::*;
use vstd::utf8::{decode_utf8, valid_utf8};

verus! {

/// What is read and where it ends, or why it cannot be read.
pub type Taken<T> = Result<(T, int), Seq<char>>;

/// The next `n` bytes.
pub open spec fn take_bytes(bytes: Seq<u8>, at: int, n: nat) -> Taken<Seq<u8>> {
    if at + n > usize::MAX {
        Err("commit record offset overflow"@)
    } else if at + n > bytes.len() {
        Err(
            "commit record ended early: need "@ + decimal(n) + " bytes at offset "@ + decimal(
                at as nat,
            ) + ", len "@ + decimal(bytes.len()),
        )
    } else {
        Ok((bytes.subrange(at, at + n), at + n))
    }
}

/// A number of `width` bytes.
pub open spec fn take_number(bytes: Seq<u8>, at: int, width: nat) -> Taken<nat> {
    match take_bytes(bytes, at, width) {
        Err(why) => Err(why),
        Ok((raw, end)) => Ok((be_value(raw), end)),
    }
}

/// A flag.
pub open spec fn take_flag(bytes: Seq<u8>, at: int) -> Taken<bool> {
    match take_number(bytes, at, 1) {
        Err(why) => Err(why),
        Ok((n, end)) => if n <= 1 {
            Ok((n == 1, end))
        } else {
            Err("invalid boolean byte "@ + decimal(n))
        },
    }
}

/// An identity.
pub open spec fn take_identity(bytes: Seq<u8>, at: int) -> Taken<u64> {
    match take_number(bytes, at, 8) {
        Err(why) => Err(why),
        Ok((n, end)) => if n <= IDENTITY_MAX {
            Ok((n as u64, end))
        } else {
            Err("identity "@ + decimal(n) + " is out of range"@)
        },
    }
}

/// A text.
pub open spec fn take_text(bytes: Seq<u8>, at: int) -> Taken<Seq<char>> {
    match take_number(bytes, at, 4) {
        Err(why) => Err(why),
        Ok((n, middle)) => match take_bytes(bytes, middle, n) {
            Err(why) => Err(why),
            Ok((raw, end)) => if valid_utf8(raw) {
                Ok((decode_utf8(raw), end))
            } else {
                Err("invalid utf-8: "@ + utf8_complaint(raw))
            },
        },
    }
}

/// An optional text.
pub open spec fn take_optional_text(bytes: Seq<u8>, at: int) -> Taken<Option<Seq<char>>> {
    match take_flag(bytes, at) {
        Err(why) => Err(why),
        Ok((false, end)) => Ok((None, end)),
        Ok((true, middle)) => match take_text(bytes, middle) {
            Err(why) => Err(why),
            Ok((text, end)) => Ok((Some(text), end)),
        },
    }
}

/// A value.
pub open spec fn take_value(bytes: Seq<u8>, at: int) -> Taken<ValueView> {
    if holds_value(bytes, at) {
        Ok((value_at(bytes, at), at + stored_form(value_at(bytes, at)).len()))
    } else {
        Err("invalid value at offset "@ + decimal(at as nat))
    }
}

/// `n` items, one after the other.
pub open spec fn take_many<T>(at: int, n: nat, one: spec_fn(int) -> Taken<T>) -> Taken<Seq<T>>
    decreases n,
{
    if n == 0 {
        Ok((Seq::empty(), at))
    } else {
        match take_many(at, (n - 1) as nat, one) {
            Err(why) => Err(why),
            Ok((items, middle)) => match one(middle) {
                Err(why) => Err(why),
                Ok((item, end)) => Ok((items.push(item), end)),
            },
        }
    }
}

/// How many items there are, and the items.
pub open spec fn take_all<T>(bytes: Seq<u8>, at: int, one: spec_fn(int) -> Taken<T>) -> Taken<
    Seq<T>,
> {
    match take_number(bytes, at, 4) {
        Err(why) => Err(why),
        Ok((n, middle)) => take_many(middle, n, one),
    }
}

/// A row.
pub open spec fn take_row(bytes: Seq<u8>, at: int) -> Taken<Row> {
    take_all(bytes, at, |at: int| take_value(bytes, at))
}

/// A position.
pub open spec fn take_position(bytes: Seq<u8>, at: int) -> Taken<u16> {
    match take_number(bytes, at, 2) {
        Err(why) => Err(why),
        Ok((n, end)) => Ok((n as u16, end)),
    }
}

/// Positions.
pub open spec fn take_positions(bytes: Seq<u8>, at: int) -> Taken<Seq<u16>> {
    take_all(bytes, at, |at: int| take_position(bytes, at))
}

/// A conflict policy.
pub open spec fn take_policy(bytes: Seq<u8>, at: int) -> Taken<PolicyView> {
    match take_number(bytes, at, 1) {
        Err(why) => Err(why),
        Ok((tag, middle)) => if tag == 0 {
            Ok((PolicyView::SetOfRows, middle))
        } else if tag == 1 {
            match take_positions(bytes, middle) {
                Err(why) => Err(why),
                Ok((key, end)) => Ok((PolicyView::Functional(key), end)),
            }
        } else if tag == 2 {
            Ok((PolicyView::EventAppend, middle))
        } else {
            Err("unknown conflict policy tag "@ + decimal(tag))
        },
    }
}

/// How long a relation's rows are kept.
pub open spec fn take_durability(bytes: Seq<u8>, at: int) -> Taken<RelationDurability> {
    match take_number(bytes, at, 1) {
        Err(why) => Err(why),
        Ok((tag, end)) => if tag == 0 {
            Ok((RelationDurability::Durable, end))
        } else if tag == 1 {
            Ok((RelationDurability::Volatile, end))
        } else {
            Err("unknown relation durability tag "@ + decimal(tag))
        },
    }
}

/// A relation's identity, name, width and durability: the relation without names for its
/// columns and without indexes.
pub open spec fn take_plain(bytes: Seq<u8>, at: int) -> Taken<MetadataView> {
    match take_identity(bytes, at) {
        Err(why) => Err(why),
        Ok((id, after_id)) => match take_text(bytes, after_id) {
            Err(why) => Err(why),
            Ok((name, after_name)) => match take_position(bytes, after_name) {
                Err(why) => Err(why),
                Ok((arity, after_arity)) => match take_durability(bytes, after_arity) {
                    Err(why) => Err(why),
                    Ok((durability, end)) => Ok(
                        (
                            MetadataView {
                                durability,
                                indexes: Seq::empty(),
                                ..plain_metadata(id, name, arity)
                            },
                            end,
                        ),
                    ),
                },
            },
        },
    }
}

/// What a relation is.
pub open spec fn take_metadata(bytes: Seq<u8>, at: int) -> Taken<MetadataView> {
    match take_plain(bytes, at) {
        Err(why) => Err(why),
        Ok((plain, after_plain)) => match take_many(
            after_plain,
            plain.arity as nat,
            |at: int| take_optional_text(bytes, at),
        ) {
            Err(why) => Err(why),
            Ok((argument_names, after_names)) => match take_all(
                bytes,
                after_names,
                |at: int| take_positions(bytes, at),
            ) {
                Err(why) => Err(why),
                Ok((indexes, after_indexes)) => match take_policy(bytes, after_indexes) {
                    Err(why) => Err(why),
                    Ok((conflict_policy, end)) => Ok(
                        (MetadataView { argument_names, indexes, conflict_policy, ..plain }, end),
                    ),
                },
            },
        },
    }
}

/// A term.
pub open spec fn take_term(bytes: Seq<u8>, at: int) -> Taken<TermView> {
    match take_number(bytes, at, 1) {
        Err(why) => Err(why),
        Ok((tag, middle)) => if tag == 0 {
            match take_text(bytes, middle) {
                Err(why) => Err(why),
                Ok((name, end)) => Ok((TermView::Var(name), end)),
            }
        } else if tag == 1 {
            match take_value(bytes, middle) {
                Err(why) => Err(why),
                Ok((value, end)) => Ok((TermView::Value(value), end)),
            }
        } else {
            Err("unknown term tag "@ + decimal(tag))
        },
    }
}

/// Terms.
pub open spec fn take_terms(bytes: Seq<u8>, at: int) -> Taken<Seq<TermView>> {
    take_all(bytes, at, |at: int| take_term(bytes, at))
}

/// How a guard compares.
pub open spec fn take_op(bytes: Seq<u8>, at: int) -> Taken<RuleComparisonOp> {
    match take_number(bytes, at, 1) {
        Err(why) => Err(why),
        Ok((tag, end)) => if tag == 0 {
            Ok((RuleComparisonOp::Eq, end))
        } else if tag == 1 {
            Ok((RuleComparisonOp::Ne, end))
        } else if tag == 2 {
            Ok((RuleComparisonOp::Lt, end))
        } else if tag == 3 {
            Ok((RuleComparisonOp::Le, end))
        } else if tag == 4 {
            Ok((RuleComparisonOp::Gt, end))
        } else if tag == 5 {
            Ok((RuleComparisonOp::Ge, end))
        } else {
            Err("unknown rule comparison op tag "@ + decimal(tag))
        },
    }
}

/// A relation with terms for its columns.
pub open spec fn take_atom(bytes: Seq<u8>, at: int, negated: bool) -> Taken<BodyItemView> {
    match take_identity(bytes, at) {
        Err(why) => Err(why),
        Ok((relation, middle)) => match take_terms(bytes, middle) {
            Err(why) => Err(why),
            Ok((terms, end)) => Ok(
                (BodyItemView::Atom(AtomView { relation, terms, negated }), end),
            ),
        },
    }
}

/// A comparison of two terms.
pub open spec fn take_guard(bytes: Seq<u8>, at: int) -> Taken<BodyItemView> {
    match take_op(bytes, at) {
        Err(why) => Err(why),
        Ok((op, after_op)) => match take_term(bytes, after_op) {
            Err(why) => Err(why),
            Ok((left, middle)) => match take_term(bytes, middle) {
                Err(why) => Err(why),
                Ok((right, end)) => Ok((BodyItemView::Guard(op, left, right), end)),
            },
        },
    }
}

/// A condition of a rule.
pub open spec fn take_body_item(bytes: Seq<u8>, at: int) -> Taken<BodyItemView> {
    match take_number(bytes, at, 1) {
        Err(why) => Err(why),
        Ok((tag, middle)) => if tag <= 1 {
            take_atom(bytes, middle, tag == 1)
        } else if tag == 2 {
            take_guard(bytes, middle)
        } else {
            Err("unknown rule body item tag "@ + decimal(tag))
        },
    }
}

/// A rule.
pub open spec fn take_rule(bytes: Seq<u8>, at: int) -> Taken<RuleView> {
    match take_identity(bytes, at) {
        Err(why) => Err(why),
        Ok((head_relation, after_head)) => match take_terms(bytes, after_head) {
            Err(why) => Err(why),
            Ok((head_terms, middle)) => match take_all(
                bytes,
                middle,
                |at: int| take_body_item(bytes, at),
            ) {
                Err(why) => Err(why),
                Ok((body, end)) => Ok((RuleView { head_relation, head_terms, body }, end)),
            },
        },
    }
}

/// An installed rule.
pub open spec fn take_definition(bytes: Seq<u8>, at: int) -> Taken<DefinitionView> {
    match take_identity(bytes, at) {
        Err(why) => Err(why),
        Ok((id, after_id)) => match take_flag(bytes, after_id) {
            Err(why) => Err(why),
            Ok((active, after_flag)) => match take_text(bytes, after_flag) {
                Err(why) => Err(why),
                Ok((source, middle)) => match take_rule(bytes, middle) {
                    Err(why) => Err(why),
                    Ok((rule, end)) => Ok((DefinitionView { id, rule, source, active }, end)),
                },
            },
        },
    }
}

/// A change to the catalog.
pub open spec fn take_catalog_change(bytes: Seq<u8>, at: int) -> Taken<CatalogChangeView> {
    match take_number(bytes, at, 1) {
        Err(why) => Err(why),
        Ok((tag, middle)) => if tag == 0 {
            match take_metadata(bytes, middle) {
                Err(why) => Err(why),
                Ok((metadata, end)) => Ok((CatalogChangeView::RelationCreated(metadata), end)),
            }
        } else if tag == 1 {
            match take_definition(bytes, middle) {
                Err(why) => Err(why),
                Ok((rule, end)) => Ok((CatalogChangeView::RuleInstalled(rule), end)),
            }
        } else if tag == 2 {
            match take_identity(bytes, middle) {
                Err(why) => Err(why),
                Ok((rule, end)) => Ok((CatalogChangeView::RuleDisabled(rule), end)),
            }
        } else {
            Err("unknown catalog change tag "@ + decimal(tag))
        },
    }
}

/// A row that came or went.
pub open spec fn take_fact_change(bytes: Seq<u8>, at: int) -> Taken<FactChangeView> {
    match take_identity(bytes, at) {
        Err(why) => Err(why),
        Ok((relation, after_relation)) => match take_row(bytes, after_relation) {
            Err(why) => Err(why),
            Ok((row, middle)) => match take_number(bytes, middle, 1) {
                Err(why) => Err(why),
                Ok((tag, end)) => if tag == 0 {
                    Ok((FactChangeView { relation, row, kind: FactChangeKind::Assert }, end))
                } else if tag == 1 {
                    Ok((FactChangeView { relation, row, kind: FactChangeKind::Retract }, end))
                } else {
                    Err("unknown fact change tag "@ + decimal(tag))
                },
            },
        },
    }
}

/// The bytes that a commit record starts with.
pub open spec fn take_magic(bytes: Seq<u8>, at: int) -> Taken<()> {
    match take_bytes(bytes, at, 8) {
        Err(why) => Err(why),
        Ok((raw, end)) => if raw == magic() {
            Ok(((), end))
        } else {
            Err("invalid mica commit record magic"@)
        },
    }
}

/// What a commit changed.
pub open spec fn take_commit(bytes: Seq<u8>, at: int) -> Taken<CommitView> {
    match take_magic(bytes, at) {
        Err(why) => Err(why),
        Ok((_, after_magic)) => match take_number(bytes, after_magic, 8) {
            Err(why) => Err(why),
            Ok((version, after_version)) => match take_all(
                bytes,
                after_version,
                |at: int| take_catalog_change(bytes, at),
            ) {
                Err(why) => Err(why),
                Ok((catalog_changes, middle)) => match take_all(
                    bytes,
                    middle,
                    |at: int| take_fact_change(bytes, at),
                ) {
                    Err(why) => Err(why),
                    Ok((changes, end)) => Ok(
                        (
                            CommitView {
                                version: version as u64,
                                catalog_changes,
                                changes,
                                relation_changes: Seq::empty(),
                                settled_relation_changes_available: false,
                            },
                            end,
                        ),
                    ),
                },
            },
        },
    }
}

/// A record: what is read has to end where the bytes end.
pub open spec fn whole<T>(bytes: Seq<u8>, taken: Taken<T>) -> Result<T, Seq<char>> {
    match taken {
        Err(why) => Err(why),
        Ok((found, end)) => if end == bytes.len() {
            Ok(found)
        } else {
            Err("trailing bytes in mica commit record: "@ + decimal((bytes.len() - end) as nat))
        },
    }
}

/// Whether reading from `at` had the outcome that `taken` says.
pub open spec fn tells<T: View>(
    bytes: Seq<u8>,
    at: usize,
    result: Result<(T, usize), String>,
    taken: Taken<T::V>,
) -> bool {
    match (result, taken) {
        (Ok((found, end)), Ok((view, stop))) => found@ == view && end == stop && at <= end
            <= bytes.len(),
        (Err(text), Err(why)) => text@ == why,
        _ => false,
    }
}

/// Whether reading several things from `at` had the outcome that `taken` says.
pub open spec fn tells_all<T: View>(
    bytes: Seq<u8>,
    at: usize,
    result: Result<(Vec<T>, usize), String>,
    taken: Taken<Seq<T::V>>,
) -> bool {
    match (result, taken) {
        (Ok((found, end)), Ok((seen, stop))) => found@.map_values(|item: T| item@) == seen && end
            == stop && at <= end <= bytes.len(),
        (Err(text), Err(why)) => text@ == why,
        _ => false,
    }
}

/// Whether reading a record had the outcome that `read` says.
pub open spec fn tells_record<T: View>(
    result: Result<T, String>,
    read: Result<T::V, Seq<char>>,
) -> bool {
    match (result, read) {
        (Ok(found), Ok(view)) => found@ == view,
        (Err(text), Err(why)) => text@ == why,
        _ => false,
    }
}

/// Where one of the first items cannot be read, all of them cannot.
proof fn lemma_many_fails<T>(at: int, i: nat, n: nat, one: spec_fn(int) -> Taken<T>)
    requires
        i <= n,
        take_many(at, i, one) is Err,
    ensures
        take_many(at, n, one) == take_many(at, i, one),
    decreases n,
{
    if i < n {
        lemma_many_fails(at, i, (n - 1) as nat, one);
    }
}

/// The text `before` and the numeral of `n`.
fn tagged(before: &str, n: u64) -> (text: String)
    ensures
        text@ == before@ + decimal(n as nat),
{
    let mut text = before.to_owned();
    push_decimal(&mut text, n);
    text
}

fn read_number(bytes: &[u8], at: usize, width: usize) -> (result: Result<(u64, usize), String>)
    requires
        at <= bytes@.len(),
        width <= 8,
    ensures
        match (result, take_number(bytes@, at as int, width as nat)) {
            (Ok((n, end)), Ok((m, stop))) => n == m && end == stop && at <= end <= bytes@.len(),
            (Err(text), Err(why)) => text@ == why,
            _ => false,
        },
{
    match read_end(bytes, at, width) {
        Err(why) => Err(why),
        Ok(end) => Ok((read_be(bytes, at, width), end)),
    }
}

/// Where the next `n` bytes end.
fn read_end(bytes: &[u8], at: usize, n: usize) -> (result: Result<usize, String>)
    requires
        at <= bytes@.len(),
    ensures
        match (result, take_bytes(bytes@, at as int, n as nat)) {
            (Ok(end), Ok((_, stop))) => end == stop && at <= end <= bytes@.len(),
            (Err(text), Err(why)) => text@ == why,
            _ => false,
        },
{
    if n > usize::MAX - at {
        return Err("commit record offset overflow".to_owned());
    }
    let end: usize = at + n;
    if end > bytes.len() {
        let mut text = numbered("commit record ended early: need ", n as u64, " bytes at offset ");
        push_decimal(&mut text, at as u64);
        text.append(", len ");
        push_decimal(&mut text, bytes.len() as u64);
        return Err(text);
    }
    Ok(end)
}

fn read_flag(bytes: &[u8], at: usize) -> (result: Result<(bool, usize), String>)
    requires
        at <= bytes@.len(),
    ensures
        tells(bytes@, at, result, take_flag(bytes@, at as int)),
{
    match read_number(bytes, at, 1) {
        Err(why) => Err(why),
        Ok((n, end)) => if n <= 1 {
            Ok((n == 1, end))
        } else {
            Err(tagged("invalid boolean byte ", n))
        },
    }
}

fn read_identity(bytes: &[u8], at: usize) -> (result: Result<(Identity, usize), String>)
    requires
        at <= bytes@.len(),
    ensures
        tells(bytes@, at, result, take_identity(bytes@, at as int)),
{
    match read_number(bytes, at, 8) {
        Err(why) => Err(why),
        Ok((n, end)) => match Identity::new(n) {
            Some(identity) => Ok((identity, end)),
            None => Err(numbered("identity ", n, " is out of range")),
        },
    }
}

fn read_text(bytes: &[u8], at: usize) -> (result: Result<(String, usize), String>)
    requires
        at <= bytes@.len(),
    ensures
        tells(bytes@, at, result, take_text(bytes@, at as int)),
{
    let (n, middle): (u64, usize) = match read_number(bytes, at, 4) {
        Err(why) => {
            return Err(why);
        },
        Ok(found) => found,
    };
    proof {
        lemma_be_value_bound(bytes@.subrange(at as int, at + 4));
        lemma_pow256_values();
    }
    let end: usize = match read_end(bytes, middle, n as usize) {
        Err(why) => {
            return Err(why);
        },
        Ok(end) => end,
    };
    let mut raw: Vec<u8> = Vec::new();
    let mut i: usize = middle;
    while i < end
        invariant
            middle <= i <= end <= bytes@.len(),
            raw@ == bytes@.subrange(middle as int, i as int),
        decreases end - i,
    {
        raw.push(bytes[i]);
        i = i + 1;
        assert(raw@ =~= bytes@.subrange(middle as int, i as int));
    }
    match text_from_utf8(raw) {
        Ok(text) => Ok((text, end)),
        Err(complaint) => {
            let mut text = "invalid utf-8: ".to_owned();
            text.append(&complaint);
            Err(text)
        },
    }
}

fn read_symbol(bytes: &[u8], at: usize) -> (result: Result<(Symbol, usize), String>)
    requires
        at <= bytes@.len(),
    ensures
        tells(bytes@, at, result, take_text(bytes@, at as int)),
{
    match read_text(bytes, at) {
        Err(why) => Err(why),
        Ok((text, end)) => Ok((Symbol::intern(&text), end)),
    }
}

fn read_optional_symbol(bytes: &[u8], at: usize) -> (result: Result<
    (Option<Symbol>, usize),
    String,
>)
    requires
        at <= bytes@.len(),
    ensures
        match (result, take_optional_text(bytes@, at as int)) {
            (Ok((found, end)), Ok((view, stop))) => name_view(found) == view && end == stop && at
                <= end <= bytes@.len(),
            (Err(text), Err(why)) => text@ == why,
            _ => false,
        },
{
    match read_flag(bytes, at) {
        Err(why) => Err(why),
        Ok((false, end)) => Ok((None, end)),
        Ok((true, middle)) => match read_symbol(bytes, middle) {
            Err(why) => Err(why),
            Ok((symbol, end)) => Ok((Some(symbol), end)),
        },
    }
}

fn read_value(bytes: &[u8], at: usize) -> (result: Result<(Value, usize), String>)
    requires
        at <= bytes@.len(),
    ensures
        tells(bytes@, at, result, take_value(bytes@, at as int)),
{
    match read_stored_value(bytes, at) {
        Some((value, end)) => {
            proof {
                let rest = bytes@.skip(at as int);
                assert(rest.take(stored_form(value@).len() as int) =~= bytes@.subrange(
                    at as int,
                    end as int,
                ));
                law_stored_value_is_read_back(bytes@, at as int, value@);
            }
            Ok((value, end))
        },
        None => Err(tagged("invalid value at offset ", at as u64)),
    }
}

fn read_position(bytes: &[u8], at: usize) -> (result: Result<(u16, usize), String>)
    requires
        at <= bytes@.len(),
    ensures
        tells(bytes@, at, result, take_position(bytes@, at as int)),
{
    match read_number(bytes, at, 2) {
        Err(why) => Err(why),
        Ok((n, end)) => {
            proof {
                lemma_be_value_bound(bytes@.subrange(at as int, at + 2));
                lemma_pow256_values();
            }
            Ok((n as u16, end))
        },
    }
}

fn read_values(bytes: &[u8], at: usize) -> (result: Result<(Vec<Value>, usize), String>)
    requires
        at <= bytes@.len(),
    ensures
        tells_all(
            bytes@,
            at,
            result,
            take_all(bytes@, at as int, |at: int| take_value(bytes@, at)),
        ),
{
    let ghost one = |at: int| take_value(bytes@, at);
    let (count, start): (u64, usize) = match read_number(bytes, at, 4) {
        Err(why) => {
            return Err(why);
        },
        Ok(found) => found,
    };
    let mut found: Vec<Value> = Vec::new();
    let mut i: u64 = 0;
    let mut pos: usize = start;
    assert(found@.map_values(|item: Value| item@) =~= Seq::empty());
    while i < count
        invariant
            i <= count,
            at <= start <= pos <= bytes@.len(),
            one == (|at: int| take_value(bytes@, at)),
            take_number(bytes@, at as int, 4) == Ok::<(nat, int), Seq<char>>(
                (count as nat, start as int),
            ),
            take_many(start as int, i as nat, one) == Ok::<_, Seq<char>>(
                (found@.map_values(|item: Value| item@), pos as int),
            ),
        decreases count - i,
    {
        match read_value(bytes, pos) {
            Err(why) => {
                proof {
                    lemma_many_fails(start as int, (i + 1) as nat, count as nat, one);
                }
                return Err(why);
            },
            Ok((item, end)) => {
                let ghost before = found@.map_values(|item: Value| item@);
                let ghost next = item@;
                found.push(item);
                assert(found@.map_values(|item: Value| item@) =~= before.push(next));
                pos = end;
            },
        }
        i = i + 1;
    }
    Ok((found, pos))
}

fn read_row(bytes: &[u8], at: usize) -> (result: Result<(Tuple, usize), String>)
    requires
        at <= bytes@.len(),
    ensures
        tells(bytes@, at, result, take_row(bytes@, at as int)),
{
    match read_values(bytes, at) {
        Err(why) => Err(why),
        Ok((values, end)) => {
            assert(values@.map_values(|item: Value| item@) =~= views(values@));
            Ok((Tuple::new(values), end))
        },
    }
}

fn read_positions(bytes: &[u8], at: usize) -> (result: Result<(Vec<u16>, usize), String>)
    requires
        at <= bytes@.len(),
    ensures
        tells(bytes@, at, result, take_positions(bytes@, at as int)),
{
    let ghost one = |at: int| take_position(bytes@, at);
    let (count, start): (u64, usize) = match read_number(bytes, at, 4) {
        Err(why) => {
            return Err(why);
        },
        Ok(found) => found,
    };
    let mut found: Vec<u16> = Vec::new();
    let mut i: u64 = 0;
    let mut pos: usize = start;
    while i < count
        invariant
            i <= count,
            at <= start <= pos <= bytes@.len(),
            one == (|at: int| take_position(bytes@, at)),
            take_number(bytes@, at as int, 4) == Ok::<(nat, int), Seq<char>>(
                (count as nat, start as int),
            ),
            take_many(start as int, i as nat, one) == Ok::<_, Seq<char>>(
                (found@, pos as int),
            ),
        decreases count - i,
    {
        match read_position(bytes, pos) {
            Err(why) => {
                proof {
                    lemma_many_fails(start as int, (i + 1) as nat, count as nat, one);
                }
                return Err(why);
            },
            Ok((item, end)) => {
                found.push(item);
                pos = end;
            },
        }
        i = i + 1;
    }
    Ok((found, pos))
}

fn read_policy(bytes: &[u8], at: usize) -> (result: Result<(ConflictPolicy, usize), String>)
    requires
        at <= bytes@.len(),
    ensures
        tells(bytes@, at, result, take_policy(bytes@, at as int)),
{
    match read_number(bytes, at, 1) {
        Err(why) => Err(why),
        Ok((tag, middle)) => if tag == 0 {
            Ok((ConflictPolicy::SetOfRows, middle))
        } else if tag == 1 {
            match read_positions(bytes, middle) {
                Err(why) => Err(why),
                Ok((key_positions, end)) => Ok(
                    (ConflictPolicy::Functional { key_positions }, end),
                ),
            }
        } else if tag == 2 {
            Ok((ConflictPolicy::EventAppend, middle))
        } else {
            Err(tagged("unknown conflict policy tag ", tag))
        },
    }
}

fn read_plain(bytes: &[u8], at: usize) -> (result: Result<(RelationMetadata, usize), String>)
    requires
        at <= bytes@.len(),
    ensures
        tells(bytes@, at, result, take_plain(bytes@, at as int)),
{
    let (id, after_id): (Identity, usize) = match read_identity(bytes, at) {
        Err(why) => {
            return Err(why);
        },
        Ok(found) => found,
    };
    let (name, after_name): (Symbol, usize) = match read_symbol(bytes, after_id) {
        Err(why) => {
            return Err(why);
        },
        Ok(found) => found,
    };
    let (arity, after_arity): (u16, usize) = match read_position(bytes, after_name) {
        Err(why) => {
            return Err(why);
        },
        Ok(found) => found,
    };
    match read_number(bytes, after_arity, 1) {
        Err(why) => Err(why),
        Ok((tag, end)) => {
            let durability = if tag == 0 {
                RelationDurability::Durable
            } else if tag == 1 {
                RelationDurability::Volatile
            } else {
                return Err(tagged("unknown relation durability tag ", tag));
            };
            let metadata = RelationMetadata::new(id, name, arity).without_indexes().with_durability(
                durability,
            );
            Ok((metadata, end))
        },
    }
}

fn read_metadata(bytes: &[u8], at: usize) -> (result: Result<(RelationMetadata, usize), String>)
    requires
        at <= bytes@.len(),
    ensures
        tells(bytes@, at, result, take_metadata(bytes@, at as int)),
{
    let (plain, after_plain): (RelationMetadata, usize) = match read_plain(bytes, at) {
        Err(why) => {
            return Err(why);
        },
        Ok(found) => found,
    };
    let (named, after_names): (RelationMetadata, usize) = match read_argument_names(
        bytes,
        after_plain,
        plain,
    ) {
        Err(why) => {
            return Err(why);
        },
        Ok(found) => found,
    };
    let (indexed, after_indexes): (RelationMetadata, usize) = match read_indexes(
        bytes,
        after_names,
        named,
    ) {
        Err(why) => {
            return Err(why);
        },
        Ok(found) => found,
    };
    match read_policy(bytes, after_indexes) {
        Err(why) => Err(why),
        Ok((policy, end)) => Ok((indexed.with_conflict_policy(policy), end)),
    }
}

/// Reads the names of a relation's columns.
fn read_argument_names(bytes: &[u8], at: usize, plain: RelationMetadata) -> (result: Result<
    (RelationMetadata, usize),
    String,
>)
    requires
        at <= bytes@.len(),
        plain@.argument_names == Seq::new(plain@.arity as nat, |i: int| None::<Seq<char>>),
    ensures
        match (
            result,
            take_many(at as int, plain@.arity as nat, |at: int| take_optional_text(bytes@, at)),
        ) {
            (Ok((found, end)), Ok((argument_names, stop))) => found@ == (MetadataView {
                argument_names,
                ..plain@
            }) && end == stop && at <= end <= bytes@.len(),
            (Err(text), Err(why)) => text@ == why,
            _ => false,
        },
{
    let ghost one = |at: int| take_optional_text(bytes@, at);
    let ghost first = plain@;
    let arity: u16 = plain.arity();
    let mut metadata = plain;
    let mut i: u16 = 0;
    let mut pos: usize = at;
    let ghost mut names: Seq<Option<Seq<char>>> = Seq::empty();
    proof {
        assert(first.argument_names =~= names + first.argument_names.skip(0));
    }
    while i < arity
        invariant
            i <= arity == first.arity,
            first == plain@,
            at <= pos <= bytes@.len(),
            one == (|at: int| take_optional_text(bytes@, at)),
            take_many(at as int, i as nat, one) == Ok::<_, Seq<char>>((names, pos as int)),
            names.len() == i,
            first.argument_names == Seq::new(first.arity as nat, |i: int| None::<Seq<char>>),
            metadata@ == (MetadataView {
                argument_names: names + first.argument_names.skip(i as int),
                ..first
            }),
        decreases arity - i,
    {
        match read_optional_symbol(bytes, pos) {
            Err(why) => {
                proof {
                    lemma_many_fails(at as int, (i + 1) as nat, arity as nat, one);
                }
                return Err(why);
            },
            Ok((name, end)) => {
                let ghost now = metadata@.argument_names;
                let ghost next = names.push(name_view(name));
                match name {
                    Some(symbol) => {
                        metadata = metadata.with_argument_name(i, symbol);
                        assert(now.update(i as int, Some(symbol@)) =~= next
                            + first.argument_names.skip(i + 1));
                    },
                    None => {
                        assert(now =~= next + first.argument_names.skip(i + 1));
                    },
                }
                proof {
                    names = next;
                }
                pos = end;
            },
        }
        i = i + 1;
    }
    assert(names + first.argument_names.skip(i as int) =~= names);
    Ok((metadata, pos))
}

/// Reads the indexes of a relation.
fn read_indexes(bytes: &[u8], at: usize, plain: RelationMetadata) -> (result: Result<
    (RelationMetadata, usize),
    String,
>)
    requires
        at <= bytes@.len(),
        plain@.indexes.len() == 0,
    ensures
        match (result, take_all(bytes@, at as int, |at: int| take_positions(bytes@, at))) {
            (Ok((found, end)), Ok((indexes, stop))) => found@ == (MetadataView { indexes, ..plain@ })
                && end == stop && at <= end <= bytes@.len(),
            (Err(text), Err(why)) => text@ == why,
            _ => false,
        },
{
    let ghost one = |at: int| take_positions(bytes@, at);
    let ghost first = plain@;
    let (count, start): (u64, usize) = match read_number(bytes, at, 4) {
        Err(why) => {
            return Err(why);
        },
        Ok(found) => found,
    };
    let mut metadata = plain;
    let mut i: u64 = 0;
    let mut pos: usize = start;
    assert(first.indexes =~= Seq::empty());
    while i < count
        invariant
            i <= count,
            at <= start <= pos <= bytes@.len(),
            one == (|at: int| take_positions(bytes@, at)),
            take_number(bytes@, at as int, 4) == Ok::<(nat, int), Seq<char>>(
                (count as nat, start as int),
            ),
            take_many(start as int, i as nat, one) == Ok::<_, Seq<char>>(
                (metadata@.indexes, pos as int),
            ),
            metadata@ == (MetadataView { indexes: metadata@.indexes, ..first }),
        decreases count - i,
    {
        match read_positions(bytes, pos) {
            Err(why) => {
                proof {
                    lemma_many_fails(start as int, (i + 1) as nat, count as nat, one);
                }
                return Err(why);
            },
            Ok((positions, end)) => {
                metadata = metadata.with_index(positions);
                pos = end;
            },
        }
        i = i + 1;
    }
    Ok((metadata, pos))
}

fn read_term(bytes: &[u8], at: usize) -> (result: Result<(Term, usize), String>)
    requires
        at <= bytes@.len(),
    ensures
        tells(bytes@, at, result, take_term(bytes@, at as int)),
{
    match read_number(bytes, at, 1) {
        Err(why) => Err(why),
        Ok((tag, middle)) => if tag == 0 {
            match read_symbol(bytes, middle) {
                Err(why) => Err(why),
                Ok((name, end)) => Ok((Term::Var(name), end)),
            }
        } else if tag == 1 {
            match read_value(bytes, middle) {
                Err(why) => Err(why),
                Ok((value, end)) => Ok((Term::Value(value), end)),
            }
        } else {
            Err(tagged("unknown term tag ", tag))
        },
    }
}

fn read_terms(bytes: &[u8], at: usize) -> (result: Result<(Vec<Term>, usize), String>)
    requires
        at <= bytes@.len(),
    ensures
        tells_all(
            bytes@,
            at,
            result,
            take_all(bytes@, at as int, |at: int| take_term(bytes@, at)),
        ),
{
    let ghost one = |at: int| take_term(bytes@, at);
    let (count, start): (u64, usize) = match read_number(bytes, at, 4) {
        Err(why) => {
            return Err(why);
        },
        Ok(found) => found,
    };
    let mut found: Vec<Term> = Vec::new();
    let mut i: u64 = 0;
    let mut pos: usize = start;
    assert(found@.map_values(|item: Term| item@) =~= Seq::empty());
    while i < count
        invariant
            i <= count,
            at <= start <= pos <= bytes@.len(),
            one == (|at: int| take_term(bytes@, at)),
            take_number(bytes@, at as int, 4) == Ok::<(nat, int), Seq<char>>(
                (count as nat, start as int),
            ),
            take_many(start as int, i as nat, one) == Ok::<_, Seq<char>>(
                (found@.map_values(|item: Term| item@), pos as int),
            ),
        decreases count - i,
    {
        match read_term(bytes, pos) {
            Err(why) => {
                proof {
                    lemma_many_fails(start as int, (i + 1) as nat, count as nat, one);
                }
                return Err(why);
            },
            Ok((item, end)) => {
                let ghost before = found@.map_values(|item: Term| item@);
                let ghost next = item@;
                found.push(item);
                assert(found@.map_values(|item: Term| item@) =~= before.push(next));
                pos = end;
            },
        }
        i = i + 1;
    }
    Ok((found, pos))
}

fn read_op(bytes: &[u8], at: usize) -> (result: Result<(RuleComparisonOp, usize), String>)
    requires
        at <= bytes@.len(),
    ensures
        match (result, take_op(bytes@, at as int)) {
            (Ok((op, end)), Ok((found, stop))) => op == found && end == stop && at <= end
                <= bytes@.len(),
            (Err(text), Err(why)) => text@ == why,
            _ => false,
        },
{
    match read_number(bytes, at, 1) {
        Err(why) => Err(why),
        Ok((tag, end)) => if tag == 0 {
            Ok((RuleComparisonOp::Eq, end))
        } else if tag == 1 {
            Ok((RuleComparisonOp::Ne, end))
        } else if tag == 2 {
            Ok((RuleComparisonOp::Lt, end))
        } else if tag == 3 {
            Ok((RuleComparisonOp::Le, end))
        } else if tag == 4 {
            Ok((RuleComparisonOp::Gt, end))
        } else if tag == 5 {
            Ok((RuleComparisonOp::Ge, end))
        } else {
            Err(tagged("unknown rule comparison op tag ", tag))
        },
    }
}

fn read_atom(bytes: &[u8], at: usize, negated: bool) -> (result: Result<
    (RuleBodyItem, usize),
    String,
>)
    requires
        at <= bytes@.len(),
    ensures
        tells(bytes@, at, result, take_atom(bytes@, at as int, negated)),
{
    match read_identity(bytes, at) {
        Err(why) => Err(why),
        Ok((relation, middle)) => match read_terms(bytes, middle) {
            Err(why) => Err(why),
            Ok((terms, end)) => {
                assert(terms@.map_values(|item: Term| item@) =~= term_views(terms@));
                let atom = if negated {
                    Atom::negated(relation, terms)
                } else {
                    Atom::positive(relation, terms)
                };
                Ok((RuleBodyItem::Atom(atom), end))
            },
        },
    }
}

fn read_guard(bytes: &[u8], at: usize) -> (result: Result<(RuleBodyItem, usize), String>)
    requires
        at <= bytes@.len(),
    ensures
        tells(bytes@, at, result, take_guard(bytes@, at as int)),
{
    match read_op(bytes, at) {
        Err(why) => Err(why),
        Ok((op, after_op)) => match read_term(bytes, after_op) {
            Err(why) => Err(why),
            Ok((left, middle)) => match read_term(bytes, middle) {
                Err(why) => Err(why),
                Ok((right, end)) => Ok((RuleBodyItem::Guard(RuleGuard { op, left, right }), end)),
            },
        },
    }
}

fn read_body_item(bytes: &[u8], at: usize) -> (result: Result<(RuleBodyItem, usize), String>)
    requires
        at <= bytes@.len(),
    ensures
        tells(bytes@, at, result, take_body_item(bytes@, at as int)),
{
    match read_number(bytes, at, 1) {
        Err(why) => Err(why),
        Ok((tag, middle)) => if tag <= 1 {
            read_atom(bytes, middle, tag == 1)
        } else if tag == 2 {
            read_guard(bytes, middle)
        } else {
            Err(tagged("unknown rule body item tag ", tag))
        },
    }
}

fn read_body(bytes: &[u8], at: usize) -> (result: Result<(Vec<RuleBodyItem>, usize), String>)
    requires
        at <= bytes@.len(),
    ensures
        tells_all(
            bytes@,
            at,
            result,
            take_all(bytes@, at as int, |at: int| take_body_item(bytes@, at)),
        ),
{
    let ghost one = |at: int| take_body_item(bytes@, at);
    let (count, start): (u64, usize) = match read_number(bytes, at, 4) {
        Err(why) => {
            return Err(why);
        },
        Ok(found) => found,
    };
    let mut found: Vec<RuleBodyItem> = Vec::new();
    let mut i: u64 = 0;
    let mut pos: usize = start;
    assert(found@.map_values(|item: RuleBodyItem| item@) =~= Seq::empty());
    while i < count
        invariant
            i <= count,
            at <= start <= pos <= bytes@.len(),
            one == (|at: int| take_body_item(bytes@, at)),
            take_number(bytes@, at as int, 4) == Ok::<(nat, int), Seq<char>>(
                (count as nat, start as int),
            ),
            take_many(start as int, i as nat, one) == Ok::<_, Seq<char>>(
                (found@.map_values(|item: RuleBodyItem| item@), pos as int),
            ),
        decreases count - i,
    {
        match read_body_item(bytes, pos) {
            Err(why) => {
                proof {
                    lemma_many_fails(start as int, (i + 1) as nat, count as nat, one);
                }
                return Err(why);
            },
            Ok((item, end)) => {
                let ghost before = found@.map_values(|item: RuleBodyItem| item@);
                let ghost next = item@;
                found.push(item);
                assert(found@.map_values(|item: RuleBodyItem| item@) =~= before.push(next));
                pos = end;
            },
        }
        i = i + 1;
    }
    Ok((found, pos))
}

fn read_rule(bytes: &[u8], at: usize) -> (result: Result<(Rule, usize), String>)
    requires
        at <= bytes@.len(),
    ensures
        tells(bytes@, at, result, take_rule(bytes@, at as int)),
{
    let (head_relation, after_head): (Identity, usize) = match read_identity(bytes, at) {
        Err(why) => {
            return Err(why);
        },
        Ok(found) => found,
    };
    let (head_terms, middle): (Vec<Term>, usize) = match read_terms(bytes, after_head) {
        Err(why) => {
            return Err(why);
        },
        Ok(found) => found,
    };
    match read_body(bytes, middle) {
        Err(why) => Err(why),
        Ok((body, end)) => {
            assert(head_terms@.map_values(|item: Term| item@) =~= term_views(head_terms@));
            assert(body@.map_values(|item: RuleBodyItem| item@) =~= body_views(body@));
            Ok((Rule { head_relation, head_terms, body }, end))
        },
    }
}

fn read_definition(bytes: &[u8], at: usize) -> (result: Result<(RuleDefinition, usize), String>)
    requires
        at <= bytes@.len(),
    ensures
        tells(bytes@, at, result, take_definition(bytes@, at as int)),
{
    let (id, after_id): (Identity, usize) = match read_identity(bytes, at) {
        Err(why) => {
            return Err(why);
        },
        Ok(found) => found,
    };
    let (active, after_flag): (bool, usize) = match read_flag(bytes, after_id) {
        Err(why) => {
            return Err(why);
        },
        Ok(found) => found,
    };
    let (source, middle): (String, usize) = match read_text(bytes, after_flag) {
        Err(why) => {
            return Err(why);
        },
        Ok(found) => found,
    };
    match read_rule(bytes, middle) {
        Err(why) => Err(why),
        Ok((rule, end)) => {
            let mut definition = RuleDefinition::new(id, rule, source);
            if !active {
                definition.deactivate();
            }
            Ok((definition, end))
        },
    }
}

fn read_catalog_change(bytes: &[u8], at: usize) -> (result: Result<(CatalogChange, usize), String>)
    requires
        at <= bytes@.len(),
    ensures
        tells(bytes@, at, result, take_catalog_change(bytes@, at as int)),
{
    match read_number(bytes, at, 1) {
        Err(why) => Err(why),
        Ok((tag, middle)) => if tag == 0 {
            match read_metadata(bytes, middle) {
                Err(why) => Err(why),
                Ok((metadata, end)) => Ok((CatalogChange::RelationCreated(metadata), end)),
            }
        } else if tag == 1 {
            match read_definition(bytes, middle) {
                Err(why) => Err(why),
                Ok((rule, end)) => Ok((CatalogChange::RuleInstalled(rule), end)),
            }
        } else if tag == 2 {
            match read_identity(bytes, middle) {
                Err(why) => Err(why),
                Ok((rule, end)) => Ok((CatalogChange::RuleDisabled(rule), end)),
            }
        } else {
            Err(tagged("unknown catalog change tag ", tag))
        },
    }
}

fn read_catalog_changes(bytes: &[u8], at: usize) -> (result: Result<(Vec<CatalogChange>, usize), String>)
    requires
        at <= bytes@.len(),
    ensures
        tells_all(
            bytes@,
            at,
            result,
            take_all(bytes@, at as int, |at: int| take_catalog_change(bytes@, at)),
        ),
{
    let ghost one = |at: int| take_catalog_change(bytes@, at);
    let (count, start): (u64, usize) = match read_number(bytes, at, 4) {
        Err(why) => {
            return Err(why);
        },
        Ok(found) => found,
    };
    let mut found: Vec<CatalogChange> = Vec::new();
    let mut i: u64 = 0;
    let mut pos: usize = start;
    assert(found@.map_values(|item: CatalogChange| item@) =~= Seq::empty());
    while i < count
        invariant
            i <= count,
            at <= start <= pos <= bytes@.len(),
            one == (|at: int| take_catalog_change(bytes@, at)),
            take_number(bytes@, at as int, 4) == Ok::<(nat, int), Seq<char>>(
                (count as nat, start as int),
            ),
            take_many(start as int, i as nat, one) == Ok::<_, Seq<char>>(
                (found@.map_values(|item: CatalogChange| item@), pos as int),
            ),
        decreases count - i,
    {
        match read_catalog_change(bytes, pos) {
            Err(why) => {
                proof {
                    lemma_many_fails(start as int, (i + 1) as nat, count as nat, one);
                }
                return Err(why);
            },
            Ok((item, end)) => {
                let ghost before = found@.map_values(|item: CatalogChange| item@);
                let ghost next = item@;
                found.push(item);
                assert(found@.map_values(|item: CatalogChange| item@) =~= before.push(next));
                pos = end;
            },
        }
        i = i + 1;
    }
    Ok((found, pos))
}

fn read_fact_change(bytes: &[u8], at: usize) -> (result: Result<(FactChange, usize), String>)
    requires
        at <= bytes@.len(),
    ensures
        tells(bytes@, at, result, take_fact_change(bytes@, at as int)),
{
    let (relation, after_relation): (Identity, usize) = match read_identity(bytes, at) {
        Err(why) => {
            return Err(why);
        },
        Ok(found) => found,
    };
    let (tuple, middle): (Tuple, usize) = match read_row(bytes, after_relation) {
        Err(why) => {
            return Err(why);
        },
        Ok(found) => found,
    };
    match read_number(bytes, middle, 1) {
        Err(why) => Err(why),
        Ok((tag, end)) => if tag == 0 {
            Ok((FactChange { relation, tuple, kind: FactChangeKind::Assert }, end))
        } else if tag == 1 {
            Ok((FactChange { relation, tuple, kind: FactChangeKind::Retract }, end))
        } else {
            Err(tagged("unknown fact change tag ", tag))
        },
    }
}

fn read_fact_changes(bytes: &[u8], at: usize) -> (result: Result<(Vec<FactChange>, usize), String>)
    requires
        at <= bytes@.len(),
    ensures
        tells_all(
            bytes@,
            at,
            result,
            take_all(bytes@, at as int, |at: int| take_fact_change(bytes@, at)),
        ),
{
    let ghost one = |at: int| take_fact_change(bytes@, at);
    let (count, start): (u64, usize) = match read_number(bytes, at, 4) {
        Err(why) => {
            return Err(why);
        },
        Ok(found) => found,
    };
    let mut found: Vec<FactChange> = Vec::new();
    let mut i: u64 = 0;
    let mut pos: usize = start;
    assert(found@.map_values(|item: FactChange| item@) =~= Seq::empty());
    while i < count
        invariant
            i <= count,
            at <= start <= pos <= bytes@.len(),
            one == (|at: int| take_fact_change(bytes@, at)),
            take_number(bytes@, at as int, 4) == Ok::<(nat, int), Seq<char>>(
                (count as nat, start as int),
            ),
            take_many(start as int, i as nat, one) == Ok::<_, Seq<char>>(
                (found@.map_values(|item: FactChange| item@), pos as int),
            ),
        decreases count - i,
    {
        match read_fact_change(bytes, pos) {
            Err(why) => {
                proof {
                    lemma_many_fails(start as int, (i + 1) as nat, count as nat, one);
                }
                return Err(why);
            },
            Ok((item, end)) => {
                let ghost before = found@.map_values(|item: FactChange| item@);
                let ghost next = item@;
                found.push(item);
                assert(found@.map_values(|item: FactChange| item@) =~= before.push(next));
                pos = end;
            },
        }
        i = i + 1;
    }
    Ok((found, pos))
}

fn read_magic(bytes: &[u8]) -> (result: Result<usize, String>)
    ensures
        match (result, take_magic(bytes@, 0)) {
            (Ok(end), Ok((_, stop))) => end == stop && end <= bytes@.len(),
            (Err(text), Err(why)) => text@ == why,
            _ => false,
        },
{
    let end: usize = match read_end(bytes, 0, 8) {
        Err(why) => {
            return Err(why);
        },
        Ok(end) => end,
    };
    let ghost raw = bytes@.subrange(0, 8);
    if bytes[0] == 0x4d && bytes[1] == 0x49 && bytes[2] == 0x43 && bytes[3] == 0x41 && bytes[4]
        == 0x43 && bytes[5] == 0x4d && bytes[6] == 0x54 && bytes[7] == 0x32 {
        assert(raw =~= magic());
        Ok(end)
    } else {
        proof {
            if raw == magic() {
                assert forall|i: int| 0 <= i < 8 implies bytes@[i] == magic()[i] by {
                    assert(raw[i] == bytes@[i]);
                }
            }
        }
        Err("invalid mica commit record magic".to_owned())
    }
}

fn read_to_end(bytes: &[u8], end: usize) -> (result: Result<(), String>)
    requires
        end <= bytes@.len(),
    ensures
        match result {
            Ok(()) => end == bytes@.len(),
            Err(text) => end != bytes@.len() && text@
                == "trailing bytes in mica commit record: "@ + decimal((bytes@.len() - end) as nat),
        },
{
    if end == bytes.len() {
        Ok(())
    } else {
        Err(tagged("trailing bytes in mica commit record: ", (bytes.len() - end) as u64))
    }
}

/// The relation that a record holds.
pub fn decode_relation_metadata(bytes: &[u8]) -> (result: Result<RelationMetadata, String>)
    ensures
        tells_record(result, whole(bytes@, take_metadata(bytes@, 0))),
{
    match read_metadata(bytes, 0) {
        Err(why) => Err(why),
        Ok((metadata, end)) => match read_to_end(bytes, end) {
            Err(why) => Err(why),
            Ok(()) => Ok(metadata),
        },
    }
}

/// The installed rule that a record holds.
pub fn decode_rule_definition(bytes: &[u8]) -> (result: Result<RuleDefinition, String>)
    ensures
        tells_record(result, whole(bytes@, take_definition(bytes@, 0))),
{
    match read_definition(bytes, 0) {
        Err(why) => Err(why),
        Ok((rule, end)) => match read_to_end(bytes, end) {
            Err(why) => Err(why),
            Ok(()) => Ok(rule),
        },
    }
}

/// The row that a record holds.
pub fn decode_tuple(bytes: &[u8]) -> (result: Result<Tuple, String>)
    ensures
        tells_record(result, whole(bytes@, take_row(bytes@, 0))),
{
    match read_row(bytes, 0) {
        Err(why) => Err(why),
        Ok((tuple, end)) => match read_to_end(bytes, end) {
            Err(why) => Err(why),
            Ok(()) => Ok(tuple),
        },
    }
}

/// The commit that a record holds.
pub fn decode_commit(bytes: &[u8]) -> (result: Result<Commit, String>)
    ensures
        tells_record(result, whole(bytes@, take_commit(bytes@, 0))),
{
    let after_magic: usize = match read_magic(bytes) {
        Err(why) => {
            return Err(why);
        },
        Ok(end) => end,
    };
    let (version, after_version): (u64, usize) = match read_number(bytes, after_magic, 8) {
        Err(why) => {
            return Err(why);
        },
        Ok(found) => found,
    };
    let (catalog_changes, middle): (Vec<CatalogChange>, usize) = match read_catalog_changes(
        bytes,
        after_version,
    ) {
        Err(why) => {
            return Err(why);
        },
        Ok(found) => found,
    };
    let (changes, end): (Vec<FactChange>, usize) = match read_fact_changes(bytes, middle) {
        Err(why) => {
            return Err(why);
        },
        Ok(found) => found,
    };
    match read_to_end(bytes, end) {
        Err(why) => Err(why),
        Ok(()) => {
            assert(catalog_changes@.map_values(|item: CatalogChange| item@)
                =~= catalog_change_views(catalog_changes@));
            assert(changes@.map_values(|item: FactChange| item@) =~= fact_change_views(changes@));
            let relation_changes: Vec<FactChange> = Vec::new();
            assert(fact_change_views(relation_changes@) =~= Seq::empty());
            Ok(
                Commit {
                    version,
                    catalog_changes,
                    changes,
                    relation_changes,
                    settled_relation_changes_available: false,
                },
            )
        },
    }
}

/// The number that a record holds.
pub fn decode_number(bytes: &[u8]) -> (result: Result<u64, String>)
    ensures
        match (result, whole(bytes@, take_number(bytes@, 0, 8))) {
            (Ok(n), Ok(m)) => n == m,
            (Err(text), Err(why)) => text@ == why,
            _ => false,
        },
{
    match read_number(bytes, 0, 8) {
        Err(why) => Err(why),
        Ok((n, end)) => match read_to_end(bytes, end) {
            Err(why) => Err(why),
            Ok(()) => Ok(n),
        },
    }
}

/// The relation of the row that is stored under a key.
pub fn decode_fact_relation(key: &[u8]) -> (result: Result<Identity, String>)
    ensures
        match (result, take_identity(key@, 0)) {
            (Ok(relation), Ok((id, _))) => relation@ == id,
            (Err(text), Err(why)) => text@ == why,
            _ => false,
        },
{
    match read_identity(key, 0) {
        Err(why) => Err(why),
        Ok((relation, _)) => Ok(relation),
    }
}

} // verus!
