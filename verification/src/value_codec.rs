//! Values as bytes. A value is stored as a word of eight bytes, its kind in the last of them: an
//! integer stands in the others, the least byte first; what another value holds follows the word.

use crate::bytes::{be_bytes, be_value, lemma_be_bytes_injective, lemma_be_bytes_len,
    lemma_be_bytes_of_value, lemma_be_value_bound, lemma_be_value_of_bytes, lemma_pow256_values,
    push_be, read_be, starts_with};
use crate::text::characters;
use crate::value::{byte_chars, entries_key, key_body, kind_tag, lemma_char_code, lemma_char_ext,
    lemma_key_parts, lemma_list_key_unique, lemma_message_key_unique, lemma_text_key_unique,
    lemma_value_key_unique, list_key, message_key, pair_views, push_value_key, text_key, text_view,
    value_key, views, Identity, Symbol, Value, ValueView, IDENTITY_MAX, INT_MAX, INT_MIN};
use vstd::prelude::*;

verus! {

/// Whether a value can be stored: it holds no capability, and its integers and identities are in
/// range.
pub open spec fn storable(value: ValueView) -> bool
    decreases value,
{
    match value {
        ValueView::Capability(_) => false,
        ValueView::Int(i) => INT_MIN <= i <= INT_MAX,
        ValueView::Identity(id) => id <= IDENTITY_MAX,
        ValueView::List(items) => forall|i: int| 0 <= i < items.len() ==> storable(#[trigger] items[i]),
        ValueView::Mapping(entries) => forall|i: int|
            0 <= i < entries.len() ==> storable((#[trigger] entries[i]).0) && storable(entries[i].1),
        ValueView::Relation(names, tuples) => {
            &&& forall|i: int| 0 <= i < names.len() ==> storable(#[trigger] names[i])
            &&& forall|i: int| 0 <= i < tuples.len() ==> storable(#[trigger] tuples[i])
        },
        ValueView::OptionSome(v) => storable(*v),
        ValueView::Frob(id, v) => id <= IDENTITY_MAX && storable(*v),
        ValueView::Error(_, _, v) => storable(*v),
        _ => true,
    }
}

/// Whether every value can be stored.
pub open spec fn all_storable(values: Seq<ValueView>) -> bool {
    forall|i: int| 0 <= i < values.len() ==> storable(#[trigger] values[i])
}

/// Whether every key and value of entries can be stored.
pub open spec fn entries_storable(entries: Seq<(ValueView, ValueView)>) -> bool {
    forall|i: int|
        0 <= i < entries.len() ==> storable((#[trigger] entries[i]).0) && storable(entries[i].1)
}

/// Whether the bytes from `at` start with the sort key of some value that can be stored.
pub open spec fn holds_key(bytes: Seq<u8>, at: int) -> bool {
    exists|value: ValueView|
        storable(value) && #[trigger] starts_with(bytes.skip(at), value_key(value))
}

proof fn lemma_starts_split(rest: Seq<u8>, a: Seq<u8>, b: Seq<u8>)
    ensures
        starts_with(rest, a + b) <==> starts_with(rest, a) && starts_with(
            rest.skip(a.len() as int),
            b,
        ),
{
    if starts_with(rest, a + b) {
        assert(rest.take((a + b).len() as int).take(a.len() as int) =~= rest.take(a.len() as int));
        assert((a + b).take(a.len() as int) =~= a);
        assert((a + b).skip(a.len() as int) =~= b);
        assert(rest.take((a + b).len() as int).skip(a.len() as int) =~= rest.skip(
            a.len() as int,
        ).take(b.len() as int));
    }
    if starts_with(rest, a) && starts_with(rest.skip(a.len() as int), b) {
        assert(rest.take((a + b).len() as int) =~= rest.take(a.len() as int) + rest.skip(
            a.len() as int,
        ).take(b.len() as int));
    }
}

proof fn lemma_starts_be(rest: Seq<u8>, n: nat, width: nat)
    requires
        0 < width <= 8,
        n < vstd::arithmetic::power::pow(256, width),
        starts_with(rest, be_bytes(n, width)),
    ensures
        rest.len() >= width,
        be_value(rest.take(width as int)) == n,
{
    lemma_be_bytes_len(n, width);
    lemma_be_value_of_bytes(n, width);
}

/// Reads a text from the bytes of its sort key.
fn read_text_key(bytes: &[u8], at: usize) -> (read: Option<(String, usize)>)
    requires
        at <= bytes@.len(),
    ensures
        match read {
            Some((text, end)) => {
                &&& at < end <= bytes@.len()
                &&& bytes@.subrange(at as int, end as int) == text_key(text@)
            },
            None => forall|text: Seq<char>|
                !#[trigger] starts_with(bytes@.skip(at as int), text_key(text)),
        },
{
    let ghost rest = bytes@.skip(at as int);
    let mut text = String::new();
    let mut pos: usize = at;
    proof {
        lemma_pow256_values();
        assert(bytes@.subrange(at as int, pos as int) =~= open_text_key(text@));
    }
    loop
        invariant
            at <= pos <= bytes@.len(),
            rest == bytes@.skip(at as int),
            bytes@.subrange(at as int, pos as int) == open_text_key(text@),
        decreases bytes@.len() - pos,
    {
        let ghost tail = bytes@.skip(pos as int);
        let ghost done = text@;
        proof {
            lemma_pow256_values();
            assert(rest =~= open_text_key(done) + tail);
        }
        if bytes.len() - pos < 3 {
            proof {
                assert forall|t: Seq<char>| !#[trigger] starts_with(rest, text_key(t)) by {
                    if starts_with(rest, text_key(t)) {
                        let more = lemma_text_resume(done, t, rest, tail);
                        lemma_text_key_head(more, tail);
                    }
                }
            }
            return None;
        }
        let n: u64 = read_be(bytes, pos, 3);
        proof {
            assert(bytes@.subrange(pos as int, pos + 3) =~= tail.take(3));
            lemma_be_bytes_of_value(tail.take(3));
            lemma_be_value_bound(tail.take(3));
        }
        if n == 0 {
            proof {
                lemma_open_text_end(done);
                assert(bytes@.subrange(at as int, pos + 3) =~= open_text_key(done) + tail.take(3));
            }
            return Some((text, pos + 3));
        }
        let code: u32 = (n - 1) as u32;
        match char::from_u32(code) {
            None => {
                proof {
                    assert forall|t: Seq<char>| !#[trigger] starts_with(rest, text_key(t)) by {
                        if starts_with(rest, text_key(t)) {
                            let more = lemma_text_resume(done, t, rest, tail);
                            lemma_text_key_head(more, tail);
                            assert(more.len() > 0);
                            lemma_char_code(more[0]);
                            assert(more[0] as u32 == code);
                            vstd::utf8::char_is_scalar(more[0]);
                        }
                    }
                }
                return None;
            },
            Some(c) => {
                text.push(c);
                proof {
                    lemma_char_code(c);
                    lemma_open_text_push(done, c);
                    assert(bytes@.subrange(at as int, pos + 3) =~= open_text_key(done) + tail.take(
                        3,
                    ));
                }
                pos = pos + 3;
            },
        }
    }
}

/// The bytes of the characters of a text, without the mark for the end.
spec fn open_text_key(text: Seq<char>) -> Seq<u8>
    decreases text.len(),
{
    if text.len() == 0 {
        Seq::empty()
    } else {
        open_text_key(text.drop_last()) + be_bytes((text.last() as nat + 1) as nat, 3)
    }
}

proof fn lemma_open_text_push(text: Seq<char>, c: char)
    ensures
        open_text_key(text.push(c)) == open_text_key(text) + be_bytes((c as nat + 1) as nat, 3),
{
    assert(text.push(c).drop_last() =~= text);
}

proof fn lemma_open_text_concat(a: Seq<char>, b: Seq<char>)
    ensures
        text_key(a + b) == open_text_key(a) + text_key(b),
    decreases a.len(),
{
    if a.len() == 0 {
        assert(a + b =~= b);
        assert(open_text_key(a) + text_key(b) =~= text_key(b));
    } else {
        let last = seq![a.last()];
        assert(a + b =~= a.drop_last() + (last + b));
        lemma_open_text_concat(a.drop_last(), last + b);
        assert((last + b).drop_first() =~= b);
        assert(text_key(a + b) =~= open_text_key(a) + text_key(b));
    }
}

proof fn lemma_open_text_end(text: Seq<char>)
    ensures
        text_key(text) == open_text_key(text) + be_bytes(0, 3),
{
    lemma_open_text_concat(text, Seq::empty());
    assert(text + Seq::<char>::empty() =~= text);
}

/// Where bytes go on from the characters `done` and start with the key of a text, the
/// text goes on from `done` too.
proof fn lemma_text_resume(done: Seq<char>, text: Seq<char>, rest: Seq<u8>, tail: Seq<u8>) -> (more:
    Seq<char>)
    requires
        rest == open_text_key(done) + tail,
        starts_with(rest, text_key(text)),
    ensures
        text == done + more,
        starts_with(tail, text_key(more)),
    decreases done.len(),
{
    if done.len() == 0 {
        assert(rest =~= tail);
        assert(text =~= done + text);
        text
    } else {
        let last = be_bytes((done.last() as nat + 1) as nat, 3);
        lemma_be_bytes_len((done.last() as nat + 1) as nat, 3);
        lemma_char_code(done.last());
        assert(rest =~= open_text_key(done.drop_last()) + (last + tail));
        let more = lemma_text_resume(done.drop_last(), text, rest, last + tail);
        lemma_text_key_head(more, last + tail);
        lemma_pow256_values();
        assert((last + tail).take(3) =~= last);
        lemma_be_value_of_bytes((done.last() as nat + 1) as nat, 3);
        assert(more.len() > 0);
        lemma_char_code(more[0]);
        lemma_char_ext(more[0], done.last());
        let next = more.drop_first();
        assert(text =~= done + next);
        lemma_starts_split(last + tail, last, text_key(next));
        assert((last + tail).skip(3) =~= tail);
        next
    }
}

/// What bytes that start with the key of a text start with.
proof fn lemma_text_key_head(text: Seq<char>, rest: Seq<u8>)
    requires
        starts_with(rest, text_key(text)),
    ensures
        rest.len() >= 3,
        text.len() == 0 ==> be_value(rest.take(3)) == 0,
        text.len() > 0 ==> be_value(rest.take(3)) == text[0] as nat + 1,
{
    lemma_pow256_values();
    let n: nat = if text.len() == 0 {
        0
    } else {
        (text[0] as nat + 1) as nat
    };
    let more = if text.len() == 0 {
        Seq::empty()
    } else {
        text_key(text.drop_first())
    };
    if text.len() > 0 {
        lemma_char_code(text[0]);
    }
    lemma_be_bytes_len(n, 3);
    assert(text_key(text) =~= be_bytes(n, 3) + more);
    lemma_starts_split(rest, be_bytes(n, 3), more);
    lemma_starts_be(rest, n, 3);
}

proof fn lemma_value_head(rest: Seq<u8>, value: ValueView)
    requires
        starts_with(rest, value_key(value)),
    ensures
        rest.len() > 0,
        rest[0] == kind_tag(value),
        starts_with(rest.skip(1), key_body(value)),
{
    lemma_key_parts(value);
    lemma_starts_split(rest, seq![kind_tag(value)], key_body(value));
    assert(rest.take(1)[0] == kind_tag(value));
}

/// Where no value of the kind that the first byte tells goes on as the bytes do, the
/// bytes hold no value.
proof fn lemma_no_value(bytes: Seq<u8>, at: int)
    requires
        0 <= at < bytes.len(),
        forall|value: ValueView|
            storable(value) && kind_tag(value) == bytes[at] ==> !#[trigger] starts_with(
                bytes.skip(at + 1),
                key_body(value),
            ),
    ensures
        !holds_key(bytes, at),
{
    assert forall|value: ValueView| storable(value) implies !#[trigger] starts_with(
        bytes.skip(at),
        value_key(value),
    ) by {
        if starts_with(bytes.skip(at), value_key(value)) {
            lemma_value_head(bytes.skip(at), value);
            assert(bytes.skip(at).skip(1) =~= bytes.skip(at + 1));
        }
    }
}

/// The keys of items, without the mark for the end.
spec fn open_list_key(items: Seq<ValueView>) -> Seq<u8>
    decreases items.len(),
{
    if items.len() == 0 {
        Seq::empty()
    } else {
        open_list_key(items.drop_last()) + (seq![1u8] + value_key(items.last()))
    }
}

proof fn lemma_open_list_concat(a: Seq<ValueView>, b: Seq<ValueView>)
    ensures
        list_key(a + b) == open_list_key(a) + list_key(b),
    decreases a.len(),
{
    if a.len() == 0 {
        assert(a + b =~= b);
        assert(open_list_key(a) + list_key(b) =~= list_key(b));
    } else {
        let last = seq![a.last()];
        assert(a + b =~= a.drop_last() + (last + b));
        lemma_open_list_concat(a.drop_last(), last + b);
        assert((last + b).subrange(1, (last + b).len() as int) =~= b);
        assert(list_key(a + b) =~= open_list_key(a) + list_key(b));
    }
}

/// Where bytes go on from the items `done` and start with the key of a list, the list
/// goes on from `done` too.
proof fn lemma_list_resume(
    done: Seq<ValueView>,
    items: Seq<ValueView>,
    rest: Seq<u8>,
    tail: Seq<u8>,
) -> (more: Seq<ValueView>)
    requires
        rest == open_list_key(done) + tail,
        starts_with(rest, list_key(items)),
    ensures
        items == done + more,
        starts_with(tail, list_key(more)),
    decreases done.len(),
{
    if done.len() == 0 {
        assert(rest =~= tail);
        assert(items =~= done + items);
        items
    } else {
        let entry = seq![1u8] + value_key(done.last());
        assert(rest =~= open_list_key(done.drop_last()) + (entry + tail));
        let more = lemma_list_resume(done.drop_last(), items, rest, entry + tail);
        lemma_list_key_head(more, entry + tail);
        assert((entry + tail)[0] == 1u8);
        let next = more.subrange(1, more.len() as int);
        let after = (entry + tail).skip(1);
        assert(after =~= value_key(done.last()) + tail);
        lemma_starts_split(after, value_key(more[0]), list_key(next));
        let left = after.skip(value_key(more[0]).len() as int);
        assert(value_key(more[0]) + left =~= after);
        lemma_value_key_unique(more[0], done.last(), left, tail);
        assert(items =~= done + next);
        next
    }
}

/// What bytes that start with the key of a list start with.
proof fn lemma_list_key_head(items: Seq<ValueView>, rest: Seq<u8>)
    requires
        starts_with(rest, list_key(items)),
    ensures
        rest.len() > 0,
        items.len() == 0 ==> rest[0] == 0,
        items.len() > 0 ==> rest[0] == 1 && starts_with(
            rest.skip(1),
            value_key(items[0]) + list_key(items.subrange(1, items.len() as int)),
        ),
{
    if items.len() == 0 {
        assert(rest.take(1)[0] == 0);
    } else {
        let more = value_key(items[0]) + list_key(items.subrange(1, items.len() as int));
        assert(list_key(items) =~= seq![1u8] + more);
        lemma_starts_split(rest, seq![1u8], more);
        assert(rest.take(1)[0] == 1);
    }
}

/// The keys of entries, without the mark for the end.
spec fn open_entries_key(entries: Seq<(ValueView, ValueView)>) -> Seq<u8>
    decreases entries.len(),
{
    if entries.len() == 0 {
        Seq::empty()
    } else {
        open_entries_key(entries.drop_last()) + (seq![1u8] + value_key(entries.last().0)
            + value_key(entries.last().1))
    }
}

proof fn lemma_open_entries_concat(
    a: Seq<(ValueView, ValueView)>,
    b: Seq<(ValueView, ValueView)>,
)
    ensures
        entries_key(a + b) == open_entries_key(a) + entries_key(b),
    decreases a.len(),
{
    if a.len() == 0 {
        assert(a + b =~= b);
        assert(open_entries_key(a) + entries_key(b) =~= entries_key(b));
    } else {
        let last = seq![a.last()];
        assert(a + b =~= a.drop_last() + (last + b));
        lemma_open_entries_concat(a.drop_last(), last + b);
        assert((last + b).subrange(1, (last + b).len() as int) =~= b);
        assert(entries_key(a + b) =~= open_entries_key(a) + entries_key(b));
    }
}

/// What bytes that start with the key of a mapping start with.
proof fn lemma_entries_key_head(entries: Seq<(ValueView, ValueView)>, rest: Seq<u8>)
    requires
        starts_with(rest, entries_key(entries)),
    ensures
        rest.len() > 0,
        entries.len() == 0 ==> rest[0] == 0,
        entries.len() > 0 ==> rest[0] == 1 && starts_with(
            rest.skip(1),
            value_key(entries[0].0) + (value_key(entries[0].1) + entries_key(
                entries.subrange(1, entries.len() as int),
            )),
        ),
{
    if entries.len() == 0 {
        assert(rest.take(1)[0] == 0);
    } else {
        let more = value_key(entries[0].0) + (value_key(entries[0].1) + entries_key(
            entries.subrange(1, entries.len() as int),
        ));
        assert(entries_key(entries) =~= seq![1u8] + more);
        lemma_starts_split(rest, seq![1u8], more);
        assert(rest.take(1)[0] == 1);
    }
}

proof fn lemma_entries_resume(
    done: Seq<(ValueView, ValueView)>,
    entries: Seq<(ValueView, ValueView)>,
    rest: Seq<u8>,
    tail: Seq<u8>,
) -> (more: Seq<(ValueView, ValueView)>)
    requires
        rest == open_entries_key(done) + tail,
        starts_with(rest, entries_key(entries)),
    ensures
        entries == done + more,
        starts_with(tail, entries_key(more)),
    decreases done.len(),
{
    if done.len() == 0 {
        assert(rest =~= tail);
        assert(entries =~= done + entries);
        entries
    } else {
        let key = value_key(done.last().0);
        let value = value_key(done.last().1);
        let entry = seq![1u8] + key + value;
        assert(rest =~= open_entries_key(done.drop_last()) + (entry + tail));
        let more = lemma_entries_resume(done.drop_last(), entries, rest, entry + tail);
        lemma_entries_key_head(more, entry + tail);
        assert((entry + tail)[0] == 1u8);
        let next = more.subrange(1, more.len() as int);
        let after = (entry + tail).skip(1);
        assert(after =~= key + (value + tail));
        lemma_starts_split(
            after,
            value_key(more[0].0),
            value_key(more[0].1) + entries_key(next),
        );
        let left = after.skip(value_key(more[0].0).len() as int);
        assert(value_key(more[0].0) + left =~= after);
        lemma_value_key_unique(more[0].0, done.last().0, left, value + tail);
        lemma_starts_split(left, value_key(more[0].1), entries_key(next));
        let last = left.skip(value_key(more[0].1).len() as int);
        assert(value_key(more[0].1) + last =~= left);
        lemma_value_key_unique(more[0].1, done.last().1, last, tail);
        assert(entries =~= done + next);
        next
    }
}

/// Reads a value from the bytes of its sort key.
pub fn read_value_key(bytes: &[u8], at: usize) -> (read: Option<(Value, usize)>)
    requires
        at <= bytes@.len(),
    ensures
        match read {
            Some((value, end)) => {
                &&& at < end <= bytes@.len()
                &&& bytes@.subrange(at as int, end as int) == value_key(value@)
                &&& storable(value@)
            },
            None => !holds_key(bytes@, at as int),
        },
    decreases bytes@.len() - at, 0nat,
{
    let ghost all = bytes@;
    if at == bytes.len() {
        proof {
            assert forall|value: ValueView| storable(value) implies !#[trigger] starts_with(
                all.skip(at as int),
                value_key(value),
            ) by {
                lemma_key_parts(value);
            }
        }
        return None;
    }
    let tag: u8 = bytes[at];
    let next: usize = at + 1;
    let ghost rest = all.skip(next as int);
    proof {
        lemma_pow256_values();
    }
    if tag == 0 {
        assert(all.subrange(at as int, next as int) =~= value_key(ValueView::Nothing));
        return Some((Value::Nothing, next));
    }
    if tag == 8 {
        assert(all.subrange(at as int, next as int) =~= value_key(ValueView::OptionNone));
        return Some((Value::OptionNone, next));
    }
    if tag == 1 {
        if next < bytes.len() && bytes[next] <= 1 {
            let flag: bool = bytes[next] == 1;
            assert(all.subrange(at as int, next + 1) =~= value_key(ValueView::Bool(flag)));
            return Some((Value::Bool(flag), next + 1));
        }
        proof {
            assert forall|value: ValueView|
                storable(value) && kind_tag(value) == tag implies !#[trigger] starts_with(
                rest,
                key_body(value),
            ) by {
                if starts_with(rest, key_body(value)) {
                    assert(rest.take(1)[0] == key_body(value)[0]);
                }
            }
            lemma_no_value(all, at as int);
        }
        return None;
    }
    if tag == 2 || tag == 3 || tag == 13 {
        if bytes.len() - next < 8 {
            proof {
                assert forall|value: ValueView|
                    storable(value) && kind_tag(value) == tag implies !#[trigger] starts_with(
                    rest,
                    key_body(value),
                ) by {
                    if let ValueView::Int(i) = value {
                        lemma_be_bytes_len((i + 0x8000_0000_0000_0000) as nat, 8);
                    }
                    if let ValueView::Identity(id) = value {
                        lemma_be_bytes_len(id as nat, 8);
                    }
                    if let ValueView::Float(place) = value {
                        lemma_be_bytes_len(place as nat, 8);
                    }
                }
                lemma_no_value(all, at as int);
            }
            return None;
        }
        let n: u64 = read_be(bytes, next, 8);
        let ghost number = all.subrange(next as int, next + 8);
        proof {
            lemma_be_bytes_of_value(number);
            assert(all.subrange(at as int, next + 8) =~= seq![tag] + number);
            assert(rest.take(8) =~= number);
        }
        if tag == 2 {
            let i: i64 = (n as i128 - 0x8000_0000_0000_0000) as i64;
            if i < INT_MIN || i > INT_MAX {
                proof {
                    assert forall|value: ValueView|
                        storable(value) && kind_tag(value) == tag implies !#[trigger] starts_with(
                        rest,
                        key_body(value),
                    ) by {
                        if starts_with(rest, key_body(value)) {
                            lemma_starts_be(
                                rest,
                                (value->Int_0 + 0x8000_0000_0000_0000) as nat,
                                8,
                            );
                        }
                    }
                    lemma_no_value(all, at as int);
                }
                return None;
            }
            return Some((Value::Int(i), next + 8));
        }
        if tag == 13 {
            return Some((Value::Float(n), next + 8));
        }
        match Identity::new(n) {
            Some(id) => {
                return Some((Value::Identity(id), next + 8));
            },
            None => {
                proof {
                    assert forall|value: ValueView|
                        storable(value) && kind_tag(value) == tag implies !#[trigger] starts_with(
                        rest,
                        key_body(value),
                    ) by {
                        if starts_with(rest, key_body(value)) {
                            lemma_starts_be(rest, value->Identity_0 as nat, 8);
                        }
                    }
                    lemma_no_value(all, at as int);
                }
                return None;
            },
        }
    }
    if tag == 4 || tag == 5 {
        match read_text_key(bytes, next) {
            Some((text, end)) => {
                assert(all.subrange(at as int, end as int) =~= seq![tag] + all.subrange(
                    next as int,
                    end as int,
                ));
                if tag == 4 {
                    return Some((Value::Symbol(Symbol::intern(text.as_str())), end));
                }
                return Some((Value::String(text), end));
            },
            None => {
                proof {
                    assert forall|value: ValueView|
                        storable(value) && kind_tag(value) == tag implies !#[trigger] starts_with(
                        rest,
                        key_body(value),
                    ) by {
                        if tag == 4 {
                            assert(key_body(value) == text_key(value->Symbol_0));
                        } else {
                            assert(key_body(value) == text_key(value->String_0));
                        }
                    }
                    lemma_no_value(all, at as int);
                }
                return None;
            },
        }
    }
    if tag == 6 {
        match read_items(bytes, next) {
            Some((items, end)) => {
                let value = Value::List(items);
                proof {
                    assert(value@->List_0 =~= views(items@));
                    assert(all.subrange(at as int, end as int) =~= seq![6u8] + all.subrange(
                        next as int,
                        end as int,
                    ));
                }
                return Some((value, end));
            },
            None => {
                proof {
                    assert forall|value: ValueView|
                        storable(value) && kind_tag(value) == tag implies !#[trigger] starts_with(
                        rest,
                        key_body(value),
                    ) by {
                        assert(all_storable(value->List_0));
                    }
                    lemma_no_value(all, at as int);
                }
                return None;
            },
        }
    }
    if tag == 7 {
        match read_entries(bytes, next) {
            Some((entries, end)) => {
                let value = Value::Mapping(entries);
                proof {
                    assert(value@->Mapping_0 =~= pair_views(entries@));
                    assert(all.subrange(at as int, end as int) =~= seq![7u8] + all.subrange(
                        next as int,
                        end as int,
                    ));
                }
                return Some((value, end));
            },
            None => {
                proof {
                    assert forall|value: ValueView|
                        storable(value) && kind_tag(value) == tag implies !#[trigger] starts_with(
                        rest,
                        key_body(value),
                    ) by {
                        assert(entries_storable(value->Mapping_0));
                    }
                    lemma_no_value(all, at as int);
                }
                return None;
            },
        }
    }
    if tag == 9 {
        match read_value_key(bytes, next) {
            Some((payload, end)) => {
                assert(all.subrange(at as int, end as int) =~= seq![9u8] + all.subrange(
                    next as int,
                    end as int,
                ));
                return Some((Value::OptionSome(Box::new(payload)), end));
            },
            None => {
                proof {
                    assert forall|value: ValueView|
                        storable(value) && kind_tag(value) == tag implies !#[trigger] starts_with(
                        rest,
                        key_body(value),
                    ) by {
                        assert(storable(*value->OptionSome_0));
                    }
                    lemma_no_value(all, at as int);
                }
                return None;
            },
        }
    }
    if tag == 10 {
        return read_frob(bytes, at);
    }
    if tag == 11 {
        return read_error(bytes, at);
    }
    if tag == 14 {
        return read_bytes(bytes, at);
    }
    if tag == 15 {
        return read_relation(bytes, at);
    }
    proof {
        assert forall|value: ValueView|
            storable(value) && kind_tag(value) == tag implies !#[trigger] starts_with(
            rest,
            key_body(value),
        ) by {}
        lemma_no_value(all, at as int);
    }
    None
}

fn read_frob(bytes: &[u8], at: usize) -> (read: Option<(Value, usize)>)
    requires
        at < bytes@.len(),
        bytes@[at as int] == 10,
    ensures
        match read {
            Some((value, end)) => {
                &&& at < end <= bytes@.len()
                &&& bytes@.subrange(at as int, end as int) == value_key(value@)
                &&& storable(value@)
            },
            None => !holds_key(bytes@, at as int),
        },
    decreases bytes@.len() - at - 1, 1nat,
{
    let ghost all = bytes@;
    let len: usize = bytes.len();
    let next: usize = at + 1;
    let ghost rest = all.skip(next as int);
    proof {
        lemma_pow256_values();
    }
    if len - next < 8 {
        proof {
            assert forall|value: ValueView|
                storable(value) && kind_tag(value) == 10 implies !#[trigger] starts_with(
                rest,
                key_body(value),
            ) by {
                lemma_be_bytes_len(value->Frob_0 as nat, 8);
            }
            lemma_no_value(all, at as int);
        }
        return None;
    }
    let n: u64 = read_be(bytes, next, 8);
    let middle: usize = next + 8;
    let ghost number = all.subrange(next as int, middle as int);
    proof {
        lemma_be_bytes_of_value(number);
        assert(rest.take(8) =~= number);
        assert(rest.skip(8) =~= all.skip(middle as int));
        assert forall|value: ValueView|
            storable(value) && kind_tag(value) == 10 && #[trigger] starts_with(
                rest,
                key_body(value),
            ) implies value->Frob_0 == n && n <= IDENTITY_MAX && storable(*value->Frob_1)
            && starts_with(all.skip(middle as int), value_key(*value->Frob_1)) by {
            lemma_be_bytes_len(value->Frob_0 as nat, 8);
            lemma_starts_split(rest, be_bytes(value->Frob_0 as nat, 8), value_key(*value->Frob_1));
            lemma_starts_be(rest, value->Frob_0 as nat, 8);
        }
    }
    match (Identity::new(n), read_value_key(bytes, middle)) {
        (Some(delegate), Some((payload, end))) => {
            let value = Value::Frob(delegate, Box::new(payload));
            assert(all.subrange(at as int, end as int) =~= seq![10u8] + number + all.subrange(
                middle as int,
                end as int,
            ));
            Some((value, end))
        },
        _ => {
            proof {
                lemma_no_value(all, at as int);
            }
            None
        },
    }
}

fn read_error(bytes: &[u8], at: usize) -> (read: Option<(Value, usize)>)
    requires
        at < bytes@.len(),
        bytes@[at as int] == 11,
    ensures
        match read {
            Some((value, end)) => {
                &&& at < end <= bytes@.len()
                &&& bytes@.subrange(at as int, end as int) == value_key(value@)
                &&& storable(value@)
            },
            None => !holds_key(bytes@, at as int),
        },
    decreases bytes@.len() - at - 1, 1nat,
{
    let ghost all = bytes@;
    let _: usize = bytes.len();
    let next: usize = at + 1;
    let ghost rest = all.skip(next as int);
    proof {
        assert forall|value: ValueView|
            storable(value) && kind_tag(value) == 11 && #[trigger] starts_with(
                rest,
                key_body(value),
            ) implies starts_with(rest, text_key(value->Error_0)) && starts_with(
            rest.skip(text_key(value->Error_0).len() as int),
            message_key(value->Error_1) + value_key(*value->Error_2),
        ) by {
            assert(key_body(value) =~= text_key(value->Error_0) + (message_key(value->Error_1)
                + value_key(*value->Error_2)));
            lemma_starts_split(
                rest,
                text_key(value->Error_0),
                message_key(value->Error_1) + value_key(*value->Error_2),
            );
        }
    }
    let (code, after_code) = match read_text_key(bytes, next) {
        Some(read) => read,
        None => {
            proof {
                lemma_no_value(all, at as int);
            }
            return None;
        },
    };
    let ghost second = all.skip(after_code as int);
    proof {
        assert(rest =~= text_key(code@) + second);
        assert forall|value: ValueView|
            storable(value) && kind_tag(value) == 11 && #[trigger] starts_with(
                rest,
                key_body(value),
            ) implies value->Error_0 == code@ && starts_with(
            second,
            message_key(value->Error_1) + value_key(*value->Error_2),
        ) by {
            let left = rest.skip(text_key(value->Error_0).len() as int);
            assert(text_key(value->Error_0) + left =~= rest);
            lemma_text_key_unique(value->Error_0, code@, left, second);
        }
    }
    let (message, after_message) = match read_message(bytes, after_code) {
        Some(read) => read,
        None => {
            proof {
                assert forall|value: ValueView|
                    storable(value) && kind_tag(value) == 11 implies !#[trigger] starts_with(
                    rest,
                    key_body(value),
                ) by {
                    if starts_with(rest, key_body(value)) {
                        lemma_starts_split(
                            second,
                            message_key(value->Error_1),
                            value_key(*value->Error_2),
                        );
                    }
                }
                lemma_no_value(all, at as int);
            }
            return None;
        },
    };
    let ghost said = text_view(message);
    let ghost third = all.skip(after_message as int);
    proof {
        assert(second =~= message_key(said) + third);
        assert forall|value: ValueView|
            storable(value) && kind_tag(value) == 11 && #[trigger] starts_with(
                rest,
                key_body(value),
            ) implies value->Error_1 == said && storable(*value->Error_2) && starts_with(
            third,
            value_key(*value->Error_2),
        ) by {
            lemma_starts_split(second, message_key(value->Error_1), value_key(*value->Error_2));
            let left = second.skip(message_key(value->Error_1).len() as int);
            assert(message_key(value->Error_1) + left =~= second);
            lemma_message_key_unique(value->Error_1, said, left, third);
        }
    }
    match read_value_key(bytes, after_message) {
        Some((payload, end)) => {
            let value = Value::Error(Symbol::intern(code.as_str()), message, Box::new(payload));
            assert(all.subrange(at as int, end as int) =~= seq![11u8] + text_key(code@)
                + message_key(said) + all.subrange(after_message as int, end as int));
            Some((value, end))
        },
        None => {
            proof {
                lemma_no_value(all, at as int);
            }
            None
        },
    }
}

/// The bytes that characters are, where each is one.
fn bytes_of(text: &str) -> (bytes: Option<Vec<u8>>)
    ensures
        match bytes {
            Some(found) => byte_chars(found@) == text@,
            None => forall|other: Seq<u8>| #[trigger] byte_chars(other) != text@,
        },
{
    let chars = characters(text);
    let mut bytes: Vec<u8> = Vec::new();
    let mut i: usize = 0;
    while i < chars.len()
        invariant
            i <= chars@.len(),
            chars@ == text@,
            bytes@.len() == i,
            forall|j: int| 0 <= j < i ==> (#[trigger] bytes@[j]) as char == chars@[j],
        decreases chars@.len() - i,
    {
        let c: char = chars[i];
        let code: u32 = c as u32;
        proof {
            lemma_char_code(c);
        }
        if code > 255 {
            proof {
                assert forall|other: Seq<u8>| #[trigger] byte_chars(other) != text@ by {
                    if byte_chars(other) == text@ {
                        assert(byte_chars(other)[i as int] == other[i as int] as char);
                        assert((other[i as int] as char) as int == other[i as int] as int);
                    }
                }
            }
            return None;
        }
        let byte: u8 = code as u8;
        proof {
            assert((byte as char) as int == byte as int);
            lemma_char_ext(byte as char, c);
        }
        bytes.push(byte);
        i = i + 1;
    }
    assert(byte_chars(bytes@) =~= text@);
    Some(bytes)
}

fn read_bytes(bytes: &[u8], at: usize) -> (read: Option<(Value, usize)>)
    requires
        at < bytes@.len(),
        bytes@[at as int] == 14,
    ensures
        match read {
            Some((value, end)) => {
                &&& at < end <= bytes@.len()
                &&& bytes@.subrange(at as int, end as int) == value_key(value@)
                &&& storable(value@)
            },
            None => !holds_key(bytes@, at as int),
        },
{
    let ghost all = bytes@;
    assert(at < bytes.len());
    let next: usize = at + 1;
    let ghost rest = all.skip(next as int);
    proof {
        assert forall|value: ValueView|
            storable(value) && kind_tag(value) == 14 && #[trigger] starts_with(
                rest,
                key_body(value),
            ) implies key_body(value) == text_key(byte_chars(value->Bytes_0)) by {}
    }
    match read_text_key(bytes, next) {
        None => {
            proof {
                lemma_no_value(all, at as int);
            }
            None
        },
        Some((text, end)) => {
            match bytes_of(text.as_str()) {
                Some(found) => {
                    assert(all.subrange(at as int, end as int) =~= seq![14u8] + all.subrange(
                        next as int,
                        end as int,
                    ));
                    Some((Value::Bytes(found), end))
                },
                None => {
                    proof {
                        assert forall|value: ValueView|
                            storable(value) && kind_tag(value) == 14 implies !#[trigger] starts_with(
                            rest,
                            key_body(value),
                        ) by {
                            if starts_with(rest, key_body(value)) {
                                let other = byte_chars(value->Bytes_0);
                                let x = all.skip(end as int);
                                let y = rest.skip(text_key(other).len() as int);
                                assert(text_key(text@) + x =~= rest);
                                assert(text_key(other) + y =~= rest);
                                lemma_text_key_unique(text@, other, x, y);
                            }
                        }
                        lemma_no_value(all, at as int);
                    }
                    None
                },
            }
        },
    }
}

fn read_relation(bytes: &[u8], at: usize) -> (read: Option<(Value, usize)>)
    requires
        at < bytes@.len(),
        bytes@[at as int] == 15,
    ensures
        match read {
            Some((value, end)) => {
                &&& at < end <= bytes@.len()
                &&& bytes@.subrange(at as int, end as int) == value_key(value@)
                &&& storable(value@)
            },
            None => !holds_key(bytes@, at as int),
        },
    decreases bytes@.len() - at - 1, 2nat,
{
    let ghost all = bytes@;
    assert(at < bytes.len());
    let next: usize = at + 1;
    let ghost rest = all.skip(next as int);
    proof {
        assert forall|value: ValueView|
            storable(value) && kind_tag(value) == 15 && #[trigger] starts_with(
                rest,
                key_body(value),
            ) implies all_storable(value->Relation_0) && all_storable(value->Relation_1)
            && starts_with(rest, list_key(value->Relation_0)) && starts_with(
            rest.skip(list_key(value->Relation_0).len() as int),
            list_key(value->Relation_1),
        ) by {
            lemma_starts_split(rest, list_key(value->Relation_0), list_key(value->Relation_1));
        }
    }
    match read_items(bytes, next) {
        None => {
            proof {
                lemma_no_value(all, at as int);
            }
            None
        },
        Some((names, middle)) => {
            proof {
                assert forall|value: ValueView|
                    storable(value) && kind_tag(value) == 15 && #[trigger] starts_with(
                        rest,
                        key_body(value),
                    ) implies starts_with(all.skip(middle as int), list_key(value->Relation_1)) by {
                    let other = value->Relation_0;
                    let x = all.skip(middle as int);
                    let y = rest.skip(list_key(other).len() as int);
                    assert(list_key(views(names@)) + x =~= rest);
                    assert(list_key(other) + y =~= rest);
                    lemma_list_key_unique(views(names@), other, x, y);
                }
            }
            match read_items(bytes, middle) {
                None => {
                    proof {
                        lemma_no_value(all, at as int);
                    }
                    None
                },
                Some((tuples, end)) => {
                    let value = Value::Relation(names, tuples);
                    proof {
                        assert(value@->Relation_0 =~= views(names@));
                        assert(value@->Relation_1 =~= views(tuples@));
                        assert(all.subrange(at as int, end as int) =~= seq![15u8] + all.subrange(
                            next as int,
                            middle as int,
                        ) + all.subrange(middle as int, end as int));
                    }
                    Some((value, end))
                },
            }
        },
    }
}

fn read_message(bytes: &[u8], at: usize) -> (read: Option<(Option<String>, usize)>)
    requires
        at <= bytes@.len(),
    ensures
        match read {
            Some((message, end)) => {
                &&& at < end <= bytes@.len()
                &&& bytes@.subrange(at as int, end as int) == message_key(text_view(message))
            },
            None => forall|message: Option<Seq<char>>|
                !#[trigger] starts_with(bytes@.skip(at as int), message_key(message)),
        },
{
    let ghost all = bytes@;
    let ghost rest = all.skip(at as int);
    proof {
        assert forall|message: Option<Seq<char>>| #[trigger]
            starts_with(rest, message_key(message)) implies rest.len() > 0 && match message {
            None => rest[0] == 0,
            Some(text) => rest[0] == 1 && starts_with(all.skip(at + 1), text_key(text)),
        } by {
            assert(rest.take(message_key(message).len() as int)[0] == message_key(message)[0]);
            if let Some(text) = message {
                lemma_starts_split(rest, seq![1u8], text_key(text));
                assert(rest.skip(1) =~= all.skip(at + 1));
            }
        }
    }
    if at == bytes.len() {
        return None;
    }
    if bytes[at] == 0 {
        assert(all.subrange(at as int, at + 1) =~= message_key(None));
        return Some((None, at + 1));
    }
    if bytes[at] != 1 {
        return None;
    }
    match read_text_key(bytes, at + 1) {
        Some((text, end)) => {
            assert(all.subrange(at as int, end as int) =~= seq![1u8] + all.subrange(
                at + 1,
                end as int,
            ));
            Some((Some(text), end))
        },
        None => None,
    }
}

fn read_items(bytes: &[u8], at: usize) -> (read: Option<(Vec<Value>, usize)>)
    requires
        0 < at <= bytes@.len(),
    ensures
        match read {
            Some((items, end)) => {
                &&& at < end <= bytes@.len()
                &&& bytes@.subrange(at as int, end as int) == list_key(views(items@))
                &&& all_storable(views(items@))
            },
            None => forall|items: Seq<ValueView>|
                all_storable(items) ==> !#[trigger] starts_with(
                    bytes@.skip(at as int),
                    list_key(items),
                ),
        },
    decreases bytes@.len() - at, 1nat,
{
    let ghost all = bytes@;
    let ghost rest = all.skip(at as int);
    let mut items: Vec<Value> = Vec::new();
    let mut pos: usize = at;
    assert(all.subrange(at as int, pos as int) =~= open_list_key(views(items@)));
    loop
        invariant
            at <= pos <= bytes@.len(),
            all == bytes@,
            rest == all.skip(at as int),
            all.subrange(at as int, pos as int) == open_list_key(views(items@)),
            all_storable(views(items@)),
        decreases bytes@.len() - pos,
    {
        let ghost done = views(items@);
        let ghost tail = all.skip(pos as int);
        proof {
            assert(rest =~= open_list_key(done) + tail);
            assert forall|whole: Seq<ValueView>|
                all_storable(whole) && #[trigger] starts_with(rest, list_key(whole)) implies tail.len()
                > 0 && (tail[0] == 0 || (tail[0] == 1 && holds_key(all, pos + 1))) by {
                let more = lemma_list_resume(done, whole, rest, tail);
                lemma_list_key_head(more, tail);
                if more.len() > 0 {
                    let next = list_key(more.subrange(1, more.len() as int));
                    lemma_starts_split(tail.skip(1), value_key(more[0]), next);
                    assert(tail.skip(1) =~= all.skip(pos + 1));
                    assert(whole[done.len() as int] == more[0]);
                    assert(storable(more[0]));
                }
            }
        }
        if pos == bytes.len() {
            return None;
        }
        assert(tail[0] == all[pos as int]);
        if bytes[pos] == 0 {
            proof {
                lemma_open_list_concat(done, Seq::empty());
                assert(done + Seq::<ValueView>::empty() =~= done);
                assert(all.subrange(at as int, pos + 1) =~= open_list_key(done) + seq![0u8]);
            }
            return Some((items, pos + 1));
        }
        if bytes[pos] != 1 {
            return None;
        }
        match read_value_key(bytes, pos + 1) {
            None => {
                return None;
            },
            Some((value, end)) => {
                proof {
                    assert(all.subrange(at as int, end as int) =~= open_list_key(done) + (
                    seq![1u8] + all.subrange(pos + 1, end as int)));
                    assert(done.push(value@).drop_last() =~= done);
                }
                items.push(value);
                assert(views(items@) =~= done.push(value@));
                pos = end;
            },
        }
    }
}

fn read_entries(bytes: &[u8], at: usize) -> (read: Option<(Vec<(Value, Value)>, usize)>)
    requires
        0 < at <= bytes@.len(),
    ensures
        match read {
            Some((entries, end)) => {
                &&& at < end <= bytes@.len()
                &&& bytes@.subrange(at as int, end as int) == entries_key(pair_views(entries@))
                &&& entries_storable(pair_views(entries@))
            },
            None => forall|entries: Seq<(ValueView, ValueView)>|
                entries_storable(entries) ==> !#[trigger] starts_with(
                    bytes@.skip(at as int),
                    entries_key(entries),
                ),
        },
    decreases bytes@.len() - at, 1nat,
{
    let ghost all = bytes@;
    let ghost rest = all.skip(at as int);
    let mut entries: Vec<(Value, Value)> = Vec::new();
    let mut pos: usize = at;
    assert(all.subrange(at as int, pos as int) =~= open_entries_key(pair_views(entries@)));
    loop
        invariant
            at <= pos <= bytes@.len(),
            all == bytes@,
            rest == all.skip(at as int),
            all.subrange(at as int, pos as int) == open_entries_key(pair_views(entries@)),
            entries_storable(pair_views(entries@)),
        decreases bytes@.len() - pos,
    {
        let ghost done = pair_views(entries@);
        let ghost tail = all.skip(pos as int);
        proof {
            assert(rest =~= open_entries_key(done) + tail);
            assert forall|whole: Seq<(ValueView, ValueView)>|
                entries_storable(whole) && #[trigger] starts_with(
                    rest,
                    entries_key(whole),
                ) implies tail.len() > 0 && (tail[0] == 0 || (tail[0] == 1 && goes_on(
                all,
                pos + 1,
            ))) by {
                let more = lemma_entries_resume(done, whole, rest, tail);
                lemma_entries_key_head(more, tail);
                if more.len() > 0 {
                    let next = entries_key(more.subrange(1, more.len() as int));
                    let (k, v) = more[0];
                    assert(tail.skip(1) =~= all.skip(pos + 1));
                    lemma_starts_split(all.skip(pos + 1), value_key(k), value_key(v) + next);
                    lemma_starts_split(
                        all.skip(pos + 1).skip(value_key(k).len() as int),
                        value_key(v),
                        next,
                    );
                    assert(whole[done.len() as int] == more[0]);
                    lemma_starts_split(all.skip(pos + 1), value_key(k), value_key(v));
                    assert(storable(k) && storable(v));
                    assert(goes_on(all, pos + 1));
                }
            }
        }
        if pos == bytes.len() {
            return None;
        }
        assert(tail[0] == all[pos as int]);
        if bytes[pos] == 0 {
            proof {
                lemma_open_entries_concat(done, Seq::empty());
                assert(done + Seq::<(ValueView, ValueView)>::empty() =~= done);
                assert(all.subrange(at as int, pos + 1) =~= open_entries_key(done) + seq![0u8]);
            }
            return Some((entries, pos + 1));
        }
        if bytes[pos] != 1 {
            return None;
        }
        let (key, middle) = match read_value_key(bytes, pos + 1) {
            None => {
                proof {
                    if goes_on(all, pos + 1) {
                        let (k, v) = choose|k: ValueView, v: ValueView|
                            storable(k) && storable(v) && #[trigger] starts_with(
                                all.skip(pos + 1),
                                value_key(k) + value_key(v),
                            );
                        lemma_starts_split(all.skip(pos + 1), value_key(k), value_key(v));
                        assert(holds_key(all, pos + 1));
                    }
                }
                return None;
            },
            Some(read) => read,
        };
        match read_value_key(bytes, middle) {
            None => {
                proof {
                    if goes_on(all, pos + 1) {
                        let (k, v) = choose|k: ValueView, v: ValueView|
                            storable(k) && storable(v) && #[trigger] starts_with(
                                all.skip(pos + 1),
                                value_key(k) + value_key(v),
                            );
                        let here = all.skip(pos + 1);
                        lemma_starts_split(here, value_key(k), value_key(v));
                        let left = here.skip(value_key(k).len() as int);
                        assert(value_key(k) + left =~= here);
                        assert(value_key(key@) + all.skip(middle as int) =~= here);
                        lemma_value_key_unique(k, key@, left, all.skip(middle as int));
                        assert(starts_with(all.skip(middle as int), value_key(v)));
                        assert(holds_key(all, middle as int));
                    }
                }
                return None;
            },
            Some((value, end)) => {
                proof {
                    assert(all.subrange(at as int, end as int) =~= open_entries_key(done) + (
                    seq![1u8] + all.subrange(pos + 1, middle as int) + all.subrange(
                        middle as int,
                        end as int,
                    )));
                    assert(done.push((key@, value@)).drop_last() =~= done);
                }
                let ghost pair = (key@, value@);
                entries.push((key, value));
                assert(pair_views(entries@) =~= done.push(pair));
                pos = end;
            },
        }
    }
}

/// Whether the bytes from `at` start with those of two values that can be stored.
spec fn goes_on(bytes: Seq<u8>, at: int) -> bool {
    exists|k: ValueView, v: ValueView|
        storable(k) && storable(v) && #[trigger] starts_with(
            bytes.skip(at),
            value_key(k) + value_key(v),
        )
}

/// The number that an integer is in a word: below zero, its distance from the end of the range.
pub open spec fn word_number(i: i64) -> nat {
    if i >= 0 {
        i as nat
    } else {
        (i + 0x0100_0000_0000_0000) as nat
    }
}

/// The seven low bytes of the word of an integer, the least first.
pub open spec fn word_low(i: i64) -> Seq<u8> {
    be_bytes(word_number(i), 7).reverse()
}

/// The seven low bytes of the word of any other value.
pub open spec fn word_blank() -> Seq<u8> {
    Seq::new(7, |i: int| 0u8)
}

/// Whether a value fits a word: an integer has to be in range.
pub open spec fn fits_word(value: ValueView) -> bool {
    value matches ValueView::Int(i) ==> INT_MIN <= i <= INT_MAX
}

/// Whether a value fits a word.
pub fn value_fits_word(value: &Value) -> (result: bool)
    ensures
        result == fits_word(value@),
{
    match value {
        Value::Int(i) => INT_MIN <= *i && *i <= INT_MAX,
        _ => true,
    }
}

/// The bytes that a value is stored as.
pub open spec fn stored_form(value: ValueView) -> Seq<u8> {
    match value {
        ValueView::Int(i) => word_low(i) + seq![2u8],
        _ => word_blank() + value_key(value),
    }
}

proof fn lemma_word_number(i: i64)
    requires
        INT_MIN <= i <= INT_MAX,
    ensures
        word_number(i) < vstd::arithmetic::power::pow(256, 7),
        word_low(i).len() == 7,
        word_low(i).reverse() == be_bytes(word_number(i), 7),
        i >= 0 ==> word_number(i) < 0x0080_0000_0000_0000,
        i < 0 ==> word_number(i) >= 0x0080_0000_0000_0000,
{
    lemma_pow256_values();
    lemma_be_bytes_len(word_number(i), 7);
    assert(word_low(i).reverse() =~= be_bytes(word_number(i), 7));
}

/// Where the stored forms of two values start alike, the values are equal.
proof fn lemma_stored_form_unique(a: ValueView, b: ValueView, x: Seq<u8>, y: Seq<u8>)
    requires
        storable(a),
        storable(b),
        stored_form(a) + x == stored_form(b) + y,
    ensures
        a == b,
{
    lemma_key_parts(a);
    lemma_key_parts(b);
    let whole = stored_form(a) + x;
    if let ValueView::Int(i) = a {
        lemma_word_number(i);
    }
    if let ValueView::Int(i) = b {
        lemma_word_number(i);
    }
    assert(whole[7] == kind_tag(a));
    assert(whole[7] == kind_tag(b));
    if a is Int {
        let (i, j) = (a->Int_0, b->Int_0);
        assert(whole.take(7) =~= word_low(i));
        assert(whole.take(7) =~= word_low(j));
        lemma_be_bytes_injective(word_number(i), word_number(j), 7);
    } else {
        assert(whole.skip(7) =~= value_key(a) + x);
        assert(whole.skip(7) =~= value_key(b) + y);
        lemma_value_key_unique(a, b, x, y);
    }
}

/// Appends the bytes that a value is stored as.
pub fn push_stored_form(out: &mut Vec<u8>, value: &Value)
    requires
        fits_word(value@),
    ensures
        final(out)@ == old(out)@ + stored_form(value@),
{
    match value {
        Value::Int(i) => {
            let n: u64 = if *i >= 0 {
                *i as u64
            } else {
                (*i + 0x0100_0000_0000_0000) as u64
            };
            let mut word: Vec<u8> = Vec::new();
            push_be(&mut word, n, 7);
            proof {
                lemma_be_bytes_len(n as nat, 7);
                assert(word@ =~= be_bytes(n as nat, 7));
            }
            let ghost low = word_low(*i);
            let mut k: usize = 0;
            while k < 7
                invariant
                    k <= 7,
                    word@.len() == 7,
                    low == word@.reverse(),
                    out@ == old(out)@ + low.take(k as int),
                decreases 7 - k,
            {
                out.push(word[6 - k]);
                k = k + 1;
                assert(low.take(k as int) =~= low.take(k - 1).push(low[k - 1]));
                assert(out@ =~= old(out)@ + low.take(k as int));
            }
            assert(low.take(7) =~= low);
            out.push(2);
            assert(out@ =~= old(out)@ + stored_form(value@));
        },
        _ => {
            let mut k: usize = 0;
            while k < 7
                invariant
                    k <= 7,
                    out@ == old(out)@ + word_blank().take(k as int),
                decreases 7 - k,
            {
                out.push(0);
                k = k + 1;
                assert(out@ =~= old(out)@ + word_blank().take(k as int));
            }
            assert(word_blank().take(7) =~= word_blank());
            push_value_key(out, value);
            assert(out@ =~= old(out)@ + stored_form(value@));
        },
    }
}

/// Whether the bytes from `at` start with those that some value is stored as.
pub open spec fn holds_value(bytes: Seq<u8>, at: int) -> bool {
    exists|value: ValueView|
        storable(value) && #[trigger] starts_with(bytes.skip(at), stored_form(value))
}

/// The value that bytes hold from `at` on.
pub open spec fn value_at(bytes: Seq<u8>, at: int) -> ValueView {
    choose|value: ValueView|
        storable(value) && #[trigger] starts_with(bytes.skip(at), stored_form(value))
}

/// Bytes that start with those that a value is stored as hold that value and no other.
pub proof fn law_stored_value_is_read_back(bytes: Seq<u8>, at: int, value: ValueView)
    requires
        storable(value),
        starts_with(bytes.skip(at), stored_form(value)),
    ensures
        holds_value(bytes, at),
        value_at(bytes, at) == value,
{
    let rest = bytes.skip(at);
    let other = value_at(bytes, at);
    let x = rest.skip(stored_form(value).len() as int);
    let y = rest.skip(stored_form(other).len() as int);
    assert(stored_form(value) + x =~= rest);
    assert(stored_form(other) + y =~= rest);
    lemma_stored_form_unique(value, other, x, y);
}

/// What the bytes of a stored value tell: its kind, and what stands where.
proof fn lemma_stored_head(bytes: Seq<u8>, at: int, value: ValueView)
    requires
        0 <= at <= bytes.len(),
        storable(value),
        starts_with(bytes.skip(at), stored_form(value)),
    ensures
        at + 8 <= bytes.len(),
        bytes[at + 7] == kind_tag(value),
        value is Int ==> bytes.subrange(at, at + 7) == word_low(value->Int_0),
        !(value is Int) ==> bytes.subrange(at, at + 7) == word_blank() && starts_with(
            bytes.skip(at + 7),
            value_key(value),
        ),
{
    let rest = bytes.skip(at);
    let form = stored_form(value);
    lemma_key_parts(value);
    if let ValueView::Int(i) = value {
        lemma_word_number(i);
        assert(rest.take(form.len() as int)[7] == form[7]);
        assert(bytes.subrange(at, at + 7) =~= rest.take(form.len() as int).take(7));
        assert(form.take(7) =~= word_low(i));
    } else {
        assert(rest.take(form.len() as int)[7] == form[7]);
        assert(bytes.subrange(at, at + 7) =~= rest.take(form.len() as int).take(7));
        assert(form.take(7) =~= word_blank());
        lemma_starts_split(rest, word_blank(), value_key(value));
        assert(rest.skip(7) =~= bytes.skip(at + 7));
    }
}

/// Reads a value from the bytes that it is stored as.
pub fn read_stored_value(bytes: &[u8], at: usize) -> (read: Option<(Value, usize)>)
    requires
        at <= bytes@.len(),
    ensures
        match read {
            Some((value, end)) => {
                &&& at < end <= bytes@.len()
                &&& bytes@.subrange(at as int, end as int) == stored_form(value@)
                &&& storable(value@)
            },
            None => !holds_value(bytes@, at as int),
        },
{
    let ghost all = bytes@;
    proof {
        assert forall|value: ValueView|
            storable(value) && #[trigger] starts_with(
                all.skip(at as int),
                stored_form(value),
            ) implies at + 8 <= all.len() && all[at + 7] == kind_tag(value) && (value is Int
            ==> all.subrange(at as int, at + 7) == word_low(value->Int_0)) && (!(value is Int)
            ==> all.subrange(at as int, at + 7) == word_blank() && starts_with(
            all.skip(at + 7),
            value_key(value),
        )) by {
            lemma_stored_head(all, at as int, value);
        }
    }
    if bytes.len() - at < 8 {
        return None;
    }
    let middle: usize = at + 7;
    if bytes[middle] == 2 {
        let mut word: Vec<u8> = Vec::new();
        let mut k: usize = 0;
        while k < 7
            invariant
                k <= 7,
                at + 8 <= bytes@.len() <= usize::MAX,
                word@.len() == k,
                forall|j: int| 0 <= j < k ==> (#[trigger] word@[j]) == bytes@[at + 6 - j],
            decreases 7 - k,
        {
            word.push(bytes[at + (6 - k)]);
            k = k + 1;
        }
        let n: u64 = read_be(&word, 0, 7);
        let ghost low = all.subrange(at as int, middle as int);
        proof {
            lemma_pow256_values();
            assert(word@.subrange(0, 7) =~= word@);
            lemma_be_bytes_of_value(word@);
            lemma_be_value_bound(word@);
            assert(low =~= word@.reverse());
        }
        let i: i64 = if n < 0x0080_0000_0000_0000 {
            n as i64
        } else {
            (n as i128 - 0x0100_0000_0000_0000) as i64
        };
        proof {
            assert(word_number(i) == n);
            assert(all.subrange(at as int, at + 8) =~= low + seq![2u8]);
        }
        return Some((Value::Int(i), at + 8));
    }
    let mut k: usize = 0;
    while k < 7
        invariant
            k <= 7,
            at + 8 <= bytes@.len() <= usize::MAX,
            all == bytes@,
            forall|j: int| at <= j < at + k ==> (#[trigger] all[j]) == 0,
            all[at + 7] != 2,
            forall|value: ValueView|
                storable(value) && #[trigger] starts_with(
                    all.skip(at as int),
                    stored_form(value),
                ) && !(value is Int) ==> all.subrange(at as int, at + 7) == word_blank(),
            forall|value: ValueView|
                storable(value) && #[trigger] starts_with(
                    all.skip(at as int),
                    stored_form(value),
                ) ==> all[at + 7] == kind_tag(value),
        decreases 7 - k,
    {
        if bytes[at + k] != 0 {
            proof {
                assert forall|value: ValueView| storable(value) implies !#[trigger] starts_with(
                    all.skip(at as int),
                    stored_form(value),
                ) by {
                    if starts_with(all.skip(at as int), stored_form(value)) {
                        assert(all.subrange(at as int, at + 7)[k as int] == all[at + k]);
                        assert(word_blank()[k as int] == 0);
                    }
                }
            }
            return None;
        }
        k = k + 1;
    }
    match read_value_key(bytes, middle) {
        Some((value, end)) => {
            proof {
                lemma_key_parts(value@);
                let key = all.subrange(middle as int, end as int);
                assert(key[0] == all[middle as int]);
                assert(all.subrange(at as int, middle as int) =~= word_blank());
                assert(all.subrange(at as int, end as int) =~= word_blank() + key);
            }
            Some((value, end))
        },
        None => None,
    }
}

} // verus!
