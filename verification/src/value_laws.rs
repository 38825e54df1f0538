//! What holds of how values, texts and rows stand to each other.

use crate::bytes::{be_bytes, lemma_lex_common_prefix, lemma_pow256_step, lemma_pow256_values,
    lex_less};
use crate::text::{decimal, digit_char, digits_value, is_digit, parsed_number, unsigned_part};
use crate::tuple::row_less;
use crate::value::{field_of, immediate, lemma_char_code, lemma_value_key_unique,
    lemma_values_key_concat, text_key, value_key, values_key, ValueView};
use crate::value_codec::fits_word;
use vstd::arithmetic::power::pow;
use vstd::prelude::*;

verus! {

/// Whether one value stands before another.
pub open spec fn value_before(a: ValueView, b: ValueView) -> bool {
    lex_less(value_key(a), value_key(b))
}

proof fn lemma_numbers_in_order(a: nat, b: nat, width: nat, x: Seq<u8>, y: Seq<u8>)
    requires
        a < b < pow(256, width),
    ensures
        lex_less(be_bytes(a, width) + x, be_bytes(b, width) + y),
    decreases width,
{
    if width == 0 {
        vstd::arithmetic::power::lemma_pow0(256);
    } else {
        let less = (width - 1) as nat;
        lemma_pow256_step(width);
        let high_a = a / 256;
        let high_b = b / 256;
        let low_a = seq![(a % 256) as u8];
        let low_b = seq![(b % 256) as u8];
        assert(be_bytes(a, width) + x =~= be_bytes(high_a, less) + (low_a + x));
        assert(be_bytes(b, width) + y =~= be_bytes(high_b, less) + (low_b + y));
        if high_a < high_b {
            assert(high_b < pow(256, less)) by (nonlinear_arith)
                requires
                    high_b == b / 256,
                    b < pow(256, width),
                    pow(256, width) == 256 * pow(256, less),
            ;
            lemma_numbers_in_order(high_a, high_b, less, low_a + x, low_b + y);
        } else {
            assert(high_a == high_b);
            lemma_lex_common_prefix(be_bytes(high_a, less), low_a + x, low_b + y);
            assert((low_a + x)[0] == low_a[0]);
            assert((low_b + y)[0] == low_b[0]);
        }
    }
}

/// Integers stand in the order of their numbers, identities in that of theirs, and false before
/// true.
pub proof fn law_numbers_stand_in_their_order(i: i64, j: i64, a: u64, b: u64)
    ensures
        i < j ==> value_before(ValueView::Int(i), ValueView::Int(j)),
        a < b ==> value_before(ValueView::Identity(a), ValueView::Identity(b)),
        value_before(ValueView::Bool(false), ValueView::Bool(true)),
{
    lemma_pow256_values();
    let empty = Seq::<u8>::empty();
    if i < j {
        let m = (i + 0x8000_0000_0000_0000) as nat;
        let n = (j + 0x8000_0000_0000_0000) as nat;
        lemma_numbers_in_order(m, n, 8, empty, empty);
        assert(be_bytes(m, 8) + empty =~= be_bytes(m, 8));
        assert(be_bytes(n, 8) + empty =~= be_bytes(n, 8));
        lemma_lex_common_prefix(seq![2u8], be_bytes(m, 8), be_bytes(n, 8));
    }
    if a < b {
        lemma_numbers_in_order(a as nat, b as nat, 8, empty, empty);
        assert(be_bytes(a as nat, 8) + empty =~= be_bytes(a as nat, 8));
        assert(be_bytes(b as nat, 8) + empty =~= be_bytes(b as nat, 8));
        lemma_lex_common_prefix(seq![3u8], be_bytes(a as nat, 8), be_bytes(b as nat, 8));
    }
    lemma_lex_common_prefix(seq![1u8], seq![0u8], seq![1u8]);
    assert(seq![1u8] + seq![0u8] =~= value_key(ValueView::Bool(false)));
    assert(seq![1u8] + seq![1u8] =~= value_key(ValueView::Bool(true)));
    assert(lex_less(seq![0u8], seq![1u8])) by {
        assert(seq![0u8][0] != seq![1u8][0]);
    }
}

proof fn lemma_first_byte(a: Seq<u8>, b: Seq<u8>)
    requires
        a.len() > 0,
        b.len() > 0,
        a[0] < b[0],
    ensures
        lex_less(a, b),
{
}

/// Values of different kinds stand in one order of the kinds.
pub proof fn law_kinds_stand_in_order(
    truth: bool,
    number: i64,
    identity: u64,
    name: Seq<char>,
    text: Seq<char>,
    items: Seq<ValueView>,
    entries: Seq<(ValueView, ValueView)>,
    held: ValueView,
)
    ensures
        value_before(ValueView::Nothing, ValueView::Bool(truth)),
        value_before(ValueView::Bool(truth), ValueView::Int(number)),
        value_before(ValueView::Int(number), ValueView::Identity(identity)),
        value_before(ValueView::Identity(identity), ValueView::Symbol(name)),
        value_before(ValueView::Symbol(name), ValueView::String(text)),
        value_before(ValueView::String(text), ValueView::List(items)),
        value_before(ValueView::List(items), ValueView::Mapping(entries)),
        value_before(ValueView::Mapping(entries), ValueView::OptionNone),
        value_before(ValueView::OptionNone, ValueView::OptionSome(Box::new(held))),
        value_before(
            ValueView::OptionSome(Box::new(held)),
            ValueView::Frob(identity, Box::new(held)),
        ),
        value_before(
            ValueView::Frob(identity, Box::new(held)),
            ValueView::Error(name, Some(text), Box::new(held)),
        ),
{
    let nothing = ValueView::Nothing;
    let some = ValueView::OptionSome(Box::new(held));
    let frob = ValueView::Frob(identity, Box::new(held));
    let error = ValueView::Error(name, Some(text), Box::new(held));
    assert(value_key(nothing)[0] == 0);
    assert(value_key(ValueView::Bool(truth))[0] == 1);
    assert(value_key(ValueView::Int(number))[0] == 2);
    assert(value_key(ValueView::Identity(identity))[0] == 3);
    assert(value_key(ValueView::Symbol(name))[0] == 4);
    assert(value_key(ValueView::String(text))[0] == 5);
    assert(value_key(ValueView::List(items))[0] == 6);
    assert(value_key(ValueView::Mapping(entries))[0] == 7);
    assert(value_key(ValueView::OptionNone)[0] == 8);
    assert(value_key(some)[0] == 9);
    assert(value_key(frob)[0] == 10);
    assert(value_key(error)[0] == 11);
    lemma_first_byte(value_key(nothing), value_key(ValueView::Bool(truth)));
    lemma_first_byte(value_key(ValueView::Bool(truth)), value_key(ValueView::Int(number)));
    lemma_first_byte(value_key(ValueView::Int(number)), value_key(ValueView::Identity(identity)));
    lemma_first_byte(value_key(ValueView::Identity(identity)), value_key(ValueView::Symbol(name)));
    lemma_first_byte(value_key(ValueView::Symbol(name)), value_key(ValueView::String(text)));
    lemma_first_byte(value_key(ValueView::String(text)), value_key(ValueView::List(items)));
    lemma_first_byte(value_key(ValueView::List(items)), value_key(ValueView::Mapping(entries)));
    lemma_first_byte(value_key(ValueView::Mapping(entries)), value_key(ValueView::OptionNone));
    lemma_first_byte(value_key(ValueView::OptionNone), value_key(some));
    lemma_first_byte(value_key(some), value_key(frob));
    lemma_first_byte(value_key(frob), value_key(error));
}

proof fn lemma_text_parts(head: Seq<char>, tail: Seq<char>, more: Seq<char>)
    ensures
        lex_less(text_key(head + tail), text_key(head + more)) == lex_less(
            text_key(tail),
            text_key(more),
        ),
    decreases head.len(),
{
    if head.len() == 0 {
        assert(head + tail =~= tail);
        assert(head + more =~= more);
    } else {
        let rest = head.drop_first();
        lemma_text_parts(rest, tail, more);
        assert((head + tail).drop_first() =~= rest + tail);
        assert((head + more).drop_first() =~= rest + more);
        lemma_lex_common_prefix(
            be_bytes((head[0] as nat + 1) as nat, 3),
            text_key(rest + tail),
            text_key(rest + more),
        );
    }
}

/// Texts stand in the order of the first characters in which they differ, and a text stands before
/// those that go on after it.
pub proof fn law_texts_stand_in_their_order(
    head: Seq<char>,
    a: char,
    b: char,
    tail: Seq<char>,
    more: Seq<char>,
)
    requires
        a < b,
    ensures
        value_before(
            ValueView::String(head + seq![a] + tail),
            ValueView::String(head + seq![b] + more),
        ),
        value_before(ValueView::String(head), ValueView::String(head + seq![b] + more)),
        value_before(
            ValueView::Symbol(head + seq![a] + tail),
            ValueView::Symbol(head + seq![b] + more),
        ),
        value_before(ValueView::Symbol(head), ValueView::Symbol(head + seq![b] + more)),
{
    let none = Seq::<char>::empty();
    let low = seq![a] + tail;
    let high = seq![b] + more;
    assert(head + seq![a] + tail =~= head + low);
    assert(head + seq![b] + more =~= head + high);
    assert(head + none =~= head);
    lemma_text_parts(head, low, high);
    lemma_text_parts(head, none, high);
    lemma_char_code(a);
    lemma_char_code(b);
    lemma_pow256_values();
    let end = Seq::<u8>::empty();
    assert(low.drop_first() =~= tail);
    assert(high.drop_first() =~= more);
    lemma_numbers_in_order((a as nat + 1) as nat, (b as nat + 1) as nat, 3, text_key(tail), text_key(more));
    lemma_numbers_in_order(0, (b as nat + 1) as nat, 3, end, text_key(more));
    assert(be_bytes(0, 3) + end =~= text_key(none));
    lemma_lex_common_prefix(seq![5u8], text_key(head + low), text_key(head + high));
    lemma_lex_common_prefix(seq![4u8], text_key(head + low), text_key(head + high));
    lemma_lex_common_prefix(seq![5u8], text_key(head), text_key(head + high));
    lemma_lex_common_prefix(seq![4u8], text_key(head), text_key(head + high));
}

proof fn lemma_goes_on(a: Seq<u8>, b: Seq<u8>, x: Seq<u8>, y: Seq<u8>)
    requires
        lex_less(a, b),
    ensures
        lex_less(a + x, b + y) || (a.len() <= b.len() && b.take(a.len() as int) == a),
    decreases a.len(),
{
    if a.len() == 0 {
        assert(b.take(0) =~= a);
    } else {
        assert((a + x)[0] == a[0]);
        assert((b + y)[0] == b[0]);
        if a[0] == b[0] {
            let p = a.drop_first();
            let q = b.drop_first();
            lemma_goes_on(p, q, x, y);
            assert((a + x).drop_first() =~= p + x);
            assert((b + y).drop_first() =~= q + y);
            if !lex_less(p + x, q + y) {
                assert forall|i: int| 0 <= i < a.len() implies b.take(a.len() as int)[i] == a[i] by {
                    if i > 0 {
                        assert(q.take(p.len() as int)[i - 1] == p[i - 1]);
                    }
                }
                assert(b.take(a.len() as int) =~= a);
            }
        }
    }
}

/// Rows stand in the order of the first values in which they differ, and a row stands before those
/// that go on after it.
pub proof fn law_rows_stand_in_the_order_of_their_values(
    head: Seq<ValueView>,
    a: ValueView,
    b: ValueView,
    tail: Seq<ValueView>,
    more: Seq<ValueView>,
)
    requires
        value_before(a, b),
    ensures
        row_less(head + seq![a] + tail, head + seq![b] + more),
        row_less(head, head + seq![b] + more),
{
    let low = seq![a] + tail;
    let high = seq![b] + more;
    assert(head + seq![a] + tail =~= head + low);
    assert(head + seq![b] + more =~= head + high);
    lemma_values_key_concat(head, low);
    lemma_values_key_concat(head, high);
    assert(low.subrange(1, low.len() as int) =~= tail);
    assert(high.subrange(1, high.len() as int) =~= more);
    let p = value_key(a);
    let q = value_key(b);
    lemma_goes_on(p, q, values_key(tail), values_key(more));
    if p.len() <= q.len() && q.take(p.len() as int) == p {
        let rest = q.skip(p.len() as int);
        assert(p + rest =~= q + Seq::<u8>::empty());
        lemma_value_key_unique(a, b, rest, Seq::<u8>::empty());
        crate::bytes::lemma_lex_irreflexive(p);
    }
    lemma_lex_common_prefix(values_key(head), values_key(low), values_key(high));
    let end = Seq::<u8>::empty();
    assert(values_key(head) + end =~= values_key(head));
    lemma_lex_common_prefix(values_key(head), end, values_key(high));
    crate::value::lemma_key_parts(b);
    assert(values_key(high).len() > 0);
}

proof fn lemma_digit(d: nat)
    requires
        d < 10,
    ensures
        is_digit(digit_char(d)),
        digit_char(d) as nat - '0' as nat == d,
        digit_char(d) != '+',
{
}

proof fn lemma_decimal(n: nat)
    ensures
        decimal(n).len() > 0,
        forall|i: int| 0 <= i < decimal(n).len() ==> is_digit(#[trigger] decimal(n)[i]),
        digits_value(decimal(n)) == n,
    decreases n,
{
    lemma_digit(n % 10);
    if n < 10 {
        assert(decimal(n).drop_last() =~= Seq::<char>::empty());
        assert(decimal(n).last() == digit_char(n));
        assert(digits_value(decimal(n).drop_last()) == 0);
    } else {
        lemma_decimal(n / 10);
        assert(decimal(n).drop_last() =~= decimal(n / 10));
        assert(decimal(n).last() == digit_char(n % 10));
    }
}

/// A number that is written out is read back where it is within bounds, with a sign before it or
/// without one, and is refused where it is not.
pub proof fn law_a_written_number_is_read_back(n: nat, max: nat)
    ensures
        n <= max ==> parsed_number(decimal(n), max) == Some(n),
        n <= max ==> parsed_number(seq!['+'] + decimal(n), max) == Some(n),
        n > max ==> parsed_number(decimal(n), max) is None,
{
    lemma_decimal(n);
    assert(is_digit(decimal(n)[0]));
    assert(unsigned_part(decimal(n)) == decimal(n));
    assert((seq!['+'] + decimal(n)).skip(1) =~= decimal(n));
}

/// Different numbers are written out differently.
pub proof fn law_written_numbers_differ(a: nat, b: nat)
    requires
        decimal(a) == decimal(b),
    ensures
        a == b,
{
    lemma_decimal(a);
    lemma_decimal(b);
}

/// What is read as a number is made of digits alone, but for a sign before them.
pub proof fn law_only_digits_are_read_as_a_number(text: Seq<char>, max: nat, i: int)
    requires
        parsed_number(text, max) is Some,
        0 <= i < text.len(),
    ensures
        '0' <= text[i] <= '9' || (i == 0 && text[0] == '+' && text.len() > 1),
        parsed_number(text, max)->0 <= max,
{
    if text[0] == '+' {
        if i > 0 {
            assert(unsigned_part(text)[i - 1] == text[i]);
        }
    } else {
        assert(unsigned_part(text)[i] == text[i]);
    }
}

/// A mapping's field is held by its first entry under that name, and is missing where no entry has
/// the name.
pub proof fn law_a_field_is_held_by_its_first_entry(
    entries: Seq<(ValueView, ValueView)>,
    name: Seq<char>,
    k: int,
)
    requires
        0 <= k <= entries.len(),
        forall|j: int| 0 <= j < k ==> (#[trigger] entries[j]).0 != ValueView::Symbol(name),
        k < entries.len() ==> entries[k].0 == ValueView::Symbol(name),
    ensures
        field_of(ValueView::Mapping(entries), name) == if k < entries.len() {
            Some(entries[k].1)
        } else {
            None
        },
    decreases entries.len(),
{
    if k > 0 {
        let rest = entries.drop_first();
        assert forall|j: int| 0 <= j < k - 1 implies (#[trigger] rest[j]).0 != ValueView::Symbol(
            name,
        ) by {
            assert(rest[j] == entries[j + 1]);
        }
        assert(entries[0].0 != ValueView::Symbol(name));
        if k < entries.len() {
            assert(rest[k - 1] == entries[k]);
        }
        law_a_field_is_held_by_its_first_entry(rest, name, k - 1);
    }
}

/// Only mappings have fields.
pub proof fn law_only_mappings_have_fields(value: ValueView, name: Seq<char>)
    requires
        !(value is Mapping),
    ensures
        field_of(value, name) is None,
{
}

/// Which values are held in place, without a reference to the heap.
pub proof fn law_which_values_are_held_in_place(value: ValueView)
    ensures
        value is Nothing || value is Bool || value is Int || value is Identity || value is Symbol
            || value is OptionNone || value is Capability || value is Float ==> immediate(value),
        value is String || value is List || value is Mapping || value is OptionSome || value is Frob
            || value is Error || value is Bytes || value is Relation ==> !immediate(value),
{
}

/// Every value but an integer beyond the range of integers fits a word.
pub proof fn law_which_values_fit_a_word(value: ValueView)
    ensures
        !(value is Int) ==> fits_word(value),
        value matches ValueView::Int(i) ==> (fits_word(value) <==> -0x0080_0000_0000_0000 <= i
            <= 0x007f_ffff_ffff_ffff),
{
}

} // verus!
